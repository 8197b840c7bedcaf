use vstd::prelude::*;

use crate::error::ErrorView;
use crate::grammar::{
    atoms_in, atoms_in_all, flat, flat_all, molecule_of, peek, starts_unit, tokens_left, tree_of,
    unit_around, units_at, Tree,
};
use crate::lexer::{
    lemma_token_within_text, token_len, tokens_from, tokens_of, TokenView,
};
use crate::merge::{
    has_unique_symbols, lemma_merged_push_new, lemma_merged_unique, lemma_symbols_occur,
    lemma_total_absent, merged, occurs, symbols, total,
};
use crate::model::{checked, in_range, scaled, Counts};

verus! {

/// The total over two sequences of entries, one after the other, is the sum of their totals.
pub proof fn lemma_total_concat(left: Counts, right: Counts, symbol: Seq<char>)
    ensures
        total(left + right, symbol) == total(left, symbol) + total(right, symbol),
    decreases right.len(),
{
    if right.len() == 0 {
        assert(left + right =~= left);
    } else {
        lemma_total_concat(left, right.drop_last(), symbol);
        assert((left + right).drop_last() =~= left + right.drop_last());
    }
}

/// Scaling every count scales the total.
pub proof fn lemma_total_scaled(counts: Counts, multiplier: nat, symbol: Seq<char>)
    ensures
        total(scaled(counts, multiplier), symbol) == total(counts, symbol) * multiplier,
    decreases counts.len(),
{
    if counts.len() > 0 {
        let before = counts.drop_last();
        lemma_total_scaled(before, multiplier, symbol);
        assert(scaled(counts, multiplier).drop_last() =~= scaled(before, multiplier));
        assert((total(before, symbol) + counts.last().1) * multiplier == total(before, symbol)
            * multiplier + counts.last().1 * multiplier) by (nonlinear_arith);
    } else {
        assert(total(counts, symbol) * multiplier == 0) by (nonlinear_arith)
            requires
                total(counts, symbol) == 0,
        ;
    }
}

/// In entries with unique symbols, the total of an entry's symbol is that entry's count.
pub proof fn lemma_total_of_unique(counts: Counts, index: int)
    requires
        has_unique_symbols(counts),
        0 <= index < counts.len(),
    ensures
        total(counts, counts[index].0) == counts[index].1,
    decreases counts.len(),
{
    let symbol = counts[index].0;
    let before = counts.drop_last();
    if index == counts.len() - 1 {
        assert forall|i: int| 0 <= i < before.len() implies (#[trigger] before[i]).0 != symbol by {
            assert(counts[i].0 != counts[index].0);
        }
        lemma_total_absent(before, symbol);
    } else {
        assert(counts[index].0 != counts[counts.len() - 1].0);
        assert(before[index] == counts[index]);
        assert forall|i: int, j: int| 0 <= i < j < before.len() implies (#[trigger] before[i]).0 != (
        #[trigger] before[j]).0 by {
            assert(counts[i].0 != counts[j].0);
        }
        lemma_total_of_unique(before, index);
    }
}

/// Merging keeps the total of every symbol.
pub proof fn lemma_merged_totals(counts: Counts, symbol: Seq<char>)
    ensures
        total(merged(counts), symbol) == total(counts, symbol),
{
    lemma_symbols_occur(counts, symbol);
    lemma_merged_unique(counts);
    if symbols(counts).contains(symbol) {
        let k = choose|k: int| 0 <= k < symbols(counts).len() && symbols(counts)[k] == symbol;
        assert(merged(counts)[k] == (symbol, total(counts, symbol)));
        lemma_total_of_unique(merged(counts), k);
    } else {
        assert forall|i: int| 0 <= i < merged(counts).len() implies (#[trigger] merged(
            counts,
        )[i]).0 != symbol by {
            assert(symbols(counts)[i] != symbol);
        }
        lemma_total_absent(merged(counts), symbol);
        lemma_total_absent(counts, symbol);
    }
}

/// Merging entries whose symbols are unique changes nothing.
pub proof fn lemma_merged_of_unique(counts: Counts)
    requires
        has_unique_symbols(counts),
    ensures
        merged(counts) == counts,
    decreases counts.len(),
{
    if counts.len() == 0 {
        assert(merged(counts) =~= counts);
    } else {
        let before = counts.drop_last();
        let last = counts.last();
        assert forall|i: int, j: int| 0 <= i < j < before.len() implies (#[trigger] before[i]).0 != (
        #[trigger] before[j]).0 by {
            assert(counts[i].0 != counts[j].0);
        }
        lemma_merged_of_unique(before);
        assert forall|i: int| 0 <= i < before.len() implies (#[trigger] before[i]).0 != last.0 by {
            assert(counts[i].0 != counts[counts.len() - 1].0);
        }
        lemma_merged_push_new(before, last);
        assert(before.push(last) =~= counts);
    }
}

/// Merging is idempotent: merging what was merged gives the same entries.
pub proof fn lemma_merge_idempotent(counts: Counts)
    ensures
        merged(merged(counts)) == merged(counts),
{
    lemma_merged_unique(counts);
    lemma_merged_of_unique(merged(counts));
}

/// Merging entries that are merged already and fit in `usize` succeeds and
/// gives them back unchanged; this is what `merge_atoms` returns for them.
pub proof fn lemma_merge_of_merged(counts: Counts)
    requires
        has_unique_symbols(counts),
        in_range(counts),
    ensures
        checked(merged(counts)) == Ok::<Counts, ErrorView>(counts),
{
    lemma_merged_of_unique(counts);
}

/// The flattened entries of a tree hold, for every symbol, the atoms of the tree:
/// each atom's count times the product of the multipliers above it.
pub proof fn lemma_flat_counts(tree: Tree, symbol: Seq<char>, factor: nat)
    ensures
        total(flat(tree), symbol) * factor == atoms_in(tree, symbol, factor),
    decreases tree,
{
    match tree {
        Tree::Atom(name, count) => {
            let entries = seq![(name, count)];
            assert(entries.drop_last() =~= Seq::<(Seq<char>, nat)>::empty());
            assert(total(entries.drop_last(), symbol) == 0);
            if name != symbol {
                assert(total(flat(tree), symbol) * factor == 0) by (nonlinear_arith)
                    requires
                        total(flat(tree), symbol) == 0,
                ;
            }
        },
        Tree::Index(multiplier, children) => {
            lemma_total_scaled(flat_all(children), multiplier, symbol);
            lemma_flat_all_counts(children, symbol, factor * multiplier);
            let sum = total(flat_all(children), symbol);
            assert((sum * multiplier) * factor == sum * (factor * multiplier))
                by (nonlinear_arith);
        },
    }
}

/// The same for several trees.
pub proof fn lemma_flat_all_counts(trees: Seq<Tree>, symbol: Seq<char>, factor: nat)
    ensures
        total(flat_all(trees), symbol) * factor == atoms_in_all(trees, symbol, factor),
    decreases trees,
{
    if trees.len() == 0 {
        assert(total(flat_all(trees), symbol) * factor == 0) by (nonlinear_arith)
            requires
                total(flat_all(trees), symbol) == 0,
        ;
    } else {
        lemma_flat_all_counts(trees.drop_last(), symbol, factor);
        lemma_flat_counts(trees.last(), symbol, factor);
        lemma_total_concat(flat_all(trees.drop_last()), flat(trees.last()), symbol);
        let a = total(flat_all(trees.drop_last()), symbol);
        let b = total(flat(trees.last()), symbol);
        assert((a + b) * factor == a * factor + b * factor) by (nonlinear_arith);
    }
}

/// No two entries of the molecule of a formula share a symbol.
pub proof fn lemma_molecule_unique(text: Seq<char>)
    requires
        molecule_of(text) is Ok,
    ensures
        has_unique_symbols(molecule_of(text)->Ok_0),
{
    lemma_merged_unique(flat(tree_of(text)->Ok_0));
}

/// In the molecule of a formula, the count of each element is the sum, over
/// every atom of that element in the formula at any nesting depth, of the
/// atom's index (1 where it has none) times the product of the indices of
/// all groups around it (1 for a group without one). An element that the
/// molecule does not hold has the sum zero.
pub proof fn lemma_molecule_counts(text: Seq<char>, symbol: Seq<char>)
    requires
        molecule_of(text) is Ok,
    ensures
        tree_of(text) is Ok,
        total(molecule_of(text)->Ok_0, symbol) == atoms_in(tree_of(text)->Ok_0, symbol, 1),
        forall|i: int|
            0 <= i < molecule_of(text)->Ok_0.len() && (#[trigger] molecule_of(text)->Ok_0[i]).0
                == symbol ==> molecule_of(text)->Ok_0[i].1 == atoms_in(
                tree_of(text)->Ok_0,
                symbol,
                1,
            ),
        !occurs(molecule_of(text)->Ok_0, symbol) ==> atoms_in(tree_of(text)->Ok_0, symbol, 1) == 0,
{
    let tree = tree_of(text)->Ok_0;
    let counts = molecule_of(text)->Ok_0;
    lemma_merged_totals(flat(tree), symbol);
    lemma_flat_counts(tree, symbol, 1);
    lemma_merged_unique(flat(tree));
    assert forall|i: int| 0 <= i < counts.len() && (#[trigger] counts[i]).0 == symbol implies counts[i].1
        == atoms_in(tree, symbol, 1) by {
        lemma_total_of_unique(counts, i);
    }
    if !occurs(counts, symbol) {
        lemma_total_absent(counts, symbol);
    }
}

/// A sequence of units fails only on a bracket that is not closed by its match.
pub proof fn lemma_units_fail_on_brackets(tokens: Seq<TokenView>, pos: int)
    ensures
        units_at(tokens, pos) matches Err(e) ==> e is MismatchedBracket,
    decreases tokens_left(tokens, pos),
{
    if starts_unit(peek(tokens, pos)) {
        lemma_units_fail_on_brackets(tokens, pos + 1);
        match unit_around(tokens, pos, units_at(tokens, pos + 1)) {
            Ok((_, taken)) => {
                lemma_units_fail_on_brackets(tokens, pos + taken);
            },
            Err(_) => {},
        }
    }
}

/// A formula is rejected for one of four reasons: a character that starts
/// no token, a number out of range, a bracket that is not closed by its
/// match, or tokens left over. It is never rejected with `UnexpectedToken`.
pub proof fn lemma_molecule_errors(text: Seq<char>)
    ensures
        molecule_of(text) matches Err(e) ==> e is LexError || e is Overflow || e
            is MismatchedBracket || e is TrailingTokens,
{
    match tokens_of(text) {
        Ok(tokens) => {
            lemma_units_fail_on_brackets(tokens, 0);
        },
        Err(_) => {
            lemma_tokens_errors(text, 0);
        },
    }
}

/// Lexing fails only on a character that starts no token or on a number out of range.
pub proof fn lemma_tokens_errors(text: Seq<char>, pos: int)
    ensures
        tokens_from(text, pos) matches Err(e) ==> e is LexError || e is Overflow,
    decreases text.len() - pos,
{
    if 0 <= pos < text.len() {
        lemma_token_within_text(text, pos);
        lemma_tokens_errors(text, pos + token_len(text, pos));
    }
}

} // verus!
