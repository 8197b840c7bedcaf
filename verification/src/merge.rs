use vstd::prelude::*;

use crate::error::{ErrorKind, ErrorView};
use crate::model::{
    add_atoms, atom_view, checked, in_range, molecule_view, outcome, Counts, Molecule,
};

verus! {

/// The sum of the counts of all entries of `counts` that carry `symbol`.
pub open spec fn total(counts: Counts, symbol: Seq<char>) -> nat
    decreases counts.len(),
{
    if counts.len() == 0 {
        0
    } else if counts.last().0 == symbol {
        total(counts.drop_last(), symbol) + counts.last().1
    } else {
        total(counts.drop_last(), symbol)
    }
}

/// The symbols of `counts`, each once, in the order in which they first occur.
pub open spec fn symbols(counts: Counts) -> Seq<Seq<char>>
    decreases counts.len(),
{
    if counts.len() == 0 {
        Seq::empty()
    } else if symbols(counts.drop_last()).contains(counts.last().0) {
        symbols(counts.drop_last())
    } else {
        symbols(counts.drop_last()).push(counts.last().0)
    }
}

/// One entry for each symbol of `counts`, in the order in which the symbols
/// first occur, with the total of the symbol's counts.
pub open spec fn merged(counts: Counts) -> Counts {
    symbols(counts).map_values(|symbol: Seq<char>| (symbol, total(counts, symbol)))
}

/// `symbol` is the symbol of some entry of `counts`.
pub open spec fn occurs(counts: Counts, symbol: Seq<char>) -> bool {
    exists|i: int| 0 <= i < counts.len() && (#[trigger] counts[i]).0 == symbol
}

/// No two entries of `counts` share a symbol.
pub open spec fn has_unique_symbols(counts: Counts) -> bool {
    forall|i: int, j: int|
        0 <= i < j < counts.len() ==> (#[trigger] counts[i]).0 != (#[trigger] counts[j]).0
}

/// Adding an entry adds its count to the total of its symbol and to no other.
pub proof fn lemma_total_push(counts: Counts, entry: (Seq<char>, nat), symbol: Seq<char>)
    ensures
        total(counts.push(entry), symbol) == total(counts, symbol) + if entry.0 == symbol {
            entry.1
        } else {
            0
        },
{
    assert(counts.push(entry).drop_last() =~= counts);
}

/// Adding an entry adds its symbol to the symbols unless it is among them.
pub proof fn lemma_symbols_push(counts: Counts, entry: (Seq<char>, nat))
    ensures
        symbols(counts.push(entry)) == if symbols(counts).contains(entry.0) {
            symbols(counts)
        } else {
            symbols(counts).push(entry.0)
        },
{
    assert(counts.push(entry).drop_last() =~= counts);
}

/// `symbols` holds exactly the symbols that occur.
pub proof fn lemma_symbols_occur(counts: Counts, symbol: Seq<char>)
    ensures
        symbols(counts).contains(symbol) <==> occurs(counts, symbol),
    decreases counts.len(),
{
    if counts.len() > 0 {
        let before = counts.drop_last();
        let last = counts.last();
        lemma_symbols_occur(before, symbol);
        if symbols(counts).contains(symbol) {
            if symbols(before).contains(symbol) {
                let i = choose|i: int| 0 <= i < before.len() && (#[trigger] before[i]).0 == symbol;
                assert(counts[i].0 == symbol);
            } else {
                assert(counts[counts.len() - 1].0 == symbol);
            }
        }
        if occurs(counts, symbol) {
            let i = choose|i: int| 0 <= i < counts.len() && (#[trigger] counts[i]).0 == symbol;
            if i < before.len() {
                assert(before[i].0 == symbol);
                let k = choose|k: int|
                    0 <= k < symbols(before).len() && symbols(before)[k] == symbol;
                assert(symbols(counts)[k] == symbol);
            } else if symbols(before).contains(last.0) {
            } else {
                assert(symbols(counts)[symbols(before).len() as int] == symbol);
            }
        }
    }
}

/// `symbols` holds no symbol twice.
pub proof fn lemma_symbols_distinct(counts: Counts)
    ensures
        symbols(counts).no_duplicates(),
    decreases counts.len(),
{
    if counts.len() > 0 {
        lemma_symbols_distinct(counts.drop_last());
    }
}

/// A symbol that does not occur has the total zero.
pub proof fn lemma_total_absent(counts: Counts, symbol: Seq<char>)
    requires
        !occurs(counts, symbol),
    ensures
        total(counts, symbol) == 0,
    decreases counts.len(),
{
    if counts.len() > 0 {
        assert(counts[counts.len() - 1].0 != symbol);
        assert forall|i: int| 0 <= i < counts.drop_last().len() implies (
        #[trigger] counts.drop_last()[i]).0 != symbol by {
            assert(counts[i].0 != symbol);
        }
        lemma_total_absent(counts.drop_last(), symbol);
    }
}

/// The total over the first `len` entries is at most the total over all.
pub proof fn lemma_total_of_prefix(counts: Counts, len: int, symbol: Seq<char>)
    requires
        0 <= len <= counts.len(),
    ensures
        total(counts.take(len), symbol) <= total(counts, symbol),
    decreases counts.len(),
{
    if len < counts.len() {
        lemma_total_of_prefix(counts.drop_last(), len, symbol);
        assert(counts.drop_last().take(len) =~= counts.take(len));
    } else {
        assert(counts.take(len) =~= counts);
    }
}

/// Merging one more entry whose symbol the merged entries hold at index `at`
/// adds its count there.
pub proof fn lemma_merged_push_known(counts: Counts, entry: (Seq<char>, nat), at: int)
    requires
        0 <= at < merged(counts).len(),
        merged(counts)[at].0 == entry.0,
    ensures
        merged(counts.push(entry)) == merged(counts).update(
            at,
            (entry.0, merged(counts)[at].1 + entry.1),
        ),
{
    let longer = counts.push(entry);
    lemma_symbols_distinct(counts);
    lemma_symbols_push(counts, entry);
    assert(symbols(counts)[at] == entry.0);
    assert(symbols(longer) == symbols(counts));
    assert forall|k: int| 0 <= k < merged(longer).len() implies merged(longer)[k] == merged(
        counts,
    ).update(at, (entry.0, merged(counts)[at].1 + entry.1))[k] by {
        lemma_total_push(counts, entry, symbols(counts)[k]);
    }
    assert(merged(longer) =~= merged(counts).update(
        at,
        (entry.0, merged(counts)[at].1 + entry.1),
    ));
}

/// Merging one more entry whose symbol the merged entries do not hold appends it.
pub proof fn lemma_merged_push_new(counts: Counts, entry: (Seq<char>, nat))
    requires
        !occurs(merged(counts), entry.0),
    ensures
        merged(counts.push(entry)) == merged(counts).push(entry),
{
    let longer = counts.push(entry);
    lemma_symbols_occur(counts, entry.0);
    lemma_symbols_push(counts, entry);
    if symbols(counts).contains(entry.0) {
        let k = choose|k: int| 0 <= k < symbols(counts).len() && symbols(counts)[k] == entry.0;
        assert(merged(counts)[k].0 == entry.0);
    }
    assert(symbols(longer) == symbols(counts).push(entry.0));
    lemma_total_absent(counts, entry.0);
    assert forall|k: int| 0 <= k < merged(longer).len() implies merged(longer)[k] == merged(
        counts,
    ).push(entry)[k] by {
        lemma_total_push(counts, entry, symbols(longer)[k]);
    }
    assert(merged(longer) =~= merged(counts).push(entry));
}

/// The index of the first atom of `molecule` that carries `symbol`, if there is one.
pub fn position_of(molecule: &Molecule, symbol: &String) -> (r: Option<usize>)
    ensures
        match r {
            Some(at) => {
                &&& at < molecule.len()
                &&& molecule[at as int].0@ == symbol@
                &&& forall|k: int| 0 <= k < at ==> (#[trigger] molecule[k]).0@ != symbol@
            },
            None => forall|k: int| 0 <= k < molecule.len() ==> (#[trigger] molecule[k]).0@ != symbol@,
        },
{
    let mut at: usize = 0;
    while at < molecule.len()
        invariant
            at <= molecule.len(),
            forall|k: int| 0 <= k < at ==> (#[trigger] molecule[k]).0@ != symbol@,
        decreases molecule.len() - at,
    {
        if molecule[at].0 == *symbol {
            return Some(at);
        }
        at = at + 1;
    }
    None
}

/// Merge the atoms of a molecule that share a symbol.
///
/// After flattening a tree the same element may occur more than once, as
/// oxygen does in `[("K", 4), ("O", 2), ("N", 2), ("S", 4), ("O", 12)]`.
/// The result holds each element once, at the place of its first entry and
/// with the sum of its counts: `[("K", 4), ("O", 14), ("N", 2), ("S", 4)]`.
///
/// Fails with `Overflow` exactly where one of the sums does not fit in `usize`.
pub fn merge_atoms(molecule: &Molecule) -> (r: Result<Molecule, ErrorKind>)
    ensures
        outcome(r) == checked(merged(molecule_view(molecule@))),
        r is Ok ==> has_unique_symbols(molecule_view(r->Ok_0@)),
{
    let ghost counts = molecule_view(molecule@);
    let mut deduplicated_atoms: Molecule = Vec::new();
    let mut i: usize = 0;
    while i < molecule.len()
        invariant
            i <= molecule.len(),
            counts == molecule_view(molecule@),
            molecule_view(deduplicated_atoms@) == merged(counts.take(i as int)),
        decreases molecule.len() - i,
    {
        let atom = &molecule[i];
        let ghost seen = counts.take(i as int);
        let ghost entry = counts[i as int];
        let ghost before = molecule_view(deduplicated_atoms@);
        proof {
            assert(counts.take(i + 1) =~= seen.push(entry));
        }
        match position_of(&deduplicated_atoms, &atom.0) {
            Some(at) => {
                match add_atoms(atom, deduplicated_atoms[at].1) {
                    Ok(sum) => {
                        deduplicated_atoms[at] = sum;
                        proof {
                            lemma_merged_push_known(seen, entry, at as int);
                            assert(molecule_view(deduplicated_atoms@) =~= before.update(
                                at as int,
                                (entry.0, before[at as int].1 + entry.1),
                            ));
                        }
                    },
                    Err(e) => {
                        proof {
                            lemma_sum_out_of_range(counts, i as int, at as int);
                        }
                        return Err(e);
                    },
                }
            },
            None => {
                deduplicated_atoms.push((atom.0.clone(), atom.1));
                proof {
                    assert forall|k: int| 0 <= k < before.len() implies (#[trigger] before[k]).0
                        != entry.0 by {
                        assert(deduplicated_atoms[k].0@ != atom.0@);
                    }
                    lemma_merged_push_new(seen, entry);
                    assert(molecule_view(deduplicated_atoms@) =~= before.push(entry));
                }
            },
        }
        i = i + 1;
    }
    proof {
        assert(counts.take(i as int) =~= counts);
        lemma_merged_unique(counts);
    }
    Ok(deduplicated_atoms)
}

/// Where the sum for the entry at `index` leaves the range of `usize` after
/// the entries before it, so does a sum of the whole.
proof fn lemma_sum_out_of_range(counts: Counts, index: int, at: int)
    requires
        0 <= index < counts.len(),
        0 <= at < merged(counts.take(index)).len(),
        merged(counts.take(index))[at].0 == counts[index].0,
        merged(counts.take(index))[at].1 + counts[index].1 > usize::MAX,
    ensures
        !in_range(merged(counts)),
{
    let symbol = counts[index].0;
    let seen = counts.take(index);
    assert(counts.take(index + 1) =~= seen.push(counts[index]));
    lemma_total_push(seen, counts[index], symbol);
    lemma_total_of_prefix(counts, index + 1, symbol);
    lemma_symbols_occur(counts, symbol);
    assert(occurs(counts, symbol));
    let k = choose|k: int| 0 <= k < symbols(counts).len() && symbols(counts)[k] == symbol;
    assert(merged(counts)[k].1 > usize::MAX);
}

/// No two merged entries share a symbol.
pub proof fn lemma_merged_unique(counts: Counts)
    ensures
        has_unique_symbols(merged(counts)),
{
    lemma_symbols_distinct(counts);
}

} // verus!
