use vstd::prelude::*;

use crate::error::ErrorView;
use crate::lexer::{is_bracket, tokens_of, TokenView};
use crate::merge::merged;
use crate::model::{checked, in_range, scaled, Counts};

verus! {

/// A formula as a tree: atoms at the leaves, a multiplier at each inner node.
pub enum Tree {
    /// An element symbol and its count.
    Atom(Seq<char>, nat),
    /// A multiplier and the trees that it applies to.
    Index(nat, Seq<Tree>),
}

/// One of the three opening brackets.
pub open spec fn is_opening(c: char) -> bool {
    c == '(' || c == '[' || c == '{'
}

/// The bracket that pairs with `c`.
pub open spec fn matching_bracket(c: char) -> char
    recommends
        is_bracket(c),
{
    if c == '(' {
        ')'
    } else if c == ')' {
        '('
    } else if c == '[' {
        ']'
    } else if c == ']' {
        '['
    } else if c == '{' {
        '}'
    } else {
        '{'
    }
}

/// The token at `pos`, if there is one.
pub open spec fn peek(tokens: Seq<TokenView>, pos: int) -> Option<TokenView> {
    if 0 <= pos < tokens.len() {
        Some(tokens[pos])
    } else {
        None
    }
}

/// How many tokens stand at `pos` and after it.
pub open spec fn tokens_left(tokens: Seq<TokenView>, pos: int) -> nat {
    if 0 <= pos <= tokens.len() {
        (tokens.len() - pos) as nat
    } else {
        0
    }
}

/// The optional index at `pos`: its value and the one token it takes, or
/// the value 1 and no token where no index stands there.
pub open spec fn index_at(tokens: Seq<TokenView>, pos: int) -> (nat, nat) {
    match peek(tokens, pos) {
        Some(TokenView::Index(n)) => (n, 1),
        _ => (1, 0),
    }
}

/// The atom unit at `pos`, an atom and its optional index, with the number
/// of tokens it takes; `UnexpectedToken` where no atom stands at `pos`.
pub open spec fn atom_at(tokens: Seq<TokenView>, pos: int) -> Result<(Tree, nat), ErrorView> {
    match peek(tokens, pos) {
        Some(TokenView::Atom(symbol)) => {
            let (count, taken) = index_at(tokens, pos + 1);
            Ok((Tree::Atom(symbol, count), 1 + taken))
        },
        found => Err(ErrorView::UnexpectedToken(found, pos as nat)),
    }
}

/// The opening bracket at `pos`; `UnexpectedToken` where none stands there.
pub open spec fn opening_at(tokens: Seq<TokenView>, pos: int) -> Result<char, ErrorView> {
    match peek(tokens, pos) {
        Some(TokenView::Bracket(c)) if is_opening(c) => Ok(c),
        found => Err(ErrorView::UnexpectedToken(found, pos as nat)),
    }
}

/// Whether the bracket that closes `open` stands at `pos`; `MismatchedBracket` where it does not.
pub open spec fn closing_at(tokens: Seq<TokenView>, pos: int, open: char) -> Result<
    (),
    ErrorView,
> {
    let expected = matching_bracket(open);
    if peek(tokens, pos) == Some(TokenView::Bracket(expected)) {
        Ok(())
    } else {
        Err(ErrorView::MismatchedBracket(expected, peek(tokens, pos), pos as nat))
    }
}

/// The group unit at `pos`, given what the units after its opening bracket
/// are: the bracket, those units, the matching closing bracket and an
/// optional index, with the number of tokens all of it takes.
pub open spec fn group_around(
    tokens: Seq<TokenView>,
    pos: int,
    inside: Result<(Seq<Tree>, nat), ErrorView>,
) -> Result<(Tree, nat), ErrorView> {
    match opening_at(tokens, pos) {
        Err(e) => Err(e),
        Ok(open) => match inside {
            Err(e) => Err(e),
            Ok((units, taken)) => match closing_at(tokens, pos + 1 + taken, open) {
                Err(e) => Err(e),
                Ok(_) => {
                    let (multiplier, after) = index_at(tokens, pos + 1 + taken + 1);
                    Ok(
                        (
                            Tree::Index(multiplier, seq![Tree::Index(1, units)]),
                            1 + taken + 1 + after,
                        ),
                    )
                },
            },
        },
    }
}

/// The unit at `pos`, given what the units after the token at `pos` are: an
/// atom unit where an atom stands at `pos`, a group unit otherwise.
pub open spec fn unit_around(
    tokens: Seq<TokenView>,
    pos: int,
    inside: Result<(Seq<Tree>, nat), ErrorView>,
) -> Result<(Tree, nat), ErrorView> {
    match peek(tokens, pos) {
        Some(TokenView::Atom(_)) => atom_at(tokens, pos),
        _ => group_around(tokens, pos, inside),
    }
}

/// `units`, which take `taken` tokens, followed by what `rest` holds.
pub open spec fn continued(
    units: Seq<Tree>,
    taken: nat,
    rest: Result<(Seq<Tree>, nat), ErrorView>,
) -> Result<(Seq<Tree>, nat), ErrorView> {
    match rest {
        Ok((more, after)) => Ok((units + more, taken + after)),
        Err(e) => Err(e),
    }
}

/// Whether a unit starts with `token`: an atom or an opening bracket.
pub open spec fn starts_unit(token: Option<TokenView>) -> bool {
    match token {
        Some(TokenView::Atom(_)) => true,
        Some(TokenView::Bracket(c)) => is_opening(c),
        _ => false,
    }
}

/// The units that stand at `pos` one after the other, up to the first token
/// that starts none, with the number of tokens they take; the first error
/// met in one of them otherwise.
pub open spec fn units_at(tokens: Seq<TokenView>, pos: int) -> Result<(Seq<Tree>, nat), ErrorView>
    decreases tokens_left(tokens, pos),
{
    if starts_unit(peek(tokens, pos)) {
        match unit_around(tokens, pos, units_at(tokens, pos + 1)) {
            Ok((tree, taken)) => continued(seq![tree], taken, units_at(tokens, pos + taken)),
            Err(e) => Err(e),
        }
    } else {
        Ok((Seq::empty(), 0))
    }
}

/// The group unit at `pos`.
pub open spec fn group_at(tokens: Seq<TokenView>, pos: int) -> Result<(Tree, nat), ErrorView> {
    group_around(tokens, pos, units_at(tokens, pos + 1))
}

/// The unit at `pos`: an atom unit where an atom stands there, a group unit otherwise.
pub open spec fn unit_at(tokens: Seq<TokenView>, pos: int) -> Result<(Tree, nat), ErrorView> {
    unit_around(tokens, pos, units_at(tokens, pos + 1))
}

/// The entries of a tree from left to right, each count multiplied by every
/// multiplier above it.
pub open spec fn flat(tree: Tree) -> Counts
    decreases tree,
{
    match tree {
        Tree::Atom(symbol, count) => seq![(symbol, count)],
        Tree::Index(multiplier, children) => scaled(flat_all(children), multiplier),
    }
}

/// The entries of several trees, one tree after the other.
pub open spec fn flat_all(trees: Seq<Tree>) -> Counts
    decreases trees,
{
    if trees.len() == 0 {
        Seq::empty()
    } else {
        flat_all(trees.drop_last()) + flat(trees.last())
    }
}

/// The number of atoms of `symbol` in `tree` when `tree` stands under
/// multipliers whose product is `factor`: the sum, over the atoms of the
/// tree that carry `symbol`, of the atom's count times `factor` times every
/// multiplier between the atom and the top of the tree.
pub open spec fn atoms_in(tree: Tree, symbol: Seq<char>, factor: nat) -> nat
    decreases tree,
{
    match tree {
        Tree::Atom(name, count) => if name == symbol {
            count * factor
        } else {
            0
        },
        Tree::Index(multiplier, children) => atoms_in_all(children, symbol, factor * multiplier),
    }
}

/// The sum of `atoms_in` over several trees.
pub open spec fn atoms_in_all(trees: Seq<Tree>, symbol: Seq<char>, factor: nat) -> nat
    decreases trees,
{
    if trees.len() == 0 {
        0
    } else {
        atoms_in_all(trees.drop_last(), symbol, factor) + atoms_in(trees.last(), symbol, factor)
    }
}

/// Every count that arises in flattening `tree`, at any node of it, fits in `usize`.
pub open spec fn flattens(tree: Tree) -> bool
    decreases tree,
{
    match tree {
        Tree::Atom(_, count) => count <= usize::MAX,
        Tree::Index(_, children) => all_flatten(children) && in_range(flat(tree)),
    }
}

/// Every tree of `trees` flattens.
pub open spec fn all_flatten(trees: Seq<Tree>) -> bool
    decreases trees,
{
    trees.len() == 0 || (all_flatten(trees.drop_last()) && flattens(trees.last()))
}

/// The entries of a tree, or `Overflow` where a count leaves the range of `usize` on the way.
pub open spec fn flattened(tree: Tree) -> Result<Counts, ErrorView> {
    if flattens(tree) {
        Ok(flat(tree))
    } else {
        Err(ErrorView::Overflow)
    }
}

/// The tree of a sequence of tokens: all its units under the multiplier 1;
/// `TrailingTokens` where the units end before the tokens do.
pub open spec fn tree_of_tokens(tokens: Seq<TokenView>) -> Result<Tree, ErrorView> {
    match units_at(tokens, 0) {
        Ok((units, taken)) => if taken == tokens.len() {
            Ok(Tree::Index(1, units))
        } else {
            Err(ErrorView::TrailingTokens)
        },
        Err(e) => Err(e),
    }
}

/// The tree of a formula.
pub open spec fn tree_of(text: Seq<char>) -> Result<Tree, ErrorView> {
    match tokens_of(text) {
        Ok(tokens) => tree_of_tokens(tokens),
        Err(e) => Err(e),
    }
}

/// What a formula denotes: each of its elements once, in the order in which
/// they first occur, with the number of its atoms.
pub open spec fn molecule_of(text: Seq<char>) -> Result<Counts, ErrorView> {
    match tree_of(text) {
        Ok(tree) => match flattened(tree) {
            Ok(counts) => checked(merged(counts)),
            Err(e) => Err(e),
        },
        Err(e) => Err(e),
    }
}

} // verus!
