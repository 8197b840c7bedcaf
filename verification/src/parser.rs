use vstd::prelude::*;

use crate::error::{found_view, ErrorKind, ErrorView};
use crate::grammar::{
    all_flatten, atom_at, atoms_in, closing_at, continued, flat_all, flattened, flattens,
    group_at, index_at, matching_bracket, molecule_of, opening_at, peek, starts_unit, tokens_left,
    tree_of, unit_at, units_at, Tree,
};
use crate::laws::lemma_molecule_counts;
use crate::lexer::{is_bracket, lex, Token};
use crate::merge::{has_unique_symbols, merge_atoms};
use crate::model::{atom_view, molecule_view, mul_molecule, outcome, Atom, Molecule};

verus! {

/// Grammar nodes supported by the syntax tree.
#[derive(Debug, PartialEq, Eq)]
pub enum Grammar {
    Atom(Atom),
    Index(usize),
}

/// Tree structure that represents a molecule.
#[derive(Debug, PartialEq, Eq)]
pub struct ParseNode {
    pub children: Vec<ParseNode>,
    pub entry: Grammar,
}

/// The trees of a sequence of nodes.
pub open spec fn trees_of(nodes: Seq<ParseNode>) -> Seq<Tree>
    decreases nodes,
{
    if nodes.len() == 0 {
        Seq::empty()
    } else {
        trees_of(nodes.drop_last()).push(nodes.last()@)
    }
}

impl View for ParseNode {
    type V = Tree;

    /// The tree that a node stands for. The children of an atom node do not count.
    open spec fn view(&self) -> Tree
        decreases self,
    {
        match self.entry {
            Grammar::Atom(atom) => Tree::Atom(atom.0@, atom.1 as nat),
            Grammar::Index(multiplier) => Tree::Index(multiplier as nat, trees_of(self.children@)),
        }
    }
}

impl Clone for Grammar {
    fn clone(&self) -> (copy: Grammar)
        ensures
            match (*self, copy) {
                (Grammar::Atom(atom), Grammar::Atom(other)) => atom_view(atom) == atom_view(other),
                (Grammar::Index(index), Grammar::Index(other)) => index == other,
                _ => false,
            },
    {
        match self {
            Grammar::Atom(atom) => Grammar::Atom((atom.0.clone(), atom.1)),
            Grammar::Index(index) => Grammar::Index(*index),
        }
    }
}

impl Clone for ParseNode {
    fn clone(&self) -> (copy: ParseNode)
        ensures
            copy@ == self@,
        decreases self,
    {
        let mut children: Vec<ParseNode> = Vec::new();
        let mut i: usize = 0;
        proof {
            assert(trees_of(children@) == Seq::<Tree>::empty());
            assert(self.children@.take(0) =~= Seq::<ParseNode>::empty());
        }
        while i < self.children.len()
            invariant
                i <= self.children.len(),
                trees_of(children@) == trees_of(self.children@.take(i as int)),
            decreases self.children.len() - i,
        {
            let child = self.children[i].clone();
            proof {
                assert(children@.push(child).drop_last() =~= children@);
                assert(self.children@.take(i + 1).drop_last() =~= self.children@.take(i as int));
            }
            children.push(child);
            i = i + 1;
        }
        proof {
            assert(self.children@.take(i as int) =~= self.children@);
        }
        ParseNode { children, entry: self.entry.clone() }
    }
}

impl ParseNode {
    /// A node with the given children and entry.
    pub fn new(children: Vec<ParseNode>, entry: Grammar) -> (node: ParseNode)
        ensures
            node.children == children,
            node.entry == entry,
    {
        ParseNode { children, entry }
    }

    /// Convert the structure into a vector of atoms (a molecule).
    ///
    /// An atom node gives its atom. An index node gives the atoms of its
    /// children from left to right, every count multiplied by the index.
    /// Fails with `Overflow` exactly where a count leaves the range of
    /// `usize`, here or in a node below.
    pub fn flatten(&self) -> (r: Result<Molecule, ErrorKind>)
        ensures
            outcome(r) == flattened(self@),
        decreases self,
    {
        match &self.entry {
            Grammar::Index(index) => {
                let ghost trees = trees_of(self.children@);
                let mut molecule: Molecule = Vec::new();
                let mut i: usize = 0;
                proof {
                    lemma_trees_of(self.children@);
                }
                while i < self.children.len()
                    invariant
                        i <= self.children.len(),
                        self.entry == Grammar::Index(*index),
                        trees == trees_of(self.children@),
                        trees.len() == self.children.len(),
                        forall|k: int| 0 <= k < trees.len() ==> trees[k] == self.children[k]@,
                        all_flatten(trees.take(i as int)),
                        molecule_view(molecule@) == flat_all(trees.take(i as int)),
                    decreases self.children.len() - i,
                {
                    let ghost before = molecule_view(molecule@);
                    proof {
                        assert(trees.take(i + 1).drop_last() =~= trees.take(i as int));
                    }
                    let mut atoms = match self.children[i].flatten() {
                        Ok(atoms) => atoms,
                        Err(e) => {
                            proof {
                                assert(!flattens(trees[i as int]));
                                lemma_all_flatten(trees, i as int);
                            }
                            return Err(e);
                        },
                    };
                    let ghost added = molecule_view(atoms@);
                    molecule.append(&mut atoms);
                    assert(molecule_view(molecule@) =~= before + added);
                    i = i + 1;
                }
                assert(trees.take(i as int) =~= trees);
                mul_molecule(&molecule, *index)
            },
            Grammar::Atom(atom) => {
                let molecule = vec![(atom.0.clone(), atom.1)];
                assert(molecule_view(molecule@) =~= seq![atom_view(*atom)]);
                Ok(molecule)
            },
        }
    }
}

/// `trees_of` takes the tree of each node, in order.
pub proof fn lemma_trees_of(nodes: Seq<ParseNode>)
    ensures
        trees_of(nodes).len() == nodes.len(),
        forall|i: int| 0 <= i < nodes.len() ==> trees_of(nodes)[i] == (#[trigger] nodes[i])@,
    decreases nodes.len(),
{
    if nodes.len() > 0 {
        let before = nodes.drop_last();
        lemma_trees_of(before);
        assert(trees_of(nodes) == trees_of(before).push(nodes.last()@));
        assert forall|i: int| 0 <= i < nodes.len() implies trees_of(nodes)[i] == (
        #[trigger] nodes[i])@ by {
            if i < before.len() {
                assert(before[i] == nodes[i]);
            }
        }
    }
}

/// Where one tree does not flatten, the trees do not all flatten.
pub proof fn lemma_all_flatten(trees: Seq<Tree>, index: int)
    requires
        0 <= index < trees.len(),
        !flattens(trees[index]),
    ensures
        !all_flatten(trees),
    decreases trees.len(),
{
    if index < trees.len() - 1 {
        lemma_all_flatten(trees.drop_last(), index);
    }
}

/// The mathematical value of what a unit parser returns for a call at `pos`:
/// the tree of the node and the number of tokens taken.
pub open spec fn parsed(r: Result<(ParseNode, usize), ErrorKind>, pos: usize) -> Result<
    (Tree, nat),
    ErrorView,
> {
    match r {
        Ok((node, next_pos)) => Ok((node@, (next_pos - pos) as nat)),
        Err(e) => Err(e@),
    }
}

/// The units under the multiplier 1.
pub open spec fn wrapped(units: Result<(Seq<Tree>, nat), ErrorView>) -> Result<
    (Tree, nat),
    ErrorView,
> {
    match units {
        Ok((trees, taken)) => Ok((Tree::Index(1, trees), taken)),
        Err(e) => Err(e),
    }
}

/// The token at `pos`, if there is one.
fn found_at(tokens: &[Token], pos: usize) -> (found: Option<Token>)
    ensures
        found_view(found) == peek(tokens.deep_view(), pos as int),
{
    if pos < tokens.len() {
        Some(tokens[pos].clone())
    } else {
        None
    }
}

/// Find the matching bracket.
pub fn matching(c: char) -> (other: char)
    requires
        is_bracket(c),
    ensures
        other == matching_bracket(c),
{
    if c == ')' {
        '('
    } else if c == ']' {
        '['
    } else if c == '}' {
        '{'
    } else if c == '(' {
        ')'
    } else if c == '[' {
        ']'
    } else {
        '}'
    }
}

/// Parse the index of an atom or of a group of atoms.
///
/// In `K4[ON(SO3)2]2` the atoms `K` and `O` of `SO3` and both groups have
/// one. Where an index stands at `pos` the result is its value and
/// `pos + 1`; otherwise the value 1 and `pos`. It never fails.
pub fn parse_index(tokens: &[Token], pos: usize) -> (r: Result<(usize, usize), ErrorKind>)
    ensures
        r matches Ok((index, next_pos)) && (index as nat, (next_pos - pos) as nat) == index_at(
            tokens.deep_view(),
            pos as int,
        ) && next_pos >= pos,
{
    if pos < tokens.len() {
        if let Token::Index(n) = &tokens[pos] {
            return Ok((*n, pos + 1));
        }
    }
    Ok((1, pos))
}

/// Parse an opening bracket for a group of atoms.
///
/// Returns the bracket and `pos + 1`, or `UnexpectedToken` where no opening
/// bracket stands at `pos`.
pub fn parse_open_bracket(tokens: &[Token], pos: usize) -> (r: Result<(char, usize), ErrorKind>)
    ensures
        match r {
            Ok((c, next_pos)) => opening_at(tokens.deep_view(), pos as int) == Ok::<
                char,
                ErrorView,
            >(c) && next_pos == pos + 1,
            Err(e) => opening_at(tokens.deep_view(), pos as int) == Err::<char, ErrorView>(e@),
        },
{
    if pos < tokens.len() {
        if let Token::Bracket(c) = &tokens[pos] {
            if *c == '(' || *c == '[' || *c == '{' {
                return Ok((*c, pos + 1));
            }
        }
    }
    Err(ErrorKind::UnexpectedToken(found_at(tokens, pos), pos))
}

/// Parse the closing bracket of a group that the bracket `c` opened.
///
/// Returns `pos + 1`, or `MismatchedBracket` where the bracket that matches
/// `c` does not stand at `pos`.
pub fn parse_close_bracket(tokens: &[Token], pos: usize, c: char) -> (r: Result<usize, ErrorKind>)
    requires
        is_bracket(c),
    ensures
        match r {
            Ok(next_pos) => closing_at(tokens.deep_view(), pos as int, c) is Ok && next_pos == pos
                + 1,
            Err(e) => closing_at(tokens.deep_view(), pos as int, c) == Err::<(), ErrorView>(e@),
        },
{
    let expected = matching(c);
    if pos < tokens.len() {
        if let Token::Bracket(c2) = &tokens[pos] {
            if *c2 == expected {
                return Ok(pos + 1);
            }
        }
    }
    Err(ErrorKind::MismatchedBracket(expected, found_at(tokens, pos), pos))
}

/// Parse exactly one atom and its index, if present.
///
/// In `K4[ON(SO3)2]2` the atoms `O`, `N` and `S` have no index, `K` and the
/// `O` of `SO3` have one. Fails with `UnexpectedToken` where no atom stands
/// at `pos`.
pub fn parse_atom(tokens: &[Token], pos: usize) -> (r: Result<(ParseNode, usize), ErrorKind>)
    ensures
        parsed(r, pos) == atom_at(tokens.deep_view(), pos as int),
        r matches Ok((_, next_pos)) ==> next_pos > pos,
{
    if pos < tokens.len() {
        if let Token::Atom(a) = &tokens[pos] {
            return match parse_index(tokens, pos + 1) {
                Ok((index, next_pos)) => {
                    let atom = Grammar::Atom((a.clone(), index));
                    let parse_node = ParseNode::new(Vec::new(), atom);
                    Ok((parse_node, next_pos))
                },
                Err(e) => Err(e),
            };
        }
    }
    Err(ErrorKind::UnexpectedToken(found_at(tokens, pos), pos))
}

/// Parse a group of atoms: an opening bracket, the units inside, the
/// matching closing bracket and an index, if present.
///
/// In `K4[ON(SO3)2]2`, `(SO3)2` is a group, and so is `[ON(SO3)2]2`, which
/// holds the first. The node carries the index and has one child, which
/// holds the units inside.
pub fn parse_group(tokens: &[Token], pos: usize) -> (r: Result<(ParseNode, usize), ErrorKind>)
    ensures
        parsed(r, pos) == group_at(tokens.deep_view(), pos as int),
        r matches Ok((_, next_pos)) ==> next_pos > pos,
    decreases tokens_left(tokens.deep_view(), pos as int), 0int,
{
    let (c, inner_pos) = match parse_open_bracket(tokens, pos) {
        Ok(opened) => opened,
        Err(e) => {
            return Err(e);
        },
    };
    let (node, close_pos) = match parse_atoms(tokens, inner_pos) {
        Ok(inner) => inner,
        Err(e) => {
            return Err(e);
        },
    };
    let index_pos = match parse_close_bracket(tokens, close_pos, c) {
        Ok(next_pos) => next_pos,
        Err(e) => {
            return Err(e);
        },
    };
    match parse_index(tokens, index_pos) {
        Ok((index, next_pos)) => {
            let mut children: Vec<ParseNode> = Vec::new();
            children.push(node);
            proof {
                assert(children@.drop_last() =~= Seq::<ParseNode>::empty());
                assert(trees_of(children@.drop_last()) == Seq::<Tree>::empty());
                assert(trees_of(children@) =~= seq![node@]);
            }
            let parse_node = ParseNode::new(children, Grammar::Index(index));
            Ok((parse_node, next_pos))
        },
        Err(e) => Err(e),
    }
}

/// Build a tree from the units that stand at `pos` one after the other.
///
/// Stops at the first token that starts no unit, or at the end of the
/// tokens. Returns a node with the index 1 whose children are the units,
/// and the position just past the last of them; the first error met in a
/// unit otherwise.
pub fn parse_atoms(tokens: &[Token], pos: usize) -> (r: Result<(ParseNode, usize), ErrorKind>)
    ensures
        parsed(r, pos) == wrapped(units_at(tokens.deep_view(), pos as int)),
        r matches Ok((_, next_pos)) ==> pos <= next_pos && (next_pos <= tokens.len() || next_pos
            == pos),
    decreases tokens_left(tokens.deep_view(), pos as int), 1int,
{
    let ghost all = tokens.deep_view();
    let mut cur_pos = pos;
    let mut children: Vec<ParseNode> = Vec::new();
    proof {
        assert(trees_of(children@) == Seq::<Tree>::empty());
    }
    loop
        invariant
            all == tokens.deep_view(),
            pos <= cur_pos,
            cur_pos <= tokens.len() || cur_pos == pos,
            units_at(all, pos as int) == continued(
                trees_of(children@),
                (cur_pos - pos) as nat,
                units_at(all, cur_pos as int),
            ),
        ensures
            !starts_unit(peek(all, cur_pos as int)),
            pos <= cur_pos,
            cur_pos <= tokens.len() || cur_pos == pos,
            units_at(all, pos as int) == continued(
                trees_of(children@),
                (cur_pos - pos) as nat,
                units_at(all, cur_pos as int),
            ),
        decreases tokens_left(all, cur_pos as int),
    {
        if cur_pos >= tokens.len() {
            break ;
        }
        let unit = match &tokens[cur_pos] {
            Token::Atom(_) => parse_atom(tokens, cur_pos),
            Token::Bracket(c) => {
                if *c == '(' || *c == '[' || *c == '{' {
                    parse_group(tokens, cur_pos)
                } else {
                    break ;
                }
            },
            Token::Index(_) => {
                break ;
            },
        };
        let ghost before = trees_of(children@);
        let ghost start = cur_pos;
        match unit {
            Ok((parse_node, new_pos)) => {
                proof {
                    let tree = parse_node@;
                    let taken = (new_pos - start) as nat;
                    assert(unit_at(all, start as int) == Ok::<(Tree, nat), ErrorView>(
                        (tree, taken),
                    ));
                    assert(children@.push(parse_node).drop_last() =~= children@);
                    match units_at(all, new_pos as int) {
                        Ok((more, after)) => {
                            assert(before + (seq![tree] + more) =~= before.push(tree) + more);
                        },
                        Err(_) => {},
                    }
                }
                children.push(parse_node);
                cur_pos = new_pos;
            },
            Err(e) => {
                proof {
                    assert(unit_at(all, start as int) == Err::<(Tree, nat), ErrorView>(e@));
                }
                return Err(e);
            },
        }
    }
    proof {
        assert(trees_of(children@) + Seq::<Tree>::empty() =~= trees_of(children@));
    }
    let result = ParseNode::new(children, Grammar::Index(1));
    Ok((result, cur_pos))
}

/// Parse a formula into its molecule: each element once, in the order in
/// which the elements first occur, with the number of its atoms.
///
/// The formula is lexed, parsed from its first token, flattened and merged.
/// It is rejected with the error of the first of these steps that fails,
/// and with `TrailingTokens` where the units end before the tokens do.
pub fn parse_molecule(s: &str) -> (r: Result<Molecule, ErrorKind>)
    ensures
        outcome(r) == molecule_of(s@),
        r matches Ok(molecule) ==> has_unique_symbols(molecule_view(molecule@)),
        r matches Ok(molecule) ==> forall|i: int|
            0 <= i < molecule.len() ==> (#[trigger] molecule[i]).1 == atoms_in(
                tree_of(s@)->Ok_0,
                molecule[i].0@,
                1,
            ),
{
    let tokens = match lex(s) {
        Ok(tokens) => tokens,
        Err(e) => {
            return Err(e);
        },
    };
    let slice = tokens.as_slice();
    assert(slice.deep_view() =~= tokens.deep_view());
    let (atoms, pos) = match parse_atoms(slice, 0) {
        Ok(parsed) => parsed,
        Err(e) => {
            return Err(e);
        },
    };
    if pos != tokens.len() {
        return Err(ErrorKind::TrailingTokens);
    }
    let molecule = match atoms.flatten() {
        Ok(molecule) => molecule,
        Err(e) => {
            return Err(e);
        },
    };
    let merged = merge_atoms(&molecule);
    proof {
        if merged is Ok {
            let atoms = merged->Ok_0;
            let counts = molecule_view(atoms@);
            assert forall|i: int| 0 <= i < atoms.len() implies (#[trigger] atoms[i]).1 == atoms_in(
                tree_of(s@)->Ok_0,
                atoms[i].0@,
                1,
            ) by {
                lemma_molecule_counts(s@, atoms[i].0@);
                assert(counts[i] == atom_view(atoms[i]));
            }
        }
    }
    merged
}

} // verus!
