use vstd::prelude::*;

use crate::error::{ErrorKind, ErrorView};

verus! {

/// An element symbol and how many atoms of it there are.
pub type Atom = (String, usize);

/// A sequence of atoms.
pub type Molecule = Vec<Atom>;

/// Mathematical value of a molecule: the symbol and the count of each entry, in order.
pub type Counts = Seq<(Seq<char>, nat)>;

/// Mathematical value of an atom.
pub open spec fn atom_view(atom: Atom) -> (Seq<char>, nat) {
    (atom.0@, atom.1 as nat)
}

/// Mathematical value of a sequence of atoms.
pub open spec fn molecule_view(atoms: Seq<Atom>) -> Counts {
    atoms.map_values(|atom: Atom| atom_view(atom))
}

/// Every count multiplied by `multiplier`, symbols and order unchanged.
pub open spec fn scaled(counts: Counts, multiplier: nat) -> Counts {
    counts.map_values(|entry: (Seq<char>, nat)| (entry.0, entry.1 * multiplier))
}

/// Every count fits in `usize`.
pub open spec fn in_range(counts: Counts) -> bool {
    forall|i: int| 0 <= i < counts.len() ==> (#[trigger] counts[i]).1 <= usize::MAX
}

/// The mathematical value of a molecule or an error.
pub open spec fn outcome(r: Result<Molecule, ErrorKind>) -> Result<Counts, ErrorView> {
    match r {
        Ok(molecule) => Ok(molecule_view(molecule@)),
        Err(e) => Err(e@),
    }
}

/// `counts` where every count fits in `usize`, `Overflow` otherwise.
pub open spec fn checked(counts: Counts) -> Result<Counts, ErrorView> {
    if in_range(counts) {
        Ok(counts)
    } else {
        Err(ErrorView::Overflow)
    }
}

/// Increase the count of an atom by a number: `add_atoms((H, 2), 1)` is `(H, 3)`.
///
/// Fails with `Overflow` exactly where the sum does not fit in `usize`.
pub fn add_atoms(atom: &Atom, number: usize) -> (r: Result<Atom, ErrorKind>)
    ensures
        match r {
            Ok(sum) => atom_view(sum) == (atom.0@, (atom.1 + number) as nat),
            Err(e) => e@ == ErrorView::Overflow && atom.1 + number > usize::MAX,
        },
{
    match atom.1.checked_add(number) {
        Some(count) => Ok((atom.0.clone(), count)),
        None => Err(ErrorKind::Overflow),
    }
}

/// Multiply the count of an atom by a number: `mul_atoms((H, 2), 2)` is `(H, 4)`.
///
/// Fails with `Overflow` exactly where the product does not fit in `usize`.
pub fn mul_atoms(atom: &Atom, multiplier: usize) -> (r: Result<Atom, ErrorKind>)
    ensures
        match r {
            Ok(product) => atom_view(product) == (atom.0@, (atom.1 * multiplier) as nat),
            Err(e) => e@ == ErrorView::Overflow && atom.1 * multiplier > usize::MAX,
        },
{
    match atom.1.checked_mul(multiplier) {
        Some(count) => Ok((atom.0.clone(), count)),
        None => Err(ErrorKind::Overflow),
    }
}

/// Multiply the counts of all atoms of a molecule by a number.
///
/// Fails with `Overflow` exactly where one of the products does not fit in `usize`.
pub fn mul_molecule(molecule: &Molecule, multiplier: usize) -> (r: Result<Molecule, ErrorKind>)
    ensures
        outcome(r) == checked(scaled(molecule_view(molecule@), multiplier as nat)),
{
    let ghost counts = molecule_view(molecule@);
    let ghost target = scaled(counts, multiplier as nat);
    let mut product: Molecule = Vec::new();
    let mut i: usize = 0;
    while i < molecule.len()
        invariant
            i <= molecule.len(),
            counts == molecule_view(molecule@),
            target == scaled(counts, multiplier as nat),
            molecule_view(product@) == target.take(i as int),
        decreases molecule.len() - i,
    {
        let ghost before = molecule_view(product@);
        match mul_atoms(&molecule[i], multiplier) {
            Ok(atom) => {
                product.push(atom);
                assert(molecule_view(product@) =~= before.push(atom_view(atom)));
            },
            Err(e) => {
                assert(target[i as int].1 > usize::MAX);
                return Err(e);
            },
        }
        assert(target.take(i + 1) =~= target.take(i as int).push(target[i as int]));
        i = i + 1;
    }
    assert(target.take(i as int) =~= target);
    Ok(product)
}

} // verus!
