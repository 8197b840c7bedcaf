use molecule_parser::error::ErrorKind;
use molecule_parser::merge::{merge_atoms, position_of};
use molecule_parser::model::{add_atoms, mul_atoms, mul_molecule, Atom, Molecule};

fn atom(symbol: &str, count: usize) -> Atom {
    (symbol.to_string(), count)
}

fn molecule(entries: &[(&str, usize)]) -> Molecule {
    entries.iter().map(|(symbol, count)| atom(symbol, *count)).collect()
}

#[test]
fn add_atoms_adds_to_the_count() {
    assert_eq!(add_atoms(&atom("H", 2), 1), Ok(atom("H", 3)));
    assert_eq!(add_atoms(&atom("Mg", 0), 0), Ok(atom("Mg", 0)));
    assert_eq!(add_atoms(&atom("H", usize::MAX - 1), 1), Ok(atom("H", usize::MAX)));
}

#[test]
fn add_atoms_overflows_past_usize() {
    assert_eq!(add_atoms(&atom("H", usize::MAX), 1), Err(ErrorKind::Overflow));
    assert_eq!(add_atoms(&atom("H", 1), usize::MAX), Err(ErrorKind::Overflow));
}

#[test]
fn mul_atoms_multiplies_the_count() {
    assert_eq!(mul_atoms(&atom("H", 2), 2), Ok(atom("H", 4)));
    assert_eq!(mul_atoms(&atom("H", 7), 0), Ok(atom("H", 0)));
    assert_eq!(mul_atoms(&atom("H", usize::MAX), 1), Ok(atom("H", usize::MAX)));
}

#[test]
fn mul_atoms_overflows_past_usize() {
    assert_eq!(mul_atoms(&atom("H", usize::MAX), 2), Err(ErrorKind::Overflow));
    assert_eq!(mul_atoms(&atom("H", usize::MAX / 2 + 1), 2), Err(ErrorKind::Overflow));
}

#[test]
fn mul_molecule_multiplies_every_count() {
    assert_eq!(
        mul_molecule(&molecule(&[("S", 1), ("O", 3), ("S", 2)]), 2),
        Ok(molecule(&[("S", 2), ("O", 6), ("S", 4)]))
    );
    assert_eq!(mul_molecule(&molecule(&[("H", 5)]), 1), Ok(molecule(&[("H", 5)])));
    assert_eq!(mul_molecule(&molecule(&[("H", 5), ("O", 1)]), 0), Ok(molecule(&[("H", 0), ("O", 0)])));
    assert_eq!(mul_molecule(&Vec::new(), 9), Ok(Vec::new()));
}

#[test]
fn mul_molecule_overflows_where_one_product_does() {
    assert_eq!(
        mul_molecule(&molecule(&[("H", 1), ("O", usize::MAX)]), 2),
        Err(ErrorKind::Overflow)
    );
}

#[test]
fn position_of_finds_the_first_entry_of_a_symbol() {
    let atoms = molecule(&[("K", 4), ("O", 2), ("N", 2), ("O", 12)]);
    assert_eq!(position_of(&atoms, &"K".to_string()), Some(0));
    assert_eq!(position_of(&atoms, &"O".to_string()), Some(1));
    assert_eq!(position_of(&atoms, &"N".to_string()), Some(2));
    assert_eq!(position_of(&atoms, &"S".to_string()), None);
    assert_eq!(position_of(&Vec::new(), &"S".to_string()), None);
}

#[test]
fn merge_atoms_sums_at_the_first_occurrence() {
    assert_eq!(
        merge_atoms(&molecule(&[("K", 4), ("O", 2), ("N", 2), ("S", 4), ("O", 12)])),
        Ok(molecule(&[("K", 4), ("O", 14), ("N", 2), ("S", 4)]))
    );
    assert_eq!(
        merge_atoms(&molecule(&[("H", 1), ("O", 1), ("H", 2), ("H", 3), ("O", 5)])),
        Ok(molecule(&[("H", 6), ("O", 6)]))
    );
    assert_eq!(merge_atoms(&Vec::new()), Ok(Vec::new()));
}

#[test]
fn merge_atoms_tells_symbols_apart_exactly() {
    assert_eq!(
        merge_atoms(&molecule(&[("C", 1), ("Co", 2), ("C", 3), ("Co", 4), ("O", 5)])),
        Ok(molecule(&[("C", 4), ("Co", 6), ("O", 5)]))
    );
}

#[test]
fn merge_atoms_is_idempotent() {
    let once = merge_atoms(&molecule(&[("K", 4), ("O", 2), ("N", 2), ("S", 4), ("O", 12)])).unwrap();
    let twice = merge_atoms(&once).unwrap();
    assert_eq!(twice, once);
    let merged = molecule(&[("Mg", 1), ("O", 2), ("H", 2)]);
    assert_eq!(merge_atoms(&merged), Ok(merged.clone()));
}

#[test]
fn merge_atoms_overflows_where_a_sum_does() {
    assert_eq!(
        merge_atoms(&molecule(&[("H", usize::MAX), ("O", 1), ("H", 1)])),
        Err(ErrorKind::Overflow)
    );
    assert_eq!(
        merge_atoms(&molecule(&[("H", usize::MAX), ("O", usize::MAX)])),
        Ok(molecule(&[("H", usize::MAX), ("O", usize::MAX)]))
    );
}
