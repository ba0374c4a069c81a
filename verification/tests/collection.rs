use pdb_atoms::atom::{Atom, DecodeError, Field, RecordType};
use pdb_atoms::collection::AtomCollection;
use pdb_atoms::filter::Filter;
use pdb_atoms::numeral::Fixed;

const A1: &str =
    "ATOM      1  N   MET A   1      20.154  29.699   5.276  1.00 35.14           N  ";
const A2: &str =
    "ATOM      2  CA  MET A   1      21.618  29.617   5.323  1.00 31.56           C  ";
const B3: &str =
    "ATOM      3  N   GLY B   7      -1.000   2.000  -3.000  1.00 10.00           N  ";
const B4: &str =
    "ATOM      4  CA  GLY B   8       1.000  -2.000   3.000  1.00 10.00           C  ";
const A5: &str =
    "ATOM      5  O   HOH A  99       0.000   0.000   0.004  1.00 10.00           O  ";
const H1: &str =
    "HETATM 1001 FE   HEM A 200      10.000  -5.250   0.001  0.50 20.00          FE  ";
const H2: &str =
    "HETATM 1002  O   HOH B 301       1.500   2.500   3.500  1.00 20.00           O  ";

const TER_A1: &str =
    "TER       2      MET A   1                                                      ";
const TER_A2: &str =
    "TER       3      MET A   1                                                      ";
const TER_B3: &str =
    "TER       4      GLY B   7                                                      ";
const TER_B4: &str =
    "TER       5      GLY B   8                                                      ";
const TER_A5: &str =
    "TER       6      HOH A  99                                                      ";

fn fx(units: i64) -> Fixed {
    Fixed::from_units(units)
}

fn point(x: i64, y: i64, z: i64) -> [Fixed; 3] {
    [fx(x), fx(y), fx(z)]
}

fn everything() -> Filter {
    Filter::new(&None, None)
}

fn collect(kind: RecordType, lines: &[&str]) -> AtomCollection {
    let mut atoms = AtomCollection::new(kind);
    let filter = everything();
    for line in lines {
        atoms.add_atom(line, &filter).unwrap();
    }
    atoms
}

fn with_coordinates(points: &[(i64, i64, i64)]) -> AtomCollection {
    let mut atoms = AtomCollection::new(RecordType::Atom);
    for (x, y, z) in points {
        let mut atom = Atom::from_line(A1).unwrap();
        atom.x = fx(*x);
        atom.y = fx(*y);
        atom.z = fx(*z);
        atoms.entries.push(atom);
    }
    atoms
}

#[test]
fn a_new_collection_is_empty_and_of_its_kind() {
    let atoms = AtomCollection::new(RecordType::Hetatm);
    assert_eq!(atoms.record_type, RecordType::Hetatm);
    assert!(atoms.entries.is_empty());
    assert!(atoms.output().is_empty());
    let atoms = AtomCollection::new(RecordType::Atom);
    assert_eq!(atoms.record_type, RecordType::Atom);
    assert!(atoms.output().is_empty());
}

#[test]
fn records_are_kept_in_the_order_in_which_they_were_added() {
    let atoms = collect(RecordType::Atom, &[A2, A1, B4, B3]);
    let ids: Vec<u32> = atoms.entries.iter().map(|a| a.id).collect();
    assert_eq!(ids, vec![2, 1, 4, 3]);
}

#[test]
fn a_record_that_the_filter_drops_is_not_added() {
    let mut atoms = AtomCollection::new(RecordType::Atom);
    let only_b = Filter::new(&Some(vec!['B']), None);
    assert_eq!(atoms.add_atom(A1, &only_b), Ok(()));
    assert!(atoms.entries.is_empty());
    assert_eq!(atoms.add_atom(B3, &only_b), Ok(()));
    assert_eq!(atoms.entries.len(), 1);
    assert_eq!(atoms.entries[0].id, 3);
}

#[test]
fn a_line_that_does_not_decode_leaves_the_collection_as_it_was() {
    let mut atoms = collect(RecordType::Atom, &[A1]);
    let filter = everything();
    assert_eq!(
        atoms.add_atom("REMARK", &filter),
        Err(DecodeError::UnrecognizedRecordPrefix)
    );
    assert_eq!(
        atoms.add_atom(&A2[..40], &filter),
        Err(DecodeError::MissingField(Field::Y))
    );
    let mut bad = String::from(A2);
    bad.replace_range(22..26, "   ?");
    assert_eq!(
        atoms.add_atom(&bad, &filter),
        Err(DecodeError::MalformedNumeric(Field::ResId))
    );
    assert_eq!(atoms.entries.len(), 1);
    assert_eq!(atoms.entries[0].id, 1);
    assert_eq!(atoms.record_type, RecordType::Atom);
}

#[test]
fn a_record_of_the_other_kind_is_added_all_the_same() {
    let atoms = collect(RecordType::Atom, &[H1]);
    assert_eq!(atoms.entries.len(), 1);
    assert_eq!(atoms.entries[0].record_type, RecordType::Hetatm);
    assert_eq!(atoms.record_type, RecordType::Atom);
}

#[test]
fn a_terminator_repeats_residue_and_chain_under_the_next_serial_number() {
    let atom = Atom::from_line(A1).unwrap();
    let ter = AtomCollection::ter_line(&atom);
    assert_eq!(ter, TER_A1);
    assert_eq!(ter.len(), 80);
    assert_eq!(&ter[..6], "TER   ");
    assert_eq!(&ter[7..11], "   2");
    assert_eq!(&ter[17..20], "MET");
    assert_eq!(&ter[21..22], "A");
    assert_eq!(&ter[22..26], "   1");
    assert_eq!(&ter[26..], " ".repeat(54));
}

#[test]
fn a_terminator_follows_the_greatest_serial_number_too() {
    let mut atom = Atom::from_line(A1).unwrap();
    atom.id = u32::MAX;
    atom.res_name = String::from("U");
    atom.res_id = 12345;
    let ter = AtomCollection::ter_line(&atom);
    assert_eq!(&ter[..36], "TER    4294967296      U   A12345   ");
    assert_eq!(ter.len(), 87);
}

#[test]
fn two_records_of_two_chains_are_each_followed_by_a_terminator() {
    let atoms = collect(RecordType::Atom, &[A1, B3]);
    assert_eq!(atoms.output(), vec![A1, TER_A1, B3, TER_B3]);
}

#[test]
fn a_single_record_is_followed_by_a_terminator() {
    let atoms = collect(RecordType::Atom, &[A1]);
    assert_eq!(atoms.output(), vec![A1, TER_A1]);
}

#[test]
fn records_of_one_chain_are_followed_by_one_terminator() {
    let atoms = collect(RecordType::Atom, &[A1, A2]);
    assert_eq!(atoms.output(), vec![A1, A2, TER_A2]);
}

#[test]
fn every_run_of_one_chain_ends_in_a_terminator() {
    let atoms = collect(RecordType::Atom, &[A1, A2, B3, B4, A5]);
    assert_eq!(
        atoms.output(),
        vec![A1, A2, TER_A2, B3, B4, TER_B4, A5, TER_A5]
    );
}

#[test]
fn hetero_atoms_are_never_followed_by_a_terminator() {
    let atoms = collect(RecordType::Hetatm, &[H1, H2]);
    assert_eq!(atoms.output(), vec![H1, H2]);
    let atoms = collect(RecordType::Hetatm, &[H1]);
    assert_eq!(atoms.output(), vec![H1]);
    let atoms = collect(RecordType::Hetatm, &[A1, B3]);
    assert_eq!(atoms.output(), vec![A1, B3]);
}

#[test]
fn the_kind_of_the_collection_decides_on_terminators() {
    let atoms = collect(RecordType::Atom, &[H1, H2]);
    let lines = atoms.output();
    assert_eq!(lines.len(), 4);
    assert_eq!(lines[0], H1);
    assert!(lines[1].starts_with("TER    1002      HEM A 200"));
    assert_eq!(lines[2], H2);
    assert!(lines[3].starts_with("TER    1003      HOH B 301"));
}

#[test]
fn the_centroid_is_the_mean_of_each_coordinate() {
    let atoms = with_coordinates(&[(1000, 10, -3), (2000, 20, -3), (3000, 30, -3)]);
    assert_eq!(atoms.center_of_mass(), point(2000, 20, -3));
    let atoms = collect(RecordType::Atom, &[B3, B4]);
    assert_eq!(atoms.center_of_mass(), point(0, 0, 0));
    let atoms = collect(RecordType::Atom, &[A1]);
    assert_eq!(atoms.center_of_mass(), point(20154, 29699, 5276));
}

#[test]
fn the_centroid_is_rounded_down() {
    let atoms = with_coordinates(&[(1000, -1000, 1), (2000, -2000, 0), (4, -4, 0)]);
    assert_eq!(atoms.center_of_mass(), point(1001, -1002, 0));
    let atoms = with_coordinates(&[(-1, 0, -2), (0, 0, -1)]);
    assert_eq!(atoms.center_of_mass(), point(-1, 0, -2));
}

#[test]
fn the_centroid_of_no_records_is_the_origin() {
    let atoms = AtomCollection::new(RecordType::Atom);
    assert_eq!(atoms.center_of_mass(), point(0, 0, 0));
}

#[test]
fn the_centroid_of_extreme_coordinates_does_not_overflow() {
    let atoms = with_coordinates(&[
        (i64::MAX, i64::MIN, i64::MAX),
        (i64::MAX, i64::MIN, i64::MIN),
        (i64::MAX, i64::MIN, 0),
    ]);
    assert_eq!(atoms.center_of_mass(), point(i64::MAX, i64::MIN, -1));
}

#[test]
fn centering_moves_every_record_by_the_centroid() {
    let mut atoms = collect(RecordType::Atom, &[A1, A2]);
    assert_eq!(atoms.center_of_mass(), point(20886, 29658, 5299));
    assert!(atoms.can_be_centered());
    atoms.center_to_origin();
    assert_eq!(atoms.entries.len(), 2);
    assert_eq!(
        [atoms.entries[0].x, atoms.entries[0].y, atoms.entries[0].z],
        point(-732, 41, -23)
    );
    assert_eq!(
        [atoms.entries[1].x, atoms.entries[1].y, atoms.entries[1].z],
        point(732, -41, 24)
    );
    assert_eq!(atoms.entries[0].id, 1);
    assert_eq!(atoms.entries[1].name, "CA");
    assert_eq!(atoms.record_type, RecordType::Atom);
    assert_eq!(
        atoms.output()[0],
        "ATOM      1  N   MET A   1      -0.732   0.041  -0.023  1.00 35.14           N  "
    );
}

#[test]
fn after_centering_each_mean_is_less_than_one_unit_from_zero() {
    let mut atoms = with_coordinates(&[
        (1000, -1000, 1),
        (2000, -2000, 0),
        (4, -4, 0),
        (-77, 13, 5),
        (12345, -54321, 2),
    ]);
    atoms.center_to_origin();
    let n = atoms.entries.len() as i128;
    let sx: i128 = atoms.entries.iter().map(|a| a.x.units()).sum();
    let sy: i128 = atoms.entries.iter().map(|a| a.y.units()).sum();
    let sz: i128 = atoms.entries.iter().map(|a| a.z.units()).sum();
    assert!(0 <= sx && sx < n);
    assert!(0 <= sy && sy < n);
    assert!(0 <= sz && sz < n);
    assert_eq!(atoms.center_of_mass(), point(0, 0, 0));
}

#[test]
fn centering_twice_changes_nothing_more() {
    let mut atoms = collect(RecordType::Atom, &[A1, A2, B3, B4, A5]);
    atoms.center_to_origin();
    let once: Vec<[Fixed; 3]> = atoms.entries.iter().map(|a| [a.x, a.y, a.z]).collect();
    atoms.center_to_origin();
    let twice: Vec<[Fixed; 3]> = atoms.entries.iter().map(|a| [a.x, a.y, a.z]).collect();
    assert_eq!(once, twice);
}

#[test]
fn centering_no_records_does_nothing() {
    let mut atoms = AtomCollection::new(RecordType::Hetatm);
    assert!(atoms.can_be_centered());
    atoms.center_to_origin();
    assert!(atoms.entries.is_empty());
}

#[test]
fn records_too_far_apart_cannot_be_centered() {
    let far = Fixed { negative: false, magnitude: u64::MAX };
    let back = Fixed { negative: true, magnitude: u64::MAX };
    let mut atoms = with_coordinates(&[(0, 0, 0), (0, 0, 0), (0, 0, 0)]);
    atoms.entries[0].x = far;
    atoms.entries[1].x = back;
    atoms.entries[2].x = back;
    assert_eq!(
        atoms.center_of_mass()[0],
        Fixed { negative: true, magnitude: 6148914691236517205 }
    );
    assert!(!atoms.can_be_centered());
    atoms.entries[1].x = far;
    atoms.entries[2].x = far;
    assert_eq!(atoms.center_of_mass()[0], far);
    assert!(atoms.can_be_centered());
    atoms.center_to_origin();
    assert_eq!(atoms.entries[0].x, fx(0));
}

#[test]
fn the_centroid_of_the_greatest_magnitudes_does_not_overflow() {
    let far = Fixed { negative: false, magnitude: u64::MAX };
    let back = Fixed { negative: true, magnitude: u64::MAX };
    let mut atoms = with_coordinates(&[(0, 0, 0), (0, 0, 0), (0, 0, 0), (0, 0, 0)]);
    for atom in atoms.entries.iter_mut() {
        atom.x = far;
        atom.y = back;
    }
    atoms.entries[0].z = far;
    atoms.entries[1].z = back;
    atoms.entries[2].z = fx(-1);
    assert_eq!(atoms.center_of_mass(), [far, back, fx(-1)]);
}

#[test]
fn a_single_record_comes_to_lie_at_the_origin() {
    let mut atoms = with_coordinates(&[(20154, -29699, 5)]);
    atoms.center_to_origin();
    assert_eq!(
        [atoms.entries[0].x, atoms.entries[0].y, atoms.entries[0].z],
        point(0, 0, 0)
    );
}

#[test]
fn the_sign_of_a_zero_does_not_count_in_the_centroid() {
    let minus_zero = Fixed { negative: true, magnitude: 0 };
    let mut atoms = with_coordinates(&[(0, 0, 0), (0, 0, 0)]);
    atoms.entries[0].x = minus_zero;
    atoms.entries[1].x = minus_zero;
    atoms.entries[0].y = minus_zero;
    assert_eq!(atoms.center_of_mass(), point(0, 0, 0));
    atoms.center_to_origin();
    assert_eq!(atoms.entries[0].x, minus_zero);
    assert_eq!(atoms.entries[1].x, minus_zero);
    assert_eq!(atoms.entries[0].y, minus_zero);
    assert_eq!(atoms.entries[1].y, fx(0));
    assert!(atoms.output()[0].contains("  -0.000  -0.000   0.000"));
}
