use pdb_atoms::atom::{Atom, DecodeError, Field, RecordType};
use pdb_atoms::numeral::Fixed;

const MET_N: &str =
    "ATOM      1  N   MET A   1      20.154  29.699   5.276  1.00 35.14           N  ";

const HEME_FE: &str =
    "HETATM 1001 FE   HEM A 200      10.000  -5.250   0.001  0.50 20.00          FE  ";

fn fx(units: i64) -> Fixed {
    Fixed::from_units(units)
}

const MINUS_ZERO: Fixed = Fixed { negative: true, magnitude: 0 };

fn sample() -> Atom {
    Atom {
        record_type: RecordType::Atom,
        id: 4047,
        name: String::from("OE2"),
        alt_loc: ' ',
        res_name: String::from("GLU"),
        chain: 'B',
        res_id: 294,
        icode: ' ',
        x: fx(-31789),
        y: fx(-48532),
        z: fx(31944),
        occupancy: fx(100),
        temp_factor: fx(5508),
        element: String::from("O"),
        charge: String::new(),
    }
}

#[test]
fn decodes_the_fields_of_an_atom_line() {
    let atom = Atom::from_line(MET_N).unwrap();
    assert_eq!(atom.record_type, RecordType::Atom);
    assert_eq!(atom.id, 1);
    assert_eq!(atom.name, "N");
    assert_eq!(atom.alt_loc, ' ');
    assert_eq!(atom.res_name, "MET");
    assert_eq!(atom.chain, 'A');
    assert_eq!(atom.res_id, 1);
    assert_eq!(atom.icode, ' ');
    assert_eq!(atom.x, fx(20154));
    assert_eq!(atom.y, fx(29699));
    assert_eq!(atom.z, fx(5276));
    assert_eq!(atom.occupancy, fx(100));
    assert_eq!(atom.temp_factor, fx(3514));
    assert_eq!(atom.element, "N");
    assert_eq!(atom.charge, "");
}

#[test]
fn encoding_a_decoded_line_gives_the_line_back() {
    let atom = Atom::from_line(MET_N).unwrap();
    assert_eq!(atom.to_string(), MET_N);
}

#[test]
fn decodes_the_fields_of_a_hetero_atom_line() {
    assert_eq!(HEME_FE.len(), 80);
    let atom = Atom::from_line(HEME_FE).unwrap();
    assert_eq!(atom.record_type, RecordType::Hetatm);
    assert_eq!(atom.id, 1001);
    assert_eq!(atom.name, "FE");
    assert_eq!(atom.res_name, "HEM");
    assert_eq!(atom.chain, 'A');
    assert_eq!(atom.res_id, 200);
    assert_eq!(atom.x, fx(10000));
    assert_eq!(atom.y, fx(-5250));
    assert_eq!(atom.z, fx(1));
    assert_eq!(atom.occupancy, fx(50));
    assert_eq!(atom.temp_factor, fx(2000));
    assert_eq!(atom.element, "FE");
    assert_eq!(atom.charge, "");
}

#[test]
fn a_hetero_atom_line_round_trips() {
    let atom = Atom::from_line(HEME_FE).unwrap();
    assert_eq!(atom.to_string(), HEME_FE);
}

#[test]
fn encodes_a_record_into_its_columns() {
    let line = sample().to_string();
    assert_eq!(
        line,
        "ATOM   4047  OE2 GLU B 294     -31.789 -48.532  31.944  1.00 55.08           O  "
    );
    assert_eq!(line.len(), 80);
}

#[test]
fn an_encoded_record_decodes_to_the_same_fields() {
    let atom = sample();
    let back = Atom::from_line(&atom.to_string()).unwrap();
    assert_eq!(back.record_type, atom.record_type);
    assert_eq!(back.id, atom.id);
    assert_eq!(back.name, atom.name);
    assert_eq!(back.alt_loc, atom.alt_loc);
    assert_eq!(back.res_name, atom.res_name);
    assert_eq!(back.chain, atom.chain);
    assert_eq!(back.res_id, atom.res_id);
    assert_eq!(back.icode, atom.icode);
    assert_eq!(back.x, atom.x);
    assert_eq!(back.y, atom.y);
    assert_eq!(back.z, atom.z);
    assert_eq!(back.occupancy, atom.occupancy);
    assert_eq!(back.temp_factor, atom.temp_factor);
    assert_eq!(back.element, atom.element);
    assert_eq!(back.charge, atom.charge);
}

#[test]
fn the_name_starts_a_column_later_for_a_one_letter_element() {
    let mut atom = sample();
    atom.name = String::from("CA");
    atom.element = String::from("C");
    assert_eq!(&atom.to_string()[12..16], " CA ");
    atom.element = String::from("CA");
    assert_eq!(&atom.to_string()[12..16], "CA  ");
    atom.element = String::new();
    assert_eq!(&atom.to_string()[12..16], "CA  ");
}

#[test]
fn an_element_of_one_character_and_two_bytes_does_not_shift_the_name() {
    let mut atom = sample();
    atom.name = String::from("CA");
    atom.element = String::from("é");
    let line = atom.to_string();
    assert!(line.starts_with("ATOM   4047 CA   GLU"));
}

#[test]
fn the_residue_name_stands_at_the_left_of_its_columns() {
    let mut atom = sample();
    atom.res_name = String::from("DA");
    assert_eq!(&atom.to_string()[17..20], "DA ");
}

#[test]
fn element_and_charge_stand_at_the_right_of_their_columns() {
    let mut atom = sample();
    atom.element = String::from("N");
    atom.charge = String::from("+");
    let line = atom.to_string();
    assert_eq!(&line[76..78], " N");
    assert_eq!(&line[78..80], " +");
    atom.charge = String::from("1+");
    assert_eq!(&atom.to_string()[78..80], "1+");
}

#[test]
fn a_wide_value_widens_the_line() {
    let mut atom = sample();
    atom.id = 123456;
    let line = atom.to_string();
    assert!(line.starts_with("ATOM   123456  OE2 GLU B"));
    assert_eq!(line.len(), 82);
    let mut atom = sample();
    atom.x = fx(123456789);
    let line = atom.to_string();
    assert_eq!(&line[30..40], "123456.789");
    assert_eq!(line.len(), 82);
}

#[test]
fn small_and_negative_numbers_keep_their_digits() {
    let mut atom = sample();
    atom.x = fx(0);
    atom.y = fx(-1);
    atom.z = fx(50);
    atom.occupancy = fx(-5);
    atom.temp_factor = fx(0);
    let line = atom.to_string();
    assert_eq!(&line[30..38], "   0.000");
    assert_eq!(&line[38..46], "  -0.001");
    assert_eq!(&line[46..54], "   0.050");
    assert_eq!(&line[54..60], " -0.05");
    assert_eq!(&line[60..66], "  0.00");
}

#[test]
fn the_extreme_coordinates_are_written_in_full() {
    let mut atom = sample();
    atom.x = fx(i64::MAX);
    atom.y = fx(i64::MIN);
    let line = atom.to_string();
    assert!(line.contains("9223372036854775.807-9223372036854775.808"));
}

#[test]
fn a_line_without_marker_is_no_record() {
    assert_eq!(
        Atom::from_line("REMARK   1").unwrap_err(),
        DecodeError::UnrecognizedRecordPrefix
    );
    assert_eq!(Atom::from_line("ATOM").unwrap_err(), DecodeError::UnrecognizedRecordPrefix);
    assert_eq!(Atom::from_line("").unwrap_err(), DecodeError::UnrecognizedRecordPrefix);
    assert_eq!(
        Atom::from_line("ATOM 1").unwrap_err(),
        DecodeError::UnrecognizedRecordPrefix
    );
    assert_eq!(
        Atom::from_line(&MET_N.to_lowercase()).unwrap_err(),
        DecodeError::UnrecognizedRecordPrefix
    );
}

#[test]
fn a_short_line_misses_the_first_field_that_it_does_not_hold() {
    let fields = [
        (6, Field::Id),
        (11, Field::Name),
        (16, Field::AltLoc),
        (17, Field::ResName),
        (21, Field::Chain),
        (22, Field::ResId),
        (26, Field::Icode),
        (37, Field::X),
        (45, Field::Y),
        (53, Field::Z),
        (59, Field::Occupancy),
        (65, Field::TempFactor),
        (77, Field::Element),
        (79, Field::Charge),
    ];
    for (len, field) in fields {
        assert_eq!(
            Atom::from_line(&MET_N[..len]).unwrap_err(),
            DecodeError::MissingField(field)
        );
    }
    assert!(Atom::from_line(&MET_N[..80]).is_ok());
}

#[test]
fn a_field_that_is_no_number_is_malformed() {
    let cases = [
        (7..11, "   x", Field::Id),
        (7..11, "  -1", Field::Id),
        (7..11, "    ", Field::Id),
        (22..26, " 1 2", Field::ResId),
        (22..26, "0x1F", Field::ResId),
        (30..38, "  twenty", Field::X),
        (38..46, " 29.6991", Field::Y),
        (38..46, "2.969e+1", Field::Y),
        (46..54, "   1.0e1", Field::Z),
        (46..54, "        ", Field::Z),
        (54..60, " 1.001", Field::Occupancy),
        (54..60, "   inf", Field::Occupancy),
        (60..66, "   NaN", Field::TempFactor),
        (60..66, " 3-.14", Field::TempFactor),
    ];
    for (range, text, field) in cases {
        let mut line = String::from(MET_N);
        line.replace_range(range, text);
        assert_eq!(
            Atom::from_line(&line).unwrap_err(),
            DecodeError::MalformedNumeric(field)
        );
    }
}

#[test]
fn the_first_fault_in_column_order_is_reported() {
    let mut line = String::from(MET_N);
    line.replace_range(7..11, "   x");
    line.replace_range(30..38, "       y");
    assert_eq!(
        Atom::from_line(&line).unwrap_err(),
        DecodeError::MalformedNumeric(Field::Id)
    );
    assert_eq!(
        Atom::from_line(&line[..14]).unwrap_err(),
        DecodeError::MalformedNumeric(Field::Id)
    );
    let mut line = String::from(MET_N);
    line.replace_range(30..38, "       y");
    assert_eq!(
        Atom::from_line(&line[..60]).unwrap_err(),
        DecodeError::MalformedNumeric(Field::X)
    );
}

#[test]
fn numbers_may_be_written_loosely() {
    let mut line = String::from(MET_N);
    line.replace_range(6..11, "+0042");
    line.replace_range(22..26, "7   ");
    line.replace_range(30..38, "+20.1   ");
    line.replace_range(38..46, "-.5     ");
    line.replace_range(46..54, "     12.");
    line.replace_range(54..60, "1     ");
    line.replace_range(60..66, "000.50");
    let atom = Atom::from_line(&line).unwrap();
    assert_eq!(atom.id, 42);
    assert_eq!(atom.res_id, 7);
    assert_eq!(atom.x, fx(20100));
    assert_eq!(atom.y, fx(-500));
    assert_eq!(atom.z, fx(12000));
    assert_eq!(atom.occupancy, fx(100));
    assert_eq!(atom.temp_factor, fx(50));
}

#[test]
fn columns_that_no_field_covers_are_not_read() {
    let mut line = String::from(MET_N);
    line.replace_range(11..12, "#");
    line.replace_range(20..21, "#");
    line.replace_range(27..30, "###");
    line.replace_range(66..76, "segment 01");
    line.push_str(" trailing text");
    let atom = Atom::from_line(&line).unwrap();
    assert_eq!(atom.to_string(), MET_N);
}

#[test]
fn a_character_of_several_bytes_fills_several_columns() {
    let mut line = String::from(MET_N);
    line.replace_range(12..16, "Cα ");
    assert_eq!(line.len(), 80);
    let atom = Atom::from_line(&line).unwrap();
    assert_eq!(atom.name, "Cα");
    assert_eq!(atom.res_name, "MET");
}

#[test]
fn a_column_that_cuts_a_character_is_missing() {
    let mut line = String::from(MET_N);
    line.replace_range(15..17, "é");
    assert_eq!(line.len(), 80);
    assert_eq!(
        Atom::from_line(&line).unwrap_err(),
        DecodeError::MissingField(Field::Name)
    );
    let mut line = String::from(MET_N);
    line.replace_range(21..23, "é");
    assert_eq!(
        Atom::from_line(&line).unwrap_err(),
        DecodeError::MissingField(Field::Chain)
    );
    let mut line = String::from(MET_N);
    line.replace_range(5..7, "é");
    assert_eq!(
        Atom::from_line(&line).unwrap_err(),
        DecodeError::UnrecognizedRecordPrefix
    );
}

#[test]
fn white_space_of_any_kind_is_trimmed_from_text_fields() {
    let mut line = String::from(MET_N);
    line.replace_range(12..16, "\tN\u{a0}");
    line.replace_range(76..78, "\u{85}");
    let atom = Atom::from_line(&line).unwrap();
    assert_eq!(atom.name, "N");
    assert_eq!(atom.element, "");
}

#[test]
fn single_characters_are_taken_as_they_stand() {
    let mut line = String::from(MET_N);
    line.replace_range(16..17, "B");
    line.replace_range(21..22, " ");
    line.replace_range(26..27, "\t");
    let atom = Atom::from_line(&line).unwrap();
    assert_eq!(atom.alt_loc, 'B');
    assert_eq!(atom.chain, ' ');
    assert_eq!(atom.icode, '\t');
    assert_eq!(&atom.to_string()[16..17], "B");
    assert_eq!(&atom.to_string()[26..27], "\t");
}

#[test]
fn translate_takes_the_vector_from_the_coordinates() {
    let mut atom = sample();
    atom.translate(&[fx(1000), fx(-2000), fx(31944)]);
    assert_eq!(atom.x, fx(-32789));
    assert_eq!(atom.y, fx(-46532));
    assert_eq!(atom.z, fx(0));
    assert_eq!(atom.id, 4047);
    assert_eq!(atom.name, "OE2");
    assert_eq!(atom.occupancy, fx(100));
    assert_eq!(atom.temp_factor, fx(5508));
}

#[test]
fn the_columns_of_the_fields_are_those_of_the_format() {
    assert_eq!(Field::Id.columns(), (6, 11));
    assert_eq!(Field::Name.columns(), (12, 16));
    assert_eq!(Field::AltLoc.columns(), (16, 17));
    assert_eq!(Field::ResName.columns(), (17, 20));
    assert_eq!(Field::Chain.columns(), (21, 22));
    assert_eq!(Field::ResId.columns(), (22, 26));
    assert_eq!(Field::Icode.columns(), (26, 27));
    assert_eq!(Field::X.columns(), (30, 38));
    assert_eq!(Field::Y.columns(), (38, 46));
    assert_eq!(Field::Z.columns(), (46, 54));
    assert_eq!(Field::Occupancy.columns(), (54, 60));
    assert_eq!(Field::TempFactor.columns(), (60, 66));
    assert_eq!(Field::Element.columns(), (76, 78));
    assert_eq!(Field::Charge.columns(), (78, 80));
}

#[test]
fn a_zero_with_a_minus_sign_keeps_it() {
    let line =
        "ATOM      1  N   MET A   1      -0.000  29.699   5.276  1.00 35.14           N  ";
    let atom = Atom::from_line(line).unwrap();
    assert_eq!(atom.x, MINUS_ZERO);
    assert_ne!(atom.x, fx(0));
    assert_eq!(atom.to_string(), line);
}

#[test]
fn every_fixed_point_field_keeps_the_sign_of_a_zero() {
    let line =
        "HETATM 1001 FE   HEM A 200      -0.000  -0.000  -0.000 -0.00 -0.00          FE  ";
    assert_eq!(line.len(), 80);
    let atom = Atom::from_line(line).unwrap();
    assert_eq!(atom.x, MINUS_ZERO);
    assert_eq!(atom.y, MINUS_ZERO);
    assert_eq!(atom.z, MINUS_ZERO);
    assert_eq!(atom.occupancy, MINUS_ZERO);
    assert_eq!(atom.temp_factor, MINUS_ZERO);
    assert_eq!(atom.to_string(), line);
    let plain =
        "HETATM 1001 FE   HEM A 200       0.000   0.000   0.000  0.00  0.00          FE  ";
    let atom = Atom::from_line(plain).unwrap();
    assert_eq!(atom.x, fx(0));
    assert_eq!(atom.occupancy, fx(0));
    assert_eq!(atom.to_string(), plain);
}

#[test]
fn a_zero_with_a_minus_sign_is_written_with_it() {
    let mut atom = sample();
    atom.x = MINUS_ZERO;
    atom.occupancy = MINUS_ZERO;
    let line = atom.to_string();
    assert_eq!(&line[30..38], "  -0.000");
    assert_eq!(&line[54..60], " -0.00");
    let back = Atom::from_line(&line).unwrap();
    assert_eq!(back.x, MINUS_ZERO);
    assert_eq!(back.occupancy, MINUS_ZERO);
}

#[test]
fn translating_by_zero_changes_nothing() {
    let mut atom = sample();
    atom.y = MINUS_ZERO;
    atom.z = fx(0);
    atom.translate(&[fx(0), fx(0), fx(0)]);
    assert_eq!(atom.x, fx(-31789));
    assert_eq!(atom.y, MINUS_ZERO);
    assert_eq!(atom.z, fx(0));
}

#[test]
fn a_difference_of_zero_has_a_minus_sign_only_for_minus_zero_less_zero() {
    let mut atom = sample();
    atom.x = fx(5);
    atom.y = MINUS_ZERO;
    atom.z = fx(0);
    atom.translate(&[fx(5), MINUS_ZERO, MINUS_ZERO]);
    assert_eq!(atom.x, fx(0));
    assert_eq!(atom.y, fx(0));
    assert_eq!(atom.z, fx(0));
}

#[test]
fn translating_reaches_the_greatest_magnitude() {
    let mut atom = sample();
    atom.x = Fixed { negative: false, magnitude: u64::MAX - 1 };
    atom.y = Fixed { negative: true, magnitude: u64::MAX - 1 };
    atom.z = Fixed { negative: false, magnitude: u64::MAX };
    atom.translate(&[fx(-1), fx(1), Fixed { negative: false, magnitude: u64::MAX }]);
    assert_eq!(atom.x, Fixed { negative: false, magnitude: u64::MAX });
    assert_eq!(atom.y, Fixed { negative: true, magnitude: u64::MAX });
    assert_eq!(atom.z, fx(0));
}

#[test]
fn zeros_beyond_the_precision_of_a_column_are_read() {
    let mut line = String::from(MET_N);
    line.replace_range(30..38, "20.15400");
    line.replace_range(38..46, " 29.6990");
    line.replace_range(46..54, "-0.00000");
    line.replace_range(54..60, " 1.000");
    line.replace_range(60..66, "35.140");
    let atom = Atom::from_line(&line).unwrap();
    assert_eq!(atom.x, fx(20154));
    assert_eq!(atom.y, fx(29699));
    assert_eq!(atom.z, MINUS_ZERO);
    assert_eq!(atom.occupancy, fx(100));
    assert_eq!(atom.temp_factor, fx(3514));
    assert_eq!(
        atom.to_string(),
        "ATOM      1  N   MET A   1      20.154  29.699  -0.000  1.00 35.14           N  "
    );
}

#[test]
fn a_digit_that_would_be_lost_makes_the_number_malformed() {
    let cases = [
        (30..38, "20.15401", Field::X),
        (38..46, "0.000001", Field::Y),
        (46..54, " 5.27609", Field::Z),
        (54..60, "1.0040", Field::Occupancy),
        (60..66, "35.149", Field::TempFactor),
    ];
    for (range, text, field) in cases {
        let mut line = String::from(MET_N);
        line.replace_range(range, text);
        assert_eq!(
            Atom::from_line(&line).unwrap_err(),
            DecodeError::MalformedNumeric(field)
        );
    }
}
