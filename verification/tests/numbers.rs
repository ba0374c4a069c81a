use pdb_atoms::numeral::{
    checked_difference, decimal_digits, fixed_string, parse_fixed, parse_u32, Fixed,
};

use pdb_atoms::text::{get_column, has_prefix, trim, whitespace};

fn fx(units: i64) -> Fixed {
    Fixed::from_units(units)
}

const MINUS_ZERO: Fixed = Fixed { negative: true, magnitude: 0 };
const GREATEST: Fixed = Fixed { negative: false, magnitude: u64::MAX };
const LEAST: Fixed = Fixed { negative: true, magnitude: u64::MAX };

#[test]
fn unsigned_integers_are_read() {
    assert_eq!(parse_u32("0"), Some(0));
    assert_eq!(parse_u32("42"), Some(42));
    assert_eq!(parse_u32("+42"), Some(42));
    assert_eq!(parse_u32("007"), Some(7));
    assert_eq!(parse_u32("4294967295"), Some(u32::MAX));
    assert_eq!(parse_u32("0000000004294967295"), Some(u32::MAX));
}

#[test]
fn what_is_no_unsigned_integer_is_refused() {
    assert_eq!(parse_u32(""), None);
    assert_eq!(parse_u32("+"), None);
    assert_eq!(parse_u32("-"), None);
    assert_eq!(parse_u32("-1"), None);
    assert_eq!(parse_u32("-0"), None);
    assert_eq!(parse_u32("++1"), None);
    assert_eq!(parse_u32("1+"), None);
    assert_eq!(parse_u32(" 1"), None);
    assert_eq!(parse_u32("1 "), None);
    assert_eq!(parse_u32("1.0"), None);
    assert_eq!(parse_u32("1e3"), None);
    assert_eq!(parse_u32("١٢"), None);
    assert_eq!(parse_u32("4294967296"), None);
    assert_eq!(parse_u32("99999999999999999999999999999"), None);
}

#[test]
fn unsigned_integers_are_read_as_the_standard_library_reads_them() {
    let texts = [
        "", "+", "-", "0", "+0", "-0", "12", "+12", "-12", "0012", "4294967295", "4294967296",
        "1_000", " 1", "1 ", "٣", "1.5", "+-1",
    ];
    for text in texts {
        assert_eq!(parse_u32(text), text.parse::<u32>().ok(), "{:?}", text);
    }
}

#[test]
fn fixed_point_numbers_are_read_in_units_of_their_last_digit() {
    assert_eq!(parse_fixed("20.154", 3), Some(fx(20154)));
    assert_eq!(parse_fixed("-31.789", 3), Some(fx(-31789)));
    assert_eq!(parse_fixed("+5.276", 3), Some(fx(5276)));
    assert_eq!(parse_fixed("1.00", 2), Some(fx(100)));
    assert_eq!(parse_fixed("35.14", 2), Some(fx(3514)));
    assert_eq!(parse_fixed("7", 3), Some(fx(7000)));
    assert_eq!(parse_fixed("7.", 3), Some(fx(7000)));
    assert_eq!(parse_fixed(".5", 3), Some(fx(500)));
    assert_eq!(parse_fixed("-.5", 3), Some(fx(-500)));
    assert_eq!(parse_fixed("0.05", 3), Some(fx(50)));
    assert_eq!(parse_fixed("0.001", 3), Some(fx(1)));
    assert_eq!(parse_fixed("-0.000", 3), Some(MINUS_ZERO));
    assert_eq!(parse_fixed("-0.00", 2), Some(MINUS_ZERO));
    assert_eq!(parse_fixed("-0", 3), Some(MINUS_ZERO));
    assert_eq!(parse_fixed("-.0", 3), Some(MINUS_ZERO));
    assert_eq!(parse_fixed("0.000", 3), Some(fx(0)));
    assert_eq!(parse_fixed("+0.000", 3), Some(fx(0)));
    assert_eq!(parse_fixed("000012.5", 3), Some(fx(12500)));
    assert_eq!(parse_fixed("12", 0), Some(fx(12)));
    assert_eq!(parse_fixed("12.", 0), Some(fx(12)));
}

#[test]
fn zeros_beyond_the_scale_do_not_count() {
    assert_eq!(parse_fixed("1.0000", 3), Some(fx(1000)));
    assert_eq!(parse_fixed("29.6990", 3), Some(fx(29699)));
    assert_eq!(parse_fixed("1.000", 2), Some(fx(100)));
    assert_eq!(parse_fixed("-0.0000", 3), Some(MINUS_ZERO));
    assert_eq!(parse_fixed("12.0", 0), Some(fx(12)));
    assert_eq!(parse_fixed(".0", 0), Some(fx(0)));
    assert_eq!(parse_fixed("-.000", 0), Some(MINUS_ZERO));
    assert_eq!(parse_fixed("0.5000000000000000000000000000000", 1), Some(fx(5)));
    assert_eq!(parse_fixed("18446744073709551.615000", 3), Some(GREATEST));
    assert_eq!(parse_fixed("18446744073709551.616000", 3), None);
}

#[test]
fn what_is_no_fixed_point_number_is_refused() {
    assert_eq!(parse_fixed("", 3), None);
    assert_eq!(parse_fixed("+", 3), None);
    assert_eq!(parse_fixed("-", 3), None);
    assert_eq!(parse_fixed(".", 3), None);
    assert_eq!(parse_fixed("-.", 3), None);
    assert_eq!(parse_fixed("1.2.3", 3), None);
    assert_eq!(parse_fixed("1..2", 3), None);
    assert_eq!(parse_fixed("--1", 3), None);
    assert_eq!(parse_fixed("1-", 3), None);
    assert_eq!(parse_fixed("1.-2", 3), None);
    assert_eq!(parse_fixed("1e3", 3), None);
    assert_eq!(parse_fixed("inf", 3), None);
    assert_eq!(parse_fixed("NaN", 3), None);
    assert_eq!(parse_fixed(" 1.0", 3), None);
    assert_eq!(parse_fixed("1,5", 3), None);
    assert_eq!(parse_fixed("１.５", 3), None);
    assert_eq!(parse_fixed("1.2345", 3), None);
    assert_eq!(parse_fixed("1.0001", 3), None);
    assert_eq!(parse_fixed("1.00010", 3), None);
    assert_eq!(parse_fixed("1.000x", 3), None);
    assert_eq!(parse_fixed("1.000 ", 3), None);
    assert_eq!(parse_fixed("1.000é", 3), None);
    assert_eq!(parse_fixed(".x", 0), None);
    assert_eq!(parse_fixed("1.5", 0), None);
}

#[test]
fn fixed_point_numbers_reach_as_far_as_sixty_four_bits() {
    assert_eq!(parse_fixed("18446744073709551.615", 3), Some(GREATEST));
    assert_eq!(parse_fixed("-18446744073709551.615", 3), Some(LEAST));
    assert_eq!(parse_fixed("18446744073709551.616", 3), None);
    assert_eq!(parse_fixed("-18446744073709551.616", 3), None);
    assert_eq!(parse_fixed("18446744073709552", 3), None);
    assert_eq!(parse_fixed("9223372036854775.808", 3), Some(Fixed {
        negative: false,
        magnitude: 9223372036854775808
    }));
    assert_eq!(parse_fixed("-9223372036854775.808", 3), Some(fx(i64::MIN)));
    assert_eq!(parse_fixed("18446744073709551615", 0), Some(GREATEST));
    assert_eq!(parse_fixed("18446744073709551616", 0), None);
    assert_eq!(parse_fixed("1", 19), Some(Fixed {
        negative: false,
        magnitude: 10_000_000_000_000_000_000
    }));
    assert_eq!(parse_fixed("2", 19), None);
    assert_eq!(parse_fixed("0", 255), Some(fx(0)));
    assert_eq!(parse_fixed("-0", 255), Some(MINUS_ZERO));
    assert_eq!(parse_fixed("1", 255), None);
}

#[test]
fn a_count_of_units_gives_sign_and_magnitude() {
    assert_eq!(fx(0), Fixed { negative: false, magnitude: 0 });
    assert_eq!(fx(20154), Fixed { negative: false, magnitude: 20154 });
    assert_eq!(fx(-1), Fixed { negative: true, magnitude: 1 });
    assert_eq!(fx(i64::MAX), Fixed { negative: false, magnitude: 9223372036854775807 });
    assert_eq!(fx(i64::MIN), Fixed { negative: true, magnitude: 9223372036854775808 });
    assert_eq!(fx(-31789).units(), -31789);
    assert_eq!(MINUS_ZERO.units(), 0);
    assert_eq!(GREATEST.units(), 18446744073709551615);
    assert_eq!(LEAST.units(), -18446744073709551615);
}

#[test]
fn differences_are_exact_or_none() {
    assert_eq!(checked_difference(fx(5), fx(7)), Some(fx(-2)));
    assert_eq!(checked_difference(fx(-5), fx(-7)), Some(fx(2)));
    assert_eq!(checked_difference(fx(7), fx(7)), Some(fx(0)));
    assert_eq!(checked_difference(fx(-7), fx(-7)), Some(fx(0)));
    assert_eq!(checked_difference(GREATEST, GREATEST), Some(fx(0)));
    assert_eq!(checked_difference(GREATEST, fx(-1)), None);
    assert_eq!(checked_difference(LEAST, fx(1)), None);
    assert_eq!(checked_difference(GREATEST, LEAST), None);
    assert_eq!(checked_difference(fx(0), GREATEST), Some(LEAST));
    assert_eq!(checked_difference(fx(-1), LEAST), Some(Fixed {
        negative: false,
        magnitude: u64::MAX - 1
    }));
}

#[test]
fn the_sign_of_a_zero_difference_goes_by_the_signs_of_two_zeros() {
    assert_eq!(checked_difference(MINUS_ZERO, fx(0)), Some(MINUS_ZERO));
    assert_eq!(checked_difference(MINUS_ZERO, MINUS_ZERO), Some(fx(0)));
    assert_eq!(checked_difference(fx(0), MINUS_ZERO), Some(fx(0)));
    assert_eq!(checked_difference(fx(0), fx(0)), Some(fx(0)));
    assert_eq!(checked_difference(fx(3), MINUS_ZERO), Some(fx(3)));
    assert_eq!(checked_difference(fx(-3), fx(0)), Some(fx(-3)));
    assert_eq!(checked_difference(MINUS_ZERO, fx(3)), Some(fx(-3)));
}

#[test]
fn fixed_point_numbers_are_written_with_all_their_fractional_digits() {
    assert_eq!(fixed_string(fx(20154), 3), "20.154");
    assert_eq!(fixed_string(fx(-31789), 3), "-31.789");
    assert_eq!(fixed_string(fx(0), 3), "0.000");
    assert_eq!(fixed_string(fx(1), 3), "0.001");
    assert_eq!(fixed_string(fx(-1), 3), "-0.001");
    assert_eq!(fixed_string(fx(50), 3), "0.050");
    assert_eq!(fixed_string(fx(1000), 3), "1.000");
    assert_eq!(fixed_string(fx(100), 2), "1.00");
    assert_eq!(fixed_string(fx(3514), 2), "35.14");
    assert_eq!(fixed_string(fx(-5), 2), "-0.05");
    assert_eq!(fixed_string(fx(12), 0), "12.");
    assert_eq!(fixed_string(fx(i64::MAX), 3), "9223372036854775.807");
    assert_eq!(fixed_string(fx(i64::MIN), 3), "-9223372036854775.808");
    assert_eq!(fixed_string(fx(7), 5), "0.00007");
    assert_eq!(fixed_string(MINUS_ZERO, 3), "-0.000");
    assert_eq!(fixed_string(MINUS_ZERO, 2), "-0.00");
    assert_eq!(fixed_string(MINUS_ZERO, 0), "-0.");
    assert_eq!(fixed_string(GREATEST, 3), "18446744073709551.615");
    assert_eq!(fixed_string(LEAST, 3), "-18446744073709551.615");
}

#[test]
fn a_written_number_is_read_back_as_itself() {
    let values = [0, 1, -1, 9, 10, 99, 100, 999, 1000, -1000, 20154, -31789, 99_999_999, i64::MAX];
    for v in values {
        assert_eq!(parse_fixed(&fixed_string(fx(v), 3), 3), Some(fx(v)));
        assert_eq!(parse_fixed(&fixed_string(fx(v), 2), 2), Some(fx(v)));
    }
    for v in [MINUS_ZERO, GREATEST, LEAST, fx(i64::MIN)] {
        assert_eq!(parse_fixed(&fixed_string(v, 3), 3), Some(v));
        assert_eq!(parse_fixed(&fixed_string(v, 0), 0), Some(v));
    }
}

#[test]
fn the_digits_of_a_number_have_no_leading_zero() {
    assert_eq!(decimal_digits(0), vec!['0']);
    assert_eq!(decimal_digits(7), vec!['7']);
    assert_eq!(decimal_digits(10), vec!['1', '0']);
    assert_eq!(decimal_digits(4047), vec!['4', '0', '4', '7']);
    let all: String = decimal_digits(u64::MAX).into_iter().collect();
    assert_eq!(all, "18446744073709551615");
}

#[test]
fn trimming_removes_white_space_at_both_ends_only() {
    assert_eq!(trim("  N  "), "N");
    assert_eq!(trim("N"), "N");
    assert_eq!(trim(""), "");
    assert_eq!(trim("    "), "");
    assert_eq!(trim(" O 1 "), "O 1");
    assert_eq!(trim("\t\r\n x\u{b}\u{c}"), "x");
    assert_eq!(trim("\u{3000}é\u{2003}"), "é");
    assert_eq!(trim("\u{200b}x"), "\u{200b}x");
}

#[test]
fn white_space_is_what_the_standard_library_takes_for_it() {
    let mut c = 0u32;
    while c <= 0x3100 {
        if let Some(ch) = char::from_u32(c) {
            assert_eq!(whitespace(ch), ch.is_whitespace(), "{:x}", c);
        }
        c += 1;
    }
    assert!(!whitespace('\u{feff}'));
    assert!(!whitespace('\u{10ffff}'));
}

#[test]
fn a_column_is_a_range_of_bytes_between_character_boundaries() {
    assert_eq!(get_column("abcdef", 1, 3), Some("bc"));
    assert_eq!(get_column("abcdef", 0, 6), Some("abcdef"));
    assert_eq!(get_column("abcdef", 6, 6), Some(""));
    assert_eq!(get_column("abcdef", 2, 2), Some(""));
    assert_eq!(get_column("abcdef", 3, 7), None);
    assert_eq!(get_column("abcdef", 7, 7), None);
    assert_eq!(get_column("abcdef", 4, 3), None);
    assert_eq!(get_column("aébc", 1, 3), Some("é"));
    assert_eq!(get_column("aébc", 0, 2), None);
    assert_eq!(get_column("aébc", 2, 4), None);
    assert_eq!(get_column("aébc", 3, 5), Some("bc"));
}

#[test]
fn a_prefix_is_compared_byte_by_byte() {
    assert!(has_prefix("ATOM      1", "ATOM  "));
    assert!(has_prefix("ATOM  ", "ATOM  "));
    assert!(!has_prefix("ATOM ", "ATOM  "));
    assert!(!has_prefix("ATOM\t 1", "ATOM  "));
    assert!(has_prefix("anything", ""));
    assert!(has_prefix("", ""));
    assert!(!has_prefix("", "A"));
    assert!(has_prefix("éa", "é"));
}
