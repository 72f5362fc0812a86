use currentcost::decimal::{append_decimal, keep_digits, parse_digits, parse_integer};
use currentcost::number_text::{is_number_chars, is_two_decimal_chars};
use currentcost::text::{
    chars_of, contains_char, is_space_char, same_text, split_chars, trim_chars,
};

fn chars(text: &str) -> Vec<char> {
    text.chars().collect()
}

fn text(chars: &[char]) -> String {
    chars.iter().collect()
}

const SAMPLES: [&str; 16] = [
    "",
    " ",
    "a",
    ",",
    ",,",
    "a,b",
    " a , b ",
    "13/04/2019 20:44:48, 1555188288, Sensor 0, 21.200000°C, 631W",
    "\t\n x\u{a0}y \u{2003}\u{3000}",
    "\u{85}\u{1680}z\u{2028}\u{2029}\u{202f}\u{205f}",
    "\u{200b}zero width\u{200b}",
    "a,b,",
    ",a,b",
    "\u{b}\u{c}\r",
    "\u{feff}x",
    "1,2°,3",
];

#[test]
fn characters_are_read_in_order() {
    for sample in SAMPLES {
        assert_eq!(chars_of(sample), chars(sample));
    }
}

#[test]
fn texts_are_compared_by_their_characters() {
    for a in SAMPLES {
        for b in SAMPLES {
            assert_eq!(same_text(a, b), a == b);
        }
    }
}

#[test]
fn a_character_is_found_where_it_occurs() {
    for sample in SAMPLES {
        for c in [',', ' ', '\n', '°', 'a'] {
            assert_eq!(contains_char(sample, c), sample.contains(c));
        }
    }
}

#[test]
fn white_space_is_what_the_standard_library_says() {
    for code in 0..0x3100u32 {
        if let Some(c) = char::from_u32(code) {
            assert_eq!(is_space_char(c), c.is_whitespace());
        }
    }
    assert!(!is_space_char('\u{feff}'));
    assert!(!is_space_char('\u{10ffff}'));
}

#[test]
fn trimming_agrees_with_the_standard_library() {
    for sample in SAMPLES {
        assert_eq!(text(&trim_chars(&chars(sample))), sample.trim());
    }
}

#[test]
fn splitting_agrees_with_the_standard_library() {
    for sample in SAMPLES {
        let pieces: Vec<String> = split_chars(&chars(sample), ',').iter().map(|p| text(p)).collect();
        let expected: Vec<String> = sample.split(',').map(String::from).collect();
        assert_eq!(pieces, expected);
    }
}

const NUMBERS: [&str; 40] = [
    "", "0", "7", "00479", "+5", "-5", "+", "-", "--5", "+-5", " 5", "5 ", "5a", "a", "12345",
    "2147483647", "2147483648", "-2147483648", "-2147483649", "+2147483647", "+2147483648",
    "4294967296", "99999999999999999999", "-99999999999999999999", "0000000000000000000000001",
    "-0", "+0", "1_000", "٣", "1.0", "1e3", "0x10", "５", "-00", "9223372036854775808",
    "18446744073709551616", "2147483650", "21474836470", "+-", "5-",
];

#[test]
fn integers_are_read_as_the_standard_library_reads_them() {
    for number in NUMBERS {
        assert_eq!(parse_integer(&chars(number)), number.parse::<i32>().ok());
    }
}

#[test]
fn runs_of_digits_are_read_without_a_sign() {
    for number in NUMBERS {
        let expected = if number.starts_with('+') || number.starts_with('-') {
            None
        } else {
            number.parse::<i32>().ok()
        };
        assert_eq!(parse_digits(&chars(number)), expected);
    }
}

#[test]
fn digits_are_kept_and_nothing_else() {
    assert_eq!(text(&keep_digits(&chars(" Sensor 12"))), "12");
    assert_eq!(text(&keep_digits(&chars("6a3b1W\n"))), "631");
    assert_eq!(text(&keep_digits(&chars("-٣５x"))), "");
    assert_eq!(text(&keep_digits(&chars(""))), "");
}

#[test]
fn integers_are_written_as_the_standard_library_writes_them() {
    for n in [0i64, 1, 9, 10, 11, 99, 100, 479, -1, -10, 1566315642, i64::MAX, i64::MIN, -9223372036854775807] {
        let mut out = String::from("n=");
        append_decimal(&mut out, n);
        assert_eq!(out, format!("n={}", n));
    }
}

const FRACTIONS: [&str; 64] = [
    "", "0", "21.4", "2a.4", "p", "1.", ".5", ".", "+", "-", "+.", "-.5", "+1.5", "1e5", "1E5",
    "1e", "1e+", "1e+5", "1e-5", "1.e5", ".5e5", ".e5", "e5", "1e5.0", "1.5.2", "inf", "Inf",
    "INF", "+inf", "-inf", "infinity", "INFINITY", "-Infinity", "infinit", "infinityy", "nan",
    "NaN", "NAN", "-nan", "+NaN", "na", "nann", " 1", "1 ", "1_0", "0x1p3", "1f", "1.0f32",
    "--1", "+-1", "1e--5", "1ee5", "00.00", "1e99999", "123456789012345678901234567890", "٣.٥",
    "1,5", "in", "i", "n", "ınf", "ınfinity", "infınıty", "1.5e",
];

#[test]
fn fractions_are_recognised_as_the_standard_library_parses_them() {
    for fraction in FRACTIONS {
        assert_eq!(
            is_number_chars(&chars(fraction)),
            fraction.parse::<f32>().is_ok(),
            "{:?}",
            fraction
        );
    }
}

#[test]
fn renderings_with_two_decimals_are_recognised() {
    let values = [
        0.0f32, -0.0, 21.4, 24.8, -5.256, 0.005, 1e-10, 1e10, 3.4e38, -3.4e38, 99.995,
        f32::INFINITY, f32::NEG_INFINITY, f32::NAN, f32::MIN_POSITIVE, 1.015,
    ];
    for value in values {
        assert!(is_two_decimal_chars(&chars(&format!("{:.2}", value))), "{}", value);
    }
    for other in ["", "1", "1.5", "1.555", ".55", "-.55", "+1.55", "1.5a", "a.55", "infinity", "nan", "-NaN", "1.55 ", "1..55", "--1.55", "-", "1.5e5"] {
        assert!(!is_two_decimal_chars(&chars(other)), "{:?}", other);
    }
}
