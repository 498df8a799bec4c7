use kassa_lt::text::{char_is_white_space, i64_to_string, name_less};
use kassa_lt::exports::cents_to_string;

#[test]
fn white_space_agrees_with_char_is_whitespace_everywhere() {
    for u in 0u32..=0x10FFFF {
        if let Some(c) = char::from_u32(u) {
            assert_eq!(char_is_white_space(c), c.is_whitespace(), "code point {:x}", u);
        }
    }
}

#[test]
fn decimal_text_of_integers() {
    assert_eq!(i64_to_string(0), "0");
    assert_eq!(i64_to_string(42), "42");
    assert_eq!(i64_to_string(-7), "-7");
    assert_eq!(i64_to_string(i64::MAX), i64::MAX.to_string());
    assert_eq!(i64_to_string(i64::MIN), i64::MIN.to_string());
}

#[test]
fn cents_are_written_like_floating_point_amounts() {
    for c in [0, 5, 10, 50, 99, 100, 105, 460, 410, 1234, -50, -460, 250, 2147483647, -2147483648] {
        let expected = (c as f64 / 100.0).to_string();
        assert_eq!(cents_to_string(c), expected, "cents {}", c);
    }
}

#[test]
fn names_compare_by_code_point() {
    assert!(name_less("Apple", "Banana"));
    assert!(!name_less("Banana", "Apple"));
    assert!(name_less("Tea", "Tea leaf"));
    assert!(!name_less("Tea", "Tea"));
    assert!(name_less("Zebra", "apple"));
    assert!(name_less("Ä", "é"));
}

#[test]
fn cents_agree_with_floating_point_display_over_a_range() {
    for c in -20000..=20000 {
        assert_eq!(cents_to_string(c), (c as f64 / 100.0).to_string(), "cents {}", c);
    }
    for c in [i32::MAX - 1, i32::MIN + 1, 123456789, -987654321] {
        assert_eq!(cents_to_string(c), (c as f64 / 100.0).to_string(), "cents {}", c);
    }
}
