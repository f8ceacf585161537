use biodivine_algo_smt_inference::name_map::str_equal;
use biodivine_algo_smt_inference::text::{
    char_is_whitespace,
    is_c_safe, name_less, push_decimal, push_joined, trim,
};

#[test]
fn names_are_ordered_as_strings_are() {
    assert!(name_less("a", "b"));
    assert!(!name_less("b", "a"));
    assert!(!name_less("a", "a"));
    assert!(name_less("", "a"));
    assert!(!name_less("a", ""));
    assert!(!name_less("", ""));
    assert!(name_less("fp_1", "fp_10"));
    assert!(name_less("fp_10", "fp_2"));
    assert!(name_less("Z", "a"));
    assert!(name_less("z", "é"));
    assert!(name_less("é", "€"));
    let mut words = vec!["delta", "Alpha", "", "gamma", "al", "alpha", "é", "ab"];
    let mut sorted = words.clone();
    sorted.sort();
    words.sort_by(|a, b| {
        if name_less(a, b) {
            std::cmp::Ordering::Less
        } else if name_less(b, a) {
            std::cmp::Ordering::Greater
        } else {
            std::cmp::Ordering::Equal
        }
    });
    assert_eq!(words, sorted);
}

#[test]
fn equal_names_are_recognised() {
    assert!(str_equal("ND", "ND"));
    assert!(!str_equal("ND", "N"));
    assert!(!str_equal("", "*"));
    assert!(str_equal("", ""));
}

#[test]
fn decimal_form_has_no_leading_zeros() {
    for (number, expected) in [(0usize, "0"), (7, "7"), (10, "10"), (42, "42"), (1005, "1005")] {
        let mut out = String::from("n=");
        push_decimal(&mut out, number);
        assert_eq!(out, format!("n={}", expected));
    }
    let mut out = String::new();
    push_decimal(&mut out, usize::MAX);
    assert_eq!(out, usize::MAX.to_string());
}

#[test]
fn joined_parts_have_the_separator_between_them() {
    let parts: Vec<String> = vec!["a".to_string(), "b".to_string(), "c".to_string()];
    let mut out = String::from("[");
    push_joined(&mut out, &parts, ", ");
    assert_eq!(out, "[a, b, c");
    let mut out = String::new();
    push_joined(&mut out, &Vec::new(), ", ");
    assert_eq!(out, "");
    let mut out = String::new();
    push_joined(&mut out, &vec!["only".to_string()], ", ");
    assert_eq!(out, "only");
}

#[test]
fn trimming_removes_white_space_at_both_ends_only() {
    assert_eq!(trim("  a b \t\n"), "a b");
    assert_eq!(trim("a"), "a");
    assert_eq!(trim(""), "");
    assert_eq!(trim(" \u{a0}\u{3000} "), "");
    assert_eq!(trim("\u{2003}é x\u{85}"), "é x");
    for text in ["", " ", "x ", " x", " x y ", "\r\n0\r\n", "·", " ND"] {
        assert_eq!(trim(text), text.trim());
    }
}

#[test]
fn white_space_is_what_the_standard_library_takes_for_it() {
    let mut count = 0;
    for code in 0..=0x10FFFF_u32 {
        if let Some(c) = char::from_u32(code) {
            assert_eq!(char_is_whitespace(c), c.is_whitespace(), "{:x}", code);
            if char_is_whitespace(c) {
                count += 1;
            }
        }
    }
    assert_eq!(count, 25);
    assert!(char_is_whitespace('\u{2009}'));
    assert!(!char_is_whitespace('\u{200b}'));
    assert!(!char_is_whitespace('\u{feff}'));
}

#[test]
fn names_with_a_zero_character_are_not_safe() {
    assert!(is_c_safe("fix-1"));
    assert!(is_c_safe(""));
    assert!(is_c_safe("é€"));
    assert!(!is_c_safe("a\0b"));
    assert!(!is_c_safe("\0"));
}
