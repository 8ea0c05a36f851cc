use speak_local::text::{
    begins_with, chars_of, contains_text, finishes_with, is_white_space, parse_number,
    same_ignoring_case, string_of, to_decimal, to_lower, trim, trim_start,
};

#[test]
fn white_space_is_that_of_std() {
    for n in 0..=0x10ffffu32 {
        if let Some(c) = char::from_u32(n) {
            assert_eq!(is_white_space(c), c.is_whitespace(), "{n:x}");
        }
    }
}

#[test]
fn trimming_is_that_of_std() {
    for s in ["", " ", "\u{3000} a b\t\n", "x", " x", "é\u{a0}", "\u{200b} z"] {
        assert_eq!(trim(s), s.trim());
        assert_eq!(trim_start(s), s.trim_start());
    }
}

#[test]
fn lower_case_is_that_of_std_for_ascii() {
    for n in 0..0x250u32 {
        if let Some(c) = char::from_u32(n) {
            let s = c.to_string();
            assert_eq!(to_lower(&s), s.to_ascii_lowercase());
        }
    }
    assert!(same_ignoring_case("AwkWard", "awkward"));
    assert!(!same_ignoring_case("É", "é"));
}

#[test]
fn searching_is_that_of_std() {
    for whole in ["", "a", "aab", "with docker", "é docker é"] {
        for part in ["", "a", "ab", "docker", "é", "aabb"] {
            assert_eq!(contains_text(whole, part), whole.contains(part));
            assert_eq!(begins_with(whole, part), whole.starts_with(part));
            assert_eq!(finishes_with(whole, part), whole.ends_with(part));
        }
    }
}

#[test]
fn numbers_are_those_of_std() {
    for n in [0usize, 7, 10, 99, 600, 16_000, usize::MAX] {
        assert_eq!(to_decimal(n), n.to_string());
    }
    for s in ["0", "+5", "0012", "18446744073709551615", "18446744073709551616", "", "+", "-", "1a"] {
        assert_eq!(parse_number(s, u64::MAX), s.parse::<u64>().ok(), "{s}");
        assert_eq!(parse_number(s, u32::MAX as u64), s.parse::<u32>().ok().map(u64::from), "{s}");
    }
}

#[test]
fn characters_make_texts() {
    let chars = chars_of("a«é»");
    assert_eq!(chars, vec!['a', '«', 'é', '»']);
    assert_eq!(string_of(&chars, 1, 3), "«é");
    assert_eq!(string_of(&chars, 2, 2), "");
}
