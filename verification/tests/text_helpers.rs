use linux_system_monitor::text::{chars_of, parse_u32, trim_str, u32_cleaner};

#[test]
fn cleaner_keeps_digits_in_order() {
    assert_eq!(u32_cleaner(String::from("  5120 kB")), "5120");
    assert_eq!(u32_cleaner(String::from("a1b2c3")), "123");
    assert_eq!(u32_cleaner(String::from("kB")), "");
    assert_eq!(u32_cleaner(String::from("٣4")), "4");
}

#[test]
fn cleaning_twice_is_cleaning_once() {
    let once = u32_cleaner(String::from("x9 y8-7"));
    let twice = u32_cleaner(once.clone());
    assert_eq!(once, "987");
    assert_eq!(once, twice);
}

#[test]
fn parse_u32_follows_from_str() {
    for s in ["", "+", "-", "-5", "+5", "5", "007", "4294967295", "4294967296", "12a", " 1", "99999999999999999999"] {
        assert_eq!(parse_u32(s), s.parse::<u32>().ok(), "input {:?}", s);
    }
}

#[test]
fn parse_u32_values() {
    assert_eq!(parse_u32("+17"), Some(17));
    assert_eq!(parse_u32("0"), Some(0));
    assert_eq!(parse_u32("1 2"), None);
}

#[test]
fn trim_follows_str_trim() {
    for s in ["", "  a b  ", "\u{a0}x\u{3000}", "\t\n", "\u{200b}z", "\u{85}y\u{2029}"] {
        assert_eq!(trim_str(s), s.trim(), "input {:?}", s);
    }
}

#[test]
fn chars_of_lists_characters() {
    assert_eq!(chars_of("aé€"), vec!['a', 'é', '€']);
}
