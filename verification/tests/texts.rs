use netspectrum::text::{
    chars_of, decimal_text, is_word, join, pad, parse_u32, same_text, shorten_ip, squeeze,
};

#[test]
fn chars_of_a_text() {
    assert_eq!(chars_of("a\u{e9}\u{2026}"), vec!['a', '\u{e9}', '\u{2026}']);
    assert!(chars_of("").is_empty());
}

#[test]
fn decimal_numbers() {
    assert_eq!(decimal_text(0), "0");
    assert_eq!(decimal_text(10), "10");
    assert_eq!(decimal_text(1000), "1000");
    assert_eq!(decimal_text(u32::MAX), "4294967295");
}

#[test]
fn numbers_are_read() {
    assert_eq!(parse_u32("0"), Some(0));
    assert_eq!(parse_u32("007"), Some(7));
    assert_eq!(parse_u32("+12"), Some(12));
    assert_eq!(parse_u32("4294967295"), Some(u32::MAX));
}

#[test]
fn reading_a_number_agrees_with_std() {
    let samples = [
        "", "+", "-", "-1", "++1", "1+", " 1", "1 ", "0x10", "4294967296", "99999999999999999999",
        "00000000000000000001", "\u{661}", "12", "+0", "1_000",
    ];
    for s in samples {
        assert_eq!(parse_u32(s), s.parse::<u32>().ok(), "{s:?}");
    }
}

#[test]
fn a_written_number_is_read_back() {
    for n in [0u32, 1, 9, 10, 99, 100, 65_535, 1_000_000, u32::MAX] {
        assert_eq!(parse_u32(&decimal_text(n)), Some(n));
        assert_eq!(decimal_text(n), n.to_string());
    }
}

#[test]
fn words_ignore_ascii_case_of_the_text() {
    assert!(is_word("HyBrid", "hybrid"));
    assert!(!is_word("hybrids", "hybrid"));
    assert!(!is_word("hybrid", "Hybrid"));
    assert!(!is_word("\u{c4}", "\u{e4}"));
    assert!(is_word("", ""));
}

#[test]
fn texts_are_compared() {
    assert!(same_text("eth0", "eth0"));
    assert!(!same_text("eth0", "eth1"));
    assert!(!same_text("eth0", "eth00"));
}

#[test]
fn lists_are_joined() {
    let one = vec!["a".to_string()];
    let three = vec!["a".to_string(), "b".to_string(), "".to_string()];
    assert_eq!(join(&Vec::new(), ", "), "");
    assert_eq!(join(&one, ", "), "a");
    assert_eq!(join(&three, ", "), "a, b, ");
}

#[test]
fn squeezing_agrees_with_std() {
    let samples = [
        "",
        "   ",
        "one",
        "  one two  ",
        "one\n\ttwo\r\nthree",
        "a\u{a0}b\u{2003}c\u{3000}d",
        "a\u{200b}b",
        "\u{85}x\u{b}y\u{c}z",
    ];
    for s in samples {
        let expected = s.split_whitespace().collect::<Vec<_>>().join(" ");
        assert_eq!(squeeze(s), expected, "{s:?}");
    }
}

#[test]
fn white_space_is_what_the_character_database_lists() {
    let listed = |c: char| {
        matches!(
            c,
            '\u{9}'..='\u{d}'
                | ' '
                | '\u{85}'
                | '\u{a0}'
                | '\u{1680}'
                | '\u{2000}'..='\u{200a}'
                | '\u{2028}'
                | '\u{2029}'
                | '\u{202f}'
                | '\u{205f}'
                | '\u{3000}'
        )
    };
    for c in '\0'..=char::MAX {
        let squeezed = squeeze(&format!("a{c}b"));
        if listed(c) {
            assert_eq!(squeezed, "a b", "{c:?}");
        } else {
            assert_eq!(squeezed, format!("a{c}b"), "{c:?}");
        }
    }
}

#[test]
fn padding_fills_up_only() {
    assert_eq!(pad("eth0", 8), "eth0    ");
    assert_eq!(pad("eth0", 4), "eth0");
    assert_eq!(pad("ethernet0", 4), "ethernet0");
    assert_eq!(pad("\u{e9}", 3), format!("{:3}", "\u{e9}"));
}

#[test]
fn long_addresses_are_shortened() {
    assert_eq!(shorten_ip("255.255.255.255"), "255.255.255.255");
    assert_eq!(shorten_ip("2001:db8::1234:5"), "2001:db8::1234:5");
    assert_eq!(shorten_ip("2001:db8::1234:56"), "2001:db8::1234:\u{2026}");
    assert_eq!(
        shorten_ip("2001:db8:1:2:3:4:5:6"),
        "2001:db8:1:2:3:\u{2026}"
    );
}

#[test]
fn shortening_twice_changes_nothing() {
    let once = shorten_ip("fe80::1ff:fe23:4567:890a");
    assert_eq!(once.chars().count(), 16);
    assert_eq!(shorten_ip(&once), once);
}
