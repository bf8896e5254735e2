use nerdfix::bytes::{bytes_eq, lex_less, push_all, str_eq};
use nerdfix::distance::distance;
use nerdfix::text::{parse_hex, to_chars, trim, white_space};

#[test]
fn distance_counts_single_byte_edits() {
    assert_eq!(distance(b"kitten", b"sitting"), 3);
    assert_eq!(distance(b"", b""), 0);
    assert_eq!(distance(b"", b"abc"), 3);
    assert_eq!(distance(b"abc", b""), 3);
    assert_eq!(distance(b"abc", b"abc"), 0);
    assert_eq!(distance(b"nf-cod-acount", b"nf-cod-account"), 1);
    assert_eq!(distance(b"nf-cod-account", b"nf-cod-acount"), 1);
    assert_eq!(distance(b"flaw", b"lawn"), 2);
    assert_eq!(distance(b"abc", b"xyz"), 3);
    assert_eq!(distance(b"a", b"A"), 1);
    assert_eq!(distance(b"intention", b"execution"), 5);
}

#[test]
fn distance_counts_bytes_of_utf8() {
    assert_eq!(distance("é".as_bytes(), b"e"), 2);
    assert_eq!(distance("é".as_bytes(), "è".as_bytes()), 1);
}

#[test]
fn lexical_order_is_byte_wise() {
    assert!(lex_less(b"", b"a"));
    assert!(!lex_less(b"", b""));
    assert!(!lex_less(b"a", b""));
    assert!(lex_less(b"a", b"b"));
    assert!(lex_less(b"a", b"ab"));
    assert!(!lex_less(b"ab", b"a"));
    assert!(lex_less(b"B", b"a"));
    assert!(!lex_less(b"abc", b"abc"));
    assert!(lex_less(b"abc", b"abd"));
    assert!(lex_less(b"z", &[0x80]));
    let mut words: Vec<&[u8]> = vec![b"nf-b", b"nf-a-long", b"nf-a", b"nf-B", b""];
    let sorted = {
        let mut s = words.clone();
        s.sort();
        s
    };
    for i in 0..words.len() {
        for j in 0..words.len() {
            assert_eq!(lex_less(words[i], words[j]), words[i] < words[j]);
        }
    }
    words.sort_by(|a, b| {
        if lex_less(a, b) {
            std::cmp::Ordering::Less
        } else if lex_less(b, a) {
            std::cmp::Ordering::Greater
        } else {
            std::cmp::Ordering::Equal
        }
    });
    assert_eq!(words, sorted);
}

#[test]
fn byte_and_string_equality() {
    assert!(bytes_eq(b"", b""));
    assert!(bytes_eq(b"abc", b"abc"));
    assert!(!bytes_eq(b"abc", b"abd"));
    assert!(!bytes_eq(b"abc", b"ab"));
    assert!(str_eq("obsolete", "obsolete"));
    assert!(!str_eq("obsolete", "Obsolete"));
    assert!(!str_eq("obsolete", "obsolete "));
    assert!(str_eq("é", "é"));
}

#[test]
fn push_all_appends() {
    let mut out = b"ab".to_vec();
    push_all(&mut out, b"cd");
    push_all(&mut out, b"");
    assert_eq!(out, b"abcd".to_vec());
}

#[test]
fn trim_removes_unicode_white_space_at_both_ends() {
    assert_eq!(trim("  nf-a \n"), "nf-a");
    assert_eq!(trim("nf-a"), "nf-a");
    assert_eq!(trim(" a b "), "a b");
    assert_eq!(trim(""), "");
    assert_eq!(trim(" \t\r\n"), "");
    assert_eq!(trim("\u{a0}\u{2003}é\u{3000}\u{85}"), "é");
    assert_eq!(trim("\u{200b}x\u{200b}"), "\u{200b}x\u{200b}");
}

#[test]
fn white_space_agrees_with_the_unicode_property() {
    for u in 0..0x11_0000u32 {
        if let Some(c) = char::from_u32(u) {
            assert_eq!(white_space(c), c.is_whitespace(), "U+{:04X}", u);
        }
    }
}

#[test]
fn parse_hex_reads_numbers_of_32_bits() {
    assert_eq!(parse_hex("eb99"), Some(0xeb99));
    assert_eq!(parse_hex("EB99"), Some(0xeb99));
    assert_eq!(parse_hex("0"), Some(0));
    assert_eq!(parse_hex("+f"), Some(15));
    assert_eq!(parse_hex("000000000000f0003"), Some(0xf0003));
    assert_eq!(parse_hex("ffffffff"), Some(u32::MAX));
    assert_eq!(parse_hex("100000000"), None);
    assert_eq!(parse_hex(""), None);
    assert_eq!(parse_hex("+"), None);
    assert_eq!(parse_hex("-1"), None);
    assert_eq!(parse_hex("++1"), None);
    assert_eq!(parse_hex("0x10"), None);
    assert_eq!(parse_hex("12g"), None);
    assert_eq!(parse_hex(" 12"), None);
    assert_eq!(parse_hex("12 "), None);
    assert_eq!(parse_hex("1_2"), None);
    assert_eq!(parse_hex("é"), None);
    for text in ["eb99", "+7", "", "+", "-1", "fffffffff", "G", "00ff", "١"] {
        assert_eq!(parse_hex(text), u32::from_str_radix(text, 16).ok(), "{:?}", text);
    }
}

#[test]
fn to_chars_lists_the_characters() {
    assert_eq!(to_chars("aé…"), vec!['a', 'é', '…']);
    assert_eq!(to_chars(""), Vec::<char>::new());
}
