use wasm_opcode_table::text::{
    chars_of, find_chars, is_whitespace, push_decimal, string_of, trim_chars,
};

#[test]
fn whitespace_matches_std_on_every_char() {
    for u in 0u32..=0x10FFFF {
        if let Some(c) = char::from_u32(u) {
            assert_eq!(is_whitespace(c), c.is_whitespace(), "U+{u:04X}");
        }
    }
}

#[test]
fn trim_matches_std() {
    let samples = [
        "", "   ", "abc", "  abc  ", "\t\r\n a b \u{3000}", "\u{a0}x\u{2028}", "é ", " | ...  ",
        "\u{85}\u{1680}mid\u{200a}\u{202f}\u{205f}",
    ];
    for s in samples {
        let cs: Vec<char> = s.chars().collect();
        let t: String = trim_chars(&cs).into_iter().collect();
        assert_eq!(t, s.trim(), "{s:?}");
    }
}

#[test]
fn chars_and_strings_round_trip() {
    let s = "grüße, 世界";
    let cs = chars_of(s);
    assert_eq!(cs, s.chars().collect::<Vec<_>>());
    assert_eq!(string_of(&cs), s);
}

#[test]
fn find_gives_the_first_occurrence() {
    let s: Vec<char> = "a => b => c".chars().collect();
    assert_eq!(find_chars(&s, &['=', '>']), Some(2));
    assert_eq!(find_chars(&s, &['|']), None);
    assert_eq!(find_chars(&s, &[]), Some(0));
}

#[test]
fn decimal_formatting() {
    for n in [0u64, 7, 10, 99, 256, 4294967295, u64::MAX] {
        let mut out = Vec::new();
        push_decimal(&mut out, n);
        assert_eq!(out.into_iter().collect::<String>(), n.to_string());
    }
}
