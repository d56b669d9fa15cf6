use abap_parser::text::{
    chars_of, contains_char, ends_with, find_from, first_line, push_decimal, same_text,
    split_lines, split_words, starts_with, string_between, strip_prefix, trim_end_matches,
    trim_start_matches, trimmed, uppercase, CharClass,
};

#[test]
fn space_is_white_space_for_every_character() {
    let mut count: usize = 0;
    for n in 0..=0x10ffffu32 {
        if let Some(c) = char::from_u32(n) {
            assert_eq!(CharClass::Space.contains(c), c.is_whitespace());
            let listed = matches!(
                n,
                0x9..=0xd
                    | 0x20
                    | 0x85
                    | 0xa0
                    | 0x1680
                    | 0x2000..=0x200a
                    | 0x2028
                    | 0x2029
                    | 0x202f
                    | 0x205f
                    | 0x3000
            );
            assert_eq!(c.is_whitespace(), listed);
            if listed {
                count += 1;
            }
        }
    }
    assert_eq!(count, 25);
}

#[test]
fn classes_hold_their_characters() {
    assert!(CharClass::Dot.contains('.') && !CharClass::Dot.contains(','));
    assert!(CharClass::DotComma.contains('.') && CharClass::DotComma.contains(','));
    assert!(!CharClass::DotComma.contains(':'));
    assert!(CharClass::DotColon.contains('.') && CharClass::DotColon.contains(':'));
    assert!(!CharClass::DotColon.contains(','));
    assert!(CharClass::Colon.contains(':') && !CharClass::Colon.contains('.'));
    for c in ['a', 'z', 'A', 'Z'] {
        assert!(CharClass::Letter.contains(c));
    }
    for c in ['0', '_', '@', '[', '`', '{', '\u{e9}'] {
        assert!(!CharClass::Letter.contains(c));
    }
}

#[test]
fn trimming_agrees_with_std() {
    let samples = [
        "", " ", "a", " a", "a ", " \t a b \u{a0}\u{3000}", "...", "a..", "..a", ":: x", "caf\u{e9} ",
    ];
    for s in samples {
        assert_eq!(trimmed(s), s.trim());
        assert_eq!(trim_start_matches(s, CharClass::Space), s.trim_start());
        assert_eq!(trim_end_matches(s, CharClass::Dot), s.trim_end_matches('.'));
        assert_eq!(trim_start_matches(s, CharClass::Colon), s.trim_start_matches(':'));
        assert_eq!(
            trim_start_matches(s, CharClass::Letter),
            s.trim_start_matches(|c: char| c.is_ascii_alphabetic())
        );
    }
}

#[test]
fn words_are_split_at_white_space() {
    assert!(split_words("").is_empty());
    assert!(split_words(" \t\u{2003}").is_empty());
    assert_eq!(split_words("  CLASS  a\u{a0}b. "), vec!["CLASS", "a", "b."]);
    assert_eq!(split_words("\u{e9}t\u{e9} x"), vec!["\u{e9}t\u{e9}", "x"]);
}

#[test]
fn lines_agree_with_std() {
    let samples = [
        "", "\n", "a", "a\n", "a\nb", "a\r\nb\r\n", "a\r", "\r\n\r\n", "a\rb\n", "\n\nx", "\r\r\n",
        "\u{e9}\n\u{fc}",
    ];
    for s in samples {
        let expected: Vec<&str> = s.lines().collect();
        assert_eq!(split_lines(s), expected);
        assert_eq!(first_line(s), s.lines().next().unwrap_or(""));
    }
    assert_eq!(split_lines("a\r\nb\r"), vec!["a".to_string(), "b\r".to_string()]);
}

#[test]
fn prefixes_and_suffixes() {
    assert!(starts_with("IMPLEMENTATION.", "IMPL"));
    assert!(!starts_with("IMP", "IMPL"));
    assert!(starts_with("x", ""));
    assert!(ends_with("a.abap", ".abap"));
    assert!(!ends_with("abap", ".abap"));
    assert_eq!(strip_prefix("WRITE: x", "WRITE:"), Some(" x"));
    assert_eq!(strip_prefix("write: x", "WRITE:"), None);
}

#[test]
fn searching() {
    let chars = chars_of("a=\u{e9}=b");
    assert_eq!(chars, vec!['a', '=', '\u{e9}', '=', 'b']);
    assert_eq!(find_from(&chars, 0, '='), 1);
    assert_eq!(find_from(&chars, 2, '='), 1);
    assert_eq!(find_from(&chars, 4, '='), 1);
    assert_eq!(find_from(&chars, 5, '='), 0);
    assert_eq!(string_between(&chars, 1, 4), "=\u{e9}=");
    assert!(contains_char("a=b", '='));
    assert!(!contains_char("a-b", '='));
}

#[test]
fn texts_are_compared_by_characters() {
    assert!(same_text("", ""));
    assert!(same_text("caf\u{e9}", "caf\u{e9}"));
    assert!(!same_text("caf\u{e9}", "cafe"));
    assert!(!same_text("a", "ab"));
    assert!(!same_text("a", "A"));
}

#[test]
fn upper_case_agrees_with_std() {
    let mut all = String::new();
    for n in 0..=0x10ffffu32 {
        if let Some(c) = char::from_u32(n) {
            let one = c.to_string();
            assert_eq!(uppercase(&one), one.to_uppercase());
            all.push(c);
        }
    }
    assert_eq!(uppercase(&all), all.to_uppercase());
    let samples = [
        "", "abc XYZ_9.", "gr\u{fc}\u{df}e", "\u{fb03}x", "\u{3a3}\u{3c2} \u{3c3}", "i\u{307}", "\u{149}a\r",
        "\u{390}\u{1f52}", "\u{1c6}\u{1c5}",
    ];
    for s in samples {
        assert_eq!(uppercase(s), s.to_uppercase());
        assert_eq!(uppercase(&format!("{}\r", s)), format!("{}\r", s.to_uppercase()));
    }
    assert_eq!(uppercase("tsch\u{fc}\u{df}"), "TSCH\u{dc}SS");
}

#[test]
fn numbers_are_written_in_decimal() {
    for n in [0usize, 7, 10, 42, 99, 100, 12345, usize::MAX] {
        let mut out = "0.".to_string();
        push_decimal(&mut out, n);
        assert_eq!(out, format!("0.{}", n));
    }
}
