use delta_mock::offset;
use delta_mock::text;

const SAMPLES: [&str; 12] = [
    "",
    " ",
    "one",
    "  two  words ",
    "a\nb",
    "a\r\nb\r\n",
    "a\n\nb\n",
    "\n",
    "tab\tand\u{a0}nbsp",
    "caf\u{e9} \u{1F600} \u{65E5}\u{672C}",
    "x\r\r\ny\r",
    "thread://a/b/transcript",
];

#[test]
fn white_space_is_what_std_says_for_every_character() {
    for n in 0..=0x10FFFFu32 {
        if let Some(c) = char::from_u32(n) {
            assert_eq!(text::is_white_space(c), c.is_whitespace(), "{n:#x}");
        }
    }
}

#[test]
fn handle_characters_are_letters_digits_dashes_and_underscores() {
    for c in ['a', 'Z', '7', '-', '_', '\u{e9}', '\u{65E5}'] {
        assert!(text::is_handle_char(c), "{c}");
    }
    for c in [' ', '@', '.', ',', '!', '/', '\u{1F600}'] {
        assert!(!text::is_handle_char(c), "{c}");
    }
}

#[test]
fn words_lines_and_trimming_are_those_of_std() {
    for s in SAMPLES {
        let words: Vec<String> = s.split_whitespace().map(str::to_string).collect();
        assert_eq!(text::split_words(s), words, "{s:?}");
        let lines: Vec<String> = s.lines().map(str::to_string).collect();
        assert_eq!(text::split_lines(s), lines, "{s:?}");
        assert_eq!(text::trim(s), s.trim(), "{s:?}");
        assert_eq!(text::is_blank(s), s.trim().is_empty(), "{s:?}");
        assert_eq!(text::is_empty(s), s.is_empty(), "{s:?}");
        assert_eq!(text::rest_after_last(s, '/'), s.rsplit('/').next().unwrap(), "{s:?}");
    }
}

#[test]
fn searching_is_that_of_std() {
    for s in SAMPLES {
        for part in ["", "a", "b", "two", "\r\n", "thread://", "zz"] {
            assert_eq!(text::contains_text(s, part), s.contains(part), "{s:?} {part:?}");
            assert_eq!(text::has_prefix(s, part), s.starts_with(part), "{s:?} {part:?}");
        }
        for other in SAMPLES {
            assert_eq!(text::same_text(s, other), s == other);
        }
        let at = text::rfind_char(s, 'b');
        let expected = s.rfind('b').map(|n| s[..n].chars().count());
        assert_eq!(at, expected, "{s:?}");
    }
}

#[test]
fn numbers_are_written_as_std_writes_them() {
    for n in [0u128, 1, 9, 10, 11, 99, 100, 4_294_967_296, u128::MAX] {
        assert_eq!(text::write_decimal(n), format!("{n}"));
    }
}

#[test]
fn parts_join_with_separators_between_them() {
    let parts: Vec<String> = ["a", "", "c"].iter().map(|s| s.to_string()).collect();
    assert_eq!(text::join(&parts, ", "), "a, , c");
    assert_eq!(text::join_range(&parts, 1, 3, "-"), "-c");
    assert_eq!(text::join_range(&parts, 1, 1, "-"), "");
    assert_eq!(text::join(&Vec::new(), "-"), "");
}

#[test]
fn characters_convert_there_and_back() {
    for s in SAMPLES {
        let chars = text::to_chars(s);
        assert_eq!(chars, s.chars().collect::<Vec<_>>());
        assert_eq!(text::from_chars(&chars, 0, chars.len()), s);
    }
    let chars = text::to_chars("abcdef");
    assert_eq!(text::from_chars(&chars, 2, 4), "cd");
}

#[test]
fn offsets_are_those_of_std() {
    for s in SAMPLES {
        assert_eq!(offset::text_len(s), s.len());
        for n in 0..=s.len() + 2 {
            assert_eq!(offset::is_boundary(s, n), s.is_char_boundary(n), "{s:?} {n}");
            if s.is_char_boundary(n) {
                assert_eq!(offset::char_index(s, n), s[..n].chars().count());
                let units: usize = s[..n].chars().map(char::len_utf16).sum();
                assert_eq!(offset::offset_to_utf16(s, n), units);
                assert_eq!(offset::offset_from_utf16(s, units), n);
            }
        }
    }
    for c in ['a', '\u{7f}', '\u{80}', '\u{7ff}', '\u{800}', '\u{ffff}', '\u{10000}'] {
        assert_eq!(offset::utf8_width(c), c.len_utf8());
        assert_eq!(offset::utf16_width(c), c.len_utf16());
    }
}

#[test]
fn an_offset_inside_a_character_moves_to_its_end() {
    let s = "a\u{1F600}b";
    assert_eq!(offset::offset_from_utf16(s, 2), 5);
    assert_eq!(offset::offset_from_utf16(s, 3), 5);
    assert_eq!(offset::offset_from_utf16(s, 99), 6);
    assert_eq!(offset::offset_to_utf16(s, 3), 3);
    assert_eq!(offset::slice_bytes(s, 1, 5), "\u{1F600}");
}
