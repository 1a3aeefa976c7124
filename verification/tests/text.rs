//! The text model agrees with the standard library's own splitting.

use governance::text::{
    chars_of, is_whitespace, join_chars, split_lines, split_on, split_words, string_of, trim_chars,
};

const SAMPLES: &[&str] = &[
    "",
    "\n",
    "\n\n",
    "a",
    "a\n",
    "a\r",
    "a\r\n",
    "a\r\r\n",
    "\r\n\r\n",
    "a\nb",
    "a\n\nb\n",
    "  lead and trail  ",
    "tab\tsep\u{3000}ideo\u{A0}nbsp\u{2028}ls",
    "\u{85}next\u{1680}ogham\u{200A}hair",
    "x=y=z",
    ",a,,b,",
];

fn rows(v: Vec<Vec<char>>) -> Vec<String> {
    v.iter().map(string_of).collect()
}

#[test]
fn whitespace_is_what_char_is_whitespace_says() {
    for n in 0..=0x10FFFFu32 {
        if let Some(c) = char::from_u32(n) {
            assert_eq!(is_whitespace(c), c.is_whitespace(), "{n:#x}");
        }
    }
}

#[test]
fn lines_fields_trim_and_pieces_agree_with_str() {
    for s in SAMPLES {
        let cs = chars_of(s);
        assert_eq!(rows(split_lines(&cs)), s.lines().collect::<Vec<_>>(), "{s:?}");
        assert_eq!(
            rows(split_words(&cs)),
            s.split_whitespace().collect::<Vec<_>>(),
            "{s:?}"
        );
        assert_eq!(string_of(&trim_chars(&cs)), s.trim(), "{s:?}");
        assert_eq!(rows(split_on(&cs, ',')), s.split(',').collect::<Vec<_>>(), "{s:?}");
    }
}

#[test]
fn joining_puts_the_separator_between() {
    let parts = vec![chars_of("a"), chars_of("bc"), chars_of("")];
    assert_eq!(string_of(&join_chars(&parts, &chars_of(", "))), "a, bc, ");
    assert_eq!(string_of(&join_chars(&vec![], &chars_of(","))), "");
}
