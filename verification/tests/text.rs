use rustdocmd::text::{char_is_whitespace, chars_of, string_of, trimmed};

#[test]
fn whitespace_is_the_white_space_property() {
    let mut code: u32 = 0;
    while code <= 0x10FFFF {
        if let Some(c) = char::from_u32(code) {
            assert_eq!(char_is_whitespace(c), c.is_whitespace(), "U+{:04X}", code);
        }
        code += 1;
    }
}

#[test]
fn characters_round_trip() {
    let s = "a\u{e9}\u{4e2d}\u{1f600}\n";
    let v = chars_of(s);
    assert_eq!(v, vec!['a', '\u{e9}', '\u{4e2d}', '\u{1f600}', '\n']);
    assert_eq!(string_of(&v), s);
    assert_eq!(chars_of(""), Vec::<char>::new());
}

#[test]
fn trimming_agrees_with_std() {
    for s in ["", " ", "a", " a", "a ", " \t a b \r\n", "\u{a0}x\u{3000}", "\u{200b}x", " \u{85} "] {
        assert_eq!(string_of(&trimmed(&chars_of(s))), s.trim(), "{:?}", s);
    }
}
