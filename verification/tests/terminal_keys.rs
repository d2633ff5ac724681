use gpui_base::terminal_keys::{digit_key, letter_key, logical_key, typed_char, TerminalKey};

#[test]
fn named_keys_and_punctuation_map_to_terminal_keys() {
    assert_eq!(logical_key("enter"), TerminalKey::Enter);
    assert_eq!(logical_key("pagedown"), TerminalKey::PageDown);
    assert_eq!(logical_key("f12"), TerminalKey::F12);
    assert_eq!(logical_key("space"), TerminalKey::Space);
    assert_eq!(logical_key("\\"), TerminalKey::Backslash);
    assert_eq!(logical_key("'"), TerminalKey::Quote);
    assert_eq!(logical_key("/"), TerminalKey::Slash);
}

#[test]
fn letters_in_either_case_and_digits_map_to_their_keys() {
    assert_eq!(logical_key("a"), TerminalKey::A);
    assert_eq!(logical_key("Q"), TerminalKey::Q);
    assert_eq!(logical_key("z"), TerminalKey::Z);
    assert_eq!(logical_key("7"), TerminalKey::Digit7);
    assert_eq!(logical_key("é"), TerminalKey::Unidentified);
    assert_eq!(logical_key("ab"), TerminalKey::Unidentified);
    assert_eq!(logical_key(""), TerminalKey::Unidentified);
    assert_eq!(letter_key('M'), TerminalKey::M);
    assert_eq!(letter_key('?'), TerminalKey::Z);
    assert_eq!(digit_key('0'), TerminalKey::Digit0);
    assert_eq!(digit_key('x'), TerminalKey::Digit9);
}

#[test]
fn only_single_printable_characters_type_text() {
    assert_eq!(typed_char(Some("a")), Some('a'));
    assert_eq!(typed_char(Some("你")), Some('你'));
    assert_eq!(typed_char(Some("\u{7}")), None);
    assert_eq!(typed_char(Some("ab")), None);
    assert_eq!(typed_char(None), None);
}

#[test]
fn control_characters_type_nothing() {
    assert_eq!(typed_char(Some("\u{7f}")), None);
    assert_eq!(typed_char(Some("\u{85}")), None);
    assert_eq!(typed_char(Some("\u{1f}")), None);
    assert_eq!(typed_char(Some("\u{a0}")), Some('\u{a0}'));
    assert_eq!(typed_char(Some("\u{200b}")), Some('\u{200b}'));
}
