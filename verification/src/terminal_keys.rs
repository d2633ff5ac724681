//! The key a terminal sees for a keystroke: named keys, punctuation,
//! letters and digits, as a terminal key encoder identifies them.

use vstd::prelude::*;
use crate::edit_rules::spells;
use crate::utf16::chars_of;

verus! {

/// A key as a terminal identifies it, independent of the keyboard layout.
#[derive(Clone, Copy, Debug, PartialEq, Eq, Structural)]
pub enum TerminalKey {
    Enter,
    Tab,
    Backspace,
    Escape,
    Delete,
    ArrowLeft,
    ArrowRight,
    ArrowUp,
    ArrowDown,
    Home,
    End,
    PageUp,
    PageDown,
    F1,
    F2,
    F3,
    F4,
    F5,
    F6,
    F7,
    F8,
    F9,
    F10,
    F11,
    F12,
    Space,
    Minus,
    Equal,
    BracketLeft,
    BracketRight,
    Backslash,
    Backquote,
    Comma,
    Period,
    Semicolon,
    Quote,
    Slash,
    A,
    B,
    C,
    D,
    E,
    F,
    G,
    H,
    I,
    J,
    K,
    L,
    M,
    N,
    O,
    P,
    Q,
    R,
    S,
    T,
    U,
    V,
    W,
    X,
    Y,
    Z,
    Digit0,
    Digit1,
    Digit2,
    Digit3,
    Digit4,
    Digit5,
    Digit6,
    Digit7,
    Digit8,
    Digit9,
    Unidentified,
}

/// The key of an upper-case letter; any other character reads as `Z`.
pub open spec fn spec_letter_key(c: char) -> TerminalKey {
    if c == 'A' {
        TerminalKey::A
    } else if c == 'B' {
        TerminalKey::B
    } else if c == 'C' {
        TerminalKey::C
    } else if c == 'D' {
        TerminalKey::D
    } else if c == 'E' {
        TerminalKey::E
    } else if c == 'F' {
        TerminalKey::F
    } else if c == 'G' {
        TerminalKey::G
    } else if c == 'H' {
        TerminalKey::H
    } else if c == 'I' {
        TerminalKey::I
    } else if c == 'J' {
        TerminalKey::J
    } else if c == 'K' {
        TerminalKey::K
    } else if c == 'L' {
        TerminalKey::L
    } else if c == 'M' {
        TerminalKey::M
    } else if c == 'N' {
        TerminalKey::N
    } else if c == 'O' {
        TerminalKey::O
    } else if c == 'P' {
        TerminalKey::P
    } else if c == 'Q' {
        TerminalKey::Q
    } else if c == 'R' {
        TerminalKey::R
    } else if c == 'S' {
        TerminalKey::S
    } else if c == 'T' {
        TerminalKey::T
    } else if c == 'U' {
        TerminalKey::U
    } else if c == 'V' {
        TerminalKey::V
    } else if c == 'W' {
        TerminalKey::W
    } else if c == 'X' {
        TerminalKey::X
    } else if c == 'Y' {
        TerminalKey::Y
    } else {
        TerminalKey::Z
    }
}

/// The key of a digit; any other character reads as `9`.
pub open spec fn spec_digit_key(c: char) -> TerminalKey {
    if c == '0' {
        TerminalKey::Digit0
    } else if c == '1' {
        TerminalKey::Digit1
    } else if c == '2' {
        TerminalKey::Digit2
    } else if c == '3' {
        TerminalKey::Digit3
    } else if c == '4' {
        TerminalKey::Digit4
    } else if c == '5' {
        TerminalKey::Digit5
    } else if c == '6' {
        TerminalKey::Digit6
    } else if c == '7' {
        TerminalKey::Digit7
    } else if c == '8' {
        TerminalKey::Digit8
    } else {
        TerminalKey::Digit9
    }
}

/// The key of an upper-case letter; any other character reads as `Z`.
pub fn letter_key(c: char) -> (r: TerminalKey)
    ensures
        r == spec_letter_key(c),
{
    match c {
        'A' => TerminalKey::A,
        'B' => TerminalKey::B,
        'C' => TerminalKey::C,
        'D' => TerminalKey::D,
        'E' => TerminalKey::E,
        'F' => TerminalKey::F,
        'G' => TerminalKey::G,
        'H' => TerminalKey::H,
        'I' => TerminalKey::I,
        'J' => TerminalKey::J,
        'K' => TerminalKey::K,
        'L' => TerminalKey::L,
        'M' => TerminalKey::M,
        'N' => TerminalKey::N,
        'O' => TerminalKey::O,
        'P' => TerminalKey::P,
        'Q' => TerminalKey::Q,
        'R' => TerminalKey::R,
        'S' => TerminalKey::S,
        'T' => TerminalKey::T,
        'U' => TerminalKey::U,
        'V' => TerminalKey::V,
        'W' => TerminalKey::W,
        'X' => TerminalKey::X,
        'Y' => TerminalKey::Y,
        _ => TerminalKey::Z,
    }
}

/// The key of a digit; any other character reads as `9`.
pub fn digit_key(c: char) -> (r: TerminalKey)
    ensures
        r == spec_digit_key(c),
{
    match c {
        '0' => TerminalKey::Digit0,
        '1' => TerminalKey::Digit1,
        '2' => TerminalKey::Digit2,
        '3' => TerminalKey::Digit3,
        '4' => TerminalKey::Digit4,
        '5' => TerminalKey::Digit5,
        '6' => TerminalKey::Digit6,
        '7' => TerminalKey::Digit7,
        '8' => TerminalKey::Digit8,
        _ => TerminalKey::Digit9,
    }
}

/// The upper-case form of an ASCII letter.
pub open spec fn spec_upper(c: char) -> char {
    if 'a' <= c <= 'z' {
        ((c as u32) - 32) as char
    } else {
        c
    }
}

fn ascii_upper(c: char) -> (r: char)
    ensures
        r == spec_upper(c),
{
    if 'a' <= c && c <= 'z' {
        let b = c as u8;
        (b - 32) as char
    } else {
        c
    }
}

/// The key a one-character name stands for: a letter, in either case, or
/// a digit.
pub open spec fn spec_char_key(name: Seq<char>) -> TerminalKey {
    if name.len() == 1 {
        let c = name[0];
        if ('a' <= c <= 'z') || ('A' <= c <= 'Z') {
            spec_letter_key(spec_upper(c))
        } else if '0' <= c <= '9' {
            spec_digit_key(c)
        } else {
            TerminalKey::Unidentified
        }
    } else {
        TerminalKey::Unidentified
    }
}

/// The key a keystroke's key name stands for.
pub open spec fn spec_logical_key(name: Seq<char>) -> TerminalKey {
    if name == "enter"@ {
        TerminalKey::Enter
    } else if name == "tab"@ {
        TerminalKey::Tab
    } else if name == "backspace"@ {
        TerminalKey::Backspace
    } else if name == "escape"@ {
        TerminalKey::Escape
    } else if name == "delete"@ {
        TerminalKey::Delete
    } else if name == "left"@ {
        TerminalKey::ArrowLeft
    } else if name == "right"@ {
        TerminalKey::ArrowRight
    } else if name == "up"@ {
        TerminalKey::ArrowUp
    } else if name == "down"@ {
        TerminalKey::ArrowDown
    } else if name == "home"@ {
        TerminalKey::Home
    } else if name == "end"@ {
        TerminalKey::End
    } else if name == "pageup"@ {
        TerminalKey::PageUp
    } else if name == "pagedown"@ {
        TerminalKey::PageDown
    } else if name == "f1"@ {
        TerminalKey::F1
    } else if name == "f2"@ {
        TerminalKey::F2
    } else if name == "f3"@ {
        TerminalKey::F3
    } else if name == "f4"@ {
        TerminalKey::F4
    } else if name == "f5"@ {
        TerminalKey::F5
    } else if name == "f6"@ {
        TerminalKey::F6
    } else if name == "f7"@ {
        TerminalKey::F7
    } else if name == "f8"@ {
        TerminalKey::F8
    } else if name == "f9"@ {
        TerminalKey::F9
    } else if name == "f10"@ {
        TerminalKey::F10
    } else if name == "f11"@ {
        TerminalKey::F11
    } else if name == "f12"@ {
        TerminalKey::F12
    } else if name == "space"@ {
        TerminalKey::Space
    } else if name == "-"@ {
        TerminalKey::Minus
    } else if name == "="@ {
        TerminalKey::Equal
    } else if name == "["@ {
        TerminalKey::BracketLeft
    } else if name == "]"@ {
        TerminalKey::BracketRight
    } else if name == "\\"@ {
        TerminalKey::Backslash
    } else if name == "`"@ {
        TerminalKey::Backquote
    } else if name == ","@ {
        TerminalKey::Comma
    } else if name == "."@ {
        TerminalKey::Period
    } else if name == ";"@ {
        TerminalKey::Semicolon
    } else if name == "'"@ {
        TerminalKey::Quote
    } else if name == "/"@ {
        TerminalKey::Slash
    } else {
        spec_char_key(name)
    }
}

/// The key a keystroke's key name stands for: a named key, a punctuation
/// key, a letter or a digit; anything else is unidentified.
pub fn logical_key(name: &str) -> (r: TerminalKey)
    ensures
        r == spec_logical_key(name@),
{
    let cs = chars_of(name);
    if spells(&cs, "enter") {
        TerminalKey::Enter
    } else if spells(&cs, "tab") {
        TerminalKey::Tab
    } else if spells(&cs, "backspace") {
        TerminalKey::Backspace
    } else if spells(&cs, "escape") {
        TerminalKey::Escape
    } else if spells(&cs, "delete") {
        TerminalKey::Delete
    } else if spells(&cs, "left") {
        TerminalKey::ArrowLeft
    } else if spells(&cs, "right") {
        TerminalKey::ArrowRight
    } else if spells(&cs, "up") {
        TerminalKey::ArrowUp
    } else if spells(&cs, "down") {
        TerminalKey::ArrowDown
    } else if spells(&cs, "home") {
        TerminalKey::Home
    } else if spells(&cs, "end") {
        TerminalKey::End
    } else if spells(&cs, "pageup") {
        TerminalKey::PageUp
    } else if spells(&cs, "pagedown") {
        TerminalKey::PageDown
    } else if spells(&cs, "f1") {
        TerminalKey::F1
    } else if spells(&cs, "f2") {
        TerminalKey::F2
    } else if spells(&cs, "f3") {
        TerminalKey::F3
    } else if spells(&cs, "f4") {
        TerminalKey::F4
    } else if spells(&cs, "f5") {
        TerminalKey::F5
    } else if spells(&cs, "f6") {
        TerminalKey::F6
    } else if spells(&cs, "f7") {
        TerminalKey::F7
    } else if spells(&cs, "f8") {
        TerminalKey::F8
    } else if spells(&cs, "f9") {
        TerminalKey::F9
    } else if spells(&cs, "f10") {
        TerminalKey::F10
    } else if spells(&cs, "f11") {
        TerminalKey::F11
    } else if spells(&cs, "f12") {
        TerminalKey::F12
    } else if spells(&cs, "space") {
        TerminalKey::Space
    } else if spells(&cs, "-") {
        TerminalKey::Minus
    } else if spells(&cs, "=") {
        TerminalKey::Equal
    } else if spells(&cs, "[") {
        TerminalKey::BracketLeft
    } else if spells(&cs, "]") {
        TerminalKey::BracketRight
    } else if spells(&cs, "\\") {
        TerminalKey::Backslash
    } else if spells(&cs, "`") {
        TerminalKey::Backquote
    } else if spells(&cs, ",") {
        TerminalKey::Comma
    } else if spells(&cs, ".") {
        TerminalKey::Period
    } else if spells(&cs, ";") {
        TerminalKey::Semicolon
    } else if spells(&cs, "'") {
        TerminalKey::Quote
    } else if spells(&cs, "/") {
        TerminalKey::Slash
    } else if cs.len() == 1 {
        let c = cs[0];
        if ('a' <= c && c <= 'z') || ('A' <= c && c <= 'Z') {
            letter_key(ascii_upper(c))
        } else if '0' <= c && c <= '9' {
            digit_key(c)
        } else {
            TerminalKey::Unidentified
        }
    } else {
        TerminalKey::Unidentified
    }
}

/// Whether a character is a control character: the Unicode general
/// category Cc, which is U+0000 to U+001F and U+007F to U+009F.
pub open spec fn control_char(c: char) -> bool {
    (c as u32) <= 0x1f || (0x7f <= (c as u32) && (c as u32) <= 0x9f)
}

/// `char::is_control`: whether the character has the Unicode general
/// category Cc.
#[verifier::external_body]
fn is_control(c: char) -> (r: bool)
    ensures
        r == control_char(c),
{
    c.is_control()
}

/// The text a keystroke types, as a character: its key's character when
/// that is a single printable one.
pub open spec fn spec_typed_char(key_char: Option<Seq<char>>) -> Option<char> {
    match key_char {
        Some(s) => if s.len() == 1 && !control_char(s[0]) {
            Some(s[0])
        } else {
            None
        },
        None => None,
    }
}

/// The character a keystroke types, when its key character is a single
/// printable one; control keys type nothing of their own.
pub fn typed_char(key_char: Option<&str>) -> (r: Option<char>)
    ensures
        r == spec_typed_char(match key_char {
            Some(s) => Some(s@),
            None => None,
        }),
{
    match key_char {
        Some(s) => {
            let cs = chars_of(s);
            if cs.len() == 1 && !is_control(cs[0]) {
                Some(cs[0])
            } else {
                None
            }
        },
        None => None,
    }
}


/// The name a key is known by: a named key's name, a letter's upper-case
/// form, a digit; an unidentified key has none.
pub open spec fn key_label(k: TerminalKey) -> Seq<char> {
    match k {
        TerminalKey::Enter => seq!['e', 'n', 't', 'e', 'r'],
        TerminalKey::Tab => seq!['t', 'a', 'b'],
        TerminalKey::Backspace => seq!['b', 'a', 'c', 'k', 's', 'p', 'a', 'c', 'e'],
        TerminalKey::Escape => seq!['e', 's', 'c', 'a', 'p', 'e'],
        TerminalKey::Delete => seq!['d', 'e', 'l', 'e', 't', 'e'],
        TerminalKey::ArrowLeft => seq!['l', 'e', 'f', 't'],
        TerminalKey::ArrowRight => seq!['r', 'i', 'g', 'h', 't'],
        TerminalKey::ArrowUp => seq!['u', 'p'],
        TerminalKey::ArrowDown => seq!['d', 'o', 'w', 'n'],
        TerminalKey::Home => seq!['h', 'o', 'm', 'e'],
        TerminalKey::End => seq!['e', 'n', 'd'],
        TerminalKey::PageUp => seq!['p', 'a', 'g', 'e', 'u', 'p'],
        TerminalKey::PageDown => seq!['p', 'a', 'g', 'e', 'd', 'o', 'w', 'n'],
        TerminalKey::F1 => seq!['f', '1'],
        TerminalKey::F2 => seq!['f', '2'],
        TerminalKey::F3 => seq!['f', '3'],
        TerminalKey::F4 => seq!['f', '4'],
        TerminalKey::F5 => seq!['f', '5'],
        TerminalKey::F6 => seq!['f', '6'],
        TerminalKey::F7 => seq!['f', '7'],
        TerminalKey::F8 => seq!['f', '8'],
        TerminalKey::F9 => seq!['f', '9'],
        TerminalKey::F10 => seq!['f', '1', '0'],
        TerminalKey::F11 => seq!['f', '1', '1'],
        TerminalKey::F12 => seq!['f', '1', '2'],
        TerminalKey::Space => seq!['s', 'p', 'a', 'c', 'e'],
        TerminalKey::Minus => seq!['-'],
        TerminalKey::Equal => seq!['='],
        TerminalKey::BracketLeft => seq!['['],
        TerminalKey::BracketRight => seq![']'],
        TerminalKey::Backslash => seq!['\\'],
        TerminalKey::Backquote => seq!['`'],
        TerminalKey::Comma => seq![','],
        TerminalKey::Period => seq!['.'],
        TerminalKey::Semicolon => seq![';'],
        TerminalKey::Quote => seq!['\''],
        TerminalKey::Slash => seq!['/'],
        TerminalKey::A => seq!['A'],
        TerminalKey::B => seq!['B'],
        TerminalKey::C => seq!['C'],
        TerminalKey::D => seq!['D'],
        TerminalKey::E => seq!['E'],
        TerminalKey::F => seq!['F'],
        TerminalKey::G => seq!['G'],
        TerminalKey::H => seq!['H'],
        TerminalKey::I => seq!['I'],
        TerminalKey::J => seq!['J'],
        TerminalKey::K => seq!['K'],
        TerminalKey::L => seq!['L'],
        TerminalKey::M => seq!['M'],
        TerminalKey::N => seq!['N'],
        TerminalKey::O => seq!['O'],
        TerminalKey::P => seq!['P'],
        TerminalKey::Q => seq!['Q'],
        TerminalKey::R => seq!['R'],
        TerminalKey::S => seq!['S'],
        TerminalKey::T => seq!['T'],
        TerminalKey::U => seq!['U'],
        TerminalKey::V => seq!['V'],
        TerminalKey::W => seq!['W'],
        TerminalKey::X => seq!['X'],
        TerminalKey::Y => seq!['Y'],
        TerminalKey::Z => seq!['Z'],
        TerminalKey::Digit0 => seq!['0'],
        TerminalKey::Digit1 => seq!['1'],
        TerminalKey::Digit2 => seq!['2'],
        TerminalKey::Digit3 => seq!['3'],
        TerminalKey::Digit4 => seq!['4'],
        TerminalKey::Digit5 => seq!['5'],
        TerminalKey::Digit6 => seq!['6'],
        TerminalKey::Digit7 => seq!['7'],
        TerminalKey::Digit8 => seq!['8'],
        TerminalKey::Digit9 => seq!['9'],
        TerminalKey::Unidentified => seq![],
    }
}

/// A key name reads as the key of that name: a named key read from a
/// name is the key whose name it is, a letter key is read from that
/// letter in either case, and a digit key from that digit. So distinct
/// names give distinct named keys.
pub proof fn lemma_key_names(name: Seq<char>)
    ensures
        ({
            let k = spec_logical_key(name);
            &&& k != TerminalKey::Unidentified && key_label(k).len() != 1 ==> key_label(k) == name
            &&& k != TerminalKey::Unidentified && key_label(k).len() == 1 ==> name.len() == 1 && spec_upper(name[0])
                == key_label(k)[0]
        }),
{
    reveal_strlit("enter");
    reveal_strlit("tab");
    reveal_strlit("backspace");
    reveal_strlit("escape");
    reveal_strlit("delete");
    reveal_strlit("left");
    reveal_strlit("right");
    reveal_strlit("up");
    reveal_strlit("down");
    reveal_strlit("home");
    reveal_strlit("end");
    reveal_strlit("pageup");
    reveal_strlit("pagedown");
    reveal_strlit("f1");
    reveal_strlit("f2");
    reveal_strlit("f3");
    reveal_strlit("f4");
    reveal_strlit("f5");
    reveal_strlit("f6");
    reveal_strlit("f7");
    reveal_strlit("f8");
    reveal_strlit("f9");
    reveal_strlit("f10");
    reveal_strlit("f11");
    reveal_strlit("f12");
    reveal_strlit("space");
    reveal_strlit("-");
    reveal_strlit("=");
    reveal_strlit("[");
    reveal_strlit("]");
    reveal_strlit("\\");
    reveal_strlit("`");
    reveal_strlit(",");
    reveal_strlit(".");
    reveal_strlit(";");
    reveal_strlit("'");
    reveal_strlit("/");
}

/// Every key but the unidentified one is read from its own name.
#[verifier::spinoff_prover]
#[verifier::rlimit(100)]
pub proof fn lemma_label_reads_back(k: TerminalKey)
    requires
        k != TerminalKey::Unidentified,
    ensures
        spec_logical_key(key_label(k)) == k,
{
    reveal_strlit("enter");
    reveal_strlit("tab");
    reveal_strlit("backspace");
    reveal_strlit("escape");
    reveal_strlit("delete");
    reveal_strlit("left");
    reveal_strlit("right");
    reveal_strlit("up");
    reveal_strlit("down");
    reveal_strlit("home");
    reveal_strlit("end");
    reveal_strlit("pageup");
    reveal_strlit("pagedown");
    reveal_strlit("f1");
    reveal_strlit("f2");
    reveal_strlit("f3");
    reveal_strlit("f4");
    reveal_strlit("f5");
    reveal_strlit("f6");
    reveal_strlit("f7");
    reveal_strlit("f8");
    reveal_strlit("f9");
    reveal_strlit("f10");
    reveal_strlit("f11");
    reveal_strlit("f12");
    reveal_strlit("space");
    reveal_strlit("-");
    reveal_strlit("=");
    reveal_strlit("[");
    reveal_strlit("]");
    reveal_strlit("\\");
    reveal_strlit("`");
    reveal_strlit(",");
    reveal_strlit(".");
    reveal_strlit(";");
    reveal_strlit("'");
    reveal_strlit("/");
    match k {
        TerminalKey::Enter => {
            assert(key_label(k) =~= seq!['e', 'n', 't', 'e', 'r']);
            assert(key_label(k) =~= "enter"@);
        },
        TerminalKey::Tab => {
            assert(key_label(k) =~= seq!['t', 'a', 'b']);
            assert(key_label(k) =~= "tab"@);
        },
        TerminalKey::Backspace => {
            assert(key_label(k) =~= seq!['b', 'a', 'c', 'k', 's', 'p', 'a', 'c', 'e']);
            assert(key_label(k) =~= "backspace"@);
        },
        TerminalKey::Escape => {
            assert(key_label(k) =~= seq!['e', 's', 'c', 'a', 'p', 'e']);
            assert(key_label(k) =~= "escape"@);
        },
        TerminalKey::Delete => {
            assert(key_label(k) =~= seq!['d', 'e', 'l', 'e', 't', 'e']);
            assert(key_label(k) =~= "delete"@);
        },
        TerminalKey::ArrowLeft => {
            assert(key_label(k) =~= seq!['l', 'e', 'f', 't']);
            assert(key_label(k) =~= "left"@);
        },
        TerminalKey::ArrowRight => {
            assert(key_label(k) =~= seq!['r', 'i', 'g', 'h', 't']);
            assert(key_label(k) =~= "right"@);
        },
        TerminalKey::ArrowUp => {
            assert(key_label(k) =~= seq!['u', 'p']);
            assert(key_label(k) =~= "up"@);
        },
        TerminalKey::ArrowDown => {
            assert(key_label(k) =~= seq!['d', 'o', 'w', 'n']);
            assert(key_label(k) =~= "down"@);
        },
        TerminalKey::Home => {
            assert(key_label(k) =~= seq!['h', 'o', 'm', 'e']);
            assert(key_label(k) =~= "home"@);
        },
        TerminalKey::End => {
            assert(key_label(k) =~= seq!['e', 'n', 'd']);
            assert(key_label(k) =~= "end"@);
        },
        TerminalKey::PageUp => {
            assert(key_label(k) =~= seq!['p', 'a', 'g', 'e', 'u', 'p']);
            assert(key_label(k) =~= "pageup"@);
        },
        TerminalKey::PageDown => {
            assert(key_label(k) =~= seq!['p', 'a', 'g', 'e', 'd', 'o', 'w', 'n']);
            assert(key_label(k) =~= "pagedown"@);
        },
        TerminalKey::F1 => {
            assert(key_label(k) =~= seq!['f', '1']);
            assert(key_label(k) =~= "f1"@);
        },
        TerminalKey::F2 => {
            assert(key_label(k) =~= seq!['f', '2']);
            assert(key_label(k) =~= "f2"@);
        },
        TerminalKey::F3 => {
            assert(key_label(k) =~= seq!['f', '3']);
            assert(key_label(k) =~= "f3"@);
        },
        TerminalKey::F4 => {
            assert(key_label(k) =~= seq!['f', '4']);
            assert(key_label(k) =~= "f4"@);
        },
        TerminalKey::F5 => {
            assert(key_label(k) =~= seq!['f', '5']);
            assert(key_label(k) =~= "f5"@);
        },
        TerminalKey::F6 => {
            assert(key_label(k) =~= seq!['f', '6']);
            assert(key_label(k) =~= "f6"@);
        },
        TerminalKey::F7 => {
            assert(key_label(k) =~= seq!['f', '7']);
            assert(key_label(k) =~= "f7"@);
        },
        TerminalKey::F8 => {
            assert(key_label(k) =~= seq!['f', '8']);
            assert(key_label(k) =~= "f8"@);
        },
        TerminalKey::F9 => {
            assert(key_label(k) =~= seq!['f', '9']);
            assert(key_label(k) =~= "f9"@);
        },
        TerminalKey::F10 => {
            assert(key_label(k) =~= seq!['f', '1', '0']);
            assert(key_label(k) =~= "f10"@);
        },
        TerminalKey::F11 => {
            assert(key_label(k) =~= seq!['f', '1', '1']);
            assert(key_label(k) =~= "f11"@);
        },
        TerminalKey::F12 => {
            assert(key_label(k) =~= seq!['f', '1', '2']);
            assert(key_label(k) =~= "f12"@);
        },
        TerminalKey::Space => {
            assert(key_label(k) =~= seq!['s', 'p', 'a', 'c', 'e']);
            assert(key_label(k) =~= "space"@);
        },
        TerminalKey::Minus => {
            assert(key_label(k) =~= seq!['-']);
            assert(key_label(k) =~= "-"@);
        },
        TerminalKey::Equal => {
            assert(key_label(k) =~= seq!['=']);
            assert(key_label(k) =~= "="@);
        },
        TerminalKey::BracketLeft => {
            assert(key_label(k) =~= seq!['[']);
            assert(key_label(k) =~= "["@);
        },
        TerminalKey::BracketRight => {
            assert(key_label(k) =~= seq![']']);
            assert(key_label(k) =~= "]"@);
        },
        TerminalKey::Backslash => {
            assert(key_label(k) =~= seq!['\\']);
            assert(key_label(k) =~= "\\"@);
        },
        TerminalKey::Backquote => {
            assert(key_label(k) =~= seq!['`']);
            assert(key_label(k) =~= "`"@);
        },
        TerminalKey::Comma => {
            assert(key_label(k) =~= seq![',']);
            assert(key_label(k) =~= ","@);
        },
        TerminalKey::Period => {
            assert(key_label(k) =~= seq!['.']);
            assert(key_label(k) =~= "."@);
        },
        TerminalKey::Semicolon => {
            assert(key_label(k) =~= seq![';']);
            assert(key_label(k) =~= ";"@);
        },
        TerminalKey::Quote => {
            assert(key_label(k) =~= seq!['\'']);
            assert(key_label(k) =~= "'"@);
        },
        TerminalKey::Slash => {
            assert(key_label(k) =~= seq!['/']);
            assert(key_label(k) =~= "/"@);
        },
        TerminalKey::A => {
            assert(key_label(k) =~= seq!['A']);
        },
        TerminalKey::B => {
            assert(key_label(k) =~= seq!['B']);
        },
        TerminalKey::C => {
            assert(key_label(k) =~= seq!['C']);
        },
        TerminalKey::D => {
            assert(key_label(k) =~= seq!['D']);
        },
        TerminalKey::E => {
            assert(key_label(k) =~= seq!['E']);
        },
        TerminalKey::F => {
            assert(key_label(k) =~= seq!['F']);
        },
        TerminalKey::G => {
            assert(key_label(k) =~= seq!['G']);
        },
        TerminalKey::H => {
            assert(key_label(k) =~= seq!['H']);
        },
        TerminalKey::I => {
            assert(key_label(k) =~= seq!['I']);
        },
        TerminalKey::J => {
            assert(key_label(k) =~= seq!['J']);
        },
        TerminalKey::K => {
            assert(key_label(k) =~= seq!['K']);
        },
        TerminalKey::L => {
            assert(key_label(k) =~= seq!['L']);
        },
        TerminalKey::M => {
            assert(key_label(k) =~= seq!['M']);
        },
        TerminalKey::N => {
            assert(key_label(k) =~= seq!['N']);
        },
        TerminalKey::O => {
            assert(key_label(k) =~= seq!['O']);
        },
        TerminalKey::P => {
            assert(key_label(k) =~= seq!['P']);
        },
        TerminalKey::Q => {
            assert(key_label(k) =~= seq!['Q']);
        },
        TerminalKey::R => {
            assert(key_label(k) =~= seq!['R']);
        },
        TerminalKey::S => {
            assert(key_label(k) =~= seq!['S']);
        },
        TerminalKey::T => {
            assert(key_label(k) =~= seq!['T']);
        },
        TerminalKey::U => {
            assert(key_label(k) =~= seq!['U']);
        },
        TerminalKey::V => {
            assert(key_label(k) =~= seq!['V']);
        },
        TerminalKey::W => {
            assert(key_label(k) =~= seq!['W']);
        },
        TerminalKey::X => {
            assert(key_label(k) =~= seq!['X']);
        },
        TerminalKey::Y => {
            assert(key_label(k) =~= seq!['Y']);
        },
        TerminalKey::Z => {
            assert(key_label(k) =~= seq!['Z']);
        },
        TerminalKey::Digit0 => {
            assert(key_label(k) =~= seq!['0']);
        },
        TerminalKey::Digit1 => {
            assert(key_label(k) =~= seq!['1']);
        },
        TerminalKey::Digit2 => {
            assert(key_label(k) =~= seq!['2']);
        },
        TerminalKey::Digit3 => {
            assert(key_label(k) =~= seq!['3']);
        },
        TerminalKey::Digit4 => {
            assert(key_label(k) =~= seq!['4']);
        },
        TerminalKey::Digit5 => {
            assert(key_label(k) =~= seq!['5']);
        },
        TerminalKey::Digit6 => {
            assert(key_label(k) =~= seq!['6']);
        },
        TerminalKey::Digit7 => {
            assert(key_label(k) =~= seq!['7']);
        },
        TerminalKey::Digit8 => {
            assert(key_label(k) =~= seq!['8']);
        },
        TerminalKey::Digit9 => {
            assert(key_label(k) =~= seq!['9']);
        },
        TerminalKey::Unidentified => {},
    }
}

} // verus!
