//! What the typing field does with a key: which keys count as typed characters, and
//! which character a released key stands for.
use vstd::prelude::*;

verus! {

/// The ASCII lower case of `c`; other characters are left as they are.
pub open spec fn ascii_lower(c: char) -> char {
    if 'A' <= c && c <= 'Z' {
        ((c as u32) + 32) as char
    } else {
        c
    }
}

/// A control character: general category Cc, U+0000 to U+001F and U+007F to U+009F.
pub open spec fn is_control(c: char) -> bool {
    (c as u32) <= 0x1f || (0x7f <= (c as u32) && (c as u32) <= 0x9f)
}

/// `char::to_ascii_lowercase`, written out: 'A'..='Z' become 'a'..='z', every other
/// character stays.
fn to_ascii_lowercase(c: char) -> (r: char)
    ensures
        r == ascii_lower(c),
{
    if 'A' <= c && c <= 'Z' {
        let u: u32 = c as u32;
        let b: u8 = u as u8;
        assert(b as u32 == u);
        ((b + 32) as char)
    } else {
        c
    }
}

/// `char::is_control`, written out: general category Cc, U+0000 to U+001F and U+007F
/// to U+009F.
fn char_is_control(c: char) -> (r: bool)
    ensures
        r == is_control(c),
{
    let u: u32 = c as u32;
    u <= 0x1f || (0x7f <= u && u <= 0x9f)
}

/// A key that went down, as far as the typing field tells keys apart.
#[derive(Clone, Copy, Debug, PartialEq, Eq, Structural)]
pub enum PressedKey {
    Backspace,
    Enter,
    Other,
}

/// A key that came up.
#[derive(Clone, Copy, Debug, PartialEq, Eq, Structural)]
pub enum ReleasedKey {
    /// A character key, with the first character of its text.
    Character(Option<char>),
    Space,
    Backspace,
    Other,
}

/// What a key press asks of the session.
#[derive(Clone, Copy, Debug, PartialEq, Eq, Structural)]
pub enum KeyAction {
    Backspace,
    Submit,
    /// A typed character (lower-cased) with the key's code.
    Char(char, u32),
    Ignore,
}

/// The action of a key press: backspace and enter act as such; any other key types the
/// first character of its text, lower-cased, unless that is a control character.
pub open spec fn press_action(key: PressedKey, text: Option<char>, keycode: u32) -> KeyAction {
    match key {
        PressedKey::Backspace => KeyAction::Backspace,
        PressedKey::Enter => KeyAction::Submit,
        PressedKey::Other => match text {
            Some(ch) => if is_control(ch) {
                KeyAction::Ignore
            } else {
                KeyAction::Char(ascii_lower(ch), keycode)
            },
            None => KeyAction::Ignore,
        },
    }
}

/// A key other than backspace and enter whose text starts with `c` types a character
/// exactly when `c` is not a control character (U+0000 to U+001F, U+007F to U+009F):
/// punctuation, digits, the space and letters of any script all type. The character
/// typed is `c` with 'A'..='Z' lowered to 'a'..='z', sent with the key's code.
pub proof fn law_press_types_character(c: char, keycode: u32)
    ensures
        (press_action(PressedKey::Other, Some(c), keycode) == KeyAction::Ignore) <==> ((c as u32)
            <= 0x1f || (0x7f <= (c as u32) && (c as u32) <= 0x9f)),
        !((c as u32) <= 0x1f || (0x7f <= (c as u32) && (c as u32) <= 0x9f)) ==> (press_action(
            PressedKey::Other,
            Some(c),
            keycode,
        ) matches KeyAction::Char(d, k) && k == keycode && (if 'A' <= c && c <= 'Z' {
            (d as u32) == (c as u32) + 32
        } else {
            d == c
        })),
{
}

/// Decides what a key press does; `text` is the first character the key produced.
pub fn key_press_action(key: PressedKey, text: Option<char>, keycode: u32) -> (r: KeyAction)
    ensures
        r == press_action(key, text, keycode),
{
    match key {
        PressedKey::Backspace => KeyAction::Backspace,
        PressedKey::Enter => KeyAction::Submit,
        PressedKey::Other => match text {
            Some(ch) => {
                if !char_is_control(ch) {
                    KeyAction::Char(to_ascii_lowercase(ch), keycode)
                } else {
                    KeyAction::Ignore
                }
            },
            None => KeyAction::Ignore,
        },
    }
}

/// The character a released key stands for: its first character lower-cased, a space,
/// or the backspace character; `None` for other keys.
pub fn key_to_char(key: ReleasedKey) -> (r: Option<char>)
    ensures
        r == (match key {
            ReleasedKey::Character(first) => match first {
                Some(c) => Some(ascii_lower(c)),
                None => None,
            },
            ReleasedKey::Space => Some(' '),
            ReleasedKey::Backspace => Some('\x08'),
            ReleasedKey::Other => None,
        }),
{
    match key {
        ReleasedKey::Character(first) => match first {
            Some(c) => Some(to_ascii_lowercase(c)),
            None => None,
        },
        ReleasedKey::Space => Some(' '),
        ReleasedKey::Backspace => Some('\x08'),
        ReleasedKey::Other => None,
    }
}

} // verus!
