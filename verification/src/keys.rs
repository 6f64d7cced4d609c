//! Keys, and the bytes a terminal sends for them.

use vstd::prelude::*;

verus! {

/// Modifier keys held down.
#[derive(Clone, Copy, Debug, PartialEq, Eq, Structural)]
pub struct Modifiers {
    pub shift: bool,
    pub alt: bool,
    pub control: bool,
}

/// A key; `Other` is any key a terminal has no byte sequence for.
#[derive(Clone, Copy, Debug, PartialEq, Eq, Structural)]
pub enum KeyCode {
    Char(char),
    Enter,
    Backspace,
    Tab,
    BackTab,
    Esc,
    Up,
    Down,
    Left,
    Right,
    Home,
    End,
    PageUp,
    PageDown,
    Insert,
    Delete,
    F(u8),
    Other,
}

/// A key pressed with its modifiers.
#[derive(Clone, Copy, Debug, PartialEq, Eq, Structural)]
pub struct KeyEvent {
    pub code: KeyCode,
    pub modifiers: Modifiers,
}

/// The upper case of an ASCII letter; any other character as it is.
pub open spec fn ascii_upper(c: char) -> int {
    if 'a' <= c <= 'z' {
        c as int - 32
    } else {
        c as int
    }
}

/// The control byte of an ASCII character.
pub open spec fn control(c: char) -> int {
    if c == ' ' || c == '2' || c == '@' {
        0
    } else if '3' <= c <= '7' {
        c as int - '3' as int + 27
    } else if c == '8' || c == '?' {
        127
    } else if c == '/' {
        31
    } else {
        ascii_upper(c) % 32
    }
}

/// The control byte xterm sends for Ctrl+`c`. Most keys are the letter's low
/// five bits, but the symbols between them are not: hosts send Ctrl+\\ as 0x1c,
/// which is reported as Ctrl+4 (and Ctrl+Space as Ctrl+' ') — so the digits map
/// back to the bytes they stand for.
pub fn ctrl_byte(c: char) -> (b: u8)
    ensures
        b == control(c),
{
    if c == ' ' || c == '2' || c == '@' {
        0
    } else if '3' <= c && c <= '7' {
        (c as u32 - 51 + 27) as u8
    } else if c == '8' || c == '?' {
        127
    } else if c == '/' {
        31
    } else {
        let n: u32 = c as u32;
        let upper: u32 = if 97 <= n && n <= 122 {
            n - 32
        } else {
            n
        };
        (upper % 32) as u8
    }
}

/// The xterm modifier code.
pub open spec fn modifier_code(m: Modifiers) -> int {
    1 + (if m.shift { 1int } else { 0 }) + (if m.alt { 2int } else { 0 }) + (if m.control {
        4int
    } else {
        0
    })
}

/// The sequence of a cursor key ending in `c`.
pub open spec fn cursor_bytes(c: u8, m: int, app_cursor: bool) -> Seq<u8> {
    if m == 1 && !app_cursor {
        seq![0x1b, 0x5b, c]
    } else if m == 1 {
        seq![0x1b, 0x4f, c]
    } else {
        seq![0x1b, 0x5b, 0x31, 0x3b, (48 + m) as u8, c]
    }
}

/// `n` in decimal, for the numbers below a hundred that key sequences hold.
pub open spec fn short_decimal(n: int) -> Seq<u8> {
    if n < 10 {
        seq![(48 + n) as u8]
    } else {
        seq![(48 + n / 10) as u8, (48 + n % 10) as u8]
    }
}

/// The sequence of an editing key numbered `n`.
pub open spec fn tilde_bytes(n: int, m: int) -> Seq<u8> {
    if m == 1 {
        seq![0x1bu8, 0x5b] + short_decimal(n) + seq![0x7eu8]
    } else {
        seq![0x1bu8, 0x5b] + short_decimal(n) + seq![0x3bu8, (48 + m) as u8, 0x7e]
    }
}

/// The number xterm gives F5 to F12.
pub open spec fn function_number(n: int) -> int {
    if n == 5 {
        15
    } else if n <= 10 {
        n + 11
    } else {
        n + 12
    }
}

/// The bytes of a key before any Alt prefix; `None` for a key without any.
pub open spec fn plain_bytes(key: KeyEvent, app_cursor: bool) -> Option<Seq<u8>> {
    let m = modifier_code(key.modifiers);
    match key.code {
        KeyCode::Char(c) => if key.modifiers.control && c <= '\u{7f}' {
            Some(seq![control(c) as u8])
        } else {
            Some(vstd::utf8::encode_utf8(seq![c]))
        },
        KeyCode::Enter => Some(seq![0x0d]),
        KeyCode::Backspace => Some(seq![0x7f]),
        KeyCode::Tab => if key.modifiers.shift {
            Some(seq![0x1b, 0x5b, 0x5a])
        } else {
            Some(seq![0x09])
        },
        KeyCode::BackTab => Some(seq![0x1b, 0x5b, 0x5a]),
        KeyCode::Esc => Some(seq![0x1b]),
        KeyCode::Up => Some(cursor_bytes(0x41, m, app_cursor)),
        KeyCode::Down => Some(cursor_bytes(0x42, m, app_cursor)),
        KeyCode::Right => Some(cursor_bytes(0x43, m, app_cursor)),
        KeyCode::Left => Some(cursor_bytes(0x44, m, app_cursor)),
        KeyCode::Home => Some(cursor_bytes(0x48, m, app_cursor)),
        KeyCode::End => Some(cursor_bytes(0x46, m, app_cursor)),
        KeyCode::PageUp => Some(tilde_bytes(5, m)),
        KeyCode::PageDown => Some(tilde_bytes(6, m)),
        KeyCode::Insert => Some(tilde_bytes(2, m)),
        KeyCode::Delete => Some(tilde_bytes(3, m)),
        KeyCode::F(n) => if 1 <= n <= 4 {
            // F1 to F4 end in P to S; plain ones come with the SS3 prefix.
            Some(cursor_bytes((0x4f + n) as u8, m, m == 1))
        } else if 5 <= n <= 12 {
            Some(tilde_bytes(function_number(n as int), m))
        } else {
            None
        },
        KeyCode::Other => None,
    }
}

/// Whether Alt on this key is the classic ESC prefix; on the others it is
/// carried by the modifier parameter.
pub open spec fn text_key(code: KeyCode) -> bool {
    code is Char || code is Enter || code is Backspace || code is Tab || code is Esc
}

/// The bytes a terminal sends for a key.
pub open spec fn key_bytes(key: KeyEvent, app_cursor: bool) -> Option<Seq<u8>> {
    match plain_bytes(key, app_cursor) {
        Some(bytes) => if key.modifiers.alt && text_key(key.code) {
            Some(seq![0x1bu8] + bytes)
        } else {
            Some(bytes)
        },
        None => None,
    }
}

/// The bytes of an optional byte string.
pub open spec fn opt_bytes(b: Option<Vec<u8>>) -> Option<Seq<u8>> {
    match b {
        Some(b) => Some(b@),
        None => None,
    }
}

/// The UTF-8 bytes of `s`.
pub fn utf8(s: &str) -> (v: Vec<u8>)
    ensures
        v@ == vstd::utf8::encode_utf8(s@),
{
    let bytes: &[u8] = s.as_bytes();
    let mut v: Vec<u8> = Vec::new();
    let mut i: usize = 0;
    while i < bytes.len()
        invariant
            i <= bytes@.len(),
            v@ == bytes@.take(i as int),
        decreases bytes.len() - i,
    {
        v.push(bytes[i]);
        i += 1;
        assert(bytes@.take(i as int) =~= bytes@.take(i - 1).push(bytes@[i - 1]));
    }
    assert(bytes@.take(i as int) =~= bytes@);
    v
}

fn cursor(c: u8, m: u8, app_cursor: bool) -> (v: Vec<u8>)
    requires
        1 <= m <= 8,
    ensures
        v@ == cursor_bytes(c, m as int, app_cursor),
{
    let v: Vec<u8> = if m == 1 && !app_cursor {
        vec![0x1b, 0x5b, c]
    } else if m == 1 {
        vec![0x1b, 0x4f, c]
    } else {
        vec![0x1b, 0x5b, 0x31, 0x3b, 48 + m, c]
    };
    assert(v@ =~= cursor_bytes(c, m as int, app_cursor));
    v
}

fn tilde(n: u8, m: u8) -> (v: Vec<u8>)
    requires
        n < 100,
        1 <= m <= 8,
    ensures
        v@ == tilde_bytes(n as int, m as int),
{
    let mut v: Vec<u8> = vec![0x1b, 0x5b];
    if n >= 10 {
        v.push(48 + n / 10);
    }
    v.push(48 + n % 10);
    if m != 1 {
        v.push(0x3b);
        v.push(48 + m);
    }
    v.push(0x7e);
    assert(v@ =~= tilde_bytes(n as int, m as int));
    v
}

fn code_bytes(key: &KeyEvent, app_cursor: bool) -> (v: Option<Vec<u8>>)
    ensures
        opt_bytes(v) == plain_bytes(*key, app_cursor),
{
    let mods: Modifiers = key.modifiers;
    let m: u8 = 1 + (if mods.shift { 1u8 } else { 0 }) + (if mods.alt { 2u8 } else { 0 }) + (
    if mods.control { 4u8 } else { 0 });
    let v: Vec<u8> = match key.code {
        KeyCode::Char(c) => if mods.control && c <= '\u{7f}' {
            vec![ctrl_byte(c)]
        } else {
            let mut s: String = String::new();
            s.push(c);
            assert(s@ =~= seq![c]);
            utf8(s.as_str())
        },
        KeyCode::Enter => vec![0x0d],
        KeyCode::Backspace => vec![0x7f],
        KeyCode::Tab => if mods.shift {
            vec![0x1b, 0x5b, 0x5a]
        } else {
            vec![0x09]
        },
        KeyCode::BackTab => vec![0x1b, 0x5b, 0x5a],
        KeyCode::Esc => vec![0x1b],
        KeyCode::Up => cursor(0x41, m, app_cursor),
        KeyCode::Down => cursor(0x42, m, app_cursor),
        KeyCode::Right => cursor(0x43, m, app_cursor),
        KeyCode::Left => cursor(0x44, m, app_cursor),
        KeyCode::Home => cursor(0x48, m, app_cursor),
        KeyCode::End => cursor(0x46, m, app_cursor),
        KeyCode::PageUp => tilde(5, m),
        KeyCode::PageDown => tilde(6, m),
        KeyCode::Insert => tilde(2, m),
        KeyCode::Delete => tilde(3, m),
        KeyCode::F(n) => if 1 <= n && n <= 4 {
            cursor(0x4f + n, m, m == 1)
        } else if n == 5 {
            tilde(15, m)
        } else if 6 <= n && n <= 10 {
            tilde(n + 11, m)
        } else if n == 11 || n == 12 {
            tilde(n + 12, m)
        } else {
            return None;
        },
        KeyCode::Other => {
            return None;
        },
    };
    proof {
        let want = plain_bytes(*key, app_cursor)->Some_0;
        assert(v@ =~= want);
    }
    Some(v)
}

/// Translate a key event into the byte sequence a terminal would send, honoring
/// application cursor keys and xterm modifier encoding.
pub fn encode_key(key: &KeyEvent, app_cursor: bool) -> (v: Option<Vec<u8>>)
    ensures
        opt_bytes(v) == key_bytes(*key, app_cursor),
{
    let mut bytes: Vec<u8> = match code_bytes(key, app_cursor) {
        Some(bytes) => bytes,
        None => {
            return None;
        },
    };
    let prefixed: bool = match key.code {
        KeyCode::Char(_) | KeyCode::Enter | KeyCode::Backspace | KeyCode::Tab | KeyCode::Esc => true,
        _ => false,
    };
    if key.modifiers.alt && prefixed {
        let ghost was = bytes@;
        bytes.insert(0, 0x1b);
        assert(bytes@ =~= seq![0x1bu8] + was);
    }
    Some(bytes)
}

/// Control characters reach the shell as the byte they have always been: Ctrl
/// with a letter, upper or lower case, is the letter's place in the alphabet.
pub proof fn control_letters(c: char)
    requires
        'a' <= c <= 'z',
    ensures
        control(c) == c as int - 'a' as int + 1,
        control((c as u32 - 32) as char) == control(c),
{
}

// ── what keys send ──────────────────────────────────────────────────────────

/// A key by itself.
pub open spec fn bare(code: KeyCode) -> KeyEvent {
    KeyEvent { code, modifiers: Modifiers { shift: false, alt: false, control: false } }
}

/// A character is sent as its bytes, and with Alt behind an escape.
pub proof fn a_character_is_its_bytes(c: char, m: Modifiers, app_cursor: bool)
    requires
        !m.control,
    ensures
        key_bytes(KeyEvent { code: KeyCode::Char(c), modifiers: m }, app_cursor) == Some(
            if m.alt {
                seq![27u8] + vstd::utf8::encode_utf8(seq![c])
            } else {
                vstd::utf8::encode_utf8(seq![c])
            },
        ),
{
}

/// With Ctrl, a character of the keyboard is one control character; with Alt too, behind
/// an escape.
pub proof fn a_control_character_is_one_byte(c: char, m: Modifiers, app_cursor: bool)
    requires
        m.control,
        c <= '\u{7f}',
    ensures
        key_bytes(KeyEvent { code: KeyCode::Char(c), modifiers: m }, app_cursor) == Some(
            if m.alt {
                seq![27u8, control(c) as u8]
            } else {
                seq![control(c) as u8]
            },
        ),
        control('@') == 0 && control(' ') == 0 && control('[') == 27 && control('\\') == 28
            && control(']') == 29 && control('^') == 30 && control('_') == 31 && control('/') == 31
            && control('?') == 127,
        control('2') == 0 && control('3') == 27 && control('4') == 28 && control('5') == 29
            && control('6') == 30 && control('7') == 31 && control('8') == 127,
{
    if m.alt {
        assert(seq![27u8] + seq![control(c) as u8] =~= seq![27u8, control(c) as u8]);
    }
}

/// The editing keys send what they always have.
pub proof fn editing_keys_send_their_byte(app_cursor: bool)
    ensures
        key_bytes(bare(KeyCode::Enter), app_cursor) == Some(seq![13u8]),
        key_bytes(bare(KeyCode::Backspace), app_cursor) == Some(seq![127u8]),
        key_bytes(bare(KeyCode::Tab), app_cursor) == Some(seq![9u8]),
        key_bytes(bare(KeyCode::BackTab), app_cursor) == Some(seq![27u8, 91, 90]),
        key_bytes(bare(KeyCode::Esc), app_cursor) == Some(seq![27u8]),
        key_bytes(
            KeyEvent {
                code: KeyCode::Enter,
                modifiers: Modifiers { shift: false, alt: true, control: false },
            },
            app_cursor,
        ) == Some(seq![27u8, 13]),
        key_bytes(bare(KeyCode::Other), app_cursor) is None,
{
    assert(seq![27u8] + seq![13u8] =~= seq![27u8, 13]);
}

/// The cursor keys, Home and End, each by its letter.
pub open spec fn cursor_letter(code: KeyCode) -> Option<u8> {
    match code {
        KeyCode::Up => Some(65u8),
        KeyCode::Down => Some(66u8),
        KeyCode::Right => Some(67u8),
        KeyCode::Left => Some(68u8),
        KeyCode::Home => Some(72u8),
        KeyCode::End => Some(70u8),
        _ => None,
    }
}

/// How a terminal counts what is held with a key: one, and one for Shift, two for Alt and
/// four for Ctrl.
pub open spec fn held(m: Modifiers) -> int {
    1 + (if m.shift {
        1int
    } else {
        0
    }) + (if m.alt {
        2int
    } else {
        0
    }) + (if m.control {
        4int
    } else {
        0
    })
}

/// A cursor key sends its letter: behind the prefix the application asked for, or, with
/// something held, behind what is held.
pub proof fn a_cursor_key_sends_its_letter(key: KeyEvent, letter: u8, app_cursor: bool)
    requires
        cursor_letter(key.code) == Some(letter),
    ensures
        key_bytes(key, app_cursor) == Some(
            if held(key.modifiers) > 1 {
                seq![27u8, 91, 49, 59, (48 + held(key.modifiers)) as u8, letter]
            } else if app_cursor {
                seq![27u8, 79, letter]
            } else {
                seq![27u8, 91, letter]
            },
        ),
{
}

/// The other keys of the keyboard send a number: with something held, that too.
pub open spec fn key_number(code: KeyCode) -> Option<Seq<u8>> {
    match code {
        KeyCode::Insert => Some(seq![50u8]),
        KeyCode::Delete => Some(seq![51u8]),
        KeyCode::PageUp => Some(seq![53u8]),
        KeyCode::PageDown => Some(seq![54u8]),
        KeyCode::F(5) => Some(seq![49u8, 53]),
        KeyCode::F(6) => Some(seq![49u8, 55]),
        KeyCode::F(7) => Some(seq![49u8, 56]),
        KeyCode::F(8) => Some(seq![49u8, 57]),
        KeyCode::F(9) => Some(seq![50u8, 48]),
        KeyCode::F(10) => Some(seq![50u8, 49]),
        KeyCode::F(11) => Some(seq![50u8, 51]),
        KeyCode::F(12) => Some(seq![50u8, 52]),
        _ => None,
    }
}

/// A numbered key sends its number between brackets of its own.
pub proof fn a_numbered_key_sends_its_number(key: KeyEvent, number: Seq<u8>, app_cursor: bool)
    requires
        key_number(key.code) == Some(number),
    ensures
        key_bytes(key, app_cursor) == Some(
            if held(key.modifiers) > 1 {
                seq![27u8, 91] + number + seq![59u8, (48 + held(key.modifiers)) as u8, 126]
            } else {
                seq![27u8, 91] + number + seq![126u8]
            },
        ),
{
    match key.code {
        KeyCode::F(n) => {
            assert(short_decimal(function_number(n as int)) =~= number);
        },
        KeyCode::Insert => {
            assert(short_decimal(2) =~= number);
        },
        KeyCode::Delete => {
            assert(short_decimal(3) =~= number);
        },
        KeyCode::PageUp => {
            assert(short_decimal(5) =~= number);
        },
        KeyCode::PageDown => {
            assert(short_decimal(6) =~= number);
        },
        _ => {},
    }
}

/// The first four function keys send the letters P to S.
pub proof fn the_first_function_keys_send_letters(n: u8, m: Modifiers, app_cursor: bool)
    requires
        1 <= n <= 4,
    ensures
        key_bytes(KeyEvent { code: KeyCode::F(n), modifiers: m }, app_cursor) == Some(
            if held(m) > 1 {
                seq![27u8, 91, 49, 59, (48 + held(m)) as u8, (79 + n) as u8]
            } else {
                seq![27u8, 79, (79 + n) as u8]
            },
        ),
{
}

} // verus!
