//! Mouse events, and the reports a terminal application asks for.

use vstd::prelude::*;
use crate::keys;
use crate::keys::Modifiers;
use crate::text;
use crate::text::decimal_chars;

verus! {

/// A mouse button.
#[derive(Clone, Copy, Debug, PartialEq, Eq, Structural)]
pub enum MouseButton {
    Left,
    Middle,
    Right,
}

/// What the mouse did.
#[derive(Clone, Copy, Debug, PartialEq, Eq, Structural)]
pub enum MouseKind {
    Down(MouseButton),
    Up(MouseButton),
    Drag(MouseButton),
    Moved,
    ScrollUp,
    ScrollDown,
    ScrollLeft,
    ScrollRight,
}

/// A mouse event at a cell of the host terminal.
#[derive(Clone, Copy, Debug, PartialEq, Eq, Structural)]
pub struct MouseEvent {
    pub kind: MouseKind,
    pub column: u16,
    pub row: u16,
    pub modifiers: Modifiers,
}

/// Which mouse events the application in the pane subscribed to.
#[derive(Clone, Copy, Debug, PartialEq, Eq, Structural)]
pub enum MouseMode {
    Off,
    Press,
    PressRelease,
    ButtonMotion,
    AnyMotion,
}

/// How it wants them reported.
#[derive(Clone, Copy, Debug, PartialEq, Eq, Structural)]
pub enum MouseEncoding {
    Default,
    Utf8,
    Sgr,
}

/// The terminal modes of the application in the pane that change how input must
/// be encoded.
#[derive(Clone, Copy, Debug, PartialEq, Eq, Structural)]
pub struct TermModes {
    pub app_cursor: bool,
    pub bracketed_paste: bool,
    pub mouse_mode: MouseMode,
    pub mouse_encoding: MouseEncoding,
}

/// The number of a button.
pub open spec fn button_code(b: MouseButton) -> int {
    match b {
        MouseButton::Left => 0,
        MouseButton::Middle => 1,
        MouseButton::Right => 2,
    }
}

/// The code of an event and whether it is a press, when the application asked
/// for such events.
pub open spec fn event_code(kind: MouseKind, mode: MouseMode) -> Option<(int, bool)> {
    let releases = mode is PressRelease || mode is ButtonMotion || mode is AnyMotion;
    let drags = mode is ButtonMotion || mode is AnyMotion;
    if mode is Off {
        None
    } else {
        match kind {
            MouseKind::Down(b) => Some((button_code(b), true)),
            MouseKind::Up(b) => if releases {
                Some((button_code(b), false))
            } else {
                None
            },
            MouseKind::Drag(b) => if drags {
                Some((button_code(b) + 32, true))
            } else {
                None
            },
            MouseKind::Moved => if mode is AnyMotion {
                Some((35, true))
            } else {
                None
            },
            MouseKind::ScrollUp => Some((64, true)),
            MouseKind::ScrollDown => Some((65, true)),
            MouseKind::ScrollLeft => None,
            MouseKind::ScrollRight => None,
        }
    }
}

/// What the modifiers add to a code.
pub open spec fn modifier_bits(m: Modifiers) -> int {
    (if m.shift { 4int } else { 0 }) + (if m.alt { 8int } else { 0 }) + (if m.control {
        16int
    } else {
        0
    })
}

/// `n` in decimal, as bytes.
pub open spec fn decimal_bytes(n: int) -> Seq<u8> {
    text::decimal(n as nat).map_values(|c: char| c as u8)
}

/// A coordinate in the legacy encoding: 32 over the 1-based position, which
/// stops at 223.
pub open spec fn legacy_coordinate(v: int) -> u8 {
    if v + 1 < 223 {
        (33 + v) as u8
    } else {
        255
    }
}

/// The report of an event at (`col`, `row`) of the pane, when the application
/// asked for such events.
pub open spec fn report(mouse: MouseEvent, col: int, row: int, modes: TermModes) -> Option<Seq<u8>> {
    match event_code(mouse.kind, modes.mouse_mode) {
        None => None,
        Some((code, press)) => {
            let cb = code + modifier_bits(mouse.modifiers);
            if modes.mouse_encoding is Sgr {
                Some(
                    seq![0x1bu8, 0x5b, 0x3c] + decimal_bytes(cb) + seq![0x3bu8] + decimal_bytes(
                        col + 1,
                    ) + seq![0x3bu8] + decimal_bytes(row + 1) + seq![
                        if press {
                            0x4du8
                        } else {
                            0x6d
                        },
                    ],
                )
            } else {
                Some(
                    seq![
                        0x1b,
                        0x5b,
                        0x4d,
                        (32 + if press {
                            cb
                        } else {
                            3
                        }) as u8,
                        legacy_coordinate(col),
                        legacy_coordinate(row),
                    ],
                )
            }
        },
    }
}

/// Appends `n` in decimal to `v`.
pub fn push_number(v: &mut Vec<u8>, n: u64)
    ensures
        final(v)@ == old(v)@ + decimal_bytes(n as int),
{
    let digits: Vec<char> = decimal_chars(n);
    proof {
        text::decimal_reads_back(n as nat);
    }
    let mut i: usize = 0;
    while i < digits.len()
        invariant
            i <= digits@.len(),
            text::numeral(digits@),
            v@ == old(v)@ + digits@.take(i as int).map_values(|c: char| c as u8),
        decreases digits.len() - i,
    {
        assert('0' <= digits@[i as int] <= '9');
        v.push(digits[i] as u8);
        i += 1;
        assert(v@ =~= old(v)@ + digits@.take(i as int).map_values(|c: char| c as u8));
    }
    assert(digits@.take(i as int) =~= digits@);
}

fn button(b: MouseButton) -> (n: u8)
    ensures
        n == button_code(b),
{
    match b {
        MouseButton::Left => 0,
        MouseButton::Middle => 1,
        MouseButton::Right => 2,
    }
}

fn code(kind: MouseKind, mode: MouseMode) -> (r: Option<(u8, bool)>)
    ensures
        match r {
            Some((cb, press)) => event_code(kind, mode) == Some((cb as int, press)) && cb <= 65,
            None => event_code(kind, mode) is None,
        },
{
    match (kind, mode) {
        (_, MouseMode::Off) => None,
        (MouseKind::Down(b), _) => Some((button(b), true)),
        (MouseKind::Up(_), MouseMode::Press) => None,
        (MouseKind::Up(b), _) => Some((button(b), false)),
        (MouseKind::Drag(b), MouseMode::ButtonMotion | MouseMode::AnyMotion) => Some(
            (button(b) + 32, true),
        ),
        (MouseKind::Moved, MouseMode::AnyMotion) => Some((35, true)),
        (MouseKind::ScrollUp, _) => Some((64, true)),
        (MouseKind::ScrollDown, _) => Some((65, true)),
        _ => None,
    }
}

fn legacy(v: u16) -> (b: u8)
    ensures
        b == legacy_coordinate(v as int),
{
    if v < 222 {
        33 + v as u8
    } else {
        255
    }
}

/// Translate a mouse event into the mouse protocol the application in the pane
/// asked for. `col` and `row` count from the pane's top left cell.
pub fn encode_mouse(mouse: &MouseEvent, col: u16, row: u16, modes: &TermModes) -> (v: Option<
    Vec<u8>,
>)
    requires
        event_code(mouse.kind, modes.mouse_mode) is Some ==> col < u16::MAX && row < u16::MAX,
    ensures
        keys::opt_bytes(v) == report(*mouse, col as int, row as int, *modes),
{
    let (cb, press): (u8, bool) = match code(mouse.kind, modes.mouse_mode) {
        Some(found) => found,
        None => {
            return None;
        },
    };
    let m: Modifiers = mouse.modifiers;
    let cb: u8 = cb + (if m.shift { 4u8 } else { 0 }) + (if m.alt { 8u8 } else { 0 }) + (
    if m.control { 16u8 } else { 0 });
    match modes.mouse_encoding {
        MouseEncoding::Sgr => {
            let mut v: Vec<u8> = vec![0x1b, 0x5b, 0x3c];
            push_number(&mut v, cb as u64);
            v.push(0x3b);
            push_number(&mut v, col as u64 + 1);
            v.push(0x3b);
            push_number(&mut v, row as u64 + 1);
            v.push(
                if press {
                    0x4d
                } else {
                    0x6d
                },
            );
            assert(v@ =~= report(*mouse, col as int, row as int, *modes)->Some_0);
            Some(v)
        },
        _ => {
            // A release loses the button's identity.
            let cb: u8 = if press {
                cb
            } else {
                3
            };
            let v: Vec<u8> = vec![0x1b, 0x5b, 0x4d, 32 + cb, legacy(col), legacy(row)];
            assert(v@ =~= report(*mouse, col as int, row as int, *modes)->Some_0);
            Some(v)
        },
    }
}

// ── what is told of the mouse ───────────────────────────────────────────────

/// The number a terminal gives an event, before what is held: the button's, and thirty-two
/// more for a motion; three more than that for a motion with no button, and sixty-four and
/// up for the wheel.
pub open spec fn event_number(kind: MouseKind) -> int {
    match kind {
        MouseKind::Down(MouseButton::Left) | MouseKind::Up(MouseButton::Left) => 0,
        MouseKind::Down(MouseButton::Middle) | MouseKind::Up(MouseButton::Middle) => 1,
        MouseKind::Down(MouseButton::Right) | MouseKind::Up(MouseButton::Right) => 2,
        MouseKind::Drag(MouseButton::Left) => 32,
        MouseKind::Drag(MouseButton::Middle) => 33,
        MouseKind::Drag(MouseButton::Right) => 34,
        MouseKind::Moved => 35,
        MouseKind::ScrollUp => 64,
        _ => 65,
    }
}

/// Whether an application that asked for the mouse in a mode is told of an event: of
/// presses and the wheel in every mode, of releases in all but the first, of drags in the
/// last two, and of bare motion in the last alone. Sideways scrolling is never told.
pub open spec fn is_told(kind: MouseKind, mode: MouseMode) -> bool {
    match kind {
        MouseKind::Down(_) | MouseKind::ScrollUp | MouseKind::ScrollDown => mode
            != MouseMode::Off,
        MouseKind::Up(_) => mode == MouseMode::PressRelease || mode == MouseMode::ButtonMotion
            || mode == MouseMode::AnyMotion,
        MouseKind::Drag(_) => mode == MouseMode::ButtonMotion || mode == MouseMode::AnyMotion,
        MouseKind::Moved => mode == MouseMode::AnyMotion,
        MouseKind::ScrollLeft | MouseKind::ScrollRight => false,
    }
}

/// The number of an event with what is held: four more for Shift, eight for Alt, sixteen
/// for Ctrl.
pub open spec fn told_number(m: MouseEvent) -> int {
    event_number(m.kind) + (if m.modifiers.shift {
        4int
    } else {
        0
    }) + (if m.modifiers.alt {
        8int
    } else {
        0
    }) + (if m.modifiers.control {
        16int
    } else {
        0
    })
}

/// An application is told of exactly the events of its mode.
pub proof fn an_application_is_told_what_it_asked_for(
    m: MouseEvent,
    col: int,
    row: int,
    modes: TermModes,
)
    ensures
        report(m, col, row, modes) is Some <==> is_told(m.kind, modes.mouse_mode),
{
}

/// In the newer encoding it is told the number and the cell, counted from one, and by the
/// last letter whether it is a release.
pub proof fn an_event_is_told_in_numbers(m: MouseEvent, col: int, row: int, modes: TermModes)
    requires
        is_told(m.kind, modes.mouse_mode),
        modes.mouse_encoding == MouseEncoding::Sgr,
    ensures
        report(m, col, row, modes) == Some(
            seq![27u8, 91, 60] + decimal_bytes(told_number(m)) + seq![59u8] + decimal_bytes(col + 1)
                + seq![59u8] + decimal_bytes(row + 1) + seq![
                if m.kind is Up {
                    109u8
                } else {
                    77u8
                },
            ],
        ),
{
}

/// In the older encoding it is told by a byte each, thirty-two more than the number and
/// the cell counted from one; a release does not say of what, and cells too far out are
/// all told alike.
pub proof fn an_event_is_told_in_bytes(m: MouseEvent, col: int, row: int, modes: TermModes)
    requires
        is_told(m.kind, modes.mouse_mode),
        modes.mouse_encoding != MouseEncoding::Sgr,
        0 <= col,
        0 <= row,
    ensures
        report(m, col, row, modes) == Some(
            seq![
                27u8,
                91,
                77,
                (32 + if m.kind is Up {
                    3
                } else {
                    told_number(m)
                }) as u8,
                if col < 222 {
                    (32 + col + 1) as u8
                } else {
                    255u8
                },
                if row < 222 {
                    (32 + row + 1) as u8
                } else {
                    255u8
                },
            ],
        ),
{
}

/// A number is told in its decimal digits.
pub proof fn numbers_are_told_in_digits(n: nat, i: int)
    requires
        0 <= i < text::decimal(n).len(),
    ensures
        decimal_bytes(n as int).len() == text::decimal(n).len(),
        decimal_bytes(n as int)[i] == text::decimal(n)[i] as u8,
{
}

} // verus!
