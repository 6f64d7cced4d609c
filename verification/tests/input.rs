use ricon::keys::{ctrl_byte, encode_key, utf8, KeyCode, KeyEvent, Modifiers};
use ricon::mouse::{
    encode_mouse, MouseButton, MouseEncoding, MouseEvent, MouseKind, MouseMode, TermModes,
};

const NONE: Modifiers = Modifiers { shift: false, alt: false, control: false };
const SHIFT: Modifiers = Modifiers { shift: true, alt: false, control: false };
const ALT: Modifiers = Modifiers { shift: false, alt: true, control: false };
const CONTROL: Modifiers = Modifiers { shift: false, alt: false, control: true };
const CONTROL_ALT: Modifiers = Modifiers { shift: false, alt: true, control: true };

fn key(code: KeyCode, modifiers: Modifiers) -> KeyEvent {
    KeyEvent { code, modifiers }
}

#[test]
fn encode_key_plain_and_ctrl_chars() {
    assert_eq!(encode_key(&key(KeyCode::Char('a'), NONE), false), Some(b"a".to_vec()));
    assert_eq!(encode_key(&key(KeyCode::Char('c'), CONTROL), false), Some(vec![0x03]));
    assert_eq!(encode_key(&key(KeyCode::Char('['), CONTROL), false), Some(vec![0x1b]));
}

#[test]
fn encode_key_alt_prefixes_escape_on_text_keys() {
    assert_eq!(encode_key(&key(KeyCode::Char('a'), ALT), false), Some(b"\x1ba".to_vec()));
    assert_eq!(encode_key(&key(KeyCode::Enter, ALT), false), Some(b"\x1b\r".to_vec()));
}

#[test]
fn encode_key_basic_controls() {
    assert_eq!(encode_key(&key(KeyCode::Enter, NONE), false), Some(b"\r".to_vec()));
    assert_eq!(encode_key(&key(KeyCode::Backspace, NONE), false), Some(vec![0x7f]));
    assert_eq!(encode_key(&key(KeyCode::Tab, NONE), false), Some(b"\t".to_vec()));
    assert_eq!(encode_key(&key(KeyCode::Tab, SHIFT), false), Some(b"\x1b[Z".to_vec()));
    assert_eq!(encode_key(&key(KeyCode::BackTab, NONE), false), Some(b"\x1b[Z".to_vec()));
    assert_eq!(encode_key(&key(KeyCode::Esc, NONE), false), Some(vec![0x1b]));
}

#[test]
fn encode_key_cursor_keys_honor_decckm() {
    assert_eq!(encode_key(&key(KeyCode::Up, NONE), false), Some(b"\x1b[A".to_vec()));
    assert_eq!(encode_key(&key(KeyCode::Up, NONE), true), Some(b"\x1bOA".to_vec()));
    assert_eq!(encode_key(&key(KeyCode::Left, NONE), true), Some(b"\x1bOD".to_vec()));
}

#[test]
fn encode_key_cursor_keys_carry_xterm_modifiers() {
    // Modified cursor keys use CSI 1;m even in application mode.
    assert_eq!(encode_key(&key(KeyCode::Up, CONTROL), true), Some(b"\x1b[1;5A".to_vec()));
    assert_eq!(encode_key(&key(KeyCode::Right, SHIFT), false), Some(b"\x1b[1;2C".to_vec()));
    assert_eq!(encode_key(&key(KeyCode::Down, CONTROL_ALT), false), Some(b"\x1b[1;7B".to_vec()));
}

#[test]
fn encode_key_tilde_keys() {
    assert_eq!(encode_key(&key(KeyCode::PageUp, NONE), false), Some(b"\x1b[5~".to_vec()));
    assert_eq!(encode_key(&key(KeyCode::PageDown, CONTROL), false), Some(b"\x1b[6;5~".to_vec()));
    assert_eq!(encode_key(&key(KeyCode::Insert, NONE), false), Some(b"\x1b[2~".to_vec()));
    assert_eq!(encode_key(&key(KeyCode::Delete, NONE), false), Some(b"\x1b[3~".to_vec()));
    assert_eq!(encode_key(&key(KeyCode::Home, NONE), false), Some(b"\x1b[H".to_vec()));
    assert_eq!(encode_key(&key(KeyCode::End, NONE), false), Some(b"\x1b[F".to_vec()));
}

#[test]
fn encode_key_function_keys() {
    assert_eq!(encode_key(&key(KeyCode::F(1), NONE), false), Some(b"\x1bOP".to_vec()));
    assert_eq!(encode_key(&key(KeyCode::F(4), NONE), false), Some(b"\x1bOS".to_vec()));
    assert_eq!(encode_key(&key(KeyCode::F(1), SHIFT), false), Some(b"\x1b[1;2P".to_vec()));
    assert_eq!(encode_key(&key(KeyCode::F(5), NONE), false), Some(b"\x1b[15~".to_vec()));
    assert_eq!(encode_key(&key(KeyCode::F(12), NONE), false), Some(b"\x1b[24~".to_vec()));
}

#[test]
fn encode_key_ignores_unmapped_keys() {
    assert_eq!(encode_key(&key(KeyCode::Other, NONE), false), None);
    assert_eq!(encode_key(&key(KeyCode::F(13), NONE), false), None);
    assert_eq!(encode_key(&key(KeyCode::F(0), NONE), false), None);
}

#[test]
fn ctrl_symbols_send_the_bytes_a_terminal_sends() {
    let ctrl = |c| encode_key(&key(KeyCode::Char(c), CONTROL), false);
    assert_eq!(ctrl('4'), Some(vec![0x1c]), "Ctrl+\\ is SIGQUIT, not Ctrl+T");
    assert_eq!(ctrl('5'), Some(vec![0x1d]), "Ctrl+]");
    assert_eq!(ctrl('7'), Some(vec![0x1f]), "Ctrl+_");
    assert_eq!(ctrl(' '), Some(vec![0x00]), "Ctrl+Space");
    assert_eq!(ctrl('c'), Some(vec![0x03]), "letters keep their low bits");
    assert_eq!(ctrl('?'), Some(vec![0x7f]));
}

#[test]
fn control_letters_are_their_low_five_bits() {
    for (n, c) in ('a'..='z').enumerate() {
        assert_eq!(ctrl_byte(c), n as u8 + 1);
        assert_eq!(ctrl_byte(c.to_ascii_uppercase()), n as u8 + 1);
    }
}

#[test]
fn a_key_outside_ascii_is_its_utf8() {
    assert_eq!(encode_key(&key(KeyCode::Char('é'), NONE), false), Some("é".as_bytes().to_vec()));
    assert_eq!(encode_key(&key(KeyCode::Char('é'), CONTROL), false), Some("é".as_bytes().to_vec()));
    assert_eq!(encode_key(&key(KeyCode::Char('🔁'), ALT), false), Some("\x1b🔁".as_bytes().to_vec()));
    assert_eq!(utf8("aé⧉🔁"), "aé⧉🔁".as_bytes());
}

fn modes(mouse_mode: MouseMode, mouse_encoding: MouseEncoding) -> TermModes {
    TermModes { app_cursor: false, bracketed_paste: false, mouse_mode, mouse_encoding }
}

fn mouse(kind: MouseKind, modifiers: Modifiers) -> MouseEvent {
    MouseEvent { kind, column: 0, row: 0, modifiers }
}

#[test]
fn encode_mouse_disabled_mode_swallows_everything() {
    let m = modes(MouseMode::Off, MouseEncoding::Sgr);
    let down = mouse(MouseKind::Down(MouseButton::Left), NONE);
    assert_eq!(encode_mouse(&down, 0, 0, &m), None);
}

#[test]
fn encode_mouse_sgr_press_and_release() {
    let m = modes(MouseMode::PressRelease, MouseEncoding::Sgr);
    let down = mouse(MouseKind::Down(MouseButton::Left), NONE);
    let up = mouse(MouseKind::Up(MouseButton::Left), NONE);
    assert_eq!(encode_mouse(&down, 0, 0, &m), Some(b"\x1b[<0;1;1M".to_vec()));
    assert_eq!(encode_mouse(&up, 4, 9, &m), Some(b"\x1b[<0;5;10m".to_vec()));
}

#[test]
fn encode_mouse_motion_requires_motion_modes() {
    let drag = mouse(MouseKind::Drag(MouseButton::Left), NONE);
    let moved = mouse(MouseKind::Moved, NONE);
    let press_only = modes(MouseMode::PressRelease, MouseEncoding::Sgr);
    let button = modes(MouseMode::ButtonMotion, MouseEncoding::Sgr);
    let any = modes(MouseMode::AnyMotion, MouseEncoding::Sgr);
    assert_eq!(encode_mouse(&drag, 0, 0, &press_only), None);
    assert_eq!(encode_mouse(&drag, 0, 0, &button), Some(b"\x1b[<32;1;1M".to_vec()));
    assert_eq!(encode_mouse(&moved, 0, 0, &button), None);
    assert_eq!(encode_mouse(&moved, 0, 0, &any), Some(b"\x1b[<35;1;1M".to_vec()));
}

#[test]
fn encode_mouse_wheel_and_modifiers() {
    let m = modes(MouseMode::PressRelease, MouseEncoding::Sgr);
    let up = mouse(MouseKind::ScrollUp, NONE);
    let down = mouse(MouseKind::ScrollDown, NONE);
    let ctrl_click = mouse(MouseKind::Down(MouseButton::Right), CONTROL);
    assert_eq!(encode_mouse(&up, 0, 0, &m), Some(b"\x1b[<64;1;1M".to_vec()));
    assert_eq!(encode_mouse(&down, 0, 0, &m), Some(b"\x1b[<65;1;1M".to_vec()));
    assert_eq!(encode_mouse(&ctrl_click, 0, 0, &m), Some(b"\x1b[<18;1;1M".to_vec()));
}

#[test]
fn encode_mouse_legacy_encoding_and_clamp() {
    let m = modes(MouseMode::PressRelease, MouseEncoding::Default);
    let down = mouse(MouseKind::Down(MouseButton::Left), NONE);
    let up = mouse(MouseKind::Up(MouseButton::Left), NONE);
    // press: cb 0 → 32; col/row 0 → 33.
    assert_eq!(encode_mouse(&down, 0, 0, &m), Some(vec![0x1b, b'[', b'M', 32, 33, 33]));
    // release loses button identity (cb 3 → 35).
    assert_eq!(encode_mouse(&up, 0, 0, &m), Some(vec![0x1b, b'[', b'M', 35, 33, 33]));
    // legacy coordinates saturate at byte 255 (position 223).
    assert_eq!(encode_mouse(&down, 500, 500, &m), Some(vec![0x1b, b'[', b'M', 32, 255, 255]));
}

#[test]
fn a_press_only_subscription_gets_no_release() {
    let m = modes(MouseMode::Press, MouseEncoding::Sgr);
    assert_eq!(encode_mouse(&mouse(MouseKind::Up(MouseButton::Left), NONE), 0, 0, &m), None);
    assert_eq!(encode_mouse(&mouse(MouseKind::ScrollLeft, NONE), 0, 0, &m), None);
}
