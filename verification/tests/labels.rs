use ricon::base64::base64;
use ricon::labels::{copy_button_x, folder_name, is_shell, paste_text, sweep, truncate_head, truncate_tail, BAR_LEN, BAR_STEP, BUTTON_COLS};
use ricon::VERSION;

#[test]
fn truncate_tail_keeps_short_strings() {
    assert_eq!(truncate_tail("abc", 26, 5), "abc");
    assert_eq!(truncate_tail("", 26, 5), "");
}

#[test]
fn truncate_tail_elides_head_with_ellipsis() {
    // width 8, pad 5 → 3 columns → "…" plus the last two chars.
    assert_eq!(truncate_tail("abcdef", 8, 5), "…ef");
    assert_eq!(truncate_tail("abc", 8, 5), "abc", "a name that fits is untouched");
    assert_eq!(truncate_tail("abcdef", 6, 5), "…");
    assert_eq!(truncate_tail("abcdef", 5, 5), "");
    assert_eq!(truncate_tail("abcdef", 3, 5), "", "an underflowing width budgets nothing too");
}

#[test]
fn truncate_tail_is_char_safe_on_multibyte() {
    assert_eq!(truncate_tail("ééééééé", 8, 5), "…éé");
}

#[test]
fn truncate_head_keeps_command_start_and_is_char_safe() {
    assert_eq!(truncate_head("cargo test", 20, 7), "cargo test");
    assert_eq!(truncate_head("cargo test --all-features", 15, 7), "cargo t…");
    assert!(truncate_head("cargo test --all-features", 15, 7).chars().count() <= 8);
    assert_eq!(truncate_head("anything", 8, 7), "…");
    assert_eq!(truncate_head("anything", 7, 7), "");
    assert_eq!(truncate_head("caféééééé", 12, 7), "café…");
}

#[test]
fn base64_matches_rfc4648_vectors() {
    // Padding at every residue, plus the two clipboard-relevant bytes 62/63.
    assert_eq!(base64(b""), "");
    assert_eq!(base64(b"f"), "Zg==");
    assert_eq!(base64(b"fo"), "Zm8=");
    assert_eq!(base64(b"foo"), "Zm9v");
    assert_eq!(base64(b"foobar"), "Zm9vYmFy");
    assert_eq!(base64(&[0xff, 0xef]), "/+8=");
}

#[test]
fn folder_name_is_last_component() {
    assert_eq!(folder_name("/a/b/c"), "c");
    assert_eq!(folder_name("/"), "/");
}

#[test]
fn is_shell_matches_shells_including_login_and_paths() {
    assert!(is_shell("bash"));
    assert!(is_shell("-zsh")); // login shell's leading dash
    assert!(is_shell("/usr/bin/fish")); // full path
    assert!(!is_shell("vim"));
    assert!(!is_shell("python3"));
}

#[test]
fn version_is_0_4_0() {
    assert_eq!(VERSION, "0.4.0");
}

#[test]
fn copy_button_x_is_flush_left_of_the_version() {
    let version = format!("v{VERSION} ").chars().count() as u16;
    let btn = BUTTON_COLS;
    assert_eq!(copy_button_x(80), Some((80 - version - btn, 80 - version)));
    // Too narrow to leave any left segment: dropped rather than squeezed.
    assert_eq!(copy_button_x(version + btn), None);
    assert_eq!(copy_button_x(version), None);
    assert_eq!(copy_button_x(0), None);
    assert_eq!(copy_button_x(version + btn + 1), Some((1, btn + 1)));
}

#[test]
fn the_segment_comes_round_again() {
    let (step, cells) = (BAR_STEP * 1_000_000, 10);
    assert_eq!(sweep(0, cells), (0, 1));
    assert_eq!(sweep(7 * step, cells), (2, 8));
    assert_eq!(sweep(14 * step, cells), (9, 10));
    assert_eq!(sweep(15 * step, cells), (0, 1));
    assert_eq!(sweep(15_000_000_000 * step + 7 * step, cells), (2, 8), "centuries on");
}

#[test]
fn sweep_always_lights_something_and_walks_left_to_right() {
    // The lit segment enters from the left, leaves to the right, and at no
    // phase is the whole bar dark — a busy tab must always show it moving.
    let cells = 24;
    let ms = 1_000_000;
    let period = cells + BAR_LEN - 1;
    let mut last_from = 0;
    for step in 0..period * 2 {
        let (from, to) = sweep(BAR_STEP * ms * step as u64, cells);
        assert!(from < to && to <= cells, "step {step}: [{from}, {to})");
        assert!(to - from <= BAR_LEN, "step {step}: no longer than the segment");
        assert!(from >= last_from || from == 0, "step {step}: moves right, then wraps");
        last_from = from;
    }
    assert_eq!(sweep(0, cells).1, 1, "starts with one lit cell at the left edge");
    assert_eq!(sweep(BAR_STEP * ms * (period - 1) as u64, cells), (cells - 1, cells), "ends at the right edge");
}

#[test]
fn pasted_text_cannot_break_out_of_its_bracket() {
    assert_eq!(paste_text("a\nb\r\nc"), "a\rb\rc", "line breaks are typed as Enter");
    assert_eq!(paste_text("x\x1b[201~rm -rf ~\x1b[200~y"), "xrm -rf ~y", "the markers are removed");
    for nested in ["\x1b[2\x1b[201~01~", "\x1b[20\x1b[200~1~", "\x1b[2\x1b[20\x1b[200~0~01~"] {
        assert_eq!(paste_text(nested), "", "so is one the removal of another made up: {nested:?}");
    }
}

#[test]
fn a_text_is_cut_once() {
    for width in [0, 1, 4, 9, 40] {
        let (tail, head) = (truncate_tail("/home/dev/ricon", width, 0), truncate_head("cargo build", width, 0));
        assert_eq!(truncate_tail(&tail, width, 0), tail);
        assert_eq!(truncate_head(&head, width, 0), head);
    }
    assert_eq!(truncate_tail("/home/dev/ricon", 9, 0), "…ev/ricon");
    assert_eq!(truncate_head("cargo build", 9, 0), "cargo bu…");
}
