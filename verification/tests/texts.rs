use ricon::app::App;
use ricon::base64::base64;
use ricon::events::Act;
use ricon::keys::{KeyCode, KeyEvent, Modifiers};
use ricon::labels::paste_text;
use ricon::screen::Terminal;
use ricon::selection::word_span;
use ricon::shell::Shell;
use ricon::tab::Tab;
use ricon::text::{
    chars, decimal_chars, find_at, is_blank, is_white, parse_digits, rfind_at, split_lines, string,
    trimmed,
};

#[test]
fn blank_characters_are_those_of_unicode() {
    for c in '\0'..=char::MAX {
        assert_eq!(is_white(c), c.is_whitespace(), "{c:?}");
    }
}

#[test]
fn lines_and_blanks_read_as_in_any_text() {
    let v = chars(" \u{3000}a b\t\r\n");
    assert_eq!(string(trimmed(&v)), "a b");
    assert!(is_blank(&chars(" \u{2003}\n")) && is_blank(&[]) && !is_blank(&['x']));
    for text in ["", "a", "a\n", "a\r\nb", "\n\n", "a\nb\r", "a\r\r\nb\n"] {
        let v = chars(text);
        let got: Vec<String> = split_lines(&v).into_iter().map(string).collect();
        let want: Vec<String> = text.lines().map(|l| l.to_string()).collect();
        assert_eq!(got, want, "{text:?}");
    }
}

#[test]
fn needles_are_found_from_either_end() {
    let (hay, needle) = (chars("abcabc"), chars("bc"));
    assert_eq!(find_at(&hay, &needle, 0), Some(1));
    assert_eq!(find_at(&hay, &needle, 2), Some(4));
    assert_eq!(find_at(&hay, &needle, 5), None);
    assert_eq!(rfind_at(&hay, &needle), Some(4));
    assert_eq!(rfind_at(&hay, &chars("x")), None);
}

#[test]
fn a_decimal_reads_back() {
    for n in [0, 7, 10, 99, 100, 65_536, u64::MAX] {
        assert_eq!(string(&decimal_chars(n)), n.to_string());
        assert_eq!(parse_digits(&decimal_chars(n)), Some(n));
    }
    assert_eq!(parse_digits(&chars("18446744073709551616")), None, "one too many");
    assert_eq!(parse_digits(&[]), None);
    assert_eq!(parse_digits(&chars("1a")), None);
}

#[test]
fn a_word_is_unicode_wide() {
    let v = chars("größe.txt → 漢字");
    assert_eq!(word_span(&v, 3), (0, 8));
    assert_eq!(word_span(&v, 12), (12, 13));
    assert_eq!(word_span(&v, 10), (10, 10), "an arrow is no word");
}

#[test]
fn a_paste_ends_where_it_ends() {
    assert_eq!(paste_text("\x1b[200~a\x1b[201~\n"), "a\r");
    assert!(!paste_text("\r\n\n\r").contains('\n'));
}

#[test]
fn base64_tells_bytes_apart() {
    let all: Vec<String> = (0..=255u8).map(|b| base64(&[b])).collect();
    for (i, a) in all.iter().enumerate() {
        assert_eq!(a.len(), 4);
        assert!(all[i + 1..].iter().all(|b| b != a));
    }
    assert_ne!(base64(&[0]), base64(&[0, 0]));
}

#[test]
fn cursor_keys_follow_the_application_on_screen() {
    let mut app = App::new("/".into(), true, 0);
    app.tabs.push(Tab::new(Shell::new(0, None, "/".into(), None, 0)));
    app.search_focus = false;
    app.refresh_shown();
    let mut term = Terminal::new(24, 80, 0);
    let modifiers = Modifiers { shift: false, alt: false, control: false };
    let up = KeyEvent { code: KeyCode::Up, modifiers };
    assert_eq!(app.on_key(&up, term.screen(), 0), Act::Type(b"\x1b[A".to_vec()));
    term.process(b"\x1b[?1h");
    assert_eq!(app.on_key(&up, term.screen(), 0), Act::Type(b"\x1bOA".to_vec()));
}
