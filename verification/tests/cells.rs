use ricon::screen::{drawable_size, ends_widest_character, has_room, remember, scroll, Terminal};
use ricon::selection::{block_cells, order, selection_cells, word_span};

#[test]
fn selection_cells_are_reading_order() {
    // Single row: an inclusive column span.
    assert_eq!(selection_cells((2, 3), (2, 5), 10), [(2, 3), (2, 4), (2, 5)]);
    // Multi row: tail of the first row, full middle rows, head of the last.
    assert_eq!(selection_cells((0, 2), (2, 1), 3), [(0, 2), (1, 0), (1, 1), (1, 2), (2, 0), (2, 1)]);
    // Two adjacent rows: no middle rows to walk.
    assert_eq!(selection_cells((0, 1), (1, 1), 3), [(0, 1), (0, 2), (1, 0), (1, 1)]);
}

#[test]
fn block_cells_cover_the_rectangle_row_by_row() {
    assert_eq!(
        block_cells((1, 2), (3, 4)),
        [(1, 2), (1, 3), (1, 4), (2, 2), (2, 3), (2, 4), (3, 2), (3, 3), (3, 4)]
    );
    // Corners in either order normalise to the same rectangle.
    assert_eq!(block_cells((3, 4), (1, 2)), block_cells((1, 2), (3, 4)));
    // A single row is just a column span; a single cell is itself.
    assert_eq!(block_cells((0, 0), (0, 2)), [(0, 0), (0, 1), (0, 2)]);
    assert_eq!(block_cells((2, 2), (2, 2)), [(2, 2)]);
}

#[test]
fn block_selection_is_the_same_rectangle_from_either_diagonal() {
    let want = block_cells((1, 2), (3, 4));
    assert_eq!(want.len(), 9);
    assert_eq!(block_cells((1, 4), (3, 2)), want, "top-right to bottom-left");
    assert_eq!(block_cells((3, 2), (1, 4)), want, "bottom-left to top-right");
}

#[test]
fn word_span_takes_whole_paths_urls_and_flags() {
    let chars: Vec<char> = "cd ~/code/gen/ricon && git switch -b feat/x".chars().collect();
    let span = |col: u16| {
        let (a, b) = word_span(&chars, col);
        chars[a as usize..=b as usize].iter().collect::<String>()
    };
    assert_eq!(span(0), "cd", "a bare word");
    assert_eq!(span(8), "~/code/gen/ricon", "a whole path, not one segment");
    assert_eq!(span(41), "feat/x", "a branch name");
    assert_eq!(span(34), "-b", "a flag keeps its dash");
    assert_eq!(span(2), " ", "a blank cell selects only itself");
    // Edges and out-of-range columns are safe.
    assert_eq!(word_span(&chars, 0).0, 0);
    assert_eq!(word_span(&chars, chars.len() as u16), (chars.len() as u16, chars.len() as u16));
    assert_eq!(word_span(&[], 0), (0, 0));
    let url: Vec<char> = "see https://example.com/a?b=1#c.".chars().collect();
    let (a, b) = word_span(&url, 10);
    assert_eq!(url[a as usize..=b as usize].iter().collect::<String>(), "https://example.com/a?b=1#c.");
}

#[test]
fn order_normalizes_into_reading_order() {
    assert_eq!(order((5, 0), (1, 9)), ((1, 9), (5, 0)));
    assert_eq!(order((2, 7), (2, 3)), ((2, 3), (2, 7)));
}

#[test]
fn a_terminal_keeps_as_much_history_as_it_was_made_for() {
    let mut term = Terminal::new(2, 10, 3);
    for i in 0..20 {
        term.process(format!("{i}\r\n").as_bytes());
    }
    assert_eq!(scroll(term.screen_mut(), 100), 3);
    assert_eq!(term.screen().contents(), "16\n17");
    let mut term = Terminal::new(2, 10, 0);
    term.process(b"a\r\nb\r\nc\r\n");
    assert_eq!(scroll(term.screen_mut(), 100), 0);
}

#[test]
fn small_terminals_take_what_they_have_room_for() {
    assert!(!drawable_size(1, 80) && !drawable_size(24, 1) && !drawable_size(24, 65528));
    assert!(drawable_size(2, 2) && drawable_size(24, 65527));
    let mut term = Terminal::new(2, 3, 10);
    term.process("a\u{17d8}b\u{17d8}c\u{4e2d}d\u{4e2d}\u{301}".as_bytes());
    assert_eq!(term.screen().size(), (2, 3));
    let mut term = Terminal::new(2, 2, 10);
    term.process("ab\u{4e2d}c\u{4e2d}\u{301}\tx\x1b[K\x1b[P\x1b[@".as_bytes());
    assert_eq!(term.screen().size(), (2, 2));
}

#[test]
fn the_widest_character_may_end_in_a_later_chunk() {
    let [a, b, c] = [0xe1, 0x9f, 0x98];
    assert!(ends_widest_character(&[], "x\u{17d8}y".as_bytes()));
    assert!(ends_widest_character(&[a, b], &[c]));
    assert!(ends_widest_character(&[b'x', a], &[b, c]));
    assert!(!ends_widest_character(&[a, b, c], b"x"), "it ended before");
    assert!(!ends_widest_character(&[a], &[b]));
    assert!(!ends_widest_character(&[], "\u{17d7}\u{4e2d}".as_bytes()));
    assert!(!ends_widest_character(&[], &[]));
    let mut seen = Vec::new();
    remember(&mut seen, b"xyz");
    assert_eq!(seen, b"yz");
    remember(&mut seen, &[a]);
    remember(&mut seen, &[b]);
    assert_eq!(seen, [a, b]);
    assert!(!has_room(Terminal::new(2, 2, 0).screen(), &seen, &[c]));
    assert!(has_room(Terminal::new(2, 3, 0).screen(), &seen, &[c]));
    assert!(has_room(Terminal::new(2, 2, 0).screen(), &seen, b"x"));
}

#[test]
fn narrowing_a_screen_leaves_no_half_of_a_wide_character() {
    for alternate in [false, true] {
        let mut term = Terminal::new(4, 10, 50);
        // Both screens hold a wide character across the fifth and the sixth column.
        term.process("1234\u{4e2d}78\r\n\u{4e2d}\u{4e2d}\u{4e2d}x\x1b[4;3H".as_bytes());
        term.process("\x1b[?47h\x1b[1;1Habcd\u{4e2d}gh\x1b[2;7H".as_bytes());
        if !alternate {
            term.process(b"\x1b[?47l");
        }
        let cursor = term.screen().cursor_position();
        term.trim(5);
        assert_eq!(term.screen().size(), (4, 10));
        term.resize(4, 5);
        assert_eq!(term.screen().size(), (4, 5));
        assert_eq!(term.screen().alternate_screen(), alternate);
        assert_eq!(term.screen().cursor_position(), (cursor.0, cursor.1.min(4)));
        let (first, other) = if alternate { ("abcd", "1234") } else { ("1234", "abcd") };
        assert_eq!(term.screen().contents().lines().next(), Some(first));
        // Nothing of what was cut is left to draw over.
        term.process(b"\x1b[1;5HX\x1b[2;5HY\x1b[1;5H\x1b[K\x1b[2;5H\x1b[P");
        term.process(if alternate { b"\x1b[?47l" } else { b"\x1b[?47h" });
        assert_eq!(term.screen().contents().lines().next(), Some(other));
        term.process(b"\x1b[1;5HX\x1b[2;5HY\x1b[1;5H\x1b[K\x1b[2;5H\x1b[P");
    }
}

#[test]
fn a_resize_keeps_the_view_and_the_sequence_begun() {
    let mut term = Terminal::new(4, 20, 50);
    for i in 0..30 {
        term.process(format!("line {i}\r\n").as_bytes());
    }
    assert_eq!(scroll(term.screen_mut(), 7), 7);
    term.process(b"\x1b[3");
    term.trim(10);
    term.resize(4, 10);
    assert_eq!(term.screen().scrollback(), 7);
    assert_eq!(scroll(term.screen_mut(), 100), 20, "the history is kept");
    scroll(term.screen_mut(), 0);
    term.process(b"1mred");
    assert_eq!(term.screen().contents().lines().last(), Some("red"));
    term.trim(30);
    term.resize(6, 30);
    assert_eq!(term.screen().size(), (6, 30));
}
