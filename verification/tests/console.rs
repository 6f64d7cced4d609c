use ricon::app::{restorable, restored_active, App, Selection, MIN_PANE_WIDTH, MIN_SIDEBAR_WIDTH, PERSIST_EVERY, POLL_INTERVAL, SIDEBAR_WIDTH};
use ricon::events::{block_text, Act, Input, MULTI_CLICK, SCROLL_STEP};
use ricon::keys::{KeyCode, KeyEvent, Modifiers};
use ricon::labels::{auto_span, copy_button_x};
use ricon::mouse::{MouseButton, MouseEvent, MouseKind};
use ricon::screen::{scroll, Terminal};
use ricon::session::{load_session, ShellState, TabState};
use ricon::shell::{Shell, SAMPLE_EVERY};
use ricon::tab::{auto_button, Tab};
use ricon::turn::{Turn, DRAIN_BUDGET, REAP_EVERY};
use std::collections::HashMap;

const SECOND: u64 = 1_000_000_000;
const NOW: u64 = 100_000 * SECOND;
const WALL: u128 = 1_789_000_000_000_000_000;
const BASE: &str = "/home/dev/ricon";

const NONE: Modifiers = Modifiers { shift: false, alt: false, control: false };
const SHIFT: Modifiers = Modifiers { shift: true, alt: false, control: false };
const ALT: Modifiers = Modifiers { shift: false, alt: true, control: false };
const CONTROL: Modifiers = Modifiers { shift: false, alt: false, control: true };
const ALT_SHIFT: Modifiers = Modifiers { shift: true, alt: true, control: false };
const SHIFT_CONTROL: Modifiers = Modifiers { shift: true, alt: false, control: true };
const CONTROL_ALT: Modifiers = Modifiers { shift: false, alt: true, control: true };

const LEFT_DOWN: MouseKind = MouseKind::Down(MouseButton::Left);
const LEFT_DRAG: MouseKind = MouseKind::Drag(MouseButton::Left);
const LEFT_UP: MouseKind = MouseKind::Up(MouseButton::Left);

/// The console with a terminal for every shell, and what it asked to be done.
struct Desk {
    app: App,
    terms: HashMap<u64, Terminal>,
    /// Bytes sent to a shell, by its id.
    sent: Vec<(u64, Vec<u8>)>,
    copied: Vec<String>,
    saved: Option<String>,
    pastes: usize,
    dead: Vec<u64>,
    next: u64,
    now: u64,
}

impl Desk {
    fn shell(&mut self) -> Shell {
        let id = self.next;
        self.next += 1;
        self.terms.insert(id, Terminal::new(24, 80, 5000));
        Shell::new(id, Some(1000 + id as u32), BASE.into(), None, NOW)
    }

    /// One tab per entry, each with that many shells. The search row starts focused,
    /// copy mode is on and the list is filtered.
    fn new(shell_counts: &[usize]) -> Self {
        let app = App::new(BASE.into(), true, NOW);
        let mut desk = Desk {
            app,
            terms: HashMap::new(),
            sent: Vec::new(),
            copied: Vec::new(),
            saved: None,
            pastes: 0,
            dead: Vec::new(),
            next: 0,
            now: NOW,
        };
        for &n in shell_counts {
            let mut tab = Tab::new(desk.shell());
            for _ in 1..n {
                let shell = desk.shell();
                tab.shells.push(shell);
            }
            desk.app.tabs.push(tab);
        }
        desk.app.sidebar_rows = 1000;
        desk.app.refresh_shown();
        desk
    }

    fn active_id(&self) -> u64 {
        let tab = &self.app.tabs[self.app.active];
        tab.shells[tab.active].id
    }

    fn term(&mut self) -> &mut Terminal {
        let id = self.active_id();
        self.terms.get_mut(&id).expect("terminal")
    }

    fn print(&mut self, text: &str) {
        self.term().process(text.as_bytes());
    }

    fn perform(&mut self, act: Act) {
        match act {
            Act::Nothing => {}
            Act::Type(bytes) => {
                let id = self.active_id();
                let term = self.terms.get_mut(&id).expect("terminal");
                self.app.write_active(&bytes, true, term.screen_mut(), self.now);
                self.sent.push((id, bytes));
            }
            Act::Forward(bytes) => self.sent.push((self.active_id(), bytes)),
            Act::Replay => {
                let id = self.active_id();
                let tab = &self.app.tabs[self.app.active];
                let term = self.terms.get_mut(&id).expect("terminal");
                if let Some(bytes) = tab.shells[tab.active].replay(term.screen_mut()) {
                    self.sent.push((id, bytes));
                }
            }
            Act::Copy(text) => self.copied.push(text),
            Act::Save(text) => self.saved = Some(text),
            Act::OpenTab => {
                let shell = self.shell();
                self.app.open_tab(shell);
            }
            Act::OpenSubshell => {
                let shell = self.shell();
                self.app.open_subshell(shell);
            }
            Act::Close => {
                self.dead.push(self.active_id());
                self.reap();
            }
            Act::Paste => self.pastes += 1,
        }
    }

    fn reap(&mut self) {
        let alive: Vec<Vec<bool>> = self
            .app
            .tabs
            .iter()
            .map(|t| t.shells.iter().map(|s| !self.dead.contains(&s.id)).collect())
            .collect();
        self.app.reap_dead_tabs(&alive);
    }

    fn mouse(&mut self, kind: MouseKind, column: u16, row: u16, modifiers: Modifiers) {
        let m = MouseEvent { kind, column, row, modifiers };
        let id = self.active_id();
        let term = self.terms.get_mut(&id).expect("terminal");
        let act = self.app.on_mouse(&m, term.screen_mut(), None, self.now);
        self.perform(act);
    }

    fn key(&mut self, code: KeyCode, modifiers: Modifiers) {
        let id = self.active_id();
        let act = self.app.on_key(&KeyEvent { code, modifiers }, self.terms[&id].screen(), self.now);
        self.perform(act);
    }

    fn text(&mut self, sel: &Selection) -> Option<String> {
        let id = self.active_id();
        self.app.selection_text(sel, self.terms[&id].screen())
    }

    fn selected(&mut self) -> Option<String> {
        let sel = self.app.selection.as_ref().expect("selection").copy();
        self.text(&sel)
    }

    fn pids(&self) -> Vec<Option<u32>> {
        self.app.tabs.iter().map(|t| t.shells[0].pid).collect()
    }

    /// A token echoed by a command and printed by it, and the cell it stands at.
    fn with_token(tok: &str) -> (Self, u16, u16) {
        let mut desk = Desk::new(&[1]);
        desk.print(&format!("prompt$ echo {tok}\r\n{tok}\r\nprompt$ "));
        (desk, 0, 13)
    }

    fn saved_session(&self) -> ricon::session::Session {
        load_session(self.saved.as_deref().expect("saved"))
    }
}

fn selection(anchor: (u16, u16), head: (u16, u16)) -> Selection {
    Selection { shell: (0, 0), anchor, head, dragging: false, block: false, text: None }
}

#[test]
fn pane_drag_selects_text_reverses_it_and_copies() {
    let tok = "RICON_SELECT_ME";
    let (mut d, row, col) = Desk::with_token(tok);
    let sw = d.app.sidebar_width;
    let end = col + tok.len() as u16 - 1;
    d.mouse(LEFT_DOWN, sw + col, row, NONE);
    d.mouse(LEFT_DRAG, sw + end, row, NONE);
    d.mouse(LEFT_UP, sw + end, row, NONE);
    // Release ends the drag, keeps the selection, and yields the copied text.
    let sel = d.app.selection.as_ref().expect("selection survives release");
    assert!(!sel.dragging, "release ends the drag");
    assert_eq!((sel.anchor, sel.head), ((row, col), (row, end)));
    assert_eq!(d.selected().as_deref(), Some(tok));
    assert_eq!(d.copied, [tok]);
    assert!(d.app.copied_at.is_some(), "the copy is recorded to fire the footer hint");
    // A plain click (press+release, no movement) deselects and copies nothing.
    d.app.copied_at = None;
    d.now += SECOND;
    d.mouse(LEFT_DOWN, sw + col, row, NONE);
    d.mouse(LEFT_UP, sw + col, row, NONE);
    assert!(d.app.selection.is_none(), "click deselects");
    assert!(d.app.copied_at.is_none(), "a no-move click copies nothing");
}

#[test]
fn ctrl_c_is_never_shadowed_and_takes_the_highlight_down() {
    let tok = "RICON_CTRL_C_COPY";
    let (mut d, row, col) = Desk::with_token(tok);
    let sw = d.app.sidebar_width;
    let end = col + tok.len() as u16 - 1;
    d.mouse(LEFT_DOWN, sw + col, row, NONE);
    d.mouse(LEFT_DRAG, sw + end, row, NONE);
    d.mouse(LEFT_UP, sw + end, row, NONE);
    assert!(d.app.copied_at.is_some(), "the release copied");
    d.app.copied_at = None;
    // With a selection live, Ctrl+C drops the highlight and still reaches the shell.
    assert_eq!(d.selected().as_deref(), Some(tok));
    d.key(KeyCode::Char('c'), CONTROL);
    assert!(d.app.copied_at.is_none(), "ctrl+c copies nothing");
    assert!(d.app.selection.is_none(), "ctrl+c drops the selection");
    assert_eq!(d.sent, [(0, vec![3])], "ctrl+c reaches the shell");
    // Esc does the same: never shadowed, takes a highlight down.
    d.app.search_focus = false; // Esc on the search row only hands focus back
    d.app.selection = Some(selection((row, col), (row, end)));
    d.key(KeyCode::Esc, NONE);
    assert!(d.app.selection.is_none(), "esc drops the selection");
    assert_eq!(d.sent.last(), Some(&(0, vec![0x1b])));
}

#[test]
fn footer_button_shows_and_toggles_copy_mode_and_persists_it() {
    let mut d = Desk::new(&[1]);
    assert!(d.app.copy_mode, "on by default");
    d.app.term_width = d.app.sidebar_width + 80;
    let (from, to) = copy_button_x(d.app.term_width).expect("the button fits an 80-column pane");
    let row = d.app.pty_rows;
    d.mouse(LEFT_DOWN, from, row, NONE);
    assert!(!d.app.copy_mode, "the button switches copy mode off");
    assert!(!d.saved_session().copy_mode, "and persists the choice at once");
    d.mouse(LEFT_DOWN, to - 1, row, NONE);
    assert!(d.app.copy_mode && d.saved_session().copy_mode, "the last column toggles it back on, persisted");
    // Columns outside the button are not the button.
    d.mouse(LEFT_DOWN, from - 1, row, NONE);
    d.mouse(LEFT_DOWN, to, row, NONE);
    assert!(d.app.copy_mode, "only the button's own columns toggle the mode");
    // Alt+c is the keyboard's way to the same switch.
    d.key(KeyCode::Char('c'), ALT);
    assert!(!d.app.copy_mode && !d.saved_session().copy_mode, "alt+c toggles and persists");
    d.key(KeyCode::Char('c'), ALT);
    assert!(d.app.copy_mode);
}

#[test]
fn bypass_drag_copies_over_a_mouse_grabbing_app() {
    let tok = "RICON_BYPASS_COPY";
    let (mut d, row, col) = Desk::with_token(tok);
    d.app.copy_mode = false; // with it on, no bypass is needed at all
    d.print("\x1b[?1000h");
    let sw = d.app.sidebar_width;
    // A plain press is forwarded to the app, so no local selection starts.
    d.mouse(LEFT_DOWN, sw + col, row, NONE);
    assert!(d.app.selection.is_none(), "a plain drag over a mouse app does not select");
    assert_eq!(d.sent.len(), 1, "it is the application's");
    // Alt+drag and Shift+drag both select locally and copy on release — the bypass.
    for m in [ALT, SHIFT] {
        d.app.copied_at = None;
        d.now += SECOND;
        let end = col + tok.len() as u16 - 1;
        d.mouse(LEFT_DOWN, sw + col, row, m);
        d.mouse(LEFT_DRAG, sw + end, row, m);
        d.mouse(LEFT_UP, sw + end, row, m);
        assert_eq!(d.selected().as_deref(), Some(tok), "only the console token is copied ({m:?})");
        assert!(d.app.copied_at.is_some(), "the copy is recorded ({m:?})");
    }
    // Dragging back over the sidebar clamps to pane column 0.
    d.now += SECOND;
    d.mouse(LEFT_DOWN, sw + col, row, ALT);
    d.mouse(LEFT_DRAG, 0, row, ALT);
    let sel = d.app.selection.as_ref().expect("selection survives the drag");
    assert_eq!(sel.head.1, 0, "head clamps to the pane's first column");
    let text = d.selected().expect("text");
    assert!(!text.contains('⌕') && !text.contains("ricon "), "no sidebar text in the copy: {text:?}");
    assert_eq!(d.sent.len(), 1, "nothing more was forwarded");
}

#[test]
fn shift_ctrl_drag_makes_a_block_selection_and_copies_the_rectangle() {
    let tok = "RICON_BLOCK";
    let mut d = Desk::new(&[1]);
    d.print(&format!("prompt$ x\r\n{tok}AA\r\n{tok}BB\r\nprompt$ "));
    let (row, row2, col) = (1, 2, 0);
    let sw = d.app.sidebar_width;
    let end = col + tok.len() as u16 - 1;
    d.mouse(LEFT_DOWN, sw + col, row, SHIFT_CONTROL);
    d.mouse(LEFT_DRAG, sw + end, row2, SHIFT_CONTROL);
    d.mouse(LEFT_UP, sw + end, row2, SHIFT_CONTROL);
    let sel = d.app.selection.as_ref().expect("block selection survives release");
    assert!(sel.block, "Shift+Ctrl marks the selection as a block");
    assert!(!sel.dragging, "release ends the drag");
    // The rectangle is the token's columns on each row, joined by a newline — the
    // `AA`/`BB` suffixes past the block's right edge are excluded.
    assert_eq!(d.selected(), Some(format!("{tok}\n{tok}")), "the rectangle, row by row");
    assert!(d.app.copied_at.is_some(), "the release copies");
}

#[test]
fn a_block_copies_its_blank_rows_too() {
    let mut d = Desk::new(&[1]);
    d.print("\r\nabc   x\r\n\r\ndef\r\n");
    let term = &d.terms[&0];
    assert_eq!(block_text(term.screen(), (0, 0), (1, 2), 80), "\nabc");
    assert_eq!(block_text(term.screen(), (3, 5), (0, 0), 80), "\nabc\n\ndef");
    assert_eq!(block_text(term.screen(), (2, 0), (2, 5), 80), "");
}

#[test]
fn a_finalized_selection_copies_its_snapshot_not_the_live_screen() {
    let tok = "RICON_SNAPSHOT";
    let (mut d, row, col) = Desk::with_token(tok);
    let sw = d.app.sidebar_width;
    let end = col + tok.len() as u16 - 1;
    d.mouse(LEFT_DOWN, sw + col, row, NONE);
    d.mouse(LEFT_DRAG, sw + end, row, NONE);
    d.mouse(LEFT_UP, sw + end, row, NONE);
    assert_eq!(d.selected().as_deref(), Some(tok), "the snapshot is the token");
    // The application repaints the very same cells with different text.
    d.print("\x1b[2J\x1b[Hsomething else entirely, and more of it");
    assert_eq!(d.selected().as_deref(), Some(tok), "the copy is the snapshot, not the live screen");
}

#[test]
fn copy_mode_selects_over_an_app_that_grabbed_the_mouse_by_default() {
    let tok = "RICON_COPY_MODE";
    let (mut d, row, col) = Desk::with_token(tok);
    d.print("\x1b[?1003h\x1b[?1006h");
    assert!(d.app.copy_mode, "on by default");
    let sw = d.app.sidebar_width;
    let end = col + tok.len() as u16 - 1;
    d.mouse(LEFT_DOWN, sw + col, row, NONE);
    d.mouse(LEFT_DRAG, sw + end, row, NONE);
    d.mouse(LEFT_UP, sw + end, row, NONE);
    assert_eq!(d.selected().as_deref(), Some(tok), "only the console token");
    assert!(d.app.copied_at.is_some(), "the release copies");
    assert!(d.app.copy_mode, "the mode stays on: it is a setting, not a one-shot");
    // A middle click is the console's too (it pastes) — nothing reaches the app.
    d.mouse(MouseKind::Down(MouseButton::Middle), sw + col, row, NONE);
    d.mouse(MouseKind::Up(MouseButton::Middle), sw + col, row, NONE);
    assert_eq!(d.pastes, 1);
    assert!(d.sent.is_empty(), "no mouse report reached the app");
    // The wheel is not taken: an app that asked for the mouse scrolls itself.
    d.mouse(MouseKind::ScrollDown, sw + col, row, NONE);
    assert_eq!(d.sent.pop(), Some((0, format!("\x1b[<65;{};{}M", col + 1, row + 1).into_bytes())));
    // Off, a plain press is the app's again.
    d.app.copy_mode = false;
    d.app.selection = None;
    d.mouse(LEFT_DOWN, sw + col, row, NONE);
    assert!(d.app.selection.is_none(), "no selection with the mode off");
    assert_eq!(d.sent.pop(), Some((0, format!("\x1b[<0;{};{}M", col + 1, row + 1).into_bytes())));
}

#[test]
fn double_click_takes_the_word_and_triple_click_the_line() {
    let tok = "RICON_WORD_/tmp/a-b.txt_END";
    let (mut d, row, col) = Desk::with_token(tok);
    let sw = d.app.sidebar_width;
    // Two presses on the same cell: the whole token is one word.
    d.mouse(LEFT_DOWN, sw + col + 3, row, NONE);
    d.mouse(LEFT_DOWN, sw + col + 3, row, NONE);
    let sel = d.app.selection.as_ref().expect("double click selects");
    assert!(!sel.dragging, "a word selection is complete, not a live drag");
    assert_eq!(d.selected().as_deref(), Some(tok), "the word under the cursor");
    assert!(d.app.copied_at.is_some(), "a double click copies straight away");
    // A third press takes the whole line, which still holds the token.
    d.app.copied_at = None;
    d.mouse(LEFT_DOWN, sw + col + 3, row, NONE);
    let sel = d.app.selection.as_ref().expect("triple click selects");
    assert_eq!(sel.anchor, (row, 0), "the line starts at column 0");
    assert_eq!(sel.head, (row, d.app.pty_cols - 1), "and runs to the last column");
    let line = d.selected().expect("line text");
    assert!(line.contains(tok), "the whole line: {line:?}");
    assert!(d.app.copied_at.is_some(), "a triple click copies too");
    // A press after the chain window starts over as a plain drag.
    d.app.last_click = None;
    d.mouse(LEFT_DOWN, sw + col + 3, row, NONE);
    assert!(d.app.selection.as_ref().expect("fresh press").dragging, "a lone click starts a drag selection");
}

#[test]
fn clicks_far_apart_do_not_chain() {
    let mut d = Desk::new(&[1]);
    assert_eq!(d.app.click_count((1, 1), NOW), 1);
    assert_eq!(d.app.click_count((1, 1), NOW + MULTI_CLICK - 1), 2);
    assert_eq!(d.app.click_count((1, 1), NOW + MULTI_CLICK), 3);
    assert_eq!(d.app.click_count((1, 1), NOW + MULTI_CLICK), 1, "a fourth starts over");
    assert_eq!(d.app.click_count((1, 2), NOW + MULTI_CLICK), 1, "another cell");
    assert_eq!(d.app.click_count((1, 2), NOW + MULTI_CLICK * 2), 1, "too late");
}

#[test]
fn a_wrapped_line_is_one_line_to_a_triple_click() {
    let mut d = Desk::new(&[1]);
    let long = "x".repeat(100);
    d.print(&format!("{long}\r\nnext"));
    let sw = d.app.sidebar_width;
    for _ in 0..3 {
        d.mouse(LEFT_DOWN, sw + 2, 1, NONE);
    }
    let sel = d.app.selection.as_ref().expect("line");
    assert_eq!((sel.anchor, sel.head), ((0, 0), (1, 79)));
    assert_eq!(d.selected(), Some(long));
}

#[test]
fn alt_a_selects_the_whole_screen_and_copies_it() {
    let tok = "RICON_SELECT_ALL";
    let (mut d, _, _) = Desk::with_token(tok);
    d.key(KeyCode::Char('a'), ALT);
    let sel = d.app.selection.as_ref().expect("alt+a selects");
    assert_eq!(sel.anchor, (0, 0));
    assert_eq!(sel.head, (d.app.pty_rows - 1, d.app.pty_cols - 1));
    assert!(d.selected().expect("text").contains(tok), "the visible screen is the selection");
    assert!(d.app.copied_at.is_some(), "and it is copied");
}

#[test]
fn scrolling_carries_the_selection_with_the_text() {
    let tok = "RICON_SCROLL_SEL";
    let (mut d, row, col) = Desk::with_token(tok);
    let sw = d.app.sidebar_width;
    d.app.selection = Some(selection((row, col), (row, col + 3)));
    // Fill the scrollback so there is somewhere to scroll to.
    let lines: String = (1..=200).map(|n| format!("{n}\r\n")).collect();
    d.print(&lines);
    d.mouse(MouseKind::ScrollUp, sw + 1, 1, NONE);
    let sel = d.app.selection.as_ref().expect("the selection survives a scroll");
    assert_eq!(sel.anchor.0, row + SCROLL_STEP as u16, "it moved down with the text");
    assert_eq!(sel.anchor.1, col, "columns are untouched");
    // And back up with it.
    d.mouse(MouseKind::ScrollDown, sw + 1, 1, NONE);
    let sel = d.app.selection.as_ref().expect("the selection survives a scroll back");
    assert_eq!((sel.anchor, sel.head), ((row, col), (row, col + 3)));
    // Scrolling it clean off the grid drops it rather than leaving a lie on screen.
    for _ in 0..d.app.pty_rows {
        d.mouse(MouseKind::ScrollUp, sw + 1, 1, NONE);
    }
    assert!(d.app.selection.is_none(), "a selection scrolled out of view is dropped");
}

#[test]
fn an_end_scrolled_past_an_edge_is_pinned_to_its_corner() {
    let mut d = Desk::new(&[1]);
    let lines: String = (1..=200).map(|n| format!("{n}\r\n")).collect();
    d.print(&lines);
    let sw = d.app.sidebar_width;
    d.app.selection = Some(selection((20, 5), (22, 7)));
    d.mouse(MouseKind::ScrollUp, sw + 1, 1, NONE);
    let sel = d.app.selection.as_ref().expect("partly in view");
    assert_eq!((sel.anchor, sel.head), ((23, 5), (23, 79)), "past the bottom: its last cell");
    d.app.selection = Some(selection((1, 5), (10, 7)));
    d.mouse(MouseKind::ScrollDown, sw + 1, 1, NONE);
    let sel = d.app.selection.as_ref().expect("partly in view");
    assert_eq!((sel.anchor, sel.head), ((0, 0), (7, 7)), "past the top: its first cell");
}

#[test]
fn a_block_scrolled_past_an_edge_keeps_its_columns() {
    let mut d = Desk::new(&[1]);
    for i in 0..100 {
        d.print(&format!("line {i}\r\n"));
    }
    d.app.pty_rows = 24;
    d.app.pty_cols = 80;
    let block = || Some(Selection { block: true, ..selection((1, 5), (4, 10)) });
    let term = d.terms.get_mut(&0).expect("terminal");
    scroll(term.screen_mut(), 50);
    d.app.selection = block();
    d.app.scroll_pane(-2, term.screen_mut());
    let sel = d.app.selection.as_ref().expect("still in view");
    assert_eq!((sel.anchor, sel.head), ((0, 5), (2, 10)));
    d.app.selection = Some(Selection { block: true, ..selection((22, 10), (20, 5)) });
    d.app.scroll_pane(2, term.screen_mut());
    let sel = d.app.selection.as_ref().expect("still in view");
    assert_eq!((sel.anchor, sel.head), ((23, 10), (22, 5)));
    d.app.selection = block();
    d.app.scroll_pane(-5, term.screen_mut());
    assert!(d.app.selection.is_none(), "none of it is left in view");
}

#[test]
fn selection_is_dropped_when_another_shell_takes_the_screen() {
    let mut d = Desk::new(&[1, 1]);
    d.app.selection = Some(selection((1, 1), (1, 5)));
    d.app.drop_stale_selection();
    assert!(d.app.selection.is_some(), "kept while its own shell is on screen");
    d.app.active = 1;
    d.app.drop_stale_selection();
    assert!(d.app.selection.is_none(), "dropped once another tab is shown");
}

#[test]
fn a_selection_is_read_off_the_screen_of_its_own_shell() {
    let mut d = Desk::new(&[1, 2]);
    let mut shown = Terminal::new(24, 80, 100);
    shown.process(b"on screen");
    let mut hidden = Terminal::new(24, 80, 100);
    hidden.process(b"hidden text");
    let sel = Selection { shell: (1, 1), dragging: true, ..selection((0, 0), (0, 5)) };
    assert_eq!(d.app.selection_text(&sel, hidden.screen()).as_deref(), Some("hidden"));
    let closed = Selection { shell: (1, 2), ..sel.copy() };
    assert_eq!(d.app.selection_text(&closed, hidden.screen()), None, "its shell has closed");
    let up = MouseEvent { kind: LEFT_UP, column: 40, row: 0, modifiers: NONE };
    d.app.selection = Some(sel.copy());
    let act = d.app.on_mouse(&up, shown.screen_mut(), Some(hidden.screen()), NOW);
    assert_eq!(act, Act::Copy("hidden".into()));
    d.app.selection = Some(closed);
    assert_eq!(d.app.on_mouse(&up, shown.screen_mut(), None, NOW), Act::Nothing);
    d.app.selection = Some(sel);
    let act = d.app.handle(&Input::Mouse(up), shown.screen_mut(), Some(hidden.screen()), NOW);
    assert_eq!(act, Act::Copy("hidden".into()));
    assert!(d.app.selection.is_none(), "and then dropped: it is not on screen");
}

#[test]
fn an_event_that_switches_tabs_drops_the_selection_at_once() {
    let mut d = Desk::new(&[1, 1]);
    d.app.selection = Some(selection((1, 1), (1, 5)));
    let key = |code, modifiers| Input::Press(KeyEvent { code, modifiers });
    let term = d.terms.get_mut(&0).expect("terminal");
    let act = d.app.handle(&Input::Release(KeyEvent { code: KeyCode::Esc, modifiers: NONE }), term.screen_mut(), None, NOW);
    assert_eq!(act, Act::Nothing, "a release is nothing");
    assert!(d.app.selection.is_some());
    let act = d.app.handle(&key(KeyCode::PageDown, ALT), term.screen_mut(), None, NOW);
    assert_eq!(act, Act::Nothing);
    assert!(d.app.selection.is_none());
    let act = d.app.handle(&Input::Paste("a\nb".into()), term.screen_mut(), None, NOW);
    assert_eq!(act, Act::Type(b"a\rb".to_vec()));
    let wheel = MouseEvent { kind: MouseKind::ScrollUp, column: 0, row: 5, modifiers: NONE };
    assert_eq!(d.app.handle(&Input::Mouse(wheel), term.screen_mut(), None, NOW), Act::Nothing);
    assert_eq!(d.app.handle(&Input::Other, term.screen_mut(), None, NOW), Act::Nothing);
}

#[test]
fn a_paste_is_bracketed_when_the_application_asked_for_it() {
    let mut d = Desk::new(&[1]);
    let act = d.app.on_paste("x\x1b[201~\r\ny", d.terms[&0].screen());
    assert_eq!(act, Act::Type(b"x\ry".to_vec()));
    d.print("\x1b[?2004h");
    let act = d.app.on_paste("x\ny", d.terms[&0].screen());
    assert_eq!(act, Act::Type(b"\x1b[200~x\ry\x1b[201~".to_vec()));
    d.app.confirm_quit = Some(false);
    assert_eq!(d.app.on_paste("x", d.terms[&0].screen()), Act::Nothing, "not through the quit dialog");
}

#[test]
fn scroll_moves_view_and_input_snaps_back() {
    let mut d = Desk::new(&[1]);
    for i in 0..100 {
        d.print(&format!("line {i}\r\n"));
    }
    let term = d.terms.get_mut(&0).expect("terminal");
    assert_eq!(scroll(term.screen_mut(), 10), 10, "wheel scrolled into history");
    d.app.selection = Some(selection((1, 1), (1, 5)));
    d.app.write_active(b"", true, term.screen_mut(), NOW); // any input snaps back to live
    assert_eq!(term.screen().scrollback(), 0);
    assert!(d.app.selection.is_none(), "the selection was one of the scrolled view");
    assert_eq!(d.app.tabs[0].shells[0].last_input, NOW);
}

#[test]
fn tab_rows_grow_two_per_subshell() {
    let mut d = Desk::new(&[1, 3]);
    assert_eq!(d.app.tabs[0].rows(), 4);
    assert_eq!(d.app.tabs[1].rows(), 8);
    d.app.sidebar_rows = 14; // twelve rows of viewport
    assert!(!d.app.tabs_overflow());
    d.app.sidebar_rows = 13;
    assert!(d.app.tabs_overflow(), "twelve rows in all");
    // Alt+Up/Down cycles shells within the tab, wrapping.
    let tab = &mut d.app.tabs[1];
    assert_eq!(tab.active, 0);
    tab.navigate(false);
    assert_eq!(tab.active, 2);
    tab.navigate(true);
    assert_eq!(tab.active, 0);
}

#[test]
fn open_tab_lands_after_active_but_below_favorites() {
    let mut d = Desk::new(&[1, 1]);
    let before = d.pids();
    d.app.toggle_favorite(); // favorite tab 0 (stays at index 0)
    d.perform(Act::OpenTab);
    assert_eq!(d.app.tabs.len(), 3);
    assert_eq!(d.app.active, 1, "new tab lands after the favorites block");
    assert_eq!(d.app.tabs[0].shells[0].pid, before[0]);
    assert_eq!(d.app.tabs[2].shells[0].pid, before[1]);
    assert!(!before.contains(&d.app.tabs[1].shells[0].pid), "a new shell of its own");
    // The new shell starts in the active tab's folder, else in the base.
    assert_eq!(d.app.start_dir(Some("/tmp/x".into())), "/tmp/x");
    assert_eq!(d.app.start_dir(None), BASE);
}

#[test]
fn open_subshell_joins_active_tab_and_focuses() {
    let mut d = Desk::new(&[1]);
    d.perform(Act::OpenSubshell);
    assert_eq!(d.app.tabs.len(), 1, "subshells never create tabs");
    assert_eq!(d.app.tabs[0].shells.len(), 2);
    assert_eq!(d.app.tabs[0].active, 1, "new subshell is focused");
}

#[test]
fn toggle_favorite_clusters_at_top_in_marking_order() {
    let mut d = Desk::new(&[1, 1, 1]);
    let p = d.pids();
    let (a, b, c) = (p[0], p[1], p[2]);
    d.app.active = 2;
    d.app.toggle_favorite(); // C → favorite, moves to top
    assert_eq!((d.app.tabs[0].shells[0].pid, d.app.active), (c, 0));
    d.app.active = 2;
    d.app.toggle_favorite(); // B → favorite, lands after C
    assert_eq!(d.app.tabs[1].shells[0].pid, b);
    assert_eq!(d.app.tabs[2].shells[0].pid, a);
    assert!(d.app.tabs[0].favorite && d.app.tabs[1].favorite && !d.app.tabs[2].favorite);
    d.app.toggle_favorite(); // unmark B → drops just below the favorites block
    assert!(!d.app.tabs[1].favorite);
    assert_eq!(d.app.tabs[1].shells[0].pid, b);
}

#[test]
fn close_active_kills_only_the_active_shell() {
    let mut d = Desk::new(&[2, 1]);
    d.app.tabs[0].active = 1;
    d.perform(Act::Close);
    assert_eq!(d.app.tabs[0].shells.len(), 1, "subshell reaped");
    assert_eq!(d.app.tabs.len(), 2, "tab survives its subshell");
    assert_eq!(d.app.tabs[0].active, 0);
    // Closing a tab's last shell closes the tab itself.
    d.app.active = 1;
    d.perform(Act::Close);
    assert_eq!(d.app.tabs.len(), 1, "tab reaped");
    assert_eq!(d.app.active, 0);
}

#[test]
fn closing_a_tab_refreshes_shown_so_tab_switching_cannot_panic() {
    let mut d = Desk::new(&[1, 1, 1]);
    d.app.active = 1;
    d.perform(Act::Close);
    assert_eq!(d.app.tabs.len(), 2);
    assert_eq!(d.app.shown, vec![0, 1], "shown tracks the surviving tabs");
    d.app.navigate_tabs(true);
    assert!(d.app.active < d.app.tabs.len(), "active stays in bounds after a close+switch");
    // And a pane click on the active tab does not panic.
    let sw = d.app.sidebar_width;
    d.mouse(LEFT_DOWN, sw + 1, 1, NONE);
}

#[test]
fn closing_an_earlier_tab_keeps_focus_on_the_same_tab() {
    let mut d = Desk::new(&[1, 1, 1]);
    d.app.active = 2;
    let focused = d.app.tabs[2].shells[0].pid;
    d.dead.push(0);
    d.reap();
    assert_eq!(d.app.tabs.len(), 2);
    assert_eq!(d.app.tabs[d.app.active].shells[0].pid, focused, "focus stays where the user was");
}

#[test]
fn closing_an_earlier_shell_keeps_focus_on_the_same_shell() {
    let mut d = Desk::new(&[3]);
    d.app.tabs[0].active = 2;
    d.dead = vec![0, 1];
    d.reap();
    assert_eq!((d.app.tabs[0].shells.len(), d.app.tabs[0].active), (1, 0));
    assert_eq!(d.app.tabs[0].shells[0].id, 2);
    d.dead.push(2);
    d.reap();
    assert!(d.app.tabs.is_empty());
    assert_eq!(d.app.active, 0);
}

#[test]
fn tab_at_row_walks_variable_heights() {
    let mut d = Desk::new(&[1, 2]); // heights 4 and 6
    assert_eq!(d.app.tab_at_row(0), None, "title row");
    assert_eq!(d.app.tab_at_row(1), None, "search row");
    assert_eq!(d.app.tab_at_row(2), Some(0));
    assert_eq!(d.app.tab_at_row(5), Some(0), "separator belongs to its tab");
    assert_eq!(d.app.tab_at_row(6), Some(1));
    assert_eq!(d.app.tab_at_row(11), Some(1));
    assert_eq!(d.app.tab_at_row(12), None, "past the last tab");
    d.app.list_offset = 1; // scrolled: the first tab row is now tab 1
    assert_eq!(d.app.tab_at_row(2), Some(1));
}

#[test]
fn shell_at_row_resolves_subshells() {
    let d = Desk::new(&[1, 2]);
    assert_eq!(d.app.shell_at_row(0), None);
    assert_eq!(d.app.shell_at_row(1), None, "search row");
    assert_eq!(d.app.shell_at_row(2), Some((0, 0)), "name row → parent");
    assert_eq!(d.app.shell_at_row(4), Some((0, 0)), "process row → parent");
    assert_eq!(d.app.shell_at_row(5), Some((0, 0)), "separator → parent");
    assert_eq!(d.app.shell_at_row(6), Some((1, 0)), "tab 1 name row");
    assert_eq!(d.app.shell_at_row(9), Some((1, 1)), "subshell path row");
    assert_eq!(d.app.shell_at_row(10), Some((1, 1)), "subshell process row");
    assert_eq!(d.app.shell_at_row(11), Some((1, 0)), "tab 1 separator → parent");
}

#[test]
fn scrolling_clamps_and_reveals_active() {
    let mut d = Desk::new(&[1, 1, 1]); // 12 content rows
    d.app.sidebar_rows = 10; // 8 viewport rows (title + search + 8)
    assert!(d.app.tabs_overflow());
    assert_eq!(d.app.max_offset(), 1);
    for _ in 0..10 {
        d.app.scroll_tabs(true);
    }
    assert_eq!(d.app.list_offset, 1, "clamped to max offset");
    for _ in 0..10 {
        d.app.scroll_tabs(false);
    }
    assert_eq!(d.app.list_offset, 0, "clamped to top");
    // Activating an off-screen tab scrolls it into view minimally.
    d.app.active = 2;
    d.app.reveal_active();
    assert_eq!(d.app.list_offset, 1);
    d.app.active = 0;
    d.app.reveal_active();
    assert_eq!(d.app.list_offset, 0);
}

#[test]
fn fit_ptys_resizes_shells_and_reclamps_sidebar() {
    let mut d = Desk::new(&[1]);
    d.app.selection = Some(selection((1, 1), (1, 5)));
    assert!(d.app.fit_ptys(120, 40, NOW + 1), "the shells are resized");
    assert_eq!((d.app.pty_rows, d.app.pty_cols), (39, 120 - SIDEBAR_WIDTH));
    assert_eq!(d.app.tabs[0].shells[0].resized, NOW + 1);
    assert!(d.app.selection.is_none(), "old cells are stale");
    assert!(!d.app.fit_ptys(120, 40, NOW + 2), "nothing changed");
    assert_eq!(d.app.tabs[0].shells[0].resized, NOW + 1);
    // A dragged-wide sidebar re-clamps when the terminal shrinks under it.
    d.app.sidebar_width = 100;
    d.app.fit_ptys(60, 40, NOW);
    assert_eq!(d.app.sidebar_width, 60 - MIN_PANE_WIDTH);
    // Degenerate sizes leave the pane untouched.
    let before = (d.app.pty_rows, d.app.pty_cols);
    assert!(!d.app.fit_ptys(60, 2, NOW));
    assert_eq!((d.app.pty_rows, d.app.pty_cols), before);
}

#[test]
fn shortcuts_drive_tab_selection_and_quit() {
    let mut d = Desk::new(&[1, 1, 1]);
    d.key(KeyCode::Char('2'), ALT);
    assert_eq!(d.app.active, 1);
    d.key(KeyCode::Char('9'), ALT);
    assert_eq!(d.app.active, 1, "out-of-range tab number ignored");
    d.key(KeyCode::PageDown, ALT);
    assert_eq!(d.app.active, 2);
    d.key(KeyCode::PageDown, ALT);
    assert_eq!(d.app.active, 0, "next wraps");
    d.key(KeyCode::PageUp, ALT);
    assert_eq!(d.app.active, 2, "previous wraps");
    d.key(KeyCode::Char('q'), ALT);
    assert!(!d.app.quit, "Alt+q alone no longer quits");
    assert_eq!(d.app.confirm_quit, Some(false), "Alt+q opens the dialog with NO preselected");
}

#[test]
fn alt_shortcuts_open_and_close_tabs_focus_search_and_mark_favorites() {
    let mut d = Desk::new(&[1]);
    d.app.search_focus = false;
    d.key(KeyCode::Char('t'), ALT);
    d.key(KeyCode::Char('n'), ALT);
    assert_eq!(d.app.tabs.len(), 3, "alt+t and alt+n each open a tab");
    assert_eq!(d.app.active, 2);
    d.key(KeyCode::Char('w'), ALT);
    assert_eq!(d.app.tabs.len(), 2, "alt+w closes it");
    d.key(KeyCode::Char('F'), ALT_SHIFT);
    assert!(d.app.tabs[0].favorite, "alt+shift+f marks the favorite");
    assert!(!d.app.search_focus, "and does not touch the search row");
    d.key(KeyCode::Char('f'), ALT);
    assert!(d.app.search_focus, "alt+f focuses the search row");
    d.key(KeyCode::Char('f'), ALT);
    assert!(d.app.tabs[0].favorite, "alt+f never toggles the favorite");
    // Ctrl+t reaches the shell now.
    d.app.search_focus = false;
    d.key(KeyCode::Char('t'), CONTROL);
    assert_eq!(d.sent.last().map(|s| s.1.clone()), Some(vec![0x14]), "ctrl+t is the shell's, not a new tab");
    assert_eq!(d.app.tabs.len(), 2, "no tab opened on ctrl+t");
}

#[test]
fn quit_dialog_arrows_toggle_enter_confirms_esc_cancels() {
    let mut d = Desk::new(&[1]);
    d.app.search_focus = false;
    d.key(KeyCode::Char('q'), ALT);
    d.key(KeyCode::Enter, NONE);
    assert!(!d.app.quit, "Enter on the preselected NO does not quit");
    assert_eq!(d.app.confirm_quit, None, "NO closes the dialog");

    d.key(KeyCode::Char('q'), ALT);
    d.key(KeyCode::Esc, NONE);
    assert!(!d.app.quit, "Esc cancels");
    assert_eq!(d.app.confirm_quit, None, "Esc closes the dialog");

    d.key(KeyCode::Char('q'), ALT);
    d.key(KeyCode::Char('x'), NONE);
    assert!(d.sent.is_empty(), "keys are swallowed while the dialog is open");
    d.key(KeyCode::Left, NONE);
    assert_eq!(d.app.confirm_quit, Some(true), "arrow moves the highlight to YES");
    d.key(KeyCode::Right, NONE);
    assert_eq!(d.app.confirm_quit, Some(false), "arrow toggles back to NO");
    d.key(KeyCode::Left, NONE);
    d.key(KeyCode::Enter, NONE);
    assert!(d.app.quit, "YES + Enter quits");
}

#[test]
fn the_quit_dialog_takes_clicks_too() {
    let mut d = Desk::new(&[1, 1]);
    d.app.confirm_quit = Some(false);
    d.mouse(LEFT_DOWN, 3, 6, NONE);
    assert_eq!(d.app.active, 0, "no clicking through it");
    assert_eq!(d.app.confirm_quit, Some(false));
}

#[test]
fn shortcuts_navigate_shells_within_tab() {
    let mut d = Desk::new(&[2]);
    d.key(KeyCode::Down, ALT);
    assert_eq!(d.app.tabs[0].active, 1);
    d.key(KeyCode::Up, ALT);
    assert_eq!(d.app.tabs[0].active, 0);
    d.key(KeyCode::Char('F'), ALT_SHIFT);
    assert!(d.app.tabs[0].favorite, "Alt+Shift+f toggles favorite");
    d.key(KeyCode::Char('s'), ALT);
    assert_eq!(d.app.tabs[0].shells.len(), 3, "Alt+s adds a subshell");
}

#[test]
fn ctrl_alt_chords_reach_the_app() {
    let mut d = Desk::new(&[1]);
    d.app.search_focus = false;
    d.key(KeyCode::Char('t'), CONTROL_ALT);
    assert_eq!(d.app.tabs.len(), 1, "Ctrl+Alt+t is the app's, not a new tab");
    assert_eq!(d.sent, [(0, vec![0x1b, 0x14])]);
    d.key(KeyCode::Char('t'), ALT);
    assert_eq!(d.app.tabs.len(), 2, "a bare Alt+t still is");
}

#[test]
fn mouse_click_selects_tab_and_shell() {
    let mut d = Desk::new(&[1, 2]);
    d.mouse(LEFT_DOWN, 3, 9, NONE);
    assert_eq!((d.app.active, d.app.tabs[1].active), (1, 1));
    d.mouse(LEFT_DOWN, 3, 2, NONE);
    assert_eq!(d.app.active, 0);
    // Release ends any armed drag.
    d.mouse(LEFT_UP, 3, 2, NONE);
    assert_eq!(d.app.dragging_tab, None);
}

#[test]
fn mouse_drag_reorders_tabs() {
    let mut d = Desk::new(&[1, 1]);
    let p = d.pids();
    d.mouse(LEFT_DOWN, 3, 2, NONE);
    d.mouse(LEFT_DRAG, 3, 6, NONE);
    d.mouse(LEFT_UP, 3, 6, NONE);
    assert_eq!(d.pids(), [p[1], p[0]], "tabs swapped");
    assert_eq!(d.app.active, 1, "selection follows the dragged tab");
}

#[test]
fn mouse_drag_reorders_against_the_filtered_list_it_is_shown() {
    let mut d = Desk::new(&[1, 1, 1, 1]);
    let names = ["/t/keepa", "/t/hideb", "/t/keepc", "/t/keepd"];
    for (tab, cwd) in d.app.tabs.iter_mut().zip(names) {
        tab.shells[0].cwd = Some(cwd.into());
    }
    d.app.search = "keep".into();
    d.app.refresh_shown();
    assert_eq!(d.app.shown, vec![0, 2, 3], "the hidden tab leaves `shown` sparse");
    let order = |d: &Desk| d.app.tabs.iter().map(|t| t.shells[0].cwd.clone().unwrap_or_default()).collect::<Vec<_>>();
    // Each single-shell tab is four rows tall, so the shown tabs start at rows 2, 6
    // and 10. Grab the first and drop it on the last shown row...
    d.mouse(LEFT_DOWN, 3, 2, NONE);
    d.mouse(LEFT_DRAG, 3, 10, NONE);
    assert_eq!(order(&d), ["/t/hideb", "/t/keepc", "/t/keepd", "/t/keepa"]);
    // ...then, in the same drag, back to the first shown row — which is now `keepc`.
    d.mouse(LEFT_DRAG, 3, 2, NONE);
    assert_eq!(
        order(&d),
        ["/t/hideb", "/t/keepa", "/t/keepc", "/t/keepd"],
        "the tab lands on the row it was dropped on, never above a filtered-out tab"
    );
}

#[test]
fn mouse_drag_resizes_sidebar() {
    let mut d = Desk::new(&[1]);
    d.app.term_width = 80;
    let border = d.app.sidebar_width - 1;
    d.mouse(LEFT_DOWN, border, 5, NONE);
    d.mouse(LEFT_DRAG, 39, 5, NONE);
    assert_eq!(d.app.sidebar_width, 40);
    d.mouse(LEFT_DRAG, 2, 5, NONE);
    assert_eq!(d.app.sidebar_width, MIN_SIDEBAR_WIDTH, "clamped to minimum");
    d.mouse(LEFT_DRAG, u16::MAX, 5, NONE);
    assert_eq!(d.app.sidebar_width, 80 - MIN_PANE_WIDTH, "clamped to maximum");
    d.mouse(LEFT_UP, 8, 5, NONE);
    assert!(!d.app.dragging_sidebar);

    // The grab zone lives entirely inside the sidebar: the pane's own first column
    // starts a text selection, it is not a resize handle.
    let mut d = Desk::new(&[1]);
    d.app.term_width = 80;
    let pane_start = d.app.sidebar_width;
    d.mouse(LEFT_DOWN, pane_start, 5, NONE);
    assert!(!d.app.dragging_sidebar, "the pane's first column is not the resize handle");
    assert_eq!(d.app.selection.as_ref().expect("selection").anchor.1, 0, "it selects from pane column 0");
    // Two columns of handle, both on the sidebar side.
    for col in [pane_start - 1, pane_start - 2] {
        let mut d = Desk::new(&[1]);
        d.app.term_width = 80;
        d.mouse(LEFT_DOWN, col, 5, NONE);
        assert!(d.app.dragging_sidebar, "column {col} grabs the border");
    }
}

#[test]
fn mouse_wheel_scrolls_tab_list_over_sidebar() {
    let mut d = Desk::new(&[1, 1, 1]);
    d.app.sidebar_rows = 10; // overflowing viewport
    d.mouse(MouseKind::ScrollDown, 3, 5, NONE);
    assert_eq!(d.app.list_offset, 1);
    d.mouse(MouseKind::ScrollUp, 3, 5, NONE);
    assert_eq!(d.app.list_offset, 0);
}

#[test]
fn sample_shells_covers_all_shells_over_the_window() {
    let mut d = Desk::new(&[1, 2, 1]); // 4 shells total
    assert_eq!(d.app.total_shells(), 4);
    assert_eq!(d.app.sample_count(), 1, "one shell sampled per frame at this count");
    let mut seen: Vec<(usize, usize)> = Vec::new();
    for n in 0..4 {
        let next = d.app.sample_next().expect("a shell");
        assert_eq!(next, d.app.flat_index(n));
        seen.push(next);
    }
    assert_eq!(seen, [(0, 0), (1, 0), (1, 1), (2, 0)], "every shell reachable via the cursor");
    assert_eq!(d.app.sample_next(), Some((0, 0)), "and around again");
    let mut none = App::new(BASE.into(), true, NOW);
    assert_eq!((none.sample_count(), none.sample_next()), (0, None));
}

#[test]
fn visible_tabs_covers_only_the_viewport() {
    let mut d = Desk::new(&[1, 2, 1]); // heights 4, 6, 4
    d.app.sidebar_rows = 10; // 8 viewport rows (title + search + 8)
    assert_eq!(d.app.visible_tabs(), (0, 1), "tab 1 would end below the fold");
    assert_eq!(d.app.tab_at_row(2 + 5), None, "the blank rows under tab 0 hit nothing");
    d.app.list_offset = 1;
    assert_eq!(d.app.visible_tabs(), (1, 2));
    d.app.sidebar_rows = 12;
    assert_eq!(d.app.visible_tabs(), (1, 3));
    d.app.sidebar_rows = 0; // degenerate sidebar renders nothing
    assert_eq!(d.app.visible_tabs(), (1, 1));
}

#[test]
fn agent_scan_runs_off_thread_and_rotates_over_the_shells() {
    let mut d = Desk::new(&[1, 1]);
    assert!(d.app.tabs.iter().all(|t| t.shells.iter().all(|s| s.agent.is_none())));
    assert!(d.app.probe_due(false, NOW, NOW + SAMPLE_EVERY));
    assert!(!d.app.probe_due(true, NOW, NOW + SAMPLE_EVERY * 2), "only one probe is ever in flight");
    assert!(!d.app.probe_due(false, NOW, NOW + SAMPLE_EVERY - 1), "twice a second at most");
    let target = d.app.next_probe_target().expect("a shell");
    assert_eq!(d.app.shells_running(target), [(0, 0)], "the answer lands on the shell it was asked for");
    assert_eq!(d.app.shells_running(7), []);
}

#[test]
fn probe_rotation_reaches_every_shell_not_just_the_visible_one() {
    let mut d = Desk::new(&[1, 1, 1]);
    let pids: Vec<u32> = d.pids().into_iter().flatten().collect();
    let on_screen = pids[0];
    let probed: Vec<u32> = (0..12).filter_map(|_| d.app.next_probe_target()).collect();
    for pid in &pids {
        assert!(probed.contains(pid), "every shell is probed in turn: {probed:?}");
    }
    assert!(
        probed.iter().filter(|&&p| p == on_screen).count() >= probed.len() / 2,
        "the visible shell keeps every other turn: {probed:?}"
    );
}

#[test]
fn auto_button_is_dropped_when_the_panel_cannot_seat_it() {
    let d = Desk::new(&[1]);
    assert_eq!(auto_button(0, &d.app.tabs[0], MIN_SIDEBAR_WIDTH), None);
    assert_eq!(d.app.auto_at(2, 0), None, "no button drawn, so no column toggles one");
    assert!(auto_button(0, &d.app.tabs[0], SIDEBAR_WIDTH).is_some(), "the default panel seats it");
}

#[test]
fn auto_toggles_per_tab_from_its_button_and_persists() {
    let mut d = Desk::new(&[1, 1]);
    assert!(d.app.tabs.iter().all(|t| !t.auto), "off by default on a new tab");
    let (start, end) = auto_span(d.app.sidebar_width);
    d.mouse(LEFT_DOWN, start as u16, 2, NONE); // tab 0's first line
    assert!(d.app.tabs[0].auto, "the button toggles that tab's feature on");
    assert!(!d.app.tabs[1].auto, "the other tab keeps its own state");
    assert!(d.saved_session().tabs[0].auto, "and the choice is persisted at once");
    d.mouse(LEFT_DOWN, end as u16 - 1, 2, NONE);
    assert!(!d.app.tabs[0].auto && !d.saved_session().tabs[0].auto, "toggling back is persisted too");
    // The click lands on the button, not the tab row under it.
    assert!(d.app.dragging_tab.is_none(), "the auto button never arms a tab drag");
}

#[test]
fn persist_now_writes_once_per_change() {
    let mut d = Desk::new(&[1]);
    let text = d.app.persist_now().expect("a first write");
    assert_eq!(load_session(&text), d.app.saved_session);
    assert_eq!(d.app.saved_session.tabs.len(), 1);
    assert!(d.app.saved_session.tabs[0].active);
    assert_eq!(d.app.persist_now(), None, "unchanged session → no rewrite");
    d.app.tabs[0].favorite = true;
    assert_eq!(d.app.persist_session(NOW), None, "at most once a second");
    assert!(d.app.persist_session(NOW + PERSIST_EVERY).is_some());
}

#[test]
fn persist_now_is_io_free_and_uses_caches() {
    let mut d = Desk::new(&[1]);
    d.app.tabs[0].shells[0].cwd = Some("/tmp".into());
    d.app.tabs[0].shells[0].fg_cmd = Some("make -j".into());
    d.app.persist_now();
    let saved = &d.app.saved_session.tabs[0].shells[0];
    assert_eq!(saved.cwd, "/tmp", "persists the cached cwd");
    assert_eq!(saved.cmd.as_deref(), Some("make -j"), "persists the cached command");
    d.app.tabs[0].shells[0].cwd = None;
    d.app.persist_now();
    assert_eq!(d.app.saved_session.tabs[0].shells[0].cwd, BASE, "else the base");
}

#[test]
fn restore_tab_rebuilds_shells_and_flags() {
    let mut d = Desk::new(&[1]);
    let state = TabState {
        shells: vec![
            ShellState { cwd: BASE.into(), cmd: None },
            ShellState { cwd: BASE.into(), cmd: None },
        ],
        active_shell: 1,
        active: true,
        favorite: true,
        auto: false,
    };
    let shells = vec![d.shell(), d.shell()];
    d.app.restore_tab(&state, shells);
    let tab = d.app.tabs.last().expect("restored tab");
    assert_eq!(tab.shells.len(), 2);
    assert_eq!(tab.active, 1);
    assert!(tab.favorite);
    assert!(!tab.auto, "the persisted auto choice is restored");
    assert_eq!(d.app.active, d.app.tabs.len() - 1);
}

#[test]
fn what_is_gone_is_not_restored() {
    let shell = |cwd: &str| ShellState { cwd: cwd.into(), cmd: None };
    let tab = |cwds: &[&str]| TabState {
        shells: cwds.iter().map(|c| shell(c)).collect(),
        active_shell: 0,
        active: false,
        favorite: false,
        auto: false,
    };
    let tabs = vec![tab(&["/a", "/gone"]), tab(&["/gone"]), tab(&["/b"])];
    let dirs = vec![vec![true, false], vec![false], vec![true]];
    assert_eq!(restorable(&tabs, &dirs), vec![tab(&["/a"]), tab(&["/b"])]);
    assert_eq!(restored_active(&vec![false, true, true, false]), 2, "the last one marked");
    assert_eq!(restored_active(&vec![false, false]), 0);
    // An active shell that is gone falls back to the last one left.
    let mut d = Desk::new(&[]);
    let shells = vec![d.shell()];
    d.app.restore_tab(&TabState { active_shell: 5, ..tab(&["/a"]) }, shells);
    assert_eq!(d.app.tabs[0].active, 0);
    d.app.activate(7);
    assert_eq!(d.app.active, 0, "no such tab");
}

#[test]
fn a_tab_is_restored_with_the_shell_that_was_active() {
    let shells = |dirs: &[&str]| -> Vec<ShellState> {
        dirs.iter().map(|d| ShellState { cwd: d.to_string(), cmd: None }).collect()
    };
    let tab = TabState {
        shells: shells(&["/gone", "/b", "/c"]),
        active_shell: 1,
        active: true,
        favorite: false,
        auto: true,
    };
    let left = restorable(&vec![tab], &vec![vec![false, true, true]]);
    assert_eq!(left.len(), 1);
    assert_eq!(left[0].shells, shells(&["/b", "/c"]));
    assert_eq!(left[0].active_shell, 0, "/b, as it was");
    let mut d = Desk::new(&[1]);
    let started = vec![d.shell(), d.shell()];
    d.app.restore_tab(&left[0], started);
    assert_eq!(d.app.tabs.last().expect("restored tab").active, 0);
}

#[test]
fn without_a_search_every_tab_is_shown() {
    let mut d = Desk::new(&[1, 2, 1]);
    d.app.tabs[1].shells[0].cwd = None;
    d.app.search = String::new();
    d.app.refresh_shown();
    assert_eq!(d.app.shown, [0, 1, 2]);
    d.app.search = "RICON".into();
    d.app.refresh_shown();
    assert_eq!(d.app.shown, [0, 2], "whatever the case");
}

#[test]
fn search_starts_focused_and_filters_tabs() {
    let mut d = Desk::new(&[1, 1, 1]);
    assert!(d.app.search_focus, "focused at start");
    d.app.tabs[0].shells[0].cwd = Some("/tmp/alpha".into());
    d.app.tabs[1].shells[0].cwd = Some("/tmp/BETA".into());
    d.app.tabs[2].shells[0].cwd = Some("/tmp/gamma-beta".into());
    for c in "beta".chars() {
        d.key(KeyCode::Char(c), NONE);
    }
    assert_eq!(d.app.search, "beta");
    assert_eq!(d.app.shown, vec![1, 2], "only matching tabs shown");
    d.key(KeyCode::Backspace, NONE);
    assert_eq!(d.app.search, "bet");
    assert_eq!(d.app.tab_at_row(2), Some(1), "hit-testing follows the filter");
    // Esc returns focus to the shell; typing no longer edits the filter.
    d.key(KeyCode::Esc, NONE);
    assert!(!d.app.search_focus);
    d.key(KeyCode::Char('x'), NONE);
    assert_eq!(d.app.search, "bet", "unfocused typing goes to the shell");
    assert_eq!(d.sent, [(0, b"x".to_vec())]);
    // Empty filter shows every tab again.
    d.app.search.clear();
    d.app.refresh_shown();
    assert_eq!(d.app.shown, vec![0, 1, 2]);
}

#[test]
fn search_focus_via_alt_f_mouse_and_tab_click() {
    let mut d = Desk::new(&[1, 1]);
    d.app.search_focus = false;
    d.key(KeyCode::Char('f'), ALT);
    assert!(d.app.search_focus, "Alt+f focuses the search row");
    d.key(KeyCode::Enter, NONE);
    assert!(!d.app.search_focus, "Enter hands focus back");
    d.mouse(LEFT_DOWN, 3, 1, NONE);
    assert!(d.app.search_focus, "mouse click focuses the search row");
    d.mouse(LEFT_DOWN, 3, 2, NONE);
    assert!(!d.app.search_focus, "selecting a tab unfocuses the search");
}

#[test]
fn search_hides_active_tab_without_breaking_reveal() {
    let mut d = Desk::new(&[1, 1]);
    d.app.tabs[0].shells[0].cwd = Some("/tmp/alpha".into());
    d.app.tabs[1].shells[0].cwd = Some("/tmp/beta".into());
    d.app.search = "alpha".into();
    d.app.refresh_shown();
    d.app.active = 1; // active tab filtered out
    d.app.sidebar_rows = 10;
    d.app.reveal_active(); // must not panic or scroll
    assert_eq!(d.app.list_offset, 0);
    assert_eq!(d.app.shown, vec![0]);
    d.app.navigate_tabs(true);
    assert_eq!(d.app.active, 0, "navigation stays in the filtered list");
}

#[test]
fn replay_row_grows_tab_and_tracks_hit_testing() {
    let mut d = Desk::new(&[1]);
    assert_eq!(d.app.tabs[0].rows(), 4, "no replay row before anything is captured");
    d.app.tabs[0].shells[0].process = "bash".into();
    d.app.tabs[0].shells[0].last_cmd = Some("cargo test".into());
    assert_eq!(d.app.tabs[0].rows(), 5, "a replay row grows the tab by one");
    // Rows: title, search, name(2), path(3), process(4), replay(5), separator(6).
    assert_eq!(d.app.shell_at_row(5), Some((0, 0)), "the replay row belongs to its shell");
    assert_eq!(d.app.replay_at(5, 5), Some((0, 0)), "the icon hit-tests on the replay row");
    assert_eq!(d.app.shell_at_row(6), Some((0, 0)), "the separator follows the replay row");
    assert_eq!(d.app.replay_at(5, 17), Some((0, 0)), "the command's last column is still the button");
    assert_eq!(d.app.replay_at(5, 18), None, "past the command's end misses");
    // Losing replayability shrinks it back and removes the button.
    d.app.tabs[0].shells[0].last_cmd = None;
    assert_eq!(d.app.tabs[0].rows(), 4, "shrinks back when the command clears");
    assert!((0..8).all(|r| d.app.replay_at(r, 5).is_none()), "no button target once shrunk");
}

#[test]
fn replay_suppressed_while_non_shell_in_foreground() {
    let mut d = Desk::new(&[1]);
    d.app.tabs[0].shells[0].last_cmd = Some("echo hi".into());
    d.app.tabs[0].shells[0].process = "deno".into();
    assert!((0..8).all(|r| d.app.replay_at(r, 5).is_none()), "no icon while a program runs");
    d.key(KeyCode::Char('r'), ALT);
    assert!(d.sent.is_empty(), "nor does Alt+r");
    // A shell restores the replay row (below the process row) with its icon.
    d.app.tabs[0].shells[0].process = "bash".into();
    assert_eq!(d.app.replay_at(5, 5), Some((0, 0)), "icon back on the replay row at the shell prompt");
    assert_eq!(d.app.replay_at(4, 5), None, "the process row itself has no icon");
}

#[test]
fn replay_types_and_confirms_via_alt_r_and_click() {
    let mut d = Desk::new(&[1]);
    d.app.tabs[0].shells[0].process = "bash".into(); // a shell owns the tty → replay armed
    d.app.tabs[0].shells[0].last_cmd = Some("echo RICON_REPLAY_$((1+1))".into());
    d.key(KeyCode::Char('r'), ALT);
    assert_eq!(d.sent.pop(), Some((0, b"echo RICON_REPLAY_$((1+1))\r".to_vec())), "Alt+r typed and confirmed the command");
    d.app.tabs[0].shells[0].last_cmd = Some("echo RICON_REPLAY_$((2+2))".into());
    assert_eq!(d.app.replay_at(5, 5), Some((0, 0)), "click lands on the icon");
    assert_eq!(d.app.replay_at(5, 4), None, "the indent before the icon misses");
    assert_eq!(d.app.replay_at(4, 5), None, "the process row has no icon");
    // The command is head-truncated to the sidebar, so it runs to the last column.
    let sw = d.app.sidebar_width;
    assert_eq!(d.app.replay_at(5, sw - 2), Some((0, 0)), "the command text is the button too");
    assert_eq!(d.app.replay_at(5, sw - 1), None, "the border column is not");
    // A click on the command — not the icon — replays it.
    d.mouse(LEFT_DOWN, 12, 5, NONE);
    assert_eq!(d.sent.pop(), Some((0, b"echo RICON_REPLAY_$((2+2))\r".to_vec())), "mouse click replayed the command");
}

#[test]
fn alt_question_mark_shows_the_cheat_sheet_until_any_key() {
    let mut d = Desk::new(&[1]);
    d.app.search_focus = false;
    d.key(KeyCode::Char('?'), ALT_SHIFT);
    assert!(d.app.help, "alt+? opens the cheat sheet");
    d.key(KeyCode::Char('x'), NONE);
    assert!(!d.app.help, "any key closes it");
    assert!(d.sent.is_empty(), "the closing key never reached the shell");
    d.key(KeyCode::Char('h'), ALT);
    assert!(d.app.help, "alt+h opens it too");
    d.mouse(LEFT_DOWN, 50, 10, NONE);
    assert!(!d.app.help, "a click closes it");
    assert!(d.app.selection.is_none() && d.app.dragging_tab.is_none(), "the click went nowhere else");
}

#[test]
fn closing_the_cheat_sheet_swallows_the_rest_of_its_click() {
    let mut d = Desk::new(&[1]);
    d.app.help = true;
    d.mouse(LEFT_DOWN, 40, 5, NONE);
    assert!(!d.app.help && d.app.swallow_release, "closed, and the release is the console's");
    d.mouse(LEFT_UP, 40, 5, NONE);
    assert!(!d.app.swallow_release, "swallowed once, then the mouse is the app's again");
}

#[test]
fn the_loop_saves_and_stops_when_there_is_nothing_left() {
    let mut d = Desk::new(&[1]);
    d.app.drawn = NOW;
    assert!(matches!(d.app.turn(NOW + POLL_INTERVAL), Turn::Frame));
    assert!(matches!(d.app.turn(NOW + 10), Turn::Wait(left) if left == POLL_INTERVAL - 10));
    d.app.quit = true;
    let Turn::Stop(Some(text)) = d.app.turn(NOW) else { panic!("a confirmed quit saves and stops") };
    assert_eq!(load_session(&text).tabs.len(), 1);
    let mut d = Desk::new(&[1]);
    d.app.persist_now();
    d.dead.push(0);
    d.reap();
    let Turn::Stop(Some(text)) = d.app.turn(NOW) else { panic!("the last shell gone: stop") };
    assert!(load_session(&text).tabs.is_empty(), "the next start opens fresh");
}

#[test]
fn the_loop_reaps_and_drains_on_a_budget() {
    let mut d = Desk::new(&[1]);
    assert!(!d.app.reap_due(NOW + REAP_EVERY - 1));
    assert!(d.app.reap_due(NOW + REAP_EVERY));
    assert!(!d.app.reap_due(NOW + REAP_EVERY), "just looked");
    assert!(!d.app.drained(NOW, NOW, true));
    assert!(d.app.drained(NOW, NOW, false), "nothing queued");
    assert!(d.app.drained(NOW, NOW + DRAIN_BUDGET, true), "the budget is spent");
    d.app.quit = true;
    assert!(d.app.drained(NOW, NOW, true));
}

#[test]
fn a_frame_reveals_a_tab_that_just_became_active() {
    let mut d = Desk::new(&[1, 1, 1]);
    d.app.sidebar_rows = 10;
    d.app.active = 2;
    d.app.begin_frame();
    assert_eq!((d.app.list_offset, d.app.shown_active), (1, 2));
    d.app.list_offset = 0; // free scrolling is left alone
    d.app.begin_frame();
    assert_eq!(d.app.list_offset, 0);
}

#[test]
fn a_frame_ticks_every_shell() {
    let mut d = Desk::new(&[1, 1]);
    let later = NOW + 10 * SECOND;
    d.app.tabs[1].shells[0].pending_cmd = Some("make".into());
    for i in 0..2 {
        let (ping, bytes) = d.app.tick_shell(i, 0, 1, d.terms[&(i as u64)].screen(), later, WALL);
        assert_eq!(ping, None);
        assert_eq!(bytes, if i == 1 { Some(b"make\r".to_vec()) } else { None });
    }
    assert!(!d.app.tabs[0].shells[0].unseen_output, "on screen");
    assert!(d.app.tabs[1].shells[0].unseen_output, "off screen");
    assert!(d.app.tabs[0].shells[0].animating);
}

#[test]
fn the_branch_is_read_again_when_the_folder_changes_or_it_aged() {
    let mut d = Desk::new(&[1]);
    assert!(d.app.branch_due(Some("/a"), NOW), "a new folder");
    assert!(!d.app.branch_due(Some("/a"), NOW + SAMPLE_EVERY - 1));
    assert!(d.app.branch_due(Some("/a"), NOW + SAMPLE_EVERY), "it aged");
    assert!(d.app.branch_due(None, NOW + SAMPLE_EVERY), "no folder");
}
