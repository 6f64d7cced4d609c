//! What a key, the mouse or a paste does to the console.
//!
//! The console itself never spawns, writes or copies anything: an event changes its
//! state and hands back at most one act for the program around it to perform.

use tui_term::vt100::Screen;
use vstd::prelude::*;
use crate::app;
use crate::app::{App, Ap, Sel, Selection, MIN_SIDEBAR_WIDTH};
use crate::keys;
use crate::keys::{encode_key, KeyCode, KeyEvent};
use crate::labels;
use crate::labels::{copy_button_x, paste_text};
use crate::mouse;
use crate::mouse::{encode_mouse, MouseButton, MouseEvent, MouseKind, MouseMode, TermModes};
use crate::screen;
use crate::screen::{logical_line, modes, row_chars, screen_between, scroll};
use crate::selection;
use crate::selection::{corners, order, word_span};
use crate::shell;
use crate::shell::{pasted_bytes, Sh};
use crate::tab;
use crate::tab::{tab_wf, Tb};
use crate::text;
use crate::text::{chars, copy, extend, string, trimmed_len};

verus! {

/// Rows one notch of the wheel scrolls.
pub const SCROLL_STEP: i32 = 3;

/// Clicks on one cell within this many nanoseconds of each other chain into a
/// double or triple click.
pub const MULTI_CLICK: u64 = 400_000_000;

/// What an event asks the program around the console to do.
#[derive(Debug, PartialEq)]
pub enum Act {
    Nothing,
    /// Type these bytes into the active shell, as `App::write_active` says.
    Type(Vec<u8>),
    /// Send these bytes to the active shell as they are.
    Forward(Vec<u8>),
    /// Replay the active shell's last command.
    Replay,
    /// Put this text on the clipboard.
    Copy(String),
    /// Write this to the session file.
    Save(String),
    OpenTab,
    OpenSubshell,
    /// Close the active shell.
    Close,
    /// Read the primary selection, and paste it.
    Paste,
}

/// What an `Act` stands for.
pub enum Did {
    Nothing,
    Type(Seq<u8>),
    Forward(Seq<u8>),
    Replay,
    Copy(Seq<char>),
    Save(Seq<char>),
    OpenTab,
    OpenSubshell,
    Close,
    Paste,
}

impl View for Act {
    type V = Did;

    open spec fn view(&self) -> Did {
        match *self {
            Act::Nothing => Did::Nothing,
            Act::Type(b) => Did::Type(b@),
            Act::Forward(b) => Did::Forward(b@),
            Act::Replay => Did::Replay,
            Act::Copy(s) => Did::Copy(s@),
            Act::Save(s) => Did::Save(s@),
            Act::OpenTab => Did::OpenTab,
            Act::OpenSubshell => Did::OpenSubshell,
            Act::Close => Did::Close,
            Act::Paste => Did::Paste,
        }
    }
}

/// What an optional act stands for.
pub open spec fn opt_did(act: Option<Act>) -> Option<Did> {
    match act {
        Some(act) => Some(act@),
        None => None,
    }
}

/// An event of the host terminal. A key is pressed or released; `Other` is any
/// event the console has no use for.
pub enum Input {
    Press(KeyEvent),
    Release(KeyEvent),
    Mouse(MouseEvent),
    Paste(String),
    Other,
}

/// The act that saves what is to be saved.
pub open spec fn saving(r: (Ap, Option<Seq<char>>)) -> (Ap, Did) {
    match r.1 {
        Some(text) => (r.0, Did::Save(text)),
        None => (r.0, Did::Nothing),
    }
}

fn save(text: Option<String>) -> (act: Act)
    ensures
        act@ == (match text {
            Some(t) => Did::Save(t@),
            None => Did::Nothing,
        }),
{
    match text {
        Some(text) => Act::Save(text),
        None => Act::Nothing,
    }
}

// ── selections ──────────────────────────────────────────────────────────────

/// The column right of `col`, held to the pane.
pub open spec fn end_col(col: u16, cols: u16) -> u16 {
    if col < cols {
        (col + 1) as u16
    } else {
        cols
    }
}

fn past(col: u16, cols: u16) -> (c: u16)
    ensures
        c == end_col(col, cols),
{
    if col < cols {
        col + 1
    } else {
        cols
    }
}

/// The rows of a block between its top left and its bottom right corner: each row's
/// columns without the blanks at its end.
pub open spec fn block_rows(screen: Screen, a: (u16, u16), b: (u16, u16), cols: u16) -> Seq<
    Seq<char>,
> {
    Seq::new(
        (b.0 - a.0 + 1) as nat,
        |i: int|
            text::trim_end(
                screen::text_between(
                    screen,
                    ((a.0 + i) as u16, a.1),
                    ((a.0 + i) as u16, end_col(b.1, cols)),
                ),
            ),
    )
}

/// The text of a block selection between two cells: its rows, joined by line feeds.
pub open spec fn block_of(screen: Screen, a: (u16, u16), b: (u16, u16), cols: u16) -> Seq<char> {
    let (p, q) = selection::rectangle(a, b);
    text::join(block_rows(screen, p, q, cols), seq!['\n'])
}

/// Text of a block selection: each row's columns (both ends included), joined by a
/// line feed, so the clipboard holds exactly the rectangle that was highlighted.
/// Trailing blank space on each row is dropped, as in a reading-order copy.
pub fn block_text(screen: &Screen, a: (u16, u16), b: (u16, u16), cols: u16) -> (s: String)
    ensures
        s@ == block_of(*screen, a, b, cols),
{
    let (p, q): ((u16, u16), (u16, u16)) = corners(a, b);
    let to: u16 = past(q.1, cols);
    let ghost rows = block_rows(*screen, p, q, cols);
    let mut out: Vec<char> = Vec::new();
    let mut n: u32 = 0;
    let total: u32 = (q.0 - p.0) as u32 + 1;
    assert(rows.take(0) =~= Seq::empty());
    assert(out@ =~= text::join(rows.take(0), seq!['\n']));
    while n < total
        invariant
            n <= total,
            p.0 <= q.0,
            total == q.0 - p.0 + 1,
            to == end_col(q.1, cols),
            rows == block_rows(*screen, p, q, cols),
            out@ == text::join(rows.take(n as int), seq!['\n']),
        decreases total - n,
    {
        let r: u16 = (p.0 as u32 + n) as u16;
        let row: String = screen_between(screen, (r, p.1), (r, to));
        let row: Vec<char> = chars(row.as_str());
        let len: usize = trimmed_len(row.as_slice());
        let ghost was = out@;
        if n > 0 {
            out.push('\n');
            assert(out@ =~= was + seq!['\n']);
        }
        extend(&mut out, text::range(row.as_slice(), 0, len));
        assert(row@.subrange(0, len as int) =~= row@.take(len as int));
        assert(rows.take(n + 1).drop_last() =~= rows.take(n as int));
        assert(rows.take(n + 1).last() == text::trim_end(row@));
        n += 1;
        assert(out@ =~= text::join(rows.take(n as int), seq!['\n']));
    }
    assert(rows.take(n as int) =~= rows);
    string(out.as_slice())
}

/// `s`, unless it is empty.
pub open spec fn nonempty(s: Seq<char>) -> Option<Seq<char>> {
    if s.len() == 0 {
        None
    } else {
        Some(s)
    }
}

/// Whether the shell a selection was made in is still there.
pub open spec fn shell_open(a: Ap, sel: Sel) -> bool {
    sel.shell.0 < a.tabs.len() && sel.shell.1 < a.tabs[sel.shell.0 as int].shells.len()
}

/// The text of a selection: the text taken when it was finalized, else what the
/// `screen` of its shell shows, without the blanks at its end. Nothing when it is blank
/// or its shell has closed.
pub open spec fn selected(a: Ap, sel: Sel, screen: Screen) -> Option<Seq<char>> {
    match sel.text {
        Some(t) => nonempty(t),
        None => if !shell_open(a, sel) {
            None
        } else {
            let (p, q) = selection::ordered(sel.anchor, sel.head);
            let shown = if sel.block {
                block_of(screen, p, q, a.pty_cols)
            } else {
                screen::text_between(screen, p, (q.0, end_col(q.1, a.pty_cols)))
            };
            nonempty(text::trim_end(shown))
        },
    }
}

/// The act that copies a text.
pub open spec fn copying(t: Option<Seq<char>>) -> Did {
    match t {
        Some(t) => Did::Copy(t),
        None => Did::Nothing,
    }
}

/// The console with `sel` finalized with the text `t`, which is copied when there is any.
pub open spec fn finalized_with(a: Ap, sel: Sel, t: Option<Seq<char>>, now: u64) -> (Ap, Did) {
    (
        Ap {
            selection: Some(Sel { text: t, ..sel }),
            copied_at: if t is Some {
                Some(now)
            } else {
                a.copied_at
            },
            ..a
        },
        copying(t),
    )
}

/// The console with `sel` finalized: its text taken, and copied when there is any.
pub open spec fn finalized(a: Ap, sel: Sel, screen: Screen, now: u64) -> (Ap, Did) {
    finalized_with(a, sel, selected(a, sel, screen), now)
}

/// A selection made outright, in the shell on screen.
pub open spec fn outright(a: Ap, anchor: (u16, u16), head: (u16, u16)) -> Sel {
    Sel {
        shell: (a.active as usize, a.tabs[a.active].active as usize),
        anchor,
        head,
        dragging: false,
        block: false,
        text: None,
    }
}

/// The last cell of the pane.
pub open spec fn last_cell(a: Ap) -> (u16, u16) {
    (
        if a.pty_rows > 0 {
            (a.pty_rows - 1) as u16
        } else {
            0
        },
        if a.pty_cols > 0 {
            (a.pty_cols - 1) as u16
        } else {
            0
        },
    )
}

/// The console with the whole screen selected and copied.
pub open spec fn all_selected(a: Ap, screen: Screen, now: u64) -> (Ap, Did) {
    finalized(a, outright(a, (0, 0), last_cell(a)), screen, now)
}

/// What is copied is what is highlighted: the text handed to the clipboard is the
/// text the selection on screen keeps, and every selection that has text is copied.
pub proof fn the_copy_is_the_selection(a: Ap, sel: Sel, screen: Screen, now: u64)
    ensures
        ({
            let (b, did) = finalized(a, sel, screen, now);
            &&& b.selection matches Some(s) && did == copying(s.text)
            &&& b.selection matches Some(s) && s.anchor == sel.anchor && s.head == sel.head
            &&& did is Copy ==> b.copied_at == Some(now)
        }),
{
}

/// The text taken when a selection was finalized, unless it is empty.
pub open spec fn kept_text(sel: Sel) -> Option<Seq<char>> {
    match sel.text {
        Some(t) => nonempty(t),
        None => None,
    }
}

fn taken_text(sel: &Selection) -> (t: Option<String>)
    ensures
        text::opt(t) == kept_text(sel@),
{
    match &sel.text {
        Some(t) => if chars(t.as_str()).len() == 0 {
            None
        } else {
            Some(copy(t.as_str()))
        },
        None => None,
    }
}

impl App {
    /// The selected text, read in reading order with the end cell included. A
    /// finalized selection carries its own text, so the copy is exactly the
    /// highlight even if the application repaints afterwards. `screen` is the one
    /// of the shell it was made in.
    pub fn selection_text(&self, sel: &Selection, screen: &Screen) -> (t: Option<String>)
        ensures
            text::opt(t) == selected(self@, sel@, *screen),
    {
        if sel.text.is_some() {
            return taken_text(sel);
        }
        assert(self@.tabs.len() == self.tabs@.len());
        if sel.shell.0 >= self.tabs.len() {
            return None;
        }
        assert(self@.tabs[sel.shell.0 as int] == self.tabs@[sel.shell.0 as int]@);
        if sel.shell.1 >= self.tabs[sel.shell.0].shells.len() {
            return None;
        }
        let (p, q): ((u16, u16), (u16, u16)) = order(sel.anchor, sel.head);
        let shown: String = if sel.block {
            block_text(screen, p, q, self.pty_cols)
        } else {
            screen_between(screen, p, (q.0, past(q.1, self.pty_cols)))
        };
        let shown: Vec<char> = chars(shown.as_str());
        let len: usize = trimmed_len(shown.as_slice());
        assert(shown@.subrange(0, len as int) =~= shown@.take(len as int));
        if len == 0 {
            return None;
        }
        Some(string(text::range(shown.as_slice(), 0, len)))
    }

    /// Finalize a selection: its text is taken now, and copied. It stays on screen,
    /// so what landed on the clipboard is visible.
    pub fn finalize(&mut self, sel: Selection, screen: &Screen, now: u64) -> (act: Act)
        requires
            app::app_wf(old(self)@),
        ensures
            (final(self)@, act@) == finalized(old(self)@, sel@, *screen, now),
            app::app_wf(final(self)@),
    {
        let t: Option<String> = self.selection_text(&sel, screen);
        self.finalize_with(sel, t, now)
    }

    fn finalize_with(&mut self, sel: Selection, t: Option<String>, now: u64) -> (act: Act)
        requires
            app::app_wf(old(self)@),
        ensures
            (final(self)@, act@) == finalized_with(old(self)@, sel@, text::opt(t), now),
            app::app_wf(final(self)@),
    {
        let act: Act = match &t {
            Some(t) => Act::Copy(copy(t.as_str())),
            None => Act::Nothing,
        };
        if t.is_some() {
            self.copied_at = Some(now);
        }
        self.selection = Some(Selection { text: t, ..sel });
        act
    }

    /// Select a span outright (double or triple click, or the whole screen) and
    /// copy it.
    pub fn select_span(
        &mut self,
        anchor: (u16, u16),
        head: (u16, u16),
        screen: &Screen,
        now: u64,
    ) -> (act: Act)
        requires
            app::app_wf(old(self)@),
            old(self)@.tabs.len() > 0,
        ensures
            (final(self)@, act@) == finalized(
                old(self)@,
                outright(old(self)@, anchor, head),
                *screen,
                now,
            ),
            app::app_wf(final(self)@),
    {
        assert(self@.tabs[self@.active] == self.tabs@[self.active as int]@);
        let sel: Selection = Selection {
            shell: (self.active, self.tabs[self.active].active),
            anchor,
            head,
            dragging: false,
            block: false,
            text: None,
        };
        assert(sel@ == outright(self@, anchor, head));
        self.finalize(sel, screen, now)
    }

    /// Select the whole visible screen and copy it — "copy everything", but drawn as
    /// a selection first, so it is never a surprise what was taken.
    pub fn select_all(&mut self, screen: &Screen, now: u64) -> (act: Act)
        requires
            app::app_wf(old(self)@),
            old(self)@.tabs.len() > 0,
        ensures
            (final(self)@, act@) == all_selected(old(self)@, *screen, now),
            app::app_wf(final(self)@),
    {
        let last: (u16, u16) = (self.pty_rows.saturating_sub(1), self.pty_cols.saturating_sub(1));
        self.select_span((0, 0), last, screen, now)
    }
}

// ── typed input ─────────────────────────────────────────────────────────────

/// The console after `bytes` were typed into its active shell: a view scrolled back
/// snaps to live output, which takes a selection down, and the shell tracks what
/// was typed.
pub open spec fn written(a: Ap, bytes: Seq<u8>, at_prompt: bool, before: Screen, after: Screen, now: u64) -> Ap {
    let t = a.tabs[a.active];
    let s = shell::noted(Sh { last_input: now, ..t.shells[t.active] }, bytes, at_prompt, after);
    Ap {
        tabs: a.tabs.update(a.active, Tb { shells: t.shells.update(t.active, s), ..t }),
        selection: if screen::grid(before).offset != 0 {
            None
        } else {
            a.selection
        },
        ..a
    }
}

impl App {
    /// Typed input (keys, pastes) for the active shell: any input snaps its view
    /// back to live output — a selection made on the scrolled view would then
    /// highlight unrelated text. `screen` is the one of the active shell, and
    /// `at_prompt` says whether a shell at its prompt holds it.
    pub fn write_active(&mut self, bytes: &[u8], at_prompt: bool, screen: &mut Screen, now: u64)
        requires
            app::app_wf(old(self)@),
            old(self)@.tabs.len() > 0,
        ensures
            screen::view_moved(*old(screen), *final(screen)),
            screen::grid(*final(screen)).offset == 0,
            final(self)@ == written(
                old(self)@,
                bytes@,
                at_prompt,
                *old(screen),
                *final(screen),
                now,
            ),
            app::app_wf(final(self)@),
    {
        let ghost a = self@;
        let i: usize = self.active;
        let ghost t = a.tabs[i as int];
        assert(tab_wf(t));
        assert(self.tabs@[i as int]@ == t);
        let k: usize = self.tabs[i].active;
        assert(self.tabs@[i as int].shells@[k as int]@ == t.shells[k as int]);
        let moved: bool = self.tabs[i].shells[k].typed(bytes, at_prompt, screen, now);
        if moved {
            self.selection = None;
        }
        proof {
            let now_tab = self.tabs@[i as int]@;
            assert(now_tab.shells =~= t.shells.update(
                k as int,
                self.tabs@[i as int].shells@[k as int]@,
            ));
            assert(self@.tabs =~= a.tabs.update(i as int, now_tab));
            assert forall|j: int| 0 <= j < self@.tabs.len() implies tab_wf(
                #[trigger] self@.tabs[j],
            ) by {
                assert(tab_wf(a.tabs[j]));
            }
        }
    }

    /// A paste: its line breaks become the Enter of a terminal, and it is bracketed
    /// when the application asked for that. Nothing is pasted through the quit
    /// dialog.
    pub fn on_paste(&self, s: &str, screen: &Screen) -> (act: Act)
        requires
            app::app_wf(self@),
        ensures
            act@ == pasted_in(self@, s@, *screen),
    {
        if self.active >= self.tabs.len() || self.confirm_quit.is_some() {
            return Act::Nothing;
        }
        let t: String = paste_text(s);
        Act::Type(pasted_bytes(t.as_str(), modes(screen).bracketed_paste))
    }
}

/// What pasting `s` does.
pub open spec fn pasted_in(a: Ap, s: Seq<char>, screen: Screen) -> Did {
    if a.tabs.len() == 0 || a.confirm_quit is Some {
        Did::Nothing
    } else {
        Did::Type(shell::paste_bytes(labels::pasted(s), screen::grid(screen).modes.bracketed_paste))
    }
}

// ── keys ────────────────────────────────────────────────────────────────────

/// The console with copy mode switched, and saved. A selection made under the old
/// setting is dropped.
pub open spec fn copy_toggled(a: Ap) -> (Ap, Did) {
    saving(app::saved_now(Ap { copy_mode: !a.copy_mode, selection: None, ..a }))
}

/// The quit dialog takes every key: arrows and Tab move between its buttons, Enter
/// confirms the one chosen, Esc cancels.
pub open spec fn quit_keyed(a: Ap, yes: bool, code: KeyCode) -> Ap {
    match code {
        KeyCode::Left | KeyCode::Right | KeyCode::Up | KeyCode::Down | KeyCode::Tab => Ap {
            confirm_quit: Some(!yes),
            ..a
        },
        KeyCode::Enter => Ap { quit: yes, confirm_quit: None, ..a },
        KeyCode::Esc => Ap { confirm_quit: None, ..a },
        _ => a,
    }
}

/// The console with the next or previous shell of its active tab active.
pub open spec fn shell_turned(a: Ap, forward: bool) -> Ap {
    let t = a.tabs[a.active];
    Ap {
        tabs: a.tabs.update(
            a.active,
            Tb { active: tab::turned(t.active, t.shells.len() as int, forward), ..t },
        ),
        ..a
    }
}

/// Whether a character is a digit from one to nine.
pub open spec fn tab_digit(c: char) -> bool {
    49 <= c as u32 <= 57
}

/// What a bare Alt chord does, when it is one of the console's own.
pub open spec fn chord(a: Ap, code: KeyCode, screen: Screen, now: u64) -> Option<(Ap, Did)> {
    match code {
        KeyCode::Char(c) => if c == 'c' || c == 'C' {
            Some(copy_toggled(a))
        } else if c == 'a' || c == 'A' {
            Some(all_selected(a, screen, now))
        } else if c == '?' || c == 'h' || c == 'H' {
            Some((Ap { help: true, ..a }, Did::Nothing))
        } else if c == 'q' || c == 'Q' {
            Some((Ap { confirm_quit: Some(false), ..a }, Did::Nothing))
        } else if c == 't' || c == 'T' || c == 'n' || c == 'N' {
            Some((a, Did::OpenTab))
        } else if c == 'w' || c == 'W' {
            Some((a, Did::Close))
        } else if c == 'f' {
            Some((Ap { search_focus: true, ..a }, Did::Nothing))
        } else if c == 'F' {
            Some((app::favorite_toggled(a), Did::Nothing))
        } else if c == 's' || c == 'S' {
            Some((a, Did::OpenSubshell))
        } else if c == 'r' || c == 'R' {
            Some((a, Did::Replay))
        } else if tab_digit(c) {
            let k = c as u32 - 49;
            Some(
                (
                    Ap {
                        active: if k < a.shown.len() {
                            a.shown[k] as int
                        } else {
                            a.active
                        },
                        ..a
                    },
                    Did::Nothing,
                ),
            )
        } else {
            None
        },
        KeyCode::Up => Some((shell_turned(a, false), Did::Nothing)),
        KeyCode::Down => Some((shell_turned(a, true), Did::Nothing)),
        KeyCode::PageDown => Some((app::navigated(a, true), Did::Nothing)),
        KeyCode::PageUp => Some((app::navigated(a, false), Did::Nothing)),
        _ => None,
    }
}

/// What a key does to the search row while it has focus.
pub open spec fn searched(a: Ap, key: KeyEvent) -> Option<Ap> {
    match key.code {
        KeyCode::Esc | KeyCode::Enter => Some(Ap { search_focus: false, ..a }),
        KeyCode::Backspace => Some(
            app::refreshed(
                Ap {
                    search: if a.search.len() > 0 {
                        a.search.drop_last()
                    } else {
                        a.search
                    },
                    ..a
                },
            ),
        ),
        KeyCode::Char(c) => if !key.modifiers.control && !key.modifiers.alt {
            Some(app::refreshed(Ap { search: a.search.push(c), ..a }))
        } else {
            None
        },
        _ => None,
    }
}

/// A key that goes through to the shell. Esc and Ctrl+c take a highlight down on
/// their way.
pub open spec fn passed(a: Ap, key: KeyEvent, screen: Screen) -> (Ap, Did) {
    (
        if key.code == KeyCode::Esc || (key.modifiers.control && key.code == KeyCode::Char('c')) {
            Ap { selection: None, ..a }
        } else {
            a
        },
        match keys::key_bytes(key, screen::grid(screen).modes.app_cursor) {
            Some(bytes) => Did::Type(bytes),
            None => Did::Nothing,
        },
    )
}

/// What a key does.
pub open spec fn keyed(a: Ap, key: KeyEvent, screen: Screen, now: u64) -> (Ap, Did) {
    let ours = key.modifiers.alt && !key.modifiers.control;
    match a.confirm_quit {
        Some(yes) => (quit_keyed(a, yes, key.code), Did::Nothing),
        None => if a.help {
            (Ap { help: false, ..a }, Did::Nothing)
        } else if a.tabs.len() == 0 {
            (a, Did::Nothing)
        } else if ours && chord(a, key.code, screen, now) is Some {
            chord(a, key.code, screen, now)->Some_0
        } else if a.search_focus && searched(a, key) is Some {
            (searched(a, key)->Some_0, Did::Nothing)
        } else {
            passed(a, key, screen)
        },
    }
}

impl App {
    /// Switch copy mode and save the choice at once.
    pub fn toggle_copy_mode(&mut self) -> (act: Act)
        ensures
            (final(self)@, act@) == copy_toggled(old(self)@),
            app::app_wf(old(self)@) ==> app::app_wf(final(self)@),
    {
        self.copy_mode = !self.copy_mode;
        self.selection = None;
        let text: Option<String> = self.persist_now();
        save(text)
    }

    fn turn_shell(&mut self, forward: bool)
        requires
            app::app_wf(old(self)@),
            old(self)@.tabs.len() > 0,
        ensures
            final(self)@ == shell_turned(old(self)@, forward),
            app::app_wf(final(self)@),
    {
        let ghost a = self@;
        let i: usize = self.active;
        assert(tab_wf(a.tabs[i as int]));
        assert(self.tabs@[i as int]@ == a.tabs[i as int]);
        self.tabs[i].navigate(forward);
        proof {
            assert(self@.tabs =~= a.tabs.update(i as int, self.tabs@[i as int]@));
            assert forall|j: int| 0 <= j < self@.tabs.len() implies tab_wf(
                #[trigger] self@.tabs[j],
            ) by {
                assert(tab_wf(a.tabs[j]));
            }
        }
    }

    fn on_chord(&mut self, code: KeyCode, screen: &Screen, now: u64) -> (act: Option<Act>)
        requires
            app::app_wf(old(self)@),
            old(self)@.tabs.len() > 0,
        ensures
            match chord(old(self)@, code, *screen, now) {
                Some((b, did)) => final(self)@ == b && opt_did(act) == Some(did),
                None => final(self)@ == old(self)@ && act is None,
            },
            app::app_wf(final(self)@),
    {
        match code {
            KeyCode::Char(c) => {
                if c == 'c' || c == 'C' {
                    Some(self.toggle_copy_mode())
                } else if c == 'a' || c == 'A' {
                    Some(self.select_all(screen, now))
                } else if c == '?' || c == 'h' || c == 'H' {
                    self.help = true;
                    Some(Act::Nothing)
                } else if c == 'q' || c == 'Q' {
                    self.confirm_quit = Some(false);
                    Some(Act::Nothing)
                } else if c == 't' || c == 'T' || c == 'n' || c == 'N' {
                    Some(Act::OpenTab)
                } else if c == 'w' || c == 'W' {
                    Some(Act::Close)
                } else if c == 'f' {
                    self.search_focus = true;
                    Some(Act::Nothing)
                } else if c == 'F' {
                    self.toggle_favorite();
                    Some(Act::Nothing)
                } else if c == 's' || c == 'S' {
                    Some(Act::OpenSubshell)
                } else if c == 'r' || c == 'R' {
                    Some(Act::Replay)
                } else if 49 <= c as u32 && c as u32 <= 57 {
                    let k: usize = (c as u32 - 49) as usize;
                    if k < self.shown.len() {
                        assert(self@.shown[k as int] == self.shown@[k as int]);
                        self.active = self.shown[k];
                    }
                    Some(Act::Nothing)
                } else {
                    None
                }
            },
            KeyCode::Up => {
                self.turn_shell(false);
                Some(Act::Nothing)
            },
            KeyCode::Down => {
                self.turn_shell(true);
                Some(Act::Nothing)
            },
            KeyCode::PageDown => {
                self.navigate_tabs(true);
                Some(Act::Nothing)
            },
            KeyCode::PageUp => {
                self.navigate_tabs(false);
                Some(Act::Nothing)
            },
            _ => None,
        }
    }

    fn on_search(&mut self, key: &KeyEvent) -> (taken: bool)
        requires
            app::app_wf(old(self)@),
        ensures
            taken == (searched(old(self)@, *key) is Some),
            taken ==> final(self)@ == searched(old(self)@, *key)->Some_0,
            !taken ==> final(self)@ == old(self)@,
            app::app_wf(final(self)@),
    {
        match key.code {
            KeyCode::Esc | KeyCode::Enter => {
                self.search_focus = false;
                true
            },
            KeyCode::Backspace => {
                let mut v: Vec<char> = chars(self.search.as_str());
                let ghost was = v@;
                let _ = v.pop();
                assert(was.len() > 0 ==> v@ =~= was.drop_last());
                self.search = string(v.as_slice());
                self.refresh_shown();
                true
            },
            KeyCode::Char(c) => {
                if key.modifiers.control || key.modifiers.alt {
                    return false;
                }
                self.search.push(c);
                self.refresh_shown();
                true
            },
            _ => false,
        }
    }

    /// A key. Every shortcut of the console's own is a bare Alt chord, so Ctrl keys
    /// and Ctrl+Alt chords reach the shell untouched; the quit dialog and the cheat
    /// sheet take the key whatever it is. `screen` is the one of the active shell.
    pub fn on_key(&mut self, key: &KeyEvent, screen: &Screen, now: u64) -> (act: Act)
        requires
            app::app_wf(old(self)@),
        ensures
            (final(self)@, act@) == keyed(old(self)@, *key, *screen, now),
            app::app_wf(final(self)@),
    {
        if let Some(yes) = self.confirm_quit {
            match key.code {
                KeyCode::Left | KeyCode::Right | KeyCode::Up | KeyCode::Down | KeyCode::Tab => {
                    self.confirm_quit = Some(!yes);
                },
                KeyCode::Enter => {
                    self.quit = yes;
                    self.confirm_quit = None;
                },
                KeyCode::Esc => {
                    self.confirm_quit = None;
                },
                _ => {},
            }
            return Act::Nothing;
        }
        if self.help {
            self.help = false;
            return Act::Nothing;
        }
        assert(self@.tabs.len() == self.tabs@.len());
        if self.tabs.len() == 0 {
            return Act::Nothing;
        }
        if key.modifiers.alt && !key.modifiers.control {
            if let Some(act) = self.on_chord(key.code, screen, now) {
                return act;
            }
        }
        if self.search_focus {
            if self.on_search(key) {
                return Act::Nothing;
            }
        }
        if key.code == KeyCode::Esc || (key.modifiers.control && key.code == KeyCode::Char('c')) {
            self.selection = None;  // the highlight goes; the key still goes through
        }
        match encode_key(key, modes(screen).app_cursor) {
            Some(bytes) => Act::Type(bytes),
            None => Act::Nothing,
        }
    }
}

/// Ctrl keys are the shell's: with no dialog up, a key pressed with Ctrl (and
/// whatever else) is typed into the shell just as a terminal sends it. The one
/// exception is the search row, which takes Esc, Enter and Backspace while it has
/// focus.
pub proof fn control_keys_reach_the_shell(a: Ap, key: KeyEvent, screen: Screen, now: u64)
    requires
        a.confirm_quit is None,
        !a.help,
        a.tabs.len() > 0,
        key.modifiers.control,
        !(a.search_focus && (key.code == KeyCode::Esc || key.code == KeyCode::Enter || key.code
            == KeyCode::Backspace)),
        keys::key_bytes(key, screen::grid(screen).modes.app_cursor) is Some,
    ensures
        keyed(a, key, screen, now).1 == Did::Type(
            keys::key_bytes(key, screen::grid(screen).modes.app_cursor)->Some_0,
        ),
        keyed(a, key, screen, now).0 == a || keyed(a, key, screen, now).0 == (Ap {
            selection: None,
            ..a
        }),
{
}

/// Esc is the shell's too, whatever is selected, unless the search row has focus.
pub proof fn escape_reaches_the_shell(a: Ap, key: KeyEvent, screen: Screen, now: u64)
    requires
        a.confirm_quit is None,
        !a.help,
        a.tabs.len() > 0,
        !a.search_focus,
        key.code == KeyCode::Esc,
    ensures
        keyed(a, key, screen, now).0 == (Ap { selection: None, ..a }),
        keys::key_bytes(key, screen::grid(screen).modes.app_cursor) matches Some(bytes)
            ==> keyed(a, key, screen, now).1 == Did::Type(bytes),
{
}

/// While the quit dialog is up no key does anything but answer it: nothing reaches
/// the shell, and the tabs stay as they are. Only Enter with YES chosen quits.
pub proof fn the_quit_dialog_takes_every_key(a: Ap, key: KeyEvent, screen: Screen, now: u64)
    requires
        a.confirm_quit is Some,
    ensures
        ({
            let (b, did) = keyed(a, key, screen, now);
            &&& did == Did::Nothing
            &&& b == (Ap { confirm_quit: b.confirm_quit, quit: b.quit, ..a })
            &&& b.quit && !a.quit ==> key.code == KeyCode::Enter && a.confirm_quit == Some(true)
        }),
{
}

/// Opening the quit dialog chooses NO, so a stray Enter never quits.
pub proof fn a_stray_enter_does_not_quit(
    a: Ap,
    alt_q: KeyEvent,
    enter: KeyEvent,
    screen: Screen,
    now: u64,
)
    requires
        a.confirm_quit is None,
        !a.help,
        !a.quit,
        a.tabs.len() > 0,
        alt_q.code == KeyCode::Char('q'),
        alt_q.modifiers.alt && !alt_q.modifiers.control,
        enter.code == KeyCode::Enter,
    ensures
        keyed(keyed(a, alt_q, screen, now).0, enter, screen, now).0 == a,
{
    assert(keyed(keyed(a, alt_q, screen, now).0, enter, screen, now).0 =~= a);
}

/// Any key closes the cheat sheet, and does nothing else.
pub proof fn any_key_closes_the_cheat_sheet(a: Ap, key: KeyEvent, screen: Screen, now: u64)
    requires
        a.help,
        a.confirm_quit is None,
    ensures
        keyed(a, key, screen, now) == (Ap { help: false, ..a }, Did::Nothing),
{
}

/// Stepping between tabs never leaves the filtered list.
pub proof fn navigation_stays_in_the_filtered_list(a: Ap, forward: bool)
    requires
        app::app_wf(a),
        a.shown.len() > 0,
    ensures
        a.shown.contains(app::navigated(a, forward).active as usize),
{
    app::lemma_position(a.shown, a.active, 0);
    let pos = match app::position(a.shown, a.active, 0) {
        Some(pos) => pos,
        None => 0,
    };
    let k = tab::turned(pos, a.shown.len() as int, forward);
    assert(a.shown[k] == app::navigated(a, forward).active as usize);
}

// ── the mouse: a selection being dragged ────────────────────────────────────

/// Whether Shift and Ctrl are both held, which makes a selection a block.
pub open spec fn block_held(m: MouseEvent) -> bool {
    m.modifiers.shift && m.modifiers.control
}

/// The smaller of two.
pub open spec fn least(a: int, b: int) -> int {
    if a < b {
        a
    } else {
        b
    }
}

/// The cell of the pane nearest to the mouse.
pub open spec fn nearest_cell(a: Ap, m: MouseEvent) -> (u16, u16) {
    let col = if m.column > a.sidebar_width {
        m.column - a.sidebar_width
    } else {
        0
    };
    (
        least(m.row as int, last_cell(a).0 as int) as u16,
        least(col, last_cell(a).1 as int) as u16,
    )
}

/// A selection dragged to the mouse. A drag is not a click: it ends a chain of
/// clicks.
pub open spec fn dragged(a: Ap, sel: Sel, m: MouseEvent) -> Ap {
    Ap {
        selection: Some(Sel { head: nearest_cell(a, m), block: block_held(m), ..sel }),
        last_click: None,
        ..a
    }
}

/// A drag let go: the selection is finalized and copied, unless it never moved. It is
/// read off the screen of its own shell: `screen` when that shell is on screen, else
/// `other`, if there is one.
pub open spec fn let_go(
    a: Ap,
    sel: Sel,
    screen: Screen,
    other: Option<&Screen>,
    now: u64,
) -> (Ap, Did) {
    let done = Sel { dragging: false, ..sel };
    if sel.anchor == sel.head {
        (Ap { selection: None, ..a }, Did::Nothing)
    } else if app::made_on_screen(a, sel) {
        finalized(a, done, screen, now)
    } else {
        match other {
            Some(s) => finalized(a, done, *s, now),
            None => finalized_with(a, done, kept_text(sel), now),
        }
    }
}

/// A drag never selects outside the pane: whatever the mouse is over — the sidebar,
/// the footer — the end of the selection stays on the pane's own cells.
pub proof fn a_drag_stays_in_the_pane(a: Ap, sel: Sel, m: MouseEvent)
    requires
        a.pty_rows > 0,
        a.pty_cols > 0,
    ensures
        dragged(a, sel, m).selection matches Some(s) && s.head.0 < a.pty_rows && s.head.1
            < a.pty_cols,
{
}

impl App {
    fn drag_selection(&mut self, m: &MouseEvent)
        requires
            old(self).selection is Some,
        ensures
            final(self)@ == dragged(old(self)@, old(self)@.selection->Some_0, *m),
            app::app_wf(old(self)@) ==> app::app_wf(final(self)@),
    {
        let last_row: u16 = self.pty_rows.saturating_sub(1);
        let last_col: u16 = self.pty_cols.saturating_sub(1);
        let col: u16 = m.column.saturating_sub(self.sidebar_width);
        let head: (u16, u16) = (
            if m.row < last_row {
                m.row
            } else {
                last_row
            },
            if col < last_col {
                col
            } else {
                last_col
            },
        );
        let sel: Option<Selection> = self.selection.take();
        if let Some(sel) = sel {
            self.selection = Some(
                Selection { head, block: m.modifiers.shift && m.modifiers.control, ..sel },
            );
        }
        self.last_click = None;
    }

    fn release_selection(&mut self, screen: &Screen, other: Option<&Screen>, now: u64) -> (act: Act)
        requires
            app::app_wf(old(self)@),
            old(self).selection is Some,
        ensures
            (final(self)@, act@) == let_go(
                old(self)@,
                old(self)@.selection->Some_0,
                *screen,
                other,
                now,
            ),
            app::app_wf(final(self)@),
    {
        let ghost a = self@;
        let shown: bool = self.active < self.tabs.len();
        assert(self@.tabs.len() == self.tabs@.len());
        assert(shown ==> self@.tabs[self@.active] == self.tabs@[self.active as int]@);
        let sel: Option<Selection> = self.selection.take();
        match sel {
            Some(sel) => {
                if sel.anchor.0 == sel.head.0 && sel.anchor.1 == sel.head.1 {
                    return Act::Nothing;
                }
                let ghost was = sel@;
                let done: Selection = Selection { dragging: false, ..sel };
                let ghost b = self@;
                if shown && done.shell.0 == self.active && done.shell.1
                    == self.tabs[self.active].active {
                    assert(selected(b, done@, *screen) == selected(a, done@, *screen));
                    return self.finalize(done, screen, now);
                }
                match other {
                    Some(s) => {
                        assert(selected(b, done@, *s) == selected(a, done@, *s));
                        self.finalize(done, s, now)
                    },
                    None => {
                        let t: Option<String> = taken_text(&done);
                        self.finalize_with(done, t, now)
                    },
                }
            },
            None => Act::Nothing,
        }
    }
}

// ── the mouse: the sidebar ──────────────────────────────────────────────────

/// Whether a column is in the zone that grabs the sidebar's border: the border and
/// the column left of it, both inside the sidebar.
pub open spec fn grabs(a: Ap, column: u16) -> bool {
    a.sidebar_width - 2 <= column < a.sidebar_width
}

/// The console with shell `k` of tab `i` on screen.
pub open spec fn focused(a: Ap, i: int, k: int) -> Ap {
    Ap { active: i, tabs: a.tabs.update(i, Tb { active: k, ..a.tabs[i] }), ..a }
}

/// A press inside the sidebar: a tab's auto button toggles its feature, a replay
/// button re-runs that shell's last command, the search row takes focus, and any
/// other row of a tab selects the shell it belongs to and arms the tab for
/// reordering.
pub open spec fn sidebar_pressed(a: Ap, m: MouseEvent) -> (Ap, Did) {
    let b = Ap { selection: None, ..a };
    match app::auto_hit(b, m.row, m.column) {
        Some(i) => saving(app::auto_toggled(b, i)),
        None => match app::replay_hit(b, m.row, m.column) {
            Some((i, k)) => (Ap { search_focus: false, ..focused(b, i, k) }, Did::Replay),
            None => if m.row == 1 {
                (Ap { search_focus: true, ..b }, Did::Nothing)
            } else {
                match app::hit_at(b, m.row) {
                    Some((i, k, _)) => (
                        Ap {
                            dragging_tab: Some(i as usize),
                            search_focus: false,
                            ..focused(b, i, k)
                        },
                        Did::Nothing,
                    ),
                    None => (b, Did::Nothing),
                }
            },
        },
    }
}

/// Tab `from` moved to where tab `to` is.
pub open spec fn moved_tab(tabs: Seq<Tb>, from: int, to: int) -> Seq<Tb> {
    tabs.remove(from).insert(to, tabs[from])
}

/// Tab `from` dragged over a row: it moves to the tab there, and stays active.
pub open spec fn tab_dragged(a: Ap, from: usize, row: u16) -> Ap {
    match app::hit_at(a, row) {
        Some((to, _, _)) => if from < a.tabs.len() && to != from {
            app::refreshed(
                Ap {
                    tabs: moved_tab(a.tabs, from as int, to),
                    active: to,
                    dragging_tab: Some(to as usize),
                    ..a
                },
            )
        } else {
            a
        },
        None => a,
    }
}

/// Reordering loses no tab and makes none up.
pub proof fn reordering_keeps_the_tabs(tabs: Seq<Tb>, from: int, to: int)
    requires
        0 <= from < tabs.len(),
        0 <= to < tabs.len(),
    ensures
        moved_tab(tabs, from, to).to_multiset() == tabs.to_multiset(),
        moved_tab(tabs, from, to)[to] == tabs[from],
{
    let now = moved_tab(tabs, from, to);
    assert(now.remove(to) =~= tabs.remove(from));
    now.to_multiset_ensures();
    tabs.to_multiset_ensures();
    assert(now.remove(to).to_multiset() == now.to_multiset().remove(now[to]));
    assert(tabs.remove(from).to_multiset() == tabs.to_multiset().remove(tabs[from]));
    assert(now.contains(now[to]));
    assert(tabs.contains(tabs[from]));
    assert(now.to_multiset().remove(now[to]).insert(now[to]) =~= now.to_multiset());
    assert(tabs.to_multiset().remove(tabs[from]).insert(tabs[from]) =~= tabs.to_multiset());
}

/// What an event does to the sidebar; nothing when it is not the sidebar's.
pub open spec fn sidebar_event(a: Ap, m: MouseEvent) -> Option<(Ap, Did)> {
    match m.kind {
        MouseKind::Down(MouseButton::Left) => if grabs(a, m.column) && app::auto_hit(
            a,
            m.row,
            m.column,
        ) is None {
            Some((Ap { dragging_sidebar: true, ..a }, Did::Nothing))
        } else if m.column < a.sidebar_width {
            Some(sidebar_pressed(a, m))
        } else {
            None
        },
        MouseKind::Drag(MouseButton::Left) => if a.dragging_sidebar {
            Some(
                (
                    Ap {
                        sidebar_width: app::clamped(
                            m.column + 1,
                            MIN_SIDEBAR_WIDTH as int,
                            app::widest(a.term_width),
                        ) as u16,
                        ..a
                    },
                    Did::Nothing,
                ),
            )
        } else {
            match a.dragging_tab {
                Some(from) => Some((tab_dragged(a, from, m.row), Did::Nothing)),
                None => None,
            }
        },
        MouseKind::Up(MouseButton::Left) => if a.dragging_sidebar {
            Some((Ap { dragging_sidebar: false, ..a }, Did::Nothing))
        } else if a.dragging_tab is Some {
            Some((Ap { dragging_tab: None, ..a }, Did::Nothing))
        } else {
            None
        },
        MouseKind::ScrollUp => if m.column < a.sidebar_width {
            Some((app::list_scrolled(a, false), Did::Nothing))
        } else {
            None
        },
        MouseKind::ScrollDown => if m.column < a.sidebar_width {
            Some((app::list_scrolled(a, true), Did::Nothing))
        } else {
            None
        },
        _ => None,
    }
}

impl App {
    fn focus(&mut self, i: usize, k: usize)
        requires
            app::app_wf(old(self)@),
            i < old(self)@.tabs.len(),
            k < old(self)@.tabs[i as int].shells.len(),
        ensures
            final(self)@ == focused(old(self)@, i as int, k as int),
            app::app_wf(final(self)@),
    {
        let ghost a = self@;
        assert(self.tabs@[i as int]@ == a.tabs[i as int]);
        self.active = i;
        self.tabs[i].active = k;
        proof {
            assert(self@.tabs =~= a.tabs.update(
                i as int,
                Tb { active: k as int, ..a.tabs[i as int] },
            ));
            assert forall|j: int| 0 <= j < self@.tabs.len() implies tab_wf(
                #[trigger] self@.tabs[j],
            ) by {
                assert(tab_wf(a.tabs[j]));
            }
        }
    }

    fn press_sidebar(&mut self, m: &MouseEvent) -> (act: Act)
        requires
            app::app_wf(old(self)@),
        ensures
            (final(self)@, act@) == sidebar_pressed(old(self)@, *m),
            app::app_wf(final(self)@),
    {
        self.selection = None;
        if let Some(i) = self.auto_at(m.row, m.column) {
            let text: Option<String> = self.toggle_auto(i);
            return save(text);
        }
        if let Some((i, k)) = self.replay_at(m.row, m.column) {
            self.focus(i, k);
            self.search_focus = false;
            return Act::Replay;
        }
        if m.row == 1 {
            self.search_focus = true;
        } else if let Some((i, k)) = self.shell_at_row(m.row) {
            self.focus(i, k);
            self.dragging_tab = Some(i);
            self.search_focus = false;
        }
        Act::Nothing
    }

    fn drag_tab(&mut self, from: usize, row: u16)
        requires
            app::app_wf(old(self)@),
        ensures
            final(self)@ == tab_dragged(old(self)@, from, row),
            app::app_wf(final(self)@),
    {
        let ghost a = self@;
        let to: usize = match self.tab_at_row(row) {
            Some(to) => to,
            None => {
                return;
            },
        };
        if from >= self.tabs.len() || to == from {
            return;
        }
        let t: tab::Tab = self.tabs.remove(from);
        self.tabs.insert(to, t);
        self.active = to;
        self.dragging_tab = Some(to);
        proof {
            assert(self@.tabs =~= moved_tab(a.tabs, from as int, to as int));
            assert forall|j: int| 0 <= j < self@.tabs.len() implies tab_wf(
                #[trigger] self@.tabs[j],
            ) by {
                let rest = a.tabs.remove(from as int);
                if j == to {
                    assert(tab_wf(a.tabs[from as int]));
                } else {
                    let r = if j < to { j } else { j - 1 };
                    assert(self@.tabs[j] == rest[r]);
                    let o = if r < from { r } else { r + 1 };
                    assert(tab_wf(a.tabs[o]));
                }
            }
        }
        self.refresh_shown();
    }

    fn on_sidebar(&mut self, m: &MouseEvent) -> (act: Option<Act>)
        requires
            app::app_wf(old(self)@),
        ensures
            match sidebar_event(old(self)@, *m) {
                Some((b, did)) => final(self)@ == b && opt_did(act) == Some(did),
                None => final(self)@ == old(self)@ && act is None,
            },
            app::app_wf(final(self)@),
    {
        match m.kind {
            MouseKind::Down(MouseButton::Left) => {
                let grab: bool = m.column < self.sidebar_width && m.column as u32 + 2
                    >= self.sidebar_width as u32;
                if grab && self.auto_at(m.row, m.column).is_none() {
                    self.dragging_sidebar = true;
                    return Some(Act::Nothing);
                }
                if m.column < self.sidebar_width {
                    return Some(self.press_sidebar(m));
                }
                None
            },
            MouseKind::Drag(MouseButton::Left) => {
                if self.dragging_sidebar {
                    self.clamp_sidebar(m.column as u32 + 1);
                    return Some(Act::Nothing);
                }
                match self.dragging_tab {
                    Some(from) => {
                        self.drag_tab(from, m.row);
                        Some(Act::Nothing)
                    },
                    None => None,
                }
            },
            MouseKind::Up(MouseButton::Left) => {
                if self.dragging_sidebar {
                    self.dragging_sidebar = false;
                    Some(Act::Nothing)
                } else if self.dragging_tab.is_some() {
                    self.dragging_tab = None;
                    Some(Act::Nothing)
                } else {
                    None
                }
            },
            MouseKind::ScrollUp => {
                if m.column < self.sidebar_width {
                    self.scroll_tabs(false);
                    Some(Act::Nothing)
                } else {
                    None
                }
            },
            MouseKind::ScrollDown => {
                if m.column < self.sidebar_width {
                    self.scroll_tabs(true);
                    Some(Act::Nothing)
                } else {
                    None
                }
            },
            _ => None,
        }
    }
}

// ── the mouse: the pane ─────────────────────────────────────────────────────

/// Whether a row is outside a pane of `rows` rows.
pub open spec fn outside(row: int, rows: int) -> bool {
    row < 0 || row >= rows
}

/// The end of a selection moved to `row`. Pushed past an edge of the pane it stands at
/// that edge's far corner, so that the rows it still covers are not cut short; a block
/// covers the same columns of every row, and keeps them.
pub open spec fn pinned(a: Ap, row: int, col: u16, block: bool) -> (u16, u16) {
    if row < 0 {
        (
            0,
            if block {
                col
            } else {
                0
            },
        )
    } else if row >= a.pty_rows {
        (
            last_cell(a).0,
            if block {
                col
            } else {
                last_cell(a).1
            },
        )
    } else {
        (row as u16, col)
    }
}

/// The console after the text on screen moved down by `moved` rows: a selection
/// moves with the text it covers, and is let go once none of it is in view. Its
/// text is read anew.
pub open spec fn slid(a: Ap, moved: int) -> Ap {
    match a.selection {
        Some(sel) => {
            let p = sel.anchor.0 + moved;
            let q = sel.head.0 + moved;
            if moved == 0 {
                a
            } else if outside(p, a.pty_rows as int) && outside(q, a.pty_rows as int) {
                Ap { selection: None, ..a }
            } else {
                Ap {
                    selection: Some(
                        Sel {
                            anchor: pinned(a, p, sel.anchor.1, sel.block),
                            head: pinned(a, q, sel.head.1, sel.block),
                            text: None,
                            ..sel
                        },
                    ),
                    ..a
                }
            }
        },
        None => a,
    }
}

/// A block is carried along with the text it covers: after the text moved, it covers
/// the same columns of those of its rows that are still in view, and no others.
pub proof fn a_scrolled_block_keeps_its_columns(a: Ap, moved: int, row: int, col: u16)
    requires
        a.selection matches Some(sel) && sel.block && sel.anchor.0 < a.pty_rows && sel.head.0
            < a.pty_rows,
        0 <= row < a.pty_rows,
    ensures
        ({
            let sel = a.selection->Some_0;
            let (p, q) = selection::rectangle(sel.anchor, sel.head);
            let was = p.0 <= row - moved <= q.0 && p.1 <= col <= q.1;
            match slid(a, moved).selection {
                Some(after) => {
                    let (p, q) = selection::rectangle(after.anchor, after.head);
                    was == (p.0 <= row <= q.0 && p.1 <= col <= q.1)
                },
                None => !was,
            }
        }),
{
}

/// Where a click stands in a chain of clicks: those on one cell, close enough in
/// time, count up to three and start over.
pub open spec fn clicks(last: Option<(u64, (u16, u16), u8)>, cell: (u16, u16), now: u64) -> u8 {
    match last {
        Some((at, was, n)) => if was == cell && shell::since(at, now) < MULTI_CLICK {
            (n % 3 + 1) as u8
        } else {
            1
        },
        None => 1,
    }
}

/// A selection just begun at a cell.
pub open spec fn begun(a: Ap, cell: (u16, u16), block: bool) -> Sel {
    Sel {
        shell: (a.active as usize, a.tabs[a.active].active as usize),
        anchor: cell,
        head: cell,
        dragging: true,
        block,
        text: None,
    }
}

/// The cell of the pane under the mouse.
pub open spec fn cell_under(a: Ap, m: MouseEvent) -> (u16, u16) {
    (m.row, (m.column - a.sidebar_width) as u16)
}

/// A press in the pane: one click begins a selection, two take the word under the
/// mouse, three the whole line.
pub open spec fn pane_pressed(a: Ap, m: MouseEvent, screen: Screen, now: u64) -> (Ap, Did) {
    let cell = cell_under(a, m);
    let n = clicks(a.last_click, cell, now);
    let b = Ap { last_click: Some((now, cell, n)), ..a };
    if n == 2 {
        let (from, to) = selection::word_cols(
            screen::row_cells(screen, cell.0, a.pty_cols),
            cell.1,
        );
        finalized(b, outright(b, (cell.0, from), (cell.0, to)), screen, now)
    } else if n == 3 {
        let (from, to) = screen::line_rows(screen, cell.0, a.pty_rows);
        finalized(b, outright(b, (from, 0), (to, last_cell(a).1)), screen, now)
    } else {
        (Ap { selection: Some(begun(a, cell, block_held(m))), ..b }, Did::Nothing)
    }
}

/// Whether the application on screen asked for the mouse.
pub open spec fn grabbed(screen: Screen) -> bool {
    screen::grid(screen).modes.mouse_mode != MouseMode::Off
}

/// Whether the pane's left and middle buttons are the console's: the application
/// did not ask for the mouse, copy mode is on, or Alt or Shift is held.
pub open spec fn owns_buttons(a: Ap, m: MouseEvent, screen: Screen) -> bool {
    !grabbed(screen) || a.copy_mode || m.modifiers.alt || m.modifiers.shift
}

/// Whether an event is one of the left or the middle button.
pub open spec fn button_event(kind: MouseKind) -> bool {
    match kind {
        MouseKind::Down(b) => b != MouseButton::Right,
        MouseKind::Up(b) => b != MouseButton::Right,
        MouseKind::Drag(b) => b != MouseButton::Right,
        _ => false,
    }
}

/// How many rows the wheel scrolls the pane; none when the application asked for
/// the mouse.
pub open spec fn wheel(kind: MouseKind, screen: Screen) -> int {
    if grabbed(screen) {
        0
    } else {
        match kind {
            MouseKind::ScrollUp => SCROLL_STEP as int,
            MouseKind::ScrollDown => -(SCROLL_STEP as int),
            _ => 0,
        }
    }
}

/// Whether the mouse is over the pane.
pub open spec fn over_pane(a: Ap, m: MouseEvent) -> bool {
    m.column >= a.sidebar_width && m.row < a.pty_rows
}

/// What an event does to the pane: the console, how many rows the view is asked to
/// scroll, and the act.
pub open spec fn pane_event(a: Ap, m: MouseEvent, screen: Screen, now: u64) -> (Ap, int, Did) {
    if !over_pane(a, m) {
        (a, 0, Did::Nothing)
    } else if wheel(m.kind, screen) != 0 {
        let g = screen::grid(screen);
        (
            slid(a, screen::scrolled(g, wheel(m.kind, screen)) - g.offset),
            wheel(m.kind, screen),
            Did::Nothing,
        )
    } else if owns_buttons(a, m, screen) && button_event(m.kind) {
        match m.kind {
            MouseKind::Down(MouseButton::Left) => {
                let (b, did) = pane_pressed(a, m, screen, now);
                (b, 0, did)
            },
            MouseKind::Down(MouseButton::Middle) => (a, 0, Did::Paste),
            _ => (a, 0, Did::Nothing),
        }
    } else {
        (
            a,
            0,
            match mouse::report(
                m,
                m.column - a.sidebar_width,
                m.row as int,
                screen::grid(screen).modes,
            ) {
                Some(bytes) => Did::Forward(bytes),
                None => Did::Nothing,
            },
        )
    }
}

/// Whether `after` is `before` with its view scrolled by `step` rows, or untouched.
pub open spec fn scrolled_by(before: Screen, after: Screen, step: int) -> bool {
    if step == 0 {
        after == before
    } else {
        screen::view_moved(before, after) && screen::grid(after).offset == screen::scrolled(
            screen::grid(before),
            step,
        )
    }
}

impl App {
    fn slide_selection(&mut self, moved: i128)
        requires
            -usize::MAX <= moved <= usize::MAX,
        ensures
            final(self)@ == slid(old(self)@, moved as int),
            app::app_wf(old(self)@) ==> app::app_wf(final(self)@),
    {
        if moved == 0 {
            return;
        }
        let taken: Option<Selection> = self.selection.take();
        if let Some(sel) = taken {
            let p: i128 = sel.anchor.0 as i128 + moved;
            let q: i128 = sel.head.0 as i128 + moved;
            let rows: i128 = self.pty_rows as i128;
            if (p < 0 || p >= rows) && (q < 0 || q >= rows) {
                return;
            }
            let anchor: (u16, u16) = self.pin(p, sel.anchor.1, sel.block);
            let head: (u16, u16) = self.pin(q, sel.head.1, sel.block);
            self.selection = Some(Selection { anchor, head, text: None, ..sel });
        }
    }

    fn pin(&self, row: i128, col: u16, block: bool) -> (c: (u16, u16))
        ensures
            c == pinned(self@, row as int, col, block),
    {
        if row < 0 {
            (
                0,
                if block {
                    col
                } else {
                    0
                },
            )
        } else if row >= self.pty_rows as i128 {
            (
                self.pty_rows.saturating_sub(1),
                if block {
                    col
                } else {
                    self.pty_cols.saturating_sub(1)
                },
            )
        } else {
            (row as u16, col)
        }
    }

    /// Scroll the active pane and carry a live selection along with the text it
    /// covers; the part scrolled out of view is let go, and the whole of it once
    /// none is left in view.
    pub fn scroll_pane(&mut self, step: i32, screen: &mut Screen)
        ensures
            screen::view_moved(*old(screen), *final(screen)),
            screen::grid(*final(screen)).offset == screen::scrolled(
                screen::grid(*old(screen)),
                step as int,
            ),
            final(self)@ == slid(
                old(self)@,
                screen::scrolled(screen::grid(*old(screen)), step as int) - screen::grid(
                    *old(screen),
                ).offset,
            ),
            app::app_wf(old(self)@) ==> app::app_wf(final(self)@),
    {
        let moved: i128 = scroll(screen, step);
        self.slide_selection(moved);
    }

    /// Where this click stands in a double- or triple-click chain.
    pub fn click_count(&mut self, cell: (u16, u16), now: u64) -> (n: u8)
        ensures
            n == clicks(old(self)@.last_click, cell, now),
            1 <= n <= 3,
            final(self)@ == (Ap { last_click: Some((now, cell, n)), ..old(self)@ }),
    {
        let n: u8 = match self.last_click {
            Some((at, was, n)) => if was.0 == cell.0 && was.1 == cell.1 && now.saturating_sub(at)
                < MULTI_CLICK {
                n % 3 + 1
            } else {
                1
            },
            None => 1,
        };
        self.last_click = Some((now, cell, n));
        n
    }

    fn press_pane(&mut self, m: &MouseEvent, screen: &Screen, now: u64) -> (act: Act)
        requires
            app::app_wf(old(self)@),
            old(self)@.tabs.len() > 0,
            m.column >= old(self)@.sidebar_width,
        ensures
            (final(self)@, act@) == pane_pressed(old(self)@, *m, *screen, now),
            app::app_wf(final(self)@),
    {
        let cell: (u16, u16) = (m.row, m.column - self.sidebar_width);
        let n: u8 = self.click_count(cell, now);
        if n == 2 {
            let row: Vec<char> = row_chars(screen, cell.0, self.pty_cols);
            let (from, to): (u16, u16) = word_span(row.as_slice(), cell.1);
            return self.select_span((cell.0, from), (cell.0, to), screen, now);
        }
        if n == 3 {
            let (from, to): (u16, u16) = logical_line(screen, cell.0, self.pty_rows);
            let last: u16 = self.pty_cols.saturating_sub(1);
            return self.select_span((from, 0), (to, last), screen, now);
        }
        assert(self@.tabs[self@.active] == self.tabs@[self.active as int]@);
        self.selection = Some(
            Selection {
                shell: (self.active, self.tabs[self.active].active),
                anchor: cell,
                head: cell,
                dragging: true,
                block: m.modifiers.shift && m.modifiers.control,
                text: None,
            },
        );
        Act::Nothing
    }

    fn on_pane(&mut self, m: &MouseEvent, screen: &mut Screen, now: u64) -> (act: Act)
        requires
            app::app_wf(old(self)@),
            old(self)@.tabs.len() > 0,
        ensures
            ({
                let (b, step, did) = pane_event(old(self)@, *m, *old(screen), now);
                &&& final(self)@ == b
                &&& act@ == did
                &&& scrolled_by(*old(screen), *final(screen), step)
            }),
            app::app_wf(final(self)@),
    {
        if m.column < self.sidebar_width || m.row >= self.pty_rows {
            return Act::Nothing;
        }
        let modes: TermModes = modes(screen);
        let grabbed: bool = modes.mouse_mode != MouseMode::Off;
        let ours: bool = !grabbed || self.copy_mode || m.modifiers.alt || m.modifiers.shift;
        if !grabbed {
            if m.kind == MouseKind::ScrollUp {
                self.scroll_pane(SCROLL_STEP, screen);
                return Act::Nothing;
            }
            if m.kind == MouseKind::ScrollDown {
                self.scroll_pane(-SCROLL_STEP, screen);
                return Act::Nothing;
            }
        }
        if ours {
            match m.kind {
                MouseKind::Down(MouseButton::Left) => {
                    return self.press_pane(m, screen, now);
                },
                MouseKind::Down(MouseButton::Middle) => {
                    return Act::Paste;
                },
                MouseKind::Up(MouseButton::Left)
                | MouseKind::Up(MouseButton::Middle)
                | MouseKind::Drag(MouseButton::Left)
                | MouseKind::Drag(MouseButton::Middle) => {
                    return Act::Nothing;
                },
                _ => {},
            }
        }
        match encode_mouse(m, m.column - self.sidebar_width, m.row, &modes) {
            Some(bytes) => Act::Forward(bytes),
            None => Act::Nothing,
        }
    }
}

// ── the mouse: every event ──────────────────────────────────────────────────

/// What the mouse does: the console, how many rows the pane is asked to scroll, and
/// the act.
pub open spec fn moused(
    a: Ap,
    m: MouseEvent,
    screen: Screen,
    other: Option<&Screen>,
    now: u64,
) -> (Ap, int, Did) {
    if a.help {
        (
            Ap { help: !(m.kind is Down), swallow_release: m.kind is Down, ..a },
            0,
            Did::Nothing,
        )
    } else if a.swallow_release && (m.kind is Up || m.kind is Drag) {
        (Ap { swallow_release: !(m.kind is Up), ..a }, 0, Did::Nothing)
    } else if a.confirm_quit is Some || a.tabs.len() == 0 {
        (a, 0, Did::Nothing)
    } else if m.kind == MouseKind::Down(MouseButton::Left) && m.row == a.pty_rows && on_button(
        a,
        m.column,
    ) {
        let (b, did) = copy_toggled(a);
        (b, 0, did)
    } else {
        match a.selection {
            Some(sel) => if sel.dragging && m.kind == MouseKind::Drag(MouseButton::Left) {
                (dragged(a, sel, m), 0, Did::Nothing)
            } else if sel.dragging && m.kind == MouseKind::Up(MouseButton::Left) {
                let (b, did) = let_go(a, sel, screen, other, now);
                (b, 0, did)
            } else {
                beyond(a, m, screen, now)
            },
            None => beyond(a, m, screen, now),
        }
    }
}

/// Whether a column of the footer is the copy button's.
pub open spec fn on_button(a: Ap, column: u16) -> bool {
    match labels::copy_button(a.term_width) {
        Some((from, to)) => from <= column < to,
        None => false,
    }
}

/// What an event no dialog, button or drag took does: to the sidebar, else to the
/// pane.
pub open spec fn beyond(a: Ap, m: MouseEvent, screen: Screen, now: u64) -> (Ap, int, Did) {
    match sidebar_event(a, m) {
        Some((b, did)) => (b, 0, did),
        None => pane_event(a, m, screen, now),
    }
}

impl App {
    /// The mouse. The dialogs are modal; the footer's button toggles copy mode; a
    /// selection being dragged owns the mouse; then come the sidebar's border and
    /// its tabs, and what is left over the pane is a selection, a scroll or a paste,
    /// or goes to the application that asked for the mouse. `screen` is the one of
    /// the active shell; `other` is the one of the shell the selection was made in,
    /// where that is another.
    pub fn on_mouse(
        &mut self,
        m: &MouseEvent,
        screen: &mut Screen,
        other: Option<&Screen>,
        now: u64,
    ) -> (act: Act)
        requires
            app::app_wf(old(self)@),
        ensures
            ({
                let (b, step, did) = moused(old(self)@, *m, *old(screen), other, now);
                &&& final(self)@ == b
                &&& act@ == did
                &&& scrolled_by(*old(screen), *final(screen), step)
            }),
            app::app_wf(final(self)@),
    {
        let down: bool = match m.kind {
            MouseKind::Down(_) => true,
            _ => false,
        };
        let up: bool = match m.kind {
            MouseKind::Up(_) => true,
            _ => false,
        };
        let drag: bool = match m.kind {
            MouseKind::Drag(_) => true,
            _ => false,
        };
        if self.help {
            self.help = !down;
            self.swallow_release = down;
            return Act::Nothing;
        }
        // The press that closed the cheat sheet was the console's, so its drag and
        // release are too: an application must never see a release without a press.
        if self.swallow_release && (up || drag) {
            self.swallow_release = !up;
            return Act::Nothing;
        }
        assert(self@.tabs.len() == self.tabs@.len());
        if self.confirm_quit.is_some() || self.tabs.len() == 0 {
            return Act::Nothing;
        }
        if m.kind == MouseKind::Down(MouseButton::Left) && m.row == self.pty_rows {
            if let Some((from, to)) = copy_button_x(self.term_width) {
                if from <= m.column && m.column < to {
                    return self.toggle_copy_mode();
                }
            }
        }
        let dragging: bool = match &self.selection {
            Some(sel) => sel.dragging,
            None => false,
        };
        if dragging && m.kind == MouseKind::Drag(MouseButton::Left) {
            self.drag_selection(m);
            return Act::Nothing;
        }
        if dragging && m.kind == MouseKind::Up(MouseButton::Left) {
            return self.release_selection(screen, other, now);
        }
        if let Some(act) = self.on_sidebar(m) {
            return act;
        }
        self.on_pane(m, screen, now)
    }
}

/// With copy mode on, the left and the middle button are never sent to the
/// application in the pane, even one that asked for the mouse: the left one
/// selects, the middle one pastes.
pub proof fn copy_mode_keeps_the_buttons(a: Ap, m: MouseEvent, screen: Screen, now: u64)
    requires
        a.copy_mode,
        button_event(m.kind),
    ensures
        !(pane_event(a, m, screen, now).2 is Forward),
        over_pane(a, m) && m.kind == MouseKind::Down(MouseButton::Middle) ==> pane_event(
            a,
            m,
            screen,
            now,
        ).2 == Did::Paste,
        over_pane(a, m) && m.kind == MouseKind::Down(MouseButton::Left) ==> pane_event(
            a,
            m,
            screen,
            now,
        ).0.selection is Some,
{
}

/// The wheel and the right button still reach an application that asked for the
/// mouse, copy mode or not, just as its terminal would report them.
pub proof fn the_rest_of_the_mouse_is_the_applications(
    a: Ap,
    m: MouseEvent,
    screen: Screen,
    now: u64,
)
    requires
        over_pane(a, m),
        grabbed(screen),
        !button_event(m.kind),
    ensures
        pane_event(a, m, screen, now).0 == a,
        mouse::report(
            m,
            m.column - a.sidebar_width,
            m.row as int,
            screen::grid(screen).modes,
        ) matches Some(bytes) ==> pane_event(a, m, screen, now).2 == Did::Forward(bytes),
{
}

/// With copy mode off and no modifier held, an application that asked for the mouse
/// has all of the pane's.
pub proof fn without_copy_mode_the_mouse_is_the_applications(
    a: Ap,
    m: MouseEvent,
    screen: Screen,
    now: u64,
)
    requires
        over_pane(a, m),
        grabbed(screen),
        !a.copy_mode,
        !m.modifiers.alt && !m.modifiers.shift,
    ensures
        pane_event(a, m, screen, now).0 == a,
        mouse::report(
            m,
            m.column - a.sidebar_width,
            m.row as int,
            screen::grid(screen).modes,
        ) matches Some(bytes) ==> pane_event(a, m, screen, now).2 == Did::Forward(bytes),
{
}

/// A click closes the cheat sheet and does nothing else, and neither the drag nor
/// the release that belong to it reach anything.
pub proof fn a_click_closes_the_cheat_sheet(
    a: Ap,
    press: MouseEvent,
    release: MouseEvent,
    screen: Screen,
    other: Option<&Screen>,
    now: u64,
)
    requires
        a.help,
        press.kind is Down,
        release.kind is Up,
    ensures
        moused(a, press, screen, other, now) == (
            Ap { help: false, swallow_release: true, ..a },
            0int,
            Did::Nothing,
        ),
        moused(moused(a, press, screen, other, now).0, release, screen, other, now) == (
            Ap { help: false, swallow_release: false, ..a },
            0int,
            Did::Nothing,
        ),
{
}

/// While the quit dialog is up the mouse does nothing.
pub proof fn the_quit_dialog_takes_the_mouse(
    a: Ap,
    m: MouseEvent,
    screen: Screen,
    other: Option<&Screen>,
    now: u64,
)
    requires
        a.confirm_quit is Some,
        !a.help,
        !a.swallow_release,
    ensures
        moused(a, m, screen, other, now) == (a, 0int, Did::Nothing),
{
}

/// A selection scrolled away and back covers the same cells, as long as it stayed in
/// view.
pub proof fn a_scrolled_selection_comes_back(a: Ap, sel: Sel, moved: int)
    requires
        a.selection == Some(sel),
        sel.anchor.0 < a.pty_rows && sel.head.0 < a.pty_rows,
        !outside(sel.anchor.0 + moved, a.pty_rows as int),
        !outside(sel.head.0 + moved, a.pty_rows as int),
    ensures
        slid(slid(a, moved), -moved).selection matches Some(s) && s.anchor == sel.anchor && s.head
            == sel.head,
{
}

/// Clicks on one cell that follow each other closely count one, two, three, and one
/// again.
pub proof fn clicks_count_to_three(cell: (u16, u16), at: u64, n: u8, now: u64)
    requires
        1 <= n <= 3,
        at <= now,
        now - at < MULTI_CLICK,
    ensures
        clicks(Some((at, cell, n)), cell, now) == if n == 3 {
            1
        } else {
            n + 1
        },
{
}

// ── every event ─────────────────────────────────────────────────────────────

/// What an event does: the console, how many rows the pane is asked to scroll, and
/// the act. A selection whose shell is no longer on screen is dropped.
pub open spec fn handled(
    a: Ap,
    input: Input,
    screen: Screen,
    other: Option<&Screen>,
    now: u64,
) -> (Ap, int, Did) {
    let (b, step, did) = match input {
        Input::Press(key) => {
            let (b, did) = keyed(a, key, screen, now);
            (b, 0int, did)
        },
        Input::Mouse(m) => moused(a, m, screen, other, now),
        Input::Paste(s) => (a, 0int, pasted_in(a, s@, screen)),
        Input::Release(_) | Input::Other => (a, 0int, Did::Nothing),
    };
    (app::unstale(b), step, did)
}

impl App {
    /// An event of the host terminal. A selection whose shell it took off the screen
    /// is dropped at once: the next event in the same burst must not copy from it.
    /// The screens are those of `on_mouse`.
    pub fn handle(
        &mut self,
        input: &Input,
        screen: &mut Screen,
        other: Option<&Screen>,
        now: u64,
    ) -> (act: Act)
        requires
            app::app_wf(old(self)@),
        ensures
            ({
                let (b, step, did) = handled(old(self)@, *input, *old(screen), other, now);
                &&& final(self)@ == b
                &&& act@ == did
                &&& scrolled_by(*old(screen), *final(screen), step)
            }),
            app::app_wf(final(self)@),
    {
        let act: Act = match input {
            Input::Press(key) => self.on_key(key, screen, now),
            Input::Mouse(m) => self.on_mouse(m, screen, other, now),
            Input::Paste(s) => self.on_paste(s.as_str(), screen),
            Input::Release(_) | Input::Other => Act::Nothing,
        };
        self.drop_stale_selection();
        act
    }
}

/// After every event, a selection is one of the shell on screen.
pub proof fn a_selection_is_on_screen(
    a: Ap,
    input: Input,
    screen: Screen,
    other: Option<&Screen>,
    now: u64,
)
    ensures
        handled(a, input, screen, other, now).0.selection matches Some(sel)
            ==> app::made_on_screen(handled(a, input, screen, other, now).0, sel),
{
}

// ── what a selection copies ─────────────────────────────────────────────────

/// What a piece of text is on the clipboard: itself, unless there is nothing in it.
pub open spec fn worth_copying(t: Seq<char>) -> Option<Seq<char>> {
    if t.len() > 0 {
        Some(t)
    } else {
        None
    }
}

/// A live selection reads from the first of its cells to the last, both included: the
/// text is that of the screen from the one up to behind the other, without the blanks at
/// its end. Those are the cells that are highlighted.
pub proof fn a_selection_reads_its_cells(
    a: Ap,
    sel: Sel,
    screen: Screen,
    p: (u16, u16),
    q: (u16, u16),
)
    requires
        sel.text is None,
        !sel.block,
        sel.shell.0 < a.tabs.len(),
        sel.shell.1 < a.tabs[sel.shell.0 as int].shells.len(),
        (sel.anchor == p && sel.head == q) || (sel.anchor == q && sel.head == p),
        p.0 < q.0 || (p.0 == q.0 && p.1 <= q.1),
        p.1 < a.pty_cols,
        q.1 < a.pty_cols,
        p.1 <= screen::grid(screen).cols,
    ensures
        selected(a, sel, screen) == worth_copying(
            text::trim_end(screen::between(screen, p.0, p.1, q.0, (q.1 + 1) as u16)),
        ),
        ({
            let cells = selection::covered(sel.anchor, sel.head, sel.block, a.pty_cols);
            cells.len() > 0 && cells[0] == p && cells.last() == q
        }),
{
    selection::a_selection_runs_from_end_to_end(p, q, a.pty_cols);
}

/// A live block reads its rows, each from the left edge of the rectangle to the right
/// one, both included, and without the blanks at its end.
pub proof fn a_block_reads_its_rows(
    a: Ap,
    sel: Sel,
    screen: Screen,
    top: u16,
    left: u16,
    bottom: u16,
    right: u16,
)
    requires
        sel.text is None,
        sel.block,
        sel.shell.0 < a.tabs.len(),
        sel.shell.1 < a.tabs[sel.shell.0 as int].shells.len(),
        top <= bottom,
        left <= right < a.pty_cols,
        (sel.anchor.0 == top && sel.head.0 == bottom) || (sel.anchor.0 == bottom && sel.head.0
            == top),
        (sel.anchor.1 == left && sel.head.1 == right) || (sel.anchor.1 == right && sel.head.1
            == left),
    ensures
        selected(a, sel, screen) == worth_copying(
            text::trim_end(
                text::join(
                    Seq::new(
                        (bottom - top + 1) as nat,
                        |i: int|
                            text::trim_end(
                                screen::between(
                                    screen,
                                    (top + i) as u16,
                                    left,
                                    (top + i) as u16,
                                    (right + 1) as u16,
                                ),
                            ),
                    ),
                    seq!['\n'],
                ),
            ),
        ),
{
    let (p, q) = selection::ordered(sel.anchor, sel.head);
    selection::rectangle_is_the_same_from_either_diagonal(p, q);
    assert(selection::rectangle(p, q) == ((top, left), (bottom, right)));
    let rows = Seq::new(
        (bottom - top + 1) as nat,
        |i: int|
            text::trim_end(
                screen::between(
                    screen,
                    (top + i) as u16,
                    left,
                    (top + i) as u16,
                    (right + 1) as u16,
                ),
            ),
    );
    assert(block_rows(screen, (top, left), (bottom, right), a.pty_cols) =~= rows);
}

/// A selection that was copied keeps its text: it is copied again as it was, whatever is
/// on screen by then. One whose shell is gone and that was never copied has none.
pub proof fn a_copied_selection_keeps_its_text(a: Ap, sel: Sel, t: Seq<char>, screen: Screen)
    ensures
        sel.text == Some(t) ==> selected(a, sel, screen) == worth_copying(t),
        sel.text is None && sel.shell.0 >= a.tabs.len() ==> selected(a, sel, screen) is None,
{
}

/// Pressing, dragging and letting go copies what was dragged over: from the cell pressed
/// to the one let go over, in reading order. The selection stays, with that text.
pub proof fn a_drag_copies_what_it_passes_over(
    a: Ap,
    press: MouseEvent,
    drag: MouseEvent,
    release: MouseEvent,
    screen: Screen,
    other: Option<&Screen>,
    now: u64,
)
    requires
        app::app_wf(a),
        a.tabs.len() > 0,
        a.tabs.len() <= usize::MAX && a.tabs[a.active].shells.len() <= usize::MAX,
        !a.help && !a.swallow_release && a.confirm_quit is None,
        a.selection is None && a.last_click is None,
        press.kind == MouseKind::Down(MouseButton::Left),
        drag.kind == MouseKind::Drag(MouseButton::Left),
        release.kind == MouseKind::Up(MouseButton::Left),
        press.row < a.pty_rows && drag.row < a.pty_rows,
        a.sidebar_width <= press.column < a.sidebar_width + a.pty_cols,
        a.sidebar_width <= drag.column < a.sidebar_width + a.pty_cols,
        press.row < drag.row || (press.row == drag.row && press.column < drag.column),
        !(drag.modifiers.shift && drag.modifiers.control),
        a.copy_mode || screen::grid(screen).modes.mouse_mode == MouseMode::Off,
        screen::grid(screen).cols == a.pty_cols,
    ensures
        ({
            let b = moused(a, press, screen, other, now).0;
            let c = moused(b, drag, screen, other, now).0;
            let (d, _, did) = moused(c, release, screen, other, now);
            let copied = worth_copying(
                text::trim_end(
                    screen::between(
                        screen,
                        press.row,
                        (press.column - a.sidebar_width) as u16,
                        drag.row,
                        (drag.column - a.sidebar_width + 1) as u16,
                    ),
                ),
            );
            &&& did == match copied {
                Some(t) => Did::Copy(t),
                None => Did::Nothing,
            }
            &&& d.selection matches Some(s) && s.text == copied && !s.dragging
            &&& copied is Some ==> d.copied_at == Some(now)
            &&& d.tabs == a.tabs && d.active == a.active
        }),
{
    let b = moused(a, press, screen, other, now).0;
    let c = moused(b, drag, screen, other, now).0;
    let p = (press.row, (press.column - a.sidebar_width) as u16);
    let q = (drag.row, (drag.column - a.sidebar_width) as u16);
    assert(sidebar_event(a, press) is None);
    let sel = b.selection->Some_0;
    assert(sel.anchor == p && sel.dragging);
    let held = c.selection->Some_0;
    assert(held.anchor == p && held.head == q && !held.block);
    a_selection_reads_its_cells(c, Sel { dragging: false, ..held }, screen, p, q);
}

/// A press let go where it was copies nothing, and selects nothing.
pub proof fn a_click_selects_nothing(
    a: Ap,
    sel: Sel,
    release: MouseEvent,
    screen: Screen,
    other: Option<&Screen>,
    now: u64,
)
    requires
        !a.help && !a.swallow_release && a.confirm_quit is None,
        a.tabs.len() > 0,
        a.selection == Some(sel),
        sel.dragging,
        sel.anchor == sel.head,
        release.kind == MouseKind::Up(MouseButton::Left),
    ensures
        moused(a, release, screen, other, now) == (Ap { selection: None, ..a }, 0int, Did::Nothing),
{
}

/// Alt+A copies all that is on screen, from its first cell to its last.
pub proof fn selecting_all_copies_the_screen(a: Ap, key: KeyEvent, screen: Screen, now: u64)
    requires
        app::app_wf(a),
        a.tabs.len() > 0,
        a.tabs.len() <= usize::MAX && a.tabs[a.active].shells.len() <= usize::MAX,
        !a.help && a.confirm_quit is None,
        key.code == KeyCode::Char('a') || key.code == KeyCode::Char('A'),
        key.modifiers.alt && !key.modifiers.control,
        a.pty_rows > 0,
        a.pty_cols > 0,
    ensures
        ({
            let (b, did) = keyed(a, key, screen, now);
            let copied = worth_copying(
                text::trim_end(screen::between(screen, 0, 0, (a.pty_rows - 1) as u16, a.pty_cols)),
            );
            &&& did == match copied {
                Some(t) => Did::Copy(t),
                None => Did::Nothing,
            }
            &&& b.selection matches Some(s) && s.text == copied && s.anchor == (0u16, 0u16)
                && s.head == ((a.pty_rows - 1) as u16, (a.pty_cols - 1) as u16)
        }),
{
    a_selection_reads_its_cells(
        a,
        outright(a, (0, 0), last_cell(a)),
        screen,
        (0, 0),
        ((a.pty_rows - 1) as u16, (a.pty_cols - 1) as u16),
    );
}

/// A second click within four tenths of a second, on the same cell, copies the word under
/// it.
pub proof fn a_double_click_copies_the_word(
    a: Ap,
    m: MouseEvent,
    screen: Screen,
    at: u64,
    now: u64,
)
    requires
        app::app_wf(a),
        a.tabs.len() > 0,
        a.tabs.len() <= usize::MAX && a.tabs[a.active].shells.len() <= usize::MAX,
        m.kind == MouseKind::Down(MouseButton::Left),
        m.row < a.pty_rows,
        a.sidebar_width <= m.column < a.sidebar_width + a.pty_cols,
        a.copy_mode || screen::grid(screen).modes.mouse_mode == MouseMode::Off,
        screen::grid(screen).cols == a.pty_cols,
        a.last_click == Some((at, (m.row, (m.column - a.sidebar_width) as u16), 1u8)),
        at <= now < at + 400_000_000,
    ensures
        ({
            let (from, to) = selection::word_cols(
                screen::row_cells(screen, m.row, a.pty_cols),
                (m.column - a.sidebar_width) as u16,
            );
            let copied = worth_copying(
                text::trim_end(screen::between(screen, m.row, from, m.row, (to + 1) as u16)),
            );
            let (b, step, did) = pane_event(a, m, screen, now);
            &&& did == match copied {
                Some(t) => Did::Copy(t),
                None => Did::Nothing,
            }
            &&& b.selection matches Some(s) && s.text == copied
        }),
{
    let col = (m.column - a.sidebar_width) as u16;
    let cells = screen::row_cells(screen, m.row, a.pty_cols);
    let (from, to) = selection::word_cols(cells, col);
    selection::a_word_goes_as_far_as_it_can(cells, col);
    let b = Ap { last_click: Some((now, (m.row, col), 2u8)), ..a };
    a_selection_reads_its_cells(
        b,
        outright(b, (m.row, from), (m.row, to)),
        screen,
        (m.row, from),
        (m.row, to),
    );
}

/// Clicks far apart in time, or on different cells, are each the first.
pub proof fn clicks_apart_count_one(
    at: u64,
    was: (u16, u16),
    n: u8,
    cell: (u16, u16),
    now: u64,
)
    requires
        at <= now,
    ensures
        was != cell || now - at >= 400_000_000 ==> clicks(Some((at, was, n)), cell, now) == 1,
        clicks(None, cell, now) == 1,
        MULTI_CLICK == 400_000_000,
{
}

/// A selection is carried along with the text it covers: after the text moved, it covers
/// the same cells of the rows still in view, and no others.
pub proof fn a_scrolled_selection_keeps_its_cells(a: Ap, moved: int, row: u16, col: u16)
    requires
        a.selection matches Some(sel) && !sel.block && sel.anchor.0 < a.pty_rows && sel.head.0
            < a.pty_rows && sel.anchor.1 < a.pty_cols && sel.head.1 < a.pty_cols,
        row < a.pty_rows,
        col < a.pty_cols,
        0 <= row - moved <= 65535,
    ensures
        ({
            let sel = a.selection->Some_0;
            let was = selection::read_between(((row - moved) as u16, col), sel.anchor, sel.head);
            match slid(a, moved).selection {
                Some(after) => was == selection::read_between((row, col), after.anchor, after.head),
                None => !was,
            }
        }),
{
}

// ── what keys do ────────────────────────────────────────────────────────────

/// A key that is not held with Alt is the shell's, as a terminal sends it, unless the
/// search row has focus.
pub proof fn plain_keys_reach_the_shell(a: Ap, key: KeyEvent, screen: Screen, now: u64)
    requires
        a.confirm_quit is None,
        !a.help,
        a.tabs.len() > 0,
        !a.search_focus,
        !key.modifiers.alt,
    ensures
        keyed(a, key, screen, now).1 == match keys::key_bytes(
            key,
            screen::grid(screen).modes.app_cursor,
        ) {
            Some(bytes) => Did::Type(bytes),
            None => Did::Nothing,
        },
        keyed(a, key, screen, now).0 == (Ap {
            selection: if key.code == KeyCode::Esc || (key.modifiers.control && key.code
                == KeyCode::Char('c')) {
                None
            } else {
                a.selection
            },
            ..a
        }),
{
}

/// A key pressed with Alt alone.
pub open spec fn with_alt(code: KeyCode) -> KeyEvent {
    KeyEvent { code, modifiers: keys::Modifiers { shift: false, alt: true, control: false } }
}

/// Whether keys are for the console's tabs: no dialog is up, and there is one.
pub open spec fn listening(a: Ap) -> bool {
    a.confirm_quit is None && !a.help && a.tabs.len() > 0
}

/// Alt+1 to Alt+9 go to the first to the ninth tab of the filtered list, where there is
/// one, and change nothing else.
pub proof fn digits_go_to_the_tabs_shown(a: Ap, d: char, screen: Screen, now: u64)
    requires
        listening(a),
        '1' <= d <= '9',
    ensures
        ({
            let k = d as int - '1' as int;
            let (b, did) = keyed(a, with_alt(KeyCode::Char(d)), screen, now);
            &&& did == Did::Nothing
            &&& b == (Ap { active: b.active, ..a })
            &&& k < a.shown.len() ==> b.active == a.shown[k]
            &&& k >= a.shown.len() ==> b.active == a.active
        }),
{
}

/// Alt+Up undoes Alt+Down and the other way round, and each of them goes to another
/// shell of the tab where there is one.
pub proof fn shells_are_walked_round(a: Ap, screen: Screen, now: u64)
    requires
        listening(a),
        app::app_wf(a),
    ensures
        ({
            let down = keyed(a, with_alt(KeyCode::Down), screen, now).0;
            let up = keyed(a, with_alt(KeyCode::Up), screen, now).0;
            let t = a.tabs[a.active];
            &&& down.tabs[a.active].active == if t.active + 1 == t.shells.len() {
                0
            } else {
                t.active + 1
            }
            &&& down.active == a.active && up.active == a.active
            &&& down.tabs[a.active].shells == t.shells
            &&& keyed(down, with_alt(KeyCode::Up), screen, now).0 == a
            &&& keyed(up, with_alt(KeyCode::Down), screen, now).0 == a
        }),
{
    let down = keyed(a, with_alt(KeyCode::Down), screen, now).0;
    let up = keyed(a, with_alt(KeyCode::Up), screen, now).0;
    assert(tab_wf(a.tabs[a.active]));
    assert(keyed(down, with_alt(KeyCode::Up), screen, now).0.tabs =~= a.tabs);
    assert(keyed(up, with_alt(KeyCode::Down), screen, now).0.tabs =~= a.tabs);
}

/// Alt+PageDown goes to the next tab of the filtered list and Alt+PageUp to the one
/// before, round its ends; a tab that is not in the list goes as its first one would.
pub proof fn tabs_are_walked_round(a: Ap, k: int, screen: Screen, now: u64)
    requires
        listening(a),
        0 <= k < a.shown.len(),
        a.shown[k] == a.active,
        forall|j: int| 0 <= j < k ==> (#[trigger] a.shown[j]) != a.active,
    ensures
        ({
            let (next, did) = keyed(a, with_alt(KeyCode::PageDown), screen, now);
            let (last, done) = keyed(a, with_alt(KeyCode::PageUp), screen, now);
            let n = a.shown.len() as int;
            &&& did == Did::Nothing && done == Did::Nothing
            &&& next == (Ap { active: a.shown[if k + 1 < n { k + 1 } else { 0 }] as int, ..a })
            &&& last == (Ap { active: a.shown[if k > 0 { k - 1 } else { n - 1 }] as int, ..a })
        }),
{
    app::lemma_position_first(a.shown, a.active, 0, k);
}

/// Alt+C turns copy mode over, and again; each time the selection goes, and the session
/// is saved where that makes a difference.
pub proof fn copy_mode_is_turned_over(a: Ap, screen: Screen, now: u64)
    requires
        listening(a),
    ensures
        ({
            let (b, did) = keyed(a, with_alt(KeyCode::Char('c')), screen, now);
            &&& b.copy_mode == !a.copy_mode
            &&& b.selection is None
            &&& b.tabs == a.tabs && b.active == a.active && b.search == a.search
            &&& did is Save || did is Nothing
            &&& b.saved_session == a.saved_session <==> did is Nothing
            &&& b.saved_session.copy_mode == b.copy_mode
            &&& keyed(b, with_alt(KeyCode::Char('c')), screen, now).0.copy_mode == a.copy_mode
        }),
{
}

/// The other chords ask for what they are for, and change nothing by themselves: a new
/// tab, a new shell in the tab, the shell closed, its command replayed.
pub proof fn chords_ask_for_what_they_are_for(a: Ap, screen: Screen, now: u64)
    requires
        listening(a),
    ensures
        keyed(a, with_alt(KeyCode::Char('t')), screen, now) == (a, Did::OpenTab),
        keyed(a, with_alt(KeyCode::Char('n')), screen, now) == (a, Did::OpenTab),
        keyed(a, with_alt(KeyCode::Char('s')), screen, now) == (a, Did::OpenSubshell),
        keyed(a, with_alt(KeyCode::Char('w')), screen, now) == (a, Did::Close),
        keyed(a, with_alt(KeyCode::Char('r')), screen, now) == (a, Did::Replay),
        keyed(a, with_alt(KeyCode::Char('f')), screen, now) == (
            Ap { search_focus: true, ..a },
            Did::Nothing,
        ),
        keyed(a, with_alt(KeyCode::Char('h')), screen, now) == (Ap { help: true, ..a }, Did::Nothing),
        keyed(a, with_alt(KeyCode::Char('?')), screen, now) == (Ap { help: true, ..a }, Did::Nothing),
        keyed(a, with_alt(KeyCode::Char('q')), screen, now) == (
            Ap { confirm_quit: Some(false), ..a },
            Did::Nothing,
        ),
        keyed(a, with_alt(KeyCode::Char('F')), screen, now) == (app::favorite_toggled(a), Did::Nothing),
{
}

/// The capitals of these are the same chords; F alone is another.
pub proof fn capitals_are_the_same_chords(a: Ap, screen: Screen, now: u64)
    requires
        listening(a),
    ensures
        keyed(a, with_alt(KeyCode::Char('C')), screen, now) == keyed(
            a,
            with_alt(KeyCode::Char('c')),
            screen,
            now,
        ),
        keyed(a, with_alt(KeyCode::Char('H')), screen, now) == keyed(
            a,
            with_alt(KeyCode::Char('h')),
            screen,
            now,
        ),
        keyed(a, with_alt(KeyCode::Char('Q')), screen, now) == keyed(
            a,
            with_alt(KeyCode::Char('q')),
            screen,
            now,
        ),
        keyed(a, with_alt(KeyCode::Char('T')), screen, now) == keyed(
            a,
            with_alt(KeyCode::Char('t')),
            screen,
            now,
        ),
        keyed(a, with_alt(KeyCode::Char('N')), screen, now) == keyed(
            a,
            with_alt(KeyCode::Char('n')),
            screen,
            now,
        ),
        keyed(a, with_alt(KeyCode::Char('W')), screen, now) == keyed(
            a,
            with_alt(KeyCode::Char('w')),
            screen,
            now,
        ),
        keyed(a, with_alt(KeyCode::Char('S')), screen, now) == keyed(
            a,
            with_alt(KeyCode::Char('s')),
            screen,
            now,
        ),
        keyed(a, with_alt(KeyCode::Char('R')), screen, now) == keyed(
            a,
            with_alt(KeyCode::Char('r')),
            screen,
            now,
        ),
{
}

/// A key pressed without anything held.
pub open spec fn alone(code: KeyCode) -> KeyEvent {
    KeyEvent { code, modifiers: keys::Modifiers { shift: false, alt: false, control: false } }
}

/// While the search row has focus what is typed is searched for, Backspace takes it
/// back, and the list is filtered by it at once; Esc and Enter leave the row and keep
/// the filter.
pub proof fn typing_searches(a: Ap, c: char, screen: Screen, now: u64)
    requires
        listening(a),
        a.search_focus,
    ensures
        ({
            let (b, did) = keyed(a, alone(KeyCode::Char(c)), screen, now);
            let (back, _) = keyed(b, alone(KeyCode::Backspace), screen, now);
            &&& did == Did::Nothing
            &&& b.search == a.search.push(c)
            &&& b.shown == app::passing(
                a.tabs,
                app::lowercase(a.search.push(c)),
                a.tabs.len() as int,
            )
            &&& b == (Ap { search: b.search, shown: b.shown, ..a })
            &&& back.search == a.search
            &&& back.shown == app::passing(a.tabs, app::lowercase(a.search), a.tabs.len() as int)
            &&& back.search_focus
        }),
        keyed(a, alone(KeyCode::Esc), screen, now) == (Ap { search_focus: false, ..a }, Did::Nothing),
        keyed(a, alone(KeyCode::Enter), screen, now) == (
            Ap { search_focus: false, ..a },
            Did::Nothing,
        ),
{
    assert(a.search.push(c).drop_last() =~= a.search);
}

/// The quit dialog goes to and fro between its two answers with Tab and the arrows; Enter
/// gives the answer chosen, and Esc gives none: only yes quits, and each closes the dialog.
pub proof fn the_quit_dialog_is_answered(a: Ap, yes: bool, screen: Screen, now: u64)
    requires
        a.confirm_quit == Some(yes),
    ensures
        keyed(a, alone(KeyCode::Left), screen, now).0 == (Ap { confirm_quit: Some(!yes), ..a }),
        keyed(a, alone(KeyCode::Right), screen, now).0 == (Ap { confirm_quit: Some(!yes), ..a }),
        keyed(a, alone(KeyCode::Up), screen, now).0 == (Ap { confirm_quit: Some(!yes), ..a }),
        keyed(a, alone(KeyCode::Down), screen, now).0 == (Ap { confirm_quit: Some(!yes), ..a }),
        keyed(a, alone(KeyCode::Tab), screen, now).0 == (Ap { confirm_quit: Some(!yes), ..a }),
        keyed(a, alone(KeyCode::Enter), screen, now).0 == (Ap {
            confirm_quit: None,
            quit: yes,
            ..a
        }),
        keyed(a, alone(KeyCode::Esc), screen, now).0 == (Ap { confirm_quit: None, ..a }),
{
}

// ── what the mouse does ─────────────────────────────────────────────────────

/// The wheel over a pane whose application did not ask for the mouse scrolls it by three
/// rows, up or down; over the sidebar it scrolls the list.
pub proof fn the_wheel_scrolls(a: Ap, m: MouseEvent, screen: Screen, now: u64)
    requires
        m.kind == MouseKind::ScrollUp || m.kind == MouseKind::ScrollDown,
    ensures
        m.column < a.sidebar_width ==> beyond(a, m, screen, now) == (
            app::list_scrolled(a, m.kind == MouseKind::ScrollDown),
            0int,
            Did::Nothing,
        ),
        m.column >= a.sidebar_width && m.row < a.pty_rows && screen::grid(
            screen,
        ).modes.mouse_mode == MouseMode::Off ==> beyond(a, m, screen, now).1 == if m.kind
            == MouseKind::ScrollUp {
            3int
        } else {
            -3
        } && beyond(a, m, screen, now).2 == Did::Nothing,
{
}

/// Dragging the sidebar's edge puts it under the mouse, as far as the sidebar and the
/// pane keep room enough.
pub proof fn the_edge_follows_the_mouse(a: Ap, m: MouseEvent, screen: Screen, now: u64)
    requires
        a.dragging_sidebar,
        m.kind == MouseKind::Drag(MouseButton::Left),
        a.term_width >= 18,
    ensures
        ({
            let (b, _, did) = beyond(a, m, screen, now);
            &&& did == Did::Nothing
            &&& 8 <= b.sidebar_width <= a.term_width - 10
            &&& 8 <= m.column + 1 <= a.term_width - 10 ==> b.sidebar_width == m.column + 1
            &&& m.column + 1 < 8 ==> b.sidebar_width == 8
            &&& m.column + 1 > a.term_width - 10 ==> b.sidebar_width == a.term_width - 10
            &&& b == (Ap { sidebar_width: b.sidebar_width, ..a })
        }),
{
}

/// A press on the edge, or beside it, takes hold of it; letting go lets it go.
pub proof fn the_edge_is_taken_hold_of(a: Ap, m: MouseEvent, up: MouseEvent, screen: Screen, now: u64)
    requires
        a.sidebar_width >= 2,
        m.kind == MouseKind::Down(MouseButton::Left),
        m.column + 1 == a.sidebar_width || m.column + 2 == a.sidebar_width,
        app::auto_hit(a, m.row, m.column) is None,
        up.kind == MouseKind::Up(MouseButton::Left),
    ensures
        beyond(a, m, screen, now) == (Ap { dragging_sidebar: true, ..a }, 0int, Did::Nothing),
        beyond(Ap { dragging_sidebar: true, ..a }, up, screen, now) == (
            Ap { dragging_sidebar: false, ..a },
            0int,
            Did::Nothing,
        ),
{
}

/// A press on a tab's row in the sidebar goes to the tab, and to the shell whose row it
/// is, and takes hold of the tab; no other tab is touched.
pub proof fn a_press_goes_to_the_tab(a: Ap, m: MouseEvent)
    requires
        app::app_wf(a),
        a.list_offset >= 0,
        app::auto_hit(Ap { selection: None, ..a }, m.row, m.column) is None,
        app::replay_hit(Ap { selection: None, ..a }, m.row, m.column) is None,
        m.row != 1,
        app::hit_at(Ap { selection: None, ..a }, m.row) is Some,
    ensures
        ({
            let (i, k, _) = app::hit_at(Ap { selection: None, ..a }, m.row)->Some_0;
            let (b, did) = sidebar_pressed(a, m);
            &&& did == Did::Nothing
            &&& b.active == i && b.tabs[i].active == k
            &&& b.dragging_tab == Some(i as usize)
            &&& !b.search_focus && b.selection is None
            &&& b.tabs.len() == a.tabs.len()
            &&& b.tabs[i].shells == a.tabs[i].shells && b.tabs[i].favorite == a.tabs[i].favorite
                && b.tabs[i].auto == a.tabs[i].auto
            &&& forall|j: int| 0 <= j < a.tabs.len() && j != i ==> b.tabs[j] == a.tabs[j]
        }),
{
    app::hits_are_there(Ap { selection: None, ..a }, m.row);
}

/// A press on the search row puts what is typed there.
pub proof fn a_press_on_the_search_row_searches(a: Ap, m: MouseEvent)
    requires
        m.row == 1,
    ensures
        sidebar_pressed(a, m) == (Ap { search_focus: true, selection: None, ..a }, Did::Nothing),
{
}

/// Dragging a tab onto another's row puts it there and keeps it the active one; the
/// others stay in order.
pub proof fn a_dragged_tab_takes_the_place(a: Ap, from: usize, row: u16)
    requires
        app::app_wf(a),
        a.list_offset >= 0,
        from < a.tabs.len() <= usize::MAX,
        app::hit_at(a, row) is Some,
    ensures
        ({
            let to = app::hit_at(a, row)->Some_0.0;
            let b = tab_dragged(a, from, row);
            &&& to == from ==> b == a
            &&& to != from ==> {
                &&& b.tabs.len() == a.tabs.len()
                &&& b.tabs[to] == a.tabs[from as int]
                &&& b.tabs.remove(to) == a.tabs.remove(from as int)
                &&& b.active == to
                &&& b.dragging_tab == Some(to as usize)
            }
        }),
{
    app::hits_are_there(a, row);
    let to = app::hit_at(a, row)->Some_0.0;
    let b = tab_dragged(a, from, row);
    if to != from {
        assert(b.tabs.remove(to) =~= a.tabs.remove(from as int));
    }
}

// ── what is typed ───────────────────────────────────────────────────────────

/// What is pasted is typed into the shell in one piece, between the markers of a paste
/// where the application asked for them; not while the quit dialog is up.
pub proof fn a_paste_is_typed_in_one_piece(a: Ap, s: Seq<char>, screen: Screen)
    ensures
        a.tabs.len() == 0 || a.confirm_quit is Some ==> pasted_in(a, s, screen) == Did::Nothing,
        a.tabs.len() > 0 && a.confirm_quit is None ==> pasted_in(a, s, screen) == Did::Type(
            shell::keystrokes(
                labels::pasted(s),
                screen::grid(screen).modes.bracketed_paste,
            )[0]->Bytes_0,
        ),
{
    shell::a_text_is_submitted_as_by_hand(
        labels::pasted(s),
        screen::grid(screen).modes.bracketed_paste,
    );
}

/// Typing into the shell on screen is noted there and nowhere else: when it was typed,
/// and what of a command it is. Where the view was scrolled, it goes back to the end and
/// the selection goes.
pub proof fn typing_is_noted_on_screen(
    a: Ap,
    bytes: Seq<u8>,
    at_prompt: bool,
    before: Screen,
    after: Screen,
    now: u64,
)
    requires
        app::app_wf(a),
        a.tabs.len() > 0,
    ensures
        ({
            let b = written(a, bytes, at_prompt, before, after, now);
            let t = a.tabs[a.active];
            let s = t.shells[t.active];
            &&& b.tabs[a.active].shells[t.active] == shell::noted(
                Sh { last_input: now, ..s },
                bytes,
                at_prompt,
                after,
            )
            &&& b.tabs[a.active].shells[t.active].last_input == now
            &&& b.tabs.len() == a.tabs.len() && b.active == a.active
            &&& forall|i: int| 0 <= i < a.tabs.len() && i != a.active ==> b.tabs[i] == a.tabs[i]
            &&& forall|k: int|
                0 <= k < t.shells.len() && k != t.active ==> b.tabs[a.active].shells[k]
                    == t.shells[k]
            &&& b.selection == if screen::grid(before).offset == 0 {
                a.selection
            } else {
                None
            }
        }),
{
    assert(tab_wf(a.tabs[a.active]));
}

/// A third click copies the line: all the rows it runs over, from edge to edge.
pub proof fn a_triple_click_copies_the_line(
    a: Ap,
    m: MouseEvent,
    screen: Screen,
    at: u64,
    now: u64,
)
    requires
        app::app_wf(a),
        a.tabs.len() > 0,
        a.tabs.len() <= usize::MAX && a.tabs[a.active].shells.len() <= usize::MAX,
        m.kind == MouseKind::Down(MouseButton::Left),
        m.row < a.pty_rows,
        a.sidebar_width <= m.column < a.sidebar_width + a.pty_cols,
        a.copy_mode || screen::grid(screen).modes.mouse_mode == MouseMode::Off,
        screen::in_view(screen::grid(screen)).len() == a.pty_rows,
        a.last_click == Some((at, (m.row, (m.column - a.sidebar_width) as u16), 2u8)),
        at <= now < at + 400_000_000,
    ensures
        ({
            let (from, to) = screen::line_rows(screen, m.row, a.pty_rows);
            let copied = worth_copying(
                text::trim_end(screen::between(screen, from, 0, to, a.pty_cols)),
            );
            let (b, step, did) = pane_event(a, m, screen, now);
            &&& did == match copied {
                Some(t) => Did::Copy(t),
                None => Did::Nothing,
            }
            &&& b.selection matches Some(s) && s.text == copied
        }),
{
    let col = (m.column - a.sidebar_width) as u16;
    screen::a_line_goes_as_far_as_rows_run_on(screen, m.row, a.pty_rows);
    let (from, to) = screen::line_rows(screen, m.row, a.pty_rows);
    let b = Ap { last_click: Some((now, (m.row, col), 3u8)), ..a };
    a_selection_reads_its_cells(
        b,
        outright(b, (from, 0), (to, last_cell(a).1)),
        screen,
        (from, 0),
        (to, (a.pty_cols - 1) as u16),
    );
}

/// With Shift or Alt held the left button selects even over an application that asked
/// for the mouse; with Shift and Ctrl it selects a block.
pub proof fn a_held_key_keeps_the_button(a: Ap, m: MouseEvent, screen: Screen, now: u64)
    requires
        m.kind == MouseKind::Down(MouseButton::Left),
        m.row < a.pty_rows,
        a.sidebar_width <= m.column,
        m.modifiers.shift || m.modifiers.alt,
        a.last_click is None,
    ensures
        ({
            let (b, step, did) = pane_event(a, m, screen, now);
            &&& did == Did::Nothing && step == 0
            &&& b.selection matches Some(s) && s.dragging && s.anchor == (
                m.row,
                (m.column - a.sidebar_width) as u16,
            ) && s.head == s.anchor && s.text is None && s.block == (m.modifiers.shift
                && m.modifiers.control)
        }),
{
}

/// A drag takes the end of the selection along, as a block while Shift and Ctrl are held.
pub proof fn a_drag_takes_the_end_along(
    a: Ap,
    sel: Sel,
    m: MouseEvent,
    screen: Screen,
    other: Option<&Screen>,
    now: u64,
)
    requires
        !a.help && !a.swallow_release && a.confirm_quit is None,
        a.tabs.len() > 0,
        a.selection == Some(sel),
        sel.dragging,
        m.kind == MouseKind::Drag(MouseButton::Left),
        a.pty_rows > 0 && a.pty_cols > 0,
    ensures
        ({
            let (b, step, did) = moused(a, m, screen, other, now);
            let s = b.selection->Some_0;
            &&& did == Did::Nothing && step == 0
            &&& b.selection is Some && s.anchor == sel.anchor && s.dragging && s.shell == sel.shell
            &&& s.block == (m.modifiers.shift && m.modifiers.control)
            &&& s.head.0 == if m.row < a.pty_rows {
                m.row as int
            } else {
                a.pty_rows - 1
            }
            &&& s.head.1 == if m.column < a.sidebar_width {
                0
            } else if m.column - a.sidebar_width < a.pty_cols {
                m.column - a.sidebar_width
            } else {
                a.pty_cols - 1
            }
        }),
{
}

/// A selection let go of after its shell left the screen is copied from that shell's own
/// screen; where there is none any more, what it had as text is.
pub proof fn a_selection_is_copied_from_its_own_screen(
    a: Ap,
    sel: Sel,
    m: MouseEvent,
    screen: Screen,
    other: Screen,
    now: u64,
)
    requires
        !a.help && !a.swallow_release && a.confirm_quit is None,
        a.tabs.len() > 0,
        a.selection == Some(sel),
        sel.dragging,
        sel.anchor != sel.head,
        m.kind == MouseKind::Up(MouseButton::Left),
        app::on_screen(a) != Some((sel.shell.0 as int, sel.shell.1 as int)),
    ensures
        moused(a, m, screen, Some(&other), now).2 == match selected(
            a,
            Sel { dragging: false, ..sel },
            other,
        ) {
            Some(t) => Did::Copy(t),
            None => Did::Nothing,
        },
        sel.text is None ==> moused(a, m, screen, None, now).2 == Did::Nothing,
        sel.text matches Some(t) ==> (t.len() > 0 ==> moused(a, m, screen, None, now).2 == Did::Copy(
            t,
        )),
{
}

/// A press on the copy button turns copy mode over, whatever is under the rest of the
/// footer.
pub proof fn the_copy_button_turns_copy_mode_over(
    a: Ap,
    m: MouseEvent,
    screen: Screen,
    other: Option<&Screen>,
    now: u64,
)
    requires
        !a.help && !a.swallow_release && a.confirm_quit is None,
        a.tabs.len() > 0,
        m.kind == MouseKind::Down(MouseButton::Left),
        m.row == a.pty_rows,
        labels::copy_button(a.term_width) matches Some((from, to)) && from <= m.column < to,
    ensures
        ({
            let (b, step, did) = moused(a, m, screen, other, now);
            &&& b.copy_mode == !a.copy_mode
            &&& b.selection is None
            &&& b.tabs == a.tabs
            &&& did is Save || did is Nothing
        }),
{
}

/// A press on a tab's auto button turns its auto feature over; a press on a command asks
/// for it to be replayed, in the shell it is of.
pub proof fn buttons_in_the_sidebar_do_what_they_say(a: Ap, m: MouseEvent, i: int, k: int)
    requires
        app::app_wf(a),
        a.list_offset >= 0,
        0 <= i < a.tabs.len(),
    ensures
        app::auto_hit(Ap { selection: None, ..a }, m.row, m.column) == Some(i) ==> ({
            let (b, did) = sidebar_pressed(a, m);
            &&& b.tabs == a.tabs.update(i, Tb { auto: !a.tabs[i].auto, ..a.tabs[i] })
            &&& b.active == a.active
            &&& did is Save || did is Nothing
        }),
        app::auto_hit(Ap { selection: None, ..a }, m.row, m.column) is None && app::replay_hit(
            Ap { selection: None, ..a },
            m.row,
            m.column,
        ) == Some((i, k)) ==> ({
            let (b, did) = sidebar_pressed(a, m);
            &&& did == Did::Replay
            &&& b.active == i && b.tabs[i].active == k && !b.search_focus
        }),
{
}

/// A tab taken hold of is let go of with the button, and stays where it was put.
pub proof fn a_dragged_tab_is_let_go(a: Ap, m: MouseEvent, screen: Screen, now: u64)
    requires
        a.dragging_tab is Some,
        !a.dragging_sidebar,
        m.kind == MouseKind::Up(MouseButton::Left),
    ensures
        beyond(a, m, screen, now) == (Ap { dragging_tab: None, ..a }, 0int, Did::Nothing),
{
}

/// Every event is taken by what it is for: keys, the mouse and pastes; anything else, and
/// a key let go of, changes nothing but for a selection gone stale.
pub proof fn other_events_change_nothing(
    a: Ap,
    key: KeyEvent,
    screen: Screen,
    other: Option<&Screen>,
    now: u64,
)
    ensures
        handled(a, Input::Release(key), screen, other, now) == (app::unstale(a), 0int, Did::Nothing),
        handled(a, Input::Other, screen, other, now) == (app::unstale(a), 0int, Did::Nothing),
        handled(a, Input::Press(key), screen, other, now).2 == keyed(a, key, screen, now).1,
{
}

/// While the cheat sheet is up, anything but a press of the mouse leaves it up.
pub proof fn only_a_press_closes_the_cheat_sheet(
    a: Ap,
    m: MouseEvent,
    screen: Screen,
    other: Option<&Screen>,
    now: u64,
)
    requires
        a.help,
        !(m.kind is Down),
    ensures
        moused(a, m, screen, other, now).0.help,
        moused(a, m, screen, other, now).0.tabs == a.tabs,
        moused(a, m, screen, other, now).2 == Did::Nothing,
{
}

/// Without tabs neither a key nor the mouse does anything, but for the dialogs.
pub proof fn without_tabs_nothing_is_done(
    a: Ap,
    key: KeyEvent,
    m: MouseEvent,
    screen: Screen,
    other: Option<&Screen>,
    now: u64,
)
    requires
        a.tabs.len() == 0,
        !a.help && a.confirm_quit is None && !a.swallow_release,
    ensures
        keyed(a, key, screen, now) == (a, Did::Nothing),
        moused(a, m, screen, other, now) == (a, 0int, Did::Nothing),
{
}

/// Beside the pane the mouse does nothing to it; a press beside the tabs of the sidebar
/// takes the selection away, and nothing else.
pub proof fn beside_the_pane_nothing_is_done(a: Ap, m: MouseEvent, screen: Screen, now: u64)
    ensures
        m.column < a.sidebar_width || m.row >= a.pty_rows ==> pane_event(a, m, screen, now) == (
            a,
            0int,
            Did::Nothing,
        ),
        m.row != 1 && app::auto_hit(Ap { selection: None, ..a }, m.row, m.column) is None
            && app::hit_at(Ap { selection: None, ..a }, m.row) is None ==> sidebar_pressed(a, m) == (
            Ap { selection: None, ..a },
            Did::Nothing,
        ),
{
}

/// The middle button pastes where the console has the buttons.
pub proof fn the_middle_button_pastes(a: Ap, m: MouseEvent, screen: Screen, now: u64)
    requires
        m.kind == MouseKind::Down(MouseButton::Middle),
        m.row < a.pty_rows,
        a.sidebar_width <= m.column,
        a.copy_mode || m.modifiers.alt || m.modifiers.shift || screen::grid(
            screen,
        ).modes.mouse_mode == MouseMode::Off,
    ensures
        pane_event(a, m, screen, now) == (a, 0int, Did::Paste),
{
}

/// A character pressed with Alt that is no chord of the console's is the shell's, behind
/// an escape, unless the search row takes it.
pub proof fn other_chords_reach_the_shell(a: Ap, c: char, screen: Screen, now: u64)
    requires
        listening(a),
        c == 'b' || c == 'd' || c == 'e' || c == 'g' || c == 'i' || c == 'j' || c == 'k' || c == 'l'
            || c == 'm' || c == 'o' || c == 'p' || c == 'u' || c == 'v' || c == 'x' || c == 'y' || c
            == 'z' || c == '0' || c == '.' || c == ' ',
    ensures
        keyed(a, with_alt(KeyCode::Char(c)), screen, now) == (
            a,
            Did::Type(seq![27u8] + vstd::utf8::encode_utf8(seq![c])),
        ),
{
}

/// A click is remembered with its cell and its place in the chain; a drag breaks the
/// chain.
pub proof fn clicks_are_remembered_until_a_drag(
    a: Ap,
    sel: Sel,
    m: MouseEvent,
    screen: Screen,
    now: u64,
)
    requires
        m.kind == MouseKind::Down(MouseButton::Left),
        m.row < a.pty_rows,
        a.sidebar_width <= m.column,
        a.copy_mode,
    ensures
        ({
            let cell = (m.row, (m.column - a.sidebar_width) as u16);
            pane_event(a, m, screen, now).0.last_click == Some(
                (now, cell, clicks(a.last_click, cell, now)),
            )
        }),
        dragged(a, sel, m).last_click is None,
{
}

/// After tabs were put in another order the list names them by their new places.
pub proof fn the_list_follows_the_order(a: Ap, from: usize, row: u16)
    requires
        app::app_wf(a),
        a.list_offset >= 0,
        from < a.tabs.len(),
        app::hit_at(a, row) matches Some((to, _, _)) && to != from,
    ensures
        ({
            let b = tab_dragged(a, from, row);
            b.shown == app::passing(b.tabs, app::lowercase(a.search), b.tabs.len() as int)
        }),
{
}

} // verus!
