//! The whole console: its tabs, which of them is active, how the sidebar is
//! scrolled and filtered, what is selected, and what is saved of it.

use vstd::prelude::*;
use crate::labels;
use crate::session;
use crate::session::{save_session, Saved, SavedShell, SavedTab, Session, ShellState, TabState};
use crate::shell::{Sh, Shell};
use crate::stamp::stale;
use crate::tab;
use crate::tab::{auto_button, replay_span, tab_wf, turn, Tab, Tb};
use crate::text;
use crate::text::{chars, contains, copy, copy_opt};

verus! {

pub const SIDEBAR_WIDTH: u16 = 26;

pub const MIN_SIDEBAR_WIDTH: u16 = 8;

pub const MIN_PANE_WIDTH: u16 = 10;

/// One frame, in nanoseconds: the app draws at most this often.
pub const POLL_INTERVAL: u64 = 30_000_000;

/// The session is saved this often, in nanoseconds, besides on every choice that is
/// saved at once.
pub const PERSIST_EVERY: u64 = 1_000_000_000;

/// Shells sampled per frame are spread over this many frames.
pub const SAMPLE_FRAMES: u128 = 16;

/// A live text selection in the terminal pane. Coordinates are (row, column) cells
/// of the pane; `shell` binds the selection to the tab and shell it was made in, so
/// it is only drawn (and copied) while that shell is on screen.
#[derive(Debug)]
pub struct Selection {
    pub shell: (usize, usize),
    pub anchor: (u16, u16),
    pub head: (u16, u16),
    /// True while the left button is held — a drag extends `head`; release copies.
    pub dragging: bool,
    /// Rectangular: every cell between `anchor` and `head`, not reading-order rows.
    pub block: bool,
    /// The copied text, taken the moment the selection was finalized, so the copy is
    /// exactly the highlight whatever the application does afterwards. `None` while
    /// still dragging.
    pub text: Option<String>,
}

/// What a `Selection` stands for.
#[verifier::ext_equal]
pub struct Sel {
    pub shell: (usize, usize),
    pub anchor: (u16, u16),
    pub head: (u16, u16),
    pub dragging: bool,
    pub block: bool,
    pub text: Option<Seq<char>>,
}

impl View for Selection {
    type V = Sel;

    open spec fn view(&self) -> Sel {
        Sel {
            shell: self.shell,
            anchor: self.anchor,
            head: self.head,
            dragging: self.dragging,
            block: self.block,
            text: text::opt(self.text),
        }
    }
}

impl Selection {
    /// A copy of this selection.
    pub fn copy(&self) -> (s: Selection)
        ensures
            s@ == self@,
    {
        Selection {
            shell: self.shell,
            anchor: self.anchor,
            head: self.head,
            dragging: self.dragging,
            block: self.block,
            text: copy_opt(&self.text),
        }
    }
}

/// What an optional selection stands for.
pub open spec fn opt_sel(s: Option<Selection>) -> Option<Sel> {
    match s {
        Some(s) => Some(s@),
        None => None,
    }
}

/// The console.
pub struct App {
    pub tabs: Vec<Tab>,
    pub active: usize,
    pub pty_rows: u16,
    pub pty_cols: u16,
    pub term_width: u16,
    pub sidebar_width: u16,
    pub dragging_sidebar: bool,
    /// Tab currently being dragged to a new position in the sidebar.
    pub dragging_tab: Option<usize>,
    /// First of the shown tabs that is in view.
    pub list_offset: usize,
    /// Sidebar height in rows.
    pub sidebar_rows: u16,
    /// Active tab last revealed into view.
    pub shown_active: usize,
    /// Folder the app was started from: the fallback for new shells.
    pub base: String,
    /// Last session saved.
    pub saved_session: Session,
    /// Last attempt to save it.
    pub persisted: u64,
    /// Branch of the folder on screen, that folder, and when it was read.
    pub branch: Option<String>,
    pub branch_cwd: Option<String>,
    pub branch_sampled: u64,
    /// Sidebar search text: filters the tab list as it is typed.
    pub search: String,
    pub search_focus: bool,
    /// Tab indices passing the search filter, in order.
    pub shown: Vec<usize>,
    /// Rolling cursor into the flat shell list for staggered sampling.
    pub proc_cursor: u128,
    /// When it was last looked for shells that have exited.
    pub reaped: u64,
    pub selection: Option<Selection>,
    /// Copy mode: the console owns the pane's left button, so a plain drag selects
    /// text even over an application that grabbed the mouse.
    pub copy_mode: bool,
    /// Time and cell of the last pane click, with its position in a double- or
    /// triple-click chain.
    pub last_click: Option<(u64, (u16, u16), u8)>,
    /// A mouse press was consumed: the drag and release that belong to it are
    /// dropped too.
    pub swallow_release: bool,
    /// When the last copy landed.
    pub copied_at: Option<u64>,
    /// Rolling cursor into the rotation of agent probes.
    pub agent_cursor: usize,
    /// When the last frame was drawn.
    pub drawn: u64,
    pub quit: bool,
    /// Quit dialog: `None` when closed, `Some(yes)` when open.
    pub confirm_quit: Option<bool>,
    /// The cheat sheet is up.
    pub help: bool,
}

/// What an `App` stands for.
#[verifier::ext_equal]
pub struct Ap {
    pub tabs: Seq<Tb>,
    pub active: int,
    pub pty_rows: u16,
    pub pty_cols: u16,
    pub term_width: u16,
    pub sidebar_width: u16,
    pub dragging_sidebar: bool,
    pub dragging_tab: Option<usize>,
    pub list_offset: int,
    pub sidebar_rows: u16,
    pub shown_active: int,
    pub base: Seq<char>,
    pub saved_session: Saved,
    pub persisted: u64,
    pub branch: Option<Seq<char>>,
    pub branch_cwd: Option<Seq<char>>,
    pub branch_sampled: u64,
    pub search: Seq<char>,
    pub search_focus: bool,
    pub shown: Seq<usize>,
    pub proc_cursor: int,
    pub reaped: u64,
    pub selection: Option<Sel>,
    pub copy_mode: bool,
    pub last_click: Option<(u64, (u16, u16), u8)>,
    pub swallow_release: bool,
    pub copied_at: Option<u64>,
    pub agent_cursor: usize,
    pub drawn: u64,
    pub quit: bool,
    pub confirm_quit: Option<bool>,
    pub help: bool,
}

/// What a list of tabs stands for.
pub open spec fn tabs_of(v: Seq<Tab>) -> Seq<Tb> {
    v.map_values(|t: Tab| t@)
}

impl View for App {
    type V = Ap;

    open spec fn view(&self) -> Ap {
        Ap {
            tabs: tabs_of(self.tabs@),
            active: self.active as int,
            pty_rows: self.pty_rows,
            pty_cols: self.pty_cols,
            term_width: self.term_width,
            sidebar_width: self.sidebar_width,
            dragging_sidebar: self.dragging_sidebar,
            dragging_tab: self.dragging_tab,
            list_offset: self.list_offset as int,
            sidebar_rows: self.sidebar_rows,
            shown_active: self.shown_active as int,
            base: self.base@,
            saved_session: self.saved_session@,
            persisted: self.persisted,
            branch: text::opt(self.branch),
            branch_cwd: text::opt(self.branch_cwd),
            branch_sampled: self.branch_sampled,
            search: self.search@,
            search_focus: self.search_focus,
            shown: self.shown@,
            proc_cursor: self.proc_cursor as int,
            reaped: self.reaped,
            selection: opt_sel(self.selection),
            copy_mode: self.copy_mode,
            last_click: self.last_click,
            swallow_release: self.swallow_release,
            copied_at: self.copied_at,
            agent_cursor: self.agent_cursor,
            drawn: self.drawn,
            quit: self.quit,
            confirm_quit: self.confirm_quit,
            help: self.help,
        }
    }
}

/// The console's invariant: every tab has an active shell, there is an active tab
/// while there is any, the filtered list names tabs that are there, and the sidebar
/// is never dragged shut.
pub open spec fn app_wf(a: Ap) -> bool {
    &&& forall|i: int| 0 <= i < a.tabs.len() ==> tab_wf(#[trigger] a.tabs[i])
    &&& 0 <= a.active
    &&& a.active < a.tabs.len() || (a.active == 0 && a.tabs.len() == 0)
    &&& names_tabs(a.shown, a.tabs.len() as int)
    &&& a.sidebar_width >= MIN_SIDEBAR_WIDTH
}

/// Whether every index in `shown` is one of `n` tabs.
pub open spec fn names_tabs(shown: Seq<usize>, n: int) -> bool {
    forall|k: int| 0 <= k < shown.len() ==> (#[trigger] shown[k]) < n
}

/// The tab and shell on screen.
pub open spec fn on_screen(a: Ap) -> Option<(int, int)> {
    if 0 <= a.active < a.tabs.len() {
        Some((a.active, a.tabs[a.active].active))
    } else {
        None
    }
}

// ── the filtered list ───────────────────────────────────────────────────────

/// The text `str::to_lowercase` makes of a text.
pub uninterp spec fn lowercase(s: Seq<char>) -> Seq<char>;

/// `str::to_lowercase`: the lower case of a text, a function of the text; that of no
/// text is none.
#[verifier::external_body]
fn to_lowercase(s: &str) -> (t: String)
    ensures
        t@ == lowercase(s@),
        s@.len() == 0 ==> t@.len() == 0,
{
    s.to_lowercase()
}

/// Whether a tab passes the filter `needle`: its folder contains it, in lower case.
pub open spec fn passes(t: Tb, needle: Seq<char>) -> bool {
    needle.len() == 0 || (t.shells.len() > 0 && (match t.shells[0].cwd {
        Some(cwd) => text::has(lowercase(cwd), needle),
        None => false,
    }))
}

/// The indices below `n` of the tabs that pass the filter, in order.
pub open spec fn passing(tabs: Seq<Tb>, needle: Seq<char>, n: int) -> Seq<usize>
    decreases n,
{
    if n <= 0 {
        Seq::empty()
    } else if passes(tabs[n - 1], needle) {
        passing(tabs, needle, n - 1).push((n - 1) as usize)
    } else {
        passing(tabs, needle, n - 1)
    }
}

/// The console with its filtered list rebuilt.
pub open spec fn refreshed(a: Ap) -> Ap {
    Ap { shown: passing(a.tabs, lowercase(a.search), a.tabs.len() as int), ..a }
}

/// The filtered list names every tab that passes, and only tabs that are there, in
/// order.
pub proof fn the_filtered_list_is_in_order(tabs: Seq<Tb>, needle: Seq<char>, n: int)
    requires
        0 <= n <= tabs.len() <= usize::MAX,
    ensures
        forall|k: int|
            0 <= k < passing(tabs, needle, n).len() ==> (#[trigger] passing(tabs, needle, n)[k])
                < n && passes(tabs[passing(tabs, needle, n)[k] as int], needle),
        forall|j: int, k: int|
            0 <= j < k < passing(tabs, needle, n).len() ==> passing(tabs, needle, n)[j] < passing(
                tabs,
                needle,
                n,
            )[k],
        forall|i: int|
            0 <= i < n && #[trigger] passes(tabs[i], needle) ==> passing(tabs, needle, n).contains(
                i as usize,
            ),
    decreases n,
{
    if n > 0 {
        the_filtered_list_is_in_order(tabs, needle, n - 1);
        let was = passing(tabs, needle, n - 1);
        let now = passing(tabs, needle, n);
        assert forall|i: int| 0 <= i < n && #[trigger] passes(tabs[i], needle) implies now.contains(
            i as usize,
        ) by {
            if i < n - 1 {
                assert(was.contains(i as usize));
                let k = was.index_of(i as usize);
                assert(now[k] == i as usize);
            } else {
                assert(now[was.len() as int] == i as usize);
            }
        }
    }
}

/// Without a filter every tab is shown, in order.
pub proof fn no_filter_shows_every_tab(tabs: Seq<Tb>, n: int)
    requires
        0 <= n <= tabs.len() <= usize::MAX,
    ensures
        passing(tabs, Seq::empty(), n) == Seq::new(n as nat, |i: int| i as usize),
    decreases n,
{
    if n > 0 {
        no_filter_shows_every_tab(tabs, n - 1);
        assert(passing(tabs, Seq::empty(), n) =~= Seq::new(n as nat, |i: int| i as usize));
    } else {
        assert(passing(tabs, Seq::empty(), n) =~= Seq::new(n as nat, |i: int| i as usize));
    }
}

impl App {
    /// Does tab `i` pass the filter `needle`?
    fn tab_passes(&self, i: usize, needle: &[char]) -> (r: bool)
        requires
            i < self@.tabs.len(),
        ensures
            r == passes(self@.tabs[i as int], needle@),
    {
        let t: &Tab = &self.tabs[i];
        assert(self@.tabs[i as int] == t@);
        if needle.len() == 0 {
            return true;
        }
        if t.shells.len() == 0 {
            return false;
        }
        assert(t@.shells[0] == t.shells@[0]@);
        match &t.shells[0].cwd {
            Some(cwd) => {
                let low: String = to_lowercase(cwd.as_str());
                let low: Vec<char> = chars(low.as_str());
                contains(low.as_slice(), needle)
            },
            None => false,
        }
    }

    /// Rebuild the filtered tab list: indices whose folder path contains the search
    /// text, whatever the case; every tab when the search is empty.
    pub fn refresh_shown(&mut self)
        ensures
            final(self)@ == refreshed(old(self)@),
            old(self)@.search.len() == 0 ==> final(self)@.shown == Seq::new(
                old(self)@.tabs.len(),
                |i: int| i as usize,
            ),
            app_wf(old(self)@) ==> app_wf(final(self)@),
    {
        let ghost a = self@;
        let needle: String = to_lowercase(self.search.as_str());
        let needle: Vec<char> = chars(needle.as_str());
        let n: usize = self.tabs.len();
        let mut shown: Vec<usize> = Vec::new();
        let mut i: usize = 0;
        assert(shown@ =~= passing(a.tabs, needle@, 0));
        while i < n
            invariant
                a == self@,
                n == a.tabs.len(),
                i <= n,
                shown@ == passing(a.tabs, needle@, i as int),
            decreases n - i,
        {
            if self.tab_passes(i, needle.as_slice()) {
                shown.push(i);
            }
            i += 1;
        }
        self.shown = shown;
        proof {
            the_filtered_list_is_in_order(a.tabs, needle@, n as int);
            if a.search.len() == 0 {
                no_filter_shows_every_tab(a.tabs, n as int);
                assert(needle@ =~= Seq::empty());
            }
        }
    }
}

// ── rows of the sidebar ─────────────────────────────────────────────────────

/// Sidebar rows available for tabs: the title row and the search row are not.
pub open spec fn viewport(a: Ap) -> int {
    if a.sidebar_rows > 2 {
        a.sidebar_rows - 2
    } else {
        0
    }
}

/// The height of the shown tab at `pos`.
pub open spec fn height(a: Ap, pos: int) -> int {
    tab::tab_rows(a.tabs[a.shown[pos] as int])
}

/// How many rows the shown tabs in `[from, to)` take.
pub open spec fn heights(a: Ap, from: int, to: int) -> int
    decreases to - from,
{
    if from >= to {
        0
    } else {
        heights(a, from, to - 1) + height(a, to - 1)
    }
}

/// Where the drawn tabs end: from `pos` on, every tab that fits the viewport whole
/// below the `used` rows above it.
pub open spec fn drawn_end(a: Ap, pos: int, used: int) -> int
    decreases a.shown.len() - pos,
{
    if pos < 0 || pos >= a.shown.len() || used + height(a, pos) > viewport(a) {
        pos
    } else {
        drawn_end(a, pos + 1, used + height(a, pos))
    }
}

/// The positions of the first drawn tab and one past the last.
pub open spec fn drawn(a: Ap) -> (int, int) {
    let start = if a.list_offset < a.shown.len() {
        a.list_offset
    } else {
        a.shown.len() as int
    };
    (start, drawn_end(a, start, 0))
}

/// The drawn tabs are shown tabs, and they fit the viewport.
pub proof fn drawn_tabs_fit(a: Ap, pos: int, used: int)
    requires
        0 <= pos <= a.shown.len(),
        0 <= used,
    ensures
        pos <= drawn_end(a, pos, used) <= a.shown.len(),
        drawn_end(a, pos, used) > pos ==> used + heights(a, pos, drawn_end(a, pos, used))
            <= viewport(a),
    decreases a.shown.len() - pos,
{
    if pos < a.shown.len() && used + height(a, pos) <= viewport(a) {
        tab::lemma_blocks_bound(a.tabs[a.shown[pos] as int].shells);
        drawn_tabs_fit(a, pos + 1, used + height(a, pos));
        let end = drawn_end(a, pos + 1, used + height(a, pos));
        lemma_heights_split(a, pos, end);
        if end == pos + 1 {
            assert(heights(a, pos + 1, end) == 0);
        }
    }
}

proof fn lemma_heights_split(a: Ap, from: int, to: int)
    requires
        from < to,
    ensures
        heights(a, from, to) == height(a, from) + heights(a, from + 1, to),
    decreases to - from,
{
    if from + 1 < to {
        lemma_heights_split(a, from, to - 1);
    } else {
        assert(heights(a, from, from) == 0);
        assert(heights(a, from + 1, to) == 0);
    }
}

/// Rows are never negative.
pub proof fn lemma_heights_nonneg(a: Ap, from: int, to: int)
    ensures
        heights(a, from, to) >= 0,
    decreases to - from,
{
    if from < to {
        lemma_heights_nonneg(a, from, to - 1);
        tab::lemma_blocks_bound(a.tabs[a.shown[to - 1] as int].shells);
    }
}

/// The shell whose rows hold row `local` below the name row, counted from shell
/// `i`'s first, and whether it is that shell's replay row.
pub open spec fn shell_at(shells: Seq<Sh>, i: int, local: int) -> (int, bool)
    decreases shells.len() - i,
{
    if i < 0 || i >= shells.len() {
        (0, false)
    } else if local < tab::block_rows(shells[i]) {
        (i, tab::block_rows(shells[i]) == 3 && local == 2)
    } else {
        shell_at(shells, i + 1, local - tab::block_rows(shells[i]))
    }
}

/// The tab, the shell and whether it is a replay row, at row `r` of the drawn tabs
/// in `[pos, end)`.
pub open spec fn row_hit(a: Ap, pos: int, end: int, r: int) -> Option<(int, int, bool)>
    decreases end - pos,
{
    if pos >= end {
        None
    } else if r < height(a, pos) {
        let i = a.shown[pos] as int;
        if r == 0 || r + 1 == height(a, pos) {
            Some((i, 0, false))
        } else {
            let (s, replay) = shell_at(a.tabs[i].shells, 0, r - 1);
            Some((i, s, replay))
        }
    } else {
        row_hit(a, pos + 1, end, r - height(a, pos))
    }
}

/// What sidebar row `row` belongs to.
pub open spec fn hit_at(a: Ap, row: u16) -> Option<(int, int, bool)> {
    if row < 2 {
        None
    } else {
        row_hit(a, drawn(a).0, drawn(a).1, row - 2)
    }
}

/// The tab whose first row is row `r` of the drawn tabs in `[pos, end)`.
pub open spec fn name_hit(a: Ap, pos: int, end: int, r: int) -> Option<int>
    decreases end - pos,
{
    if pos >= end {
        None
    } else if r == 0 {
        Some(a.shown[pos] as int)
    } else if r < height(a, pos) {
        None
    } else {
        name_hit(a, pos + 1, end, r - height(a, pos))
    }
}

/// The tab whose `auto` button a click hits.
pub open spec fn auto_hit(a: Ap, row: u16, col: u16) -> Option<int> {
    if row < 2 {
        None
    } else {
        match name_hit(a, drawn(a).0, drawn(a).1, row - 2) {
            Some(i) => match tab::button_cols(i, a.tabs[i], a.sidebar_width) {
                Some((from, to)) => if from <= col < to {
                    Some(i)
                } else {
                    None
                },
                None => None,
            },
            None => None,
        }
    }
}

/// The tab and shell whose replay button a click hits.
pub open spec fn replay_hit(a: Ap, row: u16, col: u16) -> Option<(int, int)> {
    match hit_at(a, row) {
        Some((i, s, replay)) => {
            let (from, to) = tab::replay_cols(a.tabs[i].shells[s], a.sidebar_width);
            if replay && from <= col < to {
                Some((i, s))
            } else {
                None
            }
        },
        None => None,
    }
}

proof fn lemma_shell_at(shells: Seq<Sh>, i: int, local: int)
    requires
        0 <= i,
        shells.len() > 0,
    ensures
        0 <= shell_at(shells, i, local).0 < shells.len(),
    decreases shells.len() - i,
{
    if i < shells.len() && local >= tab::block_rows(shells[i]) {
        lemma_shell_at(shells, i + 1, local - tab::block_rows(shells[i]));
    }
}

/// A click in the sidebar never names a tab or a shell that is not there.
pub proof fn hits_are_there(a: Ap, row: u16)
    requires
        app_wf(a),
        a.list_offset >= 0,
    ensures
        hit_at(a, row) matches Some((i, s, _)) ==> 0 <= i < a.tabs.len() && 0 <= s
            < a.tabs[i].shells.len(),
{
    let (from, to) = drawn(a);
    drawn_tabs_fit(a, from, 0);
    if row >= 2 {
        lemma_row_hit(a, from, to, row - 2);
    }
}

proof fn lemma_row_hit(a: Ap, pos: int, end: int, r: int)
    requires
        app_wf(a),
        0 <= pos,
        end <= a.shown.len(),
    ensures
        row_hit(a, pos, end, r) matches Some((i, s, _)) ==> 0 <= i < a.tabs.len() && 0 <= s
            < a.tabs[i].shells.len(),
    decreases end - pos,
{
    if pos < end {
        let i = a.shown[pos] as int;
        assert(tab_wf(a.tabs[i]));
        if r < height(a, pos) {
            lemma_shell_at(a.tabs[i].shells, 0, r - 1);
        } else {
            lemma_row_hit(a, pos + 1, end, r - height(a, pos));
        }
    }
}

proof fn lemma_row_of(a: Ap, pos: int, end: int, q: int, d: int)
    requires
        pos <= q < end,
        0 <= d < height(a, q),
    ensures
        row_hit(a, pos, end, heights(a, pos, q) + d) matches Some((i, _, _)) && i == a.shown[q],
        d == 0 ==> name_hit(a, pos, end, heights(a, pos, q)) == Some(a.shown[q] as int),
    decreases q - pos,
{
    if pos < q {
        lemma_heights_split(a, pos, q);
        lemma_heights_nonneg(a, pos + 1, q);
        tab::lemma_blocks_bound(a.tabs[a.shown[pos] as int].shells);
        lemma_row_of(a, pos + 1, end, q, d);
    } else {
        assert(heights(a, pos, q) == 0);
    }
}

proof fn lemma_row_past(a: Ap, pos: int, end: int, r: int)
    requires
        pos <= end,
        r >= heights(a, pos, end),
    ensures
        row_hit(a, pos, end, r) is None,
    decreases end - pos,
{
    if pos < end {
        lemma_heights_split(a, pos, end);
        lemma_heights_nonneg(a, pos + 1, end);
        lemma_row_past(a, pos + 1, end, r - height(a, pos));
    }
}

/// What is drawn is what is clicked: every row of a drawn tab hits that tab, and its
/// first row is where its auto button is looked for.
pub proof fn every_drawn_row_hits_its_tab(a: Ap, q: int, d: int, row: u16)
    requires
        drawn(a).0 <= q < drawn(a).1,
        0 <= d < height(a, q),
        row == 2 + heights(a, drawn(a).0, q) + d,
    ensures
        hit_at(a, row) matches Some((i, _, _)) && i == a.shown[q],
        d == 0 ==> name_hit(a, drawn(a).0, drawn(a).1, row - 2) == Some(a.shown[q] as int),
{
    lemma_heights_nonneg(a, drawn(a).0, q);
    lemma_row_of(a, drawn(a).0, drawn(a).1, q, d);
}

/// The rows below the last drawn tab hit nothing, whatever tabs are hidden there.
pub proof fn the_rows_below_hit_nothing(a: Ap, row: u16)
    requires
        0 <= a.list_offset,
        row >= 2 + heights(a, drawn(a).0, drawn(a).1),
    ensures
        hit_at(a, row) is None,
{
    drawn_tabs_fit(a, drawn(a).0, 0);
    lemma_heights_nonneg(a, drawn(a).0, drawn(a).1);
    lemma_row_past(a, drawn(a).0, drawn(a).1, row - 2);
}

impl App {
    fn viewport_rows(&self) -> (n: u128)
        ensures
            n == viewport(self@),
    {
        self.sidebar_rows.saturating_sub(2) as u128
    }

    fn height_at(&self, pos: usize) -> (h: u128)
        requires
            app_wf(self@),
            pos < self@.shown.len(),
        ensures
            h == height(self@, pos as int),
            h >= 4,
            h <= 2 + 3 * usize::MAX as int,
    {
        let i: usize = self.shown[pos];
        assert(self@.shown[pos as int] == i);
        let t: &Tab = &self.tabs[i];
        assert(self@.tabs[i as int] == t@);
        assert(tab_wf(self@.tabs[i as int]));
        assert(t.shells.len() == t.shells@.len());
        proof {
            tab::lemma_blocks_bound(t@.shells);
        }
        t.rows()
    }

    /// Shown tabs the sidebar actually draws, as a range of positions into the
    /// filtered list: from the scroll offset, every tab that fits the viewport
    /// whole. A click on the blank rows below must never reach a hidden tab.
    pub fn visible_tabs(&self) -> (r: (usize, usize))
        requires
            app_wf(self@),
        ensures
            (r.0 as int, r.1 as int) == drawn(self@),
            r.0 <= r.1 <= self@.shown.len(),
    {
        let n: usize = self.shown.len();
        let start: usize = if self.list_offset < n {
            self.list_offset
        } else {
            n
        };
        let vp: u128 = self.viewport_rows();
        let mut used: u128 = 0;
        let mut pos: usize = start;
        while pos < n
            invariant
                app_wf(self@),
                n == self@.shown.len(),
                start <= pos <= n,
                vp == viewport(self@),
                used <= vp <= u16::MAX,
                drawn_end(self@, pos as int, used as int) == drawn_end(self@, start as int, 0),
            ensures
                start <= pos <= n,
                pos == drawn_end(self@, start as int, 0),
            decreases n - pos,
        {
            let h: u128 = self.height_at(pos);
            if used + h > vp {
                break;
            }
            used = used + h;
            pos += 1;
        }
        (start, pos)
    }

    /// Resolve sidebar row `row` against the drawn tabs: the tab, the shell whose
    /// rows were hit, and whether it was that shell's replay row. `None` above the
    /// tabs or past the last one. The name row and the separator map to the parent.
    pub fn hit(&self, row: u16) -> (r: Option<(usize, usize, bool)>)
        requires
            app_wf(self@),
        ensures
            match r {
                Some((i, s, replay)) => hit_at(self@, row) == Some((i as int, s as int, replay))
                    && i < self@.tabs.len() && s < self@.tabs[i as int].shells.len(),
                None => hit_at(self@, row) is None,
            },
    {
        proof {
            hits_are_there(self@, row);
        }
        if row < 2 {
            return None;
        }
        let (start, end): (usize, usize) = self.visible_tabs();
        let mut r: u128 = (row - 2) as u128;
        let mut pos: usize = start;
        while pos < end
            invariant
                app_wf(self@),
                row >= 2,
                end <= self@.shown.len(),
                start <= pos <= end,
                drawn(self@) == (start as int, end as int),
                r <= u16::MAX,
                row_hit(self@, pos as int, end as int, r as int) == hit_at(self@, row),
                hit_at(self@, row) matches Some((i, s, _)) ==> 0 <= i < self@.tabs.len() && 0 <= s
                    < self@.tabs[i].shells.len(),
            decreases end - pos,
        {
            let h: u128 = self.height_at(pos);
            let i: usize = self.shown[pos];
            assert(self@.shown[pos as int] == i);
            if r < h {
                if r == 0 || r + 1 == h {
                    return Some((i, 0, false));
                }
                let (s, replay): (usize, bool) = self.shell_hit(i, r - 1);
                return Some((i, s, replay));
            }
            r = r - h;
            pos += 1;
        }
        None
    }

    fn shell_hit(&self, i: usize, row: u128) -> (r: (usize, bool))
        requires
            app_wf(self@),
            i < self@.tabs.len(),
        ensures
            (r.0 as int, r.1) == shell_at(self@.tabs[i as int].shells, 0, row as int),
    {
        let t: &Tab = &self.tabs[i];
        assert(self@.tabs[i as int] == t@);
        let ghost shells = t@.shells;
        let mut local: u128 = row;
        let mut s: usize = 0;
        while s < t.shells.len()
            invariant
                s <= t.shells@.len(),
                shells == t@.shells,
                shells == self@.tabs[i as int].shells,
                shell_at(shells, s as int, local as int) == shell_at(shells, 0, row as int),
            decreases t.shells.len() - s,
        {
            assert(shells[s as int] == t.shells@[s as int]@);
            let replay: bool = t.shells[s].replayable();
            let rows: u128 = if replay {
                3
            } else {
                2
            };
            if local < rows {
                return (s, replay && local == 2);
            }
            local = local - rows;
            s += 1;
        }
        (0, false)
    }

    /// The tab under sidebar row `row`.
    pub fn tab_at_row(&self, row: u16) -> (r: Option<usize>)
        requires
            app_wf(self@),
        ensures
            match r {
                Some(i) => hit_at(self@, row) matches Some((t, _, _)) && t == i && i
                    < self@.tabs.len(),
                None => hit_at(self@, row) is None,
            },
    {
        match self.hit(row) {
            Some((i, _, _)) => Some(i),
            None => None,
        }
    }

    /// The tab and shell under sidebar row `row`.
    pub fn shell_at_row(&self, row: u16) -> (r: Option<(usize, usize)>)
        requires
            app_wf(self@),
        ensures
            match r {
                Some((i, k)) => hit_at(self@, row) matches Some((t, s, _)) && t == i && s == k && i
                    < self@.tabs.len() && k < self@.tabs[i as int].shells.len(),
                None => hit_at(self@, row) is None,
            },
    {
        match self.hit(row) {
            Some((i, s, _)) => Some((i, s)),
            None => None,
        }
    }

    /// The tab and shell whose replay button (`row`, `col`) hits: a replay row
    /// clicked anywhere from the icon to the end of the command it re-runs.
    pub fn replay_at(&self, row: u16, col: u16) -> (r: Option<(usize, usize)>)
        requires
            app_wf(self@),
        ensures
            match r {
                Some((i, s)) => replay_hit(self@, row, col) == Some((i as int, s as int)) && i
                    < self@.tabs.len() && s < self@.tabs[i as int].shells.len(),
                None => replay_hit(self@, row, col) is None,
            },
    {
        match self.hit(row) {
            Some((i, s, replay)) => {
                let t: &Tab = &self.tabs[i];
                assert(self@.tabs[i as int] == t@);
                assert(t@.shells[s as int] == t.shells@[s as int]@);
                let (from, to): (usize, usize) = replay_span(&t.shells[s], self.sidebar_width);
                if replay && from <= col as usize && (col as usize) < to {
                    Some((i, s))
                } else {
                    None
                }
            },
            None => None,
        }
    }

    /// The tab whose `auto` button (`row`, `col`) hits: the button sits on a tab's
    /// first row.
    pub fn auto_at(&self, row: u16, col: u16) -> (r: Option<usize>)
        requires
            app_wf(self@),
        ensures
            match r {
                Some(i) => auto_hit(self@, row, col) == Some(i as int) && i < self@.tabs.len(),
                None => auto_hit(self@, row, col) is None,
            },
    {
        if row < 2 {
            return None;
        }
        let (start, end): (usize, usize) = self.visible_tabs();
        let mut r: u128 = (row - 2) as u128;
        let mut pos: usize = start;
        while pos < end
            invariant
                app_wf(self@),
                row >= 2,
                end <= self@.shown.len(),
                start <= pos <= end,
                drawn(self@) == (start as int, end as int),
                r <= u16::MAX,
                name_hit(self@, pos as int, end as int, r as int) == name_hit(
                    self@,
                    start as int,
                    end as int,
                    row - 2,
                ),
            decreases end - pos,
        {
            let h: u128 = self.height_at(pos);
            if r == 0 {
                let i: usize = self.shown[pos];
                assert(self@.shown[pos as int] == i);
                let t: &Tab = &self.tabs[i];
                assert(self@.tabs[i as int] == t@);
                assert(self.tabs.len() == self.tabs@.len());
                return match auto_button(i, t, self.sidebar_width) {
                    Some((from, to)) => if from <= col as usize && (col as usize) < to {
                        Some(i)
                    } else {
                        None
                    },
                    None => None,
                };
            }
            if r < h {
                return None;
            }
            r = r - h;
            pos += 1;
        }
        None
    }
}

// ── scrolling the sidebar ───────────────────────────────────────────────────

/// The largest first-visible position that still fills the viewport, looking no
/// further than `pos` with `used` rows taken below it.
pub open spec fn fill_from(a: Ap, pos: int, used: int) -> int
    decreases pos,
{
    if pos <= 0 || used + height(a, pos - 1) > viewport(a) {
        pos
    } else {
        fill_from(a, pos - 1, used + height(a, pos - 1))
    }
}

/// The clamp for any scroll.
pub open spec fn last_offset(a: Ap) -> int {
    fill_from(a, a.shown.len() as int, 0)
}

proof fn lemma_fill(a: Ap, pos: int, used: int)
    requires
        0 <= pos,
        0 <= used <= viewport(a),
    ensures
        0 <= fill_from(a, pos, used) <= pos,
        fill_from(a, pos, used) == 0 <==> heights(a, 0, pos) + used <= viewport(a),
    decreases pos,
{
    if pos > 0 {
        lemma_heights_nonneg(a, 0, pos - 1);
        tab::lemma_blocks_bound(a.tabs[a.shown[pos - 1] as int].shells);
        if used + height(a, pos - 1) <= viewport(a) {
            lemma_fill(a, pos - 1, used + height(a, pos - 1));
        }
    }
}

/// The list can be scrolled exactly when not every tab fits.
pub proof fn the_list_scrolls_when_it_overflows(a: Ap)
    ensures
        last_offset(a) > 0 <==> heights(a, 0, a.shown.len() as int) > viewport(a),
{
    lemma_fill(a, a.shown.len() as int, 0);
}

/// The first position at which the shown tab at `pos` is wholly in view, from
/// `offset` on.
pub open spec fn revealed_at(a: Ap, offset: int, pos: int) -> int
    decreases pos - offset,
{
    if offset >= pos || heights(a, offset, pos + 1) <= viewport(a) {
        offset
    } else {
        revealed_at(a, offset + 1, pos)
    }
}

/// The position of tab `i` in the filtered list, from `k` on.
pub open spec fn position(shown: Seq<usize>, i: int, k: int) -> Option<int>
    decreases shown.len() - k,
{
    if k < 0 || k >= shown.len() {
        None
    } else if shown[k] == i {
        Some(k)
    } else {
        position(shown, i, k + 1)
    }
}

/// The console with its active tab scrolled into view, as little as it takes.
pub open spec fn revealed(a: Ap) -> Ap {
    match position(a.shown, a.active, 0) {
        Some(pos) => Ap {
            list_offset: if pos < a.list_offset {
                pos
            } else {
                revealed_at(a, a.list_offset, pos)
            },
            ..a
        },
        None => a,
    }
}

pub proof fn lemma_position(shown: Seq<usize>, i: int, k: int)
    requires
        0 <= k,
    ensures
        position(shown, i, k) matches Some(p) ==> k <= p < shown.len() && shown[p] == i,
    decreases shown.len() - k,
{
    if k < shown.len() && shown[k] != i {
        lemma_position(shown, i, k + 1);
    }
}

/// Revealing the active tab brings it into view: it is the first one drawn, or it
/// fits in whole below those above it. The list scrolls no further than that takes.
pub proof fn revealing_shows_the_active_tab(a: Ap)
    requires
        0 <= a.list_offset,
        position(a.shown, a.active, 0) is Some,
    ensures
        ({
            let pos = position(a.shown, a.active, 0)->Some_0;
            let after = revealed(a);
            &&& after.list_offset <= pos
            &&& after.list_offset == pos || heights(a, after.list_offset, pos + 1) <= viewport(a)
            &&& forall|o: int|
                a.list_offset <= o < after.list_offset ==> #[trigger] heights(a, o, pos + 1)
                    > viewport(a)
        }),
{
    let pos = position(a.shown, a.active, 0)->Some_0;
    lemma_position(a.shown, a.active, 0);
    if pos >= a.list_offset {
        lemma_revealed_at(a, a.list_offset, pos);
    }
}

proof fn lemma_revealed_at(a: Ap, offset: int, pos: int)
    requires
        offset <= pos,
    ensures
        offset <= revealed_at(a, offset, pos) <= pos,
        revealed_at(a, offset, pos) == pos || heights(a, revealed_at(a, offset, pos), pos + 1)
            <= viewport(a),
        forall|o: int|
            offset <= o < revealed_at(a, offset, pos) ==> #[trigger] heights(a, o, pos + 1)
                > viewport(a),
    decreases pos - offset,
{
    if offset < pos && heights(a, offset, pos + 1) > viewport(a) {
        lemma_revealed_at(a, offset + 1, pos);
    }
}

/// The console after scrolling its tab list one tab up, or down.
pub open spec fn list_scrolled(a: Ap, down: bool) -> Ap {
    let want = if down {
        a.list_offset + 1
    } else if a.list_offset > 0 {
        a.list_offset - 1
    } else {
        0
    };
    Ap {
        list_offset: if want < last_offset(a) {
            want
        } else {
            last_offset(a)
        },
        ..a
    }
}

impl App {
    /// Largest first-visible position that still fills the viewport — the clamp for
    /// any scroll. Zero when every shown tab already fits.
    pub fn max_offset(&self) -> (n: usize)
        requires
            app_wf(self@),
        ensures
            n == last_offset(self@),
            n <= self@.shown.len(),
    {
        let vp: u128 = self.viewport_rows();
        let mut used: u128 = 0;
        let mut i: usize = self.shown.len();
        while i > 0
            invariant
                app_wf(self@),
                i <= self@.shown.len(),
                vp == viewport(self@),
                used <= vp <= u16::MAX,
                fill_from(self@, i as int, used as int) == last_offset(self@),
            decreases i,
        {
            let h: u128 = self.height_at(i - 1);
            if used + h > vp {
                return i;
            }
            used = used + h;
            i -= 1;
        }
        i
    }

    /// Not every tab fits — the list is scrollable.
    pub fn tabs_overflow(&self) -> (r: bool)
        requires
            app_wf(self@),
        ensures
            r == (heights(self@, 0, self@.shown.len() as int) > viewport(self@)),
    {
        let vp: u128 = self.viewport_rows();
        let mut used: u128 = 0;
        let mut i: usize = 0;
        while i < self.shown.len()
            invariant
                app_wf(self@),
                i <= self@.shown.len(),
                vp == viewport(self@),
                used <= vp <= u16::MAX,
                used == heights(self@, 0, i as int),
            decreases self@.shown.len() - i,
        {
            let h: u128 = self.height_at(i);
            if used + h > vp {
                proof {
                    lemma_heights_grow(self@, 0, i + 1, self@.shown.len() as int);
                }
                return true;
            }
            used = used + h;
            i += 1;
        }
        false
    }

    /// Scroll the tab list by one tab, clamped to the scrollable range.
    pub fn scroll_tabs(&mut self, down: bool)
        requires
            app_wf(old(self)@),
        ensures
            final(self)@ == list_scrolled(old(self)@, down),
            app_wf(final(self)@),
    {
        let max: usize = self.max_offset();
        if down {
            self.list_offset = if self.list_offset < max {
                self.list_offset + 1
            } else {
                max
            };
        } else {
            let want: usize = self.list_offset.saturating_sub(1);
            self.list_offset = if want < max {
                want
            } else {
                max
            };
        }
    }

    /// Bring the active tab into view, scrolling the minimum amount; nothing when it
    /// is already visible or filtered out by the search.
    pub fn reveal_active(&mut self)
        requires
            app_wf(old(self)@),
        ensures
            final(self)@ == revealed(old(self)@),
            app_wf(final(self)@),
    {
        let ghost a = self@;
        let pos: usize = match self.shown_position() {
            Some(pos) => pos,
            None => {
                return;
            },
        };
        if pos < self.list_offset {
            self.list_offset = pos;
            return;
        }
        let mut offset: usize = self.list_offset;
        while offset < pos
            invariant
                app_wf(self@),
                self@ == a,
                a.list_offset <= offset <= pos < a.shown.len(),
                revealed_at(a, offset as int, pos as int) == revealed_at(
                    a,
                    a.list_offset,
                    pos as int,
                ),
            ensures
                offset == revealed_at(a, a.list_offset, pos as int),
            decreases pos - offset,
        {
            if self.fits_rows(offset, pos) {
                break;
            }
            offset += 1;
        }
        self.list_offset = offset;
    }

    fn fits_rows(&self, from: usize, to: usize) -> (r: bool)
        requires
            app_wf(self@),
            from <= to < self@.shown.len(),
        ensures
            r == (heights(self@, from as int, to + 1) <= viewport(self@)),
    {
        let vp: u128 = self.viewport_rows();
        let mut used: u128 = 0;
        let mut i: usize = from;
        assert(self.shown.len() == self.shown@.len());
        while i <= to
            invariant
                app_wf(self@),
                from <= i <= to + 1,
                to < self@.shown.len(),
                self@.shown.len() <= usize::MAX,
                vp == viewport(self@),
                used <= vp <= u16::MAX,
                used == heights(self@, from as int, i as int),
            decreases to + 1 - i,
        {
            let h: u128 = self.height_at(i);
            if used + h > vp {
                proof {
                    lemma_heights_grow(self@, from as int, i + 1, to + 1);
                }
                return false;
            }
            used = used + h;
            i += 1;
        }
        true
    }

    fn shown_position(&self) -> (r: Option<usize>)
        ensures
            match r {
                Some(p) => position(self@.shown, self@.active, 0) == Some(p as int) && p
                    < self@.shown.len(),
                None => position(self@.shown, self@.active, 0) is None,
            },
    {
        let mut k: usize = 0;
        while k < self.shown.len()
            invariant
                k <= self.shown@.len(),
                position(self@.shown, self@.active, k as int) == position(
                    self@.shown,
                    self@.active,
                    0,
                ),
            decreases self.shown.len() - k,
        {
            if self.shown[k] == self.active {
                return Some(k);
            }
            k += 1;
        }
        None
    }

    /// Switch the active tab to the next or previous visible one (wrapping) within
    /// the filtered list. Nothing when nothing passes the filter.
    pub fn navigate_tabs(&mut self, forward: bool)
        requires
            app_wf(old(self)@),
        ensures
            final(self)@ == navigated(old(self)@, forward),
            app_wf(final(self)@),
    {
        let n: usize = self.shown.len();
        if n == 0 {
            return;
        }
        let pos: usize = match self.shown_position() {
            Some(pos) => pos,
            None => 0,
        };
        let k: usize = turn(pos, n, forward);
        self.active = self.shown[k];
    }
}

/// The console with the next or previous visible tab active.
pub open spec fn navigated(a: Ap, forward: bool) -> Ap {
    if a.shown.len() == 0 {
        a
    } else {
        let pos = match position(a.shown, a.active, 0) {
            Some(pos) => pos,
            None => 0,
        };
        Ap { active: a.shown[tab::turned(pos, a.shown.len() as int, forward)] as int, ..a }
    }
}

proof fn lemma_heights_grow(a: Ap, from: int, mid: int, to: int)
    requires
        mid <= to,
    ensures
        heights(a, from, mid) <= heights(a, from, to),
    decreases to - mid,
{
    if mid < to {
        lemma_heights_grow(a, from, mid, to - 1);
        tab::lemma_blocks_bound(a.tabs[a.shown[to - 1] as int].shells);
        if from >= to {
            assert(heights(a, from, mid) == 0);
        }
    }
}

// ── opening, closing and moving tabs ────────────────────────────────────────

/// A console with no tabs yet: the search row has focus, nothing is selected and no
/// dialog is up, and the first frame is due at once.
pub open spec fn just_started(base: Seq<char>, copy_mode: bool, now: u64) -> Ap {
    Ap {
        tabs: Seq::empty(),
        active: 0,
        pty_rows: 24,
        pty_cols: 80,
        term_width: 80,
        sidebar_width: SIDEBAR_WIDTH,
        dragging_sidebar: false,
        dragging_tab: None,
        list_offset: 0,
        sidebar_rows: 0,
        shown_active: 0,
        base,
        saved_session: Saved { tabs: Seq::empty(), copy_mode: true },
        persisted: now,
        branch: None,
        branch_cwd: None,
        branch_sampled: now,
        search: Seq::empty(),
        search_focus: true,
        shown: Seq::empty(),
        proc_cursor: 0,
        reaped: now,
        selection: None,
        copy_mode,
        last_click: None,
        swallow_release: false,
        copied_at: None,
        agent_cursor: 0,
        drawn: if now >= POLL_INTERVAL {
            (now - POLL_INTERVAL) as u64
        } else {
            now
        },
        quit: false,
        confirm_quit: None,
        help: false,
    }
}

/// How many favorites the list begins with.
pub open spec fn leading_favorites(tabs: Seq<Tb>) -> int
    decreases tabs.len(),
{
    if tabs.len() > 0 && tabs[0].favorite {
        1 + leading_favorites(tabs.skip(1))
    } else {
        0
    }
}

/// Whether all favorites stand before all others.
pub open spec fn favorites_first(tabs: Seq<Tb>) -> bool {
    forall|i: int, j: int|
        0 <= i < j < tabs.len() && (#[trigger] tabs[j]).favorite ==> (#[trigger] tabs[i]).favorite
}

/// Where a new tab goes: right after the active one, but never inside the favorites
/// block.
pub open spec fn new_tab_at(a: Ap) -> int {
    let favorites = leading_favorites(a.tabs);
    let at = if a.active + 1 > favorites {
        a.active + 1
    } else {
        favorites
    };
    if at < a.tabs.len() {
        at
    } else {
        a.tabs.len() as int
    }
}

/// The console with a new tab of one shell, active.
pub open spec fn with_tab(a: Ap, s: Sh) -> Ap {
    Ap {
        tabs: a.tabs.insert(
            new_tab_at(a),
            Tb { shells: seq![s], active: 0, favorite: false, auto: false },
        ),
        active: new_tab_at(a),
        ..a
    }
}

/// The console with one more shell in its active tab, active.
pub open spec fn with_subshell(a: Ap, s: Sh) -> Ap {
    let t = a.tabs[a.active];
    Ap {
        tabs: a.tabs.update(
            a.active,
            Tb { shells: t.shells.push(s), active: t.shells.len() as int, ..t },
        ),
        ..a
    }
}

/// The console with its active tab's favorite flag toggled, and the tab moved right
/// behind the favorites that are left.
pub open spec fn favorite_toggled(a: Ap) -> Ap {
    if a.active >= a.tabs.len() {
        a
    } else {
        let t = a.tabs[a.active];
        let rest = a.tabs.remove(a.active);
        let to = leading_favorites(rest);
        Ap { tabs: rest.insert(to, Tb { favorite: !t.favorite, ..t }), active: to, ..a }
    }
}

proof fn lemma_leading(tabs: Seq<Tb>)
    ensures
        0 <= leading_favorites(tabs) <= tabs.len(),
        forall|i: int| 0 <= i < leading_favorites(tabs) ==> (#[trigger] tabs[i]).favorite,
        leading_favorites(tabs) < tabs.len() ==> !tabs[leading_favorites(tabs)].favorite,
    decreases tabs.len(),
{
    if tabs.len() > 0 && tabs[0].favorite {
        let r = tabs.skip(1);
        lemma_leading(r);
        assert forall|i: int| 0 <= i < leading_favorites(tabs) implies (
        #[trigger] tabs[i]).favorite by {
            if i > 0 {
                assert(r[i - 1].favorite);
            }
        }
    }
}

/// Favorites stay together at the top when a tab is opened.
pub proof fn opening_keeps_favorites_first(a: Ap, s: Sh)
    requires
        app_wf(a),
        favorites_first(a.tabs),
    ensures
        favorites_first(with_tab(a, s).tabs),
{
    lemma_leading(a.tabs);
    let now = with_tab(a, s).tabs;
    let at = new_tab_at(a);
    assert forall|i: int, j: int|
        0 <= i < j < now.len() && (#[trigger] now[j]).favorite implies (
    #[trigger] now[i]).favorite by {
        let jj = if j < at { j } else { j - 1 };
        assert(j != at);
        assert(a.tabs[jj].favorite);
        assert(jj < leading_favorites(a.tabs)) by {
            if jj >= leading_favorites(a.tabs) && leading_favorites(a.tabs) < a.tabs.len() {
                if jj > leading_favorites(a.tabs) {
                    assert(a.tabs[leading_favorites(a.tabs)].favorite);
                }
            }
        }
        assert(a.tabs[i].favorite);
    }
}

/// Favorites stay together at the top when one is marked or unmarked, and the tab
/// toggled is the active one.
pub proof fn toggling_keeps_favorites_first(a: Ap)
    requires
        app_wf(a),
        a.tabs.len() > 0,
        favorites_first(a.tabs),
    ensures
        favorites_first(favorite_toggled(a).tabs),
        favorite_toggled(a).tabs[favorite_toggled(a).active].favorite
            == !a.tabs[a.active].favorite,
        favorite_toggled(a).tabs.len() == a.tabs.len(),
{
    let rest = a.tabs.remove(a.active);
    lemma_leading(rest);
    let to = leading_favorites(rest);
    let now = favorite_toggled(a).tabs;
    assert forall|i: int, j: int| 0 <= i < j < rest.len() && (#[trigger] rest[j]).favorite implies (
    #[trigger] rest[i]).favorite by {
        let ii = if i < a.active { i } else { i + 1 };
        let jj = if j < a.active { j } else { j + 1 };
        assert(a.tabs[jj].favorite);
        assert(a.tabs[ii].favorite);
    }
    assert forall|i: int, j: int| 0 <= i < j < now.len() && (#[trigger] now[j]).favorite implies (
    #[trigger] now[i]).favorite by {
        if j > to {
            assert(rest[j - 1].favorite);
            if to < j - 1 {
                assert(rest[to].favorite);
            }
        } else if i < to {
            assert(rest[i].favorite);
        }
    }
}

impl App {
    /// A console with no tabs yet, started in `base`.
    pub fn new(base: String, copy_mode: bool, now: u64) -> (app: App)
        ensures
            app@ == just_started(base@, copy_mode, now),
            app_wf(app@),
    {
        let app: App = App {
            tabs: Vec::new(),
            active: 0,
            pty_rows: 24,
            pty_cols: 80,
            term_width: 80,
            sidebar_width: SIDEBAR_WIDTH,
            dragging_sidebar: false,
            dragging_tab: None,
            list_offset: 0,
            sidebar_rows: 0,
            shown_active: 0,
            base,
            saved_session: Session::default(),
            persisted: now,
            branch: None,
            branch_cwd: None,
            branch_sampled: now,
            search: String::new(),
            search_focus: true,
            shown: Vec::new(),
            proc_cursor: 0,
            reaped: now,
            selection: None,
            copy_mode,
            last_click: None,
            swallow_release: false,
            copied_at: None,
            agent_cursor: 0,
            drawn: stale(now, POLL_INTERVAL),
            quit: false,
            confirm_quit: None,
            help: false,
        };
        assert(app@ =~= just_started(base@, copy_mode, now));
        app
    }

    fn favorites(&self, skip: Option<usize>) -> (n: usize)
        requires
            skip is Some ==> skip->Some_0 < self@.tabs.len(),
        ensures
            skip is None ==> n == leading_favorites(self@.tabs) && n <= self@.tabs.len(),
            skip is Some ==> n == leading_favorites(self@.tabs.remove(skip->Some_0 as int)) && n
                < self@.tabs.len(),
    {
        let ghost rest = match skip {
            Some(i) => self@.tabs.remove(i as int),
            None => self@.tabs,
        };
        let len: usize = self.tabs.len();
        let total: usize = match skip {
            Some(_) => len - 1,
            None => len,
        };
        let mut n: usize = 0;
        assert(rest.skip(0) =~= rest);
        while n < total
            invariant
                len == self.tabs@.len(),
                len == self@.tabs.len(),
                skip is Some ==> skip->Some_0 < len && total == len - 1,
                skip is None ==> total == len,
                total == rest.len(),
                rest == (match skip {
                    Some(i) => self@.tabs.remove(i as int),
                    None => self@.tabs,
                }),
                n <= total,
                n + leading_favorites(rest.skip(n as int)) == leading_favorites(rest),
            ensures
                n <= total,
                n == leading_favorites(rest),
            decreases total - n,
        {
            let i: usize = match skip {
                Some(s) => if n < s {
                    n
                } else {
                    n + 1
                },
                None => n,
            };
            assert(rest[n as int] == self@.tabs[i as int]);
            assert(self@.tabs[i as int] == self.tabs@[i as int]@);
            assert(rest.skip(n as int)[0] == rest[n as int]);
            if !self.tabs[i].favorite {
                break;
            }
            assert(rest.skip(n as int).skip(1) =~= rest.skip(n + 1));
            n += 1;
        }
        n
    }

    /// Open a tab of one shell right after the active tab — but never inside the
    /// favorites block — and make it active.
    pub fn open_tab(&mut self, shell: Shell)
        requires
            app_wf(old(self)@),
        ensures
            final(self)@ == with_tab(old(self)@, shell@),
            app_wf(final(self)@),
    {
        let ghost a = self@;
        let len: usize = self.tabs.len();
        let favorites: usize = self.favorites(None);
        let next: usize = if self.active < len {
            self.active + 1
        } else {
            1
        };
        let at: usize = if next > favorites {
            next
        } else {
            favorites
        };
        let at: usize = if at < len {
            at
        } else {
            len
        };
        let t: Tab = Tab::new(shell);
        self.tabs.insert(at, t);
        self.active = at;
        proof {
            assert(self@.tabs =~= a.tabs.insert(at as int, t@));
            assert forall|i: int| 0 <= i < self@.tabs.len() implies tab_wf(
                #[trigger] self@.tabs[i],
            ) by {
                if i < at {
                    assert(tab_wf(a.tabs[i]));
                } else if i > at {
                    assert(tab_wf(a.tabs[i - 1]));
                }
            }
        }
    }

    /// Add a subshell to the active tab and focus it.
    pub fn open_subshell(&mut self, shell: Shell)
        requires
            app_wf(old(self)@),
            old(self)@.tabs.len() > 0,
        ensures
            final(self)@ == with_subshell(old(self)@, shell@),
            app_wf(final(self)@),
    {
        let ghost a = self@;
        let i: usize = self.active;
        let ghost t = a.tabs[i as int];
        assert(tab_wf(t));
        assert(self.tabs@[i as int]@ == t);
        let n: usize = self.tabs[i].shells.len();
        self.tabs[i].shells.push(shell);
        self.tabs[i].active = n;
        proof {
            let now = self.tabs@[i as int]@;
            assert(now.shells =~= t.shells.push(shell@));
            assert(self@.tabs =~= a.tabs.update(i as int, now));
            assert forall|k: int| 0 <= k < self@.tabs.len() implies tab_wf(
                #[trigger] self@.tabs[k],
            ) by {
                if k != i {
                    assert(tab_wf(a.tabs[k]));
                }
            }
        }
    }

    /// Toggle the active tab's favorite flag and re-cluster it: favorites form a
    /// contiguous block at the top, so a newly-marked tab lands right after the last
    /// favorite and an unmarked one drops just below that block. The active
    /// selection follows the tab.
    pub fn toggle_favorite(&mut self)
        requires
            app_wf(old(self)@),
        ensures
            final(self)@ == favorite_toggled(old(self)@),
            app_wf(final(self)@),
    {
        let ghost a = self@;
        let i: usize = self.active;
        if i >= self.tabs.len() {
            return;
        }
        assert(tab_wf(a.tabs[i as int]));
        let to: usize = self.favorites(Some(i));
        let mut t: Tab = self.tabs.remove(i);
        let ghost was = t@;
        assert(was == a.tabs[i as int]);
        t.favorite = !t.favorite;
        self.tabs.insert(to, t);
        self.active = to;
        proof {
            let rest = a.tabs.remove(i as int);
            assert(self@.tabs =~= rest.insert(to as int, t@));
            assert forall|k: int| 0 <= k < self@.tabs.len() implies tab_wf(
                #[trigger] self@.tabs[k],
            ) by {
                if k < to {
                    let j = if k < i { k } else { k + 1 };
                    assert(tab_wf(a.tabs[j]));
                } else if k > to {
                    let j = if k - 1 < i { k - 1 } else { k as int };
                    assert(tab_wf(a.tabs[j]));
                }
            }
        }
    }
}

// ── restoring ───────────────────────────────────────────────────────────────

/// The items whose flag is set, in order.
pub open spec fn kept<T>(v: Seq<T>, flags: Seq<bool>) -> Seq<T>
    decreases v.len(),
{
    if v.len() == 0 {
        Seq::empty()
    } else if flags[v.len() - 1] {
        kept(v.drop_last(), flags).push(v.last())
    } else {
        kept(v.drop_last(), flags)
    }
}

/// A saved tab without the shells whose folder is gone: the shell that was active is
/// still the active one.
pub open spec fn tab_left(t: SavedTab, dirs: Seq<bool>) -> SavedTab {
    let shells = kept(t.shells, dirs);
    SavedTab { shells, active_shell: followed(t.active_shell, dirs, shells.len() as int), ..t }
}

/// The saved tabs that still have a shell, without the shells whose folder is gone.
pub open spec fn tabs_left(tabs: Seq<SavedTab>, dirs: Seq<Vec<bool>>) -> Seq<SavedTab>
    decreases tabs.len(),
{
    if tabs.len() == 0 {
        Seq::empty()
    } else {
        let front = tabs_left(tabs.drop_last(), dirs);
        let t = tab_left(tabs.last(), dirs[tabs.len() - 1]@);
        if t.shells.len() > 0 {
            front.push(t)
        } else {
            front
        }
    }
}

proof fn lemma_kept_len<T>(v: Seq<T>, flags: Seq<bool>)
    ensures
        kept(v, flags).len() <= v.len(),
    decreases v.len(),
{
    if v.len() > 0 {
        lemma_kept_len(v.drop_last(), flags);
    }
}

/// Drop the saved shells whose folder no longer exists, and the tabs left with none.
/// `dirs` says of each shell of each tab whether its folder is still there.
pub fn restorable(tabs: &Vec<TabState>, dirs: &Vec<Vec<bool>>) -> (v: Vec<TabState>)
    requires
        dirs@.len() == tabs@.len(),
        forall|i: int|
            0 <= i < tabs@.len() ==> (#[trigger] dirs@[i])@.len() == tabs@[i].shells@.len(),
    ensures
        session::saved_tabs(v@) == tabs_left(session::saved_tabs(tabs@), dirs@),
        forall|i: int| 0 <= i < v@.len() ==> (#[trigger] v@[i]).shells@.len() > 0,
{
    let mut v: Vec<TabState> = Vec::new();
    let ghost all = session::saved_tabs(tabs@);
    let mut i: usize = 0;
    assert(all.take(0) =~= Seq::empty());
    assert(session::saved_tabs(v@) =~= Seq::empty());
    while i < tabs.len()
        invariant
            all == session::saved_tabs(tabs@),
            i <= tabs@.len(),
            dirs@.len() == tabs@.len(),
            forall|k: int|
                0 <= k < tabs@.len() ==> (#[trigger] dirs@[k])@.len() == tabs@[k].shells@.len(),
            session::saved_tabs(v@) == tabs_left(all.take(i as int), dirs@),
            forall|k: int| 0 <= k < v@.len() ==> (#[trigger] v@[k]).shells@.len() > 0,
        decreases tabs.len() - i,
    {
        let t: &TabState = &tabs[i];
        let flags: &Vec<bool> = &dirs[i];
        assert(all.take(i + 1).drop_last() =~= all.take(i as int));
        assert(all.take(i + 1).last() == t@);
        assert(dirs@[i as int] == *flags);
        let mut shells: Vec<ShellState> = Vec::new();
        let ghost row = t@.shells;
        let mut k: usize = 0;
        assert(row.take(0) =~= Seq::empty());
        assert(session::saved_shells(shells@) =~= Seq::empty());
        while k < t.shells.len()
            invariant
                row == t@.shells,
                k <= t.shells@.len(),
                flags@.len() == t.shells@.len(),
                session::saved_shells(shells@) == kept(row.take(k as int), flags@),
            decreases t.shells.len() - k,
        {
            let ghost was = session::saved_shells(shells@);
            assert(row.take(k + 1).drop_last() =~= row.take(k as int));
            assert(row.take(k + 1).last() == t.shells@[k as int]@);
            if flags[k] {
                shells.push(t.shells[k].copy());
                assert(session::saved_shells(shells@) =~= was.push(row[k as int]));
            }
            k += 1;
        }
        assert(row.take(k as int) =~= row);
        assert(session::saved_shells(shells@).len() == shells@.len());
        if shells.len() > 0 {
            let ghost was = session::saved_tabs(v@);
            let left: TabState = TabState {
                active_shell: follow(t.active_shell, flags, shells.len()),
                shells,
                active: t.active,
                favorite: t.favorite,
                auto: t.auto,
            };
            assert(left@ =~= tab_left(t@, flags@));
            v.push(left);
            assert(session::saved_tabs(v@) =~= was.push(left@));
        }
        i += 1;
    }
    assert(all.take(i as int) =~= all);
    v
}

/// The console with a restored tab at its end, active.
pub open spec fn with_restored(a: Ap, state: SavedTab, shells: Seq<Sh>) -> Ap {
    let last = shells.len() - 1;
    Ap {
        tabs: a.tabs.push(
            Tb {
                shells,
                active: if state.active_shell < last {
                    state.active_shell
                } else {
                    last
                },
                favorite: state.favorite,
                auto: state.auto,
            },
        ),
        active: a.tabs.len() as int,
        ..a
    }
}

impl App {
    /// Append a restored tab at the end (restore preserves saved order), with the
    /// shells started for it, and select the shell that was active at save time.
    pub fn restore_tab(&mut self, state: &TabState, shells: Vec<Shell>)
        requires
            app_wf(old(self)@),
            shells@.len() > 0,
        ensures
            final(self)@ == with_restored(old(self)@, state@, tab::shells_of(shells@)),
            app_wf(final(self)@),
    {
        let ghost a = self@;
        let last: usize = shells.len() - 1;
        let n: usize = self.tabs.len();
        let t: Tab = Tab {
            shells,
            active: if state.active_shell < last {
                state.active_shell
            } else {
                last
            },
            favorite: state.favorite,
            auto: state.auto,
        };
        assert(t@.shells.len() == shells@.len());
        self.tabs.push(t);
        self.active = n;
        proof {
            assert(self@.tabs =~= a.tabs.push(t@));
            assert forall|i: int| 0 <= i < self@.tabs.len() implies tab_wf(
                #[trigger] self@.tabs[i],
            ) by {
                if i < n {
                    assert(tab_wf(a.tabs[i]));
                }
            }
        }
    }

    /// Make tab `i` the active one, if it is there.
    pub fn activate(&mut self, i: usize)
        requires
            app_wf(old(self)@),
        ensures
            final(self)@ == (Ap {
                active: if i < old(self)@.tabs.len() {
                    i as int
                } else {
                    old(self)@.active
                },
                ..old(self)@
            }),
            app_wf(final(self)@),
    {
        if i < self.tabs.len() {
            self.active = i;
        }
    }
}

/// The restored tab that becomes active: the last one that was at save time, or the
/// first.
pub fn restored_active(active: &Vec<bool>) -> (n: usize)
    ensures
        n == last_set(active@, active@.len() as int),
{
    let mut i: usize = active.len();
    while i > 0
        invariant
            i <= active@.len(),
            last_set(active@, i as int) == last_set(active@, active@.len() as int),
        decreases i,
    {
        if active[i - 1] {
            return i - 1;
        }
        i -= 1;
    }
    0
}

/// The index of the last flag set below `n`, or zero.
pub open spec fn last_set(flags: Seq<bool>, n: int) -> int
    decreases n,
{
    if n <= 0 {
        0
    } else if flags[n - 1] {
        n - 1
    } else {
        last_set(flags, n - 1)
    }
}

// ── closing what has exited ─────────────────────────────────────────────────

/// How many of the first `n` flags are not set.
pub open spec fn unset(flags: Seq<bool>, n: int) -> int
    decreases n,
{
    if n <= 0 {
        0
    } else {
        unset(flags, n - 1) + if flags[n - 1] {
            0int
        } else {
            1
        }
    }
}

/// An index after the items not kept have left: moved down by those before it, and
/// held to what is left.
pub open spec fn followed(active: int, flags: Seq<bool>, left: int) -> int {
    let n = if active < flags.len() {
        active
    } else {
        flags.len() as int
    };
    let moved = if active > unset(flags, n) {
        active - unset(flags, n)
    } else {
        0
    };
    if left == 0 {
        0
    } else if moved < left {
        moved
    } else {
        left - 1
    }
}

/// A tab without the shells that have exited.
pub open spec fn reaped_tab(t: Tb, alive: Seq<bool>) -> Tb {
    let shells = kept(t.shells, alive);
    Tb { shells, active: followed(t.active, alive, shells.len() as int), ..t }
}

/// The tabs without the shells that have exited, each still in its place.
pub open spec fn reaped_tabs(tabs: Seq<Tb>, alive: Seq<Vec<bool>>) -> Seq<Tb> {
    Seq::new(tabs.len(), |i: int| reaped_tab(tabs[i], alive[i]@))
}

/// Which tabs still have a shell.
pub open spec fn living(tabs: Seq<Tb>) -> Seq<bool> {
    tabs.map_values(|t: Tb| t.shells.len() > 0)
}

/// The console without the shells that have exited and the tabs left with none, its
/// active indices on surviving neighbours.
pub open spec fn reaped(a: Ap, alive: Seq<Vec<bool>>) -> Ap {
    let tabs = reaped_tabs(a.tabs, alive);
    let left = kept(tabs, living(tabs));
    refreshed(
        Ap { tabs: left, active: followed(a.active, living(tabs), left.len() as int), ..a },
    )
}

proof fn lemma_kept_wf(tabs: Seq<Tb>, flags: Seq<bool>)
    requires
        flags.len() >= tabs.len(),
        forall|i: int| 0 <= i < tabs.len() && flags[i] ==> tab_wf(#[trigger] tabs[i]),
    ensures
        forall|i: int|
            0 <= i < kept(tabs, flags).len() ==> tab_wf(#[trigger] kept(tabs, flags)[i]),
    decreases tabs.len(),
{
    if tabs.len() > 0 {
        let front = tabs.drop_last();
        assert forall|i: int| 0 <= i < front.len() && flags[i] implies tab_wf(
            #[trigger] front[i],
        ) by {
            assert(tab_wf(tabs[i]));
        }
        lemma_kept_wf(front, flags);
        assert forall|i: int| 0 <= i < kept(tabs, flags).len() implies tab_wf(
            #[trigger] kept(tabs, flags)[i],
        ) by {
            if i < kept(front, flags).len() {
                assert(tab_wf(kept(front, flags)[i]));
            } else {
                assert(tab_wf(tabs[tabs.len() - 1]));
            }
        }
    }
}

fn follow(active: usize, flags: &Vec<bool>, left: usize) -> (n: usize)
    ensures
        n == followed(active as int, flags@, left as int),
{
    let len: usize = flags.len();
    let to: usize = if active < len {
        active
    } else {
        len
    };
    let mut gone: usize = 0;
    let mut i: usize = 0;
    while i < to
        invariant
            i <= to <= flags@.len(),
            gone == unset(flags@, i as int),
            gone <= i,
        decreases to - i,
    {
        if !flags[i] {
            gone += 1;
        }
        i += 1;
    }
    let moved: usize = active.saturating_sub(gone);
    if left == 0 {
        0
    } else if moved < left {
        moved
    } else {
        left - 1
    }
}

fn keep_shells(shells: &mut Vec<Shell>, flags: &Vec<bool>)
    requires
        flags@.len() == old(shells)@.len(),
    ensures
        tab::shells_of(final(shells)@) == kept(tab::shells_of(old(shells)@), flags@),
{
    let ghost all = tab::shells_of(shells@);
    let n: usize = flags.len();
    let mut i: usize = 0;
    let mut at: usize = 0;
    assert(all.take(0) =~= Seq::empty());
    assert(tab::shells_of(shells@) =~= kept(all.take(0), flags@) + all.skip(0));
    while i < n
        invariant
            i <= n,
            n == flags@.len() == all.len(),
            at == kept(all.take(i as int), flags@).len(),
            tab::shells_of(shells@) == kept(all.take(i as int), flags@) + all.skip(i as int),
        decreases n - i,
    {
        let ghost was = kept(all.take(i as int), flags@);
        let ghost before = tab::shells_of(shells@);
        proof {
            lemma_kept_len(all.take(i as int), flags@);
        }
        assert(all.take(i + 1).drop_last() =~= all.take(i as int));
        assert(all.take(i + 1).last() == all[i as int]);
        assert(tab::shells_of(shells@).len() == shells@.len());
        assert(tab::shells_of(shells@)[at as int] == all[i as int]);
        if flags[i] {
            assert(kept(all.take(i + 1), flags@) =~= was.push(all[i as int]));
            at += 1;
        } else {
            let _ = shells.remove(at);
            assert(kept(all.take(i + 1), flags@) =~= was);
            assert(tab::shells_of(shells@) =~= before.remove(at as int));
        }
        assert(tab::shells_of(shells@) =~= kept(all.take(i + 1), flags@) + all.skip(i + 1));
        i += 1;
    }
    assert(all.take(i as int) =~= all);
    assert(tab::shells_of(shells@) =~= kept(all, flags@));
}

fn keep_tabs(tabs: &mut Vec<Tab>, flags: &Vec<bool>)
    requires
        flags@.len() == old(tabs)@.len(),
    ensures
        tabs_of(final(tabs)@) == kept(tabs_of(old(tabs)@), flags@),
{
    let ghost all = tabs_of(tabs@);
    let n: usize = flags.len();
    let mut i: usize = 0;
    let mut at: usize = 0;
    assert(all.take(0) =~= Seq::empty());
    assert(tabs_of(tabs@) =~= kept(all.take(0), flags@) + all.skip(0));
    while i < n
        invariant
            i <= n,
            n == flags@.len() == all.len(),
            at == kept(all.take(i as int), flags@).len(),
            tabs_of(tabs@) == kept(all.take(i as int), flags@) + all.skip(i as int),
        decreases n - i,
    {
        let ghost was = kept(all.take(i as int), flags@);
        let ghost before = tabs_of(tabs@);
        proof {
            lemma_kept_len(all.take(i as int), flags@);
        }
        assert(all.take(i + 1).drop_last() =~= all.take(i as int));
        assert(all.take(i + 1).last() == all[i as int]);
        assert(tabs_of(tabs@).len() == tabs@.len());
        assert(tabs_of(tabs@)[at as int] == all[i as int]);
        if flags[i] {
            assert(kept(all.take(i + 1), flags@) =~= was.push(all[i as int]));
            at += 1;
        } else {
            let _ = tabs.remove(at);
            assert(kept(all.take(i + 1), flags@) =~= was);
            assert(tabs_of(tabs@) =~= before.remove(at as int));
        }
        assert(tabs_of(tabs@) =~= kept(all.take(i + 1), flags@) + all.skip(i + 1));
        i += 1;
    }
    assert(all.take(i as int) =~= all);
    assert(tabs_of(tabs@) =~= kept(all, flags@));
}

impl App {
    /// Drop shells that have exited, then tabs left with no shell, keeping every
    /// active index on a surviving neighbour. `alive` says of each shell of each tab
    /// whether it still runs.
    pub fn reap_dead_tabs(&mut self, alive: &Vec<Vec<bool>>)
        requires
            app_wf(old(self)@),
            alive@.len() == old(self)@.tabs.len(),
            forall|i: int|
                0 <= i < alive@.len() ==> (#[trigger] alive@[i])@.len()
                    == old(self)@.tabs[i].shells.len(),
        ensures
            final(self)@ == reaped(old(self)@, alive@),
            app_wf(final(self)@),
    {
        let ghost a = self@;
        let ghost after = reaped_tabs(a.tabs, alive@);
        let n: usize = self.tabs.len();
        let mut flags: Vec<bool> = Vec::new();
        let mut i: usize = 0;
        while i < n
            invariant
                i <= n,
                n == self.tabs@.len() == a.tabs.len(),
                alive@.len() == n,
                after == reaped_tabs(a.tabs, alive@),
                forall|k: int|
                    0 <= k < alive@.len() ==> (#[trigger] alive@[k])@.len()
                        == a.tabs[k].shells.len(),
                self@ == (Ap { tabs: self@.tabs, ..a }),
                forall|k: int| 0 <= k < i ==> #[trigger] self.tabs@[k]@ == after[k],
                forall|k: int| i <= k < n ==> #[trigger] self.tabs@[k]@ == a.tabs[k],
                flags@.len() == i,
                forall|k: int| 0 <= k < i ==> #[trigger] flags@[k] == (after[k].shells.len() > 0),
            decreases n - i,
        {
            let ghost t = a.tabs[i as int];
            assert(self.tabs@[i as int]@ == t);
            let f: &Vec<bool> = &alive[i];
            assert(alive@[i as int] == *f);
            assert(t.shells.len() == self.tabs@[i as int].shells@.len());
            keep_shells(&mut self.tabs[i].shells, f);
            assert(self.tabs@[i as int]@.shells.len() == self.tabs@[i as int].shells@.len());
            let left: usize = self.tabs[i].shells.len();
            let active: usize = follow(self.tabs[i].active, f, left);
            self.tabs[i].active = active;
            assert(self.tabs@[i as int]@ =~= reaped_tab(t, f@));
            flags.push(left > 0);
            i += 1;
        }
        assert(tabs_of(self.tabs@) =~= after);
        assert(flags@ =~= living(after));
        keep_tabs(&mut self.tabs, &flags);
        assert(tabs_of(self.tabs@) == kept(after, flags@));
        let left: usize = self.tabs.len();
        self.active = follow(self.active, &flags, left);
        proof {
            assert forall|k: int| 0 <= k < after.len() && flags@[k] implies tab_wf(
                #[trigger] after[k],
            ) by {
                assert(tab_wf(a.tabs[k]));
                lemma_unset(alive@[k]@, a.tabs[k].active);
            }
            lemma_kept_wf(after, flags@);
            lemma_unset(flags@, a.active);
        }
        self.refresh_after_change();
        assert(self@ =~= reaped(a, alive@));
    }

    /// Rebuild the filtered list after the tabs themselves have changed.
    fn refresh_after_change(&mut self)
        ensures
            final(self)@ == refreshed(old(self)@),
            (forall|i: int| 0 <= i < old(self)@.tabs.len() ==> tab_wf(#[trigger] old(self)@.tabs[i]))
                && 0 <= old(self)@.active && (old(self)@.active < old(self)@.tabs.len() || (
            old(self)@.active == 0 && old(self)@.tabs.len() == 0)) && old(self)@.sidebar_width
                >= MIN_SIDEBAR_WIDTH ==> app_wf(final(self)@),
    {
        self.refresh_shown();
        assert(self.tabs.len() == self.tabs@.len());
        proof {
            the_filtered_list_is_in_order(
                self@.tabs,
                lowercase(self@.search),
                self@.tabs.len() as int,
            );
        }
    }
}

proof fn lemma_unset(flags: Seq<bool>, n: int)
    ensures
        0 <= unset(flags, n) && (n >= 0 ==> unset(flags, n) <= n),
    decreases n,
{
    if n > 0 {
        lemma_unset(flags, n - 1);
    }
}

proof fn lemma_kept_at<T>(v: Seq<T>, flags: Seq<bool>, i: int)
    requires
        0 <= i <= v.len() <= flags.len(),
    ensures
        kept(v, flags).len() == v.len() - unset(flags, v.len() as int),
        i < v.len() && flags[i] ==> 0 <= i - unset(flags, i) < kept(v, flags).len() && kept(
            v,
            flags,
        )[i - unset(flags, i)] == v[i],
    decreases v.len(),
{
    if v.len() > 0 {
        let front = v.drop_last();
        if i < front.len() {
            lemma_kept_at(front, flags, i);
            assert(front[i] == v[i]);
        } else {
            lemma_kept_at(front, flags, front.len() as int);
        }
        lemma_unset(flags, i);
    }
}

/// Closing what has exited never takes focus away: as long as the shell on screen
/// still runs, it stays on screen, whatever else closed around it.
pub proof fn reaping_keeps_the_shell_on_screen(a: Ap, alive: Seq<Vec<bool>>)
    requires
        app_wf(a),
        a.tabs.len() > 0,
        alive.len() == a.tabs.len(),
        forall|i: int|
            0 <= i < alive.len() ==> (#[trigger] alive[i])@.len() == a.tabs[i].shells.len(),
        alive[a.active]@[a.tabs[a.active].active],
    ensures
        on_screen(reaped(a, alive)) matches Some((i, k)) && reaped(a, alive).tabs[i].shells[k]
            == a.tabs[a.active].shells[a.tabs[a.active].active],
{
    let t = a.tabs[a.active];
    let flags = alive[a.active]@;
    assert(tab_wf(t));
    lemma_kept_at(t.shells, flags, t.active);
    lemma_unset(flags, t.active);
    let tabs = reaped_tabs(a.tabs, alive);
    let rt = reaped_tab(t, flags);
    assert(tabs[a.active] == rt);
    assert(rt.shells[rt.active] == t.shells[t.active]);
    assert(living(tabs)[a.active]);
    lemma_kept_at(tabs, living(tabs), a.active);
    lemma_unset(living(tabs), a.active);
}

/// A tab is restored with the shell that was active when it was saved: as long as that
/// shell's folder is still there, it is the active one, whichever others are gone.
pub proof fn restoring_keeps_the_active_shell(a: Ap, t: SavedTab, dirs: Seq<bool>, shells: Seq<Sh>)
    requires
        0 <= t.active_shell < t.shells.len(),
        dirs.len() == t.shells.len(),
        dirs[t.active_shell],
        shells.len() == tab_left(t, dirs).shells.len(),
    ensures
        ({
            let left = tab_left(t, dirs);
            let restored = with_restored(a, left, shells).tabs.last();
            &&& left.shells[restored.active] == t.shells[t.active_shell]
            &&& restored.active < restored.shells.len()
        }),
{
    lemma_kept_at(t.shells, dirs, t.active_shell);
    lemma_unset(dirs, t.active_shell);
}

// ── saving ──────────────────────────────────────────────────────────────────

/// What is saved of a shell.
pub open spec fn saved_shell(s: Sh, base: Seq<char>) -> SavedShell {
    SavedShell {
        cwd: match s.cwd {
            Some(cwd) => cwd,
            None => base,
        },
        cmd: s.fg_cmd,
    }
}

/// What is saved of tab `i`.
pub open spec fn saved_tab(a: Ap, i: int) -> SavedTab {
    let t = a.tabs[i];
    SavedTab {
        shells: t.shells.map_values(|s: Sh| saved_shell(s, a.base)),
        active_shell: t.active,
        active: i == a.active,
        favorite: t.favorite,
        auto: t.auto,
    }
}

/// The session the console would be saved as.
pub open spec fn session_of(a: Ap) -> Saved {
    Saved { tabs: Seq::new(a.tabs.len(), |i: int| saved_tab(a, i)), copy_mode: a.copy_mode }
}

/// The console after its session was saved, and the text to save when it differs
/// from what was saved last.
pub open spec fn saved_now(a: Ap) -> (Ap, Option<Seq<char>>) {
    if session_of(a) == a.saved_session {
        (a, None)
    } else {
        (
            Ap { saved_session: session_of(a), ..a },
            Some(session::saved_text(session_of(a))),
        )
    }
}

/// What is saved of the console reads back as its session: its tabs and shells in
/// order with their folders, commands and marks, line breaks and tabs flattened.
pub proof fn a_saved_console_reads_back(a: Ap)
    requires
        app_wf(a),
        a.base.len() > 0 && a.base[0] == '/',
        forall|i: int, k: int|
            #![trigger a.tabs[i].shells[k]]
            0 <= i < a.tabs.len() && 0 <= k < a.tabs[i].shells.len() ==> (
            a.tabs[i].shells[k].cwd matches Some(cwd) ==> cwd.len() > 0 && cwd[0] == '/'),
    ensures
        session::loaded(session::saved_text(session_of(a))) == session::flat_session(
            session_of(a),
        ),
{
    let s = session_of(a);
    assert forall|i: int| 0 <= i < s.tabs.len() implies session::storable(#[trigger] s.tabs[i]) by {
        assert(tab_wf(a.tabs[i]));
        assert forall|k: int| 0 <= k < s.tabs[i].shells.len() implies #[trigger] s.tabs[i].shells[k].cwd.len()
            > 0 && s.tabs[i].shells[k].cwd[0] == '/' by {
            let shell = a.tabs[i].shells[k];
        }
    }
    session::session_reads_back(s);
}

impl App {
    /// The session the console would be saved as. Building it reads nothing but what
    /// was last sampled.
    pub fn session(&self) -> (s: Session)
        ensures
            s@ == session_of(self@),
    {
        let ghost a = self@;
        let mut tabs: Vec<TabState> = Vec::new();
        let mut i: usize = 0;
        while i < self.tabs.len()
            invariant
                a == self@,
                i <= self.tabs@.len(),
                tabs@.len() == i,
                forall|k: int| 0 <= k < i ==> (#[trigger] tabs@[k])@ == saved_tab(a, k),
            decreases self.tabs.len() - i,
        {
            let t: &Tab = &self.tabs[i];
            assert(a.tabs[i as int] == t@);
            let mut shells: Vec<ShellState> = Vec::new();
            let mut k: usize = 0;
            while k < t.shells.len()
                invariant
                    a == self@,
                    k <= t.shells@.len(),
                    shells@.len() == k,
                    forall|j: int|
                        0 <= j < k ==> (#[trigger] shells@[j])@ == saved_shell(
                            t@.shells[j],
                            a.base,
                        ),
                decreases t.shells.len() - k,
            {
                let s: &Shell = &t.shells[k];
                assert(t@.shells[k as int] == s@);
                let state: ShellState = ShellState {
                    cwd: match &s.cwd {
                        Some(cwd) => copy(cwd.as_str()),
                        None => copy(self.base.as_str()),
                    },
                    cmd: copy_opt(&s.fg_cmd),
                };
                shells.push(state);
                k += 1;
            }
            let state: TabState = TabState {
                shells,
                active_shell: t.active,
                active: i == self.active,
                favorite: t.favorite,
                auto: t.auto,
            };
            assert(state@.shells =~= saved_tab(a, i as int).shells);
            tabs.push(state);
            i += 1;
        }
        let s: Session = Session { tabs, copy_mode: self.copy_mode };
        assert(s@.tabs =~= session_of(a).tabs);
        s
    }

    /// The text of the session file, when what it should hold has changed since it
    /// was last written.
    pub fn persist_now(&mut self) -> (text: Option<String>)
        ensures
            (final(self)@, text::opt(text)) == saved_now(old(self)@),
            app_wf(old(self)@) ==> app_wf(final(self)@),
    {
        let s: Session = self.session();
        if s.same(&self.saved_session) {
            return None;
        }
        let text: String = save_session(&s);
        self.saved_session = s;
        Some(text)
    }

    /// Save the session, at most once a second.
    pub fn persist_session(&mut self, now: u64) -> (text: Option<String>)
        ensures
            ({
                let a = old(self)@;
                if crate::shell::since(a.persisted, now) < PERSIST_EVERY {
                    (final(self)@, text::opt(text)) == (a, None::<Seq<char>>)
                } else {
                    (final(self)@, text::opt(text)) == saved_now(Ap { persisted: now, ..a })
                }
            }),
            now < old(self)@.persisted + 1_000_000_000 ==> text is None,
            now >= old(self)@.persisted + 1_000_000_000 ==> final(self)@.persisted == now
                && session_of(final(self)@) == final(self)@.saved_session,
            app_wf(old(self)@) ==> app_wf(final(self)@),
    {
        if now.saturating_sub(self.persisted) < PERSIST_EVERY {
            return None;
        }
        self.persisted = now;
        self.persist_now()
    }

    /// Toggle a tab's auto feature, and save the choice at once.
    pub fn toggle_auto(&mut self, i: usize) -> (text: Option<String>)
        requires
            app_wf(old(self)@),
            i < old(self)@.tabs.len(),
        ensures
            (final(self)@, text::opt(text)) == auto_toggled(old(self)@, i as int),
            app_wf(final(self)@),
    {
        let ghost a = self@;
        assert(self.tabs@[i as int]@ == a.tabs[i as int]);
        let on: bool = self.tabs[i].auto;
        self.tabs[i].auto = !on;
        proof {
            let t = a.tabs[i as int];
            assert(self@.tabs =~= a.tabs.update(i as int, Tb { auto: !t.auto, ..t }));
            assert forall|k: int| 0 <= k < self@.tabs.len() implies tab_wf(
                #[trigger] self@.tabs[k],
            ) by {
                assert(tab_wf(a.tabs[k]));
            }
        }
        self.persist_now()
    }
}

/// The console with the auto feature of tab `i` toggled, and the text to save.
pub open spec fn auto_toggled(a: Ap, i: int) -> (Ap, Option<Seq<char>>) {
    let t = a.tabs[i];
    saved_now(Ap { tabs: a.tabs.update(i, Tb { auto: !t.auto, ..t }), ..a })
}

// ── sampling ────────────────────────────────────────────────────────────────

/// How many shells the tabs have.
pub open spec fn shell_count(tabs: Seq<Tb>) -> int
    decreases tabs.len(),
{
    if tabs.len() == 0 {
        0
    } else {
        tabs[0].shells.len() + shell_count(tabs.skip(1))
    }
}

/// The tab and shell of the `n`th shell, from tab `i` on.
pub open spec fn flat(tabs: Seq<Tb>, i: int, n: int) -> (int, int)
    decreases tabs.len() - i,
{
    if i < 0 || i >= tabs.len() {
        (0, 0)
    } else if n < tabs[i].shells.len() {
        (i, n)
    } else {
        flat(tabs, i + 1, n - tabs[i].shells.len())
    }
}

/// The process of every shell that has one, in order.
pub open spec fn tab_pids(shells: Seq<Sh>) -> Seq<u32>
    decreases shells.len(),
{
    if shells.len() == 0 {
        Seq::empty()
    } else {
        match shells.last().pid {
            Some(pid) => tab_pids(shells.drop_last()).push(pid),
            None => tab_pids(shells.drop_last()),
        }
    }
}

/// The process of every shell of every tab that has one, in order.
pub open spec fn all_pids(tabs: Seq<Tb>) -> Seq<u32>
    decreases tabs.len(),
{
    if tabs.len() == 0 {
        Seq::empty()
    } else {
        all_pids(tabs.drop_last()) + tab_pids(tabs.last().shells)
    }
}

/// The process of the shell on screen.
pub open spec fn screen_pid(a: Ap) -> Option<u32> {
    match on_screen(a) {
        Some((i, k)) => a.tabs[i].shells[k].pid,
        None => None,
    }
}

/// The process probed for an agent when the cursor stands at `cursor`: the one on
/// screen on even turns, the next in the rotation on odd ones.
pub open spec fn probe_target(a: Ap, cursor: usize) -> Option<u32> {
    let pids = all_pids(a.tabs);
    if cursor % 2 == 0 && screen_pid(a) is Some {
        screen_pid(a)
    } else if pids.len() > 0 {
        Some(pids[(cursor / 2) as int % pids.len() as int])
    } else {
        screen_pid(a)
    }
}

/// The rotation reaches every shell: each process has a turn of the cursor that
/// probes it.
pub proof fn every_shell_has_its_turn(a: Ap, k: int)
    requires
        0 <= k < all_pids(a.tabs).len(),
        2 * all_pids(a.tabs).len() < usize::MAX,
    ensures
        probe_target(a, (2 * k + 1) as usize) == Some(all_pids(a.tabs)[k]),
{
    let n = all_pids(a.tabs).len() as int;
    let cursor = (2 * k + 1) as usize;
    assert(cursor / 2 == k);
    vstd::arithmetic::div_mod::lemma_small_mod(k as nat, n as nat);
}

/// Every shell has a flat index: the number of shells before it.
pub proof fn every_shell_has_a_flat_index(tabs: Seq<Tb>, i: int, t: int, s: int) -> (n: int)
    requires
        0 <= i <= t < tabs.len(),
        0 <= s < tabs[t].shells.len(),
    ensures
        0 <= n < shell_count(tabs.skip(i)),
        flat(tabs, i, n) == (t, s),
    decreases t - i,
{
    assert(tabs.skip(i).skip(1) =~= tabs.skip(i + 1));
    if i < t {
        let n = every_shell_has_a_flat_index(tabs, i + 1, t, s);
        n + tabs[i].shells.len()
    } else {
        lemma_count_nonneg(tabs.skip(i + 1));
        s
    }
}

proof fn lemma_count_nonneg(tabs: Seq<Tb>)
    ensures
        shell_count(tabs) >= 0,
    decreases tabs.len(),
{
    if tabs.len() > 0 {
        lemma_count_nonneg(tabs.skip(1));
    }
}

/// A flat index below the number of shells names a shell that is there.
pub proof fn flat_indices_are_there(tabs: Seq<Tb>, i: int, n: int)
    requires
        0 <= i <= tabs.len(),
        0 <= n < shell_count(tabs.skip(i)),
    ensures
        ({
            let (t, s) = flat(tabs, i, n);
            0 <= t < tabs.len() && 0 <= s < tabs[t].shells.len()
        }),
    decreases tabs.len() - i,
{
    if i < tabs.len() {
        assert(tabs.skip(i).skip(1) =~= tabs.skip(i + 1));
        if n >= tabs[i].shells.len() {
            flat_indices_are_there(tabs, i + 1, n - tabs[i].shells.len());
        }
    } else {
        assert(tabs.skip(i) =~= Seq::empty());
    }
}

impl App {
    /// Translate a flat shell index into tab and shell.
    pub fn flat_index(&self, n: u128) -> (r: (usize, usize))
        ensures
            (r.0 as int, r.1 as int) == flat(self@.tabs, 0, n as int),
    {
        let ghost tabs = self@.tabs;
        let mut left: u128 = n;
        let mut i: usize = 0;
        while i < self.tabs.len()
            invariant
                tabs == self@.tabs,
                i <= self.tabs@.len(),
                flat(tabs, i as int, left as int) == flat(tabs, 0, n as int),
            decreases self.tabs.len() - i,
        {
            assert(tabs[i as int] == self.tabs@[i as int]@);
            let len: usize = self.tabs[i].shells.len();
            assert(tabs[i as int].shells.len() == len);
            if left < len as u128 {
                return (i, left as usize);
            }
            left = left - len as u128;
            i += 1;
        }
        (0, 0)
    }

    /// How many shells there are.
    pub fn total_shells(&self) -> (n: u128)
        ensures
            n == shell_count(self@.tabs),
            n <= u128::MAX - SAMPLE_FRAMES,
    {
        let ghost tabs = self@.tabs;
        let mut n: u128 = 0;
        let mut i: usize = self.tabs.len();
        assert(tabs.skip(i as int) =~= Seq::empty());
        assert(self.tabs.len() == self.tabs@.len());
        assert(usize::MAX * usize::MAX <= u128::MAX - SAMPLE_FRAMES) by (nonlinear_arith)
            requires
                usize::MAX <= 0xffff_ffff_ffff_ffff,
                SAMPLE_FRAMES == 16,
        ;
        while i > 0
            invariant
                usize::MAX * usize::MAX <= u128::MAX - SAMPLE_FRAMES,
                tabs == self@.tabs,
                i <= self.tabs@.len() <= usize::MAX,
                n == shell_count(tabs.skip(i as int)),
                n <= (self.tabs@.len() - i) * usize::MAX,
            decreases i,
        {
            let len: usize = self.tabs[i - 1].shells.len();
            assert(tabs[i - 1] == self.tabs@[i - 1]@);
            assert(tabs[i - 1].shells.len() == len);
            assert(tabs.skip(i - 1).skip(1) =~= tabs.skip(i as int));
            let ghost done = self.tabs@.len() - i;
            assert(done * usize::MAX + usize::MAX == (done + 1) * usize::MAX) by (nonlinear_arith);
            assert((done + 1) * usize::MAX <= usize::MAX * usize::MAX) by (nonlinear_arith)
                requires
                    0 <= done + 1 <= usize::MAX,
            ;
            n = n + len as u128;
            i -= 1;
        }
        assert(self.tabs@.len() * usize::MAX <= usize::MAX * usize::MAX) by (nonlinear_arith)
            requires
                self.tabs@.len() <= usize::MAX,
        ;
        assert(tabs.skip(0) =~= tabs);
        n
    }

    /// How many shells to sample this frame, so that each is sampled about twice a
    /// second and no frame samples them all.
    pub fn sample_count(&self) -> (n: u128)
        ensures
            n == (shell_count(self@.tabs) + SAMPLE_FRAMES - 1) / SAMPLE_FRAMES as int,
            16 * n >= shell_count(self@.tabs),
            16 * n < shell_count(self@.tabs) + 16,
    {
        let total: u128 = self.total_shells();
        (total + SAMPLE_FRAMES - 1) / SAMPLE_FRAMES
    }

    /// The next shell to sample; the cursor moves on.
    pub fn sample_next(&mut self) -> (r: Option<(usize, usize)>)
        ensures
            shell_count(old(self)@.tabs) == 0 ==> r is None && final(self)@ == old(self)@,
            shell_count(old(self)@.tabs) > 0 ==> {
                let total = shell_count(old(self)@.tabs);
                let at = old(self)@.proc_cursor % total;
                &&& r matches Some((i, k)) && (i as int, k as int) == flat(old(self)@.tabs, 0, at)
                &&& final(self)@ == (Ap { proc_cursor: (at + 1) % total, ..old(self)@ })
            },
            r matches Some((i, k)) ==> i < old(self)@.tabs.len() && k < old(
                self,
            )@.tabs[i as int].shells.len(),
    {
        let total: u128 = self.total_shells();
        if total == 0 {
            return None;
        }
        let at: u128 = self.proc_cursor % total;
        let found: (usize, usize) = self.flat_index(at);
        proof {
            assert(self@.tabs.skip(0) =~= self@.tabs);
            flat_indices_are_there(self@.tabs, 0, at as int);
        }
        self.proc_cursor = (at + 1) % total;
        Some(found)
    }

    fn pids(&self) -> (v: Vec<u32>)
        ensures
            v@ == all_pids(self@.tabs),
    {
        let ghost tabs = self@.tabs;
        let mut v: Vec<u32> = Vec::new();
        let mut i: usize = 0;
        assert(tabs.take(0) =~= Seq::empty());
        while i < self.tabs.len()
            invariant
                tabs == self@.tabs,
                i <= self.tabs@.len(),
                v@ == all_pids(tabs.take(i as int)),
            decreases self.tabs.len() - i,
        {
            let t: &Tab = &self.tabs[i];
            assert(tabs.take(i + 1).drop_last() =~= tabs.take(i as int));
            assert(tabs.take(i + 1).last() == t@);
            let ghost shells = t@.shells;
            let ghost was = v@;
            let mut k: usize = 0;
            assert(shells.take(0) =~= Seq::empty());
            assert(v@ =~= was + tab_pids(shells.take(0)));
            while k < t.shells.len()
                invariant
                    shells == t@.shells,
                    k <= t.shells@.len(),
                    v@ == was + tab_pids(shells.take(k as int)),
                decreases t.shells.len() - k,
            {
                assert(shells.take(k + 1).drop_last() =~= shells.take(k as int));
                assert(shells.take(k + 1).last() == t.shells@[k as int]@);
                if let Some(pid) = t.shells[k].pid {
                    v.push(pid);
                }
                assert(v@ =~= was + tab_pids(shells.take(k + 1)));
                k += 1;
            }
            assert(shells.take(k as int) =~= shells);
            i += 1;
        }
        assert(tabs.take(i as int) =~= tabs);
        v
    }

    /// Next shell to resolve an agent for: the one on screen on even turns, the next
    /// in the rotation on odd ones.
    pub fn next_probe_target(&mut self) -> (r: Option<u32>)
        requires
            app_wf(old(self)@),
        ensures
            ({
                let next = if old(self)@.agent_cursor < usize::MAX {
                    (old(self)@.agent_cursor + 1) as usize
                } else {
                    0
                };
                &&& final(self)@ == (Ap { agent_cursor: next, ..old(self)@ })
                &&& r == probe_target(old(self)@, next)
            }),
            app_wf(final(self)@),
    {
        let on_screen: Option<u32> = if self.active < self.tabs.len() {
            let t: &Tab = &self.tabs[self.active];
            assert(self@.tabs[self@.active] == t@);
            assert(tab_wf(self@.tabs[self@.active]));
            assert(t@.shells[t@.active] == t.shells@[t.active as int]@);
            t.shells[t.active].pid
        } else {
            None
        };
        self.agent_cursor = if self.agent_cursor < usize::MAX {
            self.agent_cursor + 1
        } else {
            0
        };
        if self.agent_cursor % 2 == 0 && on_screen.is_some() {
            return on_screen;
        }
        let pids: Vec<u32> = self.pids();
        if pids.len() > 0 {
            Some(pids[self.agent_cursor / 2 % pids.len()])
        } else {
            on_screen
        }
    }
}

// ── fitting the terminal ────────────────────────────────────────────────────

/// `v` held to `[low, high]`.
pub open spec fn clamped(v: int, low: int, high: int) -> int {
    if v < low {
        low
    } else if v > high {
        high
    } else {
        v
    }
}

/// The widest the sidebar may be.
pub open spec fn widest(term_width: u16) -> int {
    if term_width - MIN_PANE_WIDTH > MIN_SIDEBAR_WIDTH {
        term_width - MIN_PANE_WIDTH
    } else {
        MIN_SIDEBAR_WIDTH as int
    }
}

/// The console fitted to a host terminal, and whether every shell must be resized to
/// the pane. A terminal too small to hold the pane only clamps the sidebar.
pub open spec fn fitted(a: Ap, width: u16, height: u16, now: u64) -> (Ap, bool) {
    let sidebar = clamped(a.sidebar_width as int, MIN_SIDEBAR_WIDTH as int, widest(width)) as u16;
    let b = Ap { term_width: width, sidebar_width: sidebar, ..a };
    let rows = (height - 1) as u16;
    let cols = (width - sidebar) as u16;
    if height < 3 || width <= sidebar + 1 || (rows == a.pty_rows && cols == a.pty_cols) {
        (b, false)
    } else {
        (
            Ap {
                pty_rows: rows,
                pty_cols: cols,
                selection: None,
                tabs: a.tabs.map_values(|t: Tb| resized_tab(t, now)),
                ..b
            },
            true,
        )
    }
}

/// A tab whose shells were resized.
pub open spec fn resized_tab(t: Tb, now: u64) -> Tb {
    Tb { shells: t.shells.map_values(|s: Sh| Sh { resized: now, ..s }), ..t }
}

impl App {
    /// Keep every shell sized to the pane: the sidebar is clamped when the terminal
    /// shrinks, so the pane never collapses to nothing. Returns whether the shells
    /// must be resized; the grid is then laid out anew, and a selection dropped.
    pub fn fit_ptys(&mut self, width: u16, height: u16, now: u64) -> (resize: bool)
        ensures
            (final(self)@, resize) == fitted(old(self)@, width, height, now),
            app_wf(old(self)@) ==> app_wf(final(self)@),
            resize ==> final(self)@.pty_rows >= 2 && final(self)@.pty_cols >= 2,
    {
        self.term_width = width;
        self.clamp_sidebar(self.sidebar_width as u32);
        if height < 3 || (width as u32) <= self.sidebar_width as u32 + 1 {
            return false;
        }
        let rows: u16 = height - 1;  // one line reserved for the status bar
        let cols: u16 = width - self.sidebar_width;
        if rows == self.pty_rows && cols == self.pty_cols {
            return false;
        }
        self.pty_rows = rows;
        self.pty_cols = cols;
        self.selection = None;  // the grid is laid out anew: old cells are stale
        self.resize_shells(now);
        assert(self@ =~= fitted(old(self)@, width, height, now).0);
        true
    }

    fn resize_shells(&mut self, now: u64)
        ensures
            final(self)@ == (Ap {
                tabs: old(self)@.tabs.map_values(|t: Tb| resized_tab(t, now)),
                ..old(self)@
            }),
            app_wf(old(self)@) ==> app_wf(final(self)@),
    {
        let ghost a = self@;
        let n: usize = self.tabs.len();
        let mut i: usize = 0;
        while i < n
            invariant
                i <= n == a.tabs.len(),
                self.tabs@.len() == n,
                self@ == (Ap { tabs: self@.tabs, ..a }),
                forall|k: int| 0 <= k < i ==> (#[trigger] self@.tabs[k]) == resized_tab(a.tabs[k], now),
                forall|k: int| i <= k < n ==> (#[trigger] self@.tabs[k]) == a.tabs[k],
            decreases n - i,
        {
            let ghost before = self@.tabs;
            assert(before[i as int] == a.tabs[i as int]);
            self.tabs[i].resize(now);
            assert(self@.tabs =~= before.update(i as int, resized_tab(a.tabs[i as int], now)));
            i += 1;
        }
        assert(self@.tabs =~= a.tabs.map_values(|t: Tb| resized_tab(t, now)));
        proof {
            if app_wf(a) {
                assert forall|k: int| 0 <= k < self@.tabs.len() implies tab_wf(
                    #[trigger] self@.tabs[k],
                ) by {
                    assert(tab_wf(a.tabs[k]));
                }
            }
        }
    }

    pub(crate) fn clamp_sidebar(&mut self, want: u32)
        ensures
            final(self)@ == (Ap {
                sidebar_width: clamped(
                    want as int,
                    MIN_SIDEBAR_WIDTH as int,
                    widest(old(self)@.term_width),
                ) as u16,
                ..old(self)@
            }),
    {
        let room: u16 = self.term_width.saturating_sub(MIN_PANE_WIDTH);
        let max: u16 = if room > MIN_SIDEBAR_WIDTH {
            room
        } else {
            MIN_SIDEBAR_WIDTH
        };
        self.sidebar_width = if want < MIN_SIDEBAR_WIDTH as u32 {
            MIN_SIDEBAR_WIDTH
        } else if want > max as u32 {
            max
        } else {
            want as u16
        };
    }

    /// Take the sidebar's height for drawing it: rebuild the filtered list and clamp
    /// the scroll position, as the tab count, filter or height may have shrunk.
    pub fn lay_out(&mut self, sidebar_rows: u16)
        requires
            app_wf(old(self)@),
        ensures
            final(self)@ == laid_out(old(self)@, sidebar_rows),
            app_wf(final(self)@),
    {
        self.refresh_shown();
        self.sidebar_rows = sidebar_rows;
        let max: usize = self.max_offset();
        if self.list_offset > max {
            self.list_offset = max;
        }
    }

    /// A selection belongs to the shell it was made in: switching tab or shell drops
    /// it, so a copy can never reach for text nobody can see.
    pub fn drop_stale_selection(&mut self)
        requires
            app_wf(old(self)@),
        ensures
            final(self)@ == unstale(old(self)@),
            app_wf(final(self)@),
    {
        let on_screen: Option<(usize, usize)> = if self.active < self.tabs.len() {
            assert(self@.tabs[self@.active] == self.tabs@[self.active as int]@);
            Some((self.active, self.tabs[self.active].active))
        } else {
            None
        };
        let stale: bool = match &self.selection {
            Some(sel) => match on_screen {
                Some((i, k)) => sel.shell.0 != i || sel.shell.1 != k,
                None => true,
            },
            None => false,
        };
        if stale {
            self.selection = None;
        }
    }
}

/// The console laid out on a sidebar of the given height.
pub open spec fn laid_out(a: Ap, sidebar_rows: u16) -> Ap {
    let b = Ap { sidebar_rows, ..refreshed(a) };
    Ap {
        list_offset: if b.list_offset < last_offset(b) {
            b.list_offset
        } else {
            last_offset(b)
        },
        ..b
    }
}

/// Whether a selection was made in the shell on screen.
pub open spec fn made_on_screen(a: Ap, sel: Sel) -> bool {
    on_screen(a) == Some((sel.shell.0 as int, sel.shell.1 as int))
}

/// The console without a selection made in a shell that is not on screen.
pub open spec fn unstale(a: Ap) -> Ap {
    match a.selection {
        Some(sel) => if made_on_screen(a, sel) {
            a
        } else {
            Ap { selection: None, ..a }
        },
        None => a,
    }
}

/// The position of a tab in the list is the first place that names it.
pub proof fn lemma_position_first(shown: Seq<usize>, i: int, from: int, k: int)
    requires
        0 <= from <= k < shown.len(),
        shown[k] == i,
        forall|j: int| from <= j < k ==> (#[trigger] shown[j]) != i,
    ensures
        position(shown, i, from) == Some(k),
    decreases k - from,
{
    if from < k {
        lemma_position_first(shown, i, from + 1, k);
    }
}

// ── what is saved, and restored ─────────────────────────────────────────────

/// Whether the folders of a console's shells, as last sampled, are absolute paths.
pub open spec fn rooted(a: Ap) -> bool {
    &&& a.base.len() > 0 && a.base[0] == '/'
    &&& forall|i: int, k: int|
        #![trigger a.tabs[i].shells[k]]
        0 <= i < a.tabs.len() && 0 <= k < a.tabs[i].shells.len() ==> (
        a.tabs[i].shells[k].cwd matches Some(cwd) ==> cwd.len() > 0 && cwd[0] == '/')
}

/// What is saved of a console reads back with as many tabs, the active one marked and no
/// other, and each with its shells, the one of them that was active, its star and its
/// auto mark; and with the copy mode.
pub proof fn a_saved_console_keeps_its_marks(a: Ap)
    requires
        app_wf(a),
        rooted(a),
    ensures
        ({
            let s = session::loaded(session::saved_text(session_of(a)));
            &&& s.copy_mode == a.copy_mode
            &&& s.tabs.len() == a.tabs.len()
            &&& forall|i: int|
                0 <= i < a.tabs.len() ==> {
                    &&& (#[trigger] s.tabs[i]).active <==> i == a.active
                    &&& s.tabs[i].active_shell == a.tabs[i].active
                    &&& s.tabs[i].favorite == a.tabs[i].favorite
                    &&& s.tabs[i].auto == a.tabs[i].auto
                    &&& s.tabs[i].shells.len() == a.tabs[i].shells.len()
                }
        }),
{
    a_saved_console_reads_back(a);
}

/// A shell reads back with its folder, or the console's own where none was sampled, and
/// with the command running in it, where there is one. A line break or a tab in either
/// comes back as a space.
pub proof fn a_saved_shell_keeps_its_folder_and_command(a: Ap, i: int, k: int)
    requires
        app_wf(a),
        rooted(a),
        0 <= i < a.tabs.len(),
        0 <= k < a.tabs[i].shells.len(),
    ensures
        ({
            let saved = session::loaded(session::saved_text(session_of(a))).tabs[i].shells[k];
            let shell = a.tabs[i].shells[k];
            &&& shell.cwd matches Some(cwd) ==> saved.cwd == session::flat(cwd)
            &&& shell.cwd is None ==> saved.cwd == session::flat(a.base)
            &&& shell.fg_cmd matches Some(cmd) ==> saved.cmd == Some(session::flat(cmd))
            &&& shell.fg_cmd is None ==> saved.cmd is None
        }),
{
    a_saved_console_reads_back(a);
    let t = saved_tab(a, i);
    assert(session::flat_session(session_of(a)).tabs[i] == session::flat_tab(t));
    assert(t.shells[k] == saved_shell(a.tabs[i].shells[k], a.base));
}

/// A console with the tabs of a session added to it, one after the other, given the
/// shells that were started for each.
pub open spec fn restored(a: Ap, tabs: Seq<SavedTab>, shells: Seq<Seq<Sh>>) -> Ap
    decreases tabs.len(),
{
    if tabs.len() == 0 {
        a
    } else {
        with_restored(restored(a, tabs.drop_last(), shells), tabs.last(), shells[tabs.len() - 1])
    }
}

proof fn lemma_restored(a: Ap, tabs: Seq<SavedTab>, shells: Seq<Seq<Sh>>)
    requires
        a.tabs.len() == 0,
        shells.len() >= tabs.len(),
        forall|i: int|
            0 <= i < tabs.len() ==> 0 <= (#[trigger] tabs[i]).active_shell < shells[i].len(),
    ensures
        restored(a, tabs, shells).tabs.len() == tabs.len(),
        forall|i: int|
            0 <= i < tabs.len() ==> {
                let t = #[trigger] restored(a, tabs, shells).tabs[i];
                t.shells == shells[i] && t.active == tabs[i].active_shell && t.favorite
                    == tabs[i].favorite && t.auto == tabs[i].auto
            },
    decreases tabs.len(),
{
    if tabs.len() > 0 {
        let front = tabs.drop_last();
        assert forall|i: int| 0 <= i < front.len() implies 0 <= (#[trigger] front[i]).active_shell
            < shells[i].len() by {
            assert(front[i] == tabs[i]);
        }
        lemma_restored(a, front, shells);
        let b = restored(a, front, shells);
        let c = restored(a, tabs, shells);
        assert forall|i: int| 0 <= i < tabs.len() implies {
            let t = #[trigger] c.tabs[i];
            t.shells == shells[i] && t.active == tabs[i].active_shell && t.favorite
                == tabs[i].favorite && t.auto == tabs[i].auto
        } by {
            if i < front.len() {
                assert(c.tabs[i] == b.tabs[i]);
                assert(front[i] == tabs[i]);
            } else {
                assert(tabs[i] == tabs.last());
            }
        }
    }
}

/// A console that is saved and restored comes back as it was: the same tab and the same
/// shell on screen, and each tab with its active shell, its star and its auto mark.
pub proof fn a_restored_console_comes_back(a: Ap, new: Ap, shells: Seq<Seq<Sh>>)
    requires
        app_wf(a),
        rooted(a),
        a.tabs.len() > 0,
        new.tabs.len() == 0,
        shells.len() == a.tabs.len(),
        forall|i: int| 0 <= i < shells.len() ==> (#[trigger] shells[i]).len() == a.tabs[i].shells.len(),
    ensures
        ({
            let saved = session::loaded(session::saved_text(session_of(a))).tabs;
            let active = last_set(
                Seq::new(saved.len(), |i: int| saved[i].active),
                saved.len() as int,
            );
            let b = restored(new, saved, shells);
            &&& active == a.active
            &&& b.tabs.len() == a.tabs.len()
            &&& forall|i: int|
                0 <= i < a.tabs.len() ==> {
                    &&& (#[trigger] b.tabs[i]).active == a.tabs[i].active
                    &&& b.tabs[i].favorite == a.tabs[i].favorite
                    &&& b.tabs[i].auto == a.tabs[i].auto
                    &&& b.tabs[i].shells == shells[i]
                }
        }),
{
    a_saved_console_keeps_its_marks(a);
    let saved = session::loaded(session::saved_text(session_of(a))).tabs;
    assert forall|i: int| 0 <= i < saved.len() implies 0 <= (#[trigger] saved[i]).active_shell
        < shells[i].len() by {
        assert(tab_wf(a.tabs[i]));
        assert(shells[i].len() == a.tabs[i].shells.len());
    }
    lemma_restored(new, saved, shells);
    let flags = Seq::new(saved.len(), |i: int| saved[i].active);
    the_last_mark_counts(flags, a.active, flags.len() as int);
}

/// Of the marks set the last one counts; with none set, the first place does.
pub proof fn the_last_mark_counts(flags: Seq<bool>, k: int, n: int)
    requires
        0 <= n <= flags.len(),
        forall|i: int| k < i < n ==> !#[trigger] flags[i],
    ensures
        0 <= k < n && flags[k] ==> last_set(flags, n) == k,
        k < 0 ==> last_set(flags, n) == 0,
    decreases n,
{
    if n > 0 {
        the_last_mark_counts(flags, k, n - 1);
    }
}

/// What was just saved is not saved again; what differs is, in full.
pub proof fn a_session_is_saved_once(a: Ap)
    ensures
        saved_now(saved_now(a).0).1 is None,
        session_of(a) != a.saved_session ==> saved_now(a).1 == Some(
            session::saved_text(session_of(a)),
        ) && saved_now(a).0 == (Ap { saved_session: session_of(a), ..a }),
        session_of(a) == a.saved_session ==> saved_now(a) == (a, None::<Seq<char>>),
{
    let b = saved_now(a).0;
    assert(session_of(b).tabs =~= session_of(a).tabs);
}

// ── what is searched for ────────────────────────────────────────────────────

/// A tab is found by what stands anywhere in the folder of its first shell, in capitals
/// or not.
pub proof fn a_tab_is_found_by_its_folder(t: Tb, cwd: Seq<char>, needle: Seq<char>, at: int)
    requires
        t.shells.len() > 0,
        t.shells[0].cwd == Some(cwd),
        needle.len() > 0,
    ensures
        0 <= at && at + needle.len() <= lowercase(cwd).len() && lowercase(cwd).subrange(
            at,
            at + needle.len(),
        ) == needle ==> passes(t, needle),
        passes(t, needle) ==> exists|i: int|
            0 <= i && i + needle.len() <= lowercase(cwd).len() && #[trigger] lowercase(
                cwd,
            ).subrange(i, i + needle.len()) == needle,
{
    text::lemma_find_from(lowercase(cwd), needle, 0);
    if 0 <= at && at + needle.len() <= lowercase(cwd).len() && lowercase(cwd).subrange(
        at,
        at + needle.len(),
    ) == needle {
        assert(text::stands_at(lowercase(cwd), needle, at));
    }
    if passes(t, needle) {
        let i = text::find(lowercase(cwd), needle)->Some_0;
        assert(lowercase(cwd).subrange(i, i + needle.len()) == needle);
    }
}

// ── what is drawn, and what is clicked ──────────────────────────────────────

/// As many tabs are drawn as fit below the two rows at the top: the next one would not.
pub proof fn no_more_tabs_would_fit(a: Ap)
    requires
        0 <= a.list_offset,
        a.sidebar_rows >= 2,
        drawn(a).1 < a.shown.len(),
    ensures
        heights(a, drawn(a).0, drawn(a).1 + 1) > a.sidebar_rows - 2,
{
    lemma_no_more(a, drawn(a).0, 0);
}

proof fn lemma_no_more(a: Ap, pos: int, used: int)
    requires
        0 <= pos <= a.shown.len(),
        0 <= used,
        drawn_end(a, pos, used) < a.shown.len(),
    ensures
        pos <= drawn_end(a, pos, used),
        used + heights(a, pos, drawn_end(a, pos, used) + 1) > viewport(a),
    decreases a.shown.len() - pos,
{
    if pos < a.shown.len() {
        tab::lemma_blocks_bound(a.tabs[a.shown[pos] as int].shells);
        if used + height(a, pos) <= viewport(a) {
            lemma_no_more(a, pos + 1, used + height(a, pos));
            lemma_heights_split(a, pos, drawn_end(a, pos, used) + 1);
        } else {
            assert(heights(a, pos, pos) == 0);
        }
    }
}

proof fn lemma_shell_row(shells: Seq<Sh>, i: int, k: int, d: int)
    requires
        0 <= i <= k < shells.len(),
        0 <= d < tab::block_rows(shells[k]),
    ensures
        shell_at(shells, i, tab::blocks_rows(shells.subrange(i, k)) + d) == (
            k,
            d == 2 && tab::block_rows(shells[k]) == 3,
        ),
    decreases k - i,
{
    let above = shells.subrange(i, k);
    if i < k {
        let rest = shells.subrange(i + 1, k);
        assert(above =~= seq![shells[i]] + rest);
        lemma_blocks_first(shells[i], rest);
        tab::lemma_blocks_bound(rest);
        lemma_shell_row(shells, i + 1, k, d);
    } else {
        assert(above.len() == 0);
    }
}

proof fn lemma_blocks_first(s: Sh, rest: Seq<Sh>)
    ensures
        tab::blocks_rows(seq![s] + rest) == tab::block_rows(s) + tab::blocks_rows(rest),
    decreases rest.len(),
{
    let all = seq![s] + rest;
    if rest.len() == 0 {
        assert(all =~= seq![s]);
        assert(all.drop_last() =~= Seq::<Sh>::empty());
        reveal_with_fuel(tab::blocks_rows, 2);
    } else {
        assert(all.drop_last() =~= seq![s] + rest.drop_last());
        lemma_blocks_first(s, rest.drop_last());
    }
}

proof fn lemma_row_in_block(a: Ap, pos: int, end: int, q: int, r: int)
    requires
        pos <= q < end,
        0 < r < height(a, q) - 1,
    ensures
        row_hit(a, pos, end, heights(a, pos, q) + r) == Some(
            (
                a.shown[q] as int,
                shell_at(a.tabs[a.shown[q] as int].shells, 0, r - 1).0,
                shell_at(a.tabs[a.shown[q] as int].shells, 0, r - 1).1,
            ),
        ),
    decreases q - pos,
{
    if pos < q {
        lemma_heights_split(a, pos, q);
        lemma_heights_nonneg(a, pos + 1, q);
        tab::lemma_blocks_bound(a.tabs[a.shown[pos] as int].shells);
        lemma_row_in_block(a, pos + 1, end, q, r);
    } else {
        assert(heights(a, pos, q) == 0);
    }
}

/// Every row of a shell's block hits that shell: the first two, and the third, which is
/// there when its command can be replayed and is where that is asked for.
pub proof fn every_row_of_a_block_hits_its_shell(a: Ap, q: int, k: int, d: int, row: u16)
    requires
        drawn(a).0 <= q < drawn(a).1,
        0 <= k < a.tabs[a.shown[q] as int].shells.len(),
        0 <= d < (if crate::shell::can_replay(a.tabs[a.shown[q] as int].shells[k]) {
            3int
        } else {
            2
        }),
        row == 2 + heights(a, drawn(a).0, q) + 1 + tab::blocks_rows(
            a.tabs[a.shown[q] as int].shells.take(k),
        ) + d,
    ensures
        hit_at(a, row) == Some((a.shown[q] as int, k, d == 2)),
{
    let shells = a.tabs[a.shown[q] as int].shells;
    let above = tab::blocks_rows(shells.take(k));
    assert(shells.subrange(0, k) =~= shells.take(k));
    lemma_shell_row(shells, 0, k, d);
    tab::lemma_blocks_bound(shells.take(k));
    assert(above + d < tab::blocks_rows(shells)) by {
        lemma_blocks_below(shells, k);
    }
    lemma_heights_nonneg(a, drawn(a).0, q);
    lemma_row_in_block(a, drawn(a).0, drawn(a).1, q, 1 + above + d);
}

proof fn lemma_blocks_below(shells: Seq<Sh>, k: int)
    requires
        0 <= k < shells.len(),
    ensures
        tab::blocks_rows(shells.take(k)) + tab::block_rows(shells[k]) <= tab::blocks_rows(shells),
    decreases shells.len(),
{
    if k + 1 == shells.len() {
        assert(shells.drop_last() =~= shells.take(k));
    } else {
        assert(shells.drop_last().take(k) =~= shells.take(k));
        lemma_blocks_below(shells.drop_last(), k);
    }
}

/// The furthest the list scrolls is where its end comes into view: from there on all
/// tabs fit, and from one before they would not.
pub proof fn the_list_scrolls_to_its_end(a: Ap)
    requires
        a.sidebar_rows >= 2,
    ensures
        0 <= last_offset(a) <= a.shown.len(),
        heights(a, last_offset(a), a.shown.len() as int) <= a.sidebar_rows - 2,
        last_offset(a) > 0 ==> heights(a, last_offset(a) - 1, a.shown.len() as int) > a.sidebar_rows
            - 2,
{
    assert(heights(a, a.shown.len() as int, a.shown.len() as int) == 0);
    lemma_fill_ends(a, a.shown.len() as int, 0);
}

proof fn lemma_fill_ends(a: Ap, pos: int, used: int)
    requires
        0 <= pos <= a.shown.len(),
        used == heights(a, pos, a.shown.len() as int),
        0 <= used <= viewport(a),
    ensures
        0 <= fill_from(a, pos, used) <= pos,
        heights(a, fill_from(a, pos, used), a.shown.len() as int) <= viewport(a),
        fill_from(a, pos, used) > 0 ==> heights(
            a,
            fill_from(a, pos, used) - 1,
            a.shown.len() as int,
        ) > viewport(a),
    decreases pos,
{
    if pos > 0 {
        lemma_heights_split(a, pos - 1, a.shown.len() as int);
        tab::lemma_blocks_bound(a.tabs[a.shown[pos - 1] as int].shells);
        if used + height(a, pos - 1) <= viewport(a) {
            lemma_fill_ends(a, pos - 1, used + height(a, pos - 1));
        }
    }
}

/// A notch of the wheel moves the list by one tab, as far as there is more of it that
/// way; nothing else changes.
pub proof fn the_list_moves_by_one_tab(a: Ap)
    requires
        0 <= a.list_offset <= last_offset(a),
    ensures
        list_scrolled(a, true) == (Ap {
            list_offset: if a.list_offset == last_offset(a) {
                a.list_offset
            } else {
                a.list_offset + 1
            },
            ..a
        }),
        list_scrolled(a, false) == (Ap {
            list_offset: if a.list_offset == 0 {
                0
            } else {
                a.list_offset - 1
            },
            ..a
        }),
{
}

/// The auto button is hit on the tab's first row, in the columns it is drawn in, and
/// nowhere else on that row.
pub proof fn the_auto_button_is_hit_where_it_is(a: Ap, q: int, row: u16, col: u16)
    requires
        drawn(a).0 <= q < drawn(a).1,
        row == 2 + heights(a, drawn(a).0, q),
    ensures
        auto_hit(a, row, col) == match tab::button_cols(
            a.shown[q] as int,
            a.tabs[a.shown[q] as int],
            a.sidebar_width,
        ) {
            Some((from, to)) => if from <= col < to {
                Some(a.shown[q] as int)
            } else {
                None
            },
            None => None,
        },
{
    tab::lemma_blocks_bound(a.tabs[a.shown[q] as int].shells);
    lemma_heights_nonneg(a, drawn(a).0, q);
    lemma_row_of(a, drawn(a).0, drawn(a).1, q, 0);
}

// ── what opening and closing does to the tabs ───────────────────────────────

/// A new tab is the active one, holds the new shell alone, and comes right behind the
/// tab it was opened from — but behind all favorites. The other tabs stay as they are, in
/// order.
pub proof fn a_new_tab_comes_behind_the_active_one(a: Ap, s: Sh)
    requires
        app_wf(a),
        favorites_first(a.tabs),
        a.tabs.len() > 0,
    ensures
        ({
            let b = with_tab(a, s);
            &&& b.tabs.len() == a.tabs.len() + 1
            &&& 0 <= b.active < b.tabs.len()
            &&& b.tabs[b.active] == (Tb { shells: seq![s], active: 0, favorite: false, auto: false })
            &&& b.tabs.remove(b.active) == a.tabs
            &&& !a.tabs[a.active].favorite ==> b.active == a.active + 1
            &&& a.tabs[a.active].favorite ==> b.active > a.active && (b.active < a.tabs.len()
                ==> !a.tabs[b.active].favorite) && a.tabs[b.active - 1].favorite
        }),
{
    lemma_leading(a.tabs);
    let b = with_tab(a, s);
    assert(b.tabs.remove(b.active) =~= a.tabs);
    let n = leading_favorites(a.tabs);
    if a.tabs[a.active].favorite {
        if n <= a.active {
            assert(a.tabs[n].favorite);
        }
    }
    if !a.tabs[a.active].favorite && a.active < n {
        assert(a.tabs[a.active].favorite);
    }
}

/// A new shell in a tab comes behind the others, and is the active one; no other tab is
/// touched.
pub proof fn a_new_shell_comes_last_in_its_tab(a: Ap, s: Sh)
    requires
        app_wf(a),
        a.tabs.len() > 0,
    ensures
        ({
            let b = with_subshell(a, s);
            let t = a.tabs[a.active];
            &&& b.active == a.active && b.tabs.len() == a.tabs.len()
            &&& b.tabs[a.active].shells == t.shells + seq![s]
            &&& b.tabs[a.active].shells[b.tabs[a.active].active] == s
            &&& b.tabs[a.active].favorite == t.favorite && b.tabs[a.active].auto == t.auto
            &&& forall|i: int| 0 <= i < a.tabs.len() && i != a.active ==> b.tabs[i] == a.tabs[i]
        }),
{
    let t = a.tabs[a.active];
    assert(t.shells.push(s) =~= t.shells + seq![s]);
}

/// Marking a tab moves it to the border of the favorites and stays on it; the others
/// stay as they are, in order. Marking twice marks nothing.
pub proof fn a_marked_tab_joins_the_favorites(a: Ap)
    requires
        app_wf(a),
        a.tabs.len() > 0,
    ensures
        ({
            let b = favorite_toggled(a);
            let t = a.tabs[a.active];
            &&& b.tabs.len() == a.tabs.len()
            &&& b.tabs[b.active] == (Tb { favorite: !t.favorite, ..t })
            &&& b.tabs.remove(b.active) == a.tabs.remove(a.active)
            &&& favorite_toggled(b).tabs[favorite_toggled(b).active] == t
        }),
{
    let b = favorite_toggled(a);
    let rest = a.tabs.remove(a.active);
    lemma_leading(rest);
    assert(b.tabs.remove(b.active) =~= rest);
    lemma_leading(b.tabs.remove(b.active));
}

/// Of what is kept, all of it is, in order, and nothing else.
pub proof fn what_is_kept_is_in_order<T>(v: Seq<T>, flags: Seq<bool>, i: int, j: int)
    requires
        v.len() <= flags.len(),
        0 <= i < j < v.len(),
        flags[i] && flags[j],
    ensures
        0 <= i - unset(flags, i) < j - unset(flags, j) < kept(v, flags).len(),
        kept(v, flags)[i - unset(flags, i)] == v[i],
        kept(v, flags)[j - unset(flags, j)] == v[j],
        (forall|k: int| 0 <= k < v.len() ==> #[trigger] flags[k]) ==> kept(v, flags) == v,
{
    lemma_kept_at(v, flags, i);
    lemma_kept_at(v, flags, j);
    lemma_unset_between(flags, i, j);
    if forall|k: int| 0 <= k < v.len() ==> #[trigger] flags[k] {
        lemma_kept_all(v, flags);
    }
}

proof fn lemma_kept_all<T>(v: Seq<T>, flags: Seq<bool>)
    requires
        v.len() <= flags.len(),
        forall|k: int| 0 <= k < v.len() ==> #[trigger] flags[k],
    ensures
        kept(v, flags) == v,
    decreases v.len(),
{
    if v.len() > 0 {
        lemma_kept_all(v.drop_last(), flags);
        assert(v.drop_last().push(v.last()) =~= v);
    } else {
        assert(kept(v, flags) =~= v);
    }
}

proof fn lemma_unset_between(flags: Seq<bool>, i: int, j: int)
    requires
        0 <= i < j <= flags.len(),
        flags[i],
    ensures
        unset(flags, j) - unset(flags, i) <= j - i - 1,
    decreases j - i,
{
    if i + 1 < j {
        lemma_unset_between(flags, i, j - 1);
    }
}

proof fn lemma_unset_run(flags: Seq<bool>, i: int, j: int)
    requires
        0 <= i <= j <= flags.len(),
        forall|k: int| i <= k < j ==> !#[trigger] flags[k],
    ensures
        unset(flags, j) == unset(flags, i) + j - i,
    decreases j - i,
{
    if i < j {
        lemma_unset_run(flags, i, j - 1);
    }
}

/// When the active one goes, the next of those that stay takes its place, and where
/// there is none the last of them does.
pub proof fn the_next_one_takes_its_place<T>(v: Seq<T>, flags: Seq<bool>, active: int, next: int)
    requires
        v.len() == flags.len(),
        0 <= active < v.len(),
        active <= next <= v.len(),
        forall|k: int| active <= k < next ==> !#[trigger] flags[k],
        next < v.len() ==> flags[next],
        kept(v, flags).len() > 0,
    ensures
        ({
            let at = followed(active, flags, kept(v, flags).len() as int);
            &&& 0 <= at < kept(v, flags).len()
            &&& next < v.len() ==> kept(v, flags)[at] == v[next]
            &&& next == v.len() ==> at == kept(v, flags).len() - 1
        }),
{
    lemma_unset(flags, active);
    lemma_unset_run(flags, active, next);
    lemma_kept_at(v, flags, next);
}

/// While everything runs nothing is closed.
pub proof fn nothing_is_closed_that_runs(a: Ap, alive: Seq<Vec<bool>>)
    requires
        app_wf(a),
        alive.len() == a.tabs.len(),
        forall|i: int|
            0 <= i < alive.len() ==> (#[trigger] alive[i])@.len() == a.tabs[i].shells.len(),
        forall|i: int, k: int|
            #![trigger alive[i]@[k]]
            0 <= i < alive.len() && 0 <= k < alive[i]@.len() ==> alive[i]@[k],
    ensures
        reaped(a, alive).tabs == a.tabs,
        reaped(a, alive).active == a.active,
{
    let tabs = reaped_tabs(a.tabs, alive);
    assert forall|i: int| 0 <= i < tabs.len() implies tabs[i] == a.tabs[i] by {
        let flags = alive[i]@;
        let t = a.tabs[i];
        assert(tab_wf(t));
        assert forall|k: int| 0 <= k < t.shells.len() implies #[trigger] flags[k] by {
            assert(alive[i]@[k]);
        }
        lemma_kept_all(t.shells, flags);
        the_next_one_takes_its_place(t.shells, flags, t.active, t.active);
        lemma_unset_none(flags, t.active);
    }
    assert(tabs =~= a.tabs);
    let flags = living(tabs);
    assert forall|k: int| 0 <= k < tabs.len() implies #[trigger] flags[k] by {
        assert(tab_wf(a.tabs[k]));
    }
    lemma_kept_all(tabs, flags);
    if a.tabs.len() > 0 {
        lemma_unset_none(flags, a.active);
    }
}

proof fn lemma_unset_none(flags: Seq<bool>, n: int)
    requires
        0 <= n <= flags.len(),
        forall|k: int| 0 <= k < flags.len() ==> #[trigger] flags[k],
    ensures
        unset(flags, n) == 0,
    decreases n,
{
    if n > 0 {
        lemma_unset_none(flags, n - 1);
    }
}

/// A tab's auto mark is turned over by itself, and turned over again is what it was.
pub proof fn the_auto_mark_is_turned_over(a: Ap, i: int)
    requires
        0 <= i < a.tabs.len(),
    ensures
        ({
            let b = auto_toggled(a, i).0;
            &&& b.tabs == a.tabs.update(i, Tb { auto: !a.tabs[i].auto, ..a.tabs[i] })
            &&& b.active == a.active && b.selection == a.selection
            &&& auto_toggled(b, i).0.tabs == a.tabs
            &&& session_of(b) == b.saved_session
        }),
{
    let b = auto_toggled(a, i).0;
    let c = Ap { tabs: a.tabs.update(i, Tb { auto: !a.tabs[i].auto, ..a.tabs[i] }), ..a };
    assert(auto_toggled(b, i).0.tabs =~= a.tabs);
    assert(session_of(b).tabs =~= session_of(c).tabs);
}

// ── what is looked at, and how large it is ──────────────────────────────────

/// Every other turn looks at the shell on screen, the turns between go round all shells.
pub proof fn the_shell_on_screen_has_every_other_turn(a: Ap, cursor: usize, pid: u32)
    requires
        app_wf(a),
        a.tabs.len() > 0,
        a.tabs[a.active].shells[a.tabs[a.active].active].pid == Some(pid),
    ensures
        cursor % 2 == 0 ==> probe_target(a, cursor) == Some(pid),
        cursor % 2 == 1 ==> probe_target(a, cursor) is Some,
{
}

/// The pane has what the sidebar and the footer leave of the window, and the sidebar
/// leaves the pane ten columns where it can. A new size is told to every shell, and the
/// selection goes; the same size changes nothing.
pub proof fn the_pane_has_what_is_left(a: Ap, width: u16, height: u16, now: u64)
    requires
        width >= 18,
        height >= 3,
        8 <= a.sidebar_width <= width - 10,
    ensures
        ({
            let (b, changed) = fitted(a, width, height, now);
            &&& b.sidebar_width == a.sidebar_width
            &&& b.term_width == width
            &&& b.pty_rows == height - 1
            &&& b.pty_cols == width - a.sidebar_width
            &&& changed <==> a.pty_rows != height - 1 || a.pty_cols != width - a.sidebar_width
            &&& changed ==> b.selection is None
            &&& !changed ==> b.selection == a.selection && b.tabs == a.tabs
            &&& b.tabs.len() == a.tabs.len() && b.active == a.active
            &&& changed ==> forall|i: int, k: int|
                0 <= i < a.tabs.len() && 0 <= k < a.tabs[i].shells.len() ==> #[trigger] b.tabs[i].shells[k]
                    == (Sh { resized: now, ..a.tabs[i].shells[k] })
        }),
{
}

/// A sidebar that has become too wide for the window, or never was wide enough, is
/// brought back to what fits.
pub proof fn the_sidebar_is_kept_in_bounds(a: Ap, width: u16, height: u16, now: u64)
    requires
        width >= 18,
    ensures
        8 <= fitted(a, width, height, now).0.sidebar_width <= width - 10,
        a.sidebar_width > width - 10 ==> fitted(a, width, height, now).0.sidebar_width == width
            - 10,
        a.sidebar_width < 8 ==> fitted(a, width, height, now).0.sidebar_width == 8,
{
}

/// A selection of the shell on screen stays; any other goes.
pub proof fn a_selection_goes_with_its_shell(a: Ap, sel: Sel)
    requires
        a.selection == Some(sel),
        app_wf(a),
        a.tabs.len() > 0,
    ensures
        sel.shell.0 == a.active && sel.shell.1 == a.tabs[a.active].active ==> unstale(a) == a,
        !(sel.shell.0 == a.active && sel.shell.1 == a.tabs[a.active].active) ==> unstale(a) == (Ap {
            selection: None,
            ..a
        }),
{
}

/// The list of processes is that of all shells, tab by tab: it holds a process exactly
/// when a shell is it.
pub proof fn every_process_is_listed(tabs: Seq<Tb>, pid: u32)
    ensures
        all_pids(tabs).contains(pid) <==> exists|i: int, k: int|
            0 <= i < tabs.len() && 0 <= k < tabs[i].shells.len() && (
            #[trigger] tabs[i].shells[k]).pid == Some(pid),
    decreases tabs.len(),
{
    if tabs.len() > 0 {
        let front = tabs.drop_last();
        let last = tabs.last().shells;
        every_process_is_listed(front, pid);
        lemma_tab_pids(last, pid);
        let a = all_pids(front);
        let b = tab_pids(last);
        let n = tabs.len() - 1;
        assert(tabs[n] == tabs.last());
        if a.contains(pid) {
            let j = choose|j: int| 0 <= j < a.len() && a[j] == pid;
            assert((a + b)[j] == pid);
        }
        if b.contains(pid) {
            let j = choose|j: int| 0 <= j < b.len() && b[j] == pid;
            assert((a + b)[a.len() + j] == pid);
        }
        if (a + b).contains(pid) {
            let j = choose|j: int| 0 <= j < (a + b).len() && (a + b)[j] == pid;
            if j < a.len() {
                assert(a[j] == pid);
                let (i, k) = choose|i: int, k: int|
                    0 <= i < front.len() && 0 <= k < front[i].shells.len() && (
                    #[trigger] front[i].shells[k]).pid == Some(pid);
                assert(tabs[i].shells[k].pid == Some(pid));
            } else {
                assert(b[j - a.len()] == pid);
                let k = choose|k: int|
                    0 <= k < last.len() && (#[trigger] last[k]).pid == Some(pid);
                assert(tabs[n].shells[k].pid == Some(pid));
            }
        }
        if exists|i: int, k: int|
            0 <= i < tabs.len() && 0 <= k < tabs[i].shells.len() && (
            #[trigger] tabs[i].shells[k]).pid == Some(pid) {
            let (i, k) = choose|i: int, k: int|
                0 <= i < tabs.len() && 0 <= k < tabs[i].shells.len() && (
                #[trigger] tabs[i].shells[k]).pid == Some(pid);
            if i < n {
                assert(front[i].shells[k].pid == Some(pid));
            } else {
                assert(last[k].pid == Some(pid));
            }
        }
    }
}

proof fn lemma_tab_pids(shells: Seq<Sh>, pid: u32)
    ensures
        tab_pids(shells).contains(pid) <==> exists|k: int|
            0 <= k < shells.len() && (#[trigger] shells[k]).pid == Some(pid),
    decreases shells.len(),
{
    if shells.len() > 0 {
        let front = shells.drop_last();
        lemma_tab_pids(front, pid);
        let a = tab_pids(front);
        let n = shells.len() - 1;
        assert(shells[n] == shells.last());
        if a.contains(pid) {
            let k = choose|k: int| 0 <= k < front.len() && (#[trigger] front[k]).pid == Some(pid);
            assert(shells[k].pid == Some(pid));
            if let Some(p) = shells.last().pid {
                let j = choose|j: int| 0 <= j < a.len() && a[j] == pid;
                assert(a.push(p)[j] == pid);
            }
        }
        if exists|k: int| 0 <= k < shells.len() && (#[trigger] shells[k]).pid == Some(pid) {
            let k = choose|k: int| 0 <= k < shells.len() && (#[trigger] shells[k]).pid == Some(pid);
            if k < n {
                assert(front[k].pid == Some(pid));
            } else {
                assert(a.push(pid)[a.len() as int] == pid);
            }
        }
        if tab_pids(shells).contains(pid) && !a.contains(pid) {
            if let Some(p) = shells.last().pid {
                let j = choose|j: int| 0 <= j < a.push(p).len() && a.push(p)[j] == pid;
                if j < a.len() {
                    assert(a[j] == pid);
                }
                assert(shells[n].pid == Some(pid));
            }
        }
    }
}

/// A layout filters the list anew and brings it back where it was scrolled too far;
/// otherwise it stays where it was.
pub proof fn a_layout_keeps_the_list_in_bounds(a: Ap, rows: u16)
    requires
        0 <= a.list_offset,
    ensures
        ({
            let b = laid_out(a, rows);
            &&& b.sidebar_rows == rows
            &&& b.shown == passing(a.tabs, lowercase(a.search), a.tabs.len() as int)
            &&& b.list_offset <= last_offset(b)
            &&& a.list_offset <= last_offset(b) ==> b.list_offset == a.list_offset
            &&& a.list_offset > last_offset(b) ==> b.list_offset == last_offset(b)
            &&& b.tabs == a.tabs && b.active == a.active
        }),
{
    let b = Ap { sidebar_rows: rows, ..refreshed(a) };
    let c = laid_out(a, rows);
    lemma_same_fill(b, c, b.shown.len() as int, 0);
}

proof fn lemma_same_fill(b: Ap, c: Ap, pos: int, used: int)
    requires
        b.tabs == c.tabs,
        b.shown == c.shown,
        b.sidebar_rows == c.sidebar_rows,
    ensures
        fill_from(b, pos, used) == fill_from(c, pos, used),
    decreases pos,
{
    if pos > 0 {
        assert(height(b, pos - 1) == height(c, pos - 1));
        if used + height(b, pos - 1) <= viewport(b) {
            lemma_same_fill(b, c, pos - 1, used + height(b, pos - 1));
        }
    }
}

/// A session whose folders are all there is restored whole; of a tab, the shells whose
/// folders are gone are left out, and a tab none of whose are there is.
pub proof fn what_is_gone_is_left_out(tabs: Seq<SavedTab>, t: SavedTab, dirs: Seq<Vec<bool>>)
    requires
        dirs.len() > tabs.len(),
        dirs[tabs.len() as int]@.len() == t.shells.len(),
        0 <= t.active_shell < t.shells.len(),
    ensures
        tabs_left(Seq::empty(), dirs).len() == 0,
        (forall|k: int| 0 <= k < t.shells.len() ==> #[trigger] dirs[tabs.len() as int]@[k])
            ==> tabs_left(tabs.push(t), dirs) == tabs_left(tabs, dirs).push(t),
        (forall|k: int| 0 <= k < t.shells.len() ==> !#[trigger] dirs[tabs.len() as int]@[k])
            ==> tabs_left(tabs.push(t), dirs) == tabs_left(tabs, dirs),
{
    let flags = dirs[tabs.len() as int]@;
    let all = tabs.push(t);
    assert(all.drop_last() =~= tabs);
    if forall|k: int| 0 <= k < t.shells.len() ==> #[trigger] dirs[tabs.len() as int]@[k] {
        assert forall|k: int| 0 <= k < flags.len() implies #[trigger] flags[k] by {
            assert(dirs[tabs.len() as int]@[k]);
        }
        lemma_kept_all(t.shells, flags);
        lemma_unset_none(flags, t.active_shell);
        assert(tab_left(t, flags) == t);
    }
    if forall|k: int| 0 <= k < t.shells.len() ==> !#[trigger] dirs[tabs.len() as int]@[k] {
        assert forall|k: int| 0 <= k < flags.len() implies !#[trigger] flags[k] by {
            assert(!dirs[tabs.len() as int]@[k]);
        }
        lemma_unset_run(flags, 0, flags.len() as int);
        lemma_kept_at(t.shells, flags, 0);
        assert(unset(flags, 0) == 0);
    }
}

/// A console starts without tabs and without anything up, ready to be searched; the copy
/// mode and the folder are those it is given, and its first frame is due at once.
pub proof fn a_console_starts_empty(base: Seq<char>, copy_mode: bool, now: u64)
    requires
        now >= 30_000_000,
    ensures
        ({
            let a = just_started(base, copy_mode, now);
            &&& a.tabs.len() == 0 && a.shown.len() == 0 && a.search.len() == 0
            &&& a.copy_mode == copy_mode && a.base == base
            &&& !a.quit && !a.help && a.confirm_quit is None && a.selection is None
            &&& !a.dragging_sidebar && a.dragging_tab is None && !a.swallow_release
            &&& a.sidebar_width == 26
            &&& a.drawn + 30_000_000 == now
        }),
{
}

/// The auto button is not hit below the tab's first row, and a command is hit on its own
/// row alone, in the columns it is shown in.
pub proof fn buttons_are_hit_on_their_rows(a: Ap, q: int, k: int, d: int, row: u16, col: u16)
    requires
        drawn(a).0 <= q < drawn(a).1,
        0 <= k < a.tabs[a.shown[q] as int].shells.len(),
        0 <= d < (if crate::shell::can_replay(a.tabs[a.shown[q] as int].shells[k]) {
            3int
        } else {
            2
        }),
        row == 2 + heights(a, drawn(a).0, q) + 1 + tab::blocks_rows(
            a.tabs[a.shown[q] as int].shells.take(k),
        ) + d,
    ensures
        ({
            let i = a.shown[q] as int;
            let (from, to) = tab::replay_cols(a.tabs[i].shells[k], a.sidebar_width);
            &&& auto_hit(a, row, col) is None
            &&& d < 2 ==> replay_hit(a, row, col) is None
            &&& d == 2 && from <= col < to ==> replay_hit(a, row, col) == Some((i, k))
            &&& !(from <= col < to) ==> replay_hit(a, row, col) is None
        }),
{
    let shells = a.tabs[a.shown[q] as int].shells;
    every_row_of_a_block_hits_its_shell(a, q, k, d, row);
    lemma_heights_nonneg(a, drawn(a).0, q);
    tab::lemma_blocks_bound(shells.take(k));
    lemma_blocks_below(shells, k);
    lemma_name_miss(
        a,
        drawn(a).0,
        drawn(a).1,
        q,
        1 + tab::blocks_rows(shells.take(k)) + d,
    );
}

proof fn lemma_name_miss(a: Ap, pos: int, end: int, q: int, r: int)
    requires
        pos <= q < end,
        0 < r < height(a, q),
    ensures
        name_hit(a, pos, end, heights(a, pos, q) + r) is None,
    decreases q - pos,
{
    if pos < q {
        lemma_heights_split(a, pos, q);
        lemma_heights_nonneg(a, pos + 1, q);
        tab::lemma_blocks_bound(a.tabs[a.shown[pos] as int].shells);
        lemma_name_miss(a, pos + 1, end, q, r);
    } else {
        assert(heights(a, pos, q) == 0);
    }
}

/// A window too small for a pane leaves the pane as it was.
pub proof fn a_window_too_small_changes_no_pane(a: Ap, width: u16, height: u16, now: u64)
    requires
        height < 3 || width <= 9,
    ensures
        ({
            let (b, changed) = fitted(a, width, height, now);
            !changed && b.pty_rows == a.pty_rows && b.pty_cols == a.pty_cols && b.tabs == a.tabs
                && b.selection == a.selection
        }),
{
}

/// After closing what has exited the list names the tabs that are left.
pub proof fn the_list_names_the_tabs_left(a: Ap, alive: Seq<Vec<bool>>)
    ensures
        ({
            let b = reaped(a, alive);
            b.shown == passing(b.tabs, lowercase(a.search), b.tabs.len() as int)
        }),
{
}

} // verus!
