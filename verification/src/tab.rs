//! A tab: one parent shell and zero or more subshells, and the rows it takes in
//! the sidebar.

use vstd::prelude::*;
use crate::labels;
use crate::labels::{abbreviate_home, auto_span, folder_name, sweep, truncate_head, truncate_tail};
use crate::shell;
use crate::shell::{NudgeAsk, Sh, Shell};
use crate::style;
use crate::style::{push_span, row, Color, Piece, Span, Style};
use crate::text;
use crate::text::{chars, copy, decimal_chars, push_decimal, push_repeat, push_str};

verus! {

/// The one tab color: a soft pastel for the active tab, with a dark foreground so
/// its text stays legible on it. Inactive tabs paint no background at all.
pub const ACTIVE_BG: Color = Color::Pastel;

pub const ACTIVE_FG: Color = Color::Ink;

/// The activity bar on the active tab's last row: a quiet track, and a lit segment
/// that sweeps along it while the tab's output is streaming.
pub const BAR_TRACK: Color = Color::Track;

pub const BAR_LIT: Color = Color::Lit;

/// Label of a tab's `auto` button, `AUTO_COLS` wide.
pub const AUTO_BUTTON: &'static str = " ⟳ auto ";

/// The two states of that button, and the foreground that marks a nudge this tab's
/// agent has not answered yet.
pub const AUTO_ON_BG: Color = Color::Green;

pub const AUTO_ON_FG: Color = Color::White;

pub const AUTO_NUDGED_FG: Color = Color::Yellow;

pub const AUTO_OFF_BG: Color = Color::DarkGray;

pub const AUTO_OFF_FG: Color = Color::White;

/// The activity spinner's single color.
pub const SPINNER_COLOR: Color = Color::Bright;

/// The replay button's color.
pub const REPLAY_COLOR: Color = Color::Coral;

/// The replay button's glyph, two columns wide.
pub const REPLAY_LABEL: &'static str = "🔁";

pub const REPLAY_COLS: usize = 2;

/// Columns the replay row spends before the command text: the gutter, a four-space
/// indent, the two-column icon, and a trailing space.
pub const REPLAY_PAD: u16 = 8;

/// First column of the replay icon.
pub const REPLAY_ICON_COL: usize = 5;

/// A terminal tab: one parent shell and zero or more subshells. Exactly one of
/// them is active — shown in the pane and receiving input.
pub struct Tab {
    pub shells: Vec<Shell>,
    pub active: usize,
    /// Favorites cluster at the top of the sidebar.
    pub favorite: bool,
    /// Auto feature: nudge this tab's idle agents to keep working.
    pub auto: bool,
}

/// What a `Tab` stands for.
#[verifier::ext_equal]
pub struct Tb {
    pub shells: Seq<Sh>,
    pub active: int,
    pub favorite: bool,
    pub auto: bool,
}

/// What a list of shells stands for.
pub open spec fn shells_of(v: Seq<Shell>) -> Seq<Sh> {
    v.map_values(|s: Shell| s@)
}

impl View for Tab {
    type V = Tb;

    open spec fn view(&self) -> Tb {
        Tb {
            shells: shells_of(self.shells@),
            active: self.active as int,
            favorite: self.favorite,
            auto: self.auto,
        }
    }
}

/// A tab's invariant: it has a shell, and its active one is one of them.
pub open spec fn tab_wf(t: Tb) -> bool {
    0 <= t.active < t.shells.len()
}

/// Rows one shell takes: path, process, and a replay row while it is replayable.
pub open spec fn block_rows(s: Sh) -> int {
    if shell::can_replay(s) {
        3
    } else {
        2
    }
}

/// Rows some shells take.
pub open spec fn blocks_rows(shells: Seq<Sh>) -> int
    decreases shells.len(),
{
    if shells.len() == 0 {
        0
    } else {
        blocks_rows(shells.drop_last()) + block_rows(shells.last())
    }
}

/// Sidebar height of a tab: a name row and a separator bracket every shell's rows.
pub open spec fn tab_rows(t: Tb) -> int {
    2 + blocks_rows(t.shells)
}

/// Rows are bounded by the number of shells.
pub proof fn lemma_blocks_bound(shells: Seq<Sh>)
    ensures
        2 * shells.len() <= blocks_rows(shells) <= 3 * shells.len(),
    decreases shells.len(),
{
    if shells.len() > 0 {
        lemma_blocks_bound(shells.drop_last());
    }
}

/// Whether any shell of a tab has output nobody has seen.
pub open spec fn any_unseen(t: Tb) -> bool {
    exists|i: int| 0 <= i < t.shells.len() && (#[trigger] t.shells[i]).unseen_output
}

/// Whether any shell of a tab has output streaming.
pub open spec fn any_animating(t: Tb) -> bool {
    exists|i: int| 0 <= i < t.shells.len() && (#[trigger] t.shells[i]).animating
}

/// Whether any shell of a tab has a nudge its agent has not answered.
pub open spec fn any_nudged(t: Tb) -> bool {
    exists|i: int| 0 <= i < t.shells.len() && (#[trigger] t.shells[i]).nudge is Some
}

impl Tab {
    /// A tab of one shell.
    pub fn new(parent: Shell) -> (t: Tab)
        ensures
            t@ == (Tb { shells: seq![parent@], active: 0, favorite: false, auto: false }),
    {
        let t: Tab = Tab { shells: vec![parent], active: 0, favorite: false, auto: false };
        assert(t@.shells =~= seq![parent@]);
        t
    }

    /// Sidebar height: a name row and a separator bracket every shell's path and
    /// process rows, plus one replay row per shell that is currently replayable.
    pub fn rows(&self) -> (n: u128)
        ensures
            n == tab_rows(self@),
    {
        let ghost all = self@.shells;
        let mut n: u128 = 2;
        let mut i: usize = 0;
        assert(all.take(0) =~= Seq::empty());
        assert(self.shells.len() == self.shells@.len());
        while i < self.shells.len()
            invariant
                all == self@.shells,
                i <= self.shells@.len() <= usize::MAX,
                n == 2 + blocks_rows(all.take(i as int)),
                n <= 2 + 3 * i,
            decreases self.shells.len() - i,
        {
            assert(all.take(i + 1).drop_last() =~= all.take(i as int));
            assert(all.take(i + 1).last() == self.shells@[i as int]@);
            n = n + if self.shells[i].replayable() {
                3
            } else {
                2
            };
            i += 1;
        }
        assert(all.take(i as int) =~= all);
        n
    }

    /// The terminals of this tab were resized.
    pub fn resize(&mut self, now: u64)
        ensures
            final(self)@ == (Tb {
                shells: old(self)@.shells.map_values(|s: Sh| Sh { resized: now, ..s }),
                ..old(self)@
            }),
    {
        let ghost t = self@;
        let n: usize = self.shells.len();
        let mut i: usize = 0;
        while i < n
            invariant
                i <= n == t.shells.len(),
                self.shells@.len() == n,
                self@ == (Tb { shells: self@.shells, ..t }),
                forall|k: int|
                    0 <= k < i ==> (#[trigger] self@.shells[k]) == (Sh {
                        resized: now,
                        ..t.shells[k]
                    }),
                forall|k: int| i <= k < n ==> (#[trigger] self@.shells[k]) == t.shells[k],
            decreases n - i,
        {
            let ghost before = self@.shells;
            assert(before[i as int] == t.shells[i as int]);
            self.shells[i].resize(now);
            assert(self@.shells =~= before.update(
                i as int,
                Sh { resized: now, ..t.shells[i as int] },
            ));
            i += 1;
        }
        assert(self@.shells =~= t.shells.map_values(|s: Sh| Sh { resized: now, ..s }));
    }

    /// Cycle the active shell within this tab: forward, or back.
    pub fn navigate(&mut self, forward: bool)
        requires
            tab_wf(old(self)@),
        ensures
            final(self)@ == (Tb {
                active: turned(old(self)@.active, old(self)@.shells.len() as int, forward),
                ..old(self)@
            }),
            tab_wf(final(self)@),
    {
        let n: usize = self.shells.len();
        self.active = turn(self.active, n, forward);
    }

    /// What the auto feature needs to know before its next step in shell `i`. With
    /// the tab's button off nothing is ever typed: a half-done nudge is abandoned,
    /// not resumed hours later.
    pub fn nudge_ask(&mut self, i: usize, now: u64, wall: u128) -> (ask: NudgeAsk)
        requires
            i < old(self)@.shells.len(),
        ensures
            ({
                let was = old(self)@.shells[i as int];
                let (s, asked) = if old(self)@.auto {
                    shell::nudge_look(was, now, wall)
                } else {
                    (Sh { nudge: None, ..was }, NudgeAsk::Nothing)
                };
                &&& ask == asked
                &&& final(self)@ == (Tb {
                    shells: old(self)@.shells.update(i as int, s),
                    ..old(self)@
                })
            }),
            !old(self)@.auto ==> ask == NudgeAsk::Nothing && final(self)@.shells[i as int].nudge is None,
            forall|k: int|
                0 <= k < old(self)@.shells.len() && k != i ==> final(self)@.shells[k] == old(
                    self,
                )@.shells[k],
    {
        let ghost was = self@.shells;
        let ask: NudgeAsk = if self.auto {
            self.shells[i].nudge_ask(now, wall)
        } else {
            self.shells[i].drop_nudge();
            NudgeAsk::Nothing
        };
        assert(self@.shells =~= was.update(i as int, self.shells@[i as int]@));
        ask
    }

    fn has_unseen(&self) -> (r: bool)
        ensures
            r == any_unseen(self@),
    {
        let ghost all = self@.shells;
        let mut i: usize = 0;
        while i < self.shells.len()
            invariant
                all == self@.shells,
                i <= self.shells@.len() == all.len(),
                forall|k: int| 0 <= k < i ==> !(#[trigger] all[k]).unseen_output,
            decreases self.shells.len() - i,
        {
            assert(all[i as int] == self.shells@[i as int]@);
            if self.shells[i].unseen_output {
                return true;
            }
            i += 1;
        }
        false
    }

    fn is_busy(&self) -> (r: bool)
        ensures
            r == any_animating(self@),
    {
        let ghost all = self@.shells;
        let mut i: usize = 0;
        while i < self.shells.len()
            invariant
                all == self@.shells,
                i <= self.shells@.len() == all.len(),
                forall|k: int| 0 <= k < i ==> !(#[trigger] all[k]).animating,
            decreases self.shells.len() - i,
        {
            assert(all[i as int] == self.shells@[i as int]@);
            if self.shells[i].animating {
                return true;
            }
            i += 1;
        }
        false
    }

    fn has_nudge(&self) -> (r: bool)
        ensures
            r == any_nudged(self@),
    {
        let ghost all = self@.shells;
        let mut i: usize = 0;
        while i < self.shells.len()
            invariant
                all == self@.shells,
                i <= self.shells@.len() == all.len(),
                forall|k: int| 0 <= k < i ==> (#[trigger] all[k]).nudge is None,
            decreases self.shells.len() - i,
        {
            assert(all[i as int] == self.shells@[i as int]@);
            if self.shells[i].nudge.is_some() {
                return true;
            }
            i += 1;
        }
        false
    }
}

/// The index after `i` of `n`, or before it, wrapping.
pub open spec fn turned(i: int, n: int, forward: bool) -> int {
    if forward {
        if i + 1 < n {
            i + 1
        } else {
            0
        }
    } else {
        if i > 0 {
            i - 1
        } else {
            n - 1
        }
    }
}

/// The index after `i` of `n`, or before it, wrapping.
pub fn turn(i: usize, n: usize, forward: bool) -> (k: usize)
    requires
        i < n,
    ensures
        k == turned(i as int, n as int, forward),
        k < n,
{
    if forward {
        if i + 1 < n {
            i + 1
        } else {
            0
        }
    } else if i > 0 {
        i - 1
    } else {
        n - 1
    }
}

// ── columns of the buttons ──────────────────────────────────────────────────

/// Columns tab `index` spends on its first line besides the folder name: the
/// gutter and active marker, the tab number, a favorite's star, and the unseen
/// marker.
pub open spec fn margins(index: int, t: Tb) -> int {
    2 + text::decimal((index + 1) as nat).len() + (if t.favorite {
        3int
    } else {
        0
    }) + (if any_unseen(t) {
        2int
    } else {
        0
    })
}

/// Where tab `index` draws its `auto` button.
pub open spec fn button_cols(index: int, t: Tb, width: u16) -> Option<(int, int)> {
    let span = labels::auto_cols(width);
    if span.0 < span.1 && span.0 >= margins(index, t) {
        Some(span)
    } else {
        None
    }
}

/// Columns tab `index` spends on its first line besides the folder name.
pub fn tab_margins(index: usize, tab: &Tab) -> (n: usize)
    requires
        index < usize::MAX,
    ensures
        n == margins(index as int, tab@),
        n <= 27,
{
    let digits: Vec<char> = decimal_chars(index as u64 + 1);
    2 + digits.len() + (if tab.favorite {
        3usize
    } else {
        0
    }) + (if tab.has_unseen() {
        2usize
    } else {
        0
    })
}

/// Where tab `index` draws its `auto` button, or `None` on a panel too narrow to
/// seat it at its fixed column — the row's own margins reach that column first.
/// What is drawn is exactly what is clickable, at every width.
pub fn auto_button(index: usize, tab: &Tab, width: u16) -> (r: Option<(usize, usize)>)
    requires
        index < usize::MAX,
    ensures
        match r {
            Some((from, to)) => button_cols(index as int, tab@, width) == Some(
                (from as int, to as int),
            ),
            None => button_cols(index as int, tab@, width) is None,
        },
{
    let (from, to): (usize, usize) = auto_span(width);
    if from < to && from >= tab_margins(index, tab) {
        Some((from, to))
    } else {
        None
    }
}

/// The command shown on a shell's replay row.
pub open spec fn shown_command(s: Sh, width: u16) -> Seq<char> {
    labels::head_cut(
        match s.last_cmd {
            Some(cmd) => cmd,
            None => Seq::empty(),
        },
        labels::room(width, (REPLAY_PAD + 1) as u16),
    )
}

/// The columns of a shell's replay button.
pub open spec fn replay_cols(s: Sh, width: u16) -> (int, int) {
    let end = REPLAY_PAD + shown_command(s, width).len();
    (
        REPLAY_ICON_COL as int,
        if end > REPLAY_ICON_COL + REPLAY_COLS {
            end
        } else {
            REPLAY_ICON_COL + REPLAY_COLS
        },
    )
}

fn command_text(s: &Shell, width: u16) -> (t: String)
    ensures
        t@ == shown_command(s@, width),
{
    match &s.last_cmd {
        Some(cmd) => truncate_head(cmd.as_str(), width, REPLAY_PAD + 1),
        None => {
            let t: String = truncate_head("", width, REPLAY_PAD + 1);
            proof {
                reveal_strlit("");
                assert(""@ =~= Seq::<char>::empty());
            }
            t
        },
    }
}

/// Clickable columns of a shell's replay row: the icon through the last column of
/// the command drawn beside it (never narrower than the icon).
pub fn replay_span(s: &Shell, width: u16) -> (r: (usize, usize))
    ensures
        (r.0 as int, r.1 as int) == replay_cols(s@, width),
{
    let t: String = command_text(s, width);
    let t: Vec<char> = chars(t.as_str());
    proof {
        assert(t@.len() <= labels::room(width, (REPLAY_PAD + 1) as u16));
    }
    let end: usize = REPLAY_PAD as usize + t.len();
    (
        REPLAY_ICON_COL,
        if end > REPLAY_ICON_COL + REPLAY_COLS {
            end
        } else {
            REPLAY_ICON_COL + REPLAY_COLS
        },
    )
}

// ── rows ────────────────────────────────────────────────────────────────────

/// The style of a tab's rows.
pub open spec fn tab_style(is_active: bool) -> Style {
    if is_active {
        style::plain().with_bg(ACTIVE_BG).with_fg(ACTIVE_FG)
    } else {
        style::plain()
    }
}

/// `s` in bold, or not.
pub open spec fn bold_if(s: Style, bold: bool) -> Style {
    if bold {
        s.with_bold()
    } else {
        s
    }
}

/// The gutter column.
pub open spec fn gutter(is_active: bool) -> Seq<char> {
    if is_active {
        seq!['│']
    } else {
        seq![' ']
    }
}

/// A path with the home directory shortened; `?` when it is unknown.
pub open spec fn shown_path(cwd: Option<Seq<char>>, home: Option<Seq<char>>) -> Seq<char> {
    match cwd {
        Some(cwd) => labels::home_abbreviated(cwd, home),
        None => seq!['?'],
    }
}

/// The folder name on a tab's first row, its leading blank included.
pub open spec fn shown_name(index: int, t: Tb, width: u16) -> Seq<char> {
    let folder = match t.shells[0].cwd {
        Some(cwd) => labels::folder(cwd),
        None => seq!['?'],
    };
    let budget = name_limit(index, t, width) - margins(index, t);
    if budget <= 0 {
        Seq::empty()
    } else {
        seq![' '] + labels::tail_cut(folder, budget - 1)
    }
}

/// The column the first row's text ends at: the button's, or the panel's.
pub open spec fn name_limit(index: int, t: Tb, width: u16) -> int {
    match button_cols(index, t, width) {
        Some((from, _)) => from,
        None => if width > 0 {
            width - 1
        } else {
            0
        },
    }
}

/// The colors of a tab's `auto` button.
pub open spec fn button_style(t: Tb) -> Style {
    if !t.auto {
        style::plain().with_bg(AUTO_OFF_BG).with_fg(AUTO_OFF_FG)
    } else if any_nudged(t) {
        style::plain().with_bg(AUTO_ON_BG).with_fg(AUTO_NUDGED_FG)
    } else {
        style::plain().with_bg(AUTO_ON_BG).with_fg(AUTO_ON_FG)
    }
}

/// A tab's first row: gutter, marker and number, a favorite's star, the folder
/// name, the unseen marker and the `auto` button at its fixed column.
pub open spec fn first_row(index: int, t: Tb, is_active: bool, width: u16) -> Seq<Piece> {
    let style = tab_style(is_active);
    let top = bold_if(style, is_active);
    let mark = if is_active {
        seq!['▶']
    } else {
        seq![' ']
    };
    let name = shown_name(index, t, width);
    let gap = name_limit(index, t, width) - margins(index, t) - name.len();
    let number = Piece {
        text: gutter(is_active) + mark + text::decimal((index + 1) as nat),
        style: top,
    };
    let star = Piece { text: " ⭐"@, style: style.with_fg(Color::Yellow).with_bold() };
    let unseen = Piece { text: " *"@, style: style.with_bold() };
    let blank = Piece {
        text: text::repeat(
            ' ',
            if gap > 0 {
                gap as nat
            } else {
                0
            },
        ),
        style: top,
    };
    let button = Piece { text: AUTO_BUTTON@, style: button_style(t) };
    let row = seq![number];
    let row = if t.favorite {
        row.push(star)
    } else {
        row
    };
    let row = row.push(Piece { text: name, style: top });
    let row = if any_unseen(t) {
        row.push(unseen)
    } else {
        row
    };
    if button_cols(index, t, width) is Some {
        row.push(blank).push(button)
    } else {
        row
    }
}

/// The style of shell `i`'s rows: bold while it is the active one of several. A
/// subshell is one of several by itself.
pub open spec fn shell_style(t: Tb, i: int, is_active: bool) -> Style {
    bold_if(tab_style(is_active), t.active == i && (i > 0 || t.shells.len() > 1))
}

/// The path row of shell `i`.
pub open spec fn path_row(
    t: Tb,
    i: int,
    is_active: bool,
    width: u16,
    home: Option<Seq<char>>,
) -> Seq<Piece> {
    let mark = if t.shells.len() > 1 && t.active == i {
        seq!['▶']
    } else {
        seq![' ']
    };
    let path = labels::tail_cut(shown_path(t.shells[i].cwd, home), labels::room(width, 6));
    seq![
        Piece {
            text: gutter(is_active) + seq![' ', ' '] + mark + seq![' '] + path,
            style: shell_style(t, i, is_active),
        },
    ]
}

/// The frames of the activity spinner.
pub open spec fn spinner(i: int) -> char {
    seq!['⠋', '⠙', '⠹', '⠸', '⠼', '⠴', '⠦', '⠧', '⠇', '⠏'][i]
}

/// Which frame of the spinner shows `elapsed` nanoseconds in: one rotation per two
/// seconds.
pub open spec fn spinner_frame(elapsed: u64) -> int {
    ((elapsed / 200_000_000) as usize) as int % 10
}

/// A shell's process row, with the spinner behind it while output is streaming.
pub open spec fn process_pieces(s: Sh, is_active: bool, style: Style, now: u64) -> Seq<Piece> {
    let head = Piece {
        text: gutter(is_active) + seq![' ', ' ', ' ', '└', ' '] + s.process,
        style,
    };
    if s.animating {
        let elapsed = if now >= s.spawned {
            (now - s.spawned) as u64
        } else {
            0
        };
        let color = if is_active {
            ACTIVE_FG
        } else {
            SPINNER_COLOR
        };
        seq![
            head,
            Piece {
                text: seq![' ', ' ', spinner(spinner_frame(elapsed))],
                style: tab_style(is_active).with_fg(color).with_bold(),
            },
        ]
    } else {
        seq![head]
    }
}

/// A shell's replay row.
pub open spec fn replay_pieces(s: Sh, is_active: bool, style: Style, width: u16) -> Seq<Piece> {
    seq![
        Piece {
            text: gutter(is_active) + seq![' ', ' ', ' ', ' '] + REPLAY_LABEL@ + seq![' '],
            style: style.with_fg(REPLAY_COLOR).with_bold(),
        },
        Piece { text: shown_command(s, width), style },
    ]
}

/// The rows of shell `i`: path, process, and the replay row while it is
/// replayable.
pub open spec fn block(
    t: Tb,
    i: int,
    is_active: bool,
    width: u16,
    home: Option<Seq<char>>,
    now: u64,
) -> Seq<Seq<Piece>> {
    let style = shell_style(t, i, is_active);
    let rows = seq![
        path_row(t, i, is_active, width, home),
        process_pieces(t.shells[i], is_active, style, now),
    ];
    if shell::can_replay(t.shells[i]) {
        rows.push(replay_pieces(t.shells[i], is_active, style, width))
    } else {
        rows
    }
}

/// The rows of the first `n` shells.
pub open spec fn blocks(
    t: Tb,
    n: int,
    is_active: bool,
    width: u16,
    home: Option<Seq<char>>,
    now: u64,
) -> Seq<Seq<Piece>>
    decreases n,
{
    if n <= 0 {
        Seq::empty()
    } else {
        blocks(t, n - 1, is_active, width, home, now) + block(t, n - 1, is_active, width, home, now)
    }
}

/// A tab's last row: empty on an inactive tab; on the active one a track across the
/// panel, with a lit segment sweeping along it while output is streaming.
pub open spec fn last_row(t: Tb, is_active: bool, width: u16, now: u64) -> Seq<Piece> {
    let style = tab_style(is_active);
    let cells = if width > 2 {
        (width - 2) as nat
    } else {
        0
    };
    let head = Piece { text: gutter(is_active), style };
    let track = style.with_fg(BAR_TRACK);
    if !is_active || cells == 0 {
        seq![head]
    } else if any_animating(t) {
        let at = t.shells[0].spawned;
        let elapsed = if now >= at {
            (now - at) as u64
        } else {
            0
        };
        let (from, to) = swept(elapsed, cells as usize);
        seq![
            head,
            Piece { text: text::repeat('─', from), style: track },
            Piece {
                text: text::repeat('━', (to - from) as nat),
                style: style.with_fg(BAR_LIT).with_bold(),
            },
            Piece { text: text::repeat('─', (cells - to) as nat), style: track },
        ]
    } else {
        seq![head, Piece { text: text::repeat('─', cells), style: track }]
    }
}

/// The cells the lit segment covers.
pub open spec fn swept(elapsed: u64, cells: usize) -> (nat, nat) {
    let (from, to) = labels::lit(elapsed as int, cells as int);
    (from as nat, to as nat)
}

/// Every row of a tab.
pub open spec fn item(
    index: int,
    t: Tb,
    is_active: bool,
    width: u16,
    home: Option<Seq<char>>,
    now: u64,
) -> Seq<Seq<Piece>> {
    seq![first_row(index, t, is_active, width)] + blocks(
        t,
        t.shells.len() as int,
        is_active,
        width,
        home,
        now,
    ) + seq![last_row(t, is_active, width, now)]
}

/// A tab is drawn on as many rows as it is hit-tested on.
pub proof fn a_tab_is_drawn_on_its_rows(
    index: int,
    t: Tb,
    is_active: bool,
    width: u16,
    home: Option<Seq<char>>,
    now: u64,
)
    ensures
        item(index, t, is_active, width, home, now).len() == tab_rows(t),
{
    lemma_blocks_len(t, t.shells.len() as int, is_active, width, home, now);
    assert(t.shells.take(t.shells.len() as int) =~= t.shells);
}

proof fn lemma_blocks_len(
    t: Tb,
    n: int,
    is_active: bool,
    width: u16,
    home: Option<Seq<char>>,
    now: u64,
)
    requires
        0 <= n <= t.shells.len(),
    ensures
        blocks(t, n, is_active, width, home, now).len() == blocks_rows(t.shells.take(n)),
    decreases n,
{
    if n > 0 {
        lemma_blocks_len(t, n - 1, is_active, width, home, now);
        assert(t.shells.take(n).drop_last() =~= t.shells.take(n - 1));
    }
}

/// The `auto` button is drawn exactly where a click on it is looked for: behind as
/// many columns as its clickable ones begin at — a character each, and one more for
/// a favorite's star, which takes two — and as wide as they are.
pub proof fn the_auto_button_is_drawn_where_it_is_clicked(
    index: int,
    t: Tb,
    is_active: bool,
    width: u16,
)
    requires
        0 <= index,
        button_cols(index, t, width) is Some,
    ensures
        ({
            let row = first_row(index, t, is_active, width);
            let (from, to) = button_cols(index, t, width)->Some_0;
            &&& style::row_text(row.drop_last()).len() + (if t.favorite {
                1int
            } else {
                0
            }) == from
            &&& row.last().text == AUTO_BUTTON@
            &&& from + AUTO_BUTTON@.len() == to
        }),
{
    reveal_strlit(" ⟳ auto ");
    reveal_strlit(" ⭐");
    reveal_strlit(" *");
    let row = first_row(index, t, is_active, width);
    let name = shown_name(index, t, width);
    let style = tab_style(is_active);
    let top = bold_if(style, is_active);
    let gap = name_limit(index, t, width) - margins(index, t) - name.len();
    let mark = if is_active {
        seq!['▶']
    } else {
        seq![' ']
    };
    let a = Piece {
        text: gutter(is_active) + mark + text::decimal((index + 1) as nat),
        style: top,
    };
    let b = Piece { text: " ⭐"@, style: style.with_fg(Color::Yellow).with_bold() };
    let c = Piece { text: name, style: top };
    let d = Piece { text: " *"@, style: style.with_bold() };
    let e = Piece {
        text: text::repeat(
            ' ',
            if gap > 0 {
                gap as nat
            } else {
                0
            },
        ),
        style: top,
    };
    let none: Seq<Piece> = Seq::empty();
    let s1 = seq![a];
    let s2 = if t.favorite {
        s1.push(b)
    } else {
        s1
    };
    let s3 = s2.push(c);
    let s4 = if any_unseen(t) {
        s3.push(d)
    } else {
        s3
    };
    assert(s1 =~= none.push(a));
    lemma_row_text_push(none, a);
    lemma_row_text_push(s1, b);
    lemma_row_text_push(s2, c);
    lemma_row_text_push(s3, d);
    lemma_row_text_push(s4, e);
    assert(row.drop_last() =~= s4.push(e));
}

proof fn lemma_row_text_push(row: Seq<Piece>, p: Piece)
    ensures
        style::row_text(row.push(p)).len() == style::row_text(row).len() + p.text.len(),
{
    assert(row.push(p).drop_last() =~= row);
}

// ── drawing ─────────────────────────────────────────────────────────────────

fn base_style(is_active: bool) -> (s: Style)
    ensures
        s == tab_style(is_active),
{
    if is_active {
        Style::new().bg(ACTIVE_BG).fg(ACTIVE_FG)
    } else {
        Style::new()
    }
}

fn gutter_text(is_active: bool) -> (t: String)
    ensures
        t@ == gutter(is_active),
{
    let mut t: String = String::new();
    t.push(
        if is_active {
            '│'
        } else {
            ' '
        },
    );
    assert(t@ =~= gutter(is_active));
    t
}

fn unknown() -> (t: String)
    ensures
        t@ == seq!['?'],
{
    let mut t: String = String::new();
    t.push('?');
    assert(t@ =~= seq!['?']);
    t
}

fn full_path(s: &Shell, home: Option<&str>) -> (t: String)
    ensures
        t@ == shown_path(s@.cwd, labels::opt_str(home)),
{
    match &s.cwd {
        Some(cwd) => abbreviate_home(cwd.as_str(), home),
        None => unknown(),
    }
}

fn name_row(index: usize, tab: &Tab, is_active: bool, width: u16) -> (v: Vec<Span>)
    requires
        index < usize::MAX,
        tab_wf(tab@),
    ensures
        style::pieces(v@) == first_row(index as int, tab@, is_active, width),
{
    let ghost t = tab@;
    assert(t.shells[0] == tab.shells@[0]@);
    let style: Style = base_style(is_active);
    let top: Style = if is_active {
        style.bold()
    } else {
        style
    };
    let button: Option<(usize, usize)> = auto_button(index, tab, width);
    let used: usize = tab_margins(index, tab);
    let limit: usize = match button {
        Some((from, _)) => from,
        None => width.saturating_sub(1) as usize,
    };
    let budget: usize = limit.saturating_sub(used);
    let folder: String = match &tab.shells[0].cwd {
        Some(cwd) => folder_name(cwd.as_str()),
        None => unknown(),
    };
    let mut name: String = String::new();
    if budget > 0 {
        name.push(' ');
        let cut: String = truncate_tail(folder.as_str(), budget as u16, 1);
        push_str(&mut name, cut.as_str());
    }
    assert(name@ =~= shown_name(index as int, t, width));
    let name_chars: Vec<char> = chars(name.as_str());
    assert(name_chars@.len() <= budget);
    let gap: usize = budget - name_chars.len();
    let mut head: String = gutter_text(is_active);
    head.push(
        if is_active {
            '▶'
        } else {
            ' '
        },
    );
    push_decimal(&mut head, index as u64 + 1);
    let ghost mark = if is_active {
        seq!['▶']
    } else {
        seq![' ']
    };
    assert(head@ =~= gutter(is_active) + mark + text::decimal((index + 1) as nat));
    let mut v: Vec<Span> = row(head, top);
    if tab.favorite {
        push_span(&mut v, copy(" ⭐"), style.fg(Color::Yellow).bold());
    }
    push_span(&mut v, name, top);
    if tab.has_unseen() {
        push_span(&mut v, copy(" *"), style.bold());
    }
    if button.is_some() {
        let mut blank: String = String::new();
        push_repeat(&mut blank, ' ', gap);
        assert(blank@ =~= text::repeat(' ', gap as nat));
        assert(gap == limit - used - name_chars@.len());
        push_span(&mut v, blank, top);
        let nudged: bool = tab.has_nudge();
        let colors: Style = if !tab.auto {
            Style::new().bg(AUTO_OFF_BG).fg(AUTO_OFF_FG)
        } else if nudged {
            Style::new().bg(AUTO_ON_BG).fg(AUTO_NUDGED_FG)
        } else {
            Style::new().bg(AUTO_ON_BG).fg(AUTO_ON_FG)
        };
        push_span(&mut v, copy(AUTO_BUTTON), colors);
    }
    v
}

fn process_row(s: &Shell, is_active: bool, style: Style, now: u64) -> (v: Vec<Span>)
    ensures
        style::pieces(v@) == process_pieces(s@, is_active, style, now),
{
    let mut head: String = gutter_text(is_active);
    head.push(' ');
    head.push(' ');
    head.push(' ');
    head.push('└');
    head.push(' ');
    push_str(&mut head, s.process.as_str());
    assert(head@ =~= gutter(is_active) + seq![' ', ' ', ' ', '└', ' '] + s@.process);
    let mut v: Vec<Span> = row(head, style);
    if s.animating {
        let frames: [char; 10] = ['⠋', '⠙', '⠹', '⠸', '⠼', '⠴', '⠦', '⠧', '⠇', '⠏'];
        let elapsed: u64 = now.saturating_sub(s.spawned);
        let frame: usize = (elapsed / 200_000_000) as usize % 10;
        let mut spin: String = String::new();
        spin.push(' ');
        spin.push(' ');
        spin.push(frames[frame]);
        assert(spin@ =~= seq![' ', ' ', spinner(spinner_frame(elapsed))]);
        let color: Color = if is_active {
            ACTIVE_FG
        } else {
            SPINNER_COLOR
        };
        push_span(&mut v, spin, base_style(is_active).fg(color).bold());
    }
    assert(style::pieces(v@) =~= process_pieces(s@, is_active, style, now));
    v
}

fn replay_row(s: &Shell, is_active: bool, style: Style, width: u16) -> (v: Vec<Span>)
    ensures
        style::pieces(v@) == replay_pieces(s@, is_active, style, width),
{
    let mut head: String = gutter_text(is_active);
    head.push(' ');
    head.push(' ');
    head.push(' ');
    head.push(' ');
    push_str(&mut head, REPLAY_LABEL);
    head.push(' ');
    assert(head@ =~= gutter(is_active) + seq![' ', ' ', ' ', ' '] + REPLAY_LABEL@ + seq![' ']);
    let mut v: Vec<Span> = row(head, style.fg(REPLAY_COLOR).bold());
    push_span(&mut v, command_text(s, width), style);
    assert(style::pieces(v@) =~= replay_pieces(s@, is_active, style, width));
    v
}

fn activity_row(tab: &Tab, is_active: bool, width: u16, now: u64) -> (v: Vec<Span>)
    requires
        tab_wf(tab@),
    ensures
        style::pieces(v@) == last_row(tab@, is_active, width, now),
{
    let ghost t = tab@;
    assert(t.shells[0] == tab.shells@[0]@);
    let style: Style = base_style(is_active);
    // The gutter and the panel's border column are not the bar's.
    let cells: usize = width.saturating_sub(2) as usize;
    let mut v: Vec<Span> = row(gutter_text(is_active), style);
    if !is_active || cells == 0 {
        return v;
    }
    if tab.is_busy() {
        let elapsed: u64 = now.saturating_sub(tab.shells[0].spawned);
        let (from, to): (usize, usize) = sweep(elapsed, cells);
        let mut left: String = String::new();
        push_repeat(&mut left, '─', from);
        let mut lit: String = String::new();
        push_repeat(&mut lit, '━', to - from);
        let mut right: String = String::new();
        push_repeat(&mut right, '─', cells - to);
        assert(left@ =~= text::repeat('─', from as nat));
        assert(lit@ =~= text::repeat('━', (to - from) as nat));
        assert(right@ =~= text::repeat('─', (cells - to) as nat));
        push_span(&mut v, left, style.fg(BAR_TRACK));
        push_span(&mut v, lit, style.fg(BAR_LIT).bold());
        push_span(&mut v, right, style.fg(BAR_TRACK));
    } else {
        let mut track: String = String::new();
        push_repeat(&mut track, '─', cells);
        assert(track@ =~= text::repeat('─', cells as nat));
        push_span(&mut v, track, style.fg(BAR_TRACK));
    }
    assert(style::pieces(v@) =~= last_row(t, is_active, width, now));
    v
}

fn push_block(
    lines: &mut Vec<Vec<Span>>,
    tab: &Tab,
    i: usize,
    is_active: bool,
    width: u16,
    home: Option<&str>,
    now: u64,
)
    requires
        tab_wf(tab@),
        i < tab@.shells.len(),
    ensures
        style::rows_of(final(lines)@) == style::rows_of(old(lines)@) + block(
            tab@,
            i as int,
            is_active,
            width,
            labels::opt_str(home),
            now,
        ),
{
    let ghost t = tab@;
    let ghost was = style::rows_of(lines@);
    let s: &Shell = &tab.shells[i];
    assert(t.shells[i as int] == s@);
    let several: bool = tab.shells.len() > 1;
    let style: Style = if tab.active == i && (i > 0 || several) {
        base_style(is_active).bold()
    } else {
        base_style(is_active)
    };
    let full: String = full_path(s, home);
    let cut: String = truncate_tail(full.as_str(), width, 6);
    let mut path: String = gutter_text(is_active);
    path.push(' ');
    path.push(' ');
    path.push(
        if several && tab.active == i {
            '▶'
        } else {
            ' '
        },
    );
    path.push(' ');
    push_str(&mut path, cut.as_str());
    let ghost mark = if t.shells.len() > 1 && t.active == i {
        seq!['▶']
    } else {
        seq![' ']
    };
    assert(path@ =~= gutter(is_active) + seq![' ', ' '] + mark + seq![' '] + cut@);
    lines.push(row(path, style));
    lines.push(process_row(s, is_active, style, now));
    if s.replayable() {
        lines.push(replay_row(s, is_active, style, width));
    }
    assert(style::rows_of(lines@) =~= was + block(
        t,
        i as int,
        is_active,
        width,
        labels::opt_str(home),
        now,
    ));
}

/// The rows of tab `index`. The first has the folder name, with the unseen marker
/// after it and the tab's `auto` button glued to the panel's right edge; then each
/// shell has its path, its running process with the activity spinner, and — while
/// it can be replayed — the command that would be. The last row is empty on an
/// inactive tab and carries the activity bar on the active one. Every row of the
/// active tab starts with a `│`, and only the active tab is painted.
pub fn tab_item(
    index: usize,
    tab: &Tab,
    is_active: bool,
    width: u16,
    home: Option<&str>,
    now: u64,
) -> (lines: Vec<Vec<Span>>)
    requires
        index < usize::MAX,
        tab_wf(tab@),
    ensures
        style::rows_of(lines@) == item(
            index as int,
            tab@,
            is_active,
            width,
            labels::opt_str(home),
            now,
        ),
{
    let ghost t = tab@;
    let ghost h = labels::opt_str(home);
    let mut lines: Vec<Vec<Span>> = Vec::new();
    lines.push(name_row(index, tab, is_active, width));
    let ghost head = seq![first_row(index as int, t, is_active, width)];
    assert(style::rows_of(lines@) =~= head + blocks(t, 0, is_active, width, h, now));
    let mut i: usize = 0;
    while i < tab.shells.len()
        invariant
            t == tab@,
            h == labels::opt_str(home),
            tab_wf(t),
            i <= tab.shells@.len() == t.shells.len(),
            style::rows_of(lines@) == head + blocks(t, i as int, is_active, width, h, now),
        decreases tab.shells.len() - i,
    {
        push_block(&mut lines, tab, i, is_active, width, home, now);
        assert(style::rows_of(lines@) =~= head + blocks(t, i + 1, is_active, width, h, now));
        i += 1;
    }
    let ghost was = style::rows_of(lines@);
    lines.push(activity_row(tab, is_active, width, now));
    assert(style::rows_of(lines@) =~= was.push(last_row(t, is_active, width, now)));
    assert(style::rows_of(lines@) =~= item(index as int, t, is_active, width, h, now));
    lines
}

// ── what a tab says ─────────────────────────────────────────────────────────

/// A tab takes a row at the top and one at the bottom, and for each shell two rows, or
/// three where its command can be replayed.
pub proof fn a_shell_takes_two_rows_or_three(t: Tb, s: Sh)
    ensures
        tab_rows(Tb { shells: Seq::empty(), ..t }) == 2,
        tab_rows(Tb { shells: t.shells.push(s), ..t }) == tab_rows(t) + if shell::can_replay(s) {
            3int
        } else {
            2
        },
{
    assert(t.shells.push(s).drop_last() =~= t.shells);
}

/// Stepping round goes to the next or the one before, and round the ends; one step back
/// undoes one forward.
pub proof fn stepping_round_comes_back(i: int, n: int)
    requires
        0 <= i < n,
    ensures
        turned(i, n, true) == (i + 1) % n,
        turned(turned(i, n, true), n, false) == i,
        turned(turned(i, n, false), n, true) == i,
{
    if i + 1 < n {
        assert((i + 1) % n == i + 1) by (nonlinear_arith)
            requires
                0 <= i + 1 < n,
        ;
    } else {
        assert((i + 1) % n == 0) by (nonlinear_arith)
            requires
                i + 1 == n,
                n > 0,
        ;
    }
}

/// A tab's first row begins with its number, marked where it is the active one, and says
/// the name of its folder as far as there is room.
pub proof fn a_tab_is_headed_by_its_number_and_name(index: int, t: Tb, is_active: bool, width: u16)
    requires
        0 <= index,
        t.shells.len() > 0,
    ensures
        ({
            let row = first_row(index, t, is_active, width);
            let at = if t.favorite {
                2int
            } else {
                1
            };
            let folder = match t.shells[0].cwd {
                Some(cwd) => labels::folder(cwd),
                None => "?"@,
            };
            let room = name_limit(index, t, width) - margins(index, t);
            &&& row[0].text == (if is_active {
                "│▶"@
            } else {
                "  "@
            }) + text::decimal((index + 1) as nat)
            &&& t.favorite ==> row[1].text == " ⭐"@
            &&& room > 0 ==> row[at].text == seq![' '] + labels::tail_cut(folder, room - 1)
            &&& room <= 0 ==> row[at].text.len() == 0
            &&& any_unseen(t) ==> row[at + 1].text == " *"@
        }),
{
    reveal_strlit("│▶");
    reveal_strlit("  ");
    reveal_strlit("?");
    assert("│▶"@ =~= seq!['│'] + seq!['▶']);
    assert("  "@ =~= seq![' '] + seq![' ']);
    assert("?"@ =~= seq!['?']);
}

/// The columns in front of a tab's name: two for the gutter and the mark, those of the
/// number, three for a star and two for unseen output.
pub proof fn margins_are_what_stands_beside_the_name(index: int, t: Tb)
    ensures
        margins(index, t) == 2 + text::decimal((index + 1) as nat).len() + (if t.favorite {
            3int
        } else {
            0
        }) + (if any_unseen(t) {
            2int
        } else {
            0
        }),
        any_unseen(t) <==> exists|i: int|
            0 <= i < t.shells.len() && (#[trigger] t.shells[i]).unseen_output,
{
}

/// A shell's first row says its folder, the end of it where there is no room for all; the
/// active shell of several is marked.
pub proof fn a_shell_is_shown_by_its_folder(
    t: Tb,
    i: int,
    is_active: bool,
    width: u16,
    home: Option<Seq<char>>,
)
    requires
        0 <= i < t.shells.len(),
        width >= 6,
    ensures
        ({
            let path = match t.shells[i].cwd {
                Some(cwd) => labels::home_abbreviated(cwd, home),
                None => "?"@,
            };
            style::row_text(path_row(t, i, is_active, width, home)) == (if is_active {
                "│"@
            } else {
                " "@
            }) + "  "@ + (if t.shells.len() > 1 && t.active == i {
                "▶ "@
            } else {
                "  "@
            }) + labels::tail_cut(path, width - 6)
        }),
{
    reveal_strlit("│");
    reveal_strlit(" ");
    reveal_strlit("  ");
    reveal_strlit("▶ ");
    reveal_strlit("?");
    assert("│"@ =~= seq!['│']);
    assert(" "@ =~= seq![' ']);
    assert("  "@ =~= seq![' ', ' ']);
    assert("▶ "@ =~= seq!['▶'] + seq![' ']);
    assert("?"@ =~= seq!['?']);
    let row = path_row(t, i, is_active, width, home);
    assert(row =~= seq![row[0]]);
    style::a_row_reads_piece_by_piece(Seq::empty(), row[0]);
    let path = match t.shells[i].cwd {
        Some(cwd) => labels::home_abbreviated(cwd, home),
        None => "?"@,
    };
    let gut = if is_active {
        "│"@
    } else {
        " "@
    };
    let mark = if t.shells.len() > 1 && t.active == i {
        "▶ "@
    } else {
        "  "@
    };
    assert(row[0].text =~= gut + "  "@ + mark + labels::tail_cut(path, width - 6));
}

/// The second row says what runs in the shell, and turns while it is busy.
pub proof fn a_shell_says_what_runs_in_it(s: Sh, is_active: bool, style: Style, now: u64)
    ensures
        ({
            let row = process_pieces(s, is_active, style, now);
            &&& row[0].text == (if is_active {
                "│"@
            } else {
                " "@
            }) + "   └ "@ + s.process
            &&& row.len() == if s.animating {
                2int
            } else {
                1
            }
        }),
{
    reveal_strlit("│");
    reveal_strlit(" ");
    reveal_strlit("   └ ");
    assert("│"@ =~= seq!['│']);
    assert(" "@ =~= seq![' ']);
    assert("   └ "@ =~= seq![' ', ' ', ' ', '└', ' ']);
}

/// The spinner shows its ten pictures in turn, a fifth of a second each.
pub proof fn the_spinner_turns(elapsed: u64, k: int)
    requires
        0 <= k < 1_000_000,
        200_000_000 * k <= elapsed < 200_000_000 * (k + 1),
    ensures
        spinner_frame(elapsed) == k % 10,
        0 <= k < 10 ==> spinner(spinner_frame(elapsed)) == "⠋⠙⠹⠸⠼⠴⠦⠧⠇⠏"@[k],
{
    reveal_strlit("⠋⠙⠹⠸⠼⠴⠦⠧⠇⠏");
    assert(elapsed / 200_000_000 == k);
}

/// The command that would be replayed is shown as far as there is room, and can be
/// clicked from its icon to its end.
pub proof fn the_command_is_clicked_where_it_is_shown(s: Sh, cmd: Seq<char>, width: u16)
    requires
        s.last_cmd == Some(cmd),
        width >= 9,
    ensures
        shown_command(s, width) == labels::head_cut(cmd, width - 9),
        replay_cols(s, width).0 == 5,
        replay_cols(s, width).1 == 8 + labels::head_cut(cmd, width - 9).len(),
{
}

/// The button of a tab whose auto feature is off is gray, of one that is on green, and
/// its label turns yellow while an agent of it is being nudged.
pub proof fn the_button_shows_the_auto_feature(t: Tb)
    ensures
        !t.auto ==> button_style(t).bg == Some(Color::DarkGray),
        t.auto ==> button_style(t).bg == Some(Color::Green),
        t.auto && (exists|i: int| 0 <= i < t.shells.len() && (#[trigger] t.shells[i]).nudge is Some)
            ==> button_style(t).fg == Some(Color::Yellow),
        !(t.auto && (exists|i: int|
            0 <= i < t.shells.len() && (#[trigger] t.shells[i]).nudge is Some)) ==> button_style(
            t,
        ).fg == Some(Color::White),
{
}

/// The bar of the active tab is as long as the sidebar is wide, less its gutter and edge,
/// lit or not; other tabs have none.
pub proof fn the_bar_is_as_long_as_the_sidebar(t: Tb, width: u16, now: u64)
    requires
        width > 2,
        t.shells.len() > 0,
    ensures
        style::row_text(last_row(t, true, width, now)).len() == width - 1,
        last_row(t, false, width, now).len() == 1,
        any_animating(t) ==> last_row(t, true, width, now).len() == 4,
        !any_animating(t) ==> last_row(t, true, width, now).len() == 2,
{
    let row = last_row(t, true, width, now);
    let cells = (width - 2) as nat;
    if any_animating(t) {
        let at = t.shells[0].spawned;
        let elapsed = if now >= at {
            (now - at) as u64
        } else {
            0
        };
        labels::the_segment_sweeps(elapsed as int, cells as int);
        style::a_row_reads_piece_by_piece(Seq::empty(), row[0]);
        assert(row =~= seq![row[0]].push(row[1]).push(row[2]).push(row[3]));
        style::a_row_reads_piece_by_piece(seq![row[0]], row[1]);
        style::a_row_reads_piece_by_piece(seq![row[0]].push(row[1]), row[2]);
        style::a_row_reads_piece_by_piece(seq![row[0]].push(row[1]).push(row[2]), row[3]);
    } else {
        style::a_row_reads_piece_by_piece(Seq::empty(), row[0]);
        assert(row =~= seq![row[0]].push(row[1]));
        style::a_row_reads_piece_by_piece(seq![row[0]], row[1]);
    }
}

/// The rows of a tab come from top to bottom: its head, the rows of its shells in order,
/// and its foot.
pub proof fn a_tabs_rows_are_in_order(
    index: int,
    t: Tb,
    is_active: bool,
    width: u16,
    home: Option<Seq<char>>,
    now: u64,
    k: int,
)
    requires
        0 <= k < t.shells.len(),
    ensures
        ({
            let rows = item(index, t, is_active, width, home, now);
            let at = 1 + blocks_rows(t.shells.take(k));
            &&& rows[0] == first_row(index, t, is_active, width)
            &&& rows.last() == last_row(t, is_active, width, now)
            &&& rows[at] == path_row(t, k, is_active, width, home)
            &&& rows[at + 1] == process_pieces(
                t.shells[k],
                is_active,
                shell_style(t, k, is_active),
                now,
            )
            &&& shell::can_replay(t.shells[k]) ==> rows[at + 2] == replay_pieces(
                t.shells[k],
                is_active,
                shell_style(t, k, is_active),
                width,
            )
        }),
{
    let n = t.shells.len() as int;
    let rows = item(index, t, is_active, width, home, now);
    let all = blocks(t, n, is_active, width, home, now);
    lemma_blocks_at(t, n, k, is_active, width, home, now);
    let at = blocks_rows(t.shells.take(k));
    lemma_blocks_bound(t.shells.take(k));
    let one = block(t, k, is_active, width, home, now);
    assert(all[at + 0] == one[0]);
    assert(all[at + 1] == one[1]);
    if shell::can_replay(t.shells[k]) {
        assert(all[at + 2] == one[2]);
        assert(rows[1 + at + 2] == all[at + 2]);
    }
    assert(rows[1 + at] == all[at]);
    assert(rows[1 + at + 1] == all[at + 1]);
}

proof fn lemma_blocks_at(
    t: Tb,
    n: int,
    k: int,
    is_active: bool,
    width: u16,
    home: Option<Seq<char>>,
    now: u64,
)
    requires
        0 <= k < n <= t.shells.len(),
    ensures
        ({
            let all = blocks(t, n, is_active, width, home, now);
            let one = block(t, k, is_active, width, home, now);
            let at = blocks_rows(t.shells.take(k));
            &&& all.len() == blocks_rows(t.shells.take(n))
            &&& 0 <= at && at + one.len() <= all.len()
            &&& forall|d: int| 0 <= d < one.len() ==> #[trigger] all[at + d] == one[d]
        }),
    decreases n,
{
    let front = blocks(t, n - 1, is_active, width, home, now);
    let last = block(t, n - 1, is_active, width, home, now);
    let all = blocks(t, n, is_active, width, home, now);
    assert(t.shells.take(n).drop_last() =~= t.shells.take(n - 1));
    lemma_blocks_bound(t.shells.take(k));
    if k < n - 1 {
        lemma_blocks_at(t, n - 1, k, is_active, width, home, now);
        let one = block(t, k, is_active, width, home, now);
        let at = blocks_rows(t.shells.take(k));
        assert forall|d: int| 0 <= d < one.len() implies #[trigger] all[at + d] == one[d] by {
            assert(front[at + d] == one[d]);
        }
    } else {
        if n - 1 > 0 {
            lemma_blocks_at(t, n - 1, n - 2, is_active, width, home, now);
        } else {
            assert(front.len() == 0);
            assert(t.shells.take(0).len() == 0);
        }
        assert(front.len() == blocks_rows(t.shells.take(k)));
        assert forall|d: int| 0 <= d < last.len() implies #[trigger] all[blocks_rows(
            t.shells.take(k),
        ) + d] == last[d] by {}
    }
}

/// The third row shows the command that would be replayed, behind its icon.
pub proof fn the_command_stands_behind_its_icon(s: Sh, is_active: bool, style: Style, width: u16)
    ensures
        ({
            let row = replay_pieces(s, is_active, style, width);
            &&& row.len() == 2
            &&& row[0].text == (if is_active {
                "│"@
            } else {
                " "@
            }) + "    🔁 "@
            &&& row[1].text == shown_command(s, width)
            &&& row[0].style.fg == Some(Color::Coral)
        }),
{
    reveal_strlit("│");
    reveal_strlit(" ");
    reveal_strlit("    🔁 ");
    reveal_strlit("🔁");
    assert("│"@ =~= seq!['│']);
    assert(" "@ =~= seq![' ']);
    let row = replay_pieces(s, is_active, style, width);
    let gut = if is_active {
        "│"@
    } else {
        " "@
    };
    assert(row[0].text =~= gut + "    🔁 "@);
}

/// The active tab is painted dark on pastel, any other as the terminal is; of several
/// shells the active one stands out.
pub proof fn the_active_tab_is_painted(t: Tb, i: int, is_active: bool)
    ensures
        tab_style(true).bg == Some(Color::Pastel) && tab_style(true).fg == Some(Color::Ink),
        tab_style(false) == style::plain(),
        t.shells.len() > 1 ==> shell_style(t, i, is_active).bold == (t.active == i),
        t.shells.len() == 1 && i == 0 ==> !shell_style(t, i, is_active).bold,
{
}

/// The bar of the active tab moves while one of its shells does, whichever it is: its lit
/// segment stands where the time since the tab was opened has brought it.
pub proof fn the_bar_moves_while_a_shell_does(t: Tb, width: u16, now: u64)
    requires
        width > 2,
        t.shells.len() > 0,
        t.shells[0].spawned <= now,
    ensures
        any_animating(t) <==> exists|i: int|
            0 <= i < t.shells.len() && (#[trigger] t.shells[i]).animating,
        any_animating(t) ==> ({
            let row = last_row(t, true, width, now);
            let (from, to) = labels::lit((now - t.shells[0].spawned) as int, width - 2);
            &&& row[1].text.len() == from
            &&& row[2].text.len() == to - from
            &&& row[3].text.len() == width - 2 - to
            &&& row[2].style.fg == Some(Color::Lit) && row[1].style.fg == Some(Color::Track)
        }),
{
    labels::the_segment_sweeps((now - t.shells[0].spawned) as int, width - 2);
}

} // verus!
