//! The footer, and what is drawn over the panels: the copy hint, the cheat sheet
//! and the quit dialog.

use unicode_width::{UnicodeWidthChar, UnicodeWidthStr};
use vstd::prelude::*;
use crate::labels;
use crate::labels::{clock, context_label, copy_button_x, Context};
use crate::shell;
use crate::shell::{Nudge, Sh, Shell, COMPACT_COMMAND};
use crate::style;
use crate::style::{push_span, row, Color, Piece, Span, Style};
use crate::tab;
use crate::tab::{ACTIVE_BG, ACTIVE_FG};
use crate::text;
use crate::text::{chars, copy, find_at, push_chars, push_decimal, push_repeat, push_str, range};

verus! {

/// Labels of the footer's clickable button, which shows and toggles copy mode. Both
/// are `BUTTON_COLS` wide so render and hit-test always agree.
pub const COPY_ON_BUTTON: &'static str = " ⧉ copy ✓ ";

pub const COPY_OFF_BUTTON: &'static str = " ⧉ copy ✗ ";

/// Selection highlight: a solid block rather than a reversal, so it reads the same
/// over plain and inverse text alike.
pub const SELECT_BG: Color = Color::Blue;

pub const SELECT_FG: Color = Color::Bright;

/// The red a nearly full context is painted in.
pub const CONTEXT_WARN_FG: Color = Color::Crimson;

/// The footer paints the usage red from here on, in percent.
pub const CONTEXT_WARN_AT: u64 = 80;

/// How long the copy hint lingers after a copy, in nanoseconds.
pub const COPY_HINT: u64 = 1_200_000_000;

/// The hint that a copy reached the clipboard.
pub const HINT: &'static str = " ✓ copied ";

/// Both labels of the copy button are as wide as the columns reserved for it.
pub proof fn buttons_share_one_width()
    ensures
        COPY_ON_BUTTON@.len() == labels::BUTTON_COLS,
        COPY_OFF_BUTTON@.len() == labels::BUTTON_COLS,
{
    reveal_strlit(" ⧉ copy ✓ ");
    reveal_strlit(" ⧉ copy ✗ ");
}

// ── width in cells ──────────────────────────────────────────────────────────

/// The columns `UnicodeWidthStr::width` says a text takes.
pub uninterp spec fn cells(s: Seq<char>) -> usize;

/// The columns `UnicodeWidthChar::width` says a character takes.
pub uninterp spec fn char_cells(c: char) -> Option<usize>;

/// `UnicodeWidthStr::width`: the columns a text takes, a function of the text.
#[verifier::external_body]
fn str_width(s: &str) -> (n: usize)
    ensures
        n == cells(s@),
{
    s.width()
}

/// `UnicodeWidthChar::width`: the columns a character takes, a function of the
/// character; `None` for a control character.
#[verifier::external_body]
fn char_width(c: char) -> (n: Option<usize>)
    ensures
        n == char_cells(c),
{
    c.width()
}

/// The columns the first `n` of some widths add up to.
pub open spec fn total(widths: Seq<usize>, n: int) -> int
    decreases n,
{
    if n <= 0 {
        0
    } else {
        total(widths, n - 1) + widths[n - 1]
    }
}

/// Whether `n` is how many of some widths fit into `room` columns: they do, and the
/// next one does not.
pub open spec fn fits(widths: Seq<usize>, room: int, n: int) -> bool {
    &&& 0 <= n <= widths.len()
    &&& total(widths, n) <= room
    &&& n < widths.len() ==> total(widths, n + 1) > room
}

/// How many of some widths, from the front, fit into `room` columns.
pub fn fit(widths: &[usize], room: usize) -> (n: usize)
    ensures
        fits(widths@, room as int, n as int),
{
    let mut n: usize = 0;
    let mut used: u128 = 0;
    while n < widths.len()
        invariant
            n <= widths@.len(),
            used == total(widths@, n as int),
            used <= room,
        decreases widths.len() - n,
    {
        let next: u128 = used + widths[n] as u128;
        if next > room as u128 {
            return n;
        }
        used = next;
        n += 1;
    }
    n
}

/// The columns of each character; control characters take none.
pub open spec fn widths_of(s: Seq<char>) -> Seq<usize> {
    s.map_values(
        |c: char|
            match char_cells(c) {
                Some(n) => n,
                None => 0,
            },
    )
}

fn char_widths(s: &[char]) -> (v: Vec<usize>)
    ensures
        v@ == widths_of(s@),
{
    let mut v: Vec<usize> = Vec::new();
    let mut i: usize = 0;
    while i < s.len()
        invariant
            i <= s@.len(),
            v@ == widths_of(s@.take(i as int)),
        decreases s.len() - i,
    {
        v.push(
            match char_width(s[i]) {
                Some(n) => n,
                None => 0,
            },
        );
        i += 1;
        assert(v@ =~= widths_of(s@.take(i as int)));
    }
    assert(s@.take(i as int) =~= s@);
    v
}

// ── the status bar ──────────────────────────────────────────────────────────

/// Everything the status bar draws, in one place.
pub struct Footer<'a> {
    pub index: usize,
    pub count: usize,
    pub shell: &'a Shell,
    pub branch: Option<&'a str>,
    pub width: u16,
    pub tabs_overflow: bool,
    pub copy_mode: bool,
    /// The tab's auto feature is on: the footer then counts down to the nudge.
    pub auto: bool,
    pub home: Option<&'a str>,
    pub now: u64,
    pub wall: u128,
}

/// What the auto feature is up to: the countdown to its next nudge, or its glyph
/// while a nudge is still unanswered.
pub open spec fn auto_text(s: Sh, auto: bool, now: u64, wall: u128) -> Seq<char> {
    match s.nudge {
        Some(Nudge::Compacting(_)) => " ⟳ "@ + COMPACT_COMMAND@,
        Some(Nudge::Continued(_)) => " ⟳"@,
        None => match shell::countdown_of(s, now, wall) {
            Some(left) => if auto {
                " ⏳ "@ + labels::clock_text((left / 1_000_000_000) as nat) + " → "@
                    + COMPACT_COMMAND@
            } else {
                Seq::empty()
            },
            None => Seq::empty(),
        },
    }
}

/// The context usage of a shell's agent.
pub open spec fn usage_text(s: Sh) -> Seq<char> {
    match s.agent {
        Some(agent) => labels::context_text(agent.context),
        None => Seq::empty(),
    }
}

/// The left segment, before it is cut to fit: the scroll indicator, the tab's
/// number and the tab count, the location, the branch and the agent.
pub open spec fn left_text(
    index: int,
    count: int,
    s: Sh,
    branch: Option<Seq<char>>,
    overflow: bool,
    auto: bool,
    home: Option<Seq<char>>,
    now: u64,
    wall: u128,
) -> Seq<char> {
    let t = if overflow {
        " "@ + "↕ "@
    } else {
        " "@
    };
    let t = t + text::decimal((index + 1) as nat) + "/"@ + text::decimal(count as nat) + " ▸ "@
        + tab::shown_path(s.cwd, home);
    let t = match branch {
        Some(b) => t + "  ⎇ "@ + b,
        None => t,
    };
    match s.agent {
        Some(agent) => t + "  ✳ "@ + agent.model + usage_text(s) + auto_text(s, auto, now, wall),
        None => t,
    }
}

/// The version in the right corner.
pub open spec fn version_text() -> Seq<char> {
    seq!['v'] + crate::VERSION@ + seq![' ']
}

/// The button's label: none on a footer too narrow to hold it.
pub open spec fn button_text(width: u16, copy_mode: bool) -> Seq<char> {
    if labels::copy_button(width) is None {
        Seq::empty()
    } else if copy_mode {
        COPY_ON_BUTTON@
    } else {
        COPY_OFF_BUTTON@
    }
}

/// The footer's style.
pub open spec fn bar_style() -> Style {
    style::plain().with_bg(ACTIVE_BG).with_fg(ACTIVE_FG).with_bold()
}

/// Whether a shell's context is nearly full.
pub open spec fn nearly_full(s: Sh) -> bool {
    s.agent matches Some(agent) && agent.context matches Some(c) && labels::filled(
        c,
        CONTEXT_WARN_AT as int,
    )
}

/// The footer's spans, given its left segment as it was cut and the blanks behind
/// it: the usage is split out in red when the context is nearly full and it
/// survived the cut.
pub open spec fn bar_pieces(
    left: Seq<char>,
    pad: nat,
    usage: Seq<char>,
    red: bool,
    button: Seq<char>,
    copy_mode: bool,
) -> Seq<Piece> {
    let plain = style::plain();
    let style = bar_style();
    let blanks = text::repeat(' ', pad);
    let at = text::find(left, usage);
    let front = if red && usage.len() > 0 && at is Some {
        seq![
            Piece { text: left.take(at->Some_0), style: plain },
            Piece { text: usage, style: style.with_fg(CONTEXT_WARN_FG) },
            Piece { text: left.skip(at->Some_0 + usage.len()) + blanks, style: plain },
        ]
    } else {
        seq![Piece { text: left + blanks, style: plain }]
    };
    let button_style = if copy_mode {
        style.with_bg(SELECT_BG).with_fg(SELECT_FG)
    } else {
        Style { reversed: true, ..style }
    };
    front.push(Piece { text: button, style: button_style }).push(
        Piece { text: version_text(), style: plain },
    )
}

/// The footer's spans, given its left segment as it was cut and the blanks behind
/// it.
pub fn bar_spans(
    left: &str,
    pad: usize,
    usage: &str,
    red: bool,
    button: &str,
    copy_mode: bool,
) -> (v: Vec<Span>)
    ensures
        style::pieces(v@) == bar_pieces(left@, pad as nat, usage@, red, button@, copy_mode),
{
    let plain: Style = Style::new();
    let style: Style = Style::new().bg(ACTIVE_BG).fg(ACTIVE_FG).bold();
    let lv: Vec<char> = chars(left);
    let uv: Vec<char> = chars(usage);
    let found: Option<usize> = if red && uv.len() > 0 {
        find_at(lv.as_slice(), uv.as_slice(), 0)
    } else {
        None
    };
    let mut v: Vec<Span> = match found {
        Some(at) => {
            let n: usize = uv.len();
            let len: usize = lv.len();
            let head: String = text::string(range(lv.as_slice(), 0, at));
            assert(head@ =~= left@.take(at as int));
            let mut rest: String = text::string(range(lv.as_slice(), at + n, len));
            assert(rest@ =~= left@.skip(at + n));
            push_repeat(&mut rest, ' ', pad);
            let mut v: Vec<Span> = row(head, plain);
            push_span(&mut v, copy(usage), style.fg(CONTEXT_WARN_FG));
            push_span(&mut v, rest, plain);
            assert(style::pieces(v@) =~= seq![
                Piece { text: left@.take(at as int), style: plain },
                Piece { text: usage@, style: style.with_fg(CONTEXT_WARN_FG) },
                Piece {
                    text: left@.skip(at + n) + text::repeat(' ', pad as nat),
                    style: plain,
                },
            ]);
            v
        },
        None => {
            let mut all: String = copy(left);
            push_repeat(&mut all, ' ', pad);
            row(all, plain)
        },
    };
    let button_style: Style = if copy_mode {
        style.bg(SELECT_BG).fg(SELECT_FG)
    } else {
        Style { reversed: true, ..style }
    };
    push_span(&mut v, copy(button), button_style);
    let version: String = version_label();
    push_span(&mut v, version, plain);
    v
}

fn version_label() -> (t: String)
    ensures
        t@ == version_text(),
{
    let mut t: String = String::new();
    t.push('v');
    push_str(&mut t, crate::VERSION);
    t.push(' ');
    assert(t@ =~= version_text());
    t
}

fn auto_label(s: &Shell, auto: bool, now: u64, wall: u128) -> (t: String)
    ensures
        t@ == auto_text(s@, auto, now, wall),
{
    match s.nudge {
        Some(Nudge::Compacting(_)) => {
            let mut t: String = copy(" ⟳ ");
            push_str(&mut t, COMPACT_COMMAND);
            t
        },
        Some(Nudge::Continued(_)) => copy(" ⟳"),
        None => match s.countdown(now, wall) {
            Some(left) => {
                if !auto {
                    let t: String = String::new();
                    assert(t@ =~= Seq::empty());
                    return t;
                }
                let mut t: String = copy(" ⏳ ");
                let c: String = clock(left);
                push_str(&mut t, c.as_str());
                push_str(&mut t, " → ");
                push_str(&mut t, COMPACT_COMMAND);
                t
            },
            None => {
                let t: String = String::new();
                assert(t@ =~= Seq::empty());
                t
            },
        },
    }
}

fn usage_label(s: &Shell) -> (t: String)
    ensures
        t@ == usage_text(s@),
{
    match &s.agent {
        Some(agent) => context_label(agent.context),
        None => {
            let t: String = String::new();
            assert(t@ =~= Seq::empty());
            t
        },
    }
}

fn left_label(f: &Footer) -> (t: String)
    requires
        f.index < usize::MAX,
    ensures
        t@ == left_text(
            f.index as int,
            f.count as int,
            f.shell@,
            labels::opt_str(f.branch),
            f.tabs_overflow,
            f.auto,
            labels::opt_str(f.home),
            f.now,
            f.wall,
        ),
{
    let s: &Shell = f.shell;
    let path: String = match &s.cwd {
        Some(cwd) => labels::abbreviate_home(cwd.as_str(), f.home),
        None => {
            let mut t: String = String::new();
            t.push('?');
            assert(t@ =~= seq!['?']);
            t
        },
    };
    let mut t: String = copy(" ");
    if f.tabs_overflow {
        push_str(&mut t, "↕ ");
    }
    push_decimal(&mut t, f.index as u64 + 1);
    push_str(&mut t, "/");
    push_decimal(&mut t, f.count as u64);
    push_str(&mut t, " ▸ ");
    push_str(&mut t, path.as_str());
    if let Some(b) = f.branch {
        push_str(&mut t, "  ⎇ ");
        push_str(&mut t, b);
    }
    if let Some(agent) = &s.agent {
        push_str(&mut t, "  ✳ ");
        push_str(&mut t, agent.model.as_str());
        let usage: String = usage_label(s);
        push_str(&mut t, usage.as_str());
        let auto: String = auto_label(s, f.auto, f.now, f.wall);
        push_str(&mut t, auto.as_str());
    }
    t
}

/// Whether `cut` is what a left segment shows in `room` columns: all of it when it
/// fits, else as many of its characters as do.
pub open spec fn cut_to(left: Seq<char>, room: int, cut: Seq<char>) -> bool {
    if cells(left) <= room {
        cut == left
    } else {
        exists|n: int| #[trigger] fits(widths_of(left), room, n) && cut == left.take(n)
    }
}

/// `width` less `used`, or nothing.
pub open spec fn less(width: int, used: int) -> int {
    if width > used {
        width - used
    } else {
        0
    }
}

/// Whether `row` is the footer of `f` with its left segment cut to `cut`.
pub open spec fn drawn_with(f: Footer, row: Seq<Piece>, cut: Seq<char>) -> bool {
    let left = left_text(
        f.index as int,
        f.count as int,
        f.shell@,
        labels::opt_str(f.branch),
        f.tabs_overflow,
        f.auto,
        labels::opt_str(f.home),
        f.now,
        f.wall,
    );
    let button = button_text(f.width, f.copy_mode);
    let fixed = cells(version_text()) + cells(button);
    &&& cut_to(left, less(f.width as int, fixed), cut)
    &&& row == bar_pieces(
        cut,
        less(f.width as int, cells(cut) + fixed) as nat,
        usage_text(f.shell@),
        nearly_full(f.shell@),
        button,
        f.copy_mode,
    )
}

/// Footer: an up-down arrow when the tab list overflows, then the active terminal
/// number and the tab count, its location, git branch and the agent's model with its
/// context usage on the left; the copy-mode button and the app version pinned to the
/// right corner. The left segment is cut so that they fit, measured in cells, not
/// characters.
pub fn status_bar(f: &Footer) -> (v: Vec<Span>)
    requires
        f.index < usize::MAX,
    ensures
        exists|cut: Seq<char>| #[trigger] drawn_with(*f, style::pieces(v@), cut),
{
    let right: String = version_label();
    let none: String = String::new();
    assert(none@ =~= Seq::empty());
    let button: String = if copy_button_x(f.width).is_none() {
        none
    } else if f.copy_mode {
        copy(COPY_ON_BUTTON)
    } else {
        copy(COPY_OFF_BUTTON)
    };
    let mut left: String = left_label(f);
    let ghost all = left@;
    let fixed: u128 = str_width(right.as_str()) as u128 + str_width(button.as_str()) as u128;
    let room: usize = (f.width as u128).saturating_sub(fixed) as usize;
    if str_width(left.as_str()) > room {
        let lv: Vec<char> = chars(left.as_str());
        let widths: Vec<usize> = char_widths(lv.as_slice());
        let n: usize = fit(widths.as_slice(), room);
        left = text::string(range(lv.as_slice(), 0, n));
        assert(left@ =~= all.take(n as int));
        assert(fits(widths_of(all), room as int, n as int));
    }
    assert(cut_to(all, room as int, left@));
    let used: u128 = str_width(left.as_str()) as u128 + fixed;
    let pad: usize = (f.width as u128).saturating_sub(used) as usize;
    let usage: String = usage_label(f.shell);
    let red: bool = match &f.shell.agent {
        Some(agent) => match agent.context {
            Some(c) => c.at_least(CONTEXT_WARN_AT),
            None => false,
        },
        None => false,
    };
    let v: Vec<Span> = bar_spans(
        left.as_str(),
        pad,
        usage.as_str(),
        red,
        button.as_str(),
        f.copy_mode,
    );
    assert(drawn_with(*f, style::pieces(v@), left@));
    v
}

// ── over the panels ─────────────────────────────────────────────────────────

/// The columns `[from, to)` of the copy hint on a footer `width` wide: just left of
/// the copy button — never over it — or at the footer's own edge when it is too
/// narrow to carry the button.
pub fn hint_span(width: u16) -> (r: (u16, u16))
    ensures
        r.1 == (match labels::copy_button(width) {
            Some((from, _)) => from,
            None => width,
        }),
        r.0 == (if r.1 >= HINT@.len() {
            r.1 - HINT@.len()
        } else {
            0
        }),
{
    proof {
        reveal_strlit(" ✓ copied ");
    }
    let edge: u16 = match copy_button_x(width) {
        Some((from, _)) => from,
        None => width,
    };
    (edge.saturating_sub(10), edge)
}

/// Does the copy hint still show? For a moment after a copy.
pub fn hint_shows(copied_at: Option<u64>, now: u64) -> (r: bool)
    ensures
        r == (match copied_at {
            Some(t) => shell::since(t, now) < COPY_HINT,
            None => false,
        }),
        r <==> copied_at is Some && now < copied_at->Some_0 + 1_200_000_000,
{
    match copied_at {
        Some(t) => now.saturating_sub(t) < COPY_HINT,
        None => false,
    }
}

/// A rectangle: its left column, its top row, its width and its height.
#[derive(Clone, Copy, Debug, PartialEq, Eq, Structural)]
pub struct Area {
    pub x: u16,
    pub y: u16,
    pub width: u16,
    pub height: u16,
}

/// A rectangle centered in `area`, `width` by `height` at most.
pub fn centered(area: Area, width: u16, height: u16) -> (r: Area)
    requires
        area.x + area.width <= u16::MAX,
        area.y + area.height <= u16::MAX,
    ensures
        r.width == (if width < area.width {
            width
        } else {
            area.width
        }),
        r.height == (if height < area.height {
            height
        } else {
            area.height
        }),
        r.x == area.x + (area.width - r.width) / 2,
        r.y == area.y + (area.height - r.height) / 2,
        area.x <= r.x && r.x + r.width <= area.x + area.width,
        area.y <= r.y && r.y + r.height <= area.y + area.height,
        0 <= (area.x + area.width - r.x - r.width) - (r.x - area.x) <= 1,
        0 <= (area.y + area.height - r.y - r.height) - (r.y - area.y) <= 1,
{
    let width: u16 = if width < area.width {
        width
    } else {
        area.width
    };
    let height: u16 = if height < area.height {
        height
    } else {
        area.height
    };
    Area {
        x: area.x + (area.width - width) / 2,
        y: area.y + (area.height - height) / 2,
        width,
        height,
    }
}

/// Every shortcut: the key, and what it does.
pub open spec fn shortcut_table() -> Seq<(Seq<char>, Seq<char>)> {
    seq![
        ("Alt+t / Alt+n"@, "new tab"@),
        ("Alt+s"@, "new subshell in the tab"@),
        ("Alt+w"@, "close the active shell"@),
        ("Alt+↑ / Alt+↓"@, "previous / next shell"@),
        ("Alt+PgUp / PgDn"@, "previous / next tab"@),
        ("Alt+1 … Alt+9"@, "tab by number"@),
        ("Alt+f"@, "search tabs"@),
        ("Alt+Shift+f"@, "favorite (pinned on top)"@),
        ("Alt+r"@, "replay the last command"@),
        ("Alt+c"@, "copy mode on / off"@),
        ("Alt+a"@, "select the screen + copy"@),
        ("Alt+?"@, "this cheat sheet"@),
        ("Alt+q"@, "quit"@),
        ("drag · 2× · 3× click"@, "select + copy"@),
        ("middle click"@, "paste"@),
        ("Alt+drag"@, "select with copy mode off"@),
    ]
}

/// Every shortcut, for the cheat sheet: the key, and what it does.
pub fn shortcuts() -> (v: Vec<(&'static str, &'static str)>)
    ensures
        v@.map_values(|r: (&'static str, &'static str)| (r.0@, r.1@)) == shortcut_table(),
{
    let v: Vec<(&'static str, &'static str)> = vec![
        ("Alt+t / Alt+n", "new tab"),
        ("Alt+s", "new subshell in the tab"),
        ("Alt+w", "close the active shell"),
        ("Alt+↑ / Alt+↓", "previous / next shell"),
        ("Alt+PgUp / PgDn", "previous / next tab"),
        ("Alt+1 … Alt+9", "tab by number"),
        ("Alt+f", "search tabs"),
        ("Alt+Shift+f", "favorite (pinned on top)"),
        ("Alt+r", "replay the last command"),
        ("Alt+c", "copy mode on / off"),
        ("Alt+a", "select the screen + copy"),
        ("Alt+?", "this cheat sheet"),
        ("Alt+q", "quit"),
        ("drag · 2× · 3× click", "select + copy"),
        ("middle click", "paste"),
        ("Alt+drag", "select with copy mode off"),
    ];
    assert(v@.map_values(|r: (&'static str, &'static str)| (r.0@, r.1@)) =~= shortcut_table());
    v
}

/// One row of the cheat sheet: the key in bold, padded to `key_w` columns, and what
/// it does.
pub open spec fn help_row(key: Seq<char>, what: Seq<char>, key_w: nat) -> Seq<Piece> {
    let pad = if key_w > key.len() {
        (key_w - key.len()) as nat
    } else {
        0
    };
    let head = seq![' '] + key + text::repeat(' ', pad);
    let tail = seq![' ', ' ', ' '] + what + seq![' '];
    seq![
        Piece { text: head, style: style::plain().with_bold() },
        Piece { text: tail, style: style::plain() },
    ]
}

/// One row of the cheat sheet.
pub fn help_spans(key: &str, what: &str, key_w: usize) -> (v: Vec<Span>)
    ensures
        style::pieces(v@) == help_row(key@, what@, key_w as nat),
{
    let kv: Vec<char> = chars(key);
    let mut head: String = String::new();
    head.push(' ');
    push_chars(&mut head, kv.as_slice());
    push_repeat(&mut head, ' ', key_w.saturating_sub(kv.len()));
    let mut tail: String = String::new();
    tail.push(' ');
    tail.push(' ');
    tail.push(' ');
    push_str(&mut tail, what);
    tail.push(' ');
    assert(tail@ =~= seq![' ', ' ', ' '] + what@ + seq![' ']);
    let mut v: Vec<Span> = row(head, Style::new().bold());
    push_span(&mut v, tail, Style::new());
    assert(style::pieces(v@) =~= help_row(key@, what@, key_w as nat));
    v
}

/// Whether `n` is the length of the longest key in a table of shortcuts.
pub open spec fn longest(table: Seq<(Seq<char>, Seq<char>)>, n: nat) -> bool {
    &&& forall|k: int| 0 <= k < table.len() ==> (#[trigger] table[k]).0.len() <= n
    &&& exists|k: int| 0 <= k < table.len() && (#[trigger] table[k]).0.len() == n
}

/// The rows of the cheat sheet, the keys padded to the longest of them.
pub open spec fn help_table(key_w: nat) -> Seq<Seq<Piece>> {
    shortcut_table().map_values(|r: (Seq<char>, Seq<char>)| help_row(r.0, r.1, key_w))
}

/// The rows of the cheat sheet, the keys padded to the longest of them.
pub fn help_rows() -> (v: Vec<Vec<Span>>)
    ensures
        exists|key_w: nat|
            #[trigger] longest(shortcut_table(), key_w) && style::rows_of(v@) == help_table(key_w),
{
    let table: Vec<(&'static str, &'static str)> = shortcuts();
    let ghost t = shortcut_table();
    assert(table@.len() == t.len());
    assert(table@.len() == 16);
    let mut key_w: usize = 0;
    let mut i: usize = 0;
    while i < table.len()
        invariant
            i <= table@.len(),
            t == table@.map_values(|r: (&'static str, &'static str)| (r.0@, r.1@)),
            forall|k: int| 0 <= k < i ==> (#[trigger] t[k]).0.len() <= key_w,
            i > 0 ==> exists|k: int| 0 <= k < i && (#[trigger] t[k]).0.len() == key_w,
            i == 0 ==> key_w == 0,
        decreases table.len() - i,
    {
        let kv: Vec<char> = chars(table[i].0);
        assert(t[i as int].0 == kv@);
        if i == 0 || kv.len() > key_w {
            key_w = kv.len();
        }
        i += 1;
    }
    let mut v: Vec<Vec<Span>> = Vec::new();
    let mut i: usize = 0;
    while i < table.len()
        invariant
            i <= table@.len(),
            t == table@.map_values(|r: (&'static str, &'static str)| (r.0@, r.1@)),
            v@.len() == i,
            forall|k: int|
                0 <= k < i ==> style::pieces((#[trigger] v@[k])@) == help_row(
                    t[k].0,
                    t[k].1,
                    key_w as nat,
                ),
        decreases table.len() - i,
    {
        v.push(help_spans(table[i].0, table[i].1, key_w));
        i += 1;
    }
    assert(longest(t, key_w as nat));
    assert(style::rows_of(v@) =~= help_table(key_w as nat));
    v
}

/// The characters of the widest of some rows.
pub open spec fn widest(rows: Seq<Seq<Piece>>) -> nat
    decreases rows.len(),
{
    if rows.len() == 0 {
        0
    } else {
        let rest = widest(rows.drop_last());
        let last = style::row_text(rows.last()).len();
        if last > rest {
            last
        } else {
            rest
        }
    }
}

/// `n`, held to what a screen can be wide.
pub open spec fn held(n: int) -> int {
    if n <= u16::MAX {
        n
    } else {
        u16::MAX as int
    }
}

fn held_sum(a: u16, n: usize) -> (r: u16)
    ensures
        r == held(a + n),
{
    if n >= (u16::MAX - a) as usize {
        u16::MAX
    } else {
        a + n as u16
    }
}

fn row_width(row: &Vec<Span>) -> (w: u16)
    ensures
        w == held(style::row_text(style::pieces(row@)).len() as int),
{
    let ghost all = style::pieces(row@);
    let mut w: u16 = 0;
    let mut i: usize = 0;
    assert(all.take(0) =~= Seq::empty());
    while i < row.len()
        invariant
            all == style::pieces(row@),
            i <= row@.len(),
            w == held(style::row_text(all.take(i as int)).len() as int),
        decreases row.len() - i,
    {
        assert(all.take(i + 1).drop_last() =~= all.take(i as int));
        assert(all.take(i + 1).last() == row@[i as int]@);
        let v: Vec<char> = chars(row[i].text.as_str());
        w = held_sum(w, v.len());
        i += 1;
    }
    assert(all.take(i as int) =~= all);
    w
}

/// Columns of a popup around some rows: the widest of them, and a border on each side.
pub fn popup_width(rows: &Vec<Vec<Span>>) -> (w: u16)
    ensures
        w == held(widest(style::rows_of(rows@)) as int + 2),
{
    let ghost all = style::rows_of(rows@);
    let mut w: u16 = 0;
    let mut i: usize = 0;
    assert(all.take(0) =~= Seq::empty());
    while i < rows.len()
        invariant
            all == style::rows_of(rows@),
            i <= rows@.len(),
            w == held(widest(all.take(i as int)) as int),
        decreases rows.len() - i,
    {
        assert(all.take(i + 1).drop_last() =~= all.take(i as int));
        assert(all.take(i + 1).last() == style::pieces(rows@[i as int]@));
        let n: u16 = row_width(&rows[i]);
        if n > w {
            w = n;
        }
        i += 1;
    }
    assert(all.take(i as int) =~= all);
    held_sum(w, 2)
}

// ── the search row and the quit dialog ──────────────────────────────────────

/// The sidebar's title.
pub const TITLE: &'static str = " ricon ";

/// The question of the quit dialog, and its buttons.
pub const QUESTION: &'static str = "Are you sure to Quit all tabs?";

pub const YES: &'static str = "  YES  ";

pub const NO: &'static str = "  NO  ";

/// The search row: the filter as typed, and a block caret while the row has focus.
pub open spec fn search_pieces(search: Seq<char>, focus: bool) -> Seq<Piece> {
    let typed = " ⌕ "@ + search;
    seq![
        if focus {
            Piece { text: typed.push('█'), style: style::plain().with_bold() }
        } else {
            Piece { text: typed, style: style::plain().with_fg(Color::DarkGray) }
        },
    ]
}

/// The search row above the tabs.
pub fn search_row(search: &str, focus: bool) -> (v: Vec<Span>)
    ensures
        style::pieces(v@) == search_pieces(search@, focus),
{
    let mut t: String = text::copy(" ⌕ ");
    push_str(&mut t, search);
    if focus {
        t.push('█');
        row(t, Style::new().bold())
    } else {
        row(t, Style::new().fg(Color::DarkGray))
    }
}

/// The style of a button of the quit dialog.
pub open spec fn choice_style(chosen: bool) -> Style {
    if chosen {
        Style { reversed: true, ..style::plain().with_bold() }
    } else {
        style::plain().with_fg(Color::DarkGray)
    }
}

/// The buttons of the quit dialog, the chosen one reversed.
pub open spec fn choice_pieces(yes: bool) -> Seq<Piece> {
    seq![
        Piece { text: YES@, style: choice_style(yes) },
        Piece { text: "   "@, style: style::plain() },
        Piece { text: NO@, style: choice_style(!yes) },
    ]
}

fn choice(chosen: bool) -> (s: Style)
    ensures
        s == choice_style(chosen),
{
    if chosen {
        Style { reversed: true, ..Style::new().bold() }
    } else {
        Style::new().fg(Color::DarkGray)
    }
}

/// The buttons of the quit dialog.
pub fn choice_row(yes: bool) -> (v: Vec<Span>)
    ensures
        style::pieces(v@) == choice_pieces(yes),
{
    let mut v: Vec<Span> = row(text::copy(YES), choice(yes));
    push_span(&mut v, text::copy("   "), Style::new());
    push_span(&mut v, text::copy(NO), choice(!yes));
    assert(style::pieces(v@) =~= choice_pieces(yes));
    v
}

// ── what the footer and the dialogs say ─────────────────────────────────────

/// The footer reads the same whatever is painted red in it: what it says, blanks up to the
/// button, the button, and the version at the right edge.
pub proof fn the_footer_reads_in_order(
    left: Seq<char>,
    pad: nat,
    usage: Seq<char>,
    red: bool,
    button: Seq<char>,
    copy_mode: bool,
)
    ensures
        style::row_text(bar_pieces(left, pad, usage, red, button, copy_mode)) == left
            + text::repeat(' ', pad) + button + (seq!['v'] + crate::VERSION@ + seq![' ']),
{
    let blanks = text::repeat(' ', pad);
    let at = text::find(left, usage);
    let plain = style::plain();
    let none = Seq::<Piece>::empty();
    let said = left + blanks;
    let row = bar_pieces(left, pad, usage, red, button, copy_mode);
    let front = row.drop_last().drop_last();
    assert(style::row_text(none) =~= Seq::<char>::empty());
    assert(style::row_text(front) == said) by {
        if red && usage.len() > 0 && at is Some {
            text::lemma_find_from(left, usage, 0);
            let k = at->Some_0;
            let a = front[0];
            let b = front[1];
            let c = front[2];
            assert(front =~= none.push(a).push(b).push(c));
            style::a_row_reads_piece_by_piece(none, a);
            style::a_row_reads_piece_by_piece(none.push(a), b);
            style::a_row_reads_piece_by_piece(none.push(a).push(b), c);
            assert(left =~= left.take(k) + usage + left.skip((k + usage.len()) as int));
            assert(style::row_text(front) =~= said);
        } else {
            assert(front =~= none.push(front[0]));
            style::a_row_reads_piece_by_piece(none, front[0]);
            assert(style::row_text(front) =~= said);
        }
    }
    let n = row.len() as int;
    assert(row =~= front.push(row[n - 2]).push(row[n - 1]));
    style::a_row_reads_piece_by_piece(front, row[n - 2]);
    style::a_row_reads_piece_by_piece(front.push(row[n - 2]), row[n - 1]);
}

/// A context filled to four fifths is painted red in the footer, just where it stands; one
/// below that is not.
pub proof fn a_nearly_full_context_is_red(s: Sh, used: u64, max: u64, left: Seq<char>, pad: nat, button: Seq<char>, copy_mode: bool)
    requires
        s.agent matches Some(agent) && agent.context == Some(
            labels::Context { used, max: Some(max) },
        ),
        max > 0,
        text::has(left, usage_text(s)),
        usage_text(s).len() > 0,
    ensures
        nearly_full(s) <==> 5 * used >= 4 * max,
        nearly_full(s) ==> ({
            let row = bar_pieces(left, pad, usage_text(s), nearly_full(s), button, copy_mode);
            row[1].text == usage_text(s) && row[1].style.fg == Some(Color::Crimson)
        }),
{
}

/// The footer's first words: where the tab stands among how many, the folder, the branch
/// where there is one, and the agent, if one runs, by its model, its context and what the
/// auto feature is up to.
pub proof fn the_footer_says_where_and_who(
    index: int,
    count: int,
    s: Sh,
    branch: Seq<char>,
    auto: bool,
    home: Option<Seq<char>>,
    now: u64,
    wall: u128,
)
    ensures
        ({
            let place = " "@ + text::decimal((index + 1) as nat) + "/"@ + text::decimal(
                count as nat,
            ) + " ▸ "@ + tab::shown_path(s.cwd, home);
            &&& s.agent is None ==> left_text(
                index,
                count,
                s,
                None,
                false,
                auto,
                home,
                now,
                wall,
            ) == place
            &&& s.agent is None ==> left_text(
                index,
                count,
                s,
                Some(branch),
                false,
                auto,
                home,
                now,
                wall,
            ) == place + "  ⎇ "@ + branch
            &&& s.agent matches Some(agent) ==> left_text(
                index,
                count,
                s,
                None,
                false,
                auto,
                home,
                now,
                wall,
            ) == place + "  ✳ "@ + agent.model + labels::context_text(agent.context) + auto_text(
                s,
                auto,
                now,
                wall,
            )
        }),
{
}

/// While the auto feature waits to nudge, the footer counts down to it, and only where
/// the feature is on; while it nudges, the footer says so.
pub proof fn the_footer_counts_down(s: Sh, left: int, auto: bool, now: u64, wall: u128)
    ensures
        s.nudge is None && shell::countdown_of(s, now, wall) == Some(left) ==> auto_text(
            s,
            auto,
            now,
            wall,
        ) == if auto {
            " ⏳ "@ + labels::clock_text((left / 1_000_000_000) as nat) + " → "@ + "/compact"@
        } else {
            Seq::empty()
        },
        s.nudge is None && shell::countdown_of(s, now, wall) is None ==> auto_text(
            s,
            auto,
            now,
            wall,
        ).len() == 0,
        s.nudge matches Some(Nudge::Compacting(_)) ==> auto_text(s, auto, now, wall) == " ⟳ "@
            + "/compact"@,
        s.nudge matches Some(Nudge::Continued(_)) ==> auto_text(s, auto, now, wall) == " ⟳"@,
{
}

proof fn lemma_total_grows(widths: Seq<usize>, n: int, m: int)
    requires
        0 <= n <= m <= widths.len(),
    ensures
        total(widths, n) <= total(widths, m),
    decreases m - n,
{
    if n < m {
        lemma_total_grows(widths, n, m - 1);
    }
}

/// What is cut off the footer is no more than it takes: of all its beginnings that fit,
/// the longest is kept.
pub proof fn the_longest_beginning_that_fits_is_kept(widths: Seq<usize>, room: int, n: int, m: int)
    requires
        fits(widths, room, n),
        0 <= m <= widths.len(),
        total(widths, m) <= room,
    ensures
        m <= n,
        total(widths, 0) == 0,
        m < widths.len() ==> total(widths, m + 1) == total(widths, m) + widths[m],
{
    if n < m {
        lemma_total_grows(widths, n + 1, m);
    }
}

/// In the cheat sheet what a key does stands in one column, whatever the key is called.
pub proof fn what_keys_do_stands_in_one_column(key: Seq<char>, what: Seq<char>, key_w: nat)
    requires
        key.len() <= key_w,
    ensures
        ({
            let row = style::row_text(help_row(key, what, key_w));
            &&& row.len() == key_w + what.len() + 5
            &&& row.subrange(1, 1 + key.len() as int) == key
            &&& row.subrange(key_w as int + 4, key_w + 4 + what.len() as int) == what
        }),
{
    let r = help_row(key, what, key_w);
    let none = Seq::<Piece>::empty();
    assert(r =~= none.push(r[0]).push(r[1]));
    style::a_row_reads_piece_by_piece(none, r[0]);
    style::a_row_reads_piece_by_piece(none.push(r[0]), r[1]);
    assert(style::row_text(none) =~= Seq::<char>::empty());
    let row = style::row_text(r);
    assert(row =~= r[0].text + r[1].text);
    assert(row.subrange(1, 1 + key.len() as int) =~= key);
    assert(row.subrange(key_w as int + 4, key_w + 4 + what.len() as int) =~= what);
}

/// A popup is as wide as its longest row.
pub proof fn a_popup_is_as_wide_as_its_longest_row(rows: Seq<Seq<Piece>>)
    ensures
        forall|i: int|
            0 <= i < rows.len() ==> style::row_text(#[trigger] rows[i]).len() <= widest(rows),
        rows.len() > 0 ==> exists|i: int|
            0 <= i < rows.len() && style::row_text(#[trigger] rows[i]).len() == widest(rows),
    decreases rows.len(),
{
    if rows.len() > 0 {
        let front = rows.drop_last();
        a_popup_is_as_wide_as_its_longest_row(front);
        let last = style::row_text(rows.last()).len();
        assert forall|i: int| 0 <= i < rows.len() implies style::row_text(#[trigger] rows[i]).len()
            <= widest(rows) by {
            if i < front.len() {
                assert(front[i] == rows[i]);
            }
        }
        if last >= widest(front) {
            assert(rows[rows.len() - 1] == rows.last());
        } else {
            let i = choose|i: int|
                0 <= i < front.len() && style::row_text(#[trigger] front[i]).len() == widest(front);
            assert(rows[i] == front[i]);
        }
    }
}

/// The search row shows what is searched for, with a cursor behind it while it has
/// focus.
pub proof fn the_search_row_shows_the_search(search: Seq<char>)
    ensures
        style::row_text(search_pieces(search, false)) == " ⌕ "@ + search,
        style::row_text(search_pieces(search, true)) == " ⌕ "@ + search + "█"@,
{
    reveal_strlit("█");
    assert("█"@ =~= seq!['█']);
    let none = Seq::<Piece>::empty();
    assert(style::row_text(none) =~= Seq::<char>::empty());
    let a = search_pieces(search, false);
    let b = search_pieces(search, true);
    assert(a =~= none.push(a[0]));
    assert(b =~= none.push(b[0]));
    style::a_row_reads_piece_by_piece(none, a[0]);
    style::a_row_reads_piece_by_piece(none, b[0]);
    assert(style::row_text(a) =~= " ⌕ "@ + search);
    assert(style::row_text(b) =~= " ⌕ "@ + search + "█"@);
}

/// Of the two answers of the quit dialog the one chosen stands out, and only that one.
pub proof fn the_answer_chosen_stands_out(yes: bool)
    ensures
        ({
            let row = choice_pieces(yes);
            &&& row.len() == 3
            &&& row[0].text == "  YES  "@ && row[2].text == "  NO  "@
            &&& row[0].style.reversed == yes && row[2].style.reversed == !yes
            &&& row[0].style.bold == yes && row[2].style.bold == !yes
        }),
{
}

/// The footer shows all it has to say where there is room for it beside the button and
/// the version, and blanks up to them; the button says whether copy mode is on.
pub proof fn the_footer_shows_all_there_is_room_for(
    f: Footer,
    row: Seq<Piece>,
    cut: Seq<char>,
    left: Seq<char>,
    button: Seq<char>,
    version: Seq<char>,
    room: int,
)
    requires
        drawn_with(f, row, cut),
        labels::copy_button(f.width) is Some,
        left == left_text(
            f.index as int,
            f.count as int,
            f.shell@,
            labels::opt_str(f.branch),
            f.tabs_overflow,
            f.auto,
            labels::opt_str(f.home),
            f.now,
            f.wall,
        ),
        button == if f.copy_mode {
            " ⧉ copy ✓ "@
        } else {
            " ⧉ copy ✗ "@
        },
        version == seq!['v'] + crate::VERSION@ + seq![' '],
        room == f.width - cells(version) - cells(button),
        room >= 0,
    ensures
        cells(left) <= room ==> cut == left,
        cells(left) > room ==> exists|n: int| #[trigger]
            fits(widths_of(left), room, n) && cut == left.take(n),
        cells(cut) <= room ==> style::row_text(row) == cut + text::repeat(
            ' ',
            (room - cells(cut)) as nat,
        ) + button + version,
{
    let fixed = cells(version) + cells(button);
    assert(less(f.width as int, fixed) == room);
    the_footer_reads_in_order(
        cut,
        less(f.width as int, cells(cut) + fixed) as nat,
        usage_text(f.shell@),
        nearly_full(f.shell@),
        button,
        f.copy_mode,
    );
}

/// A character is as wide as the terminal draws it, and one that is not drawn takes no
/// room.
pub proof fn characters_are_as_wide_as_drawn(s: Seq<char>, i: int)
    requires
        0 <= i < s.len(),
    ensures
        widths_of(s).len() == s.len(),
        char_cells(s[i]) matches Some(n) ==> widths_of(s)[i] == n,
        char_cells(s[i]) is None ==> widths_of(s)[i] == 0,
{
}

/// The cheat sheet has a row for every shortcut, in order.
pub proof fn every_shortcut_has_its_row(key_w: nat, i: int)
    requires
        longest(shortcut_table(), key_w),
        0 <= i < shortcut_table().len(),
    ensures
        help_table(key_w).len() == 16,
        shortcut_table()[i].0.len() <= key_w,
        help_table(key_w)[i] == help_row(shortcut_table()[i].0, shortcut_table()[i].1, key_w),
        held(3) == 3 && held(70_000) == 65_535,
{
}

/// The cheat sheet says of every chord what it is for.
pub proof fn the_cheat_sheet_lists_the_chords()
    ensures
        shortcut_table()[0] == ("Alt+t / Alt+n"@, "new tab"@),
        shortcut_table()[1] == ("Alt+s"@, "new subshell in the tab"@),
        shortcut_table()[2] == ("Alt+w"@, "close the active shell"@),
        shortcut_table()[3] == ("Alt+↑ / Alt+↓"@, "previous / next shell"@),
        shortcut_table()[4] == ("Alt+PgUp / PgDn"@, "previous / next tab"@),
        shortcut_table()[5] == ("Alt+1 … Alt+9"@, "tab by number"@),
        shortcut_table()[6] == ("Alt+f"@, "search tabs"@),
        shortcut_table()[7] == ("Alt+Shift+f"@, "favorite (pinned on top)"@),
        shortcut_table()[8] == ("Alt+r"@, "replay the last command"@),
        shortcut_table()[9] == ("Alt+c"@, "copy mode on / off"@),
        shortcut_table()[10] == ("Alt+a"@, "select the screen + copy"@),
        shortcut_table()[11] == ("Alt+?"@, "this cheat sheet"@),
        shortcut_table()[12] == ("Alt+q"@, "quit"@),
        shortcut_table()[13] == ("drag · 2× · 3× click"@, "select + copy"@),
        shortcut_table()[14] == ("middle click"@, "paste"@),
        shortcut_table()[15] == ("Alt+drag"@, "select with copy mode off"@),
{
}

} // verus!
