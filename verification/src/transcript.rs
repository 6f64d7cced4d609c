//! Session transcripts: the console text of every shell running a supported AI
//! client, appended to a dated file while it is produced.
//!
//! The text is taken from the shell's own emulated screen, never from the raw
//! stream of bytes: the emulator has already resolved every repaint, cursor move
//! and spinner into final lines. Two things are committed:
//!
//! * lines that **scrolled off** the screen — the terminal's own history, in
//!   final form;
//! * a **screen snapshot** while an application holds the alternate screen, taken
//!   only when the screen changed and no more often than `SNAPSHOT_EVERY`.
//!
//! What is still on screen has not been committed yet. It is mirrored to a
//! sidecar every `TAIL_EVERY`, and folded into the transcript when it closes.
//!
//! Moments are nanoseconds on a monotonic clock.

use tui_term::vt100::Screen;
use vstd::prelude::*;
use crate::labels;
use crate::labels::{folder_name, tame};
use crate::screen;
use crate::screen::{alternate_screen, row_wrapped, rows, scrollback, set_scrollback, size, Grid, Row, Terminal};
use crate::stamp;
use crate::stamp::{stale, Stamp};
use crate::text;
use crate::text::{chars, copy, is_blank, push_chars, push_decimal, push_str, range, trimmed_len};

verus! {

/// Alternate-screen snapshots: at most one this often, and only when the screen
/// actually changed.
pub const SNAPSHOT_EVERY: u64 = 2_000_000_000;

/// A frame is snapshotted once the output has been silent this long: the repaint
/// is then finished, and the screen is the one the user is reading.
pub const SNAPSHOT_SETTLE: u64 = 400_000_000;

/// A client that never stops redrawing never settles. After this long without a
/// pause the screen is taken as it stands rather than lost.
pub const SNAPSHOT_FORCE: u64 = 10_000_000_000;

/// How often the not-yet-committed screen is mirrored to the sidecar.
pub const TAIL_EVERY: u64 = 2_000_000_000;

/// A dated marker separates blocks written this far apart.
pub const GAP: u64 = 60_000_000_000;

/// History committed when a session starts: the agent is detected a beat after
/// it starts printing, and that beat is context worth keeping.
pub const CATCH_UP: usize = 500;

/// Committed history rows remembered to find the uncommitted ones by.
pub const ANCHOR: usize = 16;

/// Nanoseconds from `t` to `now`.
pub open spec fn since(t: u64, now: u64) -> int {
    if now >= t {
        now - t
    } else {
        0
    }
}

/// What a transcript is opened for: the client, the model it was running, and
/// the shell it ran in.
#[derive(Clone)]
pub struct Meta {
    pub agent: String,
    pub model: String,
    pub cwd: String,
    pub pid: u32,
}

/// What a capture pass runs for: output that just landed, or the session's
/// once-a-second flush.
#[derive(Clone, Copy, Debug, PartialEq, Eq, Structural)]
pub enum Pump {
    Output,
    Flush,
}

// ── lines ───────────────────────────────────────────────────────────────────

/// The lines that end in `rows`, the first of them begun by `pending`, and what
/// is begun behind them: a row that wrapped is one line with the next.
pub open spec fn logical(rows: Seq<Row>, pending: Seq<char>) -> (Seq<Seq<char>>, Seq<char>)
    decreases rows.len(),
{
    if rows.len() == 0 {
        (Seq::empty(), pending)
    } else {
        let (lines, begun) = logical(rows.drop_last(), pending);
        let line = begun + rows.last().text;
        if rows.last().wrapped {
            (lines, line)
        } else {
            (lines.push(line), Seq::empty())
        }
    }
}

/// All of `v` in one.
pub open spec fn flat(v: Seq<Seq<char>>) -> Seq<char>
    decreases v.len(),
{
    if v.len() == 0 {
        Seq::empty()
    } else {
        flat(v.drop_last()) + v.last()
    }
}

/// Joining wrapped rows loses nothing: the lines and what is begun behind them
/// hold the text of every row, in order.
pub proof fn joining_rows_keeps_their_text(rows: Seq<Row>, pending: Seq<char>)
    ensures
        ({
            let (lines, begun) = logical(rows, pending);
            flat(lines) + begun == pending + flat(screen::row_texts(rows))
        }),
    decreases rows.len(),
{
    let texts = screen::row_texts(rows);
    if rows.len() == 0 {
        assert(flat(Seq::empty()) + pending =~= pending + flat(texts));
    } else {
        joining_rows_keeps_their_text(rows.drop_last(), pending);
        assert(texts.drop_last() =~= screen::row_texts(rows.drop_last()));
        let (lines, begun) = logical(rows.drop_last(), pending);
        let line = begun + rows.last().text;
        assert(lines.push(line).drop_last() =~= lines);
        assert(flat(lines) + (begun + rows.last().text) =~= (flat(lines) + begun)
            + rows.last().text);
        assert(flat(lines.push(line)) + Seq::<char>::empty() =~= flat(lines) + line);
        assert((pending + flat(texts.drop_last())) + texts.last() =~= pending + (flat(
            texts.drop_last(),
        ) + texts.last()));
    }
}

/// Joining rows in two goes is joining them in one.
pub proof fn joining_rows_in_two_goes(a: Seq<Row>, b: Seq<Row>, pending: Seq<char>)
    ensures
        ({
            let (first, begun) = logical(a, pending);
            let (second, left) = logical(b, begun);
            logical(a + b, pending) == (first + second, left)
        }),
    decreases b.len(),
{
    let (first, begun) = logical(a, pending);
    if b.len() == 0 {
        assert(a + b =~= a);
        assert(first + Seq::<Seq<char>>::empty() =~= first);
    } else {
        joining_rows_in_two_goes(a, b.drop_last(), pending);
        assert((a + b).drop_last() =~= a + b.drop_last());
        let (second, left) = logical(b.drop_last(), begun);
        let line = left + b.last().text;
        assert((first + second).push(line) =~= first + second.push(line));
    }
}

/// `lines` without its trailing blank ones.
pub open spec fn without_blank_end(lines: Seq<Seq<char>>) -> Seq<Seq<char>>
    decreases lines.len(),
{
    if lines.len() > 0 && text::blank(lines.last()) {
        without_blank_end(lines.drop_last())
    } else {
        lines
    }
}

/// The lines of a live screen, trailing blanks dropped.
pub open spec fn screen_lines(live: Seq<Row>) -> Seq<Seq<char>> {
    let (lines, begun) = logical(live, Seq::empty());
    without_blank_end(
        if begun.len() > 0 {
            lines.push(begun)
        } else {
            lines
        },
    )
}

/// `lines` with every run of blank ones collapsed to a single empty one.
pub open spec fn compacted(lines: Seq<Seq<char>>) -> Seq<Seq<char>>
    decreases lines.len(),
{
    if lines.len() == 0 {
        Seq::empty()
    } else {
        let out = compacted(lines.drop_last());
        if text::blank(lines.last()) {
            if out.len() > 0 && text::blank(out.last()) {
                out
            } else {
                out.push(Seq::empty())
            }
        } else {
            out.push(lines.last())
        }
    }
}

/// Taking the padding out of a screen dump again changes nothing.
pub proof fn padding_goes_at_once(lines: Seq<Seq<char>>)
    ensures
        without_blank_end(without_blank_end(lines)) == without_blank_end(lines),
        compacted(compacted(lines)) == compacted(lines),
    decreases lines.len(),
{
    if lines.len() > 0 {
        padding_goes_at_once(lines.drop_last());
        let out = compacted(lines.drop_last());
        let all = compacted(lines);
        if all != out {
            assert(all.drop_last() =~= out);
        }
    }
}

fn blank_str(s: &String) -> (r: bool)
    ensures
        r == text::blank(s@),
{
    let v: Vec<char> = chars(s.as_str());
    is_blank(v.as_slice())
}

/// `lines` without its trailing blank rows — the empty bottom of a screen is
/// padding, not content.
pub fn trimmed(lines: Vec<String>) -> (out: Vec<String>)
    ensures
        text::texts(out@) == without_blank_end(text::texts(lines@)),
{
    let mut lines = lines;
    let ghost all = text::texts(lines@);
    while lines.len() > 0 && blank_str(&lines[lines.len() - 1])
        invariant
            without_blank_end(text::texts(lines@)) == without_blank_end(all),
        decreases lines.len(),
    {
        let ghost was = text::texts(lines@);
        let _ = lines.pop();
        assert(text::texts(lines@) =~= was.drop_last());
    }
    lines
}

/// A screen dump with its blank padding collapsed: the empty rows between a
/// client's panes are layout, and layout is not context. Only whole-screen dumps
/// are compacted — scrolled-off history is committed exactly as it was.
pub fn compact(lines: Vec<String>) -> (out: Vec<String>)
    ensures
        text::texts(out@) == compacted(text::texts(lines@)),
{
    let mut out: Vec<String> = Vec::new();
    let ghost all = text::texts(lines@);
    let mut i: usize = 0;
    assert(all.take(0) =~= Seq::empty());
    assert(text::texts(out@) =~= Seq::empty());
    while i < lines.len()
        invariant
            all == text::texts(lines@),
            i <= lines@.len(),
            text::texts(out@) == compacted(all.take(i as int)),
        decreases lines.len() - i,
    {
        let ghost was = text::texts(out@);
        assert(all.take(i + 1).drop_last() =~= all.take(i as int));
        assert(all.take(i + 1).last() == lines@[i as int]@);
        assert(was.len() == out@.len());
        if blank_str(&lines[i]) {
            let again: bool = out.len() > 0 && blank_str(&out[out.len() - 1]);
            if !again {
                out.push(String::new());
                assert(text::texts(out@) =~= was.push(Seq::empty()));
            }
        } else {
            out.push(copy(lines[i].as_str()));
            assert(text::texts(out@) =~= was.push(all[i as int]));
        }
        i += 1;
    }
    assert(all.take(i as int) =~= all);
    out
}

/// Are two lists of lines the same?
pub fn same_lines(a: &Vec<String>, b: &Vec<String>) -> (r: bool)
    ensures
        r == (text::texts(a@) == text::texts(b@)),
{
    if a.len() != b.len() {
        assert(text::texts(a@).len() == a@.len());
        assert(text::texts(b@).len() == b@.len());
        return false;
    }
    let mut i: usize = 0;
    while i < a.len()
        invariant
            i <= a@.len() == b@.len(),
            forall|k: int| 0 <= k < i ==> a@[k]@ == b@[k]@,
        decreases a.len() - i,
    {
        if !text::same_str(a[i].as_str(), b[i].as_str()) {
            assert(text::texts(a@)[i as int] != text::texts(b@)[i as int]);
            return false;
        }
        i += 1;
    }
    assert(text::texts(a@) =~= text::texts(b@));
    true
}

fn copy_lines(a: &Vec<String>) -> (b: Vec<String>)
    ensures
        text::texts(b@) == text::texts(a@),
{
    let mut b: Vec<String> = Vec::new();
    let mut i: usize = 0;
    while i < a.len()
        invariant
            i <= a@.len(),
            b@.len() == i,
            forall|k: int| 0 <= k < i ==> b@[k]@ == a@[k]@,
        decreases a.len() - i,
    {
        b.push(copy(a[i].as_str()));
        i += 1;
    }
    assert(text::texts(b@) =~= text::texts(a@));
    b
}

/// The live screen as lines, trailing blanks dropped, whatever the user is
/// looking at; the view is left where it was.
pub fn visible(screen: &mut Screen) -> (lines: Vec<String>)
    ensures
        *final(screen) == *old(screen),
        text::texts(lines@) == screen_lines(screen::grid(*old(screen)).live),
{
    let ghost g = screen::grid(*screen);
    let (_, cols): (u16, u16) = size(screen);
    let view: usize = scrollback(screen);
    set_scrollback(screen, 0);
    let ghost live = g.live;
    assert(screen::in_view(screen::grid(*screen)) =~= live);
    let all: Vec<String> = rows(screen, cols);
    assert(text::texts(all@) == screen::row_texts(live));
    assert(all@.len() == text::texts(all@).len());
    let mut lines: Vec<String> = Vec::new();
    let mut line: String = String::new();
    let mut i: usize = 0;
    assert(live.take(0) =~= Seq::empty());
    assert(text::texts(lines@) =~= Seq::empty());
    assert(line@ =~= Seq::empty());
    while i < all.len()
        invariant
            i <= all@.len() == live.len(),
            live.len() <= u16::MAX,
            screen::in_view(screen::grid(*screen)) == live,
            text::texts(all@) == screen::row_texts(live),
            (text::texts(lines@), line@) == logical(live.take(i as int), Seq::empty()),
        decreases all.len() - i,
    {
        proof {
            assert(live.take(i + 1).drop_last() =~= live.take(i as int));
            assert(screen::row_texts(live)[i as int] == text::texts(all@)[i as int]);
            assert(live[i as int].text == all@[i as int]@);
        }
        let ghost was = text::texts(lines@);
        push_str(&mut line, all[i].as_str());
        if !row_wrapped(screen, i as u16) {
            let ghost done = line@;
            lines.push(line);
            line = String::new();
            assert(text::texts(lines@) =~= was.push(done));
            assert(line@ =~= Seq::empty());
        }
        i += 1;
    }
    assert(live.take(i as int) =~= live);
    let v: Vec<char> = chars(line.as_str());
    if v.len() > 0 {
        let ghost was = text::texts(lines@);
        let ghost done = line@;
        lines.push(line);
        assert(text::texts(lines@) =~= was.push(done));
    }
    set_scrollback(screen, view);
    trimmed(lines)
}

// ── what of the history is committed ────────────────────────────────────────

/// The reading side of a transcript: what of the history is committed, when the
/// last snapshot and mirror went out, and how the output is flowing.
pub struct Capture {
    /// The history's limit: below it the history only grows, so its length counts
    /// new rows exactly; at it, old rows drop out as new ones arrive.
    pub cap: usize,
    /// History length after the last pass.
    pub logged: usize,
    /// The newest committed history rows, oldest first.
    pub anchor: Vec<String>,
    /// The next pass is a session's first: it takes at most `CATCH_UP` rows.
    pub catch_up: bool,
    /// The start of a wrapped line whose rest has not scrolled off yet.
    pub pending: String,
    /// Last screen committed as a snapshot, and when.
    pub snap: Option<Vec<String>>,
    pub snapped: u64,
    /// When output last arrived.
    pub drawn: u64,
    /// When the current stretch of unbroken output began (or the last forced look
    /// at it was taken).
    pub burst: u64,
    /// Last screen mirrored to the sidecar, and when one was last looked at.
    pub tail: Option<Vec<String>>,
    pub tailed: u64,
}

/// What a `Capture` stands for.
#[verifier::ext_equal]
pub struct Watch {
    pub cap: int,
    pub logged: int,
    pub anchor: Seq<Seq<char>>,
    pub catch_up: bool,
    pub pending: Seq<char>,
    pub snap: Option<Seq<Seq<char>>>,
    pub snapped: u64,
    pub drawn: u64,
    pub burst: u64,
    pub tail: Option<Seq<Seq<char>>>,
    pub tailed: u64,
}

/// The texts of an optional list of lines.
pub open spec fn opt_texts(v: Option<Vec<String>>) -> Option<Seq<Seq<char>>> {
    match v {
        Some(v) => Some(text::texts(v@)),
        None => None,
    }
}

impl View for Capture {
    type V = Watch;

    open spec fn view(&self) -> Watch {
        Watch {
            cap: self.cap as int,
            logged: self.logged as int,
            anchor: text::texts(self.anchor@),
            catch_up: self.catch_up,
            pending: self.pending@,
            snap: opt_texts(self.snap),
            snapped: self.snapped,
            drawn: self.drawn,
            burst: self.burst,
            tail: opt_texts(self.tail),
            tailed: self.tailed,
        }
    }
}

/// Whether the newest committed rows stand right above the newest `shift` rows of
/// the history.
pub open spec fn anchored(anchor: Seq<Seq<char>>, history: Seq<Row>, shift: int) -> bool {
    let first = history.len() - shift - anchor.len();
    first >= 0 && forall|i: int|
        0 <= i < anchor.len() ==> history[first + i].text == #[trigger] anchor[i]
}

/// The smallest shift in `[from, to)` at which the committed rows are found.
pub open spec fn first_shift(
    anchor: Seq<Seq<char>>,
    history: Seq<Row>,
    from: int,
    to: int,
) -> Option<int>
    decreases to - from,
{
    if from >= to {
        None
    } else if anchored(anchor, history, from) {
        Some(from)
    } else {
        first_shift(anchor, history, from + 1, to)
    }
}

/// How many rows of the history — counted from the newest — are not committed
/// yet, and whether they directly follow the committed ones.
pub open spec fn uncommitted_rows(c: Watch, history: Seq<Row>, pushed: Option<usize>) -> (int, bool) {
    let total = history.len() as int;
    if c.anchor.len() == 0 {
        let grown = if total > c.logged {
            total - c.logged
        } else {
            0
        };
        let count = if total < c.cap || pushed is None {
            grown
        } else {
            pushed->Some_0 as int
        };
        (
            if count < total {
                count
            } else {
                total
            },
            false,
        )
    } else if total < c.cap && 1 <= c.logged <= total && history[c.logged - 1].text
        == c.anchor.last() {
        (total - c.logged, true)
    } else if pushed is Some && pushed->Some_0 < total && history[total - 1
        - pushed->Some_0].text == c.anchor.last() {
        (pushed->Some_0 as int, true)
    } else {
        match first_shift(c.anchor, history, 0, total - (c.anchor.len() - 1)) {
            Some(shift) => (shift, true),
            None => (total, false),
        }
    }
}

/// The last `ANCHOR` of some texts.
pub open spec fn newest(v: Seq<Seq<char>>) -> Seq<Seq<char>> {
    if v.len() <= ANCHOR {
        v
    } else {
        v.skip(v.len() - ANCHOR)
    }
}

/// How many rows a pass commits, and whether they join on to the committed ones.
pub open spec fn fresh_rows(c: Watch, history: Seq<Row>, pushed: Option<usize>) -> (int, bool) {
    let (count, adjoins) = uncommitted_rows(c, history, pushed);
    let fresh = if c.catch_up && count > CATCH_UP {
        CATCH_UP as int
    } else {
        count
    };
    (fresh, adjoins && fresh == count)
}

/// A pass over the history: the state it leaves, and the lines it commits.
pub open spec fn committed(c: Watch, g: Grid, pushed: Option<usize>) -> (Watch, Seq<Seq<char>>) {
    if g.live.len() == 0 {
        (c, Seq::empty())
    } else {
        let (fresh, joins) = fresh_rows(c, g.history, pushed);
        let rows = g.history.skip(g.history.len() - fresh);
        let (lines, begun) = logical(
            rows,
            if joins {
                c.pending
            } else {
                Seq::empty()
            },
        );
        let before = if joins {
            c.anchor
        } else {
            Seq::empty()
        };
        (
            Watch {
                logged: g.history.len() as int,
                anchor: newest(before + screen::row_texts(rows)),
                catch_up: false,
                pending: begun,
                ..c
            },
            lines,
        )
    }
}

/// Every row that scrolls off is committed once, in order: after a pass whose
/// newest committed row is the newest of the history, a pass over that history
/// with `new` rows pushed onto it (and, once it is full, old ones dropped from
/// its front) commits exactly the new rows. Below the limit this holds whatever
/// count there is of them, or none; once the history is full they must have been
/// counted as they were pushed. The newest committed row is then again the newest
/// of the history.
pub proof fn each_row_is_committed_once(
    c: Watch,
    g: Grid,
    old_rows: Seq<Row>,
    new: Seq<Row>,
    dropped: int,
    pushed: Option<usize>,
)
    requires
        !c.catch_up,
        g.live.len() > 0,
        old_rows.len() > 0,
        c.anchor.len() > 0,
        c.anchor.last() == old_rows.last().text,
        c.logged == old_rows.len(),
        0 <= dropped < old_rows.len(),
        g.history == (old_rows + new).skip(dropped),
        dropped > 0 ==> g.history.len() >= c.cap,
        g.history.len() >= c.cap ==> pushed == Some(new.len() as usize) && new.len() <= usize::MAX,
    ensures
        ({
            let (after, lines) = committed(c, g, pushed);
            &&& (lines, after.pending) == logical(new, c.pending)
            &&& after.logged == g.history.len()
            &&& after.anchor.len() > 0
            &&& after.anchor.last() == g.history.last().text
        }),
{
    let total = g.history.len() as int;
    let n = new.len() as int;
    assert(g.history[total - 1 - n] == old_rows.last());
    assert(uncommitted_rows(c, g.history, pushed) == (n, true));
    assert(g.history.skip(total - n) =~= new);
    let all = c.anchor + screen::row_texts(new);
    assert(all.last() == g.history.last().text) by {
        if n > 0 {
            assert(g.history.last() == new.last());
        } else {
            assert(all =~= c.anchor);
            assert(g.history.last() == old_rows.last());
        }
    }
    assert(newest(all).last() == all.last());
}

proof fn lemma_first_shift(anchor: Seq<Seq<char>>, history: Seq<Row>, from: int, to: int, at: int)
    requires
        from <= at < to,
        anchored(anchor, history, at),
        forall|k: int| from <= k < at ==> !#[trigger] anchored(anchor, history, k),
    ensures
        first_shift(anchor, history, from, to) == Some(at),
    decreases to - from,
{
    if from < at {
        assert(!anchored(anchor, history, from));
        lemma_first_shift(anchor, history, from + 1, to, at);
    }
}

/// Rows nobody counted are found by content once the history is full: as long as the
/// committed rows kept to find them by are still in the history, right above the new
/// ones, and do not stand higher up in the new ones again, exactly the new rows are
/// committed.
pub proof fn uncounted_rows_are_found_by_content(
    c: Watch,
    g: Grid,
    old_rows: Seq<Row>,
    new: Seq<Row>,
    dropped: int,
)
    requires
        !c.catch_up,
        g.live.len() > 0,
        c.anchor.len() > 0,
        g.history == (old_rows + new).skip(dropped),
        0 <= dropped <= old_rows.len() - c.anchor.len(),
        g.history.len() >= c.cap,
        anchored(c.anchor, g.history, new.len() as int),
        forall|k: int| 0 <= k < new.len() ==> !#[trigger] anchored(c.anchor, g.history, k),
    ensures
        ({
            let (after, lines) = committed(c, g, None);
            &&& (lines, after.pending) == logical(new, c.pending)
            &&& after.logged == g.history.len()
        }),
{
    let total = g.history.len() as int;
    let n = new.len() as int;
    lemma_first_shift(c.anchor, g.history, 0, total - (c.anchor.len() - 1), n);
    assert(uncommitted_rows(c, g.history, None) == (n, true));
    assert(g.history.skip(total - n) =~= new);
}

/// A session's first pass commits the rows that scrolled off since the history was
/// last looked at, and of a long history no more than its newest `CATCH_UP` rows.
pub proof fn a_session_begins_with_what_just_happened(
    c: Watch,
    g: Grid,
    old_rows: Seq<Row>,
    new: Seq<Row>,
)
    requires
        c.catch_up,
        g.live.len() > 0,
        c.anchor.len() == 0,
        c.logged == old_rows.len(),
        g.history == old_rows + new,
        g.history.len() < c.cap,
    ensures
        ({
            let fresh = if new.len() > CATCH_UP {
                new.skip(new.len() - CATCH_UP)
            } else {
                new
            };
            let (after, lines) = committed(c, g, None);
            &&& (lines, after.pending) == logical(fresh, Seq::empty())
            &&& !after.catch_up
        }),
{
    let total = g.history.len() as int;
    let n = new.len() as int;
    assert(uncommitted_rows(c, g.history, None) == (n, false));
    if n > CATCH_UP {
        assert(g.history.skip(total - CATCH_UP) =~= new.skip(n - CATCH_UP));
    } else {
        assert(g.history.skip(total - n) =~= new);
    }
}

/// How many lines `screen`'s history holds. Leaves the view at the top.
pub fn history(screen: &mut Screen) -> (n: usize)
    ensures
        n == screen::grid(*old(screen)).history.len(),
        screen::view_moved(*old(screen), *final(screen)),
        screen::grid(*final(screen)).offset == n,
{
    // Scrolling back stops at the oldest row, so asking for everything reports
    // how much there is.
    set_scrollback(screen, usize::MAX);
    scrollback(screen)
}

/// Is row `row` (0 is the oldest) of a history `total` rows long the text
/// `want`? Moves the view; the caller restores it.
fn row_is(screen: &mut Screen, total: usize, row: usize, want: &String) -> (r: bool)
    requires
        row < total,
        total == screen::grid(*old(screen)).history.len(),
        screen::grid(*old(screen)).live.len() > 0,
    ensures
        screen::view_moved(*old(screen), *final(screen)),
        r == (screen::grid(*old(screen)).history[row as int].text == want@),
{
    let ghost g = screen::grid(*screen);
    let (_, cols): (u16, u16) = size(screen);
    set_scrollback(screen, total - row);
    let ghost view = screen::in_view(screen::grid(*screen));
    assert(view.len() > 0 && view[0] == g.history[row as int]);
    let shown: Vec<String> = rows(screen, cols);
    assert(text::texts(shown@).len() == shown@.len());
    assert(text::texts(shown@)[0] == shown@[0]@);
    text::same_str(shown[0].as_str(), want.as_str())
}

/// The pages a full pass reads: `n` rows from row `next` on.
fn read_rows(screen: &mut Screen, total: usize, next: usize, n: usize) -> (v: Vec<String>)
    requires
        n > 0,
        next + n <= total,
        total == screen::grid(*old(screen)).history.len(),
        n <= screen::grid(*old(screen)).live.len(),
    ensures
        screen::view_moved(*old(screen), *final(screen)),
        text::texts(v@) == screen::row_texts(
            screen::grid(*old(screen)).history.subrange(next as int, next + n),
        ),
        v@.len() == n,
        screen::in_view(screen::grid(*final(screen))).len() >= n,
        screen::in_view(screen::grid(*final(screen))).take(n as int) == screen::grid(
            *old(screen),
        ).history.subrange(next as int, next + n),
{
    let ghost g = screen::grid(*screen);
    let (_, cols): (u16, u16) = size(screen);
    // The view scrolled back by `total - next` starts with row `next`.
    set_scrollback(screen, total - next);
    let ghost view = screen::in_view(screen::grid(*screen));
    let mut v: Vec<String> = rows(screen, cols);
    assert(view.take(n as int) =~= g.history.subrange(next as int, next + n));
    assert(text::texts(v@).len() == v@.len());
    let ghost all = text::texts(v@);
    v.truncate(n);
    assert(text::texts(v@) =~= all.take(n as int));
    assert(all.take(n as int) =~= screen::row_texts(view.take(n as int)));
    v
}

fn remember(anchor: &mut Vec<String>, row: &String)
    requires
        old(anchor)@.len() <= ANCHOR,
    ensures
        text::texts(final(anchor)@) == newest(text::texts(old(anchor)@).push(row@)),
        final(anchor)@.len() <= ANCHOR,
{
    let ghost was = text::texts(anchor@);
    if anchor.len() == ANCHOR {
        let _ = anchor.remove(0);
    }
    anchor.push(copy(row.as_str()));
    assert(text::texts(anchor@) =~= newest(was.push(row@)));
}

proof fn lemma_newest_push(v: Seq<Seq<char>>, x: Seq<char>)
    ensures
        newest(newest(v).push(x)) == newest(v.push(x)),
{
    assert(newest(newest(v).push(x)) =~= newest(v.push(x)));
}

/// A capture that has seen nothing, all its throttles expired.
pub open spec fn fresh(cap: usize, now: u64) -> Watch {
    Watch {
        cap: cap as int,
        logged: 0,
        anchor: Seq::empty(),
        catch_up: true,
        pending: Seq::empty(),
        snap: None,
        snapped: if now >= SNAPSHOT_EVERY {
            (now - SNAPSHOT_EVERY) as u64
        } else {
            now
        },
        drawn: if now >= SNAPSHOT_SETTLE {
            (now - SNAPSHOT_SETTLE) as u64
        } else {
            now
        },
        burst: now,
        tail: None,
        tailed: if now >= TAIL_EVERY {
            (now - TAIL_EVERY) as u64
        } else {
            now
        },
    }
}

impl Capture {
    /// The invariant of a capture: it remembers no more than `ANCHOR` rows.
    pub open spec fn wf(self) -> bool {
        self.anchor@.len() <= ANCHOR
    }

    /// A capture that has seen nothing. The throttles start expired, so the first
    /// screen is recorded at once.
    pub fn new(cap: usize, now: u64) -> (c: Capture)
        ensures
            c.wf(),
            c@ == fresh(cap, now),
    {
        let c: Capture = Capture {
            cap,
            logged: 0,
            anchor: Vec::new(),
            catch_up: true,
            pending: String::new(),
            snap: None,
            snapped: stale(now, SNAPSHOT_EVERY),
            drawn: stale(now, SNAPSHOT_SETTLE),
            burst: now,
            tail: None,
            tailed: stale(now, TAIL_EVERY),
        };
        assert(c@.anchor =~= Seq::empty());
        assert(c@.pending =~= Seq::empty());
        c
    }

    /// Do the committed rows stand right above the newest `shift` ones?
    fn is_anchored(&self, screen: &mut Screen, total: usize, shift: usize) -> (r: bool)
        requires
            shift < total,
            total == screen::grid(*old(screen)).history.len(),
            screen::grid(*old(screen)).live.len() > 0,
        ensures
            screen::view_moved(*old(screen), *final(screen)),
            r == anchored(self@.anchor, screen::grid(*old(screen)).history, shift as int),
    {
        let ghost g = screen::grid(*screen);
        let ghost anchor = self@.anchor;
        let n: usize = self.anchor.len();
        let mut back: usize = 0;
        while back < n
            invariant
                n == self.anchor@.len(),
                anchor == self@.anchor,
                anchor.len() == n,
                back <= n,
                shift < total,
                total == g.history.len(),
                g.live.len() > 0,
                g == screen::grid(*old(screen)),
                screen::view_moved(*old(screen), *screen),
                back <= total - shift,
                forall|i: int|
                    n - back <= i < n ==> g.history[total - shift - n + i].text
                        == #[trigger] anchor[i],
            decreases n - back,
        {
            let ghost at = n - 1 - back;
            assert(anchor[at] == self.anchor@[at]@);
            if back > total - 1 - shift {
                return false;
            }
            if !row_is(screen, total, total - 1 - shift - back, &self.anchor[n - 1 - back]) {
                return false;
            }
            back += 1;
        }
        true
    }

    /// How many of the `total` history rows — counted from the newest — are not
    /// committed yet, and whether they directly follow the committed ones.
    ///
    /// Below its limit the history only grows, so its growth is the answer,
    /// whatever pushed the rows; the newest committed row sitting right above them
    /// confirms it. A full one drops a row for every one it takes, so its length
    /// says nothing: the rows were then counted as they were pushed, and the count
    /// is confirmed the same way. Without a count the committed rows are found by
    /// content — the smallest shift at which the newest `ANCHOR` rows committed
    /// reappear. A history cleared, or a flood past the whole of it, leaves no
    /// anchor to find, and every row is new.
    pub fn uncommitted(&self, screen: &mut Screen, total: usize, pushed: Option<usize>) -> (r: (
        usize,
        bool,
    ))
        requires
            total == screen::grid(*old(screen)).history.len(),
            screen::grid(*old(screen)).live.len() > 0,
        ensures
            screen::view_moved(*old(screen), *final(screen)),
            (r.0 as int, r.1) == uncommitted_rows(
                self@,
                screen::grid(*old(screen)).history,
                pushed,
            ),
            r.0 <= total,
    {
        let ghost g = screen::grid(*screen);
        let ghost c = self@;
        let n: usize = self.anchor.len();
        if n == 0 {
            let grown: usize = total.saturating_sub(self.logged);
            let count: usize = match pushed {
                Some(count) => if total < self.cap {
                    grown
                } else {
                    count
                },
                None => grown,
            };
            return (
                if count < total {
                    count
                } else {
                    total
                },
                false,
            );
        }
        assert(c.anchor.last() == self.anchor@[n - 1]@);
        if total < self.cap && 1 <= self.logged && self.logged <= total && row_is(
            screen,
            total,
            self.logged - 1,
            &self.anchor[n - 1],
        ) {
            return (total - self.logged, true);
        }
        if let Some(count) = pushed {
            if count < total && row_is(screen, total, total - 1 - count, &self.anchor[n - 1]) {
                return (count, true);
            }
        }
        let mut shift: usize = 0;
        let to: usize = total.saturating_sub(n - 1);
        while shift < to
            invariant
                g == screen::grid(*old(screen)),
                uncommitted_rows(c, g.history, pushed) == (match first_shift(
                    c.anchor,
                    g.history,
                    0,
                    total - (n - 1),
                ) {
                    Some(shift) => (shift, true),
                    None => (total as int, false),
                }),
                c == self@,
                n == c.anchor.len(),
                n >= 1,
                shift <= to <= total,
                to == total - (n - 1) || to == 0,
                total < n - 1 ==> to == 0,
                total >= n - 1 ==> to == total - (n - 1),
                total == g.history.len(),
                g.live.len() > 0,
                screen::view_moved(*old(screen), *screen),
                first_shift(c.anchor, g.history, shift as int, total - (n - 1)) == first_shift(
                    c.anchor,
                    g.history,
                    0,
                    total - (n - 1),
                ),
            decreases to - shift,
        {
            if self.is_anchored(screen, total, shift) {
                return (shift, true);
            }
            shift += 1;
        }
        (total, false)
    }

    /// History lines that appeared since the last pass, oldest first.
    ///
    /// The view is moved to read them and put back. Only what has left the screen
    /// is taken: it is final, whereas the screen is still being drawn on.
    pub fn scrolled_off(&mut self, screen: &mut Screen, pushed: Option<usize>) -> (lines: Vec<
        String,
    >)
        requires
            old(self).wf(),
        ensures
            final(self).wf(),
            *final(screen) == *old(screen),
            (final(self)@, text::texts(lines@)) == committed(
                old(self)@,
                screen::grid(*old(screen)),
                pushed,
            ),
    {
        let ghost g = screen::grid(*screen);
        let ghost c = self@;
        let (height, _): (u16, u16) = size(screen);
        let mut lines: Vec<String> = Vec::new();
        assert(text::texts(lines@) =~= Seq::empty());
        if height == 0 {
            return lines;
        }
        let view: usize = scrollback(screen);
        let total: usize = history(screen);
        let (count, adjoins): (usize, bool) = self.uncommitted(screen, total, pushed);
        let fresh: usize = if self.catch_up && count > CATCH_UP {
            CATCH_UP
        } else {
            count
        };
        self.catch_up = false;
        // The rows remembered must be those right before the ones taken now; after
        // a gap they restart, and so does a wrapped line begun before the gap.
        if !adjoins || fresh < count {
            self.anchor = Vec::new();
            self.pending = String::new();
            assert(self@.anchor =~= Seq::empty());
            assert(self@.pending =~= Seq::empty());
        }
        let ghost joins = adjoins && fresh == count;
        let ghost before = self@.anchor;
        let ghost begun = self@.pending;
        assert(fresh_rows(c, g.history, pushed) == (fresh as int, joins));
        let first: usize = total - fresh;
        let ghost taken = g.history.skip(first as int);
        let mut next: usize = first;
        assert(taken.take(0) =~= Seq::empty());
        assert(before + screen::row_texts(taken.take(0)) =~= before);
        assert(newest(before) == before);
        while next < total
            invariant
                self.wf(),
                self@ == (Watch { anchor: self@.anchor, pending: self@.pending, catch_up: false, ..c }),
                first <= next <= total,
                total == g.history.len(),
                height == g.live.len(),
                height > 0,
                g == screen::grid(*old(screen)),
                screen::view_moved(*old(screen), *screen),
                taken == g.history.skip(first as int),
                self@.anchor == newest(before + screen::row_texts(taken.take(next - first))),
                (text::texts(lines@), self@.pending) == logical(taken.take(next - first), begun),
            decreases total - next,
        {
            let left: usize = total - next;
            let n: usize = if left < height as usize {
                left
            } else {
                height as usize
            };
            let page: Vec<String> = read_rows(screen, total, next, n);
            let ghost view_rows = screen::in_view(screen::grid(*screen));
            let mut at: usize = 0;
            while at < n
                invariant
                    self.wf(),
                    self@ == (Watch {
                        anchor: self@.anchor,
                        pending: self@.pending,
                        catch_up: false,
                        ..c
                    }),
                    at <= n <= u16::MAX,
                    n == page@.len(),
                    first <= next,
                    next + n <= total,
                    total == g.history.len(),
                    view_rows == screen::in_view(screen::grid(*screen)),
                    taken == g.history.skip(first as int),
                    text::texts(page@) == screen::row_texts(
                        g.history.subrange(next as int, next + n),
                    ),
                    view_rows.len() >= n,
                    view_rows.take(n as int) == g.history.subrange(next as int, next + n),
                    self@.anchor == newest(
                        before + screen::row_texts(taken.take(next + at - first)),
                    ),
                    (text::texts(lines@), self@.pending) == logical(
                        taken.take(next + at - first),
                        begun,
                    ),
                decreases n - at,
            {
                let ghost k = next + at - first;
                let ghost row = g.history[next + at];
                proof {
                    assert(view_rows.take(n as int)[at as int] == row);
                    assert(taken.take(k + 1).drop_last() =~= taken.take(k));
                    assert(taken.take(k + 1).last() == row);
                    assert(text::texts(page@)[at as int] == page@[at as int]@);
                    assert(screen::row_texts(g.history.subrange(next as int, next + n))[at as int]
                        == row.text);
                    lemma_newest_push(before + screen::row_texts(taken.take(k)), row.text);
                    assert((before + screen::row_texts(taken.take(k))).push(row.text) =~= before
                        + screen::row_texts(taken.take(k + 1)));
                }
                let ghost was = text::texts(lines@);
                remember(&mut self.anchor, &page[at]);
                push_str(&mut self.pending, page[at].as_str());
                if !row_wrapped(screen, at as u16) {
                    let ghost done = self.pending@;
                    let line: String = copy(self.pending.as_str());
                    self.pending = String::new();
                    lines.push(line);
                    assert(text::texts(lines@) =~= was.push(done));
                    assert(self.pending@ =~= Seq::empty());
                }
                at += 1;
            }
            next += n;
        }
        assert(taken.take(next - first) =~= taken);
        set_scrollback(screen, view);
        self.logged = total;
        assert(self@ =~= committed(c, g, pushed).0);
        lines
    }
}

// ── snapshots and mirrors ───────────────────────────────────────────────────

/// A look at the alternate screen: the state it leaves, and the lines it commits.
pub open spec fn snapshot_taken(c: Watch, g: Grid, now: u64) -> (Watch, Seq<Seq<char>>) {
    let settled = since(c.drawn, now) >= SNAPSHOT_SETTLE;
    let forced = !settled && since(c.burst, now) >= SNAPSHOT_FORCE;
    if !(settled || forced) || since(c.snapped, now) < SNAPSHOT_EVERY {
        (c, Seq::empty())
    } else {
        let c = Watch {
            burst: if forced {
                now
            } else {
                c.burst
            },
            ..c
        };
        let lines = compacted(screen_lines(g.live));
        if c.snap == Some(lines) {
            (c, Seq::empty())
        } else {
            (Watch { snap: Some(lines), snapped: now, ..c }, lines)
        }
    }
}

/// A look at the screen for the sidecar: the state it leaves, and the screen when
/// it is due and has changed.
pub open spec fn mirror_taken(c: Watch, g: Grid, now: u64) -> (Watch, Option<Seq<Seq<char>>>) {
    if since(c.tailed, now) < TAIL_EVERY {
        (c, None)
    } else {
        let lines = compacted(screen_lines(g.live));
        (
            Watch { tailed: now, ..c },
            if c.tail == Some(lines) {
                None
            } else {
                Some(lines)
            },
        )
    }
}

/// One capture pass, read off the screen.
pub struct Take {
    /// History lines to commit, in order.
    pub history: Vec<String>,
    /// A screen snapshot to commit, with a dated marker.
    pub snapshot: Vec<String>,
    /// The current screen, when the sidecar is due a refresh.
    pub tail: Option<Vec<String>>,
}

/// What a `Take` stands for.
#[verifier::ext_equal]
pub struct Taken {
    pub history: Seq<Seq<char>>,
    pub snapshot: Seq<Seq<char>>,
    pub tail: Option<Seq<Seq<char>>>,
}

impl View for Take {
    type V = Taken;

    open spec fn view(&self) -> Taken {
        Taken {
            history: text::texts(self.history@),
            snapshot: text::texts(self.snapshot@),
            tail: opt_texts(self.tail),
        }
    }
}

/// The output clock after a pass.
pub open spec fn clocked(c: Watch, pump: Pump, now: u64) -> Watch {
    if pump is Output {
        Watch {
            burst: if since(c.drawn, now) >= SNAPSHOT_SETTLE {
                now
            } else {
                c.burst
            },
            drawn: now,
            ..c
        }
    } else {
        c
    }
}

/// A capture pass: the state it leaves, and what it takes. A full-screen client's
/// history stays empty for as long as it holds the alternate screen — the screen
/// itself is the only record.
pub open spec fn pass(c: Watch, g: Grid, pump: Pump, pushed: Option<usize>, now: u64) -> (
    Watch,
    Taken,
) {
    let c0 = clocked(c, pump, now);
    let (c1, history, snapshot) = if g.alternate {
        let (c1, lines) = snapshot_taken(c0, g, now);
        (c1, Seq::empty(), lines)
    } else {
        let (c1, lines) = committed(c0, g, pushed);
        (c1, lines, Seq::empty())
    };
    let (c2, tail) = if pump is Flush {
        mirror_taken(c1, g, now)
    } else {
        (c1, None)
    };
    (c2, Taken { history, snapshot, tail })
}

impl Capture {
    /// The screen, once the repaint that drew it has finished and it says
    /// something the last snapshot did not.
    pub fn snapshot(&mut self, screen: &mut Screen, now: u64) -> (lines: Vec<String>)
        requires
            old(self).wf(),
        ensures
            final(self).wf(),
            *final(screen) == *old(screen),
            (final(self)@, text::texts(lines@)) == snapshot_taken(
                old(self)@,
                screen::grid(*old(screen)),
                now,
            ),
    {
        let settled: bool = now.saturating_sub(self.drawn) >= SNAPSHOT_SETTLE;
        // Redrawn without a pause for so long that holding out for a still frame
        // would lose more than a torn one costs.
        let forced: bool = !settled && now.saturating_sub(self.burst) >= SNAPSHOT_FORCE;
        let none: Vec<String> = Vec::new();
        assert(text::texts(none@) =~= Seq::empty());
        if !(settled || forced) || now.saturating_sub(self.snapped) < SNAPSHOT_EVERY {
            return none;
        }
        if forced {
            self.burst = now;
        }
        let lines: Vec<String> = compact(visible(screen));
        if let Some(snap) = &self.snap {
            if same_lines(snap, &lines) {
                return none;
            }
        }
        self.snap = Some(copy_lines(&lines));
        self.snapped = now;
        lines
    }

    /// The screen for the sidecar, when it is due and has changed. It counts as
    /// mirrored only once it was written (`mirrored`), so a failed write is tried
    /// again rather than taken for done.
    pub fn mirror(&mut self, screen: &mut Screen, now: u64) -> (lines: Option<Vec<String>>)
        requires
            old(self).wf(),
        ensures
            final(self).wf(),
            *final(screen) == *old(screen),
            (final(self)@, opt_texts(lines)) == mirror_taken(
                old(self)@,
                screen::grid(*old(screen)),
                now,
            ),
    {
        if now.saturating_sub(self.tailed) < TAIL_EVERY {
            return None;
        }
        self.tailed = now;
        let lines: Vec<String> = compact(visible(screen));
        if let Some(tail) = &self.tail {
            if same_lines(tail, &lines) {
                return None;
            }
        }
        Some(lines)
    }

    /// Everything `screen` is ready to hand over. Reads and restores the view.
    pub fn take(&mut self, screen: &mut Screen, pump: Pump, pushed: Option<usize>, now: u64) -> (t:
        Take)
        requires
            old(self).wf(),
        ensures
            final(self).wf(),
            *final(screen) == *old(screen),
            (final(self)@, t@) == pass(
                old(self)@,
                screen::grid(*old(screen)),
                pump,
                pushed,
                now,
            ),
    {
        if pump == Pump::Output {
            if now.saturating_sub(self.drawn) >= SNAPSHOT_SETTLE {
                self.burst = now;
            }
            self.drawn = now;
        }
        let mut take: Take = Take { history: Vec::new(), snapshot: Vec::new(), tail: None };
        assert(take@.history =~= Seq::empty());
        assert(take@.snapshot =~= Seq::empty());
        if alternate_screen(screen) {
            take.snapshot = self.snapshot(screen, now);
        } else {
            take.history = self.scrolled_off(screen, pushed);
        }
        if pump == Pump::Flush {
            take.tail = self.mirror(screen, now);
        }
        take
    }
}

// ── one shell's transcript ──────────────────────────────────────────────────

/// One shell's transcript: whether a session is being transcribed, how many rows
/// its output pushed into the history since the last pass, and what was read.
pub struct Transcript {
    pub armed: bool,
    /// The history's limit.
    pub cap: usize,
    /// Counts sessions: a flush thread serves only the session it was started for.
    pub session: u64,
    /// Rows pushed into the history since the last pass; `None` once any went
    /// uncounted.
    pub pushed: Option<usize>,
    pub capture: Capture,
    /// The session being transcribed. Left set, with `armed` down, when its file
    /// could not be opened, so that it is not tried again.
    pub meta: Option<Meta>,
}

/// What a `Transcript` stands for.
#[verifier::ext_equal]
pub struct Log {
    pub armed: bool,
    pub cap: int,
    pub session: u64,
    pub pushed: Option<usize>,
    pub capture: Watch,
    pub meta: Option<Meta>,
}

impl View for Transcript {
    type V = Log;

    open spec fn view(&self) -> Log {
        Log {
            armed: self.armed,
            cap: self.cap as int,
            session: self.session,
            pushed: self.pushed,
            capture: self.capture@,
            meta: self.meta,
        }
    }
}

/// How many rows a chunk pushed into the history, given the screen before it and
/// after it, each with the view as the chunk found and left it. The emulator
/// counts them itself for a view scrolled back: it raises the offset one row per
/// pushed row. No count when the alternate screen was touched, when the offset
/// hit the top of the history, or when the history was reset.
pub open spec fn rows_pushed(before: Grid, after: Grid, cap: int) -> Option<int> {
    let probe = if before.offset >= 1 {
        before.offset
    } else {
        1
    };
    if before.alternate || after.alternate {
        None
    } else if before.history.len() == 0 {
        if after.history.len() < cap {
            Some(after.history.len() as int)
        } else {
            None
        }
    } else if probe <= after.offset < after.history.len() {
        Some(after.offset - probe)
    } else {
        None
    }
}

/// A count with the rows of one more chunk.
pub open spec fn added(pushed: Option<usize>, count: Option<int>) -> Option<usize> {
    match (pushed, count) {
        (Some(n), Some(k)) => Some(
            if n + k < usize::MAX {
                (n + k) as usize
            } else {
                (usize::MAX - 1) as usize
            },
        ),
        _ => None,
    }
}

/// How far the view is scrolled back while a chunk is counted: by at least one row, as
/// far as there is history.
pub open spec fn probed(g: Grid) -> int {
    let probe = if g.offset >= 1 {
        g.offset
    } else {
        1
    };
    if probe <= g.history.len() {
        probe
    } else {
        g.history.len() as int
    }
}

/// How many rows a chunk pushes into the history: parsed with the view scrolled back,
/// it raises the view by one row per pushed row.
pub open spec fn pushed_by(screen: Screen, begun: Seq<u8>, bytes: Seq<u8>, cap: int) -> Option<int> {
    let before = screen::grid(screen);
    let seen = screen::at_view(screen, probed(before));
    rows_pushed(before, screen::grid(screen::parsed(seen, begun, bytes).0), cap)
}

/// The lines a session closes with: the live screen behind what was begun in the
/// history.
pub open spec fn last_lines(begun: Seq<char>, live: Seq<Row>) -> Seq<Seq<char>> {
    let lines = screen_lines(live);
    compacted(
        if begun.len() == 0 {
            lines
        } else if lines.len() > 0 {
            lines.update(0, begun + lines[0])
        } else {
            seq![begun]
        },
    )
}

/// What closing a session hands over: what it was for, the history lines not yet
/// committed, and the last screen.
pub struct Closing {
    pub meta: Meta,
    pub history: Vec<String>,
    pub screen: Vec<String>,
}

/// What a `Closing` stands for.
#[verifier::ext_equal]
pub struct Closed {
    pub meta: Meta,
    pub history: Seq<Seq<char>>,
    pub screen: Seq<Seq<char>>,
}

impl View for Closing {
    type V = Closed;

    open spec fn view(&self) -> Closed {
        Closed {
            meta: self.meta,
            history: text::texts(self.history@),
            screen: text::texts(self.screen@),
        }
    }
}

/// What an optional `Take` stands for.
pub open spec fn opt_taken(t: Option<Take>) -> Option<Taken> {
    match t {
        Some(t) => Some(t@),
        None => None,
    }
}

/// What an optional `Closing` stands for.
pub open spec fn opt_closed(c: Option<Closing>) -> Option<Closed> {
    match c {
        Some(c) => Some(c@),
        None => None,
    }
}

/// A transcript nothing was ever written to.
pub open spec fn unwritten(scrollback: usize, now: u64) -> Log {
    Log {
        armed: false,
        cap: scrollback as int,
        session: 0,
        pushed: None,
        capture: fresh(scrollback, now),
        meta: None,
    }
}

/// Starting a session: the state it leaves, and the session's number when one was
/// started — not while another is on, and not when transcripts are off.
pub open spec fn started(l: Log, meta: Meta, enabled: bool) -> (Log, Option<u64>) {
    if l.armed || !enabled || l.meta is Some {
        (l, None)
    } else {
        let session = if l.session < u64::MAX {
            (l.session + 1) as u64
        } else {
            0
        };
        (
            Log {
                armed: true,
                session,
                pushed: None,
                capture: Watch { catch_up: true, ..l.capture },
                meta: Some(meta),
                ..l
            },
            Some(session),
        )
    }
}

/// A pass: the state it leaves, and what it takes, which is nothing without a session.
pub open spec fn pumped(l: Log, g: Grid, pump: Pump, now: u64) -> (Log, Option<Taken>) {
    if !l.armed || l.meta is None {
        (l, None)
    } else {
        let (capture, taken) = pass(l.capture, g, pump, l.pushed, now);
        (Log { pushed: Some(0), capture, ..l }, Some(taken))
    }
}

/// Closing a session: the state it leaves, and what it hands over, which is nothing
/// without a session.
pub open spec fn closed(l: Log, g: Grid) -> (Log, Option<Closed>) {
    match l.meta {
        None => (Log { armed: false, ..l }, None),
        Some(meta) => {
            let (c, history) = if g.alternate {
                (l.capture, Seq::empty())
            } else {
                committed(l.capture, g, l.pushed)
            };
            let last = last_lines(c.pending, g.live);
            let screen = if g.alternate && c.snap == Some(last) {
                Seq::empty()
            } else {
                last
            };
            (
                Log {
                    armed: false,
                    pushed: if g.alternate {
                        l.pushed
                    } else {
                        Some(0)
                    },
                    capture: Watch { pending: Seq::empty(), ..c },
                    meta: None,
                    ..l
                },
                Some(Closed { meta, history, screen }),
            )
        },
    }
}

/// What can happen to a transcript.
pub enum Step {
    /// A session was asked for.
    Arm(Meta, bool),
    /// A chunk was parsed onto a screen.
    Process(Screen, Seq<u8>, Seq<u8>),
    /// A pass over a screen.
    Pass(Grid, Pump, u64),
    /// The sidecar was written.
    Mirrored(Seq<Seq<char>>),
    /// There was nowhere to write.
    Disarm,
    /// The session was closed on a screen.
    Close(Grid),
}

/// The transcript after a step.
pub open spec fn stepped(l: Log, step: Step) -> Log {
    match step {
        Step::Arm(meta, enabled) => started(l, meta, enabled).0,
        Step::Process(screen, begun, bytes) => counted(l, screen, begun, bytes),
        Step::Pass(g, pump, now) => pumped(l, g, pump, now).0,
        Step::Mirrored(lines) => mirrored(l, lines),
        Step::Disarm => Log { armed: false, ..l },
        Step::Close(g) => closed(l, g).0,
    }
}

/// The transcript after a chunk was parsed onto a screen.
pub open spec fn counted(l: Log, screen: Screen, begun: Seq<u8>, bytes: Seq<u8>) -> Log {
    if l.armed {
        Log { pushed: added(l.pushed, pushed_by(screen, begun, bytes, l.cap)), ..l }
    } else {
        l
    }
}

/// The transcript once its sidecar holds `lines`.
pub open spec fn mirrored(l: Log, lines: Seq<Seq<char>>) -> Log {
    Log { capture: Watch { tail: Some(lines), ..l.capture }, ..l }
}

/// A new transcript after some steps.
pub open spec fn after(scrollback: usize, now: u64, steps: Seq<Step>) -> Log
    decreases steps.len(),
{
    if steps.len() == 0 {
        unwritten(scrollback, now)
    } else {
        stepped(after(scrollback, now, steps.drop_last()), steps.last())
    }
}

/// How many of some steps on a new transcript opened a session.
pub open spec fn sessions_opened(scrollback: usize, now: u64, steps: Seq<Step>) -> nat
    decreases steps.len(),
{
    if steps.len() == 0 {
        0
    } else {
        let l = after(scrollback, now, steps.drop_last());
        let n = sessions_opened(scrollback, now, steps.drop_last());
        match steps.last() {
            Step::Arm(meta, enabled) => if started(l, meta, enabled).1 is Some {
                n + 1
            } else {
                n
            },
            _ => n,
        }
    }
}

/// The number of a session counts the sessions opened: whatever was done with a new
/// transcript, the next session gets the number after that of all those opened before
/// it. It is opened exactly when transcripts are on and no session is, and is then the
/// one being transcribed.
pub proof fn sessions_are_counted(
    scrollback: usize,
    now: u64,
    steps: Seq<Step>,
    meta: Meta,
    enabled: bool,
)
    requires
        sessions_opened(scrollback, now, steps) < u64::MAX,
    ensures
        ({
            let l = after(scrollback, now, steps);
            let (next, number) = started(l, meta, enabled);
            &&& l.session == sessions_opened(scrollback, now, steps)
            &&& l.armed ==> l.meta is Some
            &&& number == if enabled && l.meta is None {
                Some((sessions_opened(scrollback, now, steps) + 1) as u64)
            } else {
                None
            }
            &&& number is Some ==> next.armed && next.session == number->Some_0
            &&& number is None ==> next == l
        }),
{
    lemma_sessions(scrollback, now, steps);
}

proof fn lemma_sessions(scrollback: usize, now: u64, steps: Seq<Step>)
    requires
        sessions_opened(scrollback, now, steps) <= u64::MAX,
    ensures
        after(scrollback, now, steps).session == sessions_opened(scrollback, now, steps),
        after(scrollback, now, steps).armed ==> after(scrollback, now, steps).meta is Some,
    decreases steps.len(),
{
    if steps.len() > 0 {
        lemma_sessions(scrollback, now, steps.drop_last());
    }
}

proof fn lemma_unwrapped(rows: Seq<Row>)
    requires
        forall|i: int| 0 <= i < rows.len() ==> !(#[trigger] rows[i]).wrapped,
    ensures
        logical(rows, Seq::empty()) == (screen::row_texts(rows), Seq::<char>::empty()),
    decreases rows.len(),
{
    if rows.len() == 0 {
        assert(screen::row_texts(rows) =~= Seq::empty());
    } else {
        lemma_unwrapped(rows.drop_last());
        assert(Seq::<char>::empty() + rows.last().text =~= rows.last().text);
        assert(screen::row_texts(rows.drop_last()).push(rows.last().text) =~= screen::row_texts(
            rows,
        ));
    }
}

/// A pass hands over exactly the rows that scrolled off since the last one, oldest
/// first and each once: with the newest row then committed the newest of the history,
/// and `new` rows pushed onto it since — counted or not, below the history's limit. Rows
/// that did not wrap are lines of their own.
pub proof fn a_pass_hands_over_what_scrolled_off(
    l: Log,
    g: Grid,
    old_rows: Seq<Row>,
    new: Seq<Row>,
    pump: Pump,
    now: u64,
)
    requires
        l.armed,
        l.meta is Some,
        !l.capture.catch_up,
        !g.alternate,
        g.live.len() > 0,
        old_rows.len() > 0,
        l.capture.anchor.len() > 0,
        l.capture.anchor.last() == old_rows.last().text,
        l.capture.logged == old_rows.len(),
        g.history == old_rows + new,
        g.history.len() < l.capture.cap,
    ensures
        ({
            let (after, taken) = pumped(l, g, pump, now);
            &&& taken matches Some(t) && t.history == logical(new, l.capture.pending).0
            &&& l.capture.pending.len() == 0 && (forall|i: int|
                0 <= i < new.len() ==> !(#[trigger] new[i]).wrapped) ==> taken->Some_0.history
                == screen::row_texts(new)
            &&& after.capture.logged == g.history.len()
            &&& after.capture.anchor.len() > 0
            &&& after.capture.anchor.last() == g.history.last().text
        }),
{
    assert((old_rows + new).skip(0) =~= old_rows + new);
    each_row_is_committed_once(clocked(l.capture, pump, now), g, old_rows, new, 0, l.pushed);
    if l.capture.pending.len() == 0 && (forall|i: int|
        0 <= i < new.len() ==> !(#[trigger] new[i]).wrapped) {
        lemma_unwrapped(new);
        assert(l.capture.pending =~= Seq::empty());
    }
}

/// After a close nothing is transcribed, and closing again — on whatever screen — hands
/// nothing over and changes nothing.
pub proof fn a_second_close_changes_nothing(l: Log, first: Grid, second: Grid)
    ensures
        !closed(l, first).0.armed,
        closed(closed(l, first).0, second) == (closed(l, first).0, None::<Closed>),
{
}

impl Transcript {
    /// The transcript's invariant.
    pub open spec fn wf(self) -> bool {
        self.capture.wf()
    }

    /// A transcript for a shell whose terminal keeps `scrollback` rows.
    pub fn new(scrollback: usize, now: u64) -> (t: Transcript)
        ensures
            t.wf(),
            t@ == unwritten(scrollback, now),
    {
        Transcript {
            armed: false,
            cap: scrollback,
            session: 0,
            pushed: None,
            capture: Capture::new(scrollback, now),
            meta: None,
        }
    }

    /// Start transcribing a session, returning its number when this call started
    /// one. `None` when a session is already on, or when transcripts are off.
    pub fn arm(&mut self, meta: Meta, enabled: bool) -> (session: Option<u64>)
        requires
            old(self).wf(),
        ensures
            final(self).wf(),
            (final(self)@, session) == started(old(self)@, meta, enabled),
    {
        if self.armed || !enabled || self.meta.is_some() {
            return None;
        }
        self.meta = Some(meta);
        self.capture.catch_up = true;
        // Whatever was pushed before the session is history the catch-up takes by
        // the history's length, not by a count.
        self.pushed = None;
        self.session = if self.session < u64::MAX {
            self.session + 1
        } else {
            0
        };
        self.armed = true;
        Some(self.session)
    }

    /// Is this shell being transcribed? False before an agent is detected in it
    /// and again once its transcript is closed.
    pub fn armed(&self) -> (r: bool)
        ensures
            r == self.armed,
    {
        self.armed
    }

    /// Is `session` the one still being transcribed?
    pub fn serves(&self, session: u64) -> (r: bool)
        ensures
            r == (self.armed && self.session == session),
    {
        self.armed && self.session == session
    }

    /// Parse `bytes` onto `terminal`'s screen, counting, while a session is on,
    /// the rows it pushes into the history. The chunk is parsed with the view
    /// scrolled back by at least one row, and the rise of the offset is the count;
    /// the view is then left where the emulator would have left the user's own, so the
    /// screen is the one a plain parse would have left.
    pub fn process(&mut self, terminal: &mut Terminal, bytes: &[u8])
        requires
            screen::takes(
                screen::screen_of(*old(terminal)),
                screen::begun(*old(terminal)),
                bytes@,
            ),
        ensures
            (screen::screen_of(*final(terminal)), screen::begun(*final(terminal)))
                == screen::parsed(
                screen::screen_of(*old(terminal)),
                screen::begun(*old(terminal)),
                bytes@,
            ),
            final(self)@ == counted(
                old(self)@,
                screen::screen_of(*old(terminal)),
                screen::begun(*old(terminal)),
                bytes@,
            ),
            final(self).capture == old(self).capture,
            screen::drawable(screen::screen_of(*final(terminal))),
            screen::ends_in(
                screen::begun(*old(terminal)) + bytes@,
                screen::begun(*final(terminal)),
            ),
            screen::grid(screen::screen_of(*final(terminal))).cols == screen::grid(
                screen::screen_of(*old(terminal)),
            ).cols,
            screen::grid(screen::screen_of(*final(terminal))).live.len() == screen::grid(
                screen::screen_of(*old(terminal)),
            ).live.len(),
            screen::limit(screen::screen_of(*final(terminal))) == screen::limit(
                screen::screen_of(*old(terminal)),
            ),
    {
        if !self.armed {
            terminal.process(bytes);
            return;
        }
        let ghost start = screen::screen_of(*terminal);
        let ghost before = screen::grid(start);
        let ghost begun = screen::begun(*terminal);
        let screen: &mut Screen = terminal.screen_mut();
        let alternate: bool = alternate_screen(screen);
        let view: usize = scrollback(screen);
        let had: usize = history(screen);
        let probe: usize = if view >= 1 {
            view
        } else {
            1
        };
        set_scrollback(screen, probe);
        assert(*screen == screen::at_view(start, probed(before)));
        let ghost probing = *screen;
        terminal.process(bytes);
        let ghost left = screen::screen_of(*terminal);
        let ghost after = screen::grid(left);
        proof {
            assert(probing == screen::at_view(start, probed(before)));
            assert(screen::at_view(probing, 0) == screen::at_view(start, 0));
            if view == 0 {
                assert(screen::at_view(start, 0) == start);
            } else {
                assert(probing == start);
            }
        }
        let screen: &mut Screen = terminal.screen_mut();
        let risen: usize = scrollback(screen);
        let have: usize = history(screen);
        let count: Option<usize> = if alternate || alternate_screen(screen) {
            None
        } else if had == 0 {
            // Nothing to scroll back into yet — and nothing dropped either.
            if have < self.cap {
                Some(have)
            } else {
                None
            }
        } else if risen >= probe && risen < have {
            Some(risen - probe)
        } else {
            None
        };
        set_scrollback(
            screen,
            if view == 0 {
                0
            } else {
                risen
            },
        );
        self.pushed =
        match (self.pushed, count) {
            (Some(n), Some(k)) => Some(
                if k < usize::MAX - n {
                    n + k
                } else {
                    usize::MAX - 1
                },
            ),
            _ => None,
        };
    }

    /// The count of pushed rows since the last pass, reset for the next.
    pub fn take_pushed(&mut self) -> (n: Option<usize>)
        ensures
            n == old(self).pushed,
            *final(self) == (Transcript { pushed: Some(0), ..*old(self) }),
    {
        let n: Option<usize> = self.pushed;
        self.pushed = Some(0);
        n
    }

    /// Read whatever the screen is ready to hand over; `None` without a session.
    pub fn pump(&mut self, screen: &mut Screen, pump: Pump, now: u64) -> (t: Option<Take>)
        requires
            old(self).wf(),
        ensures
            final(self).wf(),
            *final(screen) == *old(screen),
            (final(self)@, opt_taken(t)) == pumped(
                old(self)@,
                screen::grid(*old(screen)),
                pump,
                now,
            ),
    {
        if !self.armed || self.meta.is_none() {
            return None;
        }
        let pushed: Option<usize> = self.take_pushed();
        Some(self.capture.take(screen, pump, pushed, now))
    }

    /// A pass was written out, the sidecar included when it held `mirrored`.
    pub fn mirrored(&mut self, mirrored: Vec<String>)
        requires
            old(self).wf(),
        ensures
            final(self).wf(),
            final(self)@ == self::mirrored(old(self)@, text::texts(mirrored@)),
    {
        self.capture.tail = Some(mirrored);
    }

    /// There is nowhere to write: stop rather than try again with every chunk.
    pub fn disarm(&mut self)
        requires
            old(self).wf(),
        ensures
            final(self).wf(),
            final(self)@ == (Log { armed: false, ..old(self)@ }),
    {
        self.armed = false;
    }

    /// Close the session: what scrolled off since the last pass, and the screen
    /// the history never saw — unless the alternate screen's last frame is the
    /// last snapshot. Nothing without a session, so it can run from every end.
    pub fn close(&mut self, screen: &mut Screen) -> (r: Option<Closing>)
        requires
            old(self).wf(),
        ensures
            final(self).wf(),
            *final(screen) == *old(screen),
            (final(self)@, opt_closed(r)) == closed(old(self)@, screen::grid(*old(screen))),
    {
        self.armed = false;
        let meta: Meta = match self.meta.take() {
            Some(meta) => meta,
            None => {
                return None;
            },
        };
        let alternate: bool = alternate_screen(screen);
        let mut history: Vec<String> = Vec::new();
        assert(text::texts(history@) =~= Seq::empty());
        if !alternate {
            let pushed: Option<usize> = self.take_pushed();
            history = self.capture.scrolled_off(screen, pushed);
        }
        let mut last: Vec<String> = visible(screen);
        // A wrapped line that began in the history ends on screen.
        let begun: String = copy(self.capture.pending.as_str());
        self.capture.pending = String::new();
        assert(self.capture@.pending =~= Seq::empty());
        let head: Vec<char> = chars(begun.as_str());
        let ghost lines = text::texts(last@);
        assert(lines.len() == last@.len());
        if head.len() > 0 {
            if last.len() > 0 {
                let mut line: String = begun;
                push_str(&mut line, last[0].as_str());
                last.set(0, line);
                assert(text::texts(last@) =~= lines.update(0, head@ + lines[0]));
            } else {
                last.push(begun);
                assert(text::texts(last@) =~= seq![head@]);
            }
        }
        let last: Vec<String> = compact(last);
        let repeated: bool = alternate && match &self.capture.snap {
            Some(snap) => same_lines(snap, &last),
            None => false,
        };
        let none: Vec<String> = Vec::new();
        assert(text::texts(none@) =~= Seq::empty());
        Some(
            Closing {
                meta,
                history,
                screen: if repeated {
                    none
                } else {
                    last
                },
            },
        )
    }
}

// ── the files ───────────────────────────────────────────────────────────────

/// The name of a session's files, without their extension.
pub open spec fn file_name(meta: Meta, now: Stamp) -> Seq<char> {
    stamp::two(now.hour as int) + stamp::two(now.min as int) + stamp::two(now.sec as int) + seq!['-']
        + labels::tamed(meta.agent@) + seq!['-'] + labels::tamed(labels::folder(meta.cwd@))
        + seq!['-'] + text::decimal(meta.pid as nat)
}

/// What a transcript begins with.
pub open spec fn header(meta: Meta, now: Stamp) -> Seq<char> {
    "# ricon session transcript\n# started "@ + (stamp::date_text(now) + seq![' ']
        + stamp::time_text(now)) + "\n# agent   "@ + meta.agent@ + " ("@ + meta.model@
        + ")\n# cwd     "@ + meta.cwd@ + "\n\n"@
}

/// The name of a session's files: the time, the client, the folder it ran in and
/// the shell's process — so two agents started in the same second in the same
/// folder still get a file each.
pub fn transcript_name(meta: &Meta, now: &Stamp) -> (t: String)
    ensures
        t@ == file_name(*meta, *now),
{
    let mut t: String = now.compact();
    t.push('-');
    let agent: String = tame(meta.agent.as_str());
    push_str(&mut t, agent.as_str());
    t.push('-');
    let folder: String = folder_name(meta.cwd.as_str());
    let folder: String = tame(folder.as_str());
    push_str(&mut t, folder.as_str());
    t.push('-');
    push_decimal(&mut t, meta.pid as u64);
    assert(t@ =~= file_name(*meta, *now));
    t
}

/// What a transcript begins with.
pub fn transcript_header(meta: &Meta, now: &Stamp) -> (t: String)
    ensures
        t@ == header(*meta, *now),
{
    let mut t: String = copy("# ricon session transcript\n# started ");
    let full: String = now.full();
    push_str(&mut t, full.as_str());
    push_str(&mut t, "\n# agent   ");
    push_str(&mut t, meta.agent.as_str());
    push_str(&mut t, " (");
    push_str(&mut t, meta.model.as_str());
    push_str(&mut t, ")\n# cwd     ");
    push_str(&mut t, meta.cwd.as_str());
    push_str(&mut t, "\n\n");
    t
}

/// `lines` without their trailing white space, a line feed after each.
pub open spec fn written(lines: Seq<Seq<char>>) -> Seq<char>
    decreases lines.len(),
{
    if lines.len() == 0 {
        Seq::empty()
    } else {
        written(lines.drop_last()) + text::trim_end(lines.last()) + seq!['\n']
    }
}

/// The dated marker in front of a block.
pub open spec fn marker(now: Stamp) -> Seq<char> {
    "\n──── "@ + stamp::time_text(now) + " ────\n"@
}

/// Does a block need a dated marker? A snapshot does — it is only legible with
/// the time it was taken — and so does the first block after a quiet stretch.
pub fn marker_due(snapshot: bool, wrote: u64, now: u64) -> (r: bool)
    ensures
        r == (snapshot || since(wrote, now) >= GAP),
        r <==> snapshot || wrote + 60_000_000_000 <= now,
{
    snapshot || now.saturating_sub(wrote) >= GAP
}

/// The text appended to a transcript for a block of lines, behind a dated marker
/// when it needs one.
pub fn block_text(lines: &Vec<String>, dated: &Option<Stamp>) -> (t: String)
    ensures
        t@ == (match *dated {
            Some(now) => marker(now),
            None => Seq::empty(),
        }) + written(text::texts(lines@)),
{
    let mut t: String = String::new();
    if let Some(now) = dated {
        push_str(&mut t, "\n──── ");
        let time: String = now.time();
        push_str(&mut t, time.as_str());
        push_str(&mut t, " ────\n");
    }
    let ghost head = t@;
    assert(head =~= match *dated {
        Some(now) => marker(now),
        None => Seq::empty(),
    });
    let ghost all = text::texts(lines@);
    let mut i: usize = 0;
    assert(all.take(0) =~= Seq::empty());
    assert(head + written(all.take(0)) =~= head);
    while i < lines.len()
        invariant
            all == text::texts(lines@),
            i <= lines@.len(),
            t@ == head + written(all.take(i as int)),
        decreases lines.len() - i,
    {
        let v: Vec<char> = chars(lines[i].as_str());
        let n: usize = trimmed_len(v.as_slice());
        let line: &[char] = range(v.as_slice(), 0, n);
        assert(line@ =~= v@.take(n as int));
        push_chars(&mut t, line);
        t.push('\n');
        assert(all.take(i + 1).drop_last() =~= all.take(i as int));
        assert(all.take(i + 1).last() == v@);
        assert(t@ =~= head + written(all.take(i + 1)));
        i += 1;
    }
    assert(all.take(i as int) =~= all);
    t
}

/// The text of the sidecar: the lines as they stand, and a line feed.
pub fn sidecar_text(lines: &Vec<String>) -> (t: String)
    ensures
        t@ == text::join(text::texts(lines@), seq!['\n']).push('\n'),
{
    let mut t: String = String::new();
    let ghost all = text::texts(lines@);
    let mut i: usize = 0;
    assert(all.take(0) =~= Seq::empty());
    while i < lines.len()
        invariant
            all == text::texts(lines@),
            i <= lines@.len(),
            t@ == text::join(all.take(i as int), seq!['\n']),
        decreases lines.len() - i,
    {
        assert(all.take(i + 1).drop_last() =~= all.take(i as int));
        assert(all.take(i + 1).last() == lines@[i as int]@);
        if i > 0 {
            t.push('\n');
            assert(t@ =~= text::join(all.take(i as int), seq!['\n']) + seq!['\n']);
        }
        push_str(&mut t, lines[i].as_str());
        assert(t@ =~= text::join(all.take(i + 1), seq!['\n']));
        i += 1;
    }
    assert(all.take(i as int) =~= all);
    t.push('\n');
    t
}

/// Is a pass worth writing? With no file open yet, only when it says anything: no
/// empty file is ever made.
pub fn worth_writing(take: &Take, open: bool) -> (r: bool)
    ensures
        r == (open || take@.history.len() > 0 || take@.snapshot.len() > 0 || take@.tail is Some),
{
    assert(take@.history.len() == take.history@.len());
    assert(take@.snapshot.len() == take.snapshot@.len());
    open || take.history.len() > 0 || take.snapshot.len() > 0 || take.tail.is_some()
}

/// Is the end of a session worth writing? With no file open yet, only when it says
/// anything.
pub fn worth_closing(closing: &Closing, open: bool) -> (r: bool)
    ensures
        r == (open || closing.history@.len() > 0 || closing.screen@.len() > 0),
{
    open || closing.history.len() > 0 || closing.screen.len() > 0
}

// ── what a screen dump keeps ────────────────────────────────────────────────

proof fn lemma_flat_add(a: Seq<Seq<char>>, b: Seq<Seq<char>>)
    ensures
        flat(a + b) == flat(a) + flat(b),
    decreases b.len(),
{
    if b.len() == 0 {
        assert(a + b =~= a);
        assert(flat(a) + flat(b) =~= flat(a));
    } else {
        assert((a + b).drop_last() =~= a + b.drop_last());
        lemma_flat_add(a, b.drop_last());
        assert(flat(a + b) =~= flat(a) + flat(b));
    }
}

proof fn lemma_flat_blank(lines: Seq<Seq<char>>)
    requires
        forall|i: int| 0 <= i < lines.len() ==> text::blank(#[trigger] lines[i]),
    ensures
        text::blank(flat(lines)),
    decreases lines.len(),
{
    if lines.len() > 0 {
        let above = lines.drop_last();
        assert forall|i: int| 0 <= i < above.len() implies text::blank(#[trigger] above[i]) by {
            assert(above[i] == lines[i]);
        }
        lemma_flat_blank(above);
        assert(text::blank(lines[lines.len() - 1]));
        assert forall|i: int| 0 <= i < flat(lines).len() implies text::white(
            #[trigger] flat(lines)[i],
        ) by {
            if i < flat(above).len() {
                assert(flat(lines)[i] == flat(above)[i]);
            } else {
                assert(flat(lines)[i] == lines.last()[i - flat(above).len()]);
            }
        }
    }
}

/// Only the blank lines at the end of a screen dump go, all of them.
pub proof fn only_the_padding_goes(lines: Seq<Seq<char>>)
    ensures
        ({
            let kept = without_blank_end(lines);
            &&& kept.len() <= lines.len()
            &&& kept == lines.take(kept.len() as int)
            &&& kept.len() > 0 ==> !text::blank(kept.last())
            &&& forall|i: int| kept.len() <= i < lines.len() ==> text::blank(#[trigger] lines[i])
        }),
    decreases lines.len(),
{
    if lines.len() > 0 && text::blank(lines.last()) {
        let above = lines.drop_last();
        only_the_padding_goes(above);
        let kept = without_blank_end(lines);
        assert(above.take(kept.len() as int) =~= lines.take(kept.len() as int));
        assert forall|i: int| kept.len() <= i < lines.len() implies text::blank(
            #[trigger] lines[i],
        ) by {
            if i < above.len() {
                assert(above[i] == lines[i]);
            }
        }
    } else {
        assert(lines.take(lines.len() as int) =~= lines);
    }
}

/// A screen dump holds all the text on the screen, in order; what it leaves out at the
/// end is blank.
pub proof fn a_dump_holds_the_screen(live: Seq<Row>)
    ensures
        ({
            let all = flat(screen::row_texts(live));
            let kept = flat(screen_lines(live));
            &&& kept.len() <= all.len()
            &&& kept == all.take(kept.len() as int)
            &&& text::blank(all.skip(kept.len() as int))
        }),
{
    let (lines, begun) = logical(live, Seq::empty());
    joining_rows_keeps_their_text(live, Seq::empty());
    let all = flat(screen::row_texts(live));
    assert(Seq::<char>::empty() + all =~= all);
    let whole = if begun.len() > 0 {
        lines.push(begun)
    } else {
        lines
    };
    if begun.len() > 0 {
        assert(whole.drop_last() =~= lines);
    } else {
        assert(flat(lines) + begun =~= flat(lines));
    }
    assert(flat(whole) == all);
    only_the_padding_goes(whole);
    let kept = without_blank_end(whole);
    let rest = whole.skip(kept.len() as int);
    assert(whole =~= kept + rest);
    lemma_flat_add(kept, rest);
    assert forall|i: int| 0 <= i < rest.len() implies text::blank(#[trigger] rest[i]) by {
        assert(rest[i] == whole[kept.len() + i]);
    }
    lemma_flat_blank(rest);
    assert(all.take(flat(kept).len() as int) =~= flat(kept));
    assert(all.skip(flat(kept).len() as int) =~= flat(rest));
}

/// A row that ran into the next is one line with it, wherever the two stand.
pub proof fn a_wrapped_row_goes_on_in_the_next(
    above: Seq<Row>,
    first: Seq<char>,
    next: Row,
    below: Seq<Row>,
    pending: Seq<char>,
)
    ensures
        logical(above + seq![Row { text: first, wrapped: true }, next] + below, pending)
            == logical(
            above + seq![Row { text: first + next.text, wrapped: next.wrapped }] + below,
            pending,
        ),
{
    let two = seq![Row { text: first, wrapped: true }, next];
    let one = seq![Row { text: first + next.text, wrapped: next.wrapped }];
    let begun = logical(above, pending).1;
    joining_rows_in_two_goes(above + two, below, pending);
    joining_rows_in_two_goes(above + one, below, pending);
    joining_rows_in_two_goes(above, two, pending);
    joining_rows_in_two_goes(above, one, pending);
    assert(two.drop_last() =~= seq![Row { text: first, wrapped: true }]);
    assert(two.drop_last().drop_last() =~= Seq::<Row>::empty());
    assert(one.drop_last() =~= Seq::<Row>::empty());
    assert(begun + first + next.text =~= begun + (first + next.text));
    assert(logical(two.drop_last().drop_last(), begun) == (Seq::<Seq<char>>::empty(), begun));
    assert(logical(two.drop_last(), begun) == (Seq::<Seq<char>>::empty(), begun + first));
    assert(logical(two, begun) == logical(one, begun));
}

/// Rows that did not run into the next are lines of their own.
pub proof fn unwrapped_rows_are_lines(rows: Seq<Row>)
    requires
        forall|i: int| 0 <= i < rows.len() ==> !(#[trigger] rows[i]).wrapped,
    ensures
        logical(rows, Seq::empty()) == (screen::row_texts(rows), Seq::<char>::empty()),
        screen_lines(rows) == without_blank_end(screen::row_texts(rows)),
{
    lemma_unwrapped(rows);
}

proof fn lemma_compacted_below(a: Seq<Seq<char>>, b: Seq<Seq<char>>, below: Seq<Seq<char>>)
    requires
        compacted(a) == compacted(b),
    ensures
        compacted(a + below) == compacted(b + below),
    decreases below.len(),
{
    if below.len() == 0 {
        assert(a + below =~= a);
        assert(b + below =~= b);
    } else {
        assert((a + below).drop_last() =~= a + below.drop_last());
        assert((b + below).drop_last() =~= b + below.drop_last());
        lemma_compacted_below(a, b, below.drop_last());
    }
}

/// Wherever blank lines follow each other, they are as good as one empty line.
pub proof fn a_run_of_blank_lines_is_one(
    above: Seq<Seq<char>>,
    first: Seq<char>,
    second: Seq<char>,
    below: Seq<Seq<char>>,
)
    requires
        text::blank(first),
        text::blank(second),
    ensures
        compacted(above + seq![first, second] + below) == compacted(
            above + seq![Seq::<char>::empty()] + below,
        ),
        compacted(above + seq![first] + below) == compacted(
            above + seq![Seq::<char>::empty()] + below,
        ),
{
    let none = Seq::<char>::empty();
    let one = above + seq![first];
    let two = above + seq![first, second];
    let empty = above + seq![none];
    assert(one.drop_last() =~= above);
    assert(two.drop_last() =~= one);
    assert(empty.drop_last() =~= above);
    assert(text::blank(none));
    reveal_with_fuel(compacted, 3);
    lemma_compacted_below(two, empty, below);
    lemma_compacted_below(one, empty, below);
}

/// Lines among which no blank one follows another, the blank ones being empty, are kept
/// as they are: every line with text in it, and the single gaps between them.
pub proof fn lines_with_single_gaps_are_kept(lines: Seq<Seq<char>>)
    requires
        forall|i: int| 0 <= i < lines.len() && text::blank(#[trigger] lines[i]) ==> lines[i].len() == 0,
        forall|i: int|
            0 < i < lines.len() && text::blank(#[trigger] lines[i]) ==> !text::blank(lines[i - 1]),
    ensures
        compacted(lines) == lines,
    decreases lines.len(),
{
    if lines.len() > 0 {
        let above = lines.drop_last();
        assert forall|i: int| 0 <= i < above.len() && text::blank(#[trigger] above[i]) implies
            above[i].len() == 0 by {
            assert(above[i] == lines[i]);
        }
        assert forall|i: int| 0 < i < above.len() && text::blank(#[trigger] above[i]) implies
            !text::blank(above[i - 1]) by {
            assert(above[i] == lines[i]);
        }
        lines_with_single_gaps_are_kept(above);
        assert(lines[lines.len() - 1] == lines.last());
        if text::blank(lines.last()) {
            assert(lines.last() =~= Seq::<char>::empty());
            if above.len() > 0 {
                assert(above.last() == lines[lines.len() - 2]);
            }
        }
        assert(above.push(lines.last()) =~= lines);
    } else {
        assert(compacted(lines) =~= lines);
    }
}

// ── what a pass hands over of a full-screen application ─────────────────────

/// A full-screen application's frame is committed when it differs from the last one
/// committed, output has been silent for four tenths of a second, and two seconds went
/// by since the last one: the pass hands over exactly the lines of the frame, and
/// remembers them as the last one. The history is left alone.
pub proof fn a_changed_frame_is_committed(
    c: Watch,
    g: Grid,
    pushed: Option<usize>,
    now: u64,
)
    requires
        g.alternate,
        c.drawn + 400_000_000 <= now,
        c.snapped + 2_000_000_000 <= now,
        c.snap != Some(compacted(screen_lines(g.live))),
    ensures
        ({
            let (after, taken) = pass(c, g, Pump::Flush, pushed, now);
            &&& taken.snapshot == compacted(screen_lines(g.live))
            &&& taken.history.len() == 0
            &&& after.snap == Some(compacted(screen_lines(g.live)))
            &&& after.snapped == now
            &&& after.logged == c.logged && after.anchor == c.anchor && after.pending == c.pending
                && after.catch_up == c.catch_up && after.drawn == c.drawn
        }),
{
}

/// A frame like the last one is not committed again; nor is any within two seconds of
/// the last, or while it is still being drawn and has been for less than ten seconds.
/// What was committed last stays so.
pub proof fn other_frames_are_not_committed(
    c: Watch,
    g: Grid,
    pushed: Option<usize>,
    now: u64,
)
    requires
        g.alternate,
        c.drawn <= now && c.snapped <= now && c.burst <= now,
        ({
            ||| c.snap == Some(compacted(screen_lines(g.live)))
            ||| now < c.snapped + 2_000_000_000
            ||| now < c.drawn + 400_000_000 && now < c.burst + 10_000_000_000
        }),
    ensures
        ({
            let (after, taken) = pass(c, g, Pump::Flush, pushed, now);
            &&& taken.snapshot.len() == 0
            &&& taken.history.len() == 0
            &&& after.snap == c.snap && after.snapped == c.snapped
        }),
{
}

/// An application that never pauses is looked at every ten seconds: when its output has
/// gone on for that long, a changed frame is committed though more is being drawn, and
/// the next ten seconds begin.
pub proof fn unbroken_output_is_looked_at(
    c: Watch,
    g: Grid,
    pump: Pump,
    pushed: Option<usize>,
    now: u64,
)
    requires
        g.alternate,
        c.drawn <= now < c.drawn + 400_000_000,
        c.burst + 10_000_000_000 <= now,
        c.snapped + 2_000_000_000 <= now,
        c.snap != Some(compacted(screen_lines(g.live))),
    ensures
        ({
            let (after, taken) = pass(c, g, pump, pushed, now);
            &&& taken.snapshot == compacted(screen_lines(g.live))
            &&& after.snap == Some(compacted(screen_lines(g.live)))
            &&& after.snapped == now
            &&& after.burst == now
        }),
{
}

/// Output keeps the time it came at, and where there was silence before it, the stretch
/// of unbroken output starts over; a pass of the clock's changes neither.
pub proof fn output_is_clocked(c: Watch, g: Grid, pushed: Option<usize>, now: u64)
    requires
        c.drawn <= now,
        !g.alternate,
    ensures
        ({
            let after = pass(c, g, Pump::Output, pushed, now).0;
            &&& after.drawn == now
            &&& now - c.drawn >= 400_000_000 ==> after.burst == now
            &&& now - c.drawn < 400_000_000 ==> after.burst == c.burst
        }),
        pass(c, g, Pump::Flush, pushed, now).0.drawn == c.drawn,
        pass(c, g, Pump::Flush, pushed, now).0.burst == c.burst,
        pass(c, g, Pump::Output, pushed, now).1.tail is None,
{
}

/// The sidecar shows what is on screen, whichever screen it is: every two seconds the
/// clock's pass hands over the lines on it, unless they are what was written last.
pub proof fn the_sidecar_shows_the_screen(
    c: Watch,
    g: Grid,
    pushed: Option<usize>,
    now: u64,
)
    requires
        c.tailed <= now,
    ensures
        ({
            let (after, taken) = pass(c, g, Pump::Flush, pushed, now);
            let lines = compacted(screen_lines(g.live));
            &&& now - c.tailed >= 2_000_000_000 ==> after.tailed == now && taken.tail == if c.tail
                == Some(lines) {
                None
            } else {
                Some(lines)
            }
            &&& now - c.tailed < 2_000_000_000 ==> after.tailed == c.tailed && taken.tail is None
            &&& after.tail == c.tail
        }),
{
}

/// A session's first look is not put off: of a transcript just made, the screen is
/// handed over by the first pass of the clock, for the transcript where it is a full
/// screen, and for the sidecar.
pub proof fn the_first_screen_is_taken_at_once(
    scrollback: usize,
    meta: Meta,
    g: Grid,
    made: u64,
    now: u64,
)
    requires
        2_000_000_000 <= made <= now,
    ensures
        ({
            let (l, number) = started(unwritten(scrollback, made), meta, true);
            let (after, taken) = pumped(l, g, Pump::Flush, now);
            let lines = compacted(screen_lines(g.live));
            &&& number == Some(1u64)
            &&& l.meta == Some(meta)
            &&& taken matches Some(t) && t.tail == Some(lines) && (g.alternate ==> t.snapshot
                == lines)
        }),
{
}

/// Nothing is taken of a shell that is not transcribed.
pub proof fn an_idle_transcript_takes_nothing(l: Log, g: Grid, pump: Pump, now: u64)
    requires
        !l.armed || l.meta is None,
    ensures
        pumped(l, g, pump, now) == (l, None::<Taken>),
{
}

/// Closing a session hands over what is on screen: of a full-screen application unless
/// it is what was committed last, and otherwise below what scrolled off, the line that
/// had begun to scroll off in one piece. The session closed is the one that was open.
pub proof fn a_close_hands_over_the_screen(l: Log, g: Grid, meta: Meta)
    requires
        l.meta == Some(meta),
        l.capture.pending.len() == 0,
    ensures
        closed(l, g).1 matches Some(c) && c.meta == meta,
        g.alternate && l.capture.snap != Some(compacted(screen_lines(g.live))) ==> closed(
            l,
            g,
        ).1->Some_0.screen == compacted(screen_lines(g.live)),
        g.alternate && l.capture.snap == Some(compacted(screen_lines(g.live))) ==> closed(
            l,
            g,
        ).1->Some_0.screen.len() == 0,
        g.alternate ==> closed(l, g).1->Some_0.history.len() == 0,
        !g.alternate && (forall|i: int| 0 <= i < g.history.len() ==> !(#[trigger]
        g.history[i]).wrapped) ==> closed(l, g).1->Some_0.screen == compacted(
            screen_lines(g.live),
        ),
        closed(l, g).0.capture.pending.len() == 0,
        !closed(l, g).0.armed,
        closed(l, g).0.session == l.session,
{
    if !g.alternate && g.live.len() > 0 && (forall|i: int|
        0 <= i < g.history.len() ==> !(#[trigger] g.history[i]).wrapped) {
        let (fresh, joins) = fresh_rows(l.capture, g.history, l.pushed);
        lemma_fresh_bound(l.capture, g.history, l.pushed);
        let rows = g.history.skip(g.history.len() - fresh);
        assert forall|i: int| 0 <= i < rows.len() implies !(#[trigger] rows[i]).wrapped by {
            assert(rows[i] == g.history[g.history.len() - fresh + i]);
        }
        lemma_unwrapped(rows);
        assert(l.capture.pending =~= Seq::<char>::empty());
    }
}

proof fn lemma_first_shift_bound(anchor: Seq<Seq<char>>, history: Seq<Row>, from: int, to: int)
    requires
        0 <= from,
    ensures
        first_shift(anchor, history, from, to) matches Some(k) ==> from <= k < to,
    decreases to - from,
{
    if from < to && !anchored(anchor, history, from) {
        lemma_first_shift_bound(anchor, history, from + 1, to);
    }
}

proof fn lemma_fresh_bound(c: Watch, history: Seq<Row>, pushed: Option<usize>)
    ensures
        0 <= fresh_rows(c, history, pushed).0 <= history.len(),
{
    lemma_first_shift_bound(c.anchor, history, 0, history.len() - (c.anchor.len() - 1));
}

/// A line that had begun to scroll off goes on in the first line on screen when the
/// session is closed: the two are handed over as one.
pub proof fn a_close_finishes_the_line_begun(begun: Seq<char>, first: Seq<char>, below: Seq<Row>)
    requires
        begun.len() > 0,
        !text::blank(first),
    ensures
        last_lines(begun, seq![Row { text: first, wrapped: false }] + below) == compacted(
            screen_lines(seq![Row { text: begun + first, wrapped: false }] + below),
        ),
{
    assert(!text::blank(begun + first)) by {
        let i = choose|i: int| 0 <= i < first.len() && !text::white(#[trigger] first[i]);
        assert((begun + first)[begun.len() + i] == first[i]);
    }
    let a = seq![Row { text: first, wrapped: false }];
    let b = seq![Row { text: begun + first, wrapped: false }];
    let none = Seq::<char>::empty();
    joining_rows_in_two_goes(a, below, none);
    joining_rows_in_two_goes(b, below, none);
    reveal_with_fuel(logical, 2);
    assert(a.drop_last() =~= Seq::<Row>::empty());
    assert(b.drop_last() =~= Seq::<Row>::empty());
    assert(none + first =~= first);
    assert(none + (begun + first) =~= begun + first);
    assert(logical(a, none).0 =~= seq![first]);
    assert(logical(b, none).0 =~= seq![begun + first]);
    let (rest, left) = logical(below, none);
    let tail = if left.len() > 0 {
        rest.push(left)
    } else {
        rest
    };
    let la = seq![first] + tail;
    let lb = seq![begun + first] + tail;
    assert(screen_lines(a + below) == without_blank_end(la)) by {
        assert((seq![first] + rest).push(left) =~= seq![first] + rest.push(left));
    }
    assert(screen_lines(b + below) == without_blank_end(lb)) by {
        assert((seq![begun + first] + rest).push(left) =~= seq![begun + first] + rest.push(left));
    }
    only_the_padding_goes(la);
    only_the_padding_goes(lb);
    let ka = without_blank_end(la);
    let kb = without_blank_end(lb);
    assert(la[0] == first);
    assert(lb[0] == begun + first);
    assert(ka.len() > 0);
    assert(kb.len() > 0);
    if ka.len() < kb.len() {
        assert(text::blank(la[kb.len() - 1]));
        assert(la[kb.len() - 1] == lb[kb.len() - 1]);
        assert(kb.last() == lb[kb.len() - 1]);
    }
    if kb.len() < ka.len() {
        assert(text::blank(lb[ka.len() - 1]));
        assert(la[ka.len() - 1] == lb[ka.len() - 1]);
        assert(ka.last() == la[ka.len() - 1]);
    }
    assert(ka.update(0, begun + ka[0]) =~= kb);
}

// ── what finds the rows that scrolled off ───────────────────────────────────

/// Of the rows committed, the newest sixteen are kept to find the place by.
pub proof fn the_newest_rows_are_kept(v: Seq<Seq<char>>)
    ensures
        newest(v).len() == if v.len() < 16 {
            v.len() as int
        } else {
            16
        },
        newest(v) == v.skip(v.len() - newest(v).len()),
{
    assert(v.skip(0) =~= v);
}

/// A view that is scrolled up is kept on its rows by moving with them, so how far it
/// moved counts the rows pushed; where it could not move, nobody counted them. A history
/// that begins below its limit counts them by its length.
pub proof fn rows_pushed_are_counted(before: Grid, after: Grid, cap: int, n: int)
    requires
        !before.alternate,
        !after.alternate,
        n >= 0,
    ensures
        before.history.len() > 0 && before.offset >= 1 && after.offset == before.offset + n
            && after.offset < after.history.len() ==> rows_pushed(before, after, cap) == Some(n),
        before.history.len() > 0 && before.offset == 0 && after.offset == 1 + n && after.offset
            < after.history.len() ==> rows_pushed(before, after, cap) == Some(n),
        before.history.len() > 0 && after.offset == after.history.len() ==> rows_pushed(
            before,
            after,
            cap,
        ) is None,
        before.history.len() == 0 && after.history.len() == n && n < cap ==> rows_pushed(
            before,
            after,
            cap,
        ) == Some(n),
        before.history.len() == 0 && after.history.len() >= cap ==> rows_pushed(
            before,
            after,
            cap,
        ) is None,
{
}

/// Chunks add up: the rows pushed by two are those of the first and those of the second,
/// and once any went uncounted the sum is unknown.
pub proof fn chunks_add_up(start: Option<usize>, a: Option<int>, b: Option<int>)
    ensures
        start is None || a is None || b is None ==> added(added(start, a), b) is None,
        start matches Some(n) ==> (a matches Some(i) ==> (b matches Some(j) ==> (0 <= i && 0 <= j
            && n + i + j < usize::MAX ==> added(added(start, a), b) == Some(
            (n + i + j) as usize,
        )))),
{
}

// ── what is written ─────────────────────────────────────────────────────────

/// What is written of two batches of lines is what is written of the one and then of
/// the other; of one line, the line without the blanks at its end, and a line feed.
pub proof fn lines_are_written_one_by_one(a: Seq<Seq<char>>, b: Seq<Seq<char>>, line: Seq<char>)
    ensures
        written(a + b) == written(a) + written(b),
        written(seq![line]) == text::trim_end(line) + seq!['\n'],
    decreases b.len(),
{
    assert(seq![line].drop_last() =~= Seq::<Seq<char>>::empty());
    reveal_with_fuel(written, 2);
    assert(written(seq![line]) =~= text::trim_end(line) + seq!['\n']);
    if b.len() == 0 {
        assert(a + b =~= a);
        assert(written(a) + written(b) =~= written(a));
    } else {
        assert((a + b).drop_last() =~= a + b.drop_last());
        lines_are_written_one_by_one(a, b.drop_last(), line);
        assert(written(a + b) =~= written(a) + written(b));
    }
}

/// A transcript's file is named after the time it was begun at, the agent, the folder and
/// the process, so that it is found by any of them and no two at once share one.
pub proof fn a_file_is_named_after_its_session(meta: Meta, now: Stamp)
    requires
        now.hour < 24 && now.min < 60 && now.sec < 60,
    ensures
        file_name(meta, now) == seq![
            (48 + now.hour as int / 10) as char,
            (48 + now.hour as int % 10) as char,
            (48 + now.min as int / 10) as char,
            (48 + now.min as int % 10) as char,
            (48 + now.sec as int / 10) as char,
            (48 + now.sec as int % 10) as char,
            '-',
        ] + labels::tamed(meta.agent@) + seq!['-'] + labels::tamed(labels::folder(meta.cwd@))
            + seq!['-'] + text::decimal(meta.pid as nat),
{
    stamp::two_digits_are_shown(now.hour as int);
    stamp::two_digits_are_shown(now.min as int);
    stamp::two_digits_are_shown(now.sec as int);
    assert(file_name(meta, now) =~= seq![
        (48 + now.hour as int / 10) as char,
        (48 + now.hour as int % 10) as char,
        (48 + now.min as int / 10) as char,
        (48 + now.min as int % 10) as char,
        (48 + now.sec as int / 10) as char,
        (48 + now.sec as int % 10) as char,
        '-',
    ] + labels::tamed(meta.agent@) + seq!['-'] + labels::tamed(labels::folder(meta.cwd@)) + seq!['-']
        + text::decimal(meta.pid as nat));
}

/// A transcript is headed by when it began, the agent and its model, and the folder, each
/// on a line of its own, and an empty line.
pub proof fn a_transcript_is_headed_by_its_session(meta: Meta, now: Stamp)
    ensures
        header(meta, now) == "# ricon session transcript\n# started "@ + stamp::date_text(now) + " "@
            + stamp::time_text(now) + "\n# agent   "@ + meta.agent@ + " ("@ + meta.model@
            + ")\n# cwd     "@ + meta.cwd@ + "\n\n"@,
        marker(now) == "\n──── "@ + stamp::time_text(now) + " ────\n"@,
{
    reveal_strlit(" ");
    assert(" "@ =~= seq![' ']);
    let a = "# ricon session transcript\n# started "@;
    assert(a + (stamp::date_text(now) + seq![' '] + stamp::time_text(now)) =~= a + stamp::date_text(
        now,
    ) + " "@ + stamp::time_text(now));
}

/// What was written to the sidecar is not handed over again while the screen stays as it
/// is.
pub proof fn the_sidecar_is_written_once(l: Log, g: Grid, now: u64)
    requires
        l.armed,
        l.meta is Some,
        g.alternate ==> l.capture.snapped <= now,
        l.capture.tailed + 2_000_000_000 <= now,
    ensures
        ({
            let lines = compacted(screen_lines(g.live));
            let told = mirrored(l, lines);
            &&& pumped(told, g, Pump::Flush, now).1 matches Some(t) && t.tail is None
            &&& told == (Log { capture: Watch { tail: Some(lines), ..l.capture }, ..l })
        }),
{
}

/// Rows are counted while a session is transcribed, by how the parsing of each chunk moved
/// a view that was held on a row; no session, no count.
pub proof fn rows_are_counted_while_transcribed(
    l: Log,
    screen: Screen,
    begun: Seq<u8>,
    bytes: Seq<u8>,
)
    ensures
        !l.armed ==> counted(l, screen, begun, bytes) == l,
        l.armed ==> ({
            let before = screen::grid(screen);
            let probe = if before.history.len() == 0 {
                0
            } else if before.offset >= 1 {
                if before.offset <= before.history.len() {
                    before.offset
                } else {
                    before.history.len() as int
                }
            } else {
                1
            };
            let after = screen::grid(
                screen::parsed(screen::at_view(screen, probe), begun, bytes).0,
            );
            counted(l, screen, begun, bytes) == (Log {
                pushed: added(l.pushed, rows_pushed(before, after, l.cap)),
                ..l
            })
        }),
{
}

/// Where no committed row is kept to find the place by, the count of the rows pushed
/// tells how many are new once the history is full, as far as they are still there; below
/// its limit, or uncounted, how much it has grown does.
pub proof fn a_count_tells_how_many_are_new(c: Watch, history: Seq<Row>, n: usize)
    requires
        c.anchor.len() == 0,
        !c.catch_up,
    ensures
        history.len() >= c.cap ==> fresh_rows(c, history, Some(n)).0 == if n <= history.len() {
            n as int
        } else {
            history.len() as int
        },
        0 <= c.logged <= history.len() ==> fresh_rows(c, history, None).0 == history.len()
            - c.logged,
        history.len() < c.cap && 0 <= c.logged <= history.len() ==> fresh_rows(
            c,
            history,
            Some(n),
        ).0 == history.len() - c.logged,
        c.logged > history.len() ==> fresh_rows(c, history, None).0 == 0,
{
}

/// Rows that are not there to be found any more are a new beginning: the whole history is
/// committed, and the line that had begun is not gone on with. At a session's beginning
/// that is its newest five hundred rows.
pub proof fn a_lost_place_is_a_new_beginning(c: Watch, history: Seq<Row>)
    requires
        c.anchor.len() > 0,
        history.len() >= c.cap,
        forall|k: int| 0 <= k ==> !#[trigger] anchored(c.anchor, history, k),
    ensures
        !c.catch_up ==> fresh_rows(c, history, None) == (history.len() as int, false),
        c.catch_up ==> fresh_rows(c, history, None).0 == if history.len() <= 500 {
            history.len() as int
        } else {
            500
        } && !fresh_rows(c, history, None).1,
{
    lemma_no_shift(c.anchor, history, 0, history.len() - (c.anchor.len() - 1));
}

proof fn lemma_no_shift(anchor: Seq<Seq<char>>, history: Seq<Row>, from: int, to: int)
    requires
        0 <= from,
        forall|k: int| 0 <= k ==> !#[trigger] anchored(anchor, history, k),
    ensures
        first_shift(anchor, history, from, to) is None,
    decreases to - from,
{
    if from < to {
        assert(!anchored(anchor, history, from));
        lemma_no_shift(anchor, history, from + 1, to);
    }
}

/// A screen without rows has nothing to commit; a full-screen application's rows are not
/// counted.
pub proof fn nothing_is_committed_of_nothing(c: Watch, g: Grid, after: Grid, pushed: Option<usize>, cap: int)
    ensures
        g.live.len() == 0 ==> committed(c, g, pushed) == (c, Seq::<Seq<char>>::empty()),
        g.alternate || after.alternate ==> rows_pushed(g, after, cap) is None,
{
}

/// A session that begins looks at the history anew: nothing is counted yet, and what is
/// remembered of screens stays. One that cannot begin changes nothing.
pub proof fn a_session_begins_anew(l: Log, meta: Meta)
    ensures
        !l.armed && l.meta is None ==> ({
            let (b, number) = started(l, meta, true);
            &&& b.armed && b.meta == Some(meta) && b.pushed is None
            &&& b.capture == (Watch { catch_up: true, ..l.capture })
            &&& l.session < u64::MAX ==> b.session == l.session + 1
            &&& number == Some(b.session)
        }),
        started(l, meta, false) == (l, None::<u64>),
        l.meta is Some ==> started(l, meta, true) == (l, None::<u64>),
{
}

/// A session closed on the ordinary screen starts its count over; one closed on a full
/// screen leaves it.
pub proof fn a_close_starts_the_count_over(l: Log, g: Grid)
    requires
        l.meta is Some,
    ensures
        !g.alternate ==> closed(l, g).0.pushed == Some(0usize),
        g.alternate ==> closed(l, g).0.pushed == l.pushed,
        closed(l, g).0.meta is None,
        !g.alternate && g.live.len() > 0 ==> closed(l, g).0.capture.logged == g.history.len(),
{
}

/// The place is where the kept rows stand, right above the new ones; of several such
/// places it is the lowest. Then exactly the new rows are new, and the line begun goes on
/// in them. Kept rows that do not fit into the history are not there.
pub proof fn the_place_is_where_the_kept_rows_stand(
    c: Watch,
    above: Seq<Row>,
    kept: Seq<Row>,
    new: Seq<Row>,
)
    requires
        !c.catch_up,
        kept.len() > 0,
        c.anchor == screen::row_texts(kept),
        (above + kept + new).len() >= c.cap,
        forall|k: int|
            0 <= k < new.len() ==> screen::row_texts(
                #[trigger] (kept + new).subrange(new.len() - k, kept.len() + new.len() - k),
            ) != c.anchor,
    ensures
        fresh_rows(c, above + kept + new, None) == (new.len() as int, true),
        forall|short: Seq<Row>, k: int|
            0 <= k && short.len() < c.anchor.len() + k ==> !#[trigger] anchored(c.anchor, short, k),
{
    let history = above + kept + new;
    let both = kept + new;
    assert(anchored(c.anchor, history, new.len() as int));
    assert forall|k: int| 0 <= k < new.len() implies !#[trigger] anchored(c.anchor, history, k) by {
        if anchored(c.anchor, history, k) {
            let part = both.subrange(new.len() - k, kept.len() + new.len() - k);
            let first = history.len() - k - c.anchor.len();
            assert forall|i: int| 0 <= i < part.len() implies screen::row_texts(part)[i]
                == c.anchor[i] by {
                assert(part[i] == history[first + i]);
            }
            assert(screen::row_texts(part) =~= c.anchor);
        }
    }
    lemma_first_shift(
        c.anchor,
        history,
        0,
        history.len() - (c.anchor.len() - 1),
        new.len() as int,
    );
}

} // verus!
