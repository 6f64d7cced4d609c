//! The short texts drawn in the sidebar and the footer, sent to the host
//! terminal, or used to name a file.

use vstd::prelude::*;
use crate::base64;
use crate::stamp;
use crate::text;
use crate::text::{at, chars, copy, extend, find_at, is, push_chars, push_decimal, push_str, push_two, range, string, trimmed};

verus! {

// ── fitting a column ────────────────────────────────────────────────────────

/// Columns left of `width` after `pad` of them.
pub open spec fn room(width: u16, pad: u16) -> int {
    if width > pad {
        width - pad
    } else {
        0
    }
}

/// `s` cut from the front to `max` characters, an elided head marked with `…`.
pub open spec fn tail_cut(s: Seq<char>, max: int) -> Seq<char> {
    if max == 0 {
        Seq::empty()
    } else if s.len() > max {
        seq!['…'] + s.skip(s.len() + 1 - max)
    } else {
        s
    }
}

/// `s` cut from the back to `max` characters, an elided tail marked with `…`.
pub open spec fn head_cut(s: Seq<char>, max: int) -> Seq<char> {
    if max == 0 {
        Seq::empty()
    } else if s.len() > max {
        s.take(max - 1).push('…')
    } else {
        s
    }
}

/// Cutting a text again to the same width changes nothing.
pub proof fn cutting_twice_is_cutting_once(s: Seq<char>, max: int)
    requires
        max >= 0,
    ensures
        tail_cut(tail_cut(s, max), max) == tail_cut(s, max),
        head_cut(head_cut(s, max), max) == head_cut(s, max),
{
}

/// Tail-truncate `s` to the sidebar width, leaving `pad` columns for the border,
/// marker and indent; an elided head is marked with `…`. The result never
/// exceeds the budget — the `…` costs one of the kept columns.
pub fn truncate_tail(s: &str, width: u16, pad: u16) -> (t: String)
    ensures
        t@ == tail_cut(s@, room(width, pad)),
        t@.len() <= room(width, pad),
{
    let v: Vec<char> = chars(s);
    let max: usize = width.saturating_sub(pad) as usize;
    if max == 0 {
        String::new()
    } else if v.len() > max {
        let mut t: String = String::new();
        t.push('…');
        push_chars(&mut t, range(v.as_slice(), v.len() - (max - 1), v.len()));
        assert(t@ =~= tail_cut(s@, max as int));
        t
    } else {
        string(v.as_slice())
    }
}

/// Head-truncate `s` to the sidebar width, leaving `pad` columns for the prefix;
/// an elided tail is marked with a trailing `…`. Commands read from the front,
/// so — unlike a path — the head is what's kept.
pub fn truncate_head(s: &str, width: u16, pad: u16) -> (t: String)
    ensures
        t@ == head_cut(s@, room(width, pad)),
        t@.len() <= room(width, pad),
{
    let v: Vec<char> = chars(s);
    let max: usize = width.saturating_sub(pad) as usize;
    if max == 0 {
        String::new()
    } else if v.len() > max {
        let mut t: String = string(range(v.as_slice(), 0, max - 1));
        t.push('…');
        assert(t@ =~= head_cut(s@, max as int));
        t
    } else {
        string(v.as_slice())
    }
}

// ── footer labels ───────────────────────────────────────────────────────────

/// `m:ss`.
pub open spec fn clock_text(secs: nat) -> Seq<char> {
    text::decimal(secs / 60) + seq![':'] + stamp::two((secs % 60) as int)
}

/// `m:ss` for the footer countdown; `d` in nanoseconds.
pub fn clock(d: u64) -> (t: String)
    ensures
        t@ == clock_text((d / 1_000_000_000) as nat),
{
    let secs: u64 = d / 1_000_000_000;
    let mut t: String = String::new();
    push_decimal(&mut t, secs / 60);
    t.push(':');
    push_two(&mut t, secs % 60);
    assert(t@ =~= clock_text(secs as nat));
    t
}

/// A token count at footer size.
pub open spec fn tokens_text(n: nat) -> Seq<char> {
    if n < 1_000 {
        text::decimal(n)
    } else if n < 999_500 {
        text::decimal((n + 500) / 1_000).push('k')
    } else {
        let tenths = (n + 50_000) / 100_000;
        if tenths % 10 == 0 {
            text::decimal(tenths / 10).push('M')
        } else {
            text::decimal(tenths / 10) + seq!['.'] + text::decimal(tenths % 10) + seq!['M']
        }
    }
}

/// A token count at footer size: `999`, `12k`, `1M`, `1.5M`.
pub fn tokens(n: u64) -> (t: String)
    ensures
        t@ == tokens_text(n as nat),
{
    let mut t: String = String::new();
    if n < 1_000 {
        push_decimal(&mut t, n);
    } else if n < 999_500 {
        push_decimal(&mut t, (n + 500) / 1_000);
        t.push('k');
    } else {
        let tenths: u64 = ((n as u128 + 50_000) / 100_000) as u64;
        push_decimal(&mut t, tenths / 10);
        if tenths % 10 != 0 {
            t.push('.');
            push_decimal(&mut t, tenths % 10);
        }
        t.push('M');
    }
    assert(t@ =~= tokens_text(n as nat));
    t
}

/// Context usage of an agent's session: what the last answer was billed for as
/// input — that is the whole conversation as the model saw it — and the window
/// it has to fit in, when that is known.
#[derive(Clone, Copy, Debug, PartialEq, Eq, Structural)]
pub struct Context {
    pub used: u64,
    pub max: Option<u64>,
}

/// Whether at least `percent` of a known window is in use. A window of no
/// tokens counts as one of a single token.
pub open spec fn filled(context: Context, percent: int) -> bool {
    match context.max {
        Some(max) => 100 * context.used >= percent * if max >= 1 {
            max as int
        } else {
            1
        },
        None => false,
    }
}

impl Context {
    /// Is at least `percent` of a known window in use?
    pub fn at_least(&self, percent: u64) -> (r: bool)
        requires
            percent <= 100,
        ensures
            r == filled(*self, percent as int),
    {
        match self.max {
            Some(max) => {
                let max: u64 = if max >= 1 {
                    max
                } else {
                    1
                };
                let need: u128 = percent as u128;
                assert(need * max <= 100 * u64::MAX) by (nonlinear_arith)
                    requires
                        need <= 100,
                        max <= u64::MAX,
                ;
                100 * (self.used as u128) >= need * (max as u128)
            },
            None => false,
        }
    }
}

/// ` used/max`, ` used`, or nothing.
pub open spec fn context_text(context: Option<Context>) -> Seq<char> {
    match context {
        Some(c) => match c.max {
            Some(max) => seq![' '] + tokens_text(c.used as nat) + seq!['/'] + tokens_text(
                max as nat,
            ),
            None => seq![' '] + tokens_text(c.used as nat),
        },
        None => Seq::empty(),
    }
}

/// ` 120k/1M` — an agent's context usage for the footer, or nothing when it is
/// unknown. The window is left out when only the usage could be read.
pub fn context_label(context: Option<Context>) -> (t: String)
    ensures
        t@ == context_text(context),
{
    let mut t: String = String::new();
    if let Some(c) = context {
        t.push(' ');
        let used: String = tokens(c.used);
        push_str(&mut t, used.as_str());
        if let Some(max) = c.max {
            t.push('/');
            let max: String = tokens(max);
            push_str(&mut t, max.as_str());
        }
    }
    assert(t@ =~= context_text(context));
    t
}

/// Columns of the footer's copy-mode button.
pub const BUTTON_COLS: u16 = 10;

/// Columns of the version in the footer's right corner: a `v` before it and a
/// blank after it.
pub open spec fn version_cols() -> int {
    crate::VERSION@.len() as int + 2
}

/// The footer columns holding the copy-mode button.
pub open spec fn copy_button(width: u16) -> Option<(u16, u16)> {
    let to = width - version_cols();
    let from = to - BUTTON_COLS;
    if from > 0 {
        Some((from as u16, to as u16))
    } else {
        None
    }
}

/// Footer columns `[from, to)` holding the copy-mode button — flush left of the
/// version corner. `None` when the footer is too narrow to carry both, in which
/// case the button is neither drawn nor clickable.
pub fn copy_button_x(width: u16) -> (r: Option<(u16, u16)>)
    ensures
        r == copy_button(width),
{
    proof {
        reveal_strlit("0.4.0");
    }
    let version: u16 = 7;
    assert(version == version_cols());
    if width <= version + BUTTON_COLS {
        return None;
    }
    let to: u16 = width - version;
    Some((to - BUTTON_COLS, to))
}

/// Columns of a tab's `auto` button.
pub const AUTO_COLS: u16 = 8;

/// The columns of a tab's `auto` button on a sidebar `width` wide.
pub open spec fn auto_cols(width: u16) -> (int, int) {
    let end = if width > 0 { width - 1 } else { 0 };
    (if end > AUTO_COLS { end - AUTO_COLS } else { 0 }, end)
}

/// Clickable columns `[from, to)` of a tab's `auto` button: glued to the right
/// edge of the tab panel, just inside its border column — one fixed column for
/// every tab, whatever its name, star or unseen marker.
pub fn auto_span(width: u16) -> (r: (usize, usize))
    ensures
        (r.0 as int, r.1 as int) == auto_cols(width),
        r.0 <= r.1,
{
    // The border column is the panel's last one and is never the button's.
    let end: u16 = width.saturating_sub(1);
    (end.saturating_sub(AUTO_COLS) as usize, end as usize)
}

/// Cells of the lit segment of the activity bar.
pub const BAR_LEN: usize = 6;

/// Milliseconds the lit segment takes to move one cell.
pub const BAR_STEP: u64 = 40;

/// Where the segment's head is, one past its last lit cell.
pub open spec fn sweep_head(elapsed: int, cells: int) -> int {
    1 + (elapsed / 1_000_000 / BAR_STEP as int) % (cells + BAR_LEN - 1)
}

/// The cells `[from, to)` lit on a bar `cells` wide.
pub open spec fn lit(elapsed: int, cells: int) -> (int, int) {
    let head = sweep_head(elapsed, cells);
    (
        if head < BAR_LEN {
            0
        } else if head - BAR_LEN < cells {
            head - BAR_LEN
        } else {
            cells
        },
        if head < cells {
            head
        } else {
            cells
        },
    )
}

/// The segment sweeps along the bar: it is never dark nor longer than the segment,
/// starts as one cell at the left edge, moves one cell to the right with every step
/// until it has left the bar, begins anew, and repeats itself once it has.
pub proof fn the_segment_sweeps(elapsed: int, cells: int)
    requires
        elapsed >= 0,
        cells > 0,
    ensures
        ({
            let step = 1_000_000 * BAR_STEP as int;
            let (from, to) = lit(elapsed, cells);
            let (next_from, next_to) = lit(elapsed + step, cells);
            &&& 0 <= from < to <= cells
            &&& to - from <= BAR_LEN
            &&& (next_from, next_to) == (0int, 1int) || next_from >= from && next_to == (if to
                < cells {
                to + 1
            } else {
                cells
            })
            &&& lit(elapsed + step * (cells + BAR_LEN - 1), cells) == (from, to)
            &&& lit(0, cells) == (0int, 1int)
        }),
{
    let p = cells + BAR_LEN - 1;
    let n = elapsed / 1_000_000 / 40;
    assert((elapsed + 40_000_000) / 1_000_000 / 40 == n + 1);
    assert((elapsed + 40_000_000 * p) / 1_000_000 / 40 == n + p);
    vstd::arithmetic::div_mod::lemma_mod_add_multiples_vanish(n, p);
    vstd::arithmetic::div_mod::lemma_mod_bound(n, p);
    vstd::arithmetic::div_mod::lemma_small_mod(0, p as nat);
    let m = n % p;
    vstd::arithmetic::div_mod::lemma_add_mod_noop(n, 1, p);
    vstd::arithmetic::div_mod::lemma_small_mod(1, p as nat);
    assert((n + 1) % p == (m + 1) % p);
    if m + 1 < p {
        vstd::arithmetic::div_mod::lemma_small_mod((m + 1) as nat, p as nat);
    } else {
        vstd::arithmetic::div_mod::lemma_mod_self_0(p);
    }
}

/// Where the lit segment of an activity bar `cells` wide sits at `elapsed`
/// nanoseconds: the cell range `[from, to)` it covers. The segment enters from
/// the left, leaves to the right and comes round again; `BAR_LEN` cells long,
/// moving one cell per `BAR_STEP`, and never wholly off the bar — a busy tab
/// always shows at least one lit cell.
pub fn sweep(elapsed: u64, cells: usize) -> (r: (usize, usize))
    requires
        cells <= usize::MAX - BAR_LEN,
    ensures
        (r.0 as int, r.1 as int) == lit(elapsed as int, cells as int),
        cells > 0 ==> r.0 < r.1,
        r.0 <= r.1 <= cells,
{
    let step: u64 = elapsed / 1_000_000 / BAR_STEP;
    let head: usize = 1 + (step % (cells + BAR_LEN - 1) as u64) as usize;
    let from: usize = head.saturating_sub(BAR_LEN);
    (
        if from < cells {
            from
        } else {
            cells
        },
        if head < cells {
            head
        } else {
            cells
        },
    )
}

// ── pasted text ─────────────────────────────────────────────────────────────

/// `s` from `i` on with every `from` replaced by `to`, left to right.
pub open spec fn replaced_from(s: Seq<char>, from: Seq<char>, to: Seq<char>, i: int) -> Seq<char>
    decreases s.len() - i,
{
    match text::find_from(s, from, i) {
        Some(k) => if i <= k && k + from.len() <= s.len() && from.len() > 0 {
            s.subrange(i, k) + to + replaced_from(s, from, to, k + from.len())
        } else {
            s.skip(i)
        },
        None => s.skip(i),
    }
}

/// `s` with every `from` replaced by `to`.
pub open spec fn replaced(s: Seq<char>, from: Seq<char>, to: Seq<char>) -> Seq<char> {
    replaced_from(s, from, to, 0)
}

fn replace(s: &[char], from: &[char], to: &[char]) -> (t: Vec<char>)
    requires
        from@.len() > 0,
    ensures
        t@ == replaced(s@, from@, to@),
{
    let len: usize = s.len();
    let mut t: Vec<char> = Vec::new();
    let mut i: usize = 0;
    assert(t@ + replaced(s@, from@, to@) =~= replaced(s@, from@, to@));
    loop
        invariant
            i <= len == s@.len(),
            from@.len() > 0,
            t@ + replaced_from(s@, from@, to@, i as int) == replaced(s@, from@, to@),
        decreases s@.len() - i,
    {
        proof {
            text::lemma_find_from(s@, from@, i as int);
        }
        match find_at(s, from, i) {
            Some(k) => {
                let ghost was = t@;
                extend(&mut t, range(s, i, k));
                extend(&mut t, to);
                assert(t@ + replaced_from(s@, from@, to@, k + from@.len()) =~= was + replaced_from(
                    s@,
                    from@,
                    to@,
                    i as int,
                ));
                i = k + from.len();
            },
            None => {
                let ghost was = t@;
                extend(&mut t, range(s, i, len));
                assert(t@ =~= was + s@.skip(i as int));
                return t;
            },
        }
    }
}

/// What begins a bracketed paste.
pub const PASTE_START: &'static str = "\x1b[200~";

/// What ends a bracketed paste.
pub const PASTE_END: &'static str = "\x1b[201~";

/// Text without the paste markers in it.
pub open spec fn unmarked_once(s: Seq<char>) -> Seq<char> {
    replaced(replaced(s, PASTE_START@, Seq::empty()), PASTE_END@, Seq::empty())
}

/// Pasted text with no paste marker left in it: taking the markers out can bring the
/// two halves of another together, which goes too.
pub open spec fn unmarked(s: Seq<char>) -> Seq<char>
    decreases s.len(),
{
    let t = unmarked_once(s);
    if t.len() < s.len() {
        unmarked(t)
    } else {
        s
    }
}

/// Pasted text as a terminal types it.
pub open spec fn pasted(s: Seq<char>) -> Seq<char> {
    replaced(replaced(unmarked(s), seq!['\r', '\n'], seq!['\r']), seq!['\n'], seq!['\r'])
}

/// Text without paste markers, as often as it takes.
fn unmark(s: Vec<char>) -> (t: Vec<char>)
    ensures
        t@ == unmarked(s@),
{
    proof {
        reveal_strlit("\x1b[200~");
        reveal_strlit("\x1b[201~");
    }
    let start: Vec<char> = chars(PASTE_START);
    let end: Vec<char> = chars(PASTE_END);
    let none: Vec<char> = Vec::new();
    assert(none@ =~= Seq::empty());
    let ghost all = s@;
    let mut s: Vec<char> = s;
    loop
        invariant
            unmarked(s@) == unmarked(all),
            start@ == PASTE_START@,
            end@ == PASTE_END@,
            start@.len() > 0,
            end@.len() > 0,
            none@ == Seq::<char>::empty(),
        ensures
            s@ == unmarked(all),
        decreases s@.len(),
    {
        let t: Vec<char> = replace(s.as_slice(), start.as_slice(), none.as_slice());
        let t: Vec<char> = replace(t.as_slice(), end.as_slice(), none.as_slice());
        if t.len() >= s.len() {
            break;
        }
        s = t;
    }
    s
}

/// Pasted text as a terminal types it: line breaks become the CR an Enter
/// sends, and the paste markers are removed — an end marker inside the text
/// would end the bracketed paste early and run the rest as keystrokes.
pub fn paste_text(s: &str) -> (t: String)
    ensures
        t@ == pasted(s@),
        !text::has(t@, PASTE_START@),
        !text::has(t@, PASTE_END@),
        !t@.contains('\n'),
{
    let v: Vec<char> = unmark(chars(s));
    let crlf: Vec<char> = vec!['\r', '\n'];
    let cr: Vec<char> = vec!['\r'];
    let lf: Vec<char> = vec!['\n'];
    assert(crlf@ =~= seq!['\r', '\n']);
    assert(cr@ =~= seq!['\r']);
    assert(lf@ =~= seq!['\n']);
    let v: Vec<char> = replace(v.as_slice(), crlf.as_slice(), cr.as_slice());
    let v: Vec<char> = replace(v.as_slice(), lf.as_slice(), cr.as_slice());
    proof {
        a_paste_has_no_line_feed(s@);
        a_paste_holds_no_marker(s@);
    }
    string(v.as_slice())
}

/// Whether `c` is a line feed or a carriage return.
pub open spec fn line_break(c: char) -> bool {
    c == '\n' || c == '\r'
}

/// Whether no character of `s` is a line break.
pub open spec fn unbroken(s: Seq<char>) -> bool {
    forall|j: int| 0 <= j < s.len() ==> !line_break(#[trigger] s[j])
}

/// Whether every character of `s` is a line break.
pub open spec fn breaks(s: Seq<char>) -> bool {
    s.len() > 0 && forall|j: int| 0 <= j < s.len() ==> line_break(#[trigger] s[j])
}

proof fn lemma_break_keeps(s: Seq<char>, from: Seq<char>, m: Seq<char>, i: int, p: int) -> (q: int)
    requires
        breaks(from),
        unbroken(m),
        m.len() > 0,
        0 <= i <= p,
        text::stands_at(s, m, p),
    ensures
        text::stands_at(replaced_from(s, from, seq!['\r'], i), m, q),
    decreases s.len() - i,
{
    let to = seq!['\r'];
    let out = replaced_from(s, from, to, i);
    text::lemma_find_from(s, from, i);
    match text::find_from(s, from, i) {
        Some(k) => {
            let rest = replaced_from(s, from, to, k + from.len());
            assert(out == s.subrange(i, k) + to + rest);
            if p + m.len() <= k {
                assert(out.subrange(p - i, p - i + m.len()) =~= m) by {
                    assert forall|j: int| 0 <= j < m.len() implies out[p - i + j] == m[j] by {
                        assert(s.subrange(p, p + m.len())[j] == m[j]);
                    }
                }
                p - i
            } else if p >= k + from.len() {
                let q = lemma_break_keeps(s, from, m, k + from.len(), p);
                let at = k - i + 1 + q;
                assert(out.subrange(at, at + m.len()) =~= rest.subrange(q, q + m.len()));
                at
            } else {
                let t = if p > k { p } else { k };
                assert(s.subrange(p, p + m.len())[t - p] == m[t - p]);
                assert(s.subrange(k, k + from.len())[t - k] == from[t - k]);
                0
            }
        },
        None => {
            assert(out.subrange(p - i, p - i + m.len()) =~= s.subrange(p, p + m.len()));
            p - i
        },
    }
}

proof fn lemma_break_adds_none(s: Seq<char>, from: Seq<char>, m: Seq<char>, i: int, q: int) -> (p:
    int)
    requires
        breaks(from),
        unbroken(m),
        m.len() > 0,
        0 <= i <= s.len(),
        text::stands_at(replaced_from(s, from, seq!['\r'], i), m, q),
    ensures
        text::stands_at(s, m, p),
    decreases s.len() - i,
{
    let to = seq!['\r'];
    let out = replaced_from(s, from, to, i);
    text::lemma_find_from(s, from, i);
    match text::find_from(s, from, i) {
        Some(k) => {
            let rest = replaced_from(s, from, to, k + from.len());
            assert(out == s.subrange(i, k) + to + rest);
            if q + m.len() <= k - i {
                assert(s.subrange(q + i, q + i + m.len()) =~= out.subrange(q, q + m.len()));
                q + i
            } else if q >= k - i + 1 {
                let at = q - (k - i + 1);
                assert(rest.subrange(at, at + m.len()) =~= out.subrange(q, q + m.len()));
                lemma_break_adds_none(s, from, m, k + from.len(), at)
            } else {
                assert(out.subrange(q, q + m.len())[k - i - q] == m[k - i - q]);
                0
            }
        },
        None => {
            assert(s.subrange(q + i, q + i + m.len()) =~= out.subrange(q, q + m.len()));
            q + i
        },
    }
}

proof fn lemma_break_has(s: Seq<char>, from: Seq<char>, m: Seq<char>)
    requires
        breaks(from),
        unbroken(m),
        m.len() > 0,
    ensures
        text::has(replaced(s, from, seq!['\r']), m) <==> text::has(s, m),
{
    let out = replaced(s, from, seq!['\r']);
    text::lemma_find_from(s, m, 0);
    text::lemma_find_from(out, m, 0);
    if text::has(s, m) {
        let q = lemma_break_keeps(s, from, m, 0, text::find(s, m)->Some_0);
        assert(text::stands_at(out, m, q));
    }
    if text::has(out, m) {
        let p = lemma_break_adds_none(s, from, m, 0, text::find(out, m)->Some_0);
        assert(text::stands_at(s, m, p));
    }
}

proof fn lemma_no_feed(s: Seq<char>, i: int)
    requires
        0 <= i <= s.len(),
    ensures
        forall|j: int|
            0 <= j < replaced_from(s, seq!['\n'], seq!['\r'], i).len() ==> #[trigger] replaced_from(
                s,
                seq!['\n'],
                seq!['\r'],
                i,
            )[j] != '\n',
    decreases s.len() - i,
{
    let from = seq!['\n'];
    let to = seq!['\r'];
    let out = replaced_from(s, from, to, i);
    text::lemma_find_from(s, from, i);
    assert forall|j: int| i <= j < s.len() && !#[trigger] text::stands_at(s, from, j) implies s[j]
        != '\n' by {
        if s[j] == '\n' {
            assert(s.subrange(j, j + 1) =~= from);
        }
    }
    match text::find_from(s, from, i) {
        Some(k) => {
            lemma_no_feed(s, k + 1);
            let rest = replaced_from(s, from, to, k + 1);
            assert(out == s.subrange(i, k) + to + rest);
            assert forall|j: int| 0 <= j < out.len() implies #[trigger] out[j] != '\n' by {
                if j < k - i {
                    assert(!text::stands_at(s, from, i + j));
                } else if j > k - i {
                    assert(rest[j - (k - i) - 1] != '\n');
                }
            }
        },
        None => {
            assert forall|j: int| 0 <= j < out.len() implies #[trigger] out[j] != '\n' by {
                assert(!text::stands_at(s, from, i + j));
            }
        },
    }
}

/// What is pasted holds no line feed: every line break is the carriage return an
/// Enter sends.
pub proof fn a_paste_has_no_line_feed(s: Seq<char>)
    ensures
        forall|j: int| 0 <= j < pasted(s).len() ==> #[trigger] pasted(s)[j] != '\n',
{
    lemma_no_feed(replaced(unmarked(s), seq!['\r', '\n'], seq!['\r']), 0);
}

proof fn lemma_removed_len(s: Seq<char>, from: Seq<char>, i: int)
    requires
        0 <= i <= s.len(),
        from.len() > 0,
    ensures
        replaced_from(s, from, Seq::empty(), i).len() <= s.len() - i,
        text::find_from(s, from, i) is Some ==> replaced_from(s, from, Seq::empty(), i).len()
            < s.len() - i,
        text::find_from(s, from, i) is None ==> replaced_from(s, from, Seq::empty(), i) == s.skip(
            i,
        ),
    decreases s.len() - i,
{
    text::lemma_find_from(s, from, i);
    match text::find_from(s, from, i) {
        Some(k) => {
            lemma_removed_len(s, from, k + from.len());
        },
        None => {},
    }
}

proof fn lemma_unmarked(s: Seq<char>)
    ensures
        !text::has(unmarked(s), PASTE_START@),
        !text::has(unmarked(s), PASTE_END@),
    decreases s.len(),
{
    reveal_strlit("\x1b[200~");
    reveal_strlit("\x1b[201~");
    let t = unmarked_once(s);
    if t.len() < s.len() {
        lemma_unmarked(t);
    } else {
        let mid = replaced(s, PASTE_START@, Seq::empty());
        lemma_removed_len(s, PASTE_START@, 0);
        lemma_removed_len(mid, PASTE_END@, 0);
        assert(s.skip(0) =~= s);
        assert(mid.skip(0) =~= mid);
    }
}

/// A bracketed paste is never ended, nor begun again, from inside: there is no paste
/// marker in what is pasted, whatever the text.
pub proof fn a_paste_holds_no_marker(s: Seq<char>)
    ensures
        !text::has(pasted(s), PASTE_START@),
        !text::has(pasted(s), PASTE_END@),
{
    reveal_strlit("\x1b[200~");
    reveal_strlit("\x1b[201~");
    lemma_unmarked(s);
    let crlf = seq!['\r', '\n'];
    let mid = replaced(unmarked(s), crlf, seq!['\r']);
    lemma_break_has(unmarked(s), crlf, PASTE_START@);
    lemma_break_has(mid, seq!['\n'], PASTE_START@);
    lemma_break_has(unmarked(s), crlf, PASTE_END@);
    lemma_break_has(mid, seq!['\n'], PASTE_END@);
}

// ── paths ───────────────────────────────────────────────────────────────────

/// `a` and then `b` below it; an absolute `b` stands alone.
pub open spec fn joined(a: Seq<char>, b: Seq<char>) -> Seq<char> {
    if b.len() > 0 && b[0] == '/' {
        b
    } else if a.len() == 0 {
        b
    } else if a.last() == '/' {
        a + b
    } else {
        a + seq!['/'] + b
    }
}

/// The path of `b` below `a`; an absolute `b` stands alone.
pub fn join_path(a: &str, b: &str) -> (t: String)
    ensures
        t@ == joined(a@, b@),
{
    let av: Vec<char> = chars(a);
    let bv: Vec<char> = chars(b);
    if bv.len() > 0 && bv[0] == '/' {
        return string(bv.as_slice());
    }
    let mut t: String = string(av.as_slice());
    if av.len() > 0 && av[av.len() - 1] != '/' {
        t.push('/');
    }
    push_chars(&mut t, bv.as_slice());
    assert(t@ =~= joined(a@, b@));
    t
}

/// `p` without trailing slashes and trailing `.` components.
pub open spec fn bare_path(p: Seq<char>) -> Seq<char>
    decreases p.len(),
{
    if p.len() > 0 && p.last() == '/' {
        bare_path(p.drop_last())
    } else if p.len() > 1 && p.last() == '.' && p[p.len() - 2] == '/' {
        bare_path(p.drop_last())
    } else {
        p
    }
}

/// What follows the last `/` of `p`.
pub open spec fn last_component(p: Seq<char>) -> Seq<char>
    decreases p.len(),
{
    if p.len() == 0 || p.last() == '/' {
        Seq::empty()
    } else {
        last_component(p.drop_last()).push(p.last())
    }
}

/// The final component of a path, or the whole of it when it ends in none.
pub open spec fn folder(p: Seq<char>) -> Seq<char> {
    let name = last_component(bare_path(p));
    if name.len() == 0 || name == seq!['.'] || name == seq!['.', '.'] {
        p
    } else {
        name
    }
}

proof fn lemma_last_component(p: Seq<char>, i: int)
    requires
        0 <= i <= p.len(),
        i > 0 ==> p[i - 1] == '/',
        forall|k: int| i <= k < p.len() ==> p[k] != '/',
    ensures
        last_component(p) == p.skip(i),
    decreases p.len(),
{
    if i < p.len() {
        lemma_last_component(p.drop_last(), i);
        assert(p.drop_last().skip(i).push(p.last()) =~= p.skip(i));
    } else {
        assert(p.skip(i) =~= Seq::empty());
    }
}

/// Final path component (the current folder); root-style paths show as-is.
pub fn folder_name(p: &str) -> (t: String)
    ensures
        t@ == folder(p@),
{
    let v: Vec<char> = chars(p);
    let mut n: usize = v.len();
    assert(v@.take(n as int) =~= v@);
    while n > 0 && (v[n - 1] == '/' || (n > 1 && v[n - 1] == '.' && v[n - 2] == '/'))
        invariant
            n <= v@.len(),
            bare_path(v@.take(n as int)) == bare_path(v@),
        decreases n,
    {
        assert(v@.take(n as int).drop_last() =~= v@.take(n - 1));
        n -= 1;
    }
    let ghost bare = v@.take(n as int);
    assert(bare_path(bare) == bare);
    let mut i: usize = n;
    while i > 0 && v[i - 1] != '/'
        invariant
            i <= n <= v@.len(),
            bare == v@.take(n as int),
            forall|k: int| i <= k < n ==> bare[k] != '/',
        decreases i,
    {
        i -= 1;
    }
    proof {
        lemma_last_component(bare, i as int);
    }
    let name: &[char] = range(v.as_slice(), i, n);
    assert(name@ =~= bare.skip(i as int));
    let dot: bool = name.len() == 1 && name[0] == '.';
    let dots: bool = name.len() == 2 && name[0] == '.' && name[1] == '.';
    assert(dot == (name@ =~= seq!['.']));
    assert(dots == (name@ =~= seq!['.', '.']));
    if name.len() == 0 || dot || dots {
        string(v.as_slice())
    } else {
        string(name)
    }
}

/// `path` with a leading `~` standing for `home`.
pub open spec fn home_expanded(path: Seq<char>, home: Option<Seq<char>>) -> Seq<char> {
    if home is Some && path.len() > 0 && path[0] == '~' && (path.len() == 1 || path[1] == '/') {
        home->Some_0 + path.skip(1)
    } else {
        path
    }
}

/// The text of an optional borrowed string.
pub open spec fn opt_str(s: Option<&str>) -> Option<Seq<char>> {
    match s {
        Some(s) => Some(s@),
        None => None,
    }
}

/// `path` with a leading `~` (alone, or before a `/`) replaced by `home`.
pub fn expand_home(path: &str, home: Option<&str>) -> (t: String)
    ensures
        t@ == home_expanded(path@, opt_str(home)),
{
    let v: Vec<char> = chars(path);
    if let Some(home) = home {
        if v.len() > 0 && v[0] == '~' && (v.len() == 1 || v[1] == '/') {
            let mut t: String = copy(home);
            push_chars(&mut t, range(v.as_slice(), 1, v.len()));
            assert(v@.subrange(1, v@.len() as int) =~= v@.skip(1));
            return t;
        }
    }
    string(v.as_slice())
}

/// `path` with `home` at its front shortened to `~`.
pub open spec fn home_abbreviated(path: Seq<char>, home: Option<Seq<char>>) -> Seq<char> {
    match home {
        Some(home) => if path == home || (text::starts(path, home) && path.len() > home.len()
            && path[home.len() as int] == '/') {
            seq!['~'] + path.skip(home.len() as int)
        } else {
            path
        },
        None => path,
    }
}

/// `path` with an exact `home`, or one bounded by a `/`, shortened to `~` — a
/// bare prefix match would fold a sibling like `/home/devops` into `~ops`.
pub fn abbreviate_home(path: &str, home: Option<&str>) -> (t: String)
    ensures
        t@ == home_abbreviated(path@, opt_str(home)),
{
    let v: Vec<char> = chars(path);
    if let Some(home) = home {
        let h: Vec<char> = chars(home);
        if at(v.as_slice(), h.as_slice(), 0) && (v.len() == h.len() || v[h.len()] == '/') {
            assert(v@.len() == h@.len() ==> v@ =~= v@.subrange(0, h@.len() as int));
            let mut t: String = String::new();
            t.push('~');
            push_chars(&mut t, range(v.as_slice(), h.len(), v.len()));
            assert(t@ =~= seq!['~'] + v@.skip(h@.len() as int));
            return t;
        }
        assert(v@ == h@ ==> v@.subrange(0, h@.len() as int) =~= h@);
    }
    string(v.as_slice())
}

/// `{base}/ricon/{name}` below the first of `xdg` and `home`'s `local` folder
/// that is set.
pub open spec fn ricon_path(
    xdg: Option<Seq<char>>,
    home: Option<Seq<char>>,
    local: Seq<char>,
    name: Seq<char>,
) -> Option<Seq<char>> {
    let base = match xdg {
        Some(xdg) => Some(xdg),
        None => match home {
            Some(home) => Some(joined(home, local)),
            None => None,
        },
    };
    match base {
        Some(base) => Some(joined(joined(base, "ricon"@), name)),
        None => None,
    }
}

fn below_ricon(xdg: Option<&str>, home: Option<&str>, local: &str, name: &str) -> (t: Option<String>)
    ensures
        text::opt(t) == ricon_path(opt_str(xdg), opt_str(home), local@, name@),
{
    let base: String = match xdg {
        Some(xdg) => copy(xdg),
        None => match home {
            Some(home) => join_path(home, local),
            None => {
                return None;
            },
        },
    };
    let base: String = join_path(base.as_str(), "ricon");
    Some(join_path(base.as_str(), name))
}

/// The session file: `$XDG_STATE_HOME` (or `~/.local/state`) `/ricon/session`.
pub fn session_path(xdg_state: Option<&str>, home: Option<&str>) -> (t: Option<String>)
    ensures
        text::opt(t) == ricon_path(
            opt_str(xdg_state),
            opt_str(home),
            ".local/state"@,
            "session"@,
        ),
{
    below_ricon(xdg_state, home, ".local/state", "session")
}

/// The user-wide continue text: `$XDG_CONFIG_HOME` (or `~/.config`)
/// `/ricon/auto.md`.
pub fn global_auto_file(xdg_config: Option<&str>, home: Option<&str>) -> (t: Option<String>)
    ensures
        text::opt(t) == ricon_path(opt_str(xdg_config), opt_str(home), ".config"@, "auto.md"@),
{
    below_ricon(xdg_config, home, ".config", "auto.md")
}

/// Whether a setting of the transcript directory turns transcripts off.
pub open spec fn switched_off(value: Seq<char>) -> bool {
    value == ""@ || value == "0"@ || value == "off"@ || value == "no"@ || value == "false"@
}

/// Where transcripts are written.
pub open spec fn transcripts(
    setting: Option<Seq<char>>,
    xdg_data: Option<Seq<char>>,
    home: Option<Seq<char>>,
) -> Option<Seq<char>> {
    match setting {
        Some(value) => if switched_off(text::trim(value)) {
            None
        } else {
            Some(home_expanded(text::trim(value), home))
        },
        None => ricon_path(xdg_data, home, ".local/share"@, "sessions"@),
    }
}

/// Where transcripts are written: `setting` when it names a directory, nowhere
/// when it is `off`/`0`/`no`/`false`/empty, and otherwise `$XDG_DATA_HOME` (or
/// `~/.local/share`) `/ricon/sessions`.
pub fn transcript_dir(setting: Option<&str>, xdg_data: Option<&str>, home: Option<&str>) -> (t:
    Option<String>)
    ensures
        text::opt(t) == transcripts(opt_str(setting), opt_str(xdg_data), opt_str(home)),
{
    match setting {
        Some(value) => {
            let v: Vec<char> = chars(value);
            let v: &[char] = trimmed(v.as_slice());
            if is(v, "") || is(v, "0") || is(v, "off") || is(v, "no") || is(v, "false") {
                None
            } else {
                let value: String = string(v);
                Some(expand_home(value.as_str(), home))
            }
        },
        None => below_ricon(xdg_data, home, ".local/share", "sessions"),
    }
}

/// Longest client or folder name carried into a file name.
pub const NAME_PART: usize = 64;

/// A character that is safe in a file name.
pub open spec fn tame_char(c: char) -> char {
    if ('a' <= c <= 'z') || ('A' <= c <= 'Z') || ('0' <= c <= '9') || c == '-' || c == '_' || c
        == '.' {
        c
    } else {
        '_'
    }
}

/// `s` as part of a file name.
pub open spec fn tamed(s: Seq<char>) -> Seq<char> {
    if s.len() == 0 {
        "shell"@
    } else {
        s.take(
            if s.len() < NAME_PART {
                s.len() as int
            } else {
                NAME_PART as int
            },
        ).map_values(|c: char| tame_char(c))
    }
}

/// `s` reduced to characters that are safe in a file name, and short enough to
/// leave room for the rest of it.
pub fn tame(s: &str) -> (t: String)
    ensures
        t@ == tamed(s@),
{
    let v: Vec<char> = chars(s);
    if v.len() == 0 {
        return copy("shell");
    }
    let n: usize = if v.len() < NAME_PART {
        v.len()
    } else {
        NAME_PART
    };
    let mut t: String = String::new();
    let mut i: usize = 0;
    while i < n
        invariant
            i <= n <= v@.len(),
            t@ == v@.take(i as int).map_values(|c: char| tame_char(c)),
        decreases n - i,
    {
        let c: char = v[i];
        let safe: bool = ('a' <= c && c <= 'z') || ('A' <= c && c <= 'Z') || ('0' <= c && c <= '9')
            || c == '-' || c == '_' || c == '.';
        t.push(
            if safe {
                c
            } else {
                '_'
            },
        );
        i += 1;
        assert(t@ =~= v@.take(i as int).map_values(|c: char| tame_char(c)));
    }
    t
}

// ── shells ──────────────────────────────────────────────────────────────────

/// The shells whose typed command lines are captured.
pub open spec fn known_shell(s: Seq<char>) -> bool {
    ||| s == "sh"@ || s == "bash"@ || s == "zsh"@ || s == "fish"@ || s == "dash"@ || s == "ksh"@
    ||| s == "mksh"@ || s == "tcsh"@ || s == "csh"@ || s == "ash"@ || s == "nu"@ || s == "elvish"@
    ||| s == "xonsh"@
}

/// A process name without its path and a login shell's `-`.
pub open spec fn program(comm: Seq<char>) -> Seq<char> {
    let name = last_component(comm);
    if name.len() > 0 && name[0] == '-' {
        name.skip(1)
    } else {
        name
    }
}

/// Whether a process name is a shell's.
pub open spec fn shell_process(comm: Seq<char>) -> bool {
    known_shell(program(comm))
}

/// Is `comm` (a process name, possibly a login shell's leading `-`) a shell
/// whose prompt input should be tracked?
pub fn is_shell(comm: &str) -> (r: bool)
    ensures
        r == shell_process(comm@),
{
    let v: Vec<char> = chars(comm);
    let mut i: usize = v.len();
    while i > 0 && v[i - 1] != '/'
        invariant
            i <= v@.len(),
            forall|k: int| i <= k < v@.len() ==> v@[k] != '/',
        decreases i,
    {
        i -= 1;
    }
    proof {
        lemma_last_component(v@, i as int);
    }
    let from: usize = if i < v.len() && v[i] == '-' {
        i + 1
    } else {
        i
    };
    let s: &[char] = range(v.as_slice(), from, v.len());
    assert(s@ =~= program(comm@));
    is(s, "sh") || is(s, "bash") || is(s, "zsh") || is(s, "fish") || is(s, "dash") || is(s, "ksh")
        || is(s, "mksh") || is(s, "tcsh") || is(s, "csh") || is(s, "ash") || is(s, "nu") || is(
        s,
        "elvish",
    ) || is(s, "xonsh")
}

// ── the auto feature's own words ────────────────────────────────────────────

/// What is typed after a compaction when no file says otherwise.
pub const DEFAULT_CONTINUE: &'static str = "continue";

/// The text of the first file that says anything.
pub open spec fn continued(project: Option<Seq<char>>, global: Option<Seq<char>>) -> Seq<char> {
    if project is Some && text::trim(project->Some_0).len() > 0 {
        text::trim(project->Some_0)
    } else if global is Some && text::trim(global->Some_0).len() > 0 {
        text::trim(global->Some_0)
    } else {
        DEFAULT_CONTINUE@
    }
}

/// What the auto feature types after a compaction: the text of the project's own
/// file, else of the user-wide one, whichever exists and says anything first;
/// else the plain word `continue`. Surrounding blank lines are dropped; the rest
/// is typed as it is, line breaks included.
pub fn continue_text(project: Option<&str>, global: Option<&str>) -> (t: String)
    ensures
        t@ == continued(opt_str(project), opt_str(global)),
{
    if let Some(file) = project {
        let v: Vec<char> = chars(file);
        let v: &[char] = trimmed(v.as_slice());
        if v.len() > 0 {
            return string(v);
        }
    }
    if let Some(file) = global {
        let v: Vec<char> = chars(file);
        let v: &[char] = trimmed(v.as_slice());
        if v.len() > 0 {
            return string(v);
        }
    }
    copy(DEFAULT_CONTINUE)
}

/// What an idle agent is announced with.
pub open spec fn notice_body(agent: Seq<char>, place: Seq<char>) -> Seq<char> {
    agent + " in "@ + place + " is waiting for you"@
}

/// The desktop ping for an idle agent.
pub open spec fn notice(agent: Seq<char>, place: Seq<char>) -> Seq<char> {
    let body = notice_body(agent, place);
    "\x07\x1b]9;ricon: "@ + body + "\x07\x1b]777;notify;ricon;"@ + body
        + "\x07\x1b]99;i=1:p=title;ricon\x1b\\\x1b]99;i=1:p=body;"@ + body + "\x1b\\"@
}

/// The desktop ping for an idle agent: a bell, then the notification sequences
/// the host terminals speak — OSC 9, OSC 777 and OSC 99. A terminal ignores the
/// ones it does not know, so all go out.
pub fn idle_notice(agent: &str, place: &str) -> (t: String)
    ensures
        t@ == notice(agent@, place@),
{
    let mut body: String = copy(agent);
    push_str(&mut body, " in ");
    push_str(&mut body, place);
    push_str(&mut body, " is waiting for you");
    let mut t: String = String::new();
    push_str(&mut t, "\x07\x1b]9;ricon: ");
    push_str(&mut t, body.as_str());
    push_str(&mut t, "\x07\x1b]777;notify;ricon;");
    push_str(&mut t, body.as_str());
    push_str(&mut t, "\x07\x1b]99;i=1:p=title;ricon\x1b\\\x1b]99;i=1:p=body;");
    push_str(&mut t, body.as_str());
    push_str(&mut t, "\x1b\\");
    assert(t@ =~= notice(agent@, place@));
    t
}

/// The sequence that puts `s` on the host terminal's clipboard.
pub open spec fn osc52(s: Seq<char>) -> Seq<char> {
    "\x1b]52;c;"@ + base64::encoded(vstd::utf8::encode_utf8(s)) + "\x07"@
}

/// The OSC 52 sequence that puts `s` on the host terminal's clipboard.
pub fn copy_osc52(s: &str) -> (t: String)
    ensures
        t@ == osc52(s@),
{
    let mut t: String = copy("\x1b]52;c;");
    let data: String = base64::base64(s.as_bytes());
    push_str(&mut t, data.as_str());
    push_str(&mut t, "\x07");
    t
}

// ── what labels say ─────────────────────────────────────────────────────────

/// A text that fits is shown whole; a longer one takes exactly the room there is, with
/// an ellipsis in place of what is left out: the front of it, or its end.
pub proof fn a_cut_text_takes_the_room_there_is(s: Seq<char>, max: int)
    requires
        max > 0,
    ensures
        s.len() <= max ==> tail_cut(s, max) == s && head_cut(s, max) == s,
        s.len() > max ==> {
            &&& tail_cut(s, max).len() == max && head_cut(s, max).len() == max
            &&& tail_cut(s, max)[0] == '…' && head_cut(s, max).last() == '…'
            &&& tail_cut(s, max).skip(1) == s.skip(s.len() - (max - 1))
            &&& head_cut(s, max).drop_last() == s.take(max - 1)
        },
        tail_cut(s, 0).len() == 0 && head_cut(s, 0).len() == 0,
{
    if s.len() > max {
        assert(tail_cut(s, max).skip(1) =~= s.skip(s.len() - (max - 1)));
        assert(head_cut(s, max).drop_last() =~= s.take(max - 1));
    }
}

/// A clock shows minutes and, in two digits, the seconds left over.
pub proof fn a_clock_shows_minutes_and_seconds(minutes: nat, seconds: int)
    requires
        0 <= seconds < 60,
    ensures
        clock_text((60 * minutes + seconds) as nat) == text::decimal(minutes) + seq![
            ':',
            (48 + seconds / 10) as char,
            (48 + seconds % 10) as char,
        ],
{
    let n = (60 * minutes + seconds) as nat;
    assert(n / 60 == minutes && n % 60 == seconds) by (nonlinear_arith)
        requires
            n == 60 * minutes + seconds,
            0 <= seconds < 60,
    ;
    stamp::two_digits_are_shown(seconds);
    assert(clock_text(n) =~= text::decimal(minutes) + seq![
        ':',
        (48 + seconds / 10) as char,
        (48 + seconds % 10) as char,
    ]);
}

/// Tokens are counted in full below a thousand, then in thousands, then in millions with
/// one digit behind the point where it is not zero — each to the nearest.
pub proof fn tokens_are_rounded_to_the_nearest(n: nat, k: nat)
    ensures
        n < 1_000 ==> tokens_text(n) == text::decimal(n),
        1_000 <= n < 999_500 && 1_000 * k <= n + 500 < 1_000 * (k + 1) ==> tokens_text(n)
            == text::decimal(k) + seq!['k'],
        999_500 <= n && 1_000_000 * k <= n + 50_000 < 1_000_000 * k + 100_000 ==> tokens_text(n)
            == text::decimal(k) + seq!['M'],
{
    if 1_000 <= n < 999_500 && 1_000 * k <= n + 500 < 1_000 * (k + 1) {
        assert((n + 500) / 1_000 == k);
        assert(text::decimal(k).push('k') =~= text::decimal(k) + seq!['k']);
    }
    if 999_500 <= n && 1_000_000 * k <= n + 50_000 < 1_000_000 * k + 100_000 {
        assert((n + 50_000) / 100_000 == 10 * k);
        assert(text::decimal(k).push('M') =~= text::decimal(k) + seq!['M']);
    }
}

/// Between two full millions the nearest tenth is shown.
pub proof fn tenths_of_millions_are_shown(n: nat, k: nat, tenth: nat)
    requires
        999_500 <= n,
        1 <= tenth <= 9,
        1_000_000 * k + 100_000 * tenth <= n + 50_000 < 1_000_000 * k + 100_000 * (tenth + 1),
    ensures
        tokens_text(n) == text::decimal(k) + seq!['.', (48 + tenth) as char, 'M'],
{
    assert((n + 50_000) / 100_000 == 10 * k + tenth);
    assert(text::decimal(tenth) =~= seq![(48 + tenth) as char]);
    assert(tokens_text(n) =~= text::decimal(k) + seq!['.', (48 + tenth) as char, 'M']);
}

/// A context is filled to so many percent when what is used makes them up; one whose
/// size is not known is not filled.
pub proof fn a_context_fills_by_what_is_used(used: u64, max: u64, percent: int)
    requires
        max > 0,
    ensures
        filled(Context { used, max: Some(max) }, percent) <==> 100 * used >= percent * max,
        !filled(Context { used, max: None }, percent),
{
}

/// A context is shown as what is used of how much, or as what is used alone.
pub proof fn a_context_is_used_of_how_much(used: u64, max: u64)
    ensures
        context_text(Some(Context { used, max: Some(max) })) == seq![' '] + tokens_text(
            used as nat,
        ) + seq!['/'] + tokens_text(max as nat),
        context_text(Some(Context { used, max: None })) == seq![' '] + tokens_text(used as nat),
        context_text(None).len() == 0,
{
}

/// The copy button takes ten columns, right in front of the version at the right edge,
/// and there is one when a column is left in front of it.
pub proof fn the_copy_button_stands_before_the_version(width: u16)
    ensures
        copy_button(width) matches Some((from, to)) ==> 0 < from && to - from == 10 && to
            + crate::VERSION@.len() + 2 == width,
        copy_button(width) is None <==> width <= crate::VERSION@.len() + 12,
{
}

/// The auto button takes eight columns, one short of the sidebar's edge.
pub proof fn the_auto_button_stands_at_the_edge(width: u16)
    requires
        width >= 9,
    ensures
        auto_cols(width) == (width - 9, width - 1),
{
}

/// The lit segment of the bar is six cells long, and moves every twenty-fifth of a
/// second: after `k` steps its head is on the cell `k`, as far as there are cells.
pub proof fn the_segment_is_six_cells(elapsed: int, k: int, cells: int)
    requires
        cells > 0,
        0 <= k < cells + 5,
        40_000_000 * k <= elapsed < 40_000_000 * (k + 1),
    ensures
        ({
            let (from, to) = lit(elapsed, cells);
            &&& to == if k + 1 <= cells {
                k + 1
            } else {
                cells
            }
            &&& from == if k + 1 >= 6 {
                k + 1 - 6
            } else {
                0
            }
        }),
{
    let n = cells + 5;
    assert(elapsed / 1_000_000 / 40 == k);
    assert(k % n == k) by (nonlinear_arith)
        requires
            0 <= k < n,
    ;
}

// ── what is made of a text ──────────────────────────────────────────────────

proof fn lemma_find_prefix(p: Seq<char>, b: Seq<char>, needle: Seq<char>, i: int)
    requires
        0 <= i <= p.len(),
        text::none_before(p + b, needle, p.len() as int),
    ensures
        text::find_from(p + b, needle, i) == text::find_from(p + b, needle, p.len() as int),
    decreases p.len() - i,
{
    if i < p.len() {
        assert(!text::stands_at(p + b, needle, i));
        if i + needle.len() <= (p + b).len() {
            lemma_find_prefix(p, b, needle, i + 1);
        }
    }
}

proof fn lemma_replaced_moved(p: Seq<char>, b: Seq<char>, from: Seq<char>, to: Seq<char>, i: int)
    requires
        0 <= i <= b.len(),
    ensures
        replaced_from(p + b, from, to, p.len() + i) == replaced_from(b, from, to, i),
    decreases b.len() - i,
{
    text::lemma_find_moved(p, b, from, i);
    text::lemma_find_from(b, from, i);
    assert((p + b).skip(p.len() + i) =~= b.skip(i));
    match text::find_from(b, from, i) {
        Some(k) => {
            if from.len() > 0 {
                assert((p + b).subrange(p.len() + i, p.len() + k) =~= b.subrange(i, k));
                lemma_replaced_moved(p, b, from, to, k + from.len());
            }
        },
        None => {},
    }
}

/// What stands in front of the first occurrence stays as it is.
pub proof fn text_in_front_is_left_alone(
    p: Seq<char>,
    b: Seq<char>,
    from: Seq<char>,
    to: Seq<char>,
)
    requires
        from.len() > 0,
        text::none_before(p + b, from, p.len() as int),
    ensures
        replaced(p + b, from, to) == p + replaced(b, from, to),
{
    lemma_find_prefix(p, b, from, 0);
    text::lemma_find_moved(p, b, from, 0);
    text::lemma_find_from(b, from, 0);
    match text::find_from(b, from, 0) {
        Some(k) => {
            lemma_replaced_moved(p, b, from, to, k + from.len());
            assert((p + b).subrange(0, p.len() + k) =~= p + b.subrange(0, k));
            assert(p + (b.subrange(0, k) + to + replaced_from(b, from, to, k + from.len()))
                =~= (p + b.subrange(0, k)) + to + replaced_from(b, from, to, k + from.len()));
        },
        None => {
            assert((p + b).skip(0) =~= p + b.skip(0));
        },
    }
}

/// An occurrence is replaced, and then what stands behind it.
pub proof fn every_occurrence_is_replaced(b: Seq<char>, from: Seq<char>, to: Seq<char>)
    requires
        from.len() > 0,
    ensures
        replaced(from + b, from, to) == to + replaced(b, from, to),
        replaced(Seq::empty(), from, to) == Seq::<char>::empty(),
{
    let s = from + b;
    assert(s.subrange(0, from.len() as int) =~= from);
    assert(text::stands_at(s, from, 0));
    lemma_replaced_moved(from, b, from, to, 0);
    assert(s.subrange(0, 0) + to =~= to);
    assert(Seq::<char>::empty().skip(0) =~= Seq::<char>::empty());
}

proof fn lemma_no_escape(s: Seq<char>)
    requires
        !s.contains('\u{1b}'),
    ensures
        unmarked(s) == s,
{
    reveal_strlit("\x1b[200~");
    reveal_strlit("\x1b[201~");
    let none = Seq::<char>::empty();
    lemma_not_found(s, PASTE_START@, '\u{1b}');
    assert(replaced(s, PASTE_START@, none) =~= s);
    lemma_not_found(s, PASTE_END@, '\u{1b}');
    assert(replaced(s, PASTE_END@, none) =~= s);
}

proof fn lemma_not_found(s: Seq<char>, needle: Seq<char>, c: char)
    requires
        !s.contains(c),
        needle.len() > 0,
        needle[0] == c,
    ensures
        text::find(s, needle) is None,
        forall|to: Seq<char>| #[trigger] replaced(s, needle, to) == s,
        forall|i: int| !#[trigger] text::stands_at(s, needle, i),
{
    assert forall|i: int| !#[trigger] text::stands_at(s, needle, i) by {
        if text::stands_at(s, needle, i) {
            assert(s.subrange(i, i + needle.len())[0] == s[i]);
            assert(s.contains(s[i]));
        }
    }
    text::lemma_find_from(s, needle, 0);
    assert(s.skip(0) =~= s);
}

/// A text is pasted as it is, but for its line ends: each of them, a line feed with or
/// without a carriage return in front, is the one carriage return that Enter sends.
pub proof fn a_paste_ends_lines_with_returns(line: Seq<char>, rest: Seq<char>)
    requires
        !line.contains('\n'),
        !line.contains('\r'),
        !line.contains('\u{1b}'),
        !rest.contains('\u{1b}'),
    ensures
        pasted(line) == line,
        pasted(line + seq!['\n'] + rest) == line + seq!['\r'] + pasted(rest),
        pasted(line + seq!['\r', '\n'] + rest) == line + seq!['\r'] + pasted(rest),
{
    let crlf = seq!['\r', '\n'];
    let lf = seq!['\n'];
    let cr = seq!['\r'];
    let one = line + lf + rest;
    let two = line + crlf + rest;
    lemma_no_escape(line);
    lemma_no_escape(rest);
    assert(!one.contains('\u{1b}')) by {
        if one.contains('\u{1b}') {
            let i = choose|i: int| 0 <= i < one.len() && one[i] == '\u{1b}';
            if i < line.len() {
                assert(line[i] == one[i]);
            } else if i > line.len() {
                assert(rest[i - line.len() - 1] == one[i]);
            }
        }
    }
    assert(!two.contains('\u{1b}')) by {
        if two.contains('\u{1b}') {
            let i = choose|i: int| 0 <= i < two.len() && two[i] == '\u{1b}';
            if i < line.len() {
                assert(line[i] == two[i]);
            } else if i > line.len() + 1 {
                assert(rest[i - line.len() - 2] == two[i]);
            }
        }
    }
    lemma_no_escape(one);
    lemma_no_escape(two);
    lemma_not_found(line, crlf, '\r');
    lemma_not_found(line, lf, '\n');
    let left = replaced(rest, crlf, cr);
    assert forall|i: int| 0 <= i < line.len() implies line[i] != '\r' && line[i] != '\n' by {
        assert(line.contains(line[i]));
    }
    // A line feed alone is no pair.
    let p = line + lf;
    assert(p + rest =~= one);
    assert(text::none_before(one, crlf, p.len() as int)) by {
        assert forall|i: int| 0 <= i < p.len() implies !#[trigger] text::stands_at(one, crlf, i) by {
            if text::stands_at(one, crlf, i) {
                assert(one.subrange(i, i + 2)[0] == one[i]);
            }
        }
    }
    text_in_front_is_left_alone(p, rest, crlf, cr);
    // A pair is one.
    assert(line + (crlf + rest) =~= two);
    assert(text::none_before(two, crlf, line.len() as int)) by {
        assert forall|i: int| 0 <= i < line.len() implies !#[trigger] text::stands_at(
            two,
            crlf,
            i,
        ) by {
            if text::stands_at(two, crlf, i) {
                assert(two.subrange(i, i + 2)[0] == two[i]);
            }
        }
    }
    text_in_front_is_left_alone(line, crlf + rest, crlf, cr);
    every_occurrence_is_replaced(rest, crlf, cr);
    // What is left of line feeds.
    let first = line + (lf + left);
    assert(p + left =~= first);
    assert(text::none_before(first, lf, line.len() as int)) by {
        assert forall|i: int| 0 <= i < line.len() implies !#[trigger] text::stands_at(first, lf, i) by {
            if text::stands_at(first, lf, i) {
                assert(first.subrange(i, i + 1)[0] == first[i]);
            }
        }
    }
    text_in_front_is_left_alone(line, lf + left, lf, cr);
    every_occurrence_is_replaced(left, lf, cr);
    assert(line + (cr + replaced(left, lf, cr)) =~= line + cr + replaced(left, lf, cr));
    let q = line + cr;
    let second = q + left;
    assert(line + (cr + left) =~= second);
    assert(text::none_before(second, lf, q.len() as int)) by {
        assert forall|i: int| 0 <= i < q.len() implies !#[trigger] text::stands_at(second, lf, i) by {
            if text::stands_at(second, lf, i) {
                assert(second.subrange(i, i + 1)[0] == second[i]);
            }
        }
    }
    text_in_front_is_left_alone(q, left, lf, cr);
}

// ── what paths are ──────────────────────────────────────────────────────────

/// A relative path is put behind another with one slash between them; an absolute one
/// stands for itself.
pub proof fn paths_are_joined_by_one_slash(a: Seq<char>, b: Seq<char>)
    requires
        a.len() > 0,
    ensures
        b.len() > 0 && b[0] == '/' ==> joined(a, b) == b,
        (b.len() == 0 || b[0] != '/') && a.last() != '/' ==> joined(a, b) == a + seq!['/'] + b,
        (b.len() == 0 || b[0] != '/') && a.last() == '/' ==> joined(a, b) == a + b,
{
}

proof fn lemma_last_part(up: Seq<char>, name: Seq<char>)
    requires
        !name.contains('/'),
        up.len() == 0 || up.last() == '/',
    ensures
        last_component(up + name) == name,
    decreases name.len(),
{
    if name.len() == 0 {
        assert(up + name =~= up);
        assert(last_component(up) =~= name);
    } else {
        assert(name.contains(name.last()));
        let front = name.drop_last();
        assert(!front.contains('/')) by {
            if front.contains('/') {
                let i = choose|i: int| 0 <= i < front.len() && front[i] == '/';
                assert(name[i] == '/');
            }
        }
        lemma_last_part(up, front);
        assert((up + name).drop_last() =~= up + front);
        assert(front.push(name.last()) =~= name);
    }
}

/// A folder is called by the last part of its path, a slash behind it or not; the root is
/// called by its path.
pub proof fn a_folder_is_called_by_its_last_part(up: Seq<char>, name: Seq<char>)
    requires
        name.len() > 0,
        !name.contains('/'),
        name != seq!['.'],
        name != seq!['.', '.'],
    ensures
        folder(up + seq!['/'] + name) == name,
        folder(up + seq!['/'] + name + seq!['/']) == name,
        folder(name) == name,
        folder(seq!['/']) == seq!['/'],
{
    let p = up + seq!['/'] + name;
    let none = Seq::<char>::empty();
    assert(name.contains(name.last()));
    assert(p.last() == name.last());
    if name.len() > 1 {
        assert(name.contains(name[name.len() - 2]));
        assert(p[p.len() - 2] == name[name.len() - 2]);
    } else {
        assert(name[0] != '.') by {
            if name[0] == '.' {
                assert(name =~= seq!['.']);
            }
        }
    }
    assert(bare_path(p) == p);
    assert(bare_path(name) == name);
    let q = p + seq!['/'];
    assert(q.last() == '/');
    assert(q.drop_last() =~= p);
    assert(bare_path(q) == p);
    lemma_last_part(up + seq!['/'], name);
    lemma_last_part(none, name);
    assert(none + name =~= name);
    let root = seq!['/'];
    assert(root.drop_last() =~= none);
    reveal_with_fuel(bare_path, 2);
    assert(bare_path(root) =~= none);
    assert(last_component(none) =~= none);
}

/// The home directory is shown as a tilde, in front of what stands below it and by
/// itself; a path that only begins with the same letters is shown whole. What is shown is
/// understood again.
pub proof fn home_is_a_tilde_and_back(home: Seq<char>, rest: Seq<char>, path: Seq<char>)
    requires
        home.len() > 0,
        home[0] == '/',
        path.len() > 0,
        path[0] == '/',
    ensures
        home_abbreviated(home, Some(home)) == seq!['~'],
        home_abbreviated(home + seq!['/'] + rest, Some(home)) == seq!['~', '/'] + rest,
        rest.len() > 0 && rest[0] != '/' ==> home_abbreviated(home + rest, Some(home)) == home + rest,
        home_expanded(home_abbreviated(path, Some(home)), Some(home)) == path,
        home_abbreviated(path, None) == path,
        home_expanded(seq!['~'], Some(home)) == home,
        home_expanded(seq!['~', '/'] + rest, Some(home)) == home + seq!['/'] + rest,
{
    assert(seq!['~'] + home.skip(home.len() as int) =~= seq!['~']);
    let under = home + seq!['/'] + rest;
    assert(under.subrange(0, home.len() as int) =~= home);
    assert(under[home.len() as int] == '/');
    assert(seq!['~'] + under.skip(home.len() as int) =~= seq!['~', '/'] + rest);
    if rest.len() > 0 && rest[0] != '/' {
        assert((home + rest)[home.len() as int] == rest[0]);
        assert(home + rest != home) by {
            assert((home + rest).len() > home.len());
        }
    }
    let shown = home_abbreviated(path, Some(home));
    if shown != path {
        assert(path.subrange(0, home.len() as int) =~= home);
        assert(shown.skip(1) =~= path.skip(home.len() as int));
        assert(home + path.skip(home.len() as int) =~= path);
    }
    assert(seq!['~'].skip(1) =~= Seq::<char>::empty());
    assert(home + Seq::<char>::empty() =~= home);
    assert((seq!['~', '/'] + rest).skip(1) =~= seq!['/'] + rest);
    assert(home + (seq!['/'] + rest) =~= home + seq!['/'] + rest);
}

/// The console's own files stand below the base directory that is set, or else below the
/// usual one of the home directory; without either there are none.
pub proof fn files_stand_below_the_base(base: Seq<char>, home: Seq<char>, local: Seq<char>, name: Seq<char>)
    requires
        base.len() > 0 && base.last() != '/',
        home.len() > 0 && home.last() != '/',
        local.len() > 0 && local[0] != '/' && local.last() != '/',
        name.len() > 0 && name[0] != '/',
    ensures
        ricon_path(Some(base), Some(home), local, name) == Some(base + "/ricon/"@ + name),
        ricon_path(None, Some(home), local, name) == Some(
            home + seq!['/'] + local + "/ricon/"@ + name,
        ),
        ricon_path(None, None, local, name) is None,
{
    reveal_strlit("ricon");
    reveal_strlit("/ricon/");
    let slash = seq!['/'];
    let below = home + slash + local;
    assert(below.last() == local.last());
    let a = base + slash + "ricon"@;
    let b = below + slash + "ricon"@;
    assert(a.last() == 'n' && b.last() == 'n');
    assert(a + slash + name =~= base + "/ricon/"@ + name);
    assert(b + slash + name =~= below + "/ricon/"@ + name);
}

/// Transcripts are off where the setting says so, or says nothing in as many words; any
/// other setting is where they go, the tilde meaning the home directory.
pub proof fn a_setting_turns_transcripts_off(
    setting: Seq<char>,
    xdg: Option<Seq<char>>,
    home: Option<Seq<char>>,
)
    ensures
        transcripts(Some(setting), xdg, home) is None <==> ({
            let s = text::trim(setting);
            s.len() == 0 || s == "0"@ || s == "off"@ || s == "no"@ || s == "false"@
        }),
        transcripts(Some(setting), xdg, home) matches Some(dir) ==> dir == home_expanded(
            text::trim(setting),
            home,
        ),
        transcripts(None, xdg, home) == ricon_path(xdg, home, ".local/share"@, "sessions"@),
{
    reveal_strlit("");
    assert(""@ =~= Seq::<char>::empty());
    let s = text::trim(setting);
    if s.len() == 0 {
        assert(s =~= Seq::<char>::empty());
    }
}

/// A part of a file's name is at most sixty-four characters, each of them a letter, a
/// digit, a dash, an underscore or a dot; those that are stay, any other is an
/// underscore. It is never empty.
pub proof fn a_name_is_tame(s: Seq<char>, i: int)
    requires
        0 <= i < s.len(),
        i < 64,
    ensures
        1 <= tamed(s).len() <= 64,
        s.len() <= 64 ==> tamed(s).len() == s.len(),
        ({
            let c = s[i];
            let plain = 'a' <= c <= 'z' || 'A' <= c <= 'Z' || '0' <= c <= '9' || c == '-' || c == '_'
                || c == '.';
            tamed(s)[i] == if plain {
                c
            } else {
                '_'
            }
        }),
        tamed(Seq::empty()) == "shell"@,
{
}

// ── what runs, and what is said of it ───────────────────────────────────────

/// A shell is told by its name, with a path in front of it or not, and with the dash of a
/// login shell or not.
pub proof fn a_shell_is_told_by_its_name(up: Seq<char>, name: Seq<char>)
    requires
        name == "sh"@ || name == "bash"@ || name == "zsh"@ || name == "fish"@ || name == "dash"@
            || name == "ksh"@ || name == "mksh"@ || name == "tcsh"@ || name == "csh"@ || name
            == "ash"@ || name == "nu"@ || name == "elvish"@ || name == "xonsh"@,
    ensures
        shell_process(name),
        shell_process(seq!['-'] + name),
        shell_process(up + seq!['/'] + name),
{
    reveal_strlit("sh");
    reveal_strlit("bash");
    reveal_strlit("zsh");
    reveal_strlit("fish");
    reveal_strlit("dash");
    reveal_strlit("ksh");
    reveal_strlit("mksh");
    reveal_strlit("tcsh");
    reveal_strlit("csh");
    reveal_strlit("ash");
    reveal_strlit("nu");
    reveal_strlit("elvish");
    reveal_strlit("xonsh");
    let none = Seq::<char>::empty();
    assert(!name.contains('/'));
    let login = seq!['-'] + name;
    assert(!login.contains('/')) by {
        if login.contains('/') {
            let i = choose|i: int| 0 <= i < login.len() && login[i] == '/';
            assert(name[i - 1] == '/');
            assert(name.contains(name[i - 1]));
        }
    }
    lemma_last_part(none, name);
    lemma_last_part(none, login);
    lemma_last_part(up + seq!['/'], name);
    assert(none + name =~= name);
    assert(none + login =~= login);
    assert(login.skip(1) =~= name);
}

/// What is not named so is no shell.
pub proof fn other_programs_are_no_shells(name: Seq<char>)
    requires
        !name.contains('/'),
        name.len() > 0 && name[0] != '-',
        shell_process(name),
    ensures
        name == "sh"@ || name == "bash"@ || name == "zsh"@ || name == "fish"@ || name == "dash"@
            || name == "ksh"@ || name == "mksh"@ || name == "tcsh"@ || name == "csh"@ || name
            == "ash"@ || name == "nu"@ || name == "elvish"@ || name == "xonsh"@,
{
    let none = Seq::<char>::empty();
    lemma_last_part(none, name);
    assert(none + name =~= name);
}

/// The continue text is the folder's own, or else the user's, or else one word; a text of
/// blanks alone is none, and blanks around it do not count.
pub proof fn the_nearest_continue_text_counts(project: Seq<char>, global: Seq<char>)
    ensures
        !text::blank(project) ==> continued(Some(project), Some(global)) == text::trim(project)
            && continued(Some(project), None) == text::trim(project),
        text::blank(project) && !text::blank(global) ==> continued(Some(project), Some(global))
            == text::trim(global),
        !text::blank(global) ==> continued(None, Some(global)) == text::trim(global),
        text::blank(project) && text::blank(global) ==> continued(Some(project), Some(global))
            == "continue"@,
        continued(None, None) == "continue"@,
{
    text::blank_trims_to_nothing(project);
    text::blank_trims_to_nothing(global);
}

/// A notice rings, and says three times over — in the three ways terminals know — which
/// agent waits and where.
pub proof fn a_notice_says_who_waits_where(agent: Seq<char>, place: Seq<char>)
    ensures
        ({
            let body = agent + " in "@ + place + " is waiting for you"@;
            notice(agent, place) == "\x07\x1b]9;ricon: "@ + body + "\x07\x1b]777;notify;ricon;"@ + body
                + "\x07\x1b]99;i=1:p=title;ricon\x1b\\\x1b]99;i=1:p=body;"@ + body + "\x1b\\"@
        }),
{
}

/// What is put on the clipboard is asked for in base64, of the text's bytes.
pub proof fn a_copy_is_asked_for_in_base64(s: Seq<char>)
    ensures
        osc52(s) == "\x1b]52;c;"@ + base64::encoded(vstd::utf8::encode_utf8(s)) + "\x07"@,
{
}

/// A paste marker inside what is pasted is taken out, as if it had not been there.
pub proof fn a_marker_inside_is_taken_out(a: Seq<char>, b: Seq<char>)
    requires
        !a.contains('\u{1b}'),
        !b.contains('\u{1b}'),
    ensures
        pasted(a + "\x1b[200~"@ + b) == pasted(a + b),
        pasted(a + "\x1b[201~"@ + b) == pasted(a + b),
{
    reveal_strlit("\x1b[200~");
    reveal_strlit("\x1b[201~");
    let none = Seq::<char>::empty();
    let first = a + PASTE_START@ + b;
    let last = a + PASTE_END@ + b;
    assert(!(a + b).contains('\u{1b}')) by {
        if (a + b).contains('\u{1b}') {
            let i = choose|i: int| 0 <= i < (a + b).len() && (a + b)[i] == '\u{1b}';
            if i < a.len() {
                assert(a[i] == '\u{1b}');
            } else {
                assert(b[i - a.len()] == '\u{1b}');
            }
        }
    }
    lemma_no_escape(a + b);
    lemma_marker_out(a, b, PASTE_START@);
    lemma_marker_out(a, b, PASTE_END@);
    lemma_not_found(a + b, PASTE_START@, '\u{1b}');
    lemma_not_found(a + b, PASTE_END@, '\u{1b}');
    assert(replaced(a + b, PASTE_END@, none) == a + b);
    assert(unmarked_once(first) == a + b);
    assert(unmarked(first) == a + b);
    // The other marker is not the first one.
    assert(replaced(last, PASTE_START@, none) == last) by {
        assert forall|i: int| 0 <= i implies !#[trigger] text::stands_at(last, PASTE_START@, i) by {
            if text::stands_at(last, PASTE_START@, i) {
                let t = last.subrange(i, i + 6);
                assert(t == PASTE_START@);
                assert(t[0] == last[i] && t[4] == last[i + 4]);
                if i < a.len() {
                    assert(a.contains(a[i]));
                } else if i >= a.len() + 6 {
                    assert(b.contains(b[i - a.len() - 6]));
                } else if i == a.len() {
                    assert(last[i + 4] == PASTE_END@[4]);
                } else {
                    assert(last[i] == PASTE_END@[i - a.len()]);
                }
            }
        }
        text::lemma_find_from(last, PASTE_START@, 0);
        assert(last.skip(0) =~= last);
    }
    assert(unmarked_once(last) == a + b);
    assert(unmarked(last) == a + b);
}

proof fn lemma_marker_out(a: Seq<char>, b: Seq<char>, mark: Seq<char>)
    requires
        !a.contains('\u{1b}'),
        !b.contains('\u{1b}'),
        mark.len() > 0,
        mark[0] == '\u{1b}',
    ensures
        replaced(a + mark + b, mark, Seq::empty()) == a + b,
{
    let none = Seq::<char>::empty();
    let tail = mark + b;
    let s = a + tail;
    assert(a + mark + b =~= s);
    assert(text::none_before(s, mark, a.len() as int)) by {
        assert forall|i: int| 0 <= i < a.len() implies !#[trigger] text::stands_at(s, mark, i) by {
            if text::stands_at(s, mark, i) {
                assert(s.subrange(i, i + mark.len())[0] == s[i]);
                assert(a.contains(a[i]));
            }
        }
    }
    text_in_front_is_left_alone(a, tail, mark, none);
    every_occurrence_is_replaced(b, mark, none);
    lemma_not_found(b, mark, '\u{1b}');
    assert(none + b =~= b);
}

/// The room there is for a text is what is left of the width.
pub proof fn the_room_is_what_is_left(width: u16, pad: u16)
    ensures
        width >= pad ==> room(width, pad) == width - pad,
        width < pad ==> room(width, pad) == 0,
{
}

} // verus!
