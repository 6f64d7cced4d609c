//! The emulated terminal of a shell: a screen of rows, the history that
//! scrolled off its top, and how far back the view into it is scrolled.
//!
//! The emulator itself is `vt100`. What it holds is read through the functions
//! of this module, which say it over a model of the screen.

use tui_term::vt100::{MouseProtocolEncoding, MouseProtocolMode, Parser, Screen};
use vstd::prelude::*;
use crate::mouse;
use crate::mouse::{push_number, MouseEncoding, MouseMode, TermModes};
use crate::text;

verus! {

/// One row: its text over the screen's width, and whether it goes on in the
/// next row.
pub struct Row {
    pub text: Seq<char>,
    pub wrapped: bool,
}

/// What a screen holds: the rows of its history, oldest first, the live rows,
/// how many rows the view is scrolled back, and the modes the application in it
/// has set. On the alternate screen these are the alternate screen's own.
#[verifier::ext_equal]
pub struct Grid {
    pub history: Seq<Row>,
    pub live: Seq<Row>,
    pub offset: int,
    pub cols: u16,
    pub alternate: bool,
    pub cursor: (u16, u16),
    pub modes: TermModes,
}

/// The rows in view: as much of the history as the view is scrolled back, and
/// live rows below it, as many as the screen has.
pub open spec fn in_view(g: Grid) -> Seq<Row> {
    let n = g.live.len() as int;
    let from = g.history.len() - g.offset;
    let above = g.history.skip(from);
    let below = n - g.offset;
    above.take(
        if g.offset < n {
            g.offset
        } else {
            n
        },
    ) + g.live.take(
        if below > 0 {
            below
        } else {
            0
        },
    )
}

/// The texts of some rows.
pub open spec fn row_texts(rows: Seq<Row>) -> Seq<Seq<char>> {
    rows.map_values(|r: Row| r.text)
}

#[verifier::external_type_specification]
#[verifier::external_body]
pub struct ExScreen(Screen);

/// What a screen holds.
pub uninterp spec fn grid(screen: Screen) -> Grid;

/// How many rows of what scrolled off its top a screen keeps.
pub uninterp spec fn limit(screen: Screen) -> nat;

/// A screen with its view scrolled back by `rows` rows.
pub uninterp spec fn at_view(screen: Screen, rows: int) -> Screen;

/// Whether some live row, of the main screen or the alternate one, holds half of a
/// wide character without its other half.
pub uninterp spec fn torn(screen: Screen) -> bool;

/// On which of the two screens (the main one is `false`, the alternate one `true`) a
/// wide character of a live row stands across columns `col - 1` and `col`.
pub uninterp spec fn crossed(screen: Screen, col: u16) -> Set<bool>;

/// What a screen holds with the other of its two screens in use.
pub uninterp spec fn aside(screen: Screen) -> Grid;

/// A screen after it was given another size.
pub uninterp spec fn resized(screen: Screen, rows: u16, cols: u16) -> Screen;

/// Whether nothing but the view was moved from `a` to `b`.
pub open spec fn view_moved(a: Screen, b: Screen) -> bool {
    &&& grid(b) == (Grid { offset: grid(b).offset, ..grid(a) })
    &&& forall|k: int| #[trigger] at_view(b, k) == at_view(a, k)
    &&& limit(b) == limit(a)
    &&& torn(b) == torn(a)
    &&& forall|col: u16| #[trigger] crossed(b, col) == crossed(a, col)
    &&& aside(b) == aside(a)
}

/// Rows run on, each that does not go on in the next ended with a line feed; an empty
/// row that ends a wrapped one is ended twice.
pub open spec fn run_on(rows: Seq<Row>) -> Seq<char>
    decreases rows.len(),
{
    if rows.len() == 0 {
        Seq::empty()
    } else {
        let above = rows.drop_last();
        let row = rows.last();
        let line = run_on(above) + row.text + (if row.text.len() == 0 && above.len() > 0
            && above.last().wrapped {
            seq!['\n']
        } else {
            Seq::empty()
        });
        if row.wrapped {
            line
        } else {
            line.push('\n')
        }
    }
}

/// `s` without the line feeds at its end.
pub open spec fn without_feeds(s: Seq<char>) -> Seq<char>
    decreases s.len(),
{
    if s.len() > 0 && s.last() == '\n' {
        without_feeds(s.drop_last())
    } else {
        s
    }
}

/// The text in view on a screen.
pub open spec fn text_of(screen: Screen) -> Seq<char> {
    without_feeds(run_on(in_view(grid(screen))))
}

/// The text of a screen's view from cell (`row`, `col`) up to cell (`end_row`,
/// `end_col`).
pub uninterp spec fn between(
    screen: Screen,
    row: u16,
    col: u16,
    end_row: u16,
    end_col: u16,
) -> Seq<char>;

/// The text in a cell of a screen's view; a cell out of view has none.
pub uninterp spec fn cell_text(screen: Screen, row: u16, col: u16) -> Option<Seq<char>>;

/// The first character in a cell of a screen's view.
pub open spec fn cell_char(screen: Screen, row: u16, col: u16) -> Option<char> {
    match cell_text(screen, row, col) {
        Some(t) => if t.len() > 0 {
            Some(t[0])
        } else {
            None
        },
        None => None,
    }
}

/// `Screen::size`: the rows and columns of the screen. It has a live row for
/// each of the rows.
#[verifier::external_body]
pub(crate) fn size(screen: &Screen) -> (r: (u16, u16))
    ensures
        r.0 == grid(*screen).live.len(),
        r.1 == grid(*screen).cols,
{
    screen.size()
}

/// `Screen::scrollback`: how many rows the view is scrolled back, never more
/// than the history holds. A screen is itself with its view where it is.
#[verifier::external_body]
pub(crate) fn scrollback(screen: &Screen) -> (n: usize)
    ensures
        n == grid(*screen).offset,
        n <= grid(*screen).history.len(),
        at_view(*screen, n as int) == *screen,
{
    screen.scrollback()
}

/// `Screen::set_scrollback`: scrolls the view back by `n` rows, or by the whole
/// history when it is shorter, and changes nothing else.
#[verifier::external_body]
pub(crate) fn set_scrollback(screen: &mut Screen, n: usize)
    ensures
        view_moved(*old(screen), *final(screen)),
        *final(screen) == at_view(*old(screen), grid(*final(screen)).offset),
        grid(*final(screen)).offset == if n <= grid(*old(screen)).history.len() {
            n as int
        } else {
            grid(*old(screen)).history.len() as int
        },
        grid(*final(screen)).history.len() <= usize::MAX,
{
    screen.set_scrollback(n)
}

/// `Screen::rows` over the screen's whole width: the texts of the rows in view, from the
/// top.
#[verifier::external_body]
pub(crate) fn rows(screen: &Screen, cols: u16) -> (v: Vec<String>)
    requires
        cols == grid(*screen).cols,
    ensures
        text::texts(v@) == row_texts(in_view(grid(*screen))),
{
    screen.rows(0, cols).collect()
}

/// `Screen::row_wrapped`: whether row `row` of the view goes on in the next; a
/// row out of view does not.
#[verifier::external_body]
pub(crate) fn row_wrapped(screen: &Screen, row: u16) -> (r: bool)
    ensures
        r == (row < in_view(grid(*screen)).len() && in_view(grid(*screen))[row as int].wrapped),
{
    screen.row_wrapped(row)
}

/// `Screen::alternate_screen`: whether the alternate screen is in use.
#[verifier::external_body]
pub(crate) fn alternate_screen(screen: &Screen) -> (r: bool)
    ensures
        r == grid(*screen).alternate,
{
    screen.alternate_screen()
}

/// `Screen::cursor_position`: the cursor as (row, column). It stands on one of the
/// rows, and at most one column past the last.
#[verifier::external_body]
pub(crate) fn cursor_position(screen: &Screen) -> (r: (u16, u16))
    ensures
        r == grid(*screen).cursor,
        r.0 < grid(*screen).live.len(),
        r.1 <= grid(*screen).cols,
{
    screen.cursor_position()
}

/// `Screen::application_cursor`: whether application cursor keys are on.
#[verifier::external_body]
fn application_cursor(screen: &Screen) -> (r: bool)
    ensures
        r == grid(*screen).modes.app_cursor,
{
    screen.application_cursor()
}

/// `Screen::bracketed_paste`: whether pastes are to be bracketed.
#[verifier::external_body]
fn bracketed_paste(screen: &Screen) -> (r: bool)
    ensures
        r == grid(*screen).modes.bracketed_paste,
{
    screen.bracketed_paste()
}

/// `Screen::mouse_protocol_mode`: the mouse events subscribed to.
#[verifier::external_body]
fn mouse_protocol_mode(screen: &Screen) -> (r: MouseMode)
    ensures
        r == grid(*screen).modes.mouse_mode,
{
    match screen.mouse_protocol_mode() {
        MouseProtocolMode::None => MouseMode::Off,
        MouseProtocolMode::Press => MouseMode::Press,
        MouseProtocolMode::PressRelease => MouseMode::PressRelease,
        MouseProtocolMode::ButtonMotion => MouseMode::ButtonMotion,
        MouseProtocolMode::AnyMotion => MouseMode::AnyMotion,
    }
}

/// `Screen::mouse_protocol_encoding`: how mouse events are to be reported.
#[verifier::external_body]
fn mouse_protocol_encoding(screen: &Screen) -> (r: MouseEncoding)
    ensures
        r == grid(*screen).modes.mouse_encoding,
{
    match screen.mouse_protocol_encoding() {
        MouseProtocolEncoding::Default => MouseEncoding::Default,
        MouseProtocolEncoding::Utf8 => MouseEncoding::Utf8,
        MouseProtocolEncoding::Sgr => MouseEncoding::Sgr,
    }
}

/// `Screen::contents`: the rows in view run on, without the line feeds at the end.
#[verifier::external_body]
pub(crate) fn contents(screen: &Screen) -> (s: String)
    ensures
        s@ == text_of(*screen),
{
    screen.contents()
}

/// `Screen::contents_between`: the text in view from one cell up to another, a
/// function of the screen and the two cells. A text over several rows counts the
/// columns right of its first cell, which therefore may not stand past them.
#[verifier::external_body]
fn contents_between(screen: &Screen, a: (u16, u16), b: (u16, u16)) -> (s: String)
    requires
        a.0 < b.0 ==> a.1 <= grid(*screen).cols,
    ensures
        s@ == between(*screen, a.0, a.1, b.0, b.1),
{
    screen.contents_between(a.0, a.1, b.0, b.1)
}

/// `Screen::cell` and its `Cell::contents`: the text of a cell in view, which is empty
/// in a blank one; a cell out of view has none.
#[verifier::external_body]
fn cell_contents(screen: &Screen, row: u16, col: u16) -> (c: Option<String>)
    ensures
        text::opt(c) == cell_text(*screen, row, col),
{
    screen.cell(row, col).map(|cell| cell.contents().to_string())
}

/// The first character of a cell in view; a blank cell, or one out of view, has none.
fn cell(screen: &Screen, row: u16, col: u16) -> (c: Option<char>)
    ensures
        c == cell_char(*screen, row, col),
{
    match cell_contents(screen, row, col) {
        Some(t) => {
            let t: Vec<char> = text::chars(t.as_str());
            if t.len() > 0 {
                Some(t[0])
            } else {
                None
            }
        },
        None => None,
    }
}

/// A cell, held to a screen of the given size.
pub open spec fn held_in(cell: (u16, u16), rows: int, cols: int) -> (u16, u16) {
    (
        if cell.0 < rows {
            cell.0
        } else {
            (rows - 1) as u16
        },
        if cell.1 < cols {
            cell.1
        } else {
            (cols - 1) as u16
        },
    )
}

/// `Screen::set_size`: the screen at another size, a function of the screen and the
/// size. As many rows stay in the history, the view and the modes stay, the cursor stays
/// on the screen, and no wide character is torn but one that stood across the new right
/// edge.
#[verifier::external_body]
fn set_size(screen: &mut Screen, rows: u16, cols: u16)
    requires
        rows > 0,
        cols > 0,
    ensures
        *final(screen) == resized(*old(screen), rows, cols),
        grid(*final(screen)) == (Grid {
            history: grid(*final(screen)).history,
            live: grid(*final(screen)).live,
            cols,
            cursor: held_in(grid(*old(screen)).cursor, rows as int, cols as int),
            ..grid(*old(screen))
        }),
        grid(*final(screen)).history.len() == grid(*old(screen)).history.len(),
        grid(*final(screen)).live.len() == rows,
        limit(*final(screen)) == limit(*old(screen)),
        !torn(*old(screen)) && (cols >= grid(*old(screen)).cols || crossed(
            *old(screen),
            cols,
        ).is_empty()) ==> !torn(*final(screen)),
{
    screen.set_size(rows, cols)
}

/// The terminal modes the application on the screen has set.
pub fn modes(screen: &Screen) -> (m: TermModes)
    ensures
        m == grid(*screen).modes,
{
    TermModes {
        app_cursor: application_cursor(screen),
        bracketed_paste: bracketed_paste(screen),
        mouse_mode: mouse_protocol_mode(screen),
        mouse_encoding: mouse_protocol_encoding(screen),
    }
}

/// How far the view stands after moving it by `delta` rows (positive is into
/// older output); zero is back to the live screen.
pub open spec fn scrolled(g: Grid, delta: int) -> int {
    let want = if delta == 0 {
        0
    } else {
        g.offset + delta
    };
    if want < 0 {
        0
    } else if want <= g.history.len() {
        want
    } else {
        g.history.len() as int
    }
}

/// Move the view by `delta` rows (positive is into older output), never past
/// either end; zero snaps back to the live screen. Returns the rows actually
/// moved — the amount the text on screen (and with it any live selection)
/// shifted downward.
pub fn scroll(screen: &mut Screen, delta: i32) -> (moved: i128)
    ensures
        grid(*final(screen)) == (Grid {
            offset: scrolled(grid(*old(screen)), delta as int),
            ..grid(*old(screen))
        }),
        moved == grid(*final(screen)).offset - grid(*old(screen)).offset,
        -usize::MAX <= moved <= usize::MAX,
        view_moved(*old(screen), *final(screen)),
{
    let before: usize = scrollback(screen);
    let want: i128 = if delta == 0 {
        0
    } else {
        before as i128 + delta as i128
    };
    let to: usize = if want < 0 {
        0
    } else if want > usize::MAX as i128 {
        usize::MAX
    } else {
        want as usize
    };
    set_scrollback(screen, to);
    let after: usize = scrollback(screen);
    after as i128 - before as i128
}

/// The text of a row as one character per column, blank cells as spaces.
pub open spec fn row_cells(screen: Screen, row: u16, cols: u16) -> Seq<char> {
    Seq::new(
        cols as nat,
        |c: int|
            match cell_char(screen, row, c as u16) {
                Some(c) => c,
                None => ' ',
            },
    )
}

/// Row `row` of the view as one character per column (a blank cell reads as a
/// space), so a column index maps straight to a character.
pub fn row_chars(screen: &Screen, row: u16, cols: u16) -> (v: Vec<char>)
    ensures
        v@ == row_cells(*screen, row, cols),
{
    let mut v: Vec<char> = Vec::new();
    let mut c: u16 = 0;
    while c < cols
        invariant
            c <= cols,
            v@ == row_cells(*screen, row, c),
        decreases cols - c,
    {
        v.push(
            match cell(screen, row, c) {
                Some(c) => c,
                None => ' ',
            },
        );
        c += 1;
        assert(v@ =~= row_cells(*screen, row, c));
    }
    assert(v@ =~= row_cells(*screen, row, cols));
    v
}

/// Whether row `row` of the view goes on in the next.
pub open spec fn goes_on(screen: Screen, row: int) -> bool {
    let view = in_view(grid(screen));
    0 <= row < view.len() && view[row].wrapped
}

/// Whether rows `from..=to` are the whole logical line through `row` on a view
/// of `rows` rows.
pub open spec fn line_run(screen: Screen, row: int, rows: int, from: int, to: int) -> bool {
    &&& 0 <= from <= row <= to
    &&& to < rows || to == row
    &&& forall|r: int| from <= r < to ==> #[trigger] goes_on(screen, r)
    &&& from > 0 ==> !goes_on(screen, from - 1)
    &&& to + 1 < rows ==> !goes_on(screen, to)
}

/// There is at most one such line.
pub proof fn line_runs_agree(
    screen: Screen,
    row: int,
    rows: int,
    a: int,
    b: int,
    c: int,
    d: int,
)
    requires
        line_run(screen, row, rows, a, b),
        line_run(screen, row, rows, c, d),
    ensures
        a == c && b == d,
{
    if a < c {
        assert(goes_on(screen, c - 1));
    }
    if c < a {
        assert(goes_on(screen, a - 1));
    }
    if b < d {
        assert(goes_on(screen, b));
    }
    if d < b {
        assert(goes_on(screen, d));
    }
}

/// The first and the last row of the logical line through `row`.
pub open spec fn line_rows(screen: Screen, row: u16, rows: u16) -> (u16, u16) {
    let (from, to) = choose|from: int, to: int| line_run(screen, row as int, rows as int, from, to);
    (from as u16, to as u16)
}

/// First and last row in view of the logical line through `row`: a line the
/// terminal soft-wrapped is one line to the user.
pub fn logical_line(screen: &Screen, row: u16, rows: u16) -> (r: (u16, u16))
    ensures
        r == line_rows(*screen, row, rows),
        line_run(*screen, row as int, rows as int, r.0 as int, r.1 as int),
{
    let mut start: u16 = row;
    while start > 0 && row_wrapped(screen, start - 1)
        invariant
            start <= row,
            forall|r: int| start <= r < row ==> #[trigger] goes_on(*screen, r),
        decreases start,
    {
        start -= 1;
        assert(goes_on(*screen, start as int));
    }
    let mut end: u16 = row;
    while end < u16::MAX && end + 1 < rows && row_wrapped(screen, end)
        invariant
            start <= row <= end,
            end < rows || end == row,
            forall|r: int| start <= r < end ==> #[trigger] goes_on(*screen, r),
        decreases u16::MAX - end,
    {
        assert(goes_on(*screen, end as int));
        end += 1;
    }
    proof {
        let (f, t) = choose|f: int, t: int| line_run(*screen, row as int, rows as int, f, t);
        assert(line_run(*screen, row as int, rows as int, start as int, end as int));
        line_runs_agree(*screen, row as int, rows as int, start as int, end as int, f, t);
    }
    (start, end)
}

/// The text in view from cell `a` up to cell `b`, when `a` stands on the screen
/// or the two share a row; nothing otherwise.
pub open spec fn text_between(screen: Screen, a: (u16, u16), b: (u16, u16)) -> Seq<char> {
    if a.0 < b.0 && a.1 > grid(screen).cols {
        Seq::empty()
    } else {
        between(screen, a.0, a.1, b.0, b.1)
    }
}

/// The text in view from cell `a` up to cell `b` (rows the terminal wrapped are
/// joined). A cell right of the screen has nothing behind it.
pub fn screen_between(screen: &Screen, a: (u16, u16), b: (u16, u16)) -> (s: String)
    ensures
        s@ == text_between(*screen, a, b),
{
    let (_, cols): (u16, u16) = size(screen);
    if a.0 < b.0 && a.1 > cols {
        String::new()
    } else {
        contents_between(screen, a, b)
    }
}

// ── the emulator ────────────────────────────────────────────────────────────

/// A terminal emulator: a screen, and the parser that draws on it.
#[verifier::external_body]
pub struct Terminal {
    parser: Parser,
}

/// The screen of a terminal.
pub uninterp spec fn screen_of(t: Terminal) -> Screen;

/// The bytes a terminal was given of an escape sequence, or of a character, whose end
/// it has not seen yet.
pub uninterp spec fn begun(t: Terminal) -> Seq<u8>;

/// The screen after `bytes` were parsed onto it behind the bytes `begun`, and the bytes
/// begun then.
pub uninterp spec fn parsed(screen: Screen, begun: Seq<u8>, bytes: Seq<u8>) -> (Screen, Seq<u8>);

/// The fewest columns text can be drawn on: a wide character takes two.
pub const MIN_COLS: u16 = 2;

/// The first width that is too much to draw on: the tab stop behind the right edge must
/// be a column number too.
pub const TOO_WIDE: u16 = 65528;

/// The fewest rows text can be drawn on: a line is wrapped from one row into another.
pub const MIN_ROWS: u16 = 2;

/// Whether text can be drawn on a screen of the given size.
pub open spec fn fits(rows: int, cols: int) -> bool {
    rows >= MIN_ROWS && MIN_COLS <= cols < TOO_WIDE
}

/// Can text be drawn on a screen of `rows` rows and `cols` columns?
pub fn drawable_size(rows: u16, cols: u16) -> (r: bool)
    ensures
        r == fits(rows as int, cols as int),
{
    rows >= MIN_ROWS && MIN_COLS <= cols && cols < TOO_WIDE
}

/// Whether text can be drawn on a screen: it has room, and holds no half of a wide
/// character.
pub open spec fn drawable(screen: Screen) -> bool {
    fits(grid(screen).live.len() as int, grid(screen).cols as int) && !torn(screen)
}

/// Whether U+17D8 in UTF-8 stands at index `i` of some bytes: the one character three
/// columns wide.
pub open spec fn widest_at(bytes: Seq<u8>, i: int) -> bool {
    0 <= i && i + 3 <= bytes.len() && bytes[i] == 0xE1 && bytes[i + 1] == 0x9F && bytes[i + 2]
        == 0x98
}

/// Whether the character three columns wide ends in `bytes`, behind the bytes `begun`.
pub open spec fn ends_widest(begun: Seq<u8>, bytes: Seq<u8>) -> bool {
    exists|i: int| i + 3 > begun.len() && #[trigger] widest_at(begun + bytes, i)
}

/// Does the character three columns wide end in `bytes`, behind the bytes `begun`?
pub fn ends_widest_character(begun: &[u8], bytes: &[u8]) -> (r: bool)
    ensures
        r == ends_widest(begun@, bytes@),
{
    let mut all: Vec<u8> = Vec::new();
    push_bytes(&mut all, begun);
    push_bytes(&mut all, bytes);
    assert(all@ =~= begun@ + bytes@);
    let mut i: usize = begun.len().saturating_sub(2);
    while all.len() - i > 2
        invariant
            all@ == begun@ + bytes@,
            i <= all@.len(),
            i + 3 > begun@.len(),
            forall|k: int| begun@.len() < k + 3 && k < i ==> !#[trigger] widest_at(all@, k),
        decreases all.len() - i,
    {
        if all[i] == 0xE1 && all[i + 1] == 0x9F && all[i + 2] == 0x98 {
            assert(widest_at(all@, i as int));
            return true;
        }
        i += 1;
    }
    false
}

fn push_bytes(v: &mut Vec<u8>, bytes: &[u8])
    ensures
        final(v)@ == old(v)@ + bytes@,
{
    let mut i: usize = 0;
    while i < bytes.len()
        invariant
            i <= bytes@.len(),
            v@ == old(v)@ + bytes@.take(i as int),
        decreases bytes.len() - i,
    {
        v.push(bytes[i]);
        i += 1;
        assert(v@ =~= old(v)@ + bytes@.take(i as int));
    }
    assert(bytes@.take(i as int) =~= bytes@);
}

/// Whether `bytes` can be drawn on a screen behind the bytes `begun`: the screen is one
/// that can be drawn on, and wide enough for what ends in them.
pub open spec fn takes(screen: Screen, begun: Seq<u8>, bytes: Seq<u8>) -> bool {
    drawable(screen) && (grid(screen).cols > MIN_COLS || !ends_widest(begun, bytes))
}

/// The last two of some bytes.
pub open spec fn last_two(bytes: Seq<u8>) -> Seq<u8> {
    if bytes.len() <= 2 {
        bytes
    } else {
        bytes.skip(bytes.len() - 2)
    }
}

/// Whether the last two bytes of what was begun are the last of those seen.
pub open spec fn seen_of(seen: Seq<u8>, begun: Seq<u8>) -> bool {
    &&& begun.len() >= 1 ==> seen.len() >= 1 && seen.last() == begun.last()
    &&& begun.len() >= 2 ==> seen.len() >= 2 && seen[seen.len() - 2] == begun[begun.len() - 2]
}

/// Whether `next` is the end of `bytes`.
pub open spec fn ends_in(bytes: Seq<u8>, next: Seq<u8>) -> bool {
    next.len() <= bytes.len() && next == bytes.skip(bytes.len() - next.len())
}

/// The last two bytes a terminal parsed tell whether it has room for the next ones.
pub proof fn the_last_bytes_tell_what_fits(
    screen: Screen,
    seen: Seq<u8>,
    begun: Seq<u8>,
    bytes: Seq<u8>,
)
    requires
        drawable(screen),
        seen_of(seen, begun),
        grid(screen).cols > MIN_COLS || !ends_widest(seen, bytes),
    ensures
        takes(screen, begun, bytes),
{
    if ends_widest(begun, bytes) {
        let i = choose|i: int| i + 3 > begun.len() && #[trigger] widest_at(begun + bytes, i);
        assert(widest_at(seen + bytes, i - begun.len() + seen.len()));
    }
}

/// Remembering the last two bytes of every chunk is remembering those of what was begun.
pub proof fn the_last_bytes_are_kept(
    seen: Seq<u8>,
    begun: Seq<u8>,
    bytes: Seq<u8>,
    next: Seq<u8>,
)
    requires
        seen_of(seen, begun),
        ends_in(begun + bytes, next),
    ensures
        seen_of(last_two(seen + bytes), next),
{
    let all = begun + bytes;
    if next.len() >= 1 {
        assert(next.last() == all.last());
    }
    if next.len() >= 2 {
        assert(next[next.len() - 2] == all[all.len() - 2]);
    }
}

/// Keep the last two bytes of those seen and of `bytes`.
pub fn remember(seen: &mut Vec<u8>, bytes: &[u8])
    ensures
        final(seen)@ == last_two(old(seen)@ + bytes@),
{
    let mut all: Vec<u8> = Vec::new();
    push_bytes(&mut all, seen.as_slice());
    push_bytes(&mut all, bytes);
    assert(all@ =~= old(seen)@ + bytes@);
    let n: usize = all.len();
    if n <= 2 {
        *seen = all;
    } else {
        let last: Vec<u8> = vec![all[n - 2], all[n - 1]];
        assert(last@ =~= all@.skip(n - 2));
        *seen = last;
    }
}

/// Is the screen wide enough for what ends in `bytes`, the last two bytes parsed before
/// being those `seen`?
pub fn has_room(screen: &Screen, seen: &[u8], bytes: &[u8]) -> (r: bool)
    ensures
        r == (grid(*screen).cols > MIN_COLS || !ends_widest(seen@, bytes@)),
{
    let (_, cols): (u16, u16) = size(screen);
    cols > MIN_COLS || !ends_widest_character(seen, bytes)
}

/// A row nothing was drawn on.
pub open spec fn blank_row() -> Row {
    Row { text: Seq::empty(), wrapped: false }
}

/// A grid of the given size nothing was ever drawn on.
pub open spec fn empty_grid(rows: u16, cols: u16) -> Grid {
    Grid {
        history: Seq::empty(),
        live: Seq::new(rows as nat, |i: int| blank_row()),
        offset: 0,
        cols,
        alternate: false,
        cursor: (0, 0),
        modes: TermModes {
            app_cursor: false,
            bracketed_paste: false,
            mouse_mode: MouseMode::Off,
            mouse_encoding: MouseEncoding::Default,
        },
    }
}

// The escape sequences a screen is trimmed with.

/// Moves the cursor to row `row` and column `col`, wherever the scroll region is.
pub open spec fn moving(row: int, col: int) -> Seq<u8> {
    seq![27u8, 91] + mouse::decimal_bytes(row + 1) + seq![100u8, 27, 91] + mouse::decimal_bytes(col + 1)
        + seq![71u8]
}

/// Erases the cell at column `col` of each of the first `rows` rows.
pub open spec fn erasing(rows: int, col: int) -> Seq<u8>
    decreases rows,
{
    if rows <= 0 {
        Seq::empty()
    } else {
        erasing(rows - 1, col) + moving(rows - 1, col) + seq![27u8, 91, 88]
    }
}

/// Erases column `col` of `rows` rows and puts the cursor back.
pub open spec fn trimming(rows: int, col: int, cursor: (u16, u16)) -> Seq<u8> {
    erasing(rows, col) + moving(cursor.0 as int, cursor.1 as int)
}

/// Switches to the alternate screen, or back to the main one.
pub open spec fn switching(alternate: bool) -> Seq<u8> {
    seq![
        27u8,
        91,
        63,
        52,
        55,
        if alternate {
            104
        } else {
            108
        },
    ]
}

/// `Parser::new`: an empty terminal of the given size that keeps `history` rows.
#[verifier::external_body]
fn parser_new(rows: u16, cols: u16, history: usize) -> (t: Terminal)
    requires
        rows > 0,
        cols > 0,
    ensures
        grid(screen_of(t)) == empty_grid(rows, cols),
        limit(screen_of(t)) == history,
        !torn(screen_of(t)),
        begun(t).len() == 0,
{
    Terminal { parser: Parser::new(rows, cols, history) }
}

/// `Parser::process`: the screen and the bytes begun after parsing the bytes, a
/// function of the screen, the bytes begun before, and the bytes. The size and the limit
/// stay, the history stays within the limit, and no wide character is torn. What is
/// begun then is the end of what was begun and the bytes. Where the
/// view stands makes no difference to what is drawn. Nothing can be drawn on a screen of
/// one row or one column, over half of a wide character, or three columns wide on two.
///
/// Of a terminal that has begun nothing: erasing a column of every row leaves no wide
/// character across it on the screen in use, and changes nothing but the live rows of
/// that screen and where its cursor stands. Switching the screen in use changes neither
/// screen; the view is then on the live rows of either.
#[verifier::external_body]
fn parser_process(t: &mut Terminal, bytes: &[u8])
    requires
        takes(screen_of(*old(t)), begun(*old(t)), bytes@),
    ensures
        (screen_of(*final(t)), begun(*final(t))) == parsed(
            screen_of(*old(t)),
            begun(*old(t)),
            bytes@,
        ),
        (at_view(screen_of(*final(t)), 0), begun(*final(t))) == parsed(
            at_view(screen_of(*old(t)), 0),
            begun(*old(t)),
            bytes@,
        ),
        grid(screen_of(*final(t))).cols == grid(screen_of(*old(t))).cols,
        grid(screen_of(*final(t))).live.len() == grid(screen_of(*old(t))).live.len(),
        grid(screen_of(*final(t))).history.len() <= limit(screen_of(*final(t))),
        limit(screen_of(*final(t))) == limit(screen_of(*old(t))),
        !torn(screen_of(*final(t))),
        ends_in(begun(*old(t)) + bytes@, begun(*final(t))),
        forall|col: u16, cursor: (u16, u16)|
            begun(*old(t)).len() == 0 && col < grid(screen_of(*old(t))).cols && bytes@
                == #[trigger] trimming(
                grid(screen_of(*old(t))).live.len() as int,
                col as int,
                cursor,
            ) ==> {
                &&& begun(*final(t)).len() == 0
                &&& grid(screen_of(*final(t))) == (Grid {
                    live: grid(screen_of(*final(t))).live,
                    cursor: held_in(
                        cursor,
                        grid(screen_of(*old(t))).live.len() as int,
                        grid(screen_of(*old(t))).cols as int,
                    ),
                    ..grid(screen_of(*old(t)))
                })
                &&& aside(screen_of(*final(t))) == aside(screen_of(*old(t)))
                &&& crossed(screen_of(*final(t)), col) == crossed(screen_of(*old(t)), col).remove(
                    grid(screen_of(*old(t))).alternate,
                )
            },
        forall|on: bool|
            begun(*old(t)).len() == 0 && on != grid(screen_of(*old(t))).alternate && bytes@
                == #[trigger] switching(on) ==> {
                &&& begun(*final(t)).len() == 0
                &&& grid(screen_of(*final(t))) == aside(screen_of(*old(t)))
                &&& grid(screen_of(*final(t))).alternate == on
                &&& aside(screen_of(*final(t))) == (Grid {
                    offset: 0,
                    ..grid(screen_of(*old(t)))
                })
                &&& forall|col: u16|
                    crossed(screen_of(*final(t)), col) == #[trigger] crossed(
                        screen_of(*old(t)),
                        col,
                    )
            },
{
    t.parser.process(bytes)
}

/// `Parser::screen`: the terminal's screen.
#[verifier::external_body]
fn parser_screen(t: &Terminal) -> (s: &Screen)
    ensures
        *s == screen_of(*t),
{
    t.parser.screen()
}

/// `Parser::screen_mut`: the terminal's screen, to change in place; what was begun
/// stays begun.
#[verifier::external_body]
fn parser_screen_mut(t: &mut Terminal) -> (s: &mut Screen)
    ensures
        *s == screen_of(*old(t)),
        screen_of(*final(t)) == *final(s),
        begun(*final(t)) == begun(*old(t)),
{
    t.parser.screen_mut()
}

fn push_moving(v: &mut Vec<u8>, row: u16, col: u16)
    ensures
        final(v)@ == old(v)@ + moving(row as int, col as int),
{
    v.push(27);
    v.push(91);
    push_number(v, row as u64 + 1);
    v.push(100);
    v.push(27);
    v.push(91);
    push_number(v, col as u64 + 1);
    v.push(71);
    assert(v@ =~= old(v)@ + moving(row as int, col as int));
}

fn trimming_bytes(rows: u16, col: u16, cursor: (u16, u16)) -> (v: Vec<u8>)
    ensures
        v@ == trimming(rows as int, col as int, cursor),
{
    let mut v: Vec<u8> = Vec::new();
    let mut r: u16 = 0;
    assert(v@ =~= erasing(0, col as int));
    while r < rows
        invariant
            r <= rows,
            v@ == erasing(r as int, col as int),
        decreases rows - r,
    {
        push_moving(&mut v, r, col);
        v.push(27);
        v.push(91);
        v.push(88);
        r += 1;
        assert(v@ =~= erasing(r as int, col as int));
    }
    push_moving(&mut v, cursor.0, cursor.1);
    v
}

fn switching_bytes(alternate: bool) -> (v: Vec<u8>)
    ensures
        v@ == switching(alternate),
{
    let v: Vec<u8> = vec![
        27,
        91,
        63,
        52,
        55,
        if alternate {
            104
        } else {
            108
        },
    ];
    assert(v@ =~= switching(alternate));
    v
}

/// A screen whose screen in use has no wide character across column `col`, drawn on by
/// a parser that has begun nothing.
pub open spec fn trimmed_once(screen: Screen, col: u16) -> Screen {
    parsed(
        screen,
        Seq::empty(),
        trimming(grid(screen).live.len() as int, col as int, grid(screen).cursor),
    ).0
}

/// A screen with the other of its two screens in use.
pub open spec fn switched(screen: Screen) -> Screen {
    parsed(screen, Seq::empty(), switching(!grid(screen).alternate)).0
}

/// A screen with no wide character across column `col`, on the main screen or on the
/// alternate one, its view where it was.
pub open spec fn trimmed(screen: Screen, col: u16) -> Screen {
    let there = trimmed_once(screen, col);
    let back = switched(trimmed_once(switched(there), col));
    at_view(
        back,
        if grid(screen).offset <= grid(back).history.len() {
            grid(screen).offset
        } else {
            grid(back).history.len() as int
        },
    )
}

impl Terminal {
    /// An empty terminal of the given size that keeps `history` rows of what
    /// scrolls off its top.
    pub fn new(rows: u16, cols: u16, history: usize) -> (t: Terminal)
        requires
            rows > 0,
            cols > 0,
        ensures
            grid(screen_of(t)) == empty_grid(rows, cols),
            limit(screen_of(t)) == history,
            !torn(screen_of(t)),
            begun(t).len() == 0,
    {
        parser_new(rows, cols, history)
    }

    /// Parse `bytes` onto the screen.
    pub fn process(&mut self, bytes: &[u8])
        requires
            takes(screen_of(*old(self)), begun(*old(self)), bytes@),
        ensures
            (screen_of(*final(self)), begun(*final(self))) == parsed(
                screen_of(*old(self)),
                begun(*old(self)),
                bytes@,
            ),
            (at_view(screen_of(*final(self)), 0), begun(*final(self))) == parsed(
                at_view(screen_of(*old(self)), 0),
                begun(*old(self)),
                bytes@,
            ),
            grid(screen_of(*final(self))).cols == grid(screen_of(*old(self))).cols,
            grid(screen_of(*final(self))).live.len() == grid(screen_of(*old(self))).live.len(),
            grid(screen_of(*final(self))).history.len() <= limit(screen_of(*final(self))),
            limit(screen_of(*final(self))) == limit(screen_of(*old(self))),
            drawable(screen_of(*final(self))),
            ends_in(begun(*old(self)) + bytes@, begun(*final(self))),
    {
        parser_process(self, bytes)
    }

    /// Erase the wide characters that stand across column `col` of the screen in use.
    fn trim_once(&mut self, col: u16)
        requires
            drawable(screen_of(*old(self))),
            begun(*old(self)).len() == 0,
            MIN_COLS <= col < grid(screen_of(*old(self))).cols,
        ensures
            screen_of(*final(self)) == trimmed_once(screen_of(*old(self)), col),
            begun(*final(self)).len() == 0,
            drawable(screen_of(*final(self))),
            grid(screen_of(*final(self))).cols == grid(screen_of(*old(self))).cols,
            limit(screen_of(*final(self))) == limit(screen_of(*old(self))),
            grid(screen_of(*final(self))) == (Grid {
                live: grid(screen_of(*final(self))).live,
                cursor: held_in(
                    grid(screen_of(*old(self))).cursor,
                    grid(screen_of(*old(self))).live.len() as int,
                    grid(screen_of(*old(self))).cols as int,
                ),
                ..grid(screen_of(*old(self)))
            }),
            grid(screen_of(*old(self))).cursor.0 < grid(screen_of(*old(self))).live.len(),
            aside(screen_of(*final(self))) == aside(screen_of(*old(self))),
            crossed(screen_of(*final(self)), col) == crossed(
                screen_of(*old(self)),
                col,
            ).remove(grid(screen_of(*old(self))).alternate),
    {
        let (rows, _): (u16, u16) = size(self.screen());
        let cursor: (u16, u16) = cursor_position(self.screen());
        let bytes: Vec<u8> = trimming_bytes(rows, col, cursor);
        assert(begun(*self) =~= Seq::empty());
        parser_process(self, bytes.as_slice());
    }

    /// Put the other of the two screens in use.
    fn switch(&mut self)
        requires
            drawable(screen_of(*old(self))),
            grid(screen_of(*old(self))).cols > MIN_COLS,
            begun(*old(self)).len() == 0,
        ensures
            screen_of(*final(self)) == switched(screen_of(*old(self))),
            begun(*final(self)).len() == 0,
            drawable(screen_of(*final(self))),
            grid(screen_of(*final(self))).cols == grid(screen_of(*old(self))).cols,
            limit(screen_of(*final(self))) == limit(screen_of(*old(self))),
            grid(screen_of(*final(self))) == aside(screen_of(*old(self))),
            grid(screen_of(*final(self))).alternate == !grid(screen_of(*old(self))).alternate,
            aside(screen_of(*final(self))) == (Grid { offset: 0, ..grid(screen_of(*old(self))) }),
            forall|col: u16|
                crossed(screen_of(*final(self)), col) == #[trigger] crossed(
                    screen_of(*old(self)),
                    col,
                ),
    {
        let other: bool = !alternate_screen(self.screen());
        let bytes: Vec<u8> = switching_bytes(other);
        assert(begun(*self) =~= Seq::empty());
        parser_process(self, bytes.as_slice());
    }

    /// Erase the wide characters that stand across column `col`, on the main screen and
    /// on the alternate one. A screen made `col` columns wide is cut there, through a
    /// wide character too, and the half that is left cannot be drawn over. They are
    /// erased by a parser of its own, so that an escape sequence this terminal has begun
    /// goes on as it would have.
    pub fn trim(&mut self, col: u16)
        requires
            drawable(screen_of(*old(self))),
            col >= MIN_COLS,
        ensures
            screen_of(*final(self)) == if col < grid(screen_of(*old(self))).cols {
                trimmed(screen_of(*old(self)), col)
            } else {
                screen_of(*old(self))
            },
            begun(*final(self)) == begun(*old(self)),
            grid(screen_of(*final(self))) == (Grid {
                live: grid(screen_of(*final(self))).live,
                cursor: grid(screen_of(*final(self))).cursor,
                ..grid(screen_of(*old(self)))
            }),
            col < grid(screen_of(*old(self))).cols ==> grid(screen_of(*final(self))).cursor
                == held_in(
                grid(screen_of(*old(self))).cursor,
                grid(screen_of(*old(self))).live.len() as int,
                grid(screen_of(*old(self))).cols as int,
            ) && grid(screen_of(*old(self))).cursor.0 < grid(screen_of(*old(self))).live.len(),
            limit(screen_of(*final(self))) == limit(screen_of(*old(self))),
            drawable(screen_of(*final(self))),
            col < grid(screen_of(*old(self))).cols ==> crossed(
                screen_of(*final(self)),
                col,
            ).is_empty(),
    {
        let (height, width): (u16, u16) = size(self.screen());
        if col < width {
            let view: usize = scrollback(self.screen());
            let mut eraser: Terminal = Terminal::new(height, width, 0);
            std::mem::swap(self.screen_mut(), eraser.screen_mut());
            let ghost start = screen_of(eraser);
            assert(start == screen_of(*old(self)));
            eraser.trim_once(col);
            eraser.switch();
            eraser.trim_once(col);
            eraser.switch();
            proof {
                let a = grid(start).alternate;
                let left = crossed(screen_of(eraser), col);
                assert(left == crossed(start, col).remove(a).remove(!a));
                assert forall|b: bool| !left.contains(b) by {
                    assert(b == a || b == !a);
                }
                assert(left =~= Set::empty());
            }
            set_scrollback(eraser.screen_mut(), view);
            std::mem::swap(self.screen_mut(), eraser.screen_mut());
        }
    }

    /// Give the screen another size. A wide character across the new right edge is torn,
    /// unless it was trimmed.
    pub fn resize(&mut self, rows: u16, cols: u16)
        requires
            rows > 0,
            cols > 0,
        ensures
            screen_of(*final(self)) == resized(screen_of(*old(self)), rows, cols),
            begun(*final(self)) == begun(*old(self)),
            grid(screen_of(*final(self))) == (Grid {
                history: grid(screen_of(*final(self))).history,
                live: grid(screen_of(*final(self))).live,
                cols,
                cursor: held_in(grid(screen_of(*old(self))).cursor, rows as int, cols as int),
                ..grid(screen_of(*old(self)))
            }),
            grid(screen_of(*final(self))).history.len() == grid(
                screen_of(*old(self)),
            ).history.len(),
            grid(screen_of(*final(self))).live.len() == rows,
            limit(screen_of(*final(self))) == limit(screen_of(*old(self))),
            !torn(screen_of(*old(self))) && (cols >= grid(screen_of(*old(self))).cols || crossed(
                screen_of(*old(self)),
                cols,
            ).is_empty()) ==> !torn(screen_of(*final(self))),
    {
        set_size(self.screen_mut(), rows, cols);
    }

    /// The screen.
    pub fn screen(&self) -> (s: &Screen)
        ensures
            *s == screen_of(*self),
    {
        parser_screen(self)
    }

    /// The screen, to scroll its view.
    pub fn screen_mut(&mut self) -> (s: &mut Screen)
        ensures
            *s == screen_of(*old(self)),
            screen_of(*final(self)) == *final(s),
            begun(*final(self)) == begun(*old(self)),
    {
        parser_screen_mut(self)
    }
}

// ── what is in view ─────────────────────────────────────────────────────────

/// The view is as high as the screen; scrolled up by so many rows, it shows those rows of
/// the history at its top, and below them the top of the screen.
pub proof fn the_view_is_scrolled_by_its_offset(g: Grid, i: int)
    requires
        0 <= g.offset <= g.history.len(),
        0 <= i < g.live.len(),
    ensures
        in_view(g).len() == g.live.len(),
        in_view(g)[i] == if i < g.offset {
            g.history[g.history.len() - g.offset + i]
        } else {
            g.live[i - g.offset]
        },
{
}

/// Scrolling moves the view by so many rows, as far as the history goes either way;
/// scrolling by none goes back to the end.
pub proof fn scrolling_stops_at_the_ends(g: Grid, delta: int)
    requires
        0 <= g.offset <= g.history.len(),
    ensures
        0 <= scrolled(g, delta) <= g.history.len(),
        delta != 0 && 0 <= g.offset + delta <= g.history.len() ==> scrolled(g, delta) == g.offset
            + delta,
        delta < 0 && g.offset + delta < 0 ==> scrolled(g, delta) == 0,
        delta > 0 && g.offset + delta > g.history.len() ==> scrolled(g, delta) == g.history.len(),
        scrolled(g, 0) == 0,
{
}

/// A place is held on the screen: one that is on it stays, one beside it goes to the
/// nearest edge.
pub proof fn a_cell_is_held_on_the_screen(cell: (u16, u16), rows: u16, cols: u16)
    requires
        rows > 0,
        cols > 0,
    ensures
        ({
            let c = held_in(cell, rows as int, cols as int);
            &&& c.0 < rows && c.1 < cols
            &&& cell.0 < rows ==> c.0 == cell.0
            &&& cell.1 < cols ==> c.1 == cell.1
            &&& cell.0 >= rows ==> c.0 == rows - 1
            &&& cell.1 >= cols ==> c.1 == cols - 1
        }),
{
}

proof fn lemma_line_up(screen: Screen, row: int) -> (from: int)
    requires
        0 <= row,
    ensures
        0 <= from <= row,
        forall|r: int| from <= r < row ==> #[trigger] goes_on(screen, r),
        from > 0 ==> !goes_on(screen, from - 1),
    decreases row,
{
    if row > 0 && goes_on(screen, row - 1) {
        lemma_line_up(screen, row - 1)
    } else {
        row
    }
}

proof fn lemma_line_down(screen: Screen, row: int, rows: int) -> (to: int)
    requires
        0 <= row < rows,
    ensures
        row <= to < rows,
        forall|r: int| row <= r < to ==> #[trigger] goes_on(screen, r),
        to + 1 < rows ==> !goes_on(screen, to),
    decreases rows - row,
{
    if row + 1 < rows && goes_on(screen, row) {
        lemma_line_down(screen, row + 1, rows)
    } else {
        row
    }
}

/// The line a row belongs to goes up and down as far as rows run into the next.
pub proof fn a_line_goes_as_far_as_rows_run_on(screen: Screen, row: u16, rows: u16)
    requires
        row < rows,
        in_view(grid(screen)).len() == rows,
    ensures
        ({
            let view = in_view(grid(screen));
            let (from, to) = line_rows(screen, row, rows);
            &&& from <= row <= to < rows
            &&& forall|r: int| from <= r < to ==> (#[trigger] view[r]).wrapped
            &&& from > 0 ==> !view[from - 1].wrapped
            &&& to + 1 < rows ==> !view[to as int].wrapped
        }),
{
    let from = lemma_line_up(screen, row as int);
    let to = lemma_line_down(screen, row as int, rows as int);
    assert(line_run(screen, row as int, rows as int, from, to));
    let (f, t) = choose|from: int, to: int| line_run(screen, row as int, rows as int, from, to);
    line_runs_agree(screen, row as int, rows as int, from, to, f, t);
    let view = in_view(grid(screen));
    assert forall|r: int| from <= r < to implies (#[trigger] view[r]).wrapped by {
        assert(goes_on(screen, r));
    }
}

/// Each cell of a row is its character, or a blank where it holds none.
pub proof fn a_row_is_read_cell_by_cell(screen: Screen, row: u16, cols: u16, c: u16)
    requires
        c < cols,
    ensures
        row_cells(screen, row, cols).len() == cols,
        row_cells(screen, row, cols)[c as int] == match cell_text(screen, row, c) {
            Some(t) => if t.len() > 0 {
                t[0]
            } else {
                ' '
            },
            None => ' ',
        },
{
}

/// The text of a screen is that of the rows in view, each on a line of its own where it
/// did not run into the next, without the empty lines at its end.
pub proof fn a_screen_reads_row_by_row(rows: Seq<Row>, row: Row)
    ensures
        run_on(Seq::empty()) == Seq::<char>::empty(),
        !row.wrapped && (rows.len() == 0 || !rows.last().wrapped || row.text.len() > 0) ==> run_on(
            rows.push(row),
        ) == run_on(rows) + row.text + seq!['\n'],
        row.wrapped && row.text.len() > 0 ==> run_on(rows.push(row)) == run_on(rows) + row.text,
{
    assert(rows.push(row).drop_last() =~= rows);
    assert(run_on(rows) + row.text + Seq::<char>::empty() =~= run_on(rows) + row.text);
    assert((run_on(rows) + row.text).push('\n') =~= run_on(rows) + row.text + seq!['\n']);
}

/// The line feeds at the end of a text go, all of them and nothing else.
pub proof fn line_feeds_at_the_end_go(s: Seq<char>, n: nat)
    requires
        s.len() == 0 || s.last() != '\n',
    ensures
        without_feeds(s + Seq::new(n, |i: int| '\n')) == s,
    decreases n,
{
    let t = s + Seq::new(n, |i: int| '\n');
    if n == 0 {
        assert(t =~= s);
    } else {
        assert(t.drop_last() =~= s + Seq::new((n - 1) as nat, |i: int| '\n'));
        line_feeds_at_the_end_go(s, (n - 1) as nat);
    }
}

/// The text between two places on one row, or from a place on the screen down, is what
/// the screen says.
pub proof fn text_is_read_from_the_screen(screen: Screen, a: (u16, u16), b: (u16, u16))
    ensures
        a.1 <= grid(screen).cols || a.0 >= b.0 ==> text_between(screen, a, b) == between(
            screen,
            a.0,
            a.1,
            b.0,
            b.1,
        ),
        a.1 > grid(screen).cols && a.0 < b.0 ==> text_between(screen, a, b).len() == 0,
{
}

/// The text of a screen is that of its rows without the line feeds at the end, and none
/// is left there.
pub proof fn the_text_of_a_screen_ends_in_text(screen: Screen)
    ensures
        ({
            let all = run_on(in_view(grid(screen)));
            let kept = text_of(screen);
            &&& kept.len() <= all.len()
            &&& kept == all.take(kept.len() as int)
            &&& kept.len() > 0 ==> kept.last() != '\n'
            &&& forall|i: int| kept.len() <= i < all.len() ==> #[trigger] all[i] == '\n'
        }),
{
    lemma_without_feeds(run_on(in_view(grid(screen))));
}

proof fn lemma_without_feeds(s: Seq<char>)
    ensures
        without_feeds(s).len() <= s.len(),
        without_feeds(s) == s.take(without_feeds(s).len() as int),
        without_feeds(s).len() > 0 ==> without_feeds(s).last() != '\n',
        forall|i: int| without_feeds(s).len() <= i < s.len() ==> #[trigger] s[i] == '\n',
    decreases s.len(),
{
    if s.len() > 0 && s.last() == '\n' {
        let front = s.drop_last();
        lemma_without_feeds(front);
        let kept = without_feeds(s);
        assert(front.take(kept.len() as int) =~= s.take(kept.len() as int));
        assert forall|i: int| kept.len() <= i < s.len() implies #[trigger] s[i] == '\n' by {
            if i < front.len() {
                assert(front[i] == s[i]);
            }
        }
    } else {
        assert(s.take(s.len() as int) =~= s);
    }
}

/// A column is taken out of a screen by going to it on every row, from the top, and
/// erasing the cell; then the cursor goes back where it was. Rows and columns are counted
/// from one.
pub proof fn a_column_is_erased_row_by_row(rows: int, col: int, cursor: (u16, u16))
    requires
        rows >= 0,
    ensures
        trimming(0, col, cursor) == moving(cursor.0 as int, cursor.1 as int),
        trimming(rows + 1, col, cursor) == erasing(rows, col) + moving(rows, col) + seq![
            27u8,
            91,
            88,
        ] + moving(cursor.0 as int, cursor.1 as int),
        moving(rows, col) == seq![27u8, 91] + mouse::decimal_bytes(rows + 1) + seq![100u8, 27, 91]
            + mouse::decimal_bytes(col + 1) + seq![71u8],
        switching(true) == seq![27u8, 91, 63, 52, 55, 104],
        switching(false) == seq![27u8, 91, 63, 52, 55, 108],
{
    assert(erasing(0, col) + moving(cursor.0 as int, cursor.1 as int) =~= moving(
        cursor.0 as int,
        cursor.1 as int,
    ));
}

/// A screen too small to draw on has fewer than two rows or columns; the widest character
/// is the one that is told by its three bytes, wherever they end among the new ones.
pub proof fn a_screen_has_two_rows_and_columns(rows: int, cols: int, begun: Seq<u8>, before: Seq<u8>, after: Seq<u8>)
    ensures
        fits(rows, cols) <==> rows >= 2 && 2 <= cols < 65528,
        ends_widest(begun, before + seq![0xE1u8, 0x9F, 0x98] + after),
{
    let bytes = before + seq![0xE1u8, 0x9F, 0x98] + after;
    let i = (begun.len() + before.len()) as int;
    let all = begun + bytes;
    assert(all[i] == 0xE1 && all[i + 1] == 0x9F && all[i + 2] == 0x98);
    assert(widest_at(all, i));
}

/// A new screen is empty: blank rows, nothing scrolled off, the cursor at the top, and
/// nothing asked for.
pub proof fn a_new_screen_is_empty(rows: u16, cols: u16, i: int)
    requires
        0 <= i < rows,
    ensures
        ({
            let g = empty_grid(rows, cols);
            &&& g.live.len() == rows && g.cols == cols
            &&& g.live[i].text.len() == 0 && !g.live[i].wrapped
            &&& g.history.len() == 0 && g.offset == 0 && !g.alternate
            &&& g.cursor == (0u16, 0u16)
            &&& g.modes.mouse_mode == MouseMode::Off && !g.modes.app_cursor
                && !g.modes.bracketed_paste
        }),
{
}

/// A column is taken out of both screens, the one shown and the one put aside, and the
/// view stays as far up as there is history.
pub proof fn a_column_is_taken_out_of_both_screens(screen: Screen, col: u16, back: Screen)
    requires
        ({
            let none = Seq::<u8>::empty();
            let here = parsed(
                screen,
                none,
                trimming(grid(screen).live.len() as int, col as int, grid(screen).cursor),
            ).0;
            let there = parsed(here, none, switching(!grid(here).alternate)).0;
            let done = parsed(
                there,
                none,
                trimming(grid(there).live.len() as int, col as int, grid(there).cursor),
            ).0;
            back == parsed(done, none, switching(!grid(done).alternate)).0
        }),
    ensures
        grid(screen).offset <= grid(back).history.len() ==> trimmed(screen, col) == at_view(
            back,
            grid(screen).offset,
        ),
        grid(screen).offset > grid(back).history.len() ==> trimmed(screen, col) == at_view(
            back,
            grid(back).history.len() as int,
        ),
{
}

} // verus!
