//! Cells of the terminal pane: what a selection covers, and the word under a
//! click. A cell is (row, column), counted from the top left of the pane.

use vstd::prelude::*;

verus! {

// ── the word under a cell ───────────────────────────────────────────────────

/// Whether `char::is_alphanumeric` accepts `c`.
pub uninterp spec fn alphanumeric(c: char) -> bool;

/// `char::is_alphanumeric`: whether Unicode calls `c` alphabetic or numeric,
/// which is a property of the character alone.
#[verifier::external_body]
fn is_alphanumeric(c: char) -> (r: bool)
    ensures
        r == alphanumeric(c),
{
    c.is_alphanumeric()
}

/// Whether `c` is part of a word: a letter or a digit, or the punctuation that
/// holds paths, URLs, flags and identifiers together.
pub open spec fn word_char(c: char) -> bool {
    ||| alphanumeric(c)
    ||| c == '_' || c == '-' || c == '.' || c == '/' || c == '~' || c == ':' || c == '@'
    ||| c == '+' || c == '=' || c == '#' || c == '%' || c == '&' || c == '?' || c == ','
    ||| c == '\\'
}

fn is_word(c: char) -> (r: bool)
    ensures
        r == word_char(c),
{
    is_alphanumeric(c) || c == '_' || c == '-' || c == '.' || c == '/' || c == '~' || c == ':' || c
        == '@' || c == '+' || c == '=' || c == '#' || c == '%' || c == '&' || c == '?' || c == ','
        || c == '\\'
}

/// Whether `from..=to` is the whole run of word characters around `at`.
pub open spec fn word_run(chars: Seq<char>, at: int, from: int, to: int) -> bool {
    &&& 0 <= from <= at <= to < chars.len()
    &&& forall|i: int| from <= i <= to ==> word_char(#[trigger] chars[i])
    &&& from > 0 ==> !word_char(chars[from - 1])
    &&& to + 1 < chars.len() ==> !word_char(chars[to + 1])
}

/// There is at most one such run.
pub proof fn word_runs_agree(chars: Seq<char>, at: int, a: int, b: int, c: int, d: int)
    requires
        word_run(chars, at, a, b),
        word_run(chars, at, c, d),
    ensures
        a == c && b == d,
{
    if a < c {
        assert(word_char(chars[c - 1]));
    }
    if c < a {
        assert(word_char(chars[a - 1]));
    }
    if b < d {
        assert(word_char(chars[b + 1]));
    }
    if d < b {
        assert(word_char(chars[d + 1]));
    }
}

/// The columns of the word around `col`: the run of word characters it stands in,
/// or just itself when it stands in none.
pub open spec fn word_cols(chars: Seq<char>, col: u16) -> (u16, u16) {
    if col < chars.len() && word_char(chars[col as int]) {
        let (from, to) = choose|from: int, to: int| word_run(chars, col as int, from, to);
        (from as u16, to as u16)
    } else {
        (col, col)
    }
}

/// Columns of the word around `col`: the run of word characters it stands in,
/// or just itself when it stands in none.
pub fn word_span(chars: &[char], col: u16) -> (r: (u16, u16))
    ensures
        r == word_cols(chars@, col),
        col < chars@.len() && word_char(chars@[col as int]) ==> exists|from: int, to: int|
            word_run(chars@, col as int, from, to) && r == (from as u16, to as u16),
{
    let at: usize = col as usize;
    if at >= chars.len() || !is_word(chars[at]) {
        return (col, col);
    }
    let mut from: usize = at;
    while from > 0 && is_word(chars[from - 1])
        invariant
            from <= at < chars@.len(),
            forall|i: int| from <= i <= at ==> word_char(#[trigger] chars@[i]),
        decreases from,
    {
        from -= 1;
    }
    let mut to: usize = at;
    while to + 1 < chars.len() && is_word(chars[to + 1])
        invariant
            from <= at <= to < chars@.len(),
            chars@.len() <= usize::MAX,
            forall|i: int| from <= i <= to ==> word_char(#[trigger] chars@[i]),
        decreases chars@.len() - to,
    {
        to += 1;
    }
    proof {
        assert(word_run(chars@, col as int, from as int, to as int));
        let (f, t) = choose|f: int, t: int| word_run(chars@, col as int, f, t);
        word_runs_agree(chars@, col as int, from as int, to as int, f, t);
    }
    (from as u16, to as u16)
}

// ── ordering ────────────────────────────────────────────────────────────────

/// Whether `a` comes no later than `b` in reading order.
pub open spec fn reads_before(a: (u16, u16), b: (u16, u16)) -> bool {
    a.0 < b.0 || (a.0 == b.0 && a.1 <= b.1)
}

/// Order two cells into reading order (top-to-bottom, left-to-right).
pub fn order(a: (u16, u16), b: (u16, u16)) -> (r: ((u16, u16), (u16, u16)))
    ensures
        r == ordered(a, b),
{
    if a.0 < b.0 || (a.0 == b.0 && a.1 <= b.1) {
        (a, b)
    } else {
        (b, a)
    }
}

/// The two cells in reading order.
pub open spec fn ordered(a: (u16, u16), b: (u16, u16)) -> ((u16, u16), (u16, u16)) {
    if reads_before(a, b) {
        (a, b)
    } else {
        (b, a)
    }
}

/// The corners of the rectangle two cells span.
pub open spec fn rectangle(a: (u16, u16), b: (u16, u16)) -> ((u16, u16), (u16, u16)) {
    let top = if a.0 <= b.0 { a.0 } else { b.0 };
    let left = if a.1 <= b.1 { a.1 } else { b.1 };
    let bottom = if a.0 <= b.0 { b.0 } else { a.0 };
    let right = if a.1 <= b.1 { b.1 } else { a.1 };
    ((top, left), (bottom, right))
}

/// Top-left and bottom-right corners of the rectangle `a` and `b` span — each
/// axis sorted on its own, so a block dragged toward the top-right or
/// bottom-left is the same rectangle as one dragged the other way.
pub fn corners(a: (u16, u16), b: (u16, u16)) -> (r: ((u16, u16), (u16, u16)))
    ensures
        r == rectangle(a, b),
{
    let (top, bottom): (u16, u16) = if a.0 <= b.0 {
        (a.0, b.0)
    } else {
        (b.0, a.0)
    };
    let (left, right): (u16, u16) = if a.1 <= b.1 {
        (a.1, b.1)
    } else {
        (b.1, a.1)
    };
    ((top, left), (bottom, right))
}

/// A selection reads the same whichever end the drag started from.
pub proof fn order_is_symmetric(a: (u16, u16), b: (u16, u16))
    ensures
        ordered(a, b) == ordered(b, a),
        reads_before(ordered(a, b).0, ordered(a, b).1),
{
}

/// A block is the same rectangle from either diagonal.
pub proof fn rectangle_is_the_same_from_either_diagonal(a: (u16, u16), b: (u16, u16))
    ensures
        rectangle(a, b) == rectangle(b, a),
        rectangle(a, b) == rectangle((a.0, b.1), (b.0, a.1)),
{
}

// ── the cells covered ───────────────────────────────────────────────────────

/// The cells `[from, to)` of row `r`.
pub open spec fn row_cells(r: u16, from: int, to: int) -> Seq<(u16, u16)> {
    Seq::new(
        if to > from {
            (to - from) as nat
        } else {
            0
        },
        |i: int| (r, (from + i) as u16),
    )
}

/// The cells `[left, right)` of every row in `[from, to)`, row by row.
pub open spec fn rows_cells(from: int, to: int, left: int, right: int) -> Seq<(u16, u16)>
    decreases to - from,
{
    if from >= to {
        Seq::empty()
    } else {
        rows_cells(from, to - 1, left, right) + row_cells((to - 1) as u16, left, right)
    }
}

/// The cells of a reading-order selection: a partial first row, full middle
/// rows, and a partial last row.
pub open spec fn reading_cells(a: (u16, u16), b: (u16, u16), cols: u16) -> Seq<(u16, u16)> {
    if a.0 == b.0 {
        row_cells(a.0, a.1 as int, b.1 + 1)
    } else if a.0 < b.0 {
        row_cells(a.0, a.1 as int, cols as int) + rows_cells(a.0 + 1, b.0 as int, 0, cols as int)
            + row_cells(b.0, 0, b.1 + 1)
    } else {
        Seq::empty()
    }
}

fn push_row(cells: &mut Vec<(u16, u16)>, r: u16, from: u32, to: u32)
    requires
        to <= 65536,
    ensures
        final(cells)@ == old(cells)@ + row_cells(r, from as int, to as int),
{
    let mut c: u32 = from;
    assert(cells@ =~= old(cells)@ + row_cells(r, from as int, from as int));
    if to <= from {
        assert(row_cells(r, from as int, to as int) =~= row_cells(r, from as int, from as int));
        return;
    }
    while c < to
        invariant
            from <= c <= to <= 65536,
            cells@ == old(cells)@ + row_cells(r, from as int, c as int),
        decreases to - c,
    {
        cells.push((r, c as u16));
        c += 1;
        assert(row_cells(r, from as int, c as int) =~= row_cells(r, from as int, c - 1).push(
            (r, (c - 1) as u16),
        ));
        assert(cells@ =~= old(cells)@ + row_cells(r, from as int, c as int));
    }
}

fn push_rows(cells: &mut Vec<(u16, u16)>, from: u32, to: u32, left: u32, right: u32)
    requires
        to <= 65536,
        right <= 65536,
    ensures
        final(cells)@ == old(cells)@ + rows_cells(from as int, to as int, left as int, right as int),
{
    let mut r: u32 = from;
    assert(cells@ =~= old(cells)@ + rows_cells(from as int, from as int, left as int, right as int));
    if to <= from {
        return;
    }
    while r < to
        invariant
            from <= r <= to <= 65536,
            right <= 65536,
            cells@ == old(cells)@ + rows_cells(from as int, r as int, left as int, right as int),
        decreases to - r,
    {
        push_row(cells, r as u16, left, right);
        r += 1;
        assert(cells@ =~= old(cells)@ + rows_cells(
            from as int,
            r as int,
            left as int,
            right as int,
        ));
    }
}

/// The cells covered by a reading-order selection from `a` to `b` (inclusive)
/// on a grid `cols` wide.
pub fn selection_cells(a: (u16, u16), b: (u16, u16), cols: u16) -> (cells: Vec<(u16, u16)>)
    requires
        a.0 < u16::MAX,
    ensures
        cells@ == reading_cells(a, b, cols),
{
    let mut cells: Vec<(u16, u16)> = Vec::new();
    if a.0 == b.0 {
        push_row(&mut cells, a.0, a.1 as u32, b.1 as u32 + 1);
    } else if a.0 < b.0 {
        push_row(&mut cells, a.0, a.1 as u32, cols as u32);
        push_rows(&mut cells, a.0 as u32 + 1, b.0 as u32, 0, cols as u32);
        push_row(&mut cells, b.0, 0, b.1 as u32 + 1);
    }
    assert(cells@ =~= reading_cells(a, b, cols));
    cells
}

/// The cells of a block selection between `a` and `b` (inclusive): every cell
/// in the rectangle, row by row.
pub fn block_cells(a: (u16, u16), b: (u16, u16)) -> (cells: Vec<(u16, u16)>)
    ensures
        cells@ == ({
            let (a, b) = rectangle(a, b);
            rows_cells(a.0 as int, b.0 + 1, a.1 as int, b.1 + 1)
        }),
{
    let (a, b): ((u16, u16), (u16, u16)) = corners(a, b);
    let mut cells: Vec<(u16, u16)> = Vec::new();
    push_rows(&mut cells, a.0 as u32, b.0 as u32 + 1, a.1 as u32, b.1 as u32 + 1);
    assert(cells@ =~= rows_cells(a.0 as int, b.0 + 1, a.1 as int, b.1 + 1));
    cells
}

// ── what is painted ─────────────────────────────────────────────────────────

/// The cells a selection covers on a grid `cols` wide.
pub open spec fn covered(
    anchor: (u16, u16),
    head: (u16, u16),
    block: bool,
    cols: u16,
) -> Seq<(u16, u16)> {
    let (a, b) = ordered(anchor, head);
    if block {
        let (p, q) = rectangle(a, b);
        rows_cells(p.0 as int, q.0 + 1, p.1 as int, q.1 + 1)
    } else {
        reading_cells(a, b, cols)
    }
}

/// Those of some cells that lie inside a pane.
pub open spec fn inside(cells: Seq<(u16, u16)>, height: u16, width: u16) -> Seq<(u16, u16)>
    decreases cells.len(),
{
    if cells.len() == 0 {
        Seq::empty()
    } else {
        let rest = inside(cells.drop_last(), height, width);
        let c = cells.last();
        if c.0 < height && c.1 < width {
            rest.push(c)
        } else {
            rest
        }
    }
}

/// The cells to paint for a selection, on a pane of the given size.
pub fn highlighted(
    anchor: (u16, u16),
    head: (u16, u16),
    block: bool,
    cols: u16,
    height: u16,
    width: u16,
) -> (cells: Vec<(u16, u16)>)
    requires
        block || ordered(anchor, head).0.0 < u16::MAX,
    ensures
        cells@ == inside(covered(anchor, head, block, cols), height, width),
{
    let (a, b): ((u16, u16), (u16, u16)) = order(anchor, head);
    let all: Vec<(u16, u16)> = if block {
        block_cells(a, b)
    } else {
        selection_cells(a, b, cols)
    };
    let mut cells: Vec<(u16, u16)> = Vec::new();
    let mut i: usize = 0;
    assert(all@.take(0) =~= Seq::empty());
    while i < all.len()
        invariant
            i <= all@.len(),
            cells@ == inside(all@.take(i as int), height, width),
        decreases all.len() - i,
    {
        assert(all@.take(i + 1).drop_last() =~= all@.take(i as int));
        let c: (u16, u16) = all[i];
        if c.0 < height && c.1 < width {
            cells.push(c);
        }
        i += 1;
    }
    assert(all@.take(i as int) =~= all@);
    cells
}

// ── which cells a selection takes in ────────────────────────────────────────

/// Whether a cell is read no later than another: it stands on a row above, or on the
/// same row no further right.
pub open spec fn no_later(a: (u16, u16), b: (u16, u16)) -> bool {
    a.0 < b.0 || (a.0 == b.0 && a.1 <= b.1)
}

/// Whether a cell lies between two others, as text is read, from whichever to the other.
pub open spec fn read_between(c: (u16, u16), a: (u16, u16), b: (u16, u16)) -> bool {
    (no_later(a, c) && no_later(c, b)) || (no_later(b, c) && no_later(c, a))
}

proof fn lemma_row_cells(r: u16, from: int, to: int, c: (u16, u16))
    requires
        0 <= from,
        to <= 65536,
    ensures
        row_cells(r, from, to).contains(c) <==> c.0 == r && from <= c.1 < to,
{
    let cells = row_cells(r, from, to);
    if c.0 == r && from <= c.1 < to {
        assert(cells[c.1 - from] == c);
    }
    if cells.contains(c) {
        let i = choose|i: int| 0 <= i < cells.len() && cells[i] == c;
        assert(c.1 == from + i);
    }
}

proof fn lemma_rows_cells(from: int, to: int, left: int, right: int, c: (u16, u16))
    requires
        0 <= from,
        to <= 65536,
        0 <= left,
        right <= 65536,
    ensures
        rows_cells(from, to, left, right).contains(c) <==> from <= c.0 < to && left <= c.1 < right,
    decreases to - from,
{
    if from < to {
        lemma_rows_cells(from, to - 1, left, right, c);
        lemma_row_cells((to - 1) as u16, left, right, c);
        lemma_contains_add(
            rows_cells(from, to - 1, left, right),
            row_cells((to - 1) as u16, left, right),
            c,
        );
    }
}

proof fn lemma_contains_add(a: Seq<(u16, u16)>, b: Seq<(u16, u16)>, c: (u16, u16))
    ensures
        (a + b).contains(c) <==> a.contains(c) || b.contains(c),
{
    if a.contains(c) {
        let i = choose|i: int| 0 <= i < a.len() && a[i] == c;
        assert((a + b)[i] == c);
    }
    if b.contains(c) {
        let i = choose|i: int| 0 <= i < b.len() && b[i] == c;
        assert((a + b)[a.len() + i] == c);
    }
    if (a + b).contains(c) {
        let i = choose|i: int| 0 <= i < (a + b).len() && (a + b)[i] == c;
        if i < a.len() {
            assert(a[i] == c);
        } else {
            assert(b[i - a.len()] == c);
        }
    }
}

/// A selection takes in exactly the cells that are read from one of its ends to the
/// other, both included.
pub proof fn a_selection_takes_in_what_lies_between(
    anchor: (u16, u16),
    head: (u16, u16),
    cols: u16,
    c: (u16, u16),
)
    requires
        anchor.1 < cols,
        head.1 < cols,
        c.1 < cols,
    ensures
        covered(anchor, head, false, cols).contains(c) <==> read_between(c, anchor, head),
{
    let (a, b) = ordered(anchor, head);
    if a.0 == b.0 {
        lemma_row_cells(a.0, a.1 as int, b.1 + 1, c);
    } else {
        let first = row_cells(a.0, a.1 as int, cols as int);
        let middle = rows_cells(a.0 + 1, b.0 as int, 0, cols as int);
        let last = row_cells(b.0, 0, b.1 + 1);
        lemma_row_cells(a.0, a.1 as int, cols as int, c);
        lemma_rows_cells(a.0 + 1, b.0 as int, 0, cols as int, c);
        lemma_row_cells(b.0, 0, b.1 + 1, c);
        lemma_contains_add(first, middle, c);
        lemma_contains_add(first + middle, last, c);
    }
}

/// A selection begins with the end that is read first, and ends with the other.
pub proof fn a_selection_runs_from_end_to_end(p: (u16, u16), q: (u16, u16), cols: u16)
    requires
        no_later(p, q),
        p.1 < cols,
        q.1 < cols,
    ensures
        covered(p, q, false, cols) == covered(q, p, false, cols),
        covered(p, q, false, cols).len() > 0,
        covered(p, q, false, cols)[0] == p,
        covered(p, q, false, cols).last() == q,
{
}

/// A block takes in exactly the rectangle between its corners, both included.
pub proof fn a_block_takes_in_its_rectangle(
    anchor: (u16, u16),
    head: (u16, u16),
    cols: u16,
    c: (u16, u16),
)
    ensures
        covered(anchor, head, true, cols).contains(c) <==> {
            &&& anchor.0 <= c.0 <= head.0 || head.0 <= c.0 <= anchor.0
            &&& anchor.1 <= c.1 <= head.1 || head.1 <= c.1 <= anchor.1
        },
{
    let (a, b) = ordered(anchor, head);
    let (p, q) = rectangle(a, b);
    lemma_rows_cells(p.0 as int, q.0 + 1, p.1 as int, q.1 + 1, c);
}

/// Of the cells taken in, exactly those on screen are highlighted.
pub proof fn cells_off_screen_are_left_out(
    cells: Seq<(u16, u16)>,
    height: u16,
    width: u16,
    c: (u16, u16),
)
    ensures
        inside(cells, height, width).contains(c) <==> cells.contains(c) && c.0 < height && c.1 < width,
    decreases cells.len(),
{
    if cells.len() > 0 {
        cells_off_screen_are_left_out(cells.drop_last(), height, width, c);
        let one = seq![cells.last()];
        assert(cells =~= cells.drop_last() + one);
        lemma_contains_add(cells.drop_last(), one, c);
        assert(one.contains(c) <==> c == cells.last()) by {
            if c == cells.last() {
                assert(one[0] == c);
            }
        }
        let rest = inside(cells.drop_last(), height, width);
        assert(rest.push(cells.last()) =~= rest + one);
        lemma_contains_add(rest, one, c);
    }
}

// ── what a word is ──────────────────────────────────────────────────────────

/// A word is made of letters, digits and what paths and addresses are written with.
pub proof fn words_are_made_of_these(c: char)
    ensures
        word_char(c) <==> alphanumeric(c) || "_-./~:@+=#%&?,\\"@.contains(c),
{
    reveal_strlit("_-./~:@+=#%&?,\\");
    let s = "_-./~:@+=#%&?,\\"@;
    assert(s[0] == '_' && s[1] == '-' && s[2] == '.' && s[3] == '/' && s[4] == '~' && s[5] == ':'
        && s[6] == '@' && s[7] == '+' && s[8] == '=' && s[9] == '#' && s[10] == '%' && s[11] == '&'
        && s[12] == '?' && s[13] == ',' && s[14] == '\\');
    assert(s.len() == 15);
}

proof fn lemma_left(chars: Seq<char>, at: int) -> (from: int)
    requires
        0 <= at < chars.len(),
        word_char(chars[at]),
    ensures
        0 <= from <= at,
        forall|i: int| from <= i <= at ==> word_char(#[trigger] chars[i]),
        from > 0 ==> !word_char(chars[from - 1]),
    decreases at,
{
    if at > 0 && word_char(chars[at - 1]) {
        lemma_left(chars, at - 1)
    } else {
        at
    }
}

proof fn lemma_right(chars: Seq<char>, at: int) -> (to: int)
    requires
        0 <= at < chars.len(),
        word_char(chars[at]),
    ensures
        at <= to < chars.len(),
        forall|i: int| at <= i <= to ==> word_char(#[trigger] chars[i]),
        to + 1 < chars.len() ==> !word_char(chars[to + 1]),
    decreases chars.len() - at,
{
    if at + 1 < chars.len() && word_char(chars[at + 1]) {
        lemma_right(chars, at + 1)
    } else {
        at
    }
}

/// The word under a cell goes as far as it can both ways; a cell that is no part of a
/// word is by itself.
pub proof fn a_word_goes_as_far_as_it_can(chars: Seq<char>, col: u16)
    requires
        col < chars.len() <= 65536,
    ensures
        ({
            let (from, to) = word_cols(chars, col);
            &&& from <= col <= to < chars.len()
            &&& word_char(chars[col as int]) ==> {
                &&& forall|i: int| from <= i <= to ==> word_char(#[trigger] chars[i])
                &&& from > 0 ==> !word_char(chars[from - 1])
                &&& to + 1 < chars.len() ==> !word_char(chars[to + 1])
            }
            &&& !word_char(chars[col as int]) ==> from == col && to == col
        }),
{
    if word_char(chars[col as int]) {
        let from = lemma_left(chars, col as int);
        let to = lemma_right(chars, col as int);
        assert(word_run(chars, col as int, from, to));
        let (f, t) = choose|from: int, to: int| word_run(chars, col as int, from, to);
        word_runs_agree(chars, col as int, from, to, f, t);
    }
}

} // verus!
