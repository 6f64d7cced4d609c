//! Styled text: what the sidebar and the footer are drawn as, in the library's
//! own colors.

use vstd::prelude::*;
use crate::text;

verus! {

/// A color: one of the terminal's own, or one of a fixed shade.
#[derive(Clone, Copy, Debug, PartialEq, Eq, Structural)]
pub enum Color {
    White,
    Yellow,
    DarkGray,
    /// The soft pastel of the active tab and the footer.
    Pastel,
    /// The dark text that stays legible on the pastel.
    Ink,
    /// The quiet track of the activity bar.
    Track,
    /// Its lit segment.
    Lit,
    /// Deep enough a green to carry white text.
    Green,
    /// The white of the activity spinner, whatever the terminal calls white.
    Bright,
    /// The red of the replay button, legible on dark and light alike.
    Coral,
    /// The solid block of a selection.
    Blue,
    /// The red a nearly full context is painted in, legible on the pastel.
    Crimson,
}

/// The shade of a color that has a fixed one.
pub open spec fn shade(c: Color) -> Option<(u8, u8, u8)> {
    match c {
        Color::White => None,
        Color::Yellow => None,
        Color::DarkGray => None,
        Color::Pastel => Some((186, 200, 232)),
        Color::Ink => Some((24, 28, 44)),
        Color::Track => Some((120, 136, 176)),
        Color::Lit => Some((36, 64, 150)),
        Color::Green => Some((30, 120, 60)),
        Color::Bright => Some((255, 255, 255)),
        Color::Coral => Some((255, 92, 92)),
        Color::Blue => Some((38, 90, 150)),
        Color::Crimson => Some((178, 24, 24)),
    }
}

impl Color {
    /// The red, green and blue of a color that has a fixed shade.
    pub fn rgb(self) -> (r: Option<(u8, u8, u8)>)
        ensures
            r == shade(self),
    {
        match self {
            Color::White | Color::Yellow | Color::DarkGray => None,
            Color::Pastel => Some((186, 200, 232)),
            Color::Ink => Some((24, 28, 44)),
            Color::Track => Some((120, 136, 176)),
            Color::Lit => Some((36, 64, 150)),
            Color::Green => Some((30, 120, 60)),
            Color::Bright => Some((255, 255, 255)),
            Color::Coral => Some((255, 92, 92)),
            Color::Blue => Some((38, 90, 150)),
            Color::Crimson => Some((178, 24, 24)),
        }
    }
}

/// How a piece of text is drawn: what it sets, and what it leaves as it is.
#[derive(Clone, Copy, Debug, PartialEq, Eq, Structural)]
pub struct Style {
    pub fg: Option<Color>,
    pub bg: Option<Color>,
    pub bold: bool,
    pub reversed: bool,
}

/// The style that sets nothing.
pub open spec fn plain() -> Style {
    Style { fg: None, bg: None, bold: false, reversed: false }
}

impl Style {
    /// The style that sets nothing.
    pub fn new() -> (s: Style)
        ensures
            s == plain(),
    {
        Style { fg: None, bg: None, bold: false, reversed: false }
    }

    /// This style with another foreground.
    pub open spec fn with_fg(self, c: Color) -> Style {
        Style { fg: Some(c), ..self }
    }

    /// This style with another background.
    pub open spec fn with_bg(self, c: Color) -> Style {
        Style { bg: Some(c), ..self }
    }

    /// This style in bold.
    pub open spec fn with_bold(self) -> Style {
        Style { bold: true, ..self }
    }

    /// This style with another foreground.
    pub fn fg(self, c: Color) -> (s: Style)
        ensures
            s == self.with_fg(c),
    {
        Style { fg: Some(c), ..self }
    }

    /// This style with another background.
    pub fn bg(self, c: Color) -> (s: Style)
        ensures
            s == self.with_bg(c),
    {
        Style { bg: Some(c), ..self }
    }

    /// This style in bold.
    pub fn bold(self) -> (s: Style)
        ensures
            s == self.with_bold(),
    {
        Style { bold: true, ..self }
    }
}

/// A piece of text in one style.
#[derive(Clone, Debug)]
pub struct Span {
    pub text: String,
    pub style: Style,
}

/// What a `Span` stands for.
pub struct Piece {
    pub text: Seq<char>,
    pub style: Style,
}

impl View for Span {
    type V = Piece;

    open spec fn view(&self) -> Piece {
        Piece { text: self.text@, style: self.style }
    }
}

/// The pieces a row of spans stands for.
pub open spec fn pieces(v: Seq<Span>) -> Seq<Piece> {
    v.map_values(|s: Span| s@)
}

/// The rows a list of rows stands for.
pub open spec fn rows_of(v: Seq<Vec<Span>>) -> Seq<Seq<Piece>> {
    v.map_values(|r: Vec<Span>| pieces(r@))
}

/// The characters of a row, without their styles.
pub open spec fn row_text(row: Seq<Piece>) -> Seq<char>
    decreases row.len(),
{
    if row.len() == 0 {
        Seq::empty()
    } else {
        row_text(row.drop_last()) + row.last().text
    }
}

/// A span of `text` in `style`.
pub fn span(text: &str, style: Style) -> (s: Span)
    ensures
        s@ == (Piece { text: text@, style }),
{
    Span { text: text::copy(text), style }
}

/// A row of one span.
pub fn row(text: String, style: Style) -> (v: Vec<Span>)
    ensures
        pieces(v@) == seq![Piece { text: text@, style }],
{
    let v: Vec<Span> = vec![Span { text, style }];
    assert(pieces(v@) =~= seq![Piece { text: text@, style }]);
    v
}

/// Adds a span to a row.
pub fn push_span(v: &mut Vec<Span>, text: String, style: Style)
    ensures
        pieces(final(v)@) == pieces(old(v)@).push(Piece { text: text@, style }),
{
    let ghost was = pieces(v@);
    v.push(Span { text, style });
    assert(pieces(v@) =~= was.push(Piece { text: text@, style }));
}

/// The characters of a row, without their styles.
pub fn plain_text(v: &Vec<Span>) -> (t: String)
    ensures
        t@ == row_text(pieces(v@)),
{
    let mut t: String = String::new();
    let ghost all = pieces(v@);
    let mut i: usize = 0;
    assert(all.take(0) =~= Seq::empty());
    while i < v.len()
        invariant
            all == pieces(v@),
            i <= v@.len(),
            t@ == row_text(all.take(i as int)),
        decreases v.len() - i,
    {
        text::push_str(&mut t, v[i].text.as_str());
        assert(all.take(i + 1).drop_last() =~= all.take(i as int));
        assert(all.take(i + 1).last() == v@[i as int]@);
        i += 1;
    }
    assert(all.take(i as int) =~= all);
    t
}

/// A row reads piece by piece: one more piece is read behind the others, and a piece by
/// itself reads as its text.
pub proof fn a_row_reads_piece_by_piece(row: Seq<Piece>, p: Piece)
    ensures
        row_text(row.push(p)) == row_text(row) + p.text,
        row_text(seq![p]) == p.text,
        row_text(Seq::empty()) == Seq::<char>::empty(),
{
    assert(row.push(p).drop_last() =~= row);
    assert(seq![p].drop_last() =~= Seq::<Piece>::empty());
    reveal_with_fuel(row_text, 2);
    assert(row_text(seq![p]) =~= p.text);
}

} // verus!
