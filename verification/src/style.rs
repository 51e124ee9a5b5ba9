//! Styled text and screen areas, independent of any terminal library.
use vstd::prelude::*;

verus! {

#[derive(Debug, Clone, Copy, PartialEq, Eq, Structural)]
pub enum Color {
    /// The terminal default.
    Reset,
    Black,
    Red,
    Green,
    Yellow,
    Blue,
    Magenta,
    Cyan,
    Gray,
    DarkGray,
    LightRed,
    LightGreen,
    LightYellow,
    LightBlue,
    LightMagenta,
    LightCyan,
    White,
    Rgb(u8, u8, u8),
}

#[derive(Debug, Clone, Copy, PartialEq, Eq, Structural)]
pub struct Style {
    pub fg: Option<Color>,
    pub dim: bool,
    pub reversed: bool,
}

/// Text as the terminal shows it by default.
pub open spec fn plain() -> Style {
    Style { fg: None, dim: false, reversed: false }
}

pub open spec fn dimmed() -> Style {
    Style { dim: true, ..plain() }
}

pub open spec fn reversed() -> Style {
    Style { reversed: true, ..plain() }
}

pub open spec fn colored(color: Color) -> Style {
    Style { fg: Some(color), ..plain() }
}

impl Default for Style {
    fn default() -> (r: Self)
        ensures
            r == plain(),
    {
        Style { fg: None, dim: false, reversed: false }
    }
}

impl Style {
    pub fn dim() -> (r: Self)
        ensures
            r == dimmed(),
    {
        Style { fg: None, dim: true, reversed: false }
    }

    pub fn reverse() -> (r: Self)
        ensures
            r == reversed(),
    {
        Style { fg: None, dim: false, reversed: true }
    }

    pub fn fg(color: Color) -> (r: Self)
        ensures
            r == colored(color),
    {
        Style { fg: Some(color), dim: false, reversed: false }
    }
}

/// A piece of text in one style.
#[derive(Debug, PartialEq, Eq)]
pub struct Span {
    pub content: String,
    pub style: Style,
}

#[verifier::ext_equal]
pub struct SpanV {
    pub content: Seq<char>,
    pub style: Style,
}

impl View for Span {
    type V = SpanV;

    open spec fn view(&self) -> SpanV {
        SpanV { content: self.content@, style: self.style }
    }
}

pub open spec fn span(content: Seq<char>, style: Style) -> SpanV {
    SpanV { content, style }
}

/// Text in the default style.
pub open spec fn raw(content: Seq<char>) -> SpanV {
    span(content, plain())
}

impl Span {
    pub fn styled(content: String, style: Style) -> (r: Self)
        ensures
            r@ == span(content@, style),
    {
        Span { content, style }
    }

    pub fn raw(content: String) -> (r: Self)
        ensures
            r@ == raw(content@),
    {
        Span { content, style: Style::default() }
    }
}

/// One line of styled text.
#[derive(Debug, PartialEq, Eq)]
pub struct Line {
    pub spans: Vec<Span>,
}

impl View for Line {
    type V = Seq<SpanV>;

    open spec fn view(&self) -> Seq<SpanV> {
        self.spans@.map_values(|s: Span| s@)
    }
}

/// The views of a list of lines.
pub open spec fn lines_view(v: Seq<Line>) -> Seq<Seq<SpanV>> {
    v.map_values(|l: Line| l@)
}

/// The text of a line without its styles.
pub open spec fn line_text(spans: Seq<SpanV>) -> Seq<char>
    decreases spans.len(),
{
    if spans.len() == 0 {
        seq![]
    } else {
        line_text(spans.drop_last()) + spans.last().content
    }
}

impl Line {
    pub fn empty() -> (r: Self)
        ensures
            r@ == Seq::<SpanV>::empty(),
    {
        let r = Line { spans: Vec::new() };
        assert(r@ =~= Seq::<SpanV>::empty());
        r
    }

    /// A line of one span.
    pub fn of(span: Span) -> (r: Self)
        ensures
            r@ == seq![span@],
    {
        let mut r = Line::empty();
        r.push(span);
        assert(r@ =~= seq![span@]);
        r
    }

    pub fn push(&mut self, span: Span)
        ensures
            final(self)@ == old(self)@.push(span@),
    {
        let ghost before = self@;
        self.spans.push(span);
        assert(self@ =~= before.push(span@));
    }

    /// The text without its styles.
    pub fn text(&self) -> (r: String)
        ensures
            r@ == line_text(self@),
    {
        let mut r = String::new();
        let mut i: usize = 0;
        assert(self@.take(0) =~= seq![]);
        while i < self.spans.len()
            invariant
                i <= self.spans.len(),
                r@ == line_text(self@.take(i as int)),
            decreases self.spans.len() - i,
        {
            assert(self@.take(i + 1).drop_last() =~= self@.take(i as int));
            assert(self@.take(i + 1).last() == self.spans@[i as int]@);
            r.append(self.spans[i].content.as_str());
            i = i + 1;
        }
        assert(self@.take(i as int) =~= self@);
        r
    }
}

/// A rectangle of the screen, in columns and rows.
#[derive(Debug, Clone, Copy, PartialEq, Eq, Structural)]
pub struct Rect {
    pub x: u16,
    pub y: u16,
    pub width: u16,
    pub height: u16,
}

impl Rect {
    pub fn new(x: u16, y: u16, width: u16, height: u16) -> (r: Self)
        ensures
            r == (Rect { x, y, width, height }),
    {
        Rect { x, y, width, height }
    }

    /// The first column right of the rectangle.
    pub fn right(&self) -> (r: u16)
        ensures
            r == (if self.x + self.width <= u16::MAX {
                (self.x + self.width) as u16
            } else {
                u16::MAX
            }),
    {
        self.x.saturating_add(self.width)
    }

    /// The first row below the rectangle.
    pub fn bottom(&self) -> (r: u16)
        ensures
            r == (if self.y + self.height <= u16::MAX {
                (self.y + self.height) as u16
            } else {
                u16::MAX
            }),
    {
        self.y.saturating_add(self.height)
    }
}

} // verus!
