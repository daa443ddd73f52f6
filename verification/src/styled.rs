//! Lines of styled text, and how the editor wraps, highlights and marks them.

use crate::edit::{column_width, least, line_col};
use crate::parse::{heading_of, parse_heading};
use crate::render::{normalize_text, normalized};
use crate::text::{
    a_stripped_prefix_was_there, chars_of, copy_of, lines, lines_of, repeat_char, repeated,
    string_of, strip_prefix, views, without_prefix,
};
use vstd::prelude::*;

verus! {

#[derive(Debug, Clone, Copy, PartialEq, Eq, Structural)]
pub enum Color {
    Black,
    White,
    Gray,
    DarkGray,
    Yellow,
    Green,
    Cyan,
    Blue,
    Magenta,
    Rgb(u8, u8, u8),
}

/// How a text looks.
#[derive(Debug, Clone, Copy, PartialEq, Eq, Structural)]
pub struct Style {
    pub fg: Option<Color>,
    pub bg: Option<Color>,
    pub bold: bool,
}

/// A text of one style.
#[derive(Debug, Clone, PartialEq, Eq)]
pub struct StyledSpan {
    pub text: String,
    pub style: Style,
}

/// A line of spans, with a style of its own beneath theirs.
#[derive(Debug, Clone, PartialEq, Eq)]
pub struct StyledLine {
    pub spans: Vec<StyledSpan>,
    pub style: Style,
}

/// What a [`StyledSpan`] holds.
#[verifier::ext_equal]
pub struct SpanModel {
    pub text: Seq<char>,
    pub style: Style,
}

/// What a [`StyledLine`] holds.
#[verifier::ext_equal]
pub struct LineModel {
    pub spans: Seq<SpanModel>,
    pub style: Style,
}

impl View for StyledSpan {
    type V = SpanModel;

    open spec fn view(&self) -> SpanModel {
        SpanModel { text: self.text@, style: self.style }
    }
}

pub open spec fn span_views(v: Seq<StyledSpan>) -> Seq<SpanModel> {
    Seq::new(v.len(), |i: int| v[i]@)
}

impl View for StyledLine {
    type V = LineModel;

    open spec fn view(&self) -> LineModel {
        LineModel { spans: span_views(self.spans@), style: self.style }
    }
}

pub open spec fn line_views(v: Seq<StyledLine>) -> Seq<LineModel> {
    Seq::new(v.len(), |i: int| v[i]@)
}

/// The style that changes nothing.
pub open spec fn plain_style() -> Style {
    Style { fg: None, bg: None, bold: false }
}

/// A style of one colour.
pub open spec fn colored(color: Color) -> Style {
    Style { fg: Some(color), bg: None, bold: false }
}

/// A bold style of one colour.
pub open spec fn bold_colored(color: Color) -> Style {
    Style { fg: Some(color), bg: None, bold: true }
}

impl Style {
    /// The style that changes nothing.
    pub fn plain() -> (s: Style)
        ensures
            s == plain_style(),
    {
        Style { fg: None, bg: None, bold: false }
    }

    /// The style with only a colour of its own.
    pub fn fg(color: Color) -> (s: Style)
        ensures
            s == colored(color),
    {
        Style { fg: Some(color), bg: None, bold: false }
    }

    /// The bold style in a colour.
    pub fn bold_fg(color: Color) -> (s: Style)
        ensures
            s == bold_colored(color),
    {
        Style { fg: Some(color), bg: None, bold: true }
    }

    /// This style where the other says nothing, else the other.
    pub open spec fn patched(self, other: Style) -> Style {
        Style {
            fg: match other.fg {
                Some(c) => Some(c),
                None => self.fg,
            },
            bg: match other.bg {
                Some(c) => Some(c),
                None => self.bg,
            },
            bold: self.bold || other.bold,
        }
    }

    /// This style with what the other one sets laid over it.
    pub fn patch(self, other: Style) -> (s: Style)
        ensures
            s == self.patched(other),
    {
        Style {
            fg: match other.fg {
                Some(c) => Some(c),
                None => self.fg,
            },
            bg: match other.bg {
                Some(c) => Some(c),
                None => self.bg,
            },
            bold: self.bold || other.bold,
        }
    }
}

/// A line of one span.
pub open spec fn line_of(text: Seq<char>, style: Style) -> LineModel {
    LineModel { spans: seq![SpanModel { text, style }], style: plain_style() }
}

/// A stretch of text in one style.
pub fn span(text: &str, style: Style) -> (s: StyledSpan)
    ensures
        s@ == (SpanModel { text: text@, style }),
{
    StyledSpan { text: copy_of(text), style }
}

/// A line of some spans.
pub fn line_of_spans(spans: Vec<StyledSpan>) -> (line: StyledLine)
    ensures
        line@ == (LineModel { spans: span_views(spans@), style: plain_style() }),
{
    StyledLine { spans, style: Style::plain() }
}

/// A line of one span.
pub fn styled_line(text: &str, style: Style) -> (line: StyledLine)
    ensures
        line@ == line_of(text@, style),
{
    let mut spans: Vec<StyledSpan> = Vec::new();
    spans.push(span(text, style));
    assert(span_views(spans@) =~= line_of(text@, style).spans);
    line_of_spans(spans)
}

fn copy_span(s: &StyledSpan) -> (copy: StyledSpan)
    ensures
        copy@ == s@,
{
    StyledSpan { text: s.text.clone(), style: s.style }
}

/// A copy of a line, span by span.
pub fn copy_line(line: &StyledLine) -> (copy: StyledLine)
    ensures
        copy@ == line@,
{
    let mut spans: Vec<StyledSpan> = Vec::new();
    let mut i: usize = 0;
    while i < line.spans.len()
        invariant
            i <= line.spans@.len(),
            span_views(spans@) == span_views(line.spans@).take(i as int),
        decreases line.spans.len() - i,
    {
        let s = copy_span(&line.spans[i]);
        let ghost before = span_views(spans@);
        spans.push(s);
        assert(span_views(spans@) =~= before.push(s@));
        i += 1;
        assert(span_views(spans@) =~= span_views(line.spans@).take(i as int));
    }
    assert(span_views(line.spans@).take(i as int) =~= span_views(line.spans@));
    StyledLine { spans, style: line.style }
}

// ---------------------------------------------------------------------------
// Width and text
// ---------------------------------------------------------------------------

/// How many characters some spans have.
pub open spec fn spans_width(spans: Seq<SpanModel>) -> nat
    decreases spans.len(),
{
    if spans.len() == 0 {
        0
    } else {
        spans_width(spans.drop_last()) + spans.last().text.len()
    }
}

/// The text of some spans.
pub open spec fn spans_text(spans: Seq<SpanModel>) -> Seq<char>
    decreases spans.len(),
{
    if spans.len() == 0 {
        Seq::empty()
    } else {
        spans_text(spans.drop_last()) + spans.last().text
    }
}

proof fn lemma_width_grows(spans: Seq<SpanModel>, i: int)
    requires
        0 <= i <= spans.len(),
    ensures
        spans_width(spans.take(i)) <= spans_width(spans),
    decreases spans.len() - i,
{
    if i < spans.len() {
        lemma_width_grows(spans, i + 1);
        assert(spans.take(i + 1).drop_last() =~= spans.take(i));
    } else {
        assert(spans.take(i) =~= spans);
    }
}

/// How many characters a line has.
pub fn line_width(line: &StyledLine) -> (w: usize)
    requires
        spans_width(line@.spans) <= usize::MAX,
    ensures
        w == spans_width(line@.spans),
{
    let ghost all = line@.spans;
    let mut w: usize = 0;
    let mut i: usize = 0;
    assert(all.take(0) =~= Seq::<SpanModel>::empty());
    while i < line.spans.len()
        invariant
            i <= line.spans@.len(),
            all == span_views(line.spans@),
            spans_width(all) <= usize::MAX,
            w == spans_width(all.take(i as int)),
        decreases line.spans.len() - i,
    {
        proof {
            assert(all.take(i as int + 1).drop_last() =~= all.take(i as int));
            assert(all.take(i as int + 1).last() == line.spans@[i as int]@);
            lemma_width_grows(all, i as int + 1);
        }
        let chars = chars_of(line.spans[i].text.as_str());
        w += chars.len();
        i += 1;
    }
    assert(all.take(i as int) =~= all);
    w
}

/// The text of a line.
pub fn line_text(line: &StyledLine) -> (text: String)
    ensures
        text@ == spans_text(line@.spans),
{
    let ghost all = line@.spans;
    let mut text = String::new();
    let mut i: usize = 0;
    assert(all.take(0) =~= Seq::<SpanModel>::empty());
    while i < line.spans.len()
        invariant
            i <= line.spans@.len(),
            all == span_views(line.spans@),
            text@ == spans_text(all.take(i as int)),
        decreases line.spans.len() - i,
    {
        proof {
            assert(all.take(i as int + 1).drop_last() =~= all.take(i as int));
            assert(all.take(i as int + 1).last() == line.spans@[i as int]@);
        }
        text.append(line.spans[i].text.as_str());
        i += 1;
    }
    assert(all.take(i as int) =~= all);
    text
}

// ---------------------------------------------------------------------------
// Wrapping
// ---------------------------------------------------------------------------

/// What a character is shown as: a tab is four blanks.
pub open spec fn cell(c: char, style: Style) -> SpanModel {
    SpanModel {
        text: if c == '\t' {
            seq![' ', ' ', ' ', ' ']
        } else {
            seq![c]
        },
        style,
    }
}

/// The characters of a text, each in a span of its own.
pub open spec fn cells(text: Seq<char>, style: Style) -> Seq<SpanModel> {
    Seq::new(text.len(), |i: int| cell(text[i], style))
}

/// The characters of some spans, each in a span of its own.
pub open spec fn spans_cells(spans: Seq<SpanModel>) -> Seq<SpanModel>
    decreases spans.len(),
{
    if spans.len() == 0 {
        Seq::empty()
    } else {
        spans_cells(spans.drop_last()) + cells(spans.last().text, spans.last().style)
    }
}

/// Some characters, broken into rows: a row ends where the next character does
/// not fit. A row has at least one character, unless there is none at all.
pub open spec fn rows(all: Seq<SpanModel>, width: nat) -> Seq<Seq<SpanModel>>
    decreases all.len(),
{
    if all.len() == 0 {
        seq![Seq::empty()]
    } else {
        let before = rows(all.drop_last(), width);
        let c = all.last();
        if spans_width(before.last()) + c.text.len() > width && before.last().len() > 0 {
            before.push(seq![c])
        } else {
            before.drop_last().push(before.last().push(c))
        }
    }
}

/// A line, wrapped to a width. A width of zero wraps nothing.
pub open spec fn wrapped(line: LineModel, width: nat) -> Seq<LineModel> {
    if width == 0 {
        seq![line]
    } else {
        let parts = rows(spans_cells(line.spans), width);
        Seq::new(parts.len(), |i: int| LineModel { spans: parts[i], style: line.style })
    }
}

/// The rows in order.
pub open spec fn joined_rows(parts: Seq<Seq<SpanModel>>) -> Seq<SpanModel>
    decreases parts.len(),
{
    if parts.len() == 0 {
        Seq::empty()
    } else {
        joined_rows(parts.drop_last()) + parts.last()
    }
}

/// Breaking characters into rows loses none of them and keeps their order.
pub proof fn wrapping_keeps_every_character(all: Seq<SpanModel>, width: nat)
    ensures
        rows(all, width).len() > 0,
        joined_rows(rows(all, width)) == all,
    decreases all.len(),
{
    if all.len() == 0 {
        let none = seq![Seq::<SpanModel>::empty()];
        assert(none.drop_last() =~= Seq::<Seq<SpanModel>>::empty());
        reveal_with_fuel(joined_rows, 2);
        assert(none.last() =~= Seq::<SpanModel>::empty());
        assert(joined_rows(none) =~= all);
    } else {
        let before = rows(all.drop_last(), width);
        let after = rows(all, width);
        wrapping_keeps_every_character(all.drop_last(), width);
        if spans_width(before.last()) + all.last().text.len() > width && before.last().len() > 0 {
            assert(after.drop_last() =~= before);
            assert(after.last() =~= seq![all.last()]);
        } else {
            assert(after.drop_last() =~= before.drop_last());
            assert(after.last() =~= before.last().push(all.last()));
            assert(joined_rows(before) == joined_rows(before.drop_last()) + before.last());
            assert(joined_rows(before.drop_last()) + before.last().push(all.last()) =~= (
            joined_rows(before.drop_last()) + before.last()).push(all.last()));
        }
        assert(all =~= all.drop_last().push(all.last()));
        assert(joined_rows(after) == joined_rows(after.drop_last()) + after.last());
        assert(joined_rows(after) =~= all);
    }
}

/// No row is wider than the width, unless it is a single character.
pub proof fn rows_fit(all: Seq<SpanModel>, width: nat, i: int)
    requires
        0 <= i < rows(all, width).len(),
    ensures
        spans_width(rows(all, width)[i]) <= width || rows(all, width)[i].len() == 1,
    decreases all.len(),
{
    if all.len() > 0 {
        let before = rows(all.drop_last(), width);
        let after = rows(all, width);
        let c = all.last();
        wrapping_keeps_every_character(all.drop_last(), width);
        if spans_width(before.last()) + c.text.len() > width && before.last().len() > 0 {
            if i < before.len() {
                rows_fit(all.drop_last(), width, i);
                assert(after[i] == before[i]);
            }
        } else {
            if i < before.len() - 1 {
                rows_fit(all.drop_last(), width, i);
                assert(after[i] == before[i]);
            } else {
                assert(after[i] == before.last().push(c));
                assert(before.last().push(c).drop_last() =~= before.last());
            }
        }
    } else {
        assert(rows(all, width)[i] =~= Seq::<SpanModel>::empty());
    }
}

/// The rows of a line so far: those that are full, and the one that grows.
struct Wrapping {
    out: Vec<StyledLine>,
    spans: Vec<StyledSpan>,
    width: usize,
}

impl Wrapping {
    /// Whether the rows of `all` are the full ones and the one that grows.
    spec fn holds(&self, all: Seq<SpanModel>, width: nat, style: Style) -> bool {
        let parts = rows(all, width);
        &&& parts.len() == self.out@.len() + 1
        &&& forall|i: int|
            0 <= i < self.out@.len() ==> (#[trigger] self.out@[i])@ == (LineModel {
                spans: parts[i],
                style,
            })
        &&& span_views(self.spans@) == parts.last()
        &&& self.width == spans_width(parts.last())
    }

    fn put(
        &mut self,
        c: char,
        style: Style,
        width: usize,
        line_style: Style,
        Ghost(all): Ghost<Seq<SpanModel>>,
    )
        requires
            old(self).holds(all, width as nat, line_style),
            width > 0,
            old(self).width + 4 <= usize::MAX,
        ensures
            final(self).holds(all.push(cell(c, style)), width as nat, line_style),
            final(self).width <= old(self).width + 4,
    {
        let ghost next = all.push(cell(c, style));
        assert(next.drop_last() =~= all);
        let ghost before = rows(all, width as nat);
        let ch_width: usize = if c == '\t' {
            4
        } else {
            1
        };
        let ghost held = self.spans@;
        let ghost full = self.out@;
        let ghost breaks = self.width + ch_width > width && held.len() > 0;
        if self.width + ch_width > width && self.spans.len() > 0 {
            let mut spans: Vec<StyledSpan> = Vec::new();
            std::mem::swap(&mut spans, &mut self.spans);
            let line = StyledLine { spans, style: line_style };
            self.out.push(line);
            self.width = 0;
            assert(span_views(self.spans@) =~= Seq::<SpanModel>::empty());
        }
        let ghost kept = span_views(self.spans@);
        let text = if c == '\t' {
            proof {
                reveal_strlit("    ");
                assert("    "@ =~= seq![' ', ' ', ' ', ' ']);
            }
            copy_of("    ")
        } else {
            let mut t = String::new();
            t.push(c);
            assert(t@ =~= seq![c]);
            t
        };
        let s = StyledSpan { text, style };
        self.spans.push(s);
        self.width = self.width + ch_width;
        proof {
            assert(span_views(self.spans@) =~= kept.push(cell(c, style)));
            assert(kept.push(cell(c, style)).drop_last() =~= kept);
            let parts = rows(next, width as nat);
            wrapping_keeps_every_character(all, width as nat);
            assert(next.last() == cell(c, style));
            assert(spans_width(kept.push(cell(c, style))) == spans_width(kept) + cell(
                c,
                style,
            ).text.len());
            assert(span_views(held) == before.last());
            if breaks {
                assert(parts == before.push(seq![cell(c, style)]));
                assert(kept.push(cell(c, style)) =~= seq![cell(c, style)]);
                assert forall|i: int| 0 <= i < self.out@.len() implies (#[trigger] self.out@[i])@
                    == (LineModel { spans: parts[i], style: line_style }) by {
                    if i < full.len() {
                        assert(self.out@[i] == full[i]);
                        assert(parts[i] == before[i]);
                    } else {
                        assert(parts[i] == before.last());
                    }
                }
            } else {
                assert(parts == before.drop_last().push(before.last().push(cell(c, style))));
                assert forall|i: int| 0 <= i < self.out@.len() implies (#[trigger] self.out@[i])@
                    == (LineModel { spans: parts[i], style: line_style }) by {
                    assert(self.out@[i] == full[i]);
                    assert(parts[i] == before[i]);
                }
            }
        }
    }
}

/// Wraps a line to a width.
pub fn wrap_line(line: &StyledLine, width: usize) -> (out: Vec<StyledLine>)
    requires
        4 * spans_width(line@.spans) + 4 <= usize::MAX,
    ensures
        line_views(out@) == wrapped(line@, width as nat),
{
    if width == 0 {
        let mut out: Vec<StyledLine> = Vec::new();
        out.push(copy_line(line));
        assert(line_views(out@) =~= wrapped(line@, 0));
        return out;
    }
    let ghost all = line@.spans;
    let mut state = Wrapping { out: Vec::new(), spans: Vec::new(), width: 0 };
    let mut i: usize = 0;
    assert(all.take(0) =~= Seq::<SpanModel>::empty());
    assert(span_views(state.spans@) =~= Seq::<SpanModel>::empty());
    while i < line.spans.len()
        invariant
            i <= line.spans@.len(),
            all == span_views(line.spans@),
            width > 0,
            4 * spans_width(all) + 4 <= usize::MAX,
            state.holds(spans_cells(all.take(i as int)), width as nat, line.style),
            state.width <= 4 * spans_width(all.take(i as int)),
        decreases line.spans.len() - i,
    {
        let ghost done = spans_cells(all.take(i as int));
        let ghost w = spans_width(all.take(i as int));
        proof {
            assert(all.take(i as int + 1).drop_last() =~= all.take(i as int));
            assert(all.take(i as int + 1).last() == line.spans@[i as int]@);
            lemma_width_grows(all, i as int + 1);
        }
        let style = line.spans[i].style;
        let chars = chars_of(line.spans[i].text.as_str());
        let ghost shown = cells(chars@, style);
        let mut k: usize = 0;
        assert(done + shown.take(0) =~= done);
        while k < chars.len()
            invariant
                k <= chars@.len(),
                width > 0,
                4 * (w + chars@.len()) + 4 <= usize::MAX,
                shown == cells(chars@, style),
                state.holds(done + shown.take(k as int), width as nat, line.style),
                state.width <= 4 * (w + k),
            decreases chars.len() - k,
        {
            proof {
                assert(shown.take(k as int + 1) =~= shown.take(k as int).push(
                    cell(chars@[k as int], style),
                ));
                assert((done + shown.take(k as int)).push(cell(chars@[k as int], style)) =~= done
                    + shown.take(k as int + 1));
            }
            state.put(chars[k], style, width, line.style, Ghost(done + shown.take(k as int)));
            k += 1;
        }
        assert(shown.take(k as int) =~= shown);
        i += 1;
    }
    assert(all.take(i as int) =~= all);
    let Wrapping { mut out, spans, width: _ } = state;
    let last = StyledLine { spans, style: line.style };
    out.push(last);
    assert(line_views(out@) =~= wrapped(line@, width as nat));
    out
}

/// Some lines, each wrapped to a width.
pub open spec fn all_wrapped(lines: Seq<LineModel>, width: nat) -> Seq<LineModel>
    decreases lines.len(),
{
    if lines.len() == 0 {
        Seq::empty()
    } else {
        all_wrapped(lines.drop_last(), width) + wrapped(lines.last(), width)
    }
}

/// Where the `n`-th of some lines starts once they are wrapped.
pub open spec fn row_of(lines: Seq<LineModel>, n: int, width: nat) -> nat {
    all_wrapped(lines.take(n), width).len()
}

/// Where a cursor in a line stands once the lines are wrapped. A cursor behind
/// the line counts as its last character.
pub open spec fn wrapped_cursor(lines: Seq<LineModel>, line: int, col: nat, width: nat) -> (
    nat,
    nat,
) {
    let total = spans_width(lines[line].spans);
    let start = row_of(lines, line, width);
    if total == 0 {
        (start, 0)
    } else {
        let target = least(col, (total - 1) as nat);
        (
            start + least(target / width, (wrapped(lines[line], width).len() - 1) as nat),
            target % width,
        )
    }
}

/// Lines that are short enough to be measured.
pub open spec fn measurable(lines: Seq<LineModel>) -> bool {
    forall|i: int|
        0 <= i < lines.len() ==> 4 * spans_width((#[trigger] lines[i]).spans) + 4 <= usize::MAX
}

pub open spec fn pair_of(p: Option<(usize, usize)>) -> Option<(nat, nat)> {
    match p {
        Some((a, b)) => Some((a as nat, b as nat)),
        None => None,
    }
}

fn copy_lines(lines: &Vec<StyledLine>) -> (copy: Vec<StyledLine>)
    ensures
        line_views(copy@) == line_views(lines@),
{
    let mut copy: Vec<StyledLine> = Vec::new();
    let mut i: usize = 0;
    while i < lines.len()
        invariant
            i <= lines@.len(),
            line_views(copy@) == line_views(lines@).take(i as int),
        decreases lines.len() - i,
    {
        let line = copy_line(&lines[i]);
        let ghost before = line_views(copy@);
        copy.push(line);
        assert(line_views(copy@) =~= before.push(line@));
        i += 1;
        assert(line_views(copy@) =~= line_views(lines@).take(i as int));
    }
    assert(line_views(lines@).take(i as int) =~= line_views(lines@));
    copy
}

/// Moves lines to the end of others.
pub fn append_lines(out: &mut Vec<StyledLine>, more: Vec<StyledLine>)
    ensures
        line_views(final(out)@) == line_views(old(out)@) + line_views(more@),
{
    let mut more = more;
    let ghost added = more@;
    out.append(&mut more);
    assert(line_views(out@) =~= line_views(old(out)@) + line_views(added));
}

/// Wraps lines to a width, and says where a cursor and a line come to stand.
pub fn wrap_lines_with_cursor_and_highlight(
    lines: &Vec<StyledLine>,
    width: usize,
    cursor: Option<(usize, usize)>,
    highlight_line: Option<usize>,
) -> (found: (Vec<StyledLine>, Option<(usize, usize)>, Option<usize>))
    requires
        measurable(line_views(lines@)),
        all_wrapped(line_views(lines@), width as nat).len() <= usize::MAX,
    ensures
        width == 0 ==> line_views(found.0@) == line_views(lines@) && found.1 == cursor && found.2
            == highlight_line,
        width > 0 ==> {
            let all = line_views(lines@);
            &&& line_views(found.0@) == all_wrapped(all, width as nat)
            &&& pair_of(found.1) == match cursor {
                Some((line, col)) => if line < all.len() {
                    Some(wrapped_cursor(all, line as int, col as nat, width as nat))
                } else {
                    None
                },
                None => None,
            }
            &&& match highlight_line {
                Some(line) => if line < all.len() {
                    found.2 is Some && found.2->0 == row_of(all, line as int, width as nat)
                } else {
                    found.2 is None
                },
                None => found.2 is None,
            }
        },
{
    if width == 0 {
        return (copy_lines(lines), cursor, highlight_line);
    }
    let ghost all = line_views(lines@);
    let ghost w = width as nat;
    let mut out: Vec<StyledLine> = Vec::new();
    let mut cursor_out: Option<(usize, usize)> = None;
    let mut highlight_out: Option<usize> = None;
    let mut idx: usize = 0;
    assert(all.take(0) =~= Seq::<LineModel>::empty());
    assert(line_views(out@) =~= Seq::<LineModel>::empty());
    while idx < lines.len()
        invariant
            idx <= lines@.len(),
            width > 0,
            w == width,
            all == line_views(lines@),
            measurable(all),
            all_wrapped(all, w).len() <= usize::MAX,
            line_views(out@) == all_wrapped(all.take(idx as int), w),
            pair_of(cursor_out) == match cursor {
                Some((line, col)) => if line < idx {
                    Some(wrapped_cursor(all, line as int, col as nat, w))
                } else {
                    None
                },
                None => None,
            },
            match highlight_line {
                Some(line) => if line < idx {
                    highlight_out is Some && highlight_out->0 == row_of(all, line as int, w)
                } else {
                    highlight_out is None
                },
                None => highlight_out is None,
            },
        decreases lines.len() - idx,
    {
        let start: usize = out.len();
        proof {
            assert(all.take(idx as int + 1).drop_last() =~= all.take(idx as int));
            assert(all.take(idx as int + 1).last() == lines@[idx as int]@);
            assert(all[idx as int] == lines@[idx as int]@);
            lemma_wrapped_grows(all, idx as int + 1, w);
            wrapping_keeps_every_character(spans_cells(all[idx as int].spans), w);
        }
        let segments = wrap_line(&lines[idx], width);
        let count: usize = segments.len();
        append_lines(&mut out, segments);
        if let Some(line) = highlight_line {
            if line == idx {
                highlight_out = Some(start);
            }
        }
        if let Some((line, col)) = cursor {
            if line == idx {
                let total: usize = line_width(&lines[idx]);
                if total == 0 {
                    cursor_out = Some((start, 0));
                } else {
                    let target: usize = if col < total - 1 {
                        col
                    } else {
                        total - 1
                    };
                    let row: usize = target / width;
                    let row: usize = if row < count - 1 {
                        row
                    } else {
                        count - 1
                    };
                    cursor_out = Some((start + row, target % width));
                }
            }
        }
        idx += 1;
    }
    assert(all.take(idx as int) =~= all);
    (out, cursor_out, highlight_out)
}

proof fn lemma_wrapped_grows(lines: Seq<LineModel>, n: int, width: nat)
    requires
        0 <= n <= lines.len(),
    ensures
        all_wrapped(lines.take(n), width).len() <= all_wrapped(lines, width).len(),
    decreases lines.len() - n,
{
    if n < lines.len() {
        lemma_wrapped_grows(lines, n + 1, width);
        assert(lines.take(n + 1).drop_last() =~= lines.take(n));
    } else {
        assert(lines.take(n) =~= lines);
    }
}

// ---------------------------------------------------------------------------
// Highlights and the cursor
// ---------------------------------------------------------------------------

/// How the snippet under edit looks.
pub open spec fn edited_style() -> Style {
    Style { fg: Some(Color::Black), bg: Some(Color::White), bold: false }
}

/// What is added to the look of a snippet that cannot be edited.
pub open spec fn readonly_style() -> Style {
    Style { fg: None, bg: Some(Color::Rgb(255, 250, 205)), bold: false }
}

/// How the cursor looks.
pub open spec fn cursor_style() -> Style {
    Style { fg: Some(Color::Black), bg: Some(Color::Yellow), bold: true }
}

/// Some lines, each with the style of the snippet under edit.
pub open spec fn highlighted(lines: Seq<LineModel>) -> Seq<LineModel> {
    Seq::new(lines.len(), |i: int| LineModel { style: edited_style(), ..lines[i] })
}

/// Some lines of a snippet that cannot be edited.
pub open spec fn dimmed(lines: Seq<LineModel>) -> Seq<LineModel> {
    Seq::new(
        lines.len(),
        |i: int| LineModel { style: lines[i].style.patched(readonly_style()), ..lines[i] },
    )
}

/// Every line with its spans on the background of the selected block.
pub fn highlight_lines(lines: &mut Vec<StyledLine>)
    ensures
        line_views(final(lines)@) == highlighted(line_views(old(lines)@)),
{
    let style = Style { fg: Some(Color::Black), bg: Some(Color::White), bold: false };
    let ghost before = lines@;
    let mut i: usize = 0;
    while i < lines.len()
        invariant
            i <= lines@.len(),
            lines@.len() == before.len(),
            style == edited_style(),
            forall|k: int| i <= k < lines@.len() ==> lines@[k] == before[k],
            forall|k: int|
                0 <= k < i ==> (#[trigger] lines@[k])@ == (LineModel {
                    style: edited_style(),
                    ..before[k]@
                }),
        decreases lines.len() - i,
    {
        lines[i].style = style;
        i += 1;
    }
    assert(line_views(lines@) =~= highlighted(line_views(before)));
}

/// Every line with its spans on the background of a selected block that cannot be edited.
pub fn highlight_readonly_lines(lines: &mut Vec<StyledLine>)
    ensures
        line_views(final(lines)@) == dimmed(line_views(old(lines)@)),
{
    let style = Style { fg: None, bg: Some(Color::Rgb(255, 250, 205)), bold: false };
    let ghost before = lines@;
    let mut i: usize = 0;
    while i < lines.len()
        invariant
            i <= lines@.len(),
            lines@.len() == before.len(),
            style == readonly_style(),
            forall|k: int| i <= k < lines@.len() ==> lines@[k] == before[k],
            forall|k: int|
                0 <= k < i ==> (#[trigger] lines@[k])@ == (LineModel {
                    style: before[k].style.patched(readonly_style()),
                    ..before[k]@
                }),
        decreases lines.len() - i,
    {
        let patched = lines[i].style.patch(style);
        lines[i].style = patched;
        i += 1;
    }
    assert(line_views(lines@) =~= dimmed(line_views(before)));
}

/// A span, where it has any text.
pub open spec fn unless_empty(text: Seq<char>, style: Style) -> Seq<SpanModel> {
    if text.len() == 0 {
        Seq::empty()
    } else {
        seq![SpanModel { text, style }]
    }
}

/// The spans from the `i`-th on with the cursor on their character `at`; behind
/// them, on a blank, where they have no such character.
pub open spec fn marked_from(spans: Seq<SpanModel>, i: int, at: int) -> Seq<SpanModel>
    decreases spans.len() - i,
{
    if i < 0 || i >= spans.len() {
        seq![SpanModel { text: seq![' '], style: cursor_style() }]
    } else {
        let s = spans[i];
        if at >= s.text.len() {
            seq![s] + marked_from(spans, i + 1, at - s.text.len())
        } else {
            unless_empty(s.text.take(at), s.style) + seq![
                SpanModel { text: seq![s.text[at]], style: cursor_style() },
            ] + unless_empty(s.text.skip(at + 1), s.style) + spans.skip(i + 1)
        }
    }
}

/// A line with the cursor in a column, or on its last character where the line
/// is shorter. The cursor in an empty line is a blank.
pub open spec fn marked(line: LineModel, col: nat) -> LineModel {
    let total = spans_width(line.spans);
    LineModel {
        spans: if total == 0 {
            seq![SpanModel { text: seq![' '], style: cursor_style() }]
        } else {
            marked_from(line.spans, 0, least(col, (total - 1) as nat) as int)
        },
        ..line
    }
}

fn blank_cursor() -> (s: StyledSpan)
    ensures
        s@ == (SpanModel { text: seq![' '], style: cursor_style() }),
{
    proof {
        reveal_strlit(" ");
        assert(" "@ =~= seq![' ']);
    }
    span(" ", Style { fg: Some(Color::Black), bg: Some(Color::Yellow), bold: true })
}

fn push_part(spans: &mut Vec<StyledSpan>, chars: &Vec<char>, from: usize, to: usize, style: Style)
    requires
        from <= to <= chars@.len(),
    ensures
        span_views(final(spans)@) == span_views(old(spans)@) + unless_empty(
            chars@.subrange(from as int, to as int),
            style,
        ),
{
    if from < to {
        let s = StyledSpan { text: string_of(chars, from, to), style };
        spans.push(s);
    }
    assert(span_views(spans@) =~= span_views(old(spans)@) + unless_empty(
        chars@.subrange(from as int, to as int),
        style,
    ));
}

/// The spans of a line with the cursor on one of their characters.
fn marked_spans(line: &StyledLine, at: usize) -> (spans: Vec<StyledSpan>)
    ensures
        span_views(spans@) == marked_from(line@.spans, 0, at as int),
{
    let ghost all = line@.spans;
    let ghost whole = marked_from(all, 0, at as int);
    let mut spans: Vec<StyledSpan> = Vec::new();
    let mut remaining: usize = at;
    let mut i: usize = 0;
    assert(span_views(spans@) + whole =~= whole);
    while i < line.spans.len()
        invariant
            i <= line.spans@.len(),
            all == span_views(line.spans@),
            all == line@.spans,
            whole == marked_from(all, 0, at as int),
            span_views(spans@) + marked_from(all, i as int, remaining as int) == whole,
        decreases line.spans.len() - i,
    {
        let s = &line.spans[i];
        assert(all[i as int] == s@);
        let chars = chars_of(s.text.as_str());
        let ghost before = span_views(spans@);
        if remaining >= chars.len() {
            remaining = remaining - chars.len();
            let copy = copy_span(s);
            spans.push(copy);
            assert(span_views(spans@) =~= before + seq![s@]);
            proof {
                crate::text::lemma_concat(
                    before,
                    seq![s@],
                    marked_from(all, i as int + 1, remaining as int),
                );
            }
            i += 1;
            continue ;
        }
        let style = Style { fg: Some(Color::Black), bg: Some(Color::Yellow), bold: true };
        push_part(&mut spans, &chars, 0, remaining, s.style);
        let ghost one = span_views(spans@);
        push_part(&mut spans, &chars, remaining, remaining + 1, style);
        let ghost two = span_views(spans@);
        push_part(&mut spans, &chars, remaining + 1, chars.len(), s.style);
        let ghost three = span_views(spans@);
        proof {
            assert(chars@.subrange(0, remaining as int) =~= s@.text.take(remaining as int));
            assert(chars@.subrange(remaining as int, remaining as int + 1) =~= seq![
                s@.text[remaining as int],
            ]);
            assert(chars@.subrange(remaining as int + 1, chars@.len() as int) =~= s@.text.skip(
                remaining as int + 1,
            ));
            assert(three + all.skip(i as int + 1) =~= whole);
        }
        let mut k: usize = i + 1;
        assert(all.skip(i as int + 1).take(0) =~= Seq::<SpanModel>::empty());
        assert(span_views(spans@) =~= three + all.skip(i as int + 1).take(0));
        while k < line.spans.len()
            invariant
                i < k <= line.spans@.len(),
                all == span_views(line.spans@),
                span_views(spans@) == three + all.skip(i as int + 1).take(k - i - 1),
            decreases line.spans.len() - k,
        {
            let copy = copy_span(&line.spans[k]);
            let ghost before = span_views(spans@);
            spans.push(copy);
            assert(span_views(spans@) =~= before.push(copy@));
            k += 1;
            assert(span_views(spans@) =~= three + all.skip(i as int + 1).take(k - i - 1));
        }
        assert(all.skip(i as int + 1).take(k - i - 1) =~= all.skip(i as int + 1));
        return spans;
    }
    let ghost before = span_views(spans@);
    let s = blank_cursor();
    spans.push(s);
    assert(span_views(spans@) =~= before + seq![s@]);
    spans
}

/// Marks the cursor in one of some lines.
pub fn apply_cursor_marker(lines: &mut Vec<StyledLine>, line_idx: usize, col: usize)
    requires
        measurable(line_views(old(lines)@)),
    ensures
        line_views(final(lines)@) == (if line_idx < old(lines)@.len() {
            line_views(old(lines)@).update(
                line_idx as int,
                marked(old(lines)@[line_idx as int]@, col as nat),
            )
        } else {
            line_views(old(lines)@)
        }),
{
    if line_idx >= lines.len() {
        return;
    }
    let ghost before = lines@;
    assert(line_views(before)[line_idx as int] == before[line_idx as int]@);
    let width: usize = line_width(&lines[line_idx]);
    let spans = if width == 0 {
        let mut one: Vec<StyledSpan> = Vec::new();
        one.push(blank_cursor());
        assert(span_views(one@) =~= marked(before[line_idx as int]@, col as nat).spans);
        one
    } else {
        let at: usize = if col < width - 1 {
            col
        } else {
            width - 1
        };
        marked_spans(&lines[line_idx], at)
    };
    lines[line_idx].spans = spans;
    assert(line_views(lines@) =~= line_views(before).update(
        line_idx as int,
        marked(before[line_idx as int]@, col as nat),
    ));
}

/// Marking the cursor does not change what a line says, unless the line is
/// empty.
pub proof fn marking_keeps_the_text(line: LineModel, col: nat)
    requires
        spans_width(line.spans) > 0,
    ensures
        spans_text(marked(line, col).spans) == spans_text(line.spans),
{
    let at = least(col, (spans_width(line.spans) - 1) as nat) as int;
    assert(line.spans.skip(0) =~= line.spans);
    lemma_marked_text(line.spans, 0, at);
}

proof fn lemma_text_add(a: Seq<SpanModel>, b: Seq<SpanModel>)
    ensures
        spans_text(a + b) == spans_text(a) + spans_text(b),
        spans_width(a + b) == spans_width(a) + spans_width(b),
    decreases b.len(),
{
    if b.len() == 0 {
        assert(a + b =~= a);
        assert(spans_text(a) + spans_text(b) =~= spans_text(a));
    } else {
        lemma_text_add(a, b.drop_last());
        assert((a + b).drop_last() =~= a + b.drop_last());
        assert((a + b).last() == b.last());
        crate::text::lemma_concat(spans_text(a), spans_text(b.drop_last()), b.last().text);
    }
}

proof fn lemma_text_one(s: SpanModel)
    ensures
        spans_text(seq![s]) == s.text,
        spans_width(seq![s]) == s.text.len(),
{
    assert(seq![s].drop_last() =~= Seq::<SpanModel>::empty());
    reveal_with_fuel(spans_text, 2);
    reveal_with_fuel(spans_width, 2);
    assert(Seq::<char>::empty() + s.text =~= s.text);
}

proof fn lemma_marked_text(spans: Seq<SpanModel>, i: int, at: int)
    requires
        0 <= i <= spans.len(),
        0 <= at < spans_width(spans.skip(i)),
    ensures
        spans_text(marked_from(spans, i, at)) == spans_text(spans.skip(i)),
    decreases spans.len() - i,
{
    if i < spans.len() {
        let s = spans[i];
        let rest = spans.skip(i + 1);
        assert(spans.skip(i) =~= seq![s] + rest);
        lemma_text_add(seq![s], rest);
        lemma_text_one(s);
        if at >= s.text.len() {
            lemma_marked_text(spans, i + 1, at - s.text.len());
            lemma_text_add(seq![s], marked_from(spans, i + 1, at - s.text.len()));
        } else {
            let left = unless_empty(s.text.take(at), s.style);
            let mid = seq![SpanModel { text: seq![s.text[at]], style: cursor_style() }];
            let right = unless_empty(s.text.skip(at + 1), s.style);
            lemma_text_add(left, mid);
            lemma_text_add(left + mid, right);
            lemma_text_add(left + mid + right, rest);
            lemma_text_one(mid[0]);
            assert(mid =~= seq![mid[0]]);
            assert(spans_text(left) =~= s.text.take(at)) by {
                if left.len() > 0 {
                    lemma_text_one(left[0]);
                    assert(left =~= seq![left[0]]);
                }
            }
            assert(spans_text(right) =~= s.text.skip(at + 1)) by {
                if right.len() > 0 {
                    lemma_text_one(right[0]);
                    assert(right =~= seq![right[0]]);
                }
            }
            assert(s.text.take(at) + seq![s.text[at]] + s.text.skip(at + 1) =~= s.text);
        }
    } else {
        assert(spans.skip(i) =~= Seq::<SpanModel>::empty());
    }
}

// ---------------------------------------------------------------------------
// The lines of a text snippet under edit
// ---------------------------------------------------------------------------

/// How a heading of some level looks.
pub open spec fn heading_style(level: u8) -> Style {
    if level == 1 {
        bold_colored(Color::Cyan)
    } else if level == 2 {
        bold_colored(Color::Green)
    } else {
        bold_colored(Color::Blue)
    }
}

/// How one line of a text under edit is shown: headings and quotes have looks of
/// their own, and other lines the annotations that `annotated` gives them.
pub open spec fn edited_line(line: Seq<char>, annotated: LineModel) -> LineModel {
    match heading_of(line) {
        Some((level, _)) => line_of(line, heading_style(level)),
        None => match strip_prefix(line, "> "@) {
            Some(rest) => LineModel {
                spans: seq![
                    SpanModel { text: "> "@, style: colored(Color::DarkGray) },
                    SpanModel { text: rest, style: colored(Color::Gray) },
                ],
                style: plain_style(),
            },
            None => annotated,
        },
    }
}

/// A line without text.
pub open spec fn empty_line() -> LineModel {
    line_of(Seq::empty(), plain_style())
}

/// How the lines of a text under edit are shown: with an empty line behind them,
/// and one in their place where there are none.
pub open spec fn edited_lines(lines: Seq<Seq<char>>, annotated: Seq<LineModel>) -> Seq<LineModel> {
    (if lines.len() == 0 {
        seq![empty_line()]
    } else {
        Seq::new(lines.len(), |i: int| edited_line(lines[i], annotated[i]))
    }).push(empty_line())
}

fn edit_text_line(line: &str, annotated: &StyledLine) -> (shown: StyledLine)
    ensures
        shown@ == edited_line(line@, annotated@),
{
    if let Some((level, _)) = parse_heading(line) {
        let color = if level == 1 {
            Color::Cyan
        } else if level == 2 {
            Color::Green
        } else {
            Color::Blue
        };
        return styled_line(line, Style::bold_fg(color));
    }
    if let Some(rest) = without_prefix(line, "> ") {
        let mut spans: Vec<StyledSpan> = Vec::new();
        spans.push(span("> ", Style::fg(Color::DarkGray)));
        spans.push(span(rest.as_str(), Style::fg(Color::Gray)));
        assert(span_views(spans@) =~= edited_line(line@, annotated@).spans);
        return line_of_spans(spans);
    }
    copy_line(annotated)
}

/// A line without spans.
pub fn blank_line() -> (line: StyledLine)
    ensures
        line@ == empty_line(),
{
    proof {
        reveal_strlit("");
        assert(""@ =~= Seq::<char>::empty());
    }
    styled_line("", Style::plain())
}

/// Shows the lines of a text under edit. `annotated` holds, for each line, the
/// line with its inline annotations.
pub fn edit_text_lines(lines: &Vec<String>, annotated: &Vec<StyledLine>) -> (out: Vec<StyledLine>)
    requires
        lines@.len() == annotated@.len(),
    ensures
        line_views(out@) == edited_lines(
            views(lines@),
            line_views(annotated@),
        ),
{
    let ghost texts = views(lines@);
    let ghost marks = line_views(annotated@);
    let mut out: Vec<StyledLine> = Vec::new();
    let mut i: usize = 0;
    while i < lines.len()
        invariant
            i <= lines@.len(),
            lines@.len() == annotated@.len(),
            texts == views(lines@),
            marks == line_views(annotated@),
            out@.len() == i,
            forall|k: int|
                0 <= k < i ==> (#[trigger] out@[k])@ == edited_line(texts[k], marks[k]),
        decreases lines.len() - i,
    {
        assert(texts[i as int] == lines@[i as int]@);
        assert(marks[i as int] == annotated@[i as int]@);
        let line = edit_text_line(lines[i].as_str(), &annotated[i]);
        out.push(line);
        i += 1;
    }
    if lines.len() == 0 {
        out.push(blank_line());
    }
    out.push(blank_line());
    assert(line_views(out@) =~= edited_lines(texts, marks));
    out
}

// ---------------------------------------------------------------------------
// What a terminal can show
// ---------------------------------------------------------------------------

/// Whether a character steers the terminal rather than being shown.
pub open spec fn control(c: char) -> bool {
    (c as u32) < 0x20 || 0x7f <= (c as u32) <= 0x9f
}

/// What is shown of a character, in as many columns as the editor counts for it:
/// four blanks for a tab, and a blank for any other control character.
pub open spec fn shown_char(c: char) -> Seq<char> {
    if control(c) {
        repeated(' ', column_width(c))
    } else {
        seq![c]
    }
}

/// What is shown of a text.
pub open spec fn sanitized(s: Seq<char>) -> Seq<char>
    decreases s.len(),
{
    if s.len() == 0 {
        Seq::empty()
    } else {
        sanitized(s.drop_last()) + shown_char(s.last())
    }
}

/// A text in which nothing steers the terminal.
pub fn sanitize_for_terminal(text: &str) -> (out: String)
    ensures
        out@ == sanitized(text@),
{
    let v = chars_of(text);
    let mut out = String::new();
    let mut i: usize = 0;
    assert(v@.take(0) =~= Seq::<char>::empty());
    while i < v.len()
        invariant
            v@ == text@,
            i <= v@.len(),
            out@ == sanitized(v@.take(i as int)),
        decreases v.len() - i,
    {
        let ghost before = out@;
        let c = v[i];
        let u: u32 = c as u32;
        assert(v@.take(i as int + 1).drop_last() =~= v@.take(i as int));
        if u < 0x20 || (0x7f <= u && u <= 0x9f) {
            let width: usize = if c == '\t' {
                4
            } else {
                1
            };
            let blanks = repeat_char(' ', width);
            out.push_str(blanks.as_str());
        } else {
            out.push(c);
            assert(out@ =~= before + seq![c]);
        }
        i += 1;
    }
    assert(v@.take(i as int) =~= v@);
    out
}

/// Nothing that is shown steers the terminal, and a text that does not is shown
/// as it is.
pub proof fn shown_texts_do_not_steer(s: Seq<char>)
    ensures
        forall|i: int| 0 <= i < sanitized(s).len() ==> !control(#[trigger] sanitized(s)[i]),
        (forall|i: int| 0 <= i < s.len() ==> !control(#[trigger] s[i])) ==> sanitized(s) == s,
    decreases s.len(),
{
    if s.len() > 0 {
        let rest = s.drop_last();
        shown_texts_do_not_steer(rest);
        assert forall|i: int| 0 <= i < sanitized(s).len() implies !control(
            #[trigger] sanitized(s)[i],
        ) by {
            if i < sanitized(rest).len() {
                assert(sanitized(s)[i] == sanitized(rest)[i]);
            } else {
                assert(sanitized(s)[i] == shown_char(s.last())[i - sanitized(rest).len()]);
            }
        }
        if forall|i: int| 0 <= i < s.len() ==> !control(#[trigger] s[i]) {
            assert forall|i: int| 0 <= i < rest.len() implies !control(#[trigger] rest[i]) by {
                assert(rest[i] == s[i]);
            }
            assert(!control(s[s.len() - 1]));
            assert(rest.push(s.last()) =~= s);
            assert(sanitized(s) =~= s);
        }
    }
}

/// A character of a line is shown in the column where the editor puts the cursor
/// for it.
pub proof fn the_cursor_stands_at_its_character(line: Seq<char>, n: int)
    requires
        0 <= n <= line.len(),
        forall|i: int| 0 <= i < line.len() ==> #[trigger] line[i] != '\n' && line[i] != '\r',
    ensures
        line_col(line, n) == (0nat, sanitized(line.take(n)).len()),
    decreases n,
{
    if n > 0 {
        the_cursor_stands_at_its_character(line, n - 1);
        assert(line.take(n).drop_last() =~= line.take(n - 1));
        assert(line.take(n).last() == line[n - 1]);
    }
}

/// What is shown of each of some lines.
pub open spec fn all_sanitized(ls: Seq<Seq<char>>) -> Seq<Seq<char>> {
    Seq::new(ls.len(), |i: int| sanitized(ls[i]))
}

/// The lines of a text under edit as a terminal can show them.
pub fn terminal_lines(text: &str) -> (out: Vec<String>)
    ensures
        views(out@) == all_sanitized(lines_of(normalized(text@))),
{
    let clean = normalize_text(text);
    let ls = lines(clean.as_str());
    let mut out: Vec<String> = Vec::new();
    let mut i: usize = 0;
    while i < ls.len()
        invariant
            i <= ls@.len(),
            out@.len() == i,
            forall|k: int| 0 <= k < i ==> (#[trigger] out@[k])@ == sanitized(views(ls@)[k]),
        decreases ls.len() - i,
    {
        out.push(sanitize_for_terminal(ls[i].as_str()));
        i += 1;
    }
    assert(views(out@) =~= all_sanitized(views(ls@)));
    out
}

// ---------------------------------------------------------------------------
// What the styles are for
// ---------------------------------------------------------------------------

/// A text without control characters is shown as it is; a tab is shown as four
/// spaces and any other control character as one.
pub proof fn texts_are_shown_as_they_are(s: Seq<char>, c: char)
    ensures
        (forall|i: int| 0 <= i < s.len() ==> (#[trigger] s[i] as u32) >= 0x20 && !(0x7f <= (
        s[i] as u32) <= 0x9f)) ==> sanitized(s) == s,
        c == '\t' ==> sanitized(s.push(c)) == sanitized(s) + seq![' ', ' ', ' ', ' '],
        (c as u32) < 0x20 && c != '\t' ==> sanitized(s.push(c)) == sanitized(s) + seq![' '],
        (c as u32) >= 0x20 && !(0x7f <= (c as u32) <= 0x9f) ==> sanitized(s.push(c)) == sanitized(s)
            + seq![c],
    decreases s.len(),
{
    assert(s.push(c).drop_last() =~= s);
    assert(repeated(' ', 4) =~= seq![' ', ' ', ' ', ' ']);
    assert(repeated(' ', 1) =~= seq![' ']);
    if s.len() > 0 {
        let rest = s.drop_last();
        if forall|i: int| 0 <= i < s.len() ==> (#[trigger] s[i] as u32) >= 0x20 && !(0x7f <= (
        s[i] as u32) <= 0x9f) {
            assert forall|i: int| 0 <= i < rest.len() implies (#[trigger] rest[i] as u32) >= 0x20
                && !(0x7f <= (rest[i] as u32) <= 0x9f) by {
                assert(rest[i] == s[i]);
            }
            texts_are_shown_as_they_are(rest, s.last());
            assert(!control(s[s.len() - 1]));
            assert(s =~= rest + seq![s.last()]);
        }
    }
}

/// Highlighting and dimming change how lines look, not what they say.
pub proof fn looks_do_not_change_the_text(lines: Seq<LineModel>, i: int)
    requires
        0 <= i < lines.len(),
    ensures
        highlighted(lines).len() == lines.len(),
        dimmed(lines).len() == lines.len(),
        highlighted(lines)[i].spans == lines[i].spans,
        dimmed(lines)[i].spans == lines[i].spans,
        highlighted(lines)[i].style == (Style {
            fg: Some(Color::Black),
            bg: Some(Color::White),
            bold: false,
        }),
        dimmed(lines)[i].style.bg == Some(Color::Rgb(255, 250, 205)),
        dimmed(lines)[i].style.fg == lines[i].style.fg,
        dimmed(lines)[i].style.bold == lines[i].style.bold,
{
}

/// The text of a line is the text of its parts, one behind the other.
pub proof fn the_text_of_a_line(spans: Seq<SpanModel>, span: SpanModel)
    ensures
        spans_text(spans.push(span)) == spans_text(spans) + span.text,
        spans_width(spans.push(span)) == spans_width(spans) + span.text.len(),
        spans_text(Seq::empty()).len() == 0,
        spans_text(line_of(span.text, span.style).spans) == span.text,
{
    assert(spans.push(span).drop_last() =~= spans);
    let one = seq![span];
    assert(one.drop_last() =~= Seq::<SpanModel>::empty());
    assert(line_of(span.text, span.style).spans =~= one);
    assert(spans_text(one.drop_last()) =~= Seq::<char>::empty());
    assert(spans_text(one) =~= span.text);
}

/// The lines of a text under edit say what the text says: a heading in the color
/// of its level, a quote behind its mark, any other line as it is annotated; one
/// blank line follows.
pub proof fn lines_under_edit_say_the_text(
    lines: Seq<Seq<char>>,
    annotated: Seq<LineModel>,
    i: int,
)
    requires
        lines.len() == annotated.len(),
        0 <= i < lines.len(),
    ensures
        edited_lines(lines, annotated).len() == lines.len() + 1,
        spans_text(edited_lines(lines, annotated).last().spans).len() == 0,
        heading_of(lines[i]) is Some ==> spans_text(edited_lines(lines, annotated)[i].spans)
            == lines[i],
        heading_of(lines[i]) is None && strip_prefix(lines[i], "> "@) is Some ==> spans_text(
            edited_lines(lines, annotated)[i].spans,
        ) == lines[i],
        heading_of(lines[i]) is None && strip_prefix(lines[i], "> "@) is None ==> edited_lines(
            lines,
            annotated,
        )[i] == annotated[i],
{
    let none = Seq::<SpanModel>::empty();
    the_text_of_a_line(none, SpanModel { text: Seq::empty(), style: plain_style() });
    if heading_of(lines[i]) is Some {
        let level = (heading_of(lines[i])->0).0;
        the_text_of_a_line(none, SpanModel { text: lines[i], style: heading_style(level) });
    } else if strip_prefix(lines[i], "> "@) is Some {
        let rest = strip_prefix(lines[i], "> "@)->0;
        a_stripped_prefix_was_there(lines[i], "> "@);
        let a = SpanModel { text: "> "@, style: colored(Color::DarkGray) };
        let b = SpanModel { text: rest, style: colored(Color::Gray) };
        the_text_of_a_line(none, a);
        the_text_of_a_line(none.push(a), b);
        assert(seq![a, b] =~= none.push(a).push(b));
        assert(spans_text(none) =~= Seq::<char>::empty());
        assert(Seq::<char>::empty() + "> "@ + rest =~= "> "@ + rest);
    }
}

/// The colors of headings.
pub proof fn headings_have_their_colors(level: u8)
    ensures
        heading_style(level).bold,
        level == 1 ==> heading_style(level).fg == Some(Color::Cyan),
        level == 2 ==> heading_style(level).fg == Some(Color::Green),
        level > 2 ==> heading_style(level).fg == Some(Color::Blue),
{
}

} // verus!
