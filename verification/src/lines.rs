//! Lines of text on the screen.

use vstd::prelude::*;

use crate::text;

verus! {

/// How a text looks.
#[derive(Clone, Copy, PartialEq, Eq, Structural, Debug)]
pub enum Tone {
    Plain,
    /// Dark gray.
    Faint,
    /// Dimmed.
    Dim,
    /// Bold.
    Strong,
    /// Yellow and bold.
    Headline,
    /// Cyan and bold.
    Ticket,
    /// Green and bold.
    Span,
    /// White and bold on dark gray.
    Selected,
    /// Black and bold on yellow.
    Editing,
    /// Green.
    Good,
    /// Red.
    Bad,
    /// Black and bold on cyan.
    Cursor,
    /// Black and bold on green.
    Anchor,
    /// White on dark gray.
    Inside,
    /// Underlined.
    Today,
}

/// A line of text.
#[derive(Debug)]
pub struct Line {
    pub text: String,
    pub tone: Tone,
}

/// What a line shows.
pub struct LineView {
    pub text: Seq<char>,
    pub tone: Tone,
}

impl View for Line {
    type V = LineView;

    open spec fn view(&self) -> LineView {
        LineView { text: self.text@, tone: self.tone }
    }
}

pub open spec fn line_views(v: Seq<Line>) -> Seq<LineView> {
    Seq::new(v.len(), |i: int| v[i]@)
}

pub open spec fn shown(text: Seq<char>, tone: Tone) -> LineView {
    LineView { text, tone }
}

/// An empty line.
pub open spec fn blank() -> LineView {
    shown(Seq::empty(), Tone::Plain)
}

/// A line.
pub fn line(text: &str, tone: Tone) -> (r: Line)
    ensures
        r@ == shown(text@, tone),
{
    Line { text: text.to_owned(), tone }
}

/// Adds a line.
pub fn add_line(lines: &mut Vec<Line>, text: String, tone: Tone)
    ensures
        line_views(final(lines)@) == line_views(old(lines)@).push(shown(text@, tone)),
{
    let ghost before = line_views(lines@);
    lines.push(Line { text, tone });
    assert(line_views(lines@) =~= before.push(shown(text@, tone)));
}

/// Adds an empty line.
pub fn add_blank(lines: &mut Vec<Line>)
    ensures
        line_views(final(lines)@) == line_views(old(lines)@).push(blank()),
{
    add_line(lines, String::new(), Tone::Plain);
}

/// Adds a line of a fixed text.
pub fn add_text(lines: &mut Vec<Line>, text: &str, tone: Tone)
    ensures
        line_views(final(lines)@) == line_views(old(lines)@).push(shown(text@, tone)),
{
    add_line(lines, text.to_owned(), tone);
}

/// No lines.
pub fn no_lines() -> (r: Vec<Line>)
    ensures
        line_views(r@) == Seq::<LineView>::empty(),
        r@.len() == 0,
{
    let r: Vec<Line> = Vec::new();
    assert(line_views(r@) =~= Seq::empty());
    r
}

/// So many of one character.
pub open spec fn repeated(c: char, n: nat) -> Seq<char> {
    Seq::new(n, |i: int| c)
}

/// So many of one character.
pub fn repeat_char(c: char, n: usize) -> (r: String)
    ensures
        r@ == repeated(c, n as nat),
{
    let mut out = String::new();
    for i in 0..n
        invariant
            out@ == repeated(c, i as nat),
    {
        out.push(c);
        assert(out@ =~= repeated(c, (i + 1) as nat));
    }
    out
}

/// A text with blanks behind it, up to a width.
pub open spec fn padded(s: Seq<char>, width: int) -> Seq<char> {
    if s.len() >= width {
        s
    } else {
        s + repeated(' ', (width - s.len()) as nat)
    }
}

/// A text with blanks behind it, up to a width.
pub fn pad_right(s: &str, width: usize) -> (r: String)
    ensures
        r@ == padded(s@, width as int),
{
    let n = s.unicode_len();
    let mut out = s.to_owned();
    if n < width {
        out.append(repeat_char(' ', width - n).as_str());
    }
    out
}

/// A text with something in front of it.
pub fn prefixed(prefix: &str, s: &str) -> (r: String)
    ensures
        r@ == prefix@ + s@,
{
    let mut out = prefix.to_owned();
    out.append(s);
    out
}

/// The lines of a text. A line ends with a line feed, or with a carriage return
/// and a line feed.
pub open spec fn split_lines(s: Seq<char>) -> Seq<Seq<char>>
    decreases s.len(),
    via split_lines_shrinks
{
    let p = crate::number::position(s, '\n');
    if p < s.len() {
        seq![without_return(s.take(p))] + split_lines(s.skip(p + 1))
    } else if s.len() > 0 {
        seq![s]
    } else {
        Seq::empty()
    }
}

#[via_fn]
proof fn split_lines_shrinks(s: Seq<char>) {
    crate::number::lemma_position_bound(s, '\n');
}

/// A line without the carriage return at its end.
pub open spec fn without_return(s: Seq<char>) -> Seq<char> {
    if s.len() > 0 && s.last() == '\r' {
        s.drop_last()
    } else {
        s
    }
}

/// The lines of a text.
pub fn lines_of(s: &str) -> (r: Vec<String>)
    ensures
        text::texts(r@) == split_lines(s@),
{
    let chars = text::chars_of(s);
    let n = chars.len();
    let mut from: usize = 0;
    let mut out: Vec<String> = Vec::new();
    let ghost goal = split_lines(s@);
    assert(s@.skip(0) =~= s@);
    assert(text::texts(out@) + goal =~= goal);
    while from < n
        invariant
            from <= n,
            n == chars@.len(),
            chars@ == s@,
            goal == text::texts(out@) + split_lines(s@.skip(from as int)),
        decreases n - from,
    {
        let ghost before = text::texts(out@);
        let rest = crate::number::piece(&chars, from, n);
        let ghost tail = s@.skip(from as int);
        assert(rest@ =~= tail);
        let p = crate::number::position_of(&rest, '\n');
        if p < rest.len() {
            let m: usize = if p > 0 && rest[p - 1] == '\r' {
                p - 1
            } else {
                p
            };
            let word = crate::number::piece(&rest, 0, m);
            assert(word@ =~= without_return(tail.take(p as int)));
            out.push(text::string_of(&word));
            assert(text::texts(out@) =~= before.push(word@));
            assert(tail.skip(p + 1) =~= s@.skip(from + p + 1));
            assert(goal =~= text::texts(out@) + split_lines(s@.skip(from + p + 1)));
            from = from + p + 1;
        } else {
            out.push(text::string_of(&rest));
            assert(text::texts(out@) =~= before.push(rest@));
            assert(s@.skip(n as int) =~= Seq::empty());
            assert(goal =~= text::texts(out@) + split_lines(s@.skip(n as int)));
            from = n;
        }
    }
    assert(s@.skip(n as int) =~= Seq::empty());
    assert(text::texts(out@) + Seq::<Seq<char>>::empty() =~= text::texts(out@));
    out
}

/// A text falls into its lines at the line feeds; a carriage return in front of one belongs to
/// it, and what follows the last one is a line if it is not empty.
pub proof fn law_lines_end_at_line_feeds(line: Seq<char>, rest: Seq<char>)
    requires
        !line.contains('\n'),
    ensures
        split_lines(line + seq!['\n'] + rest) == seq![
            if line.len() > 0 && line.last() == '\r' {
                line.drop_last()
            } else {
                line
            },
        ] + split_lines(rest),
        line.len() > 0 ==> split_lines(line) == seq![line],
        split_lines(Seq::empty()) == Seq::<Seq<char>>::empty(),
{
    let n = line.len() as int;
    let all = line + seq!['\n'] + rest;
    assert(all.take(n) =~= line);
    assert(all.skip(n + 1) =~= rest);
    crate::number::lemma_position(all, '\n', n);
    assert(line.take(n) =~= line);
    crate::number::lemma_position(line, '\n', n);
    crate::number::lemma_position(Seq::empty(), '\n', 0);
}

/// A padded text starts with the text, is as wide as asked or as the text, and has blanks behind
/// it.
pub proof fn law_padding_adds_blanks_behind(s: Seq<char>, width: int)
    requires
        width >= 0,
    ensures
        padded(s, width).len() == if s.len() < width {
            width
        } else {
            s.len() as int
        },
        padded(s, width).take(s.len() as int) == s,
        forall|i: int|
            s.len() <= i < padded(s, width).len() ==> (#[trigger] padded(s, width)[i]) == ' ',
{
    assert(padded(s, width).take(s.len() as int) =~= s);
}

} // verus!
