//! What a screen is made of: lines of text, each run of it in one tone.

use vstd::prelude::*;
use crate::palette::Rgb;
use crate::strings;
use crate::text;

verus! {

/// How a run of text is set off from the rest.
#[derive(Clone, Copy, Debug, PartialEq, Eq, Structural)]
pub enum Tone {
    Plain,
    /// What a screen is about.
    Heading,
    /// What names or explains something else.
    Muted,
    Secondary,
    /// Where the cursor is.
    Selected,
    /// A key to press. Bright enough to pick out of a dim row at a glance without competing with
    /// the data above it.
    Key,
    Accent,
    Warning,
    /// What cannot be undone.
    Danger,
    Hue(Rgb),
}

/// A run of text in one tone.
#[derive(Debug)]
pub struct Span {
    pub text: String,
    pub tone: Tone,
}

/// A run of text as a value.
#[verifier::ext_equal]
pub struct Run {
    pub text: Seq<char>,
    pub tone: Tone,
}

impl View for Span {
    type V = Run;

    open spec fn view(&self) -> Run {
        Run { text: self.text@, tone: self.tone }
    }
}

pub open spec fn run(text: Seq<char>, tone: Tone) -> Run {
    Run { text, tone }
}

/// One line of a screen.
#[derive(Debug)]
pub struct Line {
    pub spans: Vec<Span>,
}

impl View for Line {
    type V = Seq<Run>;

    open spec fn view(&self) -> Seq<Run> {
        self.spans@.map_values(|span: Span| span@)
    }
}

pub open spec fn line_values(list: Seq<Line>) -> Seq<Seq<Run>> {
    list.map_values(|line: Line| line@)
}

/// An optional line as a value.
pub open spec fn line_value(line: Option<Line>) -> Option<Seq<Run>> {
    match line {
        Some(line) => Some(line@),
        None => None,
    }
}

/// The terminal cells that some runs take, side by side.
pub open spec fn cells_of(runs: Seq<Run>) -> nat
    decreases runs.len(),
{
    if runs.len() == 0 {
        0
    } else {
        cells_of(runs.drop_last()) + text::cells(runs.last().text) as nat
    }
}

/// What is left of a width, none at least.
pub open spec fn left(total: nat, used: nat) -> nat {
    if total >= used {
        (total - used) as nat
    } else {
        0
    }
}

/// The text of some runs, side by side.
pub open spec fn spoken(runs: Seq<Run>) -> Seq<char>
    decreases runs.len(),
{
    if runs.len() == 0 {
        Seq::empty()
    } else {
        spoken(runs.drop_last()) + runs.last().text
    }
}

impl Line {
    pub fn new() -> (line: Line)
        ensures
            line@ == Seq::<Run>::empty(),
    {
        let line = Line { spans: Vec::new() };
        assert(line@ =~= Seq::empty());
        line
    }

    pub fn push(&mut self, text: String, tone: Tone)
        ensures
            final(self)@ == old(self)@.push(run(text@, tone)),
    {
        self.spans.push(Span { text, tone });
        assert(self@ =~= old(self)@.push(run(text@, tone)));
    }

    pub fn say(&mut self, text: &str, tone: Tone)
        ensures
            final(self)@ == old(self)@.push(run(text@, tone)),
    {
        self.push(String::from_str(text), tone);
    }

    /// What a width leaves beside the line.
    pub fn room_beside(&self, total: usize) -> (room: usize)
        ensures
            room == left(total as nat, cells_of(self@)),
    {
        let ghost all = self@;
        let mut room: usize = total;
        let mut at: usize = 0;
        assert(all.take(0) =~= Seq::empty());
        while at < self.spans.len()
            invariant
                at <= self.spans@.len(),
                all == self@,
                room == left(total as nat, cells_of(all.take(at as int))),
            decreases self.spans@.len() - at,
        {
            proof {
                let upto = all.take(at + 1);
                assert(upto.drop_last() =~= all.take(at as int));
                assert(upto.last() == self.spans@[at as int]@);
            }
            room = room.saturating_sub(text::width(self.spans[at].text.as_str()));
            at += 1;
        }
        assert(all.take(at as int) =~= all);
        room
    }

    /// The line without its tones.
    pub fn plain(&self) -> (out: String)
        ensures
            out@ == spoken(self@),
    {
        let ghost all = self@;
        let mut out = String::new();
        let mut at: usize = 0;
        assert(all.take(0) =~= Seq::empty());
        while at < self.spans.len()
            invariant
                at <= self.spans@.len(),
                all == self@,
                out@ == spoken(all.take(at as int)),
            decreases self.spans@.len() - at,
        {
            proof {
                let upto = all.take(at + 1);
                assert(upto.drop_last() =~= all.take(at as int));
                assert(upto.last() == self.spans@[at as int]@);
            }
            out.append(self.spans[at].text.as_str());
            at += 1;
        }
        assert(all.take(at as int) =~= all);
        out
    }
}

/// The terminal cells of the widest of some texts.
pub open spec fn widest_of(texts: Seq<Seq<char>>) -> nat
    decreases texts.len(),
{
    if texts.len() == 0 {
        0
    } else {
        let before = widest_of(texts.drop_last());
        let last = text::cells(texts.last()) as nat;
        if last > before {
            last
        } else {
            before
        }
    }
}

pub(crate) fn widest(list: &Vec<String>) -> (cells: usize)
    ensures
        cells == widest_of(strings::texts(list@)),
{
    let ghost all = strings::texts(list@);
    let mut cells: usize = 0;
    let mut at: usize = 0;
    assert(all.take(0) =~= Seq::empty());
    while at < list.len()
        invariant
            at <= list@.len(),
            all == strings::texts(list@),
            cells == widest_of(all.take(at as int)),
        decreases list@.len() - at,
    {
        proof {
            let upto = all.take(at + 1);
            assert(upto.drop_last() =~= all.take(at as int));
            assert(upto.last() == list@[at as int]@);
        }
        let own: usize = text::width(list[at].as_str());
        if own > cells {
            cells = own;
        }
        at += 1;
    }
    assert(all.take(at as int) =~= all);
    cells
}

/// The smaller of two widths.
pub open spec fn least(a: nat, b: nat) -> nat {
    if a < b {
        a
    } else {
        b
    }
}

/// A width between two others.
pub open spec fn between(value: nat, low: nat, high: nat) -> nat {
    if value < low {
        low
    } else if value > high {
        high
    } else {
        value
    }
}

pub(crate) fn blanks(count: usize) -> (out: String)
    ensures
        out@ == strings::run(' ', count as int),
{
    let mut out = String::new();
    strings::push_run(&mut out, ' ', count);
    assert(out@ =~= strings::run(' ', count as int));
    out
}

/// A line that is a single run.
pub(crate) fn single(words: String, tone: Tone) -> (line: Line)
    ensures
        line@ == seq![run(words@, tone)],
{
    let mut line = Line::new();
    line.push(words, tone);
    line
}

/// One more line.
pub(crate) fn add_line(lines: &mut Vec<Line>, line: Line)
    ensures
        line_values(final(lines)@) == line_values(old(lines)@).push(line@),
{
    lines.push(line);
    assert(line_values(lines@) =~= line_values(old(lines)@).push(line@));
}

/// A rectangle of the screen.
#[derive(Clone, Copy, Debug, PartialEq, Eq, Structural)]
pub struct Area {
    pub x: u16,
    pub y: u16,
    pub width: u16,
    pub height: u16,
}

impl Area {
    /// Whether the corners are on a screen at all.
    pub open spec fn valid(&self) -> bool {
        self.x + self.width <= u16::MAX && self.y + self.height <= u16::MAX
    }
}

/// A box in the middle of an area, as large as was asked for or as fits.
pub fn centered(area: Area, width: u16, height: u16) -> (out: Area)
    requires
        area.valid(),
    ensures
        out.width == least(width as nat, area.width as nat),
        out.height == least(height as nat, area.height as nat),
        out.x == area.x + (area.width - out.width) / 2,
        out.y == area.y + (area.height - out.height) / 2,
        out.valid(),
{
    let width: u16 = if width < area.width {
        width
    } else {
        area.width
    };
    let height: u16 = if height < area.height {
        height
    } else {
        area.height
    };
    Area {
        x: area.x + (area.width - width) / 2,
        y: area.y + (area.height - height) / 2,
        width,
        height,
    }
}

} // verus!
