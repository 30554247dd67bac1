//! The radial explorer: a sunburst of the current directory, with a legend tying every wedge to a
//! name and a size.

use vstd::prelude::*;
use crate::app;
use crate::app::{App, State};
use crate::canvas::HalfCell;
use crate::chart;
use crate::double;
use crate::model;
use crate::model::Row;
use crate::overview;
use crate::palette;
use crate::palette::Rgb;
use crate::radial;
use crate::radial::{LayoutOptions, Limits, RenderOptions, Segment, Style};
use crate::report;
use crate::screen;
use crate::screen::{Line, Run, Tone};
use crate::size;
use crate::size::Unit;
use crate::strings;
use crate::text;
use crate::timefmt;
use crate::tree;

verus! {

/// Three rings is the sweet spot: enough to see structure two levels down, few enough that the outer
/// ring is still thick enough to read.
pub const RINGS: usize = 3;

pub const LEGEND_WIDTH: usize = 34;

/// The room for the legend beside a chart.
pub fn legend_width(width: usize) -> (cells: usize)
    ensures
        cells == screen::least(LEGEND_WIDTH as nat, screen::left(width as nat, 20)),
{
    let room: usize = width.saturating_sub(20);
    if room < LEGEND_WIDTH {
        room
    } else {
        LEGEND_WIDTH
    }
}

/// The wedge of the selected row. The selected row and the highlighted wedge are the same thing seen
/// two ways, so they are looked up from one source: the selected path.
pub open spec fn wedge_under_cursor(state: State, burst: chart::Burst) -> Option<usize> {
    match app::path_under_cursor(state) {
        Some(target) => chart::last_place(burst.paths, target, burst.paths.len()),
        None => None,
    }
}

/// How the sunburst is laid out. The selected wedge is placed however thin it is.
pub open spec fn chart_limits(selected: Option<usize>) -> Limits {
    Limits { rings: RINGS as nat, min_span: double::ratio(15, 10_000), pinned: selected }
}

/// How the sunburst is drawn.
pub open spec fn chart_style(selected: Option<usize>) -> Style {
    Style {
        inner_radius: double::ratio(34, 100),
        rings: RINGS as nat,
        selected,
        ring_gap: double::ratio(6, 10),
        segment_gap: double::ratio(8, 10),
    }
}

/// A sunburst ready to be drawn.
#[derive(Debug)]
pub struct Chart {
    pub segments: Vec<Segment>,
    pub options: RenderOptions,
}

impl Chart {
    pub open spec fn valid(&self) -> bool {
        &&& self.options.valid()
        &&& forall|i: int| 0 <= i < self.segments@.len() ==> (#[trigger] self.segments@[i]).valid()
    }
}

/// The sunburst of the current directory, with the selected wedge highlighted.
pub fn chart(app: &App) -> (out: Chart)
    ensures
        out.valid(),
        ({
            let burst = chart::burst_here(app@, RINGS as nat);
            let selected = wedge_under_cursor(app@, burst);
            &&& radial::slices(out.segments@) == radial::sunburst(
                burst.wedge,
                chart_limits(selected),
            )
            &&& out.options@ == chart_style(selected)
        }),
{
    let burst = app.radial_tree(RINGS);
    let selected: Option<usize> = match app.selected_row() {
        Some(row) => match &row.path {
            Some(target) => burst.id_of(target),
            None => None,
        },
        None => None,
    };
    let defaults = LayoutOptions::default();
    let layout = LayoutOptions { rings: RINGS, min_span: defaults.min_span, pinned: selected };
    let segments = radial::layout(&burst.root, &layout);
    let mut options = RenderOptions::default();
    options.rings = RINGS;
    options.selected = selected;
    Chart { segments, options }
}

/// What is drawn in one cell of a filled sunburst: a glyph, its colour, and the colour behind it.
#[derive(Clone, Copy, Debug, PartialEq, Eq, Structural)]
pub struct Glyph {
    pub letter: char,
    pub front: Option<Rgb>,
    pub back: Option<Rgb>,
}

/// The glyph for two pixels, one above the other.
pub fn glyph(cell: HalfCell) -> (out: Glyph)
    ensures
        out.letter == if cell.top is None && cell.bottom is None {
            ' '
        } else if cell.top is None {
            '▄'
        } else {
            '▀'
        },
        out.front == if cell.top is None {
            cell.bottom
        } else {
            cell.top
        },
        out.back == if cell.top is None {
            None
        } else {
            cell.bottom
        },
{
    match (cell.top, cell.bottom) {
        (None, None) => Glyph { letter: ' ', front: None, back: None },
        (Some(top), None) => Glyph { letter: '▀', front: Some(top), back: None },
        (None, Some(bottom)) => Glyph { letter: '▄', front: Some(bottom), back: None },
        (Some(top), Some(bottom)) => Glyph { letter: '▀', front: Some(top), back: Some(bottom) },
    }
}

/// What is said of a wedge that is thinner than a pixel: a highlight on it can only honestly mean
/// "somewhere in this run".
pub open spec fn too_small(row: model::Line) -> Seq<char> {
    size::percent_text(row.fraction) + " of this folder — too small to place"@
}

/// The line above the chart: where this is, how old its numbers are, and whether the highlight stands
/// for a whole run of wedges.
pub open spec fn trail_runs(state: State, a_run: bool, now: u64) -> Seq<Run> {
    let trail = seq![screen::run(app::breadcrumb_text(state), Tone::Heading)];
    let noted = match app::row_under_cursor(state) {
        Some(row) => if a_run {
            trail.push(screen::run("    "@, Tone::Plain)).push(
                screen::run(too_small(row), Tone::Muted),
            )
        } else {
            trail
        },
        None => trail,
    };
    match state.provisional {
        Some(taken_at) => noted.push(screen::run("    "@, Tone::Plain)).push(
            screen::run(
                "as of "@ + timefmt::since(tree::less_by(now, taken_at)) + " · rescanning…"@,
                Tone::Warning,
            ),
        ),
        None => noted,
    }
}

fn size_note(row: &Row) -> (words: String)
    requires
        row.fraction.valid(),
    ensures
        words@ == too_small(row@),
{
    let mut words = size::format_percent(row.fraction);
    words.append(" of this folder — too small to place");
    words
}

/// The line above the chart. `a_run` is what drawing the chart said of the highlight, and `now` the
/// time, in seconds since the epoch.
pub fn trail_line(app: &App, a_run: bool, now: u64) -> (line: Line)
    ensures
        line@ == trail_runs(app@, a_run, now),
{
    let mut line = Line::new();
    line.push(app.breadcrumb(), Tone::Heading);
    if a_run {
        if let Some(row) = app.selected_row() {
            line.say("    ", Tone::Plain);
            line.push(size_note(&row), Tone::Muted);
        }
    }
    if let Some(taken_at) = app.provisional {
        let mut words = String::from_str("as of ");
        words.append(timefmt::ago(now.saturating_sub(taken_at)).as_str());
        words.append(" · rescanning…");
        line.say("    ", Tone::Plain);
        line.push(words, Tone::Warning);
    }
    line
}

/// The line under the chart: the name of the selected row, which the legend may have cut, and its
/// size.
pub open spec fn selected_runs(state: State, width: nat) -> Seq<Run> {
    match app::row_under_cursor(state) {
        Some(row) => {
            let figure = size::formatted(row.size as nat, state.settings.unit);
            seq![
                screen::run(
                    text::truncated(
                        row.name,
                        screen::left(width, text::cells(figure) as nat + 2),
                    ),
                    Tone::Heading,
                ),
                screen::run("  "@, Tone::Plain),
                screen::run(figure, Tone::Secondary),
            ]
        },
        None => Seq::empty(),
    }
}

/// The line under the chart, `width` cells wide.
pub fn selected_line(app: &App, width: usize) -> (line: Line)
    ensures
        line@ == selected_runs(app@, width as nat),
{
    let mut line = Line::new();
    if let Some(row) = app.selected_row() {
        let figure = size::format(row.size, app.settings.unit);
        let room: usize = width.saturating_sub(text::width(figure.as_str())).saturating_sub(2);
        line.push(text::truncate(row.name.as_str(), room), Tone::Heading);
        line.say("  ", Tone::Plain);
        line.push(figure, Tone::Secondary);
    }
    line
}

/// The figure in the hole in the middle: the total for the directory, which the whole chart is a
/// breakdown of, or how much it changed.
pub open spec fn hole_figure(state: State, entry: tree::Tree) -> Seq<char> {
    if app::growing(state) {
        report::signed_text(
            match app::change_here(state) {
                Some(node) => node.change.delta as int,
                None => 0,
            },
            state.settings.unit,
        )
    } else {
        size::formatted(
            tree::size_of(entry, state.settings.size_kind) as nat,
            state.settings.unit,
        )
    }
}

/// The text in the hole of the chart, and where it goes: two lines, centred.
#[derive(Debug)]
pub struct Hole {
    pub x: usize,
    pub y: usize,
    pub width: usize,
    pub figure: String,
    pub name: String,
}

/// The width that two words one above the other need, with a blank on each side.
pub open spec fn box_width(figure: Seq<char>, name: Seq<char>, width: nat) -> nat {
    let wider = if text::cells(figure) > text::cells(name) {
        text::cells(figure) as nat
    } else {
        text::cells(name) as nat
    };
    screen::least(wider + 2, width)
}

pub open spec fn fills(hole: Option<Hole>, state: State, width: nat, height: nat) -> bool {
    match app::entry_here(state) {
        Some(entry) => {
            let figure = hole_figure(state, entry);
            let name = tree::label(entry);
            let room = box_width(figure, name, width);
            if room == 0 || height < 4 {
                hole is None
            } else {
                &&& hole matches Some(hole)
                &&& hole.x == (width - room) / 2
                &&& hole.y == height / 2 - 1
                &&& hole.width == room
                &&& hole.figure@ == figure
                &&& hole.name@ == name
            }
        },
        None => hole is None,
    }
}

fn figure_for(app: &App, entry: &tree::DiskEntry) -> (figure: String)
    ensures
        figure@ == hole_figure(app@, entry@),
{
    if app.showing_growth() {
        let delta: i64 = match app.current_change() {
            Some(node) => node.change.delta,
            None => 0,
        };
        report::signed(delta, app.settings.unit)
    } else {
        size::format(entry.size(app.settings.size_kind), app.settings.unit)
    }
}

/// The text for the hole of a chart of some size.
pub fn hole(app: &App, width: usize, height: usize) -> (out: Option<Hole>)
    ensures
        fills(out, app@, width as nat, height as nat),
{
    let entry = match app.current_entry() {
        Some(entry) => entry,
        None => {
            return None;
        },
    };
    let name = entry.name();
    let figure = figure_for(app, entry);
    let own: usize = text::width(figure.as_str());
    let other: usize = text::width(name.as_str());
    let wider: usize = if own > other {
        own
    } else {
        other
    };
    let room: usize = if width < 2 || wider > width - 2 {
        width
    } else {
        wider + 2
    };
    if room == 0 || height < 4 {
        return None;
    }
    Some(Hole { x: (width - room) / 2, y: height / 2 - 1, width: room, figure, name })
}

/// The sizes of some rows, in words.
pub open spec fn row_sizes(rows: Seq<model::Line>, unit: Unit) -> Seq<Seq<char>> {
    rows.map_values(|row: model::Line| size::formatted(row.size as nat, unit))
}

/// One line of the legend.
pub open spec fn legend_runs(
    row: model::Line,
    selected: bool,
    marks: Seq<Seq<u8>>,
    unit: Unit,
    figures: nat,
    width: nat,
) -> Seq<Run> {
    seq![
        screen::run("■ "@, Tone::Hue(palette::hue(row.color_index as int % 8))),
        screen::run(
            text::fitted(row.name, screen::left(width, figures + 5)),
            if selected {
                Tone::Selected
            } else {
                Tone::Plain
            },
        ),
        screen::run(" "@, Tone::Plain),
        screen::run(
            strings::right_aligned(size::formatted(row.size as nat, unit), figures as int),
            Tone::Secondary,
        ),
        screen::run(
            if overview::row_marked(row, marks) {
                " ✓"@
            } else {
                ""@
            },
            Tone::Accent,
        ),
    ]
}

/// The first row in the legend. The selection stays on screen when the legend is shorter than the
/// list.
pub open spec fn legend_offset(selection: nat, height: nat) -> nat {
    screen::left(selection, screen::left(height, 1))
}

/// How many rows the legend holds.
pub open spec fn legend_count(rows: nat, selection: nat, height: nat) -> nat {
    screen::least(screen::left(rows, legend_offset(selection, height)), height)
}

/// The legend in some room.
pub open spec fn legend_of(state: State, width: nat, height: nat) -> Seq<Seq<Run>> {
    let rows = app::rows_here(state);
    let offset = legend_offset(state.selection as nat, height);
    let figures = screen::widest_of(row_sizes(rows, state.settings.unit));
    Seq::new(
        legend_count(rows.len(), state.selection as nat, height),
        |i: int|
            legend_runs(
                rows[offset + i],
                offset + i == state.selection,
                state.marks,
                state.settings.unit,
                figures,
                width,
            ),
    )
}

fn legend_line(row: &Row, selected: bool, app: &App, figures: usize, width: usize) -> (line: Line)
    ensures
        line@ == legend_runs(
            row@,
            selected,
            app@.marks,
            app@.settings.unit,
            figures as nat,
            width as nat,
        ),
{
    let unit = app.settings.unit;
    let room: usize = width.saturating_sub(figures).saturating_sub(5);
    let mut line = Line::new();
    line.say("■ ", Tone::Hue(palette::categorical(row.color_index)));
    line.push(
        text::fit(row.name.as_str(), room),
        if selected {
            Tone::Selected
        } else {
            Tone::Plain
        },
    );
    line.say(" ", Tone::Plain);
    line.push(size::format_padded(row.size, unit, figures), Tone::Secondary);
    if overview::is_marked(row, &app.marks) {
        line.say(" ✓", Tone::Accent);
    } else {
        line.say("", Tone::Accent);
    }
    line
}

fn widest_size(rows: &Vec<Row>, unit: Unit) -> (cells: usize)
    ensures
        cells == screen::widest_of(row_sizes(model::lines(rows@), unit)),
{
    let ghost all = model::lines(rows@);
    let mut figures: Vec<String> = Vec::new();
    let mut at: usize = 0;
    while at < rows.len()
        invariant
            at <= rows@.len(),
            all == model::lines(rows@),
            figures@.len() == at,
            forall|i: int|
                0 <= i < at ==> (#[trigger] figures@[i])@ == size::formatted(
                    all[i].size as nat,
                    unit,
                ),
        decreases rows@.len() - at,
    {
        figures.push(size::format(rows[at].size, unit));
        at += 1;
    }
    assert(strings::texts(figures@) =~= row_sizes(all, unit));
    screen::widest(&figures)
}

/// The legend, `width` cells wide and at most `height` lines.
pub fn legend(app: &App, width: usize, height: usize) -> (out: Vec<Line>)
    ensures
        screen::line_values(out@) == legend_of(app@, width as nat, height as nat),
{
    let rows = app.rows();
    let ghost all = model::lines(rows@);
    assert(all == app::rows_here(app@));
    let figures: usize = widest_size(&rows, app.settings.unit);
    let offset: usize = app.selection.saturating_sub(height.saturating_sub(1));
    let ghost goal = legend_of(app@, width as nat, height as nat);
    let left: usize = rows.len().saturating_sub(offset);
    let count: usize = if left < height {
        left
    } else {
        height
    };
    let mut out: Vec<Line> = Vec::new();
    let mut at: usize = 0;
    while at < count
        invariant
            at <= count,
            count == goal.len(),
            count > 0 ==> offset + count <= rows@.len(),
            all == model::lines(rows@),
            goal == legend_of(app@, width as nat, height as nat),
            all == app::rows_here(app@),
            offset == legend_offset(app@.selection as nat, height as nat),
            figures == screen::widest_of(row_sizes(all, app@.settings.unit)),
            out@.len() == at,
            forall|i: int| 0 <= i < at ==> (#[trigger] out@[i])@ == goal[i],
        decreases count - at,
    {
        let index: usize = offset + at;
        assert(all[index as int] == rows@[index as int]@);
        let line = legend_line(&rows[index], index == app.selection, app, figures, width);
        assert(line@ == goal[at as int]);
        out.push(line);
        at += 1;
    }
    assert(screen::line_values(out@) =~= goal);
    out
}

/// Wherever the legend has room for a row at all, the selected one is in it, and it is the only one
/// set off.
pub proof fn the_selection_stays_in_the_legend(state: State, width: nat, height: nat)
    requires
        height > 0,
        state.selection < app::rows_here(state).len(),
    ensures
        ({
            let legend = legend_of(state, width, height);
            let at = state.selection - legend_offset(state.selection as nat, height);
            &&& 0 <= at < legend.len() <= height
            &&& legend[at][1].tone == Tone::Selected
            &&& forall|i: int|
                0 <= i < legend.len() && i != at ==> (#[trigger] legend[i])[1].tone == Tone::Plain
        }),
{
}

} // verus!
