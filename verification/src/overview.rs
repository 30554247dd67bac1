//! The default screen: what is full, what is using the space, where to look next, and nothing else.

use vstd::prelude::*;
use crate::app;
use crate::app::{App, State};
use crate::bar;
use crate::diff;
use crate::double;
use crate::model;
use crate::model::Row;
use crate::mounts::Volume;
use crate::palette;
use crate::palette::Rgb;
use crate::path::FilePath;
use crate::report;
use crate::screen;
use crate::screen::{Line, Run, Tone};
use crate::size;
use crate::size::{SizeKind, Unit};
use crate::strings;
use crate::text;
use crate::timefmt;
use crate::tree;
use crate::tree::{DiskEntry, ScanState};

verus! {

/// Below this the percentage column is the first thing to go: the bar and the absolute size already
/// carry the message.
pub const PERCENT_MIN_WIDTH: usize = 76;

pub const BAR_MAX_WIDTH: usize = 32;

/// Four is enough to point somewhere without becoming a second ranked list.
pub const LARGEST_ITEMS: usize = 4;

/// The lines above the ranked list.
pub const HEADER: usize = 5;

pub const FOOTER: usize = 1;

/// A blank, a heading and two entries.
pub const LARGEST_MIN: usize = 4;

/// How many lines the ranked list and the largest items get between the header and the footer.
///
/// The ranked list is the answer and gets what it needs first; "Largest items" is the follow-up
/// question and only appears if there is room left for a heading and at least two entries.
pub open spec fn body_split(state: State, height: nat, rows: nat) -> (nat, nat) {
    let body = screen::left(height, (HEADER + FOOTER) as nat);
    if body == 0 {
        (0, 0)
    } else {
        let wanted = if rows == 0 {
            1nat
        } else {
            rows
        };
        let available = screen::left(body, wanted);
        let largest = if available >= LARGEST_MIN && app::entry_here(state) is Some
            && !app::growing(state) {
            screen::least(available, (LARGEST_ITEMS + 2) as nat)
        } else {
            0
        };
        (screen::least(wanted, (body - largest) as nat), largest)
    }
}

pub fn split_body(app: &App, height: usize, row_count: usize) -> (lines: (usize, usize))
    ensures
        (lines.0 as nat, lines.1 as nat) == body_split(app@, height as nat, row_count as nat),
{
    let body: usize = height.saturating_sub(HEADER + FOOTER);
    if body == 0 {
        return (0, 0);
    }
    let wanted: usize = if row_count == 0 {
        1
    } else {
        row_count
    };
    let available: usize = body.saturating_sub(wanted);
    let largest: usize = if available >= LARGEST_MIN && app.current_entry().is_some()
        && !app.showing_growth() {
        if available < LARGEST_ITEMS + 2 {
            available
        } else {
            LARGEST_ITEMS + 2
        }
    } else {
        0
    };
    let list: usize = if wanted < body - largest {
        wanted
    } else {
        body - largest
    };
    (list, largest)
}

/// What a volume is and how full it is, in words.
pub open spec fn volume_words(state: State) -> (Seq<char>, Seq<char>) {
    match state.filesystem {
        Some(fs) => (
            fs.name,
            size::formatted(fs.used as nat, state.settings.unit) + " used of "@ + size::formatted(
                fs.total as nat,
                state.settings.unit,
            ),
        ),
        None => (model::path_text(state.root, state.home), ""@),
    }
}

/// The header. It always describes the filesystem, never the directory being explored: conflating
/// the two is the single most confusing thing a disk tool can do.
pub open spec fn capacity_runs(state: State, width: nat) -> Seq<Run> {
    let words = volume_words(state);
    let gap = screen::left(width, text::cells(words.0) as nat + text::cells(words.1) as nat);
    seq![
        screen::run(words.0, Tone::Heading),
        screen::run(strings::run(' ', gap as int), Tone::Plain),
        screen::run(words.1, Tone::Secondary),
    ]
}

pub fn capacity_line(app: &App, width: usize) -> (line: Line)
    ensures
        line@ == capacity_runs(app@, width as nat),
{
    let unit = app.settings.unit;
    let (name, right) = match &app.filesystem {
        Some(fs) => {
            let mut right = size::format(fs.used, unit);
            right.append(" used of ");
            right.append(size::format(fs.total, unit).as_str());
            (String::from_str(fs.name.as_str()), right)
        },
        None => (model::display_path_from(&app.root, &app.home), String::from_str("")),
    };
    let gap: usize = width.saturating_sub(text::width(name.as_str())).saturating_sub(
        text::width(right.as_str()),
    );
    let mut line = Line::new();
    line.push(name, Tone::Heading);
    line.push(screen::blanks(gap), Tone::Plain);
    line.push(right, Tone::Secondary);
    line
}

/// The colour for a filesystem that full.
pub open spec fn capacity_hue(fraction: double::Dyadic) -> Rgb {
    if !double::less(fraction, double::ratio(9, 10)) {
        palette::capacity_critical()
    } else if !double::less(fraction, double::ratio(3, 4)) {
        palette::capacity_warn()
    } else {
        palette::capacity_ok()
    }
}

/// The share of a volume in use.
pub open spec fn used_share(fs: Volume) -> double::Dyadic {
    size::share(fs.used as nat, fs.total as nat)
}

/// The capacity bar, where there is a filesystem to draw.
pub open spec fn gauge_runs(state: State, width: nat) -> Option<Seq<Run>> {
    match state.filesystem {
        None => None,
        Some(fs) => {
            let percent = size::whole_percent_text(used_share(fs));
            let gauge = screen::least(
                screen::left(width, text::cells(percent) as nat + 2),
                64,
            );
            Some(
                seq![
                    screen::run(
                        bar::gauge_text(used_share(fs), gauge),
                        Tone::Hue(capacity_hue(used_share(fs))),
                    ),
                    screen::run("  "@, Tone::Plain),
                    screen::run(percent, Tone::Secondary),
                ],
            )
        },
    }
}

pub fn gauge_line(app: &App, width: usize) -> (line: Option<Line>)
    ensures
        screen::line_value(line) == gauge_runs(app@, width as nat),
{
    match &app.filesystem {
        None => None,
        Some(fs) => {
            let fraction = fs.used_fraction();
            let percent = size::format_percent_whole(fraction);
            let room: usize = width.saturating_sub(text::width(percent.as_str())).saturating_sub(2);
            let gauge: usize = if room < 64 {
                room
            } else {
                64
            };
            let mut line = Line::new();
            line.push(
                bar::gauge(fraction, gauge),
                Tone::Hue(palette::capacity_color(fraction)),
            );
            line.say("  ", Tone::Plain);
            line.push(percent, Tone::Secondary);
            Some(line)
        },
    }
}

/// What is said of numbers that are a floor rather than a total.
pub open spec fn shortfall(state: ScanState) -> Option<Seq<char>> {
    match state {
        ScanState::Complete => None,
        ScanState::Denied => Some("unreadable"@),
        ScanState::Cancelled => Some("scan cancelled — sizes incomplete"@),
        ScanState::Skipped => Some("not scanned — network mount"@),
        ScanState::Partial => Some("some folders skipped or unreadable"@),
    }
}

/// Says so out loud when the numbers are a floor rather than a total.
pub fn incomplete_note(state: ScanState) -> (note: Option<&'static str>)
    ensures
        note is Some <==> shortfall(state) is Some,
        note matches Some(note) ==> note@ == shortfall(state)->0,
{
    match state {
        ScanState::Complete => None,
        ScanState::Denied => Some("unreadable"),
        ScanState::Cancelled => Some("scan cancelled — sizes incomplete"),
        ScanState::Skipped => Some("not scanned — network mount"),
        ScanState::Partial => Some("some folders skipped or unreadable"),
    }
}

/// How much changed, and over what period: a column of "+2 GB" means nothing without knowing whether
/// that was an hour or a month.
pub open spec fn change_run(comparison: app::Comparison, unit: Unit) -> Run {
    let delta = comparison.tree.change.delta as int;
    let scale = if delta == 0 {
        1nat
    } else {
        diff::magnitude(delta)
    };
    screen::run(
        report::signed_text(delta, unit) + " in "@ + timefmt::humanized(
            tree::less_by(comparison.after_at, comparison.before_at),
        ),
        Tone::Hue(palette::growth_hue(delta, scale)),
    )
}

/// What is said after the size of the current folder: how old the numbers are, or what they lack.
/// Numbers from a snapshot are real, just old. Saying so is the whole difference between showing
/// them and misleading with them.
pub open spec fn caveat(state: State, entry: tree::Tree, now: u64) -> Option<Seq<char>> {
    match state.provisional {
        Some(taken_at) => Some(
            "as of "@ + timefmt::since(tree::less_by(now, taken_at)) + " · rescanning…"@,
        ),
        None => shortfall(entry.scan_state),
    }
}

/// The line about the directory being explored, so that its size and the capacity above can never be
/// mistaken for each other.
pub open spec fn folder_runs(state: State, now: u64) -> Option<Seq<Run>> {
    match app::entry_here(state) {
        None => None,
        Some(entry) => {
            let plain = seq![
                screen::run("Current folder: "@, Tone::Muted),
                screen::run(model::path_text(state.cwd, state.home), Tone::Plain),
                screen::run("    "@, Tone::Plain),
                screen::run(
                    size::formatted(
                        tree::size_of(entry, state.settings.size_kind) as nat,
                        state.settings.unit,
                    ),
                    Tone::Accent,
                ),
            ];
            let grown = if app::growing(state) {
                plain.push(screen::run("    "@, Tone::Plain)).push(
                    change_run(state.diff->0, state.settings.unit),
                )
            } else {
                plain
            };
            Some(
                match caveat(state, entry, now) {
                    Some(words) => grown.push(screen::run("    "@, Tone::Plain)).push(
                        screen::run(words, Tone::Warning),
                    ),
                    None => grown,
                },
            )
        },
    }
}

fn change_span(diff: &diff::Diff, unit: Unit) -> (span: screen::Span)
    ensures
        span@ == change_run(app::comparison(*diff), unit),
{
    let delta: i64 = diff.total_delta();
    let moved: u64 = diff::size_of_move(delta);
    let scale: u64 = if moved == 0 {
        1
    } else {
        moved
    };
    let mut words = report::signed(delta, unit);
    words.append(" in ");
    words.append(timefmt::humanize(diff.elapsed()).as_str());
    screen::Span { text: words, tone: Tone::Hue(palette::growth_color(delta, scale)) }
}

fn caveat_for(app: &App, entry: &tree::DiskEntry, now: u64) -> (words: Option<String>)
    ensures
        app::text_value(words) == caveat(app@, entry@, now),
{
    if let Some(taken_at) = app.provisional {
        let age: u64 = now.saturating_sub(taken_at);
        let mut words = String::from_str("as of ");
        words.append(timefmt::ago(age).as_str());
        words.append(" · rescanning…");
        Some(words)
    } else {
        match incomplete_note(entry.scan_state) {
            Some(note) => Some(String::from_str(note)),
            None => None,
        }
    }
}

/// The line about the directory being explored, if there is one. `now` is the time, in seconds since
/// the epoch.
pub fn folder_line(app: &App, now: u64) -> (line: Option<Line>)
    ensures
        screen::line_value(line) == folder_runs(app@, now),
{
    let entry = match app.current_entry() {
        Some(entry) => entry,
        None => {
            return None;
        },
    };
    let unit = app.settings.unit;
    let mut line = Line::new();
    line.say("Current folder: ", Tone::Muted);
    line.push(model::display_path_from(&app.cwd, &app.home), Tone::Plain);
    line.say("    ", Tone::Plain);
    line.push(size::format(entry.size(app.settings.size_kind), unit), Tone::Accent);
    if app.showing_growth() {
        if let Some(diff) = &app.diff {
            line.say("    ", Tone::Plain);
            let span = change_span(diff, unit);
            line.push(span.text, span.tone);
        }
    }
    if let Some(words) = caveat_for(app, entry, now) {
        line.say("    ", Tone::Plain);
        line.push(words, Tone::Warning);
    }
    Some(line)
}

/// How much a row moved, if it is known to have.
pub open spec fn moved(row: model::Line) -> i64 {
    match row.delta {
        Some(delta) => delta,
        None => 0,
    }
}

/// The leading figure of a row. In growth mode it is the signed change, which is what the whole view
/// exists to show; the current size moves to the right.
pub open spec fn amount(row: model::Line, growth: bool, unit: Unit) -> Seq<char> {
    if growth {
        report::signed_text(moved(row) as int, unit)
    } else {
        size::formatted(row.size as nat, unit)
    }
}

pub open spec fn amounts(rows: Seq<model::Line>, growth: bool, unit: Unit) -> Seq<Seq<char>> {
    rows.map_values(|row: model::Line| amount(row, growth, unit))
}

pub open spec fn names(rows: Seq<model::Line>) -> Seq<Seq<char>> {
    rows.map_values(|row: model::Line| row.name)
}

/// The biggest movement of some rows, one at least.
pub open spec fn largest_move(rows: Seq<model::Line>) -> u64
    decreases rows.len(),
{
    if rows.len() == 0 {
        1
    } else {
        tree::later(
            largest_move(rows.drop_last()),
            diff::magnitude(moved(rows.last()) as int) as u64,
        )
    }
}

/// How the ranked list is divided: a marker, the figure, the name, and whatever is left for the bar.
#[derive(Clone, Copy, Debug)]
pub struct Columns {
    /// Whether changes are shown rather than sizes.
    pub growth: bool,
    pub percent: bool,
    pub amount: usize,
    pub name: usize,
    pub bar: usize,
    /// The movement that counts as the whole.
    pub scale: u64,
}

/// The room for a percentage, or for the size beside a change.
pub open spec fn extra(growth: bool, percent: bool) -> nat {
    if percent {
        7
    } else if growth {
        11
    } else {
        0
    }
}

/// How the ranked list of some rows is divided in some width.
pub open spec fn columns_of(
    rows: Seq<model::Line>,
    growth: bool,
    unit: Unit,
    width: nat,
) -> Columns {
    let percent = width >= PERCENT_MIN_WIDTH && !growth;
    let amount = screen::widest_of(amounts(rows, growth, unit));
    let name = screen::between(screen::widest_of(names(rows)), 10, 28);
    let room = screen::left(width, 7 + amount + name + extra(growth, percent));
    Columns {
        growth,
        percent,
        amount: amount as usize,
        name: name as usize,
        bar: screen::least(room, BAR_MAX_WIDTH as nat) as usize,
        scale: largest_move(rows),
    }
}

/// The colour of a row.
pub open spec fn row_hue(row: model::Line, columns: Columns) -> Rgb {
    if columns.growth {
        palette::growth_hue(moved(row) as int, columns.scale as nat)
    } else if row.path is None {
        palette::hue(7)
    } else {
        palette::hue(row.color_index as int % 8)
    }
}

/// Whether a row is marked.
pub open spec fn row_marked(row: model::Line, marks: Seq<Seq<u8>>) -> bool {
    match row.path {
        Some(target) => app::is_marked(marks, target),
        None => false,
    }
}

/// One row of the ranked list.
pub open spec fn row_runs(
    row: model::Line,
    marks: Seq<Seq<u8>>,
    columns: Columns,
    unit: Unit,
) -> Seq<Run> {
    let base = seq![
        screen::run(
            if row_marked(row, marks) {
                "✓ "@
            } else {
                "  "@
            },
            Tone::Accent,
        ),
        screen::run(
            strings::right_aligned(amount(row, columns.growth, unit), columns.amount as int),
            Tone::Heading,
        ),
        screen::run("  "@, Tone::Plain),
        screen::run(text::fitted(row.name, columns.name as nat), Tone::Plain),
        screen::run("  "@, Tone::Plain),
        screen::run(
            text::fitted(bar::bar_text(row.fraction, columns.bar as nat), columns.bar as nat),
            Tone::Hue(row_hue(row, columns)),
        ),
    ];
    if columns.percent {
        base.push(screen::run("  "@, Tone::Plain)).push(
            screen::run(strings::right_aligned(size::percent_text(row.fraction), 5), Tone::Muted),
        )
    } else if columns.growth {
        // What it is now, so a "+2 GB" has something to be 2 GB of.
        base.push(screen::run("  "@, Tone::Plain)).push(
            screen::run(
                strings::right_aligned(size::formatted(row.size as nat, unit), 9),
                Tone::Muted,
            ),
        )
    } else {
        base
    }
}

/// What is said in place of an empty list.
pub open spec fn nothing_text(state: State) -> Seq<char> {
    if state.search is Some {
        "nothing matches that search"@
    } else if app::growing(state) {
        "nothing here changed"@
    } else {
        "this folder is empty"@
    }
}

/// The ranked list: its lines, and which of them the cursor is on.
#[derive(Debug)]
pub struct Listing {
    pub lines: Vec<Line>,
    pub selected: Option<usize>,
}

pub open spec fn lists(listing: Listing, state: State, width: nat) -> bool {
    let rows = app::rows_here(state);
    if rows.len() == 0 {
        &&& listing.selected is None
        &&& screen::line_values(listing.lines@) == seq![
            seq![screen::run(nothing_text(state), Tone::Muted)],
        ]
    } else {
        &&& listing.selected == Some(
            screen::least(state.selection as nat, (rows.len() - 1) as nat) as usize,
        )
        &&& screen::line_values(listing.lines@) == row_lines_of(
            rows,
            state.marks,
            columns_of(rows, app::growing(state), state.settings.unit, width),
            state.settings.unit,
        )
    }
}

/// The lines of some rows.
pub open spec fn row_lines_of(
    rows: Seq<model::Line>,
    marks: Seq<Seq<u8>>,
    columns: Columns,
    unit: Unit,
) -> Seq<Seq<Run>> {
    rows.map_values(|row: model::Line| row_runs(row, marks, columns, unit))
}

fn amount_of(row: &Row, growth: bool, unit: Unit) -> (out: String)
    ensures
        out@ == amount(row@, growth, unit),
{
    if growth {
        report::signed(movement(row), unit)
    } else {
        size::format(row.size, unit)
    }
}

fn movement(row: &Row) -> (delta: i64)
    ensures
        delta == moved(row@),
{
    match row.delta {
        Some(delta) => delta,
        None => 0,
    }
}

fn measure(rows: &Vec<Row>, growth: bool, unit: Unit, width: usize) -> (columns: Columns)
    ensures
        columns == columns_of(model::lines(rows@), growth, unit, width as nat),
        columns.bar <= BAR_MAX_WIDTH,
{
    let ghost all = model::lines(rows@);
    let mut figures: Vec<String> = Vec::new();
    let mut labels: Vec<String> = Vec::new();
    let mut scale: u64 = 1;
    let mut at: usize = 0;
    assert(all.take(0) =~= Seq::empty());
    while at < rows.len()
        invariant
            at <= rows@.len(),
            all == model::lines(rows@),
            figures@.len() == at,
            labels@.len() == at,
            forall|i: int|
                0 <= i < at ==> (#[trigger] figures@[i])@ == amount(all[i], growth, unit),
            forall|i: int| 0 <= i < at ==> (#[trigger] labels@[i])@ == all[i].name,
            scale == largest_move(all.take(at as int)),
        decreases rows@.len() - at,
    {
        let row = &rows[at];
        proof {
            let upto = all.take(at + 1);
            assert(upto.drop_last() =~= all.take(at as int));
            assert(upto.last() == row@);
        }
        figures.push(amount_of(row, growth, unit));
        labels.push(String::from_str(row.name.as_str()));
        let own: u64 = diff::size_of_move(movement(row));
        if own > scale {
            scale = own;
        }
        at += 1;
    }
    assert(all.take(at as int) =~= all);
    assert(strings::texts(figures@) =~= amounts(all, growth, unit));
    assert(strings::texts(labels@) =~= names(all));
    let amount: usize = screen::widest(&figures);
    let widest: usize = screen::widest(&labels);
    let name: usize = if widest < 10 {
        10
    } else if widest > 28 {
        28
    } else {
        widest
    };
    let percent = width >= PERCENT_MIN_WIDTH && !growth;
    let beside: usize = if percent {
        7
    } else if growth {
        11
    } else {
        0
    };
    let room: usize = width.saturating_sub(amount).saturating_sub(7 + name + beside);
    Columns {
        growth,
        percent,
        amount,
        name,
        bar: if room < BAR_MAX_WIDTH {
            room
        } else {
            BAR_MAX_WIDTH
        },
        scale,
    }
}

fn color_of(row: &Row, columns: &Columns) -> (color: Rgb)
    ensures
        color == row_hue(row@, *columns),
{
    if columns.growth {
        palette::growth_color(movement(row), columns.scale)
    } else if row.is_other() {
        palette::categorical(7)
    } else {
        palette::categorical(row.color_index)
    }
}

/// Whether a row is marked.
pub(crate) fn is_marked(row: &Row, marks: &Vec<FilePath>) -> (yes: bool)
    ensures
        yes == row_marked(row@, app::path_list(marks@)),
{
    match &row.path {
        Some(target) => app::holds_mark(marks, target),
        None => false,
    }
}

fn row_line(row: &Row, app: &App, columns: &Columns) -> (line: Line)
    requires
        row.fraction.valid(),
        columns.bar <= BAR_MAX_WIDTH,
    ensures
        line@ == row_runs(row@, app@.marks, *columns, app@.settings.unit),
{
    let unit = app.settings.unit;
    let mut line = Line::new();
    if is_marked(row, &app.marks) {
        line.say("✓ ", Tone::Accent);
    } else {
        line.say("  ", Tone::Accent);
    }
    let figure = amount_of(row, columns.growth, unit);
    line.push(strings::align_right(figure.as_str(), columns.amount), Tone::Heading);
    line.say("  ", Tone::Plain);
    line.push(text::fit(row.name.as_str(), columns.name), Tone::Plain);
    line.say("  ", Tone::Plain);
    let drawn = bar::bar(row.fraction, columns.bar);
    line.push(text::fit(drawn.as_str(), columns.bar), Tone::Hue(color_of(row, columns)));
    if columns.percent {
        line.say("  ", Tone::Plain);
        let share = size::format_percent(row.fraction);
        line.push(strings::align_right(share.as_str(), 5), Tone::Muted);
    } else if columns.growth {
        line.say("  ", Tone::Plain);
        line.push(size::format_padded(row.size, unit, 9), Tone::Muted);
    }
    line
}

/// The ranked list, `width` cells wide.
pub fn listing(app: &App, width: usize) -> (out: Listing)
    ensures
        lists(out, app@, width as nat),
{
    let rows = app.rows();
    let ghost all = model::lines(rows@);
    assert(all == app::rows_here(app@));
    let growth = app.showing_growth();
    let mut lines: Vec<Line> = Vec::new();
    if rows.len() == 0 {
        let mut line = Line::new();
        if app.search.is_some() {
            line.say("nothing matches that search", Tone::Muted);
        } else if growth {
            line.say("nothing here changed", Tone::Muted);
        } else {
            line.say("this folder is empty", Tone::Muted);
        }
        lines.push(line);
        assert(screen::line_values(lines@) =~= seq![
            seq![screen::run(nothing_text(app@), Tone::Muted)],
        ]);
        return Listing { lines, selected: None };
    }
    let columns = measure(&rows, growth, app.settings.unit, width);
    let mut at: usize = 0;
    while at < rows.len()
        invariant
            at <= rows@.len(),
            all == model::lines(rows@),
            model::rows_valid(rows@),
            columns.bar <= BAR_MAX_WIDTH,
            lines@.len() == at,
            forall|i: int|
                0 <= i < at ==> (#[trigger] lines@[i])@ == row_runs(
                    all[i],
                    app@.marks,
                    columns,
                    app@.settings.unit,
                ),
        decreases rows@.len() - at,
    {
        lines.push(row_line(&rows[at], app, &columns));
        at += 1;
    }
    assert(screen::line_values(lines@) =~= row_lines_of(
        all,
        app@.marks,
        columns,
        app@.settings.unit,
    ));
    let last: usize = rows.len() - 1;
    Listing {
        lines,
        selected: Some(
            if app.selection < last {
                app.selection
            } else {
                last
            },
        ),
    }
}

/// The sizes of some entries, in words.
pub open spec fn sizes(items: Seq<tree::Place>, kind: SizeKind, unit: Unit) -> Seq<Seq<char>> {
    items.map_values(
        |item: tree::Place| size::formatted(tree::size_of(item.1, kind) as nat, unit),
    )
}

/// One of the largest items.
pub open spec fn item_runs(
    item: tree::Place,
    kind: SizeKind,
    unit: Unit,
    width: nat,
    home: Option<Seq<u8>>,
) -> Seq<Run> {
    seq![
        screen::run("  "@, Tone::Plain),
        screen::run(
            strings::right_aligned(
                size::formatted(tree::size_of(item.1, kind) as nat, unit),
                width as int,
            ),
            Tone::Heading,
        ),
        screen::run("   "@, Tone::Plain),
        screen::run(model::path_text(item.0, home), Tone::Secondary),
    ]
}

/// The block of largest items in some lines, one of which is blank and one the heading. In growth
/// mode the ranked list already answers "where should I look next"; a second list of merely large
/// things would compete with it.
pub open spec fn largest_runs(state: State, height: nat) -> Seq<Seq<Run>> {
    let kind = state.settings.size_kind;
    let unit = state.settings.unit;
    match app::entry_here(state) {
        Some(entry) => {
            let items = model::largest_two_down(entry, state.cwd, screen::left(height, 2), kind);
            if app::growing(state) || items.len() == 0 {
                Seq::empty()
            } else {
                let width = screen::widest_of(sizes(items, kind, unit));
                seq![Seq::<Run>::empty(), seq![screen::run("Largest items"@, Tone::Muted)]]
                    + items.map_values(
                    |item: tree::Place| item_runs(item, kind, unit, width, state.home),
                )
            }
        },
        None => Seq::empty(),
    }
}

fn item_line(item: &(FilePath, &DiskEntry), app: &App, width: usize) -> (line: Line)
    ensures
        line@ == item_runs(
            (item.0@, item.1@),
            app@.settings.size_kind,
            app@.settings.unit,
            width as nat,
            app@.home,
        ),
{
    let mut line = Line::new();
    line.say("  ", Tone::Plain);
    line.push(
        size::format_padded(item.1.size(app.settings.size_kind), app.settings.unit, width),
        Tone::Heading,
    );
    line.say("   ", Tone::Plain);
    line.push(model::display_path_from(&item.0, &app.home), Tone::Secondary);
    line
}

/// The block of largest items, at most `height` lines of it.
pub fn largest_lines(app: &App, height: usize) -> (out: Vec<Line>)
    ensures
        screen::line_values(out@) == largest_runs(app@, height as nat),
{
    let mut out: Vec<Line> = Vec::new();
    assert(screen::line_values(out@) =~= Seq::empty());
    let entry = match app.current_entry() {
        Some(entry) => entry,
        None => {
            return out;
        },
    };
    let kind = app.settings.size_kind;
    let unit = app.settings.unit;
    let items = model::largest_items(&app.cwd, entry, height.saturating_sub(2), kind);
    let ghost all = tree::places(items@);
    if app.showing_growth() || items.len() == 0 {
        return out;
    }
    let mut figures: Vec<String> = Vec::new();
    let mut at: usize = 0;
    while at < items.len()
        invariant
            at <= items@.len(),
            all == tree::places(items@),
            figures@.len() == at,
            forall|i: int|
                0 <= i < at ==> (#[trigger] figures@[i])@ == size::formatted(
                    tree::size_of(all[i].1, kind) as nat,
                    unit,
                ),
        decreases items@.len() - at,
    {
        figures.push(size::format(items[at].1.size(kind), unit));
        at += 1;
    }
    assert(strings::texts(figures@) =~= sizes(all, kind, unit));
    let width: usize = screen::widest(&figures);
    let mut heading = Line::new();
    heading.say("Largest items", Tone::Muted);
    out.push(Line::new());
    out.push(heading);
    let ghost head = seq![Seq::<Run>::empty(), seq![screen::run("Largest items"@, Tone::Muted)]];
    let ghost wanted = |item: tree::Place| item_runs(item, kind, unit, width as nat, app@.home);
    at = 0;
    assert(screen::line_values(out@) =~= head + all.take(0).map_values(wanted));
    while at < items.len()
        invariant
            at <= items@.len(),
            all == tree::places(items@),
            kind == app@.settings.size_kind,
            unit == app@.settings.unit,
            wanted == (|item: tree::Place| item_runs(item, kind, unit, width as nat, app@.home)),
            screen::line_values(out@) == head + all.take(at as int).map_values(wanted),
        decreases items@.len() - at,
    {
        let ghost before = out@;
        let line = item_line(&items[at], app, width);
        out.push(line);
        proof {
            assert(all[at as int] == (items@[at as int].0@, items@[at as int].1@));
            assert(screen::line_values(out@) =~= screen::line_values(before).push(
                wanted(all[at as int]),
            ));
            assert(all.take(at + 1) =~= all.take(at as int).push(all[at as int]));
            assert(screen::line_values(out@) =~= head + all.take(at + 1).map_values(wanted));
        }
        at += 1;
    }
    assert(all.take(at as int) =~= all);
    out
}

// What holds at every size.

/// The ranked list is never crowded out: it has a line wherever there is one at all, the largest
/// items only get what it leaves, and the two together fit.
pub proof fn the_answer_comes_first(state: State, height: nat, rows: nat)
    ensures
        ({
            let lines = body_split(state, height, rows);
            let body = screen::left(height, 6);
            &&& lines.0 + lines.1 <= body
            &&& body > 0 ==> lines.0 >= 1
            &&& lines.1 > 0 ==> lines.0 == if rows == 0 {
                1
            } else {
                rows
            }
            &&& lines.1 == 0 || LARGEST_MIN <= lines.1 <= LARGEST_ITEMS + 2
        }),
{
}

/// The columns of the ranked list fit the width wherever there is room for a bar at all, and a narrow
/// terminal gives up the percentage rather than the bar.
pub proof fn columns_fit(rows: Seq<model::Line>, growth: bool, unit: Unit, width: nat)
    ensures
        ({
            let columns = columns_of(rows, growth, unit, width);
            let amount = screen::widest_of(amounts(rows, growth, unit));
            &&& columns.bar > 0 ==> 7 + amount + columns.name + extra(growth, columns.percent)
                + columns.bar <= width
            &&& width < PERCENT_MIN_WIDTH ==> !columns.percent
            &&& columns.bar <= BAR_MAX_WIDTH
        }),
{
}

/// Capacity and usage are never one number: what the header says of a volume does not change with
/// the directory being explored, and what is said of that directory does not change with the volume.
/// Of the volume itself the header tells no more than its name and how full it is.
pub proof fn capacity_and_usage_are_apart(state: State, other: State, width: nat, now: u64)
    ensures
        state.settings == other.settings && state.root == other.root && state.home == other.home
            && state.filesystem is Some && other.filesystem is Some && state.filesystem->0.name
            == other.filesystem->0.name && state.filesystem->0.used == other.filesystem->0.used
            && state.filesystem->0.total == other.filesystem->0.total ==> capacity_runs(
            state,
            width,
        ) == capacity_runs(other, width) && gauge_runs(state, width) == gauge_runs(other, width),
        state == (State { filesystem: state.filesystem, ..other }) ==> folder_runs(state, now)
            == folder_runs(other, now),
{
}

} // verus!
