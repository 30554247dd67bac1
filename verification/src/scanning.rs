//! The progress screen, shown while a scan runs.

use vstd::prelude::*;
use crate::app::{App, State};
use crate::model;
use crate::scan;
use crate::scan::{Account, Finished, Progress, Summary};
use crate::screen;
use crate::screen::{Line, Run, Tone};
use crate::size;
use crate::size::Unit;
use crate::strings;
use crate::text;

verus! {

/// The frames of the spinner.
pub open spec fn spinner_frames() -> Seq<char> {
    seq!['⠋', '⠙', '⠹', '⠸', '⠼', '⠴', '⠦', '⠧', '⠇', '⠏']
}

/// The spinner at a tick.
pub fn spinner(tick: usize) -> (letter: char)
    ensures
        letter == spinner_frames()[tick as int % 10],
{
    let frames: [char; 10] = ['⠋', '⠙', '⠹', '⠸', '⠼', '⠴', '⠦', '⠧', '⠇', '⠏'];
    frames[tick % 10]
}

/// The line that says what is being scanned.
pub open spec fn banner_runs(state: State, tick: usize) -> Seq<Run> {
    seq![
        screen::run(seq![spinner_frames()[tick as int % 10], ' '], Tone::Accent),
        screen::run("Scanning "@, Tone::Heading),
        screen::run(model::path_text(state.root, state.home), Tone::Plain),
    ]
}

/// How much has been counted, and for how long.
pub open spec fn counted_words(progress: Account, elapsed: Option<u64>, unit: Unit) -> Seq<char> {
    strings::digits(progress.entries as nat) + " items · "@ + size::formatted(
        progress.bytes as nat,
        unit,
    ) + match elapsed {
        Some(seconds) => " · "@ + strings::digits(seconds as nat) + "s"@,
        None => ""@,
    }
}

/// What is said under the banner while a scan runs. Permission errors are normal on a full scan; it
/// says how many rather than pretending the total is exact.
pub open spec fn progress_runs(
    state: State,
    progress: Account,
    elapsed: Option<u64>,
    width: nat,
) -> Seq<Seq<Run>> {
    let counted = seq![
        seq![
            screen::run(
                counted_words(progress, elapsed, state.settings.unit),
                Tone::Secondary,
            ),
        ],
    ];
    let placed = if progress.current.len() == 0 {
        counted
    } else {
        counted.push(
            seq![
                screen::run(
                    text::shortened(
                        model::path_text(progress.current, state.home),
                        screen::left(width, 4),
                    ),
                    Tone::Muted,
                ),
            ],
        )
    };
    if progress.errors == 0 {
        placed
    } else {
        placed.push(
            seq![
                screen::run(
                    strings::digits(progress.errors as nat) + " folders unreadable"@,
                    Tone::Warning,
                ),
            ],
        )
    }
}

/// The lines in the middle of the screen.
pub open spec fn scanning_runs(
    state: State,
    progress: Option<Account>,
    elapsed: Option<u64>,
    tick: usize,
    width: nat,
) -> Seq<Seq<Run>> {
    seq![banner_runs(state, tick)] + match progress {
        Some(progress) => progress_runs(state, progress, elapsed, width),
        None => Seq::empty(),
    }
}

fn banner(app: &App, tick: usize) -> (line: Line)
    ensures
        line@ == banner_runs(app@, tick),
{
    let mut turning = String::new();
    turning.push(spinner(tick));
    turning.push(' ');
    assert(turning@ =~= seq![spinner_frames()[tick as int % 10], ' ']);
    let mut line = Line::new();
    line.push(turning, Tone::Accent);
    line.say("Scanning ", Tone::Heading);
    line.push(model::display_path_from(&app.root, &app.home), Tone::Plain);
    line
}

fn counted(progress: &Progress, elapsed: Option<u64>, unit: Unit) -> (words: String)
    ensures
        words@ == counted_words(progress@, elapsed, unit),
{
    let mut words = strings::decimal(progress.entries);
    words.append(" items · ");
    words.append(size::format(progress.bytes, unit).as_str());
    let mut lasted = String::from_str("");
    if let Some(seconds) = elapsed {
        lasted = String::from_str(" · ");
        lasted.append(strings::decimal(seconds).as_str());
        lasted.append("s");
    }
    words.append(lasted.as_str());
    words
}

/// The lines in the middle of the screen. `elapsed` is how long the scan has run, in seconds.
pub fn scanning(
    app: &App,
    progress: Option<&Progress>,
    elapsed: Option<u64>,
    tick: usize,
    width: u16,
) -> (lines: Vec<Line>)
    ensures
        screen::line_values(lines@) == scanning_runs(
            app@,
            match progress {
                Some(progress) => Some(progress@),
                None => None,
            },
            elapsed,
            tick,
            width as nat,
        ),
{
    let mut lines: Vec<Line> = Vec::new();
    lines.push(banner(app, tick));
    let ghost head = seq![banner_runs(app@, tick)];
    assert(screen::line_values(lines@) =~= head);
    if let Some(progress) = progress {
        let ghost goal = progress_runs(app@, progress@, elapsed, width as nat);
        screen::add_line(
            &mut lines,
            screen::single(counted(progress, elapsed, app.settings.unit), Tone::Secondary),
        );
        if progress.current.bytes.len() > 0 {
            let room: usize = (width as usize).saturating_sub(4);
            let place = model::display_path_from(&progress.current, &app.home);
            screen::add_line(
                &mut lines,
                screen::single(text::shorten_path(place.as_str(), room), Tone::Muted),
            );
        }
        if progress.errors > 0 {
            let mut words = strings::decimal(progress.errors);
            words.append(" folders unreadable");
            screen::add_line(&mut lines, screen::single(words, Tone::Warning));
        }
        assert(screen::line_values(lines@) =~= head + goal);
    } else {
        assert(head =~= head + Seq::<Seq<Run>>::empty());
    }
    lines
}

/// The sizes of some finished directories, in words.
pub open spec fn found_sizes(list: Seq<Summary>, unit: Unit) -> Seq<Seq<char>> {
    list.map_values(|done: Summary| size::formatted(done.allocated as nat, unit))
}

/// The length of the longest of some texts.
pub open spec fn longest_of(texts: Seq<Seq<char>>) -> nat
    decreases texts.len(),
{
    if texts.len() == 0 {
        0
    } else {
        let before = longest_of(texts.drop_last());
        if texts.last().len() > before {
            texts.last().len()
        } else {
            before
        }
    }
}

/// One finished directory.
pub open spec fn found_runs(
    done: Summary,
    unit: Unit,
    figures: nat,
    width: nat,
    home: Option<Seq<u8>>,
) -> Seq<Run> {
    seq![
        screen::run("   "@, Tone::Plain),
        screen::run(
            strings::right_aligned(size::formatted(done.allocated as nat, unit), figures as int),
            Tone::Heading,
        ),
        screen::run("   "@, Tone::Plain),
        screen::run(
            text::shortened(model::path_text(done.path, home), screen::left(width, figures + 6)),
            Tone::Secondary,
        ),
    ]
}

/// The biggest things counted so far, in some room. These are finished directories, not running
/// estimates: each number is final for that folder. The list is incomplete, never wrong.
pub open spec fn found_lines(state: State, width: nat, height: nat) -> Seq<Seq<Run>> {
    if state.streamed.len() == 0 || height < 3 {
        Seq::empty()
    } else {
        let shown = state.streamed.take(
            screen::least(screen::left(height, 2), state.streamed.len()) as int,
        );
        let unit = state.settings.unit;
        let figures = longest_of(found_sizes(shown, unit));
        seq![Seq::<Run>::empty(), seq![screen::run("  Biggest so far"@, Tone::Muted)]]
            + shown.map_values(
            |done: Summary| found_runs(done, unit, figures, width, state.home),
        )
    }
}

fn found_line(done: &Finished, app: &App, figures: usize, width: u16) -> (line: Line)
    ensures
        line@ == found_runs(
            done@,
            app@.settings.unit,
            figures as nat,
            width as nat,
            app@.home,
        ),
{
    let mut line = Line::new();
    line.say("   ", Tone::Plain);
    line.push(size::format_padded(done.allocated, app.settings.unit, figures), Tone::Heading);
    line.say("   ", Tone::Plain);
    let room: usize = (width as usize).saturating_sub(figures).saturating_sub(6);
    let place = model::display_path_from(&done.path, &app.home);
    line.push(text::shorten_path(place.as_str(), room), Tone::Secondary);
    line
}

fn longest_size(list: &Vec<Finished>, count: usize, unit: Unit) -> (length: usize)
    requires
        count <= list@.len(),
    ensures
        length == longest_of(found_sizes(scan::summaries(list@).take(count as int), unit)),
{
    let ghost all = found_sizes(scan::summaries(list@).take(count as int), unit);
    let mut length: usize = 0;
    let mut at: usize = 0;
    assert(all.take(0) =~= Seq::empty());
    while at < count
        invariant
            at <= count <= list@.len(),
            all == found_sizes(scan::summaries(list@).take(count as int), unit),
            length == longest_of(all.take(at as int)),
        decreases count - at,
    {
        let words = size::format(list[at].allocated, unit);
        proof {
            let upto = all.take(at + 1);
            assert(upto.drop_last() =~= all.take(at as int));
            assert(upto.last() == words@);
        }
        let own: usize = words.as_str().unicode_len();
        if own > length {
            length = own;
        }
        at += 1;
    }
    assert(all.take(at as int) =~= all);
    length
}

/// The biggest things counted so far, `width` cells wide and at most `height` lines.
pub fn found(app: &App, width: u16, height: usize) -> (lines: Vec<Line>)
    ensures
        screen::line_values(lines@) == found_lines(app@, width as nat, height as nat),
{
    let mut lines: Vec<Line> = Vec::new();
    assert(screen::line_values(lines@) =~= Seq::empty());
    if app.streamed.len() == 0 || height < 3 {
        return lines;
    }
    let room: usize = height - 2;
    let count: usize = if room < app.streamed.len() {
        room
    } else {
        app.streamed.len()
    };
    let ghost shown = app@.streamed.take(count as int);
    let unit = app.settings.unit;
    let figures: usize = longest_size(&app.streamed, count, unit);
    let ghost wanted = |done: Summary|
        found_runs(done, unit, figures as nat, width as nat, app@.home);
    screen::add_line(&mut lines, Line::new());
    screen::add_line(&mut lines, screen::single(String::from_str("  Biggest so far"), Tone::Muted));
    let ghost head = screen::line_values(lines@);
    let mut at: usize = 0;
    assert(screen::line_values(lines@) =~= head + shown.take(0).map_values(wanted));
    while at < count
        invariant
            at <= count <= app.streamed@.len(),
            unit == app@.settings.unit,
            shown == scan::summaries(app.streamed@).take(count as int),
            wanted == (|done: Summary|
                found_runs(done, unit, figures as nat, width as nat, app@.home)),
            screen::line_values(lines@) == head + shown.take(at as int).map_values(wanted),
        decreases count - at,
    {
        screen::add_line(&mut lines, found_line(&app.streamed[at], app, figures, width));
        proof {
            assert(shown[at as int] == app.streamed@[at as int]@);
            assert(shown.take(at + 1) =~= shown.take(at as int).push(shown[at as int]));
            assert(screen::line_values(lines@) =~= head + shown.take(at + 1).map_values(wanted));
        }
        at += 1;
    }
    assert(shown.take(at as int) =~= shown);
    lines
}

} // verus!
