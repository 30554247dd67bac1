//! The "are you sure" panel.
//!
//! It lists every path by name and the total that will go, because the whole point is that the user
//! reads it before typing the word.

use vstd::prelude::*;
use crate::app;
use crate::app::{Aim, App, Confirm, Deleting, Pending, State};
use crate::deletion::{DeleteProgress, Tally, Target};
use crate::model;
use crate::path::FilePath;
use crate::scanning;
use crate::screen;
use crate::screen::{Area, Line, Run, Tone};
use crate::size;
use crate::size::Unit;
use crate::strings;
use crate::text;

verus! {

/// Enough paths to see what you are doing, not so many the total scrolls away.
pub const MAX_LISTED: usize = 10;

pub const WIDTH: u16 = 68;

/// The title of the panel.
#[verifier::allow_in_spec]
pub fn title() -> &'static str
    returns
        " This cannot be undone ",
{
    " This cannot be undone "
}

/// What is about to go.
pub open spec fn heading_runs(pending: Pending, unit: Unit) -> Seq<Run> {
    seq![
        screen::run("Permanently delete "@, Tone::Danger),
        screen::run(strings::digits(pending.targets.len()) + " "@, Tone::Heading),
        screen::run(
            if pending.targets.len() == 1 {
                "item, "@
            } else {
                "items, "@
            },
            Tone::Plain,
        ),
        screen::run(
            size::formatted(app::total_size(pending.targets) as nat, unit),
            Tone::Danger,
        ),
    ]
}

/// The name of a target. A trailing slash is the difference between losing one file and losing
/// everything under a directory.
pub open spec fn target_name(target: Aim, home: Option<Seq<u8>>) -> Seq<char> {
    if target.is_dir {
        model::path_text(target.path, home) + "/"@
    } else {
        model::path_text(target.path, home)
    }
}

pub open spec fn target_runs(target: Aim, home: Option<Seq<u8>>, unit: Unit, room: nat) -> Seq<
    Run,
> {
    seq![
        screen::run("  • "@, Tone::Muted),
        screen::run(text::truncated(target_name(target, home), room), Tone::Plain),
        screen::run("  "@ + size::formatted(target.size as nat, unit), Tone::Muted),
    ]
}

/// The line to type in. Typing the word is the point: it makes the action deliberate rather than one
/// keystroke away from a cursor that happened to be in the wrong place.
pub open spec fn prompt_runs(pending: Pending) -> Seq<Run> {
    seq![
        screen::run(" Type "@, Tone::Muted),
        screen::run(app::confirm_word()@, Tone::Danger),
        screen::run(" to confirm: "@, Tone::Muted),
        screen::run(pending.typed, Tone::Plain),
        screen::run("▏"@, Tone::Accent),
        if app::armed(pending) {
            screen::run("  Enter to delete"@, Tone::Danger)
        } else if pending.nagged {
            screen::run("  type "@ + app::confirm_word()@ + " first"@, Tone::Warning)
        } else {
            screen::run("  Esc to cancel"@, Tone::Muted)
        },
    ]
}

/// How many targets are listed by name.
pub open spec fn listed(pending: Pending) -> nat {
    screen::least(pending.targets.len(), MAX_LISTED as nat)
}

/// Everything in the panel, which is so many cells wide.
pub open spec fn confirm_runs(pending: Pending, home: Option<Seq<u8>>, unit: Unit, width: nat) -> Seq<
    Seq<Run>,
> {
    let named = seq![heading_runs(pending, unit), Seq::<Run>::empty()] + pending.targets.take(
        listed(pending) as int,
    ).map_values(|target: Aim| target_runs(target, home, unit, screen::left(width, 6)));
    let counted = if pending.targets.len() > MAX_LISTED {
        named.push(
            seq![
                screen::run(
                    "  … and "@ + strings::digits((pending.targets.len() - MAX_LISTED) as nat)
                        + " more"@,
                    Tone::Muted,
                ),
            ],
        )
    } else {
        named
    };
    counted.push(Seq::<Run>::empty()).push(prompt_runs(pending))
}

fn heading(confirm: &Confirm, unit: Unit) -> (line: Line)
    ensures
        line@ == heading_runs(confirm@, unit),
{
    let mut line = Line::new();
    line.say("Permanently delete ", Tone::Danger);
    let mut count = strings::decimal(confirm.targets.len() as u64);
    count.append(" ");
    line.push(count, Tone::Heading);
    if confirm.targets.len() == 1 {
        line.say("item, ", Tone::Plain);
    } else {
        line.say("items, ", Tone::Plain);
    }
    line.push(size::format(confirm.total(), unit), Tone::Danger);
    line
}

fn target_line(target: &Target, home: &Option<FilePath>, unit: Unit, room: usize) -> (line: Line)
    ensures
        line@ == target_runs(
            (Aim { path: target.path@, size: target.size, is_dir: target.is_dir }),
            model::home_value(*home),
            unit,
            room as nat,
        ),
{
    let mut name = model::display_path_from(&target.path, home);
    if target.is_dir {
        name.append("/");
    }
    let mut line = Line::new();
    line.say("  • ", Tone::Muted);
    line.push(text::truncate(name.as_str(), room), Tone::Plain);
    let mut figure = String::from_str("  ");
    figure.append(size::format(target.size, unit).as_str());
    line.push(figure, Tone::Muted);
    line
}

fn prompt(confirm: &Confirm) -> (line: Line)
    ensures
        line@ == prompt_runs(confirm@),
{
    let mut line = Line::new();
    line.say(" Type ", Tone::Muted);
    line.say(app::confirm_word(), Tone::Danger);
    line.say(" to confirm: ", Tone::Muted);
    line.say(confirm.typed.as_str(), Tone::Plain);
    line.say("▏", Tone::Accent);
    if confirm.is_armed() {
        line.say("  Enter to delete", Tone::Danger);
    } else if confirm.nagged {
        let mut words = String::from_str("  type ");
        words.append(app::confirm_word());
        words.append(" first");
        line.push(words, Tone::Warning);
    } else {
        line.say("  Esc to cancel", Tone::Muted);
    }
    line
}

/// Everything in the panel, `width` cells wide.
pub fn confirmation(confirm: &Confirm, home: &Option<FilePath>, unit: Unit, width: usize) -> (lines:
    Vec<Line>)
    ensures
        screen::line_values(lines@) == confirm_runs(
            confirm@,
            model::home_value(*home),
            unit,
            width as nat,
        ),
{
    let room: usize = width.saturating_sub(6);
    let ghost place = model::home_value(*home);
    let ghost all = confirm@.targets;
    let count: usize = if confirm.targets.len() < MAX_LISTED {
        confirm.targets.len()
    } else {
        MAX_LISTED
    };
    let mut lines: Vec<Line> = Vec::new();
    assert(screen::line_values(lines@) =~= Seq::empty());
    screen::add_line(&mut lines, heading(confirm, unit));
    screen::add_line(&mut lines, Line::new());
    let ghost head = screen::line_values(lines@);
    let ghost wanted = |target: Aim| target_runs(target, place, unit, room as nat);
    let mut at: usize = 0;
    assert(head =~= head + all.take(0).map_values(wanted));
    while at < count
        invariant
            at <= count <= confirm.targets@.len(),
            all == app::aims(confirm.targets@),
            place == model::home_value(*home),
            wanted == (|target: Aim| target_runs(target, place, unit, room as nat)),
            screen::line_values(lines@) == head + all.take(at as int).map_values(wanted),
        decreases count - at,
    {
        screen::add_line(&mut lines, target_line(&confirm.targets[at], home, unit, room));
        proof {
            let target = confirm.targets@[at as int];
            assert(all[at as int] == (Aim {
                path: target.path@,
                size: target.size,
                is_dir: target.is_dir,
            }));
            assert(all.take(at + 1) =~= all.take(at as int).push(all[at as int]));
            assert(screen::line_values(lines@) =~= head + all.take(at + 1).map_values(wanted));
        }
        at += 1;
    }
    if confirm.targets.len() > MAX_LISTED {
        let mut words = String::from_str("  … and ");
        words.append(strings::decimal((confirm.targets.len() - MAX_LISTED) as u64).as_str());
        words.append(" more");
        screen::add_line(&mut lines, screen::single(words, Tone::Muted));
    }
    screen::add_line(&mut lines, Line::new());
    screen::add_line(&mut lines, prompt(confirm));
    lines
}

/// Where the panel goes: room for the heading, the paths, the prompt, what separates them, and the
/// border.
pub fn panel(confirm: &Confirm, area: Area) -> (out: Area)
    requires
        area.valid(),
    ensures
        out.width == screen::least(WIDTH as nat, area.width as nat),
        out.height == screen::least(listed(confirm@) + 7, area.height as nat),
        out.x == area.x + (area.width - out.width) / 2,
        out.y == area.y + (area.height - out.height) / 2,
{
    let count: u16 = if confirm.targets.len() < MAX_LISTED {
        confirm.targets.len() as u16
    } else {
        MAX_LISTED as u16
    };
    screen::centered(area, WIDTH, count + 7)
}

/// How far a deletion is, in words.
pub open spec fn removed_words(progress: Tally, unit: Unit) -> Seq<char> {
    strings::digits(progress.items_done as nat) + " of "@ + strings::digits(
        progress.items_total as nat,
    ) + " · "@ + size::formatted(progress.freed as nat, unit) + " freed"@
}

/// What is shown while files are being removed. A screen without it looks like it has hung.
pub open spec fn removal_runs(
    state: State,
    deleting: Deleting,
    progress: Tally,
    width: nat,
) -> Seq<Seq<Run>> {
    seq![
        seq![
            screen::run(
                seq![scanning::spinner_frames()[state.tick as int % 10], ' '],
                Tone::Accent,
            ),
            screen::run("Deleting "@, Tone::Heading),
            screen::run(removed_words(progress, state.settings.unit), Tone::Plain),
        ],
        seq![
            screen::run(
                text::shortened(
                    model::path_text(progress.current, state.home),
                    screen::left(width, 4),
                ),
                Tone::Muted,
            ),
        ],
        if deleting.stopping {
            seq![screen::run("Stopping once this file is done"@, Tone::Warning)]
        } else {
            seq![screen::run("Esc to stop"@, Tone::Muted)]
        },
    ]
}

fn removed(progress: &DeleteProgress, unit: Unit) -> (words: String)
    ensures
        words@ == removed_words(progress@, unit),
{
    let mut words = strings::decimal(progress.items_done as u64);
    words.append(" of ");
    words.append(strings::decimal(progress.items_total as u64).as_str());
    words.append(" · ");
    words.append(size::format(progress.freed, unit).as_str());
    words.append(" freed");
    words
}

/// What is shown while files are being removed, `width` cells wide.
pub fn removal(app: &App, deleting: &Deleting, progress: &DeleteProgress, width: u16) -> (lines: Vec<
    Line,
>)
    ensures
        screen::line_values(lines@) == removal_runs(app@, *deleting, progress@, width as nat),
{
    let mut turning = String::new();
    turning.push(scanning::spinner(app.tick));
    turning.push(' ');
    assert(turning@ =~= seq![scanning::spinner_frames()[app.tick as int % 10], ' ']);
    let mut first = Line::new();
    first.push(turning, Tone::Accent);
    first.say("Deleting ", Tone::Heading);
    first.push(removed(progress, app.settings.unit), Tone::Plain);
    let place = model::display_path_from(&progress.current, &app.home);
    let room: usize = (width as usize).saturating_sub(4);
    let ghost goal = removal_runs(app@, *deleting, progress@, width as nat);
    assert(first@ == goal[0]);
    let mut lines: Vec<Line> = Vec::new();
    assert(screen::line_values(lines@) =~= Seq::empty());
    screen::add_line(&mut lines, first);
    screen::add_line(
        &mut lines,
        screen::single(text::shorten_path(place.as_str(), room), Tone::Muted),
    );
    if deleting.stopping {
        screen::add_line(
            &mut lines,
            screen::single(String::from_str("Stopping once this file is done"), Tone::Warning),
        );
    } else {
        screen::add_line(
            &mut lines,
            screen::single(String::from_str("Esc to stop"), Tone::Muted),
        );
    }
    assert(screen::line_values(lines@) =~= goal);
    lines
}

// What holds of the panel.

/// Nothing goes unseen: every target is listed by name or counted, and the last line always says how
/// to go on.
pub proof fn every_target_is_told(pending: Pending, home: Option<Seq<u8>>, unit: Unit, width: nat)
    ensures
        ({
            let lines = confirm_runs(pending, home, unit, width);
            &&& lines.last() == prompt_runs(pending)
            &&& lines[0] == heading_runs(pending, unit)
            &&& forall|i: int|
                0 <= i < listed(pending) ==> #[trigger] lines[2 + i] == target_runs(
                    pending.targets[i],
                    home,
                    unit,
                    screen::left(width, 6),
                )
            &&& pending.targets.len() > MAX_LISTED ==> lines[12] == seq![
                screen::run(
                    "  … and "@ + strings::digits((pending.targets.len() - 10) as nat) + " more"@,
                    Tone::Muted,
                ),
            ]
        }),
{
}

} // verus!
