//! The disk chooser shown when no path was given.

use vstd::prelude::*;
use crate::app::{App, State};
use crate::bar;
use crate::mounts;
use crate::mounts::{Filesystem, Volume};
use crate::overview;
use crate::overview::Listing;
use crate::palette;
use crate::screen;
use crate::screen::{Line, Run, Tone};
use crate::size;
use crate::size::Unit;
use crate::strings;
use crate::text;

verus! {

pub open spec fn disk_names(disks: Seq<Volume>) -> Seq<Seq<char>> {
    disks.map_values(|fs: Volume| fs.name)
}

/// The room for the names of some disks.
pub open spec fn name_width(disks: Seq<Volume>) -> nat {
    screen::between(screen::widest_of(disk_names(disks)), 8, 24)
}

/// The room for the gauges beside them.
pub open spec fn gauge_width(disks: Seq<Volume>, width: nat) -> nat {
    screen::between(screen::left(width, name_width(disks) + 34), 8, 28)
}

/// One disk.
pub open spec fn disk_runs(fs: Volume, unit: Unit, name: nat, gauge: nat) -> Seq<Run> {
    let share = overview::used_share(fs);
    seq![
        screen::run("  "@, Tone::Plain),
        screen::run(text::fitted(fs.name, name), Tone::Heading),
        screen::run("  "@, Tone::Plain),
        screen::run(bar::gauge_text(share, gauge), Tone::Hue(overview::capacity_hue(share))),
        screen::run("  "@, Tone::Plain),
        screen::run(strings::right_aligned(size::whole_percent_text(share), 4), Tone::Secondary),
        screen::run("   "@, Tone::Plain),
        screen::run(
            size::formatted(fs.available as nat, unit) + " free of "@ + size::formatted(
                fs.total as nat,
                unit,
            ),
            Tone::Muted,
        ),
    ]
}

/// The list of disks.
pub open spec fn disk_lines(disks: Seq<Volume>, unit: Unit, width: nat) -> Seq<Seq<Run>> {
    disks.map_values(
        |fs: Volume| disk_runs(fs, unit, name_width(disks), gauge_width(disks, width)),
    )
}

pub open spec fn offers(listing: Listing, state: State, width: nat) -> bool {
    let disks = state.filesystems;
    if disks.len() == 0 {
        &&& listing.selected is None
        &&& screen::line_values(listing.lines@) == seq![
            seq![screen::run("no mounted filesystems found — try disko --all"@, Tone::Muted)],
        ]
    } else {
        &&& listing.selected == Some(
            screen::least(state.picker_index as nat, (disks.len() - 1) as nat) as usize,
        )
        &&& screen::line_values(listing.lines@) == disk_lines(disks, state.settings.unit, width)
    }
}

fn disk_line(fs: &Filesystem, unit: Unit, name: usize, gauge: usize) -> (line: Line)
    ensures
        line@ == disk_runs(fs@, unit, name as nat, gauge as nat),
{
    let share = fs.used_fraction();
    let mut line = Line::new();
    line.say("  ", Tone::Plain);
    line.push(text::fit(fs.name.as_str(), name), Tone::Heading);
    line.say("  ", Tone::Plain);
    line.push(bar::gauge(share, gauge), Tone::Hue(palette::capacity_color(share)));
    line.say("  ", Tone::Plain);
    let percent = size::format_percent_whole(share);
    line.push(strings::align_right(percent.as_str(), 4), Tone::Secondary);
    line.say("   ", Tone::Plain);
    let mut free = size::format(fs.available, unit);
    free.append(" free of ");
    free.append(size::format(fs.total, unit).as_str());
    line.push(free, Tone::Muted);
    line
}

fn widest_name(disks: &Vec<Filesystem>) -> (cells: usize)
    ensures
        cells == screen::widest_of(disk_names(mounts::volumes(disks@))),
{
    let ghost all = mounts::volumes(disks@);
    let mut names: Vec<String> = Vec::new();
    let mut at: usize = 0;
    while at < disks.len()
        invariant
            at <= disks@.len(),
            all == mounts::volumes(disks@),
            names@.len() == at,
            forall|i: int| 0 <= i < at ==> (#[trigger] names@[i])@ == all[i].name,
        decreases disks@.len() - at,
    {
        names.push(String::from_str(disks[at].name.as_str()));
        at += 1;
    }
    assert(strings::texts(names@) =~= disk_names(all));
    screen::widest(&names)
}

fn kept_between(value: usize, low: usize, high: usize) -> (out: usize)
    ensures
        out == screen::between(value as nat, low as nat, high as nat),
{
    if value < low {
        low
    } else if value > high {
        high
    } else {
        value
    }
}

/// The disks to choose from, `width` cells wide.
pub fn disks(app: &App, width: usize) -> (out: Listing)
    ensures
        offers(out, app@, width as nat),
{
    let mut lines: Vec<Line> = Vec::new();
    if app.filesystems.len() == 0 {
        let mut line = Line::new();
        line.say("no mounted filesystems found — try disko --all", Tone::Muted);
        lines.push(line);
        assert(screen::line_values(lines@) =~= seq![
            seq![screen::run("no mounted filesystems found — try disko --all"@, Tone::Muted)],
        ]);
        return Listing { lines, selected: None };
    }
    let ghost all = app@.filesystems;
    let unit = app.settings.unit;
    let name: usize = kept_between(widest_name(&app.filesystems), 8, 24);
    let gauge: usize = kept_between(width.saturating_sub(name + 34), 8, 28);
    let mut at: usize = 0;
    while at < app.filesystems.len()
        invariant
            at <= app.filesystems@.len(),
            all == mounts::volumes(app.filesystems@),
            lines@.len() == at,
            forall|i: int|
                0 <= i < at ==> (#[trigger] lines@[i])@ == disk_runs(
                    all[i],
                    unit,
                    name as nat,
                    gauge as nat,
                ),
        decreases app.filesystems@.len() - at,
    {
        lines.push(disk_line(&app.filesystems[at], unit, name, gauge));
        at += 1;
    }
    assert(screen::line_values(lines@) =~= disk_lines(all, unit, width as nat));
    let last: usize = app.filesystems.len() - 1;
    Listing {
        lines,
        selected: Some(
            if app.picker_index < last {
                app.picker_index
            } else {
                last
            },
        ),
    }
}

} // verus!
