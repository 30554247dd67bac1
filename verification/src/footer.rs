//! The one-line key hint, search input and status bar at the bottom.

use vstd::prelude::*;
use crate::app;
use crate::app::{App, State};
use crate::model;
use crate::screen;
use crate::screen::{Line, Run, Tone};
use crate::size;
use crate::strings;
use crate::text;
use crate::timefmt;
use crate::tree;
use crate::views;

verus! {

/// Between two hints, and between the hints and the status.
pub const GAP: usize = 3;

/// A key and what it does. Kept apart so the key can be drawn in a colour that separates it from its
/// description: one dim run of text makes the reader parse "Enter open ← back" character by
/// character looking for the keys.
#[derive(Clone, Copy, Debug)]
pub struct Hint {
    pub key: &'static str,
    pub label: &'static str,
}

pub open spec fn hint(key: &'static str, label: &'static str) -> Hint {
    Hint { key, label }
}

/// How to get out of a screen. Always shown, however narrow the terminal gets.
pub open spec fn way_out(view: views::View) -> Hint {
    match view {
        views::View::Explorer => hint("Esc", "back"),
        views::View::Scanning => hint("Esc", "stop"),
        _ => hint("q", "quit"),
    }
}

/// The keys of a screen, most useful first: the tail is what gets dropped on a narrow terminal.
pub open spec fn keys_of(view: views::View) -> Seq<Hint> {
    match view {
        views::View::Overview => seq![
            hint("Enter", "explore"),
            hint("→", "open"),
            hint("←", "back"),
            hint("t", "growth"),
            hint("Space", "mark"),
            hint("x", "delete"),
            hint("o", "reveal"),
            hint("y", "copy"),
            hint("/", "search"),
            hint("d", "details"),
        ],
        views::View::Explorer => seq![
            hint("↑↓", "select"),
            hint("Enter", "open"),
            hint("←", "back"),
            hint("t", "growth"),
            hint("Space", "mark"),
            hint("x", "delete"),
            hint("o", "reveal"),
            hint("y", "copy"),
        ],
        views::View::Picker => seq![hint("↑↓", "select"), hint("Enter", "scan")],
        views::View::Scanning => Seq::empty(),
    }
}

/// What a hint takes: the key, a blank and what it does.
pub open spec fn hint_cells(hint: Hint) -> nat {
    text::cells(hint.key@) as nat + 1 + text::cells(hint.label@) as nat
}

/// What a hint takes behind others.
pub open spec fn needed(hint: Hint, first: bool) -> nat {
    hint_cells(hint) + if first {
        0nat
    } else {
        GAP as nat
    }
}

/// How many of some hints fit, from the front, with the way out behind them.
pub open spec fn hints_fitting(
    hints: Seq<Hint>,
    escape: nat,
    budget: nat,
    at: nat,
    used: nat,
) -> nat
    decreases hints.len() - at,
{
    if at >= hints.len() {
        at
    } else if used + needed(hints[at as int], at == 0) + GAP + escape > budget {
        at
    } else {
        hints_fitting(hints, escape, budget, at + 1, used + needed(hints[at as int], at == 0))
    }
}

/// Some runs with a hint behind them.
pub open spec fn with_hint(runs: Seq<Run>, hint: Hint) -> Seq<Run> {
    let spaced = if runs.len() == 0 {
        runs
    } else {
        runs.push(screen::run(strings::run(' ', GAP as int), Tone::Plain))
    };
    spaced.push(screen::run(hint.key@, Tone::Key)).push(
        screen::run(" "@ + hint.label@, Tone::Muted),
    )
}

/// Some hints side by side.
pub open spec fn hint_row(hints: Seq<Hint>) -> Seq<Run>
    decreases hints.len(),
{
    if hints.len() == 0 {
        Seq::empty()
    } else {
        with_hint(hint_row(hints.drop_last()), hints.last())
    }
}

/// The hints that a screen shows in some width, and the way out.
pub open spec fn hints_shown(view: views::View, budget: nat) -> Seq<Hint> {
    keys_of(view).take(
        hints_fitting(keys_of(view), hint_cells(way_out(view)), budget, 0, 0) as int,
    ).push(way_out(view))
}

/// The narrowest the keys can get: one hint and the way out.
pub open spec fn narrowest(view: views::View) -> nat {
    if keys_of(view).len() == 0 {
        hint_cells(way_out(view))
    } else {
        hint_cells(keys_of(view)[0]) + GAP as nat + hint_cells(way_out(view))
    }
}

/// The most useful thing there is to say.
pub open spec fn status_text(state: State, now: u64) -> Seq<char> {
    if state.marks.len() > 0 {
        strings::digits(state.marks.len()) + " marked · "@ + size::formatted(
            app::size_marked(state) as nat,
            state.settings.unit,
        )
    } else {
        match state.status {
            Some(status) => status,
            None => match state.watch {
                Some(watch) => "watching · every "@ + strings::digits(watch.every as nat) + "s · "@
                    + timefmt::humanized(tree::less_by(now, watch.started_at)),
                None => if app::growing(state) {
                    "showing growth"@
                } else if state.view == views::View::Overview {
                    "sorted by "@ + model::sort_label(state.sort)
                } else {
                    ""@
                },
            },
        }
    }
}

/// The status as it is shown. It earns its place only if there is room left after the keys.
pub open spec fn status_shown(state: State, width: nat, now: u64) -> Seq<char> {
    let room = screen::left(width, narrowest(state.view) + GAP as nat);
    if room >= 8 {
        text::truncated(status_text(state, now), room)
    } else {
        ""@
    }
}

/// The search being typed.
pub open spec fn search_runs(query: Seq<char>) -> Seq<Run> {
    seq![
        screen::run("/"@, Tone::Accent),
        screen::run(query, Tone::Heading),
        screen::run("▏"@, Tone::Accent),
        screen::run("   "@, Tone::Plain),
        screen::run("Enter"@, Tone::Key),
        screen::run(" keep"@, Tone::Muted),
        screen::run("   "@, Tone::Plain),
        screen::run("Esc"@, Tone::Key),
        screen::run(" clear"@, Tone::Muted),
    ]
}

/// The bottom line of a screen.
pub open spec fn footer_runs(state: State, width: nat, now: u64) -> Seq<Run> {
    if state.search_active {
        search_runs(
            match state.search {
                Some(query) => query,
                None => ""@,
            },
        )
    } else {
        let right = status_shown(state, width, now);
        let budget = screen::left(
            width,
            if right.len() == 0 {
                0nat
            } else {
                text::cells(right) as nat + GAP as nat
            },
        );
        let hints = hint_row(hints_shown(state.view, budget));
        let gap = screen::left(width, screen::cells_of(hints) + text::cells(right) as nat);
        hints.push(screen::run(strings::run(' ', gap as int), Tone::Plain)).push(
            screen::run(right, Tone::Secondary),
        )
    }
}

fn quit_hint(view: views::View) -> (out: Hint)
    ensures
        out == way_out(view),
{
    match view {
        // Escape steps back to the overview rather than leaving.
        views::View::Explorer => Hint { key: "Esc", label: "back" },
        views::View::Scanning => Hint { key: "Esc", label: "stop" },
        _ => Hint { key: "q", label: "quit" },
    }
}

fn hints_for(view: views::View) -> (out: Vec<Hint>)
    ensures
        out@ == keys_of(view),
{
    match view {
        views::View::Overview => vec![
            Hint { key: "Enter", label: "explore" },
            Hint { key: "→", label: "open" },
            Hint { key: "←", label: "back" },
            Hint { key: "t", label: "growth" },
            Hint { key: "Space", label: "mark" },
            Hint { key: "x", label: "delete" },
            Hint { key: "o", label: "reveal" },
            Hint { key: "y", label: "copy" },
            Hint { key: "/", label: "search" },
            Hint { key: "d", label: "details" },
        ],
        views::View::Explorer => vec![
            Hint { key: "↑↓", label: "select" },
            Hint { key: "Enter", label: "open" },
            Hint { key: "←", label: "back" },
            Hint { key: "t", label: "growth" },
            Hint { key: "Space", label: "mark" },
            Hint { key: "x", label: "delete" },
            Hint { key: "o", label: "reveal" },
            Hint { key: "y", label: "copy" },
        ],
        views::View::Picker => vec![
            Hint { key: "↑↓", label: "select" },
            Hint { key: "Enter", label: "scan" },
        ],
        views::View::Scanning => Vec::new(),
    }
}

fn hint_width(hint: Hint) -> (cells: u128)
    ensures
        cells == hint_cells(hint),
        cells < 0x4_0000_0000_0000_0000,
{
    text::width(hint.key) as u128 + 1 + text::width(hint.label) as u128
}

fn minimum_width(view: views::View) -> (cells: u128)
    ensures
        cells == narrowest(view),
        cells < 0x10_0000_0000_0000_0000,
{
    let quit: u128 = hint_width(quit_hint(view));
    let hints = hints_for(view);
    if hints.len() == 0 {
        quit
    } else {
        hint_width(hints[0]) + GAP as u128 + quit
    }
}

fn add_hint(line: &mut Line, hint: Hint)
    ensures
        final(line)@ == with_hint(old(line)@, hint),
{
    if line.spans.len() > 0 {
        line.push(screen::blanks(GAP), Tone::Plain);
    }
    line.say(hint.key, Tone::Key);
    let mut label = String::from_str(" ");
    label.append(hint.label);
    line.push(label, Tone::Muted);
}

/// Fit as many hints as the width allows, dropping the least important first but never the one that
/// says how to get out.
pub fn hint_spans(view: views::View, budget: usize) -> (line: Line)
    ensures
        line@ == hint_row(hints_shown(view, budget as nat)),
{
    let quit = quit_hint(view);
    let escape: u128 = hint_width(quit);
    let hints = hints_for(view);
    let ghost all = keys_of(view);
    let ghost goal = hints_fitting(all, escape as nat, budget as nat, 0, 0);
    let mut line = Line::new();
    let mut used: u128 = 0;
    let mut at: usize = 0;
    assert(all.take(0) =~= Seq::empty());
    while at < hints.len()
        invariant_except_break
            at <= hints@.len(),
            hints_fitting(all, escape as nat, budget as nat, at as nat, used as nat) == goal,
        invariant
            at <= hints@.len(),
            hints@ == all,
            escape < 0x4_0000_0000_0000_0000,
            used <= budget,
            line@ == hint_row(all.take(at as int)),
            at == 0 <==> line@.len() == 0,
        ensures
            at == goal,
        decreases hints@.len() - at,
    {
        let needed: u128 = hint_width(hints[at]) + if at == 0 {
            0
        } else {
            GAP as u128
        };
        // Leave room for the escape hatch, always.
        if used + needed + GAP as u128 + escape > budget as u128 {
            break;
        }
        add_hint(&mut line, hints[at]);
        proof {
            let upto = all.take(at + 1);
            assert(upto.drop_last() =~= all.take(at as int));
            assert(upto.last() == all[at as int]);
        }
        used = used + needed;
        at += 1;
    }
    add_hint(&mut line, quit);
    proof {
        let shown = hints_shown(view, budget as nat);
        assert(shown.drop_last() =~= all.take(at as int));
    }
    line
}

fn marked_status(app: &App) -> (out: String)
    ensures
        out@ == strings::digits(app@.marks.len()) + " marked · "@ + size::formatted(
            app::size_marked(app@) as nat,
            app@.settings.unit,
        ),
{
    let mut out = strings::decimal(app.marks.len() as u64);
    out.append(" marked · ");
    out.append(size::format(app.marked_total(), app.settings.unit).as_str());
    out
}

fn watch_status(every: u64, elapsed: u64) -> (out: String)
    ensures
        out@ == "watching · every "@ + strings::digits(every as nat) + "s · "@
            + timefmt::humanized(elapsed),
{
    let mut out = String::from_str("watching · every ");
    out.append(strings::decimal(every).as_str());
    out.append("s · ");
    out.append(timefmt::humanize(elapsed).as_str());
    out
}

/// The right-hand slot shows the most useful thing available. `now` is the time, in seconds since
/// the epoch.
pub fn status(app: &App, now: u64) -> (out: String)
    ensures
        out@ == status_text(app@, now),
{
    if app.marks.len() > 0 {
        return marked_status(app);
    }
    if let Some(status) = &app.status {
        return String::from_str(status.as_str());
    }
    if let Some(watch) = &app.watch {
        return watch_status(watch.every, watch.elapsed(now));
    }
    if app.showing_growth() {
        return String::from_str("showing growth");
    }
    match app.view {
        views::View::Overview => {
            let mut out = String::from_str("sorted by ");
            out.append(app.sort.label());
            out
        },
        _ => String::from_str(""),
    }
}

fn search_line(app: &App) -> (line: Line)
    ensures
        line@ == search_runs(
            match app@.search {
                Some(query) => query,
                None => ""@,
            },
        ),
{
    let mut line = Line::new();
    line.say("/", Tone::Accent);
    match &app.search {
        Some(query) => line.say(query.as_str(), Tone::Heading),
        None => line.say("", Tone::Heading),
    }
    line.say("▏", Tone::Accent);
    line.say("   ", Tone::Plain);
    line.say("Enter", Tone::Key);
    line.say(" keep", Tone::Muted);
    line.say("   ", Tone::Plain);
    line.say("Esc", Tone::Key);
    line.say(" clear", Tone::Muted);
    line
}

fn status_in(app: &App, width: usize, now: u64) -> (right: String)
    ensures
        right@ == status_shown(app@, width as nat, now),
{
    let keys: u128 = minimum_width(app.view) + GAP as u128;
    let room: u128 = (width as u128).saturating_sub(keys);
    if room >= 8 {
        text::truncate(status(app, now).as_str(), room as usize)
    } else {
        String::from_str("")
    }
}

/// The bottom line of a screen, `width` cells wide.
pub fn footer(app: &App, width: usize, now: u64) -> (line: Line)
    ensures
        line@ == footer_runs(app@, width as nat, now),
{
    if app.search_active {
        return search_line(app);
    }
    let right = status_in(app, width, now);
    let taken: usize = text::width(right.as_str());
    let budget: usize = if right.as_str().unicode_len() == 0 {
        width
    } else {
        width.saturating_sub(taken).saturating_sub(GAP)
    };
    let mut line = hint_spans(app.view, budget);
    let gap: usize = line.room_beside(width).saturating_sub(taken);
    line.push(screen::blanks(gap), Tone::Plain);
    line.push(right, Tone::Secondary);
    line
}

// What holds at every width.

/// What some hints take side by side.
pub open spec fn row_cells(hints: Seq<Hint>) -> nat
    decreases hints.len(),
{
    if hints.len() == 0 {
        0
    } else {
        row_cells(hints.drop_last()) + needed(hints.last(), hints.len() == 1)
    }
}

proof fn fitting_stays_inside(hints: Seq<Hint>, escape: nat, budget: nat, at: nat)
    requires
        at <= hints.len(),
        at > 0 ==> row_cells(hints.take(at as int)) + GAP + escape <= budget,
    ensures
        at <= hints_fitting(hints, escape, budget, at, row_cells(hints.take(at as int)))
            <= hints.len(),
        ({
            let count = hints_fitting(hints, escape, budget, at, row_cells(hints.take(at as int)));
            count > 0 ==> row_cells(hints.take(count as int)) + GAP + escape <= budget
        }),
    decreases hints.len() - at,
{
    if at < hints.len() {
        let upto = hints.take(at as int + 1);
        assert(upto.drop_last() =~= hints.take(at as int));
        assert(upto.last() == hints[at as int]);
        let used = row_cells(hints.take(at as int)) + needed(hints[at as int], at == 0);
        assert(row_cells(upto) == used);
        if used + GAP + escape <= budget {
            fitting_stays_inside(hints, escape, budget, at + 1);
        }
    }
}

/// However narrow the terminal gets, the last hint says how to get out, and the ones before it are
/// the most useful ones, in order.
pub proof fn the_way_out_survives(view: views::View, budget: nat)
    ensures
        hints_shown(view, budget).last() == way_out(view),
        hints_shown(view, budget).drop_last().is_prefix_of(keys_of(view)),
        hint_row(hints_shown(view, budget)).len() >= 2,
        hint_row(hints_shown(view, budget)).last() == screen::run(
            " "@ + way_out(view).label@,
            Tone::Muted,
        ),
        hint_row(hints_shown(view, budget)).drop_last().last() == screen::run(
            way_out(view).key@,
            Tone::Key,
        ),
{
    let all = keys_of(view);
    assert(all.take(0) =~= Seq::empty());
    fitting_stays_inside(all, hint_cells(way_out(view)), budget, 0);
    let shown = hints_shown(view, budget);
    let count = hints_fitting(all, hint_cells(way_out(view)), budget, 0, 0);
    assert(shown.drop_last() =~= all.take(count as int));
    let row = hint_row(shown);
    assert(row == with_hint(hint_row(shown.drop_last()), shown.last()));
}

/// The hints take no more than the room they are given, wherever the way out does not alone.
pub proof fn hints_fit(view: views::View, budget: nat)
    requires
        hint_cells(way_out(view)) <= budget,
    ensures
        row_cells(hints_shown(view, budget)) <= budget,
{
    let all = keys_of(view);
    assert(all.take(0) =~= Seq::empty());
    fitting_stays_inside(all, hint_cells(way_out(view)), budget, 0);
    let count = hints_fitting(all, hint_cells(way_out(view)), budget, 0, 0);
    let shown = hints_shown(view, budget);
    assert(shown.drop_last() =~= all.take(count as int));
    assert(shown.len() == count + 1);
}

proof fn fitting_grows(hints: Seq<Hint>, escape: nat, less: nat, more: nat, at: nat, used: nat)
    requires
        less <= more,
    ensures
        hints_fitting(hints, escape, less, at, used) <= hints_fitting(
            hints,
            escape,
            more,
            at,
            used,
        ),
        at <= hints_fitting(hints, escape, more, at, used),
    decreases hints.len() - at,
{
    if at < hints.len() {
        fitting_grows(
            hints,
            escape,
            less,
            more,
            at + 1,
            used + needed(hints[at as int], at == 0),
        );
    }
}

/// A wider terminal shows every hint that a narrower one does.
pub proof fn wider_shows_more(view: views::View, less: nat, more: nat)
    requires
        less <= more,
    ensures
        hints_shown(view, less).drop_last().is_prefix_of(hints_shown(view, more).drop_last()),
{
    let all = keys_of(view);
    let escape = hint_cells(way_out(view));
    assert(all.take(0) =~= Seq::empty());
    fitting_stays_inside(all, escape, less, 0);
    fitting_stays_inside(all, escape, more, 0);
    fitting_grows(all, escape, less, more, 0, 0);
    let few = hints_fitting(all, escape, less, 0, 0);
    let many = hints_fitting(all, escape, more, 0, 0);
    assert(hints_shown(view, less).drop_last() =~= all.take(few as int));
    assert(hints_shown(view, more).drop_last() =~= all.take(many as int));
}

} // verus!
