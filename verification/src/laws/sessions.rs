//! What a session does as scans come and go.

use vstd::prelude::*;
use crate::app;
use crate::app::{Asked, Ending, Known, ScanMode, Settings, State};
use crate::diff;
use crate::history;
use crate::model::{Metric, Sort};
use crate::mounts::Volume;
use crate::path;
use crate::scan::Summary;
use crate::size::SizeKind;
use crate::strings;
use crate::tree;
use crate::tree::Tree;
use crate::views;

verus! {

/// A session starts at the disk list, sorted by size and measuring size, with nothing marked,
/// searched, compared or running, and may delete.
pub proof fn sessions_start_at_the_disk_list(
    settings: Settings,
    details: bool,
    filesystems: Seq<Volume>,
    home: Option<Seq<u8>>,
)
    ensures
        ({
            let state = app::initial(settings, details, filesystems, home);
            &&& state.view == views::View::Picker
            &&& state.settings == settings
            &&& state.details == details
            &&& state.filesystems == filesystems
            &&& state.home == home
            &&& state.picker_index == 0 && state.selection == 0
            &&& state.sort == Sort::Size && state.metric == Metric::Size
            &&& state.tree is None && state.diff is None && state.watch is None
            &&& state.filesystem is None && state.provisional is None
            &&& state.search is None && !state.search_active
            &&& state.confirm is None && state.deleting is None
            &&& state.status is None
            &&& !state.quit && !state.read_only && !state.scanning && !state.from_picker
            &&& state.marks.len() == 0 && state.outcomes.len() == 0
            &&& state.streamed.len() == 0 && state.requests.len() == 0
            &&& state.root.len() == 0 && state.cwd.len() == 0
        }),
{
}

/// What is on screen of a directory is what the tree has at that place, capped in the overview and
/// whole in the explorer; in growth mode it is what changed there.
pub proof fn the_screen_shows_the_directory(state: State)
    ensures
        ({
            let growing = state.metric == Metric::Growth && state.diff is Some;
            let choice = crate::model::Choice {
                size_kind: state.settings.size_kind,
                top: if state.view == views::View::Explorer {
                    None
                } else {
                    Some(state.settings.top)
                },
                sort: state.sort,
                filter: state.search,
            };
            &&& !growing && state.tree is Some && tree::resolved(
                state.tree->0,
                state.cwd,
            ) is Some ==> app::rows_here(state) == crate::model::rows_of(
                tree::resolved(state.tree->0, state.cwd)->0,
                state.cwd,
                choice,
            )
            &&& growing && diff::found(state.diff->0.tree, state.cwd) is Some ==> app::rows_here(
                state,
            ) == crate::model::growth_rows_of(
                diff::found(state.diff->0.tree, state.cwd)->0,
                choice,
            )
            &&& !growing && state.tree is None ==> app::rows_here(state).len() == 0
        }),
{
}

/// A fresh scan starts at the top of what was asked for, with nothing searched. Where a snapshot is
/// known and may be used, its tree is shown at once, with the moment that it is of; otherwise the
/// progress of the scan is.
pub proof fn a_fresh_scan_starts_at_the_top(
    state: State,
    target: Seq<u8>,
    filesystem: Option<Volume>,
    snapshot: Option<Known>,
)
    ensures
        ({
            let after = app::under_way(state, target, ScanMode::Fresh, filesystem, snapshot);
            let painted = state.settings.record_snapshots && snapshot is Some;
            &&& after.scanning
            &&& after.mode == ScanMode::Fresh
            &&& after.root == target && after.cwd == target
            &&& after.selection == 0
            &&& after.search is None && !after.search_active
            &&& after.status is None
            &&& after.streamed.len() == 0
            &&& after.filesystem == filesystem
            &&& after.requests == state.requests.push(Asked::Scan { path: target })
            &&& painted ==> {
                &&& after.tree == Some(snapshot->0.tree)
                &&& after.provisional == Some(snapshot->0.taken_at)
                &&& after.view == views::View::Overview
            }
            &&& !painted ==> {
                &&& after.tree is None
                &&& after.provisional is None
                &&& after.view == views::View::Scanning
            }
        }),
{
}

/// A scan that is finished is shown whole: its tree replaces what was on screen, nothing is
/// provisional any more, and a fresh one comes up in the overview.
pub proof fn a_finished_scan_is_shown(
    state: State,
    tree: Tree,
    now: u64,
    clock: u64,
    previous: Option<Known>,
)
    ensures
        ({
            let after = app::absorbed(state, tree, now, clock, previous);
            &&& after.tree == Some(tree)
            &&& after.provisional is None
            &&& !after.scanning
            &&& after.streamed.len() == 0
            &&& after.root == state.root && after.cwd == state.cwd
            &&& after.view == if state.mode == ScanMode::Fresh {
                views::View::Overview
            } else {
                state.view
            }
            &&& after.selection == 0 || after.selection < app::rows_here(after).len()
        }),
{
    let ready = app::brought_up(app::compared_with(state, tree, now, clock, previous), tree);
    let after = app::absorbed(state, tree, now, clock, previous);
    assert(app::entry_here(after) == app::entry_here(ready));
    assert(app::change_here(after) == app::change_here(ready));
    assert(app::rows_here(after) == app::rows_here(ready));
}

/// Outside of watching, a finished scan is compared with the last snapshot before it, with the size
/// that is being shown, and is then to be recorded, where that is allowed.
pub proof fn a_scan_is_compared_with_the_last(
    state: State,
    tree: Tree,
    now: u64,
    clock: u64,
    previous: Option<Known>,
)
    requires
        state.watch is None,
    ensures
        ({
            let after = app::absorbed(state, tree, now, clock, previous);
            &&& previous is None ==> after.diff is None
            &&& previous matches Some(before) ==> after.diff matches Some(change) && {
                &&& change.before_at == before.taken_at
                &&& change.after_at == now
                &&& change.before_floor == before.floor
                &&& change.before_total == (match state.settings.size_kind {
                    SizeKind::Allocated => before.tree.allocated_size,
                    SizeKind::Apparent => before.tree.apparent_size,
                })
                &&& change.after_total == (match state.settings.size_kind {
                    SizeKind::Allocated => tree.allocated_size,
                    SizeKind::Apparent => tree.apparent_size,
                })
                &&& change.tree == diff::compared(
                    Some(before.tree),
                    Some(tree),
                    tree.name,
                    state.settings.size_kind,
                    before.floor,
                )
            }
            &&& after.requests == if state.settings.record_snapshots {
                state.requests.push(Asked::Record)
            } else {
                state.requests
            }
        }),
{
}

/// Watching takes its first scan as what everything after is compared with, and says from when to
/// when; it records nothing.
pub proof fn watching_compares_with_its_start(
    state: State,
    tree: Tree,
    now: u64,
    clock: u64,
    previous: Option<Known>,
)
    requires
        state.watch is Some,
    ensures
        ({
            let watch = state.watch->0;
            let after = app::absorbed(state, tree, now, clock, previous);
            &&& after.requests == state.requests
            &&& after.watch matches Some(vigil) && vigil.last_scan == clock && vigil.rounds == (
            watch.rounds + 1) % 0x1_0000_0000_0000_0000 && vigil.every == watch.every
                && vigil.started_at == watch.started_at
            &&& watch.baseline is None ==> after.diff == state.diff && after.watch->0.baseline
                == Some(history::for_storage(tree))
            &&& watch.baseline matches Some(baseline) ==> {
                &&& after.watch->0.baseline == Some(baseline)
                &&& after.diff matches Some(change) && change.before_at == watch.started_at
                    && change.after_at == now
                &&& after.diff->0.tree == diff::compared(
                    Some(baseline),
                    Some(tree),
                    tree.name,
                    state.settings.size_kind,
                    history::floor_of(baseline),
                )
            }
        }),
{
}

/// A watched directory is scanned again once the interval is over since the last scan, as soon as
/// there is something on screen and no scan is running.
pub proof fn watching_waits_for_the_interval(state: State, clock: u64)
    requires
        state.watch is Some,
        clock >= state.watch->0.last_scan,
    ensures
        app::watch_due(state, clock) <==> clock - state.watch->0.last_scan >= state.watch->0.every
            && state.tree is Some && !state.scanning,
{
}

/// A scan that fails leads back to the disk list and says why, and one that is no longer waited for
/// changes nothing.
pub proof fn a_lost_scan_says_why(
    state: State,
    error: Seq<char>,
    now: u64,
    clock: u64,
    previous: Option<Known>,
)
    ensures
        state.scanning ==> {
            let after = app::collected(state, Ending::Failed { error }, now, clock, previous);
            &&& after.view == views::View::Picker
            &&& !after.scanning
            &&& after.status == Some(error)
            &&& after.requests == state.requests
        },
        state.scanning ==> app::collected(
            state,
            Ending::Panicked,
            now,
            clock,
            previous,
        ).status == Some("scan thread panicked"@),
        !state.scanning ==> app::collected(
            state,
            Ending::Failed { error },
            now,
            clock,
            previous,
        ) == state,
{
}

/// Directories that a running scan has finished come in with those that were there, and no more than
/// twelve stay.
pub proof fn a_running_scan_shows_twelve(state: State, fresh: Seq<Summary>)
    ensures
        app::streamed_in(state, fresh).streamed.len() <= 12 || app::streamed_in(state, fresh)
            == state,
        !state.scanning ==> app::streamed_in(state, fresh) == state,
        app::streamed_in(state, fresh) == (State {
            streamed: app::streamed_in(state, fresh).streamed,
            ..state
        }),
{
}

/// What is marked comes to the sizes of what is marked.
pub proof fn marks_add_up(marks: Seq<Seq<u8>>, last: Seq<u8>, whole: Tree, kind: SizeKind)
    ensures
        app::size_of_places(Seq::empty(), whole, kind) == 0,
        tree::resolved(whole, last) is None ==> app::size_of_places(marks.push(last), whole, kind)
            == app::size_of_places(marks, whole, kind),
        tree::resolved(whole, last) matches Some(entry) ==> app::size_of_places(
            marks.push(last),
            whole,
            kind,
        ) == (app::size_of_places(marks, whole, kind) + match kind {
            SizeKind::Allocated => entry.allocated_size,
            SizeKind::Apparent => entry.apparent_size,
        }) % 0x1_0000_0000_0000_0000,
{
    assert(marks.push(last).drop_last() =~= marks);
}

/// What a prompt is about comes to the sizes of its targets.
pub proof fn prompts_add_up(targets: Seq<app::Aim>, last: app::Aim)
    ensures
        app::total_size(Seq::empty()) == 0,
        app::total_size(targets.push(last)) == (app::total_size(targets) + last.size)
            % 0x1_0000_0000_0000_0000,
{
    assert(targets.push(last).drop_last() =~= targets);
}

/// A prompt is armed by the word `delete`, typed in full, and by nothing else.
pub proof fn prompts_are_armed_by_the_word(pending: app::Pending)
    ensures
        app::armed(pending) <==> pending.typed == "delete"@,
{
}

/// The way to the directory on screen starts with the volume, or with the root where none is known,
/// and goes on with one name for each level below the root.
pub proof fn breadcrumbs_lead_from_the_volume(
    state: State,
    first: Seq<char>,
    names: Seq<Seq<u8>>,
    last: Seq<u8>,
)
    ensures
        app::trail(first, Seq::empty()) == first,
        app::trail(first, names.push(last)) == app::trail(first, names) + " › "@ + strings::lossy(
            last,
        ),
        !path::within(state.cwd, state.root) ==> app::breadcrumb_text(state) == (
        match state.filesystem {
            Some(fs) => fs.name,
            None => crate::model::path_text(state.root, state.home),
        }),
{
    assert(names.push(last).drop_last() =~= names);
}

} // verus!
