//! What the panels round the list hold.

use vstd::prelude::*;
use crate::app;
use crate::app::State;
use crate::bar;
use crate::categories::Around;
use crate::confirm;
use crate::details;
use crate::explorer;
use crate::model;
use crate::model::Line;
use crate::mounts::{Inodes, Volume};
use crate::output;
use crate::overview;
use crate::picker;
use crate::scan::Summary;
use crate::scanning;
use crate::screen::Tone;
use crate::size;
use crate::size::{SizeKind, Unit};
use crate::strings;
use crate::text;
use crate::tree;

verus! {

/// The gauge of a volume is filled by what is used of it, in the colour of how full it is, and is
/// never wider than sixty-four cells.
pub proof fn the_gauge_shows_what_is_used(state: State, width: nat)
    ensures
        state.filesystem is None ==> overview::gauge_runs(state, width) is None,
        state.filesystem matches Some(fs) ==> ({
            let share = size::share(fs.used as nat, fs.total as nat);
            let percent = size::whole_percent_text(share);
            let room = width - text::cells(percent) - 2;
            let runs = overview::gauge_runs(state, width)->0;
            &&& overview::gauge_runs(state, width) is Some
            &&& runs[2].text == percent
            &&& runs[0].tone == Tone::Hue(overview::capacity_hue(share))
            &&& room < 0 ==> runs[0].text == bar::gauge_text(share, 0)
            &&& 0 <= room <= 64 ==> runs[0].text == bar::gauge_text(share, room as nat)
            &&& room > 64 ==> runs[0].text == bar::gauge_text(share, 64)
        }),
{
}

/// The largest items are told with their sizes and paths under a heading, and those that take up
/// nothing are left out.
pub proof fn the_largest_items_are_told(state: State, height: nat, i: int)
    requires
        app::entry_here(state) is Some,
        !app::growing(state),
        height >= 2,
        0 <= i < overview::largest_runs(state, height).len() - 2,
    ensures
        ({
            let lines = overview::largest_runs(state, height);
            let items = model::largest_two_down(
                app::entry_here(state)->0,
                state.cwd,
                (height - 2) as nat,
                state.settings.size_kind,
            );
            let bytes = match state.settings.size_kind {
                SizeKind::Allocated => items[i].1.allocated_size,
                SizeKind::Apparent => items[i].1.apparent_size,
            };
            &&& lines.len() == items.len() + 2
            &&& lines[0].len() == 0
            &&& lines[1][0].text == "Largest items"@
            &&& bytes > 0
            &&& lines[i + 2][3].text == model::path_text(items[i].0, state.home)
            &&& lines[i + 2][1].text.len() >= size::formatted(
                bytes as nat,
                state.settings.unit,
            ).len()
            &&& lines[i + 2][1].text.skip(
                lines[i + 2][1].text.len() - size::formatted(
                    bytes as nat,
                    state.settings.unit,
                ).len(),
            ) == size::formatted(bytes as nat, state.settings.unit)
        }),
{
    let kind = state.settings.size_kind;
    let unit = state.settings.unit;
    let all = tree::largest(
        app::entry_here(state)->0,
        state.cwd,
        2,
        (height - 2) as nat,
        kind,
    );
    let wanted = |place: tree::Place| tree::size_of(place.1, kind) > 0;
    let items = all.filter(wanted);
    all.lemma_filter_pred(wanted, i);
    let lines = overview::largest_runs(state, height);
    let figure = size::formatted(tree::size_of(items[i].1, kind) as nat, unit);
    assert(lines[i + 2][1].text.skip(lines[i + 2][1].text.len() - figure.len()) =~= figure);
}

/// No row of the growth column moved more than its scale, and the scale is never nothing.
pub proof fn growth_is_scaled_by_the_largest(rows: Seq<Line>, i: int)
    requires
        0 <= i < rows.len(),
    ensures
        ({
            let scale = overview::largest_move(rows);
            let delta: int = match rows[i].delta {
                Some(delta) => delta as int,
                None => 0,
            };
            scale >= 1 && -scale <= delta <= scale
        }),
    decreases rows.len(),
{
    let front = rows.drop_last();
    assert(front.len() == 0 ==> overview::largest_move(front) == 1);
    if i < front.len() {
        growth_is_scaled_by_the_largest(front, i);
        assert(front[i] == rows[i]);
    } else if front.len() > 0 {
        growth_is_scaled_by_the_largest(front, 0);
    }
}

/// The disks are listed in their order, a line each, in columns that all lines share: names take
/// between eight and twenty-four cells, and gauges between eight and twenty-eight.
pub proof fn disks_have_a_line_each(disks: Seq<Volume>, unit: Unit, width: nat, i: int)
    requires
        0 <= i < disks.len(),
    ensures
        picker::disk_lines(disks, unit, width).len() == disks.len(),
        picker::disk_lines(disks, unit, width)[i] == picker::disk_runs(
            disks[i],
            unit,
            picker::name_width(disks),
            picker::gauge_width(disks, width),
        ),
        8 <= picker::name_width(disks) <= 24,
        8 <= picker::gauge_width(disks, width) <= 28,
        width >= picker::name_width(disks) + 42 ==> picker::name_width(disks) + picker::gauge_width(
            disks,
            width,
        ) + 34 <= width,
{
}

/// A directory that is told while a scan runs is told with what it takes up on disk and its path.
pub proof fn finished_directories_are_told(
    done: Summary,
    unit: Unit,
    figures: nat,
    width: nat,
    home: Option<Seq<u8>>,
)
    requires
        width >= figures + 6,
    ensures
        scanning::found_runs(done, unit, figures, width, home)[1].text == strings::right_aligned(
            size::formatted(done.allocated as nat, unit),
            figures as int,
        ),
        scanning::found_runs(done, unit, figures, width, home)[3].text == text::shortened(
            model::path_text(done.path, home),
            (width - figures - 6) as nat,
        ),
{
}

/// As many of them are told as there is room for under the heading.
pub proof fn finished_directories_fill_the_room(state: State, width: nat, height: nat)
    ensures
        state.streamed.len() == 0 || height < 3 ==> scanning::found_lines(state, width, height).len()
            == 0,
        state.streamed.len() > 0 && height >= 3 && state.streamed.len() <= height - 2
            ==> scanning::found_lines(state, width, height).len() == state.streamed.len() + 2,
        height >= 3 && state.streamed.len() > height - 2 ==> scanning::found_lines(
            state,
            width,
            height,
        ).len() == height,
{
}

/// Inodes are told as what is used of how many, and in percent.
pub proof fn inodes_are_told(inodes: Inodes)
    ensures
        details::inode_words(inodes) == strings::digits(inodes.used as nat) + " used of "@
            + strings::digits(inodes.total as nat) + " ("@ + size::whole_percent_text(
            size::share(inodes.used as nat, inodes.total as nat),
        ) + ")"@,
{
}

/// The details start with what became of the last deletion, a line for each target, and a blank one
/// after them.
pub proof fn details_start_with_the_last_deletion(
    state: State,
    around: Around,
    now: u64,
    i: int,
)
    requires
        0 <= i < state.outcomes.len(),
    ensures
        details::details_facts(state, around, now)[i] == details::fate_told(
            state.outcomes[i],
            state.home,
        ),
        details::details_facts(state, around, now)[state.outcomes.len() as int].label.len() == 0,
{
    reveal_strlit("");
}

/// What is said of the entry under the cursor starts with its path and ends with what is counted.
pub proof fn details_end_with_what_is_counted(state: State, around: Around, now: u64)
    requires
        details::focus(state) is Some,
    ensures
        ({
            let facts = details::focus_facts(state, around, now);
            let target = details::focus(state)->0;
            &&& facts[1].label == "Path"@
            &&& facts[1].value == model::path_text(target, state.home)
            &&& facts.last().label == "Counting"@
            &&& facts.last().value == details::counting_text(state.settings.size_kind)
        }),
{
}

/// Filesystems without inodes are not listed by inodes, and all others are.
pub proof fn only_counted_inodes_are_listed(list: Seq<Volume>, fs: Volume)
    ensures
        output::with_inodes(list).contains(fs) <==> list.contains(fs) && fs.inodes is Some,
        output::with_inodes(list).len() == 0 ==> output::inodes_text(list)
            == "no filesystem reported inode counts\n"@,
        list.len() == 0 ==> output::filesystems_text(list, Unit::Decimal, false)
            == "no filesystems found\n"@,
{
    let counted = |fs: Volume| fs.inodes is Some;
    let kept = list.filter(counted);
    if kept.contains(fs) {
        let k = choose|k: int| 0 <= k < kept.len() && kept[k] == fs;
        list.lemma_filter_pred(counted, k);
        list.lemma_filter_contains_rev(counted, fs);
    }
    if list.contains(fs) && counted(fs) {
        let k = choose|k: int| 0 <= k < list.len() && list[k] == fs;
        list.lemma_filter_contains(counted, k);
    }
}

/// A refresh keeps what is on screen and five levels below it while it runs.
pub proof fn refreshes_keep_five_levels(state: State)
    ensures
        state.tree matches Some(previous) ==> app::pared_down(state).tree == Some(
            app::stub(previous, previous.name, state.cwd, 5),
        ),
        state.tree is None ==> app::pared_down(state).tree is None,
        app::pared_down(state).cwd == state.cwd,
        app::pared_down(state).selection == state.selection,
        app::pared_down(state).view == state.view,
{
}

/// Directories are made known two levels down while a scan runs; a prompt lists ten targets in a box
/// of sixty-eight cells, and the legend takes thirty-four.
pub proof fn panels_have_their_sizes()
    ensures
        app::STREAM_DEPTH == 2,
        app::STREAM_KEEP == 12,
        confirm::MAX_LISTED == 10,
        confirm::WIDTH == 68,
        explorer::LEGEND_WIDTH == 34,
{
}

} // verus!
