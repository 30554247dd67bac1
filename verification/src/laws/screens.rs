//! What each screen says.

use vstd::prelude::*;
use crate::app;
use crate::app::{Aim, Comparison, Deleting, Pending, State};
use crate::bar;
use crate::categories;
use crate::categories::Rule;
use crate::clipboard;
use crate::confirm;
use crate::deletion;
use crate::deletion::{Fate, Refusal, Tally};
use crate::details;
use crate::diff::Move;
use crate::double;
use crate::explorer;
use crate::file_manager;
use crate::file_manager::Platform;
use crate::footer;
use crate::model;
use crate::model::Line;
use crate::mounts::Volume;
use crate::overview;
use crate::palette;
use crate::path;
use crate::picker;
use crate::report;
use crate::scan::Account;
use crate::scanning;
use crate::screen;
use crate::screen::Tone;
use crate::size;
use crate::size::{SizeKind, Unit};
use crate::strings;
use crate::text;
use crate::timefmt;
use crate::tree;
use crate::tree::{ScanState, Tree};
use crate::views;

verus! {

/// The ranked list gets what it needs first. What is left goes to the largest items, where that is
/// room for a heading and two of them, and there are never more than four.
pub proof fn the_list_gets_its_room_first(state: State, height: nat, rows: nat)
    ensures
        ({
            let (list, largest) = overview::body_split(state, height, rows);
            let wanted: nat = if rows == 0 {
                1
            } else {
                rows
            };
            &&& height <= 6 ==> list == 0 && largest == 0
            &&& height > 6 ==> list + largest <= height - 6
            &&& height > 6 && wanted <= height - 6 ==> list == wanted
            &&& height > 6 && wanted > height - 6 ==> list == height - 6 && largest == 0
            &&& largest <= 6
            &&& largest > 0 ==> largest >= 4 && app::entry_here(state) is Some && !app::growing(
                state,
            )
            &&& height >= wanted + 12 && app::entry_here(state) is Some && !app::growing(state)
                ==> largest == 6
        }),
{
}

/// What a header says of the volume: its name, and what is used of how much.
pub proof fn headers_are_about_the_volume(state: State)
    ensures
        state.filesystem matches Some(fs) ==> overview::volume_words(state) == (
            fs.name,
            size::formatted(fs.used as nat, state.settings.unit) + " used of "@ + size::formatted(
                fs.total as nat,
                state.settings.unit,
            ),
        ),
        state.filesystem is None ==> overview::volume_words(state) == (
            model::path_text(state.root, state.home),
            ""@,
        ),
{
}

/// Figures that are not the whole truth say so: that they are of an earlier scan, or that something
/// was cancelled, skipped or could not be read.
pub proof fn shortfalls_are_owned_up_to(state: State, entry: Tree, now: u64)
    ensures
        state.provisional matches Some(taken_at) ==> overview::caveat(state, entry, now) == Some(
            "as of "@ + timefmt::since(tree::less_by(now, taken_at)) + " · rescanning…"@,
        ),
        state.provisional is None ==> overview::caveat(state, entry, now) == (
        match entry.scan_state {
            ScanState::Complete => None,
            ScanState::Denied => Some("unreadable"@),
            ScanState::Cancelled => Some("scan cancelled — sizes incomplete"@),
            ScanState::Skipped => Some("not scanned — network mount"@),
            ScanState::Partial => Some("some folders skipped or unreadable"@),
        }),
{
}

/// A row says its size, or how much it changed where growth is shown; a mark stands before it where
/// it is marked, and its colour is that of its rank, of its change, or the grey of what is grouped.
pub proof fn rows_say_what_is_measured(
    row: Line,
    marks: Seq<Seq<u8>>,
    columns: overview::Columns,
    unit: Unit,
)
    ensures
        ({
            let runs = overview::row_runs(row, marks, columns, unit);
            let marked = row.path is Some && exists|i: int|
                0 <= i < marks.len() && path::same_place(#[trigger] marks[i], row.path->0);
            let figure = if columns.growth {
                report::signed_text(
                    match row.delta {
                        Some(delta) => delta as int,
                        None => 0,
                    },
                    unit,
                )
            } else {
                size::formatted(row.size as nat, unit)
            };
            &&& runs[0].text == if marked {
                "✓ "@
            } else {
                "  "@
            }
            &&& runs[1].text == strings::right_aligned(figure, columns.amount as int)
            &&& runs[3].text == text::fitted(row.name, columns.name as nat)
            &&& runs[5].text == text::fitted(
                bar::bar_text(row.fraction, columns.bar as nat),
                columns.bar as nat,
            )
            &&& !columns.growth && row.path is None ==> runs[5].tone == Tone::Hue(palette::hue(7))
            &&& !columns.growth && row.path is Some ==> runs[5].tone == Tone::Hue(
                palette::hue(row.color_index as int % 8),
            )
            &&& columns.percent ==> runs[7].text == strings::right_aligned(
                size::percent_text(row.fraction),
                5,
            )
            &&& columns.growth && !columns.percent ==> runs[7].text == strings::right_aligned(
                size::formatted(row.size as nat, unit),
                9,
            )
        }),
{
}

/// A list with nothing in it says why.
pub proof fn empty_lists_say_why(state: State)
    ensures
        state.search is Some ==> overview::nothing_text(state) == "nothing matches that search"@,
        state.search is None && app::growing(state) ==> overview::nothing_text(state)
            == "nothing here changed"@,
        state.search is None && !app::growing(state) ==> overview::nothing_text(state)
            == "this folder is empty"@,
{
}

/// The corner of the screen says the most useful thing there is: what is marked, else the last
/// message, else what is watched, else that growth is shown, else what the overview is sorted by.
pub proof fn the_corner_says_the_most_useful_thing(state: State, now: u64)
    ensures
        ({
            let said = footer::status_text(state, now);
            &&& state.marks.len() > 0 ==> said == strings::digits(state.marks.len()) + " marked · "@
                + size::formatted(app::size_marked(state) as nat, state.settings.unit)
            &&& state.marks.len() == 0 && state.status is Some ==> said == state.status->0
            &&& state.marks.len() == 0 && state.status is None && state.watch is Some ==> said
                == "watching · every "@ + strings::digits(state.watch->0.every as nat) + "s · "@
                + timefmt::humanized(tree::less_by(now, state.watch->0.started_at))
            &&& state.marks.len() == 0 && state.status is None && state.watch is None ==> {
                &&& app::growing(state) ==> said == "showing growth"@
                &&& !app::growing(state) && state.view == views::View::Overview ==> said
                    == "sorted by "@ + (match state.sort {
                    model::Sort::Size => "size"@,
                    model::Sort::Name => "name"@,
                    model::Sort::Items => "items"@,
                })
            }
        }),
{
}

/// The last key on screen is the way out of it.
pub proof fn the_way_out_is_named()
    ensures
        footer::way_out(views::View::Explorer).key@ == "Esc"@,
        footer::way_out(views::View::Explorer).label@ == "back"@,
        footer::way_out(views::View::Scanning).key@ == "Esc"@,
        footer::way_out(views::View::Scanning).label@ == "stop"@,
        footer::way_out(views::View::Overview).key@ == "q"@,
        footer::way_out(views::View::Picker).label@ == "quit"@,
{
}

/// A prompt names each target, a directory with a slash at its end, with its size; it says how many
/// there are and what they come to.
pub proof fn prompts_name_what_goes(pending: Pending, target: Aim, home: Option<Seq<u8>>, unit: Unit)
    ensures
        target.is_dir ==> confirm::target_name(target, home) == model::path_text(
            target.path,
            home,
        ) + "/"@,
        !target.is_dir ==> confirm::target_name(target, home) == model::path_text(
            target.path,
            home,
        ),
        confirm::heading_runs(pending, unit)[0].text == "Permanently delete "@,
        confirm::heading_runs(pending, unit)[1].text == strings::digits(pending.targets.len())
            + " "@,
        confirm::heading_runs(pending, unit)[3].text == size::formatted(
            app::total_size(pending.targets) as nat,
            unit,
        ),
        confirm::prompt_runs(pending)[1].text == "delete"@,
        confirm::prompt_runs(pending)[3].text == pending.typed,
        pending.typed == "delete"@ ==> confirm::prompt_runs(pending)[5].text
            == "  Enter to delete"@,
        pending.typed != "delete"@ && pending.nagged ==> confirm::prompt_runs(pending)[5].text
            == "  type "@ + "delete"@ + " first"@,
        pending.typed != "delete"@ && !pending.nagged ==> confirm::prompt_runs(pending)[5].text
            == "  Esc to cancel"@,
{
}

/// A deletion that runs says which of how many it is at, and how much is freed.
pub proof fn deletions_say_how_far_they_are(
    state: State,
    deleting: Deleting,
    progress: Tally,
    width: nat,
)
    ensures
        confirm::removed_words(progress, state.settings.unit) == strings::digits(
            progress.items_done as nat,
        ) + " of "@ + strings::digits(progress.items_total as nat) + " · "@ + size::formatted(
            progress.freed as nat,
            state.settings.unit,
        ) + " freed"@,
        confirm::removal_runs(state, deleting, progress, width)[2][0].text
            == if deleting.stopping {
            "Stopping once this file is done"@
        } else {
            "Esc to stop"@
        },
{
}

/// What became of a target is told in words: that it was deleted, why it was refused, or what went
/// wrong.
pub proof fn outcomes_are_told(path: Seq<u8>, bytes: u64, error: Seq<char>)
    ensures
        deletion::fate_text(Fate::Deleted { path, size: bytes }) == "deleted"@,
        deletion::fate_text(Fate::Failed { path, error }) == error,
        deletion::refusal_text(Refusal::OutsideScan) == "outside the current scan"@,
        deletion::refusal_text(Refusal::ScanRoot) == "this is the folder being scanned"@,
        deletion::refusal_text(Refusal::MountPoint) == "this is a mount point"@,
        deletion::refusal_text(Refusal::Missing) == "no longer exists"@,
        deletion::refusal_text(Refusal::Filesystem) == "this is a filesystem root"@,
        deletion::refusal_text(Refusal::Stopped) == "stopped before reaching it"@,
{
}

/// The details are about the entry under the cursor, or the directory on screen where there is none.
pub proof fn details_are_about_the_cursor(state: State)
    ensures
        app::path_under_cursor(state) is Some ==> details::focus(state) == app::path_under_cursor(
            state,
        ),
        app::path_under_cursor(state) is None && app::entry_here(state) is Some
            ==> details::focus(state) == Some(state.cwd),
        app::path_under_cursor(state) is None && app::entry_here(state) is None
            ==> details::focus(state) is None,
{
}

/// The details of an entry are its size as it is being counted, its items, and when it was last used
/// where that is known.
pub proof fn details_tell_size_items_and_use(entry: Tree, kind: SizeKind, unit: Unit, now: u64)
    ensures
        ({
            let facts = details::entry_facts(Some(entry), kind, unit, now);
            &&& facts[0].label == "Current size"@
            &&& facts[0].value == size::formatted(
                (match kind {
                    SizeKind::Allocated => entry.allocated_size,
                    SizeKind::Apparent => entry.apparent_size,
                }) as nat,
                unit,
            )
            &&& facts[1].label == "Items"@
            &&& facts[1].value == strings::digits(entry.items as nat)
            &&& facts.len() == if entry.modified > 0 {
                3int
            } else {
                2
            }
            &&& entry.modified > 0 ==> facts[2].label == "Last used"@ && facts[2].value
                == timefmt::since(tree::less_by(now, entry.modified))
        }),
{
}

/// What an entry was before is told, or only that it was under what was recorded where that is all
/// that is known.
pub proof fn what_it_was_is_told(change: Move, comparison: Comparison, unit: Unit)
    ensures
        change.before_is_bound ==> details::before_words(change, comparison, unit) == "under "@
            + size::formatted(comparison.before_floor as nat, unit),
        !change.before_is_bound ==> details::before_words(change, comparison, unit)
            == size::formatted(change.before as nat, unit),
        details::counting_text(SizeKind::Allocated) == "blocks used on disk"@,
        details::counting_text(SizeKind::Apparent) == "apparent file sizes"@,
{
}

/// The details of a volume are its name, where it is mounted, its device and type, whether it is
/// read-only and removable, its kind, how full it is, and what is available.
pub proof fn details_tell_the_volume(fs: Volume, unit: Unit)
    ensures
        ({
            let facts = details::volume_facts(fs, unit);
            &&& facts[0].value == fs.name
            &&& facts[1].value == path::shown(fs.mount_point)
            &&& facts[2].value == fs.device
            &&& facts[3].value == fs.fs_type
            &&& facts[4].value == if fs.read_only {
                "yes"@
            } else {
                "no"@
            }
            &&& facts[5].value == if fs.removable {
                "yes"@
            } else {
                "no"@
            }
            &&& facts[6].value == fs.kind
            &&& facts[7].value == size::formatted(fs.used as nat, unit) + " used of "@
                + size::formatted(fs.total as nat, unit) + " ("@ + size::whole_percent_text(
                size::share(fs.used as nat, fs.total as nat),
            ) + ")"@
            &&& facts[8].value == size::formatted(fs.available as nat, unit)
            &&& facts.len() == if fs.inodes is Some {
                10int
            } else {
                9
            }
        }),
{
}

/// A disk in the list says its name, how full it is, and what is free of how much.
pub proof fn disks_say_what_is_free(fs: Volume, unit: Unit, name: nat, gauge: nat)
    ensures
        ({
            let runs = picker::disk_runs(fs, unit, name, gauge);
            let share = size::share(fs.used as nat, fs.total as nat);
            &&& runs[1].text == text::fitted(fs.name, name)
            &&& runs[3].text == bar::gauge_text(share, gauge)
            &&& runs[5].text == strings::right_aligned(size::whole_percent_text(share), 4)
            &&& runs[7].text == size::formatted(fs.available as nat, unit) + " free of "@
                + size::formatted(fs.total as nat, unit)
        }),
{
}

/// A running scan says how many items and bytes it has counted, and for how long it has run.
pub proof fn scans_say_what_they_counted(progress: Account, seconds: u64, unit: Unit)
    ensures
        scanning::counted_words(progress, Some(seconds), unit) == strings::digits(
            progress.entries as nat,
        ) + " items · "@ + size::formatted(progress.bytes as nat, unit) + (" · "@
            + strings::digits(seconds as nat) + "s"@),
        scanning::counted_words(progress, None, unit) == strings::digits(progress.entries as nat)
            + " items · "@ + size::formatted(progress.bytes as nat, unit) + ""@,
{
}

/// The hole in the chart says what the directory comes to, or how much it changed where growth is
/// shown.
pub proof fn the_hole_says_the_total(state: State, entry: Tree)
    ensures
        !app::growing(state) ==> explorer::hole_figure(state, entry) == size::formatted(
            (match state.settings.size_kind {
                SizeKind::Allocated => entry.allocated_size,
                SizeKind::Apparent => entry.apparent_size,
            }) as nat,
            state.settings.unit,
        ),
        app::growing(state) && app::change_here(state) is Some ==> explorer::hole_figure(
            state,
            entry,
        ) == report::signed_text(
            app::change_here(state)->0.change.delta as int,
            state.settings.unit,
        ),
{
}

/// A gauge is filled in proportion, with at least one cell where there is anything, and with one
/// left as long as it is not quite full.
pub proof fn gauges_are_in_proportion(fraction: double::Dyadic, width: nat)
    requires
        width > 1,
    ensures
        ({
            let share = double::at_most(fraction, double::of_int(1));
            let filled = bar::filled_cells(fraction, width);
            let exact = double::rounded(double::product(share, double::of_int(width)));
            &&& 0 <= filled <= width
            &&& fraction.0 == 0 && share.0 == 0 && exact == 0 ==> filled == 0
            &&& share.0 > 0 ==> filled >= 1
            &&& double::less(share, double::of_int(1)) ==> filled < width
            &&& 1 <= exact < width ==> filled == exact
            &&& exact >= width && !double::less(share, double::of_int(1)) ==> filled == width
        }),
{
}

/// Files are never opened: on any desktop a file is shown in the folder that holds it, and a folder
/// is opened itself.
pub proof fn folders_are_opened_and_files_are_shown(target: Seq<u8>)
    ensures
        file_manager::shown_folder(target, true) == Some(target),
        file_manager::shown_folder(target, false) == path::parent(target),
        file_manager::manager_text(Platform::MacOs) == "Finder"@,
        file_manager::manager_text(Platform::Windows) == "Explorer"@,
        file_manager::manager_text(Platform::Other) == "your file manager"@,
        ({
            let call = file_manager::reveal_call(target, true, Platform::Other);
            call is Some && call->0.program == "xdg-open"@ && call->0.args == seq![target]
        }),
        path::parent(target) matches Some(folder) ==> file_manager::reveal_call(
            target,
            false,
            Platform::Other,
        )->0.args == seq![folder],
{
}

/// The digits of base 64 are the capital letters, the small ones, the digits, plus and slash, in that
/// order.
pub proof fn base64_has_its_alphabet(value: int)
    ensures
        0 <= value < 26 ==> clipboard::base64_digit(value) == ('A' as int + value) as char,
        26 <= value < 52 ==> clipboard::base64_digit(value) == ('a' as int + value - 26) as char,
        52 <= value < 62 ==> clipboard::base64_digit(value) == ('0' as int + value - 52) as char,
        clipboard::base64_digit(62) == '+',
        clipboard::base64_digit(63) == '/',
{
}

/// Widths are plain arithmetic.
pub proof fn widths_are_plain_arithmetic(a: nat, b: nat, low: nat, high: nat)
    requires
        low <= high,
    ensures
        a >= b ==> screen::left(a, b) == a - b,
        a < b ==> screen::left(a, b) == 0,
        screen::least(a, b) <= a && screen::least(a, b) <= b,
        screen::least(a, b) == a || screen::least(a, b) == b,
        low <= screen::between(a, low, high) <= high,
        low <= a <= high ==> screen::between(a, low, high) == a,
{
}

/// What is said of a change is how much it was, over how long, and what it was before.
pub proof fn details_tell_the_change(comparison: Comparison, target: Seq<u8>, unit: Unit)
    ensures
        details::change_facts(None, target, unit).len() == 0,
        crate::diff::found(comparison.tree, target) matches Some(node) ==> ({
            let facts = details::change_facts(Some(comparison), target, unit);
            &&& facts.len() == 2
            &&& facts[0].label == "Change ("@ + timefmt::humanized(
                tree::less_by(comparison.after_at, comparison.before_at),
            ) + ")"@
            &&& facts[0].value == report::signed_text(node.change.delta as int, unit)
            &&& facts[1].label == "Was"@
            &&& !node.change.before_is_bound ==> facts[1].value == size::formatted(
                node.change.before as nat,
                unit,
            )
        }),
{
}

/// What is said of a cache is what it is, what reclaiming it means, and how it comes back where that
/// is known.
pub proof fn details_tell_the_cache(rule: Rule)
    ensures
        details::rule_facts(None).len() == 0,
        ({
            let facts = details::rule_facts(Some(rule));
            &&& facts[0].value == rule.label@
            &&& facts[1].value == categories::safety_label(rule.safety)
            &&& rule.regenerate matches Some(command) ==> facts.len() == 3 && facts[2].value
                == command@
            &&& rule.regenerate is None ==> facts.len() == 2
        }),
{
}

/// What became of a target is told beside its path, and what did not work stands out.
pub proof fn fates_are_told_by_path(fate: Fate, home: Option<Seq<u8>>)
    ensures
        fate matches Fate::Deleted { path, .. } ==> details::fate_told(fate, home).label
            == model::path_text(path, home) && details::fate_told(fate, home).tone == Tone::Muted,
        fate matches Fate::Refused { path, reason } ==> details::fate_told(fate, home).label
            == model::path_text(path, home) && details::fate_told(fate, home).value
            == deletion::refusal_text(reason) && details::fate_told(fate, home).tone
            == Tone::Warning,
        fate matches Fate::Failed { path, error } ==> details::fate_told(fate, home).label
            == model::path_text(path, home) && details::fate_told(fate, home).value == error
            && details::fate_told(fate, home).tone == Tone::Warning,
{
}

/// The columns of the list never take more than the screen, as long as the names and figures fit:
/// names take between ten and twenty-eight cells, and bars thirty-two at most. Shares are shown from
/// seventy-six cells on.
pub proof fn columns_fit_the_screen(rows: Seq<Line>, growth: bool, unit: Unit, width: nat)
    requires
        screen::widest_of(overview::amounts(rows, growth, unit)) <= usize::MAX,
    ensures
        ({
            let columns = overview::columns_of(rows, growth, unit, width);
            let around: int = if columns.percent {
                7
            } else if growth {
                11
            } else {
                0
            };
            &&& columns.growth == growth
            &&& columns.percent <==> width >= 76 && !growth
            &&& columns.amount == screen::widest_of(overview::amounts(rows, growth, unit))
            &&& 10 <= columns.name <= 28
            &&& columns.bar <= 32
            &&& columns.bar > 0 ==> 7 + columns.amount + columns.name + columns.bar + around
                <= width
        }),
{
}

/// An entry of the legend has its size, its name and its mark, in the hue of its rank.
pub proof fn legends_tell_sizes(
    row: Line,
    selected: bool,
    marks: Seq<Seq<u8>>,
    unit: Unit,
    figures: nat,
    width: nat,
)
    ensures
        ({
            let runs = explorer::legend_runs(row, selected, marks, unit, figures, width);
            &&& runs[0].tone == Tone::Hue(palette::hue(row.color_index as int % 8))
            &&& width >= figures + 5 ==> runs[1].text == text::fitted(
                row.name,
                (width - figures - 5) as nat,
            )
            &&& runs[1].tone == if selected {
                Tone::Selected
            } else {
                Tone::Plain
            }
            &&& runs[3].text == strings::right_aligned(
                size::formatted(row.size as nat, unit),
                figures as int,
            )
            &&& runs[4].text == if row.path is Some && exists|i: int|
                0 <= i < marks.len() && path::same_place(#[trigger] marks[i], row.path->0) {
                " ✓"@
            } else {
                ""@
            }
        }),
{
}

/// What a message in the explorer's heading says of what is too small to place.
pub proof fn slivers_are_told_by_share(row: Line)
    ensures
        explorer::too_small(row) == size::percent_text(row.fraction)
            + " of this folder — too small to place"@,
{
}

/// The legend follows the selection: what is selected is on the last line or above it, and as many
/// rows are shown as fit.
pub proof fn legends_follow_the_selection(rows: nat, selection: nat, height: nat)
    requires
        selection < rows,
        height > 0,
    ensures
        ({
            let first = explorer::legend_offset(selection, height);
            let count = explorer::legend_count(rows, selection, height);
            &&& first <= selection < first + count
            &&& first + count <= rows
            &&& count <= height
            &&& selection < height ==> first == 0
            &&& selection >= height ==> first + height == selection + 1
        }),
{
}

/// The details of the scan say what it is reading and how many directories it could not read, where
/// there are any.
pub proof fn scans_own_up_to_errors(
    state: State,
    progress: Account,
    elapsed: Option<u64>,
    width: nat,
)
    ensures
        ({
            let lines = scanning::progress_runs(state, progress, elapsed, width);
            &&& lines[0][0].text == scanning::counted_words(
                progress,
                elapsed,
                state.settings.unit,
            )
            &&& progress.errors > 0 ==> lines.last()[0].text == strings::digits(
                progress.errors as nat,
            ) + " folders unreadable"@
            &&& progress.errors == 0 && progress.current.len() == 0 ==> lines.len() == 1
            &&& progress.errors == 0 && progress.current.len() > 0 ==> lines.len() == 2
        }),
{
}

/// What the corner says is cut to the room that there is beside the way out, and left out where that
/// is less than eight cells.
pub proof fn the_corner_is_cut_to_its_room(state: State, width: nat, now: u64)
    ensures
        width >= footer::narrowest(state.view) + 11 ==> footer::status_shown(state, width, now)
            == text::truncated(
            footer::status_text(state, now),
            (width - footer::narrowest(state.view) - 3) as nat,
        ),
        width < footer::narrowest(state.view) + 11 ==> footer::status_shown(state, width, now)
            == ""@,
{
}

} // verus!
