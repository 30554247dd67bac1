//! What reports and listings say of what they report.

use vstd::prelude::*;
use crate::categories;
use crate::categories::{Around, Category, Safety};
use crate::diff::{ChangeKind, Diff, Move};
use crate::history::Snapshot;
use crate::model;
use crate::mounts::Volume;
use crate::output;
use crate::path;
use crate::report;
use crate::report::Palette;
use crate::size;
use crate::size::Unit;
use crate::strings;
use crate::timefmt;

verus! {

/// A line of a plain listing is the bytes, the size in words, the share, and the path, with a tab
/// between each: so that it can be cut and sorted by the first.
pub proof fn plain_rows_start_with_bytes(
    lines: Seq<model::Line>,
    last: model::Line,
    root: Seq<u8>,
    unit: Unit,
)
    ensures
        output::plain_lines(Seq::empty(), root, unit) == Seq::<char>::empty(),
        output::plain_lines(lines.push(last), root, unit) == output::plain_lines(lines, root, unit)
            + (strings::digits(last.size as nat) + "\t"@ + size::formatted(last.size as nat, unit)
            + "\t"@ + size::percent_text(last.fraction) + "\t"@ + (match last.path {
            Some(at) => path::shown(at),
            None => path::shown(root) + " (other)"@,
        }) + "\n"@),
{
    assert(lines.push(last).drop_last() =~= lines);
}

/// A line of a plain comparison is the signed bytes, the change in words, what kind it is, and the
/// path, with a tab between each.
pub proof fn plain_changes_start_with_signed_bytes(changes: Seq<Move>, last: Move, unit: Unit)
    ensures
        report::plain_changes(Seq::empty(), unit) == Seq::<char>::empty(),
        report::plain_changes(changes.push(last), unit) == report::plain_changes(changes, unit) + (
        strings::signed_digits(last.delta as int) + "\t"@ + report::signed_text(
            last.delta as int,
            unit,
        ) + "\t"@ + (match last.kind {
            ChangeKind::Added => "added"@,
            ChangeKind::Grown => "grown"@,
            ChangeKind::Shrunk => "shrunk"@,
            ChangeKind::Removed => "removed"@,
            ChangeKind::Unchanged => "unchanged"@,
        }) + "\t"@ + path::shown(last.path) + "\n"@),
{
    assert(changes.push(last).drop_last() =~= changes);
}

/// A change is told with its sign: a minus for what shrank, and a plus for anything else.
pub proof fn changes_are_told_with_their_sign(delta: int, unit: Unit)
    ensures
        delta >= 0 ==> report::signed_text(delta, unit) == "+"@ + size::formatted(
            delta as nat,
            unit,
        ),
        delta < 0 ==> report::signed_text(delta, unit) == "-"@ + size::formatted(
            (-delta) as nat,
            unit,
        ),
        delta >= 0 ==> report::headline(delta, unit) == report::signed_text(delta, unit)
            + " added"@,
        delta < 0 ==> report::headline(delta, unit) == size::formatted((-delta) as nat, unit)
            + " freed"@,
{
}

/// What is new and what is gone is noted; that something is new is not claimed where it may only
/// have been too small to be recorded before.
pub proof fn what_is_new_or_gone_is_noted(change: Move)
    ensures
        report::change_note(change) == if change.kind == ChangeKind::Added
            && !change.before_is_bound {
            "  (new)"@
        } else if change.kind == ChangeKind::Removed {
            "  (gone)"@
        } else {
            ""@
        },
{
}

/// A group of caches is told with what brings it back, when it was last used, or for how long it has
/// not been where that is over thirty days, and in how many places it is where that is more than
/// one.
pub proof fn caches_are_told_with_their_use(group: Category, now: u64)
    requires
        now >= group.last_used,
    ensures
        report::group_notes(group, now) == (match group.rule.regenerate {
            Some(command) => "regenerate: "@ + command@ + " · "@,
            None => Seq::empty(),
        }) + (if now - group.last_used > 2_592_000 {
            "unused for "@ + timefmt::humanized((now - group.last_used) as u64)
        } else {
            "last used "@ + timefmt::since((now - group.last_used) as u64)
        }) + if group.paths.len() > 1 {
            " · "@ + strings::digits(group.paths.len()) + " locations"@
        } else {
            Seq::empty()
        },
{
}

/// What may hold data is marked as a warning, and what comes back by itself is not.
pub proof fn warnings_are_for_data(palette: Palette)
    ensures
        report::safety_text(Safety::ReviewFirst, palette) == report::warn_text(
            palette,
            "review first"@,
        ),
        report::safety_text(Safety::Regenerable, palette) == report::dim_text(
            palette,
            "safe to regenerate"@,
        ),
        categories::safety_label(Safety::ReviewFirst) == "review first"@,
        categories::safety_label(Safety::Regenerable) == "safe to regenerate"@,
{
}

/// A line of a plain list of caches is the bytes, the size in words, whether it is safe, when it was
/// last used, what brings it back, and the path, with a tab between each.
pub proof fn plain_caches_start_with_bytes(group: Category, at: Seq<u8>, unit: Unit)
    ensures
        report::plain_location(group, at, unit) == strings::digits(group.size as nat) + "\t"@
            + size::formatted(group.size as nat, unit) + "\t"@ + (match group.rule.safety {
            Safety::Regenerable => "safe to regenerate"@,
            Safety::ReviewFirst => "review first"@,
        }) + "\t"@ + strings::digits(group.last_used as nat) + "\t"@ + (
        match group.rule.regenerate {
            Some(command) => command@,
            None => ""@,
        }) + "\t"@ + path::shown(at) + "\n"@,
{
}

/// What some groups come to is the sum of their sizes.
pub proof fn groups_add_up(groups: Seq<Category>, last: Category)
    ensures
        report::total_of(Seq::empty()) == 0,
        report::total_of(groups.push(last)) == (report::total_of(groups) + last.size)
            % 0x1_0000_0000_0000_0000,
{
    assert(groups.push(last).drop_last() =~= groups);
}

/// Each scan in a history is told by what changed since the one before it.
pub proof fn histories_tell_each_change(
    snapshots: Seq<Snapshot>,
    at: int,
    unit: Unit,
    palette: Palette,
)
    requires
        0 <= at < snapshots.len(),
        forall|i: int|
            0 <= i < snapshots.len() ==> (#[trigger] snapshots[i]).total_allocated <= i64::MAX,
    ensures
        at == 0 ==> report::history_change(snapshots, at, unit, palette) == report::dim_text(
            palette,
            "first scan"@,
        ),
        at > 0 ==> {
            let delta = snapshots[at].total_allocated - snapshots[at - 1].total_allocated;
            report::history_change(snapshots, at, unit, palette) == if delta == 0 {
                report::dim_text(palette, "no change"@)
            } else {
                report::styled(
                    palette,
                    if delta > 0 {
                        "32"@
                    } else {
                        "36"@
                    },
                    report::signed_text(delta, unit),
                )
            }
        },
{
    if at > 0 {
        assert(snapshots[at].total_allocated <= i64::MAX);
        assert(snapshots[at - 1].total_allocated <= i64::MAX);
    }
}

/// Colour is put round a text and taken off after it, and only where colours are on.
pub proof fn colours_are_put_round_a_text(palette: Palette, text: Seq<char>)
    ensures
        !palette.enabled ==> report::bold_text(palette, text) == text && report::dim_text(
            palette,
            text,
        ) == text && report::warn_text(palette, text) == text,
        palette.enabled ==> {
            &&& report::bold_text(palette, text) == "\x1b["@ + "1"@ + "m"@ + text + "\x1b[0m"@
            &&& report::dim_text(palette, text) == "\x1b["@ + "2"@ + "m"@ + text + "\x1b[0m"@
            &&& report::warn_text(palette, text) == "\x1b["@ + "33"@ + "m"@ + text + "\x1b[0m"@
        },
{
}

/// A filesystem's row is its name, its size, what is used, what is available, how full it is, and
/// where it is mounted; with details also its device, its type, and whether it is read-only.
pub proof fn filesystem_rows_in_order(fs: Volume, unit: Unit)
    ensures
        ({
            let cells = output::filesystem_cells(fs, unit, true);
            let columns = output::filesystem_columns(true);
            &&& cells.len() == 9 && columns.len() == 9
            &&& cells[0] == fs.name && columns[0].0 == "NAME"@
            &&& cells[1] == size::formatted(fs.total as nat, unit) && columns[1].0 == "SIZE"@
            &&& cells[2] == size::formatted(fs.used as nat, unit) && columns[2].0 == "USED"@
            &&& cells[3] == size::formatted(fs.available as nat, unit) && columns[3].0 == "FREE"@
            &&& cells[4] == size::whole_percent_text(
                size::share(fs.used as nat, fs.total as nat),
            ) && columns[4].0 == "USE%"@
            &&& cells[5] == path::shown(fs.mount_point) && columns[5].0 == "MOUNTED ON"@
            &&& cells[6] == fs.device && columns[6].0 == "DEVICE"@
            &&& cells[7] == fs.fs_type && columns[7].0 == "TYPE"@
            &&& cells[8] == (if fs.read_only {
                "yes"@
            } else {
                "no"@
            }) && columns[8].0 == "RO"@
            &&& output::filesystem_cells(fs, unit, false) == cells.take(6)
            &&& output::filesystem_columns(false) == columns.take(6)
        }),
{
    let cells = output::filesystem_cells(fs, unit, true);
    let columns = output::filesystem_columns(true);
    assert(output::filesystem_cells(fs, unit, false) =~= cells.take(6));
    assert(output::filesystem_columns(false) =~= columns.take(6));
}

/// A filesystem's row of inodes is its name, how many there are, are used and are free, how many of
/// them are used, and where it is mounted.
pub proof fn inode_rows_in_order(fs: Volume)
    requires
        fs.inodes is Some,
    ensures
        ({
            let cells = output::inode_cells(fs);
            let inodes = fs.inodes->0;
            &&& cells.len() == 6
            &&& cells[0] == fs.name
            &&& cells[1] == output::separated(strings::digits(inodes.total as nat))
            &&& cells[2] == output::separated(strings::digits(inodes.used as nat))
            &&& cells[3] == output::separated(strings::digits(inodes.free as nat))
            &&& cells[4] == size::whole_percent_text(
                size::share(inodes.used as nat, inodes.total as nat),
            )
            &&& cells[5] == path::shown(fs.mount_point)
        }),
{
}

/// A path in the home directory is shown from the tilde on, and any other as it is.
pub proof fn paths_are_shown_from_home(target: Seq<u8>, home: Seq<u8>)
    ensures
        !path::within(target, home) ==> model::path_text(target, Some(home)) == path::shown(target),
        path::within(target, home) && path::below(target, home).len() == 0 ==> model::path_text(
            target,
            Some(home),
        ) == "~"@,
        path::within(target, home) && path::below(target, home).len() > 0 ==> model::path_text(
            target,
            Some(home),
        ) == "~/"@ + path::shown(path::below(target, home)),
        model::path_text(target, None) == path::shown(target),
{
}

/// The window of a comparison is told where it is a minute or more.
pub proof fn windows_are_told_from_a_minute_on(elapsed: u64)
    ensures
        elapsed >= 60 ==> report::window_text(elapsed) == " ("@ + timefmt::humanized(elapsed)
            + ")"@,
        elapsed < 60 ==> report::window_text(elapsed) == ""@,
{
}

/// A comparison lists what grew and then what was freed, and ends with what it was and what it is; it
/// says so where neither is worth a line.
pub proof fn comparisons_list_growth_first(
    diff: Diff,
    unit: Unit,
    top: nat,
    when: Seq<char>,
    palette: Palette,
    around: Around,
)
    ensures
        ({
            let said = report::diff_text(diff, unit, top, when, palette, around);
            let title = report::diff_title(diff, unit, when, palette);
            let stop = |path: Seq<u8>| categories::rule_for(path, around) is Some;
            let grew = crate::diff::blamed(diff.tree@, top, true, stop);
            let freed = crate::diff::blamed(diff.tree@, top, false, stop);
            &&& title.is_prefix_of(said)
            &&& grew.len() + freed.len() == 0 ==> said == title + " "@ + report::dim_text(
                palette,
                "nothing moved enough to be worth reporting"@,
            ) + "\n\n"@
            &&& grew.len() > 0 && freed.len() == 0 ==> said == title + report::change_lines(
                grew,
                grew.len(),
                unit,
                palette,
                true,
                around.home,
            ) + "\n "@ + report::dim_text(
                palette,
                size::formatted(diff.before_total as nat, unit) + " → "@ + size::formatted(
                    diff.after_total as nat,
                    unit,
                ),
            ) + "\n\n"@
            &&& freed.len() > 0 ==> said == title + report::change_lines(
                grew,
                grew.len(),
                unit,
                palette,
                true,
                around.home,
            ) + ("\n "@ + report::dim_text(palette, "Freed"@) + "\n"@ + report::change_lines(
                freed,
                freed.len(),
                unit,
                palette,
                false,
                around.home,
            )) + "\n "@ + report::dim_text(
                palette,
                size::formatted(diff.before_total as nat, unit) + " → "@ + size::formatted(
                    diff.after_total as nat,
                    unit,
                ),
            ) + "\n\n"@
        }),
{
    let stop = |path: Seq<u8>| categories::rule_for(path, around) is Some;
    assert(stop =~= crate::diff::stops_at_names(around));
    let grew = crate::diff::blamed(diff.tree@, top, true, stop);
    let title = report::diff_title(diff, unit, when, palette);
    let lines = report::change_lines(grew, grew.len(), unit, palette, true, around.home);
    assert(title + lines + Seq::empty() =~= title + lines);
}

/// The labels of a cleaning line up, in a column of twenty-eight at most.
pub proof fn labels_line_up(groups: Seq<Category>, i: int)
    requires
        0 <= i < groups.len(),
    ensures
        report::label_width(groups) <= 28,
        report::label_width(groups) < 28 ==> groups[i].rule.label@.len() <= report::label_width(
            groups,
        ),
    decreases groups.len(),
{
    if i < groups.len() - 1 {
        labels_line_up(groups.drop_last(), i);
        assert(groups.drop_last()[i] == groups[i]);
    }
}

} // verus!
