//! What a command line asks for, and what the commands say.

use vstd::prelude::*;
use crate::app;
use crate::categories::Category;
use crate::cli;
use crate::cli::{Cli, Mode};
use crate::commands;
use crate::deletion;
use crate::deletion::Fate;
use crate::history;
use crate::mounts;
use crate::mounts::{Hint, Volume};
use crate::path;
use crate::report;
use crate::size;
use crate::size::Unit;
use crate::strings;

verus! {

/// The screen is drawn on a terminal alone, and only where no flag asks for text.
pub proof fn a_terminal_gets_the_screen(cli: Cli, is_terminal: bool)
    ensures
        cli::mode_of(cli, is_terminal) is Interactive <==> is_terminal && !cli.plain && !cli.json
            && !cli.filesystems && !cli.inodes,
        cli::watched_in_lines(cli, is_terminal) <==> !is_terminal || cli.plain,
{
}

/// With a path, what is scanned is told, unless the filesystem that holds it is asked for.
pub proof fn a_path_is_scanned(cli: Cli, is_terminal: bool)
    requires
        cli.path is Some,
        !is_terminal || cli.plain || cli.json || cli.filesystems || cli.inodes,
    ensures
        cli.inodes ==> cli::mode_of(cli, is_terminal) == Mode::Inodes,
        !cli.inodes && cli.filesystems ==> cli::mode_of(cli, is_terminal) == (Mode::Filesystems {
            details: true,
        }),
        !cli.inodes && !cli.filesystems && cli.json ==> cli::mode_of(cli, is_terminal)
            == Mode::ScanJson,
        !cli.inodes && !cli.filesystems && !cli.json ==> cli::mode_of(cli, is_terminal) == (
        Mode::ScanPlain { details: cli.details }),
{
}

/// Without a path the filesystems are listed.
pub proof fn no_path_lists_filesystems(cli: Cli, is_terminal: bool)
    requires
        cli.path is None,
        !is_terminal || cli.plain || cli.json || cli.filesystems || cli.inodes,
    ensures
        cli.json ==> cli::mode_of(cli, is_terminal) == Mode::FilesystemsJson,
        !cli.json && cli.inodes ==> cli::mode_of(cli, is_terminal) == Mode::Inodes,
        !cli.json && !cli.inodes ==> cli::mode_of(cli, is_terminal) == (Mode::Filesystems {
            details: cli.details || cli.filesystems,
        }),
{
}

/// What a category takes up is shared out over its locations in equal parts, and no more than it
/// takes up is given out.
pub proof fn shares_are_equal_parts(group: Category)
    requires
        group.paths.len() > 0,
    ensures
        commands::share_of(group) * group.paths.len() <= group.size,
        group.size < (commands::share_of(group) + 1) * group.paths.len(),
{
    let count = group.paths.len();
    let part = group.size as nat / count;
    assert(part * count <= group.size < (part + 1) * count && part <= group.size)
        by (nonlinear_arith)
        requires
            count > 0,
            part == group.size as nat / count,
    ;
}

/// A line of a watch gives the bytes, the size, the change since watching started, and the place,
/// with tabs between them.
pub proof fn watches_tell_the_change(
    total: u64,
    start: u64,
    unit: Unit,
    place: Seq<u8>,
)
    ensures
        commands::watch_text(total, Some(start), unit, place) == strings::digits(total as nat)
            + "\t"@ + size::formatted(total as nat, unit) + "\t"@ + report::signed_text(
            crate::diff::difference(total, start),
            unit,
        ) + "\t"@ + path::shown(place) + "\n"@,
        total - start <= i64::MAX && start - total <= i64::MAX ==> crate::diff::difference(
            total,
            start,
        ) == total - start,
        commands::watch_text(total, None, unit, place) == strings::digits(total as nat) + "\t"@
            + size::formatted(total as nat, unit) + "\t"@ + "baseline"@ + "\t"@ + path::shown(place)
            + "\n"@,
{
}

/// The picture to compare with is the last one that was not taken after the moment asked for.
pub proof fn the_last_before_is_taken(list: Seq<(u64, Seq<u8>)>, at: u64)
    ensures
        match history::newest_before(list, at) {
            Some(found) => found < list.len() && list[found as int].0 <= at && forall|i: int|
                found < i < list.len() ==> (#[trigger] list[i]).0 > at,
            None => forall|i: int| 0 <= i < list.len() ==> (#[trigger] list[i]).0 > at,
        },
    decreases list.len(),
{
    if list.len() > 0 && list.last().0 > at {
        the_last_before_is_taken(list.drop_last(), at);
        let shorter = list.drop_last();
        assert forall|i: int|
            0 <= i < list.len() && (i == list.len() - 1 || shorter[i].0 > at) implies (
        #[trigger] list[i]).0 > at by {
            if i < list.len() - 1 {
                assert(shorter[i] == list[i]);
            }
        }
    }
}

/// The volume that a path is on is the deepest one that holds it.
pub proof fn a_path_is_on_the_deepest_volume(all: Seq<Volume>, at: int, target: Seq<u8>, j: int)
    requires
        mounts::is_home_of(all, at, target),
        0 <= j < all.len(),
        path::within(target, all[j].mount_point),
    ensures
        path::within(target, all[at].mount_point),
        all[j].mount_point.len() <= all[at].mount_point.len(),
{
}

/// What the system says of a mount is what it said last.
pub proof fn the_last_hint_counts(hints: Seq<Hint>, hint: Hint, mount_point: Seq<u8>)
    ensures
        path::same_place(hint.mount_point, mount_point) ==> mounts::hint_for(
            hints.push(hint),
            mount_point,
        ) == Some(hint),
        !path::same_place(hint.mount_point, mount_point) ==> mounts::hint_for(
            hints.push(hint),
            mount_point,
        ) == mounts::hint_for(hints, mount_point),
        mounts::hint_for(Seq::empty(), mount_point) is None,
{
    assert(hints.push(hint).drop_last() =~= hints);
}

/// After a deletion the message says how many went and what that freed, how many were skipped, or
/// that nothing could be deleted.
pub proof fn deletions_are_told(fates: Seq<Fate>, unit: Unit)
    ensures
        ({
            let said = app::deletion_text(fates, unit);
            let gone = app::count_deleted(fates);
            let done = "deleted "@ + strings::digits(gone) + " · freed "@ + size::formatted(
                deletion::total_freed(fates) as nat,
                unit,
            );
            &&& gone == 0 ==> said == "nothing could be deleted — press d for why"@
            &&& 0 < gone && gone == fates.len() ==> said == done
            &&& 0 < gone < fates.len() ==> said == done + " · "@ + strings::digits(
                (fates.len() - gone) as nat,
            ) + " skipped"@
        }),
{
}

/// What was deleted is counted one by one.
pub proof fn deletions_are_counted(fates: Seq<Fate>, fate: Fate)
    ensures
        app::count_deleted(fates.push(fate)) == app::count_deleted(fates) + if fate is Deleted {
            1int
        } else {
            0
        },
        app::count_deleted(Seq::empty()) == 0,
{
    assert(fates.push(fate).drop_last() =~= fates);
}

} // verus!
