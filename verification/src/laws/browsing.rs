//! What the keys do on each screen.

use vstd::prelude::*;
use crate::app;
use crate::app::{Asked, Pending, ScanMode, Settings, State};
use crate::keys::{pressed, Key};
use crate::model::{Metric, Sort};
use crate::path;
use crate::size::SizeKind;
use crate::views;

verus! {

/// Whether a scan is on screen and the keys go to the list: nothing is being typed, confirmed or
/// deleted.
pub open spec fn at_the_list(state: State) -> bool {
    &&& state.view == views::View::Overview || state.view == views::View::Explorer
    &&& state.deleting is None
    &&& state.confirm is None
    &&& !state.search_active
}

/// The state with the last message read, which any key at a list does first.
pub open spec fn read(state: State) -> State {
    State { status: None, outcomes: Seq::empty(), ..state }
}

/// Reading a message changes no row.
proof fn reading_keeps_rows(state: State)
    ensures
        app::rows_here(read(state)) == app::rows_here(state),
        app::row_under_cursor(read(state)) == app::row_under_cursor(state),
        app::path_under_cursor(read(state)) == app::path_under_cursor(state),
{
    let after = read(state);
    assert(app::entry_here(after) == app::entry_here(state));
    assert(app::change_here(after) == app::change_here(state));
    assert(app::rows_here(after) == app::rows_here(state));
}

/// `Up` and `k` put the cursor exactly one row higher, or leave it on the first; `Down` and `j` put
/// it one row lower, or leave it on the last. Nothing else changes.
pub proof fn arrows_move_by_one_row(state: State)
    requires
        at_the_list(state),
        state.selection < app::rows_here(state).len() <= usize::MAX,
    ensures
        pressed(state, Key::Up, false) == (State {
            selection: if state.selection > 0 {
                (state.selection - 1) as usize
            } else {
                0
            },
            ..read(state)
        }),
        pressed(state, Key::Down, false) == (State {
            selection: if state.selection + 1 < app::rows_here(state).len() {
                (state.selection + 1) as usize
            } else {
                state.selection
            },
            ..read(state)
        }),
        pressed(state, Key::Char('k'), false) == pressed(state, Key::Up, false),
        pressed(state, Key::Char('j'), false) == pressed(state, Key::Down, false),
{
    reading_keeps_rows(state);
}

/// `Down` and then `Up` is back on the same row wherever there is a row below, and `Up` and then
/// `Down` wherever there is one above.
pub proof fn arrows_undo_each_other(state: State)
    requires
        at_the_list(state),
        state.selection < app::rows_here(state).len() <= usize::MAX,
    ensures
        state.selection + 1 < app::rows_here(state).len() ==> pressed(
            pressed(state, Key::Down, false),
            Key::Up,
            false,
        ).selection == state.selection,
        state.selection > 0 ==> pressed(
            pressed(state, Key::Up, false),
            Key::Down,
            false,
        ).selection == state.selection,
{
    arrows_move_by_one_row(state);
    let above = pressed(state, Key::Up, false);
    let beneath = pressed(state, Key::Down, false);
    selecting_keeps_rows(state, above.selection);
    selecting_keeps_rows(state, beneath.selection);
    if state.selection > 0 {
        arrows_move_by_one_row(above);
    }
    if state.selection + 1 < app::rows_here(state).len() {
        arrows_move_by_one_row(beneath);
    }
}

proof fn selecting_keeps_rows(state: State, at: usize)
    ensures
        app::rows_here(State { selection: at, ..read(state) }) == app::rows_here(state),
{
    let after = State { selection: at, ..read(state) };
    assert(app::entry_here(after) == app::entry_here(state));
    assert(app::change_here(after) == app::change_here(state));
}

/// A page is ten rows, and stops at either end.
pub proof fn pages_move_by_ten_rows(state: State)
    requires
        at_the_list(state),
        state.selection < app::rows_here(state).len() <= usize::MAX,
    ensures
        pressed(state, Key::PageUp, false) == (State {
            selection: if state.selection >= 10 {
                (state.selection - 10) as usize
            } else {
                0
            },
            ..read(state)
        }),
        pressed(state, Key::PageDown, false) == (State {
            selection: if state.selection + 10 < app::rows_here(state).len() {
                (state.selection + 10) as usize
            } else {
                (app::rows_here(state).len() - 1) as usize
            },
            ..read(state)
        }),
{
    reading_keeps_rows(state);
}

/// `Home` and `g` go to the first row, `End` and `G` to the last.
pub proof fn the_ends_are_one_key_away(state: State)
    requires
        at_the_list(state),
        0 < app::rows_here(state).len() <= usize::MAX,
    ensures
        pressed(state, Key::Home, false) == (State { selection: 0, ..read(state) }),
        pressed(state, Key::Char('g'), false) == (State { selection: 0, ..read(state) }),
        pressed(state, Key::End, false) == (State {
            selection: (app::rows_here(state).len() - 1) as usize,
            ..read(state)
        }),
        pressed(state, Key::Char('G'), false) == (State {
            selection: (app::rows_here(state).len() - 1) as usize,
            ..read(state)
        }),
{
    reading_keeps_rows(state);
}

/// `Right` and `l` go into the directory under the cursor, and so does Enter in the explorer: it is
/// then the one on screen, with its first row selected and no search. A file stays closed, and so
/// does the row that stands for several entries; either is said.
pub proof fn opening_goes_into_directories(state: State, key: Key)
    requires
        at_the_list(state),
        key == Key::Right || key == Key::Char('l') || (key == Key::Enter && state.view
            == views::View::Explorer),
        state.selection < app::rows_here(state).len(),
    ensures
        ({
            let row = app::rows_here(state)[state.selection as int];
            let after = pressed(state, key, false);
            match row.path {
                None => after == (State {
                    status: Some("\"Other\" groups several entries — raise --top to see them"@),
                    ..read(state)
                }),
                Some(target) => if row.is_dir {
                    after == (State {
                        cwd: target,
                        selection: 0,
                        search: None,
                        search_active: false,
                        ..read(state)
                    })
                } else {
                    after == (State {
                        status: Some(
                            crate::model::path_text(target, state.home) + " is a file"@,
                        ),
                        ..read(state)
                    })
                },
            }
        }),
{
    reading_keeps_rows(state);
}

/// `Left`, `h` and Backspace go to the directory above, with no search, and the cursor is then on
/// the row of the directory that was left, where it has one.
pub proof fn going_up_comes_back_to_where_it_was(state: State, key: Key)
    requires
        at_the_list(state),
        key == Key::Left || key == Key::Char('h') || key == Key::Backspace,
        !path::same_place(state.cwd, state.root),
        path::parent(state.cwd) is Some,
    ensures
        ({
            let after = pressed(state, key, false);
            let rows = app::rows_here(after);
            &&& after == (State {
                cwd: path::parent(state.cwd)->0,
                search: None,
                search_active: false,
                selection: after.selection,
                ..read(state)
            })
            &&& (exists|i: int|
                0 <= i < rows.len() && i <= usize::MAX && (#[trigger] rows[i]).path is Some
                    && path::same_place(rows[i].path->0, state.cwd)) ==> after.selection
                < rows.len() && rows[after.selection as int].path is Some && path::same_place(
                rows[after.selection as int].path->0,
                state.cwd,
            )
        }),
{
    let up = State {
        cwd: path::parent(state.cwd)->0,
        search: None,
        search_active: false,
        ..read(state)
    };
    let rows = app::rows_here(up);
    let after = pressed(state, key, false);
    assert(after == (State { selection: app::row_of(rows, state.cwd, 0), ..up }));
    assert(app::rows_here(after) == rows) by {
        assert(app::entry_here(after) == app::entry_here(up));
        assert(app::change_here(after) == app::change_here(up));
    }
    if exists|i: int|
        0 <= i < rows.len() && i <= usize::MAX && (#[trigger] rows[i]).path is Some
            && path::same_place(rows[i].path->0, state.cwd) {
        let i = choose|i: int|
            0 <= i < rows.len() && i <= usize::MAX && (#[trigger] rows[i]).path is Some
                && path::same_place(rows[i].path->0, state.cwd);
        rows_are_found(rows, state.cwd, 0, i);
    }
}

proof fn rows_are_found(rows: Seq<crate::model::Line>, target: Seq<u8>, from: nat, i: int)
    requires
        from <= i < rows.len(),
        i <= usize::MAX,
        rows[i].path is Some,
        path::same_place(rows[i].path->0, target),
    ensures
        ({
            let at = app::row_of(rows, target, from);
            &&& from <= at <= i
            &&& rows[at as int].path is Some
            &&& path::same_place(rows[at as int].path->0, target)
        }),
    decreases i - from,
{
    if !(rows[from as int].path is Some && path::same_place(rows[from as int].path->0, target)) {
        rows_are_found(rows, target, from + 1, i);
    }
}

/// At the top of a scan there is nothing above: the keys that go up lead back to the disk list where
/// the scan came from it, and elsewhere stay put and say which directory to ask for.
pub proof fn the_top_is_the_top(state: State, key: Key)
    requires
        at_the_list(state),
        key == Key::Left || key == Key::Char('h') || key == Key::Backspace,
        path::same_place(state.cwd, state.root),
    ensures
        state.from_picker ==> pressed(state, key, false).view == views::View::Picker,
        !state.from_picker ==> pressed(state, key, false) == (State {
            status: Some(
                "top of this scan — run disko on "@ + (match path::parent(state.root) {
                    Some(parent) => crate::model::path_text(parent, state.home),
                    None => "the parent"@,
                }) + " to go higher"@,
            ),
            ..read(state)
        }),
{
}

/// Back at the disk list everything of the scan is gone, the disks are looked at anew, and a scan
/// that still ran is stopped.
pub proof fn the_disk_list_starts_afresh(state: State)
    ensures
        ({
            let after = app::at_picker(state);
            &&& after.view == views::View::Picker
            &&& after.tree is None && after.diff is None
            &&& after.metric == Metric::Size
            &&& after.root.len() == 0 && after.cwd.len() == 0
            &&& after.selection == 0
            &&& after.search is None && !after.search_active
            &&& after.marks.len() == 0
            &&& after.status is None
            &&& !after.scanning
            &&& after.picker_index == state.picker_index
            &&& after.settings == state.settings
            &&& after.quit == state.quit
            &&& after.requests == (if state.scanning {
                state.requests.push(Asked::StopScan).push(Asked::ListDisks)
            } else {
                state.requests.push(Asked::ListDisks)
            })
        }),
{
}

/// Escape closes one layer at a time: the details first, then the search, then the explorer, and
/// last the scan, where there is a disk list behind it.
pub proof fn escape_closes_one_layer(state: State)
    requires
        at_the_list(state),
    ensures
        ({
            let after = pressed(state, Key::Esc, false);
            if state.details {
                after == (State { details: false, ..read(state) })
            } else if state.search is Some {
                after == (State { search: None, selection: 0, ..read(state) })
            } else if state.view == views::View::Explorer {
                after == (State { view: views::View::Overview, ..read(state) })
            } else if state.from_picker {
                after.view == views::View::Picker && after.tree is None
            } else {
                after == read(state)
            }
        }),
{
}

/// Enter leads from the overview to the explorer, and Tab between the two, there and back.
pub proof fn the_two_views_are_a_key_apart(state: State)
    requires
        at_the_list(state),
    ensures
        state.view == views::View::Overview ==> pressed(state, Key::Enter, false) == (State {
            view: views::View::Explorer,
            ..read(state)
        }),
        state.view == views::View::Overview ==> pressed(state, Key::Tab, false) == (State {
            view: views::View::Explorer,
            ..read(state)
        }),
        state.view == views::View::Explorer ==> pressed(state, Key::Tab, false) == (State {
            view: views::View::Overview,
            ..read(state)
        }),
{
}

/// A slash starts a search, or goes on with the one there is.
pub proof fn a_slash_starts_a_search(state: State)
    requires
        at_the_list(state),
    ensures
        pressed(state, Key::Char('/'), false) == (State {
            search: match state.search {
                Some(text) => Some(text),
                None => Some(Seq::empty()),
            },
            search_active: true,
            ..read(state)
        }),
{
}

/// What is searched for is what is typed, letter by letter; Backspace takes the last one back, Enter
/// keeps the search and gives the keyboard back to the list, and Escape drops it. The cursor goes
/// back to the first row with each letter, and no letter does what it would do at the list.
pub proof fn a_search_is_what_is_typed(state: State, letter: char)
    requires
        state.search_active,
        state.search is Some,
        state.confirm is None,
        state.deleting is None,
    ensures
        pressed(state, Key::Char(letter), false) == (State {
            search: Some(state.search->0.push(letter)),
            selection: 0,
            ..state
        }),
        pressed(
            State { search: Some(state.search->0.push(letter)), ..state },
            Key::Backspace,
            false,
        ) == (State { selection: 0, ..state }),
        state.search->0.len() == 0 ==> pressed(state, Key::Backspace, false) == (State {
            selection: 0,
            ..state
        }),
        pressed(state, Key::Enter, false) == (State { search_active: false, ..state }),
        pressed(state, Key::Esc, false) == (State {
            search: None,
            search_active: false,
            selection: 0,
            ..state
        }),
{
    let longer = State { search: Some(state.search->0.push(letter)), ..state };
    assert(state.search->0.push(letter).drop_last() =~= state.search->0);
    assert(pressed(longer, Key::Backspace, false) =~= (State { selection: 0, ..state }));
}

/// `s` goes from sizes to names, from names to items and from items to sizes, and says so.
pub proof fn sorting_goes_round(state: State)
    requires
        at_the_list(state),
    ensures
        pressed(state, Key::Char('s'), false) == (match state.sort {
            Sort::Size => State {
                sort: Sort::Name,
                status: Some("sorted by "@ + "name"@),
                ..read(state)
            },
            Sort::Name => State {
                sort: Sort::Items,
                status: Some("sorted by "@ + "items"@),
                ..read(state)
            },
            Sort::Items => State {
                sort: Sort::Size,
                status: Some("sorted by "@ + "size"@),
                ..read(state)
            },
        }),
{
}

/// `d` shows the details or puts them away, `a` switches between blocks and lengths, and `t`
/// between sizes and growth, where there is something to compare with.
pub proof fn switches_do_what_they_say(state: State)
    requires
        at_the_list(state),
    ensures
        pressed(state, Key::Char('d'), false) == (State {
            details: !state.details,
            ..read(state)
        }),
        pressed(state, Key::Char('a'), false) == (match state.settings.size_kind {
            SizeKind::Allocated => State {
                settings: Settings { size_kind: SizeKind::Apparent, ..state.settings },
                status: Some("showing apparent file sizes"@),
                ..read(state)
            },
            SizeKind::Apparent => State {
                settings: Settings { size_kind: SizeKind::Allocated, ..state.settings },
                status: Some("showing space used on disk"@),
                ..read(state)
            },
        }),
        state.diff is Some ==> pressed(state, Key::Char('t'), false) == (match state.metric {
            Metric::Size => State {
                metric: Metric::Growth,
                selection: 0,
                status: Some("showing "@ + "growth"@),
                ..read(state)
            },
            Metric::Growth => State {
                metric: Metric::Size,
                selection: 0,
                status: Some("showing "@ + "size"@),
                ..read(state)
            },
        }),
        state.diff is None ==> pressed(state, Key::Char('t'), false) == (State {
            status: Some(
                if state.watch is Some {
                    "waiting for the first rescan"@
                } else {
                    "no earlier scan to compare against — this one is now the baseline"@
                },
            ),
            ..read(state)
        }),
{
}

/// Space marks the entry under the cursor, or takes its mark away; every other mark stays.
pub proof fn space_marks_the_row(state: State, other: Seq<u8>)
    requires
        at_the_list(state),
        state.selection < app::rows_here(state).len(),
        app::rows_here(state)[state.selection as int].path is Some,
    ensures
        ({
            let target = app::rows_here(state)[state.selection as int].path->0;
            let after = pressed(state, Key::Char(' '), false);
            let was = exists|i: int|
                0 <= i < state.marks.len() && path::same_place(
                    #[trigger] state.marks[i],
                    target,
                );
            &&& after == (State { marks: after.marks, ..read(state) })
            &&& !was ==> after.marks == state.marks.push(target)
            &&& was ==> !after.marks.contains(target)
            &&& !path::same_place(other, target) ==> after.marks.contains(other)
                == state.marks.contains(other)
        }),
{
    reading_keeps_rows(state);
    let target = app::rows_here(state)[state.selection as int].path->0;
    let keep = |mark: Seq<u8>| !path::same_place(mark, target);
    let after = pressed(state, Key::Char(' '), false);
    if app::is_marked(state.marks, target) {
        assert(after.marks == state.marks.filter(keep));
        if after.marks.contains(target) {
            let i = choose|i: int| 0 <= i < after.marks.len() && after.marks[i] == target;
            state.marks.lemma_filter_pred(keep, i);
        }
        if !path::same_place(other, target) {
            if state.marks.contains(other) {
                let i = choose|i: int| 0 <= i < state.marks.len() && state.marks[i] == other;
                state.marks.lemma_filter_contains(keep, i);
            }
            if after.marks.contains(other) {
                state.marks.lemma_filter_contains_rev(keep, other);
            }
        }
    } else {
        assert(!path::same_place(other, target) ==> other != target);
        if state.marks.contains(other) {
            let i = choose|i: int| 0 <= i < state.marks.len() && state.marks[i] == other;
            assert(after.marks[i] == other);
        }
        if after.marks.contains(other) && other != target {
            let i = choose|i: int| 0 <= i < after.marks.len() && after.marks[i] == other;
            assert(state.marks[i] == other);
        }
    }
}

/// `q` quits, wherever the keys go to a screen rather than to a prompt, and Ctrl-C quits anywhere.
pub proof fn quitting_quits(state: State)
    ensures
        pressed(state, Key::Char('c'), true) == (State { quit: true, ..state }),
        state.deleting is None && state.confirm is None && !state.search_active ==> pressed(
            state,
            Key::Char('q'),
            false,
        ) == (State { quit: true, ..read(state) }),
{
}

/// `r` scans the same root again, unless a scan is still running.
pub proof fn r_scans_again(state: State)
    requires
        at_the_list(state),
    ensures
        pressed(state, Key::Char('r'), false).requests == (if state.root.len() > 0
            && !state.scanning {
            state.requests.push(Asked::Begin { path: state.root, mode: ScanMode::Refresh })
        } else {
            state.requests
        }),
        pressed(state, Key::Char('r'), false).tree == state.tree,
        pressed(state, Key::Char('r'), false).selection == state.selection,
{
}

/// `o` shows the entry under the cursor in the file manager; `y` and `c` copy its path, or that of
/// the directory on screen where the cursor is on no entry.
pub proof fn entries_are_handed_on(state: State)
    requires
        at_the_list(state),
    ensures
        ({
            let rows = app::rows_here(state);
            let here = if state.selection < rows.len() {
                rows[state.selection as int].path
            } else {
                None
            };
            let wanted = match here {
                Some(target) => target,
                None => state.cwd,
            };
            &&& here is Some ==> pressed(state, Key::Char('o'), false) == (State {
                requests: state.requests.push(
                    Asked::Show {
                        path: here->0,
                        is_dir: rows[state.selection as int].is_dir,
                    },
                ),
                ..read(state)
            })
            &&& here is None ==> pressed(state, Key::Char('o'), false).requests == state.requests
            &&& pressed(state, Key::Char('y'), false) == (State {
                requests: state.requests.push(Asked::Copy { path: wanted }),
                ..read(state)
            })
            &&& pressed(state, Key::Char('c'), false) == pressed(state, Key::Char('y'), false)
        }),
{
    reading_keeps_rows(state);
}

/// At the disk list the arrows move by one disk and stop at either end, and Enter, `Right` and `l`
/// scan the one under the cursor from its mount point.
pub proof fn disks_are_picked_by_the_cursor(state: State)
    requires
        state.view == views::View::Picker,
        state.deleting is None,
        state.confirm is None,
        !state.search_active,
        state.picker_index < state.filesystems.len() <= usize::MAX,
    ensures
        ({
            let above = State {
                picker_index: if state.picker_index > 0 {
                    (state.picker_index - 1) as usize
                } else {
                    0
                },
                ..read(state)
            };
            let beneath = State {
                picker_index: if state.picker_index + 1 < state.filesystems.len() {
                    (state.picker_index + 1) as usize
                } else {
                    state.picker_index
                },
                ..read(state)
            };
            let chosen = State {
                from_picker: true,
                requests: state.requests.push(
                    Asked::Begin {
                        path: state.filesystems[state.picker_index as int].mount_point,
                        mode: ScanMode::Fresh,
                    },
                ),
                ..read(state)
            };
            &&& pressed(state, Key::Up, false) == above
            &&& pressed(state, Key::Char('k'), false) == above
            &&& pressed(state, Key::Down, false) == beneath
            &&& pressed(state, Key::Char('j'), false) == beneath
            &&& pressed(state, Key::Enter, false) == chosen
            &&& pressed(state, Key::Right, false) == chosen
            &&& pressed(state, Key::Char('l'), false) == chosen
            &&& pressed(state, Key::Esc, false) == (State { quit: true, ..read(state) })
        }),
{
}

/// While the first scan runs, Escape asks it to stop and says what will be shown; no other key but
/// the one that quits does anything.
pub proof fn a_running_scan_takes_escape(state: State, key: Key)
    requires
        state.view == views::View::Scanning,
        state.deleting is None,
        state.confirm is None,
        !state.search_active,
    ensures
        pressed(state, Key::Esc, false) == (State {
            status: Some("stopping — showing what was counted so far"@),
            requests: if state.scanning {
                state.requests.push(Asked::StopScan)
            } else {
                state.requests
            },
            ..read(state)
        }),
        key != Key::Esc && key != Key::Char('q') ==> pressed(state, key, false) == read(state),
{
}

/// `x` and Delete ask about everything that is marked, or about the entry under the cursor where
/// nothing is: each is in the prompt with the size and the kind that the tree has for it, and
/// nothing has been typed yet.
pub proof fn deleting_asks_first(state: State, key: Key)
    requires
        at_the_list(state),
        key == Key::Char('x') || key == Key::Delete,
        !state.read_only,
        state.tree is Some,
    ensures
        ({
            let after = pressed(state, key, false);
            let tree = state.tree->0;
            let rows = app::rows_here(state);
            &&& after.requests == state.requests
            &&& after.tree == state.tree
            &&& after.deleting is None
            &&& after.confirm matches Some(prompt) ==> {
                &&& prompt.typed.len() == 0
                &&& !prompt.nagged
                &&& prompt.targets.len() > 0
                &&& forall|i: int|
                    0 <= i < prompt.targets.len() ==> {
                        let aim = #[trigger] prompt.targets[i];
                        let entry = crate::tree::resolved(tree, aim.path);
                        &&& entry is Some
                        &&& aim.size == (match state.settings.size_kind {
                            SizeKind::Allocated => entry->0.allocated_size,
                            SizeKind::Apparent => entry->0.apparent_size,
                        })
                        &&& aim.is_dir == (entry->0.entry_type
                            == crate::tree::EntryType::Directory)
                        &&& state.marks.len() > 0 ==> state.marks.contains(aim.path)
                        &&& state.marks.len() == 0 ==> state.selection < rows.len()
                            && rows[state.selection as int].path == Some(aim.path)
                    }
            }
            &&& after.confirm is None ==> after.status == Some("nothing selected to delete"@)
            &&& forall|i: int|
                0 <= i < state.marks.len() && crate::tree::resolved(
                    tree,
                    #[trigger] state.marks[i],
                ) is Some ==> after.confirm is Some && exists|j: int|
                    0 <= j < after.confirm->0.targets.len() && (
                    #[trigger] after.confirm->0.targets[j]).path == state.marks[i]
        }),
{
    reading_keeps_rows(state);
    let tree = state.tree->0;
    let kind = state.settings.size_kind;
    let before = |a: Seq<u8>, b: Seq<u8>| path::path_before(a, b);
    let wanted = app::wanted_gone(read(state));
    targets_are_the_wanted(wanted, tree, kind);
    if state.marks.len() > 0 {
        crate::order::sort_keeps_members(state.marks, before);
        assert forall|i: int|
            0 <= i < state.marks.len() && crate::tree::resolved(
                tree,
                #[trigger] state.marks[i],
            ) is Some implies exists|j: int|
            0 <= j < app::targets_at(wanted, tree, kind).len() && (
            #[trigger] app::targets_at(wanted, tree, kind)[j]).path == state.marks[i] by {
            assert(state.marks.contains(state.marks[i]));
            assert(wanted.contains(state.marks[i]));
            let k = choose|k: int| 0 <= k < wanted.len() && wanted[k] == state.marks[i];
            assert(crate::tree::resolved(tree, wanted[k]) is Some);
        }
    }
    let targets = app::targets_at(wanted, tree, kind);
    assert forall|i: int| 0 <= i < targets.len() implies wanted.contains(
        (#[trigger] targets[i]).path,
    ) && (state.marks.len() > 0 ==> state.marks.contains(targets[i].path)) by {
    }
}

proof fn targets_are_the_wanted(
    places: Seq<Seq<u8>>,
    tree: crate::tree::Tree,
    kind: SizeKind,
)
    ensures
        ({
            let out = app::targets_at(places, tree, kind);
            &&& forall|i: int|
                0 <= i < out.len() ==> {
                    let aim = #[trigger] out[i];
                    let entry = crate::tree::resolved(tree, aim.path);
                    &&& entry is Some
                    &&& aim.size == (match kind {
                        SizeKind::Allocated => entry->0.allocated_size,
                        SizeKind::Apparent => entry->0.apparent_size,
                    })
                    &&& aim.is_dir == (entry->0.entry_type == crate::tree::EntryType::Directory)
                    &&& places.contains(aim.path)
                }
            &&& forall|k: int|
                0 <= k < places.len() && crate::tree::resolved(tree, #[trigger] places[k]) is Some
                    ==> exists|j: int|
                    0 <= j < out.len() && (#[trigger] out[j]).path == places[k]
        }),
    decreases places.len(),
{
    if places.len() > 0 {
        let front = places.drop_last();
        let rest = app::targets_at(front, tree, kind);
        let out = app::targets_at(places, tree, kind);
        targets_are_the_wanted(front, tree, kind);
        assert forall|i: int| 0 <= i < out.len() implies places.contains(
            (#[trigger] out[i]).path,
        ) by {
            if i < rest.len() {
                assert(out[i] == rest[i]);
                let k = choose|k: int| 0 <= k < front.len() && front[k] == rest[i].path;
                assert(places[k] == rest[i].path);
            } else {
                assert(places[places.len() - 1] == out[i].path);
            }
        }
        assert forall|i: int| 0 <= i < out.len() implies {
            let aim = #[trigger] out[i];
            let entry = crate::tree::resolved(tree, aim.path);
            &&& entry is Some
            &&& aim.size == (match kind {
                SizeKind::Allocated => entry->0.allocated_size,
                SizeKind::Apparent => entry->0.apparent_size,
            })
            &&& aim.is_dir == (entry->0.entry_type == crate::tree::EntryType::Directory)
        } by {
            if i < rest.len() {
                assert(out[i] == rest[i]);
            }
        }
        assert forall|k: int|
            0 <= k < places.len() && crate::tree::resolved(
                tree,
                #[trigger] places[k],
            ) is Some implies exists|j: int|
            0 <= j < out.len() && (#[trigger] out[j]).path == places[k] by {
            if k < front.len() {
                assert(front[k] == places[k]);
                let j = choose|j: int|
                    0 <= j < rest.len() && (#[trigger] rest[j]).path == front[k];
                assert(out[j] == rest[j]);
            } else {
                assert(out[out.len() - 1].path == places[k]);
            }
        }
    }
}

/// A prompt takes down the letters that are typed, and Backspace takes the last one back. Escape
/// deletes nothing and says so; Enter deletes exactly what the prompt lists once the word `delete`
/// stands there, and before that only points it out.
pub proof fn the_prompt_wants_the_word(state: State, letter: char)
    requires
        state.confirm is Some,
        state.deleting is None,
    ensures
        ({
            let prompt = state.confirm->0;
            let typed = pressed(state, Key::Char(letter), false);
            &&& typed == (State {
                confirm: Some(
                    Pending { typed: prompt.typed.push(letter), nagged: false, ..prompt },
                ),
                ..state
            })
            &&& pressed(typed, Key::Backspace, false) == (State {
                confirm: Some(Pending { nagged: false, ..prompt }),
                ..state
            })
            &&& pressed(state, Key::Esc, false) == (State {
                confirm: None,
                status: Some("nothing was deleted"@),
                ..state
            })
            &&& !state.read_only && prompt.typed == "delete"@ ==> {
                let after = pressed(state, Key::Enter, false);
                &&& after.confirm is None
                &&& after.requests == state.requests.push(
                    Asked::Delete { targets: prompt.targets },
                )
                &&& after.deleting is Some && !after.deleting->0.stopping
                &&& after.tree == state.tree
                &&& after.marks == state.marks
            }
            &&& !state.read_only && prompt.typed != "delete"@ ==> pressed(state, Key::Enter, false)
                == (State { confirm: Some(Pending { nagged: true, ..prompt }), ..state })
        }),
{
    let prompt = state.confirm->0;
    assert(prompt.typed.push(letter).drop_last() =~= prompt.typed);
}

/// Escape stops a deletion that is under way, and no other key reaches anything.
pub proof fn a_deletion_takes_escape(state: State, key: Key)
    requires
        state.deleting is Some,
    ensures
        ({
            let after = pressed(state, Key::Esc, false);
            &&& after.requests == state.requests.push(Asked::StopDelete)
            &&& after.deleting is Some && after.deleting->0.stopping
            &&& after.tree == state.tree
        }),
        key != Key::Esc ==> pressed(state, key, false) == state,
{
}

} // verus!
