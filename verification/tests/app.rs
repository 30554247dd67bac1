use disko::app::{visible_stub, App, ScanEnd, ScanMode, Settings, Watch};
use disko::deletion::Outcome;
use disko::history::Store;
use disko::keys::{handle_key, press, Key};
use disko::model::Sort;
use disko::path::FilePath;
use disko::scan::{Finished, ScanOptions};
use disko::size::{SizeKind, Unit};
use disko::tree::{DiskEntry, EntryType};
use disko::views::View;

fn at(text: &str) -> FilePath {
    FilePath::new(text)
}

fn settings() -> Settings {
    Settings {
        size_kind: SizeKind::Allocated,
        unit: Unit::Decimal,
        top: 20,
        scan_options: ScanOptions::default(),
        show_all_filesystems: false,
        // Tests must never touch the user's real snapshot history.
        record_snapshots: false,
    }
}

fn entry(path: &str, size: u64, children: Vec<DiskEntry>) -> DiskEntry {
    let mut entry = DiskEntry::new(path, EntryType::Directory);
    entry.allocated_size = size;
    entry.apparent_size = size;
    entry.children = children;
    entry
}

/// An app with a canned tree, skipping the real scan.
fn app_with_tree() -> App {
    let tree = entry(
        "/root",
        1000,
        vec![
            entry(
                "/root/big",
                700,
                vec![entry("/root/big/inner", 500, vec![])],
            ),
            entry("/root/small", 300, vec![]),
        ],
    );
    let mut app = App::new(settings(), false, Vec::new(), None);
    app.root = at("/root");
    app.cwd = at("/root");
    app.tree = Some(tree);
    app.view = View::Overview;
    app
}

/// `/root` -> `a` -> `deep` -> `deeper`, with a sibling at every level, so
/// a stub can be checked for both what it keeps and what it lets go.
fn deep_tree() -> DiskEntry {
    entry(
        "/root",
        1000,
        vec![
            entry(
                "/root/a",
                700,
                vec![
                    entry(
                        "/root/a/deep",
                        600,
                        vec![entry(
                            "/root/a/deep/deeper",
                            500,
                            vec![entry("/root/a/deep/deeper/deepest", 400, vec![])],
                        )],
                    ),
                    entry("/root/a/sibling", 100, vec![entry("/root/a/sibling/x", 1, vec![])]),
                ],
            ),
            entry("/root/b", 300, vec![entry("/root/b/hidden", 50, vec![])]),
        ],
    )
}

#[test]
fn a_stub_keeps_the_levels_under_the_cursor() {
    let stub = visible_stub(&deep_tree(), &at("/root"), &at("/root/a"), 2);
    let a = stub.child("a").unwrap();

    // Two levels under the cursor survive with their sizes intact...
    assert_eq!(a.allocated_size, 700);
    let deeper = a.child("deep").unwrap().child("deeper").unwrap();
    assert_eq!(deeper.allocated_size, 500);
    // ...and the third does not.
    assert!(deeper.children.is_empty(), "the stub stops at the depth asked for");
}

#[test]
fn a_stub_keeps_enough_to_go_back_up() {
    let stub = visible_stub(&deep_tree(), &at("/root"), &at("/root/a"), 2);

    // Leaving `/root/a` must still list the same rows it listed before,
    // with the same numbers, even though nothing under them is kept.
    let b = stub.child("b").unwrap();
    assert_eq!(b.allocated_size, 300);
    assert!(b.children.is_empty(), "a branch off the path is not followed");
}

#[test]
fn a_stub_at_the_root_is_bounded_by_depth() {
    let stub = visible_stub(&deep_tree(), &at("/root"), &at("/root"), 1);

    assert_eq!(stub.allocated_size, 1000);
    assert_eq!(stub.children.len(), 2);
    // One level down, and no further.
    assert!(stub.children.iter().all(|child| child.children.is_empty()));
}

#[test]
fn rescanning_drops_the_old_tree_down_to_the_stub() {
    let mut app = app_with_tree();
    app.cwd = at("/root");
    app.begin(at("/root"), ScanMode::Refresh, None, None);

    // The rescan is under way and the view still has its numbers, but the
    // full tree is no longer being held alongside the one being built.
    let tree = app.tree.as_ref().expect("the view keeps something to draw");
    assert_eq!(tree.allocated_size, 1000);
    assert_eq!(app.rows().len(), 2);
}

#[test]
fn opening_a_directory_descends_and_resets_the_selection() {
    let mut app = app_with_tree();
    app.selection = 1;
    app.selection = 0; // "big" is largest, so it is first
    app.open_selected();

    assert_eq!(app.cwd.display(), "/root/big");
    assert_eq!(app.selection, 0);
    assert_eq!(app.rows().len(), 1);
}

#[test]
fn going_up_lands_back_on_the_directory_just_left() {
    let mut app = app_with_tree();
    app.cwd = at("/root/small");
    app.go_up();

    assert_eq!(app.cwd.display(), "/root");
    assert_eq!(app.selected_row().unwrap().name, "small");
}

#[test]
fn the_scan_root_is_the_floor() {
    let mut app = app_with_tree();
    app.go_up();
    assert_eq!(app.cwd.display(), "/root");
    assert!(app.status.is_some());
}

#[test]
fn selection_stays_inside_the_list() {
    let mut app = app_with_tree();
    app.move_selection(-5);
    assert_eq!(app.selection, 0);
    app.move_selection(99);
    assert_eq!(app.selection, 1);
}

#[test]
fn marks_toggle_and_total_up() {
    let mut app = app_with_tree();
    app.toggle_mark();
    assert_eq!(app.marked_total(), 700);
    app.toggle_mark();
    assert_eq!(app.marked_total(), 0);
}

#[test]
fn searching_filters_the_rows() {
    let mut app = app_with_tree();
    app.begin_search();
    for ch in "sma".chars() {
        app.push_search(ch);
    }
    assert_eq!(app.rows().len(), 1);
    assert_eq!(app.rows()[0].name, "small");

    app.clear_search();
    assert_eq!(app.rows().len(), 2);
}

#[test]
fn the_breadcrumb_follows_the_current_directory() {
    let mut app = app_with_tree();
    assert_eq!(app.breadcrumb(), "/root");
    app.cwd = at("/root/big/inner");
    assert_eq!(app.breadcrumb(), "/root › big › inner");
}

#[test]
fn the_radial_tree_ids_map_back_to_paths() {
    let app = app_with_tree();
    let cache = app.radial_tree(2);

    assert_eq!(cache.root.size, 1000);
    // Largest first, depth first.
    for (id, path) in [
        (0, "/root"),
        (1, "/root/big"),
        (2, "/root/big/inner"),
        (3, "/root/small"),
    ] {
        assert_eq!(cache.id_of(&at(path)), Some(id), "{path}");
    }
    assert_eq!(cache.root.children[0].children[0].id, 2);
}

#[test]
fn the_radial_tree_stops_at_the_ring_limit() {
    let app = app_with_tree();
    let cache = app.radial_tree(1);
    assert!(cache.root.children[0].children.is_empty());
}

/// Rebuilding the sunburst for every keystroke is what made holding an
/// arrow key down drag, so the same directory has to hand back the same
/// build — and a changed one must not.
#[test]
fn the_radial_tree_is_only_rebuilt_when_something_moves() {
    let mut app = app_with_tree();
    let first = app.radial_tree(2).root.size;
    assert_eq!(first, 1000);
    assert_eq!(app.revision, 0, "reading it should change nothing");

    // Moving the cursor leaves the chart alone...
    app.move_selection(1);
    assert_eq!(app.revision, 0);

    // ...but editing the tree does not.
    app.apply_outcomes(vec![Outcome::Deleted {
        path: at("/root/small"),
        size: 300,
    }]);
    assert_eq!(app.revision, 1);
    assert_eq!(app.radial_tree(2).id_of(&at("/root/small")), None);
}

#[test]
fn opening_a_file_explains_itself_instead_of_navigating() {
    let mut app = app_with_tree();
    if let Some(tree) = &mut app.tree {
        tree.children[1].entry_type = EntryType::File;
    }
    app.selection = 1;
    app.open_selected();

    assert_eq!(app.cwd.display(), "/root");
    assert!(app.status.unwrap().contains("is a file"));
}

#[test]
fn switching_size_kind_changes_what_rows_report() {
    let mut app = app_with_tree();
    if let Some(tree) = &mut app.tree {
        tree.children[0].apparent_size = 10;
    }
    assert_eq!(app.rows()[0].size, 700);
    app.toggle_size_kind();
    assert_eq!(app.settings.size_kind, SizeKind::Apparent);
    // Now "small" is the biggest by apparent size.
    assert_eq!(app.rows()[0].name, "small");
}

fn app_over_two() -> App {
    let mut root = DiskEntry::new("/root", EntryType::Directory);
    root.allocated_size = 300;
    for (name, size) in [("big", 200u64), ("small", 100u64)] {
        let mut child = DiskEntry::new(&format!("/root/{name}"), EntryType::Directory);
        child.allocated_size = size;
        root.children.push(child);
    }

    let mut app = App::new(settings(), false, Vec::new(), None);
    app.root = at("/root");
    app.cwd = at("/root");
    app.tree = Some(root);
    app.view = View::Overview;
    app
}

#[test]
fn enter_opens_the_explorer_then_drills_down() {
    let mut app = app_over_two();
    press(&mut app, Key::Enter);
    assert_eq!(app.view, View::Explorer);

    press(&mut app, Key::Enter);
    assert_eq!(app.cwd.display(), "/root/big");
}

#[test]
fn escape_unwinds_one_layer_at_a_time() {
    let mut app = app_over_two();
    app.view = View::Explorer;
    app.details = true;
    app.begin_search();
    app.search_active = false;

    press(&mut app, Key::Esc);
    assert!(!app.details);
    press(&mut app, Key::Esc);
    assert!(app.search.is_none());
    press(&mut app, Key::Esc);
    assert_eq!(app.view, View::Overview);
    // Escape at the top does not quit by accident.
    press(&mut app, Key::Esc);
    assert!(!app.quit);
}

#[test]
fn typing_a_search_does_not_trigger_navigation_shortcuts() {
    let mut app = app_over_two();
    press(&mut app, Key::Char('/'));
    for ch in "sad".chars() {
        press(&mut app, Key::Char(ch));
    }

    assert_eq!(app.search.as_deref(), Some("sad"));
    assert!(
        !app.details,
        "'d' should have been typed, not toggled details"
    );
    assert_eq!(
        app.sort,
        Sort::Size,
        "'s' should not have re-sorted"
    );
}

#[test]
fn enter_leaves_the_search_filter_in_place() {
    let mut app = app_over_two();
    press(&mut app, Key::Char('/'));
    press(&mut app, Key::Char('s'));
    press(&mut app, Key::Enter);

    assert!(!app.search_active);
    assert_eq!(app.search.as_deref(), Some("s"));
    assert_eq!(app.rows().len(), 1);
}

#[test]
fn ctrl_c_always_quits() {
    let mut app = app_over_two();
    app.search_active = true;
    handle_key(&mut app, Key::Char('c'), true);
    assert!(app.quit);
}

#[test]
fn navigation_keys_move_the_selection_and_the_directory() {
    let mut app = app_over_two();
    press(&mut app, Key::Down);
    assert_eq!(app.selection, 1);
    press(&mut app, Key::Right);
    assert_eq!(app.cwd.display(), "/root/small");
    press(&mut app, Key::Backspace);
    assert_eq!(app.cwd.display(), "/root");
}

/// The reported bug: after picking a disk, "up" from the top of the tree
/// left you stranded with no way back to the list you came from.
#[test]
fn going_up_from_the_top_returns_to_the_disk_list() {
    let mut app = app_over_two();
    app.from_picker = true;
    app.cwd = at("/root/big");

    // First press climbs out of the subdirectory...
    press(&mut app, Key::Left);
    assert_eq!(app.cwd.display(), "/root");
    assert_eq!(app.view, View::Overview);

    // ...the second leaves the scan entirely.
    press(&mut app, Key::Left);
    assert_eq!(app.view, View::Picker);
    assert!(app.tree.is_none(), "the finished scan should be released");
    assert!(!app.quit);
}

#[test]
fn backspace_and_escape_leave_the_scan_the_same_way() {
    for key in [Key::Backspace, Key::Esc, Key::Char('h')] {
        let mut app = app_over_two();
        app.from_picker = true;
        press(&mut app, key);
        assert_eq!(app.view, View::Picker, "{key:?} should step back out");
    }
}

/// A path named on the command line has no list behind it, so leaving
/// would mean landing nowhere.
#[test]
fn a_scan_started_from_the_command_line_stays_put() {
    let mut app = app_over_two();
    app.from_picker = false;

    press(&mut app, Key::Left);

    assert_eq!(app.view, View::Overview);
    assert!(app.tree.is_some());
    let status = app.status.unwrap();
    assert!(status.contains("top of this scan"), "{status}");
}

#[test]
fn leaving_a_scan_forgets_what_belonged_to_it() {
    let mut app = app_over_two();
    app.from_picker = true;
    app.toggle_mark();
    app.begin_search();
    app.push_search('b');
    assert!(!app.marks.is_empty());

    app.return_to_picker();

    assert!(app.marks.is_empty(), "marks point into the abandoned scan");
    assert!(app.search.is_none());
    assert_eq!(app.selection, 0);
    assert!(app.root.bytes.is_empty());
}

#[test]
fn escape_during_a_scan_stops_it_rather_than_quitting() {
    let mut app = app_over_two();
    app.view = View::Scanning;
    press(&mut app, Key::Esc);
    assert!(!app.quit);
    assert!(app.status.is_some());
}

fn asked(app: &App) -> String {
    format!("{:?}", app.requests)
}

#[test]
fn a_scan_is_begun_outside_and_comes_back_in() {
    let mut app = App::new(settings(), false, Vec::new(), None);
    app.start_scan(&at("/root"));
    assert!(asked(&app).contains("Begin"), "{}", asked(&app));

    app.requests.clear();
    app.begin(at("/root"), ScanMode::Fresh, None, None);
    assert_eq!(app.view, View::Scanning);
    assert!(app.scanning);
    assert!(asked(&app).contains("Scan"), "{}", asked(&app));

    app.collect_streamed(vec![
        Finished {
            path: at("/root/a"),
            allocated: 10,
            apparent: 10,
            items: 1,
        },
        Finished {
            path: at("/root/a/b"),
            allocated: 9,
            apparent: 9,
            items: 1,
        },
        Finished {
            path: at("/root/c"),
            allocated: 50,
            apparent: 50,
            items: 1,
        },
    ]);
    // Largest first, and nothing that is inside something listed already.
    let streamed: Vec<String> = app.streamed.iter().map(|done| done.path.display()).collect();
    assert_eq!(streamed, ["/root/c", "/root/a"]);

    // A parent that holds nothing else weighs what its child does, and still takes its place.
    app.collect_streamed(vec![Finished {
        path: at("/root/d/e"),
        allocated: 30,
        apparent: 30,
        items: 1,
    }]);
    app.collect_streamed(vec![Finished {
        path: at("/root/d"),
        allocated: 30,
        apparent: 30,
        items: 2,
    }]);
    let streamed: Vec<String> = app.streamed.iter().map(|done| done.path.display()).collect();
    assert_eq!(streamed, ["/root/c", "/root/d", "/root/a"]);

    app.absorb_scan(entry("/root", 60, vec![]), 1_000, 5, &None);
    assert!(!app.scanning);
    assert_eq!(app.view, View::Overview);
    assert_eq!(app.current_entry().unwrap().allocated_size, 60);
}

#[test]
fn a_finished_scan_is_compared_before_it_is_recorded() {
    let mut with_history = settings();
    with_history.record_snapshots = true;
    let mut app = App::new(with_history, false, Vec::new(), None);
    app.begin(at("/root"), ScanMode::Fresh, None, None);
    app.requests.clear();
    let earlier = Store::at(at("/store")).record_at(&entry("/root", 40, vec![]), 500, 1);
    app.absorb_scan(
        entry("/root", 60, vec![]),
        1_000,
        5,
        &Some(earlier.snapshot),
    );
    assert_eq!(app.diff.as_ref().unwrap().total_delta(), 20);
    assert!(asked(&app).contains("Record"), "{}", asked(&app));
}

#[test]
fn a_lost_scan_goes_back_to_the_disks() {
    let mut app = app_with_tree();
    app.scanning = true;
    app.scan_failed("no such directory");
    assert_eq!(app.view, View::Picker);
    assert_eq!(app.status.as_deref(), Some("no such directory"));
    app.scan_panicked();
    assert_eq!(app.status.as_deref(), Some("scan thread panicked"));
}

#[test]
fn watching_scans_again_when_it_is_due() {
    let mut app = app_with_tree();
    app.watching(Watch::new(30, 1_000, 100));
    app.tick_watch(120);
    assert!(app.requests.is_empty());
    app.tick_watch(131);
    assert!(asked(&app).contains("Begin"), "{}", asked(&app));
    let watch = app.watch.as_ref().unwrap();
    assert_eq!(watch.elapsed(1_090), 90);
}

#[test]
fn a_running_deletion_takes_only_stop() {
    let mut app = app_with_tree();
    press(&mut app, Key::Char('x'));
    for letter in "delete".chars() {
        press(&mut app, Key::Char(letter));
    }
    press(&mut app, Key::Enter);
    assert!(app.deleting.is_some());
    assert!(asked(&app).contains("Delete"), "{}", asked(&app));

    let before = (app.selection, app.cwd.display());
    for key in [Key::Down, Key::Right, Key::Char('q'), Key::Char('d')] {
        press(&mut app, key);
    }
    assert_eq!((app.selection, app.cwd.display()), before);
    assert!(!app.quit);

    press(&mut app, Key::Esc);
    assert!(app.deleting.as_ref().unwrap().is_stopping());
    assert!(asked(&app).contains("StopDelete"), "{}", asked(&app));
}

#[test]
fn toggles_come_back_to_where_they_were() {
    let mut app = app_with_tree();
    press(&mut app, Key::Char('a'));
    press(&mut app, Key::Char('a'));
    assert_eq!(app.settings.size_kind, SizeKind::Allocated);
    press(&mut app, Key::Tab);
    press(&mut app, Key::Tab);
    assert_eq!(app.view, View::Overview);
    for _ in 0..3 {
        press(&mut app, Key::Char('s'));
    }
    assert_eq!(app.sort, Sort::Size);
}

#[test]
fn the_wedges_of_a_changed_directory_are_numbered_too() {
    let before = entry("/root", 100, vec![entry("a", 60, vec![]), entry("b", 40, vec![])]);
    let after = entry("/root", 130, vec![entry("a", 50, vec![]), entry("b", 80, vec![])]);
    let mut app = app_with_tree();
    app.diff = Some(disko::diff::diff(&before, &after, SizeKind::Allocated, 0, 9, 0));
    app.tree = Some(after);
    press(&mut app, Key::Char('t'));
    assert!(app.showing_growth());
    let burst = app.radial_tree(1);
    assert_eq!(burst.root.size, 30);
    // The biggest movement first, whichever way it went.
    assert_eq!(burst.id_of(&at("/root/b")), Some(1));
    assert_eq!(burst.id_of(&at("/root/a")), Some(2));
    assert_eq!(burst.root.children[1].size, 10);
    assert_ne!(burst.root.children[0].color, burst.root.children[1].color);
}

#[test]
fn a_watch_measures_from_where_it_began() {
    let mut app = app_with_tree();
    app.watching(Watch::new(30, 1_000, 100));
    app.absorb_scan(entry("/root", 4_000_000, vec![]), 1_000, 100, &None);
    // The first scan is what the later ones are held against.
    assert!(app.diff.is_none());
    for (round, size) in [(1, 5_000_000), (2, 9_000_000), (3, 3_000_000)] {
        app.absorb_scan(
            entry("/root", size, vec![]),
            1_000 + 30 * round,
            100 + 30 * round,
            &None,
        );
        let diff = app.diff.as_ref().unwrap();
        assert_eq!(diff.total_delta(), size as i64 - 4_000_000);
        let watch = app.watch.as_ref().unwrap();
        assert_eq!(watch.started_at, 1_000);
        assert_eq!(watch.last_scan, 100 + 30 * round);
        assert_eq!(watch.baseline.as_ref().unwrap().allocated_size, 4_000_000);
    }
}

#[test]
fn what_was_known_is_on_screen_before_the_scan_is() {
    let mut with_history = settings();
    with_history.record_snapshots = true;
    let earlier = Store::at(at("/store")).record_at(&entry("/root", 40, vec![]), 500, 1);
    let mut app = App::new(with_history, false, Vec::new(), None);
    app.begin(at("/root"), ScanMode::Fresh, None, Some(earlier.snapshot));
    assert_eq!(app.view, View::Overview);
    assert_eq!(app.provisional, Some(500));
    assert_eq!(app.current_entry().unwrap().allocated_size, 40);
    assert!(app.scanning);

    app.absorb_scan(entry("/root", 60, vec![]), 1_000, 5, &None);
    assert_eq!(app.provisional, None);
    assert_eq!(app.current_entry().unwrap().allocated_size, 60);
}

#[test]
fn a_scan_that_was_left_behind_changes_nothing() {
    let mut app = App::new(settings(), false, Vec::new(), None);
    app.begin(at("/root"), ScanMode::Fresh, None, None);
    app.return_to_picker();
    for ended in [
        ScanEnd::Done(entry("/root", 60, vec![])),
        ScanEnd::Failed("no such directory".into()),
        ScanEnd::Panicked,
    ] {
        let asked_before = asked(&app);
        app.poll_scan(ended, 1_000, 5, &None);
        assert!(app.tree.is_none() && app.diff.is_none() && app.status.is_none());
        assert_eq!((app.view, app.selection), (View::Picker, 0));
        assert_eq!(asked(&app), asked_before);
    }

    app.begin(at("/root"), ScanMode::Fresh, None, None);
    app.poll_scan(ScanEnd::Done(entry("/root", 60, vec![])), 1_000, 5, &None);
    assert_eq!(app.view, View::Overview);
    assert_eq!(app.current_entry().unwrap().allocated_size, 60);

    app.begin(at("/root"), ScanMode::Fresh, None, None);
    app.poll_scan(ScanEnd::Panicked, 1_000, 5, &None);
    assert_eq!(app.status.as_deref(), Some("scan thread panicked"));
}

#[test]
fn rescanning_leaves_the_view_where_it_is() {
    let mut app = app_with_tree();
    app.open_selected();
    assert_eq!(app.cwd.display(), "/root/big");
    app.view = View::Explorer;
    app.requests.clear();

    press(&mut app, Key::Char('r'));
    assert!(asked(&app).contains("Refresh"), "{}", asked(&app));
    app.begin(at("/root"), ScanMode::Refresh, None, None);
    assert_eq!((app.view, app.cwd.display().as_str()), (View::Explorer, "/root/big"));
    assert_eq!(app.rows().len(), 1);

    // Asking again while it runs asks for nothing more.
    app.requests.clear();
    press(&mut app, Key::Char('r'));
    assert!(app.requests.is_empty());

    let fresh = entry(
        "/root",
        900,
        vec![entry("/root/big", 600, vec![entry("/root/big/inner", 400, vec![])])],
    );
    app.poll_scan(ScanEnd::Done(fresh), 1_000, 5, &None);
    assert_eq!((app.view, app.cwd.display().as_str()), (View::Explorer, "/root/big"));
    assert_eq!(app.current_entry().unwrap().allocated_size, 600);
}

#[test]
fn a_place_is_marked_once_or_not_at_all() {
    let mut app = app_with_tree();
    for count in [1, 0, 1] {
        press(&mut app, Key::Char(' '));
        assert_eq!(app.marks.len(), count);
    }
    press(&mut app, Key::Down);
    press(&mut app, Key::Char(' '));
    assert_eq!(app.marks.len(), 2);
    assert!(!app.marks[0].same(&app.marks[1]));
    app.apply_outcomes(vec![Outcome::Deleted {
        path: at("/root/big"),
        size: 700,
    }]);
    assert_eq!(app.marks.len(), 1);
    app.return_to_picker();
    assert!(app.marks.is_empty());
}
