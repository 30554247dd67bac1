use disko::path::{is_plain_name, FilePath};
use disko::size::SizeKind;
use disko::tree::{DiskEntry, EntryType, ScanState, Wire};

fn dir(path: &str, size: u64, children: Vec<DiskEntry>) -> DiskEntry {
    let mut entry = DiskEntry::new(path, EntryType::Directory);
    entry.allocated_size = size;
    entry.apparent_size = size;
    entry.children = children;
    entry
}

fn tree() -> DiskEntry {
    dir(
        "/root",
        100,
        vec![
            dir("/root/a", 70, vec![dir("/root/a/deep", 65, vec![])]),
            dir("/root/b", 30, vec![dir("/root/b/deep", 10, vec![])]),
        ],
    )
}

#[test]
fn resolves_nested_paths() {
    let root = tree();
    assert_eq!(
        root.resolve(&FilePath::new("/root/a/deep")).unwrap().name(),
        "deep"
    );
    assert_eq!(root.resolve(&FilePath::new("/root")).unwrap().name(), "root");
    assert!(root.resolve(&FilePath::new("/root/missing")).is_none());
    assert!(root.resolve(&FilePath::new("/elsewhere")).is_none());
}

#[test]
fn largest_at_depth_looks_past_direct_children() {
    let root = tree();
    let largest = root.largest_at_depth(&FilePath::new("/root"), 2, 2, SizeKind::Allocated);
    let names: Vec<_> = largest
        .iter()
        .map(|(path, _)| path.display())
        .collect();
    assert_eq!(names, vec!["/root/a/deep", "/root/b/deep"]);
}

#[test]
fn largest_at_depth_falls_back_when_tree_is_shallow() {
    let root = dir("/root", 10, vec![dir("/root/a", 5, vec![])]);
    let largest = root.largest_at_depth(&FilePath::new("/root"), 3, 5, SizeKind::Allocated);
    assert_eq!(largest.len(), 1);
    assert_eq!(largest[0].1.name(), "a");
}

#[test]
fn removing_an_entry_corrects_every_ancestor() {
    let mut root = tree();
    let before = root.allocated_size;

    let removed = root.remove(&FilePath::new("/root/a/deep")).unwrap();

    assert_eq!(removed.allocated_size, 65);
    assert_eq!(root.allocated_size, before - 65);
    assert_eq!(root.child("a").unwrap().allocated_size, 70 - 65);
    assert!(root.resolve(&FilePath::new("/root/a/deep")).is_none());
}

#[test]
fn removing_a_whole_branch_takes_its_children_with_it() {
    let mut root = tree();
    let removed = root.remove(&FilePath::new("/root/a")).unwrap();

    assert_eq!(removed.children.len(), 1);
    assert_eq!(root.allocated_size, 100 - 70);
    assert!(root.child("a").is_none());
}

#[test]
fn a_tree_refuses_to_remove_itself_or_a_stranger() {
    let mut root = tree();
    assert!(root.remove(&FilePath::new("/root")).is_none());
    assert!(root.remove(&FilePath::new("/elsewhere")).is_none());
    assert!(root.remove(&FilePath::new("/root/missing")).is_none());
    assert_eq!(
        root.allocated_size, 100,
        "nothing should have been subtracted"
    );
}

#[test]
fn a_copy_without_children_keeps_every_figure() {
    let root = tree();
    let bare = root.child("a").unwrap().without_children();

    assert_eq!(bare.name_os(), b"a");
    assert_eq!(bare.allocated_size, 70);
    assert_eq!(bare.apparent_size, 70);
    assert_eq!(bare.entry_type, EntryType::Directory);
    // The subtree is what is left behind, and only the subtree.
    assert!(bare.children.is_empty());
}

/// `/root` -> `a` -> `deep.txt`, built the way a scan builds one: the root
/// with a whole path, everything under it with a name.
fn named_tree() -> DiskEntry {
    let mut root = DiskEntry::new("/root", EntryType::Directory);
    let mut a = DiskEntry::new("a", EntryType::Directory);
    let mut leaf = DiskEntry::new("deep.txt", EntryType::File);
    leaf.allocated_size = 40;
    a.allocated_size = 40;
    a.children.push(leaf);
    root.allocated_size = 40;
    root.children.push(a);
    root
}

#[test]
fn the_wire_format_still_gives_every_entry_its_full_path() {
    let wire = named_tree().to_wire(&FilePath::new("/root"));

    // Whatever leaves the program says `path`, and says it in full. Entries carry only names; the
    // output must not notice.
    assert_eq!(wire.path.display(), "/root");
    assert_eq!(wire.children[0].path.display(), "/root/a");
    assert_eq!(
        wire.children[0].children[0].path.display(),
        "/root/a/deep.txt"
    );
    assert_eq!(wire.allocated_size, 40);
    assert_eq!(wire.entry_type, EntryType::Directory);
    assert_eq!(
        wire.children[0].children[0].entry_type,
        EntryType::File
    );
}

#[test]
fn a_tree_survives_a_round_trip_through_the_wire_format() {
    let wire = named_tree().to_wire(&FilePath::new("/root"));
    let back = wire.into_entry(true);

    assert_eq!(back.root_path().display(), "/root");
    // The root got its whole path back and the rest got their names.
    assert_eq!(back.child("a").unwrap().name_os(), b"a");
    assert_eq!(
        back.resolve(&FilePath::new("/root/a/deep.txt"))
            .unwrap()
            .name(),
        "deep.txt"
    );
    assert_eq!(
        format!("{:?}", back.to_wire(&FilePath::new("/root"))),
        format!("{:?}", named_tree().to_wire(&FilePath::new("/root")))
    );
}

#[test]
fn a_snapshot_written_by_an_older_disko_still_loads() {
    // The shape of a stored tree whose entries carry whole paths, down to `modified` being absent.
    let stored = |path: &str, items: u64, children: Vec<Wire>| Wire {
        path: FilePath::new(path),
        apparent_size: 40,
        allocated_size: 40,
        entry_type: EntryType::Directory,
        items,
        modified: 0,
        children,
        scan_state: ScanState::Complete,
    };
    let tree = stored("/root", 3, vec![stored("/root/a", 2, vec![])]).into_entry(true);

    assert_eq!(tree.root_path().display(), "/root");
    assert_eq!(tree.allocated_size, 40);
    assert_eq!(tree.modified, 0);
    assert_eq!(tree.resolve(&FilePath::new("/root/a")).unwrap().items, 2);
}

#[test]
fn scan_state_degrades_to_partial() {
    let mut parent = DiskEntry::new("/p", EntryType::Directory);
    let mut denied = DiskEntry::new("/p/c", EntryType::Directory);
    denied.scan_state = ScanState::Denied;
    parent.absorb(&denied);
    assert_eq!(parent.scan_state, ScanState::Partial);
}

#[test]
fn what_was_removed_is_what_was_resolved() {
    let mut root = tree();
    let size = root.resolve(&FilePath::new("/root/b/deep")).unwrap().allocated_size;
    let items = root.items;
    let gone = root.remove(&FilePath::new("/root/b/deep")).unwrap();
    assert_eq!(gone.allocated_size, size);
    assert_eq!(root.allocated_size, 90);
    assert_eq!(root.items, items - gone.items);
    assert!(root.remove(&FilePath::new("/root/b/deep")).is_none());
}

#[test]
fn sorting_puts_the_largest_first_at_every_level() {
    let mut root = dir(
        "/root",
        100,
        vec![
            dir("b", 30, vec![dir("x", 10, vec![]), dir("y", 20, vec![])]),
            dir("a", 70, vec![]),
            dir("c", 30, vec![]),
        ],
    );
    root.sort_by_size(SizeKind::Allocated);
    let names: Vec<String> = root.children.iter().map(|child| child.name()).collect();
    // Ties go by name.
    assert_eq!(names, ["a", "b", "c"]);
    let below: Vec<String> = root.children[1].children.iter().map(|c| c.name()).collect();
    assert_eq!(below, ["y", "x"]);
}

#[test]
fn states_merge_upwards() {
    assert_eq!(
        ScanState::Complete.merge(ScanState::Complete),
        ScanState::Complete
    );
    assert_eq!(
        ScanState::Complete.merge(ScanState::Denied),
        ScanState::Partial
    );
    assert_eq!(
        ScanState::Cancelled.merge(ScanState::Complete),
        ScanState::Cancelled
    );
}

#[test]
fn names_of_entries_are_told_from_what_no_entry_is_called() {
    for name in ["a", "a.b", "...", "ünicode", ".hidden"] {
        assert!(is_plain_name(&name.as_bytes().to_vec()), "{name}");
    }
    for name in ["", ".", "..", "/", "a/b", "a/"] {
        assert!(!is_plain_name(&name.as_bytes().to_vec()), "{name}");
    }
}
