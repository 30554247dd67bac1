use std::collections::hash_map::DefaultHasher;
use std::hash::{Hash, Hasher};

use disko::history::{
    self, prune_for_storage, storage_floor, Snapshot, SnapshotId, Store, RETAIN,
    STORAGE_DEPTH,
};
use disko::path::FilePath;
use disko::tree::{DiskEntry, EntryType};

/// A snapshot store whose files are kept here rather than on a disk.
struct Shelf {
    store: Store,
    files: Vec<(FilePath, Snapshot)>,
}

impl Shelf {
    fn new() -> Self {
        Self {
            store: Store::below(&FilePath::new("/data-home")),
            files: Vec::new(),
        }
    }

    fn hash(root: &str) -> u64 {
        let mut hasher = DefaultHasher::new();
        root.hash(&mut hasher);
        hasher.finish()
    }

    fn dir(&self, root: &str) -> FilePath {
        self.store.dir_for(Self::hash(root))
    }

    fn list(&self, root: &str) -> Vec<SnapshotId> {
        let dir = self.dir(root);
        let files: Vec<FilePath> = self
            .files
            .iter()
            .map(|(file, _)| file.duplicate())
            .filter(|file| file.starts_with(&dir))
            .collect();
        Store::list(&files)
    }

    fn record_at(&mut self, tree: &DiskEntry, taken_at: u64) {
        let root = tree.root_path().display();
        let recording = self.store.record_at(tree, taken_at, Self::hash(&root));
        assert!(recording.file.starts_with(&recording.dir));
        self.files.push((recording.file, recording.snapshot));
        let list = self.list(&root);
        for stale in &list[..Store::prune(&list)] {
            self.files.retain(|(file, _)| !file.same(&stale.path));
        }
    }

    fn load(&self, id: &SnapshotId) -> &Snapshot {
        let (_, snapshot) = self
            .files
            .iter()
            .find(|(file, _)| file.same(&id.path))
            .unwrap();
        snapshot
    }

    fn latest(&self, root: &str) -> Option<&Snapshot> {
        let list = self.list(root);
        Store::latest(&list).map(|at| self.load(&list[at]))
    }

    fn latest_before(&self, root: &str, at: u64) -> Option<&Snapshot> {
        let list = self.list(root);
        Store::latest_before(&list, at).map(|at| self.load(&list[at]))
    }

    fn forget(&mut self, root: &str) {
        let dir = self.dir(root);
        self.files.retain(|(file, _)| !file.starts_with(&dir));
    }
}

fn entry(path: &str, size: u64, children: Vec<DiskEntry>) -> DiskEntry {
    let mut entry = DiskEntry::new(path, EntryType::Directory);
    entry.allocated_size = size;
    entry.apparent_size = size;
    entry.children = children;
    entry
}

#[test]
fn a_recorded_snapshot_comes_back_intact() {
    let mut store = Shelf::new();
    let tree = entry(
        "/data",
        5_000_000,
        vec![entry("/data/big", 4_000_000, vec![])],
    );

    store.record_at(&tree, 1000);
    let loaded = store.latest("/data").unwrap();

    assert_eq!(loaded.taken_at, 1000);
    assert_eq!(loaded.root.display(), "/data");
    assert_eq!(loaded.total_allocated, 5_000_000);
    assert_eq!(loaded.tree.children.len(), 1);
    assert_eq!(loaded.age(1600), 600);
    assert_eq!(loaded.floor, storage_floor(&tree));
}

#[test]
fn snapshots_of_different_roots_do_not_mix() {
    let mut store = Shelf::new();

    store.record_at(&entry("/a", 1_000_000, vec![]), 100);
    store.record_at(&entry("/b", 2_000_000, vec![]), 200);

    assert_eq!(store.list("/a").len(), 1);
    assert_eq!(store.latest("/b").unwrap().total_allocated, 2_000_000);
}

#[test]
fn latest_before_picks_the_last_snapshot_that_predates_the_cutoff() {
    let mut store = Shelf::new();
    for (at, size) in [(100u64, 1u64), (200, 2), (300, 3)] {
        store.record_at(&entry("/data", size * 1_000_000, vec![]), at);
    }

    assert_eq!(store.latest_before("/data", 250).unwrap().taken_at, 200);
    assert_eq!(store.latest_before("/data", 300).unwrap().taken_at, 300);
    // Nothing that old exists yet.
    assert!(store.latest_before("/data", 50).is_none());
}

#[test]
fn old_snapshots_are_pruned_but_the_recent_ones_survive() {
    let mut store = Shelf::new();
    for at in 1..=(RETAIN as u64 + 10) {
        store.record_at(&entry("/data", at * 1_000_000, vec![]), at);
    }

    let kept = store.list("/data");
    assert_eq!(kept.len(), RETAIN);
    assert_eq!(kept.last().unwrap().taken_at, RETAIN as u64 + 10);
}

#[test]
fn pruning_for_storage_drops_noise_and_caps_depth() {
    let mut deep = entry("/data/deep", 900_000_000, vec![]);
    for level in 0..12 {
        deep = entry(&format!("/data/level{level}"), 900_000_000, vec![deep]);
    }
    let tree = entry(
        "/data",
        1_000_000_000,
        vec![deep, entry("/data/noise", 500, vec![])],
    );

    let pruned = prune_for_storage(&tree);

    // The tiny entry is below the floor.
    assert_eq!(pruned.children.len(), 1);
    // Totals on the surviving nodes are untouched.
    assert_eq!(pruned.allocated_size, 1_000_000_000);

    let mut depth = 0;
    let mut node = &pruned;
    while let Some(child) = node.children.first() {
        depth += 1;
        node = child;
    }
    assert_eq!(depth, STORAGE_DEPTH);

    // Storing what was stored changes nothing.
    assert_eq!(
        format!("{:?}", prune_for_storage(&pruned)),
        format!("{pruned:?}")
    );
}

#[test]
fn forgetting_a_root_removes_its_snapshots() {
    let mut store = Shelf::new();
    store.record_at(&entry("/data", 1_000_000, vec![]), 1);

    store.forget("/data");
    assert!(store.list("/data").is_empty());
}

#[test]
fn an_unknown_root_has_no_history_rather_than_an_error() {
    let store = Shelf::new();

    assert!(store.list("/never-scanned").is_empty());
    assert!(store.latest("/never-scanned").is_none());
}

#[test]
fn only_files_named_for_a_moment_are_snapshots() {
    let files: Vec<FilePath> = ["/s/300.json", "/s/notes.txt", "/s/20.json", "/s/x.json"]
        .iter()
        .map(|file| FilePath::new(file))
        .collect();
    let list = Store::list(&files);
    let times: Vec<u64> = list.iter().map(|id| id.taken_at).collect();
    assert_eq!(times, [20, 300]);
}

#[test]
fn a_store_sits_below_the_data_directory() {
    let store = Store::below(&FilePath::new("/data-home"));
    assert_eq!(store.location().display(), "/data-home/disko/snapshots");
    assert_eq!(
        store.dir_for(255).display(),
        "/data-home/disko/snapshots/00000000000000ff"
    );
    assert_eq!(
        Store::at(FilePath::new("/elsewhere")).location().display(),
        "/elsewhere"
    );
}

#[test]
fn the_newest_snapshot_wins() {
    assert!(Store::is_newer(None, 5));
    assert!(Store::is_newer(Some(4), 5));
    assert!(!Store::is_newer(Some(5), 5));
    assert!(history::MIN_STORED_BYTES > 0);
}

#[test]
fn the_space_a_store_takes_is_the_sum_of_its_files() {
    assert_eq!(Store::disk_usage(&vec![]), 0);
    assert_eq!(Store::disk_usage(&vec![1_200, 34, 5_000]), 6_234);
}

#[test]
fn what_was_recorded_is_listed_under_its_moment() {
    let store = Store::below(&FilePath::new("/data-home"));
    let tree = entry("/data", 5_000_000, vec![]);
    let mut files = vec![FilePath::new("/data-home/disko/snapshots/notes.txt")];
    for taken_at in [7, 0, u64::MAX, 1_700_000_000] {
        files.push(store.record_at(&tree, taken_at, 42).file);
    }
    let list = Store::list(&files);
    let times: Vec<u64> = list.iter().map(|id| id.taken_at).collect();
    assert_eq!(times, [0, 7, 1_700_000_000, u64::MAX]);
    assert_eq!(Store::latest(&list), Some(3));
    assert_eq!(Store::latest_before(&list, 1_700_000_000), Some(2));
    assert_eq!(Store::latest_before(&list, 1_699_999_999), Some(1));
    assert_eq!(
        list[1].path.display(),
        "/data-home/disko/snapshots/000000000000002a/7.json"
    );
}

#[test]
fn recording_in_any_order_keeps_the_newest() {
    let mut store = Shelf::new();
    let many = RETAIN as u64 + 6;
    // Every moment once, far from in order.
    for step in 0..many {
        store.record_at(&entry("/data", 5_000_000, vec![]), (step * 37) % many + 1);
    }
    let times: Vec<u64> = store.list("/data").iter().map(|id| id.taken_at).collect();
    let newest: Vec<u64> = (7..=many).collect();
    assert_eq!(times, newest);
}

#[test]
fn directories_of_different_roots_are_apart() {
    let store = Store::at(FilePath::new("/store"));
    let names: Vec<String> = [0, 1, 15, 16, 255, 256, u64::MAX - 1, u64::MAX]
        .iter()
        .map(|hash| store.dir_for(*hash).display())
        .collect();
    for (at, name) in names.iter().enumerate() {
        assert!(!names[..at].contains(name), "{name}");
    }
}
