use std::collections::BTreeMap;

use disko::path::FilePath;
use disko::scan::{Cancel, FileFacts, Finished, Found, Progress, ScanOptions, Scanner, Step};
use disko::tree::{DiskEntry, EntryType, ScanState};

/// A directory tree that exists only here: what is at each path.
struct TempTree {
    entries: BTreeMap<String, FileFacts>,
    denied: Vec<String>,
    inodes: u64,
}

const ROOT: &str = "/tree";

impl TempTree {
    fn new() -> Self {
        let mut tree = Self {
            entries: BTreeMap::new(),
            denied: Vec::new(),
            inodes: 1,
        };
        tree.put(ROOT, EntryType::Directory, 4096);
        tree
    }

    fn put(&mut self, path: &str, entry_type: EntryType, length: u64) {
        self.inodes += 1;
        self.entries.insert(
            path.to_string(),
            FileFacts {
                entry_type,
                length,
                blocks: length.div_ceil(4096) * 8,
                device: 1,
                inode: self.inodes,
                links: 1,
                modified: 7,
            },
        );
    }

    fn file(&mut self, relative: &str, bytes: u64) {
        let path = format!("{ROOT}/{relative}");
        for (at, _) in path.match_indices('/').skip(2) {
            if !self.entries.contains_key(&path[..at]) {
                self.put(&path[..at], EntryType::Directory, 4096);
            }
        }
        self.put(&path, EntryType::File, bytes);
    }

    fn facts(&self, path: &str) -> FileFacts {
        self.entries[path]
    }

    fn read(&self, path: &str) -> Option<Vec<Found>> {
        if self.denied.iter().any(|denied| denied == path) {
            return None;
        }
        Some(
            self.entries
                .iter()
                .filter_map(|(entry, facts)| {
                    let rest = entry.strip_prefix(path)?.strip_prefix('/')?;
                    if rest.contains('/') {
                        return None;
                    }
                    Some(Found {
                        name: rest.as_bytes().to_vec(),
                        facts: Some(*facts),
                    })
                })
                .collect(),
        )
    }

    fn own_blocks(&self, path: &str) -> u64 {
        self.facts(path).blocks * 512
    }
}

struct Scan {
    tree: DiskEntry,
    entries: u64,
    bytes: u64,
    errors: u64,
    finished: bool,
    published: Vec<Finished>,
    published_again: usize,
}

fn scan(files: &TempTree, root: &str, options: ScanOptions, depth: usize, cancel: Cancel) -> Scan {
    scan_around(files, root, options, depth, cancel, &[])
}

fn scan_around(
    files: &TempTree,
    root: &str,
    options: ScanOptions,
    depth: usize,
    cancel: Cancel,
    remote: &[&str],
) -> Scan {
    let remote: Vec<FilePath> = remote.iter().map(|path| FilePath::new(path)).collect();
    let mut scanner = Scanner::new(
        &FilePath::new(root),
        &files.facts(root),
        options,
        &remote,
        depth,
    );
    loop {
        match scanner.next(cancel) {
            Step::Read(at) => scanner.listed(files.read(&at.display())),
            Step::Done => break,
        }
    }
    let published = scanner.progress.drain_completed();
    let published_again = scanner.progress.drain_completed().len();
    Scan {
        entries: scanner.progress.entries(),
        bytes: scanner.progress.bytes(),
        errors: scanner.progress.errors(),
        finished: scanner.progress.is_finished(),
        published,
        published_again,
        tree: scanner.into_tree().unwrap(),
    }
}

fn scan_tree(files: &TempTree, root: &str, options: ScanOptions) -> DiskEntry {
    scan(files, root, options, 0, Cancel::new()).tree
}

#[test]
fn apparent_size_is_exactly_the_sum_of_file_lengths() {
    let mut tree = TempTree::new();
    tree.file("a.txt", 1000);
    tree.file("nested/b.txt", 2000);
    tree.file("nested/deeper/c.txt", 3000);

    let root = scan_tree(&tree, ROOT, ScanOptions::default());

    // Directory inodes are bookkeeping, not content, so they do not inflate the total.
    assert_eq!(root.apparent_size, 6000);
    assert_eq!(root.scan_state, ScanState::Complete);
}

#[test]
fn allocated_size_adds_each_directory_to_what_is_underneath() {
    let mut tree = TempTree::new();
    tree.file("nested/b.txt", 2000);

    let root = scan_tree(&tree, ROOT, ScanOptions::default());
    let nested = root.child("nested").unwrap();
    let file = nested.child("b.txt").unwrap();

    // The totals accumulate upward and never lose what is below.
    assert_eq!(
        root.allocated_size,
        tree.own_blocks("/tree") + nested.allocated_size
    );
    assert_eq!(
        nested.allocated_size,
        tree.own_blocks("/tree/nested") + file.allocated_size
    );
    // A 2000-byte file always occupies whole blocks.
    assert!(file.allocated_size >= 2000);
    assert_eq!(nested.apparent_size, 2000);
}

#[test]
fn max_depth_prunes_children_but_keeps_sizes_exact() {
    let mut tree = TempTree::new();
    tree.file("nested/deeper/c.txt", 4000);

    let full = scan_tree(&tree, ROOT, ScanOptions::default());
    let mut options = ScanOptions::default();
    options.max_depth = Some(1);
    let capped = scan_tree(&tree, ROOT, options);

    assert_eq!(full.apparent_size, capped.apparent_size);
    assert_eq!(capped.children.len(), 1);
    assert!(capped.children[0].children.is_empty());
    assert!(!full.children[0].children.is_empty());
}

#[test]
fn counts_every_entry_including_directories() {
    let mut tree = TempTree::new();
    tree.file("a.txt", 10);
    tree.file("nested/b.txt", 10);

    let root = scan_tree(&tree, ROOT, ScanOptions::default());

    // root + a.txt + nested + nested/b.txt
    assert_eq!(root.items, 4);
}

#[test]
fn cancelled_scan_returns_a_partial_tree() {
    let mut tree = TempTree::new();
    tree.file("a.txt", 10);

    let mut cancel = Cancel::new();
    cancel.cancel();
    let root = scan(&tree, ROOT, ScanOptions::default(), 0, cancel).tree;

    assert_eq!(root.scan_state, ScanState::Cancelled);
    assert!(root.children.is_empty());
}

#[test]
fn completed_directories_are_published_while_the_scan_runs() {
    let mut tree = TempTree::new();
    tree.file("alpha/one.txt", 1000);
    tree.file("beta/two.txt", 2000);
    tree.file("beta/deeper/three.txt", 3000);

    let done = scan(&tree, ROOT, ScanOptions::default(), 2, Cancel::new());

    let names: Vec<String> = done
        .published
        .iter()
        .map(|done| String::from_utf8(done.path.file_name().unwrap()).unwrap())
        .collect();

    // Two levels down, and never the root itself.
    assert!(names.contains(&"alpha".to_string()), "{names:?}");
    assert!(names.contains(&"beta".to_string()), "{names:?}");
    assert!(names.contains(&"deeper".to_string()), "{names:?}");
    assert!(!names.contains(&done.tree.name()), "{names:?}");

    // Every published figure is final, not a running partial.
    let beta = done
        .published
        .iter()
        .find(|done| done.path.file_name() == Some(b"beta".to_vec()))
        .unwrap();
    assert_eq!(beta.apparent, 5000);

    // Draining twice does not repeat anything.
    assert_eq!(done.published_again, 0);
}

#[test]
fn nothing_is_published_when_nobody_is_watching() {
    let mut tree = TempTree::new();
    tree.file("alpha/one.txt", 1000);

    let done = scan(&tree, ROOT, ScanOptions::default(), 0, Cancel::new());
    assert!(done.published.is_empty());
}

#[test]
fn streaming_stops_at_the_requested_depth() {
    let mut tree = TempTree::new();
    tree.file("a/b/c/deep.txt", 100);

    let done = scan(&tree, ROOT, ScanOptions::default(), 1, Cancel::new());

    assert_eq!(done.published.len(), 1);
    assert_eq!(done.published[0].path.file_name(), Some(b"a".to_vec()));
}

#[test]
fn progress_tracks_entries_and_bytes() {
    let mut tree = TempTree::new();
    tree.file("a.txt", 1000);
    tree.file("b.txt", 1000);

    let done = scan(&tree, ROOT, ScanOptions::default(), 0, Cancel::new());

    assert_eq!(done.entries, done.tree.items);
    assert_eq!(done.bytes, done.tree.allocated_size);
    assert!(done.finished);
}

#[test]
fn counters_start_at_rest() {
    let progress = Progress::streaming(3);
    assert_eq!(progress.entries(), 0);
    assert!(!progress.is_finished());
    assert_eq!(progress.current().display(), "");
}

#[test]
fn scanning_a_single_file_yields_one_entry() {
    let mut tree = TempTree::new();
    tree.file("solo.txt", 512);

    let root = scan_tree(&tree, "/tree/solo.txt", ScanOptions::default());

    assert_eq!(root.entry_type, EntryType::File);
    assert_eq!(root.apparent_size, 512);
    assert_eq!(root.items, 1);
}

#[test]
fn hard_links_are_counted_once() {
    let mut tree = TempTree::new();
    tree.file("original.txt", 4096);
    let mut linked = tree.facts("/tree/original.txt");
    linked.links = 2;
    tree.entries.insert("/tree/original.txt".into(), linked);
    tree.entries.insert("/tree/link.txt".into(), linked);

    let deduped = scan_tree(&tree, ROOT, ScanOptions::default());
    let mut options = ScanOptions::default();
    options.dedup_hardlinks = false;
    let raw = scan_tree(&tree, ROOT, options);

    assert_eq!(raw.apparent_size - deduped.apparent_size, 4096);
    assert_eq!(deduped.items, raw.items);
}

#[test]
fn an_unreadable_folder_is_counted_as_an_error() {
    let mut tree = TempTree::new();
    tree.file("open/a.txt", 100);
    tree.file("shut/b.txt", 100);
    tree.denied.push("/tree/shut".to_string());

    let done = scan(&tree, ROOT, ScanOptions::default(), 0, Cancel::new());
    assert_eq!(done.errors, 1);
    assert_eq!(done.tree.scan_state, ScanState::Partial);
    assert_eq!(
        done.tree.child("shut").unwrap().scan_state,
        ScanState::Denied
    );
    assert_eq!(done.tree.apparent_size, 100);
}

#[test]
fn other_filesystems_and_network_mounts_are_left_alone() {
    let mut tree = TempTree::new();
    tree.file("share/far.txt", 100);
    tree.file("here.txt", 10);

    let kept = scan_around(
        &tree,
        ROOT,
        ScanOptions::default(),
        0,
        Cancel::new(),
        &["/tree/share"],
    );
    assert_eq!(kept.tree.apparent_size, 10);
    assert_eq!(
        kept.tree.child("share").unwrap().scan_state,
        ScanState::Skipped
    );

    let mut options = ScanOptions::default();
    options.skip_remote = false;
    let all = scan_around(&tree, ROOT, options, 0, Cancel::new(), &["/tree/share"]);
    assert_eq!(all.tree.apparent_size, 110);

    // A mount of another device, where only one filesystem was asked for.
    let mut other = tree.facts("/tree/share");
    other.device = 2;
    tree.entries.insert("/tree/share".into(), other);
    let mut options = ScanOptions::default();
    options.one_file_system = true;
    assert_eq!(scan_tree(&tree, ROOT, options).apparent_size, 10);
}

#[test]
fn a_name_joins_the_path_of_its_directory() {
    let joined = FilePath::new("/home/someone/code").join_name(&b"disko".to_vec());
    assert_eq!(joined.display(), "/home/someone/code/disko");
}

#[test]
fn a_network_mount_that_is_asked_for_is_scanned() {
    let mut tree = TempTree::new();
    tree.file("share/far.txt", 100);

    let asked = scan_around(
        &tree,
        "/tree/share",
        ScanOptions::default(),
        0,
        Cancel::new(),
        &["/tree/share"],
    );
    assert_eq!(asked.tree.apparent_size, 100);
    assert_eq!(asked.tree.scan_state, ScanState::Complete);
}
