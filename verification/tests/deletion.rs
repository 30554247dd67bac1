use std::collections::BTreeMap;

use disko::deletion::{
    check, freed, Chore, Deletion, DeleteProgress, Errand, OnDisk, Outcome, Refusal, Removal,
    Remover, Target,
};
use disko::path::FilePath;
use disko::scan::Cancel;
use disko::tree::EntryType;

/// A tree of files that exists only here.
struct TempTree {
    entries: BTreeMap<String, (EntryType, u64)>,
    stubborn: Vec<String>,
}

const ROOT: &str = "/tmp/delete";

impl TempTree {
    fn new() -> Self {
        let mut tree = Self {
            entries: BTreeMap::new(),
            stubborn: Vec::new(),
        };
        tree.entries
            .insert(ROOT.into(), (EntryType::Directory, 4096));
        tree
    }

    fn dir(&mut self, name: &str) -> FilePath {
        let path = format!("{ROOT}/{name}");
        self.entries
            .insert(path.clone(), (EntryType::Directory, 4096));
        FilePath::new(&path)
    }

    fn file(&mut self, name: &str, bytes: u64) -> FilePath {
        let path = format!("{ROOT}/{name}");
        self.entries.insert(path.clone(), (EntryType::File, bytes));
        FilePath::new(&path)
    }

    fn holds(&self, path: &FilePath) -> bool {
        self.entries.contains_key(&path.display())
    }

    fn look(&self, path: &FilePath) -> Option<OnDisk> {
        let (entry_type, _) = self.entries.get(&path.display())?;
        Some(OnDisk {
            is_dir: *entry_type == EntryType::Directory,
            device: 1,
            parent_device: Some(1),
        })
    }

    fn children(&self, path: &FilePath) -> Vec<Vec<u8>> {
        self.entries
            .keys()
            .filter_map(|entry| entry.strip_prefix(&path.display())?.strip_prefix('/'))
            .filter(|rest| !rest.contains('/'))
            .map(|rest| rest.as_bytes().to_vec())
            .collect()
    }

    /// Removes one path, the way the filesystem would be asked to.
    fn delete(&mut self, path: &FilePath, progress: &mut DeleteProgress, cancel: Cancel) -> Removal {
        let mut remover = Remover::new(path);
        loop {
            match remover.next(cancel) {
                Chore::Look(at) => {
                    let (entry_type, bytes) = self.entries[&at.display()];
                    remover.looked(entry_type, bytes);
                }
                Chore::List(at) => remover.listed(&self.children(&at)),
                Chore::Unlink(at) => {
                    if self.stubborn.contains(&at.display()) {
                        return Removal::Failed("permission denied".into());
                    }
                    self.entries.remove(&at.display());
                    progress.file_removed(remover.gone());
                }
                Chore::RemoveDir(at) => {
                    assert!(self.children(&at).is_empty(), "{} is not empty", at.display());
                    self.entries.remove(&at.display());
                    progress.file_removed(remover.gone());
                }
                Chore::Stop => return Removal::Interrupted,
                Chore::Done => return Removal::Gone,
            }
        }
    }

    fn delete_all(&mut self, targets: Vec<Target>, root: &str, cancel: Cancel) -> Deletion {
        let mut deletion = Deletion::new(targets, FilePath::new(root));
        loop {
            match deletion.next(cancel) {
                Errand::Look(at) => {
                    if deletion.looked(self.look(&at)) {
                        let removal = self.delete(&at, &mut deletion.progress, cancel);
                        deletion.removed(removal);
                    }
                }
                Errand::Finished => return deletion,
            }
        }
    }
}

fn target(path: FilePath, size: u64) -> Target {
    Target {
        path,
        size,
        is_dir: true,
    }
}

fn check_in(tree: &TempTree, path: &FilePath) -> Result<(), Refusal> {
    check(path, &FilePath::new(ROOT), tree.look(path))
}

#[test]
fn a_path_inside_the_scan_may_be_removed() {
    let mut tree = TempTree::new();
    let victim = tree.dir("victim");
    assert_eq!(check_in(&tree, &victim), Ok(()));
}

#[test]
fn the_scan_root_is_never_a_target() {
    let tree = TempTree::new();
    assert_eq!(
        check_in(&tree, &FilePath::new(ROOT)),
        Err(Refusal::ScanRoot)
    );
}

#[test]
fn paths_outside_the_scan_are_refused() {
    let tree = TempTree::new();
    let elsewhere = FilePath::new("/tmp/somewhere-else-entirely");
    assert_eq!(check_in(&tree, &elsewhere), Err(Refusal::OutsideScan));
}

#[test]
fn a_filesystem_root_is_refused_outright() {
    let seen = Some(OnDisk {
        is_dir: true,
        device: 1,
        parent_device: None,
    });
    assert_eq!(
        check(&FilePath::new("/"), &FilePath::new("/"), seen),
        Err(Refusal::Filesystem)
    );
}

#[test]
fn something_deleted_behind_our_back_is_refused_not_retried() {
    let tree = TempTree::new();
    let ghost = FilePath::new("/tmp/delete/never-existed");
    assert_eq!(check_in(&tree, &ghost), Err(Refusal::Missing));
}

#[test]
fn a_mount_point_is_refused() {
    let seen = Some(OnDisk {
        is_dir: true,
        device: 2,
        parent_device: Some(1),
    });
    assert_eq!(
        check(
            &FilePath::new("/tmp/delete/mounted"),
            &FilePath::new(ROOT),
            seen
        ),
        Err(Refusal::MountPoint)
    );
}

#[test]
fn deleting_a_directory_takes_its_contents() {
    let mut tree = TempTree::new();
    let victim = tree.dir("victim");
    tree.file("victim/inner.txt", 100);

    let mut progress = DeleteProgress::new(1);
    let removal = tree.delete(&victim, &mut progress, Cancel::new());
    assert!(matches!(removal, Removal::Gone));
    assert!(!tree.holds(&victim));
    assert!(!tree.holds(&FilePath::new("/tmp/delete/victim/inner.txt")));
}

#[test]
fn a_symlink_is_unlinked_rather_than_followed() {
    let mut tree = TempTree::new();
    tree.dir("precious");
    let kept = tree.file("precious/keep.txt", 10);
    let link = FilePath::new("/tmp/delete/link");
    tree.entries
        .insert(link.display(), (EntryType::Symlink, 0));

    let mut progress = DeleteProgress::new(1);
    tree.delete(&link, &mut progress, Cancel::new());

    assert!(!tree.holds(&link), "the link should be gone");
    assert!(tree.holds(&kept), "its target must not be");
}

#[test]
fn deleting_reports_what_went_and_what_did_not() {
    let mut tree = TempTree::new();
    let victim = tree.dir("victim");
    tree.file("victim/blob", 1000);
    let missing = FilePath::new("/tmp/delete/already-gone");

    let targets = vec![target(victim.duplicate(), 3000), target(missing, 99)];
    let outcomes = tree.delete_all(targets, ROOT, Cancel::new()).outcomes;

    assert!(matches!(outcomes[0], Outcome::Deleted { size: 3000, .. }));
    assert!(matches!(
        outcomes[1],
        Outcome::Refused {
            reason: Refusal::Missing,
            ..
        }
    ));
    assert_eq!(freed(&outcomes), 3000);
    assert!(!tree.holds(&victim));
    assert_eq!(outcomes[0].detail(), "deleted");
    assert!(outcomes[0].succeeded() && !outcomes[1].succeeded());
}

#[test]
fn progress_moves_while_a_big_directory_is_being_cleared() {
    let mut tree = TempTree::new();
    let victim = tree.dir("victim");
    for index in 0..25 {
        tree.file(&format!("victim/file-{index}"), 10);
    }

    let deletion = tree.delete_all(vec![target(victim, 250)], ROOT, Cancel::new());
    let progress = &deletion.progress;

    // 25 files plus the directory itself.
    assert_eq!(progress.files_removed(), 26);
    assert_eq!(progress.items_done(), 1);
    assert_eq!(progress.items_total(), 1);
    // Bytes are credited per file as they go, so the counter moves during the work rather than
    // jumping at the end.
    assert!(progress.freed() > 0);
    assert!(progress.is_finished());
}

#[test]
fn a_cancelled_deletion_stops_and_says_which_ones_it_never_reached() {
    let mut tree = TempTree::new();
    let first = tree.dir("first");
    let second = tree.dir("second");

    let targets = vec![target(first, 10), target(second.duplicate(), 10)];
    let mut cancel = Cancel::new();
    cancel.cancel();
    let outcomes = tree.delete_all(targets, ROOT, cancel).outcomes;

    assert!(outcomes.iter().all(|outcome| matches!(
        outcome,
        Outcome::Refused {
            reason: Refusal::Stopped,
            ..
        }
    )));
    assert!(
        tree.holds(&second),
        "a stopped deletion leaves the rest alone"
    );
    assert_eq!(freed(&outcomes), 0);
}

#[test]
fn a_refused_target_is_never_touched() {
    let mut tree = TempTree::new();
    tree.entries
        .insert("/other/precious".into(), (EntryType::Directory, 4096));
    let precious = FilePath::new("/other/precious");

    let outcomes = tree
        .delete_all(vec![target(precious.duplicate(), 10)], ROOT, Cancel::new())
        .outcomes;

    assert!(matches!(
        outcomes[0],
        Outcome::Refused {
            reason: Refusal::OutsideScan,
            ..
        }
    ));
    assert!(tree.holds(&precious), "a refused path must survive");
    assert_eq!(freed(&outcomes), 0);
}

#[test]
fn what_the_filesystem_refuses_is_reported_as_it_says() {
    let mut tree = TempTree::new();
    let victim = tree.file("victim", 10);
    tree.stubborn.push(victim.display());
    let outcomes = tree
        .delete_all(vec![target(victim.duplicate(), 10)], ROOT, Cancel::new())
        .outcomes;
    assert!(matches!(outcomes[0], Outcome::Failed { .. }));
    assert_eq!(outcomes[0].detail(), "permission denied");
    assert!(outcomes[0].path().same(&victim));
    assert_eq!(freed(&outcomes), 0);
}

#[test]
fn every_refusal_has_words_of_its_own() {
    let reasons = [
        Refusal::OutsideScan,
        Refusal::ScanRoot,
        Refusal::MountPoint,
        Refusal::Missing,
        Refusal::Filesystem,
        Refusal::Stopped,
    ];
    for (at, reason) in reasons.iter().enumerate() {
        for other in &reasons[..at] {
            assert_ne!(reason.describe(), other.describe());
        }
    }
}

#[test]
fn the_item_being_worked_on_is_numbered_from_one() {
    let mut tree = TempTree::new();
    let first = tree.dir("first");
    let second = tree.dir("second");
    let targets = vec![
        target(first, 1),
        target(FilePath::new("/nowhere/else"), 1),
        target(second, 1),
    ];
    let mut deletion = Deletion::new(targets, FilePath::new(ROOT));
    assert_eq!(deletion.progress.items_done(), 0);

    // Removed, refused, failed: the next one is always the next number.
    for number in 1..=3 {
        let Errand::Look(at) = deletion.next(Cancel::new()) else {
            panic!("nothing left at {number}");
        };
        assert_eq!(deletion.progress.items_done(), number);
        assert_eq!(deletion.progress.current().display(), at.display());
        if deletion.looked(tree.look(&at)) {
            assert_eq!(deletion.progress.items_done(), number);
            deletion.removed(Removal::Failed("busy".into()));
        }
        assert_eq!(deletion.progress.items_done(), number);
    }
    assert!(matches!(deletion.next(Cancel::new()), Errand::Finished));
    assert_eq!(deletion.progress.items_done(), 3);
}
