//! Deleting things, carefully.
//!
//! This is the one part of the program that cannot be undone, so every path is checked against the
//! scan it came from immediately before it is removed, not when the list was drawn, which may have
//! been minutes ago.

use vstd::prelude::*;
use crate::order;
use crate::path;
use crate::path::FilePath;
use crate::scan::Cancel;
use crate::tree;
use crate::tree::EntryType;

verus! {

/// Something the user has asked to remove.
#[derive(Debug)]
pub struct Target {
    pub path: FilePath,
    pub size: u64,
    pub is_dir: bool,
}

impl Target {
    pub fn duplicate(&self) -> (copy: Target)
        ensures
            copy.path@ == self.path@,
            copy.size == self.size,
            copy.is_dir == self.is_dir,
    {
        Target { path: self.path.duplicate(), size: self.size, is_dir: self.is_dir }
    }
}

/// Why a path will not be touched.
#[derive(Copy, Clone, Debug, PartialEq, Eq, Structural)]
pub enum Refusal {
    /// Outside the tree on screen. Deleting something you are not looking at is never what was
    /// meant.
    OutsideScan,
    /// The directory the scan started from.
    ScanRoot,
    /// A mount point: removing it would not free space here, and might free a great deal somewhere
    /// else.
    MountPoint,
    /// Vanished between the scan and now.
    Missing,
    /// A path with no parent: `/` and friends.
    Filesystem,
    /// The user stopped the deletion before reaching this one.
    Stopped,
}

pub open spec fn refusal_text(reason: Refusal) -> Seq<char> {
    match reason {
        Refusal::OutsideScan => "outside the current scan"@,
        Refusal::ScanRoot => "this is the folder being scanned"@,
        Refusal::MountPoint => "this is a mount point"@,
        Refusal::Missing => "no longer exists"@,
        Refusal::Filesystem => "this is a filesystem root"@,
        Refusal::Stopped => "stopped before reaching it"@,
    }
}

impl Refusal {
    /// The reason in words.
    pub fn describe(&self) -> (text: &'static str)
        ensures
            text@ == refusal_text(*self),
    {
        match self {
            Refusal::OutsideScan => "outside the current scan",
            Refusal::ScanRoot => "this is the folder being scanned",
            Refusal::MountPoint => "this is a mount point",
            Refusal::Missing => "no longer exists",
            Refusal::Filesystem => "this is a filesystem root",
            Refusal::Stopped => "stopped before reaching it",
        }
    }
}

/// What is at a path right now. A symlink is judged as itself rather than as whatever it points at.
#[derive(Copy, Clone, Debug, PartialEq, Eq, Structural)]
pub struct OnDisk {
    pub is_dir: bool,
    pub device: u64,
    /// The device that holds the directory it is in, where that could be established.
    pub parent_device: Option<u64>,
}

/// Whether a directory is a mount point: on another device than the one that holds it. If that
/// cannot be established, the more cautious answer is assumed.
pub open spec fn is_mounted(seen: OnDisk) -> bool {
    match seen.parent_device {
        Some(above) => seen.device != above,
        None => true,
    }
}

/// Whether a path may be removed as part of a scan rooted at `root`, given what is there now.
pub open spec fn verdict(target: Seq<u8>, root: Seq<u8>, seen: Option<OnDisk>) -> Result<
    (),
    Refusal,
> {
    if path::parent(target) is None {
        Err(Refusal::Filesystem)
    } else if path::same_place(target, root) {
        Err(Refusal::ScanRoot)
    } else if !path::within(target, root) {
        Err(Refusal::OutsideScan)
    } else {
        match seen {
            None => Err(Refusal::Missing),
            Some(seen) => if seen.is_dir && is_mounted(seen) {
                Err(Refusal::MountPoint)
            } else {
                Ok(())
            },
        }
    }
}

/// Decide whether `target` may be removed as part of a scan rooted at `root`.
pub fn check(target: &FilePath, root: &FilePath, seen: Option<OnDisk>) -> (out: Result<(), Refusal>)
    ensures
        out == verdict(target@, root@, seen),
{
    if target.parent().is_none() {
        return Err(Refusal::Filesystem);
    }
    if target.same(root) {
        return Err(Refusal::ScanRoot);
    }
    if !target.starts_with(root) {
        return Err(Refusal::OutsideScan);
    }
    let seen = match seen {
        Some(seen) => seen,
        None => return Err(Refusal::Missing),
    };
    let mounted = match seen.parent_device {
        Some(above) => seen.device != above,
        None => true,
    };
    if seen.is_dir && mounted {
        return Err(Refusal::MountPoint);
    }
    Ok(())
}

/// Nothing passes the check but what lies strictly inside the scan and is there: never the scan's
/// own root, never a filesystem root, never a mount point.
pub proof fn only_what_is_inside_passes(target: Seq<u8>, root: Seq<u8>, seen: Option<OnDisk>)
    ensures
        verdict(target, root, seen) is Ok ==> {
            &&& path::within(target, root)
            &&& !path::same_place(target, root)
            &&& path::components(target).len() > path::components(root).len()
            &&& path::parent(target) is Some
            &&& seen is Some
            &&& !(seen->0.is_dir && is_mounted(seen->0))
        },
{
    if verdict(target, root, seen) is Ok {
        let (all, base) = (path::components(target), path::components(root));
        if all.len() <= base.len() {
            assert(base =~= all);
        }
    }
}

/// Live counters for a deletion that is running.
///
/// Removing 68 GB of build caches takes long enough that a screen without these looks like it has
/// hung.
#[derive(Debug)]
pub struct DeleteProgress {
    pub items_done: usize,
    pub items_total: usize,
    pub files_removed: u64,
    pub freed: u64,
    pub finished: bool,
    pub current: FilePath,
}

/// The same, as a value.
#[verifier::ext_equal]
pub struct Tally {
    pub items_done: usize,
    pub items_total: usize,
    pub files_removed: u64,
    pub freed: u64,
    pub finished: bool,
    pub current: Seq<u8>,
}

impl View for DeleteProgress {
    type V = Tally;

    open spec fn view(&self) -> Tally {
        Tally {
            items_done: self.items_done,
            items_total: self.items_total,
            files_removed: self.files_removed,
            freed: self.freed,
            finished: self.finished,
            current: self.current@,
        }
    }
}

impl DeleteProgress {
    pub fn new(total: usize) -> (progress: DeleteProgress)
        ensures
            progress@ == (Tally {
                items_done: 0,
                items_total: total,
                files_removed: 0,
                freed: 0,
                finished: false,
                current: Seq::empty(),
            }),
    {
        let progress = DeleteProgress {
            items_done: 0,
            items_total: total,
            files_removed: 0,
            freed: 0,
            finished: false,
            current: FilePath { bytes: Vec::new() },
        };
        assert(progress@.current =~= Seq::empty());
        progress
    }

    /// Which of the requested items is being worked on, 1-based; 0 before the first.
    pub fn items_done(&self) -> (count: usize)
        ensures
            count == self@.items_done,
    {
        self.items_done
    }

    pub fn items_total(&self) -> (count: usize)
        ensures
            count == self@.items_total,
    {
        self.items_total
    }

    /// Individual files and directories unlinked so far. The number that moves while one enormous
    /// directory is being cleared.
    pub fn files_removed(&self) -> (count: u64)
        ensures
            count == self@.files_removed,
    {
        self.files_removed
    }

    pub fn freed(&self) -> (bytes: u64)
        ensures
            bytes == self@.freed,
    {
        self.freed
    }

    pub fn is_finished(&self) -> (yes: bool)
        ensures
            yes == self@.finished,
    {
        self.finished
    }

    pub fn current(&self) -> (path: &FilePath)
        ensures
            path@ == self@.current,
    {
        &self.current
    }

    /// The item of this number is worked on from here on.
    pub fn start_item(&mut self, number: usize, path: &FilePath)
        ensures
            final(self)@ == (Tally { items_done: number, current: path@, ..old(self)@ }),
    {
        self.items_done = number;
        self.current = path.duplicate();
    }

    /// Bytes are credited as each file is unlinked rather than when a whole item finishes: clearing
    /// one 9 GB directory would otherwise show "freed 0 B" for the entire time it was working.
    pub fn file_removed(&mut self, bytes: u64)
        ensures
            final(self)@ == (Tally {
                files_removed: tree::wrapped(old(self)@.files_removed, 1),
                freed: tree::wrapped(old(self)@.freed, bytes),
                ..old(self)@
            }),
    {
        self.files_removed = self.files_removed.wrapping_add(1);
        self.freed = self.freed.wrapping_add(bytes);
    }

    pub fn finish(&mut self)
        ensures
            final(self)@ == (Tally { finished: true, ..old(self)@ }),
    {
        self.finished = true;
    }
}

/// What happened to one target.
#[derive(Debug)]
pub enum Outcome {
    Deleted { path: FilePath, size: u64 },
    Refused { path: FilePath, reason: Refusal },
    Failed { path: FilePath, error: String },
}

/// The same, as a value.
#[verifier::ext_equal]
pub enum Fate {
    Deleted { path: Seq<u8>, size: u64 },
    Refused { path: Seq<u8>, reason: Refusal },
    Failed { path: Seq<u8>, error: Seq<char> },
}

impl View for Outcome {
    type V = Fate;

    open spec fn view(&self) -> Fate {
        match self {
            Outcome::Deleted { path, size } => Fate::Deleted { path: path@, size: *size },
            Outcome::Refused { path, reason } => Fate::Refused { path: path@, reason: *reason },
            Outcome::Failed { path, error } => Fate::Failed { path: path@, error: error@ },
        }
    }
}

pub open spec fn fates(list: Seq<Outcome>) -> Seq<Fate> {
    list.map_values(|outcome: Outcome| outcome@)
}

pub open spec fn fate_path(fate: Fate) -> Seq<u8> {
    match fate {
        Fate::Deleted { path, .. } => path,
        Fate::Refused { path, .. } => path,
        Fate::Failed { path, .. } => path,
    }
}

pub open spec fn fate_text(fate: Fate) -> Seq<char> {
    match fate {
        Fate::Deleted { .. } => "deleted"@,
        Fate::Refused { reason, .. } => refusal_text(reason),
        Fate::Failed { error, .. } => error,
    }
}

impl Outcome {
    pub fn path(&self) -> (path: &FilePath)
        ensures
            path@ == fate_path(self@),
    {
        match self {
            Outcome::Deleted { path, .. } => path,
            Outcome::Refused { path, .. } => path,
            Outcome::Failed { path, .. } => path,
        }
    }

    pub fn succeeded(&self) -> (yes: bool)
        ensures
            yes == (self@ is Deleted),
    {
        match self {
            Outcome::Deleted { .. } => true,
            _ => false,
        }
    }

    /// Short explanation for the status bar or the details panel.
    pub fn detail(&self) -> (text: String)
        ensures
            text@ == fate_text(self@),
    {
        match self {
            Outcome::Deleted { .. } => String::from_str("deleted"),
            Outcome::Refused { reason, .. } => String::from_str(reason.describe()),
            Outcome::Failed { error, .. } => String::from_str(error.as_str()),
        }
    }
}

/// What was actually freed.
pub open spec fn total_freed(list: Seq<Fate>) -> u64
    decreases list.len(),
{
    if list.len() == 0 {
        0
    } else {
        tree::wrapped(
            total_freed(list.drop_last()),
            match list.last() {
                Fate::Deleted { size, .. } => size,
                _ => 0,
            },
        )
    }
}

/// Total actually freed.
pub fn freed(outcomes: &Vec<Outcome>) -> (bytes: u64)
    ensures
        bytes == total_freed(fates(outcomes@)),
{
    let ghost all = fates(outcomes@);
    let mut bytes: u64 = 0;
    let mut at: usize = 0;
    assert(all.take(0) =~= Seq::empty());
    while at < outcomes.len()
        invariant
            at <= outcomes.len(),
            all == fates(outcomes@),
            bytes == total_freed(all.take(at as int)),
        decreases outcomes.len() - at,
    {
        assert(all.take(at + 1).drop_last() =~= all.take(at as int));
        assert(all.take(at + 1).last() == outcomes@[at as int]@);
        let here: u64 = match &outcomes[at] {
            Outcome::Deleted { size, .. } => *size,
            _ => 0,
        };
        bytes = bytes.wrapping_add(here);
        at += 1;
    }
    assert(all.take(at as int) =~= all);
    bytes
}

/// How removing one checked path went.
#[derive(Debug)]
pub enum Removal {
    Gone,
    /// The user stopped it part-way.
    Interrupted,
    /// The filesystem would not.
    Failed(String),
}

/// A deletion of several targets, one after the other.
#[derive(Debug)]
pub struct Deletion {
    pub targets: Vec<Target>,
    pub root: FilePath,
    pub progress: DeleteProgress,
    /// What happened so far, one outcome for each target that was dealt with.
    pub outcomes: Vec<Outcome>,
}

/// The same, as a value.
#[verifier::ext_equal]
pub struct Deleting {
    pub targets: Seq<(Seq<u8>, u64, bool)>,
    pub root: Seq<u8>,
    pub progress: Tally,
    pub outcomes: Seq<Fate>,
}

impl View for Deletion {
    type V = Deleting;

    open spec fn view(&self) -> Deleting {
        Deleting {
            targets: self.targets@.map_values(
                |target: Target| (target.path@, target.size, target.is_dir),
            ),
            root: self.root@,
            progress: self.progress@,
            outcomes: fates(self.outcomes@),
        }
    }
}

/// What a deletion wants next.
#[derive(Debug)]
pub enum Errand {
    /// Look what is at this path now.
    Look(FilePath),
    /// Nothing: it is over.
    Finished,
}

impl Deletion {
    /// Whether there is an outcome for every target dealt with, and none for the others.
    pub open spec fn valid(&self) -> bool {
        self@.outcomes.len() <= self@.targets.len()
    }

    pub fn new(targets: Vec<Target>, root: FilePath) -> (deletion: Deletion)
        ensures
            deletion.valid(),
            deletion.targets == targets,
            deletion@.root == root@,
            deletion@.outcomes == Seq::<Fate>::empty(),
            deletion@.progress.items_total == targets@.len(),
            deletion@.progress.items_done == 0,
            !deletion@.progress.finished,
            deletion@.progress.freed == 0,
            deletion@.progress.files_removed == 0,
            deletion@.progress.current == Seq::<u8>::empty(),
    {
        let progress = DeleteProgress::new(targets.len());
        let deletion = Deletion { targets, root, progress, outcomes: Vec::new() };
        assert(deletion@.outcomes =~= Seq::empty());
        deletion
    }

    /// The next target to look at, which is the one being worked on from here on. A deletion that was cancelled touches nothing more, and says
    /// which ones it never reached.
    pub fn next(&mut self, cancel: Cancel) -> (errand: Errand)
        requires
            old(self).valid(),
        ensures
            final(self).valid(),
            final(self)@.targets == old(self)@.targets,
            final(self)@.root == old(self)@.root,
            ({
                let done = old(self)@.outcomes.len();
                let all = old(self)@.targets.len();
                &&& errand is Look <==> !cancel.cancelled && done < all
                &&& errand matches Errand::Look(at) ==> {
                    &&& at@ == old(self)@.targets[done as int].0
                    &&& final(self)@ == (Deleting {
                        progress: Tally {
                            items_done: (done + 1) as usize,
                            current: at@,
                            ..old(self)@.progress
                        },
                        ..old(self)@
                    })
                    &&& final(self)@.progress.items_done == done + 1
                }
                &&& errand is Finished ==> {
                    &&& final(self)@.progress == (Tally { finished: true, ..old(self)@.progress })
                    &&& final(self)@.outcomes.len() == all
                    &&& final(self)@.outcomes.take(done as int) == old(self)@.outcomes
                    &&& forall|i: int|
                        done <= i < all ==> #[trigger] final(self)@.outcomes[i] == (Fate::Refused {
                            path: old(self)@.targets[i].0,
                            reason: Refusal::Stopped,
                        })
                }
            }),
    {
        let ghost before = self@;
        let ghost done = before.outcomes.len();
        if !cancel.is_cancelled() && self.outcomes.len() < self.targets.len() {
            let at = self.targets[self.outcomes.len()].path.duplicate();
            assert(at@ == before.targets[done as int].0);
            self.progress.start_item(self.outcomes.len() + 1, &at);
            return Errand::Look(at);
        }
        while self.outcomes.len() < self.targets.len()
            invariant
                cancel.cancelled || done == before.targets.len(),
                done <= self@.outcomes.len() <= self@.targets.len(),
                self@.targets == before.targets,
                self@.root == before.root,
                self@.progress == before.progress,
                self@.outcomes.take(done as int) == before.outcomes,
                before.outcomes.len() == done,
                forall|i: int|
                    done <= i < self@.outcomes.len() ==> #[trigger] self@.outcomes[i]
                        == (Fate::Refused {
                        path: before.targets[i].0,
                        reason: Refusal::Stopped,
                    }),
            decreases self.targets.len() - self.outcomes.len(),
        {
            let ghost so_far = self@.outcomes;
            let outcome = Outcome::Refused {
                path: self.targets[self.outcomes.len()].path.duplicate(),
                reason: Refusal::Stopped,
            };
            assert(outcome@ == (Fate::Refused {
                path: before.targets[so_far.len() as int].0,
                reason: Refusal::Stopped,
            }));
            self.outcomes.push(outcome);
            assert(self@.outcomes =~= so_far.push(outcome@));
            assert(self@.outcomes.take(done as int) =~= so_far.take(done as int));
        }
        self.progress.finish();
        Errand::Finished
    }

    /// Check the target that was looked at. `true` says to remove it now; otherwise it is refused
    /// and done with.
    pub fn looked(&mut self, seen: Option<OnDisk>) -> (go: bool)
        requires
            old(self).valid(),
            old(self)@.outcomes.len() < old(self)@.targets.len(),
        ensures
            final(self).valid(),
            ({
                let target = old(self)@.targets[old(self)@.outcomes.len() as int];
                let judged = verdict(target.0, old(self)@.root, seen);
                &&& go == judged is Ok
                &&& final(self)@ == match judged {
                    Ok(_) => old(self)@,
                    Err(reason) => Deleting {
                        outcomes: old(self)@.outcomes.push(
                            Fate::Refused { path: target.0, reason },
                        ),
                        ..old(self)@
                    },
                }
            }),
    {
        let ghost before = self@;
        let index: usize = self.outcomes.len();
        assert(before.targets[index as int].0 == self.targets@[index as int].path@);
        match check(&self.targets[index].path, &self.root, seen) {
            Ok(()) => true,
            Err(reason) => {
                let outcome = Outcome::Refused {
                    path: self.targets[index].path.duplicate(),
                    reason,
                };
                self.outcomes.push(outcome);
                assert(self@.outcomes =~= before.outcomes.push(outcome@));
                false
            },
        }
    }

    /// Take in how removing the checked target went.
    pub fn removed(&mut self, removal: Removal)
        requires
            old(self).valid(),
            old(self)@.outcomes.len() < old(self)@.targets.len(),
        ensures
            final(self).valid(),
            ({
                let target = old(self)@.targets[old(self)@.outcomes.len() as int];
                final(self)@ == match removal {
                    Removal::Gone => Deleting {
                        outcomes: old(self)@.outcomes.push(
                            Fate::Deleted { path: target.0, size: target.1 },
                        ),
                        ..old(self)@
                    },
                    Removal::Interrupted => Deleting {
                        outcomes: old(self)@.outcomes.push(
                            Fate::Failed { path: target.0, error: "stopped part-way through"@ },
                        ),
                        ..old(self)@
                    },
                    Removal::Failed(error) => Deleting {
                        outcomes: old(self)@.outcomes.push(
                            Fate::Failed { path: target.0, error: error@ },
                        ),
                        ..old(self)@
                    },
                }
            }),
    {
        let ghost before = self@;
        let index: usize = self.outcomes.len();
        assert(before.targets[index as int] == (
            self.targets@[index as int].path@,
            self.targets@[index as int].size,
            self.targets@[index as int].is_dir,
        ));
        let path = self.targets[index].path.duplicate();
        let outcome = match removal {
            Removal::Gone => Outcome::Deleted { path, size: self.targets[index].size },
            Removal::Interrupted => Outcome::Failed {
                path,
                error: String::from_str("stopped part-way through"),
            },
            Removal::Failed(error) => Outcome::Failed { path, error },
        };
        self.outcomes.push(outcome);
        assert(self@.outcomes =~= before.outcomes.push(outcome@));
    }
}

/// A directory that is being cleared.
#[derive(Debug)]
pub struct Doomed {
    pub path: FilePath,
    /// What the directory itself occupies.
    pub own_bytes: u64,
    /// What is still in it, the next one last.
    pub rest: Vec<FilePath>,
}

impl View for Doomed {
    type V = (Seq<u8>, u64, Seq<Seq<u8>>);

    open spec fn view(&self) -> (Seq<u8>, u64, Seq<Seq<u8>>) {
        (self.path@, self.own_bytes, self.rest@.map_values(|path: FilePath| path@))
    }
}

/// What has to be done next to remove a path.
#[derive(Debug)]
pub enum Chore {
    /// Look what this is.
    Look(FilePath),
    /// Unlink this; it holds nothing.
    Unlink(FilePath),
    /// Say what is in this directory.
    List(FilePath),
    /// Remove this directory, which is empty now.
    RemoveDir(FilePath),
    /// Nothing: the user stopped it.
    Stop,
    /// Nothing: it is gone.
    Done,
}

/// What the one path under consideration waits for.
#[derive(Debug)]
pub enum Stage {
    /// To be looked at.
    Unknown(FilePath),
    /// To be unlinked, freeing so many bytes.
    Leaf(FilePath, u64),
    /// To be listed; the directory itself occupies so many bytes.
    Directory(FilePath, u64),
    /// Nothing is: go on with what is left.
    Idle,
}

/// Removing one path, counting entries as they go and stopping if asked.
///
/// The tree is walked and unlinked by hand rather than in a single opaque call: on a directory with
/// a hundred thousand files that is the difference between a progress counter and a frozen screen.
#[derive(Debug)]
pub struct Remover {
    pub stage: Stage,
    pub stack: Vec<Doomed>,
}

/// The path under consideration.
pub open spec fn stage_path(stage: Stage) -> Option<Seq<u8>> {
    match stage {
        Stage::Unknown(path) => Some(path@),
        Stage::Leaf(path, _) => Some(path@),
        Stage::Directory(path, _) => Some(path@),
        Stage::Idle => None,
    }
}

impl Remover {
    /// The directories being cleared.
    pub open spec fn frames(&self) -> Seq<(Seq<u8>, u64, Seq<Seq<u8>>)> {
        self.stack@.map_values(|frame: Doomed| frame@)
    }

    /// Whether everything in hand lies at or below one place.
    pub open spec fn confined(&self, place: Seq<u8>) -> bool {
        &&& stage_path(self.stage) matches Some(at) ==> path::within(at, place)
        &&& forall|i: int|
            0 <= i < self.frames().len() ==> {
                let frame = #[trigger] self.frames()[i];
                path::within(frame.0, place) && forall|k: int|
                    0 <= k < frame.2.len() ==> path::within(#[trigger] frame.2[k], place)
            }
    }

    pub fn new(target: &FilePath) -> (remover: Remover)
        ensures
            stage_path(remover.stage) == Some(target@),
            remover.stage is Unknown,
            remover.frames().len() == 0,
            remover.confined(target@),
    {
        let remover = Remover { stage: Stage::Unknown(target.duplicate()), stack: Vec::new() };
        proof {
            let own = path::components(target@);
            assert(own =~= own.subrange(0, own.len() as int));
        }
        remover
    }

    /// What has to be done next.
    pub fn next(&mut self, cancel: Cancel) -> (chore: Chore)
        ensures
            forall|place: Seq<u8>|
                old(self).confined(place) ==> #[trigger] final(self).confined(place),
            match old(self).stage {
                Stage::Unknown(at) => chore matches Chore::Look(p) && p@ == at@,
                Stage::Leaf(at, _) => chore matches Chore::Unlink(p) && p@ == at@,
                Stage::Directory(at, _) => chore matches Chore::List(p) && p@ == at@,
                Stage::Idle => if old(self).frames().len() == 0 {
                    chore is Done
                } else {
                    let top = old(self).frames().last();
                    if top.2.len() == 0 {
                        chore matches Chore::RemoveDir(p) && p@ == top.0
                    } else if cancel.cancelled {
                        chore is Stop
                    } else {
                        chore matches Chore::Look(p) && p@ == top.2.last()
                    }
                },
            },
            old(self).stage is Idle && chore is Look ==> {
                let top = old(self).frames().last();
                &&& final(self).stage is Unknown
                &&& stage_path(final(self).stage) == Some(top.2.last())
                &&& final(self).frames() == old(self).frames().drop_last().push(
                    (top.0, top.1, top.2.drop_last()),
                )
            },
            !(old(self).stage is Idle && chore is Look) ==> *final(self) == *old(self),
    {
        match &self.stage {
            Stage::Unknown(at) => return Chore::Look(at.duplicate()),
            Stage::Leaf(at, _) => return Chore::Unlink(at.duplicate()),
            Stage::Directory(at, _) => return Chore::List(at.duplicate()),
            Stage::Idle => {},
        }
        let count: usize = self.stack.len();
        if count == 0 {
            return Chore::Done;
        }
        let ghost before = *self;
        let ghost top = self.frames().last();
        assert(top == self.stack@[count - 1]@);
        if self.stack[count - 1].rest.len() == 0 {
            return Chore::RemoveDir(self.stack[count - 1].path.duplicate());
        }
        if cancel.is_cancelled() {
            return Chore::Stop;
        }
        if let Some(frame) = self.stack.pop() {
            let mut frame = frame;
            assert(before.frames()[count - 1] == frame@);
            if let Some(at) = frame.rest.pop() {
                let shown = at.duplicate();
                assert(at@ == top.2.last());
                assert(frame@.2 =~= top.2.drop_last());
                self.stack.push(frame);
                self.stage = Stage::Unknown(at);
                proof {
                    assert(self.frames() =~= before.frames().drop_last().push(
                        (top.0, top.1, top.2.drop_last()),
                    ));
                    assert forall|place: Seq<u8>| before.confined(
                        place,
                    ) implies #[trigger] self.confined(place) by {
                        assert(before.frames()[count - 1] == top);
                        assert(path::within(top.2[top.2.len() - 1], place));
                        assert forall|i: int| 0 <= i < self.frames().len() implies ({
                            let frame = #[trigger] self.frames()[i];
                            path::within(frame.0, place) && forall|k: int|
                                0 <= k < frame.2.len() ==> path::within(
                                    #[trigger] frame.2[k],
                                    place,
                                )
                        }) by {
                            let earlier = before.frames()[i];
                            if i == self.frames().len() - 1 {
                                assert(earlier == top);
                                assert forall|k: int| 0 <= k < self.frames()[i].2.len() implies
                                    path::within(#[trigger] self.frames()[i].2[k], place) by {
                                    assert(self.frames()[i].2[k] == top.2[k]);
                                }
                            } else {
                                assert(self.frames()[i] == earlier);
                            }
                        }
                    }
                }
                return Chore::Look(shown);
            }
        }
        Chore::Done
    }

    /// Take in what the path under consideration is, and what it occupies.
    ///
    /// A symlink is unlinked as itself; following one would delete whatever it happens to point at.
    pub fn looked(&mut self, entry_type: EntryType, bytes: u64)
        requires
            old(self).stage is Unknown,
        ensures
            final(self).stack == old(self).stack,
            stage_path(final(self).stage) == stage_path(old(self).stage),
            entry_type == EntryType::Directory ==> (final(self).stage matches Stage::Directory(_, b)
                && b == bytes),
            entry_type != EntryType::Directory ==> (final(self).stage matches Stage::Leaf(_, b) && b
                == bytes),
    {
        let mut stage = Stage::Idle;
        std::mem::swap(&mut stage, &mut self.stage);
        if let Stage::Unknown(at) = stage {
            self.stage = if entry_type == EntryType::Directory {
                Stage::Directory(at, bytes)
            } else {
                Stage::Leaf(at, bytes)
            };
        }
    }

    /// Take in what is in the directory that was listed.
    pub fn listed(&mut self, names: &Vec<Vec<u8>>)
        requires
            old(self).stage is Directory,
            forall|i: int| 0 <= i < names@.len() ==> path::plain_name((#[trigger] names@[i])@),
        ensures
            final(self).stage is Idle,
            forall|place: Seq<u8>|
                old(self).confined(place) ==> #[trigger] final(self).confined(place),
            final(self).frames().drop_last() == old(self).frames(),
            final(self).frames().len() == old(self).frames().len() + 1,
            old(self).stage matches Stage::Directory(at, bytes) ==> {
                let top = final(self).frames().last();
                &&& top.0 == at@
                &&& top.1 == bytes
                &&& top.2.len() == names@.len()
                &&& forall|i: int|
                    0 <= i < names@.len() ==> #[trigger] top.2[i] == path::joined(
                        at@,
                        names@[names@.len() - 1 - i]@,
                    )
            },
    {
        let ghost before = *self;
        let mut stage = Stage::Idle;
        std::mem::swap(&mut stage, &mut self.stage);
        if let Stage::Directory(at, bytes) = stage {
            let mut paths: Vec<FilePath> = Vec::new();
            let mut index: usize = 0;
            while index < names.len()
                invariant
                    index <= names.len(),
                    paths@.len() == index,
                    forall|i: int|
                        0 <= i < index ==> (#[trigger] paths@[i])@ == path::joined(
                            at@,
                            names@[i]@,
                        ),
                decreases names.len() - index,
            {
                paths.push(at.join_name(&names[index]));
                index += 1;
            }
            let rest = order::reversed(paths);
            let frame = Doomed { path: at, own_bytes: bytes, rest };
            self.stack.push(frame);
            proof {
                assert(self.frames().drop_last() =~= before.frames());
                assert(self.frames().last() == frame@);
                assert forall|place: Seq<u8>| before.confined(place) implies #[trigger] self.confined(
                    place,
                ) by {
                    assert forall|i: int| 0 <= i < self.frames().len() implies ({
                        let frame = #[trigger] self.frames()[i];
                        path::within(frame.0, place) && forall|k: int|
                            0 <= k < frame.2.len() ==> path::within(#[trigger] frame.2[k], place)
                    }) by {
                        if i < before.frames().len() {
                            assert(self.frames()[i] == before.frames()[i]);
                        } else {
                            let mine = self.frames()[i];
                            assert forall|k: int| 0 <= k < mine.2.len() implies path::within(
                                #[trigger] mine.2[k],
                                place,
                            ) by {
                                let name = names@[names@.len() - 1 - k]@;
                                assert(mine.2[k] == path::joined(at@, name));
                                path::joined_name_is_last(at@, name);
                                let (base, own, all) = (
                                    path::components(place),
                                    path::components(at@),
                                    path::components(mine.2[k]),
                                );
                                assert(base =~= all.subrange(0, base.len() as int)) by {
                                    assert(base =~= own.subrange(0, base.len() as int));
                                    assert(all =~= own.push(name));
                                    assert forall|n: int| 0 <= n < base.len() implies base[n]
                                        == all[n] by {
                                        assert(base[n] == own[n]);
                                    }
                                }
                            }
                        }
                    }
                }
            }
        }
    }

    /// Take in that what was to be unlinked or removed is gone; returns what that freed.
    pub fn gone(&mut self) -> (bytes: u64)
        requires
            old(self).stage is Leaf || (old(self).stage is Idle && old(self).frames().len() > 0
                && old(self).frames().last().2.len() == 0),
        ensures
            forall|place: Seq<u8>|
                old(self).confined(place) ==> #[trigger] final(self).confined(place),
            final(self).stage is Idle,
            old(self).stage matches Stage::Leaf(_, b) ==> bytes == b && final(self).frames()
                == old(self).frames(),
            old(self).stage is Idle ==> bytes == old(self).frames().last().1,
            old(self).stage is Idle ==> final(self).frames() == old(self).frames().drop_last(),
    {
        let ghost before = *self;
        if let Stage::Leaf(_, bytes) = &self.stage {
            let bytes: u64 = *bytes;
            self.stage = Stage::Idle;
            assert(self.frames() == before.frames());
            return bytes;
        }
        if let Some(frame) = self.stack.pop() {
            proof {
                assert(self.frames() =~= before.frames().drop_last());
                assert(before.frames().last() == frame@);
                assert forall|place: Seq<u8>| before.confined(place) implies #[trigger] self.confined(
                    place,
                ) by {
                    assert forall|i: int| 0 <= i < self.frames().len() implies ({
                        let frame = #[trigger] self.frames()[i];
                        path::within(frame.0, place) && forall|k: int|
                            0 <= k < frame.2.len() ==> path::within(#[trigger] frame.2[k], place)
                    }) by {
                        assert(self.frames()[i] == before.frames()[i]);
                    }
                }
            }
            return frame.own_bytes;
        }
        0
    }
}

} // verus!
