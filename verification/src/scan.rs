//! Scanning a directory tree, with cancellation and live progress.
//!
//! The scanner decides; whoever drives it reads the disk. It asks for one directory at a time,
//! takes in what was found there, and hands over the finished tree.

use std::collections::HashSet;
use vstd::prelude::*;
use crate::order;
use crate::path;
use crate::path::FilePath;
use crate::tree;
use crate::tree::{DiskEntry, EntryType, ScanState, Tree};

verus! {

#[derive(Copy, Clone, Debug, PartialEq, Eq)]
pub struct ScanOptions {
    /// Do not cross into other mounted filesystems.
    pub one_file_system: bool,
    /// Keep children only this many levels below the root. Sizes stay exact: deeper levels are
    /// still walked, just not retained.
    pub max_depth: Option<usize>,
    /// Count a hard-linked file once, under the first path that reaches it.
    pub dedup_hardlinks: bool,
    /// Do not walk into network filesystems. Their contents are not on this disk, and asking them
    /// one round trip at a time turns a one-second scan into a ten-minute one.
    ///
    /// A network mount named explicitly as the scan root is still scanned: asking for it is asking
    /// for it.
    pub skip_remote: bool,
}

impl Default for ScanOptions {
    fn default() -> (options: ScanOptions)
        ensures
            !options.one_file_system,
            options.max_depth is None,
            options.dedup_hardlinks,
            options.skip_remote,
    {
        ScanOptions {
            one_file_system: false,
            max_depth: None,
            dedup_hardlinks: true,
            skip_remote: true,
        }
    }
}

/// A directory that has finished being counted, published while the rest of the scan is still
/// running.
///
/// Every figure here is final for that directory: a summary is only sent once its whole subtree is
/// counted. What is shown of these is incomplete information, never wrong information.
#[derive(Debug)]
pub struct Finished {
    pub path: FilePath,
    pub allocated: u64,
    pub apparent: u64,
    pub items: u64,
}

/// A finished directory as a value.
#[verifier::ext_equal]
pub struct Summary {
    pub path: Seq<u8>,
    pub allocated: u64,
    pub apparent: u64,
    pub items: u64,
}

impl View for Finished {
    type V = Summary;

    open spec fn view(&self) -> Summary {
        Summary {
            path: self.path@,
            allocated: self.allocated,
            apparent: self.apparent,
            items: self.items,
        }
    }
}

pub open spec fn summaries(list: Seq<Finished>) -> Seq<Summary> {
    list.map_values(|done: Finished| done@)
}

/// Live counters that can be polled while a scan runs.
#[derive(Debug)]
pub struct Progress {
    pub entries: u64,
    pub bytes: u64,
    pub errors: u64,
    pub finished: bool,
    pub current: FilePath,
    /// Levels below the root that publish a summary as they complete. Zero means the caller is not
    /// watching, and nothing is queued.
    pub stream_depth: usize,
    pub completed: Vec<Finished>,
}

/// The counters as a value.
#[verifier::ext_equal]
pub struct Account {
    pub entries: u64,
    pub bytes: u64,
    pub errors: u64,
    pub finished: bool,
    pub current: Seq<u8>,
    pub stream_depth: usize,
    pub completed: Seq<Summary>,
}

impl View for Progress {
    type V = Account;

    open spec fn view(&self) -> Account {
        Account {
            entries: self.entries,
            bytes: self.bytes,
            errors: self.errors,
            finished: self.finished,
            current: self.current@,
            stream_depth: self.stream_depth,
            completed: summaries(self.completed@),
        }
    }
}

/// Counters at the start of a scan.
pub open spec fn at_rest(stream_depth: usize) -> Account {
    Account {
        entries: 0,
        bytes: 0,
        errors: 0,
        finished: false,
        current: Seq::empty(),
        stream_depth,
        completed: Seq::empty(),
    }
}

pub open spec fn with_entry(account: Account, bytes: u64) -> Account {
    Account {
        entries: tree::wrapped(account.entries, 1),
        bytes: tree::wrapped(account.bytes, bytes),
        ..account
    }
}

pub open spec fn with_error(account: Account) -> Account {
    Account { errors: tree::wrapped(account.errors, 1), ..account }
}

/// The counters once a directory `depth` levels below the root is done.
pub open spec fn published(account: Account, depth: nat, at: Seq<u8>, tree: Tree) -> Account {
    if depth == 0 || depth > account.stream_depth {
        account
    } else {
        Account {
            completed: account.completed.push(
                Summary {
                    path: at,
                    allocated: tree.allocated_size,
                    apparent: tree.apparent_size,
                    items: tree.items,
                },
            ),
            ..account
        }
    }
}

impl Progress {
    /// Publish directory summaries this many levels below the root as they finish, so that real
    /// numbers can be shown before the scan ends.
    pub fn streaming(stream_depth: usize) -> (progress: Progress)
        ensures
            progress@ == at_rest(stream_depth),
    {
        let progress = Progress {
            entries: 0,
            bytes: 0,
            errors: 0,
            finished: false,
            current: FilePath { bytes: Vec::new() },
            stream_depth,
            completed: Vec::new(),
        };
        assert(progress@ =~= at_rest(stream_depth));
        progress
    }

    /// Take everything published since the last call.
    pub fn drain_completed(&mut self) -> (out: Vec<Finished>)
        ensures
            summaries(out@) == old(self)@.completed,
            final(self)@ == (Account { completed: Seq::empty(), ..old(self)@ }),
    {
        let mut out: Vec<Finished> = Vec::new();
        std::mem::swap(&mut out, &mut self.completed);
        assert(self@.completed =~= Seq::empty());
        out
    }

    fn publish(&mut self, depth: usize, at: &FilePath, entry: &DiskEntry)
        ensures
            final(self)@ == published(old(self)@, depth as nat, at@, entry@),
    {
        if depth == 0 || depth > self.stream_depth {
            return;
        }
        let ghost before = self@;
        let done = Finished {
            path: at.duplicate(),
            allocated: entry.allocated_size,
            apparent: entry.apparent_size,
            items: entry.items,
        };
        self.completed.push(done);
        assert(self@.completed =~= before.completed.push(done@));
    }

    pub fn entries(&self) -> (count: u64)
        ensures
            count == self@.entries,
    {
        self.entries
    }

    pub fn bytes(&self) -> (count: u64)
        ensures
            count == self@.bytes,
    {
        self.bytes
    }

    /// Directories that could not be read, almost always for want of permission.
    pub fn errors(&self) -> (count: u64)
        ensures
            count == self@.errors,
    {
        self.errors
    }

    pub fn is_finished(&self) -> (yes: bool)
        ensures
            yes == self@.finished,
    {
        self.finished
    }

    pub fn current(&self) -> (path: &FilePath)
        ensures
            path@ == self@.current,
    {
        &self.current
    }

    pub fn finish(&mut self)
        ensures
            final(self)@ == (Account { finished: true, ..old(self)@ }),
    {
        self.finished = true;
    }

    fn saw_entry(&mut self, bytes: u64)
        ensures
            final(self)@ == with_entry(old(self)@, bytes),
    {
        self.entries = self.entries.wrapping_add(1);
        self.bytes = self.bytes.wrapping_add(bytes);
    }

    fn saw_error(&mut self)
        ensures
            final(self)@ == with_error(old(self)@),
    {
        self.errors = self.errors.wrapping_add(1);
    }

    fn set_current(&mut self, path: &FilePath)
        ensures
            final(self)@ == (Account { current: path@, ..old(self)@ }),
    {
        self.current = path.duplicate();
    }
}

/// A cancellation flag.
#[derive(Copy, Clone, Debug, PartialEq, Eq, Structural)]
pub struct Cancel {
    pub cancelled: bool,
}

impl Cancel {
    pub fn new() -> (flag: Cancel)
        ensures
            !flag.cancelled,
    {
        Cancel { cancelled: false }
    }

    pub fn cancel(&mut self)
        ensures
            final(self).cancelled,
    {
        self.cancelled = true;
    }

    pub fn is_cancelled(&self) -> (yes: bool)
        ensures
            yes == self.cancelled,
    {
        self.cancelled
    }
}

/// What the filesystem says of one entry.
#[derive(Copy, Clone, Debug, PartialEq, Eq, Structural)]
pub struct FileFacts {
    pub entry_type: EntryType,
    pub length: u64,
    /// In units of 512 bytes, whatever the filesystem's own block size.
    pub blocks: u64,
    pub device: u64,
    pub inode: u64,
    pub links: u64,
    /// Seconds since the Unix epoch, or zero when the filesystem will not say.
    pub modified: u64,
}

/// What an entry occupies.
pub open spec fn allocated(facts: FileFacts) -> u64 {
    ((facts.blocks * 512) % 0x1_0000_0000_0000_0000) as u64
}

/// What an entry occupies, counted as everything else is.
pub fn allocated_of(facts: &FileFacts) -> (bytes: u64)
    ensures
        bytes == allocated(*facts),
{
    facts.blocks.wrapping_mul(512)
}

/// An entry found in a directory, and what the filesystem says of it, where it would say.
#[derive(Debug)]
pub struct Found {
    pub name: Vec<u8>,
    pub facts: Option<FileFacts>,
}

/// The same, as a value.
#[verifier::ext_equal]
pub struct Sighting {
    pub name: Seq<u8>,
    pub facts: Option<FileFacts>,
}

impl View for Found {
    type V = Sighting;

    open spec fn view(&self) -> Sighting {
        Sighting { name: self.name@, facts: self.facts }
    }
}

pub open spec fn sightings(list: Seq<Found>) -> Seq<Sighting> {
    list.map_values(|found: Found| found@)
}

/// The one number that stands for a device and an inode on it.
pub open spec fn link_key(facts: FileFacts) -> u128 {
    (facts.device * 0x1_0000_0000_0000_0000 + facts.inode) as u128
}

fn link_key_of(facts: &FileFacts) -> (key: u128)
    ensures
        key == link_key(*facts),
{
    (facts.device as u128) * 0x1_0000_0000_0000_0000 + facts.inode as u128
}

/// Two files share a number only where they are the same file.
pub proof fn link_keys_are_distinct(a: FileFacts, b: FileFacts)
    ensures
        link_key(a) == link_key(b) <==> a.device == b.device && a.inode == b.inode,
{
}

/// A directory that is being counted.
#[derive(Debug)]
pub struct Frame {
    pub path: FilePath,
    pub entry: DiskEntry,
    pub children: Vec<DiskEntry>,
    /// What was found and not counted yet, the next one last.
    pub rest: Vec<Found>,
    /// Whether the directory has still to be read.
    pub reading: bool,
}

/// The same, as a value.
#[verifier::ext_equal]
pub struct Open {
    pub path: Seq<u8>,
    pub tree: Tree,
    pub children: Seq<Tree>,
    pub rest: Seq<Sighting>,
    pub reading: bool,
}

impl View for Frame {
    type V = Open;

    open spec fn view(&self) -> Open {
        Open {
            path: self.path@,
            tree: self.entry@,
            children: tree::trees(self.children@),
            rest: sightings(self.rest@),
            reading: self.reading,
        }
    }
}

/// A scan in progress.
#[derive(Debug)]
pub struct Scanner {
    pub options: ScanOptions,
    pub root_device: u64,
    /// Mount points to stop at.
    pub remote_mounts: Vec<FilePath>,
    /// The hard-linked files already counted.
    pub seen_links: HashSet<u128>,
    pub progress: Progress,
    /// The directories being counted, the root first.
    pub stack: Vec<Frame>,
    pub result: Option<DiskEntry>,
}

/// The same, as a value.
#[verifier::ext_equal]
pub struct Scanning {
    pub options: ScanOptions,
    pub root_device: u64,
    pub remote_mounts: Seq<Seq<u8>>,
    pub seen_links: Set<u128>,
    pub progress: Account,
    pub stack: Seq<Open>,
    pub result: Option<Tree>,
}

impl View for Scanner {
    type V = Scanning;

    open spec fn view(&self) -> Scanning {
        Scanning {
            options: self.options,
            root_device: self.root_device,
            remote_mounts: self.remote_mounts@.map_values(|path: FilePath| path@),
            seen_links: self.seen_links@,
            progress: self.progress@,
            stack: self.stack@.map_values(|frame: Frame| frame@),
            result: match self.result {
                Some(entry) => Some(entry@),
                None => None,
            },
        }
    }
}

/// What a leaf is counted as. A hard link seen a second time contributes nothing: the blocks were
/// already counted under the path that reached it first.
pub open spec fn leaf(name: Seq<u8>, facts: FileFacts, counted_already: bool) -> Tree {
    let bare = Tree { modified: facts.modified, ..tree::fresh(name, facts.entry_type) };
    if counted_already {
        bare
    } else {
        Tree { apparent_size: facts.length, allocated_size: allocated(facts), ..bare }
    }
}

/// Whether a file is one that has been counted under another name.
pub open spec fn is_repeat(s: Scanning, facts: FileFacts) -> bool {
    s.options.dedup_hardlinks && facts.links > 1 && s.seen_links.contains(link_key(facts))
}

/// The scan once a leaf has been seen: its account and the links it knows.
pub open spec fn saw_leaf(s: Scanning, facts: FileFacts) -> Scanning {
    Scanning {
        seen_links: if s.options.dedup_hardlinks && facts.links > 1 {
            s.seen_links.insert(link_key(facts))
        } else {
            s.seen_links
        },
        progress: with_entry(
            s.progress,
            if is_repeat(s, facts) {
                0
            } else {
                allocated(facts)
            },
        ),
        ..s
    }
}

/// A directory before anything in it is counted.
///
/// A directory's own inode occupies blocks, which is why `du` on an empty tree is not zero. Its
/// length is bookkeeping rather than content, so it stays out of the apparent total.
pub open spec fn bare_directory(name: Seq<u8>, facts: FileFacts) -> Tree {
    Tree {
        allocated_size: allocated(facts),
        modified: facts.modified,
        ..tree::fresh(name, EntryType::Directory)
    }
}

/// A directory that is not walked into.
pub open spec fn skipped(name: Seq<u8>, facts: FileFacts) -> Tree {
    Tree {
        modified: facts.modified,
        scan_state: ScanState::Skipped,
        ..tree::fresh(name, EntryType::Directory)
    }
}

/// Whether a directory is one not to walk into: on another filesystem where that was ruled out, or
/// a network mount.
pub open spec fn is_off_limits(s: Scanning, at: Seq<u8>, facts: FileFacts) -> bool {
    ||| s.options.one_file_system && facts.device != s.root_device
    ||| exists|i: int|
        0 <= i < s.remote_mounts.len() && path::same_place(#[trigger] s.remote_mounts[i], at)
}

/// The scan with one more directory to be read.
pub open spec fn opened(s: Scanning, at: Seq<u8>, name: Seq<u8>, facts: FileFacts) -> Scanning {
    Scanning {
        progress: with_entry(s.progress, allocated(facts)),
        stack: s.stack.push(
            Open {
                path: at,
                tree: bare_directory(name, facts),
                children: Seq::empty(),
                rest: Seq::empty(),
                reading: true,
            },
        ),
        ..s
    }
}

/// The scan with a finished entry handed to the directory that holds it, or, for the root, as the
/// result.
pub open spec fn delivered(s: Scanning, tree: Tree) -> Scanning {
    if s.stack.len() == 0 {
        Scanning {
            result: Some(tree),
            progress: Account { finished: true, ..s.progress },
            ..s
        }
    } else {
        let top = s.stack.last();
        Scanning {
            stack: s.stack.drop_last().push(Open { children: top.children.push(tree), ..top }),
            ..s
        }
    }
}

/// A directory with all its children's totals rolled in.
pub open spec fn absorb_all(tree: Tree, children: Seq<Tree>) -> Tree
    decreases children.len(),
{
    if children.len() == 0 {
        tree
    } else {
        tree::absorbed(absorb_all(tree, children.drop_last()), children.last())
    }
}

/// Whether the children of a directory that deep are kept.
pub open spec fn keeps(options: ScanOptions, depth: nat) -> bool {
    match options.max_depth {
        None => true,
        Some(max) => depth < max,
    }
}

/// A directory once everything in it is counted.
pub open spec fn closed(options: ScanOptions, depth: nat, top: Open) -> Tree {
    let whole = absorb_all(top.tree, top.children);
    if keeps(options, depth) {
        Tree { children: top.children, ..whole }
    } else {
        whole
    }
}

/// The scan one entry further: the next thing found in the innermost directory is counted, or the
/// directory is closed where nothing is left.
pub open spec fn ticked(s: Scanning) -> Scanning
    recommends
        s.stack.len() > 0,
        !s.stack.last().reading,
{
    let top = s.stack.last();
    let below = s.stack.drop_last();
    if top.rest.len() == 0 {
        let tree = closed(s.options, below.len(), top);
        delivered(
            Scanning {
                stack: below,
                progress: published(s.progress, below.len(), top.path, tree),
                ..s
            },
            tree,
        )
    } else {
        let next = top.rest.last();
        let at = path::joined(top.path, next.name);
        let rest = Scanning {
            stack: below.push(Open { rest: top.rest.drop_last(), ..top }),
            ..s
        };
        match next.facts {
            None => Scanning { progress: with_error(rest.progress), ..rest },
            Some(facts) => if facts.entry_type != EntryType::Directory {
                delivered(saw_leaf(rest, facts), leaf(next.name, facts, is_repeat(rest, facts)))
            } else if is_off_limits(rest, at, facts) {
                delivered(rest, skipped(next.name, facts))
            } else {
                opened(rest, at, next.name, facts)
            },
        }
    }
}

/// The scan with the directory that was to be read given up in a state.
pub open spec fn given_up(s: Scanning, state: ScanState) -> Scanning {
    let top = s.stack.last();
    delivered(
        Scanning { stack: s.stack.drop_last(), ..s },
        Tree { scan_state: state, ..top.tree },
    )
}

/// How much is left to do without reading any more of the disk.
pub open spec fn work_left(stack: Seq<Open>) -> nat
    decreases stack.len(),
{
    if stack.len() == 0 {
        0
    } else {
        work_left(stack.drop_last()) + 3 * stack.last().rest.len() + (if stack.last().reading {
            2nat
        } else {
            1nat
        })
    }
}

/// The scan as far as it gets without reading any more of the disk, giving up what would have to
/// be read where it was cancelled.
pub open spec fn settled(s: Scanning, cancelled: bool) -> Scanning
    decreases work_left(s.stack),
{
    if s.stack.len() == 0 {
        s
    } else if s.stack.last().reading {
        if cancelled {
            proof {
                giving_up_is_progress(s, ScanState::Cancelled);
            }
            settled(given_up(s, ScanState::Cancelled), cancelled)
        } else {
            s
        }
    } else {
        proof {
            ticking_is_progress(s);
        }
        settled(ticked(s), cancelled)
    }
}

/// The scan waiting for the directory it wants read next, or done.
pub open spec fn awaiting(s: Scanning, cancelled: bool) -> Scanning {
    let rest = settled(s, cancelled);
    if rest.stack.len() == 0 {
        rest
    } else {
        Scanning {
            progress: Account { current: rest.stack.last().path, ..rest.progress },
            ..rest
        }
    }
}

/// The scan told what is in the directory that it waits for, or that it could not be read.
pub open spec fn answered(s: Scanning, listing: Option<Seq<Sighting>>) -> Scanning {
    match listing {
        None => given_up(
            Scanning { progress: with_error(s.progress), ..s },
            ScanState::Denied,
        ),
        Some(list) => Scanning {
            stack: s.stack.drop_last().push(
                Open { rest: list.reverse(), reading: false, ..s.stack.last() },
            ),
            ..s
        },
    }
}

/// A scan after so many directories were read from a disk that does not change meanwhile.
pub open spec fn after_reading(
    s: Scanning,
    disk: spec_fn(Seq<u8>) -> Option<Seq<Sighting>>,
    reads: nat,
) -> Scanning
    decreases reads,
{
    if reads == 0 {
        awaiting(s, false)
    } else {
        let before = after_reading(s, disk, (reads - 1) as nat);
        if before.stack.len() == 0 {
            before
        } else {
            awaiting(answered(before, disk(before.stack.last().path)), false)
        }
    }
}

pub proof fn giving_up_is_progress(s: Scanning, state: ScanState)
    requires
        s.stack.len() > 0,
    ensures
        work_left(given_up(s, state).stack) < work_left(s.stack),
{
    delivering_adds_no_work(
        Scanning { stack: s.stack.drop_last(), ..s },
        Tree { scan_state: state, ..s.stack.last().tree },
    );
}

proof fn delivering_adds_no_work(s: Scanning, tree: Tree)
    ensures
        work_left(delivered(s, tree).stack) == work_left(s.stack),
{
    if s.stack.len() > 0 {
        assert(delivered(s, tree).stack.drop_last() =~= s.stack.drop_last());
    }
}

pub proof fn ticking_is_progress(s: Scanning)
    requires
        s.stack.len() > 0,
        !s.stack.last().reading,
    ensures
        work_left(ticked(s).stack) < work_left(s.stack),
{
    let top = s.stack.last();
    let below = s.stack.drop_last();
    if top.rest.len() == 0 {
        let tree = closed(s.options, below.len(), top);
        delivering_adds_no_work(
            Scanning {
                stack: below,
                progress: published(s.progress, below.len(), top.path, tree),
                ..s
            },
            tree,
        );
    } else {
        let next = top.rest.last();
        let at = path::joined(top.path, next.name);
        let rest = Scanning {
            stack: below.push(Open { rest: top.rest.drop_last(), ..top }),
            ..s
        };
        assert(rest.stack.drop_last() =~= below);
        assert(work_left(rest.stack) == work_left(below) + 3 * (top.rest.len() - 1) + 1);
        match next.facts {
            None => {},
            Some(facts) => {
                if facts.entry_type != EntryType::Directory {
                    delivering_adds_no_work(
                        saw_leaf(rest, facts),
                        leaf(next.name, facts, is_repeat(rest, facts)),
                    );
                } else if is_off_limits(rest, at, facts) {
                    delivering_adds_no_work(rest, skipped(next.name, facts));
                } else {
                    let out = opened(rest, at, next.name, facts);
                    assert(out.stack.drop_last() =~= rest.stack);
                    assert(out.stack.last().rest.len() == 0);
                    assert(work_left(out.stack) == work_left(rest.stack) + 2);
                }
            },
        }
    }
}

/// A scan at its start.
pub open spec fn started(
    root: Seq<u8>,
    facts: FileFacts,
    options: ScanOptions,
    remote_mounts: Seq<Seq<u8>>,
    stream_depth: usize,
) -> Scanning {
    let idle = Scanning {
        options,
        root_device: facts.device,
        remote_mounts: if options.skip_remote {
            other_places(remote_mounts, root)
        } else {
            Seq::empty()
        },
        seen_links: Set::empty(),
        progress: at_rest(stream_depth),
        stack: Seq::empty(),
        result: None,
    };
    if facts.entry_type == EntryType::Directory {
        opened(idle, root, root, facts)
    } else {
        delivered(saw_leaf(idle, facts), leaf(root, facts, is_repeat(idle, facts)))
    }
}

/// Some places without one of them.
pub open spec fn other_places(places: Seq<Seq<u8>>, one: Seq<u8>) -> Seq<Seq<u8>>
    decreases places.len(),
{
    if places.len() == 0 {
        Seq::empty()
    } else {
        let before = other_places(places.drop_last(), one);
        if path::same_place(places.last(), one) {
            before
        } else {
            before.push(places.last())
        }
    }
}

/// What the scanner wants next.
#[derive(Debug)]
pub enum Step {
    /// Read this directory, and say what is in it.
    Read(FilePath),
    /// Nothing: the scan is done.
    Done,
}

impl Scanner {
    /// A scan of `root`, of which the filesystem says `facts`. It stays out of `remote_mounts`,
    /// where that is asked for, unless `root` is one of them: scanning a network mount on purpose
    /// is allowed; wandering into one by accident is what this guards against.
    pub fn new(
        root: &FilePath,
        facts: &FileFacts,
        options: ScanOptions,
        remote_mounts: &Vec<FilePath>,
        stream_depth: usize,
    ) -> (scanner: Scanner)
        ensures
            scanner@ == started(
                root@,
                *facts,
                options,
                remote_mounts@.map_values(|path: FilePath| path@),
                stream_depth,
            ),
    {
        broadcast use vstd::std_specs::hash::group_hash_axioms;

        let mut mounts: Vec<FilePath> = Vec::new();
        let ghost value = |path: FilePath| path@;
        let ghost all = remote_mounts@.map_values(value);
        if options.skip_remote {
            let mut at: usize = 0;
            assert(mounts@.map_values(value) =~= other_places(all.take(0), root@));
            while at < remote_mounts.len()
                invariant
                    at <= remote_mounts.len(),
                    value == (|path: FilePath| path@),
                    all == remote_mounts@.map_values(value),
                    mounts@.map_values(value) == other_places(all.take(at as int), root@),
                decreases remote_mounts.len() - at,
            {
                let ghost upto = all.take(at + 1);
                let ghost before = mounts@;
                assert(upto.drop_last() =~= all.take(at as int));
                assert(upto.last() == remote_mounts@[at as int]@);
                if !remote_mounts[at].same(root) {
                    let mount = remote_mounts[at].duplicate();
                    mounts.push(mount);
                    assert(mounts@.map_values(value) =~= before.map_values(value).push(mount@));
                }
                at += 1;
            }
            assert(all.take(at as int) =~= all);
        }
        let mut scanner = Scanner {
            options,
            root_device: facts.device,
            remote_mounts: mounts,
            seen_links: HashSet::new(),
            progress: Progress::streaming(stream_depth),
            stack: Vec::new(),
            result: None,
        };
        assert(scanner@.stack =~= Seq::empty());
        assert(!options.skip_remote ==> scanner@.remote_mounts =~= Seq::empty());
        if facts.entry_type == EntryType::Directory {
            let name = path::copy_range(&root.bytes, 0, root.bytes.len());
            scanner.open(root.duplicate(), name, facts);
        } else {
            let name = path::copy_range(&root.bytes, 0, root.bytes.len());
            let entry = scanner.leaf_entry(name, facts);
            scanner.deliver(entry);
        }
        scanner
    }

    fn is_remote_mount(&self, at: &FilePath) -> (yes: bool)
        ensures
            yes == exists|i: int|
                0 <= i < self@.remote_mounts.len() && path::same_place(
                    #[trigger] self@.remote_mounts[i],
                    at@,
                ),
    {
        let mut index: usize = 0;
        while index < self.remote_mounts.len()
            invariant
                index <= self.remote_mounts.len(),
                forall|i: int|
                    0 <= i < index ==> !path::same_place(#[trigger] self@.remote_mounts[i], at@),
            decreases self.remote_mounts.len() - index,
        {
            assert(self@.remote_mounts[index as int] == self.remote_mounts@[index as int]@);
            if self.remote_mounts[index].same(at) {
                return true;
            }
            index += 1;
        }
        false
    }

    fn open(&mut self, at: FilePath, name: Vec<u8>, facts: &FileFacts)
        ensures
            final(self)@ == opened(old(self)@, at@, name@, *facts),
    {
        let ghost before = self@;
        let mut entry = DiskEntry::named(name, EntryType::Directory);
        entry.allocated_size = allocated_of(facts);
        entry.modified = facts.modified;
        assert(entry@.children =~= Seq::empty());
        assert(entry@ =~= bare_directory(name@, *facts));
        self.progress.saw_entry(entry.allocated_size);
        let frame = Frame {
            path: at,
            entry,
            children: Vec::new(),
            rest: Vec::new(),
            reading: true,
        };
        assert(frame@.children =~= Seq::empty());
        assert(frame@.rest =~= Seq::empty());
        self.stack.push(frame);
        assert(self@.stack =~= before.stack.push(frame@));
    }

    /// A file, a link or anything else that holds nothing.
    fn leaf_entry(&mut self, name: Vec<u8>, facts: &FileFacts) -> (entry: DiskEntry)
        ensures
            final(self)@ == saw_leaf(old(self)@, *facts),
            entry@ == leaf(name@, *facts, is_repeat(old(self)@, *facts)),
    {
        broadcast use vstd::std_specs::hash::group_hash_axioms;

        let ghost before = self@;
        let mut entry = DiskEntry::named(name, facts.entry_type);
        entry.modified = facts.modified;
        assert(entry@.children =~= Seq::empty());
        if self.options.dedup_hardlinks && facts.links > 1 && !self.seen_links.insert(
            link_key_of(facts),
        ) {
            assert(self@.seen_links =~= before.seen_links.insert(link_key(*facts)));
            self.progress.saw_entry(0);
            assert(entry@ =~= leaf(name@, *facts, true));
            return entry;
        }
        entry.apparent_size = facts.length;
        entry.allocated_size = allocated_of(facts);
        assert(entry@.children =~= Seq::empty());
        self.progress.saw_entry(entry.allocated_size);
        assert(entry@ =~= leaf(name@, *facts, false));
        entry
    }

    /// Hand a finished entry to the directory that holds it.
    fn deliver(&mut self, entry: DiskEntry)
        ensures
            final(self)@ == delivered(old(self)@, entry@),
    {
        let ghost before = self@;
        match self.stack.pop() {
            None => {
                self.result = Some(entry);
                self.progress.finish();
                assert(self@.stack =~= before.stack);
            },
            Some(frame) => {
                let ghost top = frame@;
                assert(top == before.stack.last());
                assert(self@.stack =~= before.stack.drop_last());
                let mut frame = frame;
                frame.children.push(entry);
                assert(frame@.children =~= top.children.push(entry@));
                assert(frame@ =~= Open { children: top.children.push(entry@), ..top });
                self.stack.push(frame);
                assert(self@.stack =~= before.stack.drop_last().push(frame@));
            },
        }
    }

    /// Count the next thing found in the innermost directory, or close it.
    fn tick(&mut self)
        requires
            old(self)@.stack.len() > 0,
            !old(self)@.stack.last().reading,
        ensures
            final(self)@ == ticked(old(self)@),
    {
        let ghost before = self@;
        let frame = match self.stack.pop() {
            Some(frame) => frame,
            None => return,
        };
        let ghost top = before.stack.last();
        assert(frame@ == top);
        assert(self@.stack =~= before.stack.drop_last());
        let mut frame = frame;
        match frame.rest.pop() {
            None => {
                let depth: usize = self.stack.len();
                let (at, entry) = close_frame(frame, self.options, depth);
                self.progress.publish(depth, &at, &entry);
                self.deliver(entry);
            },
            Some(found) => {
                assert(found@ == top.rest.last());
                assert(frame@.rest =~= top.rest.drop_last());
                assert(frame@ =~= Open { rest: top.rest.drop_last(), ..top });
                let at = frame.path.join_name(&found.name);
                self.stack.push(frame);
                assert(self@.stack =~= before.stack.drop_last().push(frame@));
                match found.facts {
                    None => {
                        self.progress.saw_error();
                    },
                    Some(facts) => {
                        if facts.entry_type != EntryType::Directory {
                            let entry = self.leaf_entry(found.name, &facts);
                            self.deliver(entry);
                        } else if (self.options.one_file_system && facts.device
                            != self.root_device) || self.is_remote_mount(&at) {
                            let mut entry = DiskEntry::named(found.name, EntryType::Directory);
                            entry.modified = facts.modified;
                            entry.scan_state = ScanState::Skipped;
                            assert(entry@.children =~= Seq::empty());
                            assert(entry@ =~= skipped(found@.name, facts));
                            self.deliver(entry);
                        } else {
                            self.open(at, found.name, &facts);
                        }
                    },
                }
            },
        }
    }

    /// Give up the directory that was to be read.
    fn give_up(&mut self, state: ScanState)
        requires
            old(self)@.stack.len() > 0,
        ensures
            final(self)@ == given_up(old(self)@, state),
    {
        let ghost before = self@;
        if let Some(frame) = self.stack.pop() {
            assert(frame@ == before.stack.last());
            assert(self@.stack =~= before.stack.drop_last());
            let mut entry = frame.entry;
            let ghost whole = entry@;
            entry.scan_state = state;
            assert(entry@.children =~= whole.children);
            assert(entry@ =~= Tree { scan_state: state, ..whole });
            self.deliver(entry);
        }
    }

    /// Count what can be counted, and say which directory to read next. Where the scan was
    /// cancelled, nothing more is read.
    pub fn next(&mut self, cancel: Cancel) -> (step: Step)
        ensures
            final(self)@ == awaiting(old(self)@, cancel.cancelled),
            step is Done <==> final(self)@.stack.len() == 0,
            step matches Step::Read(at) ==> at@ == final(self)@.stack.last().path
                && final(self)@.stack.last().reading,
    {
        let ghost goal = settled(self@, cancel.cancelled);
        while self.stack.len() > 0
            invariant
                goal == settled(old(self)@, cancel.cancelled),
                goal == settled(self@, cancel.cancelled),
                self@.stack.len() == self.stack@.len(),
            decreases work_left(self@.stack),
        {
            let last: usize = self.stack.len() - 1;
            assert(self@.stack.last() == self.stack@[last as int]@);
            if self.stack[last].reading {
                if cancel.is_cancelled() {
                    proof {
                        giving_up_is_progress(self@, ScanState::Cancelled);
                    }
                    self.give_up(ScanState::Cancelled);
                } else {
                    let at = self.stack[last].path.duplicate();
                    self.progress.set_current(&at);
                    return Step::Read(at);
                }
            } else {
                proof {
                    ticking_is_progress(self@);
                }
                self.tick();
            }
        }
        Step::Done
    }

    /// Take in what was found in the directory that was asked for, or that it could not be read.
    pub fn listed(&mut self, listing: Option<Vec<Found>>)
        requires
            old(self)@.stack.len() > 0,
            old(self)@.stack.last().reading,
        ensures
            final(self)@ == answered(
                old(self)@,
                match listing {
                    None => None,
                    Some(list) => Some(sightings(list@)),
                },
            ),
    {
        let ghost before = self@;
        match listing {
            None => {
                self.progress.saw_error();
                self.give_up(ScanState::Denied);
            },
            Some(list) => {
                let ghost whole = list@;
                let rest = order::reversed(list);
                if let Some(frame) = self.stack.pop() {
                    let ghost top = frame@;
                    assert(top == before.stack.last());
                    assert(self@.stack =~= before.stack.drop_last());
                    let mut frame = frame;
                    frame.rest = rest;
                    frame.reading = false;
                    assert(frame@.rest =~= sightings(whole).reverse());
                    assert(frame@ =~= Open {
                        rest: sightings(whole).reverse(),
                        reading: false,
                        ..top
                    });
                    self.stack.push(frame);
                    assert(self@.stack =~= before.stack.drop_last().push(frame@));
                }
            },
        }
    }

    /// The finished tree, once there is one.
    pub fn into_tree(self) -> (tree: Option<DiskEntry>)
        ensures
            tree is Some <==> self@.result is Some,
            tree matches Some(entry) ==> Some(entry@) == self@.result,
    {
        self.result
    }
}

/// A directory with everything in it counted.
///
/// Children past the depth limit are dropped as the walk unwinds rather than at the end, so a
/// capped scan of `/` never holds the whole tree at once.
fn close_frame(frame: Frame, options: ScanOptions, depth: usize) -> (out: (FilePath, DiskEntry))
    ensures
        out.0@ == frame@.path,
        out.1@ == closed(options, depth as nat, frame@),
{
    let ghost top = frame@;
    let mut entry = frame.entry;
    let children = frame.children;
    let mut at: usize = 0;
    assert(top.children.take(0) =~= Seq::empty());
    while at < children.len()
        invariant
            at <= children.len(),
            top.children == tree::trees(children@),
            entry@ == absorb_all(top.tree, top.children.take(at as int)),
        decreases children.len() - at,
    {
        let ghost upto = top.children.take(at + 1);
        assert(upto.drop_last() =~= top.children.take(at as int));
        assert(upto.last() == children@[at as int]@);
        entry.absorb(&children[at]);
        at += 1;
    }
    assert(top.children.take(at as int) =~= top.children);
    let keep = match options.max_depth {
        None => true,
        Some(max) => depth < max,
    };
    if keep {
        let ghost whole = entry@;
        entry.children = children;
        proof {
            tree::children_are_trees(&entry);
            assert(entry@ =~= Tree { children: top.children, ..whole });
        }
    }
    (frame.path, entry)
}

/// One of the two figures that the counters keep: bytes allocated, or entries.
pub open spec fn figure(tree: Tree, bytes: bool) -> u64 {
    if bytes {
        tree.allocated_size
    } else {
        tree.items
    }
}

pub open spec fn counter(account: Account, bytes: bool) -> u64 {
    if bytes {
        account.bytes
    } else {
        account.entries
    }
}

/// What some finished entries come to.
pub open spec fn figures_in(children: Seq<Tree>, bytes: bool) -> u64
    decreases children.len(),
{
    if children.len() == 0 {
        0
    } else {
        tree::wrapped(figures_in(children.drop_last(), bytes), figure(children.last(), bytes))
    }
}

/// What the directories being counted come to so far.
pub open spec fn figures_held(stack: Seq<Open>, bytes: bool) -> u64
    decreases stack.len(),
{
    if stack.len() == 0 {
        0
    } else {
        tree::wrapped(
            figures_held(stack.drop_last(), bytes),
            tree::wrapped(
                figure(stack.last().tree, bytes),
                figures_in(stack.last().children, bytes),
            ),
        )
    }
}

/// Whether the live counter says exactly what has been counted: in the directories still open, and
/// in the result once there is one.
pub open spec fn balanced(s: Scanning, bytes: bool) -> bool {
    &&& counter(s.progress, bytes) == tree::wrapped(
        figures_held(s.stack, bytes),
        match s.result {
            Some(tree) => figure(tree, bytes),
            None => 0,
        },
    )
    &&& s.stack.len() > 0 ==> s.result is None
}

/// Whether the scan walks into everything it finds.
pub open spec fn walks_everywhere(s: Scanning) -> bool {
    !s.options.one_file_system && s.remote_mounts.len() == 0
}

proof fn absorbing_adds_up(tree: Tree, children: Seq<Tree>, bytes: bool)
    ensures
        figure(absorb_all(tree, children), bytes) == tree::wrapped(
            figure(tree, bytes),
            figures_in(children, bytes),
        ),
    decreases children.len(),
{
    if children.len() > 0 {
        absorbing_adds_up(tree, children.drop_last(), bytes);
    }
}

proof fn delivery_balances(s: Scanning, tree: Tree, bytes: bool)
    requires
        s.result is None,
        counter(s.progress, bytes) == tree::wrapped(
            figures_held(s.stack, bytes),
            figure(tree, bytes),
        ),
    ensures
        balanced(delivered(s, tree), bytes),
{
    if s.stack.len() > 0 {
        let top = s.stack.last();
        let grown = top.children.push(tree);
        assert(grown.drop_last() =~= top.children);
        assert(delivered(s, tree).stack.drop_last() =~= s.stack.drop_last());
        assert(delivered(s, tree).stack.last().children == grown);
        assert(figures_in(grown, bytes) == tree::wrapped(
            figures_in(top.children, bytes),
            figure(tree, bytes),
        ));
    } else {
        assert(figures_held(s.stack, bytes) == 0);
    }
}

proof fn opening_balances(s: Scanning, at: Seq<u8>, name: Seq<u8>, facts: FileFacts, bytes: bool)
    requires
        balanced(s, bytes),
        s.result is None,
    ensures
        balanced(opened(s, at, name, facts), bytes),
{
    let out = opened(s, at, name, facts);
    assert(out.stack.drop_last() =~= s.stack);
    assert(figures_in(out.stack.last().children, bytes) == 0);
}

/// Every step of a scan keeps the live counters true: the bytes always, and the entries where
/// nothing is left out of the walk.
pub proof fn every_step_balances(s: Scanning, bytes: bool)
    requires
        s.stack.len() > 0,
        !s.stack.last().reading,
        balanced(s, bytes),
        bytes || walks_everywhere(s),
    ensures
        balanced(ticked(s), bytes),
        walks_everywhere(s) ==> walks_everywhere(ticked(s)),
{
    let top = s.stack.last();
    let below = s.stack.drop_last();
    if top.rest.len() == 0 {
        let tree = closed(s.options, below.len(), top);
        absorbing_adds_up(top.tree, top.children, bytes);
        delivery_balances(
            Scanning {
                stack: below,
                progress: published(s.progress, below.len(), top.path, tree),
                ..s
            },
            tree,
            bytes,
        );
    } else {
        let next = top.rest.last();
        let at = path::joined(top.path, next.name);
        let rest = Scanning {
            stack: below.push(Open { rest: top.rest.drop_last(), ..top }),
            ..s
        };
        assert(rest.stack.drop_last() =~= below);
        assert(balanced(rest, bytes));
        match next.facts {
            None => {},
            Some(facts) => {
                if facts.entry_type != EntryType::Directory {
                    delivery_balances(
                        saw_leaf(rest, facts),
                        leaf(next.name, facts, is_repeat(rest, facts)),
                        bytes,
                    );
                } else if is_off_limits(rest, at, facts) {
                    delivery_balances(rest, skipped(next.name, facts), bytes);
                } else {
                    opening_balances(rest, at, next.name, facts, bytes);
                }
            },
        }
    }
}

/// Giving a directory up keeps the live counters true.
pub proof fn giving_up_balances(s: Scanning, state: ScanState, bytes: bool)
    requires
        s.stack.len() > 0,
        s.stack.last().children.len() == 0,
        balanced(s, bytes),
    ensures
        balanced(given_up(s, state), bytes),
{
    assert(figures_in(s.stack.last().children, bytes) == 0);
    delivery_balances(
        Scanning { stack: s.stack.drop_last(), ..s },
        Tree { scan_state: state, ..s.stack.last().tree },
        bytes,
    );
}

/// A scan starts with its counters true.
pub proof fn start_balances(
    root: Seq<u8>,
    facts: FileFacts,
    options: ScanOptions,
    remote_mounts: Seq<Seq<u8>>,
    stream_depth: usize,
    bytes: bool,
)
    ensures
        balanced(started(root, facts, options, remote_mounts, stream_depth), bytes),
        unread_are_empty(started(root, facts, options, remote_mounts, stream_depth)),
{
    let idle = Scanning {
        options,
        root_device: facts.device,
        remote_mounts: if options.skip_remote {
            other_places(remote_mounts, root)
        } else {
            Seq::empty()
        },
        seen_links: Set::empty(),
        progress: at_rest(stream_depth),
        stack: Seq::empty(),
        result: None,
    };
    if facts.entry_type == EntryType::Directory {
        opening_balances(idle, root, root, facts, bytes);
    } else {
        delivery_balances(
            saw_leaf(idle, facts),
            leaf(root, facts, is_repeat(idle, facts)),
            bytes,
        );
    }
}

/// Whether nothing has been counted in any directory that is still to be read, which is only ever
/// the innermost.
pub open spec fn unread_are_empty(s: Scanning) -> bool {
    forall|i: int|
        0 <= i < s.stack.len() && (#[trigger] s.stack[i]).reading ==> i == s.stack.len() - 1
            && s.stack[i].children.len() == 0 && s.stack[i].rest.len() == 0
}

proof fn steps_keep_unread_empty(s: Scanning)
    requires
        s.stack.len() > 0,
        !s.stack.last().reading,
        unread_are_empty(s),
    ensures
        unread_are_empty(ticked(s)),
{
    let out = ticked(s);
    assert forall|i: int| 0 <= i < out.stack.len() && (#[trigger] out.stack[i]).reading implies i
        == out.stack.len() - 1 && out.stack[i].children.len() == 0 && out.stack[i].rest.len()
        == 0 by {
        if i < s.stack.len() {
            assert(!s.stack[i].reading);
        }
    }
}

proof fn giving_up_keeps_unread_empty(s: Scanning, state: ScanState)
    requires
        s.stack.len() > 0,
        unread_are_empty(s),
    ensures
        unread_are_empty(given_up(s, state)),
{
    let out = given_up(s, state);
    assert forall|i: int| 0 <= i < out.stack.len() && (#[trigger] out.stack[i]).reading implies i
        == out.stack.len() - 1 && out.stack[i].children.len() == 0 && out.stack[i].rest.len()
        == 0 by {
        if i < s.stack.len() - 1 {
            assert(!s.stack[i].reading);
        }
    }
}

/// However far a scan runs, and whether or not it is cancelled, its counters stay true; so once it
/// is finished the bytes counted are what the whole tree takes up, and the entries counted are the
/// items in it.
pub proof fn settling_balances(s: Scanning, cancelled: bool, bytes: bool)
    requires
        balanced(s, bytes),
        unread_are_empty(s),
        bytes || walks_everywhere(s),
    ensures
        balanced(settled(s, cancelled), bytes),
        unread_are_empty(settled(s, cancelled)),
        settled(s, cancelled).stack.len() == 0 && settled(s, cancelled).result is Some ==> counter(
            settled(s, cancelled).progress,
            bytes,
        ) == figure(settled(s, cancelled).result->0, bytes),
    decreases work_left(s.stack),
{
    if s.stack.len() == 0 {
        assert(figures_held(s.stack, bytes) == 0);
    } else if s.stack.last().reading {
        if cancelled {
            giving_up_is_progress(s, ScanState::Cancelled);
            assert(s.stack[s.stack.len() - 1].reading);
            giving_up_balances(s, ScanState::Cancelled, bytes);
            giving_up_keeps_unread_empty(s, ScanState::Cancelled);
            settling_balances(given_up(s, ScanState::Cancelled), cancelled, bytes);
        }
    } else {
        ticking_is_progress(s);
        every_step_balances(s, bytes);
        steps_keep_unread_empty(s);
        settling_balances(ticked(s), cancelled, bytes);
    }
}

/// A tree without what lies more than so many levels below its root.
pub open spec fn shallow(tree: Tree, levels: nat) -> Tree
    decreases levels,
{
    Tree {
        children: if levels == 0 {
            Seq::empty()
        } else {
            tree.children.map_values(|child: Tree| shallow(child, (levels - 1) as nat))
        },
        ..tree
    }
}

/// How many levels are kept of what lies at a depth, where so many are kept in all.
pub open spec fn levels_kept(limit: usize, depth: int) -> nat {
    if depth < limit {
        (limit - depth) as nat
    } else {
        0
    }
}

/// A directory being counted, with what it holds kept no deeper than the limit.
pub open spec fn limited_open(open: Open, limit: usize, depth: int) -> Open {
    Open {
        children: open.children.map_values(
            |child: Tree| shallow(child, levels_kept(limit, depth + 1)),
        ),
        ..open
    }
}

/// The same scan with a depth limit.
pub open spec fn limited(s: Scanning, limit: usize) -> Scanning {
    Scanning {
        options: ScanOptions { max_depth: Some(limit), ..s.options },
        stack: Seq::new(s.stack.len(), |depth: int| limited_open(s.stack[depth], limit, depth)),
        result: match s.result {
            Some(tree) => Some(shallow(tree, limit as nat)),
            None => None,
        },
        ..s
    }
}

/// Whether a scan has no depth limit, and counts children only beside the directories they are in.
spec fn keeps_apart(s: Scanning) -> bool {
    &&& s.options.max_depth is None
    &&& forall|i: int| 0 <= i < s.stack.len() ==> (#[trigger] s.stack[i]).tree.children.len() == 0
}

proof fn shallow_leaf(tree: Tree, levels: nat)
    requires
        tree.children.len() == 0,
    ensures
        shallow(tree, levels) == tree,
{
    assert(shallow(tree, levels).children =~= tree.children);
}

proof fn absorbing_is_by_figures(tree: Tree, children: Seq<Tree>, levels: nat)
    ensures
        absorb_all(tree, children.map_values(|child: Tree| shallow(child, levels))) == absorb_all(
            tree,
            children,
        ),
        absorb_all(tree, children).children == tree.children,
    decreases children.len(),
{
    if children.len() > 0 {
        let less = children.map_values(|child: Tree| shallow(child, levels));
        absorbing_is_by_figures(tree, children.drop_last(), levels);
        assert(less.drop_last() =~= children.drop_last().map_values(
            |child: Tree| shallow(child, levels),
        ));
        assert(less.last() == shallow(children.last(), levels));
    }
}

proof fn closing_is_limited(options: ScanOptions, depth: nat, top: Open, limit: usize)
    requires
        options.max_depth is None,
        top.tree.children.len() == 0,
    ensures
        closed(
            ScanOptions { max_depth: Some(limit), ..options },
            depth,
            limited_open(top, limit, depth as int),
        ) == shallow(closed(options, depth, top), levels_kept(limit, depth as int)),
{
    let levels = levels_kept(limit, depth as int + 1);
    absorbing_is_by_figures(top.tree, top.children, levels);
    let left = closed(
        ScanOptions { max_depth: Some(limit), ..options },
        depth,
        limited_open(top, limit, depth as int),
    );
    let right = shallow(closed(options, depth, top), levels_kept(limit, depth as int));
    assert(left.children =~= right.children);
}

proof fn delivery_is_limited(s: Scanning, tree: Tree, limit: usize)
    requires
        keeps_apart(s),
    ensures
        delivered(limited(s, limit), shallow(tree, levels_kept(limit, s.stack.len() as int)))
            == limited(delivered(s, tree), limit),
        keeps_apart(delivered(s, tree)),
{
    let kept = shallow(tree, levels_kept(limit, s.stack.len() as int));
    let left = delivered(limited(s, limit), kept);
    let right = limited(delivered(s, tree), limit);
    if s.stack.len() == 0 {
        assert(left.stack =~= right.stack);
    } else {
        let last = s.stack.len() - 1;
        let top = s.stack.last();
        assert(delivered(s, tree).stack[last].children == top.children.push(tree));
        assert(left.stack[last].children =~= right.stack[last].children);
        assert forall|i: int| 0 <= i < left.stack.len() implies left.stack[i] == right.stack[i] by {
            if i < last {
                assert(delivered(s, tree).stack[i] == s.stack[i]);
            }
        }
        assert(left.stack =~= right.stack);
        assert forall|i: int| 0 <= i < delivered(s, tree).stack.len() implies (
        #[trigger] delivered(s, tree).stack[i]).tree.children.len() == 0 by {
            assert(s.stack[i].tree.children.len() == 0);
        }
    }
}

proof fn giving_up_is_limited(s: Scanning, state: ScanState, limit: usize)
    requires
        s.stack.len() > 0,
        keeps_apart(s),
    ensures
        given_up(limited(s, limit), state) == limited(given_up(s, state), limit),
        keeps_apart(given_up(s, state)),
{
    let below = Scanning { stack: s.stack.drop_last(), ..s };
    let tree = Tree { scan_state: state, ..s.stack.last().tree };
    assert(s.stack[s.stack.len() - 1].tree.children.len() == 0);
    shallow_leaf(tree, levels_kept(limit, below.stack.len() as int));
    assert forall|i: int| 0 <= i < below.stack.len() implies (
    #[trigger] below.stack[i]).tree.children.len() == 0 by {
        assert(s.stack[i].tree.children.len() == 0);
    }
    delivery_is_limited(below, tree, limit);
    assert(limited(s, limit).stack.drop_last() =~= limited(below, limit).stack);
}

proof fn ticking_is_limited(s: Scanning, limit: usize)
    requires
        s.stack.len() > 0,
        !s.stack.last().reading,
        keeps_apart(s),
    ensures
        ticked(limited(s, limit)) == limited(ticked(s), limit),
        keeps_apart(ticked(s)),
{
    let less = limited(s, limit);
    let top = s.stack.last();
    let below = s.stack.drop_last();
    let depth = below.len();
    assert(s.stack[depth as int].tree.children.len() == 0);
    assert(less.stack.last() == limited_open(top, limit, depth as int));
    assert forall|i: int| 0 <= i < below.len() implies (#[trigger] below[i]).tree.children.len()
        == 0 by {
        assert(s.stack[i].tree.children.len() == 0);
    }
    if top.rest.len() == 0 {
        let tree = closed(s.options, depth, top);
        closing_is_limited(s.options, depth, top, limit);
        let rest = Scanning {
            stack: below,
            progress: published(s.progress, depth, top.path, tree),
            ..s
        };
        delivery_is_limited(rest, tree, limit);
        assert(less.stack.drop_last() =~= limited(rest, limit).stack);
    } else {
        let next = top.rest.last();
        let at = path::joined(top.path, next.name);
        let rest = Scanning {
            stack: below.push(Open { rest: top.rest.drop_last(), ..top }),
            ..s
        };
        assert forall|i: int| 0 <= i < rest.stack.len() implies (
        #[trigger] rest.stack[i]).tree.children.len() == 0 by {
            assert(s.stack[i].tree.children.len() == 0);
        }
        assert(less.stack.drop_last().push(
            Open { rest: top.rest.drop_last(), ..less.stack.last() },
        ) =~= limited(rest, limit).stack) by {
            assert forall|i: int| 0 <= i < depth implies less.stack[i] == limited(
                rest,
                limit,
            ).stack[i] by {
                assert(rest.stack[i] == s.stack[i]);
            }
        }
        match next.facts {
            None => {},
            Some(facts) => {
                if facts.entry_type != EntryType::Directory {
                    let tree = leaf(next.name, facts, is_repeat(rest, facts));
                    shallow_leaf(tree, levels_kept(limit, rest.stack.len() as int));
                    delivery_is_limited(saw_leaf(rest, facts), tree, limit);
                    assert(saw_leaf(limited(rest, limit), facts) == limited(
                        saw_leaf(rest, facts),
                        limit,
                    ));
                } else if is_off_limits(rest, at, facts) {
                    let tree = skipped(next.name, facts);
                    shallow_leaf(tree, levels_kept(limit, rest.stack.len() as int));
                    delivery_is_limited(rest, tree, limit);
                } else {
                    opening_is_limited(rest, at, next.name, facts, limit);
                }
            },
        }
    }
}

proof fn opening_is_limited(s: Scanning, at: Seq<u8>, name: Seq<u8>, facts: FileFacts, limit: usize)
    requires
        keeps_apart(s),
    ensures
        opened(limited(s, limit), at, name, facts) == limited(opened(s, at, name, facts), limit),
        keeps_apart(opened(s, at, name, facts)),
{
    let out = opened(s, at, name, facts);
    let left = opened(limited(s, limit), at, name, facts);
    let right = limited(out, limit);
    let last = s.stack.len() as int;
    assert(left.stack[last].children =~= right.stack[last].children);
    assert forall|i: int| 0 <= i < left.stack.len() implies left.stack[i] == right.stack[i] by {
        if i < last {
            assert(out.stack[i] == s.stack[i]);
        }
    }
    assert(left.stack =~= right.stack);
    assert forall|i: int| 0 <= i < out.stack.len() implies (
    #[trigger] out.stack[i]).tree.children.len() == 0 by {
        if i < last {
            assert(s.stack[i].tree.children.len() == 0);
        }
    }
}

proof fn settling_is_limited(s: Scanning, cancelled: bool, limit: usize)
    requires
        keeps_apart(s),
    ensures
        settled(limited(s, limit), cancelled) == limited(settled(s, cancelled), limit),
        keeps_apart(settled(s, cancelled)),
    decreases work_left(s.stack),
{
    let less = limited(s, limit);
    if s.stack.len() > 0 {
        assert(less.stack.last() == limited_open(
            s.stack.last(),
            limit,
            s.stack.len() - 1,
        ));
        if s.stack.last().reading {
            if cancelled {
                giving_up_is_progress(s, ScanState::Cancelled);
                giving_up_is_limited(s, ScanState::Cancelled, limit);
                settling_is_limited(given_up(s, ScanState::Cancelled), cancelled, limit);
            }
        } else {
            ticking_is_progress(s);
            ticking_is_limited(s, limit);
            settling_is_limited(ticked(s), cancelled, limit);
        }
    }
}

proof fn awaiting_is_limited(s: Scanning, limit: usize)
    requires
        keeps_apart(s),
    ensures
        awaiting(limited(s, limit), false) == limited(awaiting(s, false), limit),
        keeps_apart(awaiting(s, false)),
{
    settling_is_limited(s, false, limit);
    let rest = settled(s, false);
    if rest.stack.len() > 0 {
        assert(limited(rest, limit).stack.last() == limited_open(
            rest.stack.last(),
            limit,
            rest.stack.len() - 1,
        ));
        assert(awaiting(s, false).stack == rest.stack);
    }
}

proof fn answering_is_limited(s: Scanning, listing: Option<Seq<Sighting>>, limit: usize)
    requires
        s.stack.len() > 0,
        keeps_apart(s),
    ensures
        answered(limited(s, limit), listing) == limited(answered(s, listing), limit),
        keeps_apart(answered(s, listing)),
{
    match listing {
        None => {
            let told = Scanning { progress: with_error(s.progress), ..s };
            giving_up_is_limited(told, ScanState::Denied, limit);
        },
        Some(list) => {
            let out = answered(s, listing);
            let left = answered(limited(s, limit), listing);
            let right = limited(out, limit);
            let last = s.stack.len() - 1;
            assert forall|i: int| 0 <= i < left.stack.len() implies left.stack[i]
                == right.stack[i] by {
                if i < last {
                    assert(out.stack[i] == s.stack[i]);
                }
            }
            assert(left.stack =~= right.stack);
            assert forall|i: int| 0 <= i < out.stack.len() implies (
            #[trigger] out.stack[i]).tree.children.len() == 0 by {
                assert(s.stack[i].tree.children.len() == 0);
            }
        },
    }
}

proof fn reading_is_limited(
    s: Scanning,
    disk: spec_fn(Seq<u8>) -> Option<Seq<Sighting>>,
    reads: nat,
    limit: usize,
)
    requires
        keeps_apart(s),
    ensures
        after_reading(limited(s, limit), disk, reads) == limited(
            after_reading(s, disk, reads),
            limit,
        ),
        keeps_apart(after_reading(s, disk, reads)),
    decreases reads,
{
    if reads == 0 {
        awaiting_is_limited(s, limit);
    } else {
        let before = after_reading(s, disk, (reads - 1) as nat);
        reading_is_limited(s, disk, (reads - 1) as nat, limit);
        if before.stack.len() > 0 {
            let place = before.stack.last().path;
            assert(limited(before, limit).stack.last().path == place);
            answering_is_limited(before, disk(place), limit);
            awaiting_is_limited(answered(before, disk(place)), limit);
        }
    }
}

/// A depth limit leaves entries out and changes no figure. Two scans of a disk that does not change,
/// one with a limit and one without, read the same directories, count the same and are done at the
/// same time; the limited one has then the tree of the other down to the limit, every entry that it
/// kept with all its figures, and nothing deeper.
pub proof fn depth_limit_keeps_figures(
    root: Seq<u8>,
    facts: FileFacts,
    options: ScanOptions,
    remote_mounts: Seq<Seq<u8>>,
    stream_depth: usize,
    disk: spec_fn(Seq<u8>) -> Option<Seq<Sighting>>,
    reads: nat,
    limit: usize,
)
    requires
        options.max_depth is None,
    ensures
        ({
            let full = after_reading(
                started(root, facts, options, remote_mounts, stream_depth),
                disk,
                reads,
            );
            let capped = after_reading(
                started(
                    root,
                    facts,
                    ScanOptions { max_depth: Some(limit), ..options },
                    remote_mounts,
                    stream_depth,
                ),
                disk,
                reads,
            );
            &&& capped.progress == full.progress
            &&& capped.stack.len() == full.stack.len()
            &&& full.stack.len() > 0 ==> capped.stack.last().path == full.stack.last().path
            &&& capped.result == match full.result {
                Some(tree) => Some(shallow(tree, limit as nat)),
                None => None,
            }
        }),
{
    let idle = Scanning {
        options,
        root_device: facts.device,
        remote_mounts: if options.skip_remote {
            other_places(remote_mounts, root)
        } else {
            Seq::empty()
        },
        seen_links: Set::empty(),
        progress: at_rest(stream_depth),
        stack: Seq::empty(),
        result: None,
    };
    let s = started(root, facts, options, remote_mounts, stream_depth);
    let capped = ScanOptions { max_depth: Some(limit), ..options };
    assert(limited(idle, limit).stack =~= idle.stack);
    if facts.entry_type == EntryType::Directory {
        opening_is_limited(idle, root, root, facts, limit);
    } else {
        let tree = leaf(root, facts, is_repeat(idle, facts));
        shallow_leaf(tree, limit as nat);
        delivery_is_limited(saw_leaf(idle, facts), tree, limit);
        assert(limited(saw_leaf(idle, facts), limit).stack =~= idle.stack);
    }
    assert(started(root, facts, capped, remote_mounts, stream_depth) == limited(s, limit));
    reading_is_limited(s, disk, reads, limit);
}

/// A file with several names counts under the first one alone, where that is asked for.
pub proof fn hard_links_count_once(
    s: Scanning,
    first: FileFacts,
    again: FileFacts,
    name: Seq<u8>,
)
    requires
        s.options.dedup_hardlinks,
        first.links > 1,
        again.links > 1,
        first.device == again.device,
        first.inode == again.inode,
    ensures
        is_repeat(saw_leaf(s, first), again),
        leaf(name, again, true).apparent_size == 0,
        leaf(name, again, true).allocated_size == 0,
        leaf(name, again, true).items == 1,
{
}

/// What is published of a directory while a scan runs is final: the figures are those of the entry
/// that is handed to the directory above it, with everything below already counted. Nothing is
/// published of the root, nor deeper than was asked for.
pub proof fn published_figures_are_final(s: Scanning)
    requires
        s.stack.len() > 0,
        !s.stack.last().reading,
    ensures
        ({
            let next = ticked(s);
            let fresh = next.progress.completed;
            let depth = s.stack.len() - 1;
            if s.stack.last().rest.len() == 0 && 1 <= depth <= s.progress.stream_depth {
                let done = next.stack.last().children.last();
                &&& fresh == s.progress.completed.push(
                    Summary {
                        path: s.stack.last().path,
                        allocated: done.allocated_size,
                        apparent: done.apparent_size,
                        items: done.items,
                    },
                )
                &&& done == closed(s.options, depth as nat, s.stack.last())
            } else {
                fresh == s.progress.completed
            }
        }),
{
}

/// A place that is asked for is scanned, even where it is a network mount: only mounts further down
/// are stopped at.
pub proof fn asking_for_it_is_asking_for_it(
    root: Seq<u8>,
    facts: FileFacts,
    options: ScanOptions,
    remote_mounts: Seq<Seq<u8>>,
    stream_depth: usize,
)
    requires
        facts.entry_type == EntryType::Directory,
    ensures
        ({
            let s = started(root, facts, options, remote_mounts, stream_depth);
            &&& s.stack.len() == 1
            &&& s.stack[0].path == root
            &&& s.stack[0].reading
            &&& !is_off_limits(s, root, facts)
        }),
{
    others_are_elsewhere(remote_mounts, root);
}

proof fn others_are_elsewhere(places: Seq<Seq<u8>>, one: Seq<u8>)
    ensures
        forall|i: int|
            0 <= i < other_places(places, one).len() ==> !path::same_place(
                #[trigger] other_places(places, one)[i],
                one,
            ),
    decreases places.len(),
{
    if places.len() > 0 {
        others_are_elsewhere(places.drop_last(), one);
        let before = other_places(places.drop_last(), one);
        let all = other_places(places, one);
        assert forall|i: int| 0 <= i < all.len() implies !path::same_place(
            #[trigger] all[i],
            one,
        ) by {
            if i < before.len() {
                assert(all[i] == before[i]);
            }
        }
    }
}

} // verus!
