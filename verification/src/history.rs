//! Snapshots, so that "what changed since last time" has an answer.
//!
//! Every full scan records one, which is what makes a diff work without anyone having set anything
//! up first: by the time you think to ask what happened, the evidence already exists.
//!
//! Snapshots are pruned before they are written: deep enough and coarse enough to attribute
//! growth, small enough that keeping months of them costs a few megabytes.

use vstd::prelude::*;
use crate::order;
use crate::path;
use crate::path::FilePath;
use crate::strings;
use crate::tree;
use crate::tree::{DiskEntry, Tree};

verus! {

/// How deep a stored tree goes. Growth attribution rarely needs more: below this the answer is
/// "this directory", not "this file".
pub const STORAGE_DEPTH: usize = 8;

/// Entries smaller than this fraction of the root are dropped from a snapshot: one ten-thousandth,
/// so a 500 GB disk keeps everything above 50 MB.
pub const MIN_STORED_FRACTION: u64 = 10_000;

/// ...but a small project keeps everything above this many bytes.
pub const MIN_STORED_BYTES: u64 = 1_000_000;

/// Snapshots kept per scanned root before the oldest are dropped.
pub const RETAIN: usize = 64;

#[derive(Debug)]
pub struct Snapshot {
    pub root: FilePath,
    /// Seconds since the Unix epoch.
    pub taken_at: u64,
    /// Totals before pruning, so a snapshot's headline number is exact even though its tree is
    /// abridged.
    pub total_allocated: u64,
    pub total_apparent: u64,
    pub items: u64,
    /// Entries below this many bytes were dropped before storing. A diff needs it to tell "this is
    /// new" from "this was too small to record".
    pub floor: u64,
    pub tree: DiskEntry,
}

impl Snapshot {
    /// Seconds between this snapshot and `now`.
    pub fn age(&self, now: u64) -> (seconds: u64)
        ensures
            seconds == tree::less_by(now, self.taken_at),
    {
        now.saturating_sub(self.taken_at)
    }
}

/// The smallest entry that a snapshot of a tree keeps.
pub open spec fn floor_of(tree: Tree) -> u64 {
    tree::later((tree.allocated_size / MIN_STORED_FRACTION) as u64, MIN_STORED_BYTES)
}

/// A tree with what is below the floor or too deep left out.
pub open spec fn stored(tree: Tree, floor: u64, depth: nat) -> Tree
    decreases depth, 1nat, 0nat,
{
    Tree {
        children: if depth == 0 {
            Seq::empty()
        } else {
            stored_children(tree.children, floor, (depth - 1) as nat)
        },
        ..tree
    }
}

/// The children that are large enough, each reduced in the same way.
pub open spec fn stored_children(children: Seq<Tree>, floor: u64, depth: nat) -> Seq<Tree>
    decreases depth, 2nat, children.len(),
{
    if children.len() == 0 {
        Seq::empty()
    } else {
        let before = stored_children(children.drop_last(), floor, depth);
        if children.last().allocated_size >= floor {
            before.push(stored(children.last(), floor, depth))
        } else {
            before
        }
    }
}

/// What a snapshot holds of a tree.
pub open spec fn for_storage(tree: Tree) -> Tree {
    stored(tree, floor_of(tree), STORAGE_DEPTH as nat)
}

/// The smallest entry a snapshot of this tree will keep.
pub fn storage_floor(tree: &DiskEntry) -> (floor: u64)
    ensures
        floor == floor_of(tree@),
{
    let share: u64 = tree.allocated_size / MIN_STORED_FRACTION;
    if share < MIN_STORED_BYTES {
        MIN_STORED_BYTES
    } else {
        share
    }
}

/// Trim a tree down to what a diff actually needs.
pub fn prune_for_storage(tree: &DiskEntry) -> (out: DiskEntry)
    ensures
        out@ == for_storage(tree@),
{
    prune(tree, storage_floor(tree), STORAGE_DEPTH)
}

fn prune(entry: &DiskEntry, floor: u64, depth: usize) -> (out: DiskEntry)
    ensures
        out@ == stored(entry@, floor, depth as nat),
    decreases depth,
{
    let mut copy = entry.without_children();
    let ghost bare = copy@;
    if depth > 0 {
        let mut at: usize = 0;
        assert(stored_children(entry@.children.take(0), floor, (depth - 1) as nat) =~= Seq::empty());
        while at < entry.children.len()
            invariant
                at <= entry.children.len(),
                depth > 0,
                entry@.children.len() == entry.children.len(),
                bare == (Tree { children: Seq::empty(), ..entry@ }),
                copy@ == (Tree {
                    children: stored_children(
                        entry@.children.take(at as int),
                        floor,
                        (depth - 1) as nat,
                    ),
                    ..bare
                }),
            decreases entry.children.len() - at,
        {
            let child = &entry.children[at];
            let ghost upto = entry@.children.take(at + 1);
            let ghost before = copy@;
            assert(entry@.children[at as int] == child@);
            assert(upto.drop_last() =~= entry@.children.take(at as int));
            assert(upto.last() == child@);
            if child.allocated_size >= floor {
                let kept = prune(child, floor, depth - 1);
                copy.children.push(kept);
                assert(copy@.children =~= before.children.push(kept@));
            }
            at += 1;
        }
        assert(entry@.children.take(at as int) =~= entry@.children);
    }
    copy
}

/// A snapshot's identity without its tree, for listing without parsing.
#[derive(Debug)]
pub struct SnapshotId {
    pub taken_at: u64,
    pub path: FilePath,
}

impl View for SnapshotId {
    type V = (u64, Seq<u8>);

    open spec fn view(&self) -> (u64, Seq<u8>) {
        (self.taken_at, self.path@)
    }
}

/// Some snapshots' identities, as values.
pub open spec fn ids(list: Seq<SnapshotId>) -> Seq<(u64, Seq<u8>)> {
    list.map_values(|id: SnapshotId| id@)
}

/// Where the last dot of a name stands.
pub open spec fn last_dot(name: Seq<u8>) -> Option<int>
    decreases name.len(),
{
    if name.len() == 0 {
        None
    } else if name.last() == 46 {
        Some(name.len() - 1)
    } else {
        last_dot(name.drop_last())
    }
}

/// A file's name without its extension.
pub open spec fn stem(name: Seq<u8>) -> Seq<u8> {
    match last_dot(name) {
        Some(at) => if at == 0 {
            name
        } else {
            name.take(at)
        },
        None => name,
    }
}

/// The number that decimal digits spell, where they are digits.
pub open spec fn digits_value(digits: Seq<u8>) -> Option<nat>
    decreases digits.len(),
{
    if digits.len() == 0 {
        Some(0)
    } else {
        match digits_value(digits.drop_last()) {
            Some(front) => if 48 <= digits.last() <= 57 {
                Some((front * 10 + (digits.last() - 48)) as nat)
            } else {
                None
            },
            None => None,
        }
    }
}

/// The 64-bit number that some bytes spell: digits, with a plus sign before them or not.
pub open spec fn number(bytes: Seq<u8>) -> Option<nat> {
    let digits = if bytes.len() > 0 && bytes[0] == 43 {
        bytes.skip(1)
    } else {
        bytes
    };
    match digits_value(digits) {
        Some(value) => if digits.len() > 0 && value <= u64::MAX {
            Some(value)
        } else {
            None
        },
        None => None,
    }
}

/// When the snapshot in a file was taken, as its name says.
pub open spec fn time_in_name(path: Seq<u8>) -> Option<nat> {
    match path::file_name(path) {
        Some(name) => number(stem(name)),
        None => None,
    }
}

proof fn digits_grow(digits: Seq<u8>, count: int)
    requires
        0 <= count <= digits.len(),
        digits_value(digits) is Some,
    ensures
        digits_value(digits.take(count)) is Some,
        digits_value(digits.take(count))->0 <= digits_value(digits)->0,
    decreases digits.len() - count,
{
    assert(digits.take(digits.len() as int) =~= digits);
    if count < digits.len() {
        digits_grow(digits, count + 1);
        assert(digits.take(count + 1).drop_last() =~= digits.take(count));
    }
}

fn read_number(bytes: &Vec<u8>) -> (out: Option<u64>)
    ensures
        out is Some <==> number(bytes@) is Some,
        out matches Some(value) ==> number(bytes@) == Some(value as nat),
{
    let from: usize = if bytes.len() > 0 && bytes[0] == 43 {
        1
    } else {
        0
    };
    let ghost digits = bytes@.skip(from as int);
    assert(bytes@.skip(0) =~= bytes@);
    if from == bytes.len() {
        return None;
    }
    let mut value: u64 = 0;
    let mut at: usize = from;
    assert(digits.take(0) =~= Seq::empty());
    while at < bytes.len()
        invariant
            from <= at <= bytes.len(),
            from < bytes.len(),
            digits == bytes@.skip(from as int),
            number(bytes@) == match digits_value(digits) {
                Some(value) => if digits.len() > 0 && value <= u64::MAX {
                    Some(value)
                } else {
                    None
                },
                None => None,
            },
            digits_value(digits.take(at - from)) == Some(value as nat),
        decreases bytes.len() - at,
    {
        let digit: u8 = bytes[at];
        let ghost upto = digits.take(at - from + 1);
        proof {
            assert(upto.drop_last() =~= digits.take(at - from));
            assert(upto.last() == digit);
            if digits_value(digits) is Some {
                digits_grow(digits, at - from + 1);
            }
        }
        if digit < 48 || digit > 57 {
            return None;
        }
        let add: u64 = (digit - 48) as u64;
        match value.checked_mul(10) {
            Some(tens) => match tens.checked_add(add) {
                Some(next) => {
                    value = next;
                },
                None => return None,
            },
            None => return None,
        }
        at += 1;
    }
    assert(digits.take(at - from) =~= digits);
    Some(value)
}

fn file_stem(name: &Vec<u8>) -> (out: Vec<u8>)
    ensures
        out@ == stem(name@),
{
    let mut at: usize = name.len();
    assert(name@.take(at as int) =~= name@);
    while at > 0 && name[at - 1] != 46
        invariant
            at <= name.len(),
            last_dot(name@) == last_dot(name@.take(at as int)),
        decreases at,
    {
        assert(name@.take(at as int).drop_last() =~= name@.take(at - 1));
        at -= 1;
    }
    if at <= 1 {
        return path::copy_range(name, 0, name.len());
    }
    let out = path::copy_range(name, 0, at - 1);
    assert(out@ =~= name@.take(at - 1));
    out
}

/// The snapshot in a file, where its name says when it was taken.
pub open spec fn id_of(file: Seq<u8>) -> Option<(u64, Seq<u8>)> {
    match time_in_name(file) {
        Some(taken_at) => Some((taken_at as u64, file)),
        None => None,
    }
}

/// The snapshots among some files, in the order they were listed.
pub open spec fn ids_among(files: Seq<Seq<u8>>) -> Seq<(u64, Seq<u8>)>
    decreases files.len(),
{
    if files.len() == 0 {
        Seq::empty()
    } else {
        let before = ids_among(files.drop_last());
        match id_of(files.last()) {
            Some(id) => before.push(id),
            None => before,
        }
    }
}

/// The snapshots among some files, oldest first.
pub open spec fn listed(files: Seq<Seq<u8>>) -> Seq<(u64, Seq<u8>)> {
    order::stable_sort(
        ids_among(files),
        |a: (u64, Seq<u8>), b: (u64, Seq<u8>)| a.0 < b.0,
    )
}

/// The values of some paths.
pub open spec fn path_values(paths: Seq<FilePath>) -> Seq<Seq<u8>> {
    paths.map_values(|path: FilePath| path@)
}

/// Where snapshots live.
#[derive(Debug)]
pub struct Store {
    pub root: FilePath,
}

/// A number in sixteen hexadecimal digits.
pub open spec fn hex_name(value: u64, digits: nat) -> Seq<u8>
    decreases digits,
{
    if digits == 0 {
        Seq::empty()
    } else {
        let low = (value % 16) as u8;
        hex_name(value / 16, (digits - 1) as nat).push(
            if low < 10 {
                (48 + low) as u8
            } else {
                (87 + low) as u8
            },
        )
    }
}

fn push_hex(out: &mut Vec<u8>, value: u64, digits: usize)
    ensures
        final(out)@ == old(out)@ + hex_name(value, digits as nat),
    decreases digits,
{
    if digits > 0 {
        push_hex(out, value / 16, digits - 1);
        let low: u8 = (value % 16) as u8;
        out.push(if low < 10 {
            48 + low
        } else {
            87 + low
        });
    }
}

/// Where in a root's directory a scan of some moment is recorded.
pub open spec fn recorded_file(dir: Seq<u8>, taken_at: u64) -> Seq<u8> {
    path::joined(dir, vstd::utf8::encode_utf8(strings::digits(taken_at as nat) + ".json"@))
}

/// The newest of some snapshots listed oldest first.
pub open spec fn newest(list: Seq<(u64, Seq<u8>)>) -> Option<nat> {
    if list.len() == 0 {
        None
    } else {
        Some((list.len() - 1) as nat)
    }
}

/// The last of some snapshots listed oldest first that was taken at or before a moment.
pub open spec fn newest_before(list: Seq<(u64, Seq<u8>)>, at: u64) -> Option<nat>
    decreases list.len(),
{
    if list.len() == 0 {
        None
    } else if list.last().0 <= at {
        Some((list.len() - 1) as nat)
    } else {
        newest_before(list.drop_last(), at)
    }
}

/// How many of so many snapshots are dropped.
pub open spec fn surplus(count: nat) -> nat {
    if count > RETAIN {
        (count - RETAIN) as nat
    } else {
        0
    }
}

/// What an index that was or was not found says.
pub open spec fn position(found: Option<usize>) -> Option<nat> {
    match found {
        Some(at) => Some(at as nat),
        None => None,
    }
}

/// What is written when a scan is recorded, and where.
#[derive(Debug)]
pub struct Recording {
    pub snapshot: Snapshot,
    pub dir: FilePath,
    pub file: FilePath,
}

impl Store {
    /// A store rooted anywhere.
    pub fn at(root: FilePath) -> (store: Store)
        ensures
            store.root == root,
    {
        Store { root }
    }

    /// A store below the directory where a user's programs keep their data.
    pub fn below(data_dir: &FilePath) -> (store: Store)
        ensures
            store.root@ == path::joined(
                path::joined(data_dir@, vstd::utf8::encode_utf8("disko"@)),
                vstd::utf8::encode_utf8("snapshots"@),
            ),
    {
        Store { root: data_dir.join(&FilePath::new("disko")).join(&FilePath::new("snapshots")) }
    }

    pub fn location(&self) -> (path: &FilePath)
        ensures
            path == self.root,
    {
        &self.root
    }

    /// One directory per scanned root, named by a hash of the root's path. The hash keeps the name
    /// short and filesystem-safe; the path itself is stored inside each snapshot.
    pub fn dir_for(&self, root_hash: u64) -> (dir: FilePath)
        ensures
            dir@ == path::joined(self.root@, hex_name(root_hash, 16)),
    {
        let mut name: Vec<u8> = Vec::new();
        push_hex(&mut name, root_hash, 16);
        assert(name@ =~= hex_name(root_hash, 16));
        self.root.join_name(&name)
    }

    /// `tree` as the state of the world at `taken_at`, and where it belongs.
    pub fn record_at(&self, tree: &DiskEntry, taken_at: u64, root_hash: u64) -> (out: Recording)
        ensures
            out.snapshot.root@ == tree@.name,
            out.snapshot.taken_at == taken_at,
            out.snapshot.total_allocated == tree@.allocated_size,
            out.snapshot.total_apparent == tree@.apparent_size,
            out.snapshot.items == tree@.items,
            out.snapshot.floor == floor_of(tree@),
            out.snapshot.tree@ == for_storage(tree@),
            out.dir@ == path::joined(self.root@, hex_name(root_hash, 16)),
            out.file@ == recorded_file(out.dir@, taken_at),
    {
        let dir = self.dir_for(root_hash);
        let mut name = strings::decimal(taken_at);
        name.append(".json");
        let file = dir.join(&FilePath::new(name.as_str()));
        Recording {
            snapshot: Snapshot {
                root: tree.root_path(),
                taken_at,
                total_allocated: tree.allocated_size,
                total_apparent: tree.apparent_size,
                items: tree.items,
                floor: storage_floor(tree),
                tree: prune_for_storage(tree),
            },
            dir,
            file,
        }
    }

    /// The snapshots among the files of one root's directory, oldest first.
    pub fn list(files: &Vec<FilePath>) -> (out: Vec<SnapshotId>)
        ensures
            ids(out@) == listed(path_values(files@)),
    {
        let ghost all = path_values(files@);
        let mut found: Vec<SnapshotId> = Vec::new();
        let mut at: usize = 0;
        assert(ids(found@) =~= ids_among(all.take(0)));
        while at < files.len()
            invariant
                at <= files.len(),
                all == path_values(files@),
                ids(found@) == ids_among(all.take(at as int)),
            decreases files.len() - at,
        {
            let ghost upto = all.take(at + 1);
            let ghost before = found@;
            assert(upto.drop_last() =~= all.take(at as int));
            assert(upto.last() == files@[at as int]@);
            if let Some(name) = files[at].file_name() {
                if let Some(taken_at) = read_number(&file_stem(&name)) {
                    let id = SnapshotId { taken_at, path: files[at].duplicate() };
                    found.push(id);
                    assert(ids(found@) =~= ids(before).push(id@));
                }
            }
            at += 1;
        }
        assert(all.take(at as int) =~= all);
        let ghost key = |id: SnapshotId| id@;
        let ghost less = |a: (u64, Seq<u8>), b: (u64, Seq<u8>)| a.0 < b.0;
        proof {
            order::order_by_key(key, less);
            order::sort_maps(found@, key, less);
        }
        let older = |a: &SnapshotId, b: &SnapshotId| -> (yes: bool)
            ensures
                yes == (a.taken_at < b.taken_at),
            { a.taken_at < b.taken_at };
        order::sort_stably(
            found,
            &older,
            Ghost(|a: SnapshotId, b: SnapshotId| less(key(a), key(b))),
        )
    }

    /// The most recent snapshot taken at or before `at`, of those listed oldest first.
    ///
    /// "Since 7 days ago" means the last picture of the world before that moment, not the first
    /// one after it.
    pub fn latest_before(list: &Vec<SnapshotId>, at: u64) -> (found: Option<usize>)
        ensures
            position(found) == newest_before(ids(list@), at),
            found matches Some(i) ==> i < list@.len() && list@[i as int].taken_at <= at && forall|
                j: int,
            |
                i < j < list@.len() ==> (#[trigger] list@[j]).taken_at > at,
            found is None ==> forall|j: int|
                0 <= j < list@.len() ==> (#[trigger] list@[j]).taken_at > at,
    {
        let ghost all = ids(list@);
        let mut index: usize = list.len();
        assert(all.take(index as int) =~= all);
        while index > 0
            invariant
                index <= list.len(),
                all == ids(list@),
                newest_before(all, at) == newest_before(all.take(index as int), at),
                forall|j: int| index <= j < list@.len() ==> (#[trigger] list@[j]).taken_at > at,
            decreases index,
        {
            index -= 1;
            proof {
                let upto = all.take(index + 1);
                assert(upto.drop_last() =~= all.take(index as int));
                assert(upto.last() == list@[index as int]@);
            }
            if list[index].taken_at <= at {
                return Some(index);
            }
        }
        None
    }

    /// The newest snapshot, whenever it was taken, of those listed oldest first.
    pub fn latest(list: &Vec<SnapshotId>) -> (found: Option<usize>)
        ensures
            position(found) == newest(ids(list@)),
    {
        if list.len() == 0 {
            None
        } else {
            Some(list.len() - 1)
        }
    }

    /// How many of the oldest snapshots are to be dropped.
    pub fn prune(list: &Vec<SnapshotId>) -> (count: usize)
        ensures
            count == surplus(list@.len()),
    {
        if list.len() <= RETAIN {
            0
        } else {
            list.len() - RETAIN
        }
    }

    /// Whether a snapshot found in another directory is newer than the newest so far.
    pub fn is_newer(best: Option<u64>, taken_at: u64) -> (yes: bool)
        ensures
            yes == (best is None || taken_at > best->0),
    {
        match best {
            None => true,
            Some(best) => taken_at > best,
        }
    }
}

/// How many levels below the root a tree has.
pub open spec fn levels(tree: Tree) -> nat
    decreases tree, 1nat, 0nat,
{
    levels_below(tree, tree.children.len())
}

pub open spec fn levels_below(tree: Tree, count: nat) -> nat
    decreases tree, 0nat, count,
{
    if count == 0 || count > tree.children.len() {
        0
    } else {
        let before = levels_below(tree, (count - 1) as nat);
        let here = levels(tree.children[count - 1]) + 1;
        if here > before {
            here
        } else {
            before
        }
    }
}

/// Whether everything below a tree's root is at least so large.
pub open spec fn nothing_smaller(tree: Tree, floor: u64) -> bool
    decreases tree,
{
    forall|i: int|
        0 <= i < tree.children.len() ==> (#[trigger] tree.children[i]).allocated_size >= floor
            && nothing_smaller(tree.children[i], floor)
}

proof fn stored_is_small(tree: Tree, floor: u64, depth: nat)
    ensures
        levels(stored(tree, floor, depth)) <= depth,
        nothing_smaller(stored(tree, floor, depth), floor),
    decreases depth, 1nat, 0nat,
{
    let out = stored(tree, floor, depth);
    if depth > 0 {
        stored_children_are_small(tree.children, floor, (depth - 1) as nat);
    }
    assert forall|i: int| 0 <= i < out.children.len() implies levels(#[trigger] out.children[i]) + 1
        <= depth by {}
    levels_are_bounded(out, out.children.len(), depth);
}

proof fn levels_are_bounded(tree: Tree, count: nat, depth: nat)
    requires
        count <= tree.children.len(),
        forall|i: int|
            0 <= i < tree.children.len() ==> levels(#[trigger] tree.children[i]) + 1 <= depth,
    ensures
        levels_below(tree, count) <= depth,
    decreases count,
{
    if count > 0 {
        levels_are_bounded(tree, (count - 1) as nat, depth);
        assert(levels(tree.children[count - 1]) + 1 <= depth);
    }
}

proof fn stored_children_are_small(children: Seq<Tree>, floor: u64, depth: nat)
    ensures
        forall|i: int|
            0 <= i < stored_children(children, floor, depth).len() ==> {
                let child = #[trigger] stored_children(children, floor, depth)[i];
                levels(child) <= depth && child.allocated_size >= floor && nothing_smaller(
                    child,
                    floor,
                )
            },
    decreases depth, 2nat, children.len(),
{
    if children.len() > 0 {
        stored_children_are_small(children.drop_last(), floor, depth);
        stored_is_small(children.last(), floor, depth);
        let before = stored_children(children.drop_last(), floor, depth);
        let all = stored_children(children, floor, depth);
        assert forall|i: int| 0 <= i < all.len() implies ({
            let child = #[trigger] all[i];
            levels(child) <= depth && child.allocated_size >= floor && nothing_smaller(child, floor)
        }) by {
            if i < before.len() {
                assert(all[i] == before[i]);
            }
        }
    }
}

/// What is stored is small whatever was scanned: it is at most eight levels deep, nothing in it
/// but the root is below the floor, and the root keeps every figure it had.
pub proof fn snapshots_are_abridged_but_exact(tree: Tree)
    ensures
        levels(for_storage(tree)) <= STORAGE_DEPTH,
        nothing_smaller(for_storage(tree), floor_of(tree)),
        for_storage(tree) == (Tree { children: for_storage(tree).children, ..tree }),
{
    stored_is_small(tree, floor_of(tree), STORAGE_DEPTH as nat);
}

/// Storing what was stored already loses nothing more.
pub proof fn storing_twice_is_storing_once(tree: Tree)
    ensures
        for_storage(for_storage(tree)) == for_storage(tree),
{
    stored_again(tree, floor_of(tree), STORAGE_DEPTH as nat);
}

proof fn stored_again(tree: Tree, floor: u64, depth: nat)
    ensures
        stored(stored(tree, floor, depth), floor, depth) == stored(tree, floor, depth),
    decreases depth, 1nat, 0nat,
{
    if depth > 0 {
        stored_children_again(tree.children, floor, (depth - 1) as nat);
    }
}

proof fn stored_children_again(children: Seq<Tree>, floor: u64, depth: nat)
    ensures
        stored_children(stored_children(children, floor, depth), floor, depth) == stored_children(
            children,
            floor,
            depth,
        ),
    decreases depth, 2nat, children.len(),
{
    if children.len() > 0 {
        let front = children.drop_last();
        stored_children_again(front, floor, depth);
        if children.last().allocated_size >= floor {
            stored_again(children.last(), floor, depth);
            let all = stored_children(children, floor, depth);
            assert(all.drop_last() =~= stored_children(front, floor, depth));
        }
    }
}

/// The listing runs from the oldest to the newest, and holds exactly the files whose names say
/// when they were written.
pub proof fn listing_is_chronological(files: Seq<Seq<u8>>)
    ensures
        forall|i: int, j: int|
            0 <= i < j < listed(files).len() ==> (#[trigger] listed(files)[i]).0 <= (
            #[trigger] listed(files)[j]).0,
        listed(files).to_multiset() == ids_among(files).to_multiset(),
{
    let less = |a: (u64, Seq<u8>), b: (u64, Seq<u8>)| a.0 < b.0;
    let found = ids_among(files);
    order::sort_orders(found, less);
    order::sort_is_a_permutation(found, less);
    assert forall|i: int, j: int| 0 <= i < j < listed(files).len() implies (#[trigger] listed(
        files,
    )[i]).0 <= (#[trigger] listed(files)[j]).0 by {
        assert(!less(listed(files)[j], listed(files)[i]));
    }
}

proof fn digits_read_back(value: nat)
    ensures
        strings::digits(value).len() > 0,
        forall|i: int|
            0 <= i < strings::digits(value).len() ==> '0' <= (#[trigger] strings::digits(value)[i])
                <= '9',
        digits_value(
            Seq::new(strings::digits(value).len(), |i: int| strings::digits(value)[i] as u8),
        ) == Some(value),
    decreases value,
{
    let letters = strings::digits(value);
    let bytes = Seq::new(letters.len(), |i: int| letters[i] as u8);
    reveal_with_fuel(digits_value, 2);
    if value >= 10 {
        let front = strings::digits(value / 10);
        digits_read_back(value / 10);
        assert(bytes.drop_last() =~= Seq::new(front.len(), |i: int| front[i] as u8));
        assert(value == value / 10 * 10 + value % 10);
    }
}

proof fn recorded_name(taken_at: u64)
    ensures
        ({
            let name = vstd::utf8::encode_utf8(strings::digits(taken_at as nat) + ".json"@);
            path::plain_name(name) && number(stem(name)) == Some(taken_at as nat)
        }),
{
    let front = strings::digits(taken_at as nat);
    let letters = front + ".json"@;
    let name = vstd::utf8::encode_utf8(letters);
    digits_read_back(taken_at as nat);
    reveal_strlit(".json");
    vstd::utf8::is_ascii_chars_encode_utf8(letters);
    let many = front.len() as int;
    assert(letters[many] == '.' && letters[many + 1] == 'j' && letters[many + 2] == 's'
        && letters[many + 3] == 'o' && letters[many + 4] == 'n');
    assert(name.len() == many + 5);
    assert forall|i: int| 0 <= i < name.len() implies name[i] != 47 by {
        assert(letters[i] as u8 == name[i]);
    }
    assert(last_dot(name) == Some(many)) by {
        reveal_with_fuel(last_dot, 6);
        let shorter = name.drop_last().drop_last().drop_last().drop_last();
        assert(shorter =~= name.take(many + 1));
        assert(shorter.last() == 46);
    }
    let digits = Seq::new(front.len(), |i: int| front[i] as u8);
    assert(stem(name) =~= digits) by {
        assert forall|i: int| 0 <= i < many implies name[i] == digits[i] by {
            assert(letters[i] as u8 == name[i]);
        }
    }
    assert(digits[0] == front[0] as u8);
}

/// What is recorded at a moment is listed under that moment: the name that the file is given is
/// read as the time that went into it, wherever the store is.
pub proof fn recorded_is_listed(dir: Seq<u8>, taken_at: u64)
    ensures
        id_of(recorded_file(dir, taken_at)) == Some((taken_at, recorded_file(dir, taken_at))),
{
    let name = vstd::utf8::encode_utf8(strings::digits(taken_at as nat) + ".json"@);
    recorded_name(taken_at);
    path::joined_name_is_last(dir, name);
    assert(path::components(recorded_file(dir, taken_at)).last() == name);
}

proof fn listed_are_among(files: Seq<Seq<u8>>)
    ensures
        forall|id: (u64, Seq<u8>)| #[trigger]
            ids_among(files).contains(id) <==> files.contains(id.1) && id_of(id.1) == Some(id),
    decreases files.len(),
{
    if files.len() > 0 {
        let front = files.drop_last();
        let before = ids_among(front);
        listed_are_among(front);
        assert(files =~= front.push(files.last()));
        assert forall|id: (u64, Seq<u8>)| #[trigger]
            ids_among(files).contains(id) <==> files.contains(id.1) && id_of(id.1) == Some(id) by {
            if ids_among(files).contains(id) {
                let at = ids_among(files).index_of(id);
                if at < before.len() {
                    assert(before[at] == id);
                    assert(before.contains(id));
                    let place = front.index_of(id.1);
                    assert(files[place] == id.1);
                } else {
                    assert(files[files.len() - 1] == id.1);
                }
            }
            if files.contains(id.1) && id_of(id.1) == Some(id) {
                let place = files.index_of(id.1);
                if place < front.len() {
                    assert(front[place] == id.1);
                    assert(before.contains(id));
                    assert(ids_among(files)[before.index_of(id)] == id);
                } else {
                    assert(ids_among(files).last() == id);
                }
            }
        }
    }
}

proof fn members_of_listed(files: Seq<Seq<u8>>)
    ensures
        forall|id: (u64, Seq<u8>)| #[trigger]
            listed(files).contains(id) <==> files.contains(id.1) && id_of(id.1) == Some(id),
{
    listed_are_among(files);
    order::sort_keeps_members(
        ids_among(files),
        |a: (u64, Seq<u8>), b: (u64, Seq<u8>)| a.0 < b.0,
    );
    assert forall|id: (u64, Seq<u8>)| #[trigger]
        listed(files).contains(id) <==> files.contains(id.1) && id_of(id.1) == Some(id) by {
        assert(ids_among(files).contains(id) <==> listed(files).contains(id));
    }
}

proof fn newest_before_is_last(list: Seq<(u64, Seq<u8>)>, at: u64)
    ensures
        newest_before(list, at) is None <==> forall|i: int|
            0 <= i < list.len() ==> (#[trigger] list[i]).0 > at,
        newest_before(list, at) matches Some(found) ==> {
            &&& found < list.len()
            &&& list[found as int].0 <= at
            &&& forall|i: int| found < i < list.len() ==> (#[trigger] list[i]).0 > at
        },
    decreases list.len(),
{
    if list.len() > 0 && list.last().0 > at {
        let front = list.drop_last();
        newest_before_is_last(front, at);
        assert forall|i: int| 0 <= i < front.len() implies front[i] == list[i] by {}
        if newest_before(front, at) is None {
            assert forall|i: int| 0 <= i < list.len() implies (#[trigger] list[i]).0 > at by {
                if i < front.len() {
                    assert(front[i].0 > at);
                }
            }
        } else {
            let found = newest_before(front, at)->0;
            assert(list[found as int].0 <= at);
            assert forall|i: int| found < i < list.len() implies (#[trigger] list[i]).0 > at by {
                if i < front.len() {
                    assert(front[i].0 > at);
                }
            }
        }
    } else if list.len() > 0 {
        assert(list[list.len() - 1].0 <= at);
    }
}

/// A recording is found again among whatever else the directory holds. It is the newest where
/// nothing newer is there, and what is newest at or before a later moment is no older than it.
pub proof fn a_recording_is_found(files: Seq<Seq<u8>>, dir: Seq<u8>, taken_at: u64, at: u64)
    ensures
        ({
            let file = recorded_file(dir, taken_at);
            let list = listed(files.push(file));
            &&& list.contains((taken_at, file))
            &&& newest(list) matches Some(found) && list[found as int].0 >= taken_at
            &&& (forall|i: int|
                0 <= i < listed(files).len() ==> (#[trigger] listed(files)[i]).0 <= taken_at)
                ==> list == listed(files).push((taken_at, file)) && list[newest(list)->0 as int]
                == (taken_at, file)
            &&& taken_at <= at ==> {
                &&& newest_before(list, at) matches Some(found)
                &&& taken_at <= list[found as int].0 <= at
            }
        }),
{
    let file = recorded_file(dir, taken_at);
    let all = files.push(file);
    let list = listed(all);
    let id = (taken_at, file);
    recorded_is_listed(dir, taken_at);
    members_of_listed(all);
    listing_is_chronological(all);
    assert(all[all.len() - 1] == file);
    assert(all.contains(file));
    assert(list.contains(id));
    let place = list.index_of(id);
    assert(list[list.len() - 1].0 >= taken_at) by {
        if place < list.len() - 1 {
            assert(list[place].0 <= list[list.len() - 1].0);
        }
    }
    assert(all.drop_last() =~= files);
    assert(ids_among(all) =~= ids_among(files).push(id));
    assert(ids_among(all).drop_last() =~= ids_among(files));
    let before = listed(files);
    if forall|i: int| 0 <= i < before.len() ==> (#[trigger] before[i]).0 <= taken_at {
        if before.len() > 0 {
            assert(before[before.len() - 1].0 <= taken_at);
        }
        assert(list =~= before.push(id));
    }
    newest_before_is_last(list, at);
    if taken_at <= at {
        assert(list[place].0 <= at);
        let found = newest_before(list, at)->0 as int;
        if place < found {
            assert(list[place].0 <= list[found].0);
        }
    }
}

/// What is recorded of one root at some moments.
pub open spec fn recorded_files(dir: Seq<u8>, times: Seq<u64>) -> Seq<Seq<u8>> {
    times.map_values(|taken_at: u64| recorded_file(dir, taken_at))
}

proof fn recorded_members(dir: Seq<u8>, times: Seq<u64>)
    ensures
        forall|id: (u64, Seq<u8>)| #[trigger]
            listed(recorded_files(dir, times)).contains(id) <==> times.contains(id.0) && id.1
                == recorded_file(dir, id.0),
{
    let files = recorded_files(dir, times);
    members_of_listed(files);
    assert forall|id: (u64, Seq<u8>)| #[trigger]
        listed(files).contains(id) <==> times.contains(id.0) && id.1 == recorded_file(dir, id.0) by {
        if listed(files).contains(id) {
            let place = files.index_of(id.1);
            assert(files[place] == recorded_file(dir, times[place]));
            recorded_is_listed(dir, times[place]);
            assert(times[place] == id.0);
        }
        if times.contains(id.0) && id.1 == recorded_file(dir, id.0) {
            let place = times.index_of(id.0);
            assert(files[place] == id.1);
            recorded_is_listed(dir, id.0);
        }
    }
}

/// Of what was recorded at some moments, in whatever order it is read, the snapshot for a moment is
/// the newest one that does not lie after it. There is none only where every one does.
pub proof fn the_last_picture_before_a_moment(dir: Seq<u8>, times: Seq<u64>, at: u64)
    ensures
        ({
            let list = listed(recorded_files(dir, times));
            &&& newest_before(list, at) is None <==> forall|i: int|
                0 <= i < times.len() ==> (#[trigger] times[i]) > at
            &&& newest_before(list, at) matches Some(found) ==> {
                let id = list[found as int];
                &&& found < list.len()
                &&& id.0 <= at
                &&& times.contains(id.0)
                &&& id.1 == recorded_file(dir, id.0)
                &&& forall|i: int|
                    0 <= i < times.len() && (#[trigger] times[i]) <= at ==> times[i] <= id.0
            }
        }),
{
    let list = listed(recorded_files(dir, times));
    recorded_members(dir, times);
    listing_is_chronological(recorded_files(dir, times));
    newest_before_is_last(list, at);
    assert forall|i: int| 0 <= i < times.len() implies list.contains(
        (#[trigger] times[i], recorded_file(dir, times[i])),
    ) by {
        assert(times.contains(times[i]));
    }
    if newest_before(list, at) is None {
        assert forall|i: int| 0 <= i < times.len() implies (#[trigger] times[i]) > at by {
            let id = (times[i], recorded_file(dir, times[i]));
            assert(list[list.index_of(id)].0 > at);
        }
    } else {
        let found = newest_before(list, at)->0 as int;
        assert(list.contains(list[found]));
        let place = times.index_of(list[found].0);
        assert(times[place] <= at);
        assert forall|i: int|
            0 <= i < times.len() && (#[trigger] times[i]) <= at implies times[i] <= list[found].0 by {
            let id = (times[i], recorded_file(dir, times[i]));
            let other = list.index_of(id);
            if other < found {
                assert(list[other].0 <= list[found].0);
            }
        }
    }
}

/// Whether some snapshots are listed oldest first, no two of one moment.
pub open spec fn ascending(list: Seq<(u64, Seq<u8>)>) -> bool {
    forall|i: int, j: int|
        0 <= i < j < list.len() ==> (#[trigger] list[i]).0 < (#[trigger] list[j]).0
}

proof fn same_members_same_list(left: Seq<(u64, Seq<u8>)>, right: Seq<(u64, Seq<u8>)>)
    requires
        ascending(left),
        ascending(right),
        forall|id: (u64, Seq<u8>)| #[trigger] left.contains(id) <==> right.contains(id),
    ensures
        left == right,
    decreases left.len(),
{
    if left.len() == 0 {
        if right.len() > 0 {
            assert(right.contains(right[0]));
            assert(left.contains(right[0]));
        }
        assert(left =~= right);
    } else {
        assert(left.contains(left.last()));
        assert(right.contains(left.last()));
        assert(right.contains(right.last()));
        assert(left.contains(right.last()));
        let there = right.index_of(left.last());
        let here = left.index_of(right.last());
        assert(right[there] == left.last() && left[here] == right.last());
        assert(there == right.len() - 1) by {
            if there < right.len() - 1 {
                assert(right[there].0 < right[right.len() - 1].0);
                if here < left.len() - 1 {
                    assert(left[here].0 < left[left.len() - 1].0);
                }
            }
        }
        let (a, b) = (left.drop_last(), right.drop_last());
        assert forall|id: (u64, Seq<u8>)| #[trigger] a.contains(id) <==> b.contains(id) by {
            if a.contains(id) {
                let at = a.index_of(id);
                assert(left[at] == id);
                assert(left.contains(id));
                assert(right.contains(id));
                let other = right.index_of(id);
                assert(left[at].0 < left[left.len() - 1].0);
                assert(b[other] == id);
            }
            if b.contains(id) {
                let at = b.index_of(id);
                assert(right[at] == id);
                assert(right.contains(id));
                assert(left.contains(id));
                let other = left.index_of(id);
                assert(right[at].0 < right[right.len() - 1].0);
                assert(a[other] == id);
            }
        }
        same_members_same_list(a, b);
        assert(left =~= a.push(left.last()));
        assert(right =~= b.push(right.last()));
    }
}

proof fn among_once(files: Seq<Seq<u8>>)
    requires
        files.no_duplicates(),
    ensures
        ids_among(files).no_duplicates(),
    decreases files.len(),
{
    if files.len() > 0 {
        let front = files.drop_last();
        among_once(front);
        listed_are_among(front);
        let before = ids_among(front);
        if id_of(files.last()) is Some {
            let id = id_of(files.last())->0;
            assert(!front.contains(files.last())) by {
                if front.contains(files.last()) {
                    assert(files[front.index_of(files.last())] == files[files.len() - 1]);
                }
            }
            assert(!before.contains(id));
            assert(ids_among(files) =~= before.push(id));
        }
    }
}

proof fn moments_are_apart(dir: Seq<u8>, files: Seq<Seq<u8>>)
    requires
        files.no_duplicates(),
        forall|file: Seq<u8>| #[trigger]
            files.contains(file) ==> exists|taken_at: u64| file == recorded_file(dir, taken_at),
    ensures
        ascending(listed(files)),
{
    let list = listed(files);
    members_of_listed(files);
    listing_is_chronological(files);
    among_once(files);
    ids_among(files).lemma_multiset_has_no_duplicates();
    list.lemma_multiset_has_no_duplicates_conv();
    assert forall|i: int, j: int| 0 <= i < j < list.len() implies (#[trigger] list[i]).0 < (
    #[trigger] list[j]).0 by {
        assert(list.contains(list[i]) && list.contains(list[j]));
        let first = choose|taken_at: u64| list[i].1 == recorded_file(dir, taken_at);
        let second = choose|taken_at: u64| list[j].1 == recorded_file(dir, taken_at);
        recorded_is_listed(dir, first);
        recorded_is_listed(dir, second);
        assert(list[i].0 <= list[j].0);
        assert(list[i] != list[j]);
    }
}

/// A root keeps its newest snapshots. Where it was recorded at some moments, and what is surplus is
/// removed, what is left is listed oldest first, in whatever order it is read; there is one for
/// every moment up to the number that is kept, and every moment that is gone lies before them all.
pub proof fn the_newest_are_kept(dir: Seq<u8>, times: Seq<u64>, rest: Seq<Seq<u8>>)
    requires
        times.no_duplicates(),
        rest.no_duplicates(),
        ({
            let list = listed(recorded_files(dir, times));
            forall|file: Seq<u8>| #[trigger]
                rest.contains(file) <==> exists|i: int|
                    surplus(list.len()) <= i < list.len() && (#[trigger] list[i]).1 == file
        }),
    ensures
        listed(rest) == listed(recorded_files(dir, times)).skip(surplus(times.len()) as int),
        listed(rest).len() == if times.len() < RETAIN {
            times.len()
        } else {
            RETAIN as nat
        },
        ascending(listed(rest)),
        forall|id: (u64, Seq<u8>)| #[trigger]
            listed(rest).contains(id) ==> times.contains(id.0) && id.1 == recorded_file(dir, id.0),
        forall|i: int, j: int|
            0 <= i < times.len() && 0 <= j < listed(rest).len() && !listed(rest).contains(
                (times[i], recorded_file(dir, times[i])),
            ) ==> (#[trigger] times[i]) < (#[trigger] listed(rest)[j]).0,
{
    let files = recorded_files(dir, times);
    let list = listed(files);
    let gone = surplus(list.len()) as int;
    let kept = list.skip(gone);
    assert forall|file: Seq<u8>| #[trigger] files.contains(file) implies exists|taken_at: u64|
        file == recorded_file(dir, taken_at) by {
        assert(file == recorded_file(dir, times[files.index_of(file)]));
    }
    assert(files.no_duplicates()) by {
        assert forall|i: int, j: int| 0 <= i < files.len() && 0 <= j < files.len() && i
            != j implies files[i] != files[j] by {
            recorded_is_listed(dir, times[i]);
            recorded_is_listed(dir, times[j]);
            assert(times[i] != times[j]);
        }
    }
    moments_are_apart(dir, files);
    recorded_members(dir, times);
    members_of_listed(files);
    every_file_is_listed(dir, times);
    assert forall|file: Seq<u8>| #[trigger] rest.contains(file) implies exists|taken_at: u64|
        file == recorded_file(dir, taken_at) by {
        let i = choose|i: int| gone <= i < list.len() && (#[trigger] list[i]).1 == file;
        assert(list.contains(list[i]));
        assert(file == recorded_file(dir, list[i].0));
    }
    moments_are_apart(dir, rest);
    members_of_listed(rest);
    assert forall|id: (u64, Seq<u8>)| #[trigger] listed(rest).contains(id) <==> kept.contains(id) by {
        if listed(rest).contains(id) {
            let i = choose|i: int| gone <= i < list.len() && (#[trigger] list[i]).1 == id.1;
            assert(list.contains(list[i]));
            assert(list[i] == id);
            assert(kept[i - gone] == id);
        }
        if kept.contains(id) {
            let i = kept.index_of(id) + gone;
            assert(list[i] == id);
            assert(list.contains(id));
            assert(rest.contains(id.1));
        }
    }
    assert(ascending(kept)) by {
        assert forall|i: int, j: int| 0 <= i < j < kept.len() implies (#[trigger] kept[i]).0 < (
        #[trigger] kept[j]).0 by {
            assert(list[i + gone].0 < list[j + gone].0);
        }
    }
    same_members_same_list(listed(rest), kept);
    assert forall|id: (u64, Seq<u8>)| #[trigger] listed(rest).contains(id) implies times.contains(
        id.0,
    ) && id.1 == recorded_file(dir, id.0) by {
        let i = kept.index_of(id) + gone;
        assert(list[i] == id);
        assert(list.contains(id));
    }
    assert forall|i: int, j: int|
        0 <= i < times.len() && 0 <= j < listed(rest).len() && !listed(rest).contains(
            (times[i], recorded_file(dir, times[i])),
        ) implies (#[trigger] times[i]) < (#[trigger] listed(rest)[j]).0 by {
        let id = (times[i], recorded_file(dir, times[i]));
        assert(times.contains(times[i]));
        assert(list.contains(id));
        let place = list.index_of(id);
        if place >= gone {
            assert(kept[place - gone] == id);
        }
        assert(list[place].0 < list[j + gone].0);
    }
}

proof fn every_file_is_listed(dir: Seq<u8>, times: Seq<u64>)
    ensures
        listed(recorded_files(dir, times)).len() == times.len(),
{
    order::sort_is_a_permutation(
        ids_among(recorded_files(dir, times)),
        |a: (u64, Seq<u8>), b: (u64, Seq<u8>)| a.0 < b.0,
    );
    every_file_counts(dir, times);
}

proof fn every_file_counts(dir: Seq<u8>, times: Seq<u64>)
    ensures
        ids_among(recorded_files(dir, times)).len() == times.len(),
    decreases times.len(),
{
    if times.len() > 0 {
        let files = recorded_files(dir, times);
        every_file_counts(dir, times.drop_last());
        assert(files.drop_last() =~= recorded_files(dir, times.drop_last()));
        assert(files.last() == recorded_file(dir, times.last()));
        recorded_is_listed(dir, times.last());
    }
}

/// Sixteen times itself, so often.
spec fn power_of_sixteen(digits: nat) -> nat
    decreases digits,
{
    if digits == 0 {
        1
    } else {
        16 * power_of_sixteen((digits - 1) as nat)
    }
}

proof fn hex_is_apart(left: u64, right: u64, digits: nat)
    requires
        left < power_of_sixteen(digits),
        right < power_of_sixteen(digits),
        hex_name(left, digits) == hex_name(right, digits),
    ensures
        left == right,
    decreases digits,
{
    if digits > 0 {
        let (a, b) = (hex_name(left, digits), hex_name(right, digits));
        let fewer = (digits - 1) as nat;
        assert(a.drop_last() =~= hex_name(left / 16, fewer));
        assert(b.drop_last() =~= hex_name(right / 16, fewer));
        hex_is_apart(left / 16, right / 16, fewer);
        assert(a.last() == b.last());
        assert(left % 16 == right % 16);
    }
}

/// Roots do not mix: two that are hashed apart have their snapshots in different directories.
pub proof fn roots_do_not_mix(store: Seq<u8>, left: u64, right: u64)
    requires
        path::joined(store, hex_name(left, 16)) == path::joined(store, hex_name(right, 16)),
    ensures
        left == right,
{
    let (a, b) = (hex_name(left, 16), hex_name(right, 16));
    hex_is_written(left, 16);
    hex_is_written(right, 16);
    assert(a =~= b) by {
        let (x, y) = (path::joined(store, a), path::joined(store, b));
        let from = x.len() - 16;
        assert forall|i: int| 0 <= i < 16 implies a[i] == b[i] by {
            assert(x[from + i] == a[i]);
            assert(y[from + i] == b[i]);
        }
    }
    reveal_with_fuel(power_of_sixteen, 17);
    assert(power_of_sixteen(16) == 0x1_0000_0000_0000_0000);
    hex_is_apart(left, right, 16);
}

proof fn hex_is_written(value: u64, digits: nat)
    ensures
        hex_name(value, digits).len() == digits,
        forall|i: int|
            0 <= i < digits ==> 48 <= (#[trigger] hex_name(value, digits)[i]) <= 102
                && hex_name(value, digits)[i] != 47,
    decreases digits,
{
    if digits > 0 {
        hex_is_written(value / 16, (digits - 1) as nat);
    }
}

impl Store {
    /// What the files of a store take up, from their lengths.
    pub fn disk_usage(lengths: &Vec<u64>) -> (bytes: u64)
        ensures
            bytes == space_taken(lengths@),
    {
        let mut bytes: u64 = 0;
        let mut at: usize = 0;
        assert(lengths@.take(0) =~= Seq::empty());
        while at < lengths.len()
            invariant
                at <= lengths@.len(),
                bytes == space_taken(lengths@.take(at as int)),
            decreases lengths@.len() - at,
        {
            proof {
                let upto = lengths@.take(at + 1);
                assert(upto.drop_last() =~= lengths@.take(at as int));
                assert(upto.last() == lengths@[at as int]);
            }
            bytes = bytes.wrapping_add(lengths[at]);
            at += 1;
        }
        assert(lengths@.take(at as int) =~= lengths@);
        bytes
    }
}

/// Some lengths added up.
pub open spec fn space_taken(lengths: Seq<u64>) -> u64
    decreases lengths.len(),
{
    if lengths.len() == 0 {
        0
    } else {
        tree::wrapped(space_taken(lengths.drop_last()), lengths.last())
    }
}

} // verus!
