//! What a scan comes to, held against the disk that it was made of.

use vstd::prelude::*;
use crate::path;
use crate::scan;
use crate::scan::{Account, FileFacts, Open, ScanOptions, Scanning, Sighting};
use crate::tree;
use crate::tree::{EntryType, ScanState, Tree};

verus! {

/// What a scan is made of: the place, what was asked for, and a disk that does not change meanwhile.
pub struct Ground {
    pub root: Seq<u8>,
    pub facts: FileFacts,
    pub options: ScanOptions,
    pub remote_mounts: Seq<Seq<u8>>,
    pub disk: spec_fn(Seq<u8>) -> Option<Seq<Sighting>>,
}

/// Whether a directory is left alone: it is on another device than the root and that was ruled out,
/// or it is a network mount other than the root and those are to be skipped.
pub open spec fn left_alone(ground: Ground, at: Seq<u8>, facts: FileFacts) -> bool {
    ||| ground.options.one_file_system && facts.device != ground.facts.device
    ||| ground.options.skip_remote && exists|i: int|
        0 <= i < ground.remote_mounts.len() && path::same_place(
            #[trigger] ground.remote_mounts[i],
            at,
        ) && !path::same_place(ground.remote_mounts[i], ground.root)
}

/// The entries of a listing that the filesystem had something to say of.
pub open spec fn told(list: Seq<Sighting>) -> Seq<Sighting>
    decreases list.len(),
{
    if list.len() == 0 {
        Seq::empty()
    } else if list.last().facts is Some {
        told(list.drop_last()).push(list.last())
    } else {
        told(list.drop_last())
    }
}

/// The blocks of some entries together, in bytes.
pub open spec fn bytes_allocated(entries: Seq<Tree>) -> nat
    decreases entries.len(),
{
    if entries.len() == 0 {
        0
    } else {
        bytes_allocated(entries.drop_last()) + entries.last().allocated_size as nat
    }
}

/// The lengths of some entries together.
pub open spec fn bytes_apparent(entries: Seq<Tree>) -> nat
    decreases entries.len(),
{
    if entries.len() == 0 {
        0
    } else {
        bytes_apparent(entries.drop_last()) + entries.last().apparent_size as nat
    }
}

/// How many items some entries are together.
pub open spec fn items_counted(entries: Seq<Tree>) -> nat
    decreases entries.len(),
{
    if entries.len() == 0 {
        0
    } else {
        items_counted(entries.drop_last()) + entries.last().items as nat
    }
}

/// Whether an entry is true to what the disk says of it.
///
/// A file takes up 512 bytes for each of its blocks, whatever its length, and its length is its
/// apparent size; only where hard links are counted once may one of several names stand for
/// nothing. A directory takes up its own blocks and what is in it, and is as long as what is in it;
/// it counts as one item beside those in it. One that is left alone, or cannot be read, is there and
/// says so.
pub open spec fn true_to_disk(
    tree: Tree,
    name: Seq<u8>,
    facts: FileFacts,
    at: Seq<u8>,
    ground: Ground,
) -> bool
    decreases tree, 1nat,
{
    &&& tree.name == name
    &&& tree.entry_type == facts.entry_type
    &&& if facts.entry_type != EntryType::Directory {
        &&& tree.children.len() == 0
        &&& tree.items == 1
        &&& tree.modified == facts.modified
        &&& tree.scan_state == ScanState::Complete
        &&& {
            ||| {
                &&& tree.allocated_size == (facts.blocks * 512) % 0x1_0000_0000_0000_0000
                &&& tree.apparent_size == facts.length
            }
            ||| {
                &&& ground.options.dedup_hardlinks
                &&& facts.links > 1
                &&& tree.allocated_size == 0
                &&& tree.apparent_size == 0
            }
        }
    } else if left_alone(ground, at, facts) {
        &&& tree.children.len() == 0
        &&& tree.items == 1
        &&& tree.modified == facts.modified
        &&& tree.scan_state == ScanState::Skipped
        &&& tree.allocated_size == 0
        &&& tree.apparent_size == 0
    } else {
        true_directory(tree, facts, at, ground)
    }
}

/// Whether a directory that was walked into is true to what the disk says of it and holds.
pub open spec fn true_directory(tree: Tree, facts: FileFacts, at: Seq<u8>, ground: Ground) -> bool
    decreases tree, 0nat,
{
    match (ground.disk)(at) {
        None => {
            &&& tree.children.len() == 0
            &&& tree.items == 1
            &&& tree.modified == facts.modified
            &&& tree.scan_state == ScanState::Denied
            &&& tree.allocated_size == (facts.blocks * 512) % 0x1_0000_0000_0000_0000
            &&& tree.apparent_size == 0
        },
        Some(list) => {
            &&& tree.children.len() == told(list).len()
            &&& forall|i: int|
                0 <= i < tree.children.len() ==> true_to_disk(
                    #[trigger] tree.children[i],
                    told(list)[i].name,
                    told(list)[i].facts->0,
                    path::joined(at, told(list)[i].name),
                    ground,
                )
            &&& tree.allocated_size == (facts.blocks * 512 + bytes_allocated(tree.children))
                % 0x1_0000_0000_0000_0000
            &&& tree.apparent_size == bytes_apparent(tree.children) % 0x1_0000_0000_0000_0000
            &&& tree.items == (1 + items_counted(tree.children)) % 0x1_0000_0000_0000_0000
            &&& tree.modified >= facts.modified
            &&& forall|i: int|
                0 <= i < tree.children.len() ==> tree.modified >= (
                #[trigger] tree.children[i]).modified
            &&& tree.modified == facts.modified || exists|i: int|
                0 <= i < tree.children.len() && tree.modified == (
                #[trigger] tree.children[i]).modified
            &&& tree.scan_state == ScanState::Complete || tree.scan_state == ScanState::Partial
            &&& tree.scan_state == ScanState::Complete <==> forall|i: int|
                0 <= i < tree.children.len() ==> (#[trigger] tree.children[i]).scan_state
                    == ScanState::Complete
        },
    }
}

/// Whether the whole of a scan is true to the disk. The root is walked into whatever it is.
pub open spec fn true_scan(tree: Tree, ground: Ground) -> bool {
    &&& tree.name == ground.root
    &&& tree.entry_type == ground.facts.entry_type
    &&& if ground.facts.entry_type == EntryType::Directory {
        true_directory(tree, ground.facts, ground.root, ground)
    } else {
        true_to_disk(tree, ground.root, ground.facts, ground.root, ground)
    }
}

/// What was found of the directory that a frame stands for: the root, or the last thing taken out of
/// the frame below it.
spec fn found_of(stack: Seq<Open>, i: int, ground: Ground) -> Sighting {
    if i == 0 {
        Sighting { name: ground.root, facts: Some(ground.facts) }
    } else {
        let list = (ground.disk)(stack[i - 1].path)->0;
        list[list.len() - stack[i - 1].rest.len() - 1]
    }
}

/// Whether a directory that is being counted is true to the disk as far as it has been counted.
spec fn true_frame(stack: Seq<Open>, i: int, ground: Ground) -> bool {
    let frame = stack[i];
    let found = found_of(stack, i, ground);
    let facts = found.facts->0;
    let last = i == stack.len() - 1;
    &&& found.facts is Some
    &&& facts.entry_type == EntryType::Directory
    &&& frame.path == if i == 0 {
        ground.root
    } else {
        path::joined(stack[i - 1].path, found.name)
    }
    &&& i > 0 ==> !left_alone(ground, frame.path, facts)
    &&& frame.tree == (Tree {
        name: found.name,
        apparent_size: 0,
        allocated_size: ((facts.blocks * 512) % 0x1_0000_0000_0000_0000) as u64,
        entry_type: EntryType::Directory,
        items: 1,
        modified: facts.modified,
        children: Seq::empty(),
        scan_state: ScanState::Complete,
    })
    &&& frame.reading ==> last && frame.children.len() == 0 && frame.rest.len() == 0
    &&& !frame.reading ==> {
        let list = (ground.disk)(frame.path)->0;
        let done = list.len() - frame.rest.len();
        let known = told(list.take(done));
        &&& (ground.disk)(frame.path) is Some
        &&& 0 <= done
        &&& frame.rest == list.skip(done).reverse()
        &&& !last ==> done > 0 && list[done - 1].facts is Some
        &&& frame.children.len() == if last {
            known.len() as int
        } else {
            known.len() - 1
        }
        &&& forall|j: int|
            0 <= j < frame.children.len() ==> true_to_disk(
                #[trigger] frame.children[j],
                known[j].name,
                known[j].facts->0,
                path::joined(frame.path, known[j].name),
                ground,
            )
    }
}

/// Whether a scan is true to the disk as far as it has got.
spec fn true_so_far(s: Scanning, ground: Ground) -> bool {
    &&& s.options == ground.options
    &&& s.options.max_depth is None
    &&& s.root_device == ground.facts.device
    &&& s.remote_mounts == if ground.options.skip_remote {
        scan::other_places(ground.remote_mounts, ground.root)
    } else {
        Seq::empty()
    }
    &&& forall|i: int| 0 <= i < s.stack.len() ==> #[trigger] true_frame(s.stack, i, ground)
    &&& s.stack.len() > 0 ==> s.result is None
    &&& s.stack.len() == 0 ==> s.result is Some && true_scan(s.result->0, ground)
}

proof fn others_are_all_others(places: Seq<Seq<u8>>, one: Seq<u8>, at: Seq<u8>)
    ensures
        (exists|i: int|
            0 <= i < scan::other_places(places, one).len() && path::same_place(
                #[trigger] scan::other_places(places, one)[i],
                at,
            )) <==> exists|i: int|
            0 <= i < places.len() && path::same_place(#[trigger] places[i], at)
                && !path::same_place(places[i], one),
    decreases places.len(),
{
    if places.len() > 0 {
        let front = places.drop_last();
        let before = scan::other_places(front, one);
        let all = scan::other_places(places, one);
        others_are_all_others(front, one, at);
        if exists|i: int| 0 <= i < all.len() && path::same_place(#[trigger] all[i], at) {
            let i = choose|i: int| 0 <= i < all.len() && path::same_place(#[trigger] all[i], at);
            if i < before.len() {
                assert(all[i] == before[i]);
                let k = choose|k: int|
                    0 <= k < front.len() && path::same_place(#[trigger] front[k], at)
                        && !path::same_place(front[k], one);
                assert(places[k] == front[k]);
            } else {
                assert(places[places.len() - 1] == all[i]);
            }
        }
        if exists|i: int|
            0 <= i < places.len() && path::same_place(#[trigger] places[i], at)
                && !path::same_place(places[i], one) {
            let i = choose|i: int|
                0 <= i < places.len() && path::same_place(#[trigger] places[i], at)
                    && !path::same_place(places[i], one);
            if i < front.len() {
                assert(front[i] == places[i]);
                let k = choose|k: int|
                    0 <= k < before.len() && path::same_place(#[trigger] before[k], at);
                assert(all[k] == before[k]);
            } else {
                assert(all[all.len() - 1] == places[i]);
            }
        }
    }
}

/// What a directory comes to once its children are rolled in.
proof fn rolling_in(tree: Tree, children: Seq<Tree>)
    requires
        tree.scan_state == ScanState::Complete,
        forall|i: int|
            0 <= i < children.len() ==> (#[trigger] children[i]).scan_state
                != ScanState::Cancelled,
    ensures
        ({
            let whole = scan::absorb_all(tree, children);
            &&& whole.name == tree.name
            &&& whole.entry_type == tree.entry_type
            &&& whole.children == tree.children
            &&& whole.allocated_size == (tree.allocated_size + bytes_allocated(children))
                % 0x1_0000_0000_0000_0000
            &&& whole.apparent_size == (tree.apparent_size + bytes_apparent(children))
                % 0x1_0000_0000_0000_0000
            &&& whole.items == (tree.items + items_counted(children)) % 0x1_0000_0000_0000_0000
            &&& whole.modified >= tree.modified
            &&& forall|i: int|
                0 <= i < children.len() ==> whole.modified >= (#[trigger] children[i]).modified
            &&& whole.modified == tree.modified || exists|i: int|
                0 <= i < children.len() && whole.modified == (#[trigger] children[i]).modified
            &&& whole.scan_state == ScanState::Complete || whole.scan_state == ScanState::Partial
            &&& whole.scan_state == ScanState::Complete <==> forall|i: int|
                0 <= i < children.len() ==> (#[trigger] children[i]).scan_state
                    == ScanState::Complete
        }),
    decreases children.len(),
{
    let whole = scan::absorb_all(tree, children);
    if children.len() > 0 {
        let front = children.drop_last();
        let last = children.last();
        let before = scan::absorb_all(tree, front);
        assert forall|i: int| 0 <= i < front.len() implies (#[trigger] front[i]).scan_state
            != ScanState::Cancelled by {
            assert(front[i] == children[i]);
        }
        rolling_in(tree, front);
        assert(children[children.len() - 1] == last);
        assert(whole == tree::absorbed(before, last));
        assert forall|i: int| 0 <= i < children.len() implies whole.modified >= (
        #[trigger] children[i]).modified by {
            if i < front.len() {
                assert(front[i] == children[i]);
            }
        }
        if whole.modified != tree.modified {
            if whole.modified == before.modified && before.modified != tree.modified {
                let k = choose|k: int|
                    0 <= k < front.len() && before.modified == (#[trigger] front[k]).modified;
                assert(children[k] == front[k]);
            } else {
                assert(whole.modified == children[children.len() - 1].modified);
            }
        }
        if whole.scan_state == ScanState::Complete {
            assert forall|i: int| 0 <= i < children.len() implies (
            #[trigger] children[i]).scan_state == ScanState::Complete by {
                if i < front.len() {
                    assert(front[i] == children[i]);
                }
            }
        }
        if forall|i: int|
            0 <= i < children.len() ==> (#[trigger] children[i]).scan_state
                == ScanState::Complete {
            assert forall|i: int| 0 <= i < front.len() implies (#[trigger] front[i]).scan_state
                == ScanState::Complete by {
                assert(front[i] == children[i]);
            }
        }
    }
}

proof fn told_of_more(list: Seq<Sighting>, done: int)
    requires
        0 <= done < list.len(),
    ensures
        told(list.take(done + 1)) == if list[done].facts is Some {
            told(list.take(done)).push(list[done])
        } else {
            told(list.take(done))
        },
{
    assert(list.take(done + 1).drop_last() =~= list.take(done));
    assert(list.take(done + 1).last() == list[done]);
}

/// The frames below one that is on top are as they were when it was not there.
proof fn lower_frames(stack: Seq<Open>, longer: Seq<Open>, i: int, ground: Ground)
    requires
        0 <= i < stack.len() - 1,
        stack.len() <= longer.len(),
        forall|k: int| 0 <= k < stack.len() - 1 ==> stack[k] == longer[k],
    ensures
        true_frame(stack, i, ground) == true_frame(longer, i, ground),
{
    assert(stack[i] == longer[i]);
    if i > 0 {
        assert(stack[i - 1] == longer[i - 1]);
    }
}

/// Handing a directory over to the one that holds it keeps a scan true.
proof fn handing_over(s: Scanning, finished: Tree, ground: Ground)
    requires
        true_so_far(s, ground),
        s.stack.len() > 0,
        ({
            let found = found_of(s.stack, s.stack.len() - 1, ground);
            let at = s.stack.last().path;
            &&& finished.name == found.name
            &&& finished.entry_type == EntryType::Directory
            &&& true_directory(finished, found.facts->0, at, ground)
        }),
    ensures
        true_so_far(
            scan::delivered(Scanning { stack: s.stack.drop_last(), ..s }, finished),
            ground,
        ),
{
    let depth = s.stack.len() - 1;
    let below = Scanning { stack: s.stack.drop_last(), ..s };
    let out = scan::delivered(below, finished);
    assert(true_frame(s.stack, depth, ground));
    if depth > 0 {
        let top = depth - 1;
        assert(true_frame(s.stack, top, ground));
        let old = s.stack[top];
        let frame = out.stack[top];
        assert(frame == (Open { children: old.children.push(finished), ..old }));
        assert forall|i: int| 0 <= i < out.stack.len() implies #[trigger] true_frame(
            out.stack,
            i,
            ground,
        ) by {
            assert(true_frame(s.stack, i, ground));
            if i < top {
                lower_frames(out.stack, s.stack, i, ground);
            } else {
                let list = (ground.disk)(frame.path)->0;
                let done = list.len() - frame.rest.len();
                let known = told(list.take(done));
                told_of_more(list, done - 1);
                assert(known.last() == list[done - 1]);
                assert(found_of(s.stack, depth, ground) == list[done - 1]);
                if top > 0 {
                    assert(out.stack[top - 1] == s.stack[top - 1]);
                }
                assert forall|j: int| 0 <= j < frame.children.len() implies true_to_disk(
                    #[trigger] frame.children[j],
                    known[j].name,
                    known[j].facts->0,
                    path::joined(frame.path, known[j].name),
                    ground,
                ) by {
                    if j < old.children.len() {
                        assert(frame.children[j] == old.children[j]);
                    } else {
                        assert(frame.children[j] == finished);
                    }
                }
            }
        }
    }
}

/// Closing a directory that is counted keeps a scan true.
proof fn closing_is_true(s: Scanning, ground: Ground)
    requires
        true_so_far(s, ground),
        s.stack.len() > 0,
        !s.stack.last().reading,
        s.stack.last().rest.len() == 0,
    ensures
        true_so_far(scan::ticked(s), ground),
{
    let depth = s.stack.len() - 1;
    let top = s.stack.last();
    let found = found_of(s.stack, depth, ground);
    let facts = found.facts->0;
    assert(true_frame(s.stack, depth, ground));
    let list = (ground.disk)(top.path)->0;
    assert(list.take(list.len() as int) =~= list);
    assert forall|i: int| 0 <= i < top.children.len() implies (#[trigger] top.children[i]).scan_state
        != ScanState::Cancelled by {
        assert(true_to_disk(
            top.children[i],
            told(list)[i].name,
            told(list)[i].facts->0,
            path::joined(top.path, told(list)[i].name),
            ground,
        ));
    }
    rolling_in(top.tree, top.children);
    let finished = scan::closed(s.options, depth as nat, top);
    assert(finished.children == top.children);
    assert(true_directory(finished, facts, top.path, ground));
    let told_on = Scanning {
        progress: scan::published(s.progress, depth as nat, top.path, finished),
        ..s
    };
    assert(true_so_far(told_on, ground));
    handing_over(told_on, finished, ground);
}

/// Counting one more thing keeps a scan true.
proof fn counting_is_true(s: Scanning, ground: Ground)
    requires
        true_so_far(s, ground),
        s.stack.len() > 0,
        !s.stack.last().reading,
        s.stack.last().rest.len() > 0,
    ensures
        true_so_far(scan::ticked(s), ground),
{
    let depth = s.stack.len() - 1;
    let top = s.stack.last();
    assert(true_frame(s.stack, depth, ground));
    let list = (ground.disk)(top.path)->0;
    let done = list.len() - top.rest.len();
    let next = top.rest.last();
    let out = scan::ticked(s);
    assert(next == list[done]);
    told_of_more(list, done);
    let known = told(list.take(done));
    let more = told(list.take(done + 1));
    let rest = Scanning {
        stack: s.stack.drop_last().push(Open { rest: top.rest.drop_last(), ..top }),
        ..s
    };
    let at = path::joined(top.path, next.name);
    assert(scan::is_off_limits(rest, at, next.facts->0) == left_alone(
        ground,
        at,
        next.facts->0,
    )) by {
        others_are_all_others(ground.remote_mounts, ground.root, at);
    }
    assert(top.rest.drop_last() =~= list.skip(done + 1).reverse());
    let frame = out.stack[depth];
    assert(frame.rest == list.skip(done + 1).reverse());
    assert(frame.path == top.path && frame.tree == top.tree && !frame.reading);
    if depth > 0 {
        assert(out.stack[depth - 1] == s.stack[depth - 1]);
    }
    let opens = next.facts is Some && next.facts->0.entry_type == EntryType::Directory
        && !left_alone(ground, at, next.facts->0);
    if next.facts is Some && !opens {
        assert(frame.children == top.children.push(frame.children.last()));
        let leaf = frame.children.last();
        assert(true_to_disk(leaf, next.name, next.facts->0, at, ground));
        assert forall|j: int| 0 <= j < frame.children.len() implies true_to_disk(
            #[trigger] frame.children[j],
            more[j].name,
            more[j].facts->0,
            path::joined(frame.path, more[j].name),
            ground,
        ) by {
            if j < top.children.len() {
                assert(frame.children[j] == top.children[j]);
                assert(more[j] == known[j]);
            }
        }
    } else {
        assert(frame.children == top.children);
        assert forall|j: int| 0 <= j < frame.children.len() implies true_to_disk(
            #[trigger] frame.children[j],
            more[j].name,
            more[j].facts->0,
            path::joined(frame.path, more[j].name),
            ground,
        ) by {
            assert(frame.children[j] == top.children[j]);
            assert(more[j] == known[j]);
        }
    }
    assert(found_of(out.stack, depth, ground) == found_of(s.stack, depth, ground));
    assert(true_frame(out.stack, depth, ground));
    if opens {
        assert(found_of(out.stack, depth + 1, ground) == next);
        assert(true_frame(out.stack, depth + 1, ground));
    }
    assert forall|i: int| 0 <= i < out.stack.len() implies #[trigger] true_frame(
        out.stack,
        i,
        ground,
    ) by {
        if i < depth {
            assert(true_frame(s.stack, i, ground));
            lower_frames(s.stack, out.stack, i, ground);
        }
    }
}

proof fn settling_is_true(s: Scanning, ground: Ground)
    requires
        true_so_far(s, ground),
    ensures
        true_so_far(scan::settled(s, false), ground),
        scan::settled(s, false).stack.len() > 0 ==> scan::settled(s, false).stack.last().reading,
    decreases scan::work_left(s.stack),
{
    if s.stack.len() > 0 && !s.stack.last().reading {
        scan::ticking_is_progress(s);
        if s.stack.last().rest.len() == 0 {
            closing_is_true(s, ground);
        } else {
            counting_is_true(s, ground);
        }
        settling_is_true(scan::ticked(s), ground);
    }
}

proof fn awaiting_is_true(s: Scanning, ground: Ground)
    requires
        true_so_far(s, ground),
    ensures
        true_so_far(scan::awaiting(s, false), ground),
        scan::awaiting(s, false).stack.len() > 0 ==> scan::awaiting(s, false).stack.last().reading,
{
    settling_is_true(s, ground);
    let rest = scan::settled(s, false);
    let out = scan::awaiting(s, false);
    assert(out.stack == rest.stack);
    assert forall|i: int| 0 <= i < out.stack.len() implies #[trigger] true_frame(
        out.stack,
        i,
        ground,
    ) by {
        assert(true_frame(rest.stack, i, ground));
    }
}

proof fn answering_is_true(s: Scanning, ground: Ground)
    requires
        true_so_far(s, ground),
        s.stack.len() > 0,
        s.stack.last().reading,
    ensures
        true_so_far(scan::answered(s, (ground.disk)(s.stack.last().path)), ground),
{
    let depth = s.stack.len() - 1;
    let top = s.stack.last();
    let out = scan::answered(s, (ground.disk)(top.path));
    assert(true_frame(s.stack, depth, ground));
    match (ground.disk)(top.path) {
        None => {
            let noted = Scanning { progress: scan::with_error(s.progress), ..s };
            assert(true_so_far(noted, ground));
            let finished = Tree { scan_state: ScanState::Denied, ..top.tree };
            assert(true_directory(
                finished,
                found_of(s.stack, depth, ground).facts->0,
                top.path,
                ground,
            ));
            handing_over(noted, finished, ground);
        },
        Some(list) => {
            assert(list.skip(0) =~= list);
            assert(told(list.take(0)) =~= Seq::empty());
            if depth > 0 {
                assert(out.stack[depth - 1] == s.stack[depth - 1]);
            }
            assert(found_of(out.stack, depth, ground) == found_of(s.stack, depth, ground));
            assert(true_frame(out.stack, depth, ground));
            assert forall|i: int| 0 <= i < out.stack.len() implies #[trigger] true_frame(
                out.stack,
                i,
                ground,
            ) by {
                if i < depth {
                    assert(true_frame(s.stack, i, ground));
                    lower_frames(out.stack, s.stack, i, ground);
                }
            }
        },
    }
}

proof fn reading_is_true(s: Scanning, ground: Ground, reads: nat)
    requires
        true_so_far(s, ground),
    ensures
        true_so_far(scan::after_reading(s, ground.disk, reads), ground),
        scan::after_reading(s, ground.disk, reads).stack.len() > 0 ==> scan::after_reading(
            s,
            ground.disk,
            reads,
        ).stack.last().reading,
    decreases reads,
{
    if reads == 0 {
        awaiting_is_true(s, ground);
    } else {
        let before = scan::after_reading(s, ground.disk, (reads - 1) as nat);
        reading_is_true(s, ground, (reads - 1) as nat);
        if before.stack.len() > 0 {
            answering_is_true(before, ground);
            awaiting_is_true(
                scan::answered(before, (ground.disk)(before.stack.last().path)),
                ground,
            );
        }
    }
}

/// A finished scan is what the disk holds: there is an entry for everything in each listing that the
/// filesystem had something to say of, in that order, a file with 512 bytes for each of its blocks
/// and its own length, a directory with what it takes up itself and all that is in it. A directory
/// that could not be read, or was to be left alone, is there with nothing in it.
pub proof fn scans_hold_what_the_disk_holds(
    root: Seq<u8>,
    facts: FileFacts,
    options: ScanOptions,
    remote_mounts: Seq<Seq<u8>>,
    stream_depth: usize,
    disk: spec_fn(Seq<u8>) -> Option<Seq<Sighting>>,
    reads: nat,
)
    requires
        options.max_depth is None,
    ensures
        ({
            let end = scan::after_reading(
                scan::started(root, facts, options, remote_mounts, stream_depth),
                disk,
                reads,
            );
            let ground = Ground { root, facts, options, remote_mounts, disk };
            &&& end.result is Some <==> end.stack.len() == 0
            &&& end.result matches Some(tree) ==> true_scan(tree, ground)
        }),
{
    let ground = Ground { root, facts, options, remote_mounts, disk };
    let s = scan::started(root, facts, options, remote_mounts, stream_depth);
    if facts.entry_type == EntryType::Directory {
        assert(true_frame(s.stack, 0, ground));
    }
    assert(true_so_far(s, ground));
    reading_is_true(s, ground, reads);
}

/// A file takes up 512 bytes for each block that the filesystem reports, whatever its length is, and
/// is as long as it is: both for a file that is scanned by itself and for one that is next in a
/// directory. The one exception is a further name of a file that has several, once it has been
/// counted and where such are counted once: it adds nothing.
pub proof fn files_take_up_their_blocks(s: Scanning)
    requires
        s.stack.len() > 0,
        !s.stack.last().reading,
        s.stack.last().rest.len() > 0,
        s.stack.last().rest.last().facts is Some,
        s.stack.last().rest.last().facts->0.entry_type != EntryType::Directory,
    ensures
        ({
            let facts = s.stack.last().rest.last().facts->0;
            let after = scan::ticked(s);
            let entry = after.stack.last().children.last();
            let again = s.options.dedup_hardlinks && facts.links > 1 && s.seen_links.contains(
                scan::link_key(facts),
            );
            &&& after.stack.last().children.len() == s.stack.last().children.len() + 1
            &&& entry.name == s.stack.last().rest.last().name
            &&& entry.items == 1
            &&& !again ==> {
                &&& entry.allocated_size == (facts.blocks * 512) % 0x1_0000_0000_0000_0000
                &&& entry.apparent_size == facts.length
                &&& after.progress.bytes == (s.progress.bytes + facts.blocks * 512)
                    % 0x1_0000_0000_0000_0000
            }
            &&& again ==> {
                &&& entry.allocated_size == 0
                &&& entry.apparent_size == 0
                &&& after.progress.bytes == s.progress.bytes
            }
            &&& after.progress.entries == (s.progress.entries + 1) % 0x1_0000_0000_0000_0000
            &&& after.seen_links == if s.options.dedup_hardlinks && facts.links > 1 {
                s.seen_links.insert(scan::link_key(facts))
            } else {
                s.seen_links
            }
        }),
{
}

/// No file is known before it was seen: a scan starts knowing none, and nothing but a file with
/// several names is ever remembered. So the first name of each is the one that counts.
pub proof fn links_are_known_once_seen(
    s: Scanning,
    root: Seq<u8>,
    facts: FileFacts,
    options: ScanOptions,
    remote_mounts: Seq<Seq<u8>>,
    stream_depth: usize,
    listing: Option<Seq<Sighting>>,
)
    ensures
        facts.entry_type == EntryType::Directory ==> scan::started(
            root,
            facts,
            options,
            remote_mounts,
            stream_depth,
        ).seen_links == Set::<u128>::empty(),
        scan::answered(s, listing).seen_links == s.seen_links,
        s.stack.len() > 0 && !s.stack.last().reading && (s.stack.last().rest.len() == 0
            || s.stack.last().rest.last().facts is None
            || s.stack.last().rest.last().facts->0.entry_type == EntryType::Directory)
            ==> scan::ticked(s).seen_links == s.seen_links,
{
}

/// What cannot be read is counted as an error: an entry of which the filesystem says nothing, and a
/// directory that does not open. Nothing else is.
pub proof fn errors_are_what_could_not_be_read(s: Scanning, listing: Option<Seq<Sighting>>)
    requires
        s.stack.len() > 0,
    ensures
        scan::answered(s, listing).progress.errors == if listing is None {
            (s.progress.errors + 1) % 0x1_0000_0000_0000_0000
        } else {
            s.progress.errors as int
        },
        !s.stack.last().reading ==> scan::ticked(s).progress.errors == if s.stack.last().rest.len()
            > 0 && s.stack.last().rest.last().facts is None {
            (s.progress.errors + 1) % 0x1_0000_0000_0000_0000
        } else {
            s.progress.errors as int
        },
{
}

/// A scan that is cancelled ends at once: no directory is asked for any more, and there is a tree,
/// which says that it was cancelled wherever something was still to be read.
pub proof fn cancelling_ends_a_scan(s: Scanning)
    requires
        s.stack.len() == 0 ==> s.result is Some,
    ensures
        scan::awaiting(s, true).stack.len() == 0,
        scan::awaiting(s, true).result is Some,
        s.stack.len() > 0 && s.stack.last().reading ==> scan::awaiting(
            s,
            true,
        ).result->0.scan_state == ScanState::Cancelled,
{
    cancelling_settles(s);
    if s.stack.len() > 0 && s.stack.last().reading {
        let next = scan::given_up(s, ScanState::Cancelled);
        scan::giving_up_is_progress(s, ScanState::Cancelled);
        if next.stack.len() > 0 {
            let last = next.stack.last().children.len() - 1;
            assert(next.stack.last().children[last].scan_state == ScanState::Cancelled);
        }
        cancelled_stays(next);
    }
}

proof fn cancelling_settles(s: Scanning)
    requires
        s.stack.len() == 0 ==> s.result is Some,
    ensures
        scan::settled(s, true).stack.len() == 0,
        scan::settled(s, true).result is Some,
    decreases scan::work_left(s.stack),
{
    if s.stack.len() > 0 {
        if s.stack.last().reading {
            scan::giving_up_is_progress(s, ScanState::Cancelled);
            cancelling_settles(scan::given_up(s, ScanState::Cancelled));
        } else {
            scan::ticking_is_progress(s);
            cancelling_settles(scan::ticked(s));
        }
    }
}

/// Whether something that was given up is in what has been counted.
spec fn cut_short(s: Scanning) -> bool {
    if s.stack.len() == 0 {
        s.result is Some && s.result->0.scan_state == ScanState::Cancelled
    } else {
        exists|i: int, j: int|
            0 <= i < s.stack.len() && 0 <= j < s.stack[i].children.len()
                && (#[trigger] s.stack[i].children[j]).scan_state == ScanState::Cancelled
    }
}

proof fn cancelled_rolls_in(tree: Tree, children: Seq<Tree>, j: int)
    requires
        0 <= j < children.len(),
        children[j].scan_state == ScanState::Cancelled,
    ensures
        scan::absorb_all(tree, children).scan_state == ScanState::Cancelled,
    decreases children.len(),
{
    if j < children.len() - 1 {
        cancelled_rolls_in(tree, children.drop_last(), j);
    }
}

proof fn cancelled_stays(s: Scanning)
    requires
        cut_short(s),
    ensures
        cut_short(scan::settled(s, true)),
    decreases scan::work_left(s.stack),
{
    if s.stack.len() > 0 {
        let (i, j) = choose|i: int, j: int|
            0 <= i < s.stack.len() && 0 <= j < s.stack[i].children.len()
                && (#[trigger] s.stack[i].children[j]).scan_state == ScanState::Cancelled;
        let depth = s.stack.len() - 1;
        if s.stack.last().reading {
            let next = scan::given_up(s, ScanState::Cancelled);
            scan::giving_up_is_progress(s, ScanState::Cancelled);
            if next.stack.len() > 0 {
                let top = next.stack.len() - 1;
                let last = next.stack[top].children.len() - 1;
                assert(next.stack[top].children[last].scan_state == ScanState::Cancelled);
            }
            cancelled_stays(next);
        } else {
            let next = scan::ticked(s);
            scan::ticking_is_progress(s);
            if s.stack.last().rest.len() == 0 {
                if i == depth {
                    cancelled_rolls_in(s.stack.last().tree, s.stack.last().children, j);
                    if next.stack.len() > 0 {
                        let top = next.stack.len() - 1;
                        let last = next.stack[top].children.len() - 1;
                        assert(next.stack[top].children[last].scan_state == ScanState::Cancelled);
                    }
                } else {
                    assert(next.stack[i].children[j] == s.stack[i].children[j]);
                }
            } else {
                assert(next.stack[i].children[j] == s.stack[i].children[j]);
            }
            cancelled_stays(next);
        }
    }
}

/// A directory is made known as soon as it is finished, with the figures that it has, down to the
/// level that was asked for; where the scan started is not.
pub proof fn finished_directories_are_made_known(
    account: Account,
    depth: nat,
    at: Seq<u8>,
    tree: Tree,
)
    ensures
        ({
            let after = scan::published(account, depth, at, tree);
            &&& 1 <= depth <= account.stream_depth ==> {
                &&& after.completed.len() == account.completed.len() + 1
                &&& after.completed.drop_last() == account.completed
                &&& after.completed.last().path == at
                &&& after.completed.last().allocated == tree.allocated_size
                &&& after.completed.last().apparent == tree.apparent_size
                &&& after.completed.last().items == tree.items
            }
            &&& depth == 0 || depth > account.stream_depth ==> after == account
            &&& after.entries == account.entries && after.bytes == account.bytes && after.errors
                == account.errors
        }),
{
    let after = scan::published(account, depth, at, tree);
    if 1 <= depth <= account.stream_depth {
        assert(after.completed.drop_last() =~= account.completed);
    }
}

/// A scan is finished once it has its result and not before, and what it is at is the directory that
/// it reads.
pub proof fn a_result_finishes_a_scan(s: Scanning, tree: Tree, cancelled: bool)
    ensures
        s.stack.len() == 0 ==> scan::delivered(s, tree).progress.finished && scan::delivered(
            s,
            tree,
        ).result == Some(tree),
        s.stack.len() > 0 ==> scan::delivered(s, tree).progress == s.progress && scan::delivered(
            s,
            tree,
        ).result == s.result,
        scan::awaiting(s, cancelled).stack.len() > 0 ==> scan::awaiting(
            s,
            cancelled,
        ).progress.current == scan::awaiting(s, cancelled).stack.last().path,
{
}

/// A scan starts with nothing counted, nothing found and nothing seen.
pub proof fn scans_start_from_nothing(stream_depth: usize)
    ensures
        ({
            let account = scan::at_rest(stream_depth);
            &&& account.entries == 0 && account.bytes == 0 && account.errors == 0
            &&& !account.finished
            &&& account.completed.len() == 0 && account.current.len() == 0
            &&& account.stream_depth == stream_depth
        }),
{
}

} // verus!
