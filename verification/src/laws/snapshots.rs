//! What is kept of a scan, and for how long.

use vstd::prelude::*;
use crate::history;
use crate::tree::Tree;

verus! {

/// What is too small to be kept: anything under a ten-thousandth of the whole, or under a megabyte
/// where that is more.
pub proof fn the_floor_goes_by_the_whole(tree: Tree)
    ensures
        history::floor_of(tree) == if tree.allocated_size / 10_000 > 1_000_000 {
            tree.allocated_size / 10_000
        } else {
            1_000_000
        },
{
}

/// Of the newest snapshots sixty-four are kept, and the oldest go.
pub proof fn sixty_four_are_kept(count: nat)
    ensures
        count > 64 ==> history::surplus(count) == count - 64,
        count <= 64 ==> history::surplus(count) == 0,
{
}

/// The entry that is kept of one in a tree of which so many levels are kept: all its figures, and of
/// what is in it whatever is not too small, in the same order, one level less of each.
pub proof fn what_is_large_is_kept(tree: Tree, floor: u64, depth: nat, i: int)
    requires
        0 <= i < tree.children.len(),
        depth > 0,
    ensures
        ({
            let kept = history::stored(tree, floor, depth);
            &&& kept == (Tree { children: kept.children, ..tree })
            &&& tree.children[i].allocated_size >= floor ==> kept.children.contains(
                history::stored(tree.children[i], floor, (depth - 1) as nat),
            )
            &&& kept.children.len() <= tree.children.len()
            &&& forall|k: int|
                0 <= k < kept.children.len() ==> (#[trigger] kept.children[k]).allocated_size
                    >= floor
        }),
{
    large_children_are_kept(tree.children, floor, (depth - 1) as nat, i);
}

proof fn large_children_are_kept(children: Seq<Tree>, floor: u64, depth: nat, i: int)
    requires
        0 <= i < children.len(),
    ensures
        ({
            let kept = history::stored_children(children, floor, depth);
            &&& children[i].allocated_size >= floor ==> kept.contains(
                history::stored(children[i], floor, depth),
            )
            &&& kept.len() <= children.len()
            &&& forall|k: int|
                0 <= k < kept.len() ==> (#[trigger] kept[k]).allocated_size >= floor
        }),
    decreases children.len(),
{
    let front = children.drop_last();
    let before = history::stored_children(front, floor, depth);
    let kept = history::stored_children(children, floor, depth);
    if front.len() > 0 {
        large_children_are_kept(
            front,
            floor,
            depth,
            if i < front.len() {
                i
            } else {
                0
            },
        );
    } else {
        assert(before.len() == 0);
    }
    let last = history::stored(children.last(), floor, depth);
    assert(last.allocated_size == children.last().allocated_size);
    assert forall|k: int| 0 <= k < kept.len() implies (#[trigger] kept[k]).allocated_size
        >= floor by {
        if k < before.len() {
            assert(kept[k] == before[k]);
        } else {
            assert(kept[k] == last);
        }
    }
    if i < front.len() && children[i].allocated_size >= floor {
        assert(front[i] == children[i]);
        let one = history::stored(children[i], floor, depth);
        let k = choose|k: int| 0 <= k < before.len() && before[k] == one;
        assert(kept[k] == one);
    } else if i == front.len() && children[i].allocated_size >= floor {
        assert(kept[before.len() as int] == history::stored(children[i], floor, depth));
    }
}

/// Eight levels of a scan are kept, of what is not too small.
pub proof fn eight_levels_are_kept(tree: Tree)
    ensures
        history::for_storage(tree) == history::stored(
            tree,
            if tree.allocated_size / 10_000 > 1_000_000 {
                (tree.allocated_size / 10_000) as u64
            } else {
                1_000_000
            },
            8,
        ),
        history::stored(tree, 0, 0).children.len() == 0,
{
}

/// The digits of a name in base sixteen are the figures and the small letters from `a` to `f`, the
/// last of them first to change.
pub proof fn names_are_in_base_sixteen(value: u64, digit: u64, digits: nat)
    requires
        digit < 16,
        value * 16 + digit <= u64::MAX,
    ensures
        ({
            let name = history::hex_name((value * 16 + digit) as u64, digits + 1);
            &&& name.drop_last() == history::hex_name(value, digits)
            &&& digit < 10 ==> name.last() == '0' as u8 + digit
            &&& digit >= 10 ==> name.last() == 'a' as u8 + (digit - 10)
        }),
        history::hex_name(value, digits).len() == digits,
    decreases digits,
{
    let all = (value * 16 + digit) as u64;
    assert(all % 16 == digit && all / 16 == value);
    assert(history::hex_name(all, digits + 1).drop_last() =~= history::hex_name(value, digits));
    if digits > 0 {
        names_are_in_base_sixteen(value / 16, value % 16, (digits - 1) as nat);
        assert((value / 16) * 16 + value % 16 == value);
    }
}

} // verus!
