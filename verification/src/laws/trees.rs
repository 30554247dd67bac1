//! How figures add up in a tree, and what taking something out of one does.

use vstd::prelude::*;
use crate::order;
use crate::path;
use crate::size::SizeKind;
use crate::strings;
use crate::tree;
use crate::tree::{EntryType, Place, ScanState, Tree};

verus! {

/// Totals wrap around at 64 bits, differences stop at nothing, and of two moments the later counts.
pub proof fn figures_are_plain_arithmetic(a: u64, b: u64)
    ensures
        tree::wrapped(a, b) == (a + b) % 0x1_0000_0000_0000_0000,
        a >= b ==> tree::less_by(a, b) == a - b,
        a < b ==> tree::less_by(a, b) == 0,
        tree::later(a, b) == a || tree::later(a, b) == b,
        tree::later(a, b) >= a && tree::later(a, b) >= b,
{
}

/// The size of an entry is what its blocks take up or how long it is, as was asked for.
pub proof fn sizes_are_as_asked_for(entry: Tree)
    ensures
        tree::size_of(entry, SizeKind::Allocated) == entry.allocated_size,
        tree::size_of(entry, SizeKind::Apparent) == entry.apparent_size,
{
}

/// A directory that takes in a child has its figures too, is as new as the newer of the two, and is
/// complete only where both are: cut short where either was, denied where it was itself, and
/// otherwise partial. It stays the same directory.
pub proof fn taking_in_a_child(parent: Tree, child: Tree)
    ensures
        ({
            let whole = tree::absorbed(parent, child);
            &&& whole.name == parent.name
            &&& whole.entry_type == parent.entry_type
            &&& whole.children == parent.children
            &&& whole.allocated_size == (parent.allocated_size + child.allocated_size)
                % 0x1_0000_0000_0000_0000
            &&& whole.apparent_size == (parent.apparent_size + child.apparent_size)
                % 0x1_0000_0000_0000_0000
            &&& whole.items == (parent.items + child.items) % 0x1_0000_0000_0000_0000
            &&& whole.modified == if parent.modified > child.modified {
                parent.modified
            } else {
                child.modified
            }
            &&& whole.scan_state == ScanState::Complete <==> parent.scan_state
                == ScanState::Complete && child.scan_state == ScanState::Complete
            &&& whole.scan_state == ScanState::Cancelled <==> parent.scan_state
                == ScanState::Cancelled || child.scan_state == ScanState::Cancelled
            &&& whole.scan_state == ScanState::Denied <==> parent.scan_state == ScanState::Denied
                && child.scan_state != ScanState::Cancelled
            &&& whole.scan_state != ScanState::Skipped
        }),
{
}

/// A new entry is one item of its kind, empty, and complete.
pub proof fn entries_start_empty(name: Seq<u8>, entry_type: EntryType)
    ensures
        tree::fresh(name, entry_type) == (Tree {
            name,
            apparent_size: 0,
            allocated_size: 0,
            entry_type,
            items: 1,
            modified: 0,
            children: Seq::empty(),
            scan_state: ScanState::Complete,
        }),
{
}

/// An entry comes before another where it is larger, or as large and first by name.
pub proof fn larger_entries_come_first(a: Tree, b: Tree, kind: SizeKind)
    ensures
        ({
            let (left, right) = match kind {
                SizeKind::Allocated => (a.allocated_size, b.allocated_size),
                SizeKind::Apparent => (a.apparent_size, b.apparent_size),
            };
            tree::outranks(a, b, kind) <==> left > right || (left == right
                && strings::text_precedes(
                strings::lossy(tree::own_name(a.name)),
                strings::lossy(tree::own_name(b.name)),
            ))
        }),
{
}

proof fn positions_are_by_name(children: Seq<Tree>, name: Seq<u8>, from: int)
    requires
        0 <= from <= children.len(),
        forall|i: int, j: int|
            0 <= i < j < children.len() ==> tree::own_name((#[trigger] children[i]).name)
                != tree::own_name((#[trigger] children[j]).name),
    ensures
        match tree::position_from(children, name, from) {
            Some(at) => from <= at < children.len() && tree::own_name(children[at].name) == name
                && forall|i: int|
                0 <= i < children.len() && i != at ==> tree::own_name(
                    (#[trigger] children[i]).name,
                ) != name,
            None => forall|i: int|
                from <= i < children.len() ==> tree::own_name((#[trigger] children[i]).name)
                    != name,
        },
    decreases children.len() - from,
{
    if from < children.len() {
        if tree::own_name(children[from].name) != name {
            positions_are_by_name(children, name, from + 1);
        }
    }
}

proof fn siblings_are_distinct(entry: Tree)
    requires
        tree::distinctly_named(entry),
    ensures
        forall|i: int, j: int|
            0 <= i < j < entry.children.len() ==> tree::own_name(
                (#[trigger] entry.children[i]).name,
            ) != tree::own_name((#[trigger] entry.children[j]).name),
        forall|i: int|
            0 <= i < entry.children.len() ==> tree::distinctly_named(#[trigger] entry.children[i]),
{
}

proof fn pruning_keeps_the_name(entry: Tree, names: Seq<Seq<u8>>)
    ensures
        tree::pruned(entry, names) matches Some((rest, gone)) ==> rest.name == entry.name,
{
}

proof fn pruning_leaves_the_rest(entry: Tree, names: Seq<Seq<u8>>, other: Seq<Seq<u8>>)
    requires
        tree::distinctly_named(entry),
        tree::pruned(entry, names) is Some,
        !names.is_prefix_of(other),
        !other.is_prefix_of(names),
    ensures
        tree::walk((tree::pruned(entry, names)->0).0, other) == tree::walk(entry, other),
    decreases names.len(),
{
    let rest = (tree::pruned(entry, names)->0).0;
    siblings_are_distinct(entry);
    assert(other.len() > 0) by {
        if other.len() == 0 {
            assert(other =~= names.subrange(0, 0));
        }
    }
    positions_are_by_name(entry.children, names[0], 0);
    positions_are_by_name(entry.children, other[0], 0);
    let at = tree::position(entry.children, names[0])->0;
    let branch = if names.len() == 1 {
        entry.children[at]
    } else {
        (tree::pruned(entry.children[at], names.skip(1))->0).0
    };
    if names.len() > 1 {
        pruning_keeps_the_name(entry.children[at], names.skip(1));
    }
    assert forall|i: int, j: int| 0 <= i < j < rest.children.len() implies tree::own_name(
        (#[trigger] rest.children[i]).name,
    ) != tree::own_name((#[trigger] rest.children[j]).name) by {
        let (p, q) = if names.len() > 1 {
            (i, j)
        } else {
            (
                if i < at {
                    i
                } else {
                    i + 1
                },
                if j < at {
                    j
                } else {
                    j + 1
                },
            )
        };
        assert(rest.children[i].name == entry.children[p].name);
        assert(rest.children[j].name == entry.children[q].name);
    }
    positions_are_by_name(rest.children, other[0], 0);
    if other[0] == names[0] {
        assert(names.len() > 1) by {
            if names.len() == 1 {
                assert(names =~= other.subrange(0, 1));
            }
        }
        assert(rest.children[at] == branch);
        assert(tree::position(rest.children, other[0]) == Some(at));
        assert(!names.skip(1).is_prefix_of(other.skip(1))) by {
            if names.skip(1).is_prefix_of(other.skip(1)) {
                assert forall|i: int| 0 <= i < names.len() implies names[i] == other[i] by {
                    if i > 0 {
                        assert(names.skip(1)[i - 1] == other.skip(1)[i - 1]);
                    }
                }
                assert(names =~= other.subrange(0, names.len() as int));
            }
        }
        assert(!other.skip(1).is_prefix_of(names.skip(1))) by {
            if other.skip(1).is_prefix_of(names.skip(1)) {
                assert forall|i: int| 0 <= i < other.len() implies names[i] == other[i] by {
                    if i > 0 {
                        assert(names.skip(1)[i - 1] == other.skip(1)[i - 1]);
                    }
                }
                assert(other =~= names.subrange(0, other.len() as int));
            }
        }
        pruning_leaves_the_rest(entry.children[at], names.skip(1), other.skip(1));
    } else {
        match tree::position(entry.children, other[0]) {
            Some(k) => {
                let moved = if names.len() > 1 || k < at {
                    k
                } else {
                    k - 1
                };
                assert(rest.children[moved] == entry.children[k]);
                assert(tree::position(rest.children, other[0]) == Some(moved));
            },
            None => {
                assert(tree::position(rest.children, other[0]) is None) by {
                    if tree::position(rest.children, other[0]) is Some {
                        let m = tree::position(rest.children, other[0])->0;
                        let k = if names.len() > 1 || m < at {
                            m
                        } else {
                            m + 1
                        };
                        assert(rest.children[m].name == entry.children[k].name);
                    }
                }
            },
        }
    }
}

proof fn pruning_corrects_what_is_above(entry: Tree, names: Seq<Seq<u8>>, above: Seq<Seq<u8>>)
    requires
        tree::distinctly_named(entry),
        tree::pruned(entry, names) is Some,
        above.is_prefix_of(names),
        above.len() < names.len(),
    ensures
        ({
            let (rest, gone) = tree::pruned(entry, names)->0;
            &&& tree::walk(entry, above) is Some
            &&& tree::walk(rest, above) is Some
            &&& tree::walk(rest, above)->0.allocated_size == tree::less_by(
                tree::walk(entry, above)->0.allocated_size,
                gone.allocated_size,
            )
            &&& tree::walk(rest, above)->0.apparent_size == tree::less_by(
                tree::walk(entry, above)->0.apparent_size,
                gone.apparent_size,
            )
            &&& tree::walk(rest, above)->0.items == tree::less_by(
                tree::walk(entry, above)->0.items,
                gone.items,
            )
        }),
    decreases names.len(),
{
    if above.len() > 0 {
        let (rest, gone) = tree::pruned(entry, names)->0;
        siblings_are_distinct(entry);
        assert(above[0] == names[0]) by {
            assert(above =~= names.subrange(0, above.len() as int));
            assert(names.subrange(0, above.len() as int)[0] == names[0]);
        }
        positions_are_by_name(entry.children, names[0], 0);
        let at = tree::position(entry.children, names[0])->0;
        let branch = (tree::pruned(entry.children[at], names.skip(1))->0).0;
        pruning_keeps_the_name(entry.children[at], names.skip(1));
        assert(rest.children == entry.children.update(at, branch));
        assert forall|i: int, j: int| 0 <= i < j < rest.children.len() implies tree::own_name(
            (#[trigger] rest.children[i]).name,
        ) != tree::own_name((#[trigger] rest.children[j]).name) by {
            assert(rest.children[i].name == entry.children[i].name);
            assert(rest.children[j].name == entry.children[j].name);
        }
        positions_are_by_name(rest.children, names[0], 0);
        assert(rest.children[at] == branch);
        assert(tree::position(rest.children, names[0]) == Some(at));
        assert(above.skip(1).is_prefix_of(names.skip(1))) by {
            assert(above.skip(1) =~= names.skip(1).subrange(0, above.len() - 1)) by {
                assert forall|i: int| 0 <= i < above.len() - 1 implies above.skip(1)[i]
                    == names.skip(1)[i] by {
                    assert(above[i + 1] == names.subrange(0, above.len() as int)[i + 1]);
                }
            }
        }
        pruning_corrects_what_is_above(entry.children[at], names.skip(1), above.skip(1));
    }
}

/// Taking an entry out of a tree leaves everything as it was that neither holds it nor lies in it.
pub proof fn removal_leaves_the_rest(whole: Tree, target: Seq<u8>, other: Seq<u8>)
    requires
        tree::distinctly_named(whole),
        tree::removed(whole, target) is Some,
        !path::within(other, target),
        !path::within(target, other),
    ensures
        tree::resolved((tree::removed(whole, target)->0).0, other) == tree::resolved(whole, other),
{
    let names = tree::steps(whole, target)->0;
    let rest = (tree::removed(whole, target)->0).0;
    pruning_keeps_the_name(whole, names);
    if path::within(other, whole.name) {
        let own = path::components(whole.name);
        let steps = tree::steps(whole, other)->0;
        let (a, b) = (path::components(target), path::components(other));
        assert(!names.is_prefix_of(steps)) by {
            if names.is_prefix_of(steps) {
                assert(a =~= b.subrange(0, a.len() as int)) by {
                    beyond_the_root(own, a, b);
                }
            }
        }
        assert(!steps.is_prefix_of(names)) by {
            if steps.is_prefix_of(names) {
                beyond_the_root(own, b, a);
            }
        }
        pruning_leaves_the_rest(whole, names, steps);
    }
}

proof fn beyond_the_root(own: Seq<Seq<u8>>, a: Seq<Seq<u8>>, b: Seq<Seq<u8>>)
    requires
        own.is_prefix_of(a),
        own.is_prefix_of(b),
        a.skip(own.len() as int).is_prefix_of(b.skip(own.len() as int)),
    ensures
        a.is_prefix_of(b),
{
    let n = own.len() as int;
    assert(own =~= a.subrange(0, n) && own =~= b.subrange(0, n));
    assert forall|i: int| 0 <= i < a.len() implies a[i] == b[i] by {
        if i < n {
            assert(a.subrange(0, n)[i] == b.subrange(0, n)[i]);
        } else {
            let (x, y) = (a.skip(n), b.skip(n));
            assert(x =~= y.subrange(0, x.len() as int));
            assert(x[i - n] == y.subrange(0, x.len() as int)[i - n]);
        }
    }
    assert(a =~= b.subrange(0, a.len() as int));
}

/// Taking an entry out of a tree takes its figures off everything that holds it, the root and every
/// directory in between.
pub proof fn removal_corrects_every_ancestor(whole: Tree, target: Seq<u8>, above: Seq<u8>)
    requires
        tree::distinctly_named(whole),
        tree::removed(whole, target) is Some,
        path::within(above, whole.name),
        path::within(target, above),
        !path::same_place(target, above),
    ensures
        ({
            let (rest, gone) = tree::removed(whole, target)->0;
            let before = tree::resolved(whole, above);
            let after = tree::resolved(rest, above);
            &&& before is Some && after is Some
            &&& after->0.allocated_size == if before->0.allocated_size > gone.allocated_size {
                before->0.allocated_size - gone.allocated_size
            } else {
                0
            }
            &&& after->0.apparent_size == if before->0.apparent_size > gone.apparent_size {
                before->0.apparent_size - gone.apparent_size
            } else {
                0
            }
            &&& after->0.items == if before->0.items > gone.items {
                before->0.items - gone.items
            } else {
                0
            }
        }),
{
    let names = tree::steps(whole, target)->0;
    let steps = tree::steps(whole, above)->0;
    let own = path::components(whole.name);
    let (a, b) = (path::components(above), path::components(target));
    let n = own.len() as int;
    pruning_keeps_the_name(whole, names);
    assert(a =~= b.subrange(0, a.len() as int));
    assert(own =~= a.subrange(0, n));
    assert(steps =~= names.subrange(0, steps.len() as int)) by {
        assert forall|i: int| 0 <= i < steps.len() implies steps[i] == names[i] by {
            assert(a[n + i] == b.subrange(0, a.len() as int)[n + i]);
        }
    }
    assert(a.len() < b.len()) by {
        if a.len() == b.len() {
            assert(a =~= b);
        }
    }
    pruning_corrects_what_is_above(whole, names, steps);
}

/// The largest entries at a depth come largest first, no more than were asked for, and none that is
/// left out is larger than one that is there.
pub proof fn the_largest_come_first(
    whole: Tree,
    base: Seq<u8>,
    depth: nat,
    count: nat,
    kind: SizeKind,
)
    ensures
        ({
            let list = tree::largest(whole, base, depth, count, kind);
            let all = tree::deepest(whole, base, depth);
            &&& list.len() == if all.len() < count {
                all.len()
            } else {
                count
            }
            &&& forall|i: int, j: int|
                0 <= i < j < list.len() ==> tree::size_of((#[trigger] list[i]).1, kind)
                    >= tree::size_of((#[trigger] list[j]).1, kind)
            &&& forall|i: int| 0 <= i < list.len() ==> all.contains(#[trigger] list[i])
            &&& forall|k: int, i: int|
                0 <= k < all.len() && 0 <= i < list.len() && !list.contains(all[k])
                    ==> tree::size_of((#[trigger] list[i]).1, kind) >= tree::size_of(
                    (#[trigger] all[k]).1,
                    kind,
                )
        }),
{
    let less = |a: Place, b: Place| tree::size_of(a.1, kind) > tree::size_of(b.1, kind);
    let all = tree::deepest(whole, base, depth);
    let sorted = order::stable_sort(all, less);
    let list = tree::largest(whole, base, depth, count, kind);
    order::sort_orders(all, less);
    order::sort_is_a_permutation(all, less);
    order::sort_keeps_members(all, less);
    assert forall|i: int| 0 <= i < list.len() implies all.contains(#[trigger] list[i]) by {
        assert(list[i] == sorted[i]);
        assert(sorted.contains(sorted[i]));
    }
    assert forall|i: int, j: int| 0 <= i < j < list.len() implies tree::size_of(
        (#[trigger] list[i]).1,
        kind,
    ) >= tree::size_of((#[trigger] list[j]).1, kind) by {
        assert(list[i] == sorted[i] && list[j] == sorted[j]);
        assert(!less(sorted[j], sorted[i]));
    }
    assert forall|k: int, i: int|
        0 <= k < all.len() && 0 <= i < list.len() && !list.contains(all[k]) implies tree::size_of(
        (#[trigger] list[i]).1,
        kind,
    ) >= tree::size_of((#[trigger] all[k]).1, kind) by {
        assert(all.contains(all[k]));
        assert(sorted.contains(all[k]));
        let m = choose|m: int| 0 <= m < sorted.len() && sorted[m] == all[k];
        assert(list[i] == sorted[i]);
        if m < list.len() {
            assert(list[m] == all[k]);
        } else {
            assert(!less(sorted[m], sorted[i]));
        }
    }
}

/// What lies two levels down are the children of the children, each in its place; where there are
/// none, the children themselves.
pub proof fn two_levels_down(whole: Tree, base: Seq<u8>, i: int, j: int)
    requires
        0 <= i < whole.children.len(),
        0 <= j < whole.children[i].children.len(),
    ensures
        ({
            let child = whole.children[i];
            let at = path::joined(base, tree::own_name(child.name));
            tree::deepest(whole, base, 2).contains(
                (path::joined(at, tree::own_name(child.children[j].name)), child.children[j]),
            )
        }),
{
    let child = whole.children[i];
    let at = path::joined(base, tree::own_name(child.name));
    let place = (path::joined(at, tree::own_name(child.children[j].name)), child.children[j]);
    reveal_with_fuel(tree::at_depth, 3);
    let inner = tree::at_depth(child, at, 1);
    assert(tree::at_depth(child.children[j], place.0, 0)[0] == place);
    among_those_at_depth(child.children, at, 0, j, place);
    among_those_at_depth(whole.children, base, 1, i, place);
}

proof fn among_those_at_depth(
    children: Seq<Tree>,
    base: Seq<u8>,
    depth: nat,
    i: int,
    place: Place,
)
    requires
        0 <= i < children.len(),
        tree::at_depth(
            children[i],
            path::joined(base, tree::own_name(children[i].name)),
            depth,
        ).contains(place),
    ensures
        tree::all_at_depth(children, base, depth).contains(place),
    decreases children.len(),
{
    let front = children.drop_last();
    let before = tree::all_at_depth(front, base, depth);
    let all = tree::all_at_depth(children, base, depth);
    if i < front.len() {
        among_those_at_depth(front, base, depth, i, place);
        let k = choose|k: int| 0 <= k < before.len() && before[k] == place;
        assert(all[k] == place);
    } else {
        let here = tree::at_depth(
            children.last(),
            path::joined(base, tree::own_name(children.last().name)),
            depth,
        );
        let k = choose|k: int| 0 <= k < here.len() && here[k] == place;
        assert(all[before.len() + k] == place);
    }
}

/// What is looked for at a depth is taken from there, or from the deepest level above it that has
/// anything.
pub proof fn the_deepest_level_is_taken(tree: Tree, base: Seq<u8>, depth: nat) -> (level: nat)
    requires
        depth >= 1,
    ensures
        1 <= level <= depth,
        tree::deepest(tree, base, depth) == tree::at_depth(tree, base, level),
        level == 1 || tree::at_depth(tree, base, level).len() > 0,
        forall|d: nat|
            level < d <= depth ==> (#[trigger] tree::at_depth(tree, base, d)).len() == 0,
    decreases depth,
{
    if tree::at_depth(tree, base, depth).len() > 0 || depth == 1 {
        depth
    } else {
        the_deepest_level_is_taken(tree, base, (depth - 1) as nat)
    }
}

} // verus!
