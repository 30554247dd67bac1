//! How finds are grouped.

use vstd::prelude::*;
use crate::categories;
use crate::categories::{Category, Find};
use crate::order;

verus! {

proof fn groups_are_found_by_rule(groups: Seq<Category>, id: Seq<char>)
    ensures
        match categories::group_of(groups, id) {
            Some(at) => 0 <= at < groups.len() && groups[at].rule.id@ == id,
            None => forall|i: int| 0 <= i < groups.len() ==> (#[trigger] groups[i]).rule.id@ != id,
        },
    decreases groups.len(),
{
    if groups.len() > 0 {
        let front = groups.drop_last();
        groups_are_found_by_rule(front, id);
        assert forall|i: int|
            0 <= i < groups.len() && categories::group_of(groups, id) is None implies (
        #[trigger] groups[i]).rule.id@ != id by {
            if i < front.len() {
                assert(front[i] == groups[i]);
            }
        }
    }
}

/// Whether a group holds a find.
pub open spec fn takes_in(group: Category, find: Find) -> bool {
    group.paths.contains(find.path) && group.last_used >= find.last_used
}

proof fn finds_are_gathered(found: Seq<Find>)
    ensures
        ({
            let groups = categories::gathered(found);
            &&& forall|i: int, j: int|
                0 <= i < j < groups.len() ==> (#[trigger] groups[i]).rule.id@ != (
                #[trigger] groups[j]).rule.id@
            &&& forall|f: int, i: int|
                0 <= f < found.len() && 0 <= i < groups.len() && (#[trigger] found[f]).rule.id@ == (
                #[trigger] groups[i]).rule.id@ ==> takes_in(groups[i], found[f])
            &&& forall|f: int|
                0 <= f < found.len() ==> exists|i: int|
                    0 <= i < groups.len() && (#[trigger] groups[i]).rule.id@ == (
                    #[trigger] found[f]).rule.id@
        }),
    decreases found.len(),
{
    if found.len() > 0 {
        let front = found.drop_last();
        let last = found.last();
        let before = categories::gathered(front);
        let groups = categories::gathered(found);
        finds_are_gathered(front);
        groups_are_found_by_rule(before, last.rule.id@);
        assert forall|f: int, i: int|
            0 <= f < found.len() && 0 <= i < groups.len() && (#[trigger] found[f]).rule.id@ == (
            #[trigger] groups[i]).rule.id@ implies takes_in(groups[i], found[f]) by {
            if f < front.len() {
                assert(front[f] == found[f]);
            }
            match categories::group_of(before, last.rule.id@) {
                Some(at) => {
                    if i == at {
                        let paths = before[at].paths;
                        assert(groups[i].paths == paths.push(last.path));
                        assert(groups[i].paths[paths.len() as int] == last.path);
                        if f < front.len() {
                            assert(takes_in(before[at], front[f]));
                            let k = choose|k: int|
                                0 <= k < paths.len() && paths[k] == front[f].path;
                            assert(groups[i].paths[k] == front[f].path);
                        }
                    } else {
                        assert(groups[i] == before[i]);
                        if f == front.len() {
                            assert(before[at].rule.id@ == before[i].rule.id@);
                        }
                    }
                },
                None => {
                    if i < before.len() {
                        assert(groups[i] == before[i]);
                    } else {
                        assert(groups[i].paths[0] == last.path);
                        if f < front.len() {
                            let k = choose|k: int|
                                0 <= k < before.len() && (#[trigger] before[k]).rule.id@
                                    == front[f].rule.id@;
                            assert(before[k].rule.id@ != last.rule.id@);
                        }
                    }
                },
            }
        }
        assert forall|f: int| 0 <= f < found.len() implies exists|i: int|
            0 <= i < groups.len() && (#[trigger] groups[i]).rule.id@ == (
            #[trigger] found[f]).rule.id@ by {
            if f < front.len() {
                assert(front[f] == found[f]);
                let k = choose|k: int|
                    0 <= k < before.len() && (#[trigger] before[k]).rule.id@
                        == front[f].rule.id@;
                assert(groups[k].rule.id@ == found[f].rule.id@);
            } else {
                match categories::group_of(before, last.rule.id@) {
                    Some(at) => {
                        assert(groups[at].rule.id@ == found[f].rule.id@);
                    },
                    None => {
                        assert(groups[before.len() as int].rule.id@ == found[f].rule.id@);
                    },
                }
            }
        }
    }
}

/// Every find is in the group of its rule, and there is no other group of that rule: whatever group
/// has its rule lists its place, and was used no earlier than it.
pub proof fn finds_are_grouped_by_rule(found: Seq<Find>, f: int, group: Category)
    requires
        0 <= f < found.len(),
    ensures
        categories::grouped(found).contains(group) && group.rule.id@ == found[f].rule.id@
            ==> group.paths.contains(found[f].path) && group.last_used >= found[f].last_used,
        exists|i: int|
            0 <= i < categories::grouped(found).len() && (#[trigger] categories::grouped(
                found,
            )[i]).rule.id@ == found[f].rule.id@,
{
    let less = |a: Category, b: Category| a.size > b.size;
    let groups = categories::gathered(found);
    let sorted = categories::grouped(found);
    order::sort_keeps_members(groups, less);
    finds_are_gathered(found);
    if sorted.contains(group) && group.rule.id@ == found[f].rule.id@ {
        assert(groups.contains(group));
        let i = choose|i: int| 0 <= i < groups.len() && groups[i] == group;
        assert(takes_in(groups[i], found[f]));
    }
    let k = choose|k: int|
        0 <= k < groups.len() && (#[trigger] groups[k]).rule.id@ == found[f].rule.id@;
    assert(groups.contains(groups[k]));
    assert(sorted.contains(groups[k]));
    let i = choose|i: int| 0 <= i < sorted.len() && sorted[i] == groups[k];
    assert(categories::grouped(found)[i].rule.id@ == found[f].rule.id@);
}

} // verus!
