//! What is deleted, what is refused, and what is left.

use vstd::prelude::*;
use crate::app;
use crate::app::State;
use crate::deletion;
use crate::deletion::{Fate, OnDisk, Refusal};
use crate::path;
use crate::size;
use crate::strings;
use crate::tree;

verus! {

/// A target is deleted only where it lies inside the scan, is not the scanned directory itself, has
/// a directory above it, is still there, and is no directory that another filesystem is mounted on;
/// where it cannot be told what holds a directory, it counts as one.
pub proof fn a_target_has_to_pass(target: Seq<u8>, root: Seq<u8>, seen: Option<OnDisk>)
    ensures
        ({
            let verdict = deletion::verdict(target, root, seen);
            let mounted = seen is Some && seen->0.is_dir && seen->0.parent_device != Some(
                seen->0.device,
            );
            &&& verdict == Err::<(), Refusal>(Refusal::Filesystem) <==> path::parent(target) is None
            &&& verdict == Err::<(), Refusal>(Refusal::ScanRoot) <==> path::parent(target) is Some
                && path::same_place(target, root)
            &&& verdict == Err::<(), Refusal>(Refusal::OutsideScan) <==> path::parent(
                target,
            ) is Some && !path::within(target, root)
            &&& verdict == Err::<(), Refusal>(Refusal::Missing) <==> path::parent(target) is Some
                && path::within(target, root) && !path::same_place(target, root) && seen is None
            &&& verdict == Err::<(), Refusal>(Refusal::MountPoint) <==> path::parent(
                target,
            ) is Some && path::within(target, root) && !path::same_place(target, root) && mounted
            &&& verdict is Ok <==> path::parent(target) is Some && path::within(target, root)
                && !path::same_place(target, root) && seen is Some && !mounted
        }),
{
    let (a, b) = (path::components(target), path::components(root));
    if path::same_place(target, root) {
        assert(b =~= a.subrange(0, b.len() as int));
    }
}

/// What was freed is what was deleted: each entry that is gone counts with its size, and one that
/// was refused or failed counts for nothing.
pub proof fn what_is_gone_is_freed(fates: Seq<Fate>, last: Fate)
    ensures
        deletion::total_freed(Seq::empty()) == 0,
        match last {
            Fate::Deleted { size, .. } => {
                &&& deletion::total_freed(fates.push(last)) == (deletion::total_freed(fates)
                    + size) % 0x1_0000_0000_0000_0000
                &&& app::count_deleted(fates.push(last)) == app::count_deleted(fates) + 1
            },
            _ => {
                &&& deletion::total_freed(fates.push(last)) == deletion::total_freed(fates)
                &&& app::count_deleted(fates.push(last)) == app::count_deleted(fates)
            },
        },
{
    assert(fates.push(last).drop_last() =~= fates);
}

/// A deletion that is over is summed up: how many went and how much that freed, how many were
/// skipped where any were, and where none went, how to find out why.
pub proof fn deletions_are_summed_up(state: State, fates: Seq<Fate>)
    ensures
        ({
            let after = app::outcomes_applied(state, fates);
            let gone = app::count_deleted(fates);
            let done = "deleted "@ + strings::digits(gone) + " · freed "@ + size::formatted(
                deletion::total_freed(fates) as nat,
                state.settings.unit,
            );
            &&& after.deleting is None
            &&& after.outcomes == fates
            &&& after.status == Some(
                if gone == 0 {
                    "nothing could be deleted — press d for why"@
                } else if gone == fates.len() {
                    done
                } else {
                    done + " · "@ + strings::digits((fates.len() - gone) as nat) + " skipped"@
                },
            )
            &&& after.confirm == state.confirm
            &&& after.cwd == state.cwd
            &&& after.view == state.view
            &&& after.requests == state.requests
        }),
{
}

/// Where nothing was deleted the tree and the marks stay as they were.
pub proof fn refusals_change_nothing(state: State, fates: Seq<Fate>)
    requires
        forall|i: int| 0 <= i < fates.len() ==> !((#[trigger] fates[i]) is Deleted),
    ensures
        app::outcomes_applied(state, fates).tree == state.tree,
        app::outcomes_applied(state, fates).marks == state.marks,
{
    if state.tree is Some {
        nothing_goes(state.tree->0, state.marks, fates);
    } else {
        nothing_goes(arbitrary(), state.marks, fates);
    }
}

proof fn nothing_goes(whole: tree::Tree, marks: Seq<Seq<u8>>, fates: Seq<Fate>)
    requires
        forall|i: int| 0 <= i < fates.len() ==> !((#[trigger] fates[i]) is Deleted),
    ensures
        app::tree_without(whole, fates) == whole,
        app::marks_without(marks, fates) == marks,
    decreases fates.len(),
{
    if fates.len() > 0 {
        let front = fates.drop_last();
        assert forall|i: int| 0 <= i < front.len() implies !((#[trigger] front[i]) is Deleted) by {
            assert(front[i] == fates[i]);
        }
        nothing_goes(whole, marks, front);
        assert(!(fates[fates.len() - 1] is Deleted));
    }
}

/// What was deleted is out of the tree that is on screen, its figures are off everything that held
/// it, and it is no longer marked.
pub proof fn what_is_deleted_is_gone(state: State, target: Seq<u8>, bytes: u64)
    requires
        state.tree is Some,
        tree::distinctly_named(state.tree->0),
        tree::resolved(state.tree->0, target) is Some,
        !path::same_place(target, state.tree->0.name),
    ensures
        ({
            let before = state.tree->0;
            let gone = tree::resolved(before, target)->0;
            let after = app::outcomes_applied(
                state,
                seq![Fate::Deleted { path: target, size: bytes }],
            );
            &&& after.tree is Some
            &&& tree::resolved(after.tree->0, target) is None
            &&& after.tree->0.name == before.name
            &&& after.tree->0.allocated_size == if before.allocated_size > gone.allocated_size {
                before.allocated_size - gone.allocated_size
            } else {
                0
            }
            &&& after.tree->0.items == if before.items > gone.items {
                before.items - gone.items
            } else {
                0
            }
            &&& forall|i: int|
                0 <= i < after.marks.len() ==> !path::same_place(
                    #[trigger] after.marks[i],
                    target,
                )
        }),
{
    let before = state.tree->0;
    let fate = Fate::Deleted { path: target, size: bytes };
    let fates = seq![fate];
    tree::removes_what_it_resolves(before, target);
    tree::removal_corrects_the_root(before, target);
    tree::removal_is_final(before, target);
    assert(fates.drop_last() =~= Seq::empty());
    assert(app::tree_without(before, Seq::<Fate>::empty()) == before);
    assert(app::tree_without(before, fates) == (tree::removed(before, target)->0).0);
    let keep = |mark: Seq<u8>| !path::same_place(mark, target);
    assert(app::marks_without(state.marks, Seq::<Fate>::empty()) == state.marks);
    let after = app::outcomes_applied(state, fates);
    assert(after.marks == state.marks.filter(keep));
    assert forall|i: int| 0 <= i < after.marks.len() implies !path::same_place(
        #[trigger] after.marks[i],
        target,
    ) by {
        state.marks.lemma_filter_pred(keep, i);
    }
}

} // verus!
