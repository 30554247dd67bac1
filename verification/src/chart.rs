//! The sunburst of a directory: a tree of wedges, and which path each stands for.

use vstd::prelude::*;
use crate::app;
use crate::app::{App, State};
use crate::diff;
use crate::diff::{ChangeNode, Moves};
use crate::model;
use crate::order;
use crate::palette;
use crate::path;
use crate::path::FilePath;
use crate::radial;
use crate::radial::{RadialNode, Wedge};
use crate::size::SizeKind;
use crate::strings;
use crate::tree;
use crate::tree::{DiskEntry, Tree};

verus! {

/// A sunburst: its wedges, and the path that each id stands for.
#[verifier::ext_equal]
pub struct Burst {
    pub wedge: Wedge,
    pub paths: Seq<Seq<u8>>,
}

/// The children of an entry, largest first.
pub open spec fn by_size(tree: Tree, kind: SizeKind) -> Seq<Tree> {
    order::stable_sort(tree.children, |a: Tree, b: Tree| tree::outranks(a, b, kind))
}

/// The sunburst of an entry, whose ids go on from `next`: the entry first, then its children,
/// largest first, each with what is under it.
pub open spec fn burst(tree: Tree, at: Seq<u8>, kind: SizeKind, rings: nat, next: nat) -> Burst
    decreases rings, 1nat, 0nat,
{
    let below = if rings == 0 {
        Petals { wedges: Seq::empty(), paths: Seq::empty() }
    } else {
        petals(by_size(tree, kind), at, kind, (rings - 1) as nat, next + 1, tree.children.len())
    };
    Burst {
        wedge: Wedge {
            id: next as usize,
            label: tree::label(tree),
            size: tree::size_of(tree, kind),
            color: None,
            children: below.wedges,
        },
        paths: seq![at] + below.paths,
    }
}

/// Several wedges side by side, and the paths of all their ids.
#[verifier::ext_equal]
pub struct Petals {
    pub wedges: Seq<Wedge>,
    pub paths: Seq<Seq<u8>>,
}

/// The sunbursts of the first `count` of some entries.
pub open spec fn petals(
    children: Seq<Tree>,
    at: Seq<u8>,
    kind: SizeKind,
    rings: nat,
    next: nat,
    count: nat,
) -> Petals
    decreases rings, 2nat, count,
{
    if count == 0 {
        Petals { wedges: Seq::empty(), paths: Seq::empty() }
    } else {
        let before = petals(children, at, kind, rings, next, (count - 1) as nat);
        let child = children[count - 1];
        let own = burst(
            child,
            app::child_place(child, at),
            kind,
            rings,
            next + before.paths.len(),
        );
        Petals { wedges: before.wedges.push(own.wedge), paths: before.paths + own.paths }
    }
}

/// The changes below one that moved at all, the biggest first.
pub open spec fn by_movement(node: Moves) -> Seq<Moves> {
    order::stable_sort(
        node.children.filter(|child: Moves| child.change.delta != 0),
        |a: Moves, b: Moves| moved_more(a, b),
    )
}

/// The last part of a path as it is shown.
pub open spec fn last_name(target: Seq<u8>) -> Seq<char> {
    match path::file_name(target) {
        Some(name) => strings::lossy(name),
        None => ""@,
    }
}

/// The same sunburst, but wedges are sized by how much moved and coloured by which way.
pub open spec fn growth_burst(node: Moves, rings: nat, scale: u64, next: nat) -> Burst
    decreases rings, 1nat, 0nat,
{
    let below = if rings == 0 {
        Petals { wedges: Seq::empty(), paths: Seq::empty() }
    } else {
        growth_petals(
            by_movement(node),
            (rings - 1) as nat,
            scale,
            next + 1,
            by_movement(node).len(),
        )
    };
    Burst {
        wedge: Wedge {
            id: next as usize,
            label: last_name(node.change.path),
            size: diff::magnitude(node.change.delta as int) as u64,
            color: Some(palette::growth_hue(node.change.delta as int, scale as nat)),
            children: below.wedges,
        },
        paths: seq![node.change.path] + below.paths,
    }
}

pub open spec fn growth_petals(
    children: Seq<Moves>,
    rings: nat,
    scale: u64,
    next: nat,
    count: nat,
) -> Petals
    decreases rings, 2nat, count,
{
    if count == 0 {
        Petals { wedges: Seq::empty(), paths: Seq::empty() }
    } else {
        let before = growth_petals(children, rings, scale, next, (count - 1) as nat);
        let own = growth_burst(children[count - 1], rings, scale, next + before.paths.len());
        Petals { wedges: before.wedges.push(own.wedge), paths: before.paths + own.paths }
    }
}

/// The biggest movement right below a change, one at least.
pub open spec fn biggest(children: Seq<Moves>) -> u64
    decreases children.len(),
{
    if children.len() == 0 {
        1
    } else {
        tree::later(
            biggest(children.drop_last()),
            diff::magnitude(children.last().change.delta as int) as u64,
        )
    }
}

/// The sunburst on screen.
pub open spec fn burst_here(state: State, rings: nat) -> Burst {
    let nothing = Burst {
        wedge: Wedge { id: 0, label: ""@, size: 0, color: None, children: Seq::empty() },
        paths: Seq::empty(),
    };
    if app::growing(state) {
        match app::change_here(state) {
            Some(node) => growth_burst(node, rings, biggest(node.children), 0),
            None => nothing,
        }
    } else {
        match app::entry_here(state) {
            Some(entry) => burst(entry, state.cwd, state.settings.size_kind, rings, 0),
            None => nothing,
        }
    }
}

/// The sunburst for one directory: the tree the layout runs over, and the path that each wedge id
/// stands for. Building one walks several levels of the tree, so it is worth keeping for as long as
/// the directory, the rings, what is counted and the revision of the tree stay the same.
#[derive(Debug)]
pub struct RadialCache {
    pub root: RadialNode,
    pub paths: Vec<FilePath>,
}

/// The last of some paths that is a place, among the first `count`.
pub open spec fn last_place(paths: Seq<Seq<u8>>, target: Seq<u8>, count: nat) -> Option<usize>
    decreases count,
{
    if count == 0 {
        None
    } else if path::same_place(paths[count - 1], target) {
        Some((count - 1) as usize)
    } else {
        last_place(paths, target, (count - 1) as nat)
    }
}

impl RadialCache {
    pub open spec fn value(&self) -> Burst {
        Burst { wedge: self.root.view(), paths: app::path_list(self.paths@) }
    }

    /// The wedge drawn for a path, if it is one of the ones drawn at all.
    pub fn id_of(&self, target: &FilePath) -> (id: Option<usize>)
        ensures
            id == last_place(self.value().paths, target@, self.value().paths.len()),
    {
        let ghost all = self.value().paths;
        let mut left: usize = self.paths.len();
        while left > 0
            invariant
                left <= self.paths@.len(),
                all == app::path_list(self.paths@),
                last_place(all, target@, all.len()) == last_place(all, target@, left as nat),
            decreases left,
        {
            assert(all[left - 1] == self.paths@[left - 1]@);
            if self.paths[left - 1].same(target) {
                return Some(left - 1);
            }
            left -= 1;
        }
        None
    }
}

fn build(entry: &DiskEntry, at: &FilePath, kind: SizeKind, rings: usize, paths: &mut Vec<FilePath>) -> (
    node: RadialNode)
    ensures
        node.view() == burst(
            entry@,
            at@,
            kind,
            rings as nat,
            old(paths)@.len(),
        ).wedge,
        app::path_list(final(paths)@) == app::path_list(old(paths)@) + burst(
            entry@,
            at@,
            kind,
            rings as nat,
            old(paths)@.len(),
        ).paths,
    decreases rings,
{
    let id: usize = paths.len();
    let ghost start = app::path_list(paths@);
    let ghost list = paths@;
    let own = at.duplicate();
    paths.push(own);
    assert(app::path_list(paths@) =~= start + seq![at@]);
    let mut children: Vec<RadialNode> = Vec::new();
    let ghost mut below = Petals { wedges: Seq::empty(), paths: Seq::empty() };
    assert(radial::wedges(children@) =~= Seq::empty());
    if rings > 0 {
        let sorted = model::rank_children(entry, kind);
        let ghost order = by_size(entry@, kind);
        proof {
            order::sort_is_a_permutation(
                entry@.children,
                |a: Tree, b: Tree| tree::outranks(a, b, kind),
            );
            assert(model::ranks(sorted@).len() == sorted@.len());
        }
        let mut index: usize = 0;
        assert(start + seq![at@] + Seq::<Seq<u8>>::empty() =~= start + seq![at@]);
        while index < sorted.len()
            invariant
                index <= sorted@.len(),
                rings > 0,
                id == start.len(),
                model::ranks(sorted@) == model::ranked(entry@, kind),
                order == by_size(entry@, kind),
                sorted@.len() == order.len(),
                below == petals(
                    order,
                    at@,
                    kind,
                    (rings - 1) as nat,
                    (id + 1) as nat,
                    index as nat,
                ),
                radial::wedges(children@) == below.wedges,
                app::path_list(paths@) == start + seq![at@] + below.paths,
            decreases sorted@.len() - index,
        {
            let child = sorted[index].1;
            proof {
                assert(model::ranks(sorted@)[index as int].1 == child@);
                assert(order[index as int] == child@);
                assert(app::path_list(paths@).len() == paths@.len());
            }
            let place = at.join_name(&child.name_os());
            let node = build(child, &place, kind, rings - 1, paths);
            let ghost before = children@;
            children.push(node);
            proof {
                assert(radial::wedges(children@) =~= radial::wedges(before).push(node.view()));
                let own = burst(
                    child@,
                    place@,
                    kind,
                    (rings - 1) as nat,
                    (id + 1) as nat + below.paths.len(),
                );
                assert(app::path_list(paths@) =~= start + seq![at@] + (below.paths + own.paths));
                below =
                petals(order, at@, kind, (rings - 1) as nat, (id + 1) as nat, (index + 1) as nat);
            }
            index += 1;
        }
    } else {
        assert(start + seq![at@] + Seq::<Seq<u8>>::empty() =~= start + seq![at@]);
    }
    let node = RadialNode {
        id,
        label: entry.name(),
        size: entry.size(kind),
        color: None,
        children,
    };
    proof {
        assert(node.view().children =~= radial::wedges(children@));
        assert(app::path_list(paths@) =~= start + (seq![at@] + below.paths));
    }
    node
}

/// Whether a movement is drawn before another.
pub open spec fn moved_more(a: Moves, b: Moves) -> bool {
    diff::magnitude(a.change.delta as int) > diff::magnitude(b.change.delta as int)
}

pub open spec fn changes(list: Seq<&ChangeNode>) -> Seq<Moves> {
    list.map_values(|node: &ChangeNode| node@)
}

fn rank_moves<'a>(node: &'a ChangeNode) -> (out: Vec<&'a ChangeNode>)
    ensures
        changes(out@) == by_movement(node@),
{
    let ghost value = |node: &ChangeNode| node@;
    let ghost all = node@.children;
    let ghost wanted = |child: Moves| child.change.delta != 0;
    let mut kept: Vec<&'a ChangeNode> = Vec::new();
    let mut at: usize = 0;
    assert(kept@.map_values(value) =~= all.take(0).filter(wanted)) by {
        assert(all.take(0) =~= Seq::empty());
        reveal(Seq::filter);
    }
    while at < node.children.len()
        invariant
            at <= node.children@.len(),
            all == node@.children,
            all.len() == node.children@.len(),
            value == (|node: &ChangeNode| node@),
            wanted == (|child: Moves| child.change.delta != 0),
            kept@.map_values(value) == all.take(at as int).filter(wanted),
        decreases node.children@.len() - at,
    {
        let child = &node.children[at];
        let ghost before = kept@;
        proof {
            assert(all[at as int] == child@);
            assert(all.take(at + 1) =~= all.take(at as int).push(all[at as int]));
            all.take(at as int).lemma_filter_push(all[at as int], wanted);
        }
        if child.change.delta != 0 {
            kept.push(child);
            assert(kept@.map_values(value) =~= before.map_values(value).push(all[at as int]));
        }
        at += 1;
    }
    let ghost less = |a: Moves, b: Moves| moved_more(a, b);
    let ghost by_key = |a: &ChangeNode, b: &ChangeNode| less(value(a), value(b));
    proof {
        assert(all.take(at as int) =~= all);
        order::order_by_key(value, less);
        order::sort_maps(kept@, value, less);
    }
    let bigger = |a: &&ChangeNode, b: &&ChangeNode| -> (yes: bool)
        ensures
            yes == moved_more(a@, b@),
        { diff::size_of_move(a.change.delta) > diff::size_of_move(b.change.delta) };
    order::sort_stably(kept, &bigger, Ghost(by_key))
}

/// The last part of a path as it is shown.
fn label_of(target: &FilePath) -> (label: String)
    ensures
        label@ == last_name(target@),
{
    match target.file_name() {
        Some(name) => strings::from_utf8_lossy(&name),
        None => String::from_str(""),
    }
}

fn build_growth(node: &ChangeNode, rings: usize, scale: u64, paths: &mut Vec<FilePath>) -> (wedge:
    RadialNode)
    ensures
        wedge.view() == growth_burst(node@, rings as nat, scale, old(paths)@.len()).wedge,
        app::path_list(final(paths)@) == app::path_list(old(paths)@) + growth_burst(
            node@,
            rings as nat,
            scale,
            old(paths)@.len(),
        ).paths,
    decreases rings,
{
    let id: usize = paths.len();
    let ghost start = app::path_list(paths@);
    let ghost at = node@.change.path;
    let own = node.change.path.duplicate();
    paths.push(own);
    assert(app::path_list(paths@) =~= start + seq![at]);
    let mut children: Vec<RadialNode> = Vec::new();
    let ghost mut below = Petals { wedges: Seq::empty(), paths: Seq::empty() };
    assert(radial::wedges(children@) =~= Seq::empty());
    assert(start + seq![at] + Seq::<Seq<u8>>::empty() =~= start + seq![at]);
    if rings > 0 {
        let sorted = rank_moves(node);
        let ghost order = by_movement(node@);
        assert(changes(sorted@).len() == sorted@.len());
        let mut index: usize = 0;
        while index < sorted.len()
            invariant
                index <= sorted@.len(),
                rings > 0,
                id == start.len(),
                changes(sorted@) == order,
                sorted@.len() == order.len(),
                below == growth_petals(
                    order,
                    (rings - 1) as nat,
                    scale,
                    (id + 1) as nat,
                    index as nat,
                ),
                radial::wedges(children@) == below.wedges,
                app::path_list(paths@) == start + seq![at] + below.paths,
            decreases sorted@.len() - index,
        {
            let child = sorted[index];
            proof {
                assert(order[index as int] == child@);
                assert(app::path_list(paths@).len() == paths@.len());
            }
            let wedge = build_growth(child, rings - 1, scale, paths);
            let ghost before = children@;
            children.push(wedge);
            proof {
                assert(radial::wedges(children@) =~= radial::wedges(before).push(wedge.view()));
                let own = growth_burst(
                    child@,
                    (rings - 1) as nat,
                    scale,
                    (id + 1) as nat + below.paths.len(),
                );
                assert(app::path_list(paths@) =~= start + seq![at] + (below.paths + own.paths));
                below =
                growth_petals(
                    order,
                    (rings - 1) as nat,
                    scale,
                    (id + 1) as nat,
                    (index + 1) as nat,
                );
            }
            index += 1;
        }
    }
    let delta: i64 = node.change.delta;
    let wedge = RadialNode {
        id,
        label: label_of(&node.change.path),
        size: diff::size_of_move(delta),
        color: Some(palette::growth_color(delta, scale)),
        children,
    };
    proof {
        assert(wedge.view().children =~= radial::wedges(children@));
        assert(app::path_list(paths@) =~= start + (seq![at] + below.paths));
    }
    wedge
}

fn biggest_change(node: &ChangeNode) -> (scale: u64)
    ensures
        scale == biggest(node@.children),
{
    let ghost all = node@.children;
    let mut scale: u64 = 1;
    let mut at: usize = 0;
    assert(all.take(0) =~= Seq::empty());
    while at < node.children.len()
        invariant
            at <= node.children@.len(),
            all == node@.children,
            all.len() == node.children@.len(),
            scale == biggest(all.take(at as int)),
        decreases node.children@.len() - at,
    {
        let moved: u64 = diff::size_of_move(node.children[at].change.delta);
        proof {
            let upto = all.take(at + 1);
            assert(upto.drop_last() =~= all.take(at as int));
            assert(upto.last() == node.children@[at as int]@);
        }
        if moved > scale {
            scale = moved;
        }
        at += 1;
    }
    assert(all.take(at as int) =~= all);
    scale
}

impl App {
    /// The sunburst for the current directory, with the table taking a path back to the wedge that
    /// stands for it.
    pub fn radial_tree(&self, rings: usize) -> (out: RadialCache)
        ensures
            out.value() == burst_here(self@, rings as nat),
    {
        let mut paths: Vec<FilePath> = Vec::new();
        let ghost start = app::path_list(paths@);
        assert(start =~= Seq::empty());
        let root = if self.showing_growth() {
            match self.current_change() {
                Some(change) => build_growth(change, rings, biggest_change(change), &mut paths),
                None => RadialNode::leaf(0, "", 0),
            }
        } else {
            match self.current_entry() {
                Some(entry) => build(
                    entry,
                    &self.cwd,
                    self.settings.size_kind,
                    rings,
                    &mut paths,
                ),
                None => RadialNode::leaf(0, "", 0),
            }
        };
        let out = RadialCache { root, paths };
        assert(out.value().paths =~= burst_here(self@, rings as nat).paths);
        out
    }
}


// What holds of every sunburst.

/// The ids of a wedge and of all below it, from the inside out and from the left.
pub open spec fn ids(wedge: Wedge) -> Seq<usize>
    decreases wedge, 1nat, 0nat,
{
    seq![wedge.id] + ids_below(wedge, wedge.children.len())
}

/// The ids of the first `count` children of a wedge and of all below them.
pub open spec fn ids_below(wedge: Wedge, count: nat) -> Seq<usize>
    decreases wedge, 0nat, count,
{
    if count == 0 || count > wedge.children.len() {
        Seq::empty()
    } else {
        ids_below(wedge, (count - 1) as nat) + ids(wedge.children[count - 1])
    }
}

/// Some ids in a row.
pub open spec fn counted(from: nat, count: nat) -> Seq<usize> {
    Seq::new(count, |i: int| (from + i) as usize)
}

/// Whether a wedge has at most some rings around it.
pub open spec fn within_rings(wedge: Wedge, rings: nat) -> bool
    decreases rings,
{
    if rings == 0 {
        wedge.children.len() == 0
    } else {
        forall|i: int|
            0 <= i < wedge.children.len() ==> within_rings(
                #[trigger] wedge.children[i],
                (rings - 1) as nat,
            )
    }
}

/// The ids of one list of wedges are those of another that it starts with.
proof fn ids_below_depend_on_children(a: Wedge, b: Wedge, count: nat)
    requires
        count <= a.children.len(),
        count <= b.children.len(),
        forall|i: int| 0 <= i < count ==> #[trigger] a.children[i] == b.children[i],
    ensures
        ids_below(a, count) == ids_below(b, count),
    decreases count,
{
    if count > 0 {
        ids_below_depend_on_children(a, b, (count - 1) as nat);
        assert(a.children[count - 1] == b.children[count - 1]);
    }
}

proof fn petals_are_numbered(
    children: Seq<Tree>,
    at: Seq<u8>,
    kind: SizeKind,
    rings: nat,
    next: nat,
    count: nat,
    parent: Wedge,
)
    requires
        count <= children.len(),
        parent.children == petals(children, at, kind, rings, next, count).wedges,
    ensures
        ids_below(parent, count) == counted(
            next,
            petals(children, at, kind, rings, next, count).paths.len(),
        ),
        petals(children, at, kind, rings, next, count).wedges.len() == count,
        forall|i: int|
            0 <= i < count ==> within_rings(
                #[trigger] petals(children, at, kind, rings, next, count).wedges[i],
                rings,
            ),
    decreases rings, 1nat, count,
{
    let all = petals(children, at, kind, rings, next, count);
    if count == 0 {
        assert(ids_below(parent, count) =~= counted(next, 0));
    } else {
        let less = (count - 1) as nat;
        let before = petals(children, at, kind, rings, next, less);
        let rest = Wedge { children: before.wedges, ..parent };
        petals_are_numbered(children, at, kind, rings, next, less, rest);
        ids_below_depend_on_children(parent, rest, less);
        let child = children[less as int];
        let place = app::child_place(child, at);
        let own = burst(child, place, kind, rings, next + before.paths.len());
        bursts_are_numbered(child, place, kind, rings, next + before.paths.len());
        assert(parent.children[less as int] == own.wedge);
        assert(ids_below(parent, count) == ids_below(parent, less) + ids(own.wedge));
        assert(ids_below(parent, count) =~= counted(next, all.paths.len()));
        assert forall|i: int| 0 <= i < count implies within_rings(
            #[trigger] all.wedges[i],
            rings,
        ) by {
            if i < less {
                assert(all.wedges[i] == before.wedges[i]);
            }
        }
    }
}

/// The wedges of a sunburst are numbered through, each with the place of its path in the table, and
/// there are no more rings of them than were asked for.
pub proof fn bursts_are_numbered(
    tree: Tree,
    at: Seq<u8>,
    kind: SizeKind,
    rings: nat,
    next: nat,
)
    ensures
        ids(burst(tree, at, kind, rings, next).wedge) == counted(
            next,
            burst(tree, at, kind, rings, next).paths.len(),
        ),
        within_rings(burst(tree, at, kind, rings, next).wedge, rings),
        burst(tree, at, kind, rings, next).paths[0] == at,
    decreases rings, 0nat, 0nat,
{
    let out = burst(tree, at, kind, rings, next);
    if rings == 0 {
        assert(ids(out.wedge) =~= counted(next, out.paths.len()));
    } else {
        let less = (rings - 1) as nat;
        let count = tree.children.len();
        order::sort_is_a_permutation(
            tree.children,
            |a: Tree, b: Tree| tree::outranks(a, b, kind),
        );
        let below = petals(by_size(tree, kind), at, kind, less, next + 1, count);
        petals_are_numbered(by_size(tree, kind), at, kind, less, next + 1, count, out.wedge);
        assert(ids(out.wedge) =~= counted(next, out.paths.len()));
        assert forall|i: int| 0 <= i < out.wedge.children.len() implies within_rings(
            #[trigger] out.wedge.children[i],
            less,
        ) by {
            assert(below.wedges[i] == out.wedge.children[i]);
        }
    }
}

proof fn growth_petals_are_numbered(
    children: Seq<Moves>,
    rings: nat,
    scale: u64,
    next: nat,
    count: nat,
    parent: Wedge,
)
    requires
        count <= children.len(),
        parent.children == growth_petals(children, rings, scale, next, count).wedges,
    ensures
        ids_below(parent, count) == counted(
            next,
            growth_petals(children, rings, scale, next, count).paths.len(),
        ),
        growth_petals(children, rings, scale, next, count).wedges.len() == count,
        forall|i: int|
            0 <= i < count ==> within_rings(
                #[trigger] growth_petals(children, rings, scale, next, count).wedges[i],
                rings,
            ),
    decreases rings, 1nat, count,
{
    let all = growth_petals(children, rings, scale, next, count);
    if count == 0 {
        assert(ids_below(parent, count) =~= counted(next, 0));
    } else {
        let less = (count - 1) as nat;
        let before = growth_petals(children, rings, scale, next, less);
        let rest = Wedge { children: before.wedges, ..parent };
        growth_petals_are_numbered(children, rings, scale, next, less, rest);
        ids_below_depend_on_children(parent, rest, less);
        let child = children[less as int];
        let own = growth_burst(child, rings, scale, next + before.paths.len());
        growth_bursts_are_numbered(child, rings, scale, next + before.paths.len());
        assert(parent.children[less as int] == own.wedge);
        assert(ids_below(parent, count) == ids_below(parent, less) + ids(own.wedge));
        assert(ids_below(parent, count) =~= counted(next, all.paths.len()));
        assert forall|i: int| 0 <= i < count implies within_rings(
            #[trigger] all.wedges[i],
            rings,
        ) by {
            if i < less {
                assert(all.wedges[i] == before.wedges[i]);
            }
        }
    }
}

/// The same of a sunburst of changes.
pub proof fn growth_bursts_are_numbered(node: Moves, rings: nat, scale: u64, next: nat)
    ensures
        ids(growth_burst(node, rings, scale, next).wedge) == counted(
            next,
            growth_burst(node, rings, scale, next).paths.len(),
        ),
        within_rings(growth_burst(node, rings, scale, next).wedge, rings),
        growth_burst(node, rings, scale, next).paths[0] == node.change.path,
    decreases rings, 0nat, 0nat,
{
    let out = growth_burst(node, rings, scale, next);
    if rings == 0 {
        assert(ids(out.wedge) =~= counted(next, out.paths.len()));
    } else {
        let less = (rings - 1) as nat;
        let count = by_movement(node).len();
        let below = growth_petals(by_movement(node), less, scale, next + 1, count);
        growth_petals_are_numbered(by_movement(node), less, scale, next + 1, count, out.wedge);
        assert(ids(out.wedge) =~= counted(next, out.paths.len()));
        assert forall|i: int| 0 <= i < out.wedge.children.len() implies within_rings(
            #[trigger] out.wedge.children[i],
            less,
        ) by {
            assert(below.wedges[i] == out.wedge.children[i]);
        }
    }
}

} // verus!
