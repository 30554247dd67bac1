//! Comparing two scans, and working out *which directory to blame*.
//!
//! A raw diff of two trees says "your home directory grew 82 GB", which you already knew. The
//! useful answer names the deepest directory that still accounts for the growth:
//! `~/Library/Developer/Xcode/DerivedData`, not `~/Library`, and not the two hundred per-project
//! folders inside it.

use vstd::prelude::*;
use crate::categories;
use crate::categories::Surroundings;
use crate::double;
use crate::double::Double;
use crate::order;
use crate::path;
use crate::path::FilePath;
use crate::size::SizeKind;
use crate::strings;
use crate::tree;
use crate::tree::{DiskEntry, Tree};

verus! {

#[derive(Copy, Clone, Debug, PartialEq, Eq, Structural)]
pub enum ChangeKind {
    /// Not present in the earlier scan.
    Added,
    Grown,
    Shrunk,
    /// Present earlier, gone now.
    Removed,
    Unchanged,
}

#[derive(Debug)]
pub struct Change {
    pub path: FilePath,
    pub before: u64,
    pub after: u64,
    pub delta: i64,
    pub kind: ChangeKind,
    /// Newest modification time in this subtree, from the later scan.
    pub modified: u64,
    /// True when `before` is an upper bound rather than a measurement: the entry sat below the
    /// snapshot's storage floor, so it may have existed at a smaller size instead of being
    /// genuinely new.
    pub before_is_bound: bool,
}

/// A change as a value.
#[verifier::ext_equal]
pub struct Move {
    pub path: Seq<u8>,
    pub before: u64,
    pub after: u64,
    pub delta: i64,
    pub kind: ChangeKind,
    pub modified: u64,
    pub before_is_bound: bool,
}

impl View for Change {
    type V = Move;

    open spec fn view(&self) -> Move {
        Move {
            path: self.path@,
            before: self.before,
            after: self.after,
            delta: self.delta,
            kind: self.kind,
            modified: self.modified,
            before_is_bound: self.before_is_bound,
        }
    }
}

#[derive(Debug)]
pub struct ChangeNode {
    pub change: Change,
    pub children: Vec<ChangeNode>,
}

/// A tree of changes as a value.
#[verifier::ext_equal]
pub struct Moves {
    pub change: Move,
    pub children: Seq<Moves>,
}

impl ChangeNode {
    pub open spec fn view(&self) -> Moves
        decreases self,
    {
        Moves {
            change: self.change@,
            children: Seq::new(
                self.children@.len(),
                |i: int|
                    if 0 <= i < self.children@.len() {
                        self.children@[i].view()
                    } else {
                        arbitrary()
                    },
            ),
        }
    }
}

/// By how much a size moved, as a 64-bit difference holds it.
pub open spec fn difference(after: u64, before: u64) -> int {
    let exact = after - before;
    if exact > i64::MAX {
        exact - u64::MAX - 1
    } else if exact < i64::MIN {
        exact + u64::MAX + 1
    } else {
        exact
    }
}

pub(crate) fn moved(after: u64, before: u64) -> (delta: i64)
    ensures
        delta == difference(after, before),
{
    if after >= before {
        let up: u64 = after - before;
        if up <= 0x7fff_ffff_ffff_ffff {
            up as i64
        } else {
            -((u64::MAX - up) as i64) - 1
        }
    } else {
        let down: u64 = before - after;
        if down <= 0x7fff_ffff_ffff_ffff {
            -(down as i64)
        } else if down == 0x8000_0000_0000_0000 {
            i64::MIN
        } else {
            (u64::MAX - down) as i64 + 1
        }
    }
}

/// What sort of change a movement is.
pub open spec fn kind_of(existed: bool, exists_now: bool, delta: int) -> ChangeKind {
    if !existed && exists_now {
        ChangeKind::Added
    } else if existed && !exists_now {
        ChangeKind::Removed
    } else if delta > 0 {
        ChangeKind::Grown
    } else if delta < 0 {
        ChangeKind::Shrunk
    } else {
        ChangeKind::Unchanged
    }
}

fn classify(existed: bool, exists_now: bool, delta: i64) -> (kind: ChangeKind)
    ensures
        kind == kind_of(existed, exists_now, delta as int),
{
    match (existed, exists_now) {
        (false, true) => ChangeKind::Added,
        (true, false) => ChangeKind::Removed,
        _ => if delta > 0 {
            ChangeKind::Grown
        } else if delta < 0 {
            ChangeKind::Shrunk
        } else {
            ChangeKind::Unchanged
        },
    }
}

/// The magnitude of a movement.
pub open spec fn magnitude(delta: int) -> nat {
    if delta < 0 {
        (-delta) as nat
    } else {
        delta as nat
    }
}

pub(crate) fn size_of_move(delta: i64) -> (out: u64)
    ensures
        out == magnitude(delta as int),
{
    if delta == i64::MIN {
        0x8000_0000_0000_0000
    } else if delta < 0 {
        (-delta) as u64
    } else {
        delta as u64
    }
}

/// Share of a total change, never above the whole.
pub open spec fn share_of_move(delta: int, total: int) -> double::Dyadic {
    if total == 0 {
        (0, 0)
    } else {
        double::at_most(
            double::quotient(double::of_int(magnitude(delta)), double::of_int(magnitude(total))),
            double::of_int(1),
        )
    }
}

impl Change {
    pub fn is_growth(&self) -> (yes: bool)
        ensures
            yes == (self.delta > 0),
    {
        self.delta > 0
    }

    /// Share of a total change this entry accounts for, from none to all of it.
    pub fn share_of(&self, total: i64) -> (share: Double)
        ensures
            share@ == share_of_move(self.delta as int, total as int),
            share.valid(),
    {
        if total == 0 {
            return Double::zero();
        }
        let whole: u64 = size_of_move(total);
        proof {
            double::nearest_is_normal(whole as nat, 1, double::DOUBLE as nat);
        }
        let share = Double::from_u64(size_of_move(self.delta)).divided_by(
            &Double::from_u64(whole),
            Ghost(121),
        );
        share.capped(Double::from_u64(1))
    }
}

/// The node at a path, looking only where it could be.
pub open spec fn found(node: Moves, target: Seq<u8>) -> Option<Moves>
    decreases node, 1nat, 0nat,
{
    if path::same_place(node.change.path, target) {
        Some(node)
    } else if !path::within(target, node.change.path) {
        None
    } else {
        found_below(node, target, 0)
    }
}

/// The same, among the children from `at` on.
pub open spec fn found_below(node: Moves, target: Seq<u8>, at: nat) -> Option<Moves>
    decreases node, 0nat, node.children.len() - at,
{
    if at >= node.children.len() {
        None
    } else {
        match found(node.children[at as int], target) {
            Some(hit) => Some(hit),
            None => found_below(node, target, at + 1),
        }
    }
}

/// The largest single movement in a tree of changes.
pub open spec fn largest_move(node: Moves) -> nat
    decreases node, 1nat, 0nat,
{
    let own = magnitude(node.change.delta as int);
    let below = largest_below(node, node.children.len());
    if below > own {
        below
    } else {
        own
    }
}

pub open spec fn largest_below(node: Moves, count: nat) -> nat
    decreases node, 0nat, count,
{
    if count == 0 || count > node.children.len() {
        0
    } else {
        let before = largest_below(node, (count - 1) as nat);
        let here = largest_move(node.children[count - 1]);
        if here > before {
            here
        } else {
            before
        }
    }
}

impl ChangeNode {
    /// The node for a path.
    pub fn find(&self, target: &FilePath) -> (hit: Option<&ChangeNode>)
        ensures
            hit is Some <==> found(self@, target@) is Some,
            hit matches Some(node) ==> node@ == found(self@, target@)->0,
        decreases self,
    {
        if self.change.path.same(target) {
            return Some(self);
        }
        // Only descend the branch that could contain it.
        if !target.starts_with(&self.change.path) {
            return None;
        }
        let mut at: usize = 0;
        while at < self.children.len()
            invariant
                at <= self.children.len(),
                self@.children.len() == self.children.len(),
                found_below(self@, target@, 0) == found_below(self@, target@, at as nat),
                found(self@, target@) == found_below(self@, target@, 0),
            decreases self.children.len() - at,
        {
            assert(self@.children[at as int] == self.children@[at as int]@);
            if let Some(hit) = self.children[at].find(target) {
                return Some(hit);
            }
            at += 1;
        }
        None
    }

    fn max_abs_delta(&self) -> (out: u64)
        ensures
            out == largest_move(self@),
        decreases self,
    {
        let mut most: u64 = 0;
        let mut at: usize = 0;
        while at < self.children.len()
            invariant
                at <= self.children.len(),
                self@.children.len() == self.children.len(),
                most == largest_below(self@, at as nat),
            decreases self.children.len() - at,
        {
            assert(self@.children[at as int] == self.children@[at as int]@);
            let here: u64 = self.children[at].max_abs_delta();
            if here > most {
                most = here;
            }
            at += 1;
        }
        let own: u64 = size_of_move(self.change.delta);
        if most > own {
            most
        } else {
            own
        }
    }
}

/// A mover has to be at least this big a slice of the largest single movement before the search
/// descends into it looking for a more specific culprit: five hundredths, as a double.
pub open spec fn significance() -> double::Dyadic {
    double::ratio(1, 20)
}

/// ...and at least this many bytes, so a quiet week does not produce a list of log files that grew
/// by a kilobyte.
pub const MIN_ATTRIBUTION: i64 = 10_000_000;

/// How much a directory has to have moved to be named.
///
/// It scales with the biggest thing that moved rather than with the net change: a week where one
/// cache grew 40 GB and another shrank 40 GB nets to zero but is not a quiet week.
pub open spec fn attribution_floor(node: Moves) -> int {
    let scaled = double::whole(
        double::product(double::of_int(largest_move(node)), significance()),
    ) as int;
    let capped = if scaled > i64::MAX {
        i64::MAX as int
    } else {
        scaled
    };
    if capped > MIN_ATTRIBUTION {
        capped
    } else {
        MIN_ATTRIBUTION as int
    }
}

/// Whether a movement is worth naming, in the direction that is asked for.
pub open spec fn qualifies(change: Move, floor: int, growing: bool) -> bool {
    if growing {
        change.delta >= floor
    } else {
        change.delta <= -floor
    }
}

/// Down while some child still explains the movement; the node where the trail goes cold, or
/// where it reaches something already worth naming.
pub open spec fn trail(node: Moves, floor: int, growing: bool, stop: spec_fn(Seq<u8>) -> bool) -> Seq<
    Move,
>
    decreases node, 1nat, 0nat,
{
    if stop(node.change.path) || !exists|i: int|
        0 <= i < node.children.len() && qualifies(
            (#[trigger] node.children[i]).change,
            floor,
            growing,
        ) {
        seq![node.change]
    } else {
        trail_below(node, node.children.len(), floor, growing, stop)
    }
}

/// The trails through the first `count` children that qualify.
pub open spec fn trail_below(
    node: Moves,
    count: nat,
    floor: int,
    growing: bool,
    stop: spec_fn(Seq<u8>) -> bool,
) -> Seq<Move>
    decreases node, 0nat, count,
{
    if count == 0 || count > node.children.len() {
        Seq::empty()
    } else {
        let before = trail_below(node, (count - 1) as nat, floor, growing, stop);
        let child = node.children[count - 1];
        if qualifies(child.change, floor, growing) {
            before + trail(child, floor, growing, stop)
        } else {
            before
        }
    }
}

/// The directories that moved one way, most first, each named as specifically as the evidence
/// supports.
pub open spec fn blamed(
    node: Moves,
    limit: nat,
    growing: bool,
    stop: spec_fn(Seq<u8>) -> bool,
) -> Seq<Move> {
    let floor = attribution_floor(node);
    tree::first(
        order::stable_sort(
            trail(node, floor, growing, stop).filter(
                |change: Move| qualifies(change, floor, growing),
            ),
            |a: Move, b: Move|
                if growing {
                    a.delta > b.delta
                } else {
                    a.delta < b.delta
                },
        ),
        limit,
    )
}

/// The rule that stops at anything with a name of its own.
///
/// Once growth reaches something with a name, "Gradle caches", that is the answer. Descending
/// further only trades a useful label for an arbitrary file inside it.
pub open spec fn stops_at_names(around: categories::Around) -> spec_fn(Seq<u8>) -> bool {
    |path: Seq<u8>| categories::rule_for(path, around) is Some
}

/// The rule that a predicate on paths describes.
pub open spec fn stop_rule<F: Fn(&FilePath) -> bool>(stop: F) -> spec_fn(Seq<u8>) -> bool {
    |path: Seq<u8>| exists|p: &FilePath| p@ == path && #[trigger] stop.ensures((p,), true)
}

/// Whether a predicate on paths goes by the path alone, and answers the same each time.
pub open spec fn goes_by_path<F: Fn(&FilePath) -> bool>(stop: F) -> bool {
    &&& forall|p: &FilePath| #[trigger] stop.requires((p,))
    &&& forall|p: &FilePath, q: &FilePath, a: bool, b: bool|
        p@ == q@ && #[trigger] stop.ensures((p,), a) && #[trigger] stop.ensures((q,), b) ==> a == b
}

#[derive(Debug)]
pub struct Diff {
    pub root: FilePath,
    pub before_at: u64,
    pub after_at: u64,
    pub before_total: u64,
    pub after_total: u64,
    /// Entries below this many bytes may have been left out of the earlier scan.
    pub before_floor: u64,
    pub tree: ChangeNode,
}

/// The changes of a list, as values.
pub open spec fn moves(list: Seq<&Change>) -> Seq<Move> {
    list.map_values(|change: &Change| change@)
}

impl Diff {
    pub fn total_delta(&self) -> (delta: i64)
        ensures
            delta == self.tree.change.delta,
    {
        self.tree.change.delta
    }

    pub fn elapsed(&self) -> (seconds: u64)
        ensures
            seconds == tree::less_by(self.after_at, self.before_at),
    {
        self.after_at.saturating_sub(self.before_at)
    }

    /// The directories that grew, most first, each named as specifically as the evidence supports.
    pub fn growth(&self, limit: usize, around: &Surroundings) -> (out: Vec<&Change>)
        ensures
            moves(out@) == blamed(self.tree@, limit as nat, true, stops_at_names(around@)),
    {
        self.attributed(limit, true, around)
    }

    /// The same, for space that was freed.
    pub fn shrinkage(&self, limit: usize, around: &Surroundings) -> (out: Vec<&Change>)
        ensures
            moves(out@) == blamed(self.tree@, limit as nat, false, stops_at_names(around@)),
    {
        self.attributed(limit, false, around)
    }

    pub fn change_for(&self, target: &FilePath) -> (hit: Option<&Change>)
        ensures
            hit is Some <==> found(self.tree@, target@) is Some,
            hit matches Some(change) ==> change@ == found(self.tree@, target@)->0.change,
    {
        match self.tree.find(target) {
            Some(node) => Some(&node.change),
            None => None,
        }
    }

    /// The same as [`growth`](Self::growth), but you choose where the trail stops. `growth` stops
    /// at recognised caches; a caller wanting the exact file can pass a rule that never stops.
    pub fn growth_stopping_at<F: Fn(&FilePath) -> bool>(&self, limit: usize, stop: &F) -> (out: Vec<
        &Change,
    >)
        requires
            goes_by_path(*stop),
        ensures
            moves(out@) == blamed(self.tree@, limit as nat, true, stop_rule(*stop)),
    {
        let ghost rule = stop_rule(*stop);
        assert forall|p: &FilePath, b: bool| #[trigger] stop.ensures((p,), b) implies b == rule(
            p@,
        ) by {
            if rule(p@) && !b {
                let q = choose|q: &FilePath| q@ == p@ && #[trigger] stop.ensures((q,), true);
                assert(stop.ensures((q,), true));
            }
        }
        self.attributed_with(limit, true, stop, Ghost(rule))
    }

    fn attributed(&self, limit: usize, growing: bool, around: &Surroundings) -> (out: Vec<&Change>)
        ensures
            moves(out@) == blamed(self.tree@, limit as nat, growing, stops_at_names(around@)),
    {
        let named = |path: &FilePath| -> (yes: bool)
            ensures
                yes == (categories::rule_for(path@, around@) is Some),
            { categories::classify(path, around).is_some() };
        self.attributed_with(limit, growing, &named, Ghost(stops_at_names(around@)))
    }

    fn attributed_with<F: Fn(&FilePath) -> bool>(
        &self,
        limit: usize,
        growing: bool,
        stop: &F,
        Ghost(rule): Ghost<spec_fn(Seq<u8>) -> bool>,
    ) -> (out: Vec<&Change>)
        requires
            forall|p: &FilePath| #[trigger] stop.requires((p,)),
            forall|p: &FilePath, b: bool| #[trigger] stop.ensures((p,), b) ==> b == rule(p@),
        ensures
            moves(out@) == blamed(self.tree@, limit as nat, growing, rule),
    {
        let most = Double::from_u64(self.tree.max_abs_delta());
        let scaled: u64 = most.times(&Double::from_ratio(1, 20), Ghost(121)).to_u64();
        let capped: i64 = if scaled > 0x7fff_ffff_ffff_ffff {
            i64::MAX
        } else {
            scaled as i64
        };
        let floor: i64 = if capped > MIN_ATTRIBUTION {
            capped
        } else {
            MIN_ATTRIBUTION
        };
        let mut named: Vec<&Change> = Vec::new();
        collect(&self.tree, floor, growing, stop, &mut named, Ghost(rule));
        let ghost all = trail(self.tree@, floor as int, growing, rule);
        assert(moves(named@) =~= all);
        let ghost wanted = |change: Move| qualifies(change, floor as int, growing);
        let mut kept: Vec<&Change> = Vec::new();
        let mut at: usize = 0;
        assert(all.take(0).filter(wanted) =~= Seq::empty()) by {
            assert(all.take(0) =~= Seq::empty());
            reveal(Seq::filter);
        }
        while at < named.len()
            invariant
                at <= named.len(),
                all == moves(named@),
                floor > i64::MIN,
                wanted == (|change: Move| qualifies(change, floor as int, growing)),
                moves(kept@) == all.take(at as int).filter(wanted),
            decreases named.len() - at,
        {
            let change = named[at];
            let ghost before = kept@;
            proof {
                assert(all[at as int] == change@);
                assert(all.take(at + 1) =~= all.take(at as int).push(change@));
                all.take(at as int).lemma_filter_push(change@, wanted);
            }
            let keep = if growing {
                change.delta >= floor
            } else {
                change.delta <= -floor
            };
            if keep {
                kept.push(change);
                assert(moves(kept@) =~= moves(before).push(change@));
            }
            at += 1;
        }
        assert(all.take(at as int) =~= all);
        let ghost key = |change: &Change| change@;
        let ghost less = |a: Move, b: Move|
            if growing {
                a.delta > b.delta
            } else {
                a.delta < b.delta
            };
        proof {
            order::order_by_key(key, less);
            order::sort_maps(kept@, key, less);
        }
        let further = |a: &&Change, b: &&Change| -> (yes: bool)
            ensures
                yes == if growing {
                    a.delta > b.delta
                } else {
                    a.delta < b.delta
                },
            {
                if growing {
                    a.delta > b.delta
                } else {
                    a.delta < b.delta
                }
            };
        let mut out = order::sort_stably(
            kept,
            &further,
            Ghost(|a: &Change, b: &Change| less(key(a), key(b))),
        );
        let ghost whole = moves(out@);
        out.truncate(limit);
        assert(moves(out@) =~= tree::first(whole, limit as nat));
        out
    }
}

/// Walk down while some child still explains the movement; emit the node where the trail goes
/// cold, or where it reaches something already worth naming.
fn collect<'a, F: Fn(&FilePath) -> bool>(
    node: &'a ChangeNode,
    floor: i64,
    growing: bool,
    stop: &F,
    out: &mut Vec<&'a Change>,
    Ghost(rule): Ghost<spec_fn(Seq<u8>) -> bool>,
)
    requires
        floor > i64::MIN,
        forall|p: &FilePath| #[trigger] stop.requires((p,)),
        forall|p: &FilePath, b: bool| #[trigger] stop.ensures((p,), b) ==> b == rule(p@),
    ensures
        moves(final(out)@) == moves(old(out)@) + trail(node@, floor as int, growing, rule),
    decreases node,
{
    let ghost before = moves(out@);
    if stop(&node.change.path) {
        out.push(&node.change);
        assert(moves(out@) =~= before + seq![node@.change]);
        return;
    }
    let mut descended = false;
    let mut at: usize = 0;
    assert(before =~= before + trail_below(node@, 0, floor as int, growing, rule));
    while at < node.children.len()
        invariant
            at <= node.children.len(),
            floor > i64::MIN,
            node@.children.len() == node.children.len(),
            forall|p: &FilePath| #[trigger] stop.requires((p,)),
            forall|p: &FilePath, b: bool| #[trigger] stop.ensures((p,), b) ==> b == rule(p@),
            descended == exists|i: int|
                0 <= i < at && qualifies(
                    (#[trigger] node@.children[i]).change,
                    floor as int,
                    growing,
                ),
            moves(out@) == before + trail_below(node@, at as nat, floor as int, growing, rule),
        decreases node.children.len() - at,
    {
        let child = &node.children[at];
        assert(node@.children[at as int] == child@);
        let qualified = if growing {
            child.change.delta >= floor
        } else {
            child.change.delta <= -floor
        };
        if qualified {
            descended = true;
            collect(child, floor, growing, stop, out, Ghost(rule));
        }
        at += 1;
        assert(moves(out@) =~= before + trail_below(
            node@,
            at as nat,
            floor as int,
            growing,
            rule,
        ));
    }
    // Nothing below is big enough to name: this directory is the answer.
    if !descended {
        proof {
            nothing_below(node@, node@.children.len(), floor as int, growing, rule);
        }
        out.push(&node.change);
        assert(moves(out@) =~= before + seq![node@.change]);
    }
}

proof fn nothing_below(
    node: Moves,
    count: nat,
    floor: int,
    growing: bool,
    stop: spec_fn(Seq<u8>) -> bool,
)
    requires
        count <= node.children.len(),
        forall|i: int|
            0 <= i < count ==> !qualifies((#[trigger] node.children[i]).change, floor, growing),
    ensures
        trail_below(node, count, floor, growing, stop) == Seq::<Move>::empty(),
    decreases count,
{
    if count > 0 {
        nothing_below(node, (count - 1) as nat, floor, growing, stop);
    }
}

/// How many levels a tree has.
pub open spec fn height(tree: Tree) -> nat
    decreases tree, 1nat, 0nat,
{
    height_below(tree, tree.children.len()) + 1
}

pub open spec fn height_below(tree: Tree, count: nat) -> nat
    decreases tree, 0nat, count,
{
    if count == 0 || count > tree.children.len() {
        0
    } else {
        let before = height_below(tree, (count - 1) as nat);
        let here = height(tree.children[count - 1]);
        if here > before {
            here
        } else {
            before
        }
    }
}

proof fn children_are_lower(tree: Tree, count: nat, i: int)
    requires
        0 <= i < count <= tree.children.len(),
    ensures
        height(tree.children[i]) <= height_below(tree, count),
    decreases count,
{
    if i < count - 1 {
        children_are_lower(tree, (count - 1) as nat, i);
    }
}

/// The children of an entry that may not be there.
pub open spec fn children_of(tree: Option<Tree>) -> Seq<Tree> {
    match tree {
        Some(tree) => tree.children,
        None => Seq::empty(),
    }
}

pub open spec fn height_of(tree: Option<Tree>) -> nat {
    match tree {
        Some(tree) => height(tree),
        None => 0,
    }
}

/// The last child of that name, where there is one.
pub open spec fn last_named(children: Seq<Tree>, name: Seq<u8>) -> Option<Tree>
    decreases children.len(),
{
    if children.len() == 0 {
        None
    } else if path::file_name(children.last().name) == Some(name) {
        Some(children.last())
    } else {
        last_named(children.drop_last(), name)
    }
}

proof fn last_named_is_lower(tree: Option<Tree>, count: nat, name: Seq<u8>)
    requires
        count <= children_of(tree).len(),
    ensures
        last_named(children_of(tree).take(count as int), name) matches Some(child) ==> height(child)
            < height_of(tree),
    decreases count,
{
    let some = children_of(tree).take(count as int);
    if count > 0 {
        if path::file_name(some.last().name) == Some(name) {
            children_are_lower(tree->0, tree->0.children.len(), count - 1);
        } else {
            assert(some.drop_last() =~= children_of(tree).take(count - 1));
            last_named_is_lower(tree, (count - 1) as nat, name);
        }
    }
}

/// A child has fewer levels than what it is a child of.
pub proof fn named_child_is_lower(tree: Option<Tree>, name: Seq<u8>)
    ensures
        tree is Some ==> height_of(last_named(children_of(tree), name)) < height_of(tree),
        tree is None ==> height_of(last_named(children_of(tree), name)) == 0,
{
    let all = children_of(tree);
    assert(all.take(all.len() as int) =~= all);
    last_named_is_lower(tree, all.len(), name);
}

/// Some names in order, and one more in its place, where it is not there already.
pub open spec fn with_name(names: Seq<Seq<u8>>, name: Seq<u8>) -> Seq<Seq<u8>>
    decreases names.len(),
{
    if names.len() == 0 {
        seq![name]
    } else if names.last() == name {
        names
    } else if strings::precedes(name, names.last()) {
        with_name(names.drop_last(), name).push(names.last())
    } else {
        names.push(name)
    }
}

/// Some names in order, and those of some children in their places. What has no name of its own
/// is left out.
pub open spec fn with_names(names: Seq<Seq<u8>>, children: Seq<Tree>) -> Seq<Seq<u8>>
    decreases children.len(),
{
    if children.len() == 0 {
        names
    } else {
        let before = with_names(names, children.drop_last());
        match path::file_name(children.last().name) {
            Some(name) => with_name(before, name),
            None => before,
        }
    }
}

/// Every name that a child goes by on either side, in order, once each.
pub open spec fn names_of(before: Option<Tree>, after: Option<Tree>) -> Seq<Seq<u8>> {
    with_names(with_names(Seq::empty(), children_of(before)), children_of(after))
}

pub open spec fn size_or_none(tree: Option<Tree>, kind: SizeKind) -> u64 {
    match tree {
        Some(tree) => tree::size_of(tree, kind),
        None => 0,
    }
}

/// How one entry changed between two scans.
pub open spec fn change_between(
    before: Option<Tree>,
    after: Option<Tree>,
    at: Seq<u8>,
    kind: SizeKind,
    floor: u64,
) -> Move {
    let (old_size, new_size) = (size_or_none(before, kind), size_or_none(after, kind));
    let delta = difference(new_size, old_size);
    Move {
        path: at,
        before: old_size,
        after: new_size,
        delta: delta as i64,
        kind: kind_of(before is Some, after is Some, delta),
        modified: match after {
            Some(tree) => tree.modified,
            None => 0,
        },
        before_is_bound: before is None && floor > 0,
    }
}

/// How a whole subtree changed between two scans: children are paired up by name, and a name on
/// one side only is an addition or a removal.
pub open spec fn compared(
    before: Option<Tree>,
    after: Option<Tree>,
    at: Seq<u8>,
    kind: SizeKind,
    floor: u64,
) -> Moves
    decreases height_of(before) + height_of(after), 1nat, 0nat,
{
    Moves {
        change: change_between(before, after, at, kind, floor),
        children: compared_all(before, after, names_of(before, after), at, kind, floor),
    }
}

/// The same, for the children of some names.
pub open spec fn compared_all(
    before: Option<Tree>,
    after: Option<Tree>,
    names: Seq<Seq<u8>>,
    at: Seq<u8>,
    kind: SizeKind,
    floor: u64,
) -> Seq<Moves>
    decreases height_of(before) + height_of(after), 0nat, names.len(),
{
    if names.len() == 0 || (before is None && after is None) {
        Seq::empty()
    } else {
        proof {
            named_child_is_lower(before, names.last());
            named_child_is_lower(after, names.last());
        }
        compared_all(before, after, names.drop_last(), at, kind, floor).push(
            compared(
                last_named(children_of(before), names.last()),
                last_named(children_of(after), names.last()),
                path::joined(at, names.last()),
                kind,
                floor,
            ),
        )
    }
}

/// Whether names stand in order, each once.
pub open spec fn ascending(names: Seq<Seq<u8>>) -> bool {
    forall|i: int, j: int|
        0 <= i < j < names.len() ==> strings::precedes(#[trigger] names[i], #[trigger] names[j])
}

proof fn with_name_ascends(names: Seq<Seq<u8>>, name: Seq<u8>)
    requires
        ascending(names),
    ensures
        ascending(with_name(names, name)),
        forall|x: Seq<u8>| #[trigger]
            with_name(names, name).contains(x) <==> names.contains(x) || x == name,
        with_name(names, name).len() > 0,
    decreases names.len(),
{
    let out = with_name(names, name);
    if names.len() == 0 {
        assert(out[0] == name);
    } else if names.last() == name {
        assert(names[names.len() - 1] == name);
    } else if strings::precedes(name, names.last()) {
        let front = names.drop_last();
        let inner = with_name(front, name);
        assert(ascending(front)) by {
            assert forall|i: int, j: int| 0 <= i < j < front.len() implies strings::precedes(
                #[trigger] front[i],
                #[trigger] front[j],
            ) by {
                assert(names[i] == front[i] && names[j] == front[j]);
            }
        }
        with_name_ascends(front, name);
        assert forall|i: int, j: int| 0 <= i < j < out.len() implies strings::precedes(
            #[trigger] out[i],
            #[trigger] out[j],
        ) by {
            assert(out[i] == inner[i]);
            if j == out.len() - 1 {
                assert(inner.contains(inner[i]));
                if inner[i] != name {
                    let k = choose|k: int| 0 <= k < front.len() && front[k] == inner[i];
                    assert(names[k] == front[k]);
                    assert(strings::precedes(names[k], names[names.len() - 1]));
                }
            } else {
                assert(out[j] == inner[j]);
            }
        }
        assert forall|x: Seq<u8>| #[trigger] out.contains(x) <==> names.contains(x) || x == name by {
            if out.contains(x) {
                let k = choose|k: int| 0 <= k < out.len() && out[k] == x;
                if k < inner.len() {
                    assert(inner[k] == x);
                    assert(inner.contains(x));
                    if x != name {
                        let m = choose|m: int| 0 <= m < front.len() && front[m] == x;
                        assert(names[m] == x);
                    }
                } else {
                    assert(names[names.len() - 1] == x);
                }
            }
            if names.contains(x) || x == name {
                if x == names.last() {
                    assert(out[out.len() - 1] == x);
                } else {
                    if x != name {
                        let m = choose|m: int| 0 <= m < names.len() && names[m] == x;
                        assert(front[m] == x);
                    }
                    assert(inner.contains(x));
                    let k = choose|k: int| 0 <= k < inner.len() && inner[k] == x;
                    assert(out[k] == x);
                }
            }
        }
    } else {
        strings::precedes_is_total(name, names.last());
        assert forall|i: int, j: int| 0 <= i < j < out.len() implies strings::precedes(
            #[trigger] out[i],
            #[trigger] out[j],
        ) by {
            assert(out[i] == names[i]);
            if j == out.len() - 1 {
                if i < names.len() - 1 {
                    assert(strings::precedes(names[i], names[names.len() - 1]));
                    strings::precedes_is_transitive(names[i], names.last(), name);
                }
            } else {
                assert(out[j] == names[j]);
            }
        }
        assert forall|x: Seq<u8>| #[trigger] out.contains(x) <==> names.contains(x) || x == name by {
            if names.contains(x) {
                let m = choose|m: int| 0 <= m < names.len() && names[m] == x;
                assert(out[m] == x);
            }
            assert(out[out.len() - 1] == name);
            if out.contains(x) {
                let k = choose|k: int| 0 <= k < out.len() && out[k] == x;
                if k < names.len() {
                    assert(names[k] == x);
                }
            }
        }
    }
}

/// Whether a child of that name is there.
pub open spec fn has_named(children: Seq<Tree>, name: Seq<u8>) -> bool {
    exists|i: int|
        0 <= i < children.len() && path::file_name((#[trigger] children[i]).name) == Some(name)
}

proof fn with_names_ascends(names: Seq<Seq<u8>>, children: Seq<Tree>)
    requires
        ascending(names),
    ensures
        ascending(with_names(names, children)),
        forall|x: Seq<u8>| #[trigger]
            with_names(names, children).contains(x) <==> names.contains(x) || has_named(children, x),
    decreases children.len(),
{
    if children.len() > 0 {
        let front = children.drop_last();
        let before = with_names(names, front);
        with_names_ascends(names, front);
        assert forall|x: Seq<u8>| #[trigger] has_named(children, x) <==> has_named(front, x)
            || path::file_name(children.last().name) == Some(x) by {
            if has_named(front, x) {
                let i = choose|i: int|
                    0 <= i < front.len() && path::file_name((#[trigger] front[i]).name) == Some(x);
                assert(children[i] == front[i]);
            }
            if has_named(children, x) {
                let i = choose|i: int|
                    0 <= i < children.len() && path::file_name((#[trigger] children[i]).name)
                        == Some(x);
                if i < front.len() {
                    assert(front[i] == children[i]);
                }
            }
            assert(children[children.len() - 1] == children.last());
        }
        match path::file_name(children.last().name) {
            Some(name) => {
                with_name_ascends(before, name);
            },
            None => {},
        }
    }
}

/// The names on either side stand in order, each once, and none is missing.
pub proof fn names_are_complete(before: Option<Tree>, after: Option<Tree>)
    ensures
        ascending(names_of(before, after)),
        forall|x: Seq<u8>| #[trigger]
            names_of(before, after).contains(x) <==> has_named(children_of(before), x) || has_named(
                children_of(after),
                x,
            ),
{
    with_names_ascends(Seq::empty(), children_of(before));
    with_names_ascends(with_names(Seq::empty(), children_of(before)), children_of(after));
}

proof fn ascending_is_unique(a: Seq<Seq<u8>>, b: Seq<Seq<u8>>)
    requires
        ascending(a),
        ascending(b),
        forall|x: Seq<u8>| a.contains(x) <==> b.contains(x),
    ensures
        a == b,
    decreases a.len(),
{
    if a.len() == 0 {
        if b.len() > 0 {
            assert(b.contains(b[0]));
        }
        assert(a =~= b);
    } else {
        assert(a.contains(a[a.len() - 1]));
        assert(b.contains(a.last()));
        assert(b.contains(b[b.len() - 1]));
        assert(a.contains(b.last()));
        let p = choose|p: int| 0 <= p < b.len() && b[p] == a.last();
        let q = choose|q: int| 0 <= q < a.len() && a[q] == b.last();
        if a.last() != b.last() {
            assert(strings::precedes(b[p], b[b.len() - 1]));
            assert(strings::precedes(a[q], a[a.len() - 1]));
            strings::precedes_is_transitive(a.last(), b.last(), a.last());
            strings::precedes_is_irreflexive(a.last());
        }
        let (c, d) = (a.drop_last(), b.drop_last());
        ascending_front(a);
        ascending_front(b);
        assert forall|x: Seq<u8>| c.contains(x) <==> d.contains(x) by {
            assert(a.contains(x) <==> b.contains(x));
            front_contains(a, x);
            front_contains(b, x);
        }
        ascending_is_unique(c, d);
        assert(a =~= c.push(a.last()));
        assert(b =~= d.push(b.last()));
    }
}

proof fn ascending_front(a: Seq<Seq<u8>>)
    requires
        ascending(a),
        a.len() > 0,
    ensures
        ascending(a.drop_last()),
{
    let c = a.drop_last();
    assert forall|i: int, j: int| 0 <= i < j < c.len() implies strings::precedes(
        #[trigger] c[i],
        #[trigger] c[j],
    ) by {
        assert(c[i] == a[i] && c[j] == a[j]);
    }
}

proof fn front_contains(a: Seq<Seq<u8>>, x: Seq<u8>)
    requires
        ascending(a),
        a.len() > 0,
    ensures
        a.drop_last().contains(x) <==> a.contains(x) && x != a.last(),
{
    let c = a.drop_last();
    if c.contains(x) {
        let i = choose|i: int| 0 <= i < c.len() && c[i] == x;
        assert(a[i] == x);
        assert(strings::precedes(a[i], a[a.len() - 1]));
        strings::precedes_is_irreflexive(x);
    }
    if a.contains(x) && x != a.last() {
        let i = choose|i: int| 0 <= i < a.len() && a[i] == x;
        assert(c[i] == x);
    }
}

/// A child's name and where it stands.
struct Slot {
    name: Vec<u8>,
    index: usize,
}

impl View for Slot {
    type V = (Seq<u8>, int);

    closed spec fn view(&self) -> (Seq<u8>, int) {
        (self.name@, self.index as int)
    }
}

/// By name, and by place where two share one.
spec fn slot_before(a: (Seq<u8>, int), b: (Seq<u8>, int)) -> bool {
    strings::precedes(a.0, b.0) || (a.0 == b.0 && a.1 < b.1)
}

proof fn slots_are_ordered()
    ensures
        order::strict_weak(|a: (Seq<u8>, int), b: (Seq<u8>, int)| slot_before(a, b)),
{
    let less = |a: (Seq<u8>, int), b: (Seq<u8>, int)| slot_before(a, b);
    assert forall|x: (Seq<u8>, int), y: (Seq<u8>, int), z: (Seq<u8>, int)| #[trigger]
        less(x, y) && #[trigger] less(y, z) implies less(x, z) by {
        if strings::precedes(x.0, y.0) && strings::precedes(y.0, z.0) {
            strings::precedes_is_transitive(x.0, y.0, z.0);
        }
    }
    assert forall|x: (Seq<u8>, int), y: (Seq<u8>, int), z: (Seq<u8>, int)|
        #![trigger less(x, z), less(x, y)]
        #![trigger less(x, z), less(y, z)]
        less(x, z) implies less(x, y) || less(y, z) by {
        strings::precedes_is_total(x.0, y.0);
        strings::precedes_is_total(y.0, z.0);
        if strings::precedes(x.0, z.0) {
            strings::precedes_is_weak(x.0, y.0, z.0);
        }
        if x.0 == z.0 && strings::precedes(y.0, x.0) {
            assert(less(y, z));
        }
    }
    assert forall|x: (Seq<u8>, int)| !#[trigger] less(x, x) by {
        strings::precedes_is_irreflexive(x.0);
    }
}

/// Whether slots stand for the named children of an entry.
spec fn slots_of(slots: Seq<Slot>, children: Seq<Tree>) -> bool {
    &&& forall|i: int|
        0 <= i < slots.len() ==> 0 <= (#[trigger] slots[i])@.1 < children.len() && path::file_name(
            children[slots[i]@.1].name,
        ) == Some(slots[i]@.0)
    &&& forall|k: int|
        0 <= k < children.len() && path::file_name((#[trigger] children[k]).name) is Some
            ==> exists|i: int| 0 <= i < slots.len() && (#[trigger] slots[i])@.1 == k
}

spec fn slots_sorted(slots: Seq<Slot>) -> bool {
    forall|i: int, j: int|
        0 <= i < j < slots.len() ==> !slot_before((#[trigger] slots[j])@, (#[trigger] slots[i])@)
}

fn slots_for(entry: Option<&DiskEntry>) -> (slots: Vec<Slot>)
    ensures
        slots_of(slots@, children_of(model(entry))),
        slots_sorted(slots@),
{
    let mut slots: Vec<Slot> = Vec::new();
    let ghost children = children_of(model(entry));
    if let Some(entry) = entry {
        let mut at: usize = 0;
        while at < entry.children.len()
            invariant
                at <= entry.children.len(),
                children == entry@.children,
                children.len() == entry.children.len(),
                forall|i: int|
                    0 <= i < slots@.len() ==> 0 <= (#[trigger] slots@[i])@.1 < at && path::file_name(
                        children[slots@[i]@.1].name,
                    ) == Some(slots@[i]@.0),
                forall|k: int|
                    0 <= k < at && path::file_name((#[trigger] children[k]).name) is Some
                        ==> exists|i: int| 0 <= i < slots@.len() && (#[trigger] slots@[i])@.1 == k,
            decreases entry.children.len() - at,
        {
            assert(children[at as int] == entry.children@[at as int]@);
            let ghost before = slots@;
            if let Some(name) = entry.children[at].root_path().file_name() {
                slots.push(Slot { name, index: at });
                assert(slots@[slots@.len() - 1]@.1 == at);
                assert forall|k: int|
                    0 <= k < at && path::file_name(
                        (#[trigger] children[k]).name,
                    ) is Some implies exists|i: int|
                    0 <= i < slots@.len() && (#[trigger] slots@[i])@.1 == k by {
                    let i = choose|i: int| 0 <= i < before.len() && (#[trigger] before[i])@.1 == k;
                    assert(slots@[i]@.1 == k);
                }
            }
            at += 1;
        }
    }
    let ghost unsorted = slots@;
    let ghost key = |slot: Slot| slot@;
    let ghost less = |a: (Seq<u8>, int), b: (Seq<u8>, int)| slot_before(a, b);
    let ghost by_key = |a: Slot, b: Slot| less(key(a), key(b));
    proof {
        slots_are_ordered();
        order::order_by_key(key, less);
    }
    let before_it = |a: &Slot, b: &Slot| -> (yes: bool)
        ensures
            yes == slot_before(a@, b@),
        {
            strings::bytes_precede(&a.name, &b.name) || (strings::same_bytes(&a.name, &b.name)
                && a.index < b.index)
        };
    let slots = order::sort_stably(slots, &before_it, Ghost(by_key));
    proof {
        order::sort_orders(unsorted, by_key);
        order::sort_is_a_permutation(unsorted, by_key);
        order::sort_keeps_members(unsorted, by_key);
        assert forall|i: int, j: int| 0 <= i < j < slots@.len() implies !slot_before(
            (#[trigger] slots@[j])@,
            (#[trigger] slots@[i])@,
        ) by {
            assert(!by_key(slots@[j], slots@[i]));
        }
        assert forall|i: int| 0 <= i < slots@.len() implies 0 <= (#[trigger] slots@[i])@.1
            < children.len() && path::file_name(children[slots@[i]@.1].name) == Some(
            slots@[i]@.0,
        ) by {
            assert(slots@.contains(slots@[i]));
            let p = choose|p: int| 0 <= p < unsorted.len() && unsorted[p] == slots@[i];
            assert(unsorted[p]@.1 < children.len());
        }
        assert forall|k: int|
            0 <= k < children.len() && path::file_name(
                (#[trigger] children[k]).name,
            ) is Some implies exists|i: int| 0 <= i < slots@.len() && (#[trigger] slots@[i])@.1
            == k by {
            let p = choose|p: int| 0 <= p < unsorted.len() && (#[trigger] unsorted[p])@.1 == k;
            assert(unsorted.contains(unsorted[p]));
            assert(slots@.contains(unsorted[p]));
            let i = choose|i: int| 0 <= i < slots@.len() && slots@[i] == unsorted[p];
            assert(slots@[i]@.1 == k);
        }
    }
    slots
}

/// The tree that an entry is, where there is one.
pub open spec fn model(entry: Option<&DiskEntry>) -> Option<Tree> {
    match entry {
        Some(entry) => Some(entry@),
        None => None,
    }
}

proof fn last_named_is(children: Seq<Tree>, name: Seq<u8>, at: int)
    requires
        0 <= at < children.len(),
        path::file_name(children[at].name) == Some(name),
        forall|k: int|
            at < k < children.len() ==> path::file_name((#[trigger] children[k]).name) != Some(name),
    ensures
        last_named(children, name) == Some(children[at]),
    decreases children.len(),
{
    if at < children.len() - 1 {
        assert(path::file_name(children[children.len() - 1].name) != Some(name));
        let front = children.drop_last();
        assert forall|k: int| at < k < front.len() implies path::file_name(
            (#[trigger] front[k]).name,
        ) != Some(name) by {
            assert(front[k] == children[k]);
        }
        last_named_is(front, name, at);
    }
}

proof fn last_named_is_none(children: Seq<Tree>, name: Seq<u8>)
    requires
        forall|k: int|
            0 <= k < children.len() ==> path::file_name((#[trigger] children[k]).name) != Some(name),
    ensures
        last_named(children, name) is None,
    decreases children.len(),
{
    if children.len() > 0 {
        assert(path::file_name(children[children.len() - 1].name) != Some(name));
        let front = children.drop_last();
        assert forall|k: int| 0 <= k < front.len() implies path::file_name(
            (#[trigger] front[k]).name,
        ) != Some(name) by {
            assert(front[k] == children[k]);
        }
        last_named_is_none(front, name);
    }
}

/// The last child of that name, found among slots in order.
fn look_up<'a>(entry: Option<&'a DiskEntry>, slots: &Vec<Slot>, name: &Vec<u8>) -> (out: Option<
    &'a DiskEntry,
>)
    requires
        slots_of(slots@, children_of(model(entry))),
        slots_sorted(slots@),
    ensures
        model(out) == last_named(children_of(model(entry)), name@),
{
    let ghost children = children_of(model(entry));
    // The first slot whose name comes after the one looked for.
    let mut low: usize = 0;
    let mut high: usize = slots.len();
    while low < high
        invariant
            low <= high <= slots.len(),
            slots_sorted(slots@),
            forall|i: int| 0 <= i < low ==> !strings::precedes(name@, (#[trigger] slots@[i])@.0),
            forall|i: int|
                high <= i < slots@.len() ==> strings::precedes(name@, (#[trigger] slots@[i])@.0),
        decreases high - low,
    {
        let middle: usize = low + (high - low) / 2;
        if strings::bytes_precede(name, &slots[middle].name) {
            assert forall|i: int| middle <= i < slots@.len() implies strings::precedes(
                name@,
                (#[trigger] slots@[i])@.0,
            ) by {
                if i > middle {
                    let (a, b) = (slots@[middle as int]@.0, slots@[i]@.0);
                    assert(!slot_before(slots@[i]@, slots@[middle as int]@));
                    strings::precedes_is_total(a, b);
                    if strings::precedes(a, b) {
                        strings::precedes_is_transitive(name@, a, b);
                    }
                }
            }
            high = middle;
        } else {
            assert forall|i: int| 0 <= i < middle + 1 implies !strings::precedes(
                name@,
                (#[trigger] slots@[i])@.0,
            ) by {
                if i < middle && strings::precedes(name@, slots@[i]@.0) {
                    let (a, b) = (slots@[i]@.0, slots@[middle as int]@.0);
                    assert(!slot_before(slots@[middle as int]@, slots@[i]@));
                    strings::precedes_is_total(a, b);
                    if strings::precedes(a, b) {
                        strings::precedes_is_transitive(name@, a, b);
                    }
                }
            }
            low = middle + 1;
        }
    }
    if let Some(entry) = entry {
        if low > 0 && strings::same_bytes(&slots[low - 1].name, name) {
            let index: usize = slots[low - 1].index;
            proof {
                let hit = slots@[low - 1]@;
                assert(children[hit.1] == entry.children@[index as int]@);
                assert forall|k: int| hit.1 < k < children.len() implies path::file_name(
                    (#[trigger] children[k]).name,
                ) != Some(name@) by {
                    if path::file_name(children[k].name) == Some(name@) {
                        let i = choose|i: int|
                            0 <= i < slots@.len() && (#[trigger] slots@[i])@.1 == k;
                        strings::precedes_is_irreflexive(name@);
                        assert(slots@[i]@.0 == name@);
                        if i >= low {
                            assert(strings::precedes(name@, slots@[i]@.0));
                        } else if i < low - 1 {
                            assert(!slot_before(slots@[low - 1]@, slots@[i]@));
                        }
                    }
                }
                last_named_is(children, name@, hit.1);
            }
            return Some(&entry.children[index]);
        }
    }
    proof {
        assert forall|k: int| 0 <= k < children.len() implies path::file_name(
            (#[trigger] children[k]).name,
        ) != Some(name@) by {
            if path::file_name(children[k].name) == Some(name@) {
                let i = choose|i: int| 0 <= i < slots@.len() && (#[trigger] slots@[i])@.1 == k;
                strings::precedes_is_irreflexive(name@);
                assert(slots@[i]@.0 == name@);
                if i >= low {
                    assert(strings::precedes(name@, slots@[i]@.0));
                } else if i < low - 1 {
                    let last = slots@[low - 1]@;
                    assert(!slot_before(last, slots@[i]@));
                    assert(!strings::precedes(name@, last.0));
                    strings::precedes_is_total(name@, last.0);
                    assert(last.0 == name@);
                }
            }
        }
        last_named_is_none(children, name@);
    }
    None
}

/// Some names, as values.
spec fn name_values(names: Seq<Vec<u8>>) -> Seq<Seq<u8>> {
    names.map_values(|name: Vec<u8>| name@)
}

proof fn push_contains(names: Seq<Seq<u8>>, name: Seq<u8>)
    ensures
        forall|x: Seq<u8>| #[trigger]
            names.push(name).contains(x) <==> names.contains(x) || x == name,
{
    assert forall|x: Seq<u8>| #[trigger] names.push(name).contains(x) <==> names.contains(x) || x
        == name by {
        if names.contains(x) {
            let i = choose|i: int| 0 <= i < names.len() && names[i] == x;
            assert(names.push(name)[i] == x);
        }
        assert(names.push(name)[names.len() as int] == name);
    }
}

proof fn ascending_push(names: Seq<Seq<u8>>, name: Seq<u8>)
    requires
        ascending(names),
        names.len() > 0 ==> strings::precedes(names.last(), name),
    ensures
        ascending(names.push(name)),
{
    let grown = names.push(name);
    assert forall|i: int, j: int| 0 <= i < j < grown.len() implies strings::precedes(
        #[trigger] grown[i],
        #[trigger] grown[j],
    ) by {
        assert(grown[i] == names[i]);
        if j == names.len() {
            if i < names.len() - 1 {
                assert(strings::precedes(names[i], names[names.len() - 1]));
                strings::precedes_is_transitive(names[i], names.last(), name);
            }
        } else {
            assert(grown[j] == names[j]);
        }
    }
}

/// Names that stand in order, each kept once.
fn without_repeats(all: &Vec<Vec<u8>>) -> (names: Vec<Vec<u8>>)
    requires
        forall|i: int, j: int|
            0 <= i < j < all@.len() ==> !strings::precedes(
                #[trigger] name_values(all@)[j],
                #[trigger] name_values(all@)[i],
            ),
    ensures
        ascending(name_values(names@)),
        forall|x: Seq<u8>| #[trigger]
            name_values(names@).contains(x) <==> name_values(all@).contains(x),
{
    let ghost whole = name_values(all@);
    let mut names: Vec<Vec<u8>> = Vec::new();
    let mut at: usize = 0;
    while at < all.len()
        invariant
            at <= all.len(),
            whole == name_values(all@),
            forall|i: int, j: int|
                0 <= i < j < all@.len() ==> !strings::precedes(
                    #[trigger] whole[j],
                    #[trigger] whole[i],
                ),
            ascending(name_values(names@)),
            names@.len() == 0 <==> at == 0,
            at > 0 ==> names@.last()@ == whole[at - 1],
            forall|x: Seq<u8>| #[trigger]
                name_values(names@).contains(x) <==> whole.take(at as int).contains(x),
        decreases all.len() - at,
    {
        let ghost kept = name_values(names@);
        proof {
            assert(whole[at as int] == all@[at as int]@);
            assert(whole.take(at + 1) =~= whole.take(at as int).push(whole[at as int]));
            push_contains(whole.take(at as int), whole[at as int]);
            push_contains(kept, whole[at as int]);
        }
        if names.len() == 0 || !strings::same_bytes(&names[names.len() - 1], &all[at]) {
            let name = path::copy_range(&all[at], 0, all[at].len());
            proof {
                if kept.len() > 0 {
                    assert(kept.last() == names@.last()@);
                    strings::precedes_is_total(kept.last(), name@);
                    assert(!strings::precedes(whole[at as int], whole[at - 1]));
                }
                ascending_push(kept, name@);
            }
            names.push(name);
            assert(name_values(names@) =~= kept.push(name@));
        } else {
            proof {
                assert(kept[kept.len() - 1] == whole[at as int]);
                assert(kept.contains(whole[at as int]));
            }
        }
        at += 1;
    }
    assert(whole.take(at as int) =~= whole);
    names
}

proof fn names_match(
    old_slots: Seq<Slot>,
    new_slots: Seq<Slot>,
    all: Seq<Seq<u8>>,
    before: Option<Tree>,
    after: Option<Tree>,
    x: Seq<u8>,
)
    requires
        slots_of(old_slots, children_of(before)),
        slots_of(new_slots, children_of(after)),
        all.len() == old_slots.len() + new_slots.len(),
        forall|i: int| 0 <= i < old_slots.len() ==> #[trigger] all[i] == old_slots[i]@.0,
        forall|i: int|
            0 <= i < new_slots.len() ==> #[trigger] all[old_slots.len() + i] == new_slots[i]@.0,
    ensures
        all.contains(x) <==> has_named(children_of(before), x) || has_named(children_of(after), x),
{
    let (old_children, new_children) = (children_of(before), children_of(after));
    if all.contains(x) {
        let u = choose|u: int| 0 <= u < all.len() && all[u] == x;
        if u < old_slots.len() {
            let slot = old_slots[u]@;
            assert(path::file_name(old_children[slot.1].name) == Some(x));
        } else {
            let slot = new_slots[u - old_slots.len()]@;
            assert(all[old_slots.len() + (u - old_slots.len())] == slot.0);
            assert(path::file_name(new_children[slot.1].name) == Some(x));
        }
    }
    if has_named(old_children, x) {
        let k = choose|k: int|
            0 <= k < old_children.len() && path::file_name((#[trigger] old_children[k]).name)
                == Some(x);
        let i = choose|i: int| 0 <= i < old_slots.len() && (#[trigger] old_slots[i])@.1 == k;
        assert(all[i] == x);
    }
    if has_named(new_children, x) {
        let k = choose|k: int|
            0 <= k < new_children.len() && path::file_name((#[trigger] new_children[k]).name)
                == Some(x);
        let i = choose|i: int| 0 <= i < new_slots.len() && (#[trigger] new_slots[i])@.1 == k;
        assert(all[old_slots.len() + i] == x);
    }
}

/// Every name that slots on either side hold, in order, once each.
fn merge_names(
    old_slots: &Vec<Slot>,
    new_slots: &Vec<Slot>,
    Ghost(before): Ghost<Option<Tree>>,
    Ghost(after): Ghost<Option<Tree>>,
) -> (names: Vec<Vec<u8>>)
    requires
        slots_of(old_slots@, children_of(before)),
        slots_of(new_slots@, children_of(after)),
    ensures
        name_values(names@) == names_of(before, after),
{
    let mut all: Vec<Vec<u8>> = Vec::new();
    let ghost value = |name: Vec<u8>| name@;
    push_names(&mut all, old_slots);
    let ghost half = all@;
    push_names(&mut all, new_slots);
    let ghost unsorted = name_values(all@);
    let ghost less = |a: Seq<u8>, b: Seq<u8>| strings::precedes(a, b);
    let ghost by_key = |a: Vec<u8>, b: Vec<u8>| less(value(a), value(b));
    proof {
        names_are_ordered();
        order::order_by_key(value, less);
        order::sort_maps(all@, value, less);
        order::sort_orders(unsorted, less);
        order::sort_is_a_permutation(unsorted, less);
        order::sort_keeps_members(unsorted, less);
        assert forall|i: int| 0 <= i < old_slots@.len() implies #[trigger] unsorted[i]
            == old_slots@[i]@.0 by {
            assert(half[0 + i]@ == old_slots@[i]@.0);
            assert(all@[i] == half[i]);
        }
        assert forall|i: int| 0 <= i < new_slots@.len() implies #[trigger] unsorted[
            old_slots@.len() + i] == new_slots@[i]@.0 by {
            assert(all@[half.len() + i]@ == new_slots@[i]@.0);
        }
    }
    let before_it = |a: &Vec<u8>, b: &Vec<u8>| -> (yes: bool)
        ensures
            yes == strings::precedes(a@, b@),
        { strings::bytes_precede(a, b) };
    let all = order::sort_stably(all, &before_it, Ghost(by_key));
    proof {
        let whole = name_values(all@);
        assert(whole == order::stable_sort(unsorted, less));
        assert forall|i: int, j: int| 0 <= i < j < all@.len() implies !strings::precedes(
            #[trigger] whole[j],
            #[trigger] whole[i],
        ) by {
            assert(!less(whole[j], whole[i]));
        }
    }
    let names = without_repeats(&all);
    proof {
        let values = name_values(names@);
        let goal = names_of(before, after);
        names_are_complete(before, after);
        assert forall|x: Seq<u8>| values.contains(x) <==> goal.contains(x) by {
            assert(values.contains(x) <==> name_values(all@).contains(x));
            assert(order::stable_sort(unsorted, less).contains(x) <==> unsorted.contains(x));
            names_match(old_slots@, new_slots@, unsorted, before, after, x);
        }
        ascending_is_unique(values, goal);
    }
    names
}

fn push_names(all: &mut Vec<Vec<u8>>, slots: &Vec<Slot>)
    ensures
        final(all)@.len() == old(all)@.len() + slots@.len(),
        forall|i: int| 0 <= i < old(all)@.len() ==> #[trigger] final(all)@[i] == old(all)@[i],
        forall|i: int|
            0 <= i < slots@.len() ==> #[trigger] final(all)@[old(all)@.len() + i]@ == slots@[i]@.0,
{
    let mut at: usize = 0;
    while at < slots.len()
        invariant
            at <= slots.len(),
            all@.len() == old(all)@.len() + at,
            forall|i: int| 0 <= i < old(all)@.len() ==> #[trigger] all@[i] == old(all)@[i],
            forall|i: int|
                0 <= i < at ==> #[trigger] all@[old(all)@.len() + i]@ == slots@[i]@.0,
        decreases slots.len() - at,
    {
        all.push(path::copy_range(&slots[at].name, 0, slots[at].name.len()));
        at += 1;
    }
}

proof fn names_are_ordered()
    ensures
        order::strict_weak(|a: Seq<u8>, b: Seq<u8>| strings::precedes(a, b)),
{
    let less = |a: Seq<u8>, b: Seq<u8>| strings::precedes(a, b);
    assert forall|x: Seq<u8>, y: Seq<u8>, z: Seq<u8>| #[trigger] less(x, y) && #[trigger] less(
        y,
        z,
    ) implies less(x, z) by {
        strings::precedes_is_transitive(x, y, z);
    }
    assert forall|x: Seq<u8>, y: Seq<u8>, z: Seq<u8>|
        #![trigger less(x, z), less(x, y)]
        #![trigger less(x, z), less(y, z)]
        less(x, z) implies less(x, y) || less(y, z) by {
        strings::precedes_is_weak(x, y, z);
    }
    assert forall|x: Seq<u8>| !#[trigger] less(x, x) by {
        strings::precedes_is_irreflexive(x);
    }
}

/// Compare two scans of the same root.
///
/// `before_floor` is the snapshot storage floor that produced `before`; it is what lets the result
/// distinguish "this is new" from "this was too small to record".
pub fn diff(
    before: &DiskEntry,
    after: &DiskEntry,
    kind: SizeKind,
    before_at: u64,
    after_at: u64,
    before_floor: u64,
) -> (out: Diff)
    ensures
        out.root@ == after@.name,
        out.before_at == before_at,
        out.after_at == after_at,
        out.before_total == tree::size_of(before@, kind),
        out.after_total == tree::size_of(after@, kind),
        out.before_floor == before_floor,
        out.tree@ == compared(Some(before@), Some(after@), after@.name, kind, before_floor),
{
    let root = after.root_path();
    let tree = compare(Some(before), Some(after), &root, kind, before_floor);
    Diff {
        root,
        before_at,
        after_at,
        before_total: before.size(kind),
        after_total: after.size(kind),
        before_floor,
        tree,
    }
}

fn compare(
    before: Option<&DiskEntry>,
    after: Option<&DiskEntry>,
    at: &FilePath,
    kind: SizeKind,
    floor: u64,
) -> (node: ChangeNode)
    ensures
        node@ == compared(model(before), model(after), at@, kind, floor),
    decreases height_of(model(before)) + height_of(model(after)),
{
    let before_size: u64 = match before {
        Some(entry) => entry.size(kind),
        None => 0,
    };
    let after_size: u64 = match after {
        Some(entry) => entry.size(kind),
        None => 0,
    };
    let delta: i64 = moved(after_size, before_size);
    let change = Change {
        path: at.duplicate(),
        before: before_size,
        after: after_size,
        delta,
        kind: classify(before.is_some(), after.is_some(), delta),
        modified: match after {
            Some(entry) => entry.modified,
            None => 0,
        },
        before_is_bound: before.is_none() && floor > 0,
    };
    let old_slots = slots_for(before);
    let new_slots = slots_for(after);
    let names = merge_names(&old_slots, &new_slots, Ghost(model(before)), Ghost(model(after)));
    let ghost goal = names_of(model(before), model(after));
    let ghost (old_tree, new_tree) = (model(before), model(after));
    let mut children: Vec<ChangeNode> = Vec::new();
    let mut index: usize = 0;
    let ghost value = |node: ChangeNode| node.view();
    proof {
        assert(goal.len() == names@.len());
        assert(children@.map_values(value) =~= compared_all(
            old_tree,
            new_tree,
            goal.take(0),
            at@,
            kind,
            floor,
        ));
        if old_tree is None && new_tree is None {
            assert(goal.len() == 0);
        }
    }
    while index < names.len()
        invariant
            index <= names.len(),
            old_tree == model(before),
            new_tree == model(after),
            name_values(names@) == goal,
            goal.len() == names@.len(),
            goal.len() > 0 ==> old_tree is Some || new_tree is Some,
            slots_of(old_slots@, children_of(old_tree)),
            slots_sorted(old_slots@),
            slots_of(new_slots@, children_of(new_tree)),
            slots_sorted(new_slots@),
            value == (|node: ChangeNode| node.view()),
            children@.map_values(value) == compared_all(
                old_tree,
                new_tree,
                goal.take(index as int),
                at@,
                kind,
                floor,
            ),
        decreases names.len() - index,
    {
        let name = &names[index];
        let ghost upto = goal.take(index + 1);
        let ghost done = children@;
        proof {
            assert(goal[index as int] == name@);
            assert(upto.drop_last() =~= goal.take(index as int));
            assert(upto.last() == name@);
            named_child_is_lower(old_tree, name@);
            named_child_is_lower(new_tree, name@);
        }
        let old_child = look_up(before, &old_slots, name);
        let new_child = look_up(after, &new_slots, name);
        let node = compare(old_child, new_child, &at.join_name(name), kind, floor);
        children.push(node);
        assert(children@.map_values(value) =~= done.map_values(value).push(node@));
        index += 1;
    }
    assert(goal.take(index as int) =~= goal);
    let node = ChangeNode { change, children };
    assert(node@.children =~= children@.map_values(value));
    node
}

/// The total change is what the root's size moved by, and the whole of it where sizes are those of
/// any disk.
pub proof fn total_is_the_difference(before: Tree, after: Tree, kind: SizeKind, floor: u64)
    requires
        tree::size_of(before, kind) <= i64::MAX,
        tree::size_of(after, kind) <= i64::MAX,
    ensures
        compared(Some(before), Some(after), after.name, kind, floor).change.delta == tree::size_of(
            after,
            kind,
        ) - tree::size_of(before, kind),
{
}

/// Whether a list of movements runs from the largest down.
pub open spec fn runs_down(list: Seq<Move>, growing: bool) -> bool {
    forall|i: int, j: int|
        0 <= i < j < list.len() ==> if growing {
            (#[trigger] list[i]).delta >= (#[trigger] list[j]).delta
        } else {
            list[i].delta <= list[j].delta
        }
}

/// Whatever is named moved by at least the floor, and the right way; the list runs from the largest
/// movement down and is no longer than was asked for.
pub proof fn blamed_all_qualify(
    node: Moves,
    limit: nat,
    growing: bool,
    stop: spec_fn(Seq<u8>) -> bool,
)
    ensures
        forall|i: int|
            0 <= i < blamed(node, limit, growing, stop).len() ==> qualifies(
                #[trigger] blamed(node, limit, growing, stop)[i],
                attribution_floor(node),
                growing,
            ),
        runs_down(blamed(node, limit, growing, stop), growing),
        blamed(node, limit, growing, stop).len() <= limit,
{
    let floor = attribution_floor(node);
    let wanted = |change: Move| qualifies(change, floor, growing);
    let less = |a: Move, b: Move|
        if growing {
            a.delta > b.delta
        } else {
            a.delta < b.delta
        };
    let kept = trail(node, floor, growing, stop).filter(wanted);
    let whole = order::stable_sort(kept, less);
    order::sort_orders(kept, less);
    order::sort_is_a_permutation(kept, less);
    order::sort_keeps_members(kept, less);
    let out = blamed(node, limit, growing, stop);
    assert forall|i: int| 0 <= i < out.len() implies qualifies(#[trigger] out[i], floor, growing) by {
        assert(out[i] == whole[i]);
        assert(whole.contains(whole[i]));
        let p = choose|p: int| 0 <= p < kept.len() && kept[p] == whole[i];
        trail(node, floor, growing, stop).lemma_filter_pred(wanted, p);
    }
    assert forall|i: int, j: int| 0 <= i < j < out.len() implies if growing {
        (#[trigger] out[i]).delta >= (#[trigger] out[j]).delta
    } else {
        out[i].delta <= out[j].delta
    } by {
        assert(out[i] == whole[i] && out[j] == whole[j]);
        assert(!less(whole[j], whole[i]));
    }
}

/// What is reported as growth did grow and what is reported as freed did shrink, by at least the
/// floor; each list runs from the largest movement down and is no longer than was asked for. So
/// nothing is ever in both.
pub proof fn growth_and_shrinkage_are_apart(
    node: Moves,
    limit: nat,
    stop: spec_fn(Seq<u8>) -> bool,
)
    ensures
        blamed(node, limit, true, stop).len() <= limit,
        blamed(node, limit, false, stop).len() <= limit,
        forall|i: int|
            0 <= i < blamed(node, limit, true, stop).len() ==> (#[trigger] blamed(
                node,
                limit,
                true,
                stop,
            )[i]).delta >= MIN_ATTRIBUTION,
        forall|i: int|
            0 <= i < blamed(node, limit, false, stop).len() ==> (#[trigger] blamed(
                node,
                limit,
                false,
                stop,
            )[i]).delta <= -MIN_ATTRIBUTION,
        runs_down(blamed(node, limit, true, stop), true),
        runs_down(blamed(node, limit, false, stop), false),
{
    blamed_all_qualify(node, limit, true, stop);
    blamed_all_qualify(node, limit, false, stop);
}

proof fn unchanged_children(
    tree: Tree,
    names: Seq<Seq<u8>>,
    at: Seq<u8>,
    kind: SizeKind,
    floor: u64,
    i: int,
)
    requires
        0 <= i < compared_all(Some(tree), Some(tree), names, at, kind, floor).len(),
    ensures
        compared_all(Some(tree), Some(tree), names, at, kind, floor)[i].change.delta == 0,
    decreases names.len(),
{
    let all = compared_all(Some(tree), Some(tree), names, at, kind, floor);
    let before = compared_all(Some(tree), Some(tree), names.drop_last(), at, kind, floor);
    if i < all.len() - 1 {
        assert(all[i] == before[i]);
        unchanged_children(tree, names.drop_last(), at, kind, floor, i);
    } else {
        let child = last_named(tree.children, names.last());
        let node = compared(child, child, path::joined(at, names.last()), kind, floor);
        assert(all[i] == node);
        assert(node.change == change_between(
            child,
            child,
            path::joined(at, names.last()),
            kind,
            floor,
        ));
    }
}

/// A tree held against itself has not changed: nothing grew and nothing was freed, wherever the
/// trail would have stopped.
pub proof fn unchanged_tree_is_quiet(
    tree: Tree,
    kind: SizeKind,
    floor: u64,
    limit: nat,
    growing: bool,
    stop: spec_fn(Seq<u8>) -> bool,
)
    ensures
        blamed(
            compared(Some(tree), Some(tree), tree.name, kind, floor),
            limit,
            growing,
            stop,
        ).len() == 0,
        compared(Some(tree), Some(tree), tree.name, kind, floor).change.kind
            == ChangeKind::Unchanged,
{
    let node = compared(Some(tree), Some(tree), tree.name, kind, floor);
    let least = attribution_floor(node);
    let names = names_of(Some(tree), Some(tree));
    assert forall|i: int| 0 <= i < node.children.len() implies !qualifies(
        (#[trigger] node.children[i]).change,
        least,
        growing,
    ) by {
        unchanged_children(tree, names, tree.name, kind, floor, i);
    }
    let wanted = |change: Move| qualifies(change, least, growing);
    let less = |a: Move, b: Move|
        if growing {
            a.delta > b.delta
        } else {
            a.delta < b.delta
        };
    let only = trail(node, least, growing, stop);
    assert(only =~= seq![node.change]);
    let kept = only.filter(wanted);
    if kept.len() > 0 {
        only.lemma_filter_pred(wanted, 0);
        only.lemma_filter_contains_rev(wanted, kept[0]);
    }
    order::sort_is_a_permutation(kept, less);
}

/// The name by which a node is known in the directory that holds it.
pub open spec fn step_of(node: Moves) -> Seq<u8> {
    path::components(node.change.path).last()
}

/// Whether every node lies directly in the one it is a child of, no two children in one place.
pub open spec fn well_placed(node: Moves) -> bool
    decreases node,
{
    &&& forall|i: int|
        0 <= i < node.children.len() ==> path::components((#[trigger] node.children[i]).change.path)
            == path::components(node.change.path).push(step_of(node.children[i]))
    &&& forall|i: int, j: int|
        0 <= i < j < node.children.len() ==> step_of(#[trigger] node.children[i]) != step_of(
            #[trigger] node.children[j],
        )
    &&& forall|i: int| 0 <= i < node.children.len() ==> well_placed(#[trigger] node.children[i])
}

/// Whether a trail ends with a change: it is that of some node of the tree that has a name of its
/// own, or none of whose children explains the movement.
pub open spec fn ends_at(
    node: Moves,
    change: Move,
    floor: int,
    growing: bool,
    stop: spec_fn(Seq<u8>) -> bool,
) -> bool
    decreases node,
{
    ||| change == node.change && (stop(node.change.path) || forall|i: int|
        0 <= i < node.children.len() ==> !qualifies(
            (#[trigger] node.children[i]).change,
            floor,
            growing,
        ))
    ||| exists|i: int|
        0 <= i < node.children.len() && ends_at(
            #[trigger] node.children[i],
            change,
            floor,
            growing,
            stop,
        )
}

proof fn names_are_plain(children: Seq<Tree>, name: Seq<u8>)
    ensures
        has_named(children, name) ==> path::plain_name(name),
{
    if has_named(children, name) {
        let at = choose|i: int|
            0 <= i < children.len() && path::file_name((#[trigger] children[i]).name) == Some(name);
        path::file_name_is_plain(children[at].name);
    }
}

proof fn compared_by_name(
    before: Option<Tree>,
    after: Option<Tree>,
    names: Seq<Seq<u8>>,
    at: Seq<u8>,
    kind: SizeKind,
    floor: u64,
    i: int,
)
    requires
        before is Some || after is Some,
        0 <= i < names.len(),
    ensures
        compared_all(before, after, names, at, kind, floor).len() == names.len(),
        compared_all(before, after, names, at, kind, floor)[i] == compared(
            last_named(children_of(before), names[i]),
            last_named(children_of(after), names[i]),
            path::joined(at, names[i]),
            kind,
            floor,
        ),
    decreases names.len(),
{
    let front = names.drop_last();
    if i < front.len() {
        compared_by_name(before, after, front, at, kind, floor, i);
    } else if front.len() > 0 {
        compared_by_name(before, after, front, at, kind, floor, 0);
    } else {
        assert(compared_all(before, after, front, at, kind, floor).len() == 0);
    }
}

proof fn comparisons_are_placed(
    before: Option<Tree>,
    after: Option<Tree>,
    at: Seq<u8>,
    kind: SizeKind,
    floor: u64,
)
    ensures
        well_placed(compared(before, after, at, kind, floor)),
    decreases height_of(before) + height_of(after),
{
    let node = compared(before, after, at, kind, floor);
    let names = names_of(before, after);
    if before is Some || after is Some {
        names_are_complete(before, after);
        if names.len() > 0 {
            compared_by_name(before, after, names, at, kind, floor, 0);
        }
        assert forall|i: int| 0 <= i < node.children.len() implies path::components(
            (#[trigger] node.children[i]).change.path,
        ) == path::components(at).push(names[i]) && well_placed(node.children[i]) by {
            let name = names[i];
            assert(names.contains(name));
            compared_by_name(before, after, names, at, kind, floor, i);
            names_are_plain(children_of(before), name);
            names_are_plain(children_of(after), name);
            path::joined_name_is_last(at, name);
            named_child_is_lower(before, name);
            named_child_is_lower(after, name);
            comparisons_are_placed(
                last_named(children_of(before), name),
                last_named(children_of(after), name),
                path::joined(at, name),
                kind,
                floor,
            );
        }
        assert forall|i: int, j: int| 0 <= i < j < node.children.len() implies step_of(
            #[trigger] node.children[i],
        ) != step_of(#[trigger] node.children[j]) by {
            assert(step_of(node.children[i]) == names[i]);
            assert(step_of(node.children[j]) == names[j]);
            assert(strings::precedes(names[i], names[j]));
            strings::precedes_is_irreflexive(names[i]);
        }
    } else {
        assert(node.children.len() == 0);
    }
}

proof fn trails_stay_below(node: Moves, floor: int, growing: bool, stop: spec_fn(Seq<u8>) -> bool)
    requires
        well_placed(node),
    ensures
        forall|i: int|
            0 <= i < trail(node, floor, growing, stop).len() ==> path::within(
                (#[trigger] trail(node, floor, growing, stop)[i]).path,
                node.change.path,
            ) && ends_at(node, trail(node, floor, growing, stop)[i], floor, growing, stop),
        forall|i: int, j: int|
            0 <= i < j < trail(node, floor, growing, stop).len() ==> categories::apart(
                (#[trigger] trail(node, floor, growing, stop)[i]).path,
                (#[trigger] trail(node, floor, growing, stop)[j]).path,
            ),
    decreases node, 1nat, 0nat,
{
    let own = path::components(node.change.path);
    assert(own =~= own.subrange(0, own.len() as int));
    if stop(node.change.path) || !exists|i: int|
        0 <= i < node.children.len() && qualifies(
            (#[trigger] node.children[i]).change,
            floor,
            growing,
        ) {
        assert(trail(node, floor, growing, stop) =~= seq![node.change]);
    } else {
        trails_stay_apart(node, node.children.len(), floor, growing, stop);
    }
}

proof fn trails_stay_apart(
    node: Moves,
    count: nat,
    floor: int,
    growing: bool,
    stop: spec_fn(Seq<u8>) -> bool,
)
    requires
        well_placed(node),
        count <= node.children.len(),
    ensures
        forall|i: int|
            0 <= i < trail_below(node, count, floor, growing, stop).len() ==> {
                let own = path::components(node.change.path);
                let one = #[trigger] trail_below(node, count, floor, growing, stop)[i];
                let all = path::components(one.path);
                &&& path::within(one.path, node.change.path)
                &&& ends_at(node, one, floor, growing, stop)
                &&& all.len() > own.len()
                &&& exists|k: int|
                    0 <= k < count && step_of(#[trigger] node.children[k]) == all[own.len() as int]
            },
        forall|i: int, j: int|
            0 <= i < j < trail_below(node, count, floor, growing, stop).len() ==> categories::apart(
                (#[trigger] trail_below(node, count, floor, growing, stop)[i]).path,
                (#[trigger] trail_below(node, count, floor, growing, stop)[j]).path,
            ),
    decreases node, 0nat, count,
{
    if count > 0 {
        let before = trail_below(node, (count - 1) as nat, floor, growing, stop);
        let child = node.children[count - 1];
        let whole = trail_below(node, count, floor, growing, stop);
        trails_stay_apart(node, (count - 1) as nat, floor, growing, stop);
        let own = path::components(node.change.path);
        let step = path::components(child.change.path);
        assert(step == own.push(step_of(child)));
        if qualifies(child.change, floor, growing) {
            let found = trail(child, floor, growing, stop);
            assert(whole == before + found);
            trails_stay_below(child, floor, growing, stop);
            assert forall|i: int| 0 <= i < whole.len() implies ({
                let one = #[trigger] whole[i];
                let all = path::components(one.path);
                &&& path::within(one.path, node.change.path)
                &&& ends_at(node, one, floor, growing, stop)
                &&& all.len() > own.len()
                &&& exists|k: int|
                    0 <= k < count && step_of(#[trigger] node.children[k]) == all[own.len() as int]
            }) by {
                if i < before.len() {
                    assert(whole[i] == before[i]);
                } else {
                    let one = found[i - before.len()];
                    assert(whole[i] == one);
                    let all = path::components(one.path);
                    assert(path::within(one.path, child.change.path));
                    assert(step =~= all.subrange(0, step.len() as int));
                    assert(own =~= all.subrange(0, own.len() as int)) by {
                        assert forall|n: int| 0 <= n < own.len() implies own[n] == all[n] by {
                            assert(step[n] == own[n]);
                        }
                    }
                    assert(all[own.len() as int] == step[own.len() as int]);
                    assert(step_of(node.children[count - 1]) == all[own.len() as int]);
                    assert(ends_at(node.children[count - 1], one, floor, growing, stop));
                }
            }
            assert forall|i: int, j: int| 0 <= i < j < whole.len() implies categories::apart(
                (#[trigger] whole[i]).path,
                (#[trigger] whole[j]).path,
            ) by {
                if j < before.len() {
                    assert(whole[i] == before[i] && whole[j] == before[j]);
                } else if i >= before.len() {
                    assert(whole[i] == found[i - before.len()] && whole[j] == found[j
                        - before.len()]);
                } else {
                    assert(whole[i] == before[i] && whole[j] == found[j - before.len()]);
                    let (a, b) = (path::components(whole[i].path), path::components(whole[j].path));
                    let k = choose|k: int|
                        0 <= k < count - 1 && step_of(#[trigger] node.children[k])
                            == a[own.len() as int];
                    assert(path::within(whole[j].path, child.change.path));
                    assert(step =~= b.subrange(0, step.len() as int));
                    assert(b[own.len() as int] == step_of(child));
                    assert(step_of(node.children[k]) != step_of(node.children[count - 1]));
                    if path::within(whole[i].path, whole[j].path) {
                        assert(b =~= a.subrange(0, b.len() as int));
                        assert(a[own.len() as int] == b[own.len() as int]);
                    }
                    if path::within(whole[j].path, whole[i].path) {
                        assert(a =~= b.subrange(0, a.len() as int));
                        assert(a[own.len() as int] == b[own.len() as int]);
                    }
                }
            }
        } else {
            assert(whole == before);
        }
    }
}

/// Whether no two of some changes are of one place, or of one inside the other.
pub open spec fn all_apart(list: Seq<Move>) -> bool {
    forall|i: int, j: int|
        0 <= i < list.len() && 0 <= j < list.len() && i != j ==> categories::apart(
            (#[trigger] list[i]).path,
            (#[trigger] list[j]).path,
        )
}

proof fn choosing_keeps_apart(list: Seq<Move>, wanted: spec_fn(Move) -> bool)
    requires
        all_apart(list),
    ensures
        all_apart(list.filter(wanted)),
    decreases list.len(),
{
    reveal(Seq::filter);
    if list.len() > 0 {
        let front = list.drop_last();
        assert(all_apart(front)) by {
            assert forall|i: int, j: int| 0 <= i < front.len() && 0 <= j < front.len() && i
                != j implies categories::apart(
                (#[trigger] front[i]).path,
                (#[trigger] front[j]).path,
            ) by {
                assert(front[i] == list[i] && front[j] == list[j]);
            }
        }
        choosing_keeps_apart(front, wanted);
        let kept = front.filter(wanted);
        let out = list.filter(wanted);
        if wanted(list.last()) {
            assert forall|i: int, j: int| 0 <= i < out.len() && 0 <= j < out.len() && i
                != j implies categories::apart((#[trigger] out[i]).path, (#[trigger] out[j]).path) by {
                let last = list.len() - 1;
                if i < kept.len() {
                    assert(kept.contains(kept[i]));
                    front.lemma_filter_contains_rev(wanted, kept[i]);
                    let p = front.index_of(kept[i]);
                    assert(categories::apart(list[p].path, list[last].path));
                }
                if j < kept.len() {
                    assert(kept.contains(kept[j]));
                    front.lemma_filter_contains_rev(wanted, kept[j]);
                    let p = front.index_of(kept[j]);
                    assert(categories::apart(list[last].path, list[p].path));
                }
            }
        }
    }
}

/// Blame is as specific as the evidence supports, and nothing is blamed twice: no entry that is
/// named lies inside another, and each either has a name of its own or holds nothing that still
/// explains the movement.
pub proof fn blame_is_specific(
    before: Tree,
    after: Tree,
    kind: SizeKind,
    floor: u64,
    limit: nat,
    growing: bool,
    stop: spec_fn(Seq<u8>) -> bool,
)
    ensures
        ({
            let node = compared(Some(before), Some(after), after.name, kind, floor);
            let out = blamed(node, limit, growing, stop);
            &&& all_apart(out)
            &&& forall|i: int|
                0 <= i < out.len() ==> ends_at(
                    node,
                    #[trigger] out[i],
                    attribution_floor(node),
                    growing,
                    stop,
                ) && path::within(out[i].path, after.name)
        }),
{
    let node = compared(Some(before), Some(after), after.name, kind, floor);
    let least = attribution_floor(node);
    let wanted = |change: Move| qualifies(change, least, growing);
    let less = |a: Move, b: Move|
        if growing {
            a.delta > b.delta
        } else {
            a.delta < b.delta
        };
    let all = trail(node, least, growing, stop);
    let kept = all.filter(wanted);
    let sorted = order::stable_sort(kept, less);
    let out = blamed(node, limit, growing, stop);
    comparisons_are_placed(Some(before), Some(after), after.name, kind, floor);
    trails_stay_below(node, least, growing, stop);
    assert(all_apart(all)) by {
        assert forall|i: int, j: int| 0 <= i < all.len() && 0 <= j < all.len() && i
            != j implies categories::apart((#[trigger] all[i]).path, (#[trigger] all[j]).path) by {
            if j < i {
                assert(categories::apart(all[j].path, all[i].path));
            }
        }
    }
    choosing_keeps_apart(all, wanted);
    order::sort_is_a_permutation(kept, less);
    order::sort_keeps_members(kept, less);
    assert(kept.no_duplicates()) by {
        assert forall|i: int, j: int| 0 <= i < kept.len() && 0 <= j < kept.len() && i
            != j implies kept[i] != kept[j] by {
            assert(categories::apart(kept[i].path, kept[j].path));
            let own = path::components(kept[i].path);
            assert(own =~= own.subrange(0, own.len() as int));
        }
    }
    kept.lemma_multiset_has_no_duplicates();
    sorted.lemma_multiset_has_no_duplicates_conv();
    assert forall|i: int| 0 <= i < out.len() implies kept.contains(#[trigger] out[i]) by {
        assert(out[i] == sorted[i]);
        assert(sorted.contains(sorted[i]));
    }
    assert forall|i: int, j: int| 0 <= i < out.len() && 0 <= j < out.len() && i
        != j implies categories::apart((#[trigger] out[i]).path, (#[trigger] out[j]).path) by {
        assert(out[i] == sorted[i] && out[j] == sorted[j]);
        assert(kept.contains(out[i]) && kept.contains(out[j]));
        let (p, q) = (kept.index_of(out[i]), kept.index_of(out[j]));
        assert(kept[p] == out[i] && kept[q] == out[j]);
        assert(categories::apart(kept[p].path, kept[q].path));
    }
    assert forall|i: int| 0 <= i < out.len() implies ends_at(
        node,
        #[trigger] out[i],
        least,
        growing,
        stop,
    ) && path::within(out[i].path, after.name) by {
        all.lemma_filter_contains_rev(wanted, out[i]);
        let p = all.index_of(out[i]);
        assert(all[p] == out[i]);
    }
}

} // verus!
