//! What a comparison says, held against the two scans that it compares.

use vstd::prelude::*;
use crate::categories;
use crate::categories::Around;
use crate::diff;
use crate::diff::{ChangeKind, Move, Moves};
use crate::double;
use crate::order;
use crate::path;
use crate::size::SizeKind;
use crate::tree;
use crate::tree::Tree;

verus! {

/// How far something moved, whichever way.
pub open spec fn extent(delta: i64) -> int {
    if delta < 0 {
        -(delta as int)
    } else {
        delta as int
    }
}

/// Whether a node is one of a tree of changes.
pub open spec fn is_in(tree: Moves, node: Moves) -> bool
    decreases tree,
{
    ||| tree == node
    ||| exists|i: int|
        0 <= i < tree.children.len() && is_in(#[trigger] tree.children[i], node)
}

proof fn powers_multiply(x: nat, y: nat)
    ensures
        double::two_to(x + y) == double::two_to(x) * double::two_to(y),
    decreases y,
{
    if y > 0 {
        powers_multiply(x, (y - 1) as nat);
        let (a, b) = (double::two_to(x), double::two_to((y - 1) as nat));
        assert(2 * (a * b) == a * (2 * b)) by (nonlinear_arith);
    } else {
        assert(double::two_to(x) * 1 == double::two_to(x));
    }
}

proof fn products_are_near(u: int, a: int, b: int, p: int, m: int, s: int, t: int)
    requires
        u >= 2,
        a >= 0,
        b >= 0,
        m >= 0,
        s >= 1,
        t >= 1,
        u * a >= (u - 1) * (m * s),
        u * a <= (u + 1) * (m * s),
        u * (b * 20) >= (u - 1) * t,
        u * (b * 20) <= (u + 1) * t,
        u * p >= (u - 1) * (a * b),
        u * p <= (u + 1) * (a * b),
    ensures
        (u * u * u) * (20 * p) >= ((u - 1) * (u - 1) * (u - 1)) * (m * (s * t)),
        (u * u * u) * (20 * p) <= ((u + 1) * (u + 1) * (u + 1)) * (m * (s * t)),
{
    let x = m * s;
    let ab = a * b;
    assert(x >= 0 && (u - 1) * x >= 0 && (u - 1) * t >= 0 && u * a >= 0 && u * (b * 20) >= 0)
        by (nonlinear_arith)
        requires
            x == m * s,
            m >= 0,
            s >= 1,
            t >= 1,
            u >= 2,
            a >= 0,
            b >= 0,
    ;
    // The two roundings of the factors.
    assert((u * a) * (u * (b * 20)) >= ((u - 1) * x) * ((u - 1) * t)) by (nonlinear_arith)
        requires
            u * a >= (u - 1) * x,
            u * (b * 20) >= (u - 1) * t,
            (u - 1) * x >= 0,
            (u - 1) * t >= 0,
    ;
    assert((u * a) * (u * (b * 20)) <= ((u + 1) * x) * ((u + 1) * t)) by (nonlinear_arith)
        requires
            u * a <= (u + 1) * x,
            u * (b * 20) <= (u + 1) * t,
            u * a >= 0,
            u * (b * 20) >= 0,
    ;
    assert((u * a) * (u * (b * 20)) == (u * u) * (20 * ab)) by (nonlinear_arith)
        requires
            ab == a * b,
    ;
    assert(((u - 1) * x) * ((u - 1) * t) == ((u - 1) * (u - 1)) * (x * t)) by (nonlinear_arith);
    assert(((u + 1) * x) * ((u + 1) * t) == ((u + 1) * (u + 1)) * (x * t)) by (nonlinear_arith);
    assert(x * t == m * (s * t)) by (nonlinear_arith)
        requires
            x == m * s,
    ;
    let w = x * t;
    // And that of the product.
    let low = (u * u) * (20 * ab);
    assert((u * u * u) * (20 * p) == (u * u) * (20 * (u * p))) by (nonlinear_arith);
    assert((u * u) * (20 * (u * p)) >= (u * u) * (20 * ((u - 1) * ab))) by (nonlinear_arith)
        requires
            u * p >= (u - 1) * ab,
            u >= 0,
    ;
    assert((u * u) * (20 * (u * p)) <= (u * u) * (20 * ((u + 1) * ab))) by (nonlinear_arith)
        requires
            u * p <= (u + 1) * ab,
            u >= 0,
    ;
    assert((u * u) * (20 * ((u - 1) * ab)) == (u - 1) * low) by (nonlinear_arith)
        requires
            low == (u * u) * (20 * ab),
    ;
    assert((u * u) * (20 * ((u + 1) * ab)) == (u + 1) * low) by (nonlinear_arith)
        requires
            low == (u * u) * (20 * ab),
    ;
    assert((u - 1) * low >= (u - 1) * (((u - 1) * (u - 1)) * w)) by (nonlinear_arith)
        requires
            low >= ((u - 1) * (u - 1)) * w,
            u >= 1,
    ;
    assert((u + 1) * low <= (u + 1) * (((u + 1) * (u + 1)) * w)) by (nonlinear_arith)
        requires
            low <= ((u + 1) * (u + 1)) * w,
            u >= 1,
    ;
    assert((u - 1) * (((u - 1) * (u - 1)) * w) == ((u - 1) * (u - 1) * (u - 1)) * w)
        by (nonlinear_arith);
    assert((u + 1) * (((u + 1) * (u + 1)) * w) == ((u + 1) * (u + 1) * (u + 1)) * w)
        by (nonlinear_arith);
}

/// A twentieth of a number, as it is worked out, is a twentieth of it up to the last places.
proof fn a_twentieth(most: nat)
    requires
        0 < most <= 0x8000_0000_0000_0000,
    ensures
        ({
            let part = double::whole(
                double::product(double::of_int(most), double::ratio(1, 20)),
            );
            &&& (part + 1) * 20 + most / 0x4_0000_0000_0000 >= most
            &&& part * 20 <= most + most / 0x4_0000_0000_0000
        }),
{
    let unit = double::DOUBLE as nat;
    let u = 2 * unit;
    double::some_powers();
    let a = double::of_int(most);
    let b = double::ratio(1, 20);
    double::two_to_grows(53);
    double::two_to_grows(54);
    double::two_to_grows(55);
    double::two_to_grows(56);
    double::two_to_grows(57);
    let s = double::two_to(53);
    let t = double::two_to(58);
    assert(most * s >= 1 * unit) by (nonlinear_arith)
        requires
            most >= 1,
            s == 2 * unit,
    ;
    double::nearest_exponent_least(most, 1, unit, 53);
    double::nearest_exponent_least(1, 20, unit, 58);
    double::nearest_is_normal(most, 1, unit);
    double::nearest_is_normal(1, 20, unit);
    let c = double::of_int(a.0 * b.0);
    assert(a.0 * b.0 >= unit) by (nonlinear_arith)
        requires
            a.0 >= unit,
            b.0 >= unit,
            unit >= 1,
    ;
    double::nearest_is_near(most, 1, unit, 53);
    double::nearest_is_near(1, 20, unit, 58);
    assert((a.0 * b.0) * 1 == a.0 * b.0);
    double::nearest_exponent_least(a.0 * b.0, 1, unit, 0);
    double::nearest_is_near(a.0 * b.0, 1, unit, 0);
    double::nearest_is_normal(a.0 * b.0, 1, unit);
    let p = double::product(a, b);
    assert(p == (c.0, c.1 + a.1 + b.1));
    let raised_a = double::raised(a, 53);
    let raised_b = double::raised(b, 58);
    let raised_c = double::raised(c, 0);
    let raised_p = double::raised(p, 111);
    let x = double::two_to((a.1 + 53) as nat);
    let y = double::two_to((b.1 + 58) as nat);
    let z = double::two_to(c.1 as nat);
    powers_multiply((a.1 + 53) as nat, (b.1 + 58) as nat);
    powers_multiply(c.1 as nat, (a.1 + 53 + b.1 + 58) as nat);
    assert((c.1 + (a.1 + 53 + b.1 + 58)) as nat == (p.1 + 111) as nat);
    let ab = a.0 * b.0;
    assert(raised_p == raised_c * (x * y)) by (nonlinear_arith)
        requires
            raised_p == c.0 * (z * (x * y)),
            raised_c == c.0 * z,
    ;
    assert(raised_a * raised_b == ab * (x * y)) by (nonlinear_arith)
        requires
            raised_a == a.0 * x,
            raised_b == b.0 * y,
            ab == a.0 * b.0,
    ;
    let xy = x * y;
    double::two_to_grows((a.1 + 53) as nat);
    double::two_to_grows((b.1 + 58) as nat);
    assert(xy >= 1) by (nonlinear_arith)
        requires
            xy == x * y,
            x >= 1,
            y >= 1,
    ;
    assert(u * raised_c >= (u - 1) * ab && u * raised_c <= (u + 1) * ab);
    assert(u * (raised_c * xy) >= (u - 1) * (ab * xy) && u * (raised_c * xy) <= (u + 1) * (ab
        * xy)) by (nonlinear_arith)
        requires
            u * raised_c >= (u - 1) * ab,
            u * raised_c <= (u + 1) * ab,
            xy >= 1,
    ;
    assert(1 * t == t);
    products_are_near(
        u as int,
        raised_a as int,
        raised_b as int,
        raised_p as int,
        most as int,
        s as int,
        t as int,
    );
    powers_multiply(53, 58);
    let power = double::two_to(111);
    assert(power == s * t);
    let part = double::whole(p);
    assert(part * power <= raised_p < (part + 1) * power) by {
        if p.1 >= 0 {
            powers_multiply(p.1 as nat, 111);
            let v = double::two_to(p.1 as nat);
            assert(raised_p == part * power) by (nonlinear_arith)
                requires
                    raised_p == p.0 * (v * power),
                    part == p.0 * v,
            ;
            double::two_to_grows(111);
            assert(part * power < (part + 1) * power) by (nonlinear_arith)
                requires
                    power >= 1,
            ;
        } else {
            let down = (-p.1) as nat;
            let left = (p.1 + 111) as nat;
            powers_multiply(down, left);
            let v = double::two_to(down);
            let r = double::two_to(left);
            double::two_to_grows(down);
            double::two_to_grows(left);
            assert(part * v <= p.0 < (part + 1) * v) by (nonlinear_arith)
                requires
                    part == p.0 / v,
                    v >= 1,
            ;
            assert(part * (v * r) <= p.0 * r && p.0 * r < (part + 1) * (v * r))
                by (nonlinear_arith)
                requires
                    part * v <= p.0 < (part + 1) * v,
                    r >= 1,
            ;
        }
    }
    finishing(u as int, part as int, raised_p as int, most as int, power as int);
}

proof fn finishing(u: int, part: int, p: int, most: int, power: int)
    requires
        u == 0x20_0000_0000_0000,
        power >= 1,
        most > 0,
        part >= 0,
        part * power <= p < (part + 1) * power,
        (u * u * u) * (20 * p) >= ((u - 1) * (u - 1) * (u - 1)) * (most * power),
        (u * u * u) * (20 * p) <= ((u + 1) * (u + 1) * (u + 1)) * (most * power),
    ensures
        (part + 1) * 20 + most / 0x4_0000_0000_0000 >= most,
        part * 20 <= most + most / 0x4_0000_0000_0000,
{
    let cube = u * u * u;
    let less = (u - 1) * (u - 1) * (u - 1);
    let more = (u + 1) * (u + 1) * (u + 1);
    assert(cube * (20 * ((part + 1) * power)) >= cube * (20 * p)) by (nonlinear_arith)
        requires
            p < (part + 1) * power,
            cube >= 0,
    ;
    assert((cube * (20 * (part + 1))) * power >= (less * most) * power) by (nonlinear_arith)
        requires
            cube * (20 * ((part + 1) * power)) >= less * (most * power),
    ;
    assert(cube * (20 * (part + 1)) >= less * most) by (nonlinear_arith)
        requires
            (cube * (20 * (part + 1))) * power >= (less * most) * power,
            power >= 1,
    ;
    assert(cube * (20 * (part * power)) <= cube * (20 * p)) by (nonlinear_arith)
        requires
            part * power <= p,
            cube >= 0,
    ;
    assert((cube * (20 * part)) * power <= (more * most) * power) by (nonlinear_arith)
        requires
            cube * (20 * (part * power)) <= more * (most * power),
    ;
    assert(cube * (20 * part) <= more * most) by (nonlinear_arith)
        requires
            (cube * (20 * part)) * power <= (more * most) * power,
            power >= 1,
    ;
    assert(cube == 0x20_0000_0000_0000 * (u * u)) by (nonlinear_arith)
        requires
            cube == u * u * u,
            u == 0x20_0000_0000_0000,
    ;
    let square = u * u;
    assert(less >= (u - 3) * square) by (nonlinear_arith)
        requires
            less == (u - 1) * (u - 1) * (u - 1),
            square == u * u,
            u == 0x20_0000_0000_0000,
    ;
    assert(more <= (u + 4) * square) by (nonlinear_arith)
        requires
            more == (u + 1) * (u + 1) * (u + 1),
            square == u * u,
            u == 0x20_0000_0000_0000,
    ;
    assert(u * (20 * (part + 1)) >= (u - 3) * most) by (nonlinear_arith)
        requires
            cube * (20 * (part + 1)) >= less * most,
            less >= (u - 3) * square,
            cube == u * square,
            square >= 1,
            most > 0,
    ;
    assert(u * (20 * part) <= (u + 4) * most) by (nonlinear_arith)
        requires
            cube * (20 * part) <= more * most,
            more <= (u + 4) * square,
            cube == u * square,
            square >= 1,
            most > 0,
    ;
}

proof fn parts_move_no_further(tree: Moves, node: Moves)
    requires
        is_in(tree, node),
    ensures
        extent(node.change.delta) <= diff::largest_move(tree),
    decreases tree,
{
    if tree != node {
        let i = choose|i: int|
            0 <= i < tree.children.len() && is_in(#[trigger] tree.children[i], node);
        parts_move_no_further(tree.children[i], node);
        children_move_no_further(tree, tree.children.len(), i);
    }
}

proof fn children_move_no_further(tree: Moves, count: nat, i: int)
    requires
        0 <= i < count <= tree.children.len(),
    ensures
        diff::largest_move(tree.children[i]) <= diff::largest_below(tree, count),
    decreases count,
{
    if i < count - 1 {
        children_move_no_further(tree, (count - 1) as nat, i);
    }
}

/// Some part of a tree moved as far as the furthest.
proof fn the_furthest_is_a_part(tree: Moves) -> (node: Moves)
    ensures
        is_in(tree, node),
        extent(node.change.delta) == diff::largest_move(tree),
    decreases tree, 1nat, 0nat,
{
    let own = diff::magnitude(tree.change.delta as int);
    if diff::largest_below(tree, tree.children.len()) > own {
        let (i, node) = the_furthest_below(tree, tree.children.len());
        assert(is_in(tree.children[i], node));
        node
    } else {
        tree
    }
}

proof fn the_furthest_below(tree: Moves, count: nat) -> (out: (int, Moves))
    requires
        count <= tree.children.len(),
        diff::largest_below(tree, count) > 0,
    ensures
        0 <= out.0 < count,
        is_in(tree.children[out.0], out.1),
        extent(out.1.change.delta) == diff::largest_below(tree, count),
    decreases tree, 0nat, count,
{
    let before = diff::largest_below(tree, (count - 1) as nat);
    let here = diff::largest_move(tree.children[count - 1]);
    if here > before {
        (count - 1, the_furthest_is_a_part(tree.children[count - 1]))
    } else {
        the_furthest_below(tree, (count - 1) as nat)
    }
}

/// What is named is part of the tree.
pub open spec fn is_change_in(tree: Moves, change: Move) -> bool {
    exists|node: Moves| #[trigger] is_in(tree, node) && node.change == change
}

proof fn trails_are_parts(
    tree: Moves,
    floor: int,
    growing: bool,
    stop: spec_fn(Seq<u8>) -> bool,
    change: Move,
)
    requires
        diff::trail(tree, floor, growing, stop).contains(change),
    ensures
        is_change_in(tree, change),
    decreases tree, 1nat, 0nat,
{
    let all = diff::trail(tree, floor, growing, stop);
    let k = choose|k: int| 0 <= k < all.len() && all[k] == change;
    if all == seq![tree.change] {
        assert(is_in(tree, tree));
    } else {
        let i = trails_below_are_parts(tree, tree.children.len(), floor, growing, stop, change);
        let node = choose|node: Moves| #[trigger]
            is_in(tree.children[i], node) && node.change == change;
        assert(is_in(tree, node));
    }
}

proof fn trails_below_are_parts(
    tree: Moves,
    count: nat,
    floor: int,
    growing: bool,
    stop: spec_fn(Seq<u8>) -> bool,
    change: Move,
) -> (i: int)
    requires
        count <= tree.children.len(),
        diff::trail_below(tree, count, floor, growing, stop).contains(change),
    ensures
        0 <= i < count,
        is_change_in(tree.children[i], change),
    decreases tree, 0nat, count,
{
    let all = diff::trail_below(tree, count, floor, growing, stop);
    let k = choose|k: int| 0 <= k < all.len() && all[k] == change;
    let before = diff::trail_below(tree, (count - 1) as nat, floor, growing, stop);
    let child = tree.children[count - 1];
    if k < before.len() {
        assert(before[k] == change);
        trails_below_are_parts(tree, (count - 1) as nat, floor, growing, stop, change)
    } else {
        let more = diff::trail(child, floor, growing, stop);
        assert(more[k - before.len()] == change);
        trails_are_parts(child, floor, growing, stop, change);
        count - 1
    }
}

/// Whatever is named as growth grew and whatever is named as freed shrank, by ten megabytes or more
/// and by a twentieth or more of every single movement in the tree, up to the last places of a
/// double and the fraction of a byte: also where movements cancel out in the total. It is one of the
/// changes in the tree.
pub proof fn what_is_named_matters(
    tree: Moves,
    limit: nat,
    growing: bool,
    stop: spec_fn(Seq<u8>) -> bool,
    i: int,
    node: Moves,
)
    requires
        0 <= i < diff::blamed(tree, limit, growing, stop).len(),
        is_in(tree, node),
    ensures
        ({
            let named = diff::blamed(tree, limit, growing, stop)[i];
            let moved = extent(node.change.delta);
            &&& growing ==> named.delta >= 10_000_000
            &&& !growing ==> named.delta <= -10_000_000
            &&& (extent(named.delta) + 1) * 20 + moved / 0x4_0000_0000_0000 >= moved
            &&& is_change_in(tree, named)
        }),
{
    let floor = diff::attribution_floor(tree);
    let most = diff::largest_move(tree);
    let named = diff::blamed(tree, limit, growing, stop)[i];
    diff::blamed_all_qualify(tree, limit, growing, stop);
    parts_move_no_further(tree, node);
    let furthest = the_furthest_is_a_part(tree);
    if most > 0 {
        a_twentieth(most);
    }
    assert(extent(named.delta) >= floor);
    named_are_in_trail(tree, limit, growing, stop, named);
    trails_are_parts(tree, floor, growing, stop, named);
}

proof fn named_are_in_trail(
    tree: Moves,
    limit: nat,
    growing: bool,
    stop: spec_fn(Seq<u8>) -> bool,
    change: Move,
)
    requires
        diff::blamed(tree, limit, growing, stop).contains(change),
    ensures
        diff::trail(tree, diff::attribution_floor(tree), growing, stop).contains(change),
{
    let floor = diff::attribution_floor(tree);
    let all = diff::trail(tree, floor, growing, stop);
    let wanted = |change: Move| diff::qualifies(change, floor, growing);
    let less = |a: Move, b: Move|
        if growing {
            a.delta > b.delta
        } else {
            a.delta < b.delta
        };
    let out = diff::blamed(tree, limit, growing, stop);
    order::sort_keeps_members(all.filter(wanted), less);
    let sorted = order::stable_sort(all.filter(wanted), less);
    let k = choose|k: int| 0 <= k < out.len() && out[k] == change;
    assert(sorted[k] == change);
    assert(sorted.contains(change));
    all.lemma_filter_contains_rev(wanted, change);
}

/// A part that moved enough is named, or something in it is.
proof fn trails_explain(
    tree: Moves,
    floor: int,
    growing: bool,
    stop: spec_fn(Seq<u8>) -> bool,
) -> (change: Move)
    requires
        diff::qualifies(tree.change, floor, growing),
    ensures
        diff::trail(tree, floor, growing, stop).contains(change),
        diff::qualifies(change, floor, growing),
        is_change_in(tree, change),
    decreases tree, 1nat,
{
    let all = diff::trail(tree, floor, growing, stop);
    if stop(tree.change.path) || !exists|i: int|
        0 <= i < tree.children.len() && diff::qualifies(
            (#[trigger] tree.children[i]).change,
            floor,
            growing,
        ) {
        assert(all[0] == tree.change);
        assert(is_in(tree, tree));
        tree.change
    } else {
        let i = choose|i: int|
            0 <= i < tree.children.len() && diff::qualifies(
                (#[trigger] tree.children[i]).change,
                floor,
                growing,
            );
        let change = trails_explain(tree.children[i], floor, growing, stop);
        trails_below_explain(tree, tree.children.len(), floor, growing, stop, i, change);
        let node = choose|node: Moves| #[trigger]
            is_in(tree.children[i], node) && node.change == change;
        assert(is_in(tree, node));
        change
    }
}

proof fn trails_below_explain(
    tree: Moves,
    count: nat,
    floor: int,
    growing: bool,
    stop: spec_fn(Seq<u8>) -> bool,
    i: int,
    change: Move,
)
    requires
        0 <= i < count <= tree.children.len(),
        diff::qualifies(tree.children[i].change, floor, growing),
        diff::trail(tree.children[i], floor, growing, stop).contains(change),
    ensures
        diff::trail_below(tree, count, floor, growing, stop).contains(change),
    decreases count,
{
    let before = diff::trail_below(tree, (count - 1) as nat, floor, growing, stop);
    let all = diff::trail_below(tree, count, floor, growing, stop);
    if i < count - 1 {
        trails_below_explain(tree, (count - 1) as nat, floor, growing, stop, i, change);
        let k = choose|k: int| 0 <= k < before.len() && before[k] == change;
        assert(all[k] == change);
    } else {
        let more = diff::trail(tree.children[i], floor, growing, stop);
        let k = choose|k: int| 0 <= k < more.len() && more[k] == change;
        assert(all[before.len() + k] == change);
    }
}

/// Nothing that matters is missed: what is in the compared directory and moved by ten megabytes or
/// more, and by more than a twentieth of every single movement in the tree, is named, or something
/// in it is, unless as many as were asked for are named already.
pub proof fn what_matters_is_named(
    tree: Moves,
    limit: nat,
    growing: bool,
    stop: spec_fn(Seq<u8>) -> bool,
    k: int,
)
    requires
        !stop(tree.change.path),
        0 <= k < tree.children.len(),
        growing ==> tree.children[k].change.delta >= 10_000_000,
        !growing ==> tree.children[k].change.delta <= -10_000_000,
        forall|node: Moves| #[trigger]
            is_in(tree, node) ==> extent(tree.children[k].change.delta) * 20 >= extent(
                node.change.delta,
            ) + extent(node.change.delta) / 0x4_0000_0000_0000,
    ensures
        diff::blamed(tree, limit, growing, stop).len() == limit || exists|i: int|
            0 <= i < diff::blamed(tree, limit, growing, stop).len() && is_change_in(
                tree.children[k],
                #[trigger] diff::blamed(tree, limit, growing, stop)[i],
            ),
{
    let floor = diff::attribution_floor(tree);
    let most = diff::largest_move(tree);
    let child = tree.children[k];
    let furthest = the_furthest_is_a_part(tree);
    assert(is_in(tree, furthest));
    assert(is_in(child, child));
    assert(is_in(tree, child));
    parts_move_no_further(tree, child);
    a_twentieth(most);
    assert(diff::qualifies(child.change, floor, growing));
    let change = trails_explain(child, floor, growing, stop);
    trails_below_explain(tree, tree.children.len(), floor, growing, stop, k, change);
    let all = diff::trail(tree, floor, growing, stop);
    assert(all.contains(change));
    let wanted = |change: Move| diff::qualifies(change, floor, growing);
    let less = |a: Move, b: Move|
        if growing {
            a.delta > b.delta
        } else {
            a.delta < b.delta
        };
    let at = choose|at: int| 0 <= at < all.len() && all[at] == change;
    all.lemma_filter_contains(wanted, at);
    order::sort_keeps_members(all.filter(wanted), less);
    let sorted = order::stable_sort(all.filter(wanted), less);
    assert(sorted.contains(change));
    let out = diff::blamed(tree, limit, growing, stop);
    if out.len() != limit {
        assert(out == sorted);
        let i = choose|i: int| 0 <= i < sorted.len() && sorted[i] == change;
        assert(is_change_in(child, out[i]));
    }
}

/// What an entry takes up, by blocks or by lengths; nothing, where there is none.
pub open spec fn bytes_of(entry: Option<Tree>, kind: SizeKind) -> int {
    match entry {
        None => 0,
        Some(entry) => match kind {
            SizeKind::Allocated => entry.allocated_size as int,
            SizeKind::Apparent => entry.apparent_size as int,
        },
    }
}

/// A change says what an entry took up before, what it takes up now, and the difference. What was
/// not there was added, what is there no more was removed, and of the rest the difference tells
/// whether it grew, shrank or stayed. That something is new is only a bound where small entries were
/// not recorded.
pub proof fn a_change_is_the_difference(
    before: Option<Tree>,
    after: Option<Tree>,
    at: Seq<u8>,
    kind: SizeKind,
    floor: u64,
)
    requires
        bytes_of(before, kind) <= i64::MAX,
        bytes_of(after, kind) <= i64::MAX,
    ensures
        ({
            let change = diff::compared(before, after, at, kind, floor).change;
            &&& change.path == at
            &&& change.before == bytes_of(before, kind)
            &&& change.after == bytes_of(after, kind)
            &&& change.delta == bytes_of(after, kind) - bytes_of(before, kind)
            &&& before is None && after is Some ==> change.kind == ChangeKind::Added
            &&& before is Some && after is None ==> change.kind == ChangeKind::Removed
            &&& before is Some && after is Some ==> {
                &&& bytes_of(after, kind) > bytes_of(before, kind) ==> change.kind
                    == ChangeKind::Grown
                &&& bytes_of(after, kind) < bytes_of(before, kind) ==> change.kind
                    == ChangeKind::Shrunk
                &&& bytes_of(after, kind) == bytes_of(before, kind) ==> change.kind
                    == ChangeKind::Unchanged
            }
            &&& change.before_is_bound == (before is None && floor > 0)
            &&& after matches Some(entry) ==> change.modified == entry.modified
        }),
{
}

/// Whether something is the one entry of a directory that has a name.
pub open spec fn is_the_one(entry: Option<Tree>, directory: Option<Tree>, name: Seq<u8>) -> bool {
    match directory {
        None => entry is None,
        Some(directory) => match entry {
            None => forall|i: int|
                0 <= i < directory.children.len() ==> path::file_name(
                    (#[trigger] directory.children[i]).name,
                ) != Some(name),
            Some(entry) => directory.children.contains(entry) && path::file_name(entry.name)
                == Some(name),
        },
    }
}

proof fn names_find_entries(directory: Option<Tree>, name: Seq<u8>)
    ensures
        is_the_one(diff::last_named(diff::children_of(directory), name), directory, name),
{
    if directory is Some {
        named_among(directory->0.children, name);
    }
}

proof fn named_among(children: Seq<Tree>, name: Seq<u8>)
    ensures
        match diff::last_named(children, name) {
            None => forall|i: int|
                0 <= i < children.len() ==> path::file_name((#[trigger] children[i]).name) != Some(
                    name,
                ),
            Some(entry) => children.contains(entry) && path::file_name(entry.name) == Some(name),
        },
    decreases children.len(),
{
    if children.len() > 0 {
        let front = children.drop_last();
        named_among(front, name);
        match diff::last_named(children, name) {
            None => {
                assert forall|i: int| 0 <= i < children.len() implies path::file_name(
                    (#[trigger] children[i]).name,
                ) != Some(name) by {
                    if i < front.len() {
                        assert(front[i] == children[i]);
                    }
                }
            },
            Some(entry) => {
                if path::file_name(children.last().name) == Some(name) {
                    assert(children[children.len() - 1] == entry);
                } else {
                    let k = choose|k: int| 0 <= k < front.len() && front[k] == entry;
                    assert(children[k] == entry);
                }
            },
        }
    }
}

proof fn compared_by_name(
    before: Option<Tree>,
    after: Option<Tree>,
    names: Seq<Seq<u8>>,
    at: Seq<u8>,
    kind: SizeKind,
    floor: u64,
    i: int,
)
    requires
        before is Some || after is Some,
        0 <= i < names.len(),
    ensures
        ({
            let all = diff::compared_all(before, after, names, at, kind, floor);
            &&& all.len() == names.len()
            &&& all[i] == diff::compared(
                diff::last_named(diff::children_of(before), names[i]),
                diff::last_named(diff::children_of(after), names[i]),
                path::joined(at, names[i]),
                kind,
                floor,
            )
        }),
    decreases names.len(),
{
    let front = names.drop_last();
    if front.len() > 0 {
        compared_by_name(
            before,
            after,
            front,
            at,
            kind,
            floor,
            if i < front.len() {
                i
            } else {
                0
            },
        );
    } else {
        assert(diff::compared_all(before, after, front, at, kind, floor).len() == 0);
    }
}

/// Directories are compared entry by entry: whatever has a name in either scan has one node in the
/// comparison, in its place, which holds the entry of that name before against the one of that name
/// after.
pub proof fn directories_are_compared_by_name(
    before: Option<Tree>,
    after: Option<Tree>,
    at: Seq<u8>,
    kind: SizeKind,
    floor: u64,
    name: Seq<u8>,
)
    requires
        diff::has_named(diff::children_of(before), name) || diff::has_named(
            diff::children_of(after),
            name,
        ),
    ensures
        ({
            let nodes = diff::compared(before, after, at, kind, floor).children;
            exists|i: int, old_entry: Option<Tree>, new_entry: Option<Tree>|
                {
                    &&& 0 <= i < nodes.len()
                    &&& #[trigger] is_the_one(old_entry, before, name)
                    &&& #[trigger] is_the_one(new_entry, after, name)
                    &&& #[trigger] nodes[i] == diff::compared(
                        old_entry,
                        new_entry,
                        path::joined(at, name),
                        kind,
                        floor,
                    )
                }
        }),
{
    let names = diff::names_of(before, after);
    diff::names_are_complete(before, after);
    assert(names.contains(name));
    let i = choose|i: int| 0 <= i < names.len() && names[i] == name;
    compared_by_name(before, after, names, at, kind, floor, i);
    names_find_entries(before, name);
    names_find_entries(after, name);
    let nodes = diff::compared(before, after, at, kind, floor).children;
    let old_entry = diff::last_named(diff::children_of(before), name);
    let new_entry = diff::last_named(diff::children_of(after), name);
    assert(is_the_one(old_entry, before, name) && is_the_one(new_entry, after, name));
    assert(nodes[i] == diff::compared(old_entry, new_entry, path::joined(at, name), kind, floor));
}

/// Nothing else is in a comparison: each of its nodes is about a name that an entry has in either
/// scan.
pub proof fn nothing_else_is_compared(
    before: Option<Tree>,
    after: Option<Tree>,
    at: Seq<u8>,
    kind: SizeKind,
    floor: u64,
    i: int,
)
    requires
        0 <= i < diff::compared(before, after, at, kind, floor).children.len(),
    ensures
        exists|name: Seq<u8>|
            {
                &&& #[trigger] diff::has_named(diff::children_of(before), name) || diff::has_named(
                    diff::children_of(after),
                    name,
                )
                &&& diff::compared(before, after, at, kind, floor).children[i].change.path
                    == path::joined(at, name)
            },
{
    let names = diff::names_of(before, after);
    diff::names_are_complete(before, after);
    if names.len() > 0 {
        compared_by_name(before, after, names, at, kind, floor, 0);
        compared_by_name(before, after, names, at, kind, floor, i);
        assert(names.contains(names[i]));
        assert(diff::has_named(diff::children_of(before), names[i]) || diff::has_named(
            diff::children_of(after),
            names[i],
        ));
    }
}

/// Held the other way round, a comparison says the opposite: what had grown has shrunk by as much,
/// and what was added was removed.
pub proof fn comparisons_turn_round(
    before: Option<Tree>,
    after: Option<Tree>,
    at: Seq<u8>,
    kind: SizeKind,
    floor: u64,
)
    requires
        bytes_of(before, kind) <= i64::MAX,
        bytes_of(after, kind) <= i64::MAX,
    ensures
        ({
            let there = diff::compared(before, after, at, kind, floor).change;
            let back = diff::compared(after, before, at, kind, floor).change;
            &&& back.delta == -there.delta
            &&& back.before == there.after
            &&& back.after == there.before
            &&& there.kind == ChangeKind::Added ==> back.kind == ChangeKind::Removed
            &&& there.kind == ChangeKind::Grown ==> back.kind == ChangeKind::Shrunk
        }),
{
}

/// How much of a movement something accounts for is its part of it, whichever way the two went, and
/// never more than all of it.
pub proof fn shares_of_a_movement_are_parts(delta: int, total: int)
    ensures
        total == 0 ==> diff::share_of_move(delta, total) == (0nat, 0int),
        total != 0 ==> ({
            let part = double::quotient(
                double::of_int(
                    if delta < 0 {
                        (-delta) as nat
                    } else {
                        delta as nat
                    },
                ),
                double::of_int(
                    if total < 0 {
                        (-total) as nat
                    } else {
                        total as nat
                    },
                ),
            );
            &&& double::less(double::of_int(1), part) ==> diff::share_of_move(delta, total)
                == double::of_int(1)
            &&& !double::less(double::of_int(1), part) ==> diff::share_of_move(delta, total)
                == part
        }),
        diff::share_of_move(-delta, total) == diff::share_of_move(delta, total),
        diff::share_of_move(delta, -total) == diff::share_of_move(delta, total),
{
}

/// Looking for what is behind a change stops at what is recognised as a cache.
pub proof fn caches_are_named_whole(around: Around, path: Seq<u8>)
    ensures
        diff::stops_at_names(around)(path) <==> categories::rule_for(path, around) is Some,
{
}

} // verus!
