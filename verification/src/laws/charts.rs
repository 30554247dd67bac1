//! What a chart shows of a directory, and in which colours.

use vstd::prelude::*;
use crate::app;
use crate::chart;
use crate::diff::Moves;
use crate::double;
use crate::explorer;
use crate::order;
use crate::overview;
use crate::palette;
use crate::palette::Rgb;
use crate::path;
use crate::radial;
use crate::radial::{Band, Disc, Limits, Slice, Style, Wedge};
use crate::size::SizeKind;
use crate::strings;
use crate::tree;
use crate::tree::Tree;

verus! {

/// A wedge takes up as much of its parent's arc as its size is of its parent's size: it ends that
/// much after it starts, and the first starts where the parent does. It keeps the number, the name
/// and the size of what it stands for.
pub proof fn wedges_are_in_proportion(
    nodes: Seq<Wedge>,
    index: int,
    start: double::Dyadic,
    span: double::Dyadic,
    size: u64,
    depth: nat,
    color: Option<Rgb>,
)
    requires
        0 <= index < nodes.len(),
    ensures
        ({
            let slice = radial::own_slice(nodes, index, start, span, size, depth, color);
            let part = double::product(
                double::quotient(
                    double::of_int(nodes[index].size as nat),
                    double::of_int(size as nat),
                ),
                span,
            );
            &&& slice.id == nodes[index].id
            &&& slice.label == nodes[index].label
            &&& slice.size == nodes[index].size
            &&& slice.depth == depth
            &&& slice.end == double::sum(slice.start, part)
            &&& index == 0 ==> slice.start == start
            &&& index > 0 ==> slice.start == radial::own_slice(
                nodes,
                index - 1,
                start,
                span,
                size,
                depth,
                color,
            ).end
        }),
{
}

/// A wedge is left out only where it is narrower than can be seen, and the one under the cursor
/// never is.
pub proof fn only_slivers_are_left_out(
    node: Wedge,
    span: double::Dyadic,
    size: u64,
    limits: Limits,
)
    ensures
        !radial::shows(node, span, size, limits) ==> limits.pinned != Some(node.id)
            && double::less(
            double::product(
                double::quotient(
                    double::of_int(node.size as nat),
                    double::of_int(size as nat),
                ),
                span,
            ),
            limits.min_span,
        ),
        limits.pinned == Some(node.id) ==> radial::shows(node, span, size, limits),
        !double::less(
            double::product(
                double::quotient(
                    double::of_int(node.size as nat),
                    double::of_int(size as nat),
                ),
                span,
            ),
            limits.min_span,
        ) ==> radial::shows(node, span, size, limits),
{
}

proof fn arranged_keeps(
    nodes: Seq<Wedge>,
    count: nat,
    start: double::Dyadic,
    span: double::Dyadic,
    size: u64,
    depth: nat,
    color: Option<Rgb>,
    limits: Limits,
    i: int,
)
    requires
        0 <= i < count <= nodes.len(),
        depth <= limits.rings,
    ensures
        ({
            let all = radial::arranged(nodes, count, start, span, size, depth, color, limits);
            let own = radial::own_slice(nodes, i, start, span, size, depth, color);
            let inner = radial::placed(
                nodes[i].children,
                own.start,
                radial::arc(nodes[i].size, size, span),
                nodes[i].size,
                depth + 1,
                Some(own.color),
                limits,
            );
            &&& radial::shows(nodes[i], span, size, limits) ==> all.contains(own)
            &&& forall|slice: Slice| #[trigger] inner.contains(slice) ==> all.contains(slice)
        }),
    decreases count,
{
    let index = count - 1;
    let before = radial::arranged(
        nodes,
        index as nat,
        start,
        span,
        size,
        depth,
        color,
        limits,
    );
    let all = radial::arranged(nodes, count, start, span, size, depth, color, limits);
    let own = radial::own_slice(nodes, index, start, span, size, depth, color);
    let inner = radial::placed(
        nodes[index].children,
        own.start,
        radial::arc(nodes[index].size, size, span),
        nodes[index].size,
        depth + 1,
        Some(own.color),
        limits,
    );
    let shown = if radial::shows(nodes[index], span, size, limits) {
        before.push(own)
    } else {
        before
    };
    assert(all == shown + inner);
    assert forall|slice: Slice| before.contains(slice) implies all.contains(slice) by {
        let k = choose|k: int| 0 <= k < before.len() && before[k] == slice;
        assert(all[k] == slice);
    }
    if i == index {
        if radial::shows(nodes[index], span, size, limits) {
            assert(all[before.len() as int] == own);
        }
        assert forall|slice: Slice| #[trigger] inner.contains(slice) implies all.contains(
            slice,
        ) by {
            let k = choose|k: int| 0 <= k < inner.len() && inner[k] == slice;
            assert(all[shown.len() + k] == slice);
        }
    } else {
        arranged_keeps(nodes, index as nat, start, span, size, depth, color, limits, i);
    }
}

/// The first ring goes all the way round and shows what is in the directory, in the hues in turn.
pub proof fn the_first_ring_goes_all_the_way_round(root: Wedge, limits: Limits, i: int)
    requires
        0 <= i < root.children.len(),
        root.size > 0,
        limits.rings >= 1,
        radial::shows(root.children[i], double::of_int(1), root.size, limits),
    ensures
        ({
            let slice = radial::own_slice(
                root.children,
                i,
                (0nat, 0int),
                double::of_int(1),
                root.size,
                1,
                None,
            );
            &&& radial::sunburst(root, limits).contains(slice)
            &&& root.children[i].color is None ==> slice.color == palette::hue(i % 8)
        }),
{
    double::of_int_exponent(1);
    arranged_keeps(
        root.children,
        root.children.len(),
        (0nat, 0int),
        double::of_int(1),
        root.size,
        1,
        None,
        limits,
        i,
    );
}

/// What is in a wedge of the first ring is drawn in the ring around it, from where that wedge starts
/// and over its arc, in shades of its colour.
pub proof fn contents_are_drawn_further_out(root: Wedge, limits: Limits, i: int, j: int)
    requires
        0 <= i < root.children.len(),
        0 <= j < root.children[i].children.len(),
        root.size > 0,
        root.children[i].size > 0,
        limits.rings >= 2,
        radial::arc(root.children[i].size, root.size, double::of_int(1)).0 > 0,
        radial::shows(
            root.children[i].children[j],
            radial::arc(root.children[i].size, root.size, double::of_int(1)),
            root.children[i].size,
            limits,
        ),
    ensures
        ({
            let outer = radial::own_slice(
                root.children,
                i,
                (0nat, 0int),
                double::of_int(1),
                root.size,
                1,
                None,
            );
            let slice = radial::own_slice(
                root.children[i].children,
                j,
                outer.start,
                double::product(
                    double::quotient(
                        double::of_int(root.children[i].size as nat),
                        double::of_int(root.size as nat),
                    ),
                    double::of_int(1),
                ),
                root.children[i].size,
                2,
                Some(outer.color),
            );
            &&& radial::sunburst(root, limits).contains(slice)
            &&& j == 0 ==> slice.start == outer.start
        }),
{
    double::of_int_exponent(1);
    let span = radial::arc(root.children[i].size, root.size, double::of_int(1));
    let outer = radial::own_slice(
        root.children,
        i,
        (0nat, 0int),
        double::of_int(1),
        root.size,
        1,
        None,
    );
    arranged_keeps(
        root.children,
        root.children.len(),
        (0nat, 0int),
        double::of_int(1),
        root.size,
        1,
        None,
        limits,
        i,
    );
    arranged_keeps(
        root.children[i].children,
        root.children[i].children.len(),
        outer.start,
        span,
        root.children[i].size,
        2,
        Some(outer.color),
        limits,
        j,
    );
    let inner = radial::placed(
        root.children[i].children,
        outer.start,
        span,
        root.children[i].size,
        2,
        Some(outer.color),
        limits,
    );
    let slice = radial::own_slice(
        root.children[i].children,
        j,
        outer.start,
        span,
        root.children[i].size,
        2,
        Some(outer.color),
    );
    assert(inner.contains(slice));
}

/// With nothing selected every wedge has its own colour. With something selected that wedge is
/// brighter, what lies in its slice keeps its colour, and everything else is darker.
pub proof fn the_selection_stands_out(slice: Slice, inside: bool, selected: Option<usize>)
    ensures
        selected is None ==> radial::shade_of(slice, inside, selected) == slice.color,
        selected == Some(slice.id) ==> radial::shade_of(slice, inside, selected)
            == palette::shaded(slice.color, palette::single(145, 100)),
        selected is Some && selected != Some(slice.id) && inside ==> radial::shade_of(
            slice,
            inside,
            selected,
        ) == slice.color,
        selected is Some && selected != Some(slice.id) && !inside ==> radial::shade_of(
            slice,
            inside,
            selected,
        ) == palette::shaded(slice.color, palette::single(55, 100)),
{
}

/// The slice that is lit goes outward from the selected ring, never inward.
pub proof fn light_goes_outward(band: Band, depth: int, turn: double::Dyadic)
    requires
        radial::in_band(band, depth, turn),
    ensures
        depth >= band.depth,
{
}

/// The first ring takes the hues in turn, and what is in a wedge takes shades of its colour, every
/// other one a little lighter.
pub proof fn rings_are_shades_of_their_hue(node: Wedge, index: int, parent: Rgb)
    requires
        node.color is None,
        0 <= index,
    ensures
        radial::tint(node, index, None) == palette::hue(index % 8),
        index % 2 == 0 ==> radial::tint(node, index, Some(parent)) == palette::shaded(
            parent,
            palette::single(118, 100),
        ),
        index % 2 != 0 ==> radial::tint(node, index, Some(parent)) == palette::shaded(
            parent,
            palette::single(128, 100),
        ),
{
}

/// The eight hues, which can be told apart by anyone; the last is the grey of what is grouped.
pub proof fn the_hues()
    ensures
        palette::hue(0) == (Rgb { r: 0, g: 114, b: 178 }),
        palette::hue(1) == (Rgb { r: 230, g: 159, b: 0 }),
        palette::hue(2) == (Rgb { r: 0, g: 158, b: 115 }),
        palette::hue(3) == (Rgb { r: 204, g: 121, b: 167 }),
        palette::hue(4) == (Rgb { r: 86, g: 180, b: 233 }),
        palette::hue(5) == (Rgb { r: 213, g: 94, b: 0 }),
        palette::hue(6) == (Rgb { r: 240, g: 228, b: 66 }),
        palette::hue(7) == (Rgb { r: 140, g: 140, b: 148 }),
{
}

/// What grew glows and what shrank cools to blue, fainter where it is less than half of the largest
/// movement; what stayed is grey.
pub proof fn growth_glows_and_shrinkage_cools(delta: int, scale: nat)
    ensures
        ({
            let moved = if delta < 0 {
                -delta
            } else {
                delta
            };
            let strength = if 2 * moved >= scale {
                palette::single(1, 1)
            } else {
                palette::single(7, 10)
            };
            palette::growth_hue(delta, scale) == palette::shaded(
                if delta > 0 {
                    Rgb { r: 213, g: 94, b: 0 }
                } else if delta < 0 {
                    Rgb { r: 86, g: 180, b: 233 }
                } else {
                    Rgb { r: 140, g: 140, b: 148 }
                },
                strength,
            )
        }),
{
}

/// A disk turns to a warning at three quarters and is critical at nine tenths.
pub proof fn full_disks_stand_out(fraction: double::Dyadic)
    ensures
        !double::less(fraction, double::ratio(9, 10)) ==> overview::capacity_hue(fraction) == (Rgb {
            r: 213,
            g: 94,
            b: 0,
        }),
        double::less(fraction, double::ratio(9, 10)) && !double::less(
            fraction,
            double::ratio(3, 4),
        ) ==> overview::capacity_hue(fraction) == (Rgb { r: 230, g: 159, b: 0 }),
        double::less(fraction, double::ratio(9, 10)) && double::less(fraction, double::ratio(3, 4))
            ==> overview::capacity_hue(fraction) == (Rgb { r: 0, g: 158, b: 115 }),
{
}

proof fn petals_stand_for_children(
    children: Seq<Tree>,
    at: Seq<u8>,
    kind: SizeKind,
    rings: nat,
    next: nat,
    count: nat,
    i: int,
)
    requires
        0 <= i < count <= children.len(),
    ensures
        ({
            let petals = chart::petals(children, at, kind, rings, next, count);
            let wedge = petals.wedges[i];
            &&& petals.wedges.len() == count
            &&& wedge.label == strings::lossy(tree::own_name(children[i].name))
            &&& wedge.size == (match kind {
                SizeKind::Allocated => children[i].allocated_size,
                SizeKind::Apparent => children[i].apparent_size,
            })
            &&& wedge.color is None
        }),
    decreases count,
{
    let before = chart::petals(children, at, kind, rings, next, (count - 1) as nat);
    let child = children[count - 1];
    let own = chart::burst(
        child,
        app::child_place(child, at),
        kind,
        rings,
        next + before.paths.len(),
    );
    assert(own.wedge.size == tree::size_of(child, kind));
    assert(chart::petals(children, at, kind, rings, next, count).wedges == before.wedges.push(
        own.wedge,
    ));
    if count > 1 {
        petals_stand_for_children(
            children,
            at,
            kind,
            rings,
            next,
            (count - 1) as nat,
            if i < count - 1 {
                i
            } else {
                0
            },
        );
    } else {
        assert(chart::petals(children, at, kind, rings, next, 0).wedges.len() == 0);
    }
}

/// The chart of a directory has a wedge for each entry, with its name and its size, the largest
/// first; the hole in the middle stands for the directory itself.
pub proof fn charts_show_every_entry(
    whole: Tree,
    at: Seq<u8>,
    kind: SizeKind,
    rings: nat,
    i: int,
    j: int,
)
    requires
        rings > 0,
        0 <= i < j < whole.children.len(),
    ensures
        ({
            let root = chart::burst(whole, at, kind, rings, 0).wedge;
            &&& root.size == (match kind {
                SizeKind::Allocated => whole.allocated_size,
                SizeKind::Apparent => whole.apparent_size,
            })
            &&& root.children.len() == whole.children.len()
            &&& root.children[i].size >= root.children[j].size
            &&& exists|k: int|
                0 <= k < whole.children.len() && root.children[i].label == strings::lossy(
                    tree::own_name((#[trigger] whole.children[k]).name),
                ) && root.children[i].size == (match kind {
                    SizeKind::Allocated => whole.children[k].allocated_size,
                    SizeKind::Apparent => whole.children[k].apparent_size,
                })
        }),
{
    let less = |a: Tree, b: Tree| tree::outranks(a, b, kind);
    let sorted = chart::by_size(whole, kind);
    tree::outranks_is_an_order(kind);
    order::sort_orders(whole.children, less);
    order::sort_is_a_permutation(whole.children, less);
    order::sort_keeps_members(whole.children, less);
    let count = whole.children.len();
    petals_stand_for_children(sorted, at, kind, (rings - 1) as nat, 1, count, i);
    petals_stand_for_children(sorted, at, kind, (rings - 1) as nat, 1, count, j);
    assert(!less(sorted[j], sorted[i]));
    assert(sorted.contains(sorted[i]));
    let k = choose|k: int| 0 <= k < whole.children.len() && whole.children[k] == sorted[i];
    assert(whole.children[k].name == sorted[i].name);
}

/// The chart of what changed draws what moved, as large as it moved whichever way, and in the colour
/// of its direction; what did not move is not drawn.
pub proof fn growth_charts_show_what_moved(node: Moves, rings: nat, scale: u64, next: nat, i: int)
    requires
        0 <= i < chart::by_movement(node).len(),
    ensures
        ({
            let wedge = chart::growth_burst(node, rings, scale, next).wedge;
            &&& node.change.delta >= 0 ==> wedge.size == node.change.delta
            &&& node.change.delta < 0 ==> wedge.size == -(node.change.delta as int)
            &&& wedge.color == Some(palette::growth_hue(node.change.delta as int, scale as nat))
            &&& chart::by_movement(node)[i].change.delta != 0
            &&& node.children.contains(chart::by_movement(node)[i])
        }),
{
    let moved = |child: Moves| child.change.delta != 0;
    let less = |a: Moves, b: Moves| chart::moved_more(a, b);
    let kept = node.children.filter(moved);
    let sorted = chart::by_movement(node);
    order::sort_keeps_members(kept, less);
    assert(sorted.contains(sorted[i]));
    let k = choose|k: int| 0 <= k < kept.len() && kept[k] == sorted[i];
    node.children.lemma_filter_pred(moved, k);
    node.children.lemma_filter_contains_rev(moved, sorted[i]);
}

/// A wedge is found by the path that it stands for, the innermost where there are several.
pub proof fn wedges_are_found_by_path(paths: Seq<Seq<u8>>, target: Seq<u8>, count: nat)
    requires
        count <= paths.len() <= usize::MAX,
    ensures
        match chart::last_place(paths, target, count) {
            Some(at) => at < count && path::same_place(paths[at as int], target) && forall|i: int|
                at < i < count ==> !path::same_place(#[trigger] paths[i], target),
            None => forall|i: int|
                0 <= i < count ==> !path::same_place(#[trigger] paths[i], target),
        },
    decreases count,
{
    if count > 0 && !path::same_place(paths[count - 1], target) {
        wedges_are_found_by_path(paths, target, (count - 1) as nat);
    }
}

/// The chart on screen is of the directory on screen.
pub proof fn the_chart_is_of_the_directory(state: app::State, rings: nat)
    ensures
        !app::growing(state) && app::entry_here(state) is Some ==> chart::burst_here(state, rings)
            == chart::burst(
            app::entry_here(state)->0,
            state.cwd,
            state.settings.size_kind,
            rings,
            0,
        ),
        app::growing(state) && app::change_here(state) is Some ==> chart::burst_here(
            state,
            rings,
        ).wedge.size == crate::diff::magnitude(app::change_here(state)->0.change.delta as int),
{
}

proof fn found_by_its_number(slices: Seq<Slice>, id: usize, from: nat)
    ensures
        match radial::position_of(slices, id, from) {
            Some(at) => from <= at < slices.len() && slices[at].id == id,
            None => forall|i: int| from <= i < slices.len() ==> (#[trigger] slices[i]).id != id,
        },
    decreases slices.len() - from,
{
    if from < slices.len() && slices[from as int].id != id {
        found_by_its_number(slices, id, from + 1);
    }
}

/// What is lit is the selected wedge, in its ring and in its colour made brighter; where it is
/// narrower than three pixels it is lit together with its neighbours. Nothing is lit where nothing
/// is selected.
pub proof fn the_selected_wedge_is_lit(slices: Seq<Slice>, disc: Disc, id: usize)
    ensures
        radial::highlighted(slices, disc, None) is None,
        radial::highlighted(slices, disc, Some(id)) matches Some(band) ==> exists|i: int|
            0 <= i < slices.len() && (#[trigger] slices[i]).id == id && band.depth
                == slices[i].depth && band.color == palette::shaded(
                slices[i].color,
                palette::single(145, 100),
            ) && (band.is_a_run <==> double::less(
                radial::arc_length(
                    double::difference(slices[i].end, slices[i].start),
                    radial::middle_radius(disc, slices[i].depth),
                ),
                double::of_int(3),
            )),
{
    found_by_its_number(slices, id, 0);
    if let Some(at) = radial::position_of(slices, id, 0) {
        assert(slices[at].id == id);
    }
}

/// A wedge that is wide enough is lit from where it starts to where it ends: the light is centred on
/// it, and is as wide as it is or three pixels.
pub proof fn light_is_centred(slice: Slice, at: int, ring: Seq<Slice>, radius: double::Dyadic)
    requires
        0 <= at < ring.len(),
        ring[at] == slice,
    ensures
        ({
            let band = radial::band(ring, at, at, radius, slice);
            let width = double::minus(slice.end, slice.start);
            let floor = double::quotient(
                double::of_int(3),
                double::product(radial::tau(), radius),
            );
            &&& band.middle == double::half(double::sum(slice.start, slice.end))
            &&& !width.0 && !double::less(width.1, floor) ==> band.half_span == double::half(
                width.1,
            )
            &&& width.0 ==> band.half_span == double::half(floor)
        }),
{
}

/// A chart has three rings, leaves out what is less than three twentieths of a percent of the whole
/// turn, and always draws what is selected.
pub proof fn charts_have_three_rings(selected: Option<usize>)
    ensures
        explorer::chart_limits(selected).rings == 3,
        explorer::chart_limits(selected).min_span == double::ratio(15, 10_000),
        explorer::chart_limits(selected).pinned == selected,
        explorer::chart_style(selected).rings == 3,
        explorer::chart_style(selected).selected == selected,
        explorer::chart_style(selected).inner_radius == double::ratio(34, 100),
{
}

/// A disc fits its canvas with a pixel to spare, and its rings share out evenly what is round the
/// hole.
pub proof fn discs_fit_their_canvas(width: nat, height: nat, style: Style)
    requires
        style.rings > 0,
    ensures
        radial::disc(width, height, style) matches Some(disc) ==> {
            &&& disc.center_x == double::half(double::of_int(width))
            &&& disc.center_y == double::half(double::of_int(height))
            &&& disc.inner == double::product(disc.outer, style.inner_radius)
            &&& !double::less(disc.outer, disc.inner)
            &&& disc.ring_thickness == double::quotient(
                double::difference(disc.outer, disc.inner),
                double::of_int(style.rings),
            )
            &&& disc.outer == radial::outer_radius(width, height)
        },
        ({
            let smaller = if double::less(disc_half(height), disc_half(width)) {
                disc_half(height)
            } else {
                disc_half(width)
            };
            let room = double::minus(smaller, double::of_int(1));
            !room.0 && !double::less(room.1, double::of_int(1)) ==> radial::outer_radius(
                width,
                height,
            ) == room.1
        }),
{
}

/// Half of a side.
pub open spec fn disc_half(side: nat) -> double::Dyadic {
    double::half(double::of_int(side))
}

/// A pixel belongs to the ring that its distance from the middle falls in; the hole and what is
/// outside stay blank.
pub proof fn the_hole_and_the_outside_are_blank(
    slices: Seq<Slice>,
    disc: Disc,
    band: Option<Band>,
    style: Style,
    radius: double::Dyadic,
    turn: double::Dyadic,
)
    ensures
        double::less(radius, disc.inner) ==> radial::painted(
            slices,
            disc,
            band,
            style,
            radius,
            turn,
        ) is None,
        double::less(disc.outer, radius) ==> radial::painted(
            slices,
            disc,
            band,
            style,
            radius,
            turn,
        ) is None,
{
}

proof fn under_covers(slices: Seq<Slice>, depth: int, turn: double::Dyadic, from: nat)
    ensures
        match radial::under(slices, depth, turn, from) {
            Some(at) => from <= at < slices.len() && slices[at].depth == depth && !double::less(
                turn,
                slices[at].start,
            ) && double::less(turn, slices[at].end),
            None => forall|i: int|
                from <= i < slices.len() && (#[trigger] slices[i]).depth == depth ==> double::less(
                    turn,
                    slices[i].start,
                ) || !double::less(turn, slices[i].end),
        },
    decreases slices.len() - from,
{
    if from < slices.len() && !(slices[from as int].depth == depth && radial::covers_turn(
        slices[from as int],
        turn,
    )) {
        under_covers(slices, depth, turn, from + 1);
    }
}

/// The wedge at a place is in that ring and on that side: it starts no later than the turn and ends
/// after it. Where none is found there is none.
pub proof fn wedges_are_found_by_ring_and_turn(
    slices: Seq<Slice>,
    depth: int,
    turn: double::Dyadic,
)
    ensures
        match radial::under(slices, depth, turn, 0) {
            Some(at) => 0 <= at < slices.len() && slices[at].depth == depth && !double::less(
                turn,
                slices[at].start,
            ) && double::less(turn, slices[at].end),
            None => forall|i: int|
                0 <= i < slices.len() && (#[trigger] slices[i]).depth == depth ==> double::less(
                    turn,
                    slices[i].start,
                ) || !double::less(turn, slices[i].end),
        },
{
    under_covers(slices, depth, turn, 0);
}

} // verus!
