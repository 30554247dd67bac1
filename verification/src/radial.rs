//! Sunburst layout and rasterisation.
//!
//! Layout is pure geometry over sizes, deliberately knowing nothing about files: callers hand in
//! [`RadialNode`]s carrying their own ids, and get back [`Segment`]s they can map straight back to
//! whatever those ids meant.
//!
//! Sines and square roots are the caller's: points come in and go out as a distance from the
//! middle and an angle.

use vstd::prelude::*;
use crate::canvas;
use crate::canvas::Canvas;
use crate::double;
use crate::double::{Double, SignedDouble};
use crate::palette;
use crate::palette::{Factor, Rgb};

verus! {

/// Input to [`layout`]. `id` is opaque: the caller decides what it points at.
#[derive(Debug)]
pub struct RadialNode {
    pub id: usize,
    pub label: String,
    pub size: u64,
    /// Overrides the palette for this wedge. The growth view uses it to colour by what changed
    /// instead of by which child it is.
    pub color: Option<Rgb>,
    pub children: Vec<RadialNode>,
}

/// A node, as its numbers and letters.
#[verifier::ext_equal]
pub struct Wedge {
    pub id: usize,
    pub label: Seq<char>,
    pub size: u64,
    pub color: Option<Rgb>,
    pub children: Seq<Wedge>,
}

impl RadialNode {
    pub open spec fn view(&self) -> Wedge
        decreases self,
    {
        Wedge {
            id: self.id,
            label: self.label@,
            size: self.size,
            color: self.color,
            children: Seq::new(
                self.children@.len(),
                |i: int|
                    if 0 <= i < self.children@.len() {
                        self.children@[i].view()
                    } else {
                        arbitrary()
                    },
            ),
        }
    }
}

/// A list of nodes, each as its numbers and letters.
pub open spec fn wedges(nodes: Seq<RadialNode>) -> Seq<Wedge> {
    nodes.map_values(|node: RadialNode| node.view())
}

impl RadialNode {
    pub fn leaf(id: usize, label: &str, size: u64) -> (node: RadialNode)
        ensures
            node@ == (Wedge { id, label: label@, size, color: None, children: Seq::empty() }),
    {
        let node = RadialNode {
            id,
            label: String::from_str(label),
            size,
            color: None,
            children: Vec::new(),
        };
        assert(node@.children =~= Seq::empty());
        node
    }
}

/// A placed wedge. Angles are in turns: zero is twelve o'clock and they run clockwise, so a quarter
/// is three o'clock.
#[derive(Debug)]
pub struct Segment {
    pub id: usize,
    /// Ring number, 1 for the innermost.
    pub depth: usize,
    pub start: Double,
    pub end: Double,
    pub color: Rgb,
    pub label: String,
    pub size: u64,
}

/// A placed wedge, as its numbers and letters.
#[verifier::ext_equal]
pub struct Slice {
    pub id: usize,
    pub depth: int,
    pub start: double::Dyadic,
    pub end: double::Dyadic,
    pub color: Rgb,
    pub label: Seq<char>,
    pub size: u64,
}

impl View for Segment {
    type V = Slice;

    open spec fn view(&self) -> Slice {
        Slice {
            id: self.id,
            depth: self.depth as int,
            start: self.start@,
            end: self.end@,
            color: self.color,
            label: self.label@,
            size: self.size,
        }
    }
}

/// A list of segments, each as its numbers and letters.
pub open spec fn slices(segments: Seq<Segment>) -> Seq<Slice> {
    segments.map_values(|segment: Segment| segment@)
}

/// The furthest from one that an angle can be.
pub open spec fn angle_bound() -> int {
    71_000_000
}

impl Segment {
    pub open spec fn valid(&self) -> bool {
        &&& self.start.within(angle_bound())
        &&& self.end.within(angle_bound())
        &&& !double::less(self.end@, self.start@)
        &&& self.depth >= 1
    }

    pub fn span(&self) -> (turns: Double)
        requires
            self.valid(),
        ensures
            turns@ == double::difference(self.end@, self.start@),
            turns.within(angle_bound() + 121),
    {
        self.end.minus(&self.start, Ghost(angle_bound())).size
    }

    pub fn midpoint(&self) -> (turn: Double)
        requires
            self.valid(),
        ensures
            turn@ == double::half(double::sum(self.start@, self.end@)),
            turn.within(angle_bound() + 3),
    {
        self.start.plus(&self.end, Ghost(angle_bound())).halved()
    }

    pub fn contains(&self, turn: Double) -> (yes: bool)
        ensures
            yes == covers_turn(self@, turn@),
    {
        !turn.is_less(&self.start) && turn.is_less(&self.end)
    }
}

/// Whether an angle lies on a wedge.
pub open spec fn covers_turn(slice: Slice, turn: double::Dyadic) -> bool {
    !double::less(turn, slice.start) && double::less(turn, slice.end)
}

pub struct LayoutOptions {
    /// How many levels deep to draw.
    pub rings: usize,
    /// Wedges thinner than this many turns are dropped: below roughly a thousandth of a circle
    /// they are narrower than a pixel and only add speckle.
    pub min_span: Double,
    /// One id that is placed however thin it is. The wedge under the cursor has to exist even when
    /// it is a sliver, or there is nothing for the highlight to point at.
    pub pinned: Option<usize>,
}

/// What governs a layout.
pub struct Limits {
    pub rings: nat,
    pub min_span: double::Dyadic,
    pub pinned: Option<usize>,
}

impl View for LayoutOptions {
    type V = Limits;

    open spec fn view(&self) -> Limits {
        Limits { rings: self.rings as nat, min_span: self.min_span@, pinned: self.pinned }
    }
}

impl Default for LayoutOptions {
    fn default() -> (options: LayoutOptions)
        ensures
            options.rings == 3,
            options.min_span@ == double::ratio(15, 10_000),
            options.pinned is None,
    {
        LayoutOptions { rings: 3, min_span: Double::from_ratio(15, 10_000), pinned: None }
    }
}

/// How many levels are placed at most, however many are asked for. A tree of more is too deep for
/// any stack to walk.
pub const MOST_RINGS: usize = 100_000;

/// The arc that a child takes of its parent's.
pub open spec fn arc(size: u64, parent_size: u64, parent_span: double::Dyadic) -> double::Dyadic {
    double::product(
        double::quotient(double::of_int(size as nat), double::of_int(parent_size as nat)),
        parent_span,
    )
}

/// Where the wedge at `count` starts: each begins where the one before it ends.
pub open spec fn cursor(
    nodes: Seq<Wedge>,
    count: nat,
    start: double::Dyadic,
    span: double::Dyadic,
    size: u64,
) -> double::Dyadic
    decreases count,
{
    if count == 0 {
        start
    } else {
        double::sum(
            cursor(nodes, (count - 1) as nat, start, span, size),
            arc(nodes[count - 1].size, size, span),
        )
    }
}

/// The single-precision factors that a deeper ring is lightened by, for even and odd siblings.
pub open spec fn ring_factor(index: int) -> double::Dyadic {
    if index % 2 == 0 {
        palette::single(118, 100)
    } else {
        palette::single(128, 100)
    }
}

/// Top-level children each get their own hue; deeper rings are lighter shades of their parent,
/// alternating slightly so neighbouring siblings do not melt into one another.
pub open spec fn tint(node: Wedge, index: int, parent_color: Option<Rgb>) -> Rgb {
    match (node.color, parent_color) {
        (Some(explicit), _) => explicit,
        (None, None) => palette::hue(index % 8),
        (None, Some(parent)) => palette::shaded(parent, ring_factor(index)),
    }
}

/// The wedge of the child at `index`, however thin.
pub open spec fn own_slice(
    nodes: Seq<Wedge>,
    index: int,
    start: double::Dyadic,
    span: double::Dyadic,
    size: u64,
    depth: nat,
    color: Option<Rgb>,
) -> Slice {
    Slice {
        id: nodes[index].id,
        depth: depth as int,
        start: cursor(nodes, index as nat, start, span, size),
        end: cursor(nodes, (index + 1) as nat, start, span, size),
        color: tint(nodes[index], index, color),
        label: nodes[index].label,
        size: nodes[index].size,
    }
}

/// Whether a wedge is wide enough to be placed, or is wanted regardless.
pub open spec fn shows(
    node: Wedge,
    span: double::Dyadic,
    size: u64,
    limits: Limits,
) -> bool {
    !double::less(arc(node.size, size, span), limits.min_span) || limits.pinned == Some(node.id)
}

/// The wedges of the first `count` children and of all that is under them.
pub open spec fn arranged(
    nodes: Seq<Wedge>,
    count: nat,
    start: double::Dyadic,
    span: double::Dyadic,
    size: u64,
    depth: nat,
    color: Option<Rgb>,
    limits: Limits,
) -> Seq<Slice>
    decreases limits.rings + 1 - depth, 0nat, count,
{
    if count == 0 || depth > limits.rings {
        Seq::empty()
    } else {
        let index = count - 1;
        let before = arranged(
            nodes,
            index as nat,
            start,
            span,
            size,
            depth,
            color,
            limits,
        );
        let own = if shows(nodes[index], span, size, limits) {
            before.push(own_slice(nodes, index, start, span, size, depth, color))
        } else {
            before
        };
        own + placed(
            nodes[index].children,
            cursor(nodes, index as nat, start, span, size),
            arc(nodes[index].size, size, span),
            nodes[index].size,
            depth + 1,
            Some(tint(nodes[index], index, color)),
            limits,
        )
    }
}

/// The wedges of a list of siblings and of all that is under them.
pub open spec fn placed(
    nodes: Seq<Wedge>,
    start: double::Dyadic,
    span: double::Dyadic,
    size: u64,
    depth: nat,
    color: Option<Rgb>,
    limits: Limits,
) -> Seq<Slice>
    decreases limits.rings + 1 - depth, 1nat, 0nat,
{
    if depth > limits.rings || depth > MOST_RINGS || size == 0 || span.0 == 0 {
        Seq::empty()
    } else {
        arranged(nodes, nodes.len(), start, span, size, depth, color, limits)
    }
}

/// Everything under a root, around the whole circle.
pub open spec fn sunburst(root: Wedge, limits: Limits) -> Seq<Slice> {
    placed(root.children, (0, 0), double::of_int(1), root.size, 1, None, limits)
}

/// Place `root`'s descendants around the circle. `root` itself is the hole in the middle and gets
/// no segment.
pub fn layout(root: &RadialNode, options: &LayoutOptions) -> (segments: Vec<Segment>)
    ensures
        slices(segments@) == sunburst(root@, options@),
        forall|i: int| 0 <= i < segments@.len() ==> (#[trigger] segments@[i]).valid(),
{
    let mut segments: Vec<Segment> = Vec::new();
    let one = Double::from_u64(1);
    assert(wedges(root.children@) =~= root@.children);
    place(
        &root.children,
        Double::zero(),
        one,
        root.size,
        1,
        None,
        options,
        &mut segments,
    );
    assert(slices(segments@) =~= sunburst(root@, options@));
    segments
}

/// The furthest from one that an angle on a ring can be.
spec fn ring_bound(depth: int) -> int {
    700 * depth
}

fn place(
    nodes: &Vec<RadialNode>,
    parent_start: Double,
    parent_span: Double,
    parent_size: u64,
    depth: usize,
    parent_color: Option<Rgb>,
    options: &LayoutOptions,
    out: &mut Vec<Segment>,
)
    requires
        1 <= depth <= MOST_RINGS + 1,
        parent_start.within(ring_bound(depth as int)),
        parent_span.within(ring_bound(depth as int)),
        forall|i: int| 0 <= i < old(out)@.len() ==> (#[trigger] old(out)@[i]).valid(),
    ensures
        slices(final(out)@) == slices(old(out)@) + placed(
            wedges(nodes@),
            parent_start@,
            parent_span@,
            parent_size,
            depth as nat,
            parent_color,
            options@,
        ),
        forall|i: int| 0 <= i < final(out)@.len() ==> (#[trigger] final(out)@[i]).valid(),
    decreases MOST_RINGS + 1 - depth,
{
    if depth > options.rings || depth > MOST_RINGS || parent_size == 0 || parent_span.mantissa
        == 0 {
        assert(slices(out@) + Seq::<Slice>::empty() =~= slices(out@));
        return;
    }
    let ghost all = wedges(nodes@);
    let ghost before = slices(out@);
    let whole = Double::from_u64(parent_size);
    let mut start = parent_start;
    let mut index: usize = 0;
    let ghost bound = ring_bound(depth as int);
    proof {
        double::nearest_is_normal(parent_size as nat, 1, double::DOUBLE as nat);
        assert(before + Seq::<Slice>::empty() =~= before);
    }
    while index < nodes.len()
        invariant
            index <= nodes@.len(),
            all == wedges(nodes@),
            1 <= depth <= options.rings,
            depth <= MOST_RINGS,
            bound == ring_bound(depth as int),
            parent_span.within(bound),
            parent_span.mantissa > 0,
            parent_size > 0,
            whole@ == double::of_int(parent_size as nat),
            whole.within(121),
            whole.mantissa > 0,
            double::is_double(start@),
            -bound - 600 <= start.exponent <= bound + 600,
            start@ == cursor(all, index as nat, parent_start@, parent_span@, parent_size),
            slices(out@) == before + arranged(
                all,
                index as nat,
                parent_start@,
                parent_span@,
                parent_size,
                depth as nat,
                parent_color,
                options@,
            ),
            forall|i: int| 0 <= i < out@.len() ==> (#[trigger] out@[i]).valid(),
        decreases nodes@.len() - index,
    {
        let node = &nodes[index];
        assert(all[index as int] == node@);
        let share = Double::from_u64(node.size).divided_by(&whole, Ghost(121));
        let span = share.times(&parent_span, Ghost(71_000_000));
        assert(span@ == arc(node.size, parent_size, parent_span@));
        let end = start.plus(&span, Ghost(bound + 600));
        proof {
            double::sums_do_not_shrink(start@, span@);
        }
        let color = match node.color {
            Some(explicit) => explicit,
            None => match parent_color {
                None => palette::categorical(index),
                Some(parent) => {
                    let factor = if index % 2 == 0 {
                        Factor::of(118, 100)
                    } else {
                        Factor::of(128, 100)
                    };
                    palette::shade(parent, factor)
                },
            },
        };
        assert(color == tint(all[index as int], index as int, parent_color));
        let pinned = match options.pinned {
            Some(id) => id == node.id,
            None => false,
        };
        let ghost so_far = slices(out@);
        if !span.is_less(&options.min_span) || pinned {
            let segment = Segment {
                id: node.id,
                depth,
                start,
                end,
                color,
                label: String::from_str(node.label.as_str()),
                size: node.size,
            };
            let ghost list = out@;
            out.push(segment);
            assert(slices(out@) =~= slices(list).push(segment@));
        }
        let ghost with_own = slices(out@);
        assert(wedges(node.children@) =~= node@.children);
        place(&node.children, start, span, node.size, depth + 1, Some(color), options, out);
        proof {
            let own = own_slice(
                all,
                index as int,
                parent_start@,
                parent_span@,
                parent_size,
                depth as nat,
                parent_color,
            );
            let rest = placed(
                node@.children,
                start@,
                span@,
                node.size,
                depth as nat + 1,
                Some(color),
                options@,
            );
            let earlier = arranged(
                all,
                index as nat,
                parent_start@,
                parent_span@,
                parent_size,
                depth as nat,
                parent_color,
                options@,
            );
            assert(end@ == cursor(
                all,
                index as nat + 1,
                parent_start@,
                parent_span@,
                parent_size,
            ));
            if shows(all[index as int], parent_span@, parent_size, options@) {
                assert(slices(out@) =~= before + (earlier.push(own) + rest));
            } else {
                assert(slices(out@) =~= before + (earlier + rest));
            }
        }
        start = end;
        index += 1;
    }
}

#[derive(Debug)]
pub struct RenderOptions {
    /// Radius of the hole in the middle, as a fraction of the outer radius. The hole carries the
    /// current directory's total.
    pub inner_radius: Double,
    pub rings: usize,
    /// Segment id to highlight; everything else dims.
    pub selected: Option<usize>,
    /// Blank pixels left between rings.
    pub ring_gap: Double,
    /// Blank pixels left between neighbouring wedges.
    pub segment_gap: Double,
}

/// What governs a drawing.
pub struct Style {
    pub inner_radius: double::Dyadic,
    pub rings: nat,
    pub selected: Option<usize>,
    pub ring_gap: double::Dyadic,
    pub segment_gap: double::Dyadic,
}

impl View for RenderOptions {
    type V = Style;

    open spec fn view(&self) -> Style {
        Style {
            inner_radius: self.inner_radius@,
            rings: self.rings as nat,
            selected: self.selected,
            ring_gap: self.ring_gap@,
            segment_gap: self.segment_gap@,
        }
    }
}

impl RenderOptions {
    pub open spec fn valid(&self) -> bool {
        self.inner_radius.valid() && self.ring_gap.valid() && self.segment_gap.valid()
    }
}

impl Default for RenderOptions {
    fn default() -> (options: RenderOptions)
        ensures
            options@ == (Style {
                inner_radius: double::ratio(34, 100),
                rings: 3,
                selected: None,
                ring_gap: double::ratio(6, 10),
                segment_gap: double::ratio(8, 10),
            }),
            options.valid(),
    {
        RenderOptions {
            inner_radius: Double::from_ratio(34, 100),
            rings: 3,
            selected: None,
            ring_gap: Double::from_ratio(6, 10),
            segment_gap: Double::from_ratio(8, 10),
        }
    }
}

/// How much lighter the selected wedge is drawn.
pub open spec fn selected_shade() -> double::Dyadic {
    palette::single(145, 100)
}

/// How much darker every other one goes to get out of its way.
pub open spec fn dimmed_shade() -> double::Dyadic {
    palette::single(55, 100)
}

/// The narrowest a highlight is ever drawn, in pixels of arc. Most wedges in a large directory are
/// thinner than a pixel, and a highlight nobody can see is the same as no highlight at all.
pub const MIN_HIGHLIGHT_PIXELS: u64 = 3;

/// A whole turn in radians, as a double.
pub open spec fn tau() -> double::Dyadic {
    (0x19_21fb_5444_2d18nat, -50int)
}

fn whole_turn() -> (out: Double)
    ensures
        out@ == tau(),
        out.within(121),
{
    Double { mantissa: 0x19_21fb_5444_2d18, exponent: -50 }
}

/// Geometry shared by the rasteriser and the label placement, so a label always lands on the wedge
/// it names.
#[derive(Debug)]
pub struct Geometry {
    pub center_x: Double,
    pub center_y: Double,
    pub outer: Double,
    pub inner: Double,
    pub ring_thickness: Double,
}

/// The measures of a disc.
pub struct Disc {
    pub center_x: double::Dyadic,
    pub center_y: double::Dyadic,
    pub outer: double::Dyadic,
    pub inner: double::Dyadic,
    pub ring_thickness: double::Dyadic,
}

impl View for Geometry {
    type V = Disc;

    open spec fn view(&self) -> Disc {
        Disc {
            center_x: self.center_x@,
            center_y: self.center_y@,
            outer: self.outer@,
            inner: self.inner@,
            ring_thickness: self.ring_thickness@,
        }
    }
}

/// Half the shorter side, less a pixel's margin, and never less than one.
pub open spec fn outer_radius(width: nat, height: nat) -> double::Dyadic {
    let one = double::of_int(1);
    let room = double::minus(
        double::at_most(double::half(double::of_int(width)), double::half(double::of_int(height))),
        one,
    );
    if room.0 {
        one
    } else {
        double::at_least(room.1, one)
    }
}

/// The measures of the disc that fits a canvas, where the hole is not larger than the disc.
pub open spec fn disc(width: nat, height: nat, style: Style) -> Option<Disc> {
    let outer = outer_radius(width, height);
    let inner = double::product(outer, style.inner_radius);
    let rings = if style.rings == 0 {
        1
    } else {
        style.rings
    };
    if double::less(outer, inner) {
        None
    } else {
        Some(
            Disc {
                center_x: double::half(double::of_int(width)),
                center_y: double::half(double::of_int(height)),
                outer,
                inner,
                ring_thickness: double::quotient(
                    double::difference(outer, inner),
                    double::of_int(rings),
                ),
            },
        )
    }
}

/// The middle of a ring.
pub open spec fn middle_radius(disc: Disc, depth: int) -> double::Dyadic {
    double::sum(
        disc.inner,
        double::product(
            double::difference(double::of_int(depth as nat), double::ratio(1, 2)),
            disc.ring_thickness,
        ),
    )
}

/// How far from the centre the middle of a ring is. Where the hole is larger than the disc the rings
/// lie inside out, from the edge of the hole towards the centre, and one that would lie beyond it is
/// nowhere.
pub open spec fn ring_middle(width: nat, height: nat, style: Style, depth: nat) -> Option<
    double::Dyadic,
> {
    match disc(width, height, style) {
        Some(disc) => Some(middle_radius(disc, depth as int)),
        None => {
            let outer = outer_radius(width, height);
            let inner = double::product(outer, style.inner_radius);
            let thickness = double::quotient(
                double::difference(inner, outer),
                double::of_int(
                    if style.rings == 0 {
                        1
                    } else {
                        style.rings
                    },
                ),
            );
            let way_in = double::product(
                double::difference(double::of_int(depth), double::ratio(1, 2)),
                thickness,
            );
            if double::less(inner, way_in) {
                None
            } else {
                Some(double::difference(inner, way_in))
            }
        },
    }
}

/// The arc that an angle spans at a distance, where it is not below zero.
pub open spec fn arc_length(turns: double::Dyadic, radius: double::Dyadic) -> double::Dyadic {
    double::product(double::product(turns, tau()), radius)
}

/// Whether a wedge is wide enough to be seen on its own.
pub open spec fn stands_out(slice: Slice, radius: double::Dyadic) -> bool {
    !double::less(
        arc_length(double::difference(slice.end, slice.start), radius),
        double::of_int(MIN_HIGHLIGHT_PIXELS as nat),
    )
}

impl Geometry {
    pub open spec fn valid(&self) -> bool {
        &&& self.center_x.within(3000)
        &&& self.center_y.within(3000)
        &&& self.outer.within(3000)
        &&& self.inner.within(3000)
        &&& self.ring_thickness.within(4000)
        &&& self.inner.mantissa > 0 || self.ring_thickness.mantissa > 0
    }

    /// `None` where the hole would be larger than the disc.
    pub fn new(width: usize, height: usize, options: &RenderOptions) -> (geometry: Option<Geometry>)
        requires
            options.valid(),
        ensures
            geometry is Some <==> disc(width as nat, height as nat, options@) is Some,
            geometry matches Some(geometry) ==> geometry.valid() && disc(
                width as nat,
                height as nat,
                options@,
            ) == Some(geometry@),
    {
        let center_x = Double::from_u64(width as u64).halved();
        let center_y = Double::from_u64(height as u64).halved();
        let outer = outer_of(width, height);
        let inner = outer.times(&options.inner_radius, Ghost(2000));
        if outer.is_less(&inner) {
            return None;
        }
        let left = outer.minus(&inner, Ghost(3000));
        let ring_thickness = left.size.divided_by(&ring_count(options), Ghost(4000));
        Some(Geometry { center_x, center_y, outer, inner, ring_thickness })
    }

    pub fn radius_of_ring(&self, depth: usize) -> (radius: Double)
        requires
            self.valid(),
            depth >= 1,
        ensures
            radius@ == middle_radius(self@, depth as int),
            radius.within(10_000),
            radius.mantissa > 0,
    {
        let half = Double::from_ratio(1, 2);
        let steps = Double::from_u64(depth as u64);
        proof {
            a_half_is_less_than_any_ring(depth as nat);
        }
        let steps = steps.minus(&half, Ghost(121));
        let out = steps.size.times(&self.ring_thickness, Ghost(4000));
        self.inner.plus(&out, Ghost(9000))
    }
}

/// A ring's number less a half is never zero.
proof fn a_half_is_less_than_any_ring(depth: nat)
    requires
        1 <= depth <= u64::MAX,
    ensures
        !double::less(double::of_int(depth), double::ratio(1, 2)),
        double::difference(double::of_int(depth), double::ratio(1, 2)).0 > 0,
{
    let unit = double::DOUBLE as nat;
    double::some_powers();
    double::two_to_grows(52);
    assert(double::two_to(52) == unit);
    assert(double::ratio(1, 2) == (unit, -53int)) by {
        half_as_double(1, 0);
    }
    double::nearest_is_normal(depth, 1, unit);
    assert(depth * double::two_to(52) >= 1 * unit) by (nonlinear_arith)
        requires
            depth >= 1,
            double::two_to(52) == unit,
    ;
    double::nearest_exponent_least(depth, 1, unit, 52);
    let whole = double::of_int(depth);
    let gap = (whole.1 + 53) as nat;
    double::two_to_is_monotone(1, gap);
    assert(double::two_to(1) == 2) by {
        reveal_with_fuel(double::two_to, 2);
    }
    assert(whole.0 * double::two_to(gap) - unit > 0) by (nonlinear_arith)
        requires
            whole.0 >= unit,
            unit > 0,
            double::two_to(gap) >= 2,
    ;
    double::nearest_is_normal((whole.0 * double::two_to(gap) - unit) as nat, 1, unit);
}

/// Doubling one half until it fills a mantissa.
proof fn half_as_double(num: nat, done: nat)
    requires
        done <= 53,
        num == double::two_to(done),
    ensures
        double::nearest(num, 2, double::DOUBLE as nat) == (
            double::DOUBLE as nat,
            done - 53,
        ),
    decreases 53 - done,
{
    let unit = double::DOUBLE as nat;
    double::some_powers();
    double::two_to_is_monotone(done, 53);
    double::two_to_grows(done);
    if done < 53 {
        double::two_to_is_monotone(done + 1, 53);
        half_as_double(2 * num, done + 1);
    } else {
        assert(double::half_even(num, 2) == unit);
    }
}

/// Where the first wedge with an id stands, from `from` on.
pub open spec fn position_of(slices: Seq<Slice>, id: usize, from: nat) -> Option<int>
    decreases slices.len() - from,
{
    if from >= slices.len() {
        None
    } else if slices[from as int].id == id {
        Some(from as int)
    } else {
        position_of(slices, id, from + 1)
    }
}

/// The wedges sharing a ring, in the order they were placed around it.
pub open spec fn ring_of(slices: Seq<Slice>, depth: int) -> Seq<Slice> {
    slices.filter(|slice: Slice| slice.depth == depth)
}

/// The first of a run of wedges too small to see that ends at `at`.
pub open spec fn run_start(ring: Seq<Slice>, at: int, radius: double::Dyadic) -> int
    decreases at,
{
    if 0 < at && !stands_out(ring[at - 1], radius) {
        run_start(ring, at - 1, radius)
    } else {
        at
    }
}

/// The last of a run of wedges too small to see that starts at `at`.
pub open spec fn run_end(ring: Seq<Slice>, at: int, radius: double::Dyadic) -> int
    decreases ring.len() - at,
{
    if at + 1 < ring.len() && !stands_out(ring[at + 1], radius) {
        run_end(ring, at + 1, radius)
    } else {
        at
    }
}

/// Where the highlight goes: one slice of one ring.
#[derive(Debug)]
pub struct Highlight {
    pub depth: usize,
    pub middle: Double,
    pub half_span: Double,
    pub color: Rgb,
    /// Whether the band stands for more than the selected wedge alone.
    pub is_a_run: bool,
}

/// A highlighted slice of a ring.
pub struct Band {
    pub depth: int,
    pub middle: double::Dyadic,
    pub half_span: double::Dyadic,
    pub color: Rgb,
    pub is_a_run: bool,
}

impl View for Highlight {
    type V = Band;

    open spec fn view(&self) -> Band {
        Band {
            depth: self.depth as int,
            middle: self.middle@,
            half_span: self.half_span@,
            color: self.color,
            is_a_run: self.is_a_run,
        }
    }
}

/// The band from one wedge of a ring to another, at least as wide as a highlight has to be.
pub open spec fn band(
    ring: Seq<Slice>,
    first: int,
    last: int,
    radius: double::Dyadic,
    selected: Slice,
) -> Band {
    let span = double::minus(ring[last].end, ring[first].start);
    let floor = double::quotient(
        double::of_int(MIN_HIGHLIGHT_PIXELS as nat),
        double::product(tau(), radius),
    );
    Band {
        depth: selected.depth,
        middle: double::half(double::sum(ring[first].start, ring[last].end)),
        half_span: double::half(
            if span.0 {
                floor
            } else {
                double::at_least(span.1, floor)
            },
        ),
        color: palette::shaded(selected.color, selected_shade()),
        is_a_run: !stands_out(selected, radius),
    }
}

/// The band for the selected wedge.
///
/// A wedge wide enough to see gets exactly its own arc. One that is not, which in a large directory
/// is most of them, gets the whole contiguous run of siblings that are also too small, so the
/// highlight says "somewhere in here" instead of pointing a three-pixel finger at a random
/// neighbour.
pub open spec fn highlighted(slices: Seq<Slice>, disc: Disc, selected: Option<usize>) -> Option<
    Band,
> {
    match selected {
        None => None,
        Some(id) => match position_of(slices, id, 0) {
            None => None,
            Some(at) => {
                let slice = slices[at];
                let radius = middle_radius(disc, slice.depth);
                let ring = ring_of(slices, slice.depth);
                match position_of(ring, id, 0) {
                    None => None,
                    Some(at) => if stands_out(slice, radius) {
                        Some(band(ring, at, at, radius, slice))
                    } else {
                        Some(
                            band(
                                ring,
                                run_start(ring, at, radius),
                                run_end(ring, at, radius),
                                radius,
                                slice,
                            ),
                        )
                    },
                }
            },
        },
    }
}

/// Whether a point is inside a highlighted slice.
///
/// The slice runs outward: the selected wedge's arc *and* everything drawn beyond it in the same
/// arc, which is what it contains. Turns wrap at twelve o'clock, so the distance between two of
/// them is whichever way round the circle is shorter.
pub open spec fn in_band(band: Band, depth: int, turn: double::Dyadic) -> bool {
    let gap = double::minus(turn, band.middle).1;
    let other_way = double::minus(double::of_int(1), gap);
    &&& depth >= band.depth
    &&& !double::less(band.half_span, gap) || !double::signed_less(
        (false, band.half_span),
        other_way,
    )
}

/// What the rasteriser was able to say about the selection at the size it drew.
#[derive(Copy, Clone, Debug, PartialEq, Eq, Structural)]
pub struct Drawn {
    /// Set when the selected wedge is thinner than a pixel, so its highlight stands for the run of
    /// too-small wedges around it rather than for that one entry. Say so on screen: the chart
    /// cannot tell them apart, and pretending otherwise is what makes the cursor look broken.
    pub selection_is_a_run: bool,
}

impl Default for Drawn {
    fn default() -> (drawn: Drawn)
        ensures
            !drawn.selection_is_a_run,
    {
        Drawn { selection_is_a_run: false }
    }
}

impl Highlight {
    pub open spec fn valid(&self) -> bool {
        self.middle.within(150_000_000) && self.half_span.within(150_000_000)
    }

    fn resolve(segments: &Vec<Segment>, geometry: &Geometry, selected: Option<usize>) -> (out:
        Option<Highlight>)
        requires
            geometry.valid(),
            forall|i: int| 0 <= i < segments@.len() ==> (#[trigger] segments@[i]).valid(),
        ensures
            match out {
                Some(out) => out.valid() && highlighted(slices(segments@), geometry@, selected)
                    == Some(out@),
                None => highlighted(slices(segments@), geometry@, selected) is None,
            },
    {
        let ghost all = slices(segments@);
        let id: usize = match selected {
            Some(id) => id,
            None => {
                return None;
            },
        };
        let at: usize = match find(segments, id) {
            Some(at) => at,
            None => {
                return None;
            },
        };
        let chosen = &segments[at];
        let radius = geometry.radius_of_ring(chosen.depth);
        let ring = same_ring(segments, chosen.depth);
        let ghost around = picked(all, ring@);
        let mut at: usize = 0;
        assert(around.len() == ring@.len());
        while at < ring.len() && segments[ring[at]].id != id
            invariant
                all == slices(segments@),
                at <= ring@.len(),
                around == picked(all, ring@),
                forall|i: int|
                    0 <= i < ring@.len() ==> (#[trigger] ring@[i]) < segments@.len(),
                position_of(around, id, 0) == position_of(around, id, at as nat),
            decreases ring@.len() - at,
        {
            assert(around[at as int] == segments@[ring@[at as int] as int]@);
            at += 1;
        }
        if at >= ring.len() {
            return None;
        }
        assert(around[at as int] == segments@[ring@[at as int] as int]@);
        let seen = visible(chosen, &radius);
        let mut first: usize = at;
        let mut last: usize = at;
        if !seen {
            while first > 0 && !visible(&segments[ring[first - 1]], &radius)
                invariant
                    all == slices(segments@),
                    around == picked(all, ring@),
                    first <= at < ring@.len(),
                    radius.within(10_000),
                    forall|i: int|
                        0 <= i < ring@.len() ==> (#[trigger] ring@[i]) < segments@.len(),
                    forall|i: int| 0 <= i < segments@.len() ==> (#[trigger] segments@[i]).valid(),
                    run_start(around, at as int, radius@) == run_start(
                        around,
                        first as int,
                        radius@,
                    ),
                    first > 0 ==> around[first - 1] == segments@[ring@[first - 1] as int]@,
                decreases first,
            {
                first -= 1;
            }
            while ring.len() - last > 1 && !visible(&segments[ring[last + 1]], &radius)
                invariant
                    all == slices(segments@),
                    around == picked(all, ring@),
                    at <= last < ring@.len(),
                    radius.within(10_000),
                    forall|i: int|
                        0 <= i < ring@.len() ==> (#[trigger] ring@[i]) < segments@.len(),
                    forall|i: int| 0 <= i < segments@.len() ==> (#[trigger] segments@[i]).valid(),
                    run_end(around, at as int, radius@) == run_end(around, last as int, radius@),
                    last + 1 < ring@.len() ==> around[last + 1] == segments@[ring@[last + 1]
                        as int]@,
                decreases ring@.len() - last,
            {
                last += 1;
            }
        }
        let from = &segments[ring[first]];
        let to = &segments[ring[last]];
        assert(around[first as int] == from@);
        assert(around[last as int] == to@);
        let span = to.end.minus(&from.start, Ghost(angle_bound()));
        let floor = Double::from_u64(MIN_HIGHLIGHT_PIXELS).divided_by(
            &whole_turn().times(&radius, Ghost(10_000)),
            Ghost(72_000_000),
        );
        let wide = if span.negative {
            floor
        } else {
            span.size.raised(floor)
        };
        Some(
            Highlight {
                depth: chosen.depth,
                middle: from.start.plus(&to.end, Ghost(angle_bound())).halved(),
                half_span: wide.halved(),
                color: palette::shade(chosen.color, Factor::of(145, 100)),
                is_a_run: !seen,
            },
        )
    }

    fn covers(&self, depth: usize, turn: &Double) -> (yes: bool)
        requires
            self.valid(),
            turn.valid(),
        ensures
            yes == in_band(self@, depth as int, turn@),
    {
        let gap = turn.minus(&self.middle, Ghost(150_000_000)).size;
        let other_way = Double::from_u64(1).minus(&gap, Ghost(151_000_000));
        let half = SignedDouble { negative: false, size: self.half_span };
        depth >= self.depth && (!self.half_span.is_less(&gap) || !half.is_less(&other_way))
    }
}

/// The wedges that some indices stand for.
spec fn picked(slices: Seq<Slice>, indices: Seq<usize>) -> Seq<Slice> {
    indices.map_values(|i: usize| slices[i as int])
}

fn visible(segment: &Segment, radius: &Double) -> (yes: bool)
    requires
        segment.valid(),
        radius.within(10_000),
    ensures
        yes == stands_out(segment@, radius@),
{
    let length = segment.span().times(&whole_turn(), Ghost(72_000_000)).times(radius, Ghost(145_000_000));
    !length.is_less(&Double::from_u64(MIN_HIGHLIGHT_PIXELS))
}

fn find(segments: &Vec<Segment>, id: usize) -> (at: Option<usize>)
    ensures
        match at {
            Some(at) => at < segments@.len() && position_of(slices(segments@), id, 0) == Some(
                at as int,
            ),
            None => position_of(slices(segments@), id, 0) is None,
        },
{
    let mut at: usize = 0;
    while at < segments.len() && segments[at].id != id
        invariant
            at <= segments@.len(),
            position_of(slices(segments@), id, 0) == position_of(
                slices(segments@),
                id,
                at as nat,
            ),
        decreases segments@.len() - at,
    {
        at += 1;
    }
    if at < segments.len() {
        Some(at)
    } else {
        None
    }
}

fn same_ring(segments: &Vec<Segment>, depth: usize) -> (ring: Vec<usize>)
    ensures
        picked(slices(segments@), ring@) == ring_of(slices(segments@), depth as int),
        forall|i: int| 0 <= i < ring@.len() ==> (#[trigger] ring@[i]) < segments@.len(),
{
    let ghost all = slices(segments@);
    let ghost wanted = |slice: Slice| slice.depth == depth as int;
    let mut ring: Vec<usize> = Vec::new();
    let mut at: usize = 0;
    proof {
        reveal(Seq::filter);
        assert(all.take(0).filter(wanted) =~= Seq::empty());
        assert(picked(all, ring@) =~= Seq::empty());
    }
    while at < segments.len()
        invariant
            at <= segments@.len(),
            all == slices(segments@),
            wanted == |slice: Slice| slice.depth == depth as int,
            picked(all, ring@) == all.take(at as int).filter(wanted),
            forall|i: int| 0 <= i < ring@.len() ==> (#[trigger] ring@[i]) < segments@.len(),
        decreases segments@.len() - at,
    {
        let ghost upto = all.take(at as int + 1);
        let ghost list = ring@;
        proof {
            assert(upto.drop_last() =~= all.take(at as int));
            assert(upto.last() == segments@[at as int]@);
            reveal(Seq::filter);
        }
        if segments[at].depth == depth {
            ring.push(at);
            assert(picked(all, ring@) =~= picked(all, list).push(all[at as int]));
        }
        at += 1;
    }
    assert(all.take(at as int) =~= all);
    ring
}

/// What a point of the disc is painted.
pub open spec fn painted(
    slices: Seq<Slice>,
    disc: Disc,
    band: Option<Band>,
    style: Style,
    radius: double::Dyadic,
    turn: double::Dyadic,
) -> Option<Rgb> {
    let into_disc = double::difference(radius, disc.inner);
    let steps = double::whole(double::quotient(into_disc, disc.ring_thickness));
    let depth = steps + 1;
    if double::less(radius, disc.inner) || double::less(disc.outer, radius) || depth
        > style.rings {
        None
    } else if double::signed_less(
        double::minus(disc.ring_thickness, style.ring_gap),
        double::minus(into_disc, double::product(double::of_int(steps), disc.ring_thickness)),
    ) {
        // The outer sliver of each ring stays blank so rings read as separate bands instead of one
        // gradient.
        None
    } else {
        let inside = band is Some && in_band(band->0, depth as int, turn);
        if inside && depth == band->0.depth {
            // Straight over the dividers: a highlight widened to three pixels has nothing to spare
            // for a gap either side of it.
            Some(band->0.color)
        } else {
            match under(slices, depth as int, turn, 0) {
                None => None,
                Some(at) => if on_divider(slices[at], style, radius, turn) {
                    None
                } else {
                    Some(shade_of(slices[at], inside, style.selected))
                },
            }
        }
    }
}

/// The first wedge of a ring that an angle lies on.
pub open spec fn under(slices: Seq<Slice>, depth: int, turn: double::Dyadic, from: nat) -> Option<
    int,
>
    decreases slices.len() - from,
{
    if from >= slices.len() {
        None
    } else if slices[from as int].depth == depth && covers_turn(slices[from as int], turn) {
        Some(from as int)
    } else {
        under(slices, depth, turn, from + 1)
    }
}

/// Whether a point lies on the gap between two wedges. A fixed pixel gap is a shrinking angle as
/// the radius grows, so the divider stays one pixel wide on every ring.
pub open spec fn on_divider(
    slice: Slice,
    style: Style,
    radius: double::Dyadic,
    turn: double::Dyadic,
) -> bool {
    if radius.0 == 0 {
        style.segment_gap.0 > 0
    } else {
        let padding = double::quotient(style.segment_gap, double::product(tau(), radius));
        double::less(double::difference(turn, slice.start), padding) || double::less(
            double::difference(slice.end, turn),
            padding,
        )
    }
}

/// Deeper rings are already lighter shades of their parent, so brightening them again would wash
/// them into each other. Inside the slice they keep their true colour, and the contrast comes from
/// everything else stepping back.
pub open spec fn shade_of(slice: Slice, inside_the_slice: bool, selected: Option<usize>) -> Rgb {
    match selected {
        None => slice.color,
        Some(id) => if id == slice.id {
            palette::shaded(slice.color, selected_shade())
        } else if inside_the_slice {
            slice.color
        } else {
            palette::shaded(slice.color, dimmed_shade())
        },
    }
}

pub fn shade_for(segment: &Segment, inside_the_slice: bool, options: &RenderOptions) -> (color: Rgb)
    ensures
        color == shade_of(segment@, inside_the_slice, options.selected),
{
    match options.selected {
        None => segment.color,
        Some(id) => if id == segment.id {
            palette::shade(segment.color, Factor::of(145, 100))
        } else if inside_the_slice {
            segment.color
        } else {
            palette::shade(segment.color, Factor::of(55, 100))
        },
    }
}

/// Where a point is, seen from the middle of the disc: how far out, and at what angle in turns,
/// clockwise from twelve o'clock.
#[derive(Copy, Clone, Debug, PartialEq, Eq, Structural)]
pub struct Bearing {
    pub radius: Double,
    pub turn: Double,
}

impl Bearing {
    pub open spec fn valid(&self) -> bool {
        self.radius.valid() && self.turn.valid()
    }
}

fn paint(
    segments: &Vec<Segment>,
    geometry: &Geometry,
    highlight: &Option<Highlight>,
    options: &RenderOptions,
    point: Bearing,
) -> (color: Option<Rgb>)
    requires
        geometry.valid(),
        geometry.ring_thickness.mantissa > 0,
        options.valid(),
        point.valid(),
        forall|i: int| 0 <= i < segments@.len() ==> (#[trigger] segments@[i]).valid(),
        highlight matches Some(highlight) ==> highlight.valid(),
    ensures
        color == painted(
            slices(segments@),
            geometry@,
            match highlight {
                Some(highlight) => Some(highlight@),
                None => None,
            },
            options@,
            point.radius@,
            point.turn@,
        ),
{
    let radius = point.radius;
    if radius.is_less(&geometry.inner) || geometry.outer.is_less(&radius) {
        return None;
    }
    let into_disc = radius.minus(&geometry.inner, Ghost(3000)).size;
    let steps: u64 = into_disc.divided_by(&geometry.ring_thickness, Ghost(4000)).to_u64();
    if steps >= options.rings as u64 {
        return None;
    }
    let depth: usize = steps as usize + 1;
    let inner_edge = Double::from_u64(steps).times(&geometry.ring_thickness, Ghost(4000));
    let into_ring = into_disc.minus(&inner_edge, Ghost(9000));
    let kept = geometry.ring_thickness.minus(&options.ring_gap, Ghost(4000));
    if kept.is_less(&into_ring) {
        return None;
    }
    let inside = match highlight {
        Some(highlight) => highlight.covers(depth, &point.turn),
        None => false,
    };
    if let Some(highlight) = highlight {
        if inside && depth == highlight.depth {
            return Some(highlight.color);
        }
    }
    let ghost all = slices(segments@);
    let mut at: usize = 0;
    while at < segments.len() && !(segments[at].depth == depth && segments[at].contains(point.turn))
        invariant
            at <= segments@.len(),
            all == slices(segments@),
            under(all, depth as int, point.turn@, 0) == under(
                all,
                depth as int,
                point.turn@,
                at as nat,
            ),
        decreases segments@.len() - at,
    {
        at += 1;
    }
    if at >= segments.len() {
        return None;
    }
    let segment = &segments[at];
    if divides(segment, options, &radius, &point.turn) {
        return None;
    }
    Some(shade_for(segment, inside, options))
}

fn divides(segment: &Segment, options: &RenderOptions, radius: &Double, turn: &Double) -> (yes: bool)
    requires
        segment.valid(),
        options.valid(),
        radius.valid(),
        turn.valid(),
        covers_turn(segment@, turn@),
    ensures
        yes == on_divider(segment@, options@, radius@, turn@),
{
    if radius.mantissa == 0 {
        return options.segment_gap.mantissa > 0;
    }
    let padding = options.segment_gap.divided_by(
        &whole_turn().times(radius, Ghost(2000)),
        Ghost(5000),
    );
    let from_start = turn.minus(&segment.start, Ghost(angle_bound())).size;
    let to_end = segment.end.minus(turn, Ghost(angle_bound())).size;
    proof {
        less_is_one_way(turn@, segment.end@);
    }
    from_start.is_less(&padding) || to_end.is_less(&padding)
}

proof fn less_is_one_way(a: double::Dyadic, b: double::Dyadic)
    requires
        double::less(a, b),
    ensures
        !double::less(b, a),
{
}

/// What a canvas shows where the disc is drawn over it.
pub open spec fn rendered(
    slices: Seq<Slice>,
    disc: Option<Disc>,
    style: Style,
    point: Bearing,
) -> Option<Rgb> {
    match disc {
        Some(disc) => if disc.ring_thickness.0 > 0 {
            painted(
                slices,
                disc,
                highlighted(slices, disc, style.selected),
                style,
                point.radius@,
                point.turn@,
            )
        } else {
            None
        },
        None => None,
    }
}

/// What is to be said of the selection.
pub open spec fn drawn(slices: Seq<Slice>, disc: Option<Disc>, style: Style) -> Drawn {
    Drawn {
        selection_is_a_run: match disc {
            Some(disc) => disc.ring_thickness.0 > 0 && match highlighted(
                slices,
                disc,
                style.selected,
            ) {
                Some(band) => band.is_a_run,
                None => false,
            },
            None => false,
        },
    }
}

/// Paint `segments` into `canvas`, whose pixels lie where `points` says, row by row. Pixels outside
/// the disc are left alone, so a caller can compose the sunburst over something else.
pub fn render(
    segments: &Vec<Segment>,
    canvas: &mut Canvas,
    options: &RenderOptions,
    points: &Vec<Bearing>,
) -> (said: Drawn)
    requires
        old(canvas).valid(),
        options.valid(),
        forall|i: int| 0 <= i < segments@.len() ==> (#[trigger] segments@[i]).valid(),
        points@.len() == old(canvas).width * old(canvas).height,
        forall|i: int| 0 <= i < points@.len() ==> (#[trigger] points@[i]).valid(),
    ensures
        final(canvas).valid(),
        final(canvas).width == old(canvas).width,
        final(canvas).height == old(canvas).height,
        said == drawn(
            slices(segments@),
            disc(old(canvas).width as nat, old(canvas).height as nat, options@),
            options@,
        ),
        forall|x: int, y: int|
            0 <= x < old(canvas).width && 0 <= y < old(canvas).height ==> #[trigger] final(canvas).pixel(
                x,
                y,
            ) == match rendered(
                slices(segments@),
                disc(old(canvas).width as nat, old(canvas).height as nat, options@),
                options@,
                points@[canvas::index_of(x, y, old(canvas).width as int)],
            ) {
                Some(color) => Some(color),
                None => old(canvas).pixel(x, y),
            },
{
    let width: usize = canvas.width();
    let height: usize = canvas.height();
    let geometry = match Geometry::new(width, height, options) {
        Some(geometry) => geometry,
        None => {
            return Drawn { selection_is_a_run: false };
        },
    };
    if geometry.ring_thickness.mantissa == 0 {
        return Drawn { selection_is_a_run: false };
    }
    let highlight = Highlight::resolve(segments, &geometry, options.selected);
    let said = match &highlight {
        Some(highlight) => highlight.is_a_run,
        None => false,
    };
    let ghost all = slices(segments@);
    let ghost band = highlighted(all, geometry@, options.selected);
    let ghost shape = disc(width as nat, height as nat, options@);
    let mut y: usize = 0;
    while y < height
        invariant
            y <= height,
            canvas.valid(),
            canvas.width == width,
            canvas.height == height,
            old(canvas).width == width,
            old(canvas).height == height,
            all == slices(segments@),
            shape == Some(geometry@),
            band == highlighted(all, geometry@, options.selected),
            match highlight {
                Some(highlight) => highlight.valid() && band == Some(highlight@),
                None => band is None,
            },
            geometry.valid(),
            geometry.ring_thickness.mantissa > 0,
            options.valid(),
            forall|i: int| 0 <= i < segments@.len() ==> (#[trigger] segments@[i]).valid(),
            points@.len() == width * height,
            forall|i: int| 0 <= i < points@.len() ==> (#[trigger] points@[i]).valid(),
            forall|i: int, j: int|
                0 <= i < width && 0 <= j < height ==> #[trigger] canvas.pixel(i, j) == match if j
                    < y {
                    rendered(all, shape, options@, points@[canvas::index_of(i, j, width as int)])
                } else {
                    None
                } {
                    Some(color) => Some(color),
                    None => old(canvas).pixel(i, j),
                },
        decreases height - y,
    {
        let mut x: usize = 0;
        while x < width
            invariant
                x <= width,
                y < height,
                canvas.valid(),
                canvas.width == width,
                canvas.height == height,
                old(canvas).width == width,
                old(canvas).height == height,
                all == slices(segments@),
                shape == Some(geometry@),
                band == highlighted(all, geometry@, options.selected),
                match highlight {
                    Some(highlight) => highlight.valid() && band == Some(highlight@),
                    None => band is None,
                },
                geometry.valid(),
                geometry.ring_thickness.mantissa > 0,
                options.valid(),
                forall|i: int| 0 <= i < segments@.len() ==> (#[trigger] segments@[i]).valid(),
                points@.len() == width * height,
                forall|i: int| 0 <= i < points@.len() ==> (#[trigger] points@[i]).valid(),
                forall|i: int, j: int|
                    0 <= i < width && 0 <= j < height ==> #[trigger] canvas.pixel(i, j) == match if j
                        < y || (j == y && i < x) {
                        rendered(
                            all,
                            shape,
                            options@,
                            points@[canvas::index_of(i, j, width as int)],
                        )
                    } else {
                        None
                    } {
                        Some(color) => Some(color),
                        None => old(canvas).pixel(i, j),
                    },
            decreases width - x,
        {
            let at: usize = canvas::locate(x, y, width, height, points.len());
            let color = paint(segments, &geometry, &highlight, options, points[at]);
            assert(color == rendered(
                all,
                shape,
                options@,
                points@[canvas::index_of(x as int, y as int, width as int)],
            ));
            if let Some(color) = color {
                canvas.set(x, y, color);
            }
            x += 1;
        }
        y += 1;
    }
    Drawn { selection_is_a_run: said }
}

/// The points along a wedge's outer edge, one per dot so that the curve has no gaps.
pub open spec fn arc_points(slice: Slice, outer: double::Dyadic, steps: nat, count: nat) -> Seq<
    (double::Dyadic, double::Dyadic),
> {
    let span = double::difference(slice.end, slice.start);
    Seq::new(
        count,
        |step: int|
            (
                outer,
                double::sum(
                    slice.start,
                    double::quotient(
                        double::product(span, double::of_int(step as nat)),
                        double::of_int(steps),
                    ),
                ),
            ),
    )
}

/// The points along the divider at a wedge's start.
pub open spec fn divider_points(
    slice: Slice,
    inner: double::Dyadic,
    outer: double::Dyadic,
    count: nat,
) -> Seq<(double::Dyadic, double::Dyadic)> {
    Seq::new(
        count,
        |step: int|
            (
                double::at_most(double::sum(inner, double::of_int(step as nat)), outer),
                slice.start,
            ),
    )
}

/// The outer edge of a ring.
pub open spec fn edge_of(disc: Disc, depth: int) -> double::Dyadic {
    double::sum(
        disc.inner,
        double::product(double::of_int(depth as nat), disc.ring_thickness),
    )
}

/// An amount as a machine counts it.
pub open spec fn counted(amount: nat) -> nat {
    if amount > usize::MAX {
        usize::MAX as nat
    } else {
        amount
    }
}

/// How many steps a wedge's outer edge takes, one at least.
pub open spec fn arc_steps(slice: Slice, outer: double::Dyadic) -> nat {
    let steps = counted(
        double::ceiling(arc_length(double::difference(slice.end, slice.start), outer)),
    );
    if steps == 0 {
        1
    } else {
        steps
    }
}

/// The dots that outline one wedge.
pub open spec fn wedge_points(slice: Slice, disc: Disc) -> Seq<(double::Dyadic, double::Dyadic)> {
    let outer = edge_of(disc, slice.depth);
    let inner = double::minus(outer, disc.ring_thickness).1;
    let steps = arc_steps(slice, outer);
    arc_points(slice, outer, steps, steps + 1) + divider_points(
        slice,
        inner,
        outer,
        counted(double::ceiling(disc.ring_thickness)) + 1,
    )
}

/// The dots that outline every wedge.
pub open spec fn outline_points(slices: Seq<Slice>, disc: Disc) -> Seq<
    (double::Dyadic, double::Dyadic),
>
    decreases slices.len(),
{
    if slices.len() == 0 {
        Seq::empty()
    } else {
        outline_points(slices.drop_last(), disc) + wedge_points(slices.last(), disc)
    }
}

/// Points, each as its distance and its angle.
pub open spec fn bearings(points: Seq<Bearing>) -> Seq<(double::Dyadic, double::Dyadic)> {
    points.map_values(|point: Bearing| (point.radius@, point.turn@))
}

fn to_count(value: &Double) -> (out: usize)
    requires
        double::is_double(value@),
    ensures
        out == counted(double::ceiling(value@)),
{
    let steps: u64 = value.ceil();
    if steps > usize::MAX as u64 {
        usize::MAX
    } else {
        steps as usize
    }
}

fn outline_wedge(segment: &Segment, geometry: &Geometry, points: &mut Vec<Bearing>)
    requires
        geometry.valid(),
        segment.valid(),
    ensures
        bearings(final(points)@) == bearings(old(points)@) + wedge_points(segment@, geometry@),
{
    let ghost before = bearings(points@);
    let outer = geometry.inner.plus(
        &Double::from_u64(segment.depth as u64).times(&geometry.ring_thickness, Ghost(4000)),
        Ghost(9000),
    );
    let inner = outer.minus(&geometry.ring_thickness, Ghost(10_000)).size;
    let span = segment.span();
    let length = span.times(&whole_turn(), Ghost(72_000_000)).times(&outer, Ghost(145_000_000));
    let mut steps: usize = to_count(&length);
    if steps == 0 {
        steps = 1;
    }
    let all = Double::from_u64(steps as u64);
    proof {
        double::nearest_is_normal(steps as nat, 1, double::DOUBLE as nat);
    }
    let ghost edge = arc_points(segment@, outer@, steps as nat, steps as nat + 1);
    let mut step: usize = 0;
    assert(before + edge.take(0) =~= before);
    while step <= steps
        invariant_except_break
            bearings(points@) == before + edge.take(step as int),
        invariant
            step <= steps + 1,
            all@ == double::of_int(steps as nat),
            all.within(121),
            all.mantissa > 0,
            segment.valid(),
            span@ == double::difference(segment.end@, segment.start@),
            span.within(72_000_000),
            edge == arc_points(segment@, outer@, steps as nat, steps as nat + 1),
            step == usize::MAX ==> steps == usize::MAX,
            steps < usize::MAX || step <= steps,
        ensures
            bearings(points@) == before + edge,
        decreases steps + 1 - step,
    {
        let turned = span.times(&Double::from_u64(step as u64), Ghost(72_000_000)).divided_by(
            &all,
            Ghost(145_000_000),
        );
        let point = Bearing { radius: outer, turn: segment.start.plus(&turned, Ghost(450_000_000)) };
        let ghost list = points@;
        points.push(point);
        proof {
            assert(bearings(points@) =~= bearings(list).push((point.radius@, point.turn@)));
            assert(edge[step as int] == (point.radius@, point.turn@));
            assert(edge.take(step as int + 1) =~= edge.take(step as int).push(edge[step as int]));
            assert(before + edge.take(step as int + 1) =~= (before + edge.take(step as int)).push(
                edge[step as int],
            ));
        }
        if step == steps {
            assert(edge.take(step as int + 1) =~= edge);
            break;
        }
        step += 1;
    }
    let ghost middle = bearings(points@);
    let thick: usize = to_count(&geometry.ring_thickness);
    let ghost divider = divider_points(segment@, inner@, outer@, thick as nat + 1);
    let mut step: usize = 0;
    assert(middle + divider.take(0) =~= middle);
    while step <= thick
        invariant_except_break
            bearings(points@) == middle + divider.take(step as int),
        invariant
            step <= thick + 1,
            inner.within(11_000),
            outer.within(10_000),
            divider == divider_points(segment@, inner@, outer@, thick as nat + 1),
            thick < usize::MAX || step <= thick,
        ensures
            bearings(points@) == middle + divider,
        decreases thick + 1 - step,
    {
        let radius = inner.plus(&Double::from_u64(step as u64), Ghost(11_000)).capped(outer);
        let point = Bearing { radius, turn: segment.start };
        let ghost list = points@;
        points.push(point);
        proof {
            assert(bearings(points@) =~= bearings(list).push((point.radius@, point.turn@)));
            assert(divider[step as int] == (point.radius@, point.turn@));
            assert(divider.take(step as int + 1) =~= divider.take(step as int).push(
                divider[step as int],
            ));
            assert(middle + divider.take(step as int + 1) =~= (middle + divider.take(
                step as int,
            )).push(divider[step as int]));
        }
        if step == thick {
            assert(divider.take(step as int + 1) =~= divider);
            break;
        }
        step += 1;
    }
    assert(bearings(points@) =~= before + wedge_points(segment@, geometry@));
}

/// The dots of the ring arcs and wedge dividers. The monochrome fallback for terminals without
/// truecolor, and a cleaner look on light backgrounds. Dots carry no colour, so there is no
/// highlight here, but the selection is just as unplaceable, and the caller says so the same way.
pub fn outline(
    segments: &Vec<Segment>,
    width: usize,
    height: usize,
    options: &RenderOptions,
) -> (out: (Vec<Bearing>, Drawn))
    requires
        options.valid(),
        forall|i: int| 0 <= i < segments@.len() ==> (#[trigger] segments@[i]).valid(),
    ensures
        out.1 == drawn(
            slices(segments@),
            disc(width as nat, height as nat, options@),
            options@,
        ),
        bearings(out.0@) == match disc(width as nat, height as nat, options@) {
            Some(disc) => if disc.ring_thickness.0 > 0 {
                outline_points(slices(segments@), disc)
            } else {
                Seq::empty()
            },
            None => Seq::empty(),
        },
{
    let mut points: Vec<Bearing> = Vec::new();
    assert(bearings(points@) =~= Seq::empty());
    let geometry = match Geometry::new(width, height, options) {
        Some(geometry) => geometry,
        None => {
            return (points, Drawn { selection_is_a_run: false });
        },
    };
    if geometry.ring_thickness.mantissa == 0 {
        return (points, Drawn { selection_is_a_run: false });
    }
    let ghost all = slices(segments@);
    let mut at: usize = 0;
    while at < segments.len()
        invariant
            at <= segments@.len(),
            all == slices(segments@),
            geometry.valid(),
            forall|i: int| 0 <= i < segments@.len() ==> (#[trigger] segments@[i]).valid(),
            bearings(points@) == outline_points(all.take(at as int), geometry@),
        decreases segments@.len() - at,
    {
        proof {
            let upto = all.take(at as int + 1);
            assert(upto.drop_last() =~= all.take(at as int));
            assert(upto.last() == segments@[at as int]@);
        }
        outline_wedge(&segments[at], &geometry, &mut points);
        at += 1;
    }
    assert(all.take(at as int) =~= all);
    let said = match Highlight::resolve(segments, &geometry, options.selected) {
        Some(highlight) => highlight.is_a_run,
        None => false,
    };
    (points, Drawn { selection_is_a_run: said })
}

fn outer_of(width: usize, height: usize) -> (outer: Double)
    ensures
        outer@ == outer_radius(width as nat, height as nat),
        outer.within(330),
        outer.mantissa > 0,
{
    let one = Double::from_u64(1);
    let center_x = Double::from_u64(width as u64).halved();
    let center_y = Double::from_u64(height as u64).halved();
    let room = center_x.capped(center_y).minus(&one, Ghost(200));
    proof {
        double::some_doubles();
    }
    if room.negative {
        one
    } else {
        room.size.raised(one)
    }
}

fn ring_count(options: &RenderOptions) -> (rings: Double)
    ensures
        rings@ == double::of_int(
            if options.rings == 0 {
                1
            } else {
                options.rings as nat
            },
        ),
        rings.within(121),
        rings.mantissa > 0,
{
    let count: u64 = if options.rings == 0 {
        1
    } else {
        options.rings as u64
    };
    proof {
        double::nearest_is_normal(count as nat, 1, double::DOUBLE as nat);
    }
    Double::from_u64(count)
}

fn inside_out(width: usize, height: usize, options: &RenderOptions, depth: usize) -> (radius:
    Option<Double>)
    requires
        options.valid(),
        depth >= 1,
        disc(width as nat, height as nat, options@) is None,
    ensures
        radius is Some <==> ring_middle(
            width as nat,
            height as nat,
            options@,
            depth as nat,
        ) is Some,
        radius matches Some(radius) ==> radius.within(20_000) && ring_middle(
            width as nat,
            height as nat,
            options@,
            depth as nat,
        ) == Some(radius@),
{
    let outer = outer_of(width, height);
    let inner = outer.times(&options.inner_radius, Ghost(2000));
    let thickness = inner.minus(&outer, Ghost(4121)).size.divided_by(
        &ring_count(options),
        Ghost(4300),
    );
    let half = Double::from_ratio(1, 2);
    proof {
        a_half_is_less_than_any_ring(depth as nat);
    }
    let steps = Double::from_u64(depth as u64).minus(&half, Ghost(121)).size;
    let way_in = steps.times(&thickness, Ghost(8800));
    if inner.is_less(&way_in) {
        None
    } else {
        Some(inner.minus(&way_in, Ghost(18_000)).size)
    }
}

/// Where a segment's label belongs: the middle of its arc. `None` when the wedge is too narrow for
/// text to fit.
pub fn label_anchor(
    segment: &Segment,
    width: usize,
    height: usize,
    options: &RenderOptions,
    label_width: usize,
) -> (spot: Option<Bearing>)
    requires
        options.valid(),
        segment.valid(),
    ensures
        match ring_middle(width as nat, height as nat, options@, segment.depth as nat) {
            None => spot is None,
            Some(radius) => {
                let room = arc_length(
                    double::difference(segment.end@, segment.start@),
                    radius,
                );
                match spot {
                    None => double::less(room, double::of_int(label_width as nat)),
                    Some(spot) => {
                        &&& !double::less(room, double::of_int(label_width as nat))
                        &&& spot.radius@ == radius
                        &&& spot.turn@ == double::half(
                            double::sum(segment.start@, segment.end@),
                        )
                    },
                }
            },
        },
{
    let radius = match Geometry::new(width, height, options) {
        Some(geometry) => geometry.radius_of_ring(segment.depth),
        None => match inside_out(width, height, options, segment.depth) {
            Some(radius) => radius,
            None => {
                return None;
            },
        },
    };
    let room = segment.span().times(&whole_turn(), Ghost(72_000_000)).times(&radius, Ghost(145_000_000));
    if room.is_less(&Double::from_u64(label_width as u64)) {
        return None;
    }
    Some(Bearing { radius, turn: segment.midpoint() })
}

/// Siblings tile their parent's arc: each wedge starts where the one before it ends, and the first
/// where the parent starts.
pub proof fn siblings_meet(
    nodes: Seq<Wedge>,
    index: int,
    start: double::Dyadic,
    span: double::Dyadic,
    size: u64,
    depth: nat,
    color: Option<Rgb>,
)
    requires
        0 <= index < nodes.len(),
    ensures
        own_slice(nodes, 0, start, span, size, depth, color).start == start,
        index + 1 < nodes.len() ==> own_slice(nodes, index, start, span, size, depth, color).end
            == own_slice(nodes, index + 1, start, span, size, depth, color).start,
{
}

/// Whether wedges lie between two rings.
pub open spec fn lie_between(slices: Seq<Slice>, low: int, high: int) -> bool {
    forall|i: int| 0 <= i < slices.len() ==> low <= (#[trigger] slices[i]).depth <= high
}

/// No wedge is placed on a ring beyond the limit, and none inside the first.
pub proof fn rings_are_limited(root: Wedge, limits: Limits)
    ensures
        lie_between(sunburst(root, limits), 1, limits.rings as int),
{
    placed_within(root.children, (0, 0), double::of_int(1), root.size, 1, None, limits);
}

proof fn placed_within(
    nodes: Seq<Wedge>,
    start: double::Dyadic,
    span: double::Dyadic,
    size: u64,
    depth: nat,
    color: Option<Rgb>,
    limits: Limits,
)
    ensures
        lie_between(
            placed(nodes, start, span, size, depth, color, limits),
            depth as int,
            limits.rings as int,
        ),
    decreases limits.rings + 1 - depth, 1nat, 0nat,
{
    if depth > limits.rings || size == 0 || span.0 == 0 {
    } else {
        arranged_within(nodes, nodes.len(), start, span, size, depth, color, limits);
    }
}

proof fn arranged_within(
    nodes: Seq<Wedge>,
    count: nat,
    start: double::Dyadic,
    span: double::Dyadic,
    size: u64,
    depth: nat,
    color: Option<Rgb>,
    limits: Limits,
)
    ensures
        lie_between(
            arranged(nodes, count, start, span, size, depth, color, limits),
            depth as int,
            limits.rings as int,
        ),
    decreases limits.rings + 1 - depth, 0nat, count,
{
    if count == 0 || depth > limits.rings {
    } else {
        let index = count - 1;
        arranged_within(nodes, index as nat, start, span, size, depth, color, limits);
        placed_within(
            nodes[index].children,
            cursor(nodes, index as nat, start, span, size),
            arc(nodes[index].size, size, span),
            nodes[index].size,
            depth + 1,
            Some(tint(nodes[index], index, color)),
            limits,
        );
    }
}

/// A pinned child of the root is placed however thin it is, on its own arc.
pub proof fn the_pinned_wedge_is_placed(root: Wedge, index: int, limits: Limits)
    requires
        0 <= index < root.children.len(),
        limits.pinned == Some(root.children[index].id),
        limits.rings > 0,
        root.size > 0,
    ensures
        sunburst(root, limits).contains(
            own_slice(root.children, index, (0, 0), double::of_int(1), root.size, 1, None),
        ),
{
    double::some_doubles();
    pinned_is_arranged(
        root.children,
        root.children.len(),
        index,
        (0, 0),
        double::of_int(1),
        root.size,
        1,
        None,
        limits,
    );
}

proof fn pinned_is_arranged(
    nodes: Seq<Wedge>,
    count: nat,
    index: int,
    start: double::Dyadic,
    span: double::Dyadic,
    size: u64,
    depth: nat,
    color: Option<Rgb>,
    limits: Limits,
)
    requires
        0 <= index < count <= nodes.len(),
        limits.pinned == Some(nodes[index].id),
        depth <= limits.rings,
    ensures
        arranged(nodes, count, start, span, size, depth, color, limits).contains(
            own_slice(nodes, index, start, span, size, depth, color),
        ),
    decreases count,
{
    let wanted = own_slice(nodes, index, start, span, size, depth, color);
    let last = count - 1;
    let before = arranged(nodes, last as nat, start, span, size, depth, color, limits);
    let all = arranged(nodes, count, start, span, size, depth, color, limits);
    if index == last {
        assert(all[before.len() as int] == wanted);
    } else {
        pinned_is_arranged(
            nodes,
            last as nat,
            index,
            start,
            span,
            size,
            depth,
            color,
            limits,
        );
        let at = choose|i: int| 0 <= i < before.len() && before[i] == wanted;
        assert(all[at] == wanted);
    }
}

/// A colour that a node brings along is the one its wedge is drawn in.
pub proof fn explicit_colours_win(node: Wedge, index: int, parent_color: Option<Rgb>)
    requires
        node.color is Some,
    ensures
        tint(node, index, parent_color) == node.color->0,
{
}

} // verus!
