use std::f64::consts::TAU;

use disko::braille::BrailleCanvas;
use disko::canvas::Canvas;
use disko::double::Double;
use disko::palette::{self, Factor, Rgb};
use disko::radial::{
    label_anchor, layout, outline, render, shade_for, Bearing, Drawn, LayoutOptions, RadialNode,
    RenderOptions, Segment,
};

/// A double as the library holds one: 53 bits and a power of two.
fn double(value: f64) -> Double {
    if value == 0.0 {
        return Double::zero();
    }
    let bits = value.to_bits();
    Double {
        mantissa: (bits & ((1 << 52) - 1)) | (1 << 52),
        exponent: ((bits >> 52) & 0x7ff) as i32 - 1075,
    }
}

fn value(double: Double) -> f64 {
    double.mantissa as f64 * 2f64.powi(double.exponent)
}

/// Angle of a pixel as a turn, with zero at twelve o'clock.
fn turn_of(dx: f64, dy: f64) -> f64 {
    (dx.atan2(-dy).rem_euclid(TAU)) / TAU
}

/// Where every pixel of a canvas is, seen from the middle.
fn bearings(width: usize, height: usize) -> Vec<Bearing> {
    let mut out = Vec::new();
    for y in 0..height {
        for x in 0..width {
            let dx = x as f64 + 0.5 - width as f64 / 2.0;
            let dy = y as f64 + 0.5 - height as f64 / 2.0;
            out.push(Bearing {
                radius: double((dx * dx + dy * dy).sqrt()),
                turn: double(turn_of(dx, dy)),
            });
        }
    }
    out
}

fn draw(segments: &Vec<Segment>, canvas: &mut Canvas, options: &RenderOptions) -> Drawn {
    let points = bearings(canvas.width(), canvas.height());
    render(segments, canvas, options, &points)
}

fn selecting(id: usize) -> RenderOptions {
    let mut options = RenderOptions::default();
    options.selected = Some(id);
    options
}

fn pinning(id: usize) -> LayoutOptions {
    let mut options = LayoutOptions::default();
    options.pinned = Some(id);
    options
}

/// How much lighter the selected wedge is drawn, and how much darker the rest.
fn selected_shade() -> Factor {
    Factor::of(145, 100)
}

fn dimmed_shade() -> Factor {
    Factor::of(55, 100)
}


fn node(id: usize, size: u64, children: Vec<RadialNode>) -> RadialNode {
    RadialNode {
        id,
        label: format!("n{id}"),
        size,
        color: None,
        children,
    }
}

#[test]
fn top_level_wedges_tile_the_whole_circle() {
    let root = node(0, 100, vec![node(1, 60, vec![]), node(2, 40, vec![])]);
    let segments = layout(&root, &LayoutOptions::default());

    assert_eq!(segments.len(), 2);
    assert!((value(segments[0].start) - 0.0).abs() < 1e-9);
    assert!((value(segments[0].end) - 0.6).abs() < 1e-9);
    assert!((value(segments[1].start) - 0.6).abs() < 1e-9);
    assert!((value(segments[1].end) - 1.0).abs() < 1e-9);
}

#[test]
fn children_stay_inside_their_parents_wedge() {
    let root = node(0, 100, vec![node(1, 50, vec![node(2, 25, vec![])])]);
    let segments = layout(&root, &LayoutOptions::default());

    let parent = &segments[0];
    let child = segments.iter().find(|s| s.id == 2).unwrap();
    assert_eq!(child.depth, 2);
    assert!(value(child.start) >= value(parent.start) && value(child.end) <= value(parent.end) + 1e-9);
    // Half of a half is a quarter of the circle.
    assert!((value(child.span()) - 0.25).abs() < 1e-9);
}

#[test]
fn an_explicit_colour_overrides_the_palette() {
    let mut root = node(0, 100, vec![node(1, 100, vec![])]);
    let chosen = Rgb::new(1, 2, 3);
    root.children[0].color = Some(chosen);

    let segments = layout(&root, &LayoutOptions::default());
    assert_eq!(segments[0].color, chosen);
}

#[test]
fn rings_beyond_the_limit_are_not_placed() {
    let root = node(
        0,
        100,
        vec![node(1, 100, vec![node(2, 100, vec![node(3, 100, vec![])])])],
    );
    let mut two_rings = LayoutOptions::default();
    two_rings.rings = 2;
    let segments = layout(&root, &two_rings);

    assert_eq!(segments.len(), 2);
    assert!(segments.iter().all(|s| s.depth <= 2));
}

#[test]
fn slivers_are_dropped_but_still_shift_their_siblings() {
    let root = node(0, 10_000, vec![node(1, 9_999, vec![]), node(2, 1, vec![])]);
    let segments = layout(&root, &LayoutOptions::default());

    assert_eq!(segments.len(), 1);
    assert_eq!(segments[0].id, 1);
}

#[test]
fn a_pinned_sliver_is_placed_anyway() {
    let root = node(0, 10_000, vec![node(1, 9_999, vec![]), node(2, 1, vec![])]);
    let segments = layout(
        &root,
        &pinning(2),
    );

    assert_eq!(segments.len(), 2);
    assert_eq!(segments[1].id, 2);
}

/// The reported bug: selecting anything past the biggest few entries dimmed
/// the whole chart and lit nothing up, because the wedge it named was
/// thinner than a pixel.
#[test]
fn selecting_a_sliver_still_lights_pixels_up() {
    let root = node(0, 10_000, vec![node(1, 9_999, vec![]), node(2, 1, vec![])]);
    let segments = layout(
        &root,
        &pinning(2),
    );
    let mut canvas = Canvas::new(40, 20);
    draw(
        &segments,
        &mut canvas,
        &selecting(2),
    );

    let wanted = palette::shade(segments[1].color, selected_shade());
    let lit = (0..canvas.height())
        .flat_map(|y| (0..canvas.width()).map(move |x| (x, y)))
        .filter(|&(x, y)| canvas.get(x, y) == Some(wanted))
        .count();
    assert!(lit > 0, "the selected sliver should still be visible");
}

/// Entries under about a percent share one pixel of arc, so a highlight on
/// one of them can only honestly mean "somewhere in this run". The band
/// covers the run, and the caller is told so it can say as much.
#[test]
fn a_run_of_too_small_wedges_is_highlighted_together() {
    let tail: Vec<RadialNode> = (1..=6).map(|index| node(index, 20, vec![])).collect();
    let mut children = vec![node(100, 9_880, vec![])];
    children.extend(tail);
    let root = node(0, 10_000, children);
    let segments = layout(&root, &LayoutOptions::default());

    // Pixels painted in the selected wedge's own highlight colour.
    let painted = |selected: usize| {
        let mut canvas = Canvas::new(40, 20);
        let drawn = draw(
            &segments,
            &mut canvas,
            &selecting(selected),
        );
        let wanted = palette::shade(
            segments.iter().find(|s| s.id == selected).unwrap().color,
            selected_shade(),
        );
        let lit = (0..canvas.height())
            .flat_map(|y| (0..canvas.width()).map(move |x| (x, y)))
            .filter(|&(x, y)| canvas.get(x, y) == Some(wanted))
            .count();
        (drawn, lit)
    };

    let (big, _) = painted(100);
    assert!(
        !big.selection_is_a_run,
        "a wedge filling the circle is placeable on its own"
    );

    let (small, lit) = painted(3);
    assert!(small.selection_is_a_run, "a 0.2% wedge is not placeable");
    // One of these wedges is a fraction of a pixel of arc; what got painted
    // is the run of six around it.
    assert!(lit >= 3, "expected a visible band, painted {lit} pixels");
}

#[test]
fn an_empty_parent_places_nothing() {
    let root = node(0, 0, vec![node(1, 0, vec![])]);
    assert!(layout(&root, &LayoutOptions::default()).is_empty());
}

#[test]
fn twelve_oclock_is_zero_and_angles_run_clockwise() {
    assert!((turn_of(0.0, -1.0) - 0.0).abs() < 1e-9);
    assert!((turn_of(1.0, 0.0) - 0.25).abs() < 1e-9);
    assert!((turn_of(0.0, 1.0) - 0.5).abs() < 1e-9);
    assert!((turn_of(-1.0, 0.0) - 0.75).abs() < 1e-9);
}

#[test]
fn rendering_fills_the_ring_and_leaves_the_hole_empty() {
    let root = node(0, 100, vec![node(1, 100, vec![])]);
    let segments = layout(&root, &LayoutOptions::default());
    let mut canvas = Canvas::new(40, 20);
    draw(&segments, &mut canvas, &RenderOptions::default());

    let center = (canvas.width() / 2, canvas.height() / 2);
    assert!(
        canvas.get(center.0, center.1).is_none(),
        "the hole should stay empty"
    );

    let painted = (0..canvas.height())
        .flat_map(|y| (0..canvas.width()).map(move |x| (x, y)))
        .filter(|&(x, y)| canvas.get(x, y).is_some())
        .count();
    assert!(
        painted > 100,
        "expected a visible ring, painted {painted} pixels"
    );
}

#[test]
fn selection_dims_everything_else() {
    let root = node(0, 100, vec![node(1, 50, vec![]), node(2, 50, vec![])]);
    let segments = layout(&root, &LayoutOptions::default());
    let options = selecting(1);

    let selected = shade_for(&segments[0], true, &options);
    let other = shade_for(&segments[1], false, &options);
    assert_ne!(selected, segments[0].color);
    assert!(other.r < segments[1].color.r.max(1));

    // What a selected wedge contains is part of the same slice: dimming it
    // would leave the cursor lighting up one band out of three.
    let contained = Segment {
        id: 99,
        depth: 2,
        start: segments[0].start,
        end: segments[0].end,
        color: segments[0].color,
        label: segments[0].label.clone(),
        size: segments[0].size,
    };
    assert_eq!(shade_for(&contained, true, &options), contained.color);
    assert_ne!(shade_for(&contained, false, &options), contained.color);
}

/// What the legend's cursor picks out is a slice of the cheese, not one arc
/// of it: the wedge and everything drawn beyond it in the same arc.
#[test]
fn the_selected_slice_lights_up_all_the_way_out() {
    let root = node(
        0,
        100,
        vec![
            node(1, 50, vec![node(2, 50, vec![node(3, 50, vec![])])]),
            node(4, 50, vec![node(5, 50, vec![])]),
        ],
    );
    let segments = layout(&root, &LayoutOptions::default());
    let mut canvas = Canvas::new(60, 30);
    draw(
        &segments,
        &mut canvas,
        &selecting(1),
    );

    // Every ring inside the selected arc keeps a true colour; the arc next
    // to it is dimmed at every ring.
    for depth in 1..=3 {
        let segment = segments.iter().find(|s| s.depth == depth).unwrap();
        let lit = painted_with(&canvas, segment.color) > 0
            || painted_with(&canvas, palette::shade(segment.color, selected_shade())) > 0;
        assert!(lit, "ring {depth} of the selected slice stayed dark");
    }
    for id in [4, 5] {
        let segment = segments.iter().find(|s| s.id == id).unwrap();
        assert_eq!(
            painted_with(&canvas, segment.color),
            0,
            "wedge {id} is outside the slice and should be dimmed"
        );
        assert!(
            painted_with(&canvas, palette::shade(segment.color, dimmed_shade())) > 0,
            "wedge {id} should still be drawn, just dimmed"
        );
    }
}

fn painted_with(canvas: &Canvas, color: Rgb) -> usize {
    (0..canvas.height())
        .flat_map(|y| (0..canvas.width()).map(move |x| (x, y)))
        .filter(|&(x, y)| canvas.get(x, y) == Some(color))
        .count()
}

#[test]
fn narrow_wedges_get_no_label() {
    let canvas = Canvas::new(40, 20);
    let wedge = |end: f64| Segment {
        id: 1,
        depth: 1,
        start: double(0.0),
        end: double(end),
        color: Rgb::new(1, 2, 3),
        label: "wide".into(),
        size: 90,
    };
    let wide = wedge(0.9);
    let narrow = wedge(0.02);
    let options = RenderOptions::default();

    assert!(label_anchor(&wide, canvas.width(), canvas.height(), &options, 4).is_some());
    assert!(label_anchor(&narrow, canvas.width(), canvas.height(), &options, 4).is_none());
}

#[test]
fn outlines_draw_dots_without_panicking() {
    let root = node(
        0,
        100,
        vec![node(1, 70, vec![node(2, 30, vec![])]), node(3, 30, vec![])],
    );
    let segments = layout(&root, &LayoutOptions::default());
    let mut canvas = BrailleCanvas::new(40, 10);
    let (width, height) = (canvas.width(), canvas.height());
    let (points, _) = outline(&segments, width, height, &RenderOptions::default());
    for point in &points {
        let angle = value(point.turn) * TAU;
        let x = width as f64 / 2.0 + value(point.radius) * angle.sin();
        let y = height as f64 / 2.0 - value(point.radius) * angle.cos();
        if x >= 0.0 && y >= 0.0 {
            canvas.set(x as usize, y as usize);
        }
    }

    let dots = canvas
        .lines()
        .join("")
        .chars()
        .filter(|c| *c != ' ')
        .count();
    assert!(dots > 10, "expected outline dots, got {dots}");
}

#[test]
fn neighbours_meet_where_one_ends() {
    let root = node(
        0,
        7,
        vec![node(1, 3, vec![]), node(2, 2, vec![]), node(3, 2, vec![])],
    );
    let segments = layout(&root, &LayoutOptions::default());
    for pair in segments.windows(2) {
        assert_eq!(pair[0].end, pair[1].start);
        assert!(pair[0].contains(pair[0].start) && !pair[0].contains(pair[0].end));
    }
    assert_eq!(value(segments[0].midpoint()), (3.0 / 7.0) / 2.0);
}

#[test]
fn a_selected_sliver_is_a_run_and_a_half_is_not() {
    let root = node(0, 10_000, vec![node(1, 9_999, vec![]), node(2, 1, vec![])]);
    let segments = layout(&root, &pinning(2));
    let (_, said) = outline(&segments, 80, 40, &selecting(2));
    assert!(said.selection_is_a_run);
    let (_, said) = outline(&segments, 80, 40, &selecting(1));
    assert!(!said.selection_is_a_run);
}

#[test]
fn as_many_rings_as_are_asked_for_are_placed() {
    let mut deep = node(40, 1, vec![]);
    for id in (1..40).rev() {
        deep = node(id, 1, vec![deep]);
    }
    let root = node(0, 1, vec![deep]);
    let mut options = LayoutOptions::default();
    options.rings = 40;
    let segments = layout(&root, &options);
    assert_eq!(segments.len(), 40);
    assert_eq!(segments.last().unwrap().depth, 40);
    assert_eq!(value(segments.last().unwrap().span()), 1.0);

    options.rings = usize::MAX;
    assert_eq!(layout(&root, &options).len(), 40);
}

#[test]
fn a_hole_wider_than_the_disc_turns_the_rings_inside_out() {
    let wedge = |depth: usize| Segment {
        id: 1,
        depth,
        start: double(0.0),
        end: double(0.5),
        color: Rgb::new(1, 2, 3),
        label: "inner".into(),
        size: 50,
    };
    let mut options = RenderOptions::default();
    options.rings = 2;
    options.inner_radius = double(1.5);
    // Half of twenty less one is nine; the hole is 13.5, and each ring lies 2.25 further in.
    let spot = label_anchor(&wedge(1), 40, 20, &options, 4).unwrap();
    assert_eq!(value(spot.radius), 13.5 - 0.5 * 2.25);
    assert_eq!(value(spot.turn), 0.25);
    let spot = label_anchor(&wedge(2), 40, 20, &options, 4).unwrap();
    assert_eq!(value(spot.radius), 13.5 - 1.5 * 2.25);
    assert!(label_anchor(&wedge(9), 40, 20, &options, 4).is_none());
}
