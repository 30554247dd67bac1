use disko::canvas::{Canvas, HalfCell};
use disko::palette::Rgb;
use disko::braille::BrailleCanvas;
use disko::explorer::{glyph, Glyph};

#[test]
fn a_canvas_is_twice_as_tall_in_pixels_as_in_cells() {
    let canvas = Canvas::new(10, 4);
    assert_eq!(canvas.width(), 10);
    assert_eq!(canvas.height(), 8);
    assert_eq!(canvas.cell_rows().len(), 4);
}

#[test]
fn pixels_pair_up_into_cells() {
    let mut canvas = Canvas::new(2, 1);
    let red = Rgb::new(255, 0, 0);
    let blue = Rgb::new(0, 0, 255);
    canvas.set(0, 0, red);
    canvas.set(0, 1, blue);

    let rows = canvas.cell_rows();
    assert_eq!(
        rows[0][0],
        HalfCell {
            top: Some(red),
            bottom: Some(blue)
        }
    );
    assert!(rows[0][1].is_empty());
}

#[test]
fn out_of_bounds_writes_are_ignored() {
    let mut canvas = Canvas::new(2, 1);
    canvas.set(99, 99, Rgb::new(1, 2, 3));
    assert!(canvas.cell_rows()[0].iter().all(HalfCell::is_empty));
}

#[test]
fn dot_resolution_is_two_by_four_per_cell() {
    let canvas = BrailleCanvas::new(3, 2);
    assert_eq!(canvas.width(), 6);
    assert_eq!(canvas.height(), 8);
    assert_eq!(canvas.lines().len(), 2);
}

#[test]
fn a_single_dot_renders_as_the_top_left_pattern() {
    let mut canvas = BrailleCanvas::new(1, 1);
    canvas.set(0, 0);
    assert_eq!(canvas.lines()[0], "⠁");
}

#[test]
fn all_eight_dots_render_as_a_full_cell() {
    let mut canvas = BrailleCanvas::new(1, 1);
    for x in 0..2 {
        for y in 0..4 {
            canvas.set(x, y);
        }
    }
    assert_eq!(canvas.lines()[0], "⣿");
}

#[test]
fn empty_cells_are_spaces() {
    let canvas = BrailleCanvas::new(2, 1);
    assert_eq!(canvas.lines()[0], "  ");
}

#[test]
fn out_of_bounds_dots_are_ignored() {
    let mut canvas = BrailleCanvas::new(1, 1);
    canvas.set(9, 9);
    assert!(!canvas.is_set(9, 9));
    assert_eq!(canvas.lines()[0], " ");
}

#[test]
fn clearing_leaves_nothing_behind() {
    let mut canvas = Canvas::new(2, 1);
    canvas.set(1, 1, Rgb::new(9, 9, 9));
    assert_eq!(canvas.get(1, 1), Some(Rgb::new(9, 9, 9)));
    canvas.clear();
    assert_eq!(canvas.get(1, 1), None);

    let mut dots = BrailleCanvas::new(1, 1);
    dots.set(1, 3);
    assert!(dots.is_set(1, 3));
    dots.clear();
    assert!(!dots.is_set(1, 3));
}

#[test]
fn two_pixels_make_one_glyph() {
    let red = Rgb::new(255, 0, 0);
    let blue = Rgb::new(0, 0, 255);
    let cell = |top, bottom| glyph(HalfCell { top, bottom });
    let drawn = |letter, front, back| Glyph {
        letter,
        front,
        back,
    };
    assert_eq!(cell(None, None), drawn(' ', None, None));
    assert_eq!(cell(Some(red), None), drawn('▀', Some(red), None));
    assert_eq!(cell(None, Some(blue)), drawn('▄', Some(blue), None));
    assert_eq!(cell(Some(red), Some(blue)), drawn('▀', Some(red), Some(blue)));
}
