//! A colour raster that fits inside terminal cells.
//!
//! Each cell holds two stacked pixels, drawn as `▀` with the top pixel as the foreground and the
//! bottom as the background. That doubles vertical resolution *and* keeps a colour per pixel.
//!
//! Terminal cells are about twice as tall as they are wide, so these half-height pixels come out
//! roughly square and circles look like circles.

use vstd::prelude::*;
use crate::palette::Rgb;

verus! {

/// One terminal cell: two vertically stacked pixels.
#[derive(Copy, Clone, Debug, PartialEq, Eq, Structural)]
pub struct HalfCell {
    pub top: Option<Rgb>,
    pub bottom: Option<Rgb>,
}

impl Default for HalfCell {
    fn default() -> (cell: HalfCell)
        ensures
            cell.top is None,
            cell.bottom is None,
    {
        HalfCell { top: None, bottom: None }
    }
}

impl HalfCell {
    pub fn is_empty(&self) -> (yes: bool)
        ensures
            yes == (self.top is None && self.bottom is None),
    {
        self.top.is_none() && self.bottom.is_none()
    }
}

#[derive(Debug)]
pub struct Canvas {
    pub width: usize,
    pub height: usize,
    pub pixels: Vec<Option<Rgb>>,
}

/// Which pixel of a row-major grid a place is.
pub open spec fn index_of(x: int, y: int, width: int) -> int {
    y * width + x
}

pub proof fn index_in_grid(x: int, y: int, width: int, height: int)
    requires
        0 <= x < width,
        0 <= y < height,
    ensures
        0 <= index_of(x, y, width) < width * height,
{
    assert(0 <= y * width + x < width * height) by (nonlinear_arith)
        requires
            0 <= x < width,
            0 <= y < height,
    ;
}

pub proof fn index_is_unique(x: int, y: int, other_x: int, other_y: int, width: int)
    requires
        0 <= x < width,
        0 <= other_x < width,
        index_of(x, y, width) == index_of(other_x, other_y, width),
    ensures
        x == other_x,
        y == other_y,
{
    assert(y == other_y) by (nonlinear_arith)
        requires
            0 <= x < width,
            0 <= other_x < width,
            y * width + x == other_y * width + other_x,
    ;
}

/// Which cell of a grid of `count` cells a place is.
pub(crate) fn locate(x: usize, y: usize, width: usize, height: usize, count: usize) -> (at: usize)
    requires
        x < width,
        y < height,
        count == width * height,
    ensures
        at == index_of(x as int, y as int, width as int),
        at < count,
{
    proof {
        index_in_grid(x as int, y as int, width as int, height as int);
        assert(0 <= y * width) by (nonlinear_arith);
    }
    y * width + x
}

impl Canvas {
    /// Whether there is a pixel for every place.
    pub open spec fn valid(&self) -> bool {
        self.pixels@.len() == self.width * self.height
    }

    /// The colour at a place, where there is one.
    pub open spec fn pixel(&self, x: int, y: int) -> Option<Rgb> {
        if 0 <= x < self.width && 0 <= y < self.height {
            self.pixels@[index_of(x, y, self.width as int)]
        } else {
            None
        }
    }

    /// Sized in terminal cells; the pixel grid is twice as tall.
    pub fn new(width_cells: usize, height_cells: usize) -> (canvas: Canvas)
        requires
            height_cells * 2 <= usize::MAX,
            width_cells * (height_cells * 2) <= usize::MAX,
        ensures
            canvas.valid(),
            canvas.width == width_cells,
            canvas.height == height_cells * 2,
            forall|x: int, y: int| #[trigger] canvas.pixel(x, y) is None,
    {
        let width: usize = width_cells;
        let height: usize = height_cells * 2;
        let count: usize = width * height;
        let canvas = Canvas { width, height, pixels: blank(count) };
        assert forall|x: int, y: int| #[trigger] canvas.pixel(x, y) is None by {
            if 0 <= x < canvas.width && 0 <= y < canvas.height {
                index_in_grid(x, y, width as int, height as int);
            }
        }
        canvas
    }

    /// Pixels across, which equals the cell width.
    pub fn width(&self) -> (count: usize)
        ensures
            count == self.width,
    {
        self.width
    }

    /// Pixels down, which is twice the cell height.
    pub fn height(&self) -> (count: usize)
        ensures
            count == self.height,
    {
        self.height
    }

    /// Colour a pixel. What lies outside the grid is ignored.
    pub fn set(&mut self, x: usize, y: usize, color: Rgb)
        requires
            old(self).valid(),
        ensures
            final(self).valid(),
            final(self).width == old(self).width,
            final(self).height == old(self).height,
            forall|i: int, j: int| #[trigger]
                final(self).pixel(i, j) == if i == x && j == y && x < old(self).width && y < old(
                    self,
                ).height {
                    Some(color)
                } else {
                    old(self).pixel(i, j)
                },
    {
        if x < self.width && y < self.height {
            let at: usize = locate(x, y, self.width, self.height, self.pixels.len());
            let ghost before = *self;
            self.pixels.set(at, Some(color));
            assert forall|i: int, j: int| #[trigger] self.pixel(i, j) == if i == x && j == y {
                Some(color)
            } else {
                before.pixel(i, j)
            } by {
                if 0 <= i < self.width && 0 <= j < self.height {
                    index_in_grid(i, j, self.width as int, self.height as int);
                    if index_of(i, j, self.width as int) == at {
                        index_is_unique(i, j, x as int, y as int, self.width as int);
                    }
                }
            }
        }
    }

    pub fn get(&self, x: usize, y: usize) -> (color: Option<Rgb>)
        requires
            self.valid(),
        ensures
            color == self.pixel(x as int, y as int),
    {
        if x < self.width && y < self.height {
            self.pixels[locate(x, y, self.width, self.height, self.pixels.len())]
        } else {
            None
        }
    }

    pub fn clear(&mut self)
        requires
            old(self).valid(),
        ensures
            final(self).valid(),
            final(self).width == old(self).width,
            final(self).height == old(self).height,
            forall|x: int, y: int| #[trigger] final(self).pixel(x, y) is None,
    {
        self.pixels = blank(self.pixels.len());
        assert forall|x: int, y: int| #[trigger] self.pixel(x, y) is None by {
            if 0 <= x < self.width && 0 <= y < self.height {
                index_in_grid(x, y, self.width as int, self.height as int);
            }
        }
    }

    /// One row of cells per two rows of pixels, ready to hand to a terminal.
    pub fn cell_rows(&self) -> (rows: Vec<Vec<HalfCell>>)
        requires
            self.valid(),
        ensures
            rows@.len() == self.height as int / 2,
            forall|row: int|
                0 <= row < rows@.len() ==> (#[trigger] rows@[row])@.len() == self.width && forall|
                    x: int,
                |
                    0 <= x < self.width ==> #[trigger] rows@[row]@[x] == (HalfCell {
                        top: self.pixel(x, row * 2),
                        bottom: self.pixel(x, row * 2 + 1),
                    }),
    {
        let mut rows: Vec<Vec<HalfCell>> = Vec::new();
        let count: usize = self.height / 2;
        let mut row: usize = 0;
        while row < count
            invariant
                self.valid(),
                row <= count,
                count == self.height as int / 2,
                rows@.len() == row,
                forall|r: int|
                    0 <= r < row ==> (#[trigger] rows@[r])@.len() == self.width && forall|x: int|
                        0 <= x < self.width ==> #[trigger] rows@[r]@[x] == (HalfCell {
                            top: self.pixel(x, r * 2),
                            bottom: self.pixel(x, r * 2 + 1),
                        }),
            decreases count - row,
        {
            let mut cells: Vec<HalfCell> = Vec::new();
            let mut x: usize = 0;
            while x < self.width
                invariant
                    self.valid(),
                    x <= self.width,
                    row < count,
                    count == self.height as int / 2,
                    cells@.len() == x,
                    forall|i: int|
                        0 <= i < x ==> #[trigger] cells@[i] == (HalfCell {
                            top: self.pixel(i, row * 2),
                            bottom: self.pixel(i, row * 2 + 1),
                        }),
                decreases self.width - x,
            {
                cells.push(
                    HalfCell { top: self.get(x, row * 2), bottom: self.get(x, row * 2 + 1) },
                );
                x += 1;
            }
            rows.push(cells);
            row += 1;
        }
        rows
    }
}

fn blank(count: usize) -> (pixels: Vec<Option<Rgb>>)
    ensures
        pixels@.len() == count,
        forall|i: int| 0 <= i < count ==> #[trigger] pixels@[i] is None,
{
    let mut pixels: Vec<Option<Rgb>> = Vec::with_capacity(count);
    while pixels.len() < count
        invariant
            pixels@.len() <= count,
            forall|i: int| 0 <= i < pixels@.len() ==> #[trigger] pixels@[i] is None,
        decreases count - pixels.len(),
    {
        pixels.push(None);
    }
    pixels
}

} // verus!
