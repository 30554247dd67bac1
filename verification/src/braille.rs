//! A monochrome 2×4-per-cell dot canvas.
//!
//! Braille packs four times the vertical resolution of half-blocks, so curves come out noticeably
//! smoother, at the cost of a single colour per cell. That trade is right for outlines, which is
//! where it is used: the radial view falls back to braille arcs when colour is off.

use vstd::prelude::*;
use crate::canvas;

verus! {

/// `char::from_u32`: the character of that code, where the code is one that a character has.
pub assume_specification[ char::from_u32 ](code: u32) -> (letter: Option<char>)
    ensures
        letter is Some <==> code < 0xD800 || 0xE000 <= code <= 0x10FFFF,
        letter matches Some(letter) ==> letter == code as char,
;

/// Which bit in the braille pattern each (column, row) dot sets. The bottom row is 0x40/0x80
/// because braille was 2×3 before the 8-dot extension.
pub open spec fn dot_bit(column: int, row: int) -> u8 {
    if column == 0 {
        if row == 0 {
            0x01
        } else if row == 1 {
            0x02
        } else if row == 2 {
            0x04
        } else {
            0x40
        }
    } else {
        if row == 0 {
            0x08
        } else if row == 1 {
            0x10
        } else if row == 2 {
            0x20
        } else {
            0x80
        }
    }
}

fn bit_of(column: usize, row: usize) -> (bit: u8)
    requires
        column < 2,
        row < 4,
    ensures
        bit == dot_bit(column as int, row as int),
{
    if column == 0 {
        match row {
            0 => 0x01,
            1 => 0x02,
            2 => 0x04,
            _ => 0x40,
        }
    } else {
        match row {
            0 => 0x08,
            1 => 0x10,
            2 => 0x20,
            _ => 0x80,
        }
    }
}

/// The character for a cell. Blank cells become spaces rather than the empty braille pattern, which
/// some fonts render at the wrong width.
pub open spec fn cell_char(bits: u8) -> char {
    if bits == 0 {
        ' '
    } else {
        (0x2800 + bits) as char
    }
}

#[derive(Debug)]
pub struct BrailleCanvas {
    pub width_cells: usize,
    pub height_cells: usize,
    pub cells: Vec<u8>,
}

proof fn bits_are_apart(bits: u8, one: u8, other: u8)
    requires
        one == 1 || one == 2 || one == 4 || one == 8 || one == 16 || one == 32 || one == 64 || one
            == 128,
        other == 1 || other == 2 || other == 4 || other == 8 || other == 16 || other == 32 || other
            == 64 || other == 128,
    ensures
        (bits | one) & other != 0 <==> (bits & other != 0 || one == other),
        0u8 & other == 0,
{
    assert((bits | one) & other != 0 <==> (bits & other != 0 || one == other)) by (bit_vector)
        requires
            one == 1 || one == 2 || one == 4 || one == 8 || one == 16 || one == 32 || one == 64
                || one == 128,
            other == 1 || other == 2 || other == 4 || other == 8 || other == 16 || other == 32
                || other == 64 || other == 128,
    ;
    assert(0u8 & other == 0) by (bit_vector);
}

impl BrailleCanvas {
    /// Whether there is a cell for every place, and every dot can be counted.
    pub open spec fn valid(&self) -> bool {
        &&& self.cells@.len() == self.width_cells * self.height_cells
        &&& self.width_cells * 2 <= usize::MAX
        &&& self.height_cells * 4 <= usize::MAX
    }

    /// Whether a dot is set.
    pub open spec fn dot(&self, x: int, y: int) -> bool {
        &&& 0 <= x < self.width_cells * 2
        &&& 0 <= y < self.height_cells * 4
        &&& self.cells@[canvas::index_of(x / 2, y / 4, self.width_cells as int)] & dot_bit(
            x % 2,
            y % 4,
        ) != 0
    }

    /// Sized in terminal cells; the dot grid is twice as wide and four times as tall.
    pub fn new(width_cells: usize, height_cells: usize) -> (canvas: BrailleCanvas)
        requires
            width_cells * height_cells <= usize::MAX,
            width_cells * 2 <= usize::MAX,
            height_cells * 4 <= usize::MAX,
        ensures
            canvas.valid(),
            canvas.width_cells == width_cells,
            canvas.height_cells == height_cells,
            forall|x: int, y: int| !#[trigger] canvas.dot(x, y),
    {
        let cells = blank(width_cells * height_cells);
        let canvas = BrailleCanvas { width_cells, height_cells, cells };
        proof {
            blank_has_no_dots(canvas);
        }
        canvas
    }

    pub fn width(&self) -> (count: usize)
        requires
            self.valid(),
        ensures
            count == self.width_cells * 2,
    {
        self.width_cells * 2
    }

    pub fn height(&self) -> (count: usize)
        requires
            self.valid(),
        ensures
            count == self.height_cells * 4,
    {
        self.height_cells * 4
    }

    /// Set a dot. What lies outside the grid is ignored.
    pub fn set(&mut self, x: usize, y: usize)
        requires
            old(self).valid(),
        ensures
            final(self).valid(),
            final(self).width_cells == old(self).width_cells,
            final(self).height_cells == old(self).height_cells,
            forall|i: int, j: int| #[trigger]
                final(self).dot(i, j) == (old(self).dot(i, j) || (i == x && j == y && x < old(
                    self,
                ).width_cells * 2 && y < old(self).height_cells * 4)),
    {
        if x >= self.width() || y >= self.height() {
            return;
        }
        let ghost width = self.width_cells as int;
        let ghost height = self.height_cells as int;
        let at: usize = self.cell_of(x, y);
        let bit: u8 = bit_of(x % 2, y % 4);
        let ghost before = *self;
        let cell: u8 = self.cells[at] | bit;
        self.cells.set(at, cell);
        assert forall|i: int, j: int| #[trigger] self.dot(i, j) == (before.dot(i, j) || (i == x && j
            == y)) by {
            if 0 <= i < width * 2 && 0 <= j < height * 4 {
                canvas::index_in_grid(i / 2, j / 4, width, height);
                bits_are_apart(before.cells@[at as int], bit, dot_bit(i % 2, j % 4));
                if canvas::index_of(i / 2, j / 4, width) == at {
                    canvas::index_is_unique(i / 2, j / 4, x as int / 2, y as int / 4, width);
                }
            }
        }
    }

    pub fn is_set(&self, x: usize, y: usize) -> (yes: bool)
        requires
            self.valid(),
        ensures
            yes == self.dot(x as int, y as int),
    {
        if x >= self.width() || y >= self.height() {
            return false;
        }
        self.cells[self.cell_of(x, y)] & bit_of(x % 2, y % 4) != 0
    }

    fn cell_of(&self, x: usize, y: usize) -> (at: usize)
        requires
            self.valid(),
            x < self.width_cells * 2,
            y < self.height_cells * 4,
        ensures
            at == canvas::index_of(x as int / 2, y as int / 4, self.width_cells as int),
            at < self.cells@.len(),
    {
        canvas::locate(x / 2, y / 4, self.width_cells, self.height_cells, self.cells.len())
    }

    pub fn clear(&mut self)
        requires
            old(self).valid(),
        ensures
            final(self).valid(),
            final(self).width_cells == old(self).width_cells,
            final(self).height_cells == old(self).height_cells,
            forall|x: int, y: int| !#[trigger] final(self).dot(x, y),
    {
        self.cells = blank(self.cells.len());
        proof {
            blank_has_no_dots(*self);
        }
    }

    /// One string per cell row.
    pub fn lines(&self) -> (rows: Vec<String>)
        requires
            self.valid(),
            self.width_cells > 0,
        ensures
            rows@.len() == self.height_cells,
            forall|row: int|
                0 <= row < self.height_cells ==> (#[trigger] rows@[row])@ == Seq::new(
                    self.width_cells as nat,
                    |x: int|
                        cell_char(
                            self.cells@[canvas::index_of(x, row, self.width_cells as int)],
                        ),
                ),
    {
        let mut rows: Vec<String> = Vec::new();
        let mut row: usize = 0;
        while row < self.height_cells
            invariant
                self.valid(),
                row <= self.height_cells,
                rows@.len() == row,
                forall|r: int|
                    0 <= r < row ==> (#[trigger] rows@[r])@ == Seq::new(
                        self.width_cells as nat,
                        |x: int|
                            cell_char(
                                self.cells@[canvas::index_of(x, r, self.width_cells as int)],
                            ),
                    ),
            decreases self.height_cells - row,
        {
            let mut text = String::new();
            let mut x: usize = 0;
            while x < self.width_cells
                invariant
                    self.valid(),
                    row < self.height_cells,
                    x <= self.width_cells,
                    text@.len() == x,
                    forall|i: int|
                        0 <= i < x ==> #[trigger] text@[i] == cell_char(
                            self.cells@[canvas::index_of(i, row as int, self.width_cells as int)],
                        ),
                decreases self.width_cells - x,
            {
                let at: usize = canvas::locate(
                    x,
                    row,
                    self.width_cells,
                    self.height_cells,
                    self.cells.len(),
                );
                let bits: u8 = self.cells[at];
                let letter: char = if bits == 0 {
                    ' '
                } else {
                    match char::from_u32(0x2800 + bits as u32) {
                        Some(letter) => letter,
                        None => ' ',
                    }
                };
                text.push(letter);
                x += 1;
            }
            assert(text@ =~= Seq::new(
                self.width_cells as nat,
                |x: int|
                    cell_char(
                        self.cells@[canvas::index_of(x, row as int, self.width_cells as int)],
                    ),
            ));
            rows.push(text);
            row += 1;
        }
        rows
    }
}

fn blank(count: usize) -> (cells: Vec<u8>)
    ensures
        cells@.len() == count,
        forall|i: int| 0 <= i < count ==> #[trigger] cells@[i] == 0,
{
    let mut cells: Vec<u8> = Vec::with_capacity(count);
    while cells.len() < count
        invariant
            cells@.len() <= count,
            forall|i: int| 0 <= i < cells@.len() ==> #[trigger] cells@[i] == 0,
        decreases count - cells.len(),
    {
        cells.push(0);
    }
    cells
}

proof fn blank_has_no_dots(canvas: BrailleCanvas)
    requires
        canvas.valid(),
        forall|i: int| 0 <= i < canvas.cells@.len() ==> #[trigger] canvas.cells@[i] == 0,
    ensures
        forall|x: int, y: int| !#[trigger] canvas.dot(x, y),
{
    assert forall|x: int, y: int| !#[trigger] canvas.dot(x, y) by {
        if 0 <= x < canvas.width_cells * 2 && 0 <= y < canvas.height_cells * 4 {
            canvas::index_in_grid(
                x / 2,
                y / 4,
                canvas.width_cells as int,
                canvas.height_cells as int,
            );
            bits_are_apart(0, 1, dot_bit(x % 2, y % 4));
        }
    }
}

} // verus!
