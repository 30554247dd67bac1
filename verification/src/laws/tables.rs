//! How tables and narrow texts are laid out.

use vstd::prelude::*;
use crate::braille;
use crate::output;
use crate::output::Sheet;
use crate::strings;
use crate::text;

verus! {

proof fn widest_is_an_upper_bound(
    rows: Seq<Seq<Seq<char>>>,
    column: int,
    least: nat,
)
    requires
        0 <= column,
    ensures
        output::widest(rows, column, least) >= least,
        forall|i: int|
            0 <= i < rows.len() && column < (#[trigger] rows[i]).len() ==> rows[i][column].len()
                <= output::widest(rows, column, least),
        output::widest(rows, column, least) == least || exists|i: int|
            0 <= i < rows.len() && column < (#[trigger] rows[i]).len() && rows[i][column].len()
                == output::widest(rows, column, least),
    decreases rows.len(),
{
    if rows.len() > 0 {
        let front = rows.drop_last();
        widest_is_an_upper_bound(front, column, least);
        let rest = output::widest(front, column, least);
        assert forall|i: int|
            0 <= i < rows.len() && column < (#[trigger] rows[i]).len() implies rows[i][column].len()
            <= output::widest(rows, column, least) by {
            if i < front.len() {
                assert(front[i] == rows[i]);
            }
        }
        if column < rows.last().len() && rows.last()[column].len() > rest {
            assert(rows[rows.len() - 1][column].len() == output::widest(rows, column, least));
        } else if rest != least {
            let i = choose|i: int|
                0 <= i < front.len() && column < (#[trigger] front[i]).len()
                    && front[i][column].len() == rest;
            assert(rows[i][column].len() == output::widest(rows, column, least));
        }
    }
}

/// The cells of a column are all as wide as the widest of them or its heading, and no wider. Figures
/// hang on the right and words on the left.
pub proof fn columns_line_up(sheet: Sheet, row: int, column: int)
    requires
        0 <= column < sheet.columns.len(),
        0 <= row < sheet.rows.len(),
        column < sheet.rows[row].len(),
    ensures
        ({
            let cell = sheet.rows[row][column];
            let shown = output::cell_text(sheet, cell, column);
            let width = output::column_width(sheet, column);
            &&& shown.len() == width
            &&& sheet.columns[column].0.len() <= width
            &&& width == sheet.columns[column].0.len() || exists|i: int|
                0 <= i < sheet.rows.len() && column < (#[trigger] sheet.rows[i]).len()
                    && sheet.rows[i][column].len() == width
            &&& sheet.columns[column].1 is Left ==> shown.take(cell.len() as int) == cell
            &&& sheet.columns[column].1 is Right ==> shown.skip(shown.len() - cell.len()) == cell
        }),
{
    widest_is_an_upper_bound(sheet.rows, column, sheet.columns[column].0.len());
    let cell = sheet.rows[row][column];
    let shown = output::cell_text(sheet, cell, column);
    assert(cell.len() <= output::column_width(sheet, column));
    if sheet.columns[column].1 is Left {
        assert(shown.take(cell.len() as int) =~= cell);
    } else {
        assert(shown.skip(shown.len() - cell.len()) =~= cell);
    }
}

/// What fills up a cell is spaces alone, and nothing of a text is lost.
pub proof fn aligning_adds_spaces(given: Seq<char>, width: int, i: int)
    requires
        width >= given.len(),
    ensures
        strings::right_aligned(given, width).len() == width,
        strings::left_aligned(given, width).len() == width,
        0 <= i < width - given.len() ==> strings::right_aligned(given, width)[i] == ' ',
        given.len() <= i < width ==> strings::left_aligned(given, width)[i] == ' ',
        0 <= i < given.len() ==> strings::left_aligned(given, width)[i] == given[i],
        0 <= i < given.len() ==> strings::right_aligned(given, width)[width - given.len() + i]
            == given[i],
{
}

/// A line of details has its value from the fourteenth character on.
pub proof fn details_start_at_one_column(label: Seq<char>, value: Seq<char>)
    requires
        label.len() <= 12,
    ensures
        output::labelled(label, value).take(label.len() as int) == label,
        output::labelled(label, value).skip(13) == value + "\n"@,
{
    reveal_strlit(" ");
    let line = output::labelled(label, value);
    assert(line.take(label.len() as int) =~= label);
    assert(line.skip(13) =~= value + "\n"@);
}

/// A text that is cut keeps its start and ends in an ellipsis; one that fits is left alone.
pub proof fn cuts_are_marked(given: Seq<char>, max: nat)
    ensures
        text::cells(given) <= max ==> text::truncated(given, max) == given,
        text::cells(given) > max && max == 0 ==> text::truncated(given, max).len() == 0,
        text::cells(given) > max && max > 0 ==> ({
            let cut = text::truncated(given, max);
            &&& cut.len() > 0
            &&& cut.last() == '…'
            &&& cut.drop_last().is_prefix_of(given)
        }),
{
    if text::cells(given) > max && max > 0 {
        let count = if max == 1 {
            0
        } else {
            text::cut(given, text::fitting(given, 0, (max - 1) as nat), max)
        };
        fitting_stays_within(given, 0, (max - 1) as nat);
        cutting_only_takes_away(given, text::fitting(given, 0, (max - 1) as nat), max);
        let cut = text::truncated(given, max);
        assert(cut == text::marked(given, count));
        assert(cut.drop_last() =~= given.take(count as int));
    }
}

proof fn fitting_stays_within(given: Seq<char>, at: nat, room: nat)
    requires
        at <= given.len(),
    ensures
        at <= text::fitting(given, at, room) <= given.len(),
    decreases given.len() - at,
{
    if at < given.len() && text::cells(seq![given[at as int]]) <= room {
        fitting_stays_within(
            given,
            at + 1,
            (room - text::cells(seq![given[at as int]])) as nat,
        );
    }
}

proof fn cutting_only_takes_away(given: Seq<char>, count: nat, max: nat)
    ensures
        text::cut(given, count, max) <= count,
    decreases count,
{
    if count > 0 && text::cells(text::marked(given, count)) > max {
        cutting_only_takes_away(given, (count - 1) as nat, max);
    }
}

/// Filling up adds spaces at the end, as many as are missing.
pub proof fn filling_up_adds_spaces(given: Seq<char>, target: nat, i: int)
    ensures
        text::cells(given) >= target ==> text::padded(given, target) == given,
        text::cells(given) < target ==> text::padded(given, target).len() == given.len() + target
            - text::cells(given),
        0 <= i < given.len() ==> text::padded(given, target)[i] == given[i],
        given.len() <= i < text::padded(given, target).len() ==> text::padded(given, target)[i]
            == ' ',
        text::kept_end(target) <= target,
        3 * text::kept_end(target) <= 2 * target < 3 * text::kept_end(target) + 3,
{
}

/// Each of the eight dots of a cell has a bit of its own, numbered down the left side and then down
/// the right one, with the bottom row last; a cell without dots is a space.
pub proof fn dots_have_bits_of_their_own(row: int, bits: u8)
    ensures
        row == 0 ==> braille::dot_bit(0, row) == 1 && braille::dot_bit(1, row) == 8,
        row == 1 ==> braille::dot_bit(0, row) == 2 && braille::dot_bit(1, row) == 16,
        row == 2 ==> braille::dot_bit(0, row) == 4 && braille::dot_bit(1, row) == 32,
        row == 3 ==> braille::dot_bit(0, row) == 64 && braille::dot_bit(1, row) == 128,
        bits == 0 ==> braille::cell_char(bits) == ' ',
        bits > 0 ==> braille::cell_char(bits) as u32 == 0x2800 + bits,
{
}

} // verus!
