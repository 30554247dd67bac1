//! Horizontal bars built from block characters.

use vstd::prelude::*;
use crate::double;
use crate::double::Double;
use crate::strings;

verus! {

/// The track that the empty part of a gauge shows.
pub const TRACK: char = '░';

/// One eighth through eight eighths of a cell.
pub open spec fn eighths(count: int) -> char {
    if count == 1 {
        '▏'
    } else if count == 2 {
        '▎'
    } else if count == 3 {
        '▍'
    } else if count == 4 {
        '▌'
    } else if count == 5 {
        '▋'
    } else if count == 6 {
        '▊'
    } else if count == 7 {
        '▉'
    } else {
        '█'
    }
}

fn block(count: usize) -> (out: char)
    ensures
        out == eighths(count as int),
{
    match count {
        1 => '▏',
        2 => '▎',
        3 => '▍',
        4 => '▌',
        5 => '▋',
        6 => '▊',
        7 => '▉',
        _ => '█',
    }
}

/// A share, never above the whole.
pub open spec fn clamped(fraction: double::Dyadic) -> double::Dyadic {
    double::at_most(fraction, double::of_int(1))
}

/// How many eighths of a cell a bar fills: at least one where there is anything at all, and no more
/// than the width holds.
pub open spec fn filled_eighths(fraction: double::Dyadic, width: nat) -> nat {
    let share = clamped(fraction);
    let exact = double::rounded(
        double::product(double::product(share, double::of_int(width)), double::of_int(8)),
    );
    if exact == 0 && share.0 > 0 {
        1
    } else if exact > width * 8 {
        width * 8
    } else {
        exact
    }
}

/// A bare bar, sub-cell accurate.
pub open spec fn bar_text(fraction: double::Dyadic, width: nat) -> Seq<char> {
    if width == 0 {
        Seq::empty()
    } else {
        let filled = filled_eighths(fraction, width) as int;
        let whole = strings::run('█', filled / 8);
        if filled % 8 > 0 {
            whole.push(eighths(filled % 8))
        } else {
            whole
        }
    }
}

/// How many cells a gauge fills: at least one where there is anything at all, and not all of them
/// before it is full. A disk at 99.6% should not draw as completely full.
pub open spec fn filled_cells(fraction: double::Dyadic, width: nat) -> int {
    let share = clamped(fraction);
    let exact = double::rounded(double::product(share, double::of_int(width))) as int;
    let some = if exact == 0 && share.0 > 0 {
        1
    } else if exact > width {
        width as int
    } else {
        exact
    };
    if some == width && double::less(share, double::of_int(1)) {
        width - 1
    } else {
        some
    }
}

/// A bar over a visible track.
pub open spec fn gauge_text(fraction: double::Dyadic, width: nat) -> Seq<char> {
    if width == 0 {
        Seq::empty()
    } else {
        let filled = filled_cells(fraction, width);
        strings::run('█', filled) + strings::run(TRACK, width - filled)
    }
}

/// A bare bar with no track, sub-cell accurate: a share of 0.187 of 32 cells fills just under six
/// of them and ends on a partial block.
///
/// Anything above zero renders at least a sliver: a row that has a size but no bar at all reads as
/// a bug.
pub fn bar(fraction: Double, width: usize) -> (out: String)
    requires
        fraction.valid(),
        width * 8 <= usize::MAX,
    ensures
        out@ == bar_text(fraction@, width as nat),
{
    let mut out = String::new();
    if width == 0 {
        assert(out@ =~= Seq::empty());
        return out;
    }
    let share = fraction.capped(Double::from_u64(1));
    let cells = share.times(&Double::from_u64(width as u64), Ghost(2000));
    let exact: u64 = cells.times(&Double::from_u64(8), Ghost(4121)).round();
    let limit: u64 = width as u64 * 8;
    let filled: u64 = if exact == 0 && share.mantissa > 0 {
        1
    } else if exact > limit {
        limit
    } else {
        exact
    };
    assert(filled == filled_eighths(fraction@, width as nat));
    strings::push_run(&mut out, '█', (filled / 8) as usize);
    assert(out@ =~= strings::run('█', (filled / 8) as int));
    let rest: usize = (filled % 8) as usize;
    if rest > 0 {
        out.push(block(rest));
    }
    out
}

/// A bar over a visible track, always exactly `width` cells wide. Used for the capacity header,
/// where the empty part is the point.
pub fn gauge(fraction: Double, width: usize) -> (out: String)
    requires
        fraction.valid(),
    ensures
        out@ == gauge_text(fraction@, width as nat),
{
    let mut out = String::new();
    if width == 0 {
        assert(out@ =~= Seq::empty());
        return out;
    }
    let one = Double::from_u64(1);
    let share = fraction.capped(one);
    let exact: u64 = share.times(&Double::from_u64(width as u64), Ghost(2000)).round();
    let some: usize = if exact == 0 && share.mantissa > 0 {
        1
    } else if exact > width as u64 {
        width
    } else {
        exact as usize
    };
    let filled: usize = if some == width && share.is_less(&one) {
        width - 1
    } else {
        some
    };
    assert(filled == filled_cells(fraction@, width as nat));
    strings::push_run(&mut out, '█', filled);
    strings::push_run(&mut out, TRACK, width - filled);
    assert(out@ =~= gauge_text(fraction@, width as nat));
    out
}

/// A bar never runs past its width, and is empty only for nothing.
pub proof fn bars_fit(fraction: double::Dyadic, width: nat)
    ensures
        bar_text(fraction, width).len() <= width,
        width > 0 && clamped(fraction).0 > 0 ==> bar_text(fraction, width).len() > 0,
{
}

/// A gauge is exactly as wide as it is asked to be, shows something wherever there is something,
/// unless one cell is all it has, and keeps an empty cell until it is full.
pub proof fn gauges_fill_their_width(fraction: double::Dyadic, width: nat)
    ensures
        gauge_text(fraction, width).len() == width,
        width > 1 && clamped(fraction).0 > 0 ==> gauge_text(fraction, width)[0] == '█',
        width > 0 && double::less(clamped(fraction), double::of_int(1)) ==> gauge_text(
            fraction,
            width,
        ).last() == TRACK,
{
}

} // verus!
