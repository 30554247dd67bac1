//! Width-aware text helpers. Column alignment has to count display cells, not chars, or a single
//! CJK filename knocks the whole table crooked.

use vstd::prelude::*;
use crate::strings;
use unicode_width::UnicodeWidthStr;

verus! {

/// How many cells of a terminal a text takes.
pub uninterp spec fn cells(text: Seq<char>) -> usize;

/// Whether a text is printable ASCII and ellipses alone.
pub open spec fn is_plain(text: Seq<char>) -> bool {
    forall|i: int| 0 <= i < text.len() ==> ' ' <= (#[trigger] text[i]) <= '~' || text[i] == '…'
}

/// `unicode_width::UnicodeWidthStr::width`: how many cells a text takes. The text is scanned from
/// its end, and a space leaves nothing behind that what comes before it depends on, so spaces at
/// the end add a cell each; so does every character of a text that is printable ASCII and ellipses
/// alone. No character adds more than three. What any other text takes is left to the Unicode
/// tables.
#[verifier::external_body]
pub fn width(text: &str) -> (count: usize)
    ensures
        count == cells(text@),
        is_plain(text@) ==> count == text@.len(),
        count <= 3 * text@.len(),
        forall|head: Seq<char>, blanks: int|
            0 <= blanks && text@ == head + #[trigger] strings::run(' ', blanks) ==> count
                == #[trigger] cells(head) + blanks,
{
    UnicodeWidthStr::width(text)
}

/// How many characters from `at` on fit `room` cells, each taken by itself.
pub open spec fn fitting(text: Seq<char>, at: nat, room: nat) -> nat
    decreases text.len() - at,
{
    if at >= text.len() || cells(seq![text[at as int]]) > room {
        at
    } else {
        fitting(text, at + 1, (room - cells(seq![text[at as int]])) as nat)
    }
}

/// Where the characters before `at` start that fit `room` cells, each taken by itself.
pub open spec fn reaching(text: Seq<char>, at: nat, room: nat) -> nat
    decreases at,
{
    if at == 0 || cells(seq![text[at - 1]]) > room {
        at
    } else {
        reaching(text, (at - 1) as nat, (room - cells(seq![text[at - 1]])) as nat)
    }
}

/// The start of a text, the cut marked with an ellipsis.
pub open spec fn marked(text: Seq<char>, count: nat) -> Seq<char> {
    text.take(count as int).push('…')
}

/// How much of the start of a text, at most `count` characters, fits with an ellipsis behind it.
/// Characters may take more cells together than each by itself.
pub open spec fn cut(text: Seq<char>, count: nat, max: nat) -> nat
    decreases count,
{
    if count == 0 || cells(marked(text, count)) <= max {
        count
    } else {
        cut(text, (count - 1) as nat, max)
    }
}

/// A text cut to a width, the cut marked with an ellipsis where there is room for one.
pub open spec fn truncated(text: Seq<char>, max: nat) -> Seq<char> {
    if cells(text) <= max {
        text
    } else if max == 0 {
        Seq::empty()
    } else if max == 1 {
        marked(text, 0)
    } else {
        marked(text, cut(text, fitting(text, 0, (max - 1) as nat), max))
    }
}

/// A text filled up to a width with spaces.
pub open spec fn padded(text: Seq<char>, target: nat) -> Seq<char> {
    if cells(text) >= target {
        text
    } else {
        text + strings::run(' ', target - cells(text))
    }
}

/// A text cut where it is long and filled up where it is short.
pub open spec fn fitted(text: Seq<char>, target: nat) -> Seq<char> {
    padded(truncated(text, target), target)
}

/// How many cells of a long path's end are kept.
pub open spec fn kept_end(max: nat) -> nat {
    max * 2 / 3
}

/// A path without what stands between its first `head` characters and the one at `tail`.
pub open spec fn gapped(path: Seq<char>, head: nat, tail: nat) -> Seq<char> {
    marked(path, head) + path.skip(tail as int)
}

/// The same with as much more left out as it takes to fit: from the start first, and then from the
/// end, of which one character stays.
pub open spec fn squeezed(path: Seq<char>, head: nat, tail: nat, max: nat) -> Seq<char>
    decreases head, path.len() - tail,
{
    if cells(gapped(path, head, tail)) <= max || (head == 0 && tail + 1 >= path.len()) {
        gapped(path, head, tail)
    } else if head > 0 {
        squeezed(path, (head - 1) as nat, tail, max)
    } else {
        squeezed(path, head, tail + 1, max)
    }
}

/// Where the end of a long path starts that is kept: its last character always is.
pub open spec fn tail_start(path: Seq<char>, max: nat) -> nat {
    let from = reaching(path, path.len(), kept_end(max));
    if from < path.len() {
        from
    } else {
        (path.len() - 1) as nat
    }
}

/// How much of the start of a long path is kept.
pub open spec fn head_count(path: Seq<char>, max: nat) -> nat {
    let count = fitting(path, 0, (max - kept_end(max) - 1) as nat);
    if count < tail_start(path, max) {
        count
    } else {
        tail_start(path, max)
    }
}

/// A long path without its middle: the last components are the ones that identify the thing.
pub open spec fn shortened(path: Seq<char>, max: nat) -> Seq<char> {
    if cells(path) <= max || max < 6 {
        truncated(path, max)
    } else {
        squeezed(path, head_count(path, max), tail_start(path, max), max)
    }
}

/// Whether a text is a path with some of its middle left out and some of its end kept.
pub open spec fn keeps_tail(text: Seq<char>, path: Seq<char>) -> bool {
    exists|head: nat, tail: nat|
        head <= tail < path.len() && text == #[trigger] gapped(path, head, tail)
}

fn width_at(letters: &Vec<char>, at: usize) -> (cell: usize)
    requires
        at < letters.len(),
    ensures
        cell == cells(seq![letters@[at as int]]),
        is_plain(letters@) ==> cell == 1,
{
    let single = strings::spell(letters, at, at + 1);
    assert(single@ =~= seq![letters@[at as int]]);
    assert(is_plain(letters@) ==> is_plain(single@));
    width(single.as_str())
}

fn count_fitting(letters: &Vec<char>, room: usize) -> (count: usize)
    ensures
        count == fitting(letters@, 0, room as nat),
        count <= letters@.len(),
        is_plain(letters@) && letters@.len() > room ==> count == room,
{
    let mut left: usize = room;
    let mut at: usize = 0;
    while at < letters.len()
        invariant
            at <= letters@.len(),
            fitting(letters@, 0, room as nat) == fitting(letters@, at as nat, left as nat),
            is_plain(letters@) && letters@.len() > room ==> left == room - at,
        decreases letters@.len() - at,
    {
        let cell: usize = width_at(letters, at);
        if cell > left {
            return at;
        }
        left -= cell;
        at += 1;
    }
    at
}

fn start_reaching(letters: &Vec<char>, room: usize) -> (from: usize)
    ensures
        from == reaching(letters@, letters@.len(), room as nat),
        from <= letters@.len(),
        is_plain(letters@) && letters@.len() > room ==> from == letters@.len() - room,
{
    let mut left: usize = room;
    let mut at: usize = letters.len();
    while at > 0
        invariant
            at <= letters@.len(),
            reaching(letters@, letters@.len(), room as nat) == reaching(
                letters@,
                at as nat,
                left as nat,
            ),
            is_plain(letters@) && letters@.len() > room ==> left == room - (letters@.len() - at),
        decreases at,
    {
        let cell: usize = width_at(letters, at - 1);
        if cell > left {
            return at;
        }
        left -= cell;
        at -= 1;
    }
    at
}

fn mark(letters: &Vec<char>, count: usize) -> (out: String)
    requires
        count <= letters@.len(),
    ensures
        out@ == marked(letters@, count as nat),
        is_plain(letters@) || count == 0 ==> is_plain(out@),
{
    let mut out = strings::spell(letters, 0, count);
    assert(out@ =~= letters@.take(count as int));
    out.push('…');
    out
}

/// Trim to `max` display cells, marking the cut with an ellipsis.
pub fn truncate(text: &str, max: usize) -> (out: String)
    ensures
        out@ == truncated(text@, max as nat),
        cells(out@) <= max,
        is_plain(text@) && max >= 1 ==> is_plain(out@) && out@.len() == if text@.len() <= max {
            text@.len()
        } else {
            max as nat
        },
{
    if width(text) <= max {
        return String::from_str(text);
    }
    if max == 0 {
        let out = String::new();
        // Nothing takes no cells.
        let _ = width(out.as_str());
        assert(out@ =~= Seq::empty());
        return out;
    }
    let letters = strings::letters(text);
    let mut count: usize = if max == 1 {
        0
    } else {
        count_fitting(&letters, max - 1)
    };
    let ghost most = count as nat;
    let mut out = mark(&letters, count);
    let mut taken: usize = width(out.as_str());
    while count > 0 && taken > max
        invariant
            letters@ == text@,
            max >= 1,
            count <= most <= letters@.len(),
            out@ == marked(text@, count as nat),
            taken == cells(out@),
            is_plain(out@) ==> taken == out@.len(),
            count == 0 ==> is_plain(out@),
            cut(text@, most, max as nat) == cut(text@, count as nat, max as nat),
            is_plain(text@) ==> is_plain(out@) && out@.len() == most + 1 == max,
        decreases count,
    {
        count -= 1;
        out = mark(&letters, count);
        taken = width(out.as_str());
    }
    assert(count == 0 ==> out@.len() == 1);
    out
}

/// Pad on the right to `target` display cells.
pub fn pad(text: &str, target: usize) -> (out: String)
    ensures
        out@ == padded(text@, target as nat),
        cells(out@) == if cells(text@) >= target {
            cells(text@)
        } else {
            target
        },
        is_plain(text@) ==> is_plain(out@) && out@.len() == if text@.len() >= target {
            text@.len()
        } else {
            target as nat
        },
{
    let current: usize = width(text);
    let mut out = String::from_str(text);
    if current < target {
        strings::push_run(&mut out, ' ', target - current);
        // Each space adds a cell.
        let _ = width(out.as_str());
    }
    out
}

/// Fit exactly `target` cells: truncate if long, pad if short.
pub fn fit(text: &str, target: usize) -> (out: String)
    ensures
        out@ == fitted(text@, target as nat),
        cells(out@) == target,
        cells(text@) <= target ==> out@ == text@ + strings::run(' ', target - cells(text@)),
        is_plain(text@) && target >= 1 ==> is_plain(out@) && out@.len() == target,
{
    let out = pad(truncate(text, target).as_str(), target);
    assert(text@ + strings::run(' ', 0) =~= text@);
    out
}

fn leave_gap(letters: &Vec<char>, head: usize, tail: usize) -> (out: String)
    requires
        head <= tail <= letters@.len(),
    ensures
        out@ == gapped(letters@, head as nat, tail as nat),
        is_plain(letters@) ==> is_plain(out@),
{
    let mut out = mark(letters, head);
    let end = strings::spell(letters, tail, letters.len());
    assert(end@ =~= letters@.skip(tail as int));
    assert(is_plain(letters@) ==> is_plain(end@));
    out.append(end.as_str());
    out
}

/// Long paths lose their middle rather than their tail.
pub fn shorten_path(path: &str, max: usize) -> (out: String)
    requires
        max * 2 <= usize::MAX,
    ensures
        out@ == shortened(path@, max as nat),
        cells(out@) <= max,
        max >= 6 && cells(path@) > max ==> keeps_tail(out@, path@),
        is_plain(path@) && max >= 6 ==> {
            &&& is_plain(out@)
            &&& out@.len() <= max
            &&& path@.len() > max ==> out@.skip(out@.len() - kept_end(max as nat)) == path@.skip(
                path@.len() - kept_end(max as nat),
            )
        },
{
    if width(path) <= max || max < 6 {
        return truncate(path, max);
    }
    let letters = strings::letters(path);
    let keep_end: usize = max * 2 / 3;
    let from: usize = start_reaching(&letters, keep_end);
    let mut tail: usize = if from < letters.len() {
        from
    } else {
        letters.len() - 1
    };
    let fits: usize = count_fitting(&letters, max - keep_end - 1);
    let mut head: usize = if fits < tail {
        fits
    } else {
        tail
    };
    let mut out = leave_gap(&letters, head, tail);
    let mut taken: usize = width(out.as_str());
    proof {
        if is_plain(path@) {
            assert(out@.skip(out@.len() - keep_end) =~= path@.skip(path@.len() - keep_end));
        }
    }
    while taken > max && (head > 0 || tail < letters.len() - 1)
        invariant
            letters@ == path@,
            max >= 6,
            head <= tail < letters@.len(),
            out@ == gapped(path@, head as nat, tail as nat),
            taken == cells(out@),
            taken <= 3 * out@.len(),
            shortened(path@, max as nat) == squeezed(path@, head as nat, tail as nat, max as nat),
            is_plain(path@) ==> {
                &&& is_plain(out@)
                &&& taken == out@.len() == max
                &&& out@.skip(out@.len() - kept_end(max as nat)) == path@.skip(
                    path@.len() - kept_end(max as nat),
                )
            },
        decreases head + letters@.len() - tail,
    {
        if head > 0 {
            head -= 1;
        } else {
            tail += 1;
        }
        out = leave_gap(&letters, head, tail);
        taken = width(out.as_str());
    }
    out
}

} // verus!
