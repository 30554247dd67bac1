//! File paths as the file system sees them: bytes, read as components.
//!
//! Two paths are the same place when their components are the same, however many separators
//! stand between them and whether or not one trails.

use vstd::prelude::*;
use vstd::utf8::encode_utf8;
use crate::strings;

verus! {

/// A path, absolute or relative.
#[derive(Debug)]
pub struct FilePath {
    pub bytes: Vec<u8>,
}

impl View for FilePath {
    type V = Seq<u8>;

    open spec fn view(&self) -> Seq<u8> {
        self.bytes@
    }
}

/// Where the piece that starts at `at` ends.
pub open spec fn piece_end(path: Seq<u8>, at: int) -> int
    decreases path.len() - at,
{
    if at < 0 || at >= path.len() || path[at] == 47 {
        at
    } else {
        piece_end(path, at + 1)
    }
}

proof fn piece_end_bounds(path: Seq<u8>, at: int)
    requires
        0 <= at <= path.len(),
    ensures
        at <= piece_end(path, at) <= path.len(),
        forall|i: int| at <= i < piece_end(path, at) ==> path[i] != 47,
        piece_end(path, at) < path.len() ==> path[piece_end(path, at)] == 47,
    decreases path.len() - at,
{
    if at < path.len() && path[at] != 47 {
        piece_end_bounds(path, at + 1);
    }
}

/// The spans of the pieces from `at` on that count: not the empty ones, and not `.`.
pub open spec fn spans_from(path: Seq<u8>, at: int) -> Seq<(int, int)>
    decreases path.len() - at,
{
    if at < 0 || at >= path.len() {
        Seq::empty()
    } else if path[at] == 47 {
        spans_from(path, at + 1)
    } else {
        let end = piece_end(path, at);
        if end <= at || end > path.len() {
            Seq::empty()
        } else if path.subrange(at, end) == seq![46u8] {
            spans_from(path, end)
        } else {
            seq![(at, end)] + spans_from(path, end)
        }
    }
}

/// Whether the path starts with something that counts on its own: a root, or a leading `.`.
pub open spec fn has_head(path: Seq<u8>) -> bool {
    path.len() > 0 && (path[0] == 47 || (path[0] == 46 && (path.len() == 1 || path[1] == 47)))
}

/// Where each component of a path stands in it.
pub open spec fn spans(path: Seq<u8>) -> Seq<(int, int)> {
    if has_head(path) {
        seq![(0int, 1int)] + spans_from(path, 1)
    } else {
        spans_from(path, 0)
    }
}

/// The components of a path: the root as `/`, then the names.
pub open spec fn components(path: Seq<u8>) -> Seq<Seq<u8>> {
    spans(path).map_values(|span: (int, int)| path.subrange(span.0, span.1))
}

/// Whether `path` lies at or below `base`.
pub open spec fn within(path: Seq<u8>, base: Seq<u8>) -> bool {
    components(base).is_prefix_of(components(path))
}

/// Whether two paths are the same place.
pub open spec fn same_place(left: Seq<u8>, right: Seq<u8>) -> bool {
    components(left) == components(right)
}

/// Whether a component is the name of an entry, and not the root, `.` or `..`.
pub open spec fn is_name(component: Seq<u8>) -> bool {
    component != seq![47u8] && component != seq![46u8] && component != seq![46u8, 46u8]
}

/// Whether these bytes are a name that one directory entry can have.
pub open spec fn plain_name(name: Seq<u8>) -> bool {
    name.len() > 0 && is_name(name) && forall|i: int| 0 <= i < name.len() ==> name[i] != 47
}

/// Whether these bytes are a name that one directory entry can have.
pub fn is_plain_name(name: &Vec<u8>) -> (yes: bool)
    ensures
        yes == plain_name(name@),
{
    let mut at: usize = 0;
    while at < name.len()
        invariant
            at <= name@.len(),
            forall|i: int| 0 <= i < at ==> name@[i] != 47,
        decreases name@.len() - at,
    {
        if name[at] == 47 {
            return false;
        }
        at += 1;
    }
    let dots = (name.len() == 1 && name[0] == 46) || (name.len() == 2 && name[0] == 46 && name[1]
        == 46);
    assert(dots <==> name@ =~= seq![46u8] || name@ =~= seq![46u8, 46u8]);
    assert(name@ =~= seq![47u8] ==> name@[0] == 47);
    name.len() > 0 && !dots
}

/// The last component, where it is a name.
pub open spec fn file_name(path: Seq<u8>) -> Option<Seq<u8>> {
    if components(path).len() > 0 && is_name(components(path).last()) {
        Some(components(path).last())
    } else {
        None
    }
}

/// The path up to and without its last component.
pub open spec fn parent(path: Seq<u8>) -> Option<Seq<u8>> {
    let all = spans(path);
    if all.len() == 0 || components(path).last() == seq![47u8] {
        None
    } else if all.len() == 1 {
        Some(Seq::empty())
    } else {
        Some(path.take(all[all.len() - 2].1))
    }
}

/// What `tail` means seen from `base`.
pub open spec fn joined(base: Seq<u8>, tail: Seq<u8>) -> Seq<u8> {
    if tail.len() > 0 && tail[0] == 47 {
        tail
    } else if base.len() > 0 && base.last() != 47 {
        base + seq![47u8] + tail
    } else {
        base + tail
    }
}

/// What is left of `path` below `base`.
pub open spec fn below(path: Seq<u8>, base: Seq<u8>) -> Seq<u8> {
    let all = spans(path);
    let skipped = components(base).len() as int;
    if skipped >= all.len() {
        Seq::empty()
    } else {
        path.subrange(all[skipped].0, all.last().1)
    }
}

/// A path as it is shown.
pub open spec fn shown(path: Seq<u8>) -> Seq<char> {
    strings::lossy(path)
}

proof fn spans_from_bounds(path: Seq<u8>, at: int)
    requires
        0 <= at,
    ensures
        forall|i: int|
            0 <= i < spans_from(path, at).len() ==> at <= (#[trigger] spans_from(path, at)[i]).0
                < spans_from(path, at)[i].1 <= path.len(),
    decreases path.len() - at,
{
    if at < path.len() {
        if path[at] == 47 {
            spans_from_bounds(path, at + 1);
            assert(spans_from(path, at) == spans_from(path, at + 1));
        } else {
            piece_end_bounds(path, at);
            let end = piece_end(path, at);
            spans_from_bounds(path, end);
            let rest = spans_from(path, end);
            assert forall|i: int| 0 <= i < spans_from(path, at).len() implies at <= (
            #[trigger] spans_from(path, at)[i]).0 < spans_from(path, at)[i].1 <= path.len() by {
                if path.subrange(at, end) == seq![46u8] {
                    assert(spans_from(path, at)[i] == rest[i]);
                } else if i > 0 {
                    assert(spans_from(path, at)[i] == rest[i - 1]);
                }
            }
        }
    }
}

/// Every component lies inside its path.
pub proof fn spans_bounds(path: Seq<u8>)
    ensures
        forall|i: int|
            0 <= i < spans(path).len() ==> 0 <= (#[trigger] spans(path)[i]).0 < spans(path)[i].1
                <= path.len(),
{
    spans_from_bounds(path, 0);
    spans_from_bounds(path, 1);
}

proof fn spans_hold_no_slash(path: Seq<u8>, at: int)
    requires
        0 <= at <= path.len(),
    ensures
        forall|i: int, j: int|
            0 <= i < spans_from(path, at).len() && (#[trigger] spans_from(path, at)[i]).0 <= j
                < spans_from(path, at)[i].1 ==> #[trigger] path[j] != 47,
    decreases path.len() - at,
{
    if at < path.len() {
        if path[at] == 47 {
            spans_hold_no_slash(path, at + 1);
            assert(spans_from(path, at) == spans_from(path, at + 1));
        } else {
            piece_end_bounds(path, at);
            let end = piece_end(path, at);
            assert(end > at);
            spans_hold_no_slash(path, end);
            let rest = spans_from(path, end);
            if path.subrange(at, end) != seq![46u8] {
                let all = spans_from(path, at);
                assert(all == seq![(at, end)] + rest);
                assert forall|i: int, j: int|
                    0 <= i < all.len() && (#[trigger] all[i]).0 <= j < all[i].1 implies
                    #[trigger] path[j] != 47 by {
                    if i > 0 {
                        assert(all[i] == rest[i - 1]);
                    }
                }
            } else {
                assert(spans_from(path, at) == rest);
            }
        }
    }
}

/// The name of a file is one that a directory entry can have.
pub proof fn file_name_is_plain(path: Seq<u8>)
    ensures
        file_name(path) matches Some(name) ==> plain_name(name),
{
    if file_name(path) is Some {
        let name = file_name(path)->0;
        spans_bounds(path);
        let last = spans(path).len() - 1;
        let span = spans(path)[last];
        assert(name == path.subrange(span.0, span.1));
        if has_head(path) {
            if last > 0 {
                spans_hold_no_slash(path, 1);
                assert(span == spans_from(path, 1)[last - 1]);
            } else {
                assert(span == (0int, 1int));
                assert(path.subrange(0, 1) =~= seq![path[0]]);
            }
        } else {
            spans_hold_no_slash(path, 0);
        }
        assert forall|i: int| 0 <= i < name.len() implies name[i] != 47 by {
            assert(name[i] == path[span.0 + i]);
        }
    }
}

proof fn piece_end_in_prefix(base: Seq<u8>, whole: Seq<u8>, at: int)
    requires
        0 <= at <= base.len(),
        base.len() <= whole.len(),
        forall|i: int| 0 <= i < base.len() ==> base[i] == whole[i],
        base.len() == whole.len() || whole[base.len() as int] == 47 || (base.len() > 0
            && base.last() == 47 && at < base.len()),
    ensures
        piece_end(base, at) == piece_end(whole, at),
    decreases base.len() - at,
{
    if at < base.len() && base[at] != 47 {
        piece_end_in_prefix(base, whole, at + 1);
    }
}

proof fn piece_end_of_name(whole: Seq<u8>, at: int, from: int)
    requires
        0 <= from <= at <= whole.len(),
        forall|i: int| from <= i < whole.len() ==> whole[i] != 47,
    ensures
        piece_end(whole, at) == whole.len(),
    decreases whole.len() - at,
{
    if at < whole.len() {
        piece_end_of_name(whole, at + 1, from);
    }
}

proof fn spans_from_name(whole: Seq<u8>, from: int)
    requires
        0 <= from < whole.len(),
        forall|i: int| from <= i < whole.len() ==> whole[i] != 47,
        whole.subrange(from, whole.len() as int) != seq![46u8],
    ensures
        spans_from(whole, from) == seq![(from, whole.len() as int)],
{
    piece_end_of_name(whole, from, from);
    assert(spans_from(whole, whole.len() as int) =~= Seq::empty());
    assert(spans_from(whole, from) =~= seq![(from, whole.len() as int)]);
}

proof fn spans_from_grow(base: Seq<u8>, whole: Seq<u8>, at: int, from: int)
    requires
        0 <= at <= base.len(),
        base.len() <= from < whole.len(),
        from == base.len() || (from == base.len() + 1 && whole[base.len() as int] == 47),
        from == base.len() ==> base.len() == 0 || base.last() == 47,
        forall|i: int| 0 <= i < base.len() ==> base[i] == whole[i],
        forall|i: int| from <= i < whole.len() ==> whole[i] != 47,
        whole.subrange(from, whole.len() as int) != seq![46u8],
    ensures
        spans_from(whole, at) == spans_from(base, at) + seq![(from, whole.len() as int)],
    decreases base.len() - at,
{
    spans_from_name(whole, from);
    if at == base.len() {
        assert(spans_from(base, at) =~= Seq::empty());
        if from == base.len() + 1 {
            assert(spans_from(whole, at) == spans_from(whole, from));
        }
        assert(spans_from(whole, at) =~= spans_from(base, at) + seq![(from, whole.len() as int)]);
    } else if base[at] == 47 {
        spans_from_grow(base, whole, at + 1, from);
    } else {
        piece_end_in_prefix(base, whole, at);
        piece_end_bounds(base, at);
        let end = piece_end(base, at);
        assert(whole.subrange(at, end) =~= base.subrange(at, end));
        spans_from_grow(base, whole, end, from);
        assert(spans_from(whole, at) =~= spans_from(base, at) + seq![(from, whole.len() as int)]);
    }
}

/// Joining a name to a path adds one component: the name.
pub proof fn joined_name_is_last(base: Seq<u8>, name: Seq<u8>)
    requires
        plain_name(name),
    ensures
        components(joined(base, name)) == components(base).push(name),
{
    let whole = joined(base, name);
    let from = whole.len() - name.len();
    assert(name[0] != 47);
    assert(whole.subrange(from, whole.len() as int) =~= name);
    assert forall|i: int| from <= i < whole.len() implies whole[i] != 47 by {
        assert(whole[i] == name[i - from]);
    }
    spans_bounds(base);
    if base.len() == 0 {
        assert(whole =~= name);
        if has_head(whole) {
            assert(whole =~= seq![46u8]) by {
                if whole.len() > 1 {
                    assert(name[1] == 47);
                }
            }
        }
        spans_from_name(whole, 0);
        assert(spans(base) =~= Seq::empty());
        assert(components(whole) =~= components(base).push(name));
    } else {
        if has_head(base) {
            assert(has_head(whole));
            spans_from_grow(base, whole, 1, from);
        } else {
            assert(!has_head(whole)) by {
                if base.len() == 1 && has_head(whole) {
                    assert(base[0] == 46);
                }
            }
            spans_from_grow(base, whole, 0, from);
        }
        assert(spans(whole) =~= spans(base).push((from, whole.len() as int)));
        assert(components(whole) =~= components(base).push(name)) by {
            assert forall|i: int| 0 <= i < components(base).len() implies components(whole)[i]
                == components(base)[i] by {
                let span = spans(base)[i];
                assert(spans(whole)[i] == span);
                assert(whole.subrange(span.0, span.1) =~= base.subrange(span.0, span.1));
            }
        }
    }
}

impl FilePath {
    /// The path that a text spells.
    pub fn new(text: &str) -> (path: FilePath)
        ensures
            path@ == encode_utf8(text@),
    {
        FilePath { bytes: text.as_bytes_vec() }
    }

    /// The path that these bytes spell.
    pub fn from_bytes(bytes: Vec<u8>) -> (path: FilePath)
        ensures
            path@ == bytes@,
    {
        FilePath { bytes }
    }

    /// Another copy of this path.
    pub fn duplicate(&self) -> (path: FilePath)
        ensures
            path@ == self@,
    {
        FilePath { bytes: copy_range(&self.bytes, 0, self.bytes.len()) }
    }

    /// Where each component stands.
    pub(crate) fn spans(&self) -> (out: Vec<(usize, usize)>)
        ensures
            out.len() == spans(self@).len(),
            forall|i: int|
                0 <= i < out.len() ==> (#[trigger] out@[i]).0 == spans(self@)[i].0 && out@[i].1
                    == spans(self@)[i].1,
            forall|i: int| 0 <= i < out.len() ==> (#[trigger] out@[i]).0 < out@[i].1 <= self@.len(),
    {
        let length: usize = self.bytes.len();
        let ghost path = self@;
        let ghost goal = spans(path);
        let mut out: Vec<(usize, usize)> = Vec::new();
        let mut at: usize = 0;
        if length > 0 && (self.bytes[0] == 47 || (self.bytes[0] == 46 && (length == 1
            || self.bytes[1] == 47))) {
            out.push((0, 1));
            at = 1;
        }
        while at < length
            invariant
                length == self.bytes.len(),
                path == self@,
                at <= length,
                goal.len() == out.len() + spans_from(path, at as int).len(),
                forall|i: int|
                    0 <= i < out.len() ==> (#[trigger] out@[i]).0 == goal[i].0 && out@[i].1
                        == goal[i].1,
                forall|i: int|
                    out.len() <= i < goal.len() ==> #[trigger] goal[i] == spans_from(
                        path,
                        at as int,
                    )[i - out.len()],
            decreases length - at,
        {
            if self.bytes[at] == 47 {
                at += 1;
            } else {
                let start: usize = at;
                while at < length && self.bytes[at] != 47
                    invariant
                        length == self.bytes.len(),
                        path == self@,
                        start <= at <= length,
                        piece_end(path, start as int) == piece_end(path, at as int),
                    decreases length - at,
                {
                    at += 1;
                }
                proof {
                    assert(piece_end(path, start as int) == at);
                    let piece = path.subrange(start as int, at as int);
                    if piece.len() == 1 && piece[0] == 46 {
                        assert(piece =~= seq![46u8]);
                    }
                    if piece == seq![46u8] {
                        assert(piece.len() == 1 && piece[0] == 46);
                    } else {
                        let rest = spans_from(path, at as int);
                        assert(spans_from(path, start as int) =~= seq![(start as int, at as int)]
                            + rest);
                    }
                }
                if !(at - start == 1 && self.bytes[start] == 46) {
                    out.push((start, at));
                }
            }
        }
        proof {
            spans_bounds(path);
        }
        out
    }

    /// Whether two paths are the same place.
    pub fn same(&self, other: &FilePath) -> (same: bool)
        ensures
            same == same_place(self@, other@),
    {
        let ours = self.spans();
        let theirs = other.spans();
        assert(components(self@).len() == ours.len() && components(other@).len() == theirs.len());
        if ours.len() != theirs.len() {
            return false;
        }
        let shared = prefix_of(&self.bytes, &ours, &other.bytes, &theirs);
        proof {
            if shared {
                assert(components(self@) =~= components(other@));
            }
        }
        shared
    }

    /// Whether this path lies at or below `base`.
    pub fn starts_with(&self, base: &FilePath) -> (inside: bool)
        ensures
            inside == within(self@, base@),
    {
        let ours = self.spans();
        let theirs = base.spans();
        if theirs.len() > ours.len() {
            return false;
        }
        let shared = prefix_of(&base.bytes, &theirs, &self.bytes, &ours);
        proof {
            if shared {
                assert(components(base@) =~= components(self@).subrange(
                    0,
                    components(base@).len() as int,
                ));
            }
        }
        shared
    }

    /// What is left of this path below `base`, where it lies below it.
    pub fn strip_prefix(&self, base: &FilePath) -> (rest: Option<FilePath>)
        ensures
            rest is Some <==> within(self@, base@),
            rest is Some ==> rest->0@ == below(self@, base@),
    {
        if !self.starts_with(base) {
            return None;
        }
        let ours = self.spans();
        let skipped: usize = base.spans().len();
        if skipped >= ours.len() {
            return Some(FilePath { bytes: Vec::new() });
        }
        proof {
            spans_order(self@, skipped as int, ours.len() - 1);
        }
        let from: usize = ours[skipped].0;
        let to: usize = ours[ours.len() - 1].1;
        Some(FilePath { bytes: copy_range(&self.bytes, from, to) })
    }

    /// The last component, where it is a name.
    pub fn file_name(&self) -> (name: Option<Vec<u8>>)
        ensures
            name is Some <==> file_name(self@) is Some,
            name is Some ==> name->0@ == file_name(self@)->0,
    {
        let ours = self.spans();
        if ours.len() == 0 {
            return None;
        }
        let (from, to): (usize, usize) = ours[ours.len() - 1];
        let name = copy_range(&self.bytes, from, to);
        proof {
            assert(components(self@).last() == name@);
            if name@.len() == 1 {
                assert(name@ =~= seq![name@[0]]);
            }
            if name@.len() == 2 {
                assert(name@ =~= seq![name@[0], name@[1]]);
            }
            assert(seq![47u8][0] == 47 && seq![46u8][0] == 46);
            assert(seq![46u8, 46u8][0] == 46 && seq![46u8, 46u8][1] == 46);
        }
        if (name.len() == 1 && (name[0] == 47 || name[0] == 46)) || (name.len() == 2 && name[0]
            == 46 && name[1] == 46) {
            None
        } else {
            Some(name)
        }
    }

    /// The path up to and without its last component.
    pub fn parent(&self) -> (out: Option<FilePath>)
        ensures
            out is Some <==> parent(self@) is Some,
            out is Some ==> out->0@ == parent(self@)->0,
    {
        let ours = self.spans();
        if ours.len() == 0 {
            return None;
        }
        let (from, to): (usize, usize) = ours[ours.len() - 1];
        proof {
            let last = components(self@).last();
            assert(last == self@.subrange(from as int, to as int));
            assert(last[0] == self@[from as int]);
            if last == seq![47u8] {
                assert(last.len() == 1 && last[0] == 47);
            }
            if last.len() == 1 && last[0] == 47 {
                assert(last =~= seq![47u8]);
            }
        }
        if to - from == 1 && self.bytes[from] == 47 {
            return None;
        }
        if ours.len() == 1 {
            return Some(FilePath { bytes: Vec::new() });
        }
        let end: usize = ours[ours.len() - 2].1;
        let out = FilePath { bytes: copy_range(&self.bytes, 0, end) };
        assert(out@ =~= self@.take(end as int));
        Some(out)
    }

    /// What `tail` means seen from here.
    pub fn join(&self, tail: &FilePath) -> (out: FilePath)
        ensures
            out@ == joined(self@, tail@),
    {
        self.join_name(&tail.bytes)
    }

    /// What a name means seen from here.
    pub fn join_name(&self, tail: &Vec<u8>) -> (out: FilePath)
        ensures
            out@ == joined(self@, tail@),
    {
        if tail.len() > 0 && tail[0] == 47 {
            return FilePath { bytes: copy_range(tail, 0, tail.len()) };
        }
        let mut bytes = copy_range(&self.bytes, 0, self.bytes.len());
        if bytes.len() > 0 && bytes[bytes.len() - 1] != 47 {
            bytes.push(47);
        }
        let mut rest = copy_range(tail, 0, tail.len());
        bytes.append(&mut rest);
        assert(bytes@ =~= joined(self@, tail@));
        FilePath { bytes }
    }

    /// The path as it is shown.
    pub fn display(&self) -> (text: String)
        ensures
            text@ == shown(self@),
    {
        strings::from_utf8_lossy(&self.bytes)
    }
}

proof fn spans_from_order(path: Seq<u8>, at: int, i: int, j: int)
    requires
        0 <= at,
        0 <= i < j < spans_from(path, at).len(),
    ensures
        spans_from(path, at)[i].1 <= spans_from(path, at)[j].0,
    decreases path.len() - at,
{
    if path[at] == 47 {
        spans_from_order(path, at + 1, i, j);
    } else {
        piece_end_bounds(path, at);
        let end = piece_end(path, at);
        spans_from_bounds(path, end);
        if path.subrange(at, end) == seq![46u8] {
            spans_from_order(path, end, i, j);
        } else {
            let rest = spans_from(path, end);
            assert(spans_from(path, at)[j] == rest[j - 1]);
            if i > 0 {
                assert(spans_from(path, at)[i] == rest[i - 1]);
                spans_from_order(path, end, i - 1, j - 1);
            }
        }
    }
}

proof fn spans_order(path: Seq<u8>, i: int, j: int)
    requires
        0 <= i <= j < spans(path).len(),
    ensures
        spans(path)[i].0 < spans(path)[j].1,
{
    spans_bounds(path);
    if i < j {
        spans_from_bounds(path, 1);
        if has_head(path) {
            assert(spans(path)[j] == spans_from(path, 1)[j - 1]);
            if i > 0 {
                assert(spans(path)[i] == spans_from(path, 1)[i - 1]);
                spans_from_order(path, 1, i - 1, j - 1);
            }
        } else {
            spans_from_order(path, 0, i, j);
        }
    }
}

/// A copy of `from .. to` of some bytes.
pub(crate) fn copy_range(bytes: &Vec<u8>, from: usize, to: usize) -> (out: Vec<u8>)
    requires
        from <= to <= bytes.len(),
    ensures
        out@ == bytes@.subrange(from as int, to as int),
        from == 0 && to == bytes.len() ==> out@ == bytes@,
{
    let mut out: Vec<u8> = Vec::with_capacity(to - from);
    let mut at: usize = from;
    while at < to
        invariant
            from <= at <= to <= bytes.len(),
            out@ == bytes@.subrange(from as int, at as int),
        decreases to - at,
    {
        out.push(bytes[at]);
        at += 1;
        assert(bytes@.subrange(from as int, at as int) =~= bytes@.subrange(
            from as int,
            at - 1,
        ).push(bytes@[at - 1]));
    }
    assert(bytes@.subrange(0, bytes@.len() as int) =~= bytes@);
    out
}

/// Whether the components of `base` are the first ones of `path`.
fn prefix_of(
    base: &Vec<u8>,
    base_spans: &Vec<(usize, usize)>,
    path: &Vec<u8>,
    path_spans: &Vec<(usize, usize)>,
) -> (shared: bool)
    requires
        base_spans.len() <= path_spans.len(),
        base_spans.len() == spans(base@).len(),
        forall|i: int|
            0 <= i < base_spans.len() ==> (#[trigger] base_spans@[i]).0 == spans(base@)[i].0
                && base_spans@[i].1 == spans(base@)[i].1 && base_spans@[i].0 < base_spans@[i].1
                <= base.len(),
        path_spans.len() == spans(path@).len(),
        forall|i: int|
            0 <= i < path_spans.len() ==> (#[trigger] path_spans@[i]).0 == spans(path@)[i].0
                && path_spans@[i].1 == spans(path@)[i].1 && path_spans@[i].0 < path_spans@[i].1
                <= path.len(),
    ensures
        shared == forall|i: int|
            0 <= i < base_spans.len() ==> #[trigger] components(base@)[i] == components(path@)[i],
{
    let mut at: usize = 0;
    while at < base_spans.len()
        invariant
            at <= base_spans.len() <= path_spans.len(),
            base_spans.len() == spans(base@).len(),
            path_spans.len() == spans(path@).len(),
            forall|i: int|
                0 <= i < base_spans.len() ==> (#[trigger] base_spans@[i]).0 == spans(base@)[i].0
                    && base_spans@[i].1 == spans(base@)[i].1 && base_spans@[i].0 < base_spans@[i].1
                    <= base.len(),
            forall|i: int|
                0 <= i < path_spans.len() ==> (#[trigger] path_spans@[i]).0 == spans(path@)[i].0
                    && path_spans@[i].1 == spans(path@)[i].1 && path_spans@[i].0 < path_spans@[i].1
                    <= path.len(),
            forall|i: int|
                0 <= i < at ==> #[trigger] components(base@)[i] == components(path@)[i],
        decreases base_spans.len() - at,
    {
        let (a, b): (usize, usize) = base_spans[at];
        let (c, d): (usize, usize) = path_spans[at];
        let ours = copy_range(base, a, b);
        let theirs = copy_range(path, c, d);
        assert(components(base@)[at as int] == ours@);
        assert(components(path@)[at as int] == theirs@);
        if !strings::same_bytes(&ours, &theirs) {
            return false;
        }
        at += 1;
    }
    true
}

/// Which sort of component this is, as components are ordered: the root, `.`, `..`, then names.
pub open spec fn rank(component: Seq<u8>) -> int {
    if component == seq![47u8] {
        0
    } else if component == seq![46u8] {
        1
    } else if component == seq![46u8, 46u8] {
        2
    } else {
        3
    }
}

/// Whether one component comes before another.
pub open spec fn component_before(a: Seq<u8>, b: Seq<u8>) -> bool {
    rank(a) < rank(b) || (rank(a) == 3 && rank(b) == 3 && strings::precedes(a, b))
}

/// Whether one run of components comes before another.
pub open spec fn run_before(a: Seq<Seq<u8>>, b: Seq<Seq<u8>>) -> bool
    decreases a.len(),
{
    if b.len() == 0 {
        false
    } else if a.len() == 0 {
        true
    } else if a[0] != b[0] {
        component_before(a[0], b[0])
    } else {
        run_before(a.drop_first(), b.drop_first())
    }
}

/// Whether one path comes before another: component by component.
pub open spec fn path_before(a: Seq<u8>, b: Seq<u8>) -> bool {
    run_before(components(a), components(b))
}

proof fn component_order(a: Seq<u8>, b: Seq<u8>, c: Seq<u8>)
    ensures
        component_before(a, b) && component_before(b, c) ==> component_before(a, c),
        !component_before(a, a),
        a == b || component_before(a, b) || component_before(b, a),
{
    if strings::precedes(a, b) && strings::precedes(b, c) {
        strings::precedes_is_transitive(a, b, c);
    }
    strings::precedes_is_irreflexive(a);
    strings::precedes_is_total(a, b);
}

pub proof fn run_before_is_transitive(a: Seq<Seq<u8>>, b: Seq<Seq<u8>>, c: Seq<Seq<u8>>)
    requires
        run_before(a, b),
        run_before(b, c),
    ensures
        run_before(a, c),
    decreases a.len(),
{
    if a.len() > 0 {
        component_order(a[0], b[0], c[0]);
        component_order(a[0], b[0], a[0]);
        component_order(b[0], c[0], a[0]);
        if a[0] == b[0] && b[0] == c[0] {
            run_before_is_transitive(a.drop_first(), b.drop_first(), c.drop_first());
        }
    }
}

pub proof fn run_before_is_irreflexive(a: Seq<Seq<u8>>)
    ensures
        !run_before(a, a),
    decreases a.len(),
{
    if a.len() > 0 {
        run_before_is_irreflexive(a.drop_first());
    }
}

pub proof fn run_before_is_total(a: Seq<Seq<u8>>, b: Seq<Seq<u8>>)
    ensures
        a == b || run_before(a, b) || run_before(b, a),
    decreases a.len(),
{
    if a.len() == 0 {
        if b.len() == 0 {
            assert(a =~= b);
        }
    } else if b.len() > 0 {
        component_order(a[0], b[0], a[0]);
        if a[0] == b[0] {
            run_before_is_total(a.drop_first(), b.drop_first());
            if a.drop_first() == b.drop_first() {
                assert(a =~= seq![a[0]] + a.drop_first());
                assert(b =~= seq![b[0]] + b.drop_first());
            }
        }
    }
}

fn rank_of(component: &Vec<u8>) -> (out: u8)
    ensures
        out == rank(component@),
{
    proof {
        if component@.len() == 1 {
            assert(component@ =~= seq![component@[0]]);
        }
        if component@.len() == 2 {
            assert(component@ =~= seq![component@[0], component@[1]]);
        }
        assert(seq![47u8][0] == 47 && seq![46u8][0] == 46);
        assert(seq![46u8, 46u8][0] == 46 && seq![46u8, 46u8][1] == 46);
    }
    if component.len() == 1 && component[0] == 47 {
        0
    } else if component.len() == 1 && component[0] == 46 {
        1
    } else if component.len() == 2 && component[0] == 46 && component[1] == 46 {
        2
    } else {
        3
    }
}

impl FilePath {
    /// Whether this path comes before the other, component by component.
    pub fn comes_before(&self, other: &FilePath) -> (yes: bool)
        ensures
            yes == path_before(self@, other@),
    {
        let ours = self.spans();
        let theirs = other.spans();
        let ghost (a, b) = (components(self@), components(other@));
        let mut at: usize = 0;
        assert(a.skip(0) =~= a);
        assert(b.skip(0) =~= b);
        while at < ours.len() && at < theirs.len()
            invariant
                at <= ours.len(),
                at <= theirs.len(),
                a == components(self@),
                b == components(other@),
                ours.len() == a.len(),
                theirs.len() == b.len(),
                forall|i: int|
                    0 <= i < ours.len() ==> (#[trigger] ours@[i]).0 == spans(self@)[i].0
                        && ours@[i].1 == spans(self@)[i].1 && ours@[i].0 < ours@[i].1
                        <= self@.len(),
                forall|i: int|
                    0 <= i < theirs.len() ==> (#[trigger] theirs@[i]).0 == spans(other@)[i].0
                        && theirs@[i].1 == spans(other@)[i].1 && theirs@[i].0 < theirs@[i].1
                        <= other@.len(),
                run_before(a, b) == run_before(a.skip(at as int), b.skip(at as int)),
            decreases ours.len() - at,
        {
            let (c, d): (usize, usize) = ours[at];
            let (e, f): (usize, usize) = theirs[at];
            let one = copy_range(&self.bytes, c, d);
            let two = copy_range(&other.bytes, e, f);
            assert(a.skip(at as int)[0] == one@);
            assert(b.skip(at as int)[0] == two@);
            if !strings::same_bytes(&one, &two) {
                let (r, q): (u8, u8) = (rank_of(&one), rank_of(&two));
                return r < q || (r == 3 && q == 3 && strings::bytes_precede(&one, &two));
            }
            assert(a.skip(at as int).drop_first() =~= a.skip(at + 1));
            assert(b.skip(at as int).drop_first() =~= b.skip(at + 1));
            at += 1;
        }
        at < theirs.len()
    }
}

} // verus!
