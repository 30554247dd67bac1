//! What a path names.

use vstd::prelude::*;
use crate::path;
use crate::strings;

verus! {

/// An entry of a directory has the directory's path, a slash and its own name; it is inside the
/// directory, is not the directory, and has the name that it was given.
pub proof fn entries_are_inside(base: Seq<u8>, name: Seq<u8>)
    requires
        path::plain_name(name),
    ensures
        base.len() > 0 && base.last() != 47 ==> path::joined(base, name) == base.push(47u8) + name,
        base.len() > 0 && base.last() == 47 ==> path::joined(base, name) == base + name,
        path::file_name(path::joined(base, name)) == Some(name),
        path::within(path::joined(base, name), base),
        !path::within(base, path::joined(base, name)),
        !path::same_place(path::joined(base, name), base),
{
    path::joined_name_is_last(base, name);
    let whole = path::joined(base, name);
    assert(path::components(whole).last() == name);
    assert(path::components(base).is_prefix_of(path::components(whole)));
    if base.len() > 0 && base.last() != 47 {
        assert(whole =~= base.push(47u8) + name);
    }
}

/// Being inside goes by whole names: of two entries of a directory one is inside the other only
/// where they have the same name, however the names begin.
pub proof fn inside_goes_by_whole_names(base: Seq<u8>, one: Seq<u8>, other: Seq<u8>)
    requires
        path::plain_name(one),
        path::plain_name(other),
    ensures
        path::within(path::joined(base, one), path::joined(base, other)) <==> one == other,
        path::same_place(path::joined(base, one), path::joined(base, other)) <==> one == other,
{
    path::joined_name_is_last(base, one);
    path::joined_name_is_last(base, other);
    let left = path::components(path::joined(base, one));
    let right = path::components(path::joined(base, other));
    assert(left.last() == one && right.last() == other);
    if right.is_prefix_of(left) {
        assert(right[right.len() - 1] == left[right.len() - 1]);
    }
}

/// A path is inside itself; what is inside something inside is inside; and two paths that are inside
/// each other are the same place.
pub proof fn inside_is_an_order(a: Seq<u8>, b: Seq<u8>, c: Seq<u8>)
    ensures
        path::within(a, a),
        path::within(a, b) && path::within(b, c) ==> path::within(a, c),
        path::within(a, b) && path::within(b, a) <==> path::same_place(a, b),
{
    let (x, y, z) = (path::components(a), path::components(b), path::components(c));
    assert(x =~= x.subrange(0, x.len() as int));
    if y.is_prefix_of(x) && z.is_prefix_of(y) {
        assert(z =~= x.subrange(0, z.len() as int)) by {
            assert forall|i: int| 0 <= i < z.len() implies z[i] == x[i] by {
                assert(z[i] == y.subrange(0, z.len() as int)[i]);
                assert(y[i] == x.subrange(0, y.len() as int)[i]);
            }
        }
    }
    if y.is_prefix_of(x) && x.is_prefix_of(y) {
        assert(x =~= y);
    }
}

proof fn runs_share_their_start(head: Seq<Seq<u8>>, left: Seq<Seq<u8>>, right: Seq<Seq<u8>>)
    ensures
        path::run_before(head + left, head + right) == path::run_before(left, right),
    decreases head.len(),
{
    if head.len() == 0 {
        assert(head + left =~= left);
        assert(head + right =~= right);
    } else {
        let rest = head.drop_first();
        runs_share_their_start(rest, left, right);
        assert((head + left).drop_first() =~= rest + left);
        assert((head + right).drop_first() =~= rest + right);
    }
}

/// Paths are listed with a directory before what is in it, and the entries of a directory by name.
pub proof fn directories_come_before_their_entries(
    base: Seq<u8>,
    one: Seq<u8>,
    other: Seq<u8>,
)
    requires
        path::plain_name(one),
        path::plain_name(other),
    ensures
        path::path_before(base, path::joined(base, one)),
        !path::path_before(path::joined(base, one), base),
        path::path_before(path::joined(base, one), path::joined(base, other)) <==> one != other
            && strings::precedes(one, other),
{
    path::joined_name_is_last(base, one);
    path::joined_name_is_last(base, other);
    let head = path::components(base);
    let none = Seq::<Seq<u8>>::empty();
    assert(head + none =~= head);
    assert(head + seq![one] =~= head.push(one));
    assert(head + seq![other] =~= head.push(other));
    runs_share_their_start(head, none, seq![one]);
    runs_share_their_start(head, seq![one], none);
    runs_share_their_start(head, seq![one], seq![other]);
    assert(seq![one].drop_first() =~= none);
    assert(seq![other].drop_first() =~= none);
    assert(seq![one][0] == one && seq![other][0] == other);
    assert(path::rank(one) == 3 && path::rank(other) == 3);
    assert(!path::run_before(none, none));
    assert(path::run_before(seq![one], seq![other]) == (one != other && strings::precedes(
        one,
        other,
    )));
}

/// An absolute path stands for itself, wherever it is joined to.
pub proof fn absolute_paths_stand_for_themselves(base: Seq<u8>, target: Seq<u8>)
    requires
        target.len() > 0,
        target[0] == 47,
    ensures
        path::joined(base, target) == target,
{
}

} // verus!
