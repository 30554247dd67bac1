//! What a directory's rows are, held against what is in the directory.

use vstd::prelude::*;
use crate::diff::Moves;
use crate::model;
use crate::model::{Choice, Line, Ranked, Sort};
use crate::order;
use crate::path;
use crate::size;
use crate::size::SizeKind;
use crate::strings;
use crate::tree;
use crate::tree::{EntryType, Tree};

verus! {

/// Rows come in the order that was asked for: the largest first, or those with most items first,
/// equal ones by name; or by name, whatever the case of its letters.
pub proof fn rows_come_in_order(parent: Tree, at: Seq<u8>, options: Choice, i: int, j: int)
    requires
        0 <= i < j < model::rows_of(parent, at, options).len(),
        model::rows_of(parent, at, options)[j].path is Some,
    ensures
        ({
            let earlier = model::rows_of(parent, at, options)[i];
            let later = model::rows_of(parent, at, options)[j];
            &&& earlier.path is Some
            &&& match options.sort {
                Sort::Size => {
                    &&& earlier.size >= later.size
                    &&& earlier.size == later.size ==> !strings::text_precedes(
                        later.name,
                        earlier.name,
                    )
                },
                Sort::Items => {
                    &&& earlier.items >= later.items
                    &&& earlier.items == later.items ==> !strings::text_precedes(
                        later.name,
                        earlier.name,
                    )
                },
                Sort::Name => !strings::text_precedes(
                    strings::lowercase(later.name),
                    strings::lowercase(earlier.name),
                ),
            }
        }),
{
    let less = |a: Line, b: Line| model::row_before(a, b, options.sort);
    let given = model::gathered_rows(parent, at, options);
    let out = model::rows_of(parent, at, options);
    model::rows_are_ordered(options.sort);
    order::sort_orders(given, less);
    order::sort_is_a_permutation(given, less);
    assert(!less(out[j], out[i]));
    model::other_comes_last(parent, at, options);
}

/// What a row says of an entry.
pub open spec fn stands_for(row: Line, entry: Tree, at: Seq<u8>, kind: SizeKind, total: u64) -> bool {
    let bytes = match kind {
        SizeKind::Allocated => entry.allocated_size,
        SizeKind::Apparent => entry.apparent_size,
    };
    &&& row.path == Some(path::joined(at, tree::own_name(entry.name)))
    &&& row.name == strings::lossy(tree::own_name(entry.name))
    &&& row.size == bytes
    &&& row.items == entry.items
    &&& row.delta is None
    &&& row.is_dir == (entry.entry_type == EntryType::Directory)
    &&& row.fraction == size::share(bytes as nat, total as nat)
}

/// The size of a directory in bytes, by blocks or by lengths.
pub open spec fn bytes_of(entry: Tree, kind: SizeKind) -> u64 {
    match kind {
        SizeKind::Allocated => entry.allocated_size,
        SizeKind::Apparent => entry.apparent_size,
    }
}

/// Whether a text stands somewhere in another.
pub open spec fn is_part_of(wanted: Seq<char>, name: Seq<char>) -> bool {
    exists|k: int|
        0 <= k <= name.len() - wanted.len() && #[trigger] name.subrange(k, k + wanted.len())
            == wanted
}

/// Whether a name is what is searched for: it has the text somewhere in it, whatever the case.
pub open spec fn is_searched_for(entry: Tree, filter: Option<Seq<char>>) -> bool {
    filter matches Some(text) ==> is_part_of(
        strings::lowercase(text),
        strings::lowercase(strings::lossy(tree::own_name(entry.name))),
    )
}

proof fn candidates_are_children(parent: Tree, options: Choice)
    ensures
        forall|k: int|
            0 <= k < model::candidates(parent, options).len() ==> parent.children.contains(
                (#[trigger] model::candidates(parent, options)[k]).1,
            ) && match options.filter {
                Some(text) => model::answers(
                    tree::label(model::candidates(parent, options)[k].1),
                    text,
                ),
                None => true,
            },
        forall|child: Tree| #[trigger]
            parent.children.contains(child) && (options.filter matches Some(text)
                ==> model::answers(tree::label(child), text)) ==> exists|k: int|
                0 <= k < model::candidates(parent, options).len() && (
                #[trigger] model::candidates(parent, options)[k]).1 == child,
        options.filter is None ==> model::candidates(parent, options).len()
            == parent.children.len(),
{
    let kind = options.size_kind;
    let less = |a: Tree, b: Tree| tree::outranks(a, b, kind);
    let sorted = order::stable_sort(parent.children, less);
    let all = model::ranked(parent, kind);
    let out = model::candidates(parent, options);
    order::sort_keeps_members(parent.children, less);
    order::sort_is_a_permutation(parent.children, less);
    assert forall|k: int| 0 <= k < all.len() implies parent.children.contains(
        (#[trigger] all[k]).1,
    ) by {
        assert(all[k].1 == sorted[k]);
        assert(sorted.contains(sorted[k]));
    }
    assert forall|child: Tree| #[trigger] parent.children.contains(child) implies exists|k: int|
        0 <= k < all.len() && (#[trigger] all[k]).1 == child by {
        assert(sorted.contains(child));
        let k = choose|k: int| 0 <= k < sorted.len() && sorted[k] == child;
        assert(all[k].1 == child);
    }
    if options.filter is Some {
        let text = options.filter->0;
        let wanted = |entry: Ranked| model::answers(tree::label(entry.1), text);
        assert(out == all.filter(wanted));
        assert forall|k: int| 0 <= k < out.len() implies parent.children.contains(
            (#[trigger] out[k]).1,
        ) && model::answers(tree::label(out[k].1), text) by {
            all.lemma_filter_pred(wanted, k);
            assert(out.contains(out[k]));
            all.lemma_filter_contains_rev(wanted, out[k]);
            let m = choose|m: int| 0 <= m < all.len() && all[m] == out[k];
            assert(all[m].1 == out[k].1);
        }
        assert forall|child: Tree| #[trigger]
            parent.children.contains(child) && model::answers(
                tree::label(child),
                text,
            ) implies exists|k: int| 0 <= k < out.len() && (#[trigger] out[k]).1 == child by {
            let m = choose|m: int| 0 <= m < all.len() && (#[trigger] all[m]).1 == child;
            all.lemma_filter_contains(wanted, m);
            let k = choose|k: int| 0 <= k < out.len() && out[k] == all[m];
            assert(out[k].1 == child);
        }
    }
}

proof fn gathered_are_candidates(parent: Tree, at: Seq<u8>, options: Choice)
    ensures
        ({
            let given = model::gathered_rows(parent, at, options);
            let all = model::candidates(parent, options);
            let count = model::shown_count(all.len(), options) as int;
            &&& 0 <= count <= all.len()
            &&& given.len() == if count < all.len() {
                count + 1
            } else {
                count
            }
            &&& forall|k: int|
                0 <= k < count ==> stands_for(
                    #[trigger] given[k],
                    all[k].1,
                    at,
                    options.size_kind,
                    bytes_of(parent, options.size_kind),
                ) && given[k].color_index == all[k].0 as usize
            &&& count < all.len() ==> given.last().path is None && given.last().name == "Other ("@
                + strings::digits((all.len() - count) as nat) + " entries)"@
        }),
{
    let given = model::gathered_rows(parent, at, options);
    let all = model::candidates(parent, options);
    let count = model::shown_count(all.len(), options) as int;
    let total = tree::size_of(parent, options.size_kind);
    let shown = all.take(count).map_values(
        |entry: Ranked| model::row_for(entry, at, total, options.size_kind),
    );
    assert forall|k: int| 0 <= k < count implies stands_for(
        #[trigger] given[k],
        all[k].1,
        at,
        options.size_kind,
        bytes_of(parent, options.size_kind),
    ) && given[k].color_index == all[k].0 as usize by {
        assert(given[k] == shown[k]);
        assert(shown[k] == model::row_for(all[k], at, total, options.size_kind));
    }
}

/// Every row but the one that stands for the rest is one of the directory's entries, with the
/// figures, the kind and the place of that entry; while something is searched for, its name has it.
pub proof fn rows_are_entries(parent: Tree, at: Seq<u8>, options: Choice, i: int)
    requires
        0 <= i < model::rows_of(parent, at, options).len(),
        model::rows_of(parent, at, options)[i].path is Some,
    ensures
        exists|k: int|
            0 <= k < parent.children.len() && stands_for(
                model::rows_of(parent, at, options)[i],
                #[trigger] parent.children[k],
                at,
                options.size_kind,
                bytes_of(parent, options.size_kind),
            ) && is_searched_for(parent.children[k], options.filter),
{
    let less = |a: Line, b: Line| model::row_before(a, b, options.sort);
    let given = model::gathered_rows(parent, at, options);
    let out = model::rows_of(parent, at, options);
    let all = model::candidates(parent, options);
    order::sort_keeps_members(given, less);
    candidates_are_children(parent, options);
    gathered_are_candidates(parent, at, options);
    assert(out.contains(out[i]));
    let g = choose|g: int| 0 <= g < given.len() && given[g] == out[i];
    let child = all[g].1;
    assert(parent.children.contains(child));
    let k = choose|k: int| 0 <= k < parent.children.len() && parent.children[k] == child;
    if options.filter is Some {
        searching_finds_text(child, options.filter->0);
    }
    assert(stands_for(
        out[i],
        parent.children[k],
        at,
        options.size_kind,
        bytes_of(parent, options.size_kind),
    ));
}

proof fn searching_finds_text(entry: Tree, text: Seq<char>)
    ensures
        model::answers(tree::label(entry), text) <==> is_searched_for(entry, Some(text)),
{
    let name = strings::lowercase(strings::lossy(tree::own_name(entry.name)));
    let wanted = strings::lowercase(text);
    assert(is_part_of(wanted, name) == strings::holds(name, wanted));
}

/// Nothing is left out of a list that is not capped, nor of one that is searched: each of the
/// directory's entries that is searched for has its row, and no row stands for several.
pub proof fn every_entry_has_its_row(parent: Tree, at: Seq<u8>, options: Choice, child: int)
    requires
        0 <= child < parent.children.len(),
        is_searched_for(parent.children[child], options.filter),
        options.top is None || (options.filter is Some && options.filter->0.len() > 0),
    ensures
        ({
            let rows = model::rows_of(parent, at, options);
            &&& exists|i: int|
                0 <= i < rows.len() && stands_for(
                    #[trigger] rows[i],
                    parent.children[child],
                    at,
                    options.size_kind,
                    bytes_of(parent, options.size_kind),
                )
            &&& forall|i: int| 0 <= i < rows.len() ==> (#[trigger] rows[i]).path is Some
            &&& options.filter is None ==> rows.len() == parent.children.len()
        }),
{
    let less = |a: Line, b: Line| model::row_before(a, b, options.sort);
    let given = model::gathered_rows(parent, at, options);
    let out = model::rows_of(parent, at, options);
    let all = model::candidates(parent, options);
    order::sort_keeps_members(given, less);
    order::sort_is_a_permutation(given, less);
    candidates_are_children(parent, options);
    gathered_are_candidates(parent, at, options);
    let entry = parent.children[child];
    if options.filter is Some {
        searching_finds_text(entry, options.filter->0);
    }
    assert(parent.children.contains(entry));
    let k = choose|k: int| 0 <= k < all.len() && (#[trigger] all[k]).1 == entry;
    assert(given.contains(given[k]));
    assert(out.contains(given[k]));
    let i = choose|i: int| 0 <= i < out.len() && out[i] == given[k];
    assert(stands_for(
        out[i],
        parent.children[child],
        at,
        options.size_kind,
        bytes_of(parent, options.size_kind),
    ));
    assert forall|i: int| 0 <= i < out.len() implies (#[trigger] out[i]).path is Some by {
        assert(out.contains(out[i]));
        let g = choose|g: int| 0 <= g < given.len() && given[g] == out[i];
    }
}

/// A capped list of a directory that nothing is searched in shows as many entries as the cap says,
/// none of them smaller than one that is not shown, and then a row that says how many it stands for.
/// Where there are no more entries than the cap, there is a row for each and no such row.
pub proof fn the_largest_are_shown(parent: Tree, at: Seq<u8>, options: Choice, top: usize)
    requires
        options.filter is None,
        options.top == Some(top),
    ensures
        ({
            let rows = model::rows_of(parent, at, options);
            let kind = options.size_kind;
            &&& parent.children.len() <= top ==> rows.len() == parent.children.len() && forall|i: int|
                0 <= i < rows.len() ==> (#[trigger] rows[i]).path is Some
            &&& parent.children.len() > top ==> {
                &&& rows.len() == top + 1
                &&& rows[top as int].path is None
                &&& rows[top as int].name == "Other ("@ + strings::digits(
                    (parent.children.len() - top) as nat,
                ) + " entries)"@
                &&& forall|i: int| 0 <= i < top ==> (#[trigger] rows[i]).path is Some
                &&& forall|c: int|
                    0 <= c < parent.children.len() ==> {
                        ||| exists|i: int|
                            0 <= i < top && stands_for(
                                #[trigger] rows[i],
                                #[trigger] parent.children[c],
                                at,
                                kind,
                                bytes_of(parent, kind),
                            )
                        ||| forall|i: int|
                            0 <= i < top ==> (#[trigger] rows[i]).size >= bytes_of(
                                parent.children[c],
                                kind,
                            )
                    }
            }
        }),
{
    let kind = options.size_kind;
    let less = |a: Line, b: Line| model::row_before(a, b, options.sort);
    let given = model::gathered_rows(parent, at, options);
    let out = model::rows_of(parent, at, options);
    let all = model::candidates(parent, options);
    let outranks = |a: Tree, b: Tree| tree::outranks(a, b, kind);
    let sorted = order::stable_sort(parent.children, outranks);
    order::sort_keeps_members(given, less);
    order::sort_is_a_permutation(given, less);
    candidates_are_children(parent, options);
    gathered_are_candidates(parent, at, options);
    model::other_comes_last(parent, at, options);
    tree::outranks_is_an_order(kind);
    order::sort_orders(parent.children, outranks);
    order::sort_is_a_permutation(parent.children, outranks);
    let count = model::shown_count(all.len(), options) as int;
    assert forall|i: int| 0 <= i < out.len() implies given.contains(#[trigger] out[i]) by {
        assert(out.contains(out[i]));
    }
    if parent.children.len() > top {
        assert(given.contains(given[count]));
        assert(out.contains(given[count]));
        let last = choose|i: int| 0 <= i < out.len() && out[i] == given[count];
        assert(last == top);
        assert forall|c: int| 0 <= c < parent.children.len() implies {
            ||| exists|i: int|
                0 <= i < top && stands_for(
                    #[trigger] out[i],
                    #[trigger] parent.children[c],
                    at,
                    kind,
                    bytes_of(parent, kind),
                )
            ||| forall|i: int|
                0 <= i < top ==> (#[trigger] out[i]).size >= bytes_of(parent.children[c], kind)
        } by {
            let entry = parent.children[c];
            assert(parent.children.contains(entry));
            let k = choose|k: int| 0 <= k < all.len() && (#[trigger] all[k]).1 == entry;
            if k < count {
                assert(given.contains(given[k]));
                assert(out.contains(given[k]));
                let i = choose|i: int| 0 <= i < out.len() && out[i] == given[k];
                assert(i < top) by {
                    assert(out[i].path is Some);
                }
                assert(stands_for(out[i], parent.children[c], at, kind, bytes_of(parent, kind)));
            } else {
                assert forall|i: int| 0 <= i < top implies (#[trigger] out[i]).size >= bytes_of(
                    entry,
                    kind,
                ) by {
                    let g = choose|g: int| 0 <= g < given.len() && given[g] == out[i];
                    assert(out[i].path is Some);
                    assert(g < count);
                    assert(all[g].1 == sorted[g] && all[k].1 == sorted[k]);
                    assert(!outranks(sorted[k], sorted[g]));
                }
            }
        }
    } else {
        assert forall|i: int| 0 <= i < out.len() implies (#[trigger] out[i]).path is Some by {
            let g = choose|g: int| 0 <= g < given.len() && given[g] == out[i];
        }
    }
}

/// Colours go by size whatever the order on screen: of two rows of a list that nothing is searched
/// in, the one with the earlier colour is no smaller, no two rows share one, and together they take
/// the first ones.
pub proof fn colours_go_by_size(parent: Tree, at: Seq<u8>, options: Choice, i: int, j: int)
    requires
        options.filter is None,
        parent.children.len() <= usize::MAX,
        0 <= i < model::rows_of(parent, at, options).len(),
        0 <= j < model::rows_of(parent, at, options).len(),
        i != j,
        model::rows_of(parent, at, options)[i].path is Some,
        model::rows_of(parent, at, options)[j].path is Some,
    ensures
        ({
            let rows = model::rows_of(parent, at, options);
            &&& rows[i].color_index < rows[j].color_index ==> rows[i].size >= rows[j].size
            &&& rows[i].color_index != rows[j].color_index
            &&& rows[i].color_index < rows.len()
        }),
{
    broadcast use vstd::seq_lib::group_to_multiset_ensures;

    let kind = options.size_kind;
    let less = |a: Line, b: Line| model::row_before(a, b, options.sort);
    let given = model::gathered_rows(parent, at, options);
    let out = model::rows_of(parent, at, options);
    let all = model::candidates(parent, options);
    let outranks = |a: Tree, b: Tree| tree::outranks(a, b, kind);
    let sorted = order::stable_sort(parent.children, outranks);
    order::sort_keeps_members(given, less);
    order::sort_is_a_permutation(given, less);
    candidates_are_children(parent, options);
    gathered_are_candidates(parent, at, options);
    tree::outranks_is_an_order(kind);
    order::sort_orders(parent.children, outranks);
    order::sort_is_a_permutation(parent.children, outranks);
    assert(out.contains(out[i]) && out.contains(out[j]));
    let g = choose|g: int| 0 <= g < given.len() && given[g] == out[i];
    let h = choose|h: int| 0 <= h < given.len() && given[h] == out[j];
    assert(all[g] == (g, sorted[g]) && all[h] == (h, sorted[h]));
    assert(out[i].color_index == g && out[j].color_index == h);
    if g < h {
        assert(!outranks(sorted[h], sorted[g]));
    }
    if g == h {
        once_in(given, g);
        let (low, high) = if i < j {
            (i, j)
        } else {
            (j, i)
        };
        twice_in(out, low, high);
    }
}

proof fn twice_in(out: Seq<Line>, i: int, j: int)
    requires
        0 <= i < j < out.len(),
        out[i] == out[j],
    ensures
        out.to_multiset().count(out[i]) >= 2,
{
    broadcast use vstd::seq_lib::group_to_multiset_ensures;

    let rest = out.remove(j);
    assert(rest[i] == out[i]);
    assert(rest.to_multiset() =~= out.to_multiset().remove(out[j]));
    assert(rest.contains(out[i]));
    assert(rest.to_multiset().count(out[i]) > 0);
}

proof fn once_in(given: Seq<Line>, g: int)
    requires
        0 <= g < given.len(),
        forall|k: int| 0 <= k < given.len() && k != g ==> #[trigger] given[k] != given[g],
    ensures
        given.to_multiset().count(given[g]) <= 1,
{
    broadcast use vstd::seq_lib::group_to_multiset_ensures;

    let rest = given.remove(g);
    assert(rest.to_multiset() =~= given.to_multiset().remove(given[g]));
    if rest.to_multiset().count(given[g]) > 0 {
        assert(rest.contains(given[g]));
        let k = choose|k: int| 0 <= k < rest.len() && rest[k] == given[g];
        if k < g {
            assert(given[k] == given[g]);
        } else {
            assert(given[k + 1] == given[g]);
        }
    }
}

/// How much something changed, whichever way.
pub open spec fn extent(delta: i64) -> nat {
    if delta < 0 {
        (-(delta as int)) as nat
    } else {
        delta as nat
    }
}

/// Whether a row is one of the entries that changed, with its change and the size that it has now.
pub open spec fn tells_a_change(row: Line, node: Moves) -> bool {
    exists|k: int|
        0 <= k < node.children.len() && row.path == Some(
            (#[trigger] node.children[k]).change.path,
        ) && row.delta == Some(node.children[k].change.delta) && row.size
            == node.children[k].change.after && node.children[k].change.delta != 0
}

/// The growth rows are entries that changed, those that changed most first, whichever way, and no
/// more than the cap.
pub proof fn growth_rows_are_changes(node: Moves, options: Choice)
    requires
        options.filter is None,
    ensures
        ({
            let rows = model::growth_rows_of(node, options);
            &&& forall|i: int| 0 <= i < rows.len() ==> tells_a_change(#[trigger] rows[i], node)
            &&& forall|i: int, j: int|
                0 <= i < j < rows.len() ==> extent((#[trigger] rows[i]).delta->0) >= extent(
                    (#[trigger] rows[j]).delta->0,
                )
            &&& options.top matches Some(top) ==> rows.len() <= top
        }),
{
    let less = |a: Line, b: Line|
        model::weight(a, model::Metric::Growth) > model::weight(b, model::Metric::Growth);
    let given = model::change_rows(node, node.children.len(), None);
    let sorted = order::stable_sort(given, less);
    let rows = model::growth_rows_of(node, options);
    let scale = scale_of(sorted);
    changes_have_rows(node, node.children.len());
    order::sort_keeps_members(given, less);
    order::sort_orders(given, less);
    order::sort_is_a_permutation(given, less);
    rows_are_scaled(node, options);
    assert forall|i: int| 0 <= i < rows.len() implies tells_a_change(#[trigger] rows[i], node) by {
        assert(rows[i] == model::scaled_row(sorted[i], i, scale));
        assert(sorted.contains(sorted[i]));
        let g = choose|g: int| 0 <= g < given.len() && given[g] == sorted[i];
        assert(tells_a_change(given[g], node));
    }
    assert forall|i: int, j: int| 0 <= i < j < rows.len() implies extent(
        (#[trigger] rows[i]).delta->0,
    ) >= extent((#[trigger] rows[j]).delta->0) by {
        assert(rows[i] == model::scaled_row(sorted[i], i, scale));
        assert(rows[j] == model::scaled_row(sorted[j], j, scale));
        assert(tells_a_change(rows[i], node) && tells_a_change(rows[j], node));
        assert(!less(sorted[j], sorted[i]));
    }
}

/// None that changed is missing from growth rows that are neither capped nor searched.
pub proof fn every_change_has_its_row(node: Moves, options: Choice, k: int)
    requires
        options.filter is None,
        options.top is None,
        0 <= k < node.children.len(),
        node.children[k].change.delta != 0,
    ensures
        ({
            let rows = model::growth_rows_of(node, options);
            exists|i: int|
                0 <= i < rows.len() && (#[trigger] rows[i]).path == Some(
                    node.children[k].change.path,
                ) && rows[i].delta == Some(node.children[k].change.delta)
        }),
{
    let less = |a: Line, b: Line|
        model::weight(a, model::Metric::Growth) > model::weight(b, model::Metric::Growth);
    let given = model::change_rows(node, node.children.len(), None);
    let sorted = order::stable_sort(given, less);
    let rows = model::growth_rows_of(node, options);
    let line = model::change_row(node.children[k].change);
    changes_have_rows(node, node.children.len());
    order::sort_keeps_members(given, less);
    rows_are_scaled(node, options);
    assert(given.contains(line));
    assert(sorted.contains(line));
    let i = choose|i: int| 0 <= i < sorted.len() && sorted[i] == line;
    assert(rows[i] == model::scaled_row(sorted[i], i, scale_of(sorted)));
}

spec fn scale_of(sorted: Seq<Line>) -> nat {
    if sorted.len() > 0 {
        model::weight(sorted[0], model::Metric::Growth)
    } else {
        0
    }
}

proof fn rows_are_scaled(node: Moves, options: Choice)
    requires
        options.filter is None,
    ensures
        ({
            let sorted = order::stable_sort(
                model::change_rows(node, node.children.len(), None),
                |a: Line, b: Line|
                    model::weight(a, model::Metric::Growth) > model::weight(
                        b,
                        model::Metric::Growth,
                    ),
            );
            let rows = model::growth_rows_of(node, options);
            &&& rows.len() <= sorted.len()
            &&& options.top is None ==> rows.len() == sorted.len()
            &&& options.top matches Some(top) ==> rows.len() <= top
            &&& forall|i: int|
                0 <= i < rows.len() ==> #[trigger] rows[i] == model::scaled_row(
                    sorted[i],
                    i,
                    scale_of(sorted),
                )
        }),
{
    let sorted = order::stable_sort(
        model::change_rows(node, node.children.len(), options.filter),
        |a: Line, b: Line|
            model::weight(a, model::Metric::Growth) > model::weight(b, model::Metric::Growth),
    );
    let scale = scale_of(sorted);
    let scaled = sorted.map(|rank: int, line: Line| model::scaled_row(line, rank, scale));
    assert forall|i: int| 0 <= i < scaled.len() implies #[trigger] scaled[i] == model::scaled_row(
        sorted[i],
        i,
        scale,
    ) by {
    }
}

proof fn changes_have_rows(node: Moves, count: nat)
    requires
        count <= node.children.len(),
    ensures
        ({
            let rows = model::change_rows(node, count, None);
            &&& forall|i: int| 0 <= i < rows.len() ==> tells_a_change(#[trigger] rows[i], node)
            &&& forall|k: int|
                0 <= k < count && (#[trigger] node.children[k]).change.delta != 0
                    ==> rows.contains(model::change_row(node.children[k].change))
        }),
    decreases count,
{
    if count > 0 {
        let fewer = (count - 1) as nat;
        let before = model::change_rows(node, fewer, None);
        let rows = model::change_rows(node, count, None);
        changes_have_rows(node, fewer);
        assert forall|i: int| 0 <= i < rows.len() implies tells_a_change(
            #[trigger] rows[i],
            node,
        ) by {
            if i < before.len() {
                assert(rows[i] == before[i]);
            } else {
                assert(rows[i] == model::change_row(node.children[count - 1].change));
            }
        }
        assert forall|k: int|
            0 <= k < count && (#[trigger] node.children[k]).change.delta != 0 implies rows.contains(
            model::change_row(node.children[k].change),
        ) by {
            let line = model::change_row(node.children[k].change);
            if k < fewer {
                assert(before.contains(line));
                let i = choose|i: int| 0 <= i < before.len() && before[i] == line;
                assert(rows[i] == line);
            } else {
                assert(rows[rows.len() - 1] == line);
            }
        }
    }
}

} // verus!
