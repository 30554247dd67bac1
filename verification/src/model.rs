//! The view model that every output reads from.
//!
//! Turning a scanned tree into rows (sorting, filtering, capping to the top N and folding the rest
//! into "Other") happens once, here, so that plain output and the interactive view can never
//! disagree about what the biggest thing is.

use vstd::prelude::*;
use vstd::utf8::encode_utf8;
use crate::diff;
use crate::diff::{ChangeNode, Moves};
use crate::double;
use crate::double::Double;
use crate::order;
use crate::path;
use crate::path::FilePath;
use crate::size;
use crate::size::SizeKind;
use crate::strings;
use crate::tree;
use crate::tree::{DiskEntry, EntryType, Tree};

verus! {

/// What the rows and the chart are measuring.
#[derive(Copy, Clone, Debug, PartialEq, Eq, Structural)]
pub enum Metric {
    /// How much space something takes.
    Size,
    /// How much it changed since the last scan.
    Growth,
}

impl Default for Metric {
    fn default() -> (metric: Metric)
        ensures
            metric == Metric::Size,
    {
        Metric::Size
    }
}

impl Metric {
    pub fn label(self) -> (label: &'static str)
        ensures
            label@ == match self {
                Metric::Size => "size"@,
                Metric::Growth => "growth"@,
            },
    {
        match self {
            Metric::Size => "size",
            Metric::Growth => "growth",
        }
    }
}

#[derive(Copy, Clone, Debug, PartialEq, Eq, Structural)]
pub enum Sort {
    Size,
    Name,
    Items,
}

impl Default for Sort {
    fn default() -> (sort: Sort)
        ensures
            sort == Sort::Size,
    {
        Sort::Size
    }
}

/// The sort that comes after another.
pub open spec fn sort_after(sort: Sort) -> Sort {
    match sort {
        Sort::Size => Sort::Name,
        Sort::Name => Sort::Items,
        Sort::Items => Sort::Size,
    }
}

impl Sort {
    pub fn next(self) -> (sort: Sort)
        ensures
            sort == sort_after(self),
    {
        match self {
            Sort::Size => Sort::Name,
            Sort::Name => Sort::Items,
            Sort::Items => Sort::Size,
        }
    }

    pub fn label(self) -> (label: &'static str)
        ensures
            label@ == sort_label(self),
    {
        match self {
            Sort::Size => "size",
            Sort::Name => "name",
            Sort::Items => "items",
        }
    }
}

pub open spec fn sort_label(sort: Sort) -> Seq<char> {
    match sort {
        Sort::Size => "size"@,
        Sort::Name => "name"@,
        Sort::Items => "items"@,
    }
}

/// Stepping through the sorts three times leads back to where it began, and no sooner.
pub proof fn sorts_cycle(sort: Sort)
    ensures
        sort_after(sort_after(sort_after(sort))) == sort,
        sort_after(sort) != sort,
        sort_after(sort_after(sort)) != sort,
{
}

#[derive(Debug)]
pub struct Row {
    /// `None` for the synthetic "Other" row, which stands for several entries.
    pub path: Option<FilePath>,
    pub name: String,
    pub size: u64,
    /// How much this entry changed, when a comparison is loaded.
    pub delta: Option<i64>,
    pub items: u64,
    /// Share of the parent directory.
    pub fraction: Double,
    /// Rank by size, so a row keeps its colour when the sort changes.
    pub color_index: usize,
    pub is_dir: bool,
}

/// A row as a value.
#[verifier::ext_equal]
pub struct Line {
    pub path: Option<Seq<u8>>,
    pub name: Seq<char>,
    pub size: u64,
    pub delta: Option<i64>,
    pub items: u64,
    pub fraction: double::Dyadic,
    pub color_index: usize,
    pub is_dir: bool,
}

impl View for Row {
    type V = Line;

    open spec fn view(&self) -> Line {
        Line {
            path: match self.path {
                Some(path) => Some(path@),
                None => None,
            },
            name: self.name@,
            size: self.size,
            delta: self.delta,
            items: self.items,
            fraction: self.fraction@,
            color_index: self.color_index,
            is_dir: self.is_dir,
        }
    }
}

pub open spec fn lines(rows: Seq<Row>) -> Seq<Line> {
    rows.map_values(|row: Row| row@)
}

/// Whether every row's share is a share that can be printed.
pub open spec fn rows_valid(rows: Seq<Row>) -> bool {
    forall|i: int| 0 <= i < rows.len() ==> (#[trigger] rows[i]).fraction.valid()
}

/// What a row is ranked and drawn by.
pub open spec fn weight(line: Line, metric: Metric) -> nat {
    match metric {
        Metric::Size => line.size as nat,
        Metric::Growth => match line.delta {
            Some(delta) => diff::magnitude(delta as int),
            None => 0,
        },
    }
}

impl Row {
    pub fn is_other(&self) -> (yes: bool)
        ensures
            yes == (self@.path is None),
    {
        self.path.is_none()
    }

    /// The number this row is being ranked and drawn by.
    pub fn magnitude(&self, metric: Metric) -> (out: u64)
        ensures
            out == weight(self@, metric),
    {
        match metric {
            Metric::Size => self.size,
            Metric::Growth => match self.delta {
                Some(delta) => diff::size_of_move(delta),
                None => 0,
            },
        }
    }
}

#[derive(Debug)]
pub struct RowOptions {
    pub size_kind: SizeKind,
    /// Cap the list, folding everything past it into "Other".
    pub top: Option<usize>,
    pub sort: Sort,
    /// Case-insensitive substring filter on the entry name.
    pub filter: Option<String>,
}

/// The same, as a value.
#[verifier::ext_equal]
pub struct Choice {
    pub size_kind: SizeKind,
    pub top: Option<usize>,
    pub sort: Sort,
    pub filter: Option<Seq<char>>,
}

impl View for RowOptions {
    type V = Choice;

    open spec fn view(&self) -> Choice {
        Choice {
            size_kind: self.size_kind,
            top: self.top,
            sort: self.sort,
            filter: match self.filter {
                Some(filter) => Some(filter@),
                None => None,
            },
        }
    }
}

impl Default for RowOptions {
    fn default() -> (options: RowOptions)
        ensures
            options@ == (Choice {
                size_kind: SizeKind::Allocated,
                top: None,
                sort: Sort::Size,
                filter: None,
            }),
    {
        RowOptions { size_kind: SizeKind::Allocated, top: None, sort: Sort::Size, filter: None }
    }
}

/// An entry and where it ranks by size.
pub type Ranked = (int, Tree);

/// The children of an entry by size, each with its rank.
///
/// Ranking by size comes first and stays on every row: colours in the legend, the bars and the
/// chart then agree no matter how the list is ordered on screen.
pub open spec fn ranked(parent: Tree, kind: SizeKind) -> Seq<Ranked> {
    order::stable_sort(parent.children, |a: Tree, b: Tree| tree::outranks(a, b, kind)).map(
        |rank: int, child: Tree| (rank, child),
    )
}

/// Whether a name answers to a filter.
pub open spec fn answers(name: Seq<char>, filter: Seq<char>) -> bool {
    strings::holds(strings::lowercase(name), strings::lowercase(filter))
}

/// The children that answer to the filter, where there is one.
pub open spec fn candidates(parent: Tree, options: Choice) -> Seq<Ranked> {
    match options.filter {
        None => ranked(parent, options.size_kind),
        Some(filter) => ranked(parent, options.size_kind).filter(
            |entry: Ranked| answers(tree::label(entry.1), filter),
        ),
    }
}

/// How many rows are shown before the rest is folded together. "Other" only makes sense over a
/// complete list; while filtering, the user asked to see a subset and hiding part of it again would
/// be perverse.
pub open spec fn shown_count(total: nat, options: Choice) -> nat {
    if options.filter is Some && options.filter->0.len() > 0 {
        total
    } else {
        match options.top {
            Some(top) => if total > top {
                top as nat
            } else {
                total
            },
            None => total,
        }
    }
}

/// The row for one entry.
pub open spec fn row_for(entry: Ranked, at: Seq<u8>, total: u64, kind: SizeKind) -> Line {
    Line {
        path: Some(path::joined(at, tree::own_name(entry.1.name))),
        name: tree::label(entry.1),
        size: tree::size_of(entry.1, kind),
        delta: None,
        items: entry.1.items,
        fraction: size::share(tree::size_of(entry.1, kind) as nat, total as nat),
        color_index: entry.0 as usize,
        is_dir: entry.1.entry_type == EntryType::Directory,
    }
}

/// What some entries come to together.
pub open spec fn size_together(entries: Seq<Ranked>, kind: SizeKind) -> u64
    decreases entries.len(),
{
    if entries.len() == 0 {
        0
    } else {
        tree::wrapped(
            size_together(entries.drop_last(), kind),
            tree::size_of(entries.last().1, kind),
        )
    }
}

pub open spec fn items_together(entries: Seq<Ranked>) -> u64
    decreases entries.len(),
{
    if entries.len() == 0 {
        0
    } else {
        tree::wrapped(items_together(entries.drop_last()), entries.last().1.items)
    }
}

/// The one row that stands for all the entries not shown.
pub open spec fn other_row(hidden: Seq<Ranked>, total: u64, kind: SizeKind) -> Line {
    Line {
        path: None,
        name: "Other ("@ + strings::digits(hidden.len()) + " entries)"@,
        size: size_together(hidden, kind),
        delta: None,
        items: items_together(hidden),
        fraction: size::share(size_together(hidden, kind) as nat, total as nat),
        color_index: usize::MAX,
        is_dir: false,
    }
}

/// The rows before they are put in the order that is asked for.
pub open spec fn gathered_rows(parent: Tree, at: Seq<u8>, options: Choice) -> Seq<Line> {
    let total = tree::size_of(parent, options.size_kind);
    let all = candidates(parent, options);
    let count = shown_count(all.len(), options) as int;
    let shown = all.take(count).map_values(
        |entry: Ranked| row_for(entry, at, total, options.size_kind),
    );
    if count < all.len() {
        shown.push(other_row(all.skip(count), total, options.size_kind))
    } else {
        shown
    }
}

/// Whether one row comes before another. "Other" stays pinned last: it is a summary of the tail,
/// not a row that competes with the rest.
pub open spec fn row_before(a: Line, b: Line, sort: Sort) -> bool {
    ||| a.path is Some && b.path is None
    ||| (a.path is None) == (b.path is None) && match sort {
        Sort::Size => a.size > b.size || (a.size == b.size && strings::text_precedes(
            a.name,
            b.name,
        )),
        Sort::Name => strings::text_precedes(
            strings::lowercase(a.name),
            strings::lowercase(b.name),
        ),
        Sort::Items => a.items > b.items || (a.items == b.items && strings::text_precedes(
            a.name,
            b.name,
        )),
    }
}

/// The rows of a directory.
pub open spec fn rows_of(parent: Tree, at: Seq<u8>, options: Choice) -> Seq<Line> {
    order::stable_sort(
        gathered_rows(parent, at, options),
        |a: Line, b: Line| row_before(a, b, options.sort),
    )
}

proof fn texts_are_ordered(x: Seq<char>, y: Seq<char>, z: Seq<char>)
    ensures
        strings::text_precedes(x, y) && strings::text_precedes(y, z) ==> strings::text_precedes(
            x,
            z,
        ),
        strings::text_precedes(x, z) ==> strings::text_precedes(x, y) || strings::text_precedes(
            y,
            z,
        ),
        !strings::text_precedes(x, x),
{
    let (a, b, c) = (encode_utf8(x), encode_utf8(y), encode_utf8(z));
    if strings::precedes(a, b) && strings::precedes(b, c) {
        strings::precedes_is_transitive(a, b, c);
    }
    if strings::precedes(a, c) {
        strings::precedes_is_weak(a, b, c);
    }
    strings::precedes_is_irreflexive(a);
}

pub proof fn rows_are_ordered(sort: Sort)
    ensures
        order::strict_weak(|a: Line, b: Line| row_before(a, b, sort)),
{
    let less = |a: Line, b: Line| row_before(a, b, sort);
    assert forall|x: Line, y: Line, z: Line| #[trigger] less(x, y) && #[trigger] less(
        y,
        z,
    ) implies less(x, z) by {
        texts_are_ordered(x.name, y.name, z.name);
        texts_are_ordered(
            strings::lowercase(x.name),
            strings::lowercase(y.name),
            strings::lowercase(z.name),
        );
    }
    assert forall|x: Line, y: Line, z: Line|
        #![trigger less(x, z), less(x, y)]
        #![trigger less(x, z), less(y, z)]
        less(x, z) implies less(x, y) || less(y, z) by {
        texts_are_ordered(x.name, y.name, z.name);
        texts_are_ordered(
            strings::lowercase(x.name),
            strings::lowercase(y.name),
            strings::lowercase(z.name),
        );
    }
    assert forall|x: Line| !#[trigger] less(x, x) by {
        texts_are_ordered(x.name, x.name, x.name);
        texts_are_ordered(
            strings::lowercase(x.name),
            strings::lowercase(x.name),
            strings::lowercase(x.name),
        );
    }
}

fn text_before(a: &str, b: &str) -> (yes: bool)
    ensures
        yes == strings::text_precedes(a@, b@),
{
    strings::bytes_precede(a.as_bytes(), b.as_bytes())
}

fn goes_before(a: &Row, b: &Row, sort: Sort) -> (yes: bool)
    ensures
        yes == row_before(a@, b@, sort),
{
    let (first, second) = (a.is_other(), b.is_other());
    if first != second {
        return second;
    }
    match sort {
        Sort::Size => a.size > b.size || (a.size == b.size && text_before(
            a.name.as_str(),
            b.name.as_str(),
        )),
        Sort::Name => text_before(
            strings::to_lowercase(a.name.as_str()).as_str(),
            strings::to_lowercase(b.name.as_str()).as_str(),
        ),
        Sort::Items => a.items > b.items || (a.items == b.items && text_before(
            a.name.as_str(),
            b.name.as_str(),
        )),
    }
}

/// The rows in the order that is asked for.
pub fn sort_rows(rows: Vec<Row>, sort: Sort) -> (out: Vec<Row>)
    ensures
        lines(out@) == order::stable_sort(
            lines(rows@),
            |a: Line, b: Line| row_before(a, b, sort),
        ),
        rows_valid(rows@) ==> rows_valid(out@),
{
    let ghost key = |row: Row| row@;
    let ghost less = |a: Line, b: Line| row_before(a, b, sort);
    let ghost by_key = |a: Row, b: Row| less(key(a), key(b));
    proof {
        rows_are_ordered(sort);
        order::order_by_key(key, less);
        order::sort_maps(rows@, key, less);
        order::sort_keeps_members(rows@, by_key);
    }
    let before_it = |a: &Row, b: &Row| -> (yes: bool)
        ensures
            yes == row_before(a@, b@, sort),
        { goes_before(a, b, sort) };
    let ghost given = rows@;
    let out = order::sort_stably(rows, &before_it, Ghost(by_key));
    proof {
        if rows_valid(given) {
            assert forall|i: int| 0 <= i < out@.len() implies (
            #[trigger] out@[i]).fraction.valid() by {
                assert(out@.contains(out@[i]));
                let p = choose|p: int| 0 <= p < given.len() && given[p] == out@[i];
                assert(given[p].fraction.valid());
            }
        }
    }
    out
}

/// The entries and ranks of a list, as values.
pub open spec fn ranks(list: Seq<(usize, &DiskEntry)>) -> Seq<Ranked> {
    list.map_values(|item: (usize, &DiskEntry)| (item.0 as int, item.1@))
}

/// The children of an entry by size, each with its rank.
pub(crate) fn rank_children<'a>(parent: &'a DiskEntry, kind: SizeKind) -> (out: Vec<(usize, &'a DiskEntry)>)
    ensures
        ranks(out@) == ranked(parent@, kind),
{
    let mut children: Vec<&'a DiskEntry> = Vec::new();
    let ghost value = |entry: &DiskEntry| entry@;
    let mut at: usize = 0;
    while at < parent.children.len()
        invariant
            at <= parent.children.len(),
            children@.len() == at,
            forall|i: int| 0 <= i < at ==> *(#[trigger] children@[i]) == parent.children@[i],
        decreases parent.children.len() - at,
    {
        children.push(&parent.children[at]);
        at += 1;
    }
    let ghost less = |a: Tree, b: Tree| tree::outranks(a, b, kind);
    let ghost by_key = |a: &DiskEntry, b: &DiskEntry| less(value(a), value(b));
    proof {
        assert(children@.map_values(value) =~= parent@.children);
        tree::outranks_is_an_order(kind);
        order::order_by_key(value, less);
        order::sort_maps(children@, value, less);
    }
    let before_it = |a: &&DiskEntry, b: &&DiskEntry| -> (yes: bool)
        ensures
            yes == tree::outranks(a@, b@, kind),
        { a.goes_before(b, kind) };
    let sorted = order::sort_stably(children, &before_it, Ghost(by_key));
    let mut out: Vec<(usize, &'a DiskEntry)> = Vec::new();
    let mut rank: usize = 0;
    while rank < sorted.len()
        invariant
            rank <= sorted.len(),
            out@.len() == rank,
            forall|i: int|
                0 <= i < rank ==> (#[trigger] out@[i]).0 == i && out@[i].1 == sorted@[i],
        decreases sorted.len() - rank,
    {
        out.push((rank, sorted[rank]));
        rank += 1;
    }
    assert(ranks(out@) =~= ranked(parent@, kind));
    out
}

fn keep_matching<'a>(list: Vec<(usize, &'a DiskEntry)>, filter: &str) -> (out: Vec<
    (usize, &'a DiskEntry),
>)
    ensures
        ranks(out@) == ranks(list@).filter(
            |entry: Ranked| answers(tree::label(entry.1), filter@),
        ),
{
    let needle = strings::to_lowercase(filter);
    let ghost all = ranks(list@);
    let ghost wanted = |entry: Ranked| answers(tree::label(entry.1), filter@);
    let mut out: Vec<(usize, &'a DiskEntry)> = Vec::new();
    let mut at: usize = 0;
    assert(ranks(out@) =~= all.take(0).filter(wanted)) by {
        assert(all.take(0) =~= Seq::empty());
        reveal(Seq::filter);
    }
    while at < list.len()
        invariant
            at <= list.len(),
            all == ranks(list@),
            needle@ == strings::lowercase(filter@),
            wanted == (|entry: Ranked| answers(tree::label(entry.1), filter@)),
            ranks(out@) == all.take(at as int).filter(wanted),
        decreases list.len() - at,
    {
        let (rank, entry): (usize, &'a DiskEntry) = list[at];
        let ghost before = out@;
        proof {
            assert(all[at as int] == (rank as int, entry@));
            assert(all.take(at + 1) =~= all.take(at as int).push(all[at as int]));
            all.take(at as int).lemma_filter_push(all[at as int], wanted);
        }
        if strings::contains(
            strings::to_lowercase(entry.name().as_str()).as_str(),
            needle.as_str(),
        ) {
            out.push((rank, entry));
            assert(ranks(out@) =~= ranks(before).push(all[at as int]));
        }
        at += 1;
    }
    assert(all.take(at as int) =~= all);
    out
}

/// `parent_path` is where `parent` sits: entries below the root of a scan hold only their own name,
/// so a row's full path is built here from the two.
pub fn rows(parent_path: &FilePath, parent: &DiskEntry, options: &RowOptions) -> (out: Vec<Row>)
    ensures
        lines(out@) == rows_of(parent@, parent_path@, options@),
        rows_valid(out@),
{
    let kind = options.size_kind;
    let total: u64 = parent.size(kind);
    let ranked = rank_children(parent, kind);
    let (entries, filtering) = match &options.filter {
        Some(filter) => (
            keep_matching(ranked, filter.as_str()),
            filter.as_str().unicode_len() > 0,
        ),
        None => (ranked, false),
    };
    let ghost all = candidates(parent@, options@);
    assert(ranks(entries@) == all);
    assert(all.len() == entries@.len());
    let mut count: usize = entries.len();
    if !filtering {
        if let Some(top) = options.top {
            if entries.len() > top {
                count = top;
            }
        }
    }
    assert(count == shown_count(all.len(), options@));
    let ghost goal = all.take(count as int).map_values(
        |entry: Ranked| row_for(entry, parent_path@, total, kind),
    );
    let mut out: Vec<Row> = Vec::new();
    let mut at: usize = 0;
    while at < count
        invariant
            at <= count <= entries.len(),
            ranks(entries@) == all,
            goal == all.take(count as int).map_values(
                |entry: Ranked| row_for(entry, parent_path@, total, kind),
            ),
            out@.len() == at,
            forall|i: int| 0 <= i < at ==> (#[trigger] out@[i])@ == goal[i],
            rows_valid(out@),
        decreases count - at,
    {
        let (rank, entry): (usize, &DiskEntry) = entries[at];
        assert(all[at as int] == (rank as int, entry@));
        let row = Row {
            path: Some(parent_path.join_name(&entry.name_os())),
            name: entry.name(),
            size: entry.size(kind),
            delta: None,
            items: entry.items,
            fraction: size::fraction(entry.size(kind), total),
            color_index: rank,
            is_dir: entry.is_dir(),
        };
        assert(row@ == goal[at as int]);
        out.push(row);
        at += 1;
    }
    assert(lines(out@) =~= goal);
    if count < entries.len() {
        let ghost hidden = all.skip(count as int);
        let mut size: u64 = 0;
        let mut items: u64 = 0;
        assert(hidden.take(0) =~= Seq::empty());
        while at < entries.len()
            invariant
                count <= at <= entries.len(),
                ranks(entries@) == all,
                hidden == all.skip(count as int),
                size == size_together(hidden.take(at - count), kind),
                items == items_together(hidden.take(at - count)),
            decreases entries.len() - at,
        {
            let (rank, entry): (usize, &DiskEntry) = entries[at];
            let ghost upto = hidden.take(at - count + 1);
            proof {
                assert(all[at as int] == (rank as int, entry@));
                assert(upto.drop_last() =~= hidden.take(at - count));
                assert(upto.last() == all[at as int]);
            }
            size = size.wrapping_add(entry.size(kind));
            items = items.wrapping_add(entry.items);
            at += 1;
        }
        assert(hidden.take(at - count) =~= hidden);
        let mut name = String::from_str("Other (");
        strings::push_decimal(&mut name, (entries.len() - count) as u64);
        name.append(" entries)");
        let row = Row {
            path: None,
            name,
            size,
            delta: None,
            items,
            fraction: size::fraction(size, total),
            color_index: usize::MAX,
            is_dir: false,
        };
        assert(row@ == other_row(hidden, total, kind));
        out.push(row);
        assert(lines(out@) =~= goal.push(row@));
    }
    sort_rows(out, options.sort)
}

/// The row for a change, before it is known how it compares with the others.
pub open spec fn change_row(change: diff::Move) -> Line {
    Line {
        path: Some(change.path),
        name: match path::file_name(change.path) {
            Some(name) => strings::lossy(name),
            None => path::shown(change.path),
        },
        size: change.after,
        delta: Some(change.delta),
        items: 0,
        fraction: (0, 0),
        color_index: 0,
        is_dir: true,
    }
}

/// Whether a change gets a row: it moved, and answers to the filter where there is one.
pub open spec fn change_wanted(change: diff::Move, filter: Option<Seq<char>>) -> bool {
    change.delta != 0 && match filter {
        Some(filter) => answers(change_row(change).name, filter),
        None => true,
    }
}

/// The rows of the first `count` children that get one.
pub open spec fn change_rows(node: Moves, count: nat, filter: Option<Seq<char>>) -> Seq<Line>
    decreases count,
{
    if count == 0 || count > node.children.len() {
        Seq::empty()
    } else {
        let before = change_rows(node, (count - 1) as nat, filter);
        let change = node.children[count - 1].change;
        if change_wanted(change, filter) {
            before.push(change_row(change))
        } else {
            before
        }
    }
}

/// A row of a comparison with its rank and its share of the biggest movement in view.
pub open spec fn scaled_row(line: Line, rank: int, scale: nat) -> Line {
    Line {
        color_index: rank as usize,
        fraction: size::share(weight(line, Metric::Growth), scale),
        ..line
    }
}

/// Rows built from a comparison, the biggest movement first in whichever direction.
///
/// Bars are drawn relative to the biggest mover in view rather than to the parent's total: a
/// directory can grow by more than its parent did when something else shrank.
pub open spec fn growth_rows_of(node: Moves, options: Choice) -> Seq<Line> {
    let sorted = order::stable_sort(
        change_rows(node, node.children.len(), options.filter),
        |a: Line, b: Line| weight(a, Metric::Growth) > weight(b, Metric::Growth),
    );
    let scale = if sorted.len() > 0 {
        weight(sorted[0], Metric::Growth)
    } else {
        0
    };
    let scaled = sorted.map(|rank: int, line: Line| scaled_row(line, rank, scale));
    match options.top {
        Some(top) => tree::first(scaled, top as nat),
        None => scaled,
    }
}

fn change_to_row(change: &diff::Change) -> (row: Row)
    ensures
        row@ == change_row(change@),
        row.fraction.valid(),
{
    Row {
        path: Some(change.path.duplicate()),
        name: match change.path.file_name() {
            Some(name) => strings::from_utf8_lossy(&name),
            None => change.path.display(),
        },
        size: change.after,
        delta: Some(change.delta),
        items: 0,
        fraction: Double::zero(),
        color_index: 0,
        is_dir: true,
    }
}

/// Rows built from a comparison rather than from a scan.
///
/// These come from the change tree, not the current one, so a directory that was deleted still gets
/// a row: "50 GB freed here" is exactly as much of an answer as "50 GB appeared there".
pub fn growth_rows(node: &ChangeNode, options: &RowOptions) -> (out: Vec<Row>)
    ensures
        lines(out@) == growth_rows_of(node@, options@),
        rows_valid(out@),
{
    let ghost filter = options@.filter;
    let needle: Option<String> = match &options.filter {
        Some(filter) => Some(strings::to_lowercase(filter.as_str())),
        None => None,
    };
    let mut found: Vec<Row> = Vec::new();
    let mut at: usize = 0;
    assert(lines(found@) =~= change_rows(node@, 0, filter));
    while at < node.children.len()
        invariant
            at <= node.children.len(),
            node@.children.len() == node.children.len(),
            needle is Some <==> filter is Some,
            needle matches Some(text) ==> text@ == strings::lowercase(filter->0),
            lines(found@) == change_rows(node@, at as nat, filter),
            rows_valid(found@),
        decreases node.children.len() - at,
    {
        let change = &node.children[at].change;
        let ghost before = found@;
        assert(node@.children[at as int] == node.children@[at as int]@);
        if change.delta != 0 {
            let row = change_to_row(change);
            let keep = match &needle {
                Some(needle) => strings::contains(
                    strings::to_lowercase(row.name.as_str()).as_str(),
                    needle.as_str(),
                ),
                None => true,
            };
            if keep {
                found.push(row);
                assert(lines(found@) =~= lines(before).push(row@));
            }
        }
        at += 1;
    }
    let ghost key = |row: Row| row@;
    let ghost less = |a: Line, b: Line| weight(a, Metric::Growth) > weight(b, Metric::Growth);
    let ghost by_key = |a: Row, b: Row| less(key(a), key(b));
    proof {
        order::order_by_key(key, less);
        order::sort_maps(found@, key, less);
    }
    let further = |a: &Row, b: &Row| -> (yes: bool)
        ensures
            yes == (weight(a@, Metric::Growth) > weight(b@, Metric::Growth)),
        { a.magnitude(Metric::Growth) > b.magnitude(Metric::Growth) };
    let mut sorted = order::sort_stably(found, &further, Ghost(by_key));
    let ghost plain = lines(sorted@);
    let scale: u64 = if sorted.len() > 0 {
        sorted[0].magnitude(Metric::Growth)
    } else {
        0
    };
    let ghost goal = plain.map(|rank: int, line: Line| scaled_row(line, rank, scale as nat));
    let mut index: usize = 0;
    while index < sorted.len()
        invariant
            index <= sorted.len(),
            sorted@.len() == plain.len(),
            goal == plain.map(|rank: int, line: Line| scaled_row(line, rank, scale as nat)),
            forall|i: int| 0 <= i < index ==> (#[trigger] sorted@[i])@ == goal[i],
            forall|i: int| 0 <= i < index ==> (#[trigger] sorted@[i]).fraction.valid(),
            forall|i: int| index <= i < sorted@.len() ==> (#[trigger] sorted@[i])@ == plain[i],
        decreases sorted.len() - index,
    {
        let moved: u64 = sorted[index].magnitude(Metric::Growth);
        assert(sorted@[index as int]@ == plain[index as int]);
        sorted[index].color_index = index;
        sorted[index].fraction = size::fraction(moved, scale);
        assert(sorted@[index as int]@ == goal[index as int]);
        index += 1;
    }
    assert(lines(sorted@) =~= goal);
    if let Some(top) = options.top {
        sorted.truncate(top);
        assert(lines(sorted@) =~= tree::first(goal, top as nat));
    }
    sorted
}

/// The biggest things two levels down that take any space: the "where should I look next" list.
pub open spec fn largest_two_down(
    parent: Tree,
    at: Seq<u8>,
    count: nat,
    kind: SizeKind,
) -> Seq<tree::Place> {
    tree::largest(parent, at, 2, count, kind).filter(
        |place: tree::Place| tree::size_of(place.1, kind) > 0,
    )
}

/// The biggest things two levels down: the "where should I look next" list.
///
/// Direct children answer *what* is big ("Users"), grandchildren answer where to actually go
/// ("~/Downloads").
pub fn largest_items<'a>(
    parent_path: &FilePath,
    parent: &'a DiskEntry,
    count: usize,
    size_kind: SizeKind,
) -> (out: Vec<(FilePath, &'a DiskEntry)>)
    ensures
        tree::places(out@) == largest_two_down(parent@, parent_path@, count as nat, size_kind),
{
    let list = parent.largest_at_depth(parent_path, 2, count, size_kind);
    let ghost all = tree::places(list@);
    let ghost wanted = |place: tree::Place| tree::size_of(place.1, size_kind) > 0;
    let mut out: Vec<(FilePath, &'a DiskEntry)> = Vec::new();
    let mut at: usize = 0;
    assert(tree::places(out@) =~= all.take(0).filter(wanted)) by {
        assert(all.take(0) =~= Seq::empty());
        reveal(Seq::filter);
    }
    while at < list.len()
        invariant
            at <= list.len(),
            all == tree::places(list@),
            wanted == (|place: tree::Place| tree::size_of(place.1, size_kind) > 0),
            tree::places(out@) == all.take(at as int).filter(wanted),
        decreases list.len() - at,
    {
        let entry = list[at].1;
        let ghost before = out@;
        proof {
            assert(all[at as int] == (list@[at as int].0@, entry@));
            assert(all.take(at + 1) =~= all.take(at as int).push(all[at as int]));
            all.take(at as int).lemma_filter_push(all[at as int], wanted);
        }
        if entry.size(size_kind) > 0 {
            let item = (list[at].0.duplicate(), entry);
            out.push(item);
            assert(tree::places(out@) =~= tree::places(before).push(all[at as int]));
        }
        at += 1;
    }
    assert(all.take(at as int) =~= all);
    out
}

/// A path as a person would write it, with the home directory as `~`.
pub open spec fn path_text(target: Seq<u8>, home: Option<Seq<u8>>) -> Seq<char> {
    match home {
        None => path::shown(target),
        Some(home) => if !path::within(target, home) {
            path::shown(target)
        } else if path::below(target, home).len() == 0 {
            "~"@
        } else {
            "~/"@ + path::shown(path::below(target, home))
        },
    }
}

/// `/home/cesar/code` -> `~/code`, so paths stay readable in a narrow column.
pub fn display_path_from(target: &FilePath, home: &Option<FilePath>) -> (text: String)
    ensures
        text@ == path_text(target@, home_value(*home)),
{
    match home {
        None => target.display(),
        Some(home) => match target.strip_prefix(home) {
            None => target.display(),
            Some(rest) => if rest.bytes.len() == 0 {
                String::from_str("~")
            } else {
                let mut text = String::from_str("~/");
                text.append(rest.display().as_str());
                text
            },
        },
    }
}

pub open spec fn home_value(home: Option<FilePath>) -> Option<Seq<u8>> {
    match home {
        Some(home) => Some(home@),
        None => None,
    }
}

/// Changing the sort moves rows and changes none of them: every row keeps its figures, its name and
/// its colour.
pub proof fn sorting_changes_no_row(parent: Tree, at: Seq<u8>, options: Choice, sort: Sort)
    ensures
        rows_of(parent, at, options).to_multiset() == rows_of(
            parent,
            at,
            Choice { sort, ..options },
        ).to_multiset(),
{
    let other = Choice { sort, ..options };
    assert(candidates(parent, options) == candidates(parent, other));
    assert(gathered_rows(parent, at, options) == gathered_rows(parent, at, other));
    order::sort_is_a_permutation(
        gathered_rows(parent, at, options),
        |a: Line, b: Line| row_before(a, b, options.sort),
    );
    order::sort_is_a_permutation(
        gathered_rows(parent, at, other),
        |a: Line, b: Line| row_before(a, b, other.sort),
    );
}

/// Whatever the sort, only the last row can be the one that stands for the rest.
pub proof fn other_comes_last(parent: Tree, at: Seq<u8>, options: Choice)
    ensures
        forall|i: int|
            0 <= i < rows_of(parent, at, options).len() - 1 ==> (#[trigger] rows_of(
                parent,
                at,
                options,
            )[i]).path is Some,
{
    broadcast use vstd::seq_lib::group_to_multiset_ensures;

    let less = |a: Line, b: Line| row_before(a, b, options.sort);
    let given = gathered_rows(parent, at, options);
    let out = rows_of(parent, at, options);
    rows_are_ordered(options.sort);
    order::sort_orders(given, less);
    order::sort_is_a_permutation(given, less);
    order::sort_keeps_members(given, less);
    assert forall|i: int| 0 <= i < out.len() - 1 implies (#[trigger] out[i]).path is Some by {
        if out[i].path is None {
            let last = out.len() - 1;
            assert(!less(out[last], out[i]));
            assert(out[last].path is None);
            // Two of them, where the rows before sorting have at most one.
            assert(out.contains(out[i]) && out.contains(out[last]));
            only_one_other(parent, at, options, out[i]);
            only_one_other(parent, at, options, out[last]);
            assert(out[i] == given.last() && out[last] == given.last());
            twice_in_sorted(out, i, last);
            once_in_gathered(given);
        }
    }
}

proof fn only_one_other(parent: Tree, at: Seq<u8>, options: Choice, line: Line)
    requires
        gathered_rows(parent, at, options).contains(line),
        line.path is None,
    ensures
        line == gathered_rows(parent, at, options).last(),
        gathered_rows(parent, at, options).len() > 0,
        forall|i: int|
            0 <= i < gathered_rows(parent, at, options).len() - 1 ==> (#[trigger] gathered_rows(
                parent,
                at,
                options,
            )[i]).path is Some,
{
    let given = gathered_rows(parent, at, options);
    let k = choose|k: int| 0 <= k < given.len() && given[k] == line;
    let total = tree::size_of(parent, options.size_kind);
    let all = candidates(parent, options);
    let count = shown_count(all.len(), options) as int;
    let shown = all.take(count).map_values(
        |entry: Ranked| row_for(entry, at, total, options.size_kind),
    );
    assert forall|i: int| 0 <= i < shown.len() implies (#[trigger] given[i]).path is Some by {
        assert(given[i] == shown[i]);
    }
}

proof fn twice_in_sorted(out: Seq<Line>, i: int, j: int)
    requires
        0 <= i < j < out.len(),
        out[i] == out[j],
    ensures
        out.to_multiset().count(out[i]) >= 2,
{
    broadcast use vstd::seq_lib::group_to_multiset_ensures;

    let rest = out.remove(j);
    assert(rest[i] == out[i]);
    assert(rest.to_multiset() =~= out.to_multiset().remove(out[j]));
    assert(rest.contains(out[i]));
    assert(rest.to_multiset().count(out[i]) > 0);
}

proof fn once_in_gathered(given: Seq<Line>)
    requires
        given.len() > 0,
        given.last().path is None,
        forall|i: int| 0 <= i < given.len() - 1 ==> (#[trigger] given[i]).path is Some,
    ensures
        given.to_multiset().count(given.last()) <= 1,
{
    broadcast use vstd::seq_lib::group_to_multiset_ensures;

    let front = given.drop_last();
    assert(front.push(given.last()) =~= given);
    assert(given.to_multiset() =~= front.to_multiset().insert(given.last()));
    if front.to_multiset().count(given.last()) > 0 {
        assert(front.contains(given.last()));
        let k = choose|k: int| 0 <= k < front.len() && front[k] == given.last();
        assert(given[k].path is Some);
    }
}

/// What some rows come to together, in bytes.
pub open spec fn rows_together(rows: Seq<Line>) -> u64
    decreases rows.len(),
{
    if rows.len() == 0 {
        0
    } else {
        tree::wrapped(rows_together(rows.drop_last()), rows.last().size)
    }
}

/// What some rows come to together, in items.
pub open spec fn row_items_together(rows: Seq<Line>) -> u64
    decreases rows.len(),
{
    if rows.len() == 0 {
        0
    } else {
        tree::wrapped(row_items_together(rows.drop_last()), rows.last().items)
    }
}

/// What a directory's children come to together, in bytes.
pub open spec fn children_together(children: Seq<Tree>, kind: SizeKind) -> u64
    decreases children.len(),
{
    if children.len() == 0 {
        0
    } else {
        tree::wrapped(
            children_together(children.drop_last(), kind),
            tree::size_of(children.last(), kind),
        )
    }
}

/// What a directory's children come to together, in items.
pub open spec fn child_items_together(children: Seq<Tree>) -> u64
    decreases children.len(),
{
    if children.len() == 0 {
        0
    } else {
        tree::wrapped(child_items_together(children.drop_last()), children.last().items)
    }
}

proof fn together_splits(all: Seq<Ranked>, count: int, kind: SizeKind)
    requires
        0 <= count <= all.len(),
    ensures
        size_together(all, kind) == tree::wrapped(
            size_together(all.take(count), kind),
            size_together(all.skip(count), kind),
        ),
        items_together(all) == tree::wrapped(
            items_together(all.take(count)),
            items_together(all.skip(count)),
        ),
    decreases all.len(),
{
    if count == all.len() {
        assert(all.take(count) =~= all);
        assert(all.skip(count) =~= Seq::empty());
    } else {
        let front = all.drop_last();
        let tail = all.skip(count);
        together_splits(front, count, kind);
        assert(front.take(count) =~= all.take(count));
        assert(tail.drop_last() =~= front.skip(count));
        assert(tail.last() == all.last());
        assert(size_together(tail, kind) == tree::wrapped(
            size_together(front.skip(count), kind),
            tree::size_of(all.last().1, kind),
        ));
        assert(items_together(tail) == tree::wrapped(
            items_together(front.skip(count)),
            all.last().1.items,
        ));
    }
}

proof fn shown_rows_together(
    entries: Seq<Ranked>,
    at: Seq<u8>,
    total: u64,
    kind: SizeKind,
)
    ensures
        rows_together(
            entries.map_values(|entry: Ranked| row_for(entry, at, total, kind)),
        ) == size_together(entries, kind),
        row_items_together(
            entries.map_values(|entry: Ranked| row_for(entry, at, total, kind)),
        ) == items_together(entries),
    decreases entries.len(),
{
    let rows = entries.map_values(|entry: Ranked| row_for(entry, at, total, kind));
    if entries.len() > 0 {
        let front = entries.drop_last();
        shown_rows_together(front, at, total, kind);
        assert(rows.drop_last() =~= front.map_values(
            |entry: Ranked| row_for(entry, at, total, kind),
        ));
    }
}

proof fn insert_rows_together(rows: Seq<Line>, x: Line, less: spec_fn(Line, Line) -> bool)
    ensures
        rows_together(order::insert(rows, x, less)) == tree::wrapped(rows_together(rows), x.size),
        row_items_together(order::insert(rows, x, less)) == tree::wrapped(
            row_items_together(rows),
            x.items,
        ),
    decreases rows.len(),
{
    let out = order::insert(rows, x, less);
    if rows.len() > 0 && less(x, rows.last()) {
        insert_rows_together(rows.drop_last(), x, less);
        assert(out.drop_last() =~= order::insert(rows.drop_last(), x, less));
    } else {
        assert(out.drop_last() =~= rows);
    }
}

proof fn sort_rows_together(rows: Seq<Line>, less: spec_fn(Line, Line) -> bool)
    ensures
        rows_together(order::stable_sort(rows, less)) == rows_together(rows),
        row_items_together(order::stable_sort(rows, less)) == row_items_together(rows),
    decreases rows.len(),
{
    if rows.len() > 0 {
        sort_rows_together(rows.drop_last(), less);
        insert_rows_together(order::stable_sort(rows.drop_last(), less), rows.last(), less);
    }
}

proof fn insert_children_together(
    children: Seq<Tree>,
    x: Tree,
    less: spec_fn(Tree, Tree) -> bool,
    kind: SizeKind,
)
    ensures
        children_together(order::insert(children, x, less), kind) == tree::wrapped(
            children_together(children, kind),
            tree::size_of(x, kind),
        ),
        child_items_together(order::insert(children, x, less)) == tree::wrapped(
            child_items_together(children),
            x.items,
        ),
    decreases children.len(),
{
    let out = order::insert(children, x, less);
    if children.len() > 0 && less(x, children.last()) {
        insert_children_together(children.drop_last(), x, less, kind);
        assert(out.drop_last() =~= order::insert(children.drop_last(), x, less));
    } else {
        assert(out.drop_last() =~= children);
    }
}

proof fn sort_children_together(
    children: Seq<Tree>,
    less: spec_fn(Tree, Tree) -> bool,
    kind: SizeKind,
)
    ensures
        children_together(order::stable_sort(children, less), kind) == children_together(
            children,
            kind,
        ),
        child_items_together(order::stable_sort(children, less)) == child_items_together(children),
    decreases children.len(),
{
    if children.len() > 0 {
        sort_children_together(children.drop_last(), less, kind);
        insert_children_together(
            order::stable_sort(children.drop_last(), less),
            children.last(),
            less,
            kind,
        );
    }
}

proof fn ranked_together(children: Seq<Tree>, kind: SizeKind)
    ensures
        size_together(children.map(|rank: int, child: Tree| (rank, child)), kind)
            == children_together(children, kind),
        items_together(children.map(|rank: int, child: Tree| (rank, child)))
            == child_items_together(children),
    decreases children.len(),
{
    let all = children.map(|rank: int, child: Tree| (rank, child));
    if children.len() > 0 {
        let front = children.drop_last();
        ranked_together(front, kind);
        assert(all.drop_last() =~= front.map(|rank: int, child: Tree| (rank, child)));
    }
}

/// Nothing is lost by folding the tail into one row: unless a filter hides something, the rows add
/// up to what the directory's children add up to, in bytes and in items.
pub proof fn rows_account_for_everything(parent: Tree, at: Seq<u8>, options: Choice)
    requires
        options.filter is None,
    ensures
        rows_together(rows_of(parent, at, options)) == children_together(
            parent.children,
            options.size_kind,
        ),
        row_items_together(rows_of(parent, at, options)) == child_items_together(parent.children),
{
    let kind = options.size_kind;
    let total = tree::size_of(parent, kind);
    let all = candidates(parent, options);
    let count = shown_count(all.len(), options) as int;
    let by_size = |a: Tree, b: Tree| tree::outranks(a, b, kind);
    sort_children_together(parent.children, by_size, kind);
    ranked_together(order::stable_sort(parent.children, by_size), kind);
    together_splits(all, count, kind);
    shown_rows_together(all.take(count), at, total, kind);
    let given = gathered_rows(parent, at, options);
    if count < all.len() {
        assert(given.drop_last() =~= all.take(count).map_values(
            |entry: Ranked| row_for(entry, at, total, kind),
        ));
    } else {
        assert(all.skip(count) =~= Seq::empty());
    }
    sort_rows_together(given, |a: Line, b: Line| row_before(a, b, options.sort));
}

} // verus!
