//! The neutral data the scanner produces. No formatting, no colours: the interface, the JSON
//! output and any other consumer all read this same shape.

use vstd::prelude::*;
use vstd::utf8::encode_utf8;
use crate::order;
use crate::path;
use crate::path::FilePath;
use crate::size::SizeKind;
use crate::strings;

verus! {

#[derive(Copy, Clone, Debug, PartialEq, Eq, Structural)]
pub enum EntryType {
    Directory,
    File,
    Symlink,
    Other,
}

/// How much of the truth an entry's sizes represent.
#[derive(Copy, Clone, Debug, PartialEq, Eq, Structural)]
pub enum ScanState {
    /// Fully walked.
    Complete,
    /// Walked, but something underneath was denied, cancelled or depth-capped.
    Partial,
    /// The directory could not be read, almost always for want of permission.
    Denied,
    /// The user stopped the scan before this subtree finished.
    Cancelled,
    /// Deliberately not descended into (other filesystem, depth limit).
    Skipped,
}

/// What a parent's state becomes once a child's is known: the worst of them, so that a single
/// denied leaf marks its ancestors partial.
pub open spec fn merged(parent: ScanState, child: ScanState) -> ScanState {
    if parent == ScanState::Complete && child == ScanState::Complete {
        ScanState::Complete
    } else if parent == ScanState::Cancelled || child == ScanState::Cancelled {
        ScanState::Cancelled
    } else if parent == ScanState::Denied {
        ScanState::Denied
    } else {
        ScanState::Partial
    }
}

impl ScanState {
    /// Worst-of, so a single denied leaf marks its ancestors partial.
    pub fn merge(self, child: ScanState) -> (state: ScanState)
        ensures
            state == merged(self, child),
    {
        match (self, child) {
            (ScanState::Complete, ScanState::Complete) => ScanState::Complete,
            (ScanState::Cancelled, _) => ScanState::Cancelled,
            (_, ScanState::Cancelled) => ScanState::Cancelled,
            (ScanState::Denied, _) => ScanState::Denied,
            _ => ScanState::Partial,
        }
    }
}

/// One file or directory and everything below it.
#[derive(Debug)]
pub struct DiskEntry {
    /// What this entry is called and, on the root of a scan, the whole path it was given, since
    /// the root is the one entry with no parent to ask.
    ///
    /// Anything needing a full path builds it on the way down, which is how the tree is walked
    /// anyway. Read it through [`DiskEntry::name_os`] rather than directly: that returns the last
    /// component either way, so the root and everything under it can be treated alike.
    pub name: Vec<u8>,
    /// Sum of file lengths, as `ls` reports.
    pub apparent_size: u64,
    /// Blocks actually occupied, as `du` reports.
    pub allocated_size: u64,
    pub entry_type: EntryType,
    /// Number of filesystem entries in this subtree, including this one.
    pub items: u64,
    /// Newest modification time anywhere in this subtree, in seconds since the Unix epoch. This
    /// is what answers "when was this last actually used".
    pub modified: u64,
    pub children: Vec<DiskEntry>,
    pub scan_state: ScanState,
}

/// A tree of entries, as a value.
#[verifier::ext_equal]
pub struct Tree {
    pub name: Seq<u8>,
    pub apparent_size: u64,
    pub allocated_size: u64,
    pub entry_type: EntryType,
    pub items: u64,
    pub modified: u64,
    pub children: Seq<Tree>,
    pub scan_state: ScanState,
}

impl DiskEntry {
    pub open spec fn view(&self) -> Tree
        decreases self,
    {
        Tree {
            name: self.name@,
            apparent_size: self.apparent_size,
            allocated_size: self.allocated_size,
            entry_type: self.entry_type,
            items: self.items,
            modified: self.modified,
            children: Seq::new(
                self.children@.len(),
                |i: int|
                    if 0 <= i < self.children@.len() {
                        self.children@[i].view()
                    } else {
                        arbitrary()
                    },
            ),
            scan_state: self.scan_state,
        }
    }
}

/// The trees that some entries are.
pub open spec fn trees(entries: Seq<DiskEntry>) -> Seq<Tree> {
    entries.map_values(|entry: DiskEntry| entry.view())
}

pub proof fn children_are_trees(entry: &DiskEntry)
    ensures
        entry@.children == trees(entry.children@),
{
    assert(entry@.children =~= trees(entry.children@));
}

/// The last component of what an entry stores: a bare name is its own, a root's whole path gives
/// the directory it points at.
pub open spec fn own_name(name: Seq<u8>) -> Seq<u8> {
    match path::file_name(name) {
        Some(last) => last,
        None => name,
    }
}

/// An entry's name as it is shown.
pub open spec fn label(tree: Tree) -> Seq<char> {
    strings::lossy(own_name(tree.name))
}

pub open spec fn size_of(tree: Tree, kind: SizeKind) -> u64 {
    match kind {
        SizeKind::Allocated => tree.allocated_size,
        SizeKind::Apparent => tree.apparent_size,
    }
}

/// Addition as 64-bit counters do it.
pub open spec fn wrapped(a: u64, b: u64) -> u64 {
    if a + b > u64::MAX {
        (a + b - u64::MAX - 1) as u64
    } else {
        (a + b) as u64
    }
}

pub open spec fn later(a: u64, b: u64) -> u64 {
    if a < b {
        b
    } else {
        a
    }
}

pub open spec fn less_by(a: u64, b: u64) -> u64 {
    if a < b {
        0
    } else {
        (a - b) as u64
    }
}

/// A parent with a finished child's totals rolled in.
pub open spec fn absorbed(parent: Tree, child: Tree) -> Tree {
    Tree {
        apparent_size: wrapped(parent.apparent_size, child.apparent_size),
        allocated_size: wrapped(parent.allocated_size, child.allocated_size),
        items: wrapped(parent.items, child.items),
        modified: later(parent.modified, child.modified),
        scan_state: merged(parent.scan_state, child.scan_state),
        ..parent
    }
}

/// A parent with a removed descendant's totals taken off, never below nothing.
pub open spec fn lessened(parent: Tree, gone: Tree) -> Tree {
    Tree {
        apparent_size: less_by(parent.apparent_size, gone.apparent_size),
        allocated_size: less_by(parent.allocated_size, gone.allocated_size),
        items: less_by(parent.items, gone.items),
        ..parent
    }
}

/// Where the first child of that name stands, from `at` on.
pub open spec fn position_from(children: Seq<Tree>, name: Seq<u8>, at: int) -> Option<int>
    decreases children.len() - at,
{
    if at < 0 || at >= children.len() {
        None
    } else if own_name(children[at].name) == name {
        Some(at)
    } else {
        position_from(children, name, at + 1)
    }
}

/// Where the first child of that name stands.
pub open spec fn position(children: Seq<Tree>, name: Seq<u8>) -> Option<int> {
    position_from(children, name, 0)
}

/// The descendant that a chain of names leads to.
pub open spec fn walk(tree: Tree, names: Seq<Seq<u8>>) -> Option<Tree>
    decreases names.len(),
{
    if names.len() == 0 {
        Some(tree)
    } else {
        match position(tree.children, names[0]) {
            None => None,
            Some(at) => walk(tree.children[at], names.skip(1)),
        }
    }
}

/// The names that lead from a tree's root to a path, where it lies in the tree.
pub open spec fn steps(tree: Tree, target: Seq<u8>) -> Option<Seq<Seq<u8>>> {
    if path::within(target, tree.name) {
        Some(path::components(target).skip(path::components(tree.name).len() as int))
    } else {
        None
    }
}

/// The entry that a path names.
pub open spec fn resolved(tree: Tree, target: Seq<u8>) -> Option<Tree> {
    match steps(tree, target) {
        None => None,
        Some(names) => walk(tree, names),
    }
}

/// The tree without the descendant that a chain of names leads to, and that descendant.
pub open spec fn pruned(tree: Tree, names: Seq<Seq<u8>>) -> Option<(Tree, Tree)>
    decreases names.len(),
{
    if names.len() == 0 {
        None
    } else {
        match position(tree.children, names[0]) {
            None => None,
            Some(at) => if names.len() == 1 {
                let gone = tree.children[at];
                let rest = Tree { children: tree.children.remove(at), ..tree };
                Some((lessened(rest, gone), gone))
            } else {
                match pruned(tree.children[at], names.skip(1)) {
                    None => None,
                    Some((branch, gone)) => {
                        let rest = Tree { children: tree.children.update(at, branch), ..tree };
                        Some((lessened(rest, gone), gone))
                    },
                }
            },
        }
    }
}

/// The tree without the entry at a path, and that entry.
pub open spec fn removed(tree: Tree, target: Seq<u8>) -> Option<(Tree, Tree)> {
    match steps(tree, target) {
        None => None,
        Some(names) => pruned(tree, names),
    }
}

/// Largest first, and by name where two are the same size.
pub open spec fn outranks(a: Tree, b: Tree, kind: SizeKind) -> bool {
    size_of(a, kind) > size_of(b, kind) || (size_of(a, kind) == size_of(b, kind)
        && strings::text_precedes(label(a), label(b)))
}

/// The tree with every level sorted largest-first.
pub open spec fn sorted(tree: Tree, kind: SizeKind) -> Tree
    decreases tree, 1nat,
{
    Tree {
        children: order::stable_sort(
            sorted_children(tree, kind),
            |a: Tree, b: Tree| outranks(a, b, kind),
        ),
        ..tree
    }
}

/// The children of a tree, each sorted inside.
pub open spec fn sorted_children(tree: Tree, kind: SizeKind) -> Seq<Tree>
    decreases tree, 0nat,
{
    Seq::new(
        tree.children.len(),
        |i: int|
            if 0 <= i < tree.children.len() {
                sorted(tree.children[i], kind)
            } else {
                arbitrary()
            },
    )
}

/// A place in a tree: the path that leads there, and what is there.
pub type Place = (Seq<u8>, Tree);

/// Every descendant exactly `depth` levels down, each with the path that reached it.
pub open spec fn at_depth(tree: Tree, base: Seq<u8>, depth: nat) -> Seq<Place>
    decreases depth, 0nat,
{
    if depth == 0 {
        seq![(base, tree)]
    } else {
        all_at_depth(tree.children, base, (depth - 1) as nat)
    }
}

/// The same, of several entries of one directory.
pub open spec fn all_at_depth(children: Seq<Tree>, base: Seq<u8>, depth: nat) -> Seq<Place>
    decreases depth, children.len(),
{
    if children.len() == 0 {
        Seq::empty()
    } else {
        all_at_depth(children.drop_last(), base, depth) + at_depth(
            children.last(),
            path::joined(base, own_name(children.last().name)),
            depth,
        )
    }
}

/// The entries `depth` levels down, or at the deepest level above that has any.
pub open spec fn deepest(tree: Tree, base: Seq<u8>, depth: nat) -> Seq<Place>
    decreases depth,
{
    let here = at_depth(tree, base, depth);
    if here.len() > 0 || depth <= 1 {
        here
    } else {
        deepest(tree, base, (depth - 1) as nat)
    }
}

/// The first `n` of some items, or all of them.
pub open spec fn first<T>(items: Seq<T>, n: nat) -> Seq<T> {
    if n < items.len() {
        items.take(n as int)
    } else {
        items
    }
}

/// The `n` biggest entries `depth` levels down, largest first.
pub open spec fn largest(tree: Tree, base: Seq<u8>, depth: nat, n: nat, kind: SizeKind) -> Seq<
    Place,
> {
    first(
        order::stable_sort(
            deepest(tree, base, depth),
            |a: Place, b: Place| size_of(a.1, kind) > size_of(b.1, kind),
        ),
        n,
    )
}

pub proof fn outranks_is_an_order(kind: SizeKind)
    ensures
        order::strict_weak(|a: Tree, b: Tree| outranks(a, b, kind)),
{
    let less = |a: Tree, b: Tree| outranks(a, b, kind);
    assert forall|x: Tree, y: Tree, z: Tree| #[trigger] less(x, y) && #[trigger] less(
        y,
        z,
    ) implies less(x, z) by {
        let (a, b, c) = (encode_utf8(label(x)), encode_utf8(label(y)), encode_utf8(label(z)));
        if strings::precedes(a, b) && strings::precedes(b, c) {
            strings::precedes_is_transitive(a, b, c);
        }
    }
    assert forall|x: Tree, y: Tree, z: Tree|
        #![trigger less(x, z), less(x, y)]
        #![trigger less(x, z), less(y, z)]
        less(x, z) implies less(x, y) || less(y, z) by {
        let (a, b, c) = (encode_utf8(label(x)), encode_utf8(label(y)), encode_utf8(label(z)));
        if strings::precedes(a, c) {
            strings::precedes_is_weak(a, b, c);
        }
    }
    assert forall|x: Tree| !#[trigger] less(x, x) by {
        strings::precedes_is_irreflexive(encode_utf8(label(x)));
    }
}

proof fn position_holds(children: Seq<Tree>, name: Seq<u8>, at: int)
    requires
        0 <= at,
    ensures
        position_from(children, name, at) matches Some(i) ==> at <= i < children.len() && own_name(
            children[i].name,
        ) == name && forall|j: int| at <= j < i ==> own_name(#[trigger] children[j].name) != name,
        position_from(children, name, at) is None ==> forall|j: int|
            at <= j < children.len() ==> own_name(#[trigger] children[j].name) != name,
    decreases children.len() - at,
{
    if at < children.len() && own_name(children[at].name) != name {
        position_holds(children, name, at + 1);
    }
}

proof fn position_is(children: Seq<Tree>, name: Seq<u8>, at: int, found: int)
    requires
        0 <= at <= found < children.len(),
        own_name(children[found].name) == name,
        forall|j: int| at <= j < found ==> own_name(#[trigger] children[j].name) != name,
    ensures
        position_from(children, name, at) == Some(found),
    decreases found - at,
{
    if at < found {
        assert(own_name(children[at].name) != name);
        position_is(children, name, at + 1, found);
    }
}

proof fn position_is_none(children: Seq<Tree>, name: Seq<u8>, at: int)
    requires
        0 <= at,
        forall|j: int| at <= j < children.len() ==> own_name(#[trigger] children[j].name) != name,
    ensures
        position_from(children, name, at) is None,
    decreases children.len() - at,
{
    if at < children.len() {
        assert(own_name(children[at].name) != name);
        position_is_none(children, name, at + 1);
    }
}

impl DiskEntry {
    /// Takes either a bare name, for an entry inside a scan, or a whole path, for the root of one.
    /// Both read back the same through [`Self::name_os`].
    pub fn new(name: &str, entry_type: EntryType) -> (entry: DiskEntry)
        ensures
            entry@ == fresh(encode_utf8(name@), entry_type),
            entry.children@.len() == 0,
    {
        DiskEntry::named(name.as_bytes_vec(), entry_type)
    }

    /// The same, for a name that need not be text.
    pub fn named(name: Vec<u8>, entry_type: EntryType) -> (entry: DiskEntry)
        ensures
            entry@ == fresh(name@, entry_type),
            entry.children@.len() == 0,
    {
        let entry = DiskEntry {
            name,
            apparent_size: 0,
            allocated_size: 0,
            entry_type,
            items: 1,
            modified: 0,
            children: Vec::new(),
            scan_state: ScanState::Complete,
        };
        assert(entry@.children =~= Seq::empty());
        entry
    }

    /// The last component of what this entry stores.
    ///
    /// A bare name has no separators in it, so taking its file name gives it straight back; a
    /// root's whole path yields the directory it points at. That is what lets both be stored in
    /// the same field.
    pub fn name_os(&self) -> (name: Vec<u8>)
        ensures
            name@ == own_name(self@.name),
    {
        let whole = self.root_path();
        match whole.file_name() {
            Some(name) => name,
            None => whole.bytes,
        }
    }

    /// The last path component, falling back to the whole path for roots like `/` which have no
    /// file name.
    pub fn name(&self) -> (name: String)
        ensures
            name@ == label(self@),
    {
        strings::from_utf8_lossy(&self.name_os())
    }

    /// The path this entry stands for: meaningful only on the root of a scan, which is the one
    /// entry that stores a whole path. Everything below it gets its path from the walk that
    /// reached it.
    pub fn root_path(&self) -> (path: FilePath)
        ensures
            path@ == self@.name,
    {
        FilePath { bytes: path::copy_range(&self.name, 0, self.name.len()) }
    }

    /// This entry's own figures, with an empty child list.
    ///
    /// Anything building a reduced copy of a tree wants this rather than a whole copy, which
    /// would pay for the subtree first and then throw it away.
    pub fn without_children(&self) -> (bare: DiskEntry)
        ensures
            bare@ == (Tree { children: Seq::empty(), ..self@ }),
            bare.children@.len() == 0,
    {
        let bare = DiskEntry {
            name: path::copy_range(&self.name, 0, self.name.len()),
            apparent_size: self.apparent_size,
            allocated_size: self.allocated_size,
            entry_type: self.entry_type,
            items: self.items,
            modified: self.modified,
            children: Vec::new(),
            scan_state: self.scan_state,
        };
        assert(bare@.children =~= Seq::empty());
        bare
    }

    /// Another copy of this entry and everything below it.
    pub fn duplicate(&self) -> (copy: DiskEntry)
        ensures
            copy@ == self@,
        decreases self,
    {
        let mut copy = self.without_children();
        let mut at: usize = 0;
        while at < self.children.len()
            invariant
                at <= self.children.len(),
                copy@.children.len() == at,
                copy@ == (Tree { children: copy@.children, ..self@ }),
                forall|i: int| 0 <= i < at ==> #[trigger] copy@.children[i] == self@.children[i],
            decreases self.children.len() - at,
        {
            let ghost before = copy;
            let child = self.children[at].duplicate();
            copy.children.push(child);
            proof {
                assert(copy@.children =~= before@.children.push(child@));
                assert(copy@ =~= Tree { children: copy@.children, ..self@ });
            }
            at += 1;
        }
        assert(copy@.children =~= self@.children);
        copy
    }

    pub fn size(&self, kind: SizeKind) -> (bytes: u64)
        ensures
            bytes == size_of(self@, kind),
    {
        match kind {
            SizeKind::Allocated => self.allocated_size,
            SizeKind::Apparent => self.apparent_size,
        }
    }

    pub fn is_dir(&self) -> (yes: bool)
        ensures
            yes == (self@.entry_type == EntryType::Directory),
    {
        self.entry_type == EntryType::Directory
    }

    /// Roll a finished child's totals into this entry.
    pub fn absorb(&mut self, child: &DiskEntry)
        ensures
            final(self)@ == absorbed(old(self)@, child@),
            final(self).children == old(self).children,
    {
        self.apparent_size = self.apparent_size.wrapping_add(child.apparent_size);
        self.allocated_size = self.allocated_size.wrapping_add(child.allocated_size);
        self.items = self.items.wrapping_add(child.items);
        if self.modified < child.modified {
            self.modified = child.modified;
        }
        self.scan_state = self.scan_state.merge(child.scan_state);
        assert(self@ =~= absorbed(old(self)@, child@));
    }

    /// The first child shown under that name.
    pub fn child(&self, name: &str) -> (found: Option<&DiskEntry>)
        ensures
            found matches Some(entry) ==> exists|i: int|
                0 <= i < self@.children.len() && #[trigger] self@.children[i] == entry@ && label(
                    self@.children[i],
                ) == name@ && forall|j: int|
                    0 <= j < i ==> label(#[trigger] self@.children[j]) != name@,
            found is None ==> forall|j: int|
                0 <= j < self@.children.len() ==> label(#[trigger] self@.children[j]) != name@,
    {
        let mut at: usize = 0;
        while at < self.children.len()
            invariant
                at <= self.children.len(),
                forall|j: int| 0 <= j < at ==> label(#[trigger] self@.children[j]) != name@,
            decreases self.children.len() - at,
        {
            assert(self@.children[at as int] == self.children@[at as int]@);
            if strings::same(self.children[at].name().as_str(), name) {
                return Some(&self.children[at]);
            }
            at += 1;
        }
        None
    }

    /// Where the first child of that name stands.
    fn index_of(&self, name: &Vec<u8>) -> (found: Option<usize>)
        ensures
            found is Some <==> position(self@.children, name@) is Some,
            found matches Some(at) ==> position(self@.children, name@) == Some(at as int) && at
                < self.children.len(),
    {
        let mut at: usize = 0;
        while at < self.children.len()
            invariant
                at <= self.children.len(),
                forall|j: int|
                    0 <= j < at ==> own_name(#[trigger] self@.children[j].name) != name@,
            decreases self.children.len() - at,
        {
            assert(self@.children[at as int] == self.children@[at as int]@);
            if strings::same_bytes(&self.children[at].name_os(), name) {
                proof {
                    position_is(self@.children, name@, 0, at as int);
                }
                return Some(at);
            }
            at += 1;
        }
        proof {
            position_is_none(self@.children, name@, 0);
        }
        None
    }

    /// The first child of that name.
    pub fn child_named(&self, name: &Vec<u8>) -> (found: Option<&DiskEntry>)
        ensures
            found is Some <==> position(self@.children, name@) is Some,
            found matches Some(entry) ==> entry@ == self@.children[position(
                self@.children,
                name@,
            )->0],
    {
        match self.index_of(name) {
            Some(at) => {
                assert(self@.children[at as int] == self.children@[at as int]@);
                Some(&self.children[at])
            },
            None => None,
        }
    }

    /// The names that lead from this root to `target`, where it lies in this tree.
    fn steps_to(&self, target: &FilePath) -> (names: Option<Vec<Vec<u8>>>)
        ensures
            names is Some <==> steps(self@, target@) is Some,
            names matches Some(list) ==> list@.len() == steps(self@, target@)->0.len() && forall|
                i: int,
            |
                0 <= i < list@.len() ==> (#[trigger] list@[i])@ == steps(self@, target@)->0[i],
    {
        let root = self.root_path();
        if !target.starts_with(&root) {
            return None;
        }
        let skipped: usize = root.spans().len();
        let spans = target.spans();
        let ghost goal = steps(self@, target@)->0;
        let mut names: Vec<Vec<u8>> = Vec::new();
        let mut at: usize = skipped;
        while at < spans.len()
            invariant
                skipped <= at <= spans.len(),
                names@.len() == at - skipped,
                spans.len() == path::spans(target@).len(),
                skipped == path::components(self@.name).len(),
                goal == path::components(target@).skip(skipped as int),
                forall|i: int|
                    0 <= i < spans.len() ==> (#[trigger] spans@[i]).0 == path::spans(target@)[i].0
                        && spans@[i].1 == path::spans(target@)[i].1,
                forall|i: int|
                    0 <= i < spans.len() ==> (#[trigger] spans@[i]).0 < spans@[i].1
                        <= target@.len(),
                forall|i: int| 0 <= i < names@.len() ==> (#[trigger] names@[i])@ == goal[i],
            decreases spans.len() - at,
        {
            let (from, to): (usize, usize) = spans[at];
            let name = path::copy_range(&target.bytes, from, to);
            assert(name@ == path::components(target@)[at as int]);
            names.push(name);
            at += 1;
        }
        Some(names)
    }

    /// Walk down to `target`, which must live under this entry. Returns `None` if any component
    /// is missing (a file that was deleted mid-session, or a subtree the depth limit pruned).
    pub fn resolve(&self, target: &FilePath) -> (found: Option<&DiskEntry>)
        ensures
            found is Some <==> resolved(self@, target@) is Some,
            found matches Some(entry) ==> entry@ == resolved(self@, target@)->0,
    {
        let names = match self.steps_to(target) {
            Some(names) => names,
            None => return None,
        };
        let ghost goal = steps(self@, target@)->0;
        let mut node = self;
        let mut at: usize = 0;
        assert(goal.skip(0) =~= goal);
        while at < names.len()
            invariant
                at <= names.len(),
                names@.len() == goal.len(),
                forall|i: int| 0 <= i < names@.len() ==> (#[trigger] names@[i])@ == goal[i],
                walk(self@, goal) == walk(node@, goal.skip(at as int)),
                steps(self@, target@) == Some(goal),
            decreases names.len() - at,
        {
            assert(goal.skip(at as int)[0] == names@[at as int]@);
            assert(goal.skip(at as int).skip(1) =~= goal.skip(at + 1));
            match node.child_named(&names[at]) {
                Some(child) => {
                    node = child;
                },
                None => {
                    return None;
                },
            }
            at += 1;
        }
        Some(node)
    }

    /// Remove `target` from this tree, subtracting its totals from every ancestor on the way back
    /// up.
    ///
    /// Lets the display correct itself the instant something is deleted, without paying for a
    /// full rescan of a tree that may have taken minutes to build. A tree cannot remove itself,
    /// and nothing outside it is its business.
    pub fn remove(&mut self, target: &FilePath) -> (gone: Option<DiskEntry>)
        ensures
            gone is Some <==> removed(old(self)@, target@) is Some,
            gone matches Some(entry) ==> Some((final(self)@, entry@)) == removed(
                old(self)@,
                target@,
            ),
            gone is None ==> final(self)@ == old(self)@,
    {
        let names = match self.steps_to(target) {
            Some(names) => names,
            None => return None,
        };
        let ghost goal = steps(self@, target@)->0;
        assert(goal.skip(0) =~= goal);
        self.remove_named(&names, 0, Ghost(goal))
    }

    fn remove_named(
        &mut self,
        names: &Vec<Vec<u8>>,
        at: usize,
        Ghost(goal): Ghost<Seq<Seq<u8>>>,
    ) -> (gone: Option<DiskEntry>)
        requires
            at <= names.len(),
            names@.len() == goal.len(),
            forall|i: int| 0 <= i < names@.len() ==> (#[trigger] names@[i])@ == goal[i],
        ensures
            gone is Some <==> pruned(old(self)@, goal.skip(at as int)) is Some,
            gone matches Some(entry) ==> Some((final(self)@, entry@)) == pruned(
                old(self)@,
                goal.skip(at as int),
            ),
            gone is None ==> final(self)@ == old(self)@,
        decreases names.len() - at,
    {
        if at >= names.len() {
            return None;
        }
        let ghost rest = goal.skip(at as int);
        assert(rest[0] == names@[at as int]@);
        assert(rest.skip(1) =~= goal.skip(at + 1));
        let index: usize = match self.index_of(&names[at]) {
            Some(index) => index,
            None => return None,
        };
        let ghost before = self@;
        proof {
            children_are_trees(self);
        }
        let ghost children = self.children@;
        let gone = if at + 1 == names.len() {
            let gone = self.children.remove(index);
            proof {
                assert(self@.children =~= before.children.remove(index as int));
                assert(self@ =~= Tree { children: before.children.remove(index as int), ..before });
            }
            gone
        } else {
            let gone = match self.children[index].remove_named(names, at + 1, Ghost(goal)) {
                Some(gone) => gone,
                None => {
                    proof {
                        assert(self@.children =~= before.children);
                        assert(self@ =~= before);
                    }
                    return None;
                },
            };
            proof {
                let branch = self.children@[index as int]@;
                assert(self@.children =~= before.children.update(index as int, branch));
                assert(self@ =~= Tree {
                    children: before.children.update(index as int, branch),
                    ..before
                });
            }
            gone
        };
        self.subtract(&gone);
        Some(gone)
    }

    fn subtract(&mut self, child: &DiskEntry)
        ensures
            final(self)@ == lessened(old(self)@, child@),
    {
        self.apparent_size = self.apparent_size.saturating_sub(child.apparent_size);
        self.allocated_size = self.allocated_size.saturating_sub(child.allocated_size);
        self.items = self.items.saturating_sub(child.items);
        assert(self@ =~= lessened(old(self)@, child@));
    }

    /// Sorts every level largest-first. The interface re-sorts by other keys itself; this is the
    /// ordering the JSON and plain outputs ship with.
    pub fn sort_by_size(&mut self, kind: SizeKind)
        ensures
            final(self)@ == sorted(old(self)@, kind),
        decreases *old(self),
    {
        let ghost before = *self;
        let mut rest: Vec<DiskEntry> = Vec::new();
        std::mem::swap(&mut rest, &mut self.children);
        let mut done: Vec<DiskEntry> = Vec::new();
        let ghost all = rest@;
        let ghost goal = sorted_children(before@, kind);
        // Taken from the back, so they come out the wrong way round.
        while rest.len() > 0
            invariant
                before == *old(self),
                all == before.children@,
                decreases_to!(before => all),
                rest@ == all.take(rest@.len() as int),
                done@.len() + rest@.len() == all.len(),
                goal.len() == all.len(),
                forall|i: int| 0 <= i < all.len() ==> #[trigger] goal[i] == sorted(all[i]@, kind),
                forall|i: int|
                    0 <= i < done@.len() ==> (#[trigger] done@[i])@ == goal[all.len() - 1 - i],
            decreases rest.len(),
        {
            let ghost shorter = rest@.drop_last();
            if let Some(child) = rest.pop() {
                let mut child = child;
                assert(child == all[rest@.len() as int]);
                assert(decreases_to!(all => all[rest@.len() as int]));
                child.sort_by_size(kind);
                done.push(child);
            }
            assert(rest@ =~= all.take(rest@.len() as int));
        }
        let mut children: Vec<DiskEntry> = Vec::new();
        while done.len() > 0
            invariant
                goal.len() == all.len(),
                children@.len() + done@.len() == all.len(),
                forall|i: int|
                    0 <= i < done@.len() ==> (#[trigger] done@[i])@ == goal[all.len() - 1 - i],
                forall|i: int| 0 <= i < children@.len() ==> (#[trigger] children@[i])@ == goal[i],
            decreases done.len(),
        {
            if let Some(child) = done.pop() {
                children.push(child);
            }
        }
        proof {
            assert(trees(children@) =~= goal);
            assert(trees(children@) == children@.map_values(|entry: DiskEntry| entry.view()));
            outranks_is_an_order(kind);
            let less = |a: Tree, b: Tree| outranks(a, b, kind);
            let key = |entry: DiskEntry| entry.view();
            order::sort_maps(children@, key, less);
            order::order_by_key(key, less);
        }
        let ghost less = |a: Tree, b: Tree| outranks(a, b, kind);
        let ghost key = |entry: DiskEntry| entry.view();
        let before_it = |a: &DiskEntry, b: &DiskEntry| -> (yes: bool)
            ensures
                yes == outranks(a@, b@, kind),
            { a.goes_before(b, kind) };
        self.children = order::sort_stably(
            children,
            &before_it,
            Ghost(|a: DiskEntry, b: DiskEntry| less(key(a), key(b))),
        );
        proof {
            children_are_trees(self);
            assert(self@ =~= sorted(before@, kind));
        }
    }

    /// Whether this entry is listed before the other.
    pub(crate) fn goes_before(&self, other: &DiskEntry, kind: SizeKind) -> (yes: bool)
        ensures
            yes == outranks(self@, other@, kind),
    {
        let ours: u64 = self.size(kind);
        let theirs: u64 = other.size(kind);
        ours > theirs || (ours == theirs && strings::bytes_precede(
            self.name().as_str().as_bytes(),
            other.name().as_str().as_bytes(),
        ))
    }
}

/// An entry that nothing is known of yet.
pub open spec fn fresh(name: Seq<u8>, entry_type: EntryType) -> Tree {
    Tree {
        name,
        apparent_size: 0,
        allocated_size: 0,
        entry_type,
        items: 1,
        modified: 0,
        children: Seq::empty(),
        scan_state: ScanState::Complete,
    }
}

/// The places that a list of paths and entries holds.
pub open spec fn places(list: Seq<(FilePath, &DiskEntry)>) -> Seq<Place> {
    list.map_values(|item: (FilePath, &DiskEntry)| (item.0@, item.1@))
}

impl DiskEntry {
    /// Every descendant exactly `depth` levels below this entry, each with the path that reached
    /// it, built on the way down, since no entry below the root carries one.
    ///
    /// Used for the "Largest items" list: children answer *what* is big, but grandchildren answer
    /// *where to look next*.
    pub fn descendants_at_depth<'a>(&'a self, base: &FilePath, depth: usize) -> (out: Vec<
        (FilePath, &'a DiskEntry),
    >)
        ensures
            places(out@) == at_depth(self@, base@, depth as nat),
    {
        let mut out: Vec<(FilePath, &'a DiskEntry)> = Vec::new();
        self.collect_at_depth(base, depth, &mut out);
        assert(places(out@) =~= at_depth(self@, base@, depth as nat));
        out
    }

    fn collect_at_depth<'a>(
        &'a self,
        base: &FilePath,
        depth: usize,
        out: &mut Vec<(FilePath, &'a DiskEntry)>,
    )
        ensures
            places(final(out)@) == places(old(out)@) + at_depth(self@, base@, depth as nat),
        decreases depth,
    {
        if depth == 0 {
            out.push((base.duplicate(), self));
            assert(places(out@) =~= places(old(out)@).push((base@, self@)));
            return;
        }
        let mut at: usize = 0;
        assert(places(out@) =~= places(old(out)@) + all_at_depth(
            self@.children.take(0),
            base@,
            (depth - 1) as nat,
        ));
        while at < self.children.len()
            invariant
                at <= self.children.len(),
                depth > 0,
                places(out@) == places(old(out)@) + all_at_depth(
                    self@.children.take(at as int),
                    base@,
                    (depth - 1) as nat,
                ),
            decreases self.children.len() - at,
        {
            let ghost upto = self@.children.take(at + 1);
            let ghost before = out@;
            assert(self@.children[at as int] == self.children@[at as int]@);
            let child = &self.children[at];
            child.collect_at_depth(&base.join_name(&child.name_os()), depth - 1, out);
            proof {
                assert(upto.drop_last() =~= self@.children.take(at as int));
                assert(upto.last() == child@);
                assert(places(out@) =~= places(old(out)@) + all_at_depth(
                    upto,
                    base@,
                    (depth - 1) as nat,
                ));
            }
            at += 1;
        }
        assert(self@.children.take(at as int) =~= self@.children);
    }

    /// The `n` biggest entries `depth` levels down, largest first. Falls back to shallower levels
    /// when the tree is not that deep.
    pub fn largest_at_depth<'a>(
        &'a self,
        base: &FilePath,
        depth: usize,
        n: usize,
        kind: SizeKind,
    ) -> (out: Vec<(FilePath, &'a DiskEntry)>)
        ensures
            places(out@) == largest(self@, base@, depth as nat, n as nat, kind),
    {
        let mut candidates = self.descendants_at_depth(base, depth);
        let mut level: usize = depth;
        while level > 1 && candidates.len() == 0
            invariant
                places(candidates@) == at_depth(self@, base@, level as nat),
                deepest(self@, base@, depth as nat) == deepest(self@, base@, level as nat),
            decreases level,
        {
            level -= 1;
            candidates = self.descendants_at_depth(base, level);
        }
        assert(places(candidates@).len() == candidates@.len());
        let ghost key = |item: (FilePath, &DiskEntry)| (item.0@, item.1@);
        let ghost less = |a: Place, b: Place| size_of(a.1, kind) > size_of(b.1, kind);
        proof {
            order::order_by_key(key, less);
            order::sort_maps(candidates@, key, less);
        }
        let bigger = |a: &(FilePath, &DiskEntry), b: &(FilePath, &DiskEntry)| -> (yes: bool)
            ensures
                yes == (size_of(a.1@, kind) > size_of(b.1@, kind)),
            { a.1.size(kind) > b.1.size(kind) };
        let mut out = order::sort_stably(
            candidates,
            &bigger,
            Ghost(|a: (FilePath, &DiskEntry), b: (FilePath, &DiskEntry)| less(key(a), key(b))),
        );
        let ghost whole = places(out@);
        out.truncate(n);
        assert(places(out@) =~= first(whole, n as nat));
        out
    }
}

/// An entry as it is published: with its full path.
///
/// Every format that leaves the program gives each entry its full path. Writing rebuilds those
/// paths on the way down and reading takes them apart again.
#[derive(Debug)]
pub struct Wire {
    pub path: FilePath,
    pub apparent_size: u64,
    pub allocated_size: u64,
    pub entry_type: EntryType,
    pub items: u64,
    pub modified: u64,
    pub children: Vec<Wire>,
    pub scan_state: ScanState,
}

impl Wire {
    /// A published tree as a value: like any other, but with paths for names.
    pub open spec fn view(&self) -> Tree
        decreases self,
    {
        Tree {
            name: self.path@,
            apparent_size: self.apparent_size,
            allocated_size: self.allocated_size,
            entry_type: self.entry_type,
            items: self.items,
            modified: self.modified,
            children: Seq::new(
                self.children@.len(),
                |i: int|
                    if 0 <= i < self.children@.len() {
                        self.children@[i].view()
                    } else {
                        arbitrary()
                    },
            ),
            scan_state: self.scan_state,
        }
    }
}

/// The tree with the full path in every entry, `at` being the root's.
pub open spec fn published(tree: Tree, at: Seq<u8>) -> Tree
    decreases tree, 1nat,
{
    Tree { name: at, children: published_children(tree, at), ..tree }
}

pub open spec fn published_children(tree: Tree, at: Seq<u8>) -> Seq<Tree>
    decreases tree, 0nat,
{
    Seq::new(
        tree.children.len(),
        |i: int|
            if 0 <= i < tree.children.len() {
                published(
                    tree.children[i],
                    path::joined(at, own_name(tree.children[i].name)),
                )
            } else {
                arbitrary()
            },
    )
}

/// The tree with the paths taken apart again: the root keeps its own whole, everything below it
/// needs only the last component back.
pub open spec fn taken_in(wire: Tree, is_root: bool) -> Tree
    decreases wire, 1nat,
{
    Tree {
        name: if is_root {
            wire.name
        } else {
            own_name(wire.name)
        },
        children: taken_in_children(wire),
        ..wire
    }
}

pub open spec fn taken_in_children(wire: Tree) -> Seq<Tree>
    decreases wire, 0nat,
{
    Seq::new(
        wire.children.len(),
        |i: int|
            if 0 <= i < wire.children.len() {
                taken_in(wire.children[i], false)
            } else {
                arbitrary()
            },
    )
}

impl Wire {
    /// The entry that was published.
    pub fn into_entry(self, is_root: bool) -> (entry: DiskEntry)
        ensures
            entry@ == taken_in(self@, is_root),
        decreases self,
    {
        let name = if is_root {
            self.path.bytes
        } else {
            match self.path.file_name() {
                Some(name) => name,
                None => self.path.bytes,
            }
        };
        let ghost whole = self;
        let wires = self.children;
        let mut back: Vec<DiskEntry> = Vec::new();
        let ghost goal = taken_in_children(self@);
        let mut rest = wires;
        while rest.len() > 0
            invariant
                decreases_to!(whole => whole.children@),
                rest@ == whole.children@.take(rest@.len() as int),
                back@.len() + rest@.len() == whole.children@.len(),
                goal.len() == whole.children@.len(),
                forall|i: int|
                    0 <= i < whole.children@.len() ==> #[trigger] goal[i] == taken_in(
                        whole.children@[i]@,
                        false,
                    ),
                forall|i: int|
                    0 <= i < back@.len() ==> (#[trigger] back@[i])@ == goal[goal.len() - 1 - i],
                whole == self,
            decreases rest.len(),
        {
            if let Some(child) = rest.pop() {
                assert(decreases_to!(whole.children@ => whole.children@[rest@.len() as int]));
                assert(child == whole.children@[rest@.len() as int]);
                back.push(child.into_entry(false));
            }
            assert(rest@ =~= whole.children@.take(rest@.len() as int));
        }
        let mut children: Vec<DiskEntry> = Vec::new();
        while back.len() > 0
            invariant
                children@.len() + back@.len() == goal.len(),
                forall|i: int|
                    0 <= i < back@.len() ==> (#[trigger] back@[i])@ == goal[goal.len() - 1 - i],
                forall|i: int| 0 <= i < children@.len() ==> (#[trigger] children@[i])@ == goal[i],
            decreases back.len(),
        {
            if let Some(child) = back.pop() {
                children.push(child);
            }
        }
        let entry = DiskEntry {
            name,
            apparent_size: self.apparent_size,
            allocated_size: self.allocated_size,
            entry_type: self.entry_type,
            items: self.items,
            modified: self.modified,
            children,
            scan_state: self.scan_state,
        };
        assert(entry@.children =~= goal);
        entry
    }
}

impl DiskEntry {
    /// This entry with its full path in it and in everything below, as it is published.
    pub fn to_wire(&self, at: &FilePath) -> (wire: Wire)
        ensures
            wire@ == published(self@, at@),
        decreases self,
    {
        let ghost goal = published_children(self@, at@);
        let mut children: Vec<Wire> = Vec::new();
        let mut index: usize = 0;
        while index < self.children.len()
            invariant
                index <= self.children.len(),
                goal == published_children(self@, at@),
                children@.len() == index,
                forall|i: int| 0 <= i < children@.len() ==> (#[trigger] children@[i])@ == goal[i],
            decreases self.children.len() - index,
        {
            let child = &self.children[index];
            assert(self@.children[index as int] == child@);
            children.push(child.to_wire(&at.join_name(&child.name_os())));
            index += 1;
        }
        let wire = Wire {
            path: at.duplicate(),
            apparent_size: self.apparent_size,
            allocated_size: self.allocated_size,
            entry_type: self.entry_type,
            items: self.items,
            modified: self.modified,
            children,
            scan_state: self.scan_state,
        };
        assert(wire@.children =~= goal);
        wire
    }
}

/// Whether every entry below the root goes by a name that a directory entry can have.
pub open spec fn plainly_named(tree: Tree) -> bool
    decreases tree,
{
    forall|i: int|
        0 <= i < tree.children.len() ==> path::plain_name((#[trigger] tree.children[i]).name)
            && plainly_named(tree.children[i])
}

/// Whether no directory holds two entries of one name.
pub open spec fn distinctly_named(tree: Tree) -> bool
    decreases tree,
{
    &&& forall|i: int, j: int|
        0 <= i < j < tree.children.len() ==> own_name((#[trigger] tree.children[i]).name)
            != own_name((#[trigger] tree.children[j]).name)
    &&& forall|i: int|
        0 <= i < tree.children.len() ==> distinctly_named(#[trigger] tree.children[i])
}

/// A plain name is its own last component.
pub proof fn plain_name_is_own(name: Seq<u8>)
    requires
        path::plain_name(name),
    ensures
        own_name(name) == name,
        path::components(name) == seq![name],
{
    let nothing = Seq::<u8>::empty();
    path::joined_name_is_last(nothing, name);
    assert(path::joined(nothing, name) =~= name);
    assert(path::components(nothing) =~= Seq::empty());
    assert(path::components(name) =~= seq![name]);
}

/// Publishing a tree and taking it in again gives the tree back.
pub proof fn wire_round_trip(tree: Tree, at: Seq<u8>)
    requires
        plainly_named(tree),
    ensures
        taken_in(published(tree, at), true) == (Tree { name: at, ..tree }),
    decreases tree,
{
    let wire = published(tree, at);
    assert forall|i: int| 0 <= i < tree.children.len() implies taken_in_children(wire)[i]
        == tree.children[i] by {
        let child = tree.children[i];
        plain_name_is_own(child.name);
        let below = path::joined(at, child.name);
        wire_round_trip(child, below);
        path::joined_name_is_last(at, child.name);
        assert(own_name(below) == child.name);
        assert(wire.children[i] == published(child, below));
        assert(taken_in(published(child, below), false) == Tree {
            name: child.name,
            ..taken_in(published(child, below), true)
        });
    }
    assert(taken_in_children(wire) =~= tree.children);
}

/// A tree's own path names the tree, and a name joined to it names the first child so called.
pub proof fn resolves_itself_and_children(tree: Tree, name: Seq<u8>)
    requires
        path::plain_name(name),
    ensures
        resolved(tree, tree.name) == Some(tree),
        resolved(tree, path::joined(tree.name, name)) == match position(tree.children, name) {
            Some(at) => Some(tree.children[at]),
            None => None,
        },
{
    let own = path::components(tree.name);
    assert(own.skip(own.len() as int) =~= Seq::empty());
    path::joined_name_is_last(tree.name, name);
    let target = path::joined(tree.name, name);
    assert(own =~= own.push(name).subrange(0, own.len() as int));
    assert(own.push(name).skip(own.len() as int) =~= seq![name]);
    assert(seq![name].skip(1) =~= Seq::empty());
    reveal_with_fuel(walk, 3);
}

/// What is removed is what the path named, and nothing is removed where nothing was named.
pub proof fn removes_what_it_resolves(tree: Tree, target: Seq<u8>)
    ensures
        removed(tree, target) matches Some((rest, gone)) ==> resolved(tree, target) == Some(gone)
            && !path::same_place(target, tree.name),
        path::same_place(target, tree.name) ==> removed(tree, target) is None,
        resolved(tree, target) is None ==> removed(tree, target) is None,
        resolved(tree, target) is Some && !path::same_place(target, tree.name) ==> removed(
            tree,
            target,
        ) is Some,
{
    match steps(tree, target) {
        Some(names) => {
            prunes_what_it_walks_to(tree, names);
            let (own, all) = (path::components(tree.name), path::components(target));
            if names.len() == 0 {
                assert(own =~= all);
            }
        },
        None => {
            if path::same_place(target, tree.name) {
                let own = path::components(tree.name);
                assert(own =~= own.subrange(0, own.len() as int));
            }
        },
    }
}

proof fn prunes_what_it_walks_to(tree: Tree, names: Seq<Seq<u8>>)
    ensures
        pruned(tree, names) matches Some((rest, gone)) ==> walk(tree, names) == Some(gone),
        names.len() == 0 ==> pruned(tree, names) is None,
        names.len() > 0 && walk(tree, names) is Some ==> pruned(tree, names) is Some,
    decreases names.len(),
{
    if names.len() > 0 {
        match position(tree.children, names[0]) {
            Some(at) => {
                if names.len() == 1 {
                    assert(names.skip(1) =~= Seq::empty());
                    assert(walk(tree.children[at], names.skip(1)) == Some(tree.children[at]));
                } else {
                    prunes_what_it_walks_to(tree.children[at], names.skip(1));
                }
            },
            None => {},
        }
    }
}

/// Removing an entry takes its figures off the root, and off every ancestor in between: none of
/// them is left with more than it had less what went.
pub proof fn removal_corrects_the_root(tree: Tree, target: Seq<u8>)
    ensures
        removed(tree, target) matches Some((rest, gone)) ==> {
            &&& rest.allocated_size == less_by(tree.allocated_size, gone.allocated_size)
            &&& rest.apparent_size == less_by(tree.apparent_size, gone.apparent_size)
            &&& rest.items == less_by(tree.items, gone.items)
            &&& rest.name == tree.name
            &&& rest.modified == tree.modified
        },
{
}

/// Once removed, a path names nothing any more, and every other ancestor on the way was corrected
/// in the same way as the root.
pub proof fn removal_is_final(tree: Tree, target: Seq<u8>)
    requires
        distinctly_named(tree),
    ensures
        removed(tree, target) matches Some((rest, gone)) ==> resolved(rest, target) is None,
{
    match steps(tree, target) {
        Some(names) => {
            pruned_path_is_gone(tree, names);
        },
        None => {},
    }
}

proof fn pruned_path_is_gone(tree: Tree, names: Seq<Seq<u8>>)
    requires
        distinctly_named(tree),
    ensures
        pruned(tree, names) matches Some((rest, gone)) ==> walk(rest, names) is None && rest.name
            == tree.name,
    decreases names.len(),
{
    if names.len() > 0 {
        match position(tree.children, names[0]) {
            Some(at) => {
                position_holds(tree.children, names[0], 0);
                if names.len() == 1 {
                    let rest = tree.children.remove(at);
                    assert forall|j: int| 0 <= j < rest.len() implies own_name(
                        #[trigger] rest[j].name,
                    ) != names[0] by {
                        if j < at {
                            assert(rest[j] == tree.children[j]);
                        } else {
                            assert(rest[j] == tree.children[j + 1]);
                        }
                    }
                    position_is_none(rest, names[0], 0);
                } else {
                    assert(distinctly_named(tree.children[at]));
                    pruned_path_is_gone(tree.children[at], names.skip(1));
                    match pruned(tree.children[at], names.skip(1)) {
                        Some((branch, gone)) => {
                            let rest = tree.children.update(at, branch);
                            assert forall|j: int| 0 <= j < at implies own_name(
                                #[trigger] rest[j].name,
                            ) != names[0] by {
                                assert(rest[j] == tree.children[j]);
                            }
                            position_is(rest, names[0], 0, at);
                        },
                        None => {},
                    }
                }
            },
            None => {},
        }
    }
}

/// Sorting a tree keeps everything in it but the order: each directory's figures stay, and each
/// level comes out largest first.
pub proof fn sorting_orders_every_level(tree: Tree, kind: SizeKind)
    ensures
        sorted(tree, kind).children.len() == tree.children.len(),
        sorted(tree, kind).children.to_multiset() == sorted_children(tree, kind).to_multiset(),
        forall|i: int, j: int|
            0 <= i < j < tree.children.len() ==> size_of(
                #[trigger] sorted(tree, kind).children[i],
                kind,
            ) >= size_of(#[trigger] sorted(tree, kind).children[j], kind),
{
    let less = |a: Tree, b: Tree| outranks(a, b, kind);
    outranks_is_an_order(kind);
    order::sort_is_a_permutation(sorted_children(tree, kind), less);
    order::sort_orders(sorted_children(tree, kind), less);
    let out = sorted(tree, kind).children;
    assert forall|i: int, j: int| 0 <= i < j < tree.children.len() implies size_of(
        #[trigger] out[i],
        kind,
    ) >= size_of(#[trigger] out[j], kind) by {
        assert(!less(out[j], out[i]));
    }
}

} // verus!
