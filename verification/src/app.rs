//! Interactive state: what is on screen, what is selected, and what a key does.
//!
//! Nothing here touches the disk, the clock or the terminal. What has to be done there is asked for
//! in [`App::requests`], and what came of it is handed back.

use vstd::prelude::*;
use crate::commands;
use crate::deletion;
use crate::deletion::{Fate, Outcome, Target};
use crate::diff;
use crate::diff::{ChangeNode, Diff, Moves};
use crate::file_manager;
use crate::file_manager::Platform;
use crate::history;
use crate::history::Snapshot;
use crate::model;
use crate::model::{Choice, Line, Metric, Row, RowOptions, Sort};
use crate::mounts;
use crate::mounts::{Filesystem, Volume};
use crate::order;
use crate::path;
use crate::path::FilePath;
use crate::scan;
use crate::scan::{Finished, ScanOptions, Summary};
use crate::size;
use crate::size::{SizeKind, Unit};
use crate::strings;
use crate::tree;
use crate::tree::{DiskEntry, Tree};
use crate::views;

verus! {

/// How far down a running scan publishes finished directories. Two levels is enough that a scan of
/// `/` shows `~/Library` long before `/` itself is done.
pub const STREAM_DEPTH: usize = 2;

/// How many finished directories to keep on the progress screen.
pub const STREAM_KEEP: usize = 12;

/// How much of the previous tree a rescan keeps on screen while it runs. The sunburst draws three
/// rings and the list draws one level, so five is already more than anything on screen can reach.
pub const REFRESH_KEEP_DEPTH: usize = 5;

/// The word that has to be typed before anything is removed.
#[verifier::allow_in_spec]
pub fn confirm_word() -> &'static str
    returns
        "delete",
{
    "delete"
}

/// A pending deletion, waiting to be confirmed or called off.
#[derive(Debug)]
pub struct Confirm {
    pub targets: Vec<Target>,
    /// What the user has typed toward the word.
    pub typed: String,
    /// Set when Enter was pressed before the word was complete.
    pub nagged: bool,
}

/// Something to be removed, as a value.
#[verifier::ext_equal]
pub struct Aim {
    pub path: Seq<u8>,
    pub size: u64,
    pub is_dir: bool,
}

/// A pending deletion as a value.
#[verifier::ext_equal]
pub struct Pending {
    pub targets: Seq<Aim>,
    pub typed: Seq<char>,
    pub nagged: bool,
}

pub open spec fn aims(list: Seq<Target>) -> Seq<Aim> {
    list.map_values(
        |target: Target| Aim { path: target.path@, size: target.size, is_dir: target.is_dir },
    )
}

impl View for Confirm {
    type V = Pending;

    open spec fn view(&self) -> Pending {
        Pending { targets: aims(self.targets@), typed: self.typed@, nagged: self.nagged }
    }
}

/// How much some targets take together.
pub open spec fn total_size(targets: Seq<Aim>) -> u64
    decreases targets.len(),
{
    if targets.len() == 0 {
        0
    } else {
        tree::wrapped(total_size(targets.drop_last()), targets.last().size)
    }
}

/// Whether the word has been typed in full.
pub open spec fn armed(pending: Pending) -> bool {
    pending.typed == confirm_word()@
}

impl Confirm {
    pub fn total(&self) -> (bytes: u64)
        ensures
            bytes == total_size(self@.targets),
    {
        let ghost all = aims(self.targets@);
        let mut bytes: u64 = 0;
        let mut at: usize = 0;
        while at < self.targets.len()
            invariant
                at <= self.targets@.len(),
                all == aims(self.targets@),
                bytes == total_size(all.take(at as int)),
            decreases self.targets@.len() - at,
        {
            proof {
                let upto = all.take(at as int + 1);
                assert(upto.drop_last() =~= all.take(at as int));
                assert(upto.last().size == self.targets@[at as int].size);
            }
            bytes = bytes.wrapping_add(self.targets[at].size);
            at += 1;
        }
        assert(all.take(at as int) =~= all);
        bytes
    }

    pub fn is_armed(&self) -> (yes: bool)
        ensures
            yes == armed(self@),
    {
        strings::same(self.typed.as_str(), confirm_word())
    }
}

#[derive(Copy, Clone, Debug)]
pub struct Settings {
    pub size_kind: SizeKind,
    pub unit: Unit,
    pub top: usize,
    pub scan_options: ScanOptions,
    pub show_all_filesystems: bool,
    /// Whether finished scans join the snapshot history.
    pub record_snapshots: bool,
}

/// Live watching: rescan every `every` seconds and report growth against the state of the world when
/// watching started.
#[derive(Debug)]
pub struct Watch {
    pub every: u64,
    /// The pruned tree the deltas are measured from.
    pub baseline: Option<DiskEntry>,
    /// When watching started, in seconds since the epoch.
    pub started_at: u64,
    /// When the last scan came in, in seconds of a clock that never goes back.
    pub last_scan: u64,
    pub rounds: u64,
}

/// Watching, as a value.
#[verifier::ext_equal]
pub struct Vigil {
    pub every: u64,
    pub baseline: Option<Tree>,
    pub started_at: u64,
    pub last_scan: u64,
    pub rounds: u64,
}

impl View for Watch {
    type V = Vigil;

    open spec fn view(&self) -> Vigil {
        Vigil {
            every: self.every,
            baseline: tree_value(self.baseline),
            started_at: self.started_at,
            last_scan: self.last_scan,
            rounds: self.rounds,
        }
    }
}

impl Watch {
    pub fn new(every: u64, now: u64, clock: u64) -> (watch: Watch)
        ensures
            watch@ == (Vigil {
                every,
                baseline: None,
                started_at: now,
                last_scan: clock,
                rounds: 0,
            }),
    {
        Watch { every, baseline: None, started_at: now, last_scan: clock, rounds: 0 }
    }

    pub fn is_due(&self, clock: u64) -> (yes: bool)
        ensures
            yes == (tree::less_by(clock, self.last_scan) >= self.every),
    {
        clock.saturating_sub(self.last_scan) >= self.every
    }

    pub fn elapsed(&self, now: u64) -> (seconds: u64)
        ensures
            seconds == tree::less_by(now, self.started_at),
    {
        now.saturating_sub(self.started_at)
    }
}

/// How a scan should treat the state around it.
#[derive(Copy, Clone, Debug, PartialEq, Eq, Structural)]
pub enum ScanMode {
    /// A new place: reset the cursor and show progress.
    Fresh,
    /// The same place again: keep where the user was standing.
    Refresh,
}

/// Something to be done outside.
#[derive(Debug)]
pub enum Request {
    /// Find out where a path really is, what disk it is on and what was known of it, and begin a
    /// scan there.
    Begin { path: FilePath, mode: ScanMode },
    /// Scan a path in the background.
    Scan { path: FilePath },
    /// Stop the scan that is running.
    StopScan,
    /// Record the tree that is on screen.
    Record,
    /// Remove these in the background.
    Delete { targets: Vec<Target> },
    /// Stop the removal that is running.
    StopDelete,
    /// List the disks again.
    ListDisks,
    /// Show a path in the desktop's file manager.
    Show { path: FilePath, is_dir: bool },
    /// Put a path on the clipboard.
    Copy { path: FilePath },
}

/// The same, as a value.
#[verifier::ext_equal]
pub enum Asked {
    Begin { path: Seq<u8>, mode: ScanMode },
    Scan { path: Seq<u8> },
    StopScan,
    Record,
    Delete { targets: Seq<Aim> },
    StopDelete,
    ListDisks,
    Show { path: Seq<u8>, is_dir: bool },
    Copy { path: Seq<u8> },
}

impl View for Request {
    type V = Asked;

    open spec fn view(&self) -> Asked {
        match self {
            Request::Begin { path, mode } => Asked::Begin { path: path@, mode: *mode },
            Request::Scan { path } => Asked::Scan { path: path@ },
            Request::StopScan => Asked::StopScan,
            Request::Record => Asked::Record,
            Request::Delete { targets } => Asked::Delete { targets: aims(targets@) },
            Request::StopDelete => Asked::StopDelete,
            Request::ListDisks => Asked::ListDisks,
            Request::Show { path, is_dir } => Asked::Show { path: path@, is_dir: *is_dir },
            Request::Copy { path } => Asked::Copy { path: path@ },
        }
    }
}

pub open spec fn asked(list: Seq<Request>) -> Seq<Asked> {
    list.map_values(|request: Request| request@)
}

/// A removal that is running in the background.
#[derive(Copy, Clone, Debug, PartialEq, Eq, Structural)]
pub struct Deleting {
    /// Whether it was asked to stop.
    pub stopping: bool,
}

impl Deleting {
    pub fn is_stopping(&self) -> (yes: bool)
        ensures
            yes == self.stopping,
    {
        self.stopping
    }
}

/// A comparison as a value.
#[verifier::ext_equal]
pub struct Comparison {
    pub root: Seq<u8>,
    pub before_at: u64,
    pub after_at: u64,
    pub before_total: u64,
    pub after_total: u64,
    pub before_floor: u64,
    pub tree: Moves,
}

pub open spec fn comparison(diff: Diff) -> Comparison {
    Comparison {
        root: diff.root@,
        before_at: diff.before_at,
        after_at: diff.after_at,
        before_total: diff.before_total,
        after_total: diff.after_total,
        before_floor: diff.before_floor,
        tree: diff.tree@,
    }
}

/// What a comparison of two trees comes to.
pub open spec fn compare_trees(
    before: Tree,
    after: Tree,
    kind: SizeKind,
    before_at: u64,
    after_at: u64,
    floor: u64,
) -> Comparison {
    Comparison {
        root: after.name,
        before_at,
        after_at,
        before_total: tree::size_of(before, kind),
        after_total: tree::size_of(after, kind),
        before_floor: floor,
        tree: diff::compared(Some(before), Some(after), after.name, kind, floor),
    }
}

pub open spec fn text_value(text: Option<String>) -> Option<Seq<char>> {
    match text {
        Some(text) => Some(text@),
        None => None,
    }
}

pub open spec fn tree_value(entry: Option<DiskEntry>) -> Option<Tree> {
    match entry {
        Some(entry) => Some(entry@),
        None => None,
    }
}

pub open spec fn path_list(list: Seq<FilePath>) -> Seq<Seq<u8>> {
    list.map_values(|path: FilePath| path@)
}

pub struct App {
    pub settings: Settings,
    pub view: views::View,
    pub filesystems: Vec<Filesystem>,
    pub picker_index: usize,
    pub tree: Option<DiskEntry>,
    pub root: FilePath,
    pub cwd: FilePath,
    pub selection: usize,
    /// What is marked, each place once.
    pub marks: Vec<FilePath>,
    pub search: Option<String>,
    pub search_active: bool,
    pub sort: Sort,
    pub details: bool,
    pub filesystem: Option<Filesystem>,
    pub status: Option<String>,
    pub quit: bool,
    /// Measuring size, or measuring what changed.
    pub metric: Metric,
    /// The comparison behind growth mode, when there is one.
    pub diff: Option<Diff>,
    pub watch: Option<Watch>,
    /// True when the disk picker is where this scan came from, so "up" from the top of the tree has
    /// somewhere to go back to.
    pub from_picker: bool,
    /// A deletion waiting on confirmation.
    pub confirm: Option<Confirm>,
    /// What the last deletion did, shown until the next keystroke.
    pub outcomes: Vec<Outcome>,
    /// When set, nothing is deleted at all.
    pub read_only: bool,
    /// When the numbers on screen came from a stored snapshot rather than the scan that is still
    /// running: the moment that snapshot was taken.
    pub provisional: Option<u64>,
    /// Directories the running scan has finished counting, largest first.
    pub streamed: Vec<Finished>,
    /// A deletion in flight.
    pub deleting: Option<Deleting>,
    /// Whether a scan is running.
    pub scanning: bool,
    pub mode: ScanMode,
    /// How many times the tree behind the view has been replaced or edited.
    pub revision: u64,
    /// Frame counter, so overlays can animate.
    pub tick: usize,
    /// The user's home directory, which paths on screen are shortened by.
    pub home: Option<FilePath>,
    /// What is to be done outside, in order.
    pub requests: Vec<Request>,
}

/// The whole state as a value.
#[verifier::ext_equal]
pub struct State {
    pub settings: Settings,
    pub view: views::View,
    pub filesystems: Seq<Volume>,
    pub picker_index: usize,
    pub tree: Option<Tree>,
    pub root: Seq<u8>,
    pub cwd: Seq<u8>,
    pub selection: usize,
    pub marks: Seq<Seq<u8>>,
    pub search: Option<Seq<char>>,
    pub search_active: bool,
    pub sort: Sort,
    pub details: bool,
    pub filesystem: Option<Volume>,
    pub status: Option<Seq<char>>,
    pub quit: bool,
    pub metric: Metric,
    pub diff: Option<Comparison>,
    pub watch: Option<Vigil>,
    pub from_picker: bool,
    pub confirm: Option<Pending>,
    pub outcomes: Seq<Fate>,
    pub read_only: bool,
    pub provisional: Option<u64>,
    pub streamed: Seq<Summary>,
    pub deleting: Option<Deleting>,
    pub scanning: bool,
    pub mode: ScanMode,
    pub revision: u64,
    pub tick: usize,
    pub home: Option<Seq<u8>>,
    pub requests: Seq<Asked>,
}

impl View for App {
    type V = State;

    open spec fn view(&self) -> State {
        State {
            settings: self.settings,
            view: self.view,
            filesystems: mounts::volumes(self.filesystems@),
            picker_index: self.picker_index,
            tree: tree_value(self.tree),
            root: self.root@,
            cwd: self.cwd@,
            selection: self.selection,
            marks: path_list(self.marks@),
            search: text_value(self.search),
            search_active: self.search_active,
            sort: self.sort,
            details: self.details,
            filesystem: match self.filesystem {
                Some(fs) => Some(fs@),
                None => None,
            },
            status: text_value(self.status),
            quit: self.quit,
            metric: self.metric,
            diff: match self.diff {
                Some(diff) => Some(comparison(diff)),
                None => None,
            },
            watch: match self.watch {
                Some(watch) => Some(watch@),
                None => None,
            },
            from_picker: self.from_picker,
            confirm: match self.confirm {
                Some(confirm) => Some(confirm@),
                None => None,
            },
            outcomes: deletion::fates(self.outcomes@),
            read_only: self.read_only,
            provisional: self.provisional,
            streamed: scan::summaries(self.streamed@),
            deleting: self.deleting,
            scanning: self.scanning,
            mode: self.mode,
            revision: self.revision,
            tick: self.tick,
            home: model::home_value(self.home),
            requests: asked(self.requests@),
        }
    }
}

/// The state an application starts in.
pub open spec fn initial(
    settings: Settings,
    details: bool,
    filesystems: Seq<Volume>,
    home: Option<Seq<u8>>,
) -> State {
    State {
        settings,
        view: views::View::Picker,
        filesystems,
        picker_index: 0,
        tree: None,
        root: Seq::empty(),
        cwd: Seq::empty(),
        selection: 0,
        marks: Seq::empty(),
        search: None,
        search_active: false,
        sort: Sort::Size,
        details,
        filesystem: None,
        status: None,
        quit: false,
        metric: Metric::Size,
        diff: None,
        watch: None,
        from_picker: false,
        confirm: None,
        outcomes: Seq::empty(),
        read_only: false,
        provisional: None,
        streamed: Seq::empty(),
        deleting: None,
        scanning: false,
        mode: ScanMode::Fresh,
        revision: 0,
        tick: 0,
        home,
        requests: Seq::empty(),
    }
}

/// One more thing to be done outside.
pub open spec fn asking(state: State, request: Asked) -> State {
    State { requests: state.requests.push(request), ..state }
}

/// A message at the bottom of the screen.
pub open spec fn telling(state: State, text: Seq<char>) -> State {
    State { status: Some(text), ..state }
}

/// A counter's next value.
pub open spec fn next_revision(revision: u64) -> u64 {
    tree::wrapped(revision, 1)
}

/// The tree behind the view has changed, so anything derived from it has to be built again.
pub open spec fn touched(state: State) -> State {
    State { revision: next_revision(state.revision), ..state }
}

/// Whether what changed is on screen rather than what is big.
pub open spec fn growing(state: State) -> bool {
    state.metric == Metric::Growth && state.diff is Some
}

/// What rows are asked for.
pub open spec fn row_choice(state: State, cap: bool) -> Choice {
    Choice {
        size_kind: state.settings.size_kind,
        top: if cap {
            Some(state.settings.top)
        } else {
            None
        },
        sort: state.sort,
        filter: state.search,
    }
}

/// The entry for wherever the user is standing.
pub open spec fn entry_here(state: State) -> Option<Tree> {
    match state.tree {
        Some(tree) => tree::resolved(tree, state.cwd),
        None => None,
    }
}

/// The change for wherever the user is standing.
pub open spec fn change_here(state: State) -> Option<Moves> {
    match state.diff {
        Some(diff) => diff::found(diff.tree, state.cwd),
        None => None,
    }
}

/// The rows for the current directory. The explorer draws every wedge, so it does not fold the tail
/// into an "Other" row that has no path to open.
pub open spec fn rows_here(state: State) -> Seq<Line> {
    let choice = row_choice(state, state.view != views::View::Explorer);
    if growing(state) {
        match change_here(state) {
            Some(node) => model::growth_rows_of(node, choice),
            None => Seq::empty(),
        }
    } else {
        match entry_here(state) {
            Some(entry) => model::rows_of(entry, state.cwd, choice),
            None => Seq::empty(),
        }
    }
}

/// The row under the cursor.
pub open spec fn row_under_cursor(state: State) -> Option<Line> {
    if state.selection < rows_here(state).len() {
        Some(rows_here(state)[state.selection as int])
    } else {
        None
    }
}

/// The path under the cursor.
pub open spec fn path_under_cursor(state: State) -> Option<Seq<u8>> {
    match row_under_cursor(state) {
        Some(line) => line.path,
        None => None,
    }
}

/// A position kept inside a list.
pub open spec fn clamped(at: int, count: nat) -> usize {
    if count == 0 || at < 0 {
        0
    } else if at >= count {
        (count - 1) as usize
    } else {
        at as usize
    }
}

impl App {
    pub fn new(
        settings: Settings,
        details: bool,
        filesystems: Vec<Filesystem>,
        home: Option<FilePath>,
    ) -> (app: App)
        ensures
            app@ == initial(
                settings,
                details,
                mounts::volumes(filesystems@),
                model::home_value(home),
            ),
    {
        let app = App {
            settings,
            view: views::View::Picker,
            filesystems,
            picker_index: 0,
            tree: None,
            root: FilePath::from_bytes(Vec::new()),
            cwd: FilePath::from_bytes(Vec::new()),
            selection: 0,
            marks: Vec::new(),
            search: None,
            search_active: false,
            sort: Sort::Size,
            details,
            filesystem: None,
            status: None,
            quit: false,
            metric: Metric::Size,
            diff: None,
            watch: None,
            from_picker: false,
            confirm: None,
            outcomes: Vec::new(),
            read_only: false,
            provisional: None,
            streamed: Vec::new(),
            deleting: None,
            scanning: false,
            mode: ScanMode::Fresh,
            revision: 0,
            tick: 0,
            home,
            requests: Vec::new(),
        };
        proof {
            assert(app@.marks =~= Seq::empty());
            assert(app@.outcomes =~= Seq::empty());
            assert(app@.streamed =~= Seq::empty());
            assert(app@.requests =~= Seq::empty());
            assert(app@.root =~= Seq::empty());
            assert(app@.cwd =~= Seq::empty());
        }
        app
    }

    fn ask(&mut self, request: Request)
        ensures
            final(self)@ == asking(old(self)@, request@),
    {
        let ghost before = self.requests@;
        self.requests.push(request);
        assert(asked(self.requests@) =~= asked(before).push(request@));
    }

    fn tell(&mut self, text: &str)
        ensures
            final(self)@ == telling(old(self)@, text@),
    {
        self.status = Some(String::from_str(text));
    }

    /// Note that the tree behind the view has changed.
    fn touch(&mut self)
        ensures
            final(self)@ == touched(old(self)@),
    {
        self.revision = self.revision.wrapping_add(1);
    }

    pub fn showing_growth(&self) -> (yes: bool)
        ensures
            yes == growing(self@),
    {
        self.diff.is_some() && match self.metric {
            Metric::Growth => true,
            Metric::Size => false,
        }
    }

    pub fn row_options(&self, cap: bool) -> (options: RowOptions)
        ensures
            options@ == row_choice(self@, cap),
    {
        RowOptions {
            size_kind: self.settings.size_kind,
            top: if cap {
                Some(self.settings.top)
            } else {
                None
            },
            sort: self.sort,
            filter: match &self.search {
                Some(search) => Some(String::from_str(search.as_str())),
                None => None,
            },
        }
    }

    pub fn current_entry(&self) -> (entry: Option<&DiskEntry>)
        ensures
            entry is Some <==> entry_here(self@) is Some,
            entry matches Some(entry) ==> entry@ == entry_here(self@)->0,
    {
        match &self.tree {
            Some(tree) => tree.resolve(&self.cwd),
            None => None,
        }
    }

    /// The change tree node for wherever the user is standing.
    pub fn current_change(&self) -> (node: Option<&ChangeNode>)
        ensures
            node is Some <==> change_here(self@) is Some,
            node matches Some(node) ==> node@ == change_here(self@)->0,
    {
        match &self.diff {
            Some(diff) => diff.tree.find(&self.cwd),
            None => None,
        }
    }

    /// Rows for the current directory. Owned, so callers can hold them while changing the state.
    pub fn rows(&self) -> (out: Vec<Row>)
        ensures
            model::lines(out@) == rows_here(self@),
            model::rows_valid(out@),
    {
        let cap = match self.view {
            views::View::Explorer => false,
            _ => true,
        };
        let options = self.row_options(cap);
        if self.showing_growth() {
            match self.current_change() {
                Some(node) => model::growth_rows(node, &options),
                None => no_rows(),
            }
        } else {
            match self.current_entry() {
                Some(entry) => model::rows(&self.cwd, entry, &options),
                None => no_rows(),
            }
        }
    }

    /// How many rows there are.
    fn row_count(&self) -> (count: usize)
        ensures
            count == rows_here(self@).len(),
    {
        let rows = self.rows();
        assert(model::lines(rows@).len() == rows@.len());
        rows.len()
    }

    pub fn selected_row(&self) -> (row: Option<Row>)
        ensures
            row is Some <==> row_under_cursor(self@) is Some,
            row matches Some(row) ==> Some(row@) == row_under_cursor(self@) && row.fraction.valid(),
    {
        let mut rows = self.rows();
        let ghost all = model::lines(rows@);
        assert(all.len() == rows@.len());
        if self.selection < rows.len() {
            let row = rows.swap_remove(self.selection);
            assert(row@ == all[self.selection as int]);
            Some(row)
        } else {
            None
        }
    }
}

fn no_rows() -> (out: Vec<Row>)
    ensures
        model::lines(out@) == Seq::<Line>::empty(),
        model::rows_valid(out@),
{
    let out: Vec<Row> = Vec::new();
    assert(model::lines(out@) =~= Seq::empty());
    out
}


// Moving about.

pub open spec fn moved_by(state: State, delta: int) -> State {
    State { selection: clamped(state.selection + delta, rows_here(state).len()), ..state }
}

pub open spec fn searched_no_more(state: State) -> State {
    State { search: None, search_active: false, ..state }
}

/// What is said of a file that cannot be opened.
pub open spec fn file_text(target: Seq<u8>, home: Option<Seq<u8>>) -> Seq<char> {
    model::path_text(target, home) + " is a file"@
}

/// One level down, into what is under the cursor.
pub open spec fn opened(state: State) -> State {
    match row_under_cursor(state) {
        None => state,
        Some(line) => match line.path {
            None => telling(
                state,
                "\"Other\" groups several entries — raise --top to see them"@,
            ),
            Some(target) => if line.is_dir {
                searched_no_more(State { cwd: target, selection: 0, ..state })
            } else {
                telling(state, file_text(target, state.home))
            },
        },
    }
}

/// What is said at the top of a scan that nothing lies above.
pub open spec fn top_text(root: Seq<u8>, home: Option<Seq<u8>>) -> Seq<char> {
    "top of this scan — run disko on "@ + (match path::parent(root) {
        Some(parent) => model::path_text(parent, home),
        None => "the parent"@,
    }) + " to go higher"@
}

/// Where a path's row stands, from `from` on, and the first row where it has none.
pub open spec fn row_of(lines: Seq<Line>, target: Seq<u8>, from: nat) -> usize
    decreases lines.len() - from,
{
    if from >= lines.len() {
        0
    } else if lines[from as int].path is Some && path::same_place(
        lines[from as int].path->0,
        target,
    ) {
        from as usize
    } else {
        row_of(lines, target, from + 1)
    }
}

/// Everything belonging to the current scan dropped, and the disks on screen again.
pub open spec fn at_picker(state: State) -> State {
    let stopped = if state.scanning {
        asking(state, Asked::StopScan)
    } else {
        state
    };
    let cleared = State {
        scanning: false,
        view: views::View::Picker,
        tree: None,
        diff: None,
        revision: next_revision(state.revision),
        metric: Metric::Size,
        root: Seq::empty(),
        cwd: Seq::empty(),
        selection: 0,
        search: None,
        search_active: false,
        marks: Seq::empty(),
        status: None,
        ..stopped
    };
    asking(cleared, Asked::ListDisks)
}

/// One level up, back on the child just left. At the top of the tree that means back to the disk
/// list, when that is where this scan came from.
pub open spec fn gone_up(state: State) -> State {
    if path::same_place(state.cwd, state.root) {
        if state.from_picker {
            at_picker(state)
        } else {
            telling(state, top_text(state.root, state.home))
        }
    } else {
        match path::parent(state.cwd) {
            None => state,
            Some(parent) => {
                let up = searched_no_more(State { cwd: parent, ..state });
                State { selection: row_of(rows_here(up), state.cwd, 0), ..up }
            },
        }
    }
}

fn keep_inside(at: usize, count: usize) -> (out: usize)
    ensures
        out == clamped(at as int, count as nat),
{
    if count == 0 {
        0
    } else if at >= count {
        count - 1
    } else {
        at
    }
}

impl App {
    pub fn move_selection(&mut self, delta: isize)
        ensures
            final(self)@ == moved_by(old(self)@, delta as int),
    {
        let count: usize = self.row_count();
        if count == 0 {
            self.selection = 0;
            return;
        }
        let next: i128 = self.selection as i128 + delta as i128;
        self.selection =
        if next < 0 {
            0
        } else if next >= count as i128 {
            count - 1
        } else {
            next as usize
        };
    }

    pub fn select_first(&mut self)
        ensures
            final(self)@ == (State { selection: 0, ..old(self)@ }),
    {
        self.selection = 0;
    }

    pub fn select_last(&mut self)
        ensures
            final(self)@ == (State {
                selection: clamped(
                    rows_here(old(self)@).len() - 1,
                    rows_here(old(self)@).len(),
                ),
                ..old(self)@
            }),
    {
        let count: usize = self.row_count();
        self.selection =
        if count == 0 {
            0
        } else {
            count - 1
        };
    }

    /// Descend into the selected directory.
    pub fn open_selected(&mut self)
        ensures
            final(self)@ == opened(old(self)@),
    {
        let row = match self.selected_row() {
            Some(row) => row,
            None => {
                return;
            },
        };
        let target = match row.path {
            Some(target) => target,
            None => {
                self.tell("\"Other\" groups several entries — raise --top to see them");
                return;
            },
        };
        if !row.is_dir {
            let mut text = model::display_path_from(&target, &self.home);
            text.append(" is a file");
            self.tell(text.as_str());
            return;
        }
        self.cwd = target;
        self.selection = 0;
        self.search = None;
        self.search_active = false;
    }

    pub fn cancel_scan(&mut self)
        ensures
            final(self)@ == if old(self)@.scanning {
                asking(old(self)@, Asked::StopScan)
            } else {
                old(self)@
            },
    {
        if self.scanning {
            self.ask(Request::StopScan);
        }
    }

    /// Drop everything belonging to the current scan and show the disks again. Capacities move
    /// while you are busy looking at one disk, so they are listed anew.
    pub fn return_to_picker(&mut self)
        ensures
            final(self)@ == at_picker(old(self)@),
    {
        self.cancel_scan();
        self.scanning = false;
        self.view = views::View::Picker;
        self.tree = None;
        self.diff = None;
        self.touch();
        self.metric = Metric::Size;
        self.root = FilePath::from_bytes(Vec::new());
        self.cwd = FilePath::from_bytes(Vec::new());
        self.selection = 0;
        self.search = None;
        self.search_active = false;
        // Marks are paths inside the scan that is being left behind.
        self.marks = Vec::new();
        self.status = None;
        proof {
            assert(self@.marks =~= Seq::empty());
            assert(self@.root =~= Seq::empty());
            assert(self@.cwd =~= Seq::empty());
        }
        self.ask(Request::ListDisks);
    }

    /// Back up one level. At the top of the tree that means back to the disk list, when that is
    /// where this scan came from.
    pub fn go_up(&mut self)
        ensures
            final(self)@ == gone_up(old(self)@),
    {
        if self.cwd.same(&self.root) {
            if self.from_picker {
                self.return_to_picker();
            } else {
                let higher = match self.root.parent() {
                    Some(parent) => model::display_path_from(&parent, &self.home),
                    None => String::from_str("the parent"),
                };
                let mut text = String::from_str("top of this scan — run disko on ");
                text.append(higher.as_str());
                text.append(" to go higher");
                self.tell(text.as_str());
            }
            return;
        }
        let parent = match self.cwd.parent() {
            Some(parent) => parent,
            None => {
                return;
            },
        };
        // Remember where we came from so going up lands on the child we left.
        let leaving = self.cwd.duplicate();
        self.cwd = parent;
        self.search = None;
        self.search_active = false;
        let rows = self.rows();
        self.selection = find_row(&rows, &leaving);
    }
}

fn find_row(rows: &Vec<Row>, target: &FilePath) -> (at: usize)
    ensures
        at == row_of(model::lines(rows@), target@, 0),
{
    let ghost all = model::lines(rows@);
    let mut at: usize = 0;
    while at < rows.len()
        invariant
            at <= rows@.len(),
            all == model::lines(rows@),
            row_of(all, target@, 0) == row_of(all, target@, at as nat),
        decreases rows@.len() - at,
    {
        assert(all[at as int] == rows@[at as int]@);
        if let Some(own) = &rows[at].path {
            if own.same(target) {
                return at;
            }
        }
        at += 1;
    }
    0
}

// Searching and sorting.

pub open spec fn search_begun(state: State) -> State {
    State {
        search_active: true,
        search: match state.search {
            Some(search) => Some(search),
            None => Some(Seq::empty()),
        },
        ..state
    }
}

pub open spec fn search_typed(state: State, letter: char) -> State {
    match state.search {
        Some(search) => State { search: Some(search.push(letter)), selection: 0, ..state },
        None => state,
    }
}

/// A text without its last character.
pub open spec fn shortened(text: Seq<char>) -> Seq<char> {
    if text.len() == 0 {
        text
    } else {
        text.drop_last()
    }
}

pub open spec fn search_untyped(state: State) -> State {
    match state.search {
        Some(search) => State { search: Some(shortened(search)), selection: 0, ..state },
        None => state,
    }
}

pub open spec fn search_cleared(state: State) -> State {
    State { search: None, search_active: false, selection: 0, ..state }
}

pub open spec fn resorted(state: State) -> State {
    let sort = model::sort_after(state.sort);
    telling(State { sort, ..state }, "sorted by "@ + model::sort_label(sort))
}

pub open spec fn other_kind(kind: SizeKind) -> SizeKind {
    match kind {
        SizeKind::Allocated => SizeKind::Apparent,
        SizeKind::Apparent => SizeKind::Allocated,
    }
}

pub open spec fn kind_switched(state: State) -> State {
    let kind = other_kind(state.settings.size_kind);
    telling(
        State { settings: Settings { size_kind: kind, ..state.settings }, ..state },
        match kind {
            SizeKind::Allocated => "showing space used on disk"@,
            SizeKind::Apparent => "showing apparent file sizes"@,
        },
    )
}

pub open spec fn metric_text(metric: Metric) -> Seq<char> {
    match metric {
        Metric::Size => "size"@,
        Metric::Growth => "growth"@,
    }
}

/// The other of "what is big" and "what changed", where there is something to compare with.
pub open spec fn metric_switched(state: State) -> State {
    if state.diff is None {
        telling(
            state,
            if state.watch is Some {
                "waiting for the first rescan"@
            } else {
                "no earlier scan to compare against — this one is now the baseline"@
            },
        )
    } else {
        let metric = match state.metric {
            Metric::Size => Metric::Growth,
            Metric::Growth => Metric::Size,
        };
        telling(State { metric, selection: 0, ..state }, "showing "@ + metric_text(metric))
    }
}

fn drop_letter(text: &str) -> (out: String)
    ensures
        out@ == shortened(text@),
{
    let letters = strings::letters(text);
    if letters.len() == 0 {
        return String::from_str(text);
    }
    let out = strings::spell(&letters, 0, letters.len() - 1);
    assert(out@ =~= text@.drop_last());
    out
}

impl App {
    pub fn begin_search(&mut self)
        ensures
            final(self)@ == search_begun(old(self)@),
    {
        self.search_active = true;
        if self.search.is_none() {
            let empty = String::new();
            assert(empty@ =~= Seq::empty());
            self.search = Some(empty);
        }
    }

    pub fn push_search(&mut self, ch: char)
        ensures
            final(self)@ == search_typed(old(self)@, ch),
    {
        if let Some(search) = &self.search {
            let mut search = String::from_str(search.as_str());
            search.push(ch);
            self.search = Some(search);
            self.selection = 0;
        }
    }

    pub fn pop_search(&mut self)
        ensures
            final(self)@ == search_untyped(old(self)@),
    {
        if let Some(search) = &self.search {
            let search = drop_letter(search.as_str());
            self.search = Some(search);
            self.selection = 0;
        }
    }

    pub fn clear_search(&mut self)
        ensures
            final(self)@ == search_cleared(old(self)@),
    {
        self.search = None;
        self.search_active = false;
        self.selection = 0;
    }

    pub fn cycle_sort(&mut self)
        ensures
            final(self)@ == resorted(old(self)@),
    {
        self.sort = self.sort.next();
        let mut text = String::from_str("sorted by ");
        text.append(self.sort.label());
        self.tell(text.as_str());
    }

    pub fn toggle_size_kind(&mut self)
        ensures
            final(self)@ == kind_switched(old(self)@),
    {
        match self.settings.size_kind {
            SizeKind::Allocated => {
                self.settings = Settings { size_kind: SizeKind::Apparent, ..self.settings };
                self.tell("showing apparent file sizes");
            },
            SizeKind::Apparent => {
                self.settings = Settings { size_kind: SizeKind::Allocated, ..self.settings };
                self.tell("showing space used on disk");
            },
        }
    }

    /// Switch between "what is big" and "what changed".
    pub fn toggle_metric(&mut self)
        ensures
            final(self)@ == metric_switched(old(self)@),
    {
        if self.diff.is_none() {
            if self.watch.is_some() {
                self.tell("waiting for the first rescan");
            } else {
                self.tell("no earlier scan to compare against — this one is now the baseline");
            }
            return;
        }
        self.metric =
        match self.metric {
            Metric::Size => Metric::Growth,
            Metric::Growth => Metric::Size,
        };
        self.selection = 0;
        let mut text = String::from_str("showing ");
        text.append(self.metric.label());
        self.tell(text.as_str());
    }
}

// The disk picker.

pub open spec fn picker_moved(state: State, delta: int) -> State {
    if state.filesystems.len() == 0 {
        state
    } else {
        State {
            picker_index: clamped(state.picker_index + delta, state.filesystems.len()),
            ..state
        }
    }
}

pub open spec fn begun(state: State, target: Seq<u8>, mode: ScanMode) -> State {
    asking(state, Asked::Begin { path: target, mode })
}

pub open spec fn picked(state: State) -> State {
    if state.picker_index < state.filesystems.len() {
        begun(
            State { from_picker: true, ..state },
            state.filesystems[state.picker_index as int].mount_point,
            ScanMode::Fresh,
        )
    } else {
        state
    }
}

impl App {
    pub fn move_picker(&mut self, delta: isize)
        ensures
            final(self)@ == picker_moved(old(self)@, delta as int),
    {
        let count: usize = self.filesystems.len();
        assert(self@.filesystems.len() == count);
        if count == 0 {
            return;
        }
        let next: i128 = self.picker_index as i128 + delta as i128;
        self.picker_index =
        if next < 0 {
            0
        } else if next >= count as i128 {
            count - 1
        } else {
            next as usize
        };
    }

    pub fn pick_selected_filesystem(&mut self)
        ensures
            final(self)@ == picked(old(self)@),
    {
        if self.picker_index < self.filesystems.len() {
            let mount = self.filesystems[self.picker_index].mount_point.duplicate();
            self.from_picker = true;
            self.start_scan(&mount);
        }
    }

    /// The disks, listed anew.
    pub fn disks_listed(&mut self, filesystems: Vec<Filesystem>)
        ensures
            final(self)@ == (State {
                filesystems: mounts::volumes(filesystems@),
                ..old(self)@
            }),
    {
        self.filesystems = filesystems;
    }

    pub fn start_scan(&mut self, target: &FilePath)
        ensures
            final(self)@ == begun(old(self)@, target@, ScanMode::Fresh),
    {
        self.ask(Request::Begin { path: target.duplicate(), mode: ScanMode::Fresh });
    }

    /// Start straight in a scan instead of the disk picker. There is no list to go back to in this
    /// case: the user named the place themselves.
    pub fn with_path(&mut self, target: &FilePath)
        ensures
            final(self)@ == begun(
                (State { from_picker: false, ..old(self)@ }),
                target@,
                ScanMode::Fresh,
            ),
    {
        self.from_picker = false;
        self.start_scan(target);
    }

    /// Rescan on a timer and report growth since the moment watching started.
    pub fn watching(&mut self, watch: Watch)
        ensures
            final(self)@ == (State {
                watch: Some(watch@),
                metric: Metric::Growth,
                ..old(self)@
            }),
    {
        self.watch = Some(watch);
        self.metric = Metric::Growth;
    }

    /// Scan the same place again without disturbing the view: what watching does on every tick, and
    /// what `r` does on demand.
    pub fn refresh(&mut self)
        ensures
            final(self)@ == refreshed(old(self)@),
    {
        if self.root.bytes.len() == 0 || self.scanning {
            return;
        }
        let root = self.root.duplicate();
        self.ask(Request::Begin { path: root, mode: ScanMode::Refresh });
    }

    pub fn rescan(&mut self)
        ensures
            final(self)@ == refreshed(old(self)@),
    {
        self.refresh();
    }

    /// Advance the animation clock. Called once per frame.
    pub fn advance(&mut self)
        ensures
            final(self)@ == (State {
                tick: if old(self)@.tick == usize::MAX {
                    0
                } else {
                    (old(self)@.tick + 1) as usize
                },
                ..old(self)@
            }),
    {
        self.tick =
        if self.tick == usize::MAX {
            0
        } else {
            self.tick + 1
        };
    }

    /// Kick off a rescan when the watch interval is up.
    pub fn tick_watch(&mut self, clock: u64)
        ensures
            final(self)@ == if watch_due(old(self)@, clock) {
                refreshed(old(self)@)
            } else {
                old(self)@
            },
    {
        let due = match &self.watch {
            Some(watch) => watch.is_due(clock) && self.tree.is_some(),
            None => false,
        };
        if due && !self.scanning {
            self.refresh();
        }
    }

    /// True while the screen is showing last-known numbers.
    pub fn is_provisional(&self) -> (yes: bool)
        ensures
            yes == (self@.provisional is Some && self@.scanning),
    {
        self.provisional.is_some() && self.scanning
    }
}

pub open spec fn refreshed(state: State) -> State {
    if state.root.len() == 0 || state.scanning {
        state
    } else {
        begun(state, state.root, ScanMode::Refresh)
    }
}

pub open spec fn watch_due(state: State, clock: u64) -> bool {
    &&& state.watch is Some
    &&& tree::less_by(clock, state.watch->0.last_scan) >= state.watch->0.every
    &&& state.tree is Some
    &&& !state.scanning
}


// Scanning.

/// The part of an entry that the screen can still reach with the cursor at `cwd`: `below` levels
/// under the cursor, and enough of the way back up that leaving the directory lists what it listed
/// before.
///
/// Everything else is dropped. The numbers that survive are the same numbers the last scan produced:
/// this trades depth the view is not showing for the memory a second full tree would need.
pub open spec fn stub(tree: Tree, at: Seq<u8>, cwd: Seq<u8>, below: nat) -> Tree
    decreases tree, 1nat, 0nat,
{
    Tree {
        children: if path::within(at, cwd) {
            if below > 0 {
                stubs_below(tree, at, cwd, (below - 1) as nat, tree.children.len())
            } else {
                Seq::empty()
            }
        } else if path::within(cwd, at) {
            stubs_above(tree, at, cwd, below, tree.children.len())
        } else {
            Seq::empty()
        },
        ..tree
    }
}

/// Where a child of an entry is.
pub open spec fn child_place(child: Tree, at: Seq<u8>) -> Seq<u8> {
    path::joined(at, tree::own_name(child.name))
}

/// At or under the cursor: a few levels is everything that is drawn.
pub open spec fn stubs_below(tree: Tree, at: Seq<u8>, cwd: Seq<u8>, below: nat, count: nat) -> Seq<
    Tree,
>
    decreases tree, 0nat, count,
{
    if count == 0 || count > tree.children.len() {
        Seq::empty()
    } else {
        let child = tree.children[count - 1];
        stubs_below(tree, at, cwd, below, (count - 1) as nat).push(
            stub(child, child_place(child, at), cwd, below),
        )
    }
}

/// Above the cursor: every child, so going back up still lists the same rows, but only the one that
/// leads back down to it is followed.
pub open spec fn stubs_above(tree: Tree, at: Seq<u8>, cwd: Seq<u8>, below: nat, count: nat) -> Seq<
    Tree,
>
    decreases tree, 0nat, count,
{
    if count == 0 || count > tree.children.len() {
        Seq::empty()
    } else {
        let child = tree.children[count - 1];
        stubs_above(tree, at, cwd, below, (count - 1) as nat).push(
            if path::within(cwd, child_place(child, at)) {
                stub(child, child_place(child, at), cwd, below)
            } else {
                Tree { children: Seq::empty(), ..child }
            },
        )
    }
}

pub fn visible_stub(entry: &DiskEntry, at: &FilePath, cwd: &FilePath, below: usize) -> (out:
    DiskEntry)
    ensures
        out@ == stub(entry@, at@, cwd@, below as nat),
    decreases entry,
{
    let mut out = entry.without_children();
    let ghost bare = out@;
    proof {
        tree::children_are_trees(entry);
    }
    let ghost goal = stub(entry@, at@, cwd@, below as nat);
    let under = at.starts_with(cwd);
    let above = !under && cwd.starts_with(at);
    if (under && below > 0) || above {
        let mut children: Vec<DiskEntry> = Vec::new();
        let mut index: usize = 0;
        assert(tree::trees(children@) =~= Seq::empty());
        while index < entry.children.len()
            invariant
                index <= entry.children@.len(),
                entry@.children == tree::trees(entry.children@),
                under == path::within(at@, cwd@),
                above == (!under && path::within(cwd@, at@)),
                (under && below > 0) || above,
                tree::trees(children@) == if under {
                    stubs_below(entry@, at@, cwd@, (below - 1) as nat, index as nat)
                } else {
                    stubs_above(entry@, at@, cwd@, below as nat, index as nat)
                },
            decreases entry.children@.len() - index,
        {
            let child = &entry.children[index];
            assert(entry@.children[index as int] == child@);
            let place = at.join_name(&child.name_os());
            let kept = if under {
                visible_stub(child, &place, cwd, below - 1)
            } else if cwd.starts_with(&place) {
                visible_stub(child, &place, cwd, below)
            } else {
                child.without_children()
            };
            let ghost before = children@;
            children.push(kept);
            assert(tree::trees(children@) =~= tree::trees(before).push(kept@));
            index += 1;
        }
        out.children = children;
        proof {
            tree::children_are_trees(&out);
        }
    }
    proof {
        tree::children_are_trees(&out);
        assert(out@.children =~= goal.children);
        assert(out@ =~= goal);
    }
    out
}

/// How a scan ended.
#[derive(Debug)]
pub enum ScanEnd {
    Done(DiskEntry),
    /// It could not be started, or was not let go on.
    Failed(String),
    Panicked,
}

impl View for ScanEnd {
    type V = Ending;

    open spec fn view(&self) -> Ending {
        match self {
            ScanEnd::Done(tree) => Ending::Done { tree: tree@ },
            ScanEnd::Failed(error) => Ending::Failed { error: error@ },
            ScanEnd::Panicked => Ending::Panicked,
        }
    }
}

/// What was known of a place: a snapshot as a value.
#[verifier::ext_equal]
pub struct Known {
    pub root: Seq<u8>,
    pub taken_at: u64,
    pub total_allocated: u64,
    pub total_apparent: u64,
    pub items: u64,
    pub floor: u64,
    pub tree: Tree,
}

pub open spec fn known(snapshot: Option<Snapshot>) -> Option<Known> {
    match snapshot {
        Some(snapshot) => Some(
            Known {
                root: snapshot.root@,
                taken_at: snapshot.taken_at,
                total_allocated: snapshot.total_allocated,
                total_apparent: snapshot.total_apparent,
                items: snapshot.items,
                floor: snapshot.floor,
                tree: snapshot.tree@,
            },
        ),
        None => None,
    }
}

/// A new place: the cursor reset, and what was known of it last time on screen straight away,
/// clearly labelled, for the scan to correct.
pub open spec fn reset_to(
    state: State,
    target: Seq<u8>,
    filesystem: Option<Volume>,
    snapshot: Option<Known>,
) -> State {
    let painted = state.settings.record_snapshots && snapshot is Some;
    State {
        filesystem,
        root: target,
        cwd: target,
        selection: 0,
        search: None,
        search_active: false,
        status: None,
        streamed: Seq::empty(),
        tree: if painted {
            Some(snapshot->0.tree)
        } else {
            None
        },
        provisional: if painted {
            Some(snapshot->0.taken_at)
        } else {
            None
        },
        view: if painted {
            views::View::Overview
        } else {
            views::View::Scanning
        },
        ..state
    }
}

/// The same place again: the part of the tree that the screen can reach is kept.
pub open spec fn pared_down(state: State) -> State {
    State {
        tree: match state.tree {
            Some(previous) => Some(
                stub(previous, previous.name, state.cwd, REFRESH_KEEP_DEPTH as nat),
            ),
            None => None,
        },
        ..state
    }
}

/// A scan under way.
pub open spec fn under_way(
    state: State,
    target: Seq<u8>,
    mode: ScanMode,
    filesystem: Option<Volume>,
    snapshot: Option<Known>,
) -> State {
    let ready = touched(State { mode, ..state });
    let set = match mode {
        ScanMode::Fresh => reset_to(ready, target, filesystem, snapshot),
        ScanMode::Refresh => pared_down(ready),
    };
    asking(State { scanning: true, ..set }, Asked::Scan { path: target })
}

pub open spec fn volume_value(filesystem: Option<Filesystem>) -> Option<Volume> {
    match filesystem {
        Some(fs) => Some(fs@),
        None => None,
    }
}

/// The finished directories that none of the others holds.
pub open spec fn apart(sorted: Seq<Summary>) -> Seq<Summary>
    decreases sorted.len(),
{
    if sorted.len() == 0 {
        Seq::empty()
    } else {
        let rest = apart(sorted.drop_last());
        if covered(rest, sorted.last().path) {
            rest
        } else {
            clear_of(rest, sorted.last().path).push(sorted.last())
        }
    }
}

/// The directories that do not lie in another: a parent takes the place of what it contains.
pub open spec fn clear_of(list: Seq<Summary>, parent: Seq<u8>) -> Seq<Summary> {
    list.filter(|done: Summary| !path::within(done.path, parent))
}

/// Whether a path lies in one of some directories.
pub open spec fn covered(list: Seq<Summary>, target: Seq<u8>) -> bool {
    exists|i: int| 0 <= i < list.len() && path::within(target, (#[trigger] list[i]).path)
}

/// The finished directories to show: the largest first, none inside another, and no more than a
/// screen needs.
pub open spec fn gathered(list: Seq<Summary>) -> Seq<Summary> {
    tree::first(
        apart(order::stable_sort(list, |a: Summary, b: Summary| a.allocated > b.allocated)),
        STREAM_KEEP as nat,
    )
}

pub open spec fn streamed_in(state: State, fresh: Seq<Summary>) -> State {
    if !state.scanning || fresh.len() == 0 {
        state
    } else {
        State { streamed: gathered(state.streamed + fresh), ..state }
    }
}

/// What changed, worked out against what was known before a scan; only then is the scan to be
/// remembered.
pub open spec fn compared_with(
    state: State,
    tree: Tree,
    now: u64,
    clock: u64,
    previous: Option<Known>,
) -> State {
    let kind = state.settings.size_kind;
    match state.watch {
        Some(watch) => {
            let ticked = Vigil {
                last_scan: clock,
                rounds: tree::wrapped(watch.rounds, 1),
                ..watch
            };
            match watch.baseline {
                Some(baseline) => State {
                    watch: Some(ticked),
                    diff: Some(
                        compare_trees(
                            baseline,
                            tree,
                            kind,
                            watch.started_at,
                            now,
                            history::floor_of(baseline),
                        ),
                    ),
                    ..state
                },
                // The first pass is the baseline; there is nothing to compare it against yet.
                None => State {
                    watch: Some(Vigil { baseline: Some(history::for_storage(tree)), ..ticked }),
                    ..state
                },
            }
        },
        None => {
            let told = State {
                diff: match previous {
                    Some(before) => Some(
                        compare_trees(
                            before.tree,
                            tree,
                            kind,
                            before.taken_at,
                            now,
                            before.floor,
                        ),
                    ),
                    None => None,
                },
                ..state
            };
            if state.settings.record_snapshots {
                asking(told, Asked::Record)
            } else {
                told
            }
        },
    }
}

/// A finished scan on screen.
pub open spec fn brought_up(state: State, tree: Tree) -> State {
    touched(
        State {
            tree: Some(tree),
            provisional: None,
            streamed: Seq::empty(),
            scanning: false,
            view: if state.mode == ScanMode::Fresh {
                views::View::Overview
            } else {
                state.view
            },
            ..state
        },
    )
}

/// The cursor kept on a row that there is.
pub open spec fn steadied(state: State) -> State {
    State { selection: clamped(state.selection as int, rows_here(state).len()), ..state }
}

/// A finished scan, compared and on screen.
pub open spec fn absorbed(
    state: State,
    tree: Tree,
    now: u64,
    clock: u64,
    previous: Option<Known>,
) -> State {
    steadied(brought_up(compared_with(state, tree, now, clock, previous), tree))
}

/// How a scan ended, as a value.
#[verifier::ext_equal]
pub enum Ending {
    Done { tree: Tree },
    Failed { error: Seq<char> },
    Panicked,
}

/// The end of a scan taken in. One that was left behind is dropped, however it ended.
pub open spec fn collected(
    state: State,
    ending: Ending,
    now: u64,
    clock: u64,
    previous: Option<Known>,
) -> State {
    if !state.scanning {
        state
    } else {
        match ending {
            Ending::Done { tree } => absorbed(state, tree, now, clock, previous),
            Ending::Failed { error } => scan_lost(state, error),
            Ending::Panicked => scan_lost(state, "scan thread panicked"@),
        }
    }
}

/// A scan that came to nothing.
pub open spec fn scan_lost(state: State, reason: Seq<char>) -> State {
    State { view: views::View::Picker, scanning: false, ..telling(state, reason) }
}

impl App {
    /// Begin a scan of a place, given what disk it is on and what was known of it.
    pub fn begin(
        &mut self,
        target: FilePath,
        mode: ScanMode,
        filesystem: Option<Filesystem>,
        snapshot: Option<Snapshot>,
    )
        ensures
            final(self)@ == under_way(
                old(self)@,
                target@,
                mode,
                volume_value(filesystem),
                known(snapshot),
            ),
    {
        self.mode = mode;
        self.touch();
        match mode {
            ScanMode::Fresh => self.reset(&target, filesystem, snapshot),
            ScanMode::Refresh => self.pare_down(),
        }
        self.scanning = true;
        self.ask(Request::Scan { path: target });
    }

    fn reset(
        &mut self,
        target: &FilePath,
        filesystem: Option<Filesystem>,
        snapshot: Option<Snapshot>,
    )
        ensures
            final(self)@ == reset_to(
                old(self)@,
                target@,
                volume_value(filesystem),
                known(snapshot),
            ),
    {
        self.filesystem = filesystem;
        self.root = target.duplicate();
        self.cwd = target.duplicate();
        self.selection = 0;
        self.search = None;
        self.search_active = false;
        self.status = None;
        self.streamed = Vec::new();
        assert(self@.streamed =~= Seq::empty());
        if self.settings.record_snapshots {
            if let Some(snapshot) = snapshot {
                self.tree = Some(snapshot.tree);
                self.provisional = Some(snapshot.taken_at);
                self.view = views::View::Overview;
                return;
            }
        }
        self.tree = None;
        self.provisional = None;
        self.view = views::View::Scanning;
    }

    /// A rescan builds a whole second tree before it can replace this one, so holding on to it
    /// intact means every entry is in memory twice for the length of the scan.
    fn pare_down(&mut self)
        ensures
            final(self)@ == pared_down(old(self)@),
    {
        let kept = match &self.tree {
            Some(previous) => Some(
                visible_stub(previous, &previous.root_path(), &self.cwd, REFRESH_KEEP_DEPTH),
            ),
            None => None,
        };
        self.tree = kept;
    }

    /// Absorb whatever the running scan has finished counting since the last frame, keeping the
    /// largest first. A parent supersedes children it already contains.
    pub fn collect_streamed(&mut self, fresh: Vec<Finished>)
        ensures
            final(self)@ == streamed_in(old(self)@, scan::summaries(fresh@)),
    {
        assert(scan::summaries(fresh@).len() == fresh@.len());
        if !self.scanning || fresh.len() == 0 {
            return;
        }
        let ghost before = self.streamed@;
        let ghost incoming = fresh@;
        let mut all: Vec<Finished> = Vec::new();
        std::mem::swap(&mut all, &mut self.streamed);
        let mut fresh = fresh;
        all.append(&mut fresh);
        assert(scan::summaries(all@) =~= scan::summaries(before) + scan::summaries(incoming));
        let kept = gather(all);
        self.streamed = kept;
    }

    /// Take a finished scan: work out what changed since `previous`, then have it remembered.
    ///
    /// The comparison has to happen before the snapshot is recorded, or this scan would be compared
    /// with itself and every week would look quiet.
    pub fn absorb_scan(
        &mut self,
        tree: DiskEntry,
        now: u64,
        clock: u64,
        previous: &Option<Snapshot>,
    )
        ensures
            final(self)@ == absorbed(old(self)@, tree@, now, clock, known(*previous)),
    {
        self.compare_scan(&tree, now, clock, previous);
        self.bring_up(tree);
        self.steady();
    }

    fn compare_scan(
        &mut self,
        tree: &DiskEntry,
        now: u64,
        clock: u64,
        previous: &Option<Snapshot>,
    )
        ensures
            final(self)@ == compared_with(old(self)@, tree@, now, clock, known(*previous)),
    {
        let kind = self.settings.size_kind;
        match self.watch.take() {
            Some(watch) => {
                let rounds: u64 = watch.rounds.wrapping_add(1);
                match watch.baseline {
                    Some(baseline) => {
                        let floor: u64 = history::storage_floor(&baseline);
                        let diff = diff::diff(
                            &baseline,
                            tree,
                            kind,
                            watch.started_at,
                            now,
                            floor,
                        );
                        self.diff = Some(diff);
                        self.watch =
                        Some(
                            Watch {
                                every: watch.every,
                                baseline: Some(baseline),
                                started_at: watch.started_at,
                                last_scan: clock,
                                rounds,
                            },
                        );
                    },
                    None => {
                        let baseline = history::prune_for_storage(tree);
                        self.watch =
                        Some(
                            Watch {
                                every: watch.every,
                                baseline: Some(baseline),
                                started_at: watch.started_at,
                                last_scan: clock,
                                rounds,
                            },
                        );
                    },
                }
            },
            None => {
                self.diff = commands::compare_with(previous, tree, kind, now);
                if self.settings.record_snapshots {
                    self.ask(Request::Record);
                }
            },
        }
    }

    fn bring_up(&mut self, tree: DiskEntry)
        ensures
            final(self)@ == brought_up(old(self)@, tree@),
    {
        self.tree = Some(tree);
        self.touch();
        // Whatever is on screen is now the real thing.
        self.provisional = None;
        self.streamed = Vec::new();
        assert(self@.streamed =~= Seq::empty());
        self.scanning = false;
        if self.mode == ScanMode::Fresh {
            self.view = views::View::Overview;
        }
    }

    /// The row under the cursor may be gone, or drawn differently now.
    fn steady(&mut self)
        ensures
            final(self)@ == steadied(old(self)@),
    {
        self.selection = keep_inside(self.selection, self.row_count());
    }

    /// Collect a finished scan, unless it was left behind.
    pub fn poll_scan(
        &mut self,
        ended: ScanEnd,
        now: u64,
        clock: u64,
        previous: &Option<Snapshot>,
    )
        ensures
            final(self)@ == collected(old(self)@, ended@, now, clock, known(*previous)),
    {
        if !self.scanning {
            return;
        }
        match ended {
            ScanEnd::Done(tree) => self.absorb_scan(tree, now, clock, previous),
            ScanEnd::Failed(error) => self.scan_failed(error.as_str()),
            ScanEnd::Panicked => self.scan_panicked(),
        }
    }

    pub fn scan_failed(&mut self, error: &str)
        ensures
            final(self)@ == scan_lost(old(self)@, error@),
    {
        self.tell(error);
        self.view = views::View::Picker;
        self.scanning = false;
    }

    /// A panicked worker does not take the interface down with it.
    pub fn scan_panicked(&mut self)
        ensures
            final(self)@ == scan_lost(old(self)@, "scan thread panicked"@),
    {
        self.scan_failed("scan thread panicked");
    }
}

fn gather(list: Vec<Finished>) -> (out: Vec<Finished>)
    ensures
        scan::summaries(out@) == gathered(scan::summaries(list@)),
{
    let ghost key = |done: Finished| done@;
    let ghost less = |a: Summary, b: Summary| a.allocated > b.allocated;
    proof {
        order::order_by_key(key, less);
        order::sort_maps(list@, key, less);
    }
    let larger = |a: &Finished, b: &Finished| -> (yes: bool)
        ensures
            yes == (a.allocated > b.allocated),
        { a.allocated > b.allocated };
    let sorted = order::sort_stably(
        list,
        &larger,
        Ghost(|a: Finished, b: Finished| less(key(a), key(b))),
    );
    let ghost all = scan::summaries(sorted@);
    assert(all =~= order::stable_sort(scan::summaries(list@), less));
    let ghost whole = sorted@;
    let mut back = order::reversed(sorted);
    let mut kept: Vec<Finished> = Vec::new();
    let ghost mut done: int = 0;
    assert(scan::summaries(kept@) =~= apart(all.take(0)));
    assert(whole.skip(0) =~= whole);
    while back.len() > 0
        invariant
            0 <= done <= whole.len(),
            all == scan::summaries(whole),
            back@ == whole.skip(done).reverse(),
            scan::summaries(kept@) == apart(all.take(done)),
        decreases back@.len(),
    {
        if let Some(next) = back.pop() {
            proof {
                assert(next == whole[done]);
                let upto = all.take(done + 1);
                assert(upto.drop_last() =~= all.take(done));
                assert(upto.last() == next@);
                assert(back@ =~= whole.skip(done + 1).reverse());
            }
            if !lies_in(&kept, &next.path) {
                kept = outside_of(&kept, &next.path);
                let ghost clear = kept@;
                kept.push(next);
                assert(scan::summaries(kept@) =~= scan::summaries(clear).push(next@));
            }
            proof {
                done = done + 1;
            }
        }
    }
    assert(all.take(done) =~= all);
    let ghost full = kept@;
    assert(scan::summaries(full) == apart(all));
    if kept.len() > STREAM_KEEP {
        kept.truncate(STREAM_KEEP);
        assert(scan::summaries(kept@) =~= scan::summaries(full).take(STREAM_KEEP as int));
    }
    kept
}

fn outside_of(list: &Vec<Finished>, parent: &FilePath) -> (out: Vec<Finished>)
    ensures
        scan::summaries(out@) == clear_of(scan::summaries(list@), parent@),
{
    let ghost all = scan::summaries(list@);
    let ghost clear = |done: Summary| !path::within(done.path, parent@);
    let mut out: Vec<Finished> = Vec::new();
    let mut at: usize = 0;
    proof {
        reveal(Seq::filter);
        assert(all.take(0).filter(clear) =~= Seq::empty());
        assert(scan::summaries(out@) =~= Seq::empty());
    }
    while at < list.len()
        invariant
            at <= list@.len(),
            all == scan::summaries(list@),
            clear == |done: Summary| !path::within(done.path, parent@),
            scan::summaries(out@) == all.take(at as int).filter(clear),
        decreases list@.len() - at,
    {
        let ghost before = out@;
        let done = &list[at];
        proof {
            assert(all[at as int] == done@);
            assert(all.take(at as int + 1) =~= all.take(at as int).push(all[at as int]));
            all.take(at as int).lemma_filter_push(all[at as int], clear);
        }
        if !done.path.starts_with(parent) {
            let copy = Finished {
                path: done.path.duplicate(),
                allocated: done.allocated,
                apparent: done.apparent,
                items: done.items,
            };
            out.push(copy);
            assert(scan::summaries(out@) =~= scan::summaries(before).push(copy@));
        }
        at += 1;
    }
    assert(all.take(at as int) =~= all);
    out
}

fn lies_in(list: &Vec<Finished>, target: &FilePath) -> (yes: bool)
    ensures
        yes == covered(scan::summaries(list@), target@),
{
    let ghost all = scan::summaries(list@);
    let mut at: usize = 0;
    while at < list.len()
        invariant
            at <= list@.len(),
            all == scan::summaries(list@),
            forall|i: int| 0 <= i < at ==> !path::within(target@, (#[trigger] all[i]).path),
        decreases list@.len() - at,
    {
        assert(all[at as int].path == list@[at as int].path@);
        if target.starts_with(&list[at].path) {
            return true;
        }
        at += 1;
    }
    false
}


// Marking and deleting.

/// Whether a place is among some.
pub open spec fn is_marked(marks: Seq<Seq<u8>>, target: Seq<u8>) -> bool {
    exists|i: int| 0 <= i < marks.len() && path::same_place(#[trigger] marks[i], target)
}

/// The marks without a place.
pub open spec fn unmarked(marks: Seq<Seq<u8>>, target: Seq<u8>) -> Seq<Seq<u8>> {
    marks.filter(|mark: Seq<u8>| !path::same_place(mark, target))
}

pub open spec fn mark_toggled(state: State) -> State {
    match path_under_cursor(state) {
        None => state,
        Some(target) => State {
            marks: if is_marked(state.marks, target) {
                unmarked(state.marks, target)
            } else {
                state.marks.push(target)
            },
            ..state
        },
    }
}

/// How much some places take together, as far as they are in a tree.
pub open spec fn size_of_places(places: Seq<Seq<u8>>, tree: Tree, kind: SizeKind) -> u64
    decreases places.len(),
{
    if places.len() == 0 {
        0
    } else {
        let rest = size_of_places(places.drop_last(), tree, kind);
        match tree::resolved(tree, places.last()) {
            Some(entry) => tree::wrapped(rest, tree::size_of(entry, kind)),
            None => rest,
        }
    }
}

/// How much is marked.
pub open spec fn size_marked(state: State) -> u64 {
    match state.tree {
        Some(tree) => size_of_places(state.marks, tree, state.settings.size_kind),
        None => 0,
    }
}

pub(crate) fn holds_mark(marks: &Vec<FilePath>, target: &FilePath) -> (yes: bool)
    ensures
        yes == is_marked(path_list(marks@), target@),
{
    let ghost all = path_list(marks@);
    let mut at: usize = 0;
    while at < marks.len()
        invariant
            at <= marks@.len(),
            all == path_list(marks@),
            forall|i: int| 0 <= i < at ==> !path::same_place(#[trigger] all[i], target@),
        decreases marks@.len() - at,
    {
        assert(all[at as int] == marks@[at as int]@);
        if marks[at].same(target) {
            return true;
        }
        at += 1;
    }
    false
}

fn without_mark(marks: &Vec<FilePath>, target: &FilePath) -> (out: Vec<FilePath>)
    ensures
        path_list(out@) == unmarked(path_list(marks@), target@),
{
    let ghost all = path_list(marks@);
    let ghost wanted = |mark: Seq<u8>| !path::same_place(mark, target@);
    let mut out: Vec<FilePath> = Vec::new();
    let mut at: usize = 0;
    proof {
        reveal(Seq::filter);
        assert(all.take(0).filter(wanted) =~= Seq::empty());
        assert(path_list(out@) =~= Seq::empty());
    }
    while at < marks.len()
        invariant
            at <= marks@.len(),
            all == path_list(marks@),
            wanted == |mark: Seq<u8>| !path::same_place(mark, target@),
            path_list(out@) == all.take(at as int).filter(wanted),
        decreases marks@.len() - at,
    {
        let ghost before = out@;
        proof {
            assert(all[at as int] == marks@[at as int]@);
            assert(all.take(at as int + 1) =~= all.take(at as int).push(all[at as int]));
            all.take(at as int).lemma_filter_push(all[at as int], wanted);
        }
        if !marks[at].same(target) {
            let copy = marks[at].duplicate();
            out.push(copy);
            assert(path_list(out@) =~= path_list(before).push(copy@));
        }
        at += 1;
    }
    assert(all.take(at as int) =~= all);
    out
}

/// What is to be deleted: everything marked in order of path, or whatever is selected if nothing is
/// marked.
pub open spec fn wanted_gone(state: State) -> Seq<Seq<u8>> {
    if state.marks.len() == 0 {
        match path_under_cursor(state) {
            Some(target) => seq![target],
            None => Seq::empty(),
        }
    } else {
        order::stable_sort(state.marks, |a: Seq<u8>, b: Seq<u8>| path::path_before(a, b))
    }
}

/// The targets that some places are, as far as they are in a tree.
pub open spec fn targets_at(places: Seq<Seq<u8>>, tree: Tree, kind: SizeKind) -> Seq<Aim>
    decreases places.len(),
{
    if places.len() == 0 {
        Seq::empty()
    } else {
        let rest = targets_at(places.drop_last(), tree, kind);
        match tree::resolved(tree, places.last()) {
            Some(entry) => rest.push(
                Aim {
                    path: places.last(),
                    size: tree::size_of(entry, kind),
                    is_dir: entry.entry_type == tree::EntryType::Directory,
                },
            ),
            None => rest,
        }
    }
}

/// A deletion asked for, and waiting to be confirmed.
pub open spec fn delete_requested(state: State) -> State {
    if state.read_only {
        telling(state, "disko is running read-only"@)
    } else {
        match state.tree {
            None => state,
            Some(tree) => {
                let targets = targets_at(wanted_gone(state), tree, state.settings.size_kind);
                if targets.len() == 0 {
                    telling(state, "nothing selected to delete"@)
                } else {
                    State {
                        confirm: Some(
                            Pending { targets, typed: Seq::empty(), nagged: false },
                        ),
                        ..state
                    }
                }
            },
        }
    }
}

pub open spec fn delete_cancelled(state: State) -> State {
    telling(State { confirm: None, ..state }, "nothing was deleted"@)
}

pub open spec fn confirmation_typed(state: State, letter: char) -> State {
    match state.confirm {
        Some(confirm) => State {
            confirm: Some(
                Pending { typed: confirm.typed.push(letter), nagged: false, ..confirm },
            ),
            ..state
        },
        None => state,
    }
}

pub open spec fn confirmation_untyped(state: State) -> State {
    match state.confirm {
        Some(confirm) => State {
            confirm: Some(
                Pending { typed: shortened(confirm.typed), nagged: false, ..confirm },
            ),
            ..state
        },
        None => state,
    }
}

/// A deletion gone through with, if the word has been typed in full. Read-only, nothing is deleted
/// at all.
pub open spec fn committed(state: State) -> State {
    match state.confirm {
        None => state,
        Some(confirm) => if state.read_only {
            telling(State { confirm: None, ..state }, "disko is running read-only"@)
        } else if armed(confirm) {
            asking(
                State {
                    confirm: None,
                    outcomes: Seq::empty(),
                    deleting: Some(Deleting { stopping: false }),
                    ..state
                },
                Asked::Delete { targets: confirm.targets },
            )
        } else {
            State { confirm: Some(Pending { nagged: true, ..confirm }), ..state }
        },
    }
}

pub open spec fn delete_stopped(state: State) -> State {
    match state.deleting {
        Some(_) => State {
            deleting: Some(Deleting { stopping: true }),
            ..asking(state, Asked::StopDelete)
        },
        None => state,
    }
}

/// A tree without what was deleted.
pub open spec fn tree_without(tree: Tree, fates: Seq<Fate>) -> Tree
    decreases fates.len(),
{
    if fates.len() == 0 {
        tree
    } else {
        let rest = tree_without(tree, fates.drop_last());
        match fates.last() {
            Fate::Deleted { path, .. } => match tree::removed(rest, path) {
                Some(pair) => pair.0,
                None => rest,
            },
            _ => rest,
        }
    }
}

/// Marks without what was deleted.
pub open spec fn marks_without(marks: Seq<Seq<u8>>, fates: Seq<Fate>) -> Seq<Seq<u8>>
    decreases fates.len(),
{
    if fates.len() == 0 {
        marks
    } else {
        let rest = marks_without(marks, fates.drop_last());
        match fates.last() {
            Fate::Deleted { path, .. } => unmarked(rest, path),
            _ => rest,
        }
    }
}

/// How many were deleted.
pub open spec fn count_deleted(fates: Seq<Fate>) -> nat
    decreases fates.len(),
{
    if fates.len() == 0 {
        0
    } else {
        count_deleted(fates.drop_last()) + if fates.last() is Deleted {
            1nat
        } else {
            0
        }
    }
}

/// What is said of a deletion.
pub open spec fn deletion_text(fates: Seq<Fate>, unit: Unit) -> Seq<char> {
    let deleted = count_deleted(fates);
    let done = "deleted "@ + strings::digits(deleted) + " · freed "@ + size::formatted(
        deletion::total_freed(fates) as nat,
        unit,
    );
    if deleted == 0 {
        "nothing could be deleted — press d for why"@
    } else if deleted == fates.len() {
        done
    } else {
        done + " · "@ + strings::digits((fates.len() - deleted) as nat) + " skipped"@
    }
}

/// A finished deletion folded back in: the totals corrected in place rather than paying for a
/// rescan.
pub open spec fn outcomes_applied(state: State, fates: Seq<Fate>) -> State {
    let corrected = match state.tree {
        Some(tree) => touched(State { tree: Some(tree_without(tree, fates)), ..state }),
        None => state,
    };
    steadied(
        telling(
            State {
                marks: marks_without(state.marks, fates),
                outcomes: fates,
                deleting: None,
                ..corrected
            },
            deletion_text(fates, state.settings.unit),
        ),
    )
}

proof fn paths_are_ordered()
    ensures
        order::strict_weak(|a: Seq<u8>, b: Seq<u8>| path::path_before(a, b)),
{
    let less = |a: Seq<u8>, b: Seq<u8>| path::path_before(a, b);
    assert forall|x: Seq<u8>, y: Seq<u8>, z: Seq<u8>| #[trigger] less(x, y) && #[trigger] less(
        y,
        z,
    ) implies less(x, z) by {
        path::run_before_is_transitive(
            path::components(x),
            path::components(y),
            path::components(z),
        );
    }
    assert forall|x: Seq<u8>| !#[trigger] less(x, x) by {
        path::run_before_is_irreflexive(path::components(x));
    }
    assert forall|x: Seq<u8>, y: Seq<u8>, z: Seq<u8>|
        #![trigger less(x, z), less(x, y)]
        #![trigger less(x, z), less(y, z)]
        less(x, z) implies less(x, y) || less(y, z) by {
        let a = path::components(x);
        let b = path::components(y);
        let c = path::components(z);
        path::run_before_is_total(a, b);
        path::run_before_is_total(b, c);
        if !less(x, y) && !less(y, z) {
            if a != b && b != c {
                path::run_before_is_transitive(c, b, a);
                path::run_before_is_transitive(a, c, a);
                path::run_before_is_irreflexive(a);
            }
        }
    }
}

fn sorted_paths(list: &Vec<FilePath>) -> (out: Vec<FilePath>)
    ensures
        path_list(out@) == order::stable_sort(
            path_list(list@),
            |a: Seq<u8>, b: Seq<u8>| path::path_before(a, b),
        ),
{
    let mut copy: Vec<FilePath> = Vec::new();
    let mut at: usize = 0;
    while at < list.len()
        invariant
            at <= list@.len(),
            copy@.len() == at,
            forall|i: int| 0 <= i < at ==> (#[trigger] copy@[i])@ == list@[i]@,
        decreases list@.len() - at,
    {
        copy.push(list[at].duplicate());
        at += 1;
    }
    assert(path_list(copy@) =~= path_list(list@));
    let ghost key = |path: FilePath| path@;
    let ghost less = |a: Seq<u8>, b: Seq<u8>| path::path_before(a, b);
    proof {
        paths_are_ordered();
        order::order_by_key(key, less);
        order::sort_maps(copy@, key, less);
    }
    let earlier = |a: &FilePath, b: &FilePath| -> (yes: bool)
        ensures
            yes == path::path_before(a@, b@),
        { a.comes_before(b) };
    order::sort_stably(copy, &earlier, Ghost(|a: FilePath, b: FilePath| less(key(a), key(b))))
}

fn find_targets(places: &Vec<FilePath>, tree: &DiskEntry, kind: SizeKind) -> (out: Vec<Target>)
    ensures
        aims(out@) == targets_at(path_list(places@), tree@, kind),
{
    let ghost all = path_list(places@);
    let mut out: Vec<Target> = Vec::new();
    let mut at: usize = 0;
    assert(aims(out@) =~= Seq::empty());
    while at < places.len()
        invariant
            at <= places@.len(),
            all == path_list(places@),
            aims(out@) == targets_at(all.take(at as int), tree@, kind),
        decreases places@.len() - at,
    {
        let ghost before = out@;
        proof {
            let upto = all.take(at as int + 1);
            assert(upto.drop_last() =~= all.take(at as int));
            assert(upto.last() == places@[at as int]@);
        }
        if let Some(entry) = tree.resolve(&places[at]) {
            let target = Target {
                path: places[at].duplicate(),
                size: entry.size(kind),
                is_dir: entry.is_dir(),
            };
            out.push(target);
            assert(aims(out@) =~= aims(before).push(
                Aim { path: target.path@, size: target.size, is_dir: target.is_dir },
            ));
        }
        at += 1;
    }
    assert(all.take(at as int) =~= all);
    out
}

impl App {
    pub fn toggle_mark(&mut self)
        ensures
            final(self)@ == mark_toggled(old(self)@),
    {
        if let Some(row) = self.selected_row() {
            if let Some(target) = row.path {
                if holds_mark(&self.marks, &target) {
                    self.marks = without_mark(&self.marks, &target);
                } else {
                    let ghost before = self.marks@;
                    self.marks.push(target);
                    assert(path_list(self.marks@) =~= path_list(before).push(target@));
                }
            }
        }
    }

    pub fn marked_total(&self) -> (bytes: u64)
        ensures
            bytes == size_marked(self@),
    {
        let tree = match &self.tree {
            Some(tree) => tree,
            None => {
                return 0;
            },
        };
        let kind = self.settings.size_kind;
        let ghost all = path_list(self.marks@);
        let mut bytes: u64 = 0;
        let mut at: usize = 0;
        while at < self.marks.len()
            invariant
                at <= self.marks@.len(),
                all == path_list(self.marks@),
                bytes == size_of_places(all.take(at as int), tree@, kind),
            decreases self.marks@.len() - at,
        {
            proof {
                let upto = all.take(at as int + 1);
                assert(upto.drop_last() =~= all.take(at as int));
                assert(upto.last() == self.marks@[at as int]@);
            }
            if let Some(entry) = tree.resolve(&self.marks[at]) {
                bytes = bytes.wrapping_add(entry.size(kind));
            }
            at += 1;
        }
        assert(all.take(at as int) =~= all);
        bytes
    }

    fn doomed(&self) -> (out: Vec<FilePath>)
        ensures
            path_list(out@) == wanted_gone(self@),
    {
        assert(self@.marks.len() == self.marks@.len());
        if self.marks.len() == 0 {
            let mut out: Vec<FilePath> = Vec::new();
            if let Some(row) = self.selected_row() {
                if let Some(target) = row.path {
                    out.push(target);
                }
            }
            assert(path_list(out@) =~= wanted_gone(self@));
            out
        } else {
            sorted_paths(&self.marks)
        }
    }

    /// Ask to delete: everything marked, or whatever is selected if nothing is marked.
    pub fn request_delete(&mut self)
        ensures
            final(self)@ == delete_requested(old(self)@),
    {
        if self.read_only {
            self.tell("disko is running read-only");
            return;
        }
        let targets = match &self.tree {
            Some(tree) => find_targets(&self.doomed(), tree, self.settings.size_kind),
            None => {
                return;
            },
        };
        assert(aims(targets@).len() == targets@.len());
        if targets.len() == 0 {
            self.tell("nothing selected to delete");
            return;
        }
        let typed = String::new();
        assert(typed@ =~= Seq::empty());
        self.confirm = Some(Confirm { targets, typed, nagged: false });
    }

    pub fn cancel_delete(&mut self)
        ensures
            final(self)@ == delete_cancelled(old(self)@),
    {
        self.confirm = None;
        self.tell("nothing was deleted");
    }

    pub fn type_confirmation(&mut self, ch: char)
        ensures
            final(self)@ == confirmation_typed(old(self)@, ch),
    {
        if let Some(confirm) = self.confirm.take() {
            let mut typed = confirm.typed;
            typed.push(ch);
            self.confirm = Some(Confirm { targets: confirm.targets, typed, nagged: false });
        }
    }

    pub fn untype_confirmation(&mut self)
        ensures
            final(self)@ == confirmation_untyped(old(self)@),
    {
        if let Some(confirm) = self.confirm.take() {
            let typed = drop_letter(confirm.typed.as_str());
            self.confirm = Some(Confirm { targets: confirm.targets, typed, nagged: false });
        }
    }

    /// Go through with it, if the word has been typed in full.
    ///
    /// The work happens in the background: unlinking a few hundred thousand files takes long enough
    /// that doing it here would freeze the screen with no way to tell whether anything was
    /// happening.
    pub fn commit_delete(&mut self)
        ensures
            final(self)@ == committed(old(self)@),
    {
        if let Some(confirm) = self.confirm.take() {
            if self.read_only {
                self.tell("disko is running read-only");
                return;
            }
            if !confirm.is_armed() {
                self.confirm =
                Some(Confirm { targets: confirm.targets, typed: confirm.typed, nagged: true });
                return;
            }
            self.outcomes = Vec::new();
            assert(self@.outcomes =~= Seq::empty());
            self.deleting = Some(Deleting { stopping: false });
            self.ask(Request::Delete { targets: confirm.targets });
        }
    }

    /// Ask the running deletion to stop once it finishes the file it is on.
    pub fn stop_delete(&mut self)
        ensures
            final(self)@ == delete_stopped(old(self)@),
    {
        if self.deleting.is_some() {
            self.ask(Request::StopDelete);
            self.deleting = Some(Deleting { stopping: true });
        }
    }

    /// Take a finished deletion and fold the result back into the tree.
    pub fn apply_outcomes(&mut self, outcomes: Vec<Outcome>)
        ensures
            final(self)@ == outcomes_applied(old(self)@, deletion::fates(outcomes@)),
    {
        let ghost start = self@;
        self.correct_tree(&outcomes);
        self.drop_marks(&outcomes);
        self.report(outcomes);
        assert(steadied(self@) == outcomes_applied(start, deletion::fates(outcomes@)));
        self.steady();
    }

    fn report(&mut self, outcomes: Vec<Outcome>)
        ensures
            final(self)@ == telling(
                (State {
                    outcomes: deletion::fates(outcomes@),
                    deleting: None,
                    ..old(self)@
                }),
                deletion_text(deletion::fates(outcomes@), old(self)@.settings.unit),
            ),
    {
        let text = describe_deletion(&outcomes, self.settings.unit);
        self.outcomes = outcomes;
        self.deleting = None;
        self.tell(text.as_str());
    }

    fn correct_tree(&mut self, outcomes: &Vec<Outcome>)
        ensures
            final(self)@ == match old(self)@.tree {
                Some(tree) => touched(
                    State {
                        tree: Some(tree_without(tree, deletion::fates(outcomes@))),
                        ..old(self)@
                    },
                ),
                None => old(self)@,
            },
    {
        if let Some(tree) = self.tree.take() {
            let kept = without_deleted(tree, outcomes);
            self.tree = Some(kept);
            self.touch();
        }
    }

    fn drop_marks(&mut self, outcomes: &Vec<Outcome>)
        ensures
            final(self)@ == (State {
                marks: marks_without(old(self)@.marks, deletion::fates(outcomes@)),
                ..old(self)@
            }),
    {
        let ghost all = deletion::fates(outcomes@);
        let ghost start = self@;
        let mut at: usize = 0;
        while at < outcomes.len()
            invariant
                at <= outcomes@.len(),
                all == deletion::fates(outcomes@),
                self@ == (State {
                    marks: marks_without(start.marks, all.take(at as int)),
                    ..start
                }),
            decreases outcomes@.len() - at,
        {
            proof {
                let upto = all.take(at as int + 1);
                assert(upto.drop_last() =~= all.take(at as int));
                assert(upto.last() == outcomes@[at as int]@);
            }
            if let Outcome::Deleted { path, .. } = &outcomes[at] {
                self.marks = without_mark(&self.marks, path);
            }
            at += 1;
        }
        assert(all.take(at as int) =~= all);
    }
}

fn without_deleted(tree: DiskEntry, outcomes: &Vec<Outcome>) -> (out: DiskEntry)
    ensures
        out@ == tree_without(tree@, deletion::fates(outcomes@)),
{
    let ghost all = deletion::fates(outcomes@);
    let ghost start = tree@;
    let mut out = tree;
    let mut at: usize = 0;
    while at < outcomes.len()
        invariant
            at <= outcomes@.len(),
            all == deletion::fates(outcomes@),
            out@ == tree_without(start, all.take(at as int)),
        decreases outcomes@.len() - at,
    {
        proof {
            let upto = all.take(at as int + 1);
            assert(upto.drop_last() =~= all.take(at as int));
            assert(upto.last() == outcomes@[at as int]@);
        }
        if let Outcome::Deleted { path, .. } = &outcomes[at] {
            let _gone = out.remove(path);
        }
        at += 1;
    }
    assert(all.take(at as int) =~= all);
    out
}

fn describe_deletion(outcomes: &Vec<Outcome>, unit: Unit) -> (text: String)
    ensures
        text@ == deletion_text(deletion::fates(outcomes@), unit),
{
    let ghost all = deletion::fates(outcomes@);
    let mut deleted: usize = 0;
    let mut at: usize = 0;
    while at < outcomes.len()
        invariant
            at <= outcomes@.len(),
            all == deletion::fates(outcomes@),
            deleted == count_deleted(all.take(at as int)),
            deleted <= at,
        decreases outcomes@.len() - at,
    {
        proof {
            let upto = all.take(at as int + 1);
            assert(upto.drop_last() =~= all.take(at as int));
            assert(upto.last() == outcomes@[at as int]@);
        }
        if outcomes[at].succeeded() {
            deleted += 1;
        }
        at += 1;
    }
    assert(all.take(at as int) =~= all);
    if deleted == 0 {
        return String::from_str("nothing could be deleted — press d for why");
    }
    let mut text = String::from_str("deleted ");
    strings::push_decimal(&mut text, deleted as u64);
    text.append(" · freed ");
    text.append(size::format(deletion::freed(outcomes), unit).as_str());
    if deleted < outcomes.len() {
        text.append(" · ");
        strings::push_decimal(&mut text, (outcomes.len() - deleted) as u64);
        text.append(" skipped");
    }
    text
}

// Out of here: the file manager and the clipboard.

pub open spec fn show_requested(state: State) -> State {
    match row_under_cursor(state) {
        None => state,
        Some(line) => match line.path {
            None => telling(state, "\"Other\" is a group, not a folder"@),
            Some(target) => asking(state, Asked::Show { path: target, is_dir: line.is_dir }),
        },
    }
}

/// What is said once the file manager shows a path.
pub open spec fn shown_text(
    target: Seq<u8>,
    is_dir: bool,
    platform: Platform,
    home: Option<Seq<u8>>,
) -> Seq<char> {
    "opened "@ + model::path_text(
        match file_manager::shown_folder(target, is_dir) {
            Some(folder) => folder,
            None => target,
        },
        home,
    ) + " in "@ + file_manager::manager_text(platform)
}

/// The path under the cursor. A group row stands for no single path, and an empty directory has no
/// row at all; the directory being looked at is the honest answer to both.
pub open spec fn path_to_copy(state: State) -> Seq<u8> {
    match path_under_cursor(state) {
        Some(target) => target,
        None => state.cwd,
    }
}

impl App {
    /// Show the selected entry in the desktop's file manager.
    pub fn reveal_selected(&mut self)
        ensures
            final(self)@ == show_requested(old(self)@),
    {
        if let Some(row) = self.selected_row() {
            match row.path {
                None => self.tell("\"Other\" is a group, not a folder"),
                Some(target) => self.ask(Request::Show { path: target, is_dir: row.is_dir }),
            }
        }
    }

    /// The file manager shows a path, or would not.
    pub fn revealed(
        &mut self,
        target: &FilePath,
        is_dir: bool,
        platform: Platform,
        failure: &Option<String>,
    )
        ensures
            final(self)@ == telling(
                old(self)@,
                match failure {
                    Some(error) => error@,
                    None => shown_text(target@, is_dir, platform, old(self)@.home),
                },
            ),
    {
        match failure {
            Some(error) => self.tell(error.as_str()),
            None => {
                let shown = match file_manager::folder_for(target, is_dir) {
                    Some(folder) => model::display_path_from(&folder, &self.home),
                    None => model::display_path_from(target, &self.home),
                };
                let mut text = String::from_str("opened ");
                text.append(shown.as_str());
                text.append(" in ");
                text.append(file_manager::manager_name(platform));
                self.tell(text.as_str());
            },
        }
    }

    /// Put the path under the cursor on the clipboard: the way out of here and into whatever you
    /// actually meant to do with the folder you found.
    pub fn copy_selected_path(&mut self)
        ensures
            final(self)@ == asking(old(self)@, Asked::Copy { path: path_to_copy(old(self)@) }),
    {
        let target = match self.selected_row() {
            Some(row) => match row.path {
                Some(target) => target,
                None => self.cwd.duplicate(),
            },
            None => self.cwd.duplicate(),
        };
        self.ask(Request::Copy { path: target });
    }

    /// A path is on the clipboard, or could not be put there. The clipboard gets the real path, the
    /// message gets the short one.
    pub fn copied(&mut self, target: &FilePath, failure: &Option<String>)
        ensures
            final(self)@ == telling(
                old(self)@,
                match failure {
                    Some(error) => error@,
                    None => "copied "@ + model::path_text(target@, old(self)@.home),
                },
            ),
    {
        match failure {
            Some(error) => self.tell(error.as_str()),
            None => {
                let mut text = String::from_str("copied ");
                text.append(model::display_path_from(target, &self.home).as_str());
                self.tell(text.as_str());
            },
        }
    }
}

/// Names with an arrow between them.
pub open spec fn trail(first: Seq<char>, names: Seq<Seq<u8>>) -> Seq<char>
    decreases names.len(),
{
    if names.len() == 0 {
        first
    } else {
        trail(first, names.drop_last()) + " › "@ + strings::lossy(names.last())
    }
}

/// The way from the volume to the current directory.
pub open spec fn breadcrumb_text(state: State) -> Seq<char> {
    let volume = match state.filesystem {
        Some(fs) => fs.name,
        None => model::path_text(state.root, state.home),
    };
    trail(
        volume,
        if path::within(state.cwd, state.root) {
            path::components(path::below(state.cwd, state.root))
        } else {
            Seq::empty()
        },
    )
}

impl App {
    /// Breadcrumb for the explorer: `Macintosh HD › Users › me`.
    pub fn breadcrumb(&self) -> (text: String)
        ensures
            text@ == breadcrumb_text(self@),
    {
        let mut text = match &self.filesystem {
            Some(fs) => String::from_str(fs.name.as_str()),
            None => model::display_path_from(&self.root, &self.home),
        };
        let ghost volume = text@;
        if let Some(rest) = self.cwd.strip_prefix(&self.root) {
            let spans = rest.spans();
            let ghost names = path::components(rest@);
            let mut at: usize = 0;
            assert(names.len() == spans@.len());
            assert(names.take(0) =~= Seq::empty());
            while at < spans.len()
                invariant
                    at <= spans@.len() == names.len(),
                    names == path::components(rest@),
                    spans@.len() == path::spans(rest@).len(),
                    forall|i: int|
                        0 <= i < spans@.len() ==> (#[trigger] spans@[i]).0 == path::spans(
                            rest@,
                        )[i].0 && spans@[i].1 == path::spans(rest@)[i].1,
                    forall|i: int|
                        0 <= i < spans@.len() ==> (#[trigger] spans@[i]).0 < spans@[i].1
                            <= rest@.len(),
                    text@ == trail(volume, names.take(at as int)),
                decreases spans@.len() - at,
            {
                let name = path::copy_range(&rest.bytes, spans[at].0, spans[at].1);
                proof {
                    assert(name@ == names[at as int]);
                    let upto = names.take(at as int + 1);
                    assert(upto.drop_last() =~= names.take(at as int));
                    assert(upto.last() == names[at as int]);
                }
                text.append(" › ");
                text.append(strings::from_utf8_lossy(&name).as_str());
                at += 1;
            }
            assert(names.take(at as int) =~= names);
        }
        text
    }
}


// What holds throughout.

/// Whether two entries have the same figures.
pub open spec fn same_figures(a: Tree, b: Tree) -> bool {
    a == (Tree { children: a.children, ..b })
}

proof fn a_stub_keeps_figures(tree: Tree, at: Seq<u8>, cwd: Seq<u8>, below: nat)
    ensures
        same_figures(stub(tree, at, cwd, below), tree),
{
}

proof fn stubs_keep_order(tree: Tree, at: Seq<u8>, cwd: Seq<u8>, below: nat, count: nat)
    requires
        count <= tree.children.len(),
    ensures
        stubs_below(tree, at, cwd, below, count).len() == count,
        stubs_above(tree, at, cwd, below, count).len() == count,
        forall|i: int|
            0 <= i < count ==> same_figures(
                #[trigger] stubs_below(tree, at, cwd, below, count)[i],
                tree.children[i],
            ),
        forall|i: int|
            0 <= i < count ==> same_figures(
                #[trigger] stubs_above(tree, at, cwd, below, count)[i],
                tree.children[i],
            ),
    decreases count,
{
    if count > 0 {
        let less = (count - 1) as nat;
        stubs_keep_order(tree, at, cwd, below, less);
        let child = tree.children[less as int];
        a_stub_keeps_figures(child, child_place(child, at), cwd, below);
        let under = stubs_below(tree, at, cwd, below, count);
        let over = stubs_above(tree, at, cwd, below, count);
        let before_under = stubs_below(tree, at, cwd, below, less);
        let before_over = stubs_above(tree, at, cwd, below, less);
        assert forall|i: int| 0 <= i < count implies same_figures(
            #[trigger] under[i],
            tree.children[i],
        ) by {
            if i < less {
                assert(under[i] == before_under[i]);
            }
        }
        assert forall|i: int| 0 <= i < count implies same_figures(
            #[trigger] over[i],
            tree.children[i],
        ) by {
            if i < less {
                assert(over[i] == before_over[i]);
            }
        }
    }
}

/// A rescan changes no number on screen: what is kept of an entry has its figures, and where the
/// cursor is at, above or below it, every one of its children, in order and with theirs.
pub proof fn stubs_list_the_same(tree: Tree, at: Seq<u8>, cwd: Seq<u8>, below: nat)
    ensures
        same_figures(stub(tree, at, cwd, below), tree),
        (path::within(at, cwd) && below > 0) || (!path::within(at, cwd) && path::within(cwd, at))
            ==> {
            &&& stub(tree, at, cwd, below).children.len() == tree.children.len()
            &&& forall|i: int|
                0 <= i < tree.children.len() ==> same_figures(
                    #[trigger] stub(tree, at, cwd, below).children[i],
                    tree.children[i],
                )
        },
{
    if path::within(at, cwd) {
        if below > 0 {
            stubs_keep_order(tree, at, cwd, (below - 1) as nat, tree.children.len());
        }
    } else {
        stubs_keep_order(tree, at, cwd, below, tree.children.len());
    }
}

/// What a running scan has on screen counts nothing twice: of any two directories listed neither
/// lies in the other. The larger stands first, each is one that was finished, and there are no more
/// than a screen needs.
pub proof fn streamed_directories_are_apart(list: Seq<Summary>, earlier: int, later: int)
    requires
        0 <= earlier < later < gathered(list).len(),
    ensures
        !path::within(gathered(list)[later].path, gathered(list)[earlier].path),
        !path::within(gathered(list)[earlier].path, gathered(list)[later].path),
        gathered(list)[earlier].allocated >= gathered(list)[later].allocated,
        list.contains(gathered(list)[earlier]),
        list.contains(gathered(list)[later]),
        gathered(list).len() <= STREAM_KEEP,
{
    let less = |a: Summary, b: Summary| a.allocated > b.allocated;
    let sorted = order::stable_sort(list, less);
    order::sort_orders(list, less);
    order::sort_is_a_permutation(list, less);
    order::sort_keeps_members(list, less);
    assert forall|i: int, j: int| 0 <= i < j < sorted.len() implies (#[trigger] sorted[i]).allocated
        >= (#[trigger] sorted[j]).allocated by {
        assert(!less(sorted[j], sorted[i]));
    }
    apart_is_apart(sorted);
    assert(gathered(list)[earlier] == apart(sorted)[earlier]);
    assert(gathered(list)[later] == apart(sorted)[later]);
    assert(apart(sorted).contains(apart(sorted)[earlier]));
    assert(apart(sorted).contains(apart(sorted)[later]));
}

/// Whether a list is in order of size, with none of it inside another of it.
spec fn told_apart(list: Seq<Summary>) -> bool {
    forall|i: int, j: int|
        0 <= i < j < list.len() ==> {
            &&& (#[trigger] list[i]).allocated >= (#[trigger] list[j]).allocated
            &&& !path::within(list[i].path, list[j].path)
            &&& !path::within(list[j].path, list[i].path)
        }
}

proof fn apart_is_apart(sorted: Seq<Summary>)
    requires
        forall|i: int, j: int|
            0 <= i < j < sorted.len() ==> (#[trigger] sorted[i]).allocated >= (
            #[trigger] sorted[j]).allocated,
    ensures
        told_apart(apart(sorted)),
        forall|x: Summary| #[trigger] apart(sorted).contains(x) ==> sorted.contains(x),
    decreases sorted.len(),
{
    if sorted.len() > 0 {
        let front = sorted.drop_last();
        let rest = apart(front);
        let last = sorted.last();
        apart_is_apart(front);
        assert forall|x: Summary| rest.contains(x) implies sorted.contains(x) && x.allocated
            >= last.allocated by {
            let i = choose|i: int| 0 <= i < front.len() && front[i] == x;
            assert(sorted[i] == x);
        }
        if !covered(rest, last.path) {
            let clear = clear_of(rest, last.path);
            clearing_keeps_apart(rest, last.path);
            let out = apart(sorted);
            assert forall|i: int| 0 <= i < clear.len() implies {
                &&& (#[trigger] clear[i]).allocated >= last.allocated
                &&& !path::within(clear[i].path, last.path)
                &&& !path::within(last.path, clear[i].path)
            } by {
                assert(clear.contains(clear[i]));
                let k = choose|k: int| 0 <= k < rest.len() && rest[k] == clear[i];
                assert(rest.contains(rest[k]));
            }
            assert forall|x: Summary| out.contains(x) implies sorted.contains(x) by {
                let i = choose|i: int| 0 <= i < out.len() && out[i] == x;
                if i < clear.len() {
                    assert(clear.contains(clear[i]));
                } else {
                    assert(sorted[sorted.len() - 1] == x);
                }
            }
        }
    }
}

proof fn clearing_keeps_apart(list: Seq<Summary>, parent: Seq<u8>)
    requires
        told_apart(list),
    ensures
        told_apart(clear_of(list, parent)),
        forall|x: Summary|
            #[trigger] clear_of(list, parent).contains(x) ==> list.contains(x) && !path::within(
                x.path,
                parent,
            ),
    decreases list.len(),
{
    reveal(Seq::filter);
    if list.len() > 0 {
        let front = list.drop_last();
        let kept = clear_of(front, parent);
        let out = clear_of(list, parent);
        let last = list.last();
        clearing_keeps_apart(front, parent);
        assert forall|i: int| 0 <= i < kept.len() implies {
            &&& (#[trigger] kept[i]).allocated >= last.allocated
            &&& !path::within(kept[i].path, last.path)
            &&& !path::within(last.path, kept[i].path)
        } by {
            assert(kept.contains(kept[i]));
            let k = choose|k: int| 0 <= k < front.len() && front[k] == kept[i];
            assert(list[k] == kept[i]);
            assert(list[list.len() - 1] == last);
        }
        assert forall|x: Summary| out.contains(x) implies list.contains(x) && !path::within(
            x.path,
            parent,
        ) by {
            let i = choose|i: int| 0 <= i < out.len() && out[i] == x;
            if i < kept.len() {
                assert(kept.contains(kept[i]));
                let k = choose|k: int| 0 <= k < front.len() && front[k] == x;
                assert(list[k] == x);
            } else {
                assert(list[list.len() - 1] == x);
            }
        }
    }
}

/// A scan is compared with what was known before it and recorded only then: recording is the last
/// thing that a finished scan asks for, and the comparison is with `previous`.
pub proof fn compared_before_recorded(
    state: State,
    tree: Tree,
    now: u64,
    clock: u64,
    previous: Option<Known>,
)
    requires
        state.watch is None,
    ensures
        absorbed(state, tree, now, clock, previous).diff is Some <==> previous is Some,
        previous matches Some(before) ==> absorbed(state, tree, now, clock, previous).diff == Some(
            compare_trees(
                before.tree,
                tree,
                state.settings.size_kind,
                before.taken_at,
                now,
                before.floor,
            ),
        ),
        absorbed(state, tree, now, clock, previous).requests == if state.settings.record_snapshots {
            state.requests.push(Asked::Record)
        } else {
            state.requests
        },
        absorbed(state, tree, now, clock, previous).tree == Some(tree),
        absorbed(state, tree, now, clock, previous).provisional is None,
{
}

/// Whether no place is marked twice.
pub open spec fn marked_once(marks: Seq<Seq<u8>>) -> bool {
    forall|i: int, j: int|
        0 <= i < j < marks.len() ==> !path::same_place(#[trigger] marks[i], #[trigger] marks[j])
}

proof fn unmarking_keeps_once(marks: Seq<Seq<u8>>, target: Seq<u8>)
    requires
        marked_once(marks),
    ensures
        marked_once(unmarked(marks, target)),
        !is_marked(unmarked(marks, target), target),
        forall|mark: Seq<u8>| #[trigger]
            unmarked(marks, target).contains(mark) ==> marks.contains(mark),
    decreases marks.len(),
{
    reveal(Seq::filter);
    if marks.len() > 0 {
        let front = marks.drop_last();
        let kept = unmarked(front, target);
        assert(marked_once(front)) by {
            assert forall|i: int, j: int| 0 <= i < j < front.len() implies !path::same_place(
                #[trigger] front[i],
                #[trigger] front[j],
            ) by {
                assert(front[i] == marks[i] && front[j] == marks[j]);
            }
        }
        unmarking_keeps_once(front, target);
        let out = unmarked(marks, target);
        assert forall|mark: Seq<u8>| #[trigger] out.contains(mark) implies marks.contains(mark) by {
            if kept.contains(mark) {
                assert(marks[front.index_of(mark)] == mark);
            } else {
                assert(marks[marks.len() - 1] == mark);
            }
        }
        if !path::same_place(marks.last(), target) {
            assert(out =~= kept.push(marks.last()));
            assert forall|i: int, j: int| 0 <= i < j < out.len() implies !path::same_place(
                #[trigger] out[i],
                #[trigger] out[j],
            ) by {
                if j == kept.len() {
                    assert(kept.contains(kept[i]));
                    let at = front.index_of(kept[i]);
                    assert(!path::same_place(marks[at], marks[marks.len() - 1]));
                }
            }
        }
    }
}

proof fn deleting_keeps_once(marks: Seq<Seq<u8>>, fates: Seq<Fate>)
    requires
        marked_once(marks),
    ensures
        marked_once(marks_without(marks, fates)),
    decreases fates.len(),
{
    if fates.len() > 0 {
        deleting_keeps_once(marks, fates.drop_last());
        match fates.last() {
            Fate::Deleted { path, .. } => {
                unmarking_keeps_once(marks_without(marks, fates.drop_last()), path);
            },
            _ => {},
        }
    }
}

/// No place is ever marked twice, so what is marked is neither counted nor deleted twice: nothing is
/// marked at first or once a scan is left, marking and unmarking keep it so, and so does a deletion.
/// Marking what is marked unmarks it.
pub proof fn no_place_is_marked_twice(state: State, fates: Seq<Fate>)
    requires
        marked_once(state.marks),
    ensures
        marked_once(mark_toggled(state).marks),
        marked_once(marks_without(state.marks, fates)),
        marked_once(outcomes_applied(state, fates).marks),
        at_picker(state).marks.len() == 0,
        path_under_cursor(state) matches Some(target) ==> is_marked(
            mark_toggled(state).marks,
            target,
        ) == !is_marked(state.marks, target),
{
    deleting_keeps_once(state.marks, fates);
    if path_under_cursor(state) is Some {
        let target = path_under_cursor(state)->0;
        if is_marked(state.marks, target) {
            unmarking_keeps_once(state.marks, target);
        } else {
            let out = state.marks.push(target);
            assert(path::same_place(out[out.len() - 1], target));
        }
    }
}

/// A rescan does not disturb the view: while it runs and when it is in, the same screen shows the
/// same directory of the same root, with the search, the sorting and the marks as they were; while
/// it runs the cursor does not move, and afterwards only where there is no such row any more.
pub proof fn rescans_leave_the_view_alone(
    state: State,
    filesystem: Option<Volume>,
    snapshot: Option<Known>,
    tree: Tree,
    now: u64,
    clock: u64,
    previous: Option<Known>,
)
    requires
        state.root.len() > 0,
        !state.scanning,
    ensures
        refreshed(state) == asking(
            state,
            Asked::Begin { path: state.root, mode: ScanMode::Refresh },
        ),
        ({
            let running = under_way(state, state.root, ScanMode::Refresh, filesystem, snapshot);
            let after = absorbed(running, tree, now, clock, previous);
            &&& running.view == state.view && after.view == state.view
            &&& running.root == state.root && after.root == state.root
            &&& running.cwd == state.cwd && after.cwd == state.cwd
            &&& running.search == state.search && after.search == state.search
            &&& running.sort == state.sort && after.sort == state.sort
            &&& running.metric == state.metric && after.metric == state.metric
            &&& running.marks == state.marks && after.marks == state.marks
            &&& running.tree is Some == state.tree is Some
            &&& running.selection == state.selection
            &&& state.selection < rows_here(after).len() ==> after.selection == state.selection
        }),
{
}

/// Leaving a running scan is final: whatever it comes to later changes nothing on screen.
pub proof fn a_scan_left_behind_is_dropped(
    state: State,
    ending: Ending,
    now: u64,
    clock: u64,
    previous: Option<Known>,
)
    ensures
        collected(at_picker(state), ending, now, clock, previous) == at_picker(state),
        !at_picker(state).scanning,
{
}

/// What is watched is measured from the first scan on: every later one is compared with it, from the
/// moment watching began, and it is never replaced.
pub proof fn watching_measures_from_the_first_scan(
    state: State,
    tree: Tree,
    now: u64,
    clock: u64,
    previous: Option<Known>,
)
    requires
        state.watch is Some,
    ensures
        ({
            let watch = state.watch->0;
            let after = absorbed(state, tree, now, clock, previous);
            &&& after.watch matches Some(later)
            &&& later.started_at == watch.started_at
            &&& later.every == watch.every
            &&& later.last_scan == clock
            &&& later.baseline == match watch.baseline {
                Some(baseline) => Some(baseline),
                None => Some(history::for_storage(tree)),
            }
            &&& watch.baseline matches Some(baseline) ==> after.diff == Some(
                compare_trees(
                    baseline,
                    tree,
                    state.settings.size_kind,
                    watch.started_at,
                    now,
                    history::floor_of(baseline),
                ),
            )
            &&& after.requests == state.requests
        }),
{
}

/// What was known of a place is on screen at once and labelled as old, where scans are remembered at
/// all; without it the screen shows a scan going on. Either way the scan is what comes next, and once
/// it is in, nothing on screen is old any more.
pub proof fn known_numbers_are_shown_at_once(
    state: State,
    target: Seq<u8>,
    filesystem: Option<Volume>,
    snapshot: Option<Known>,
    tree: Tree,
    now: u64,
    clock: u64,
    previous: Option<Known>,
)
    ensures
        ({
            let begun = under_way(state, target, ScanMode::Fresh, filesystem, snapshot);
            let known = state.settings.record_snapshots && snapshot is Some;
            &&& begun.tree == if known {
                Some(snapshot->0.tree)
            } else {
                None
            }
            &&& begun.provisional is Some <==> known
            &&& known ==> begun.provisional == Some(snapshot->0.taken_at)
            &&& begun.view == if known {
                views::View::Overview
            } else {
                views::View::Scanning
            }
            &&& begun.scanning
            &&& begun.requests.last() == (Asked::Scan { path: target })
            &&& absorbed(begun, tree, now, clock, previous).provisional is None
            &&& absorbed(begun, tree, now, clock, previous).tree == Some(tree)
        }),
{
}

} // verus!
