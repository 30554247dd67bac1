//! What each subcommand decides and says.

use vstd::prelude::*;
use crate::categories;
use crate::categories::{Category, Group, Safety, Surroundings};
use crate::diff;
use crate::diff::Diff;
use crate::history::{Snapshot, SnapshotId, Store};
use crate::model;
use crate::path;
use crate::path::FilePath;
use crate::report;
use crate::report::Palette;
use crate::size;
use crate::size::{SizeKind, Unit};
use crate::strings;
use crate::timefmt;
use crate::timefmt::{DurationError, Reading};
use crate::tree;
use crate::tree::DiskEntry;

verus! {

/// Whether a snapshot is the newest taken at or before a time.
pub open spec fn is_latest_before(list: Seq<SnapshotId>, found: Option<usize>, at: u64) -> bool {
    match found {
        Some(i) => {
            &&& i < list.len()
            &&& list[i as int].taken_at <= at
            &&& forall|j: int| i < j < list.len() ==> (#[trigger] list[j]).taken_at > at
        },
        None => forall|j: int| 0 <= j < list.len() ==> (#[trigger] list[j]).taken_at > at,
    }
}

/// Which snapshot a comparison starts from: the newest, or with a window the newest that is at
/// least that old. Snapshots are listed oldest first.
pub fn baseline(list: &Vec<SnapshotId>, since: &Option<String>, now: u64) -> (found: Result<
    Option<usize>,
    DurationError,
>)
    ensures
        match since {
            None => found matches Ok(found) && (found is None <==> list@.len() == 0) && (
            found matches Some(i) ==> i == list@.len() - 1),
            Some(window) => {
                let reading = timefmt::understood(
                    strings::lowercase(strings::trimmed(window@)),
                );
                match found {
                    Err(error) => timefmt::says(Err(error), reading),
                    Ok(found) => reading is Seconds && reading->Seconds_0 <= u64::MAX
                        && is_latest_before(
                        list@,
                        found,
                        tree::less_by(now, reading->Seconds_0 as u64),
                    ),
                }
            },
        },
{
    match since {
        None => Ok(Store::latest(list)),
        Some(window) => match timefmt::parse_duration(window.as_str()) {
            Err(error) => Err(error),
            Ok(seconds) => Ok(Store::latest_before(list, now.saturating_sub(seconds))),
        },
    }
}

/// What is said where there is no snapshot to compare against.
pub open spec fn no_snapshot_text(
    root: Seq<u8>,
    since: Option<Seq<char>>,
    home: Option<Seq<u8>>,
) -> Seq<char> {
    "no snapshot of "@ + model::path_text(root, home) + " from "@ + (match since {
        Some(window) => window + " ago or earlier"@,
        None => "before now"@,
    }) + " — run `disko "@ + model::path_text(root, home) + "` first to start a history"@
}

pub fn no_snapshot(root: &FilePath, since: &Option<String>, home: &Option<FilePath>) -> (text:
    String)
    ensures
        text@ == no_snapshot_text(
            root@,
            match since {
                Some(window) => Some(window@),
                None => None,
            },
            model::home_value(*home),
        ),
{
    let place = model::display_path_from(root, home);
    let from = match since {
        Some(window) => {
            let mut from = String::from_str(window.as_str());
            from.append(" ago or earlier");
            from
        },
        None => String::from_str("before now"),
    };
    let mut text = String::from_str("no snapshot of ");
    text.append(place.as_str());
    text.append(" from ");
    text.append(from.as_str());
    text.append(" — run `disko ");
    text.append(place.as_str());
    text.append("` first to start a history");
    text
}

/// What is said of a path that cannot be read.
pub fn cannot_read(place: &FilePath) -> (text: String)
    ensures
        text@ == "cannot read "@ + path::shown(place@),
{
    let mut text = String::from_str("cannot read ");
    text.append(place.display().as_str());
    text
}

/// `disko diff` with no path means "the thing I was just looking at", and home where nothing was
/// looked at yet.
pub fn resolve_diff_root(
    given: Option<FilePath>,
    most_recent: Option<FilePath>,
    home: Option<FilePath>,
) -> (root: Option<FilePath>)
    ensures
        root == if given is Some {
            given
        } else if most_recent is Some {
            most_recent
        } else {
            home
        },
{
    if given.is_some() {
        given
    } else if most_recent.is_some() {
        most_recent
    } else {
        home
    }
}

/// What is said where nothing resolves.
pub fn no_diff_root() -> (text: &'static str)
    ensures
        text@
            == "no previous scan to compare against, and no home directory to fall back on"@,
{
    "no previous scan to compare against, and no home directory to fall back on"
}

/// Compare a fresh scan against the snapshot before it.
///
/// The snapshot is one that was taken before the scan was recorded: compared with its own
/// recording, every scan would come back unchanged.
pub fn compare_with(previous: &Option<Snapshot>, tree: &DiskEntry, kind: SizeKind, now: u64) -> (out:
    Option<Diff>)
    ensures
        out is Some <==> previous is Some,
        out matches Some(out) ==> {
            let before = previous->0;
            &&& out.root@ == tree@.name
            &&& out.before_at == before.taken_at
            &&& out.after_at == now
            &&& out.before_total == tree::size_of(before.tree@, kind)
            &&& out.after_total == tree::size_of(tree@, kind)
            &&& out.before_floor == before.floor
            &&& out.tree@ == diff::compared(
                Some(before.tree@),
                Some(tree@),
                tree@.name,
                kind,
                before.floor,
            )
        },
{
    match previous {
        None => None,
        Some(before) => Some(
            diff::diff(&before.tree, tree, kind, before.taken_at, now, before.floor),
        ),
    }
}

/// Whether a group stays in a list that was narrowed.
pub open spec fn stays(group: Category, safe_only: bool, idle: Option<u64>, now: u64) -> bool {
    &&& safe_only ==> group.rule.safety == Safety::Regenerable
    &&& idle matches Some(threshold) ==> tree::less_by(now, group.last_used) >= threshold
}

/// Keep only what regenerates itself, or only what nobody has touched for so long.
pub fn narrow<'a>(groups: Vec<Group<'a>>, safe_only: bool, idle: Option<u64>, now: u64) -> (out: Vec<
    Group<'a>,
>)
    ensures
        categories::categories(out@) == categories::categories(groups@).filter(
            |group: Category| stays(group, safe_only, idle, now),
        ),
{
    let ghost whole = groups@;
    let ghost all = categories::categories(whole);
    let ghost wanted = |group: Category| stays(group, safe_only, idle, now);
    let mut left = groups;
    let mut back: Vec<Group<'a>> = Vec::new();
    while left.len() > 0
        invariant
            left@ == whole.take(left@.len() as int),
            left@.len() <= whole.len(),
            back@ == whole.skip(left@.len() as int).reverse(),
        decreases left@.len(),
    {
        let ghost before = left@;
        let ghost rest = back@;
        if let Some(group) = left.pop() {
            back.push(group);
            proof {
                assert(left@ =~= whole.take(left@.len() as int));
                assert(back@ =~= whole.skip(left@.len() as int).reverse());
            }
        }
    }
    let mut out: Vec<Group<'a>> = Vec::new();
    let ghost mut done: int = 0;
    proof {
        assert(whole.skip(0) =~= whole);
        reveal(Seq::filter);
        assert(all.take(0).filter(wanted) =~= Seq::empty());
        assert(categories::categories(out@) =~= Seq::empty());
    }
    while back.len() > 0
        invariant
            0 <= done <= whole.len(),
            all == categories::categories(whole),
            wanted == |group: Category| stays(group, safe_only, idle, now),
            back@ == whole.skip(done).reverse(),
            categories::categories(out@) == all.take(done).filter(wanted),
        decreases back@.len(),
    {
        let ghost kept = out@;
        if let Some(group) = back.pop() {
            proof {
                assert(group == whole[done]);
                assert(all[done] == group@);
                assert(all.take(done + 1) =~= all.take(done).push(group@));
                all.take(done).lemma_filter_push(group@, wanted);
                assert(back@ =~= whole.skip(done + 1).reverse());
            }
            let safe = !safe_only || match group.rule.safety {
                Safety::Regenerable => true,
                Safety::ReviewFirst => false,
            };
            let old_enough = match idle {
                Some(threshold) => group.idle_for(now) >= threshold,
                None => true,
            };
            if safe && old_enough {
                out.push(group);
                assert(categories::categories(out@) =~= categories::categories(kept).push(
                    group@,
                ));
            }
            proof {
                done = done + 1;
            }
        }
    }
    assert(all.take(done) =~= all);
    out
}

/// Every location of some groups, in order.
pub open spec fn locations(groups: Seq<Category>) -> Seq<Seq<u8>>
    decreases groups.len(),
{
    if groups.len() == 0 {
        Seq::empty()
    } else {
        locations(groups.drop_last()) + groups.last().paths
    }
}

/// How a removal starts.
#[derive(Debug)]
pub enum Opening {
    /// There is nothing to delete.
    Nothing,
    /// Deleting is switched off.
    ReadOnly,
    /// Nobody is there to confirm it.
    Refused,
    /// Show this, and wait for an answer.
    Ask(String),
    /// Go ahead.
    Go,
}

/// What is said where nobody can confirm a deletion.
pub fn refusal() -> (text: &'static str)
    ensures
        text@
            == "refusing to delete without a terminal to confirm at — pass --yes if you mean it"@,
{
    "refusing to delete without a terminal to confirm at — pass --yes if you mean it"
}

/// The first of some locations, a line each.
pub open spec fn location_lines(list: Seq<Seq<u8>>, count: nat, home: Option<Seq<u8>>) -> Seq<char>
    decreases count,
{
    if count == 0 {
        Seq::empty()
    } else {
        location_lines(list, (count - 1) as nat, home) + ("   "@ + model::path_text(
            list[count - 1],
            home,
        ) + "\n"@)
    }
}

/// What is asked before anything is deleted.
pub open spec fn prompt_text(
    groups: Seq<Category>,
    unit: Unit,
    palette: Palette,
    home: Option<Seq<u8>>,
) -> Seq<char> {
    let list = locations(groups);
    " "@ + report::warn_text(palette, "About to delete"@) + " "@ + size::formatted(
        report::total_of(groups) as nat,
        unit,
    ) + " across "@ + strings::digits(list.len()) + " location"@ + (if list.len() == 1 {
        ""@
    } else {
        "s"@
    }) + ":\n"@ + location_lines(list, list.len(), home) + "\n Type "@ + report::bold_text(
        palette,
        "delete"@,
    ) + " to confirm: "@
}

fn flatten<'a>(groups: &Vec<Group<'a>>) -> (out: Vec<&'a FilePath>)
    ensures
        out@.map_values(|path: &FilePath| path@) == locations(categories::categories(groups@)),
{
    let ghost all = categories::categories(groups@);
    let ghost value = |path: &FilePath| path@;
    let mut out: Vec<&'a FilePath> = Vec::new();
    let mut at: usize = 0;
    assert(out@.map_values(value) =~= Seq::empty());
    while at < groups.len()
        invariant
            at <= groups@.len(),
            all == categories::categories(groups@),
            value == |path: &FilePath| path@,
            out@.map_values(value) == locations(all.take(at as int)),
        decreases groups@.len() - at,
    {
        let ghost before = out@.map_values(value);
        let ghost own = groups@[at as int]@.paths;
        proof {
            let upto = all.take(at as int + 1);
            assert(upto.drop_last() =~= all.take(at as int));
            assert(upto.last() == groups@[at as int]@);
            assert(before + own.take(0) =~= before);
        }
        let mut next: usize = 0;
        while next < groups[at].paths.len()
            invariant
                at < groups@.len(),
                next <= groups@[at as int].paths@.len(),
                value == |path: &FilePath| path@,
                own == groups@[at as int]@.paths,
                out@.map_values(value) == before + own.take(next as int),
            decreases groups@[at as int].paths@.len() - next,
        {
            let ghost list = out@;
            let place = groups[at].paths[next];
            out.push(place);
            proof {
                assert(own[next as int] == place@);
                assert(out@.map_values(value) =~= list.map_values(value).push(place@));
                assert(before + own.take(next as int + 1) =~= (before + own.take(
                    next as int,
                )).push(place@));
            }
            next += 1;
        }
        assert(own.take(next as int) =~= own);
        at += 1;
    }
    assert(all.take(at as int) =~= all);
    out
}

fn write_locations(paths: &Vec<&FilePath>, home: &Option<FilePath>) -> (out: String)
    ensures
        out@ == location_lines(
            paths@.map_values(|path: &FilePath| path@),
            paths@.len(),
            model::home_value(*home),
        ),
{
    let ghost all = paths@.map_values(|path: &FilePath| path@);
    let mut out = String::new();
    let mut at: usize = 0;
    assert(out@ =~= Seq::empty());
    while at < paths.len()
        invariant
            at <= paths@.len(),
            all == paths@.map_values(|path: &FilePath| path@),
            out@ == location_lines(all, at as nat, model::home_value(*home)),
        decreases paths@.len() - at,
    {
        let mut line = String::from_str("   ");
        line.append(model::display_path_from(paths[at], home).as_str());
        line.append("\n");
        assert(all[at as int] == paths@[at as int]@);
        out.append(line.as_str());
        at += 1;
    }
    out
}

/// How a removal starts: with nothing to do, with a refusal, with a question, or at once where the
/// question was answered beforehand. Read-only, it never starts.
pub fn open_removal(
    groups: &Vec<Group>,
    unit: Unit,
    read_only: bool,
    assume_yes: bool,
    is_terminal: bool,
    palette: Palette,
    home: &Option<FilePath>,
) -> (opening: Opening)
    ensures
        ({
            let all = categories::categories(groups@);
            match opening {
                Opening::Nothing => locations(all).len() == 0,
                Opening::ReadOnly => locations(all).len() > 0 && read_only,
                Opening::Refused => {
                    &&& locations(all).len() > 0
                    &&& !read_only
                    &&& !assume_yes
                    &&& !is_terminal
                },
                Opening::Ask(prompt) => {
                    &&& locations(all).len() > 0
                    &&& !read_only
                    &&& !assume_yes
                    &&& is_terminal
                    &&& prompt@ == prompt_text(all, unit, palette, model::home_value(*home))
                },
                Opening::Go => locations(all).len() > 0 && !read_only && assume_yes,
            }
        }),
{
    let paths = flatten(groups);
    let ghost list = locations(categories::categories(groups@));
    assert(paths@.len() == list.len());
    if paths.len() == 0 {
        return Opening::Nothing;
    }
    if read_only {
        return Opening::ReadOnly;
    }
    if assume_yes {
        return Opening::Go;
    }
    if !is_terminal {
        return Opening::Refused;
    }
    let mut prompt = String::from_str(" ");
    prompt.append(palette.warn("About to delete").as_str());
    prompt.append(" ");
    prompt.append(size::format(report::sum_of(groups), unit).as_str());
    prompt.append(" across ");
    strings::push_decimal(&mut prompt, paths.len() as u64);
    prompt.append(" location");
    prompt.append(
        if paths.len() == 1 {
            ""
        } else {
            "s"
        },
    );
    prompt.append(":\n");
    prompt.append(write_locations(&paths, home).as_str());
    prompt.append("\n Type ");
    prompt.append(palette.bold("delete").as_str());
    prompt.append(" to confirm: ");
    Opening::Ask(prompt)
}

/// Whether an answer confirms a deletion: the word in full, and nothing else.
pub fn confirms(answer: &str) -> (yes: bool)
    ensures
        yes == (strings::trimmed(answer@) == "delete"@),
{
    strings::same(strings::trim(answer).as_str(), "delete")
}

/// What is said where a deletion was not confirmed.
pub fn nothing_deleted(palette: Palette) -> (text: String)
    ensures
        text@ == " "@ + report::dim_text(palette, "nothing was deleted"@) + "\n"@,
{
    let mut text = String::from_str(" ");
    text.append(palette.dim("nothing was deleted").as_str());
    text.append("\n");
    text
}

/// A location to remove, and what its removal is counted as.
#[derive(Debug)]
pub struct Spot<'a> {
    pub path: &'a FilePath,
    pub share: u64,
}

/// What one location of a group is counted as: the group's size, in equal parts.
pub open spec fn share_of(group: Category) -> u64 {
    if group.paths.len() == 0 {
        group.size
    } else {
        (group.size as nat / group.paths.len()) as u64
    }
}

/// Every location of some groups, each with what it is counted as.
pub open spec fn spots_of(groups: Seq<Category>) -> Seq<(Seq<u8>, u64)>
    decreases groups.len(),
{
    if groups.len() == 0 {
        Seq::empty()
    } else {
        spots_of(groups.drop_last()) + groups.last().paths.map_values(
            |place: Seq<u8>| (place, share_of(groups.last())),
        )
    }
}

/// Locations, each as its path and what it is counted as.
pub open spec fn spots(list: Seq<Spot>) -> Seq<(Seq<u8>, u64)> {
    list.map_values(|spot: Spot| (spot.path@, spot.share))
}

/// A removal under way: where it is, and how much was freed.
#[derive(Debug)]
pub struct Sweep<'a> {
    pub list: Vec<Spot<'a>>,
    pub at: usize,
    pub freed: u64,
}

/// What to do with a location.
#[derive(Debug)]
pub enum Verdict {
    /// Leave it, and say so.
    Skip(String),
    /// Remove it.
    Remove,
}

/// What is said of a location that is left alone.
pub open spec fn skipped_text(place: Seq<u8>, palette: Palette, home: Option<Seq<u8>>) -> Seq<
    char,
> {
    " "@ + report::warn_text(palette, "skipped"@) + " "@ + model::path_text(place, home)
        + " is no longer a recognised cache\n"@
}

/// What is said of a location that was removed, or could not be.
pub open spec fn removed_text(
    place: Seq<u8>,
    failure: Option<Seq<char>>,
    palette: Palette,
    home: Option<Seq<u8>>,
) -> Seq<char> {
    match failure {
        None => " removed "@ + model::path_text(place, home) + "\n"@,
        Some(error) => " "@ + report::warn_text(palette, "could not remove"@) + " "@
            + model::path_text(place, home) + ": "@ + error + "\n"@,
    }
}

fn gather<'a>(groups: &Vec<Group<'a>>) -> (out: Vec<Spot<'a>>)
    ensures
        spots(out@) == spots_of(categories::categories(groups@)),
{
    let ghost all = categories::categories(groups@);
    let mut out: Vec<Spot<'a>> = Vec::new();
    let mut at: usize = 0;
    assert(spots(out@) =~= Seq::empty());
    while at < groups.len()
        invariant
            at <= groups@.len(),
            all == categories::categories(groups@),
            spots(out@) == spots_of(all.take(at as int)),
        decreases groups@.len() - at,
    {
        let group = &groups[at];
        let count: usize = group.paths.len();
        let share: u64 = if count == 0 {
            group.size
        } else {
            group.size / count as u64
        };
        let ghost before = spots(out@);
        let ghost own = group@.paths.map_values(|place: Seq<u8>| (place, share_of(group@)));
        proof {
            let upto = all.take(at as int + 1);
            assert(upto.drop_last() =~= all.take(at as int));
            assert(upto.last() == group@);
            assert(before + own.take(0) =~= before);
            assert(share == share_of(group@));
        }
        let mut next: usize = 0;
        while next < count
            invariant
                next <= count,
                count == group.paths@.len(),
                share == share_of(group@),
                own == group@.paths.map_values(|place: Seq<u8>| (place, share_of(group@))),
                spots(out@) == before + own.take(next as int),
            decreases count - next,
        {
            let ghost list = out@;
            let spot = Spot { path: group.paths[next], share };
            out.push(spot);
            proof {
                assert(own[next as int] == (spot.path@, spot.share));
                assert(spots(out@) =~= spots(list).push((spot.path@, spot.share)));
                assert(before + own.take(next as int + 1) =~= (before + own.take(
                    next as int,
                )).push(own[next as int]));
            }
            next += 1;
        }
        assert(own.take(next as int) =~= own);
        at += 1;
    }
    assert(all.take(at as int) =~= all);
    out
}

impl<'a> Sweep<'a> {
    pub open spec fn valid(&self) -> bool {
        self.at <= self.list@.len()
    }

    pub fn new(groups: &Vec<Group<'a>>) -> (sweep: Sweep<'a>)
        ensures
            sweep.valid(),
            spots(sweep.list@) == spots_of(categories::categories(groups@)),
            sweep.at == 0,
            sweep.freed == 0,
    {
        Sweep { list: gather(groups), at: 0, freed: 0 }
    }

    /// The location that is next.
    pub fn current(&self) -> (place: Option<&'a FilePath>)
        requires
            self.valid(),
        ensures
            place is Some <==> self.at < self.list@.len(),
            place matches Some(place) ==> place@ == spots(self.list@)[self.at as int].0,
    {
        if self.at < self.list.len() {
            Some(self.list[self.at].path)
        } else {
            None
        }
    }

    /// Look once more at the location that is next: one that no longer classifies is one that there
    /// is no longer a reason to touch.
    ///
    /// The list on screen came from a scan that finished seconds ago, and deleting something because
    /// of a stale classification is exactly the failure worth engineering against.
    pub fn verify(
        &mut self,
        around: &Surroundings,
        palette: Palette,
    ) -> (verdict: Verdict)
        requires
            old(self).valid(),
            old(self).at < old(self).list@.len(),
        ensures
            final(self).valid(),
            final(self).list == old(self).list,
            final(self).freed == old(self).freed,
            ({
                let place = spots(old(self).list@)[old(self).at as int].0;
                match verdict {
                    Verdict::Remove => {
                        &&& categories::rule_for(place, around@) is Some
                        &&& final(self).at == old(self).at
                    },
                    Verdict::Skip(text) => {
                        &&& categories::rule_for(place, around@) is None
                        &&& final(self).at == old(self).at + 1
                        &&& text@ == skipped_text(place, palette, around@.home)
                    },
                }
            }),
    {
        let count: usize = self.list.len();
        assert(self.at < count);
        let place = self.list[self.at].path;
        if categories::classify(place, around).is_some() {
            return Verdict::Remove;
        }
        let mut text = String::from_str(" ");
        text.append(palette.warn("skipped").as_str());
        text.append(" ");
        text.append(model::display_path_from(place, &around.home).as_str());
        text.append(" is no longer a recognised cache\n");
        self.at += 1;
        Verdict::Skip(text)
    }

    /// Take down what became of the location that was to be removed, and say so.
    pub fn removed(&mut self, failure: &Option<String>, palette: Palette, home: &Option<FilePath>) -> (
        text: String)
        requires
            old(self).valid(),
            old(self).at < old(self).list@.len(),
        ensures
            final(self).valid(),
            final(self).list == old(self).list,
            final(self).at == old(self).at + 1,
            final(self).freed == if failure is None {
                tree::wrapped(old(self).freed, spots(old(self).list@)[old(self).at as int].1)
            } else {
                old(self).freed
            },
            text@ == removed_text(
                spots(old(self).list@)[old(self).at as int].0,
                match failure {
                    Some(error) => Some(error@),
                    None => None,
                },
                palette,
                model::home_value(*home),
            ),
    {
        let count: usize = self.list.len();
        assert(self.at < count);
        let place = self.list[self.at].path;
        let share: u64 = self.list[self.at].share;
        let shown = model::display_path_from(place, home);
        self.at += 1;
        match failure {
            None => {
                self.freed = self.freed.wrapping_add(share);
                let mut text = String::from_str(" removed ");
                text.append(shown.as_str());
                text.append("\n");
                text
            },
            Some(error) => {
                let mut text = String::from_str(" ");
                text.append(palette.warn("could not remove").as_str());
                text.append(" ");
                text.append(shown.as_str());
                text.append(": ");
                text.append(error.as_str());
                text.append("\n");
                text
            },
        }
    }

    /// What is said at the end.
    pub fn closing(&self, unit: Unit, palette: Palette) -> (text: String)
        ensures
            text@ == "\n "@ + report::bold_text(palette, "Freed"@) + " "@ + size::formatted(
                self.freed as nat,
                unit,
            ) + "\n\n"@,
    {
        let mut text = String::from_str("\n ");
        text.append(palette.bold("Freed").as_str());
        text.append(" ");
        text.append(size::format(self.freed, unit).as_str());
        text.append("\n\n");
        text
    }
}

/// What is said where a history was forgotten.
pub fn forgot(root: &FilePath, home: &Option<FilePath>) -> (text: String)
    ensures
        text@ == " forgot the history for "@ + model::path_text(root@, model::home_value(*home))
            + "\n"@,
{
    let mut text = String::from_str(" forgot the history for ");
    text.append(model::display_path_from(root, home).as_str());
    text.append("\n");
    text
}

/// One line of a piped watch: `bytes  human  change  path`, the first one a baseline.
pub open spec fn watch_text(
    total: u64,
    baseline: Option<u64>,
    unit: Unit,
    place: Seq<u8>,
) -> Seq<char> {
    strings::digits(total as nat) + "\t"@ + size::formatted(total as nat, unit) + "\t"@ + (
    match baseline {
        None => "baseline"@,
        Some(start) => report::signed_text(diff::difference(total, start), unit),
    }) + "\t"@ + path::shown(place) + "\n"@
}

/// Piped `watch` prints a line per interval instead of taking over a terminal that is not there.
pub fn watch_line(total: u64, baseline: Option<u64>, unit: Unit, place: &FilePath) -> (text: String)
    ensures
        text@ == watch_text(total, baseline, unit, place@),
{
    let change = match baseline {
        None => String::from_str("baseline"),
        Some(start) => report::signed(diff::moved(total, start), unit),
    };
    let mut text = strings::decimal(total);
    text.append("\t");
    text.append(size::format(total, unit).as_str());
    text.append("\t");
    text.append(change.as_str());
    text.append("\t");
    text.append(place.display().as_str());
    text.append("\n");
    text
}

/// How often a watch looks again, in seconds: once a second at most.
pub fn watch_interval(interval: &str) -> (every: Result<u64, DurationError>)
    ensures
        ({
            let reading = timefmt::understood(strings::lowercase(strings::trimmed(interval@)));
            match every {
                Ok(every) => reading == Reading::Seconds(every as nat) && every >= 1 || reading
                    == Reading::Seconds(0) && every == 1,
                Err(error) => timefmt::says(Err(error), reading),
            }
        }),
{
    match timefmt::parse_duration(interval) {
        Ok(every) => Ok(
            if every == 0 {
                1
            } else {
                every
            },
        ),
        Err(error) => Err(error),
    }
}

/// The locations of a sweep are those that were listed, each of them once and in order.
pub proof fn sweeps_go_by_the_list(groups: Seq<Category>)
    ensures
        spots_of(groups).map_values(|spot: (Seq<u8>, u64)| spot.0) == locations(groups),
    decreases groups.len(),
{
    let first = |spot: (Seq<u8>, u64)| spot.0;
    if groups.len() > 0 {
        sweeps_go_by_the_list(groups.drop_last());
        let own = groups.last().paths.map_values(
            |place: Seq<u8>| (place, share_of(groups.last())),
        );
        assert(own.map_values(first) =~= groups.last().paths);
        assert((spots_of(groups.drop_last()) + own).map_values(first) =~= spots_of(
            groups.drop_last(),
        ).map_values(first) + own.map_values(first));
    } else {
        assert(spots_of(groups).map_values(first) =~= locations(groups));
    }
}

} // verus!
