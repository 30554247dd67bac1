//! The details panel: what is a key away rather than on screen all the time.

use vstd::prelude::*;
use crate::app;
use crate::app::{App, Comparison, State};
use crate::categories;
use crate::categories::{Around, Rule, Surroundings};
use crate::deletion;
use crate::deletion::{Fate, Outcome};
use crate::diff;
use crate::diff::{Change, Diff, Move};
use crate::model;
use crate::mounts::{Filesystem, Inodes, Volume};
use crate::output;
use crate::path;
use crate::path::FilePath;
use crate::report;
use crate::screen;
use crate::screen::{Line, Run, Tone};
use crate::size;
use crate::size::{SizeKind, Unit};
use crate::strings;
use crate::timefmt;
use crate::tree;
use crate::tree::{DiskEntry, Tree};

verus! {

/// One line of the panel: what is told, and what it is.
#[derive(Debug)]
pub struct Fact {
    pub label: String,
    pub value: String,
    pub tone: Tone,
}

/// A line of the panel as a value.
#[verifier::ext_equal]
pub struct Told {
    pub label: Seq<char>,
    pub value: Seq<char>,
    pub tone: Tone,
}

impl View for Fact {
    type V = Told;

    open spec fn view(&self) -> Told {
        Told { label: self.label@, value: self.value@, tone: self.tone }
    }
}

pub open spec fn told(facts: Seq<Fact>) -> Seq<Told> {
    facts.map_values(|fact: Fact| fact@)
}

pub open spec fn fact(label: Seq<char>, value: Seq<char>) -> Told {
    Told { label, value, tone: Tone::Plain }
}

fn tell(facts: &mut Vec<Fact>, label: &str, value: String)
    ensures
        told(final(facts)@) == told(old(facts)@).push(fact(label@, value@)),
{
    facts.push(Fact { label: String::from_str(label), value, tone: Tone::Plain });
    assert(told(facts@) =~= told(old(facts)@).push(fact(label@, value@)));
}

fn no_facts() -> (facts: Vec<Fact>)
    ensures
        told(facts@) == Seq::<Told>::empty(),
{
    let facts: Vec<Fact> = Vec::new();
    assert(told(facts@) =~= Seq::empty());
    facts
}

fn join(facts: &mut Vec<Fact>, mut more: Vec<Fact>)
    ensures
        told(final(facts)@) == told(old(facts)@) + told(more@),
{
    let ghost added = more@;
    facts.append(&mut more);
    assert(facts@ =~= old(facts)@ + added);
    assert(told(facts@) =~= told(old(facts)@) + told(added));
}

/// What the last deletion did to one target.
pub open spec fn fate_told(fate: Fate, home: Option<Seq<u8>>) -> Told {
    Told {
        label: model::path_text(deletion::fate_path(fate), home),
        value: deletion::fate_text(fate),
        tone: if fate is Deleted {
            Tone::Muted
        } else {
            Tone::Warning
        },
    }
}

/// What the last deletion did, and a blank after it.
pub open spec fn outcome_facts(fates: Seq<Fate>, home: Option<Seq<u8>>) -> Seq<Told> {
    if fates.len() == 0 {
        Seq::empty()
    } else {
        fates.map_values(|fate: Fate| fate_told(fate, home)).push(fact(""@, ""@))
    }
}

fn outcomes(app: &App) -> (facts: Vec<Fact>)
    ensures
        told(facts@) == outcome_facts(app@.outcomes, app@.home),
{
    let mut facts = no_facts();
    if app.outcomes.len() == 0 {
        return facts;
    }
    let ghost all = deletion::fates(app.outcomes@);
    let ghost wanted = |fate: Fate| fate_told(fate, app@.home);
    let mut at: usize = 0;
    assert(told(facts@) =~= all.take(0).map_values(wanted));
    while at < app.outcomes.len()
        invariant
            at <= app.outcomes@.len(),
            all == deletion::fates(app.outcomes@),
            wanted == (|fate: Fate| fate_told(fate, app@.home)),
            told(facts@) == all.take(at as int).map_values(wanted),
        decreases app.outcomes@.len() - at,
    {
        let outcome = &app.outcomes[at];
        let tone = match outcome {
            Outcome::Deleted { .. } => Tone::Muted,
            _ => Tone::Warning,
        };
        let ghost before = facts@;
        let label = model::display_path_from(outcome.path(), &app.home);
        let value = outcome.detail();
        facts.push(Fact { label, value, tone });
        proof {
            assert(all[at as int] == outcome@);
            assert(told(facts@) =~= told(before).push(wanted(all[at as int])));
            assert(all.take(at + 1) =~= all.take(at as int).push(all[at as int]));
            assert(told(facts@) =~= all.take(at + 1).map_values(wanted));
        }
        at += 1;
    }
    assert(all.take(at as int) =~= all);
    tell(&mut facts, "", String::from_str(""));
    facts
}

/// How much of a volume is used, in words.
pub open spec fn capacity_words(fs: Volume, unit: Unit) -> Seq<char> {
    size::formatted(fs.used as nat, unit) + " used of "@ + size::formatted(fs.total as nat, unit)
        + " ("@ + size::whole_percent_text(size::share(fs.used as nat, fs.total as nat)) + ")"@
}

pub open spec fn inode_words(inodes: Inodes) -> Seq<char> {
    strings::digits(inodes.used as nat) + " used of "@ + strings::digits(inodes.total as nat)
        + " ("@ + size::whole_percent_text(size::share(inodes.used as nat, inodes.total as nat))
        + ")"@
}

/// What is known of a volume.
pub open spec fn volume_facts(fs: Volume, unit: Unit) -> Seq<Told> {
    let base = seq![
        fact("Volume"@, fs.name),
        fact("Mount"@, path::shown(fs.mount_point)),
        fact("Device"@, fs.device),
        fact("Filesystem"@, fs.fs_type),
        fact("Read-only"@, output::yes_no(fs.read_only)),
        fact("Removable"@, output::yes_no(fs.removable)),
        fact("Kind"@, fs.kind),
        fact("Capacity"@, capacity_words(fs, unit)),
        fact("Available"@, size::formatted(fs.available as nat, unit)),
    ];
    match fs.inodes {
        Some(inodes) => base.push(fact("Inodes"@, inode_words(inodes))),
        None => base,
    }
}

fn capacity_of(fs: &Filesystem, unit: Unit) -> (words: String)
    ensures
        words@ == capacity_words(fs@, unit),
{
    let mut words = size::format(fs.used, unit);
    words.append(" used of ");
    words.append(size::format(fs.total, unit).as_str());
    words.append(" (");
    words.append(size::format_percent_whole(fs.used_fraction()).as_str());
    words.append(")");
    words
}

fn inodes_of(inodes: &Inodes) -> (words: String)
    ensures
        words@ == inode_words(*inodes),
{
    let mut words = strings::decimal(inodes.used);
    words.append(" used of ");
    words.append(strings::decimal(inodes.total).as_str());
    words.append(" (");
    words.append(size::format_percent_whole(inodes.used_fraction()).as_str());
    words.append(")");
    words
}

fn volume(fs: &Filesystem, unit: Unit) -> (facts: Vec<Fact>)
    ensures
        told(facts@) == volume_facts(fs@, unit),
{
    let mut facts = no_facts();
    tell(&mut facts, "Volume", String::from_str(fs.name.as_str()));
    tell(&mut facts, "Mount", fs.mount_point.display());
    tell(&mut facts, "Device", String::from_str(fs.device.as_str()));
    tell(&mut facts, "Filesystem", String::from_str(fs.fs_type.as_str()));
    tell(&mut facts, "Read-only", output::answer(fs.read_only));
    tell(&mut facts, "Removable", output::answer(fs.removable));
    tell(&mut facts, "Kind", String::from_str(fs.kind.as_str()));
    tell(&mut facts, "Capacity", capacity_of(fs, unit));
    tell(&mut facts, "Available", size::format(fs.available, unit));
    if let Some(inodes) = &fs.inodes {
        tell(&mut facts, "Inodes", inodes_of(inodes));
    }
    facts
}

/// What the panel describes: whatever is selected, or else the folder being explored.
pub open spec fn focus(state: State) -> Option<Seq<u8>> {
    match app::path_under_cursor(state) {
        Some(target) => Some(target),
        None => if app::entry_here(state) is Some {
            Some(state.cwd)
        } else {
            None
        },
    }
}

/// What a scan knows of an entry.
pub open spec fn entry_facts(entry: Option<Tree>, kind: SizeKind, unit: Unit, now: u64) -> Seq<
    Told,
> {
    match entry {
        None => Seq::empty(),
        Some(entry) => {
            let base = seq![
                fact(
                    "Current size"@,
                    size::formatted(tree::size_of(entry, kind) as nat, unit),
                ),
                fact("Items"@, strings::digits(entry.items as nat)),
            ];
            if entry.modified > 0 {
                base.push(
                    fact("Last used"@, timefmt::since(tree::less_by(now, entry.modified))),
                )
            } else {
                base
            }
        },
    }
}

fn entry_section(app: &App, target: &FilePath, now: u64) -> (facts: Vec<Fact>)
    ensures
        told(facts@) == entry_facts(
            match app@.tree {
                Some(tree) => tree::resolved(tree, target@),
                None => None,
            },
            app@.settings.size_kind,
            app@.settings.unit,
            now,
        ),
{
    let mut facts = no_facts();
    let entry: Option<&DiskEntry> = match &app.tree {
        Some(tree) => tree.resolve(target),
        None => None,
    };
    if let Some(entry) = entry {
        tell(
            &mut facts,
            "Current size",
            size::format(entry.size(app.settings.size_kind), app.settings.unit),
        );
        tell(&mut facts, "Items", strings::decimal(entry.items));
        if entry.modified > 0 {
            tell(
                &mut facts,
                "Last used",
                timefmt::ago(now.saturating_sub(entry.modified)),
            );
        }
    }
    facts
}

/// The snapshot noise floor behind a comparison.
pub fn diff_floor(diff: &Diff) -> (floor: u64)
    ensures
        floor == app::comparison(*diff).before_floor,
{
    diff.before_floor
}

/// What it was before, in words.
pub open spec fn before_words(change: Move, comparison: Comparison, unit: Unit) -> Seq<char> {
    if change.before_is_bound {
        "under "@ + size::formatted(comparison.before_floor as nat, unit)
    } else {
        size::formatted(change.before as nat, unit)
    }
}

/// How a place changed.
pub open spec fn change_facts(diff: Option<Comparison>, target: Seq<u8>, unit: Unit) -> Seq<Told> {
    match diff {
        None => Seq::empty(),
        Some(diff) => match diff::found(diff.tree, target) {
            None => Seq::empty(),
            Some(node) => seq![
                fact(
                    "Change ("@ + timefmt::humanized(
                        tree::less_by(diff.after_at, diff.before_at),
                    ) + ")"@,
                    report::signed_text(node.change.delta as int, unit),
                ),
                fact("Was"@, before_words(node.change, diff, unit)),
            ],
        },
    }
}

fn was(change: &Change, diff: &Diff, unit: Unit) -> (words: String)
    ensures
        words@ == before_words(change@, app::comparison(*diff), unit),
{
    if change.before_is_bound {
        let mut words = String::from_str("under ");
        words.append(size::format(diff_floor(diff), unit).as_str());
        words
    } else {
        size::format(change.before, unit)
    }
}

fn change_section(diff: &Diff, target: &FilePath, unit: Unit) -> (facts: Vec<Fact>)
    ensures
        told(facts@) == change_facts(Some(app::comparison(*diff)), target@, unit),
{
    let mut facts = no_facts();
    if let Some(change) = diff.change_for(target) {
        let mut label = String::from_str("Change (");
        label.append(timefmt::humanize(diff.elapsed()).as_str());
        label.append(")");
        tell(&mut facts, label.as_str(), report::signed(change.delta, unit));
        tell(&mut facts, "Was", was(change, diff, unit));
    }
    facts
}

/// What made something. Naming what produced it is most of the value in deciding whether to delete
/// it.
pub open spec fn rule_facts(rule: Option<Rule>) -> Seq<Told> {
    match rule {
        None => Seq::empty(),
        Some(rule) => {
            let base = seq![
                fact("Category"@, rule.label@),
                fact("Reclaiming"@, categories::safety_label(rule.safety)),
            ];
            match rule.regenerate {
                Some(command) => base.push(fact("Regenerate"@, command@)),
                None => base,
            }
        },
    }
}

fn rule_section(target: &FilePath, around: &Surroundings) -> (facts: Vec<Fact>)
    ensures
        told(facts@) == rule_facts(categories::rule_for(target@, around@)),
{
    let mut facts = no_facts();
    if let Some(rule) = categories::classify(target, around) {
        tell(&mut facts, "Category", String::from_str(rule.label));
        tell(&mut facts, "Reclaiming", String::from_str(rule.safety.label()));
        if let Some(command) = rule.regenerate {
            tell(&mut facts, "Regenerate", String::from_str(command));
        }
    }
    facts
}

/// What is being counted.
pub open spec fn counting_text(kind: SizeKind) -> Seq<char> {
    match kind {
        SizeKind::Allocated => "blocks used on disk"@,
        SizeKind::Apparent => "apparent file sizes"@,
    }
}

/// What a place is, and what it has been doing.
pub open spec fn focus_facts(state: State, around: Around, now: u64) -> Seq<Told> {
    match focus(state) {
        None => Seq::empty(),
        Some(target) => seq![
            fact(""@, ""@),
            fact("Path"@, model::path_text(target, state.home)),
        ] + entry_facts(
            match state.tree {
                Some(tree) => tree::resolved(tree, target),
                None => None,
            },
            state.settings.size_kind,
            state.settings.unit,
            now,
        ) + change_facts(state.diff, target, state.settings.unit) + rule_facts(
            categories::rule_for(target, around),
        ) + seq![fact("Counting"@, counting_text(state.settings.size_kind))],
    }
}

fn focused(app: &App) -> (target: Option<FilePath>)
    ensures
        model::home_value(target) == focus(app@),
{
    if let Some(row) = app.selected_row() {
        if let Some(target) = row.path {
            return Some(target);
        }
    }
    if app.current_entry().is_some() {
        Some(app.cwd.duplicate())
    } else {
        None
    }
}

fn focus_section(app: &App, around: &Surroundings, now: u64) -> (facts: Vec<Fact>)
    ensures
        told(facts@) == focus_facts(app@, around@, now),
{
    let mut facts = no_facts();
    if let Some(target) = focused(app) {
        tell(&mut facts, "", String::from_str(""));
        tell(&mut facts, "Path", model::display_path_from(&target, &app.home));
        join(&mut facts, entry_section(app, &target, now));
        if let Some(diff) = &app.diff {
            join(&mut facts, change_section(diff, &target, app.settings.unit));
        } else {
            join(&mut facts, no_facts());
        }
        join(&mut facts, rule_section(&target, around));
        let mut last = no_facts();
        tell(
            &mut last,
            "Counting",
            match app.settings.size_kind {
                SizeKind::Allocated => String::from_str("blocks used on disk"),
                SizeKind::Apparent => String::from_str("apparent file sizes"),
            },
        );
        join(&mut facts, last);
    }
    facts
}

/// Everything in the panel.
pub open spec fn details_facts(state: State, around: Around, now: u64) -> Seq<Told> {
    outcome_facts(state.outcomes, state.home) + match state.filesystem {
        Some(fs) => volume_facts(fs, state.settings.unit),
        None => Seq::empty(),
    } + focus_facts(state, around, now)
}

/// Everything in the panel. `around` is what is known of the files that prove a category, and `now`
/// the time, in seconds since the epoch. There is no panel where there is nothing to tell.
pub fn details(app: &App, around: &Surroundings, now: u64) -> (facts: Vec<Fact>)
    ensures
        told(facts@) == details_facts(app@, around@, now),
{
    let mut facts = outcomes(app);
    match &app.filesystem {
        Some(fs) => join(&mut facts, volume(fs, app.settings.unit)),
        None => join(&mut facts, no_facts()),
    }
    join(&mut facts, focus_section(app, around, now));
    facts
}

/// A line of the panel, the label in a column of its own.
pub open spec fn fact_runs(fact: Told) -> Seq<Run> {
    seq![
        screen::run(" "@ + strings::left_aligned(fact.label, 11), Tone::Muted),
        screen::run(fact.value, fact.tone),
    ]
}

impl Fact {
    /// The line of the panel that tells this.
    pub fn line(&self) -> (line: Line)
        ensures
            line@ == fact_runs(self@),
    {
        let mut label = String::from_str(" ");
        label.append(strings::align_left(self.label.as_str(), 11).as_str());
        let mut line = Line::new();
        line.push(label, Tone::Muted);
        line.say(self.value.as_str(), self.tone);
        line
    }
}

/// The title of the panel.
pub fn title(app: &App) -> (text: &'static str)
    ensures
        text@ == if app@.outcomes.len() == 0 {
            " Details — d to close "@
        } else {
            " Details — last deletion — d to close "@
        },
{
    if app.outcomes.len() == 0 {
        " Details — d to close "
    } else {
        " Details — last deletion — d to close "
    }
}

} // verus!
