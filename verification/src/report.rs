//! Rendering for the time-travel commands: `diff`, `clean` and `history`.
//!
//! These print and exit rather than taking over the terminal: the question "what happened?" usually
//! wants an answer you can scroll back to, not a session to quit out of.

use vstd::prelude::*;
use crate::categories;
use crate::categories::{Category, Group, Safety, Surroundings};
use crate::diff;
use crate::diff::{Change, ChangeKind, Diff, Move};
use crate::history::Snapshot;
use crate::model;
use crate::path;
use crate::path::FilePath;
use crate::size;
use crate::size::Unit;
use crate::strings;
use crate::timefmt;
use crate::tree;

verus! {

/// Minimal ANSI, applied only when a person is looking.
#[derive(Copy, Clone, Debug, PartialEq, Eq, Structural)]
pub struct Palette {
    pub enabled: bool,
}

/// A text between the escape sequences that turn a style on and off again.
pub open spec fn styled(palette: Palette, code: Seq<char>, text: Seq<char>) -> Seq<char> {
    if palette.enabled {
        "\x1b["@ + code + "m"@ + text + "\x1b[0m"@
    } else {
        text
    }
}

pub open spec fn bold_text(palette: Palette, text: Seq<char>) -> Seq<char> {
    styled(palette, "1"@, text)
}

pub open spec fn dim_text(palette: Palette, text: Seq<char>) -> Seq<char> {
    styled(palette, "2"@, text)
}

pub open spec fn warn_text(palette: Palette, text: Seq<char>) -> Seq<char> {
    styled(palette, "33"@, text)
}

impl Palette {
    /// Colour where a terminal shows the output and nobody asked for none.
    pub fn detect(is_terminal: bool, no_color: bool) -> (palette: Palette)
        ensures
            palette.enabled == (is_terminal && !no_color),
    {
        Palette { enabled: is_terminal && !no_color }
    }

    pub fn plain() -> (palette: Palette)
        ensures
            !palette.enabled,
    {
        Palette { enabled: false }
    }

    fn wrap(&self, code: &str, text: &str) -> (out: String)
        ensures
            out@ == styled(*self, code@, text@),
    {
        if self.enabled {
            let mut out = String::from_str("\x1b[");
            out.append(code);
            out.append("m");
            out.append(text);
            out.append("\x1b[0m");
            out
        } else {
            String::from_str(text)
        }
    }

    pub fn grew(&self, text: &str) -> (out: String)
        ensures
            out@ == styled(*self, "32"@, text@),
    {
        self.wrap("32", text)
    }

    pub fn freed(&self, text: &str) -> (out: String)
        ensures
            out@ == styled(*self, "36"@, text@),
    {
        self.wrap("36", text)
    }

    pub fn bold(&self, text: &str) -> (out: String)
        ensures
            out@ == bold_text(*self, text@),
    {
        self.wrap("1", text)
    }

    pub fn dim(&self, text: &str) -> (out: String)
        ensures
            out@ == dim_text(*self, text@),
    {
        self.wrap("2", text)
    }

    pub fn warn(&self, text: &str) -> (out: String)
        ensures
            out@ == warn_text(*self, text@),
    {
        self.wrap("33", text)
    }
}

/// A change in size with its sign.
pub open spec fn signed_text(delta: int, unit: Unit) -> Seq<char> {
    if delta < 0 {
        "-"@ + size::formatted(diff::magnitude(delta), unit)
    } else {
        "+"@ + size::formatted(diff::magnitude(delta), unit)
    }
}

/// `+46 GB` or `-12 GB`, always signed so the direction is unmistakable.
pub fn signed(delta: i64, unit: Unit) -> (text: String)
    ensures
        text@ == signed_text(delta as int, unit),
{
    let magnitude = size::format(diff::size_of_move(delta), unit);
    let mut text = if delta < 0 {
        String::from_str("-")
    } else {
        String::from_str("+")
    };
    text.append(magnitude.as_str());
    text
}

/// How wide the widest of some changes is, written with its sign.
pub open spec fn widest_change(changes: Seq<Move>, unit: Unit) -> nat
    decreases changes.len(),
{
    if changes.len() == 0 {
        0
    } else {
        let rest = widest_change(changes.drop_last(), unit);
        let own = signed_text(changes.last().delta as int, unit).len();
        if own > rest {
            own
        } else {
            rest
        }
    }
}

/// "new" earns its place: it is the difference between a cache that grew and a directory that
/// appeared out of nowhere.
pub open spec fn change_note(change: Move) -> Seq<char> {
    match change.kind {
        ChangeKind::Added => if !change.before_is_bound {
            "  (new)"@
        } else {
            ""@
        },
        ChangeKind::Removed => "  (gone)"@,
        _ => ""@,
    }
}

/// One change on a line.
pub open spec fn change_line(
    change: Move,
    width: nat,
    unit: Unit,
    palette: Palette,
    growing: bool,
    home: Option<Seq<u8>>,
) -> Seq<char> {
    "  "@ + styled(
        palette,
        if growing {
            "32"@
        } else {
            "36"@
        },
        strings::right_aligned(signed_text(change.delta as int, unit), width as int),
    ) + "  "@ + model::path_text(change.path, home) + dim_text(palette, change_note(change))
        + "\n"@
}

/// The first of some changes, a line each, their amounts aligned.
pub open spec fn change_lines(
    changes: Seq<Move>,
    count: nat,
    unit: Unit,
    palette: Palette,
    growing: bool,
    home: Option<Seq<u8>>,
) -> Seq<char>
    decreases count,
{
    if count == 0 {
        Seq::empty()
    } else {
        change_lines(changes, (count - 1) as nat, unit, palette, growing, home) + change_line(
            changes[count - 1],
            widest_change(changes, unit),
            unit,
            palette,
            growing,
            home,
        )
    }
}

fn write_changes(
    out: &mut String,
    changes: &Vec<&Change>,
    unit: Unit,
    palette: Palette,
    growing: bool,
    home: &Option<FilePath>,
)
    ensures
        final(out)@ == old(out)@ + change_lines(
            diff::moves(changes@),
            changes@.len(),
            unit,
            palette,
            growing,
            model::home_value(*home),
        ),
{
    let ghost all = diff::moves(changes@);
    let ghost start = out@;
    let mut width: usize = 0;
    let mut at: usize = 0;
    while at < changes.len()
        invariant
            at <= changes@.len(),
            all == diff::moves(changes@),
            width == widest_change(all.take(at as int), unit),
        decreases changes@.len() - at,
    {
        proof {
            let upto = all.take(at as int + 1);
            assert(upto.drop_last() =~= all.take(at as int));
            assert(upto.last() == changes@[at as int]@);
        }
        let length: usize = signed(changes[at].delta, unit).as_str().unicode_len();
        if length > width {
            width = length;
        }
        at += 1;
    }
    assert(all.take(at as int) =~= all);
    let mut at: usize = 0;
    assert(start + Seq::<char>::empty() =~= start);
    while at < changes.len()
        invariant
            at <= changes@.len(),
            all == diff::moves(changes@),
            width == widest_change(all, unit),
            out@ == start + change_lines(
                all,
                at as nat,
                unit,
                palette,
                growing,
                model::home_value(*home),
            ),
        decreases changes@.len() - at,
    {
        let change = changes[at];
        assert(all[at as int] == change@);
        let ghost before = out@;
        let amount = strings::align_right(signed(change.delta, unit).as_str(), width);
        let amount = if growing {
            palette.grew(amount.as_str())
        } else {
            palette.freed(amount.as_str())
        };
        let note = match change.kind {
            ChangeKind::Added => if !change.before_is_bound {
                "  (new)"
            } else {
                ""
            },
            ChangeKind::Removed => "  (gone)",
            _ => "",
        };
        out.append("  ");
        out.append(amount.as_str());
        out.append("  ");
        out.append(model::display_path_from(&change.path, home).as_str());
        out.append(palette.dim(note).as_str());
        out.append("\n");
        proof {
            let line = change_line(
                all[at as int],
                width as nat,
                unit,
                palette,
                growing,
                model::home_value(*home),
            );
            assert(out@ =~= before + line);
            assert(out@ =~= start + (change_lines(
                all,
                at as nat,
                unit,
                palette,
                growing,
                model::home_value(*home),
            ) + line));
        }
        at += 1;
    }
}

/// How much was added or freed.
pub open spec fn headline(delta: int, unit: Unit) -> Seq<char> {
    if delta >= 0 {
        signed_text(delta, unit) + " added"@
    } else {
        size::formatted(diff::magnitude(delta), unit) + " freed"@
    }
}

/// The window, in words. Under a minute it is noise: "since today, 01:39" already said it.
pub open spec fn window_text(elapsed: u64) -> Seq<char> {
    if elapsed >= 60 {
        " ("@ + timefmt::humanized(elapsed) + ")"@
    } else {
        ""@
    }
}

/// How much moved, and since when.
pub open spec fn diff_title(diff: Diff, unit: Unit, when: Seq<char>, palette: Palette) -> Seq<
    char,
> {
    "\n "@ + bold_text(palette, "disko"@) + " — "@ + bold_text(
        palette,
        headline(diff.tree@.change.delta as int, unit),
    ) + " since "@ + when + window_text(tree::less_by(diff.after_at, diff.before_at)) + "\n\n"@
}

/// What was freed, under a heading of its own.
pub open spec fn freed_part(
    freed: Seq<Move>,
    unit: Unit,
    palette: Palette,
    home: Option<Seq<u8>>,
) -> Seq<char> {
    if freed.len() == 0 {
        Seq::empty()
    } else {
        "\n "@ + dim_text(palette, "Freed"@) + "\n"@ + change_lines(
            freed,
            freed.len(),
            unit,
            palette,
            false,
            home,
        )
    }
}

/// A whole comparison: how much, since when, and where.
pub open spec fn diff_text(
    diff: Diff,
    unit: Unit,
    top: nat,
    when: Seq<char>,
    palette: Palette,
    around: categories::Around,
) -> Seq<char> {
    let grew = diff::blamed(diff.tree@, top, true, diff::stops_at_names(around));
    let freed = diff::blamed(diff.tree@, top, false, diff::stops_at_names(around));
    let title = diff_title(diff, unit, when, palette);
    if grew.len() == 0 && freed.len() == 0 {
        title + " "@ + dim_text(palette, "nothing moved enough to be worth reporting"@) + "\n\n"@
    } else {
        title + change_lines(grew, grew.len(), unit, palette, true, around.home) + freed_part(
            freed,
            unit,
            palette,
            around.home,
        ) + "\n "@ + dim_text(
            palette,
            size::formatted(diff.before_total as nat, unit) + " → "@ + size::formatted(
                diff.after_total as nat,
                unit,
            ),
        ) + "\n\n"@
    }
}

fn write_title(diff: &Diff, unit: Unit, when: &str, palette: Palette) -> (out: String)
    ensures
        out@ == diff_title(*diff, unit, when@, palette),
{
    let delta: i64 = diff.total_delta();
    let mut title = if delta >= 0 {
        signed(delta, unit)
    } else {
        size::format(diff::size_of_move(delta), unit)
    };
    title.append(
        if delta >= 0 {
            " added"
        } else {
            " freed"
        },
    );
    assert(title@ == headline(delta as int, unit));
    let elapsed: u64 = diff.elapsed();
    let window = if elapsed >= 60 {
        let mut window = String::from_str(" (");
        window.append(timefmt::humanize(elapsed).as_str());
        window.append(")");
        window
    } else {
        String::from_str("")
    };
    assert(window@ == window_text(elapsed));
    let mut out = String::from_str("\n ");
    out.append(palette.bold("disko").as_str());
    out.append(" — ");
    out.append(palette.bold(title.as_str()).as_str());
    out.append(" since ");
    out.append(when);
    out.append(window.as_str());
    out.append("\n\n");
    out
}

fn write_freed(freed: &Vec<&Change>, unit: Unit, palette: Palette, home: &Option<FilePath>) -> (out:
    String)
    ensures
        out@ == freed_part(diff::moves(freed@), unit, palette, model::home_value(*home)),
{
    if freed.len() == 0 {
        let out = String::new();
        assert(out@ =~= Seq::empty());
        return out;
    }
    let mut out = String::from_str("\n ");
    out.append(palette.dim("Freed").as_str());
    out.append("\n");
    write_changes(&mut out, freed, unit, palette, false, home);
    out
}

/// A comparison, given when it starts in words.
pub fn diff_report_since(
    diff: &Diff,
    unit: Unit,
    top: usize,
    when: &str,
    palette: Palette,
    around: &Surroundings,
) -> (out: String)
    ensures
        out@ == diff_text(*diff, unit, top as nat, when@, palette, around@),
{
    let grew = diff.growth(top, around);
    let freed = diff.shrinkage(top, around);
    assert(grew@.len() == diff::moves(grew@).len());
    assert(freed@.len() == diff::moves(freed@).len());
    let mut out = write_title(diff, unit, when, palette);
    if grew.len() == 0 && freed.len() == 0 {
        out.append(" ");
        out.append(palette.dim("nothing moved enough to be worth reporting").as_str());
        out.append("\n\n");
        return out;
    }
    write_changes(&mut out, &grew, unit, palette, true, &around.home);
    out.append(write_freed(&freed, unit, palette, &around.home).as_str());
    let mut totals = size::format(diff.before_total, unit);
    totals.append(" → ");
    totals.append(size::format(diff.after_total, unit).as_str());
    out.append("\n ");
    out.append(palette.dim(totals.as_str()).as_str());
    out.append("\n\n");
    out
}

/// A comparison, as a person reads it. It is that of some local time at which the comparison
/// starts: which, is up to the machine's time zone.
pub fn diff_report(
    diff: &Diff,
    unit: Unit,
    top: usize,
    now: u64,
    palette: Palette,
    around: &Surroundings,
) -> (out: String)
    ensures
        exists|when: Seq<char>|
            timefmt::tells_moment(when, diff.before_at, now) && out@ == #[trigger] diff_text(
                *diff,
                unit,
                top as nat,
                when,
                palette,
                around@,
            ),
{
    let when = timefmt::moment(diff.before_at, now);
    diff_report_since(diff, unit, top, when.as_str(), palette, around)
}

/// What a change is called.
pub open spec fn kind_text(kind: ChangeKind) -> Seq<char> {
    match kind {
        ChangeKind::Added => "added"@,
        ChangeKind::Grown => "grown"@,
        ChangeKind::Shrunk => "shrunk"@,
        ChangeKind::Removed => "removed"@,
        ChangeKind::Unchanged => "unchanged"@,
    }
}

fn kind_label(kind: ChangeKind) -> (label: &'static str)
    ensures
        label@ == kind_text(kind),
{
    match kind {
        ChangeKind::Added => "added",
        ChangeKind::Grown => "grown",
        ChangeKind::Shrunk => "shrunk",
        ChangeKind::Removed => "removed",
        ChangeKind::Unchanged => "unchanged",
    }
}

/// One change for a script: `delta_bytes  delta_human  kind  path`.
pub open spec fn plain_change(change: Move, unit: Unit) -> Seq<char> {
    strings::signed_digits(change.delta as int) + "\t"@ + signed_text(change.delta as int, unit)
        + "\t"@ + kind_text(change.kind) + "\t"@ + path::shown(change.path) + "\n"@
}

/// Changes for a script, a line each.
pub open spec fn plain_changes(changes: Seq<Move>, unit: Unit) -> Seq<char>
    decreases changes.len(),
{
    if changes.len() == 0 {
        Seq::empty()
    } else {
        plain_changes(changes.drop_last(), unit) + plain_change(changes.last(), unit)
    }
}

fn push_signed(out: &mut String, value: i64)
    ensures
        final(out)@ == old(out)@ + strings::signed_digits(value as int),
{
    let ghost before = out@;
    if value < 0 {
        out.append("-");
    }
    strings::push_decimal(out, diff::size_of_move(value));
    proof {
        reveal_strlit("-");
    }
    assert(out@ =~= before + strings::signed_digits(value as int));
}

fn push_plain_changes(out: &mut String, changes: &Vec<&Change>, unit: Unit)
    ensures
        final(out)@ == old(out)@ + plain_changes(diff::moves(changes@), unit),
{
    let ghost all = diff::moves(changes@);
    let ghost start = out@;
    let mut at: usize = 0;
    assert(start + Seq::<char>::empty() =~= start);
    while at < changes.len()
        invariant
            at <= changes@.len(),
            all == diff::moves(changes@),
            out@ == start + plain_changes(all.take(at as int), unit),
        decreases changes@.len() - at,
    {
        let change = changes[at];
        proof {
            let upto = all.take(at as int + 1);
            assert(upto.drop_last() =~= all.take(at as int));
            assert(upto.last() == change@);
        }
        push_signed(out, change.delta);
        out.append("\t");
        out.append(signed(change.delta, unit).as_str());
        out.append("\t");
        out.append(kind_label(change.kind));
        out.append("\t");
        out.append(change.path.display().as_str());
        out.append("\n");
        assert(out@ =~= start + (plain_changes(all.take(at as int), unit) + plain_change(
            change@,
            unit,
        )));
        at += 1;
    }
    assert(all.take(at as int) =~= all);
}

/// Tab-separated `delta_bytes  delta_human  kind  path`: what grew, then what shrank.
pub fn diff_plain(diff: &Diff, unit: Unit, top: usize, around: &Surroundings) -> (out: String)
    ensures
        out@ == plain_changes(
            diff::blamed(diff.tree@, top as nat, true, diff::stops_at_names(around@)),
            unit,
        ) + plain_changes(
            diff::blamed(diff.tree@, top as nat, false, diff::stops_at_names(around@)),
            unit,
        ),
{
    let mut out = String::new();
    let grew = diff.growth(top, around);
    push_plain_changes(&mut out, &grew, unit);
    assert(out@ =~= plain_changes(diff::moves(grew@), unit));
    let freed = diff.shrinkage(top, around);
    push_plain_changes(&mut out, &freed, unit);
    out
}

/// How much some groups take together.
pub open spec fn total_of(groups: Seq<Category>) -> u64
    decreases groups.len(),
{
    if groups.len() == 0 {
        0
    } else {
        tree::wrapped(total_of(groups.drop_last()), groups.last().size)
    }
}

/// How wide the widest of some groups' sizes is.
pub open spec fn widest_size(groups: Seq<Category>, unit: Unit) -> nat
    decreases groups.len(),
{
    if groups.len() == 0 {
        0
    } else {
        let rest = widest_size(groups.drop_last(), unit);
        let own = size::formatted(groups.last().size as nat, unit).len();
        if own > rest {
            own
        } else {
            rest
        }
    }
}

/// How wide the widest of some groups' labels is.
pub open spec fn widest_label(groups: Seq<Category>) -> nat
    decreases groups.len(),
{
    if groups.len() == 0 {
        0
    } else {
        let rest = widest_label(groups.drop_last());
        let own = groups.last().rule.label@.len();
        if own > rest {
            own
        } else {
            rest
        }
    }
}

pub open spec fn label_width(groups: Seq<Category>) -> nat {
    if widest_label(groups) > 28 {
        28
    } else {
        widest_label(groups)
    }
}

/// A month, as far as dust is concerned.
pub const A_MONTH_OF_DUST: u64 = 2_592_000;

/// What there is to say of a group: how to bring it back, when it was last touched, and where. Four
/// months of dust is the strongest argument for deleting anything.
pub open spec fn group_notes(group: Category, now: u64) -> Seq<char> {
    let idle = tree::less_by(now, group.last_used);
    (match group.rule.regenerate {
        Some(command) => "regenerate: "@ + command@ + " · "@,
        None => Seq::empty(),
    }) + (if idle > A_MONTH_OF_DUST {
        "unused for "@ + timefmt::humanized(idle)
    } else {
        "last used "@ + timefmt::since(idle)
    }) + if group.paths.len() > 1 {
        " · "@ + strings::digits(group.paths.len()) + " locations"@
    } else {
        Seq::empty()
    }
}

/// How safe it is to delete a group, in colour.
pub open spec fn safety_text(safety: Safety, palette: Palette) -> Seq<char> {
    match safety {
        Safety::Regenerable => dim_text(palette, categories::safety_label(safety)),
        Safety::ReviewFirst => warn_text(palette, categories::safety_label(safety)),
    }
}

/// The two lines of a group.
pub open spec fn group_text(
    group: Category,
    sizes: nat,
    labels: nat,
    unit: Unit,
    now: u64,
    palette: Palette,
) -> Seq<char> {
    "  "@ + strings::right_aligned(size::formatted(group.size as nat, unit), sizes as int) + "  "@
        + strings::left_aligned(group.rule.label@, labels as int) + "  "@ + safety_text(
        group.rule.safety,
        palette,
    ) + "\n  "@ + strings::run(' ', sizes as int) + "  "@ + dim_text(
        palette,
        group_notes(group, now),
    ) + "\n"@
}

/// The first of some groups, two lines each.
pub open spec fn group_texts(
    groups: Seq<Category>,
    count: nat,
    unit: Unit,
    now: u64,
    palette: Palette,
) -> Seq<char>
    decreases count,
{
    if count == 0 {
        Seq::empty()
    } else {
        group_texts(groups, (count - 1) as nat, unit, now, palette) + group_text(
            groups[count - 1],
            widest_size(groups, unit),
            label_width(groups),
            unit,
            now,
            palette,
        )
    }
}

/// The whole list of what could be deleted.
pub open spec fn clean_text(groups: Seq<Category>, unit: Unit, now: u64, palette: Palette) -> Seq<
    char,
> {
    if groups.len() == 0 {
        "\n "@ + dim_text(palette, "no reclaimable developer storage found"@) + "\n\n"@
    } else {
        "\n "@ + bold_text(palette, "Reclaimable developer storage"@) + strings::right_aligned(
            bold_text(palette, size::formatted(total_of(groups) as nat, unit)),
            22,
        ) + "\n\n"@ + group_texts(groups, groups.len(), unit, now, palette) + "\n "@ + dim_text(
            palette,
            "disko clean --delete removes these, after confirmation"@,
        ) + "\n\n"@
    }
}

fn notes_for(group: &Group, now: u64) -> (notes: String)
    ensures
        notes@ == group_notes(group@, now),
{
    let mut notes = String::new();
    if let Some(command) = group.rule.regenerate {
        // No backticks: some entries are commands ("cargo build") and some are actions ("recreate
        // the AVD"), and dressing the latter up as shell reads badly.
        notes.append("regenerate: ");
        notes.append(command);
        notes.append(" · ");
    }
    let ghost first = notes@;
    assert(first =~= match group.rule.regenerate {
        Some(command) => "regenerate: "@ + command@ + " · "@,
        None => Seq::empty(),
    });
    let idle: u64 = group.idle_for(now);
    if idle > A_MONTH_OF_DUST {
        notes.append("unused for ");
        notes.append(timefmt::humanize(idle).as_str());
        assert(notes@ =~= first + ("unused for "@ + timefmt::humanized(idle)));
    } else {
        notes.append("last used ");
        notes.append(timefmt::ago(idle).as_str());
        assert(notes@ =~= first + ("last used "@ + timefmt::since(idle)));
    }
    let ghost second = notes@;
    if group.paths.len() > 1 {
        notes.append(" · ");
        strings::push_decimal(&mut notes, group.paths.len() as u64);
        notes.append(" locations");
        assert(notes@ =~= second + (" · "@ + strings::digits(group@.paths.len()) + " locations"@));
    } else {
        assert(second + Seq::<char>::empty() =~= second);
    }
    notes
}

pub(crate) fn sum_of(groups: &Vec<Group>) -> (total: u64)
    ensures
        total == total_of(categories::categories(groups@)),
{
    let ghost all = categories::categories(groups@);
    let mut total: u64 = 0;
    let mut at: usize = 0;
    while at < groups.len()
        invariant
            at <= groups@.len(),
            all == categories::categories(groups@),
            total == total_of(all.take(at as int)),
        decreases groups@.len() - at,
    {
        proof {
            let upto = all.take(at as int + 1);
            assert(upto.drop_last() =~= all.take(at as int));
            assert(upto.last() == groups@[at as int]@);
        }
        total = total.wrapping_add(groups[at].size);
        at += 1;
    }
    assert(all.take(at as int) =~= all);
    total
}

fn widths_of(groups: &Vec<Group>, unit: Unit) -> (out: (usize, usize))
    ensures
        out.0 == widest_size(categories::categories(groups@), unit),
        out.1 == label_width(categories::categories(groups@)),
{
    let ghost all = categories::categories(groups@);
    let mut sizes: usize = 0;
    let mut labels: usize = 0;
    let mut at: usize = 0;
    while at < groups.len()
        invariant
            at <= groups@.len(),
            all == categories::categories(groups@),
            sizes == widest_size(all.take(at as int), unit),
            labels == widest_label(all.take(at as int)),
        decreases groups@.len() - at,
    {
        proof {
            let upto = all.take(at as int + 1);
            assert(upto.drop_last() =~= all.take(at as int));
            assert(upto.last() == groups@[at as int]@);
        }
        let size_length: usize = size::format(groups[at].size, unit).as_str().unicode_len();
        if size_length > sizes {
            sizes = size_length;
        }
        let label_length: usize = groups[at].rule.label.unicode_len();
        if label_length > labels {
            labels = label_length;
        }
        at += 1;
    }
    assert(all.take(at as int) =~= all);
    if labels > 28 {
        labels = 28;
    }
    (sizes, labels)
}

fn write_group(
    group: &Group,
    sizes: usize,
    labels: usize,
    unit: Unit,
    now: u64,
    palette: Palette,
) -> (out: String)
    ensures
        out@ == group_text(group@, sizes as nat, labels as nat, unit, now, palette),
{
    let label = group.rule.safety.label();
    let safety = match group.rule.safety {
        Safety::Regenerable => palette.dim(label),
        Safety::ReviewFirst => palette.warn(label),
    };
    assert(safety@ == safety_text(group.rule.safety, palette));
    let mut out = String::from_str("  ");
    out.append(strings::align_right(size::format(group.size, unit).as_str(), sizes).as_str());
    out.append("  ");
    out.append(strings::align_left(group.rule.label, labels).as_str());
    out.append("  ");
    out.append(safety.as_str());
    out.append("\n  ");
    strings::push_run(&mut out, ' ', sizes);
    out.append("  ");
    out.append(palette.dim(notes_for(group, now).as_str()).as_str());
    out.append("\n");
    out
}

/// What could be deleted, as a person reads it.
pub fn clean_report(groups: &Vec<Group>, unit: Unit, now: u64, palette: Palette) -> (out: String)
    ensures
        out@ == clean_text(categories::categories(groups@), unit, now, palette),
{
    let ghost all = categories::categories(groups@);
    let mut out = String::from_str("\n ");
    if groups.len() == 0 {
        out.append(palette.dim("no reclaimable developer storage found").as_str());
        out.append("\n\n");
        return out;
    }
    let total: u64 = sum_of(groups);
    let (sizes, labels): (usize, usize) = widths_of(groups, unit);
    out.append(palette.bold("Reclaimable developer storage").as_str());
    // The total is right-aligned after the label.
    let shown = palette.bold(size::format(total, unit).as_str());
    out.append(strings::align_right(shown.as_str(), 22).as_str());
    out.append("\n\n");
    let ghost start = out@;
    let mut at: usize = 0;
    assert(start + Seq::<char>::empty() =~= start);
    while at < groups.len()
        invariant
            at <= groups@.len(),
            all == categories::categories(groups@),
            sizes == widest_size(all, unit),
            labels == label_width(all),
            out@ == start + group_texts(all, at as nat, unit, now, palette),
        decreases groups@.len() - at,
    {
        let group = &groups[at];
        assert(all[at as int] == group@);
        let lines = write_group(group, sizes, labels, unit, now, palette);
        out.append(lines.as_str());
        proof {
            let text = group_text(
                all[at as int],
                sizes as nat,
                labels as nat,
                unit,
                now,
                palette,
            );
            assert(out@ =~= start + (group_texts(all, at as nat, unit, now, palette) + text));
        }
        at += 1;
    }
    out.append("\n ");
    out.append(palette.dim("disko clean --delete removes these, after confirmation").as_str());
    out.append("\n\n");
    out
}

/// One location for a script.
pub open spec fn plain_location(group: Category, at: Seq<u8>, unit: Unit) -> Seq<char> {
    strings::digits(group.size as nat) + "\t"@ + size::formatted(group.size as nat, unit) + "\t"@
        + categories::safety_label(group.rule.safety) + "\t"@ + strings::digits(
        group.last_used as nat,
    ) + "\t"@ + (match group.rule.regenerate {
        Some(command) => command@,
        None => ""@,
    }) + "\t"@ + path::shown(at) + "\n"@
}

/// The first locations of a group for a script, a line each.
pub open spec fn plain_locations(group: Category, count: nat, unit: Unit) -> Seq<char>
    decreases count,
{
    if count == 0 {
        Seq::empty()
    } else {
        plain_locations(group, (count - 1) as nat, unit) + plain_location(
            group,
            group.paths[count - 1],
            unit,
        )
    }
}

/// Every location of some groups for a script.
pub open spec fn plain_groups(groups: Seq<Category>, unit: Unit) -> Seq<char>
    decreases groups.len(),
{
    if groups.len() == 0 {
        Seq::empty()
    } else {
        plain_groups(groups.drop_last(), unit) + plain_locations(
            groups.last(),
            groups.last().paths.len(),
            unit,
        )
    }
}

fn push_locations(out: &mut String, group: &Group, unit: Unit)
    ensures
        final(out)@ == old(out)@ + plain_locations(group@, group@.paths.len(), unit),
{
    let ghost start = out@;
    let mut at: usize = 0;
    assert(start + Seq::<char>::empty() =~= start);
    while at < group.paths.len()
        invariant
            at <= group.paths@.len(),
            out@ == start + plain_locations(group@, at as nat, unit),
        decreases group.paths@.len() - at,
    {
        let ghost before = out@;
        let place = group.paths[at];
        assert(group@.paths[at as int] == place@);
        strings::push_decimal(out, group.size);
        out.append("\t");
        out.append(size::format(group.size, unit).as_str());
        out.append("\t");
        out.append(group.rule.safety.label());
        out.append("\t");
        strings::push_decimal(out, group.last_used);
        out.append("\t");
        out.append(
            match group.rule.regenerate {
                Some(command) => command,
                None => "",
            },
        );
        out.append("\t");
        out.append(place.display().as_str());
        out.append("\n");
        proof {
            let line = plain_location(group@, group@.paths[at as int], unit);
            assert(out@ =~= before + line);
            assert(out@ =~= start + (plain_locations(group@, at as nat, unit) + line));
        }
        at += 1;
    }
}

/// Tab-separated `bytes  human  safety  last_used_unix  regenerate  path`.
pub fn clean_plain(groups: &Vec<Group>, unit: Unit) -> (out: String)
    ensures
        out@ == plain_groups(categories::categories(groups@), unit),
{
    let ghost all = categories::categories(groups@);
    let mut out = String::new();
    let mut at: usize = 0;
    assert(out@ =~= Seq::empty());
    while at < groups.len()
        invariant
            at <= groups@.len(),
            all == categories::categories(groups@),
            out@ == plain_groups(all.take(at as int), unit),
        decreases groups@.len() - at,
    {
        proof {
            let upto = all.take(at as int + 1);
            assert(upto.drop_last() =~= all.take(at as int));
            assert(upto.last() == groups@[at as int]@);
        }
        push_locations(&mut out, &groups[at], unit);
        at += 1;
    }
    assert(all.take(at as int) =~= all);
    out
}

/// How a snapshot compares to the one before it.
pub open spec fn history_change(
    snapshots: Seq<Snapshot>,
    at: int,
    unit: Unit,
    palette: Palette,
) -> Seq<char> {
    if at == 0 {
        dim_text(palette, "first scan"@)
    } else {
        let delta = diff::difference(
            snapshots[at].total_allocated,
            snapshots[at - 1].total_allocated,
        );
        if delta == 0 {
            dim_text(palette, "no change"@)
        } else if delta > 0 {
            styled(palette, "32"@, signed_text(delta, unit))
        } else {
            styled(palette, "36"@, signed_text(delta, unit))
        }
    }
}

/// One snapshot on a line.
pub open spec fn history_line(
    snapshots: Seq<Snapshot>,
    at: int,
    when: Seq<char>,
    unit: Unit,
    palette: Palette,
) -> Seq<char> {
    "  "@ + strings::left_aligned(when, 22) + "  "@ + strings::right_aligned(
        size::formatted(snapshots[at].total_allocated as nat, unit),
        10,
    ) + "  "@ + history_change(snapshots, at, unit, palette) + "\n"@
}

/// The first of some snapshots, a line each.
pub open spec fn history_lines(
    snapshots: Seq<Snapshot>,
    moments: Seq<Seq<char>>,
    count: nat,
    unit: Unit,
    palette: Palette,
) -> Seq<char>
    decreases count,
{
    if count == 0 {
        Seq::empty()
    } else {
        history_lines(snapshots, moments, (count - 1) as nat, unit, palette) + history_line(
            snapshots,
            count - 1,
            moments[count - 1],
            unit,
            palette,
        )
    }
}

/// A whole history.
pub open spec fn history_text(
    root: Seq<u8>,
    snapshots: Seq<Snapshot>,
    moments: Seq<Seq<char>>,
    unit: Unit,
    palette: Palette,
    home: Option<Seq<u8>>,
) -> Seq<char> {
    if snapshots.len() == 0 {
        "\n "@ + dim_text(palette, "no snapshots yet for "@ + model::path_text(root, home))
            + "\n\n"@
    } else {
        "\n "@ + bold_text(palette, "History for"@) + " "@ + model::path_text(root, home)
            + "\n\n"@ + history_lines(snapshots, moments, snapshots.len(), unit, palette) + "\n"@
    }
}

fn write_snapshot(
    snapshots: &Vec<Snapshot>,
    at: usize,
    when: &str,
    unit: Unit,
    palette: Palette,
) -> (out: String)
    requires
        at < snapshots@.len(),
    ensures
        out@ == history_line(snapshots@, at as int, when@, unit, palette),
{
    let total: u64 = snapshots[at].total_allocated;
    let change = if at == 0 {
        palette.dim("first scan")
    } else {
        let delta: i64 = diff::moved(total, snapshots[at - 1].total_allocated);
        if delta == 0 {
            palette.dim("no change")
        } else if delta > 0 {
            palette.grew(signed(delta, unit).as_str())
        } else {
            palette.freed(signed(delta, unit).as_str())
        }
    };
    assert(change@ == history_change(snapshots@, at as int, unit, palette));
    let mut out = String::from_str("  ");
    out.append(strings::align_left(when, 22).as_str());
    out.append("  ");
    out.append(strings::align_right(size::format(total, unit).as_str(), 10).as_str());
    out.append("  ");
    out.append(change.as_str());
    out.append("\n");
    out
}

/// A history, given when each snapshot was taken in words.
pub fn history_report_at(
    root: &FilePath,
    snapshots: &Vec<Snapshot>,
    moments: &Vec<String>,
    unit: Unit,
    palette: Palette,
    home: &Option<FilePath>,
) -> (out: String)
    requires
        moments@.len() == snapshots@.len(),
    ensures
        out@ == history_text(
            root@,
            snapshots@,
            strings::texts(moments@),
            unit,
            palette,
            model::home_value(*home),
        ),
{
    let mut out = String::from_str("\n ");
    let place = model::display_path_from(root, home);
    if snapshots.len() == 0 {
        let mut note = String::from_str("no snapshots yet for ");
        note.append(place.as_str());
        out.append(palette.dim(note.as_str()).as_str());
        out.append("\n\n");
        return out;
    }
    out.append(palette.bold("History for").as_str());
    out.append(" ");
    out.append(place.as_str());
    out.append("\n\n");
    let ghost start = out@;
    let ghost whens = strings::texts(moments@);
    let mut at: usize = 0;
    assert(start + Seq::<char>::empty() =~= start);
    while at < snapshots.len()
        invariant
            at <= snapshots@.len() == moments@.len(),
            whens == strings::texts(moments@),
            out@ == start + history_lines(snapshots@, whens, at as nat, unit, palette),
        decreases snapshots@.len() - at,
    {
        let line = write_snapshot(snapshots, at, moments[at].as_str(), unit, palette);
        out.append(line.as_str());
        proof {
            assert(whens[at as int] == moments@[at as int]@);
            assert(out@ =~= start + (history_lines(snapshots@, whens, at as nat, unit, palette)
                + line@));
        }
        at += 1;
    }
    out.append("\n");
    out
}

/// Whether some texts tell when some snapshots were taken, one each.
pub open spec fn tell_moments(texts: Seq<Seq<char>>, snapshots: Seq<Snapshot>, now: u64) -> bool {
    &&& texts.len() == snapshots.len()
    &&& forall|i: int|
        0 <= i < texts.len() ==> timefmt::tells_moment(
            #[trigger] texts[i],
            snapshots[i].taken_at,
            now,
        )
}

/// A history, as a person reads it. It is that of some local times at which the snapshots were
/// taken: which, is up to the machine's time zone.
pub fn history_report(
    root: &FilePath,
    snapshots: &Vec<Snapshot>,
    unit: Unit,
    now: u64,
    palette: Palette,
    home: &Option<FilePath>,
) -> (out: String)
    ensures
        exists|moments: Seq<Seq<char>>|
            tell_moments(moments, snapshots@, now) && out@ == #[trigger] history_text(
                root@,
                snapshots@,
                moments,
                unit,
                palette,
                model::home_value(*home),
            ),
{
    let mut moments: Vec<String> = Vec::new();
    while moments.len() < snapshots.len()
        invariant
            moments@.len() <= snapshots@.len(),
            forall|i: int|
                0 <= i < moments@.len() ==> timefmt::tells_moment(
                    (#[trigger] moments@[i])@,
                    snapshots@[i].taken_at,
                    now,
                ),
        decreases snapshots@.len() - moments@.len(),
    {
        let at: usize = moments.len();
        moments.push(timefmt::moment(snapshots[at].taken_at, now));
    }
    assert(tell_moments(strings::texts(moments@), snapshots@, now));
    history_report_at(root, snapshots, &moments, unit, palette, home)
}

/// Without colour, a style leaves every text as it is.
pub proof fn nobody_looking_no_colour(palette: Palette, code: Seq<char>, text: Seq<char>)
    requires
        !palette.enabled,
    ensures
        styled(palette, code, text) == text,
{
}

/// A signed size starts with its sign, and the sign is the change's.
pub proof fn signs_are_carried(delta: int, unit: Unit)
    ensures
        signed_text(delta, unit).len() > 0,
        signed_text(delta, unit)[0] == if delta < 0 {
            '-'
        } else {
            '+'
        },
{
    reveal_strlit("-");
    reveal_strlit("+");
}

} // verus!
