//! What the flags of a command line stand for, and what the smallest pieces of a picture are.

use vstd::prelude::*;
use crate::canvas::HalfCell;
use crate::cli::Cli;
use crate::commands;
use crate::explorer;
use crate::explorer::Glyph;
use crate::path::FilePath;
use crate::scan::ScanOptions;
use crate::size::{SizeKind, Unit};

verus! {

/// Space on disk and decimal units are what is shown unless something else is asked for.
pub proof fn flags_choose_figures(cli: &Cli, kind: SizeKind, unit: Unit)
    requires
        call_ensures(Cli::size_kind, (cli,), kind),
        call_ensures(Cli::unit, (cli,), unit),
    ensures
        kind == SizeKind::Apparent <==> cli.apparent,
        kind == SizeKind::Allocated <==> !cli.apparent,
        unit == Unit::Binary <==> cli.binary,
        unit == Unit::Decimal <==> !cli.binary,
{
}

/// Hard links are counted once and remote filesystems are passed over unless it is asked for
/// otherwise; a scan crosses filesystems and goes all the way down unless it is held back.
pub proof fn flags_choose_the_scan(cli: &Cli, options: ScanOptions)
    requires
        call_ensures(Cli::scan_options, (cli,), options),
    ensures
        options.dedup_hardlinks <==> !cli.count_hardlinks,
        options.skip_remote <==> !cli.remote,
        options.one_file_system <==> cli.one_file_system,
        options.max_depth == cli.depth,
{
}

/// What is compared is the place that is given, or else the one that was looked at last, or else the
/// home directory.
pub proof fn comparisons_find_their_place(
    given: Option<FilePath>,
    most_recent: Option<FilePath>,
    home: Option<FilePath>,
    root: Option<FilePath>,
)
    requires
        call_ensures(commands::resolve_diff_root, (given, most_recent, home), root),
    ensures
        given is Some ==> root == given,
        given is None && most_recent is Some ==> root == most_recent,
        given is None && most_recent is None ==> root == home,
{
}

/// A cell shows its upper pixel above its lower one, and nothing where it has neither.
pub proof fn cells_show_two_pixels(cell: HalfCell, out: Glyph)
    requires
        call_ensures(explorer::glyph, (cell,), out),
    ensures
        cell.top is None && cell.bottom is None ==> out.letter == ' ',
        cell.top is None && cell.bottom is Some ==> out.letter == '▄' && out.front == cell.bottom
            && out.back is None,
        cell.top is Some ==> out.letter == '▀' && out.front == cell.top && out.back
            == cell.bottom,
{
}

} // verus!
