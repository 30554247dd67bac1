//! What the command line asks for.

use vstd::prelude::*;
use crate::path::FilePath;
use crate::scan::ScanOptions;
use crate::size::{SizeKind, Unit};

verus! {

/// The flags and the argument that every mode shares.
#[derive(Debug)]
pub struct Cli {
    /// Directory to scan. Omit to choose from your mounted disks.
    pub path: Option<FilePath>,
    /// Show only the N largest entries, grouping the rest as "Other".
    pub top: usize,
    /// Keep only N levels of the tree. Sizes stay exact either way.
    pub depth: Option<usize>,
    /// Show device names, filesystem types and mount details.
    pub details: bool,
    /// List every mounted filesystem, pseudo-filesystems included.
    pub filesystems: bool,
    /// Report inode usage instead of bytes.
    pub inodes: bool,
    /// Script-friendly output, no TUI.
    pub plain: bool,
    /// Structured output for integrations.
    pub json: bool,
    /// Count file lengths (ls) instead of blocks actually used (du).
    pub apparent: bool,
    /// Use GiB/MiB instead of GB/MB.
    pub binary: bool,
    /// Do not cross into other mounted filesystems.
    pub one_file_system: bool,
    /// Count hard-linked files once per link instead of once per inode.
    pub count_hardlinks: bool,
    /// Include pseudo-filesystems in the disk list.
    pub all: bool,
    /// Walk network filesystems too.
    pub remote: bool,
    /// Disable deleting entirely.
    pub read_only: bool,
    /// Do not record this scan in the history.
    pub no_snapshot: bool,
}

impl Default for Cli {
    /// What a bare invocation asks for: no path, the twenty largest entries, and no flags.
    fn default() -> (cli: Cli)
        ensures
            cli == (Cli {
                path: None,
                top: 20,
                depth: None,
                details: false,
                filesystems: false,
                inodes: false,
                plain: false,
                json: false,
                apparent: false,
                binary: false,
                one_file_system: false,
                count_hardlinks: false,
                all: false,
                remote: false,
                read_only: false,
                no_snapshot: false,
            }),
    {
        Cli {
            path: None,
            top: 20,
            depth: None,
            details: false,
            filesystems: false,
            inodes: false,
            plain: false,
            json: false,
            apparent: false,
            binary: false,
            one_file_system: false,
            count_hardlinks: false,
            all: false,
            remote: false,
            read_only: false,
            no_snapshot: false,
        }
    }
}

/// What a run without a subcommand does.
#[derive(Copy, Clone, Debug, PartialEq, Eq, Structural)]
pub enum Mode {
    /// The interactive view.
    Interactive,
    /// Inode counts: of the volume that holds the path, or of every one listed.
    Inodes,
    /// A table of filesystems, with or without their details.
    Filesystems { details: bool },
    /// The filesystems, structured.
    FilesystemsJson,
    /// The scanned tree, structured.
    ScanJson,
    /// The scanned tree in lines, with or without the volume's details after it.
    ScanPlain { details: bool },
}

/// What a run does: text where text is asked for or nobody is looking. `--filesystems` and
/// `--inodes` are about the volume, not the tree, so they skip the scan.
pub open spec fn mode_of(cli: Cli, is_terminal: bool) -> Mode {
    if is_terminal && !asks_for_text(cli) {
        Mode::Interactive
    } else if cli.path is Some {
        if cli.inodes {
            Mode::Inodes
        } else if cli.filesystems {
            Mode::Filesystems { details: true }
        } else if cli.json {
            Mode::ScanJson
        } else {
            Mode::ScanPlain { details: cli.details }
        }
    } else {
        if cli.json {
            Mode::FilesystemsJson
        } else if cli.inodes {
            Mode::Inodes
        } else {
            Mode::Filesystems { details: cli.details || cli.filesystems }
        }
    }
}

/// Whether text was asked for rather than the interactive view.
pub open spec fn asks_for_text(cli: Cli) -> bool {
    cli.plain || cli.json || cli.filesystems || cli.inodes
}

impl Cli {
    pub fn size_kind(&self) -> (kind: SizeKind)
        ensures
            kind == if self.apparent {
                SizeKind::Apparent
            } else {
                SizeKind::Allocated
            },
    {
        if self.apparent {
            SizeKind::Apparent
        } else {
            SizeKind::Allocated
        }
    }

    pub fn unit(&self) -> (unit: Unit)
        ensures
            unit == if self.binary {
                Unit::Binary
            } else {
                Unit::Decimal
            },
    {
        if self.binary {
            Unit::Binary
        } else {
            Unit::Decimal
        }
    }

    pub fn scan_options(&self) -> (options: ScanOptions)
        ensures
            options == (ScanOptions {
                one_file_system: self.one_file_system,
                max_depth: self.depth,
                dedup_hardlinks: !self.count_hardlinks,
                skip_remote: !self.remote,
            }),
    {
        ScanOptions {
            one_file_system: self.one_file_system,
            max_depth: self.depth,
            dedup_hardlinks: !self.count_hardlinks,
            skip_remote: !self.remote,
        }
    }

    /// True when the user asked for text rather than the interactive view.
    pub fn wants_text_output(&self) -> (yes: bool)
        ensures
            yes == asks_for_text(*self),
    {
        self.plain || self.json || self.filesystems || self.inodes
    }

    /// Whether a scan may be recorded. One that was capped at a depth is not the whole tree, and
    /// every later comparison against it would be wrong.
    pub fn may_snapshot(&self) -> (yes: bool)
        ensures
            yes == (!self.no_snapshot && self.depth is None),
    {
        !self.no_snapshot && self.depth.is_none()
    }

    /// What a run without a subcommand does. A pipe or a file gets text, never escape codes, whether
    /// or not the user remembered `--plain`.
    pub fn mode(&self, is_terminal: bool) -> (mode: Mode)
        ensures
            mode == mode_of(*self, is_terminal),
    {
        if is_terminal && !self.wants_text_output() {
            return Mode::Interactive;
        }
        match &self.path {
            Some(_) => if self.inodes {
                Mode::Inodes
            } else if self.filesystems {
                Mode::Filesystems { details: true }
            } else if self.json {
                Mode::ScanJson
            } else {
                Mode::ScanPlain { details: self.details }
            },
            None => if self.json {
                Mode::FilesystemsJson
            } else if self.inodes {
                Mode::Inodes
            } else {
                Mode::Filesystems { details: self.details || self.filesystems }
            },
        }
    }

    /// Whether pseudo-filesystems are listed: `--filesystems` is the "show me everything" switch.
    pub fn lists_everything(&self) -> (yes: bool)
        ensures
            yes == (self.all || self.filesystems),
    {
        self.all || self.filesystems
    }

    /// Whether watching prints a line per interval, forever, rather than taking over the terminal.
    pub fn watches_in_lines(&self, is_terminal: bool) -> (yes: bool)
        ensures
            yes == watched_in_lines(*self, is_terminal),
    {
        !is_terminal || self.plain
    }
}

/// Whether watching prints a line per interval rather than taking over the terminal.
pub open spec fn watched_in_lines(cli: Cli, is_terminal: bool) -> bool {
    !is_terminal || cli.plain
}

/// Piping switches to text by itself, and `--plain` does so anywhere: then there is no interactive
/// view.
pub proof fn pipes_get_text(cli: Cli, is_terminal: bool)
    requires
        !is_terminal || cli.plain,
    ensures
        !(mode_of(cli, is_terminal) is Interactive),
        watched_in_lines(cli, is_terminal),
{
}

} // verus!
