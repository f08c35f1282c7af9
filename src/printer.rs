//! Where messages go: which streams are open under the chosen verbosity.

use vstd::prelude::*;

verus! {

/// How much the program prints.
#[derive(Debug, Clone, Copy, PartialEq, Eq, Structural)]
pub enum Printer {
    /// Errors only.
    Quiet,
    /// Progress and errors.
    Default,
}

/// The standard output stream, open or silenced.
#[derive(Debug, Clone, Copy, PartialEq, Eq, Structural)]
pub enum Stdout {
    Enabled,
    Disabled,
}

/// The standard error stream, always open.
#[derive(Debug, Clone, Copy, PartialEq, Eq, Structural)]
pub struct Stderr;

impl Printer {
    /// Standard output: silenced when quiet.
    pub fn stdout(self) -> (r: Stdout)
        ensures
            r == (if self == Printer::Quiet {
                Stdout::Disabled
            } else {
                Stdout::Enabled
            }),
    {
        match self {
            Self::Quiet => Stdout::Disabled,
            Self::Default => Stdout::Enabled,
        }
    }

    /// Standard error: open whatever the verbosity.
    pub fn stderr(self) -> (r: Stderr)
        ensures
            r == Stderr,
    {
        Stderr
    }
}

/// How a run ends.
#[derive(Debug, Clone, Copy, PartialEq, Eq, Structural)]
pub enum ExitStatus {
    /// Nothing failed (and, when checking, nothing needed reformatting).
    Success,
    /// Checking found files that would be reformatted.
    Failure,
    /// A file could not be read, formatted or written.
    Error,
}

impl ExitStatus {
    /// The status of a run over all files: any error wins; otherwise a check
    /// that found a file to reformat fails.
    pub fn of_run(any_error: bool, check: bool, any_changed: bool) -> (r: ExitStatus)
        ensures
            r == (if any_error {
                ExitStatus::Error
            } else if check && any_changed {
                ExitStatus::Failure
            } else {
                ExitStatus::Success
            }),
    {
        if any_error {
            ExitStatus::Error
        } else if check && any_changed {
            ExitStatus::Failure
        } else {
            ExitStatus::Success
        }
    }

    /// The process exit code: 0, 1 or 2.
    pub fn code(self) -> (r: u8)
        ensures
            r == match self {
                ExitStatus::Success => 0u8,
                ExitStatus::Failure => 1u8,
                ExitStatus::Error => 2u8,
            },
    {
        match self {
            ExitStatus::Success => 0,
            ExitStatus::Failure => 1,
            ExitStatus::Error => 2,
        }
    }
}

/// What to do with a file once it has been formatted.
#[derive(Debug, Clone, Copy, PartialEq, Eq, Structural)]
pub enum FileAction {
    /// Already formatted: nothing to do.
    Unchanged,
    /// Report that the file would be reformatted.
    ReportOnly,
    /// Print the diff of the changes.
    ShowDiff,
    /// Write the formatted text back.
    Write,
}

impl FileAction {
    /// The action for a file: none when formatting changed nothing; else a
    /// report in check mode, a diff in diff mode, a write otherwise.
    pub fn for_file(changed: bool, check: bool, diff: bool) -> (r: FileAction)
        ensures
            r == (if !changed {
                FileAction::Unchanged
            } else if check {
                FileAction::ReportOnly
            } else if diff {
                FileAction::ShowDiff
            } else {
                FileAction::Write
            }),
    {
        if !changed {
            FileAction::Unchanged
        } else if check {
            FileAction::ReportOnly
        } else if diff {
            FileAction::ShowDiff
        } else {
            FileAction::Write
        }
    }

    /// Whether the file counts as changed in the run's status.
    pub fn counts_as_changed(self) -> (r: bool)
        ensures
            r == (self != FileAction::Unchanged),
    {
        !matches!(self, FileAction::Unchanged)
    }
}

} // verus!
