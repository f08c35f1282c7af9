//! Command-line settings, as plain values.

use vstd::prelude::*;

verus! {

/// Command-line arguments.
pub struct Cli {
    /// Check whether files are formatted, without changing them.
    pub check: bool,
    /// Print the diff of the formatting changes.
    pub diff: bool,
    pub global: GlobalArgs,
}

/// Options shared by all commands.
#[derive(Debug, Clone)]
pub struct GlobalArgs {
    /// Show errors only.
    pub quiet: bool,
    /// When to use color in output.
    pub color: Option<ColorChoice>,
}

/// When to use color in output.
#[derive(Debug, Clone, Copy, PartialEq, Eq, Structural)]
pub enum ColorChoice {
    /// Use colors when output is a terminal.
    Auto,
    /// Always use colors.
    Always,
    /// Never use colors.
    Never,
}

/// The color setting of an output stream, as its four cases.
#[derive(Debug, Clone, Copy, PartialEq, Eq, Structural)]
pub enum StreamChoice {
    /// Colors where the stream appears to support them.
    Auto,
    /// Colors, as ANSI codes only.
    AlwaysAnsi,
    /// Colors.
    Always,
    /// No colors.
    Never,
}

impl ColorChoice {
    /// Combines this choice with the one of the output stream: an explicit
    /// choice stands, `Auto` defers to the stream's.
    #[must_use]
    pub fn and_colorchoice(self, next: StreamChoice) -> (r: Self)
        ensures
            self != ColorChoice::Auto ==> r == self,
            self == ColorChoice::Auto ==> r == match next {
                StreamChoice::Auto => ColorChoice::Auto,
                StreamChoice::Always => ColorChoice::Always,
                StreamChoice::AlwaysAnsi => ColorChoice::Always,
                StreamChoice::Never => ColorChoice::Never,
            },
    {
        match self {
            Self::Auto => match next {
                StreamChoice::Auto => Self::Auto,
                StreamChoice::Always | StreamChoice::AlwaysAnsi => Self::Always,
                StreamChoice::Never => Self::Never,
            },
            Self::Always | Self::Never => self,
        }
    }
}

} // verus!
