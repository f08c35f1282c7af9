//! Reformats CI workflow files: indentation is rescaled to a configured
//! width and blank lines are placed between sibling steps and jobs.

pub mod cli;
pub mod config;
pub mod error;
pub mod fixpoint;
pub mod formatter;
pub mod laws;
pub mod paths;
pub mod printer;
pub mod text;

pub use config::FormatterConfig;
pub use error::FormatError;
pub use formatter::format_string;
pub use printer::{ExitStatus, FileAction, Printer, Stderr, Stdout};
pub use cli::{Cli, ColorChoice, GlobalArgs, StreamChoice};
pub use paths::is_workflow_extension;
