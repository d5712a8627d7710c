//! The command line of the timetable tool, as plain values.

use vstd::prelude::*;

verus! {

/// The command line: an optional command.
pub struct Cli {
    pub command: Option<Commands>,
}

/// The commands of the tool.
pub enum Commands {
    /// Parse the timetable in `file` with the specialty configuration in `config`,
    /// writing the schedule to `output`.
    Parse { config: String, file: String, output: Option<String> },
}

} // verus!
