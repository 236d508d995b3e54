//! The three invocation forms of the tool.

use vstd::prelude::*;

verus! {

/// What one run of the tool does: record a command, clear all logs after
/// confirmation, or display the aggregated summary.
pub enum Cli {
    Log { command: String },
    Clear,
    Display,
}

} // verus!
