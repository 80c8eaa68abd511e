//! The commands the tool understands, as plain data. The binary parses
//! its command line into these with its own argument-parser types and
//! converts; no argument handling lives here.

use vstd::prelude::*;

verus! {

/// What the user asked for: list the known releases, or install the
/// release best matching a version query.
#[derive(Debug)]
pub enum Command {
    List,
    Install { version: String },
}

/// The parsed command line: the single command to run.
#[derive(Debug)]
pub struct Args {
    pub command: Command,
}

} // verus!
