//! Errors of timer plans and timer runs.
use vstd::prelude::*;

verus! {

/// What can go wrong while loading a plan or running a timer.
#[derive(Debug, PartialEq, Eq)]
pub enum TimerError {
    /// A path to a plan that cannot be found.
    InvalidPath { path: String },
    /// A plan file that cannot be opened or read.
    InvalidFile { file: String },
    /// A plan line that breaks the line grammar.
    InvalidParse { line: String },
    /// A command-line argument out of its accepted range.
    InvalidArgument { arg: String },
    /// A file-system error, by the name of its kind.
    Io { kind: String },
    /// The audio output failed to play a sound, with its description.
    Playback { error: String },
    /// The audio output stream could not be opened, with its description.
    Stream { error: String },
}

} // verus!
