//! The order of the steps that write a file: create the directory that is to
//! hold it, then write. The caller performs each step and reports how it
//! went; `WriteState` decides what comes next.

use vstd::prelude::*;

verus! {

/// Where the writing of a file stands, which is also what the caller has to
/// do next.
#[derive(Debug, PartialEq, Eq)]
pub enum WriteState {
    /// Create the parent directory of the file with every missing ancestor,
    /// and report the outcome.
    CreatingDirs,
    /// Write the content to the file, replacing what it held, and report the
    /// outcome.
    Writing,
    /// Nothing is left to do: this is the result of the whole operation.
    Finished(Result<(), String>),
}

impl WriteState {
    /// The state in which a write starts: with the directories where the
    /// path has a parent, else with the file itself.
    pub open spec fn first(has_parent: bool) -> WriteState {
        if has_parent {
            WriteState::CreatingDirs
        } else {
            WriteState::Writing
        }
    }

    /// The state that follows `self` once the step it asks for ended with
    /// `outcome`. A failure ends the operation at once; so does the write,
    /// however it went. A finished operation stays as it is.
    pub open spec fn next(self, outcome: Result<(), String>) -> WriteState {
        match self {
            WriteState::CreatingDirs => if outcome is Ok {
                WriteState::Writing
            } else {
                WriteState::Finished(outcome)
            },
            WriteState::Writing => WriteState::Finished(outcome),
            WriteState::Finished(_) => self,
        }
    }

    /// Starts a write. `has_parent` tells whether the path of the file has a
    /// parent directory.
    pub fn begin(has_parent: bool) -> (state: WriteState)
        ensures
            state == WriteState::first(has_parent),
    {
        if has_parent {
            WriteState::CreatingDirs
        } else {
            WriteState::Writing
        }
    }

    /// Takes the outcome of the step that `self` asked for and gives the
    /// state that follows.
    pub fn advance(self, outcome: Result<(), String>) -> (state: WriteState)
        ensures
            state == self.next(outcome),
    {
        match self {
            WriteState::CreatingDirs => match outcome {
                Ok(()) => WriteState::Writing,
                Err(message) => WriteState::Finished(Err(message)),
            },
            WriteState::Writing => WriteState::Finished(outcome),
            WriteState::Finished(result) => WriteState::Finished(result),
        }
    }
}

/// A write is over once two steps have been reported, whatever their
/// outcomes.
pub proof fn lemma_write_ends(has_parent: bool, first: Result<(), String>, second: Result<(), String>)
    ensures
        WriteState::first(has_parent).next(first).next(second) is Finished,
{
}

/// Where the directories cannot be created the operation ends with that
/// failure, and the file is never written.
pub proof fn lemma_failed_dirs_end_write(outcome: Result<(), String>)
    requires
        outcome is Err,
    ensures
        WriteState::first(true).next(outcome) == WriteState::Finished(outcome),
{
}

/// The result of a write that went through every step is the outcome of
/// writing the file: success is reported only after the file was written.
pub proof fn lemma_write_result(has_parent: bool, written: Result<(), String>)
    ensures
        has_parent ==> WriteState::first(true).next(Ok(())).next(written) == WriteState::Finished(
            written,
        ),
        !has_parent ==> WriteState::first(false).next(written) == WriteState::Finished(written),
{
}

} // verus!
