//! Errors that stop a program from loading.

use vstd::prelude::*;

verus! {

/// The stage of loading an error belongs to.
#[derive(Clone, Copy, Debug, PartialEq, Eq, Structural)]
pub enum Phase {
    /// Resolving and reading modules and packages.
    Module,
    /// Parsing a module's source.
    Parse,
    /// Compiling the parsed program.
    Compile,
}

/// A load failure: the phase it happened in and what went wrong.
#[derive(Clone, Debug)]
pub struct LoadError {
    pub phase: Phase,
    pub message: String,
}

impl LoadError {
    /// An error of `phase` carrying `message`.
    pub fn message(phase: Phase, message: String) -> (e: LoadError)
        ensures
            e.phase == phase,
            e.message@ == message@,
    {
        LoadError { phase, message }
    }

    /// The error as text: its message.
    pub fn to_string(&self) -> (s: String)
        ensures
            s@ == self.message@,
    {
        self.message.clone()
    }
}

} // verus!
