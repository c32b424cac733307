use vstd::prelude::*;

verus! {

/// What a run does with a configuration file whose references are out of date.
#[derive(Clone, Copy, Debug, PartialEq, Eq, Structural)]
pub enum Action {
    /// Overwrite the references in place.
    Write,
    /// Report the file and leave it untouched.
    Lint,
}

} // verus!
