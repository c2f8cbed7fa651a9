//! Moving the day files from the directory that older versions used by
//! default. What exists on disk and what the user answers come from the
//! caller; this module decides what to do.

use vstd::prelude::*;

verus! {

/// The user's answer to the question whether to move the files.
#[derive(Clone, Copy, Debug, PartialEq, Eq, Structural)]
pub enum PromtYesNoRemember {
    Yes,
    No,
    NoRemember,
}

impl PromtYesNoRemember {
    /// The answer as offered to the user.
    pub fn label(&self) -> (r: &'static str)
        ensures
            *self == PromtYesNoRemember::Yes ==> r@ == "Yes"@,
            *self == PromtYesNoRemember::No ==> r@ == "No"@,
            *self == PromtYesNoRemember::NoRemember ==> r@ == "No (don't ask again)"@,
    {
        match self {
            PromtYesNoRemember::Yes => "Yes",
            PromtYesNoRemember::No => "No",
            PromtYesNoRemember::NoRemember => "No (don't ask again)",
        }
    }
}

/// What to do next about the old directory.
#[derive(Clone, Copy, Debug, PartialEq, Eq, Structural)]
pub enum MigrationStep {
    /// Nothing to move, or the user asked not to be asked again.
    Done,
    /// Ask the user.
    Ask,
    /// Leave the files where they are, this time.
    Keep,
    /// Leave the files and write the marker that stops the question.
    Remember,
    /// Move the old directory to the new place.
    Move,
}

/// The next step of the move: `home` tells whether there is a home
/// directory, `old_exists` whether it holds the old directory, `ignored`
/// whether that holds the marker, and `answer` what the user said, if asked.
pub fn migrate(
    home: bool,
    old_exists: bool,
    ignored: bool,
    answer: Option<PromtYesNoRemember>,
) -> (r: MigrationStep)
    ensures
        !home || !old_exists || ignored ==> r == MigrationStep::Done,
        home && old_exists && !ignored ==> r == match answer {
            None => MigrationStep::Ask,
            Some(PromtYesNoRemember::Yes) => MigrationStep::Move,
            Some(PromtYesNoRemember::No) => MigrationStep::Keep,
            Some(PromtYesNoRemember::NoRemember) => MigrationStep::Remember,
        },
{
    if !home || !old_exists || ignored {
        return MigrationStep::Done;
    }
    match answer {
        None => MigrationStep::Ask,
        Some(PromtYesNoRemember::Yes) => MigrationStep::Move,
        Some(PromtYesNoRemember::No) => MigrationStep::Keep,
        Some(PromtYesNoRemember::NoRemember) => MigrationStep::Remember,
    }
}

} // verus!
