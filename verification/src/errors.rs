//! The failures that abort a batch before or during planning.

use vstd::prelude::*;
use vstd::string::*;

verus! {

/// Why parsing or planning a batch failed.  Every failure aborts the whole
/// batch: nothing is planned and nothing may be executed.
#[derive(Debug)]
pub enum PlanError {
    /// The same path appears twice within a single listing.
    DuplicatePath(String),
    /// Original and modified listings differ in entry count; creation and
    /// deletion are unsupported.
    CountMismatch,
    /// A computed destination already exists and automatic renaming is
    /// disabled.
    DestinationExists(String),
    /// A destination's ancestor directories are missing and directory
    /// creation is disabled.
    MissingDirectories(String),
}

/// The abstract value of a [`PlanError`].
pub ghost enum PlanErrorV {
    DuplicatePath(Seq<char>),
    CountMismatch,
    DestinationExists(Seq<char>),
    MissingDirectories(Seq<char>),
}

impl View for PlanError {
    type V = PlanErrorV;

    open spec fn view(&self) -> PlanErrorV {
        match self {
            PlanError::DuplicatePath(p) => PlanErrorV::DuplicatePath(p@),
            PlanError::CountMismatch => PlanErrorV::CountMismatch,
            PlanError::DestinationExists(p) => PlanErrorV::DestinationExists(p@),
            PlanError::MissingDirectories(p) => PlanErrorV::MissingDirectories(p@),
        }
    }
}

/// The message text that describes an error value.
pub open spec fn message_of(e: PlanErrorV) -> Seq<char> {
    match e {
        PlanErrorV::DuplicatePath(p) => "duplicate path: "@ + p,
        PlanErrorV::CountMismatch => "original and modified listings differ in length"@,
        PlanErrorV::DestinationExists(p) => "destination already exists: "@ + p,
        PlanErrorV::MissingDirectories(p) => "directories do not exist for: "@ + p,
    }
}

impl PlanError {
    /// A line of text describing the failure.
    pub fn describe(&self) -> (r: String)
        ensures
            r@ == message_of(self@),
    {
        match self {
            PlanError::DuplicatePath(p) => String::from_str("duplicate path: ").concat(
                p.as_str(),
            ),
            PlanError::CountMismatch => String::from_str(
                "original and modified listings differ in length",
            ),
            PlanError::DestinationExists(p) => String::from_str(
                "destination already exists: ",
            ).concat(p.as_str()),
            PlanError::MissingDirectories(p) => String::from_str(
                "directories do not exist for: ",
            ).concat(p.as_str()),
        }
    }
}

} // verus!
