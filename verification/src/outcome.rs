//! The structured results of a bump: the per-item error kinds, the plan a
//! bump computes for one migration, and the report of a completed bump.

use vstd::prelude::*;

verus! {

/// Why an operation on one migration failed. The scanning and rewriting
/// variants are produced by the library itself; `DirectoryNotFound`,
/// `ReadError` and `WriteError` also arise at the I/O boundary around it.
#[derive(Clone, Copy, Debug, PartialEq, Eq, Structural)]
pub enum BumpError {
    /// The migration directory could not be listed.
    DirectoryNotFound,
    /// The segment before the first `_` of the requested filename is not a
    /// sequence id.
    NonNumericPrefix,
    /// The scanned sequence is empty, so there is no last migration.
    NoLastMigration,
    /// The requested filename is not among the scanned entries.
    MigrationNotFound,
    /// The target is so early in the sequence that it has no predecessor
    /// under the tie-break rule.
    PredecessorIndex,
    /// The target file could not be read.
    ReadError,
    /// The rewritten content could not be written back.
    WriteError,
    /// The file could not be renamed to its bumped name.
    RenameError,
}

/// Mathematical model of a bump plan.
pub ghost struct PlanModel {
    pub new_id: int,
    pub old_name: Seq<char>,
    pub new_name: Seq<char>,
}

/// What one bump intends to do: assign the next free sequence id and rename
/// the target accordingly.
#[derive(Debug, PartialEq, Eq)]
pub struct BumpPlan {
    pub new_id: i64,
    pub old_name: String,
    pub new_name: String,
}

impl View for BumpPlan {
    type V = PlanModel;

    open spec fn view(&self) -> PlanModel {
        PlanModel {
            new_id: self.new_id as int,
            old_name: self.old_name@,
            new_name: self.new_name@,
        }
    }
}

/// Mathematical model of a bump report.
pub ghost struct ReportModel {
    pub old_name: Seq<char>,
    pub new_name: Seq<char>,
}

/// The outcome of one completed bump: which file was moved, and to which
/// name.
#[derive(Debug, PartialEq, Eq)]
pub struct BumpReport {
    pub old_name: String,
    pub new_name: String,
}

impl View for BumpReport {
    type V = ReportModel;

    open spec fn view(&self) -> ReportModel {
        ReportModel { old_name: self.old_name@, new_name: self.new_name@ }
    }
}

} // verus!
