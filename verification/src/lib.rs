//! Renumbers ordered migration files so that a chosen migration moves to the
//! end of the sequence: scan a directory listing for `<id>_<name>` entries,
//! sort them by id, rewrite the target file's dependency reference to point
//! at the current last entry, and rename the target to the next free id.
//!
//! The directory is modelled as an explicit snapshot (`FileEntry` list), so
//! the whole pipeline is pure and verified; the binary around the library
//! performs the actual file I/O.

pub mod bumper;
pub mod outcome;
pub mod rewriter;
pub mod scanner;
pub mod text;

pub use bumper::FileEntry;
pub use bumper::bump;
pub use bumper::bump_migration;
pub use bumper::bump_migration_plan;
pub use bumper::update_name;
pub use outcome::BumpError;
pub use outcome::BumpPlan;
pub use outcome::BumpReport;
pub use rewriter::update_dependency;
pub use scanner::Migration;
pub use scanner::collect_migrations;
pub use scanner::parse_migration_number;
pub use scanner::sort_migrations;
pub use text::replace_all;
pub use text::replace_first;
pub use text::strip_extension;
