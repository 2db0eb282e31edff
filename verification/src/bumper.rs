//! The bump pipeline: planning the new id and name for a target migration,
//! and orchestrating scan, sort, rewrite and rename over a directory
//! snapshot. Each requested migration is processed independently; a failure
//! stops only that item.

use vstd::prelude::*;

use crate::outcome::BumpError;
use crate::outcome::BumpPlan;
use crate::outcome::BumpReport;
use crate::outcome::PlanModel;
use crate::outcome::ReportModel;
use crate::rewriter::rewrite_result;
use crate::rewriter::update_dependency;
use crate::scanner::EntryModel;
use crate::scanner::Migration;
use crate::scanner::collect_migrations;
use crate::scanner::entry_models;
use crate::scanner::id_of;
use crate::scanner::id_prefix;
use crate::scanner::insert_by_id;
use crate::scanner::is_migration_name;
use crate::scanner::name_views;
use crate::scanner::scan_spec;
use crate::scanner::sort_by_id;
use crate::scanner::sort_migrations;
use crate::scanner::sorted_by_id;
use crate::text::dec_str;
use crate::text::int_to_string;
use crate::text::lemma_digits_value_nonneg;
use crate::text::replace_first;
use crate::text::replace_first_spec;
use crate::scanner::parse_migration_number;

verus! {

// ---------------------------------------------------------------------------
// Facts about scanned and sorted sequences
// ---------------------------------------------------------------------------

/// Every id of the sequence is non-negative (as every scanned id is).
pub open spec fn ids_nonneg(s: Seq<EntryModel>) -> bool {
    forall|k: int| 0 <= k < s.len() ==> (#[trigger] s[k]).id >= 0
}

/// Scanned ids are parsed digit strings, so they are never negative.
pub proof fn lemma_scan_ids_nonneg(names: Seq<Seq<char>>)
    ensures
        ids_nonneg(scan_spec(names)),
    decreases names.len(),
{
    if names.len() > 0 {
        lemma_scan_ids_nonneg(names.drop_last());
        let rest = scan_spec(names.drop_last());
        let out = scan_spec(names);
        if is_migration_name(names.last()) {
            lemma_digits_value_nonneg(id_prefix(names.last()));
            assert forall|k: int| 0 <= k < out.len() implies (#[trigger] out[k]).id >= 0 by {
                if k < rest.len() {
                    assert(out[k] == rest[k]);
                }
            }
        }
    }
}

/// Insertion keeps ids non-negative.
pub proof fn lemma_insert_ids_nonneg(s: Seq<EntryModel>, m: EntryModel)
    requires
        ids_nonneg(s),
        m.id >= 0,
    ensures
        ids_nonneg(insert_by_id(s, m)),
    decreases s.len(),
{
    let out = insert_by_id(s, m);
    if s.len() == 0 {
        assert(out == seq![m]);
        assert(ids_nonneg(out)) by {
            assert(out[0] == m);
        }
    } else if s.last().id <= m.id {
        assert forall|k: int| 0 <= k < out.len() implies (#[trigger] out[k]).id >= 0 by {
            if k < s.len() {
                assert(out[k] == s[k]);
            } else {
                assert(out[k] == m);
            }
        }
    } else {
        let t = s.drop_last();
        assert(ids_nonneg(t)) by {
            assert forall|k: int| 0 <= k < t.len() implies (#[trigger] t[k]).id >= 0 by {
                assert(t[k] == s[k]);
            }
        }
        lemma_insert_ids_nonneg(t, m);
        let r0 = insert_by_id(t, m);
        assert forall|k: int| 0 <= k < out.len() implies (#[trigger] out[k]).id >= 0 by {
            if k < r0.len() {
                assert(out[k] == r0[k]);
            } else {
                assert(out[k] == s.last());
            }
        }
    }
}

/// Sorting keeps ids non-negative.
pub proof fn lemma_sort_ids_nonneg(s: Seq<EntryModel>)
    requires
        ids_nonneg(s),
    ensures
        ids_nonneg(sort_by_id(s)),
    decreases s.len(),
{
    if s.len() > 0 {
        let t = s.drop_last();
        assert(ids_nonneg(t)) by {
            assert forall|k: int| 0 <= k < t.len() implies (#[trigger] t[k]).id >= 0 by {
                assert(t[k] == s[k]);
            }
        }
        lemma_sort_ids_nonneg(t);
        assert(s.last().id >= 0);
        lemma_insert_ids_nonneg(sort_by_id(t), s.last());
    }
}

/// The greatest id in the sequence (0 for an empty sequence).
pub open spec fn max_id(s: Seq<EntryModel>) -> int
    decreases s.len(),
{
    if s.len() <= 1 {
        if s.len() == 1 {
            s[0].id
        } else {
            0
        }
    } else {
        let m = max_id(s.drop_last());
        if s.last().id >= m {
            s.last().id
        } else {
            m
        }
    }
}

/// In a sorted sequence, the last entry carries the greatest id.
pub proof fn lemma_sorted_last_is_max(s: Seq<EntryModel>)
    requires
        sorted_by_id(s),
        s.len() > 0,
    ensures
        s.last().id == max_id(s),
    decreases s.len(),
{
    if s.len() > 1 {
        let t = s.drop_last();
        assert(sorted_by_id(t)) by {
            assert forall|i: int, j: int| 0 <= i < j < t.len() implies #[trigger] t[i].id
                <= #[trigger] t[j].id by {
                assert(t[i] == s[i]);
                assert(t[j] == s[j]);
            }
        }
        lemma_sorted_last_is_max(t);
        assert(t.last() == s[s.len() - 2]);
        assert(s[s.len() - 2].id <= s[s.len() - 1].id);
    }
}

/// Insertion extends the greatest id by exactly the inserted one.
pub proof fn lemma_insert_max(t: Seq<EntryModel>, m: EntryModel)
    ensures
        t.len() == 0 ==> max_id(insert_by_id(t, m)) == m.id,
        t.len() > 0 ==> max_id(insert_by_id(t, m)) == (if m.id >= max_id(t) {
            m.id
        } else {
            max_id(t)
        }),
    decreases t.len(),
{
    if t.len() == 0 {
        assert(insert_by_id(t, m) == seq![m]);
        assert(max_id(seq![m]) == m.id);
    } else if t.last().id <= m.id {
        let r = t.push(m);
        assert(r.drop_last() =~= t);
        assert(r.last() == m);
        if t.len() == 1 {
            assert(max_id(t) == t[0].id);
        }
    } else {
        let dl = t.drop_last();
        lemma_insert_max(dl, m);
        let r0 = insert_by_id(dl, m);
        let r = r0.push(t.last());
        assert(insert_by_id(t, m) == r);
        assert(r.drop_last() =~= r0);
        assert(r.last() == t.last());
        if dl.len() == 0 {
            assert(r0 == seq![m]);
            assert(r.len() == 2);
            assert(max_id(r0) == m.id);
            assert(max_id(t) == t[0].id);
            assert(t[0] == t.last());
        } else {
            assert(t.len() >= 2);
            assert(max_id(t) == (if t.last().id >= max_id(dl) {
                t.last().id
            } else {
                max_id(dl)
            }));
            assert(r0.len() >= 1);
            assert(max_id(r) == (if t.last().id >= max_id(r0) {
                t.last().id
            } else {
                max_id(r0)
            })) by {
                assert(r.len() >= 2);
            }
        }
    }
}

/// Sorting does not change the greatest id.
pub proof fn lemma_sort_same_max(s: Seq<EntryModel>)
    requires
        s.len() > 0,
    ensures
        max_id(sort_by_id(s)) == max_id(s),
    decreases s.len(),
{
    let dl = s.drop_last();
    if dl.len() == 0 {
        assert(sort_by_id(dl) == Seq::<EntryModel>::empty());
        assert(sort_by_id(s) == insert_by_id(Seq::<EntryModel>::empty(), s.last()));
        assert(sort_by_id(s) == seq![s.last()]);
        assert(max_id(seq![s.last()]) == s.last().id);
        assert(max_id(s) == s[0].id);
        assert(s[0] == s.last());
    } else {
        lemma_sort_same_max(dl);
        crate::scanner::lemma_sort_sorted(dl);
        lemma_insert_max(sort_by_id(dl), s.last());
        assert(sort_by_id(dl).len() == dl.len());
        assert(max_id(s) == (if s.last().id >= max_id(dl) {
            s.last().id
        } else {
            max_id(dl)
        }));
    }
}

// ---------------------------------------------------------------------------
// Planning one bump
// ---------------------------------------------------------------------------

/// The plan for bumping the migration named `name`, given the sorted
/// sequence `ms`: the target's own id must parse, the sequence must be
/// non-empty, and then the new id is one past the last entry's id, with the
/// new filename formed by replacing the first occurrence of the old id's
/// digits in the filename by the new id's digits.
pub open spec fn plan_spec(ms: Seq<EntryModel>, name: Seq<char>) -> Result<PlanModel, BumpError> {
    if !is_migration_name(name) {
        Err(BumpError::NonNumericPrefix)
    } else if ms.len() == 0 {
        Err(BumpError::NoLastMigration)
    } else {
        let new_id = ms.last().id + 1;
        Ok(
            PlanModel {
                new_id: new_id,
                old_name: name,
                new_name: replace_first_spec(name, dec_str(id_of(name)), dec_str(new_id)),
            },
        )
    }
}

/// Compute the plan for bumping `migration_name` against the sorted
/// sequence `migrations`: its new id (one past the last entry's) and its
/// new filename. When the input is sorted, the new id is exactly the
/// greatest existing id plus one. The ids are required to be non-negative,
/// as every id the scanner produces is.
pub fn bump_migration_plan(migrations: &Vec<Migration>, migration_name: &String) -> (r: Result<
    BumpPlan,
    BumpError,
>)
    requires
        ids_nonneg(entry_models(migrations@)),
    ensures
        ({
            let spec_r = plan_spec(entry_models(migrations@), migration_name@);
            match r {
                Ok(p) => spec_r == Ok::<PlanModel, BumpError>(p@),
                Err(e) => spec_r == Err::<PlanModel, BumpError>(e),
            }
        }),
        sorted_by_id(entry_models(migrations@)) ==> (match r {
            Ok(p) => p@.new_id == max_id(entry_models(migrations@)) + 1,
            Err(_) => true,
        }),
{
    let ghost ms = entry_models(migrations@);
    let number = match parse_migration_number(migration_name.as_str()) {
        Some(v) => v,
        None => {
            return Err(BumpError::NonNumericPrefix);
        },
    };
    let n = migrations.len();
    if n == 0 {
        return Err(BumpError::NoLastMigration);
    }
    let last_number = migrations[n - 1].number;
    proof {
        assert(ms[n - 1].id == last_number as int);
        assert(ms.last().id >= 0);
        assert(is_migration_name(migration_name@));
        lemma_digits_value_nonneg(id_prefix(migration_name@));
    }
    let new_id: i64 = last_number as i64 + 1;
    let old_id_str = int_to_string(number as i64);
    let new_id_str = int_to_string(new_id);
    let new_name = replace_first(migration_name.as_str(), old_id_str.as_str(), new_id_str.as_str());
    proof {
        if sorted_by_id(ms) {
            lemma_sorted_last_is_max(ms);
        }
    }
    Ok(BumpPlan { new_id, old_name: migration_name.clone(), new_name })
}

/// The bumped id exceeds every id in the (sorted) sequence, so a bump never
/// decreases any existing id's relative order.
pub proof fn lemma_new_id_exceeds_all(ms: Seq<EntryModel>, name: Seq<char>)
    requires
        sorted_by_id(ms),
    ensures
        match plan_spec(ms, name) {
            Ok(p) => forall|k: int| 0 <= k < ms.len() ==> (#[trigger] ms[k]).id < p.new_id,
            Err(_) => true,
        },
{
    match plan_spec(ms, name) {
        Ok(p) => {
            assert forall|k: int| 0 <= k < ms.len() implies (#[trigger] ms[k]).id < p.new_id by {
                if k < ms.len() - 1 {
                    assert(ms[k].id <= ms[ms.len() - 1].id);
                }
            }
        },
        Err(_) => {},
    }
}

// ---------------------------------------------------------------------------
// The directory snapshot
// ---------------------------------------------------------------------------

/// Mathematical model of one file.
pub ghost struct FileModel {
    pub name: Seq<char>,
    pub content: Seq<char>,
}

/// One file of the directory snapshot the bump operates on.
#[derive(Debug, PartialEq, Eq)]
pub struct FileEntry {
    pub name: String,
    pub content: String,
}

impl View for FileEntry {
    type V = FileModel;

    open spec fn view(&self) -> FileModel {
        FileModel { name: self.name@, content: self.content@ }
    }
}

/// Models of a directory snapshot.
pub open spec fn file_models(s: Seq<FileEntry>) -> Seq<FileModel> {
    s.map_values(|f: FileEntry| f@)
}

/// The filenames of a directory snapshot, in listing order.
pub open spec fn listing_of(dir: Seq<FileModel>) -> Seq<Seq<char>> {
    dir.map_values(|f: FileModel| f.name)
}

/// Index of the first file named `name`, or -1 when there is none.
pub open spec fn find_file(dir: Seq<FileModel>, name: Seq<char>) -> int
    decreases dir.len(),
{
    if dir.len() == 0 {
        -1
    } else if dir[0].name == name {
        0
    } else {
        let r = find_file(dir.drop_first(), name);
        if r < 0 {
            -1
        } else {
            r + 1
        }
    }
}

pub proof fn lemma_find_file(dir: Seq<FileModel>, name: Seq<char>)
    ensures
        find_file(dir, name) >= -1,
        find_file(dir, name) >= 0 ==> find_file(dir, name) < dir.len() && dir[find_file(
            dir,
            name,
        )].name == name,
        forall|k: int| 0 <= k < find_file(dir, name) ==> (#[trigger] dir[k]).name != name,
        find_file(dir, name) == -1 ==> forall|k: int|
            0 <= k < dir.len() ==> (#[trigger] dir[k]).name != name,
    decreases dir.len(),
{
    if dir.len() > 0 && dir[0].name != name {
        let t = dir.drop_first();
        lemma_find_file(t, name);
        assert forall|k: int| 1 <= k < dir.len() implies dir[k] == t[k - 1] by {}
    }
}

/// Position of the first snapshot entry named `name`.
pub fn find_entry(dir: &Vec<FileEntry>, name: &String) -> (r: Option<usize>)
    ensures
        match r {
            Some(i) => i as int == find_file(file_models(dir@), name@),
            None => find_file(file_models(dir@), name@) == -1,
        },
{
    let ghost dm = file_models(dir@);
    let n = dir.len();
    let mut i: usize = 0;
    while i < n
        invariant
            0 <= i <= n,
            n == dir@.len(),
            dm == file_models(dir@),
            forall|k: int| 0 <= k < i ==> (#[trigger] dm[k]).name != name@,
        decreases n - i,
    {
        if dir[i].name == *name {
            proof {
                lemma_find_file(dm, name@);
                assert(dm[i as int].name == name@);
                if find_file(dm, name@) == -1 {
                    assert(false);
                }
                if find_file(dm, name@) < i as int {
                    assert(dm[find_file(dm, name@)].name == name@);
                    assert(false);
                }
                if find_file(dm, name@) > i as int {
                    assert(dm[i as int].name != name@);
                    assert(false);
                }
            }
            return Some(i);
        }
        proof {
            assert(dm[i as int].name == dir@[i as int].name@);
        }
        i = i + 1;
    }
    proof {
        lemma_find_file(dm, name@);
        if find_file(dm, name@) >= 0 {
            assert(dm[find_file(dm, name@)].name == name@);
        }
    }
    None
}

// ---------------------------------------------------------------------------
// Renaming
// ---------------------------------------------------------------------------

/// What renaming `old_name` to `new_name` does to a snapshot: the entry
/// keeps its place and its content and only its name changes. It fails when
/// no entry carries `old_name`, or when a different entry already carries
/// `new_name` (an existing destination).
pub open spec fn rename_spec(
    dir: Seq<FileModel>,
    old_name: Seq<char>,
    new_name: Seq<char>,
) -> Result<Seq<FileModel>, BumpError> {
    let i = find_file(dir, old_name);
    if i < 0 {
        Err(BumpError::RenameError)
    } else if old_name != new_name && find_file(dir, new_name) >= 0 {
        Err(BumpError::RenameError)
    } else {
        Ok(dir.update(i, FileModel { name: new_name, content: dir[i].content }))
    }
}

/// Rename the snapshot entry `name_before` to `name_after`, keeping its
/// content and its position.
pub fn update_name(dir: &mut Vec<FileEntry>, name_before: &String, name_after: &String) -> (r:
    Result<(), BumpError>)
    ensures
        ({
            let spec_r = rename_spec(file_models(old(dir)@), name_before@, name_after@);
            match r {
                Ok(_) => spec_r == Ok::<Seq<FileModel>, BumpError>(file_models(final(dir)@)),
                Err(e) => final(dir)@ == old(dir)@ && spec_r == Err::<Seq<FileModel>, BumpError>(e),
            }
        }),
{
    let ghost dm = file_models(dir@);
    let i = match find_entry(dir, name_before) {
        Some(i) => i,
        None => {
            return Err(BumpError::RenameError);
        },
    };
    proof {
        lemma_find_file(dm, name_before@);
    }
    if !(*name_before == *name_after) {
        match find_entry(dir, name_after) {
            Some(_) => {
                return Err(BumpError::RenameError);
            },
            None => {},
        }
    }
    let e = dir.remove(i);
    let renamed = FileEntry { name: name_after.clone(), content: e.content };
    dir.insert(i, renamed);
    proof {
        let after = file_models(dir@);
        let target = FileModel { name: name_after@, content: dm[i as int].content };
        assert(after =~= dm.update(i as int, target)) by {
            assert forall|k: int| 0 <= k < after.len() implies after[k] == dm.update(
                i as int,
                target,
            )[k] by {
                if k < i as int {
                    assert(dir@[k] == old(dir)@.remove(i as int).insert(i as int, renamed)[k]);
                    assert(old(dir)@.remove(i as int)[k] == old(dir)@[k]);
                } else if k == i as int {
                    assert(dir@[k] == renamed);
                } else {
                    assert(dir@[k] == old(dir)@.remove(i as int).insert(i as int, renamed)[k]);
                    assert(old(dir)@.remove(i as int)[k - 1] == old(dir)@[k]);
                }
            }
        }
    }
    Ok(())
}

/// Renaming preserves every file's content and every other entry whole: no
/// data is lost by a rename.
pub proof fn lemma_rename_preserves_content(
    dir: Seq<FileModel>,
    old_name: Seq<char>,
    new_name: Seq<char>,
)
    ensures
        match rename_spec(dir, old_name, new_name) {
            Ok(d2) => {
                &&& d2.len() == dir.len()
                &&& forall|k: int|
                    0 <= k < dir.len() ==> (#[trigger] d2[k]).content == dir[k].content
                &&& forall|k: int|
                    0 <= k < dir.len() && k != find_file(dir, old_name) ==> #[trigger] d2[k]
                        == dir[k]
            },
            Err(_) => true,
        },
{
    lemma_find_file(dir, old_name);
}

// ---------------------------------------------------------------------------
// Bumping one migration against a snapshot
// ---------------------------------------------------------------------------

/// The model of a bump outcome.
pub open spec fn outcome_model(r: Result<BumpReport, BumpError>) -> Result<
    ReportModel,
    BumpError,
> {
    match r {
        Ok(rep) => Ok(rep@),
        Err(e) => Err(e),
    }
}

/// What bumping the migration named `name` does to a directory snapshot:
/// scan the listing, sort by id, plan the new id and name, rewrite the
/// target's dependency reference, and rename the target. The snapshot after
/// the step and the outcome are returned; on a failed rename the rewritten
/// content is already in place, as the write precedes the rename.
pub open spec fn bump_one_spec(dir: Seq<FileModel>, name: Seq<char>) -> (Seq<FileModel>, Result<
    ReportModel,
    BumpError,
>) {
    let ms = sort_by_id(scan_spec(listing_of(dir)));
    match plan_spec(ms, name) {
        Err(e) => (dir, Err(e)),
        Ok(plan) => {
            let ti = find_file(dir, name);
            if ti < 0 {
                (dir, Err(BumpError::ReadError))
            } else {
                match rewrite_result(dir[ti].content, ms, name) {
                    Err(e) => (dir, Err(e)),
                    Ok(nc) => {
                        let d2 = dir.update(ti, FileModel { name: dir[ti].name, content: nc });
                        match rename_spec(d2, name, plan.new_name) {
                            Err(e) => (d2, Err(e)),
                            Ok(d3) => (
                                d3,
                                Ok(ReportModel { old_name: name, new_name: plan.new_name }),
                            ),
                        }
                    },
                }
            }
        },
    }
}

/// Bump one migration against the directory snapshot `dir`: rewrite its
/// dependency reference and rename it to the next free sequence id. The
/// outcome reports the old and new names, or exactly why the bump stopped;
/// later entries of the snapshot are not reordered.
pub fn bump_migration(dir: &mut Vec<FileEntry>, migration_name: &String) -> (r: Result<
    BumpReport,
    BumpError,
>)
    ensures
        file_models(final(dir)@) == bump_one_spec(file_models(old(dir)@), migration_name@).0,
        outcome_model(r) == bump_one_spec(file_models(old(dir)@), migration_name@).1,
{
    let ghost dm = file_models(dir@);
    let ghost spec_ms = sort_by_id(scan_spec(listing_of(dm)));
    let n = dir.len();
    let mut listing: Vec<String> = Vec::new();
    let mut i: usize = 0;
    while i < n
        invariant
            0 <= i <= n,
            n == dir@.len(),
            dm == file_models(dir@),
            listing@.len() == i,
            forall|k: int| 0 <= k < i ==> (#[trigger] listing@[k])@ == dm[k].name,
        decreases n - i,
    {
        listing.push(dir[i].name.clone());
        i = i + 1;
    }
    proof {
        assert(name_views(listing@) =~= listing_of(dm));
    }
    let (mut migrations, _skipped) = collect_migrations(&listing);
    sort_migrations(&mut migrations);
    proof {
        lemma_scan_ids_nonneg(listing_of(dm));
        lemma_sort_ids_nonneg(scan_spec(listing_of(dm)));
        assert(entry_models(migrations@) == spec_ms);
    }
    let plan = match bump_migration_plan(&migrations, migration_name) {
        Ok(p) => p,
        Err(e) => {
            return Err(e);
        },
    };
    let ti = match find_entry(dir, migration_name) {
        Some(t) => t,
        None => {
            return Err(BumpError::ReadError);
        },
    };
    proof {
        lemma_find_file(dm, migration_name@);
    }
    let new_contents = match update_dependency(&dir[ti].content, &migrations, migration_name) {
        Ok(c) => c,
        Err(e) => {
            return Err(e);
        },
    };
    let e0 = dir.remove(ti);
    let rewritten = FileEntry { name: e0.name, content: new_contents };
    dir.insert(ti, rewritten);
    let ghost d2 = file_models(dir@);
    proof {
        let target = FileModel { name: dm[ti as int].name, content: new_contents@ };
        assert(e0 == old(dir)@[ti as int]);
        assert(d2 =~= dm.update(ti as int, target)) by {
            assert forall|k: int| 0 <= k < d2.len() implies d2[k] == dm.update(
                ti as int,
                target,
            )[k] by {
                if k < ti as int {
                    assert(dir@[k] == old(dir)@.remove(ti as int).insert(ti as int, rewritten)[k]);
                    assert(old(dir)@.remove(ti as int)[k] == old(dir)@[k]);
                } else if k == ti as int {
                    assert(dir@[k] == rewritten);
                } else {
                    assert(dir@[k] == old(dir)@.remove(ti as int).insert(ti as int, rewritten)[k]);
                    assert(old(dir)@.remove(ti as int)[k - 1] == old(dir)@[k]);
                }
            }
        }
    }
    match update_name(dir, migration_name, &plan.new_name) {
        Ok(_) => {
            let report = BumpReport { old_name: migration_name.clone(), new_name: plan.new_name };
            Ok(report)
        },
        Err(er) => Err(er),
    }
}

/// A successful bump touches only its target: every other snapshot entry is
/// left exactly as it was, in its place.
pub proof fn lemma_bump_keeps_other_entries(dir: Seq<FileModel>, name: Seq<char>)
    ensures
        match bump_one_spec(dir, name).1 {
            Ok(_) => {
                let d3 = bump_one_spec(dir, name).0;
                &&& d3.len() == dir.len()
                &&& forall|k: int|
                    0 <= k < dir.len() && (#[trigger] dir[k]).name != name ==> d3[k] == dir[k]
            },
            Err(_) => true,
        },
{
    let ms = sort_by_id(scan_spec(listing_of(dir)));
    match plan_spec(ms, name) {
        Err(_) => {},
        Ok(plan) => {
            let ti = find_file(dir, name);
            lemma_find_file(dir, name);
            if ti >= 0 {
                match rewrite_result(dir[ti].content, ms, name) {
                    Err(_) => {},
                    Ok(nc) => {
                        let d2 = dir.update(ti, FileModel { name: dir[ti].name, content: nc });
                        lemma_find_file(d2, name);
                        match rename_spec(d2, name, plan.new_name) {
                            Err(_) => {},
                            Ok(d3) => {
                                let i2 = find_file(d2, name);
                                assert(d2[ti].name == name);
                                assert forall|k: int|
                                    0 <= k < dir.len() && (#[trigger] dir[k]).name != name implies
                                    bump_one_spec(dir, name).0[k] == dir[k] by {
                                    assert(d2[k] == dir[k] || k == ti);
                                    assert(d3[k] == d2[k] || k == i2);
                                    if k == i2 {
                                        assert(d2[i2].name == name);
                                        assert(d2[k] == dir[k]);
                                        assert(dir[k].name == name);
                                    }
                                }
                            },
                        }
                    },
                }
            }
        },
    }
}

// ---------------------------------------------------------------------------
// Bumping a batch
// ---------------------------------------------------------------------------

/// Models of a list of bump outcomes.
pub open spec fn outcome_models(s: Seq<Result<BumpReport, BumpError>>) -> Seq<Result<
    ReportModel,
    BumpError,
>> {
    s.map_values(|r: Result<BumpReport, BumpError>| outcome_model(r))
}

/// Bumping the requested names left to right, each against the snapshot the
/// previous one left behind.
pub open spec fn bump_all_spec(dir: Seq<FileModel>, names: Seq<Seq<char>>) -> (Seq<FileModel>, Seq<
    Result<ReportModel, BumpError>,
>)
    decreases names.len(),
{
    if names.len() == 0 {
        (dir, Seq::empty())
    } else {
        let first = bump_one_spec(dir, names.first());
        let rest = bump_all_spec(first.0, names.drop_first());
        (rest.0, seq![first.1] + rest.1)
    }
}

/// A batch splits: bumping `a + b` is bumping `a`, then `b` on what it left.
pub proof fn lemma_bump_all_add(dir: Seq<FileModel>, a: Seq<Seq<char>>, b: Seq<Seq<char>>)
    ensures
        ({
            let ra = bump_all_spec(dir, a);
            let rb = bump_all_spec(ra.0, b);
            bump_all_spec(dir, a + b) == (rb.0, ra.1 + rb.1)
        }),
    decreases a.len(),
{
    let ra = bump_all_spec(dir, a);
    let rb = bump_all_spec(ra.0, b);
    if a.len() == 0 {
        assert(a + b =~= b);
        assert(ra == (dir, Seq::<Result<ReportModel, BumpError>>::empty()));
        assert(ra.1 + rb.1 =~= rb.1);
    } else {
        let first = bump_one_spec(dir, a.first());
        assert((a + b).first() == a.first());
        assert((a + b).drop_first() =~= a.drop_first() + b);
        lemma_bump_all_add(first.0, a.drop_first(), b);
        let ra2 = bump_all_spec(first.0, a.drop_first());
        assert(ra.0 == ra2.0);
        assert(ra.1 == seq![first.1] + ra2.1);
        let rb2 = bump_all_spec(ra2.0, b);
        assert(bump_all_spec(dir, a + b) == (rb2.0, seq![first.1] + (ra2.1 + rb2.1)));
        assert(seq![first.1] + (ra2.1 + rb2.1) =~= (seq![first.1] + ra2.1) + rb2.1);
    }
}

/// Bump each requested migration, left to right, against the directory
/// snapshot: every item is processed independently, and a failure of one
/// does not stop the rest. One outcome is returned per requested name, in
/// order.
pub fn bump(dir: &mut Vec<FileEntry>, migrations_to_bump: &Vec<String>) -> (outcomes: Vec<
    Result<BumpReport, BumpError>,
>)
    ensures
        file_models(final(dir)@) == bump_all_spec(
            file_models(old(dir)@),
            name_views(migrations_to_bump@),
        ).0,
        outcome_models(outcomes@) == bump_all_spec(
            file_models(old(dir)@),
            name_views(migrations_to_bump@),
        ).1,
        outcomes@.len() == migrations_to_bump@.len(),
{
    let ghost dir0 = file_models(old(dir)@);
    let ghost nv = name_views(migrations_to_bump@);
    let n = migrations_to_bump.len();
    let mut outcomes: Vec<Result<BumpReport, BumpError>> = Vec::new();
    let mut i: usize = 0;
    proof {
        assert(nv.take(0) =~= Seq::<Seq<char>>::empty());
        assert(outcome_models(outcomes@) =~= Seq::<Result<ReportModel, BumpError>>::empty());
    }
    while i < n
        invariant
            0 <= i <= n,
            n == migrations_to_bump@.len(),
            nv == name_views(migrations_to_bump@),
            dir0 == file_models(old(dir)@),
            outcomes@.len() == i,
            file_models(dir@) == bump_all_spec(dir0, nv.take(i as int)).0,
            outcome_models(outcomes@) == bump_all_spec(dir0, nv.take(i as int)).1,
        decreases n - i,
    {
        let ghost cur = file_models(dir@);
        let r = bump_migration(dir, &migrations_to_bump[i]);
        outcomes.push(r);
        proof {
            let name = nv[i as int];
            let one = bump_one_spec(cur, name);
            assert(nv.take(i + 1) =~= nv.take(i as int) + seq![name]);
            lemma_bump_all_add(dir0, nv.take(i as int), seq![name]);
            let single = bump_all_spec(cur, seq![name]);
            assert(seq![name].len() == 1);
            assert(seq![name].first() == name);
            assert(seq![name].drop_first() =~= Seq::<Seq<char>>::empty());
            assert(bump_all_spec(one.0, Seq::<Seq<char>>::empty()) == (
                one.0,
                Seq::<Result<ReportModel, BumpError>>::empty(),
            ));
            assert(bump_all_spec(one.0, seq![name].drop_first()) == (
                one.0,
                Seq::<Result<ReportModel, BumpError>>::empty(),
            ));
            assert(bump_one_spec(cur, seq![name].first()) == one);
            assert(single == (one.0, seq![one.1] + Seq::<Result<ReportModel, BumpError>>::empty()));
            assert(single.0 == one.0);
            assert(single.1 =~= seq![one.1]);
            assert(file_models(dir@) == bump_all_spec(dir0, nv.take(i + 1)).0);
            assert(outcome_models(outcomes@) =~= bump_all_spec(dir0, nv.take(i as int)).1 + seq![
                one.1,
            ]);
            assert(bump_all_spec(dir0, nv.take(i + 1)).1 == bump_all_spec(
                dir0,
                nv.take(i as int),
            ).1 + single.1);
            assert(outcome_models(outcomes@) =~= bump_all_spec(dir0, nv.take(i + 1)).1);
        }
        i = i + 1;
    }
    proof {
        assert(nv.take(i as int) =~= nv);
    }
    outcomes
}

} // verus!
