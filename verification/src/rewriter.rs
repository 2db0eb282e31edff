//! Rewriting the dependency reference of a migration that is being bumped:
//! the target's predecessor stem is replaced, throughout the file content,
//! by the stem of the entry currently last in the sequence.

use vstd::prelude::*;

use crate::outcome::BumpError;
use crate::scanner::EntryModel;
use crate::scanner::Migration;
use crate::scanner::entry_models;
use crate::text::replace_all;
use crate::text::replace_all_spec;
use crate::text::strip_ext_spec;
use crate::text::strip_extension;

verus! {

/// Index of the first entry of `s` named `name`, or -1 when there is none.
pub open spec fn find_by_name(s: Seq<EntryModel>, name: Seq<char>) -> int
    decreases s.len(),
{
    if s.len() == 0 {
        -1
    } else if s[0].name == name {
        0
    } else {
        let r = find_by_name(s.drop_first(), name);
        if r < 0 {
            -1
        } else {
            r + 1
        }
    }
}

pub proof fn lemma_find_by_name(s: Seq<EntryModel>, name: Seq<char>)
    ensures
        find_by_name(s, name) >= -1,
        find_by_name(s, name) >= 0 ==> find_by_name(s, name) < s.len() && s[find_by_name(
            s,
            name,
        )].name == name,
        forall|k: int| 0 <= k < find_by_name(s, name) ==> (#[trigger] s[k]).name != name,
        find_by_name(s, name) == -1 ==> forall|k: int|
            0 <= k < s.len() ==> (#[trigger] s[k]).name != name,
    decreases s.len(),
{
    if s.len() > 0 && s[0].name != name {
        let t = s.drop_first();
        lemma_find_by_name(t, name);
        assert forall|k: int| 1 <= k < s.len() implies s[k] == t[k - 1] by {}
    }
}

/// The index of the predecessor used for the rewrite, under the tie-break
/// rule: the entry just before the target when the target's id is strictly
/// greater than its neighbour's, and the entry one further back otherwise.
/// Negative when the target is too early in the sequence to have one.
pub open spec fn pred_of(s: Seq<EntryModel>, idx: int) -> int {
    if 1 <= idx < s.len() && s[idx].id > s[idx - 1].id {
        idx - 1
    } else {
        idx - 2
    }
}

/// What rewriting the content of the migration named `name` yields, given
/// the (sorted) sequence `s`: every occurrence of the predecessor's stem is
/// replaced by the stem of the last entry.
pub open spec fn rewrite_result(content: Seq<char>, s: Seq<EntryModel>, name: Seq<char>) -> Result<
    Seq<char>,
    BumpError,
> {
    if s.len() == 0 {
        Err(BumpError::NoLastMigration)
    } else {
        let idx = find_by_name(s, name);
        if idx < 0 {
            Err(BumpError::MigrationNotFound)
        } else {
            let pi = pred_of(s, idx);
            if pi < 0 {
                Err(BumpError::PredecessorIndex)
            } else {
                Ok(
                    replace_all_spec(
                        content,
                        strip_ext_spec(s[pi].name),
                        strip_ext_spec(s.last().name),
                    ),
                )
            }
        }
    }
}

/// Position of the first migration named `name`, scanning left to right.
pub fn find_migration_index(migrations: &Vec<Migration>, name: &String) -> (r: Option<usize>)
    ensures
        match r {
            Some(i) => i as int == find_by_name(entry_models(migrations@), name@),
            None => find_by_name(entry_models(migrations@), name@) == -1,
        },
{
    let ghost ms = entry_models(migrations@);
    let n = migrations.len();
    let mut i: usize = 0;
    while i < n
        invariant
            0 <= i <= n,
            n == migrations@.len(),
            ms == entry_models(migrations@),
            forall|k: int| 0 <= k < i ==> (#[trigger] ms[k]).name != name@,
        decreases n - i,
    {
        if migrations[i].name == *name {
            proof {
                lemma_find_by_name(ms, name@);
                assert(ms[i as int].name == name@);
                if find_by_name(ms, name@) == -1 {
                    assert(false);
                }
                if find_by_name(ms, name@) < i as int {
                    assert(ms[find_by_name(ms, name@)].name == name@);
                    assert(false);
                }
                if find_by_name(ms, name@) > i as int {
                    assert(ms[i as int].name != name@);
                    assert(false);
                }
            }
            return Some(i);
        }
        proof {
            assert(ms[i as int].name == migrations@[i as int].name@);
        }
        i = i + 1;
    }
    proof {
        lemma_find_by_name(ms, name@);
        if find_by_name(ms, name@) >= 0 {
            assert(ms[find_by_name(ms, name@)].name == name@);
        }
    }
    None
}

/// Rewrite the dependency reference in `contents`, the text of the migration
/// named `migration_name`, against the sorted sequence `migrations`: the
/// predecessor's stem (filename without its `.py` extension) is replaced,
/// everywhere it occurs, by the stem of the entry with the greatest id. The
/// rewritten content is returned; the error says exactly why no rewrite is
/// possible.
pub fn update_dependency(
    contents: &String,
    migrations: &Vec<Migration>,
    migration_name: &String,
) -> (r: Result<String, BumpError>)
    ensures
        ({
            let spec_r = rewrite_result(contents@, entry_models(migrations@), migration_name@);
            match r {
                Ok(c) => spec_r == Ok::<Seq<char>, BumpError>(c@),
                Err(e) => spec_r == Err::<Seq<char>, BumpError>(e),
            }
        }),
{
    let ghost ms = entry_models(migrations@);
    let n = migrations.len();
    if n == 0 {
        return Err(BumpError::NoLastMigration);
    }
    let idx = match find_migration_index(migrations, migration_name) {
        Some(i) => i,
        None => {
            return Err(BumpError::MigrationNotFound);
        },
    };
    proof {
        lemma_find_by_name(ms, migration_name@);
    }
    let pi: usize;
    if idx >= 1 && migrations[idx].number > migrations[idx - 1].number {
        pi = idx - 1;
    } else if idx >= 2 {
        pi = idx - 2;
    } else {
        proof {
            assert(pred_of(ms, idx as int) < 0);
        }
        return Err(BumpError::PredecessorIndex);
    }
    proof {
        assert(pi as int == pred_of(ms, idx as int));
    }
    let from = strip_extension(migrations[pi].name.as_str());
    let to = strip_extension(migrations[n - 1].name.as_str());
    let out = replace_all(contents.as_str(), from.as_str(), to.as_str());
    proof {
        assert(ms[pi as int].name == migrations@[pi as int].name@);
        assert(ms.last().name == migrations@[n - 1].name@);
    }
    Ok(out)
}

} // verus!
