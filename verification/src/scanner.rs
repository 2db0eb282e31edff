//! Scanning a directory listing for sequence members: parsing the leading
//! numeric id of a migration filename, collecting the conforming entries,
//! and sorting them by id (stably, so scan order is kept among equal ids).

use vstd::prelude::*;

use crate::text::all_digits;
use crate::text::digit_val;
use crate::text::digits_value;
use crate::text::is_digit;
use crate::text::lemma_digits_value_monotone;
use crate::text::lemma_digits_value_nonneg;
use crate::text::lemma_find_pat;
use crate::text::find_pat;
use crate::text::find_first;
use crate::text::is_match_at;

verus! {

// ---------------------------------------------------------------------------
// Migration names
// ---------------------------------------------------------------------------

/// Index of the first `_` in `s`, or `s.len()` when there is none.
pub open spec fn sep_index(s: Seq<char>) -> int
    decreases s.len(),
{
    if s.len() == 0 {
        0
    } else if s[0] == '_' {
        0
    } else {
        1 + sep_index(s.drop_first())
    }
}

/// The segment of a filename before its first `_`.
pub open spec fn id_prefix(s: Seq<char>) -> Seq<char> {
    s.take(sep_index(s))
}

/// A digit string that parses as a sequence id: non-empty, digits only, and
/// within the id range.
pub open spec fn parses_as_id(p: Seq<char>) -> bool {
    p.len() > 0 && all_digits(p) && digits_value(p) <= i32::MAX as int
}

/// A filename that the scanner accepts as a sequence member.
pub open spec fn is_migration_name(s: Seq<char>) -> bool {
    parses_as_id(id_prefix(s))
}

/// The sequence id encoded in a migration filename.
pub open spec fn id_of(s: Seq<char>) -> int {
    digits_value(id_prefix(s))
}

/// The separator index points at the first `_`, with none before it.
pub proof fn lemma_sep_index(s: Seq<char>)
    ensures
        0 <= sep_index(s) <= s.len(),
        sep_index(s) < s.len() ==> s[sep_index(s)] == '_',
        forall|k: int| 0 <= k < sep_index(s) ==> s[k] != '_',
    decreases s.len(),
{
    if s.len() > 0 && s[0] != '_' {
        let t = s.drop_first();
        lemma_sep_index(t);
        assert forall|k: int| 0 <= k < sep_index(s) implies s[k] != '_' by {
            if k >= 1 {
                assert(t[k - 1] != '_');
                assert(s[k] == t[k - 1]);
            }
        }
    }
}

/// The separator index is pinned by its characterization.
pub proof fn lemma_sep_index_unique(s: Seq<char>, e: int)
    requires
        0 <= e <= s.len(),
        forall|k: int| 0 <= k < e ==> s[k] != '_',
        e < s.len() ==> s[e] == '_',
    ensures
        sep_index(s) == e,
{
    lemma_sep_index(s);
    if sep_index(s) < e {
        assert(s[sep_index(s)] == '_');
    }
    if sep_index(s) > e {
        assert(s[e] != '_');
    }
}

// ---------------------------------------------------------------------------
// Data model
// ---------------------------------------------------------------------------

/// Mathematical model of one sequence member.
pub ghost struct EntryModel {
    pub id: int,
    pub name: Seq<char>,
}

/// One file in the migration directory whose name begins with `<id>_`.
pub struct Migration {
    pub number: i32,
    pub name: String,
}

impl View for Migration {
    type V = EntryModel;

    open spec fn view(&self) -> EntryModel {
        EntryModel { id: self.number as int, name: self.name@ }
    }
}

/// Models of a list of migrations.
pub open spec fn entry_models(s: Seq<Migration>) -> Seq<EntryModel> {
    s.map_values(|m: Migration| m@)
}

/// Views of a list of filenames.
pub open spec fn name_views(s: Seq<String>) -> Seq<Seq<char>> {
    s.map_values(|n: String| n@)
}

/// The entries a scan of `names` accepts, in listing order.
pub open spec fn scan_spec(names: Seq<Seq<char>>) -> Seq<EntryModel>
    decreases names.len(),
{
    if names.len() == 0 {
        Seq::empty()
    } else {
        let rest = scan_spec(names.drop_last());
        if is_migration_name(names.last()) {
            rest.push(EntryModel { id: id_of(names.last()), name: names.last() })
        } else {
            rest
        }
    }
}

/// The filenames a scan of `names` skips, in listing order.
pub open spec fn skipped_spec(names: Seq<Seq<char>>) -> Seq<Seq<char>>
    decreases names.len(),
{
    if names.len() == 0 {
        Seq::empty()
    } else {
        let rest = skipped_spec(names.drop_last());
        if is_migration_name(names.last()) {
            rest
        } else {
            rest.push(names.last())
        }
    }
}

// ---------------------------------------------------------------------------
// Parsing
// ---------------------------------------------------------------------------

/// Parse the leading sequence id of a migration filename: the segment before
/// the first `_`, read as a decimal number.
pub fn parse_migration_number(name: &str) -> (r: Option<i32>)
    ensures
        match r {
            Some(v) => is_migration_name(name@) && v as int == id_of(name@),
            None => !is_migration_name(name@),
        },
{
    let n = name.unicode_len();
    proof {
        reveal_strlit("_");
    }
    let end = match find_first(name, "_") {
        Some(i) => i,
        None => n,
    };
    proof {
        lemma_find_pat(name@, "_"@);
        assert forall|j: int| 0 <= j < name@.len() implies (is_match_at(name@, "_"@, j) <==> name@[j]
            == '_') by {
            if is_match_at(name@, "_"@, j) {
                assert(name@.subrange(j, j + 1)[0] == name@[j]);
            }
            if name@[j] == '_' {
                assert(name@.subrange(j, j + 1) =~= "_"@);
            }
        }
        lemma_sep_index_unique(name@, end as int);
    }
    if end == 0 {
        return None;
    }
    let ghost prefix = id_prefix(name@);
    let mut acc: u64 = 0;
    let mut i: usize = 0;
    while i < end
        invariant
            0 <= i <= end,
            0 < end <= n,
            n == name@.len(),
            end as int == sep_index(name@),
            prefix == id_prefix(name@),
            all_digits(name@.take(i as int)),
            acc as int == digits_value(name@.take(i as int)),
            acc <= i32::MAX as u64,
        decreases end - i,
    {
        let c = name.get_char(i);
        let cv = c as u32;
        if cv < '0' as u32 || cv > '9' as u32 {
            proof {
                assert(prefix[i as int] == name@[i as int]);
                assert(!is_digit(prefix[i as int]));
            }
            return None;
        }
        let d: u64 = (cv - '0' as u32) as u64;
        acc = acc * 10 + d;
        proof {
            let t = name@.take(i + 1);
            assert(t.drop_last() =~= name@.take(i as int));
            assert(t.last() == name@[i as int]);
            assert(acc as int == digits_value(t));
            assert(all_digits(t));
        }
        if acc > 0x7fff_ffff {
            proof {
                if all_digits(prefix) {
                    assert(prefix.take(i + 1) =~= name@.take(i + 1));
                    lemma_digits_value_monotone(prefix, i + 1);
                    assert(digits_value(prefix) > i32::MAX as int);
                }
            }
            return None;
        }
        i = i + 1;
    }
    proof {
        assert(name@.take(i as int) =~= prefix);
    }
    Some(acc as i32)
}

// ---------------------------------------------------------------------------
// Collecting
// ---------------------------------------------------------------------------

/// Split a directory listing into the sequence members (with their parsed
/// ids, in listing order) and the skipped non-conforming filenames. Every
/// listed name ends up in exactly one of the two.
pub fn collect_migrations(names: &Vec<String>) -> (r: (Vec<Migration>, Vec<String>))
    ensures
        entry_models(r.0@) == scan_spec(name_views(names@)),
        name_views(r.1@) == skipped_spec(name_views(names@)),
        r.0@.len() + r.1@.len() == names@.len(),
{
    let n = names.len();
    let mut out: Vec<Migration> = Vec::new();
    let mut skipped: Vec<String> = Vec::new();
    let mut i: usize = 0;
    proof {
        assert(name_views(names@.take(0)) =~= Seq::<Seq<char>>::empty());
        assert(entry_models(out@) =~= scan_spec(name_views(names@.take(0))));
        assert(name_views(skipped@) =~= skipped_spec(name_views(names@.take(0))));
    }
    while i < n
        invariant
            0 <= i <= n,
            n == names@.len(),
            entry_models(out@) == scan_spec(name_views(names@.take(i as int))),
            name_views(skipped@) == skipped_spec(name_views(names@.take(i as int))),
            out@.len() + skipped@.len() == i,
        decreases n - i,
    {
        let ghost pre = name_views(names@.take(i as int));
        let ghost post = name_views(names@.take(i + 1));
        proof {
            assert(post.drop_last() =~= pre);
            assert(post.last() == names@[i as int]@);
        }
        match parse_migration_number(names[i].as_str()) {
            Some(v) => {
                let m = Migration { number: v, name: names[i].clone() };
                proof {
                    assert(m@ == EntryModel { id: id_of(names@[i as int]@), name: names@[i as int]@ });
                }
                out.push(m);
                proof {
                    assert(entry_models(out@) =~= scan_spec(post));
                }
            },
            None => {
                skipped.push(names[i].clone());
                proof {
                    assert(name_views(skipped@) =~= skipped_spec(post));
                }
            },
        }
        i = i + 1;
    }
    proof {
        assert(names@.take(i as int) =~= names@);
    }
    (out, skipped)
}

// ---------------------------------------------------------------------------
// Sorting
// ---------------------------------------------------------------------------

/// Ascending by id.
pub open spec fn sorted_by_id(s: Seq<EntryModel>) -> bool {
    forall|i: int, j: int| 0 <= i < j < s.len() ==> #[trigger] s[i].id <= #[trigger] s[j].id
}

/// Insert `m` into `s` after every entry whose id is less than or equal to
/// `m.id` (so, for sorted input, after all its equals: stable insertion).
pub open spec fn insert_by_id(s: Seq<EntryModel>, m: EntryModel) -> Seq<EntryModel>
    decreases s.len(),
{
    if s.len() == 0 {
        seq![m]
    } else if s.last().id <= m.id {
        s.push(m)
    } else {
        insert_by_id(s.drop_last(), m).push(s.last())
    }
}

/// Stable insertion sort by id.
pub open spec fn sort_by_id(s: Seq<EntryModel>) -> Seq<EntryModel>
    decreases s.len(),
{
    if s.len() == 0 {
        Seq::empty()
    } else {
        insert_by_id(sort_by_id(s.drop_last()), s.last())
    }
}

/// The entries of `s` carrying the id `id`, in order.
pub open spec fn entries_with_id(s: Seq<EntryModel>, id: int) -> Seq<EntryModel>
    decreases s.len(),
{
    if s.len() == 0 {
        Seq::empty()
    } else {
        let rest = entries_with_id(s.drop_last(), id);
        if s.last().id == id {
            rest.push(s.last())
        } else {
            rest
        }
    }
}

/// For sorted `s`, inserting at the position `p` characterized below is what
/// `insert_by_id` does, and keeps the sequence sorted.
pub proof fn lemma_insert_by_id_at(s: Seq<EntryModel>, m: EntryModel, p: int)
    requires
        sorted_by_id(s),
        0 <= p <= s.len(),
        forall|k: int| 0 <= k < p ==> #[trigger] s[k].id <= m.id,
        p < s.len() ==> s[p].id > m.id,
    ensures
        insert_by_id(s, m) == s.take(p) + seq![m] + s.skip(p),
        sorted_by_id(insert_by_id(s, m)),
    decreases s.len(),
{
    let out = s.take(p) + seq![m] + s.skip(p);
    if s.len() == 0 {
        assert(insert_by_id(s, m) =~= out);
    } else if s.last().id <= m.id {
        assert(p == s.len()) by {
            if p < s.len() {
                assert(s[p].id <= s[s.len() - 1].id);
            }
        }
        assert(insert_by_id(s, m) =~= out);
    } else {
        assert(p < s.len()) by {
            if p == s.len() {
                assert(s[s.len() - 1].id <= m.id);
            }
        }
        let t = s.drop_last();
        assert(sorted_by_id(t));
        assert(forall|k: int| 0 <= k < p ==> #[trigger] t[k].id <= m.id);
        assert(p < t.len() ==> t[p].id > m.id);
        lemma_insert_by_id_at(t, m, p);
        assert(insert_by_id(s, m) == insert_by_id(t, m).push(s.last()));
        assert(insert_by_id(s, m) =~= out);
    }
    assert forall|i: int, j: int| 0 <= i < j < out.len() implies #[trigger] out[i].id
        <= #[trigger] out[j].id by {
        if i < p {
            assert(out[i] == s[i]);
        } else if i == p {
            assert(out[i] == m);
        } else {
            assert(out[i] == s[i - 1]);
        }
        if j < p {
            assert(out[j] == s[j]);
        } else if j == p {
            assert(out[j] == m);
        } else {
            assert(out[j] == s[j - 1]);
        }
    }
}

/// Insertion moves `m` past its strict superiors only, so the subsequence of
/// entries with any given id gains `m` at its end (when the id is `m`'s) and
/// is untouched otherwise.
pub proof fn lemma_insert_with_id(s: Seq<EntryModel>, m: EntryModel, id: int)
    ensures
        entries_with_id(insert_by_id(s, m), id) == if m.id == id {
            entries_with_id(s, id).push(m)
        } else {
            entries_with_id(s, id)
        },
    decreases s.len(),
{
    if s.len() == 0 {
        assert(insert_by_id(s, m) == seq![m]);
        assert(seq![m].len() == 1);
        assert(seq![m].last() == m);
        assert(seq![m].drop_last() =~= Seq::<EntryModel>::empty());
        assert(entries_with_id(Seq::<EntryModel>::empty(), id) == Seq::<EntryModel>::empty());
        assert(entries_with_id(seq![m], id) == if m.id == id {
            entries_with_id(seq![m].drop_last(), id).push(m)
        } else {
            entries_with_id(seq![m].drop_last(), id)
        });
    } else if s.last().id <= m.id {
        assert(s.push(m).drop_last() =~= s);
        assert(s.push(m).last() == m);
        assert(entries_with_id(s.push(m), id) == if m.id == id {
            entries_with_id(s.push(m).drop_last(), id).push(m)
        } else {
            entries_with_id(s.push(m).drop_last(), id)
        });
    } else {
        let t = s.drop_last();
        lemma_insert_with_id(t, m, id);
        let r = insert_by_id(t, m).push(s.last());
        assert(insert_by_id(s, m) == r);
        assert(r.drop_last() =~= insert_by_id(t, m));
        assert(r.last() == s.last());
        if m.id == id {
            assert(s.last().id != id);
            assert(entries_with_id(r, id) == entries_with_id(insert_by_id(t, m), id));
            assert(entries_with_id(s, id) == entries_with_id(t, id));
        }
    }
}

/// Sorting by id is stable: for every id, the entries carrying it come out
/// in the order they went in.
pub proof fn lemma_sort_stable(s: Seq<EntryModel>, id: int)
    ensures
        entries_with_id(sort_by_id(s), id) == entries_with_id(s, id),
    decreases s.len(),
{
    if s.len() > 0 {
        lemma_sort_stable(s.drop_last(), id);
        lemma_insert_with_id(sort_by_id(s.drop_last()), s.last(), id);
    }
}

/// The sort's result is ascending by id.
pub proof fn lemma_sort_sorted(s: Seq<EntryModel>)
    ensures
        sorted_by_id(sort_by_id(s)),
        sort_by_id(s).len() == s.len(),
    decreases s.len(),
{
    if s.len() > 0 {
        let t = sort_by_id(s.drop_last());
        lemma_sort_sorted(s.drop_last());
        let m = s.last();
        let p = insert_pos(t, m.id);
        lemma_insert_pos(t, m.id);
        lemma_insert_by_id_at(t, m, p);
    }
}

/// The position where an entry with id `id` is inserted into sorted `s`.
pub open spec fn insert_pos(s: Seq<EntryModel>, id: int) -> int
    decreases s.len(),
{
    if s.len() == 0 {
        0
    } else if s.last().id <= id {
        s.len() as int
    } else {
        insert_pos(s.drop_last(), id)
    }
}

/// The insert position splits sorted `s` into ids at most `id` and ids above it.
pub proof fn lemma_insert_pos(s: Seq<EntryModel>, id: int)
    requires
        sorted_by_id(s),
    ensures
        0 <= insert_pos(s, id) <= s.len(),
        forall|k: int| 0 <= k < insert_pos(s, id) ==> #[trigger] s[k].id <= id,
        insert_pos(s, id) < s.len() ==> s[insert_pos(s, id)].id > id,
    decreases s.len(),
{
    if s.len() > 0 {
        if s.last().id > id {
            let t = s.drop_last();
            assert(sorted_by_id(t));
            lemma_insert_pos(t, id);
            let p = insert_pos(t, id);
            if p < s.len() - 1 {
                assert(s[p].id == t[p].id);
            }
            assert forall|k: int| 0 <= k < insert_pos(s, id) implies #[trigger] s[k].id <= id by {
                assert(t[k].id <= id);
                assert(s[k] == t[k]);
            }
        } else {
            assert forall|k: int| 0 <= k < insert_pos(s, id) implies #[trigger] s[k].id <= id by {
                if k < s.len() - 1 {
                    assert(s[k].id <= s[s.len() - 1].id);
                }
            }
        }
    }
}

/// Sort a migration list ascending by id, stably: entries with equal ids
/// keep the order in which the scan produced them.
pub fn sort_migrations(migrations: &mut Vec<Migration>)
    ensures
        entry_models(final(migrations)@) == sort_by_id(entry_models(old(migrations)@)),
        sorted_by_id(entry_models(final(migrations)@)),
        forall|id: int| #[trigger] entries_with_id(entry_models(final(migrations)@), id)
            == entries_with_id(entry_models(old(migrations)@), id),
{
    let n = migrations.len();
    let ghost orig = migrations@;
    if n <= 1 {
        proof {
            if n == 0 {
                assert(entry_models(orig) =~= Seq::<EntryModel>::empty());
                assert(sort_by_id(entry_models(orig)) =~= entry_models(orig));
            } else {
                let ms = entry_models(orig);
                assert(ms.drop_last() =~= Seq::<EntryModel>::empty());
                assert(sort_by_id(ms) == insert_by_id(sort_by_id(ms.drop_last()), ms.last()));
                assert(sort_by_id(ms) =~= ms);
            }
            lemma_sort_sorted(entry_models(orig));
            assert forall|id: int| #[trigger] entries_with_id(entry_models(migrations@), id)
                == entries_with_id(entry_models(orig), id) by {
                lemma_sort_stable(entry_models(orig), id);
            }
        }
        return ;
    }
    let mut i: usize = 1;
    proof {
        let ms1 = entry_models(orig.take(1));
        assert(ms1.len() == 1);
        assert(ms1.drop_last() =~= Seq::<EntryModel>::empty());
        assert(sort_by_id(Seq::<EntryModel>::empty()) == Seq::<EntryModel>::empty());
        assert(sort_by_id(ms1) == insert_by_id(sort_by_id(ms1.drop_last()), ms1.last()));
        assert(insert_by_id(Seq::<EntryModel>::empty(), ms1.last()) == seq![ms1.last()]);
        assert(sort_by_id(ms1) =~= ms1);
        assert(entry_models(migrations@.take(1)) =~= ms1);
    }
    while i < n
        invariant
            1 <= i <= n,
            n == migrations@.len(),
            orig.len() == n,
            entry_models(migrations@.take(i as int)) == sort_by_id(entry_models(orig.take(i as int))),
            sorted_by_id(entry_models(migrations@.take(i as int))),
            migrations@.skip(i as int) == orig.skip(i as int),
        decreases n - i,
    {
        let ghost before = migrations@;
        let ghost pre = entry_models(before.take(i as int));
        let target_num = migrations[i].number;
        proof {
            assert(before[i as int] == orig[i as int]) by {
                assert(before.skip(i as int)[0] == orig.skip(i as int)[0]);
            }
        }
        let mut p: usize = 0;
        while p < i && migrations[p].number <= target_num
            invariant
                0 <= p <= i,
                i < n,
                n == migrations@.len(),
                migrations@ == before,
                forall|k: int| 0 <= k < p ==> #[trigger] entry_models(before.take(i as int))[k].id
                    <= target_num as int,
            decreases i - p,
        {
            proof {
                assert(entry_models(before.take(i as int))[p as int].id == before[p as int].number as int);
            }
            p = p + 1;
        }
        proof {
            assert(p < i ==> pre[p as int].id > target_num as int) by {
                if p < i {
                    assert(before[p as int].number > target_num);
                    assert(pre[p as int].id == before[p as int].number as int);
                }
            }
        }
        let x = migrations.remove(i);
        migrations.insert(p, x);
        proof {
            let xa = orig[i as int];
            let after = migrations@;
            assert(after =~= before.remove(i as int).insert(p as int, xa));
            assert(after.take(i + 1) =~= before.take(p as int) + seq![xa] + before.subrange(
                p as int,
                i as int,
            ));
            assert(entry_models(after.take(i + 1)) =~= pre.take(p as int) + seq![xa@] + pre.skip(
                p as int,
            ));
            lemma_insert_by_id_at(pre, xa@, p as int);
            assert(entry_models(after.take(i + 1)) == insert_by_id(pre, xa@));
            let oms = entry_models(orig.take(i + 1));
            assert(oms.drop_last() =~= entry_models(orig.take(i as int)));
            assert(oms.last() == xa@);
            assert(sort_by_id(oms) == insert_by_id(sort_by_id(entry_models(orig.take(i as int))), xa@));
            assert(entry_models(after.take(i + 1)) == sort_by_id(oms));
            assert(after.skip(i + 1) =~= orig.skip(i + 1)) by {
                assert forall|k: int| 0 <= k < after.len() - i - 1 implies #[trigger] after.skip(
                    i + 1,
                )[k] == orig.skip(i + 1)[k] by {
                    assert(after.skip(i + 1)[k] == after[i + 1 + k]);
                    assert(after[i + 1 + k] == before.remove(i as int)[i + k]);
                    assert(before.remove(i as int)[i + k] == before[i + 1 + k]);
                    assert(before[i + 1 + k] == before.skip(i as int)[k + 1]);
                    assert(orig.skip(i as int)[k + 1] == orig[i + 1 + k]);
                    assert(orig.skip(i + 1)[k] == orig[i + 1 + k]);
                }
            }
        }
        i = i + 1;
    }
    proof {
        assert(migrations@.take(i as int) =~= migrations@);
        assert(orig.take(i as int) =~= orig);
        assert forall|id: int| #[trigger] entries_with_id(entry_models(migrations@), id)
            == entries_with_id(entry_models(orig), id) by {
            lemma_sort_stable(entry_models(orig), id);
        }
    }
}

} // verus!
