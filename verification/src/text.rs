//! Character-level text primitives: decimal digits, substring search, and
//! the replace / strip operations the migration pipeline is built on.

use vstd::prelude::*;

verus! {

// ---------------------------------------------------------------------------
// Decimal digits
// ---------------------------------------------------------------------------

/// A decimal digit character.
pub open spec fn is_digit(c: char) -> bool {
    '0' as u32 <= c as u32 && c as u32 <= '9' as u32
}

/// Numeric value of a digit character.
pub open spec fn digit_val(c: char) -> int {
    c as u32 - '0' as u32
}

/// Every character of `s` is a decimal digit.
pub open spec fn all_digits(s: Seq<char>) -> bool {
    forall|i: int| 0 <= i < s.len() ==> is_digit(#[trigger] s[i])
}

/// Value of a digit string read as a base-10 number (most significant first).
pub open spec fn digits_value(s: Seq<char>) -> int
    decreases s.len(),
{
    if s.len() == 0 {
        0
    } else {
        digits_value(s.drop_last()) * 10 + digit_val(s.last())
    }
}

/// A digit string never reads as a negative number.
pub proof fn lemma_digits_value_nonneg(s: Seq<char>)
    requires
        all_digits(s),
    ensures
        digits_value(s) >= 0,
    decreases s.len(),
{
    if s.len() > 0 {
        assert(all_digits(s.drop_last()));
        lemma_digits_value_nonneg(s.drop_last());
    }
}

/// Extending a digit string to the right never decreases its value.
pub proof fn lemma_digits_value_monotone(s: Seq<char>, i: int)
    requires
        all_digits(s),
        0 <= i <= s.len(),
    ensures
        digits_value(s.take(i)) <= digits_value(s),
    decreases s.len() - i,
{
    if i < s.len() {
        assert(all_digits(s.take(i + 1)));
        lemma_digits_value_nonneg(s.take(i + 1));
        assert(s.take(i + 1).drop_last() =~= s.take(i));
        assert(digits_value(s.take(i + 1)) == digits_value(s.take(i)) * 10 + digit_val(
            s.take(i + 1).last(),
        ));
        lemma_digits_value_nonneg(s.take(i));
        lemma_digits_value_monotone(s, i + 1);
    } else {
        assert(s.take(i) =~= s);
    }
}

// ---------------------------------------------------------------------------
// Substring search
// ---------------------------------------------------------------------------

/// The pattern `p` occurs in `s` starting at index `i`.
pub open spec fn is_match_at(s: Seq<char>, p: Seq<char>, i: int) -> bool {
    0 <= i && i + p.len() <= s.len() && s.subrange(i, i + p.len() as int) == p
}

/// Index of the leftmost occurrence of `p` in `s`, or -1 when there is none.
pub open spec fn find_pat(s: Seq<char>, p: Seq<char>) -> int
    decreases s.len(),
{
    if p.len() <= s.len() && s.take(p.len() as int) == p {
        0
    } else if s.len() == 0 {
        -1
    } else {
        let r = find_pat(s.drop_first(), p);
        if r < 0 {
            -1
        } else {
            r + 1
        }
    }
}

/// `find_pat` returns the least match position, and -1 exactly when there
/// is no match.
pub proof fn lemma_find_pat(s: Seq<char>, p: Seq<char>)
    ensures
        find_pat(s, p) >= -1,
        find_pat(s, p) >= 0 ==> is_match_at(s, p, find_pat(s, p)),
        find_pat(s, p) >= 0 ==> forall|j: int| 0 <= j < find_pat(s, p) ==> !is_match_at(s, p, j),
        find_pat(s, p) == -1 ==> forall|j: int| !is_match_at(s, p, j),
    decreases s.len(),
{
    if p.len() <= s.len() && s.take(p.len() as int) == p {
        assert(s.subrange(0, p.len() as int) == s.take(p.len() as int));
    } else if s.len() == 0 {
        assert forall|j: int| !is_match_at(s, p, j) by {
            if 0 <= j && j + p.len() <= s.len() {
                assert(j == 0 && p.len() == 0);
                assert(s.subrange(0, 0) =~= s.take(0));
            }
        }
    } else {
        let t = s.drop_first();
        lemma_find_pat(t, p);
        assert forall|j: int| 1 <= j implies is_match_at(s, p, j) == is_match_at(t, p, j - 1) by {
            if j + p.len() <= s.len() {
                assert(s.subrange(j, j + p.len() as int) =~= t.subrange(
                    j - 1,
                    j - 1 + p.len() as int,
                ));
            }
        }
        assert(!is_match_at(s, p, 0)) by {
            if 0 + p.len() <= s.len() {
                assert(s.subrange(0, p.len() as int) == s.take(p.len() as int));
            }
        }
    }
}

// ---------------------------------------------------------------------------
// Replacement
// ---------------------------------------------------------------------------

/// Replace every (non-overlapping, leftmost-first) occurrence of `from` in
/// `s` by `to`. An empty `from` leaves `s` unchanged.
pub open spec fn replace_all_spec(s: Seq<char>, from: Seq<char>, to: Seq<char>) -> Seq<char>
    decreases s.len(),
{
    let i = find_pat(s, from);
    if from.len() == 0 || i < 0 {
        s
    } else if i + from.len() <= s.len() {
        s.take(i) + to + replace_all_spec(s.skip(i + from.len() as int), from, to)
    } else {
        s
    }
}

/// Replace the leftmost occurrence of `from` in `s` by `to`; `s` unchanged
/// when `from` does not occur. An empty `from` leaves `s` unchanged.
pub open spec fn replace_first_spec(s: Seq<char>, from: Seq<char>, to: Seq<char>) -> Seq<char> {
    let i = find_pat(s, from);
    if from.len() == 0 || i < 0 {
        s
    } else if i + from.len() <= s.len() {
        s.take(i) + to + s.skip(i + from.len() as int)
    } else {
        s
    }
}

/// When `from` occurs in `s` exactly once (no further occurrence follows
/// the first), replacing it is precisely the splice at that occurrence: the
/// text before it and after it is kept verbatim and only that occurrence
/// becomes `to`.
pub proof fn lemma_replace_single_occurrence(s: Seq<char>, from: Seq<char>, to: Seq<char>)
    requires
        from.len() > 0,
        find_pat(s, from) >= 0,
        find_pat(s.skip(find_pat(s, from) + from.len() as int), from) == -1,
    ensures
        replace_all_spec(s, from, to) == s.take(find_pat(s, from)) + to + s.skip(
            find_pat(s, from) + from.len() as int,
        ),
        is_match_at(replace_all_spec(s, from, to), to, find_pat(s, from)),
{
    let i = find_pat(s, from);
    lemma_find_pat(s, from);
    let tail = s.skip(i + from.len() as int);
    assert(replace_all_spec(tail, from, to) == tail);
    let out = s.take(i) + to + tail;
    assert(out.subrange(i, i + to.len() as int) =~= to);
}

/// The migration file extension that is stripped from a filename to obtain
/// the stem used in dependency references.
pub open spec fn extension() -> Seq<char> {
    seq!['.', 'p', 'y']
}

/// `s` without a trailing `.py`; `s` itself when it does not end in `.py`.
pub open spec fn strip_ext_spec(s: Seq<char>) -> Seq<char> {
    if s.len() >= 3 && s.skip(s.len() - 3) == extension() {
        s.take(s.len() - 3)
    } else {
        s
    }
}

// ---------------------------------------------------------------------------
// Decimal printing
// ---------------------------------------------------------------------------

/// The digit character for a value in 0..10.
pub open spec fn digit_char(d: int) -> char {
    if d == 0 {
        '0'
    } else if d == 1 {
        '1'
    } else if d == 2 {
        '2'
    } else if d == 3 {
        '3'
    } else if d == 4 {
        '4'
    } else if d == 5 {
        '5'
    } else if d == 6 {
        '6'
    } else if d == 7 {
        '7'
    } else if d == 8 {
        '8'
    } else {
        '9'
    }
}

/// Decimal representation of a non-negative number, without leading zeros
/// (a single `0` for zero).
pub open spec fn dec_str(n: int) -> Seq<char>
    decreases n,
{
    if n < 10 {
        seq![digit_char(n)]
    } else {
        dec_str(n / 10).push(digit_char(n % 10))
    }
}

fn digit_str(d: i64) -> (r: &'static str)
    requires
        0 <= d < 10,
    ensures
        r@ == seq![digit_char(d as int)],
{
    proof {
        reveal_strlit("0");
        reveal_strlit("1");
        reveal_strlit("2");
        reveal_strlit("3");
        reveal_strlit("4");
        reveal_strlit("5");
        reveal_strlit("6");
        reveal_strlit("7");
        reveal_strlit("8");
        reveal_strlit("9");
    }
    let r = if d == 0 {
        "0"
    } else if d == 1 {
        "1"
    } else if d == 2 {
        "2"
    } else if d == 3 {
        "3"
    } else if d == 4 {
        "4"
    } else if d == 5 {
        "5"
    } else if d == 6 {
        "6"
    } else if d == 7 {
        "7"
    } else if d == 8 {
        "8"
    } else {
        "9"
    };
    proof {
        assert(r@ =~= seq![digit_char(d as int)]);
    }
    r
}

fn push_decimal(out: &mut String, n: i64)
    requires
        n >= 0,
    ensures
        final(out)@ == old(out)@ + dec_str(n as int),
    decreases n,
{
    if n >= 10 {
        push_decimal(out, n / 10);
    }
    out.append(digit_str(n % 10));
    proof {
        assert(out@ =~= old(out)@ + dec_str(n as int));
    }
}

/// Decimal string of a non-negative number, as `to_string` would print it.
pub fn int_to_string(n: i64) -> (r: String)
    requires
        n >= 0,
    ensures
        r@ == dec_str(n as int),
{
    let mut out = String::new();
    push_decimal(&mut out, n);
    proof {
        assert(out@ =~= dec_str(n as int));
    }
    out
}

// ---------------------------------------------------------------------------
// Executable search and replace
// ---------------------------------------------------------------------------

/// Whether `p` occurs in `s` at character position `i`.
pub fn match_at(s: &str, p: &str, i: usize) -> (r: bool)
    ensures
        r == is_match_at(s@, p@, i as int),
{
    let sn = s.unicode_len();
    let pn = p.unicode_len();
    if i > sn || pn > sn - i {
        proof {
            assert(!is_match_at(s@, p@, i as int));
        }
        return false;
    }
    let mut j: usize = 0;
    while j < pn
        invariant
            0 <= j <= pn,
            i + pn <= sn,
            sn == s@.len(),
            pn == p@.len(),
            forall|k: int| 0 <= k < j ==> s@[i + k] == p@[k],
        decreases pn - j,
    {
        if s.get_char(i + j) != p.get_char(j) {
            proof {
                assert(s@.subrange(i as int, i + p@.len() as int)[j as int] != p@[j as int]);
            }
            return false;
        }
        j = j + 1;
    }
    proof {
        assert(s@.subrange(i as int, i + p@.len() as int) =~= p@);
    }
    true
}

/// Character index of the leftmost occurrence of `p` in `s`.
pub fn find_first(s: &str, p: &str) -> (r: Option<usize>)
    ensures
        match r {
            Some(i) => i as int == find_pat(s@, p@),
            None => find_pat(s@, p@) == -1,
        },
{
    let sn = s.unicode_len();
    let mut i: usize = 0;
    while i < sn
        invariant
            0 <= i <= sn,
            sn == s@.len(),
            forall|j: int| 0 <= j < i ==> !is_match_at(s@, p@, j),
        decreases sn - i,
    {
        if match_at(s, p, i) {
            proof {
                lemma_find_pat(s@, p@);
                assert(find_pat(s@, p@) == i as int);
            }
            return Some(i);
        }
        i = i + 1;
    }
    if match_at(s, p, sn) {
        proof {
            lemma_find_pat(s@, p@);
            assert(find_pat(s@, p@) == sn as int);
        }
        return Some(sn);
    }
    proof {
        lemma_find_pat(s@, p@);
        assert forall|j: int| !is_match_at(s@, p@, j) by {
            if 0 <= j && j + p@.len() <= s@.len() {
                assert(j <= sn as int);
                assert(!is_match_at(s@, p@, j));
            }
        }
    }
    None
}

/// Replace every occurrence of `from` in `s` by `to`, leftmost first and
/// without rescanning the replacement text.
pub fn replace_all(s: &str, from: &str, to: &str) -> (r: String)
    ensures
        r@ == replace_all_spec(s@, from@, to@),
{
    let sn = s.unicode_len();
    let fn_len = from.unicode_len();
    if fn_len == 0 {
        return String::from_str(s);
    }
    let mut out = String::new();
    let mut pos: usize = 0;
    proof {
        assert(s@.skip(0) =~= s@);
        assert(Seq::<char>::empty() + replace_all_spec(s@, from@, to@) =~= replace_all_spec(
            s@,
            from@,
            to@,
        ));
    }
    while pos <= sn
        invariant
            0 <= pos <= sn,
            sn == s@.len(),
            fn_len == from@.len(),
            fn_len > 0,
            replace_all_spec(s@, from@, to@) == out@ + replace_all_spec(
                s@.skip(pos as int),
                from@,
                to@,
            ),
        decreases sn - pos,
    {
        let rem = s.substring_char(pos, sn);
        match find_first(rem, from) {
            Some(i) => {
                proof {
                    lemma_find_pat(rem@, from@);
                }
                out.append(s.substring_char(pos, pos + i));
                out.append(to);
                proof {
                    let tail = rem@.skip(i + from@.len() as int);
                    assert(replace_all_spec(rem@, from@, to@) == rem@.take(i as int) + to@
                        + replace_all_spec(tail, from@, to@));
                    assert(rem@.take(i as int) =~= s@.subrange(pos as int, (pos + i) as int));
                    assert(tail =~= s@.skip((pos + i + fn_len) as int));
                }
                pos = pos + i + fn_len;
            },
            None => {
                proof {
                    assert(replace_all_spec(rem@, from@, to@) == rem@);
                }
                out.append(rem);
                proof {
                    assert(out@ == replace_all_spec(s@, from@, to@));
                }
                return out;
            },
        }
    }
    proof {
        assert(s@.skip(pos as int) =~= Seq::<char>::empty());
        assert(replace_all_spec(Seq::<char>::empty(), from@, to@) == Seq::<char>::empty());
        assert(out@ + Seq::<char>::empty() =~= out@);
    }
    out
}

/// Replace the leftmost occurrence of `from` in `s` by `to`.
pub fn replace_first(s: &str, from: &str, to: &str) -> (r: String)
    ensures
        r@ == replace_first_spec(s@, from@, to@),
{
    let sn = s.unicode_len();
    let fn_len = from.unicode_len();
    if fn_len == 0 {
        return String::from_str(s);
    }
    match find_first(s, from) {
        Some(i) => {
            proof {
                lemma_find_pat(s@, from@);
            }
            let mut out = String::from_str(s.substring_char(0, i));
            out.append(to);
            out.append(s.substring_char(i + fn_len, sn));
            proof {
                assert(s@.subrange(0, i as int) =~= s@.take(i as int));
                assert(s@.subrange((i + fn_len) as int, sn as int) =~= s@.skip(
                    i + from@.len() as int,
                ));
            }
            out
        },
        None => String::from_str(s),
    }
}

/// `name` without a trailing `.py`.
pub fn strip_extension(name: &str) -> (r: String)
    ensures
        r@ == strip_ext_spec(name@),
{
    let n = name.unicode_len();
    proof {
        reveal_strlit(".py");
    }
    if n >= 3 && match_at(name, ".py", n - 3) {
        proof {
            assert(name@.subrange((n - 3) as int, n as int) =~= name@.skip(n - 3));
            assert(".py"@ =~= extension());
        }
        let r = String::from_str(name.substring_char(0, n - 3));
        proof {
            assert(name@.subrange(0, (n - 3) as int) =~= name@.take(n - 3));
        }
        r
    } else {
        proof {
            if n >= 3 && name@.skip(n - 3) == extension() {
                assert(".py"@ =~= extension());
                assert(name@.subrange((n - 3) as int, n as int) =~= name@.skip(n - 3));
                assert(is_match_at(name@, ".py"@, n - 3));
            }
        }
        String::from_str(name)
    }
}

} // verus!
