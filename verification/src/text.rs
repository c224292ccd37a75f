//! Text helpers: decimal rendering of counters, the session note label, and
//! substring search for the task-name filter.

use vstd::prelude::*;
use vstd::string::StrSliceExecFns;
use vstd::string::StringExecFns;
use crate::date::digit_char;
use crate::date::digit_str;

verus! {

/// The decimal digits of `n >= 0`, most significant first.
pub open spec fn dec_string(n: int) -> Seq<char>
    decreases n,
{
    if n < 10 {
        seq![digit_char(n)]
    } else {
        dec_string(n / 10).push(digit_char(n % 10))
    }
}

/// `n` rendered in decimal.
pub fn dec_to_string(n: i64) -> (s: String)
    requires
        0 <= n,
    ensures
        s@ == dec_string(n as int),
    decreases n,
{
    if n < 10 {
        String::from_str(digit_str(n))
    } else {
        let mut s = dec_to_string(n / 10);
        s.append(digit_str(n % 10));
        assert(s@ =~= dec_string(n as int));
        s
    }
}

/// The ledger note of a work session: the task title, a space, `#`, and the
/// session's ordinal.
pub open spec fn session_note(title: Seq<char>, ordinal: int) -> Seq<char> {
    title + seq![' ', '#'] + dec_string(ordinal)
}

/// Builds the note of the `ordinal`-th session of a task.
pub fn make_session_note(title: &String, ordinal: i64) -> (s: String)
    requires
        0 <= ordinal,
    ensures
        s@ == session_note(title@, ordinal as int),
{
    proof {
        reveal_strlit(" #");
    }
    let mut s = title.clone();
    s.append(" #");
    let digits = dec_to_string(ordinal);
    s.append(digits.as_str());
    assert(s@ =~= session_note(title@, ordinal as int));
    s
}

/// `needle` occurs as a contiguous run of characters in `hay`.
pub open spec fn contains_seq(hay: Seq<char>, needle: Seq<char>) -> bool {
    exists|k: int|
        0 <= k <= hay.len() - needle.len() && #[trigger] hay.subrange(k, k + needle.len() as int)
            == needle
}

/// Whether `needle` matches `hay` at offset `k`.
fn match_at(hay: &str, needle: &str, k: usize, hn: usize, nn: usize) -> (r: bool)
    requires
        hn == hay@.len(),
        nn == needle@.len(),
        k + nn <= hn,
    ensures
        r == (hay@.subrange(k as int, k as int + nn as int) == needle@),
{
    let mut j: usize = 0;
    let mut ok: bool = true;
    while j < nn
        invariant
            j <= nn,
            k + nn <= hn,
            hn == hay@.len(),
            nn == needle@.len(),
            ok == (forall|j2: int| 0 <= j2 < j ==> hay@[k + j2] == needle@[j2]),
        decreases nn - j,
    {
        let eq = hay.get_char(k + j) == needle.get_char(j);
        ok = ok && eq;
        j = j + 1;
    }
    proof {
        if ok {
            assert(hay@.subrange(k as int, k as int + nn as int) =~= needle@);
        } else {
            let j2 = choose|j2: int|
                0 <= j2 < nn && hay@[k + j2] != needle@[j2];
            assert(hay@.subrange(k as int, k as int + nn as int)[j2] != needle@[j2]);
        }
    }
    ok
}

/// Whether `needle` occurs anywhere in `hay`.
pub fn str_contains(hay: &str, needle: &str) -> (r: bool)
    ensures
        r == contains_seq(hay@, needle@),
{
    let hn = hay.unicode_len();
    let nn = needle.unicode_len();
    if nn > hn {
        return false;
    }
    if nn == 0 {
        assert(hay@.subrange(0, 0 + needle@.len() as int) =~= needle@);
        return true;
    }
    let mut k: usize = 0;
    let mut found: bool = false;
    while k <= hn - nn && !found
        invariant
            1 <= nn <= hn,
            hn == hay@.len(),
            nn == needle@.len(),
            k <= hn - nn + 1,
            found ==> contains_seq(hay@, needle@),
            !found ==> forall|k2: int|
                0 <= k2 < k ==> #[trigger] hay@.subrange(k2, k2 + nn as int) != needle@,
        decreases hn - nn - k + if found {
            0int
        } else {
            1int
        },
    {
        if match_at(hay, needle, k, hn, nn) {
            found = true;
        } else {
            k = k + 1;
        }
    }
    found
}

} // verus!
