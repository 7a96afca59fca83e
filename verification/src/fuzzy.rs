//! Fuzzy subsequence matcher used to rank sessions and projects against a
//! free-text query.
//!
//! The matcher scans the haystack once, advancing a query cursor on
//! case-insensitive character matches. Matched characters award a base score,
//! contiguous runs and word boundaries award bonuses, and the final score is
//! penalized by an eighth of the haystack length. A query matches exactly
//! when it is an ordered (not necessarily contiguous) subsequence of the
//! haystack, up to ASCII case.

use vstd::prelude::*;
use crate::text::str_to_chars;

verus! {

/// Query lengths up to this bound give scores that fit comfortably in `i64`.
pub const SCORE_SAFE_LEN: u64 = 0x0400_0000_0000_0000;

/// ASCII lowercase folding of one character.
pub open spec fn lower_char(c: char) -> char {
    if 'A' <= c && c <= 'Z' {
        ((c as u32) + 32) as char
    } else {
        c
    }
}

/// The characters that begin a new "word" for the boundary bonus.
pub open spec fn boundary_char(c: char) -> bool {
    c == ' ' || c == '/' || c == '_' || c == '-' || c == '.'
}

/// Case-insensitive (ASCII) character equality.
pub fn eq_ci(a: char, b: char) -> (r: bool)
    ensures
        r == (lower_char(a) == lower_char(b)),
{
    let la: u32 = if 'A' <= a && a <= 'Z' {
        a as u32 + 32
    } else {
        a as u32
    };
    let lb: u32 = if 'A' <= b && b <= 'Z' {
        b as u32 + 32
    } else {
        b as u32
    };
    la == lb
}

/// Reports whether the character begins a new word when it follows `c`.
pub fn is_boundary(c: char) -> (r: bool)
    ensures
        r == boundary_char(c),
{
    c == ' ' || c == '/' || c == '_' || c == '-' || c == '.'
}

/// Matcher state after scanning the first `n` haystack characters:
/// accumulated score, query cursor, and index of the last match.
pub open spec fn fuzzy_state(q: Seq<char>, h: Seq<char>, n: int) -> (int, int, Option<int>)
    decreases n,
{
    if n <= 0 {
        (0, 0, None::<int>)
    } else {
        let st = fuzzy_state(q, h, n - 1);
        let i = n - 1;
        if st.1 < q.len() && lower_char(h[i]) == lower_char(q[st.1]) {
            let contig: int = if st.2 is Some && i == st.2->0 + 1 {
                8
            } else {
                0
            };
            let word: int = if i == 0 || boundary_char(h[i - 1]) {
                6
            } else {
                0
            };
            (st.0 + 10 + contig + word, st.1 + 1, Some(i))
        } else {
            st
        }
    }
}

/// The score of a query against a haystack: the state score minus an eighth
/// of the haystack length, or no score when the query cursor never reached
/// the end of the query. An empty query always scores zero.
pub open spec fn fuzzy_score_spec(q: Seq<char>, h: Seq<char>) -> Option<int> {
    if q.len() == 0 {
        Some(0int)
    } else {
        let st = fuzzy_state(q, h, h.len() as int);
        if st.1 == q.len() {
            Some(st.0 - h.len() as int / 8)
        } else {
            None
        }
    }
}

/// Bounds on the matcher state: the cursor never passes the query or the
/// scan position, each matched character adds at most 24, and the last match
/// lies before the scan position.
pub proof fn lemma_fuzzy_state_bounds(q: Seq<char>, h: Seq<char>, n: int)
    requires
        n >= 0,
    ensures
        0 <= fuzzy_state(q, h, n).1 <= q.len(),
        fuzzy_state(q, h, n).1 <= n,
        10 * fuzzy_state(q, h, n).1 <= fuzzy_state(q, h, n).0 <= 24 * fuzzy_state(q, h, n).1,
        0 <= fuzzy_state(q, h, n).0,
        fuzzy_state(q, h, n).2 is Some ==> 0 <= fuzzy_state(q, h, n).2->0 < n,
    decreases n,
{
    if n > 0 {
        lemma_fuzzy_state_bounds(q, h, n - 1);
    }
}

/// Converts an executable match index to its spec form.
pub open spec fn opt_int(o: Option<usize>) -> Option<int> {
    match o {
        Some(p) => Some(p as int),
        None => None,
    }
}

/// Scores a query against a haystack. Returns no score when the query is not
/// an ordered subsequence of the haystack; an empty query scores zero.
///
/// The returned score equals the specification score for every query short
/// enough that the score arithmetic fits in an `i64`; for longer queries the
/// score saturates instead of overflowing, and whether a match exists is
/// still reported exactly.
pub fn fuzzy_score(query: &str, haystack: &str) -> (r: Option<i64>)
    ensures
        r is Some <==> fuzzy_score_spec(query@, haystack@) is Some,
        r is Some ==> r->0 > i64::MIN,
        query@.len() <= SCORE_SAFE_LEN as int && haystack@.len() <= SCORE_SAFE_LEN as int && r
            is Some ==> Some(r->0 as int) == fuzzy_score_spec(query@, haystack@),
{
    let q = str_to_chars(query);
    let h = str_to_chars(haystack);
    if q.len() == 0 {
        return Some(0);
    }
    let mut score: i64 = 0;
    let mut qi: usize = 0;
    let mut prev: Option<usize> = None;
    let mut i: usize = 0;
    while i < h.len()
        invariant
            i <= h@.len(),
            q@ == query@,
            h@ == haystack@,
            q@.len() > 0,
            qi == fuzzy_state(q@, h@, i as int).1,
            opt_int(prev) == fuzzy_state(q@, h@, i as int).2,
            0 <= score,
            q@.len() <= SCORE_SAFE_LEN as int ==> score as int == fuzzy_state(q@, h@, i as int).0,
        decreases h@.len() - i,
    {
        proof {
            lemma_fuzzy_state_bounds(q@, h@, i as int);
            lemma_fuzzy_state_bounds(q@, h@, i + 1);
        }
        let c = h[i];
        if qi < q.len() && eq_ci(c, q[qi]) {
            let mut bonus: i64 = 10;
            match prev {
                Some(p) => {
                    if i == p + 1 {
                        bonus += 8;
                    }
                },
                None => {},
            }
            if i == 0 || is_boundary(h[i - 1]) {
                bonus += 6;
            }
            if score <= i64::MAX - bonus {
                score += bonus;
            } else {
                score = i64::MAX;
            }
            qi += 1;
            prev = Some(i);
        }
        i += 1;
    }
    if qi == q.len() {
        proof {
            lemma_fuzzy_state_bounds(q@, h@, h@.len() as int);
        }
        let hl: u64 = h.len() as u64;
        let penalty: i64 = if hl <= i64::MAX as u64 {
            (hl as i64) / 8
        } else {
            i64::MAX / 8
        };
        Some(score - penalty)
    } else {
        None
    }
}

// ---------------------------------------------------------------------------
// Search completeness: a query matches exactly when it is an ordered
// subsequence of the haystack (case-insensitively).
// ---------------------------------------------------------------------------

/// `idx` embeds `q` into `h`: strictly increasing positions at which the
/// haystack matches the query case-insensitively.
pub open spec fn is_embedding(q: Seq<char>, h: Seq<char>, idx: Seq<int>) -> bool {
    &&& idx.len() == q.len()
    &&& forall|k: int|
        0 <= k < idx.len() ==> 0 <= #[trigger] idx[k] < h.len() && lower_char(h[idx[k]])
            == lower_char(q[k])
    &&& forall|k: int| 0 < k < idx.len() ==> #[trigger] idx[k - 1] < idx[k]
}

/// The query appears in the haystack as an ordered, not necessarily
/// contiguous, subsequence (up to ASCII case).
pub open spec fn is_subsequence(q: Seq<char>, h: Seq<char>) -> bool {
    exists|idx: Seq<int>| is_embedding(q, h, idx)
}

/// Number of embedding positions that lie before `n`.
spec fn count_below(idx: Seq<int>, n: int) -> int
    decreases idx.len(),
{
    if idx.len() == 0 || idx[0] >= n {
        0
    } else {
        1 + count_below(idx.drop_first(), n)
    }
}

/// On a strictly increasing nonnegative sequence, `count_below` grows by one
/// exactly when `n - 1` is an entry, and that entry sits at the count's
/// position.
proof fn lemma_count_below_step(idx: Seq<int>, n: int)
    requires
        n >= 1,
        forall|k: int| 0 <= k < idx.len() ==> #[trigger] idx[k] >= 0,
        forall|k: int| 0 < k < idx.len() ==> #[trigger] idx[k - 1] < idx[k],
    ensures
        0 <= count_below(idx, n - 1) <= count_below(idx, n) <= idx.len(),
        count_below(idx, n) <= count_below(idx, n - 1) + 1,
        count_below(idx, n) == count_below(idx, n - 1) + 1 ==> {
            let j = count_below(idx, n - 1);
            idx[j] == n - 1
        },
        (exists|k: int| 0 <= k < idx.len() && idx[k] == n - 1) ==> count_below(idx, n)
            == count_below(idx, n - 1) + 1,
    decreases idx.len(),
{
    if idx.len() == 0 {
    } else if idx[0] >= n {
        // No entry lies below n, and none can equal n - 1 either.
        assert forall|k: int| 0 <= k < idx.len() implies #[trigger] idx[k] != n - 1 by {
            lemma_increasing_from(idx, 0, k);
        }
    } else {
        let rest = idx.drop_first();
        assert forall|k: int| 0 < k < rest.len() implies #[trigger] rest[k - 1] < rest[k] by {
            assert(idx[(k + 1) - 1] < idx[k + 1]);
            assert(rest[k - 1] == idx[k]);
            assert(rest[k] == idx[k + 1]);
        }
        assert forall|k: int| 0 <= k < rest.len() implies #[trigger] rest[k] >= 0 by {
            assert(rest[k] == idx[k + 1]);
        }
        if idx[0] == n - 1 {
            // Everything after the head is at least n.
            assert(count_below(idx, n - 1) == 0);
            assert forall|k: int| 0 <= k < rest.len() implies #[trigger] rest[k] >= n by {
                lemma_increasing_from(idx, 0, k + 1);
            }
            assert(count_below(rest, n) == 0);
            assert(count_below(idx, n) == 1);
        } else {
            lemma_count_below_step(rest, n);
            assert forall|k: int|
                (0 <= k < idx.len() && idx[k] == n - 1) implies (exists|k2: int|
                0 <= k2 < rest.len() && rest[k2] == n - 1) by {
                assert(k != 0);
                assert(rest[k - 1] == n - 1);
            }
            if count_below(idx, n) == count_below(idx, n - 1) + 1 {
                let j = count_below(rest, n - 1);
                assert(idx[j + 1] == rest[j]);
            }
        }
    }
}

/// In a strictly increasing sequence, later entries are larger.
proof fn lemma_increasing_from(idx: Seq<int>, a: int, b: int)
    requires
        forall|k: int| 0 < k < idx.len() ==> #[trigger] idx[k - 1] < idx[k],
        0 <= a <= b < idx.len(),
    ensures
        idx[a] + (b - a) <= idx[b],
    decreases b - a,
{
    if a < b {
        lemma_increasing_from(idx, a, b - 1);
        assert(idx[b - 1] < idx[b]);
    }
}

/// When every entry lies below `n`, the count below `n` is the whole length.
proof fn lemma_count_below_all(idx: Seq<int>, n: int)
    requires
        forall|k: int| 0 <= k < idx.len() ==> 0 <= #[trigger] idx[k] < n,
        forall|k: int| 0 < k < idx.len() ==> #[trigger] idx[k - 1] < idx[k],
    ensures
        count_below(idx, n) == idx.len(),
    decreases idx.len(),
{
    if idx.len() > 0 {
        let rest = idx.drop_first();
        assert forall|k: int| 0 < k < rest.len() implies #[trigger] rest[k - 1] < rest[k] by {
            assert(idx[(k + 1) - 1] < idx[k + 1]);
            assert(rest[k - 1] == idx[k]);
            assert(rest[k] == idx[k + 1]);
        }
        assert forall|k: int| 0 <= k < rest.len() implies 0 <= #[trigger] rest[k] < n by {
            assert(rest[k] == idx[k + 1]);
        }
        lemma_count_below_all(rest, n);
    }
}

/// Soundness: the greedy matcher's progress is witnessed by an embedding of
/// the matched query prefix whose last position is the recorded last match.
proof fn lemma_fuzzy_sound(q: Seq<char>, h: Seq<char>, n: int)
    requires
        0 <= n <= h.len(),
    ensures
        exists|idx: Seq<int>|
            #![trigger is_embedding(q.take(fuzzy_state(q, h, n).1), h, idx)]
            {
                let st = fuzzy_state(q, h, n);
                &&& is_embedding(q.take(st.1), h, idx)
                &&& (forall|k: int| 0 <= k < idx.len() ==> #[trigger] idx[k] < n)
                &&& (st.2 is Some ==> idx.len() > 0 && idx.last() == st.2->0)
                &&& (st.2 is None ==> idx.len() == 0)
            },
    decreases n,
{
    if n == 0 {
        let idx = Seq::<int>::empty();
        assert(q.take(0) =~= Seq::<char>::empty());
        assert(is_embedding(q.take(fuzzy_state(q, h, 0).1), h, idx));
    } else {
        lemma_fuzzy_sound(q, h, n - 1);
        let st = fuzzy_state(q, h, n - 1);
        let stn = fuzzy_state(q, h, n);
        let i = n - 1;
        let idx = choose|idx: Seq<int>|
            #![trigger is_embedding(q.take(fuzzy_state(q, h, n - 1).1), h, idx)]
            {
                &&& is_embedding(q.take(st.1), h, idx)
                &&& (forall|k: int| 0 <= k < idx.len() ==> #[trigger] idx[k] < n - 1)
                &&& (st.2 is Some ==> idx.len() > 0 && idx.last() == st.2->0)
                &&& (st.2 is None ==> idx.len() == 0)
            };
        if st.1 < q.len() && lower_char(h[i]) == lower_char(q[st.1]) {
            let idx2 = idx.push(i);
            lemma_fuzzy_state_bounds(q, h, n - 1);
            assert(q.take(stn.1) =~= q.take(st.1).push(q[st.1]));
            assert forall|k: int| 0 < k < idx2.len() implies #[trigger] idx2[k - 1] < idx2[k] by {
                if k == idx2.len() - 1 {
                    assert(idx2[k - 1] == idx[k - 1]);
                    assert(idx[k - 1] < n - 1);
                }
            }
            assert(is_embedding(q.take(stn.1), h, idx2));
            assert(idx2.last() == i);
        } else {
            assert(is_embedding(q.take(stn.1), h, idx));
        }
    }
}

/// Completeness: any embedding forces the greedy cursor to be at least the
/// number of embedding positions already scanned.
proof fn lemma_fuzzy_complete(q: Seq<char>, h: Seq<char>, idx: Seq<int>, n: int)
    requires
        is_embedding(q, h, idx),
        0 <= n <= h.len(),
    ensures
        fuzzy_state(q, h, n).1 >= count_below(idx, n),
    decreases n,
{
    if n > 0 {
        lemma_fuzzy_complete(q, h, idx, n - 1);
        lemma_fuzzy_state_bounds(q, h, n - 1);
        assert forall|k: int| 0 <= k < idx.len() implies #[trigger] idx[k] >= 0 by {}
        lemma_count_below_step(idx, n);
        let st = fuzzy_state(q, h, n - 1);
        let j = count_below(idx, n - 1);
        if count_below(idx, n) == j + 1 {
            if st.1 == j {
                assert(idx[j] == n - 1);
                assert(lower_char(h[n - 1]) == lower_char(q[j]));
                assert(fuzzy_state(q, h, n).1 == j + 1);
            }
        }
    }
}

/// Search completeness: a query scores against a haystack exactly when it is
/// an ordered subsequence of it (case-insensitively), and the empty query
/// matches everything with score zero.
pub proof fn lemma_search_completeness(q: Seq<char>, h: Seq<char>)
    ensures
        fuzzy_score_spec(q, h) is Some <==> is_subsequence(q, h),
        fuzzy_score_spec(Seq::<char>::empty(), h) == Some(0int),
{
    if q.len() == 0 {
        let idx = Seq::<int>::empty();
        assert(is_embedding(q, h, idx));
    } else {
        let st = fuzzy_state(q, h, h.len() as int);
        if fuzzy_score_spec(q, h) is Some {
            lemma_fuzzy_sound(q, h, h.len() as int);
            let idx = choose|idx: Seq<int>|
                #![trigger is_embedding(q.take(fuzzy_state(q, h, h.len() as int).1), h, idx)]
                {
                    &&& is_embedding(q.take(st.1), h, idx)
                    &&& (forall|k: int| 0 <= k < idx.len() ==> #[trigger] idx[k] < h.len())
                    &&& (st.2 is Some ==> idx.len() > 0 && idx.last() == st.2->0)
                    &&& (st.2 is None ==> idx.len() == 0)
                };
            assert(q.take(st.1) =~= q);
            assert(is_embedding(q, h, idx));
        }
        if is_subsequence(q, h) {
            let idx = choose|idx: Seq<int>| is_embedding(q, h, idx);
            lemma_fuzzy_complete(q, h, idx, h.len() as int);
            lemma_count_below_all(idx, h.len() as int);
            lemma_fuzzy_state_bounds(q, h, h.len() as int);
        }
    }
}

// ---------------------------------------------------------------------------
// Score bounds: matches are worth between 10 and 24 points per query
// character, so a much longer haystack always scores strictly lower.
// ---------------------------------------------------------------------------

/// Any successful score lies between `10 |q| - |h| / 8` and `24 |q| - |h| / 8`.
pub proof fn lemma_fuzzy_score_bounds(q: Seq<char>, h: Seq<char>)
    requires
        q.len() > 0,
        fuzzy_score_spec(q, h) is Some,
    ensures
        fuzzy_score_spec(q, h)->0 <= 24 * q.len() - h.len() as int / 8,
        fuzzy_score_spec(q, h)->0 >= 10 * q.len() - h.len() as int / 8,
{
    lemma_fuzzy_state_bounds(q, h, h.len() as int);
}

/// For one query matched by two haystacks, the match against the second
/// scores strictly lower as soon as the second haystack's length penalty
/// outweighs the largest possible per-character advantage.
pub proof fn lemma_fuzzy_length_penalty(q: Seq<char>, h1: Seq<char>, h2: Seq<char>)
    requires
        q.len() > 0,
        fuzzy_score_spec(q, h1) is Some,
        fuzzy_score_spec(q, h2) is Some,
        h2.len() as int / 8 > 14 * q.len() + h1.len() as int / 8,
    ensures
        fuzzy_score_spec(q, h1)->0 > fuzzy_score_spec(q, h2)->0,
{
    lemma_fuzzy_score_bounds(q, h1);
    lemma_fuzzy_score_bounds(q, h2);
}

} // verus!
