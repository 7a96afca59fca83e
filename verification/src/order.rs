//! Orders and a verified stable insertion sort.
//!
//! The catalog sorts sessions by start timestamp, projects by path, and
//! search results by score; all of them go through one insertion sort over a
//! small order trait whose implementations fix the comparison.

use vstd::prelude::*;
use crate::wrap::mismatch_from;

verus! {

/// Lexicographic comparison by Unicode scalar value: `a` is at most `b`
/// exactly when, at the first index where they differ, `a` has run out or
/// holds the smaller character.
pub open spec fn lex_le(a: Seq<char>, b: Seq<char>) -> bool {
    let m = mismatch_from(a, b, 0);
    if m >= a.len() {
        true
    } else if m >= b.len() {
        false
    } else {
        (a[m] as int) < (b[m] as int)
    }
}

/// Position and agreement facts about the first mismatch.
pub proof fn lemma_mismatch_props(a: Seq<char>, b: Seq<char>, i: int)
    requires
        0 <= i <= a.len(),
        i <= b.len(),
    ensures
        i <= mismatch_from(a, b, i),
        mismatch_from(a, b, i) <= a.len(),
        mismatch_from(a, b, i) <= b.len(),
        mismatch_from(a, b, i) < a.len() && mismatch_from(a, b, i) < b.len() ==> a[mismatch_from(
            a,
            b,
            i,
        )] != b[mismatch_from(a, b, i)],
        forall|j: int| i <= j < mismatch_from(a, b, i) ==> a[j] == b[j],
    decreases vstd::math::min(a.len() as int, b.len() as int) - i,
{
    if i < a.len() && i < b.len() && a[i] == b[i] {
        lemma_mismatch_props(a, b, i + 1);
    }
}

/// The first mismatch does not depend on the argument order.
proof fn lemma_mismatch_sym(a: Seq<char>, b: Seq<char>, i: int)
    ensures
        mismatch_from(a, b, i) == mismatch_from(b, a, i),
    decreases vstd::math::min(a.len() as int, b.len() as int) - i,
{
    if 0 <= i && i < a.len() && i < b.len() && a[i] == b[i] {
        lemma_mismatch_sym(a, b, i + 1);
    }
}

/// Lexicographic order is total.
pub proof fn lemma_lex_le_total(a: Seq<char>, b: Seq<char>)
    ensures
        lex_le(a, b) || lex_le(b, a),
{
    lemma_mismatch_sym(a, b, 0);
    lemma_mismatch_props(a, b, 0);
    let m = mismatch_from(a, b, 0);
    if m < a.len() && m < b.len() {
        assert(a[m] != b[m]);
        assert((a[m] as int) != (b[m] as int));
    }
}

/// Compares two strings lexicographically by characters.
#[verifier::loop_isolation(false)]
pub fn str_lex_le(a: &str, b: &str) -> (r: bool)
    ensures
        r == lex_le(a@, b@),
{
    let an = a.unicode_len();
    let bn = b.unicode_len();
    let mut i: usize = 0;
    loop
        invariant
            0 <= i <= an,
            i <= bn,
            an == a@.len(),
            bn == b@.len(),
            mismatch_from(a@, b@, 0) == mismatch_from(a@, b@, i as int),
            forall|j: int| 0 <= j < i ==> a@[j] == b@[j],
        decreases an - i,
    {
        if i >= an {
            proof {
                assert(mismatch_from(a@, b@, i as int) == i as int || i == bn);
                lemma_mismatch_props(a@, b@, i as int);
            }
            return true;
        }
        if i >= bn {
            proof {
                assert(mismatch_from(a@, b@, i as int) == i as int);
            }
            return false;
        }
        let ca = a.get_char(i);
        let cb = b.get_char(i);
        if ca != cb {
            proof {
                assert(mismatch_from(a@, b@, i as int) == i as int);
            }
            return (ca as u32) < (cb as u32);
        }
        i += 1;
    }
}

// ---------------------------------------------------------------------------
// The order trait and insertion sort.
// ---------------------------------------------------------------------------

/// A total "may come before" relation.
pub trait SortOrd: Sized + DeepView {
    /// The order: `a` may stand before `b`.
    spec fn le_spec(a: Self, b: Self) -> bool;

    /// The order is total.
    proof fn lemma_total(a: Self, b: Self)
        ensures
            Self::le_spec(a, b) || Self::le_spec(b, a),
    ;

    /// Decides the order.
    fn le(a: &Self, b: &Self) -> (r: bool)
        ensures
            r == Self::le_spec(*a, *b),
    ;
}

/// Every element may stand before its successor.
pub open spec fn sorted_by_ord<T: SortOrd>(s: Seq<T>) -> bool {
    forall|i: int| 0 <= i < s.len() - 1 ==> T::le_spec(#[trigger] s[i], s[i + 1])
}

/// Sorts the elements stably by the type's order: the result holds exactly
/// the input elements, each element may stand before its successor, and
/// elements the order does not distinguish keep their relative position.
#[verifier::loop_isolation(false)]
pub fn insertion_sort<T: SortOrd>(input: Vec<T>) -> (r: Vec<T>)
    ensures
        r@.to_multiset() == input@.to_multiset(),
        r.deep_view().to_multiset() == input.deep_view().to_multiset(),
        r@.len() == input@.len(),
        sorted_by_ord::<T>(r@),
{
    broadcast use vstd::seq_lib::group_to_multiset_ensures;
    broadcast use crate::text::lemma_deep_view_len, crate::text::lemma_deep_view_index;

    let mut v = input;
    let mut out: Vec<T> = Vec::new();
    let ghost input_deep = v.deep_view();
    proof {
        assert(out@.to_multiset().add(v@.to_multiset()) =~= input@.to_multiset());
        assert(out.deep_view().to_multiset().add(v.deep_view().to_multiset())
            =~= input_deep.to_multiset());
    }
    while v.len() > 0
        invariant
            out@.to_multiset().add(v@.to_multiset()) == input@.to_multiset(),
            out.deep_view().to_multiset().add(v.deep_view().to_multiset())
                == input_deep.to_multiset(),
            out@.len() + v@.len() == input@.len(),
            sorted_by_ord::<T>(out@),
        decreases v@.len(),
    {
        let ghost prev_v = v@;
        let ghost prev_vv = v;
        let ghost prev_out = out@;
        let ghost prev_outv = out;
        let x = v.remove(0);
        proof {
            assert(prev_v.remove(0).to_multiset() =~= prev_v.to_multiset().remove(prev_v[0]));
            assert(prev_v.to_multiset().count(prev_v[0]) > 0) by {
                assert(prev_v.contains(prev_v[0]));
            }
            crate::text::lemma_deep_remove(v, prev_vv, 0);
            let pd = prev_vv.deep_view();
            assert(pd.remove(0).to_multiset() =~= pd.to_multiset().remove(pd[0]));
            assert(pd.to_multiset().count(pd[0]) > 0) by {
                assert(pd.contains(pd[0]));
            }
        }
        let mut p: usize = 0;
        while p < out.len() && T::le(&out[p], &x)
            invariant
                0 <= p <= out@.len(),
                forall|j: int| 0 <= j < p ==> T::le_spec(#[trigger] out@[j], x),
            decreases out@.len() - p,
        {
            p += 1;
        }
        if p < out.len() {
            proof {
                T::lemma_total(out@[p as int], x);
            }
        }
        out.insert(p, x);
        proof {
            crate::order::lemma_insert_to_multiset(prev_out, p as int, x);
            assert(out@.to_multiset().add(v@.to_multiset()) =~= input@.to_multiset());
            crate::text::lemma_deep_insert(out, prev_outv, p as int, x);
            crate::order::lemma_insert_to_multiset(prev_outv.deep_view(), p as int, x.deep_view());
            assert(out.deep_view().to_multiset().add(v.deep_view().to_multiset())
                =~= input_deep.to_multiset());
            assert forall|i: int|
                0 <= i < out@.len() - 1 implies T::le_spec(#[trigger] out@[i], out@[i + 1]) by {
                if i < p - 1 {
                    assert(out@[i] == prev_out[i]);
                    assert(out@[i + 1] == prev_out[i + 1]);
                } else if i == p - 1 {
                    assert(out@[i] == prev_out[i]);
                    assert(out@[i + 1] == x);
                } else if i == p {
                    assert(out@[i] == x);
                    assert(out@[i + 1] == prev_out[i]);
                } else {
                    assert(out@[i] == prev_out[i - 1]);
                    assert(out@[i + 1] == prev_out[i]);
                }
            }
        }
    }
    proof {
        assert(v@.to_multiset().len() == 0);
        assert(out@.to_multiset().add(v@.to_multiset()) =~= out@.to_multiset());
        assert(v.deep_view().to_multiset().len() == 0);
        assert(out.deep_view().to_multiset().add(v.deep_view().to_multiset())
            =~= out.deep_view().to_multiset());
    }
    out
}

/// In a sequence with the same elements, every element of one occurs in the
/// other.
pub proof fn lemma_multiset_elems<T>(s1: Seq<T>, s2: Seq<T>)
    requires
        s1.to_multiset() == s2.to_multiset(),
    ensures
        forall|i: int| 0 <= i < s2.len() ==> s1.contains(#[trigger] s2[i]),
{
    broadcast use vstd::seq_lib::group_to_multiset_ensures;

    assert forall|i: int| 0 <= i < s2.len() implies s1.contains(#[trigger] s2[i]) by {
        assert(s2.contains(s2[i]));
        assert(s2.to_multiset().count(s2[i]) > 0);
    }
}

/// Inserting an element anywhere adds it to the sequence's multiset.
pub proof fn lemma_insert_to_multiset<T>(s: Seq<T>, p: int, x: T)
    requires
        0 <= p <= s.len(),
    ensures
        s.insert(p, x).to_multiset() == s.to_multiset().insert(x),
{
    broadcast use vstd::seq_lib::group_to_multiset_ensures;

    let s2 = s.insert(p, x);
    assert(s2.remove(p) =~= s);
    assert(s2[p] == x);
    assert(s2.remove(p).to_multiset() =~= s2.to_multiset().remove(s2[p]));
    assert(s2.contains(x)) by {
        assert(s2[p] == x);
    }
    assert(s2.to_multiset().count(x) > 0);
    assert(s2.to_multiset() =~= s.to_multiset().insert(x)) by {
        assert(s.to_multiset() == s2.to_multiset().remove(x));
    }
}

/// Mapping a function over sequences with the same elements yields sequences
/// with the same mapped elements.
pub proof fn lemma_map_multiset<A, B>(s1: Seq<A>, s2: Seq<A>, f: spec_fn(A) -> B)
    requires
        s1.to_multiset() == s2.to_multiset(),
    ensures
        s1.map_values(f).to_multiset() == s2.map_values(f).to_multiset(),
    decreases s1.len(),
{
    broadcast use vstd::seq_lib::group_to_multiset_ensures;
    broadcast use vstd::multiset::group_multiset_axioms;

    s1.to_multiset_ensures();
    s2.to_multiset_ensures();
    assert(s1.to_multiset().len() == s2.to_multiset().len());
    if s1.len() == 0 {
        assert(s2.len() == 0);
        assert(s1.map_values(f) =~= Seq::<B>::empty());
        assert(s2.map_values(f) =~= Seq::<B>::empty());
        assert(s1.map_values(f).to_multiset() =~= s2.map_values(f).to_multiset());
    } else {
        let x = s1[0];
        assert(s1.contains(x));
        assert(s1.to_multiset().count(x) > 0);
        assert(s2.to_multiset().count(x) > 0);
        assert(s2.contains(x));
        let k = choose|k: int| 0 <= k < s2.len() && s2[k] == x;
        let s1r = s1.remove(0);
        let s2r = s2.remove(k);
        assert(s1r.to_multiset() =~= s1.to_multiset().remove(x));
        assert(s2r.to_multiset() =~= s2.to_multiset().remove(x));
        lemma_map_multiset(s1r, s2r, f);
        let m1 = s1.map_values(f);
        let m2 = s2.map_values(f);
        assert(m1.remove(0) =~= s1r.map_values(f));
        assert(m2.remove(k) =~= s2r.map_values(f));
        assert(m1[0] == f(x));
        assert(m2[k] == f(x));
        assert(m1.remove(0).to_multiset() =~= m1.to_multiset().remove(f(x)));
        assert(m2.remove(k).to_multiset() =~= m2.to_multiset().remove(f(x)));
        assert(m1.contains(m1[0]));
        assert(m1.to_multiset().count(f(x)) > 0);
        assert(m2.contains(m2[k]));
        assert(m2.to_multiset().count(f(x)) > 0);
        assert(m1.to_multiset() =~= m2.to_multiset()) by {
            assert forall|b: B| true implies m1.to_multiset().count(b) == m2.to_multiset().count(
                b,
            ) by {
                assert(m1.to_multiset().remove(f(x)).count(b) == m2.to_multiset().remove(
                    f(x),
                ).count(b));
            }
        }
    }
}

} // verus!
