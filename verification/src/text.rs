//! Character-level utilities shared by the whole engine.
//!
//! All text logic in this crate works over `char` vectors, so that every
//! contract can be stated against `Seq<char>` views of `str` and `String`.

use vstd::prelude::*;

verus! {

/// The deep view of a vector has the vector's length.
pub broadcast proof fn lemma_deep_view_len<T: DeepView>(v: Vec<T>)
    ensures
        #[trigger] v.deep_view().len() == v@.len(),
{
}

/// The deep view of a vector is the sequence of its elements' deep views.
pub broadcast proof fn lemma_deep_view_index<T: DeepView>(v: Vec<T>, i: int)
    requires
        0 <= i < v@.len(),
    ensures
        #[trigger] v.deep_view()[i] == v@[i].deep_view(),
{
}

/// Inserting into a vector inserts into its deep view.
pub proof fn lemma_deep_insert<T: DeepView>(out: Vec<T>, pre: Vec<T>, p: int, x: T)
    requires
        0 <= p <= pre@.len(),
        out@ == pre@.insert(p, x),
    ensures
        out.deep_view() == pre.deep_view().insert(p, x.deep_view()),
{
    broadcast use lemma_deep_view_len, lemma_deep_view_index;

    assert forall|k: int| 0 <= k < out@.len() implies out.deep_view()[k] == pre.deep_view().insert(
        p,
        x.deep_view(),
    )[k] by {
        if k < p {
            assert(out@[k] == pre@[k]);
        } else if k == p {
            assert(out@[k] == x);
        } else {
            assert(out@[k] == pre@[k - 1]);
        }
    }
    assert(out.deep_view() =~= pre.deep_view().insert(p, x.deep_view()));
}

/// Removing from a vector removes from its deep view.
pub proof fn lemma_deep_remove<T: DeepView>(out: Vec<T>, pre: Vec<T>, p: int)
    requires
        0 <= p < pre@.len(),
        out@ == pre@.remove(p),
    ensures
        out.deep_view() == pre.deep_view().remove(p),
{
    broadcast use lemma_deep_view_len, lemma_deep_view_index;

    assert forall|k: int| 0 <= k < out@.len() implies out.deep_view()[k] == pre.deep_view().remove(
        p,
    )[k] by {
        if k < p {
            assert(out@[k] == pre@[k]);
        } else {
            assert(out@[k] == pre@[k + 1]);
        }
    }
    assert(out.deep_view() =~= pre.deep_view().remove(p));
}

/// For a vector of characters the deep view is the view itself.
pub broadcast proof fn lemma_deep_view_chars(v: Vec<char>)
    ensures
        #[trigger] v.deep_view() == v@,
{
    assert(v.deep_view() =~= v@);
}

/// Appending vectors concatenates their deep views.
pub proof fn lemma_deep_concat<T: DeepView>(out: Vec<T>, a: Seq<T::V>, b: Vec<T>, pre: Vec<T>)
    requires
        pre.deep_view() == a,
        out@ == pre@ + b@,
    ensures
        out.deep_view() == a + b.deep_view(),
{
    broadcast use lemma_deep_view_len, lemma_deep_view_index;

    assert forall|k: int| 0 <= k < out@.len() implies out.deep_view()[k] == (a
        + b.deep_view())[k] by {
        if k < pre@.len() {
            assert(out@[k] == pre@[k]);
        } else {
            assert(out@[k] == b@[k - pre@.len()]);
        }
    }
    assert(out.deep_view() =~= a + b.deep_view());
}

/// Pushing onto a vector pushes onto its deep view.
pub proof fn lemma_deep_push<T: DeepView>(out: Vec<T>, a: Seq<T::V>, x: T, pre: Vec<T>)
    requires
        pre.deep_view() == a,
        out@ == pre@.push(x),
    ensures
        out.deep_view() == a.push(x.deep_view()),
{
    broadcast use lemma_deep_view_len, lemma_deep_view_index;

    assert forall|k: int| 0 <= k < out@.len() implies out.deep_view()[k] == a.push(
        x.deep_view(),
    )[k] by {
        if k < pre@.len() {
            assert(out@[k] == pre@[k]);
        } else {
            assert(out@[k] == x);
        }
    }
    assert(out.deep_view() =~= a.push(x.deep_view()));
}

/// The whitespace characters this engine recognizes inside a line.
pub open spec fn is_space_char(c: char) -> bool {
    c == ' ' || c == '\t' || c == '\r' || c == '\n' || c == '\u{b}' || c == '\u{c}'
}

pub fn is_space(c: char) -> (r: bool)
    ensures
        r == is_space_char(c),
{
    c == ' ' || c == '\t' || c == '\r' || c == '\n' || c == '\u{b}' || c == '\u{c}'
}

/// Character-by-character equality of two string slices.
pub fn str_eq(a: &str, b: &str) -> (r: bool)
    ensures
        r == (a@ == b@),
{
    let alen = a.unicode_len();
    let blen = b.unicode_len();
    if alen != blen {
        return false;
    }
    let mut i: usize = 0;
    while i < alen
        invariant
            i <= alen,
            alen == a@.len(),
            alen == b@.len(),
            forall|j: int| 0 <= j < i ==> a@[j] == b@[j],
        decreases alen - i,
    {
        if a.get_char(i) != b.get_char(i) {
            return false;
        }
        i += 1;
    }
    proof {
        assert(a@ =~= b@);
    }
    true
}

/// The characters of a string slice, as a vector.
pub fn str_to_chars(s: &str) -> (r: Vec<char>)
    ensures
        r@ == s@,
{
    let len = s.unicode_len();
    let mut out: Vec<char> = Vec::new();
    let mut i: usize = 0;
    while i < len
        invariant
            i <= len,
            len == s@.len(),
            out@ == s@.take(i as int),
        decreases len - i,
    {
        let c = s.get_char(i);
        out.push(c);
        proof {
            assert(out@ =~= s@.take(i + 1 as int));
        }
        i += 1;
    }
    proof {
        assert(s@.take(len as int) =~= s@);
    }
    out
}

/// Builds an owned `String` out of a vector of characters.
///
/// Relies on `core::iter::Iterator::collect` (through `FromIterator` for
/// `String`), which concatenates exactly the characters of the vector.
#[verifier::external_body]
pub fn chars_to_string(v: &Vec<char>) -> (r: String)
    ensures
        r@ == v@,
{
    v.iter().collect()
}

/// The characters of an owned string, as a vector.
pub fn string_to_chars(s: &String) -> (r: Vec<char>)
    ensures
        r@ == s@,
{
    str_to_chars(s.as_str())
}

/// What `str::to_lowercase` returns: a function of the characters alone.
pub uninterp spec fn lower_of(s: Seq<char>) -> Seq<char>;

/// What `str::to_uppercase` returns: a function of the characters alone.
pub uninterp spec fn upper_of(s: Seq<char>) -> Seq<char>;

/// Relies on `str::to_lowercase`: Unicode lowercasing, determined by the
/// input characters alone.
#[verifier::external_body]
pub fn to_lowercase(s: &str) -> (r: String)
    ensures
        r@ == lower_of(s@),
{
    s.to_lowercase()
}

/// Relies on `str::to_uppercase`: Unicode uppercasing, determined by the
/// input characters alone.
#[verifier::external_body]
pub fn to_uppercase(s: &str) -> (r: String)
    ensures
        r@ == upper_of(s@),
{
    s.to_uppercase()
}

/// The strings joined with a newline between consecutive items.
pub open spec fn join_nl(parts: Seq<Seq<char>>) -> Seq<char>
    decreases parts.len(),
{
    if parts.len() == 0 {
        Seq::empty()
    } else if parts.len() == 1 {
        parts[0]
    } else {
        join_nl(parts.subrange(0, parts.len() - 1)) + seq!['\n'] + parts.last()
    }
}

/// Joins the strings with newline separators.
#[verifier::loop_isolation(false)]
pub fn join_newline(parts: &Vec<String>) -> (r: String)
    ensures
        r@ == join_nl(parts.deep_view()),
{
    broadcast use lemma_deep_view_len, lemma_deep_view_index;

    proof {
        reveal_strlit("\n");
        assert("\n"@ =~= seq!['\n']);
    }
    let mut out = String::new();
    let mut i: usize = 0;
    while i < parts.len()
        invariant
            0 <= i <= parts@.len(),
            "\n"@ == seq!['\n'],
            out@ == join_nl(parts.deep_view().take(i as int)),
        decreases parts@.len() - i,
    {
        proof {
            assert(parts.deep_view().take(i + 1).drop_last() =~= parts.deep_view().take(i as int));
            assert(parts.deep_view().take(i + 1).subrange(0, i as int) =~= parts.deep_view().take(
                i as int,
            ));
        }
        let ghost prev_out = out@;
        if i > 0 {
            out.append("\n");
        }
        out.append(parts[i].as_str());
        i += 1;
        proof {
            if i == 1 {
                assert(prev_out == join_nl(parts.deep_view().take(0)));
                assert(join_nl(parts.deep_view().take(0)) == Seq::<char>::empty());
                assert(out@ == prev_out + parts@[0]@);
                assert(parts.deep_view().take(1)[0] == parts.deep_view()[0]);
                assert(parts.deep_view()[0] == parts@[0].deep_view());
                assert(join_nl(parts.deep_view().take(1)) == parts@[0]@);
                assert(out@ =~= join_nl(parts.deep_view().take(i as int)));
            } else {
                assert(parts.deep_view().take(i as int)[i - 1] == parts@[i - 1].deep_view());
                assert(out@ =~= join_nl(parts.deep_view().take(i as int)));
            }
        }
    }
    proof {
        assert(parts.deep_view().take(parts@.len() as int) =~= parts.deep_view());
    }
    out
}

/// The decimal digits of `n`, most significant first.
pub open spec fn dec_spec(n: int) -> Seq<char>
    decreases n,
{
    if n < 0 {
        Seq::empty()
    } else if n < 10 {
        seq![digit_char(n)]
    } else {
        dec_spec(n / 10).push(digit_char(n % 10))
    }
}

/// The character of one decimal digit.
pub open spec fn digit_char(d: int) -> char {
    if d == 0 {
        '0'
    } else if d == 1 {
        '1'
    } else if d == 2 {
        '2'
    } else if d == 3 {
        '3'
    } else if d == 4 {
        '4'
    } else if d == 5 {
        '5'
    } else if d == 6 {
        '6'
    } else if d == 7 {
        '7'
    } else if d == 8 {
        '8'
    } else {
        '9'
    }
}

/// Renders a number in decimal.
#[verifier::loop_isolation(false)]
pub fn usize_to_string(n: usize) -> (r: String)
    ensures
        r@ == dec_spec(n as int),
{
    if n == 0 {
        let mut z: Vec<char> = Vec::new();
        z.push('0');
        proof {
            assert(dec_spec(0int) =~= seq!['0']);
            assert(z@ =~= dec_spec(0int));
        }
        return chars_to_string(&z);
    }
    let mut rev: Vec<char> = Vec::new();
    let mut m = n;
    while m > 0
        invariant
            0 <= m <= n,
            m > 0 ==> dec_spec(n as int) == dec_spec(m as int) + rev@.reverse(),
            m == 0 ==> dec_spec(n as int) == rev@.reverse(),
        decreases m,
    {
        let d = m % 10;
        let c: char = if d == 0 {
            '0'
        } else if d == 1 {
            '1'
        } else if d == 2 {
            '2'
        } else if d == 3 {
            '3'
        } else if d == 4 {
            '4'
        } else if d == 5 {
            '5'
        } else if d == 6 {
            '6'
        } else if d == 7 {
            '7'
        } else if d == 8 {
            '8'
        } else {
            '9'
        };
        let ghost prev_rev = rev@;
        let ghost prev_m = m as int;
        rev.push(c);
        m = m / 10;
        proof {
            assert(c == digit_char(prev_m % 10));
            assert(rev@.reverse() =~= seq![c] + prev_rev.reverse());
            if prev_m < 10 {
                assert(dec_spec(prev_m) =~= seq![digit_char(prev_m)]);
                assert(prev_m % 10 == prev_m);
                assert(dec_spec(n as int) =~= rev@.reverse());
            } else {
                assert(dec_spec(prev_m) == dec_spec(prev_m / 10).push(digit_char(prev_m % 10)));
                assert(dec_spec(prev_m) =~= dec_spec(m as int) + seq![c]);
                assert(dec_spec(n as int) =~= dec_spec(m as int) + rev@.reverse());
            }
        }
    }
    let mut out: Vec<char> = Vec::new();
    let mut i: usize = rev.len();
    while i > 0
        invariant
            0 <= i <= rev@.len(),
            out@ == rev@.subrange(i as int, rev@.len() as int).reverse(),
        decreases i,
    {
        i -= 1;
        out.push(rev[i]);
        proof {
            assert(out@ =~= rev@.subrange(i as int, rev@.len() as int).reverse());
        }
    }
    proof {
        assert(rev@.subrange(0, rev@.len() as int) =~= rev@);
        assert(out@ == rev@.reverse());
    }
    chars_to_string(&out)
}

} // verus!
