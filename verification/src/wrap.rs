//! Greedy word wrapping and related character-level layout helpers.
//!
//! Text is wrapped line by line: words are packed greedily up to the
//! requested width, and any single word longer than the width is hard-chunked
//! into width-sized pieces.

use vstd::prelude::*;
use crate::text::{chars_to_string, is_space, is_space_char, str_to_chars};

verus! {

broadcast use crate::text::lemma_deep_view_chars, crate::text::lemma_deep_view_len, crate::text::lemma_deep_view_index;

// ---------------------------------------------------------------------------
// Splitting text into lines (at '\n', dropping one '\r' just before it).
// ---------------------------------------------------------------------------

/// Drops a final carriage return, if present.
pub open spec fn strip_cr(s: Seq<char>) -> Seq<char> {
    if s.len() > 0 && s.last() == '\r' {
        s.drop_last()
    } else {
        s
    }
}

/// State after consuming a prefix of the text: completed lines so far and the
/// partial line being accumulated.
pub open spec fn lines_state(s: Seq<char>) -> (Seq<Seq<char>>, Seq<char>)
    decreases s.len(),
{
    if s.len() == 0 {
        (Seq::empty(), Seq::empty())
    } else {
        let st = lines_state(s.drop_last());
        let c = s.last();
        if c == '\n' {
            (st.0.push(strip_cr(st.1)), Seq::empty())
        } else {
            (st.0, st.1.push(c))
        }
    }
}

/// The lines of a text: split at newlines; a final line without a newline is
/// kept; a trailing newline does not produce an extra empty line.
pub open spec fn lines_spec(s: Seq<char>) -> Seq<Seq<char>> {
    let st = lines_state(s);
    if st.1.len() > 0 {
        st.0.push(st.1)
    } else {
        st.0
    }
}

/// Splits a character vector into its lines.
pub fn split_lines(text: &Vec<char>) -> (r: Vec<Vec<char>>)
    ensures
        r.deep_view() == lines_spec(text@),
{
    let mut out: Vec<Vec<char>> = Vec::new();
    let mut cur: Vec<char> = Vec::new();
    let mut i: usize = 0;
    while i < text.len()
        invariant
            i <= text@.len(),
            out.deep_view() == lines_state(text@.take(i as int)).0,
            cur@ == lines_state(text@.take(i as int)).1,
        decreases text@.len() - i,
    {
        proof {
            assert(text@.take(i + 1).drop_last() =~= text@.take(i as int));
        }
        let c = text[i];
        if c == '\n' {
            if cur.len() > 0 && cur[cur.len() - 1] == '\r' {
                cur.pop();
            }
            out.push(cur);
            cur = Vec::new();
        } else {
            cur.push(c);
        }
        i += 1;
        proof {
            assert(out.deep_view() =~~= lines_state(text@.take(i as int)).0);
        }
    }
    proof {
        assert(text@.take(text@.len() as int) =~= text@);
    }
    if cur.len() > 0 {
        out.push(cur);
        proof {
            assert(out.deep_view() =~~= lines_spec(text@));
        }
    }
    out
}

// ---------------------------------------------------------------------------
// Splitting a line into whitespace-separated words.
// ---------------------------------------------------------------------------

/// State after consuming a prefix of a line: completed words and the partial
/// word being accumulated.
pub open spec fn words_state(s: Seq<char>) -> (Seq<Seq<char>>, Seq<char>)
    decreases s.len(),
{
    if s.len() == 0 {
        (Seq::empty(), Seq::empty())
    } else {
        let st = words_state(s.drop_last());
        let c = s.last();
        if is_space_char(c) {
            if st.1.len() > 0 {
                (st.0.push(st.1), Seq::empty())
            } else {
                st
            }
        } else {
            (st.0, st.1.push(c))
        }
    }
}

/// The whitespace-separated words of a line, in order.
pub open spec fn words_spec(s: Seq<char>) -> Seq<Seq<char>> {
    let st = words_state(s);
    if st.1.len() > 0 {
        st.0.push(st.1)
    } else {
        st.0
    }
}

/// A line consists only of whitespace exactly when it has no words.
pub open spec fn all_space(s: Seq<char>) -> bool {
    forall|i: int| 0 <= i < s.len() ==> is_space_char(#[trigger] s[i])
}

/// Splits a line into its whitespace-separated words.
pub fn split_words(line: &Vec<char>) -> (r: Vec<Vec<char>>)
    ensures
        r.deep_view() == words_spec(line@),
{
    let mut out: Vec<Vec<char>> = Vec::new();
    let mut cur: Vec<char> = Vec::new();
    let mut i: usize = 0;
    while i < line.len()
        invariant
            i <= line@.len(),
            out.deep_view() == words_state(line@.take(i as int)).0,
            cur@ == words_state(line@.take(i as int)).1,
        decreases line@.len() - i,
    {
        proof {
            assert(line@.take(i + 1).drop_last() =~= line@.take(i as int));
        }
        let c = line[i];
        if is_space(c) {
            if cur.len() > 0 {
                out.push(cur);
                cur = Vec::new();
            }
        } else {
            cur.push(c);
        }
        i += 1;
        proof {
            assert(out.deep_view() =~~= words_state(line@.take(i as int)).0);
        }
    }
    proof {
        assert(line@.take(line@.len() as int) =~= line@);
    }
    if cur.len() > 0 {
        out.push(cur);
        proof {
            assert(out.deep_view() =~~= words_spec(line@));
        }
    }
    out
}

/// Reports whether the line is entirely whitespace.
pub fn line_all_space(line: &Vec<char>) -> (r: bool)
    ensures
        r == all_space(line@),
{
    let mut i: usize = 0;
    while i < line.len()
        invariant
            i <= line@.len(),
            forall|j: int| 0 <= j < i ==> is_space_char(#[trigger] line@[j]),
        decreases line@.len() - i,
    {
        if !is_space(line[i]) {
            return false;
        }
        i += 1;
    }
    true
}

// ---------------------------------------------------------------------------
// Hard chunking of over-long words.
// ---------------------------------------------------------------------------

/// State after consuming a prefix: completed chunks and the partial chunk.
/// A zero width behaves as width one (each character its own chunk).
pub open spec fn chunks_state(s: Seq<char>, width: int) -> (Seq<Seq<char>>, Seq<char>)
    decreases s.len(),
{
    if s.len() == 0 {
        (Seq::empty(), Seq::empty())
    } else {
        let st = chunks_state(s.drop_last(), width);
        let nbuf = st.1.push(s.last());
        if nbuf.len() >= width {
            (st.0.push(nbuf), Seq::empty())
        } else {
            (st.0, nbuf)
        }
    }
}

/// The width-sized chunks of a character sequence; the final chunk may be
/// shorter. An empty input yields no chunks.
pub open spec fn chunks_spec(s: Seq<char>, width: int) -> Seq<Seq<char>> {
    let st = chunks_state(s, width);
    if st.1.len() > 0 {
        st.0.push(st.1)
    } else {
        st.0
    }
}

/// No chunk is wider than the width (taking width zero as one), and the
/// partial chunk is always strictly shorter than the width.
pub proof fn lemma_chunks_bounded(s: Seq<char>, width: int)
    ensures
        chunks_state(s, width).1.len() == 0 || chunks_state(s, width).1.len() < width,
        forall|i: int|
            0 <= i < chunks_state(s, width).0.len() ==> #[trigger] chunks_state(s, width).0[i].len()
                <= vstd::math::max(width, 1),
        forall|i: int|
            0 <= i < chunks_spec(s, width).len() ==> #[trigger] chunks_spec(s, width)[i].len()
                <= vstd::math::max(width, 1),
    decreases s.len(),
{
    if s.len() > 0 {
        lemma_chunks_bounded(s.drop_last(), width);
    }
}

/// Splits a character vector into width-sized chunks.
pub fn chunk_chars(input: &Vec<char>, width: usize) -> (r: Vec<Vec<char>>)
    ensures
        r.deep_view() == chunks_spec(input@, width as int),
{
    let mut out: Vec<Vec<char>> = Vec::new();
    let mut buf: Vec<char> = Vec::new();
    let mut i: usize = 0;
    while i < input.len()
        invariant
            i <= input@.len(),
            out.deep_view() == chunks_state(input@.take(i as int), width as int).0,
            buf@ == chunks_state(input@.take(i as int), width as int).1,
            buf@.len() < width || buf@.len() == 0,
        decreases input@.len() - i,
    {
        proof {
            assert(input@.take(i + 1).drop_last() =~= input@.take(i as int));
        }
        buf.push(input[i]);
        if buf.len() >= width {
            out.push(buf);
            buf = Vec::new();
        }
        i += 1;
        proof {
            assert(out.deep_view() =~~= chunks_state(input@.take(i as int), width as int).0);
        }
    }
    proof {
        assert(input@.take(input@.len() as int) =~= input@);
    }
    if buf.len() > 0 {
        out.push(buf);
        proof {
            assert(out.deep_view() =~~= chunks_spec(input@, width as int));
        }
    }
    out
}

/// Splits a string into width-sized chunks of characters; the final chunk may
/// be shorter. A zero width behaves as width one.
pub fn chunk_by_width(input: &str, width: usize) -> (r: Vec<String>)
    ensures
        r.deep_view() == chunks_spec(input@, width as int),
{
    let cs = str_to_chars(input);
    let parts = chunk_chars(&cs, width);
    chunk_vecs_to_strings(parts)
}

/// Converts each chunk of characters into an owned string.
fn chunk_vecs_to_strings(parts: Vec<Vec<char>>) -> (r: Vec<String>)
    ensures
        r.deep_view() == parts.deep_view(),
{
    let mut out: Vec<String> = Vec::new();
    let mut i: usize = 0;
    while i < parts.len()
        invariant
            i <= parts@.len(),
            out@.len() == i,
            forall|k: int| 0 <= k < i ==> out.deep_view()[k] == parts.deep_view()[k],
        decreases parts@.len() - i,
    {
        out.push(chars_to_string(&parts[i]));
        proof {
            assert(out@[i as int].deep_view() =~= parts@[i as int].deep_view());
        }
        i += 1;
    }
    proof {
        assert(out.deep_view() =~= parts.deep_view());
    }
    out
}

// ---------------------------------------------------------------------------
// Character-indexed slicing.
// ---------------------------------------------------------------------------

/// The clamped character range `[start, end)` of a string.
pub open spec fn slice_chars_spec(s: Seq<char>, start: int, end: int) -> Seq<char> {
    let st = vstd::math::min(start, s.len() as int);
    let en = vstd::math::max(vstd::math::min(end, s.len() as int), st);
    s.subrange(st, en)
}

/// Extracts the substring between two character positions, clamping both to
/// the string's bounds.
pub fn slice_chars(s: &str, start: usize, end_exclusive: usize) -> (r: String)
    ensures
        r@ == slice_chars_spec(s@, start as int, end_exclusive as int),
{
    let cs = str_to_chars(s);
    let n = cs.len();
    let st = if start < n {
        start
    } else {
        n
    };
    let mut en = if end_exclusive < n {
        end_exclusive
    } else {
        n
    };
    if en < st {
        en = st;
    }
    let mut out: Vec<char> = Vec::new();
    let mut i: usize = st;
    while i < en
        invariant
            st <= i <= en <= cs@.len(),
            cs@ == s@,
            out@ == s@.subrange(st as int, i as int),
        decreases en - i,
    {
        out.push(cs[i]);
        proof {
            assert(out@ =~= s@.subrange(st as int, i + 1));
        }
        i += 1;
    }
    chars_to_string(&out)
}

// ---------------------------------------------------------------------------
// Longest common prefix.
// ---------------------------------------------------------------------------

/// Index of the first position where the two sequences disagree (or where one
/// of them ends), starting the scan at `i`.
pub open spec fn mismatch_from(a: Seq<char>, b: Seq<char>, i: int) -> int
    decreases vstd::math::min(a.len() as int, b.len() as int) - i,
{
    if i < 0 || i >= a.len() || i >= b.len() || a[i] != b[i] {
        i
    } else {
        mismatch_from(a, b, i + 1)
    }
}

/// Longest common prefix of two sequences.
pub open spec fn lcp2(a: Seq<char>, b: Seq<char>) -> Seq<char> {
    a.take(mismatch_from(a, b, 0))
}

/// Longest common prefix of all items; empty when there are none.
pub open spec fn lcp_spec(items: Seq<Seq<char>>) -> Seq<char>
    decreases items.len(),
{
    if items.len() == 0 {
        Seq::empty()
    } else if items.len() == 1 {
        items[0]
    } else {
        lcp2(lcp_spec(items.drop_last()), items.last())
    }
}

/// Longest common prefix of two character vectors.
fn lcp2_exec(a: &Vec<char>, b: &Vec<char>) -> (r: Vec<char>)
    ensures
        r@ == lcp2(a@, b@),
{
    let mut i: usize = 0;
    let mut out: Vec<char> = Vec::new();
    while i < a.len() && i < b.len() && a[i] == b[i]
        invariant
            0 <= i <= a@.len(),
            i <= b@.len(),
            out@ == a@.take(i as int),
            mismatch_from(a@, b@, 0) == mismatch_from(a@, b@, i as int),
            forall|j: int| 0 <= j < i ==> a@[j] == b@[j],
        decreases a@.len() - i,
    {
        out.push(a[i]);
        proof {
            assert(out@ =~= a@.take(i + 1));
        }
        i += 1;
    }
    proof {
        assert(mismatch_from(a@, b@, i as int) == i as int);
    }
    out
}

/// Longest common prefix shared by every item of the list.
pub fn longest_common_prefix(items: &[String]) -> (r: String)
    ensures
        r@ == lcp_spec(items.deep_view()),
{
    if items.len() == 0 {
        let empty: Vec<char> = Vec::new();
        return chars_to_string(&empty);
    }
    let first: &String = &items[0];
    let mut prefix = str_to_chars(first.as_str());
    let mut i: usize = 1;
    while i < items.len()
        invariant
            1 <= i <= items@.len(),
            prefix@ == lcp_spec(items.deep_view().take(i as int)),
        decreases items@.len() - i,
    {
        proof {
            assert(items.deep_view().take(i + 1).drop_last() =~= items.deep_view().take(i as int));
        }
        let nth: &String = &items[i];
        let item = str_to_chars(nth.as_str());
        prefix = lcp2_exec(&prefix, &item);
        i += 1;
    }
    proof {
        assert(items.deep_view().take(items@.len() as int) =~= items.deep_view());
    }
    chars_to_string(&prefix)
}

// ---------------------------------------------------------------------------
// Greedy word wrap.
// ---------------------------------------------------------------------------

/// One greedy step: place the next word given the finished lines and the
/// line under construction.
pub open spec fn wrap_step(
    st: (Seq<Seq<char>>, Seq<char>),
    word: Seq<char>,
    width: int,
) -> (Seq<Seq<char>>, Seq<char>) {
    if st.1.len() == 0 {
        if word.len() <= width {
            (st.0, word)
        } else {
            (st.0 + chunks_spec(word, width), Seq::empty())
        }
    } else if st.1.len() + 1 + word.len() <= width {
        (st.0, st.1 + seq![' '] + word)
    } else if word.len() <= width {
        (st.0.push(st.1), word)
    } else {
        (st.0.push(st.1) + chunks_spec(word, width), Seq::empty())
    }
}

/// State after placing a prefix of the words.
pub open spec fn wrap_words_state(words: Seq<Seq<char>>, width: int) -> (Seq<Seq<char>>, Seq<char>)
    decreases words.len(),
{
    if words.len() == 0 {
        (Seq::empty(), Seq::empty())
    } else {
        wrap_step(wrap_words_state(words.drop_last(), width), words.last(), width)
    }
}

/// The wrapped lines produced by one raw input line.
pub open spec fn wrap_line_spec(line: Seq<char>, width: int) -> Seq<Seq<char>> {
    let st = wrap_words_state(words_spec(line), width);
    if st.1.len() > 0 {
        st.0.push(st.1)
    } else if all_space(line) {
        st.0.push(Seq::empty())
    } else {
        st.0
    }
}

/// All wrapped lines of the first `n` raw lines.
pub open spec fn wrap_lines_spec(ls: Seq<Seq<char>>, width: int, n: int) -> Seq<Seq<char>>
    decreases n,
{
    if n <= 0 {
        Seq::empty()
    } else {
        wrap_lines_spec(ls, width, n - 1) + wrap_line_spec(ls[n - 1], width)
    }
}

/// The full wrap of a text at a width: each line wrapped in order; a width of
/// zero, or a result with no lines at all, yields a single empty line.
pub open spec fn wrap_spec(text: Seq<char>, width: int) -> Seq<Seq<char>> {
    if width == 0 {
        seq![Seq::<char>::empty()]
    } else {
        let ls = lines_spec(text);
        let out = wrap_lines_spec(ls, width, ls.len() as int);
        if out.len() == 0 {
            seq![Seq::<char>::empty()]
        } else {
            out
        }
    }
}

/// Wraps the words of one line greedily, appending to `out`.
fn wrap_line_into(out: &mut Vec<Vec<char>>, line: &Vec<char>, width: usize)
    requires
        width >= 1,
    ensures
        final(out).deep_view() == old(out).deep_view() + wrap_line_spec(line@, width as int),
{
    let words = split_words(line);
    let mut cur: Vec<char> = Vec::new();
    let ghost base = out.deep_view();
    let mut j: usize = 0;
    while j < words.len()
        invariant
            j <= words@.len(),
            width >= 1,
            words.deep_view() == words_spec(line@),
            out.deep_view() == base + wrap_words_state(
                words.deep_view().take(j as int),
                width as int,
            ).0,
            cur@ == wrap_words_state(words.deep_view().take(j as int), width as int).1,
        decreases words@.len() - j,
    {
        let ghost stj = wrap_words_state(words.deep_view().take(j as int), width as int);
        let ghost wj = words.deep_view()[j as int];
        let ghost stn = wrap_words_state(words.deep_view().take(j + 1), width as int);
        proof {
            assert(words.deep_view().take(j + 1).drop_last() =~= words.deep_view().take(j as int));
            assert(words.deep_view().take(j + 1).last() == wj);
            assert(stn == wrap_step(stj, wj, width as int));
            assert(wj == words@[j as int]@);
        }
        let word = &words[j];
        let wl = word.len();
        let cl = cur.len();
        if cl == 0 {
            if wl <= width {
                cur = vstd::slice::slice_to_vec(word.as_slice());
                proof {
                    assert(stn == (stj.0, wj));
                }
            } else {
                let mut chunks = chunk_chars(word, width);
                let ghost prev_out = *out;
                let ghost prev_chunks = chunks;
                out.append(&mut chunks);
                proof {
                    assert(stn == (stj.0 + chunks_spec(wj, width as int), Seq::<char>::empty()));
                    crate::text::lemma_deep_concat(*out, base + stj.0, prev_chunks, prev_out);
                    assert(base + stj.0 + chunks_spec(wj, width as int) =~= base + stn.0);
                }
            }
        } else if cl < width && wl <= width - cl - 1 {
            proof {
                assert(stj.1.len() + 1 + wj.len() <= width);
                assert(stn == (stj.0, stj.1 + seq![' '] + wj));
            }
            cur.push(' ');
            let mut w2 = vstd::slice::slice_to_vec(word.as_slice());
            cur.append(&mut w2);
            proof {
                assert(cur@ =~= stn.1);
            }
        } else if wl <= width {
            proof {
                assert(!(stj.1.len() + 1 + wj.len() <= width));
                assert(stn == (stj.0.push(stj.1), wj));
            }
            let ghost prev_out = *out;
            let ghost prev_cur = cur;
            out.push(cur);
            cur = vstd::slice::slice_to_vec(word.as_slice());
            proof {
                crate::text::lemma_deep_push(*out, base + stj.0, prev_cur, prev_out);
                assert(base + stn.0 =~= (base + stj.0).push(prev_cur@));
            }
        } else {
            proof {
                assert(stn == (stj.0.push(stj.1) + chunks_spec(wj, width as int),
                Seq::<char>::empty()));
            }
            let ghost prev_out = *out;
            let ghost prev_cur = cur;
            out.push(cur);
            cur = Vec::new();
            proof {
                crate::text::lemma_deep_push(*out, base + stj.0, prev_cur, prev_out);
            }
            let mut chunks = chunk_chars(word, width);
            let ghost mid_out = *out;
            let ghost prev_chunks = chunks;
            out.append(&mut chunks);
            proof {
                crate::text::lemma_deep_concat(
                    *out,
                    (base + stj.0).push(prev_cur@),
                    prev_chunks,
                    mid_out,
                );
                assert(base + stn.0 =~= (base + stj.0).push(prev_cur@) + chunks_spec(
                    wj,
                    width as int,
                ));
            }
        }
        j += 1;
    }
    proof {
        assert(words.deep_view().take(words@.len() as int) =~= words.deep_view());
    }
    let ghost stf = wrap_words_state(words_spec(line@), width as int);
    if cur.len() > 0 {
        let ghost prev_out = *out;
        let ghost prev_cur = cur;
        out.push(cur);
        proof {
            crate::text::lemma_deep_push(*out, base + stf.0, prev_cur, prev_out);
            assert(base + wrap_line_spec(line@, width as int) =~= (base + stf.0).push(prev_cur@));
        }
    } else if line_all_space(line) {
        let empty: Vec<char> = Vec::new();
        let ghost prev_out = *out;
        let ghost prev_empty = empty;
        out.push(empty);
        proof {
            crate::text::lemma_deep_push(*out, base + stf.0, prev_empty, prev_out);
            assert(base + wrap_line_spec(line@, width as int) =~= (base + stf.0).push(
                Seq::<char>::empty(),
            ));
        }
    } else {
        proof {
            assert(base + wrap_line_spec(line@, width as int) =~= base + stf.0);
        }
    }
}

/// Greedy word wrap: breaks on whitespace, hard-chunks words longer than the
/// width, keeps blank input lines, and never returns an empty list.
pub fn wrap_text_lines(text: &str, width: usize) -> (r: Vec<String>)
    ensures
        r.deep_view() == wrap_spec(text@, width as int),
{
    if width == 0 {
        let empty: Vec<char> = Vec::new();
        let mut out: Vec<String> = Vec::new();
        out.push(chars_to_string(&empty));
        proof {
            assert(out.deep_view() =~~= wrap_spec(text@, width as int));
        }
        return out;
    }
    let cs = str_to_chars(text);
    let ls = split_lines(&cs);
    let mut wrapped: Vec<Vec<char>> = Vec::new();
    let mut i: usize = 0;
    while i < ls.len()
        invariant
            i <= ls@.len(),
            width >= 1,
            ls.deep_view() == lines_spec(text@),
            wrapped.deep_view() == wrap_lines_spec(ls.deep_view(), width as int, i as int),
        decreases ls@.len() - i,
    {
        proof {
            assert(ls@[i as int].deep_view() == ls.deep_view()[i as int]);
        }
        wrap_line_into(&mut wrapped, &ls[i], width);
        i += 1;
    }
    if wrapped.len() == 0 {
        let empty: Vec<char> = Vec::new();
        wrapped.push(empty);
    }
    proof {
        assert(wrapped.deep_view() =~~= wrap_spec(text@, width as int));
    }
    chunk_vecs_to_strings(wrapped)
}

// ---------------------------------------------------------------------------
// Word wrap never exceeds the width.
// ---------------------------------------------------------------------------

/// Every finished line and the line under construction fit in the width.
proof fn lemma_wrap_words_bounded(words: Seq<Seq<char>>, width: int)
    requires
        width >= 1,
    ensures
        forall|i: int|
            0 <= i < wrap_words_state(words, width).0.len() ==> #[trigger] wrap_words_state(
                words,
                width,
            ).0[i].len() <= width,
        wrap_words_state(words, width).1.len() <= width,
    decreases words.len(),
{
    if words.len() > 0 {
        lemma_wrap_words_bounded(words.drop_last(), width);
        let st = wrap_words_state(words.drop_last(), width);
        let w = words.last();
        lemma_chunks_bounded(w, width);
        let stn = wrap_words_state(words, width);
        assert forall|i: int|
            0 <= i < stn.0.len() implies #[trigger] stn.0[i].len() <= width by {
            if st.1.len() == 0 {
                if w.len() <= width {
                } else {
                    if i < st.0.len() {
                        assert(stn.0[i] == st.0[i]);
                    } else {
                        assert(stn.0[i] == chunks_spec(w, width)[i - st.0.len()]);
                    }
                }
            } else if st.1.len() + 1 + w.len() <= width {
            } else if w.len() <= width {
                if i < st.0.len() {
                    assert(stn.0[i] == st.0[i]);
                } else {
                    assert(stn.0[i] == st.1);
                }
            } else {
                if i < st.0.len() {
                    assert(stn.0[i] == st.0[i]);
                } else if i == st.0.len() {
                    assert(stn.0[i] == st.1);
                } else {
                    assert(stn.0[i] == chunks_spec(w, width)[i - st.0.len() - 1]);
                }
            }
        }
    }
}

/// Every wrapped line of one raw line fits in the width.
proof fn lemma_wrap_line_bounded(line: Seq<char>, width: int)
    requires
        width >= 1,
    ensures
        forall|i: int|
            0 <= i < wrap_line_spec(line, width).len() ==> #[trigger] wrap_line_spec(
                line,
                width,
            )[i].len() <= width,
{
    lemma_wrap_words_bounded(words_spec(line), width);
}

/// Every wrapped line of the first `n` raw lines fits in the width.
proof fn lemma_wrap_lines_bounded(ls: Seq<Seq<char>>, width: int, n: int)
    requires
        width >= 1,
    ensures
        forall|i: int|
            0 <= i < wrap_lines_spec(ls, width, n).len() ==> #[trigger] wrap_lines_spec(
                ls,
                width,
                n,
            )[i].len() <= width,
    decreases n,
{
    if n > 0 {
        lemma_wrap_lines_bounded(ls, width, n - 1);
        lemma_wrap_line_bounded(ls[n - 1], width);
        assert forall|i: int|
            0 <= i < wrap_lines_spec(ls, width, n).len() implies #[trigger] wrap_lines_spec(
            ls,
            width,
            n,
        )[i].len() <= width by {
            if i < wrap_lines_spec(ls, width, n - 1).len() {
                assert(wrap_lines_spec(ls, width, n)[i] == wrap_lines_spec(ls, width, n - 1)[i]);
            } else {
                assert(wrap_lines_spec(ls, width, n)[i] == wrap_line_spec(ls[n - 1], width)[i
                    - wrap_lines_spec(ls, width, n - 1).len()]);
            }
        }
    }
}

/// Wrapping at a width never produces a line longer than the width: every
/// line of `wrap_text_lines(text, width)` has at most `width` characters.
pub proof fn lemma_wrap_fidelity(text: Seq<char>, width: int)
    requires
        width >= 0,
    ensures
        forall|i: int|
            0 <= i < wrap_spec(text, width).len() ==> #[trigger] wrap_spec(text, width)[i].len()
                <= width,
{
    if width == 0 {
    } else {
        let ls = lines_spec(text);
        lemma_wrap_lines_bounded(ls, width, ls.len() as int);
    }
}

} // verus!
