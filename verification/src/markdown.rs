//! Lightweight markup layout helpers: recognizing the block prefix of a
//! rendered line so wrapped continuation lines can align under it.

use vstd::prelude::*;
use crate::text::{chars_to_string, is_space, is_space_char, str_to_chars};
use crate::ui::is_digit;

verus! {

/// The end of the run of whitespace starting at `i`.
pub open spec fn space_run(s: Seq<char>, i: int) -> int
    decreases s.len() - i,
{
    if i < 0 || i >= s.len() || !is_space_char(s[i]) {
        i
    } else {
        space_run(s, i + 1)
    }
}

/// The end of the run of decimal digits starting at `i`.
pub open spec fn digit_run(s: Seq<char>, i: int) -> int
    decreases s.len() - i,
{
    if i < 0 || i >= s.len() || !is_digit(s[i]) {
        i
    } else {
        digit_run(s, i + 1)
    }
}

/// The end of the run of hash marks starting at `i`.
pub open spec fn hash_run(s: Seq<char>, i: int) -> int
    decreases s.len() - i,
{
    if i < 0 || i >= s.len() || s[i] != '#' {
        i
    } else {
        hash_run(s, i + 1)
    }
}

/// An ordered-list head: one or more digits, a dot, then a space.
pub open spec fn ordered_head(t: Seq<char>) -> Option<(Seq<char>, Seq<char>)> {
    let d = digit_run(t, 0);
    if d >= 1 && d + 1 < t.len() && t[d] == '.' && t[d + 1] == ' ' {
        Some((t.take(d), t.skip(d + 2)))
    } else {
        None
    }
}

/// A two-character block marker (`> `, `- `, `* `, `+ `) heads the line.
pub open spec fn marker_head(t: Seq<char>, m: char) -> bool {
    t.len() >= 2 && t[0] == m && t[1] == ' '
}

/// The block prefix of one rendered markup line and the body after it: the
/// indentation (as spaces) plus a quote, bullet, ordered-list or heading
/// marker; a plain line keeps only its indentation.
pub open spec fn split_prefix_spec(raw: Seq<char>) -> (Seq<char>, Seq<char>) {
    let ls = space_run(raw, 0);
    let indent = Seq::new(ls as nat, |i: int| ' ');
    let t = raw.skip(ls);
    if marker_head(t, '>') {
        (indent + "> "@, t.skip(2))
    } else if marker_head(t, '-') {
        (indent + "- "@, t.skip(2))
    } else if marker_head(t, '*') {
        (indent + "* "@, t.skip(2))
    } else if marker_head(t, '+') {
        (indent + "+ "@, t.skip(2))
    } else if ordered_head(t) is Some {
        let (num, rest) = ordered_head(t)->Some_0;
        (indent + num + ". "@, rest)
    } else if t.len() > 0 && t[0] == '#' {
        let h = hash_run(t, 0);
        (indent + t.take(h) + " "@, t.skip(space_run(t, h)))
    } else {
        (indent, t)
    }
}

/// A digit run within the skipped tail mirrors the run in the original.
proof fn lemma_digit_run_shift(s: Seq<char>, ls: int, j: int)
    requires
        0 <= ls <= j <= s.len(),
    ensures
        digit_run(s.skip(ls), j - ls) + ls == digit_run(s, j),
    decreases s.len() - j,
{
    if j < s.len() && is_digit(s[j]) {
        assert(s.skip(ls)[j - ls] == s[j]);
        lemma_digit_run_shift(s, ls, j + 1);
    } else {
        if j < s.len() {
            assert(s.skip(ls)[j - ls] == s[j]);
        }
    }
}

/// A hash run within the skipped tail mirrors the run in the original.
proof fn lemma_hash_run_shift(s: Seq<char>, ls: int, j: int)
    requires
        0 <= ls <= j <= s.len(),
    ensures
        hash_run(s.skip(ls), j - ls) + ls == hash_run(s, j),
    decreases s.len() - j,
{
    if j < s.len() && s[j] == '#' {
        assert(s.skip(ls)[j - ls] == s[j]);
        lemma_hash_run_shift(s, ls, j + 1);
    } else {
        if j < s.len() {
            assert(s.skip(ls)[j - ls] == s[j]);
        }
    }
}

/// A space run within the skipped tail mirrors the run in the original.
proof fn lemma_space_run_shift(s: Seq<char>, ls: int, j: int)
    requires
        0 <= ls <= j <= s.len(),
    ensures
        space_run(s.skip(ls), j - ls) + ls == space_run(s, j),
    decreases s.len() - j,
{
    if j < s.len() && is_space_char(s[j]) {
        assert(s.skip(ls)[j - ls] == s[j]);
        lemma_space_run_shift(s, ls, j + 1);
    } else {
        if j < s.len() {
            assert(s.skip(ls)[j - ls] == s[j]);
        }
    }
}

/// Collects a character range of a vector.
#[verifier::loop_isolation(false)]
fn take_range(cs: &Vec<char>, lo: usize, hi: usize) -> (r: Vec<char>)
    requires
        0 <= lo <= hi <= cs@.len(),
    ensures
        r@ == cs@.subrange(lo as int, hi as int),
{
    let mut out: Vec<char> = Vec::new();
    let mut i = lo;
    while i < hi
        invariant
            lo <= i <= hi <= cs@.len(),
            out@ == cs@.subrange(lo as int, i as int),
        decreases hi - i,
    {
        out.push(cs[i]);
        proof {
            assert(out@ =~= cs@.subrange(lo as int, i + 1));
        }
        i += 1;
    }
    out
}

/// Splits a rendered markup line into its block prefix (indentation plus
/// quote, bullet, ordered-list or heading marker) and the body after it, so
/// continuation lines can be indented to align under the prefix.
#[verifier::loop_isolation(false)]
#[verifier::rlimit(60)]
pub fn split_markdown_prefix(raw: &str) -> (r: (String, String))
    ensures
        (r.0@, r.1@) == split_prefix_spec(raw@),
{
    let cs = str_to_chars(raw);
    let n = cs.len();
    let mut ls: usize = 0;
    while ls < n && is_space(cs[ls])
        invariant
            0 <= ls <= n,
            n == cs@.len(),
            cs@ == raw@,
            space_run(raw@, 0) == space_run(raw@, ls as int),
        decreases n - ls,
    {
        ls += 1;
    }
    proof {
        assert(space_run(raw@, ls as int) == ls as int);
    }
    let ghost t = raw@.skip(ls as int);
    let mut indent: Vec<char> = Vec::new();
    let mut i: usize = 0;
    while i < ls
        invariant
            0 <= i <= ls,
            indent@ == Seq::new(i as nat, |k: int| ' '),
        decreases ls - i,
    {
        indent.push(' ');
        proof {
            assert(indent@ =~= Seq::new((i + 1) as nat, |k: int| ' '));
        }
        i += 1;
    }
    let tl = n - ls;
    // Two-character markers.
    if tl >= 2 && cs[ls + 1] == ' ' {
        let m = cs[ls];
        if m == '>' || m == '-' || m == '*' || m == '+' {
            proof {
                assert(t[0] == m);
                assert(t[1] == ' ');
            }
            let mut pc = indent;
            pc.push(m);
            pc.push(' ');
            let rest = take_range(&cs, ls + 2, n);
            proof {
                assert(rest@ =~= t.skip(2));
                if m == '>' {
                    assert(pc@ =~= Seq::new(ls as nat, |k: int| ' ') + "> "@) by {
                        reveal_strlit("> ");
                    }
                } else if m == '-' {
                    assert(pc@ =~= Seq::new(ls as nat, |k: int| ' ') + "- "@) by {
                        reveal_strlit("- ");
                    }
                } else if m == '*' {
                    assert(pc@ =~= Seq::new(ls as nat, |k: int| ' ') + "* "@) by {
                        reveal_strlit("* ");
                    }
                } else {
                    assert(pc@ =~= Seq::new(ls as nat, |k: int| ' ') + "+ "@) by {
                        reveal_strlit("+ ");
                    }
                }
            }
            return (chars_to_string(&pc), chars_to_string(&rest));
        }
    }
    // Ordered list head.
    proof {
        lemma_digit_run_shift(raw@, ls as int, ls as int);
    }
    let mut d: usize = ls;
    while d < n && '0' <= cs[d] && cs[d] <= '9'
        invariant
            ls <= d <= n,
            n == cs@.len(),
            cs@ == raw@,
            digit_run(t, 0) + ls == digit_run(raw@, ls as int),
            digit_run(raw@, ls as int) == digit_run(raw@, d as int),
        decreases n - d,
    {
        d += 1;
    }
    proof {
        assert(digit_run(raw@, d as int) == d as int);
        assert(digit_run(t, 0) == d - ls);
    }
    if d > ls && d < n && d + 1 < n && cs[d] == '.' && cs[d + 1] == ' ' {
        proof {
            assert(t[(d - ls) as int] == '.');
            assert(t[(d - ls) + 1] == ' ');
            assert(ordered_head(t) is Some);
        }
        let num = take_range(&cs, ls, d);
        let rest = take_range(&cs, d + 2, n);
        let mut pc = indent;
        let mut nc = num;
        pc.append(&mut nc);
        pc.push('.');
        pc.push(' ');
        proof {
            assert(num@ =~= t.take((d - ls) as int));
            assert(rest@ =~= t.skip((d - ls) + 2));
            assert(pc@ =~= Seq::new(ls as nat, |k: int| ' ') + t.take((d - ls) as int) + ". "@)
                by {
                reveal_strlit(". ");
            }
        }
        return (chars_to_string(&pc), chars_to_string(&rest));
    }
    // Heading.
    if tl > 0 && cs[ls] == '#' {
        proof {
            lemma_hash_run_shift(raw@, ls as int, ls as int);
        }
        let mut h: usize = ls;
        while h < n && cs[h] == '#'
            invariant
                ls <= h <= n,
                n == cs@.len(),
                cs@ == raw@,
                hash_run(t, 0) + ls == hash_run(raw@, ls as int),
                hash_run(raw@, ls as int) == hash_run(raw@, h as int),
            decreases n - h,
        {
            h += 1;
        }
        proof {
            assert(hash_run(raw@, h as int) == h as int);
            assert(hash_run(t, 0) == h - ls);
        }
        proof {
            lemma_space_run_shift(raw@, ls as int, h as int);
        }
        let mut sp: usize = h;
        while sp < n && is_space(cs[sp])
            invariant
                h <= sp <= n,
                n == cs@.len(),
                cs@ == raw@,
                space_run(t, (h - ls) as int) + ls == space_run(raw@, h as int),
                space_run(raw@, h as int) == space_run(raw@, sp as int),
            decreases n - sp,
        {
            sp += 1;
        }
        proof {
            assert(space_run(raw@, sp as int) == sp as int);
            assert(space_run(t, (h - ls) as int) == sp - ls);
        }
        let marker = take_range(&cs, ls, h);
        let rest = take_range(&cs, sp, n);
        let mut pc = indent;
        let mut mc = marker;
        pc.append(&mut mc);
        pc.push(' ');
        proof {
            assert(marker@ =~= t.take((h - ls) as int));
            assert(rest@ =~= t.skip((sp - ls) as int));
            assert(pc@ =~= Seq::new(ls as nat, |k: int| ' ') + t.take((h - ls) as int) + " "@)
                by {
                reveal_strlit(" ");
            }
        }
        return (chars_to_string(&pc), chars_to_string(&rest));
    }
    let rest = take_range(&cs, ls, n);
    proof {
        assert(rest@ =~= t);
        assert(indent@ =~= Seq::new(ls as nat, |k: int| ' '));
    }
    (chars_to_string(&indent), chars_to_string(&rest))
}

/// Splits an ordered-list line head: the digits before the first dot and the
/// text after the dot and its following space.
pub fn split_ordered_list(s: &str) -> (r: Option<(String, String)>)
    ensures
        match r {
            Some(p) => ordered_head(s@) == Some((p.0@, p.1@)),
            None => ordered_head(s@) is None,
        },
{
    let cs = str_to_chars(s);
    let n = cs.len();
    let mut d: usize = 0;
    while d < n && '0' <= cs[d] && cs[d] <= '9'
        invariant
            0 <= d <= n,
            n == cs@.len(),
            cs@ == s@,
            digit_run(s@, 0) == digit_run(s@, d as int),
        decreases n - d,
    {
        d += 1;
    }
    proof {
        assert(digit_run(s@, d as int) == d as int);
    }
    if d >= 1 && d < n && d + 1 < n && cs[d] == '.' && cs[d + 1] == ' ' {
        let num = take_range(&cs, 0, d);
        let rest = take_range(&cs, d + 2, n);
        proof {
            assert(num@ =~= s@.take(d as int));
            assert(rest@ =~= s@.skip(d + 2));
        }
        Some((chars_to_string(&num), chars_to_string(&rest)))
    } else {
        None
    }
}

} // verus!
