//! Fuzzy search over the scanned catalog.
//!
//! Each session is scored as the better of its full-text score (search blob,
//! file name, id and project path) and half its project-path score, so a
//! project-path match can surface all of the project's sessions. Sessions
//! without a score drop out; surviving sessions are ranked by score, then by
//! most recent start; surviving projects are ranked by how many sessions
//! survived, then by path.

use vstd::prelude::*;
use crate::fuzzy::{fuzzy_score, fuzzy_score_spec, SCORE_SAFE_LEN};
use crate::order::{insertion_sort, lemma_lex_le_total, lemma_map_multiset, lemma_multiset_elems,
    lex_le, str_lex_le, SortOrd};
use crate::scan::{ProjectBucket, ProjectBucketV, SessionSummary, SessionSummaryV};
use crate::text::{lower_of, to_lowercase};
use crate::wrap::all_space;

verus! {

/// The combined text a session is scored against: search blob, file name,
/// session id and project path, separated by newlines.
pub open spec fn session_text_spec(s: SessionSummaryV, cwd: Seq<char>) -> Seq<char> {
    s.search_blob + seq!['\n'] + s.file_name + seq!['\n'] + s.id + seq!['\n'] + cwd
}

/// Division by two truncating toward zero, as the score halving computes.
pub open spec fn div2_trunc(x: int) -> int {
    if x >= 0 {
        x / 2
    } else {
        -((-x) / 2)
    }
}

/// A session's score: the better of the full-text score and half the score
/// of the lowercased project path; nothing when neither matches.
pub open spec fn session_score_spec(q: Seq<char>, s: SessionSummaryV, cwd: Seq<char>) -> Option<
    int,
> {
    let a = fuzzy_score_spec(q, session_text_spec(s, cwd));
    let b = fuzzy_score_spec(q, lower_of(cwd));
    match (a, b) {
        (Some(x), Some(y)) => if x >= div2_trunc(y) {
            Some(x)
        } else {
            Some(div2_trunc(y))
        },
        (Some(x), None) => Some(x),
        (None, Some(y)) => Some(div2_trunc(y)),
        (None, None) => None,
    }
}

/// The sessions among the first `n` that score against the query.
pub open spec fn matching(
    ss: Seq<SessionSummaryV>,
    q: Seq<char>,
    cwd: Seq<char>,
    n: int,
) -> Seq<SessionSummaryV>
    decreases n,
{
    if n <= 0 {
        Seq::empty()
    } else {
        let prev = matching(ss, q, cwd, n - 1);
        if session_score_spec(q, ss[n - 1], cwd) is Some {
            prev.push(ss[n - 1])
        } else {
            prev
        }
    }
}

/// All texts involved are short enough for scores to be computed exactly in
/// 64-bit arithmetic.
pub open spec fn catalog_small(cat: Seq<ProjectBucketV>, q: Seq<char>) -> bool {
    &&& q.len() <= SCORE_SAFE_LEN as int
    &&& forall|j: int, k: int|
        0 <= j < cat.len() && 0 <= k < (#[trigger] cat[j]).sessions.len() ==> session_text_spec(
            #[trigger] cat[j].sessions[k],
            cat[j].cwd,
        ).len() <= SCORE_SAFE_LEN as int
    &&& forall|j: int|
        0 <= j < cat.len() ==> lower_of((#[trigger] cat[j]).cwd).len() <= SCORE_SAFE_LEN as int
}

/// Surviving projects come first with more surviving sessions, ties broken
/// by ascending path.
pub open spec fn bucket_le(a: ProjectBucketV, b: ProjectBucketV) -> bool {
    a.sessions.len() > b.sessions.len() || (a.sessions.len() == b.sessions.len() && lex_le(
        a.cwd,
        b.cwd,
    ))
}

/// The bucket holds project `jj`'s path and exactly its scoring sessions.
pub open spec fn bucket_matches(
    cat: Seq<ProjectBucketV>,
    q: Seq<char>,
    jj: int,
    b: ProjectBucketV,
) -> bool {
    &&& b.cwd == cat[jj].cwd
    &&& b.sessions.to_multiset() == matching(
        cat[jj].sessions,
        q,
        cat[jj].cwd,
        cat[jj].sessions.len() as int,
    ).to_multiset()
    &&& matching(cat[jj].sessions, q, cat[jj].cwd, cat[jj].sessions.len() as int).len() > 0
}

/// The bucket holds some project's path and exactly its scoring sessions.
pub open spec fn has_source(
    cat: Seq<ProjectBucketV>,
    q: Seq<char>,
    jmax: int,
    b: ProjectBucketV,
) -> bool {
    exists|jj: int| 0 <= jj < jmax && #[trigger] bucket_matches(cat, q, jj, b)
}

/// Every result bucket is some catalog project's working directory with
/// exactly its scoring sessions.
pub open spec fn buckets_correspond(
    cat: Seq<ProjectBucketV>,
    q: Seq<char>,
    bs: Seq<ProjectBucketV>,
    jmax: int,
) -> bool {
    forall|b: int| 0 <= b < bs.len() ==> #[trigger] has_source(cat, q, jmax, bs[b])
}

/// Every project with a scoring session has a result bucket.
pub open spec fn buckets_complete(
    cat: Seq<ProjectBucketV>,
    q: Seq<char>,
    bs: Seq<ProjectBucketV>,
    jmax: int,
) -> bool {
    forall|jj: int|
        0 <= jj < jmax && matching(
            (#[trigger] cat[jj]).sessions,
            q,
            cat[jj].cwd,
            cat[jj].sessions.len() as int,
        ).len() > 0 ==> exists|b: int| 0 <= b < bs.len() && (#[trigger] bs[b]).cwd == cat[jj].cwd
}

/// Projects with more scoring sessions come first, ties broken by path.
pub open spec fn buckets_ranked(bs: Seq<ProjectBucketV>) -> bool {
    forall|b: int| 0 <= b < bs.len() - 1 ==> bucket_le(#[trigger] bs[b], bs[b + 1])
}

/// Every kept session scores against the query.
pub open spec fn buckets_scored(q: Seq<char>, bs: Seq<ProjectBucketV>) -> bool {
    forall|b: int, k: int|
        0 <= b < bs.len() && 0 <= k < (#[trigger] bs[b]).sessions.len() ==> session_score_spec(
            q,
            #[trigger] bs[b].sessions[k],
            bs[b].cwd,
        ) is Some
}

/// Within each bucket, higher scores come first, ties broken by most recent
/// start.
pub open spec fn buckets_ordered(q: Seq<char>, bs: Seq<ProjectBucketV>) -> bool {
    forall|b: int, k: int|
        0 <= b < bs.len() && 0 <= k < (#[trigger] bs[b]).sessions.len() - 1 ==> ({
            let s1 = session_score_spec(q, #[trigger] bs[b].sessions[k], bs[b].cwd)->0;
            let s2 = session_score_spec(q, bs[b].sessions[k + 1], bs[b].cwd)->0;
            s1 > s2 || (s1 == s2 && lex_le(
                bs[b].sessions[k + 1].started_at,
                bs[b].sessions[k].started_at,
            ))
        })
}

impl SortOrd for (i64, SessionSummary) {
    /// Higher score first; ties broken by most recent start timestamp.
    open spec fn le_spec(a: (i64, SessionSummary), b: (i64, SessionSummary)) -> bool {
        a.0 > b.0 || (a.0 == b.0 && lex_le(b.1@.started_at, a.1@.started_at))
    }

    proof fn lemma_total(a: (i64, SessionSummary), b: (i64, SessionSummary)) {
        lemma_lex_le_total(a.1@.started_at, b.1@.started_at);
    }

    fn le(a: &(i64, SessionSummary), b: &(i64, SessionSummary)) -> (r: bool) {
        a.0 > b.0 || (a.0 == b.0 && str_lex_le(b.1.started_at.as_str(), a.1.started_at.as_str()))
    }
}

/// Halves a score, truncating toward zero.
fn div2(x: i64) -> (r: i64)
    requires
        x > i64::MIN,
    ensures
        r as int == div2_trunc(x as int),
{
    if x >= 0 {
        x / 2
    } else {
        -((-x) / 2)
    }
}

/// Scores one session against the lowercased query.
fn score_session(
    query_lower: &str,
    s: &SessionSummary,
    cwd: &str,
    cwd_lower: &str,
    Ghost(qspec): Ghost<Seq<char>>,
) -> (r: Option<i64>)
    requires
        query_lower@ == qspec,
        cwd_lower@ == lower_of(cwd@),
    ensures
        r is Some <==> session_score_spec(qspec, s@, cwd@) is Some,
        query_lower@.len() <= SCORE_SAFE_LEN as int && session_text_spec(s@, cwd@).len()
            <= SCORE_SAFE_LEN as int && lower_of(cwd@).len() <= SCORE_SAFE_LEN as int && r
            is Some ==> Some(r->0 as int) == session_score_spec(qspec, s@, cwd@),
{
    proof {
        reveal_strlit("\n");
        assert("\n"@ =~= seq!['\n']);
    }
    let mut text = String::new();
    text.append(s.search_blob.as_str());
    text.append("\n");
    text.append(s.file_name.as_str());
    text.append("\n");
    text.append(s.id.as_str());
    text.append("\n");
    text.append(cwd);
    proof {
        assert(text@ =~= session_text_spec(s@, cwd@));
    }
    let a = fuzzy_score(query_lower, text.as_str());
    let b = fuzzy_score(query_lower, cwd_lower);
    match (a, b) {
        (Some(x), Some(y)) => {
            let yh = div2(y);
            if x >= yh {
                Some(x)
            } else {
                Some(yh)
            }
        },
        (Some(x), None) => Some(x),
        (None, Some(y)) => Some(div2(y)),
        (None, None) => None,
    }
}

/// A fresh bucket with the same model.
pub fn duplicate_bucket(b: &ProjectBucket) -> (r: ProjectBucket)
    ensures
        r@ == b@,
{
    broadcast use crate::text::lemma_deep_view_len, crate::text::lemma_deep_view_index;

    let mut sessions: Vec<SessionSummary> = Vec::new();
    let mut k: usize = 0;
    while k < b.sessions.len()
        invariant
            0 <= k <= b.sessions@.len(),
            sessions@.len() == k,
            forall|j: int|
                0 <= j < k ==> (#[trigger] sessions.deep_view()[j]) == b.sessions.deep_view()[j],
        decreases b.sessions@.len() - k,
    {
        let dup = b.sessions[k].duplicate();
        let ghost dupg = dup;
        let ghost prev_sessions = sessions;
        sessions.push(dup);
        proof {
            crate::text::lemma_deep_push(sessions, prev_sessions.deep_view(), dupg, prev_sessions);
        }
        k += 1;
    }
    proof {
        assert(sessions.deep_view() =~= b.sessions.deep_view());
    }
    ProjectBucket { cwd: b.cwd.clone(), sessions }
}

/// Fresh buckets with the same models.
pub fn duplicate_buckets(bs: &Vec<ProjectBucket>) -> (r: Vec<ProjectBucket>)
    ensures
        r.deep_view() == bs.deep_view(),
{
    broadcast use crate::text::lemma_deep_view_len, crate::text::lemma_deep_view_index;

    let mut out: Vec<ProjectBucket> = Vec::new();
    let mut i: usize = 0;
    while i < bs.len()
        invariant
            0 <= i <= bs@.len(),
            out@.len() == i,
            forall|j: int| 0 <= j < i ==> (#[trigger] out.deep_view()[j]) == bs.deep_view()[j],
        decreases bs@.len() - i,
    {
        let dup = duplicate_bucket(&bs[i]);
        let ghost dupg = dup;
        let ghost prev_out = out;
        out.push(dup);
        proof {
            crate::text::lemma_deep_push(out, prev_out.deep_view(), dupg, prev_out);
        }
        i += 1;
    }
    proof {
        assert(out.deep_view() =~= bs.deep_view());
    }
    out
}

/// Filters and ranks the catalog against a free-text query.
///
/// A blank query applies no filter. Otherwise the query is lowercased and
/// every session is scored; each project keeps exactly its scoring sessions,
/// ranked by score and then by most recent start (exactly so whenever the
/// involved texts are short enough for 64-bit arithmetic), and projects are
/// ranked by surviving-session count, then by ascending path. Projects with
/// no scoring session drop out.
#[verifier::loop_isolation(false)]
pub fn search_catalog(catalog: &Vec<ProjectBucket>, query: &str) -> (r: Vec<ProjectBucket>)
    ensures
        all_space(query@) ==> r.deep_view() == catalog.deep_view(),
        !all_space(query@) ==> ({
            let cat = catalog.deep_view();
            let q = lower_of(query@);
            let bs = r.deep_view();
            &&& buckets_correspond(cat, q, bs, cat.len() as int)
            &&& buckets_complete(cat, q, bs, cat.len() as int)
            &&& buckets_ranked(bs)
            &&& buckets_scored(q, bs)
            &&& catalog_small(cat, q) ==> buckets_ordered(q, bs)
        }),
{
    broadcast use crate::text::lemma_deep_view_len, crate::text::lemma_deep_view_index;

    if crate::records::str_all_space(query) {
        return duplicate_buckets(catalog);
    }
    let query_lower = to_lowercase(query);
    let ghost q = lower_of(query@);
    let ghost cat = catalog.deep_view();
    let ghost small = catalog_small(cat, q);
    let mut out: Vec<ProjectBucket> = Vec::new();
    let mut j: usize = 0;
    while j < catalog.len()
        invariant
            0 <= j <= catalog@.len(),
            cat == catalog.deep_view(),
            q == lower_of(query@),
            query_lower@ == q,
            small == catalog_small(cat, q),
            buckets_correspond(cat, q, out.deep_view(), j as int),
            buckets_complete(cat, q, out.deep_view(), j as int),
            buckets_ranked(out.deep_view()),
            buckets_scored(q, out.deep_view()),
            small ==> buckets_ordered(q, out.deep_view()),
        decreases catalog@.len() - j,
    {
        let bucket = &catalog[j];
        let ghost bv = cat[j as int];
        let cwd_lower = to_lowercase(bucket.cwd.as_str());
        let scored = score_bucket(bucket, query_lower.as_str(), cwd_lower.as_str(), Ghost(q));
        proof {
            if small {
                assert(forall|k: int|
                    0 <= k < bv.sessions.len() ==> session_text_spec(
                        #[trigger] bv.sessions[k],
                        bv.cwd,
                    ).len() <= SCORE_SAFE_LEN as int);
            }
        }
        if scored.len() > 0 {
            let newb = build_ranked_bucket(bucket, scored, Ghost(q), Ghost(small));
            let ghost nbv = newb@;
            let ghost prev_deep = out.deep_view();
            let pg = insert_ranked(&mut out, newb);
            proof {
                assert(bucket_matches(cat, q, j as int, nbv));
                lemma_step_correspond(cat, q, j as int, prev_deep, out.deep_view(), nbv, pg@);
                lemma_step_complete(cat, q, j as int, prev_deep, out.deep_view(), nbv, pg@);
                lemma_step_scored(q, prev_deep, out.deep_view(), nbv, pg@);
                if small {
                    lemma_step_ordered(q, prev_deep, out.deep_view(), nbv, pg@);
                }
            }
        } else {
            proof {
                assert(matching(bv.sessions, q, bv.cwd, bv.sessions.len() as int).len() == 0);
                lemma_search_step_skip(cat, q, j as int, out.deep_view());
            }
        }
        j += 1;
    }
    out
}

/// After inserting the new ranked bucket, every bucket corresponds to a
/// catalog project.
proof fn lemma_step_correspond(
    cat: Seq<ProjectBucketV>,
    q: Seq<char>,
    j: int,
    prev: Seq<ProjectBucketV>,
    od: Seq<ProjectBucketV>,
    nbv: ProjectBucketV,
    p: int,
)
    requires
        0 <= j < cat.len(),
        0 <= p <= prev.len(),
        od == prev.insert(p, nbv),
        buckets_correspond(cat, q, prev, j),
        bucket_matches(cat, q, j, nbv),
    ensures
        buckets_correspond(cat, q, od, j + 1),
{
    assert forall|b: int| 0 <= b < od.len() implies #[trigger] has_source(cat, q, j + 1, od[b]) by {
        if b == p {
            assert(od[b] == nbv);
            assert(bucket_matches(cat, q, j, od[b]));
        } else {
            let ob = if b < p {
                b
            } else {
                b - 1
            };
            assert(od[b] == prev[ob]);
            assert(has_source(cat, q, j, prev[ob]));
            let jj0 = choose|jj: int| 0 <= jj < j && #[trigger] bucket_matches(cat, q, jj, prev[ob]);
            assert(bucket_matches(cat, q, jj0, od[b]));
        }
    }
}

/// After inserting the new ranked bucket, every surviving project still has
/// a bucket.
proof fn lemma_step_complete(
    cat: Seq<ProjectBucketV>,
    q: Seq<char>,
    j: int,
    prev: Seq<ProjectBucketV>,
    od: Seq<ProjectBucketV>,
    nbv: ProjectBucketV,
    p: int,
)
    requires
        0 <= j < cat.len(),
        0 <= p <= prev.len(),
        od == prev.insert(p, nbv),
        buckets_complete(cat, q, prev, j),
        nbv.cwd == cat[j].cwd,
    ensures
        buckets_complete(cat, q, od, j + 1),
{
    assert forall|jj: int|
        0 <= jj < j + 1 && matching(
        (#[trigger] cat[jj]).sessions,
        q,
        cat[jj].cwd,
        cat[jj].sessions.len() as int,
    ).len() > 0 implies exists|b: int| 0 <= b < od.len() && (#[trigger] od[b]).cwd == cat[jj].cwd by {
        if jj == j {
            assert(od[p].cwd == cat[jj].cwd);
        } else {
            let b0 = choose|b0: int|
                0 <= b0 < prev.len() && (#[trigger] prev[b0]).cwd == cat[jj].cwd;
            if b0 < p {
                assert(od[b0].cwd == cat[jj].cwd);
            } else {
                assert(od[b0 + 1].cwd == cat[jj].cwd);
            }
        }
    }
}

/// After inserting the new ranked bucket, every kept session still scores.
proof fn lemma_step_scored(
    q: Seq<char>,
    prev: Seq<ProjectBucketV>,
    od: Seq<ProjectBucketV>,
    nbv: ProjectBucketV,
    p: int,
)
    requires
        0 <= p <= prev.len(),
        od == prev.insert(p, nbv),
        buckets_scored(q, prev),
        forall|kk: int|
            0 <= kk < nbv.sessions.len() ==> session_score_spec(
                q,
                #[trigger] nbv.sessions[kk],
                nbv.cwd,
            ) is Some,
    ensures
        buckets_scored(q, od),
{
    assert forall|b: int, kk: int|
        0 <= b < od.len() && 0 <= kk < (#[trigger] od[b]).sessions.len()
        implies session_score_spec(q, #[trigger] od[b].sessions[kk], od[b].cwd) is Some by {
        if b != p {
            let ob = if b < p {
                b
            } else {
                b - 1
            };
            assert(od[b] == prev[ob]);
        }
    }
}

/// After inserting the new ranked bucket, every bucket stays score-ordered.
proof fn lemma_step_ordered(
    q: Seq<char>,
    prev: Seq<ProjectBucketV>,
    od: Seq<ProjectBucketV>,
    nbv: ProjectBucketV,
    p: int,
)
    requires
        0 <= p <= prev.len(),
        od == prev.insert(p, nbv),
        buckets_ordered(q, prev),
        forall|kk: int|
            0 <= kk < nbv.sessions.len() - 1 ==> ({
                let s1 = session_score_spec(q, #[trigger] nbv.sessions[kk], nbv.cwd)->0;
                let s2 = session_score_spec(q, nbv.sessions[kk + 1], nbv.cwd)->0;
                s1 > s2 || (s1 == s2 && lex_le(
                    nbv.sessions[kk + 1].started_at,
                    nbv.sessions[kk].started_at,
                ))
            }),
    ensures
        buckets_ordered(q, od),
{
    assert forall|b: int, kk: int|
        0 <= b < od.len() && 0 <= kk < (#[trigger] od[b]).sessions.len() - 1 implies ({
        let s1 = session_score_spec(q, #[trigger] od[b].sessions[kk], od[b].cwd)->0;
        let s2 = session_score_spec(q, od[b].sessions[kk + 1], od[b].cwd)->0;
        s1 > s2 || (s1 == s2 && lex_le(
            od[b].sessions[kk + 1].started_at,
            od[b].sessions[kk].started_at,
        ))
    }) by {
        if b != p {
            let ob = if b < p {
                b
            } else {
                b - 1
            };
            assert(od[b] == prev[ob]);
        }
    }
}

/// One search step that dropped the project keeps every invariant.
proof fn lemma_search_step_skip(cat: Seq<ProjectBucketV>, q: Seq<char>, j: int, od: Seq<ProjectBucketV>)
    requires
        0 <= j < cat.len(),
        buckets_correspond(cat, q, od, j),
        buckets_complete(cat, q, od, j),
        matching(cat[j].sessions, q, cat[j].cwd, cat[j].sessions.len() as int).len() == 0,
    ensures
        buckets_correspond(cat, q, od, j + 1),
        buckets_complete(cat, q, od, j + 1),
{
    assert forall|b: int| 0 <= b < od.len() implies #[trigger] has_source(cat, q, j + 1, od[b]) by {
        assert(has_source(cat, q, j, od[b]));
        let jj0 = choose|jj: int| 0 <= jj < j && #[trigger] bucket_matches(cat, q, jj, od[b]);
        assert(bucket_matches(cat, q, jj0, od[b]));
        assert(0 <= jj0 < j + 1);
    }
}

/// Scores every session of one project, keeping the scoring ones in order.
#[verifier::loop_isolation(false)]
fn score_bucket(
    bucket: &ProjectBucket,
    query_lower: &str,
    cwd_lower: &str,
    Ghost(q): Ghost<Seq<char>>,
) -> (scored: Vec<(i64, SessionSummary)>)
    requires
        query_lower@ == q,
        cwd_lower@ == lower_of(bucket.cwd@),
    ensures
        scored.deep_view().map_values(|p: (i64, SessionSummaryV)| p.1) == matching(
            bucket@.sessions,
            q,
            bucket@.cwd,
            bucket@.sessions.len() as int,
        ),
        forall|idx: int|
            0 <= idx < scored@.len() ==> session_score_spec(
                q,
                (#[trigger] scored.deep_view()[idx]).1,
                bucket@.cwd,
            ) is Some,
        q.len() <= SCORE_SAFE_LEN as int && lower_of(bucket@.cwd).len() <= SCORE_SAFE_LEN as int
            && (forall|k: int|
            0 <= k < bucket@.sessions.len() ==> session_text_spec(
                #[trigger] bucket@.sessions[k],
                bucket@.cwd,
            ).len() <= SCORE_SAFE_LEN as int) ==> forall|idx: int|
            0 <= idx < scored@.len() ==> (#[trigger] scored.deep_view()[idx]).0 as int
                == session_score_spec(q, scored.deep_view()[idx].1, bucket@.cwd)->0,
{
    broadcast use crate::text::lemma_deep_view_len, crate::text::lemma_deep_view_index;

    let ghost bv = bucket@;
    let ghost small_b = q.len() <= SCORE_SAFE_LEN as int && lower_of(bv.cwd).len()
        <= SCORE_SAFE_LEN as int && (forall|k: int|
        0 <= k < bv.sessions.len() ==> session_text_spec(#[trigger] bv.sessions[k], bv.cwd).len()
            <= SCORE_SAFE_LEN as int);
    let mut scored: Vec<(i64, SessionSummary)> = Vec::new();
    let mut k: usize = 0;
    while k < bucket.sessions.len()
        invariant
            0 <= k <= bucket.sessions@.len(),
            bv == bucket@,
            bv.sessions == bucket.sessions.deep_view(),
            cwd_lower@ == lower_of(bucket.cwd@),
            query_lower@ == q,
            scored.deep_view().map_values(|p: (i64, SessionSummaryV)| p.1) == matching(
                bv.sessions,
                q,
                bv.cwd,
                k as int,
            ),
            forall|idx: int|
                0 <= idx < scored@.len() ==> session_score_spec(
                    q,
                    (#[trigger] scored.deep_view()[idx]).1,
                    bv.cwd,
                ) is Some,
            small_b ==> forall|idx: int|
                0 <= idx < scored@.len() ==> (#[trigger] scored.deep_view()[idx]).0 as int
                    == session_score_spec(q, scored.deep_view()[idx].1, bv.cwd)->0,
        decreases bucket.sessions@.len() - k,
    {
        let s = &bucket.sessions[k];
        match score_session(query_lower, s, bucket.cwd.as_str(), cwd_lower, Ghost(q)) {
            Some(sc) => {
                let pair = (sc, s.duplicate());
                let ghost pairg = pair;
                let ghost prev_scored = scored;
                scored.push(pair);
                proof {
                    crate::text::lemma_deep_push(
                        scored,
                        prev_scored.deep_view(),
                        pairg,
                        prev_scored,
                    );
                    assert(scored.deep_view().map_values(|p: (i64, SessionSummaryV)| p.1)
                        =~= matching(bv.sessions, q, bv.cwd, k + 1));
                }
            },
            None => {
                proof {
                    assert(scored.deep_view().map_values(|p: (i64, SessionSummaryV)| p.1)
                        =~= matching(bv.sessions, q, bv.cwd, k + 1));
                }
            },
        }
        k += 1;
    }
    scored
}

/// Drops the scores, keeping the ranked sessions.
#[verifier::loop_isolation(false)]
fn strip_scores(sorted: Vec<(i64, SessionSummary)>) -> (sessions: Vec<SessionSummary>)
    ensures
        sessions.deep_view() == sorted.deep_view().map_values(|p: (i64, SessionSummaryV)| p.1),
{
    broadcast use crate::text::lemma_deep_view_len, crate::text::lemma_deep_view_index;

    let mut sessions: Vec<SessionSummary> = Vec::new();
    let mut sorted_mut = sorted;
    let ghost sorted_deep = sorted_mut.deep_view();
    while sorted_mut.len() > 0
        invariant
            sessions@.len() + sorted_mut@.len() == sorted_deep.len(),
            sessions.deep_view() + sorted_mut.deep_view().map_values(
                |p: (i64, SessionSummaryV)| p.1,
            ) == sorted_deep.map_values(|p: (i64, SessionSummaryV)| p.1),
            sorted_mut.deep_view() == sorted_deep.subrange(
                sessions@.len() as int,
                sorted_deep.len() as int,
            ),
        decreases sorted_mut@.len(),
    {
        let ghost prev_sessions = sessions;
        let ghost prev_sorted_mut = sorted_mut;
        let pair = sorted_mut.remove(0);
        sessions.push(pair.1);
        proof {
            crate::text::lemma_deep_remove(sorted_mut, prev_sorted_mut, 0);
            crate::text::lemma_deep_push(
                sessions,
                prev_sessions.deep_view(),
                pair.1,
                prev_sessions,
            );
            assert(sessions.deep_view() + sorted_mut.deep_view().map_values(
                |p: (i64, SessionSummaryV)| p.1,
            ) =~= sorted_deep.map_values(|p: (i64, SessionSummaryV)| p.1));
            assert(sorted_mut.deep_view() =~= sorted_deep.subrange(
                sessions@.len() as int,
                sorted_deep.len() as int,
            ));
        }
    }
    proof {
        assert(sessions.deep_view() =~= sorted_deep.map_values(|p: (i64, SessionSummaryV)| p.1));
    }
    sessions
}

/// Builds the ranked bucket for one surviving project: exactly the scoring
/// sessions, ranked by score and then by most recent start whenever the
/// scores were computed exactly.
#[verifier::loop_isolation(false)]
#[verifier::rlimit(100)]
fn build_ranked_bucket(
    bucket: &ProjectBucket,
    scored: Vec<(i64, SessionSummary)>,
    Ghost(q): Ghost<Seq<char>>,
    Ghost(small): Ghost<bool>,
) -> (newb: ProjectBucket)
    requires
        scored@.len() > 0,
        scored.deep_view().map_values(|p: (i64, SessionSummaryV)| p.1) == matching(
            bucket@.sessions,
            q,
            bucket@.cwd,
            bucket@.sessions.len() as int,
        ),
        forall|idx: int|
            0 <= idx < scored@.len() ==> session_score_spec(
                q,
                (#[trigger] scored.deep_view()[idx]).1,
                bucket@.cwd,
            ) is Some,
        small ==> forall|idx: int|
            0 <= idx < scored@.len() ==> (#[trigger] scored.deep_view()[idx]).0 as int
                == session_score_spec(q, scored.deep_view()[idx].1, bucket@.cwd)->0,
    ensures
        newb@.cwd == bucket@.cwd,
        newb@.sessions.to_multiset() == matching(
            bucket@.sessions,
            q,
            bucket@.cwd,
            bucket@.sessions.len() as int,
        ).to_multiset(),
        newb@.sessions.len() == matching(
            bucket@.sessions,
            q,
            bucket@.cwd,
            bucket@.sessions.len() as int,
        ).len(),
        forall|kk: int|
            0 <= kk < newb@.sessions.len() ==> session_score_spec(
                q,
                #[trigger] newb@.sessions[kk],
                newb@.cwd,
            ) is Some,
        small ==> forall|kk: int|
            0 <= kk < newb@.sessions.len() - 1 ==> ({
                let s1 = session_score_spec(q, #[trigger] newb@.sessions[kk], newb@.cwd)->0;
                let s2 = session_score_spec(q, newb@.sessions[kk + 1], newb@.cwd)->0;
                s1 > s2 || (s1 == s2 && lex_le(
                    newb@.sessions[kk + 1].started_at,
                    newb@.sessions[kk].started_at,
                ))
            }),
{
    broadcast use crate::text::lemma_deep_view_len, crate::text::lemma_deep_view_index;

    let ghost bv = bucket@;
    let ghost pre_sorted = scored.deep_view();
    let ghost matching_full = matching(bv.sessions, q, bv.cwd, bv.sessions.len() as int);
    let sorted = insertion_sort(scored);
    let ghost sorted_pairs = sorted@;
    let ghost sorted_deep = sorted.deep_view();
    proof {
        lemma_multiset_elems(pre_sorted, sorted_deep);
        lemma_map_multiset(sorted_deep, pre_sorted, |p: (i64, SessionSummaryV)| p.1);
        assert forall|kk: int|
            0 <= kk < sorted@.len() implies #[trigger] sorted_deep[kk] == (
        sorted_pairs[kk].0,
        sorted_pairs[kk].1@,
        ) by {
            assert(sorted_deep[kk] == sorted@[kk].deep_view());
        }
    }
    let sessions = strip_scores(sorted);
    let newb = ProjectBucket { cwd: bucket.cwd.clone(), sessions };
    let ghost nbv = newb@;
    proof {
        assert(nbv.sessions == sorted_deep.map_values(|p: (i64, SessionSummaryV)| p.1));
        assert(nbv.sessions.to_multiset() == matching_full.to_multiset());
        assert forall|kk: int|
            0 <= kk < nbv.sessions.len() implies session_score_spec(
            q,
            #[trigger] nbv.sessions[kk],
            nbv.cwd,
        ) is Some by {
            assert(nbv.sessions[kk] == sorted_deep[kk].1);
            assert(pre_sorted.contains(sorted_deep[kk]));
            let idx = choose|idx: int|
                0 <= idx < pre_sorted.len() && pre_sorted[idx] == sorted_deep[kk];
            assert(session_score_spec(q, pre_sorted[idx].1, bv.cwd) is Some);
        }
        if small {
            assert forall|kk: int|
                0 <= kk < nbv.sessions.len() implies (#[trigger] sorted_deep[kk]).0 as int
                == session_score_spec(q, sorted_deep[kk].1, bv.cwd)->0 by {
                assert(pre_sorted.contains(sorted_deep[kk]));
                let idx = choose|idx: int|
                    0 <= idx < pre_sorted.len() && pre_sorted[idx] == sorted_deep[kk];
                assert(pre_sorted[idx].0 as int == session_score_spec(
                    q,
                    pre_sorted[idx].1,
                    bv.cwd,
                )->0);
            }
            assert forall|kk: int|
                0 <= kk < nbv.sessions.len() - 1 implies ({
                let s1 = session_score_spec(q, #[trigger] nbv.sessions[kk], nbv.cwd)->0;
                let s2 = session_score_spec(q, nbv.sessions[kk + 1], nbv.cwd)->0;
                s1 > s2 || (s1 == s2 && lex_le(
                    nbv.sessions[kk + 1].started_at,
                    nbv.sessions[kk].started_at,
                ))
            }) by {
                assert(<(i64, SessionSummary) as SortOrd>::le_spec(
                    sorted_pairs[kk],
                    sorted_pairs[kk + 1],
                ));
                assert(sorted_deep[kk] == (sorted_pairs[kk].0, sorted_pairs[kk].1@));
                assert(sorted_deep[kk + 1] == (sorted_pairs[kk + 1].0, sorted_pairs[kk + 1].1@));
                assert(nbv.sessions[kk] == sorted_deep[kk].1);
                assert(nbv.sessions[kk + 1] == sorted_deep[kk + 1].1);
            }
        }
    }
    newb
}

/// Inserts a bucket at its ranked position, keeping the ranked adjacency.
#[verifier::loop_isolation(false)]
fn insert_ranked(out: &mut Vec<ProjectBucket>, newb: ProjectBucket) -> (p: Ghost<int>)
    requires
        forall|b: int|
            0 <= b < old(out)@.len() - 1 ==> bucket_le(
                #[trigger] old(out).deep_view()[b],
                old(out).deep_view()[b + 1],
            ),
    ensures
        0 <= p@ <= old(out)@.len(),
        final(out).deep_view() == old(out).deep_view().insert(p@, newb@),
        forall|b: int|
            0 <= b < final(out)@.len() - 1 ==> bucket_le(
                #[trigger] final(out).deep_view()[b],
                final(out).deep_view()[b + 1],
            ),
{
    broadcast use crate::text::lemma_deep_view_len, crate::text::lemma_deep_view_index;

    let ghost nbv = newb@;
    let mut p: usize = 0;
    while p < out.len() && bucket_le_exec(&out[p], &newb)
        invariant
            0 <= p <= out@.len(),
            out == old(out),
            forall|b: int| 0 <= b < p ==> bucket_le(#[trigger] out.deep_view()[b], nbv),
        decreases out@.len() - p,
    {
        p += 1;
    }
    if p < out.len() {
        proof {
            lemma_lex_le_total(out.deep_view()[p as int].cwd, nbv.cwd);
            assert(bucket_le(nbv, out.deep_view()[p as int]));
        }
    }
    let ghost prev_out = *out;
    let ghost prev_deep = out.deep_view();
    let ghost newbg = newb;
    out.insert(p, newb);
    proof {
        crate::text::lemma_deep_insert(*out, prev_out, p as int, newbg);
        assert(newbg.deep_view() == nbv);
        let od = out.deep_view();
        assert forall|b: int|
            0 <= b < od.len() - 1 implies bucket_le(#[trigger] od[b], od[b + 1]) by {
            if b < p - 1 {
                assert(od[b] == prev_deep[b]);
                assert(od[b + 1] == prev_deep[b + 1]);
            } else if b == p - 1 {
                assert(od[b] == prev_deep[b]);
                assert(od[b + 1] == nbv);
            } else if b == p {
                assert(od[b] == nbv);
                assert(od[b + 1] == prev_deep[b]);
            } else {
                assert(od[b] == prev_deep[b - 1]);
                assert(od[b + 1] == prev_deep[b]);
            }
        }
    }
    Ghost(p as int)
}

/// Decides the ranked project order.
fn bucket_le_exec(a: &ProjectBucket, b: &ProjectBucket) -> (r: bool)
    ensures
        r == bucket_le(a@, b@),
{
    broadcast use crate::text::lemma_deep_view_len;

    a.sessions.len() > b.sessions.len() || (a.sessions.len() == b.sessions.len() && str_lex_le(
        a.cwd.as_str(),
        b.cwd.as_str(),
    ))
}

} // verus!
