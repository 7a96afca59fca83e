//! The transactional mutation engine's verified core.
//!
//! Move, copy and fork all rewrite a session's content line by line: every
//! structured line has its `cwd` fields replaced, and a fork additionally
//! gets a fresh session id and start timestamp. The rewritten text, the
//! backup path, the dated target path and the collision candidates are all
//! computed here; the caller performs the file reads, atomic writes and
//! renames, and reports one outcome per target, which the batch summary
//! folds into counts and failure messages.

use vstd::prelude::*;
use vstd::string::StringSliceAdditionalSpecFns;
use crate::json::{json_of, json_text_of, json_to_line, parse_json_line, rewrite_cwd_fields,
    rewrite_cwd_spec, rewrite_meta_text_spec, rewrite_session_id, rewrite_session_start_timestamp,
    JsonV};
use crate::text::{chars_to_string, dec_spec, str_to_chars, usize_to_string};
use crate::wrap::{all_space, line_all_space, lines_spec, split_lines};

verus! {

/// Why a rewrite was abandoned.
#[derive(Clone, Copy, PartialEq, Eq, Structural, Debug)]
pub enum RewriteError {
    /// A non-blank line of the session file is not valid JSON.
    InvalidLine,
}

/// The rewritten form of one non-blank record line.
pub open spec fn rewrite_line_spec(
    v: JsonV,
    cwd: Seq<char>,
    new_id: Option<Seq<char>>,
    new_ts: Option<Seq<char>>,
) -> JsonV {
    let v1 = rewrite_cwd_spec(v, cwd);
    let v2 = match new_id {
        Some(id) => rewrite_meta_text_spec(v1, "id"@, id),
        None => v1,
    };
    match new_ts {
        Some(ts) => rewrite_meta_text_spec(v2, "timestamp"@, ts),
        None => v2,
    }
}

/// The rewritten content of the first `n` lines: blank lines stay blank,
/// record lines are rewritten and re-printed, each line ending in a newline.
/// Nothing when some non-blank line is not valid JSON.
pub open spec fn rewrite_content_state(
    ls: Seq<Seq<char>>,
    cwd: Seq<char>,
    new_id: Option<Seq<char>>,
    new_ts: Option<Seq<char>>,
    n: int,
) -> Option<Seq<char>>
    decreases n,
{
    if n <= 0 {
        Some(Seq::empty())
    } else {
        match rewrite_content_state(ls, cwd, new_id, new_ts, n - 1) {
            None => None,
            Some(prev) => {
                let line = ls[n - 1];
                if all_space(line) {
                    Some(prev.push('\n'))
                } else {
                    match json_of(line) {
                        None => None,
                        Some(v) => Some(
                            prev + json_text_of(rewrite_line_spec(v, cwd, new_id, new_ts)) + seq![
                                '\n',
                            ],
                        ),
                    }
                }
            },
        }
    }
}

/// The full rewritten content of a session file.
pub open spec fn rewrite_content_spec(
    content: Seq<char>,
    cwd: Seq<char>,
    new_id: Option<Seq<char>>,
    new_ts: Option<Seq<char>>,
) -> Option<Seq<char>> {
    let ls = lines_spec(content);
    rewrite_content_state(ls, cwd, new_id, new_ts, ls.len() as int)
}

/// Rewrites a session's content for a move, copy or fork: every structured
/// line's `cwd` fields become the target path; a fork's `session_meta`
/// record also gets the fresh id and start timestamp. Fails exactly when a
/// non-blank line is not valid JSON.
#[verifier::loop_isolation(false)]
pub fn rewrite_session_content(
    content: &str,
    target_cwd: &str,
    new_id: Option<&str>,
    new_ts: Option<&str>,
) -> (r: Result<String, RewriteError>)
    ensures
        ({
            let idv = match new_id {
                Some(id) => Some(id@),
                None => None::<Seq<char>>,
            };
            let tsv = match new_ts {
                Some(ts) => Some(ts@),
                None => None::<Seq<char>>,
            };
            match r {
                Ok(out) => rewrite_content_spec(content@, target_cwd@, idv, tsv) == Some(out@),
                Err(_) => rewrite_content_spec(content@, target_cwd@, idv, tsv) is None,
            }
        }),
{
    proof {
        reveal_strlit("\n");
        assert("\n"@ =~= seq!['\n']);
    }
    let ghost idv = match new_id {
        Some(id) => Some(id@),
        None => None::<Seq<char>>,
    };
    let ghost tsv = match new_ts {
        Some(ts) => Some(ts@),
        None => None::<Seq<char>>,
    };
    let cs = str_to_chars(content);
    let ls = split_lines(&cs);
    let ghost lsv = lines_spec(content@);
    let mut out = String::new();
    let mut i: usize = 0;
    while i < ls.len()
        invariant
            0 <= i <= ls@.len(),
            ls.deep_view() == lsv,
            idv == match new_id {
                Some(id) => Some(id@),
                None => None::<Seq<char>>,
            },
            tsv == match new_ts {
                Some(ts) => Some(ts@),
                None => None::<Seq<char>>,
            },
            rewrite_content_state(lsv, target_cwd@, idv, tsv, i as int) == Some(out@),
        decreases ls@.len() - i,
    {
        broadcast use crate::text::lemma_deep_view_chars, crate::text::lemma_deep_view_len, crate::text::lemma_deep_view_index;

        proof {
            assert(ls@[i as int].deep_view() == lsv[i as int]);
        }
        if line_all_space(&ls[i]) {
            out.append("\n");
            proof {
                assert(out@ =~= rewrite_content_state(
                    lsv,
                    target_cwd@,
                    idv,
                    tsv,
                    i + 1,
                )->Some_0);
            }
        } else {
            let line = chars_to_string(&ls[i]);
            match parse_json_line(line.as_str()) {
                None => {
                    proof {
                        lemma_rewrite_none(lsv, target_cwd@, idv, tsv, i + 1, lsv.len() as int);
                    }
                    return Err(RewriteError::InvalidLine);
                },
                Some(v) => {
                    let v1 = rewrite_cwd_fields(&v, target_cwd);
                    let v2 = match new_id {
                        Some(id) => rewrite_session_id(&v1, id),
                        None => v1,
                    };
                    let v3 = match new_ts {
                        Some(ts) => rewrite_session_start_timestamp(&v2, ts),
                        None => v2,
                    };
                    let printed = json_to_line(&v3);
                    out.append(printed.as_str());
                    out.append("\n");
                    proof {
                        assert(v3.model() == rewrite_line_spec(v.model(), target_cwd@, idv, tsv));
                        assert(out@ =~= rewrite_content_state(
                            lsv,
                            target_cwd@,
                            idv,
                            tsv,
                            i + 1,
                        )->Some_0);
                    }
                },
            }
        }
        i += 1;
    }
    Ok(out)
}

/// Once a line fails to parse, the whole rewrite fails.
proof fn lemma_rewrite_none(
    ls: Seq<Seq<char>>,
    cwd: Seq<char>,
    new_id: Option<Seq<char>>,
    new_ts: Option<Seq<char>>,
    k: int,
    n: int,
)
    requires
        0 <= k <= n,
        rewrite_content_state(ls, cwd, new_id, new_ts, k) is None,
    ensures
        rewrite_content_state(ls, cwd, new_id, new_ts, n) is None,
    decreases n - k,
{
    if k < n {
        lemma_rewrite_none(ls, cwd, new_id, new_ts, k + 1, n);
    }
}

// ---------------------------------------------------------------------------
// Paths: backups, dated copy targets, collision candidates.
// ---------------------------------------------------------------------------

/// The final path segment starts after the last separator.
pub open spec fn segment_start(p: Seq<char>) -> int
    decreases p.len(),
{
    if p.len() == 0 {
        0
    } else if p.last() == '/' {
        p.len() as int
    } else {
        segment_start(p.drop_last())
    }
}

/// Where the extension dot sits: the last dot strictly inside the final
/// segment, or the end when there is none.
pub open spec fn ext_dot(p: Seq<char>, n: int) -> int
    decreases n,
{
    if n <= 0 || n <= segment_start(p) {
        p.len() as int
    } else if p[n - 1] == '.' && n - 1 > segment_start(p) {
        n - 1
    } else {
        ext_dot(p, n - 1)
    }
}

/// The backup path: the session path with its extension replaced by
/// `jsonl.bak.<stamp>`.
pub open spec fn backup_path_spec(path: Seq<char>, stamp: Seq<char>) -> Seq<char> {
    path.take(ext_dot(path, path.len() as int)) + ".jsonl.bak."@ + stamp
}

/// Computes the timestamped backup path for a session file.
#[verifier::loop_isolation(false)]
pub fn backup_path(path: &str, stamp: &str) -> (r: String)
    ensures
        r@ == backup_path_spec(path@, stamp@),
{
    let cs = str_to_chars(path);
    let n = cs.len();
    proof {
        assert(path@.take(path@.len() as int) =~= path@);
    }
    // Find the start of the final path segment.
    let mut seg: usize = n;
    while seg > 0 && cs[seg - 1] != '/'
        invariant
            0 <= seg <= n,
            n == cs@.len(),
            cs@ == path@,
            segment_start(path@) == segment_start(path@.take(seg as int)),
            forall|j: int| seg <= j < n ==> path@[j] != '/',
        decreases seg,
    {
        proof {
            assert(path@.take(seg as int).drop_last() =~= path@.take(seg - 1));
        }
        seg -= 1;
    }
    proof {
        assert(path@.take(path@.len() as int) =~= path@);
        if seg > 0 {
            assert(segment_start(path@.take(seg as int)) == seg as int);
        } else {
            assert(segment_start(path@.take(0)) == 0);
        }
        assert(segment_start(path@) == seg as int);
    }
    // Find the extension dot.
    let mut dot: usize = n;
    let mut k: usize = n;
    while k > seg
        invariant
            seg <= k <= n,
            n == cs@.len(),
            cs@ == path@,
            segment_start(path@) == seg as int,
            ext_dot(path@, n as int) == ext_dot(path@, k as int) || (dot < n && ext_dot(
                path@,
                n as int,
            ) == dot as int),
            dot == n || (dot < n && ext_dot(path@, n as int) == dot as int),
        decreases k,
    {
        if cs[k - 1] == '.' && k - 1 > seg {
            if dot == n {
                dot = k - 1;
                proof {
                    assert(ext_dot(path@, k as int) == k - 1);
                }
            }
            proof {
                if ext_dot(path@, n as int) == ext_dot(path@, k as int) {
                    assert(ext_dot(path@, n as int) == dot as int || dot as int == k - 1);
                }
            }
        }
        k -= 1;
    }
    proof {
        if dot == n {
            assert(ext_dot(path@, seg as int) == path@.len() as int);
            assert(ext_dot(path@, n as int) == n as int);
        }
    }
    let mut outc: Vec<char> = Vec::new();
    let mut i: usize = 0;
    while i < dot
        invariant
            0 <= i <= dot <= n,
            n == cs@.len(),
            cs@ == path@,
            outc@ == path@.take(i as int),
        decreases dot - i,
    {
        outc.push(cs[i]);
        proof {
            assert(outc@ =~= path@.take(i + 1));
        }
        i += 1;
    }
    let mut out = chars_to_string(&outc);
    out.append(".jsonl.bak.");
    out.append(stamp);
    proof {
        assert(out@ =~= backup_path_spec(path@, stamp@));
    }
    out
}

/// The dated directory for copies and forks: `root/YYYY/MM/DD`.
pub open spec fn dated_dir_spec(
    root: Seq<char>,
    year: Seq<char>,
    month: Seq<char>,
    day: Seq<char>,
) -> Seq<char> {
    root + seq!['/'] + year + seq!['/'] + month + seq!['/'] + day
}

/// Joins the sessions root with the dated subdirectories.
pub fn dated_dir(root: &str, year: &str, month: &str, day: &str) -> (r: String)
    ensures
        r@ == dated_dir_spec(root@, year@, month@, day@),
{
    proof {
        reveal_strlit("/");
        assert("/"@ =~= seq!['/']);
    }
    let mut out = String::from_str(root);
    out.append("/");
    out.append(year);
    out.append("/");
    out.append(month);
    out.append("/");
    out.append(day);
    proof {
        assert(out@ =~= dated_dir_spec(root@, year@, month@, day@));
    }
    out
}

/// The file name of a copied or forked session: `rollout-<stamp>-<id>.jsonl`.
pub open spec fn copy_file_name_spec(stamp: Seq<char>, id: Seq<char>) -> Seq<char> {
    "rollout-"@ + stamp + seq!['-'] + id + ".jsonl"@
}

/// Builds the file name for a copied or forked session.
pub fn copy_file_name(stamp: &str, id: &str) -> (r: String)
    ensures
        r@ == copy_file_name_spec(stamp@, id@),
{
    proof {
        reveal_strlit("-");
        assert("-"@ =~= seq!['-']);
    }
    let mut out = String::from_str("rollout-");
    out.append(stamp);
    out.append("-");
    out.append(id);
    out.append(".jsonl");
    proof {
        assert(out@ =~= copy_file_name_spec(stamp@, id@));
    }
    out
}

/// The numbered collision candidate: `<stem>-<idx>.<ext>`.
pub open spec fn collision_candidate_spec(stem: Seq<char>, ext: Seq<char>, idx: int) -> Seq<char> {
    stem + seq!['-'] + dec_spec(idx) + seq!['.'] + ext
}

/// Builds the numbered collision candidate name for a taken path.
pub fn collision_candidate(stem: &str, ext: &str, idx: usize) -> (r: String)
    ensures
        r@ == collision_candidate_spec(stem@, ext@, idx as int),
{
    proof {
        reveal_strlit("-");
        reveal_strlit(".");
        assert("-"@ =~= seq!['-']);
        assert("."@ =~= seq!['.']);
    }
    let mut out = String::from_str(stem);
    out.append("-");
    let n = usize_to_string(idx);
    out.append(n.as_str());
    out.append(".");
    out.append(ext);
    proof {
        assert(out@ =~= collision_candidate_spec(stem@, ext@, idx as int));
    }
    out
}

// ---------------------------------------------------------------------------
// Batch aggregation.
// ---------------------------------------------------------------------------

/// What happened to one target of a batch.
pub enum TargetOutcome {
    /// The mutation went through.
    Succeeded,
    /// A move whose target equals the session's current project: a no-op.
    Skipped,
    /// The mutation failed; the message names the file and the error.
    Failed(String),
}

/// The ghost model of one outcome.
pub enum TargetOutcomeV {
    Succeeded,
    Skipped,
    Failed(Seq<char>),
}

impl View for TargetOutcome {
    type V = TargetOutcomeV;

    open spec fn view(&self) -> TargetOutcomeV {
        match self {
            TargetOutcome::Succeeded => TargetOutcomeV::Succeeded,
            TargetOutcome::Skipped => TargetOutcomeV::Skipped,
            TargetOutcome::Failed(m) => TargetOutcomeV::Failed(m@),
        }
    }
}

impl DeepView for TargetOutcome {
    type V = TargetOutcomeV;

    open spec fn deep_view(&self) -> TargetOutcomeV {
        self.view()
    }
}

/// The summary handed back after a batch.
pub struct BatchReport {
    pub succeeded: usize,
    pub skipped: usize,
    pub failures: Vec<String>,
}

/// How many of the first `n` outcomes are the given kind.
pub open spec fn count_outcomes(os: Seq<TargetOutcomeV>, kind: TargetOutcomeV, n: int) -> int
    decreases n,
{
    if n <= 0 {
        0
    } else {
        count_outcomes(os, kind, n - 1) + if os[n - 1] == kind {
            1int
        } else {
            0int
        }
    }
}

/// The failure messages among the first `n` outcomes, in order.
pub open spec fn failure_messages(os: Seq<TargetOutcomeV>, n: int) -> Seq<Seq<char>>
    decreases n,
{
    if n <= 0 {
        Seq::empty()
    } else {
        let prev = failure_messages(os, n - 1);
        match os[n - 1] {
            TargetOutcomeV::Failed(m) => prev.push(m),
            _ => prev,
        }
    }
}

/// Folds a batch's per-target outcomes into the report: how many succeeded,
/// how many were skipped as no-ops, and every failure message in target
/// order. No outcome is dropped, so one failing target never hides the rest.
#[verifier::loop_isolation(false)]
pub fn summarize_batch(outcomes: &Vec<TargetOutcome>) -> (r: BatchReport)
    ensures
        r.succeeded as int == count_outcomes(
            outcomes.deep_view(),
            TargetOutcomeV::Succeeded,
            outcomes@.len() as int,
        ),
        r.skipped as int == count_outcomes(
            outcomes.deep_view(),
            TargetOutcomeV::Skipped,
            outcomes@.len() as int,
        ),
        r.failures.deep_view() == failure_messages(outcomes.deep_view(), outcomes@.len() as int),
{
    broadcast use crate::text::lemma_deep_view_len, crate::text::lemma_deep_view_index;

    let ghost os = outcomes.deep_view();
    let mut succeeded: usize = 0;
    let mut skipped: usize = 0;
    let mut failures: Vec<String> = Vec::new();
    let mut i: usize = 0;
    while i < outcomes.len()
        invariant
            0 <= i <= outcomes@.len(),
            os == outcomes.deep_view(),
            succeeded as int == count_outcomes(os, TargetOutcomeV::Succeeded, i as int),
            skipped as int == count_outcomes(os, TargetOutcomeV::Skipped, i as int),
            succeeded <= i,
            skipped <= i,
            failures.deep_view() == failure_messages(os, i as int),
        decreases outcomes@.len() - i,
    {
        match &outcomes[i] {
            TargetOutcome::Succeeded => {
                succeeded += 1;
            },
            TargetOutcome::Skipped => {
                skipped += 1;
            },
            TargetOutcome::Failed(m) => {
                let msg = m.clone();
                let ghost msgg = msg;
                let ghost prev_failures = failures;
                failures.push(msg);
                proof {
                    crate::text::lemma_deep_push(
                        failures,
                        prev_failures.deep_view(),
                        msgg,
                        prev_failures,
                    );
                }
            },
        }
        i += 1;
        proof {
            assert(os[i - 1] == outcomes@[i - 1].deep_view());
        }
    }
    BatchReport { succeeded, skipped, failures }
}

// ---------------------------------------------------------------------------
// Trusted outside call: clipboard encoding.
// ---------------------------------------------------------------------------

/// What the standard base64 alphabet encodes a byte string to.
pub uninterp spec fn base64_of(b: Seq<u8>) -> Seq<char>;

/// Relies on `base64::engine::general_purpose::STANDARD`: padded standard
/// base64, four output characters for every three input bytes. The result
/// depends on the bytes alone.
#[verifier::external_body]
fn base64_encode(text: &str) -> (r: String)
    ensures
        r@ == base64_of(text.spec_bytes()),
        r@.len() == 4 * ((text.spec_bytes().len() + 2) / 3),
{
    <base64::engine::general_purpose::GeneralPurpose as base64::Engine>::encode(
        &base64::engine::general_purpose::STANDARD,
        text.as_bytes(),
    )
}

/// The clipboard escape for a text: `ESC ] 5 2 ; c ;`, the base64 payload,
/// then `ESC \`.
pub open spec fn osc52_spec(text: &str) -> Seq<char> {
    "\u{1b}]52;c;"@ + base64_of(text.spec_bytes()) + "\u{1b}\\"@
}

/// Builds the terminal escape sequence that copies a text to the clipboard.
pub fn osc52_sequence(text: &str) -> (r: String)
    ensures
        r@ == osc52_spec(text),
{
    let mut out = String::from_str("\u{1b}]52;c;");
    let b64 = base64_encode(text);
    out.append(b64.as_str());
    out.append("\u{1b}\\");
    proof {
        assert(out@ =~= osc52_spec(text));
    }
    out
}

} // verus!
