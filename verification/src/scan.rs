//! The session store scanner: parsing one file into a summary and grouping
//! summaries into per-project buckets.
//!
//! Reading the directory tree is the caller's job; the scanner receives each
//! candidate file's path, name and raw content, parses every file into a
//! summary (parsing never fails: missing fields get placeholder values), and
//! groups the summaries by their recorded working directory, projects sorted
//! by path and each project's sessions sorted most recent first.

use vstd::prelude::*;
use crate::json::{has_type, json_of, lookup, lookup_text, JsonV, JsonValue, parse_json_line};
use crate::order::{insertion_sort, lex_le, lemma_lex_le_total, str_lex_le, SortOrd};
use crate::records::{item_text, payload_of};
use crate::text::{chars_to_string, join_newline, join_nl, lower_of, str_eq, str_to_chars,
    to_lowercase};
use crate::wrap::{all_space, line_all_space, lines_spec, split_lines};

verus! {

/// One candidate log file handed to the scanner: its path, its file name,
/// and its raw content.
pub struct SessionFile {
    pub path: String,
    pub file_name: String,
    pub content: String,
}

/// The ghost model of a candidate file.
pub struct SessionFileV {
    pub path: Seq<char>,
    pub file_name: Seq<char>,
    pub content: Seq<char>,
}

impl View for SessionFile {
    type V = SessionFileV;

    open spec fn view(&self) -> SessionFileV {
        SessionFileV { path: self.path@, file_name: self.file_name@, content: self.content@ }
    }
}

impl DeepView for SessionFile {
    type V = SessionFileV;

    open spec fn deep_view(&self) -> SessionFileV {
        self.view()
    }
}

/// One parsed log file.
pub struct SessionSummary {
    pub path: String,
    pub file_name: String,
    pub id: String,
    pub cwd: String,
    pub started_at: String,
    pub event_count: usize,
    pub search_blob: String,
}

/// The ghost model of a session summary.
pub struct SessionSummaryV {
    pub path: Seq<char>,
    pub file_name: Seq<char>,
    pub id: Seq<char>,
    pub cwd: Seq<char>,
    pub started_at: Seq<char>,
    pub event_count: int,
    pub search_blob: Seq<char>,
}

impl View for SessionSummary {
    type V = SessionSummaryV;

    open spec fn view(&self) -> SessionSummaryV {
        SessionSummaryV {
            path: self.path@,
            file_name: self.file_name@,
            id: self.id@,
            cwd: self.cwd@,
            started_at: self.started_at@,
            event_count: self.event_count as int,
            search_blob: self.search_blob@,
        }
    }
}

impl DeepView for SessionSummary {
    type V = SessionSummaryV;

    open spec fn deep_view(&self) -> SessionSummaryV {
        self.view()
    }
}

impl SessionSummary {
    /// A fresh summary with the same model.
    pub fn duplicate(&self) -> (r: SessionSummary)
        ensures
            r@ == self@,
    {
        SessionSummary {
            path: self.path.clone(),
            file_name: self.file_name.clone(),
            id: self.id.clone(),
            cwd: self.cwd.clone(),
            started_at: self.started_at.clone(),
            event_count: self.event_count,
            search_blob: self.search_blob.clone(),
        }
    }
}

/// Sessions grouped by identical working directory.
pub struct ProjectBucket {
    pub cwd: String,
    pub sessions: Vec<SessionSummary>,
}

/// The ghost model of a project bucket.
pub struct ProjectBucketV {
    pub cwd: Seq<char>,
    pub sessions: Seq<SessionSummaryV>,
}

impl View for ProjectBucket {
    type V = ProjectBucketV;

    open spec fn view(&self) -> ProjectBucketV {
        ProjectBucketV { cwd: self.cwd@, sessions: self.sessions.deep_view() }
    }
}

impl DeepView for ProjectBucket {
    type V = ProjectBucketV;

    open spec fn deep_view(&self) -> ProjectBucketV {
        self.view()
    }
}

/// Every session in the bucket records the bucket's working directory.
pub open spec fn bucket_wf(b: ProjectBucketV) -> bool {
    forall|j: int| 0 <= j < b.sessions.len() ==> (#[trigger] b.sessions[j]).cwd == b.cwd
}

/// Sessions ordered most recent first by their start timestamp text.
pub open spec fn sessions_sorted_desc(ss: Seq<SessionSummaryV>) -> bool {
    forall|k: int|
        0 <= k < ss.len() - 1 ==> lex_le((#[trigger] ss[k + 1]).started_at, ss[k].started_at)
}

impl SortOrd for SessionSummary {
    /// Most recent start timestamp first.
    open spec fn le_spec(a: SessionSummary, b: SessionSummary) -> bool {
        lex_le(b@.started_at, a@.started_at)
    }

    proof fn lemma_total(a: SessionSummary, b: SessionSummary) {
        lemma_lex_le_total(a@.started_at, b@.started_at);
    }

    fn le(a: &SessionSummary, b: &SessionSummary) -> (r: bool) {
        str_lex_le(b.started_at.as_str(), a.started_at.as_str())
    }
}

// ---------------------------------------------------------------------------
// Parsing one file into a summary.
// ---------------------------------------------------------------------------

/// The texts contributed to the search blob by the first `n` content items
/// of a message record: every string text, lowercased, in order.
pub open spec fn blob_parts(items: Seq<JsonV>, n: int) -> Seq<Seq<char>>
    decreases n,
{
    if n <= 0 {
        Seq::empty()
    } else {
        let prev = blob_parts(items, n - 1);
        match item_text(items[n - 1]) {
            Some(t) => prev.push(lower_of(t)),
            None => prev,
        }
    }
}

/// Summary-building state: session id, working directory, start timestamp,
/// event count, and the collected search texts.
pub struct SummaryState {
    pub id: Seq<char>,
    pub cwd: Seq<char>,
    pub started_at: Seq<char>,
    pub event_count: int,
    pub parts: Seq<Seq<char>>,
}

/// How one parsed record updates the summary: a `session_meta` payload
/// supplies id, working directory and start timestamp (each only when
/// present, last occurrence winning); message records and `user_message`
/// events contribute lowercased text to the search blob.
pub open spec fn apply_record(st: SummaryState, v: JsonV) -> SummaryState {
    if has_type(v, "session_meta"@) {
        match lookup(v, "payload"@) {
            Some(p) => SummaryState {
                id: match lookup_text(p, "id"@) {
                    Some(t) => t,
                    None => st.id,
                },
                cwd: match lookup_text(p, "cwd"@) {
                    Some(t) => t,
                    None => st.cwd,
                },
                started_at: match lookup_text(p, "timestamp"@) {
                    Some(t) => t,
                    None => st.started_at,
                },
                ..st
            },
            None => st,
        }
    } else if has_type(v, "response_item"@) {
        let p = payload_of(v);
        if lookup_text(p, "type"@) == Some("message"@) {
            match lookup(p, "content"@) {
                Some(JsonV::Array(items)) => SummaryState {
                    parts: st.parts + blob_parts(items, items.len() as int),
                    ..st
                },
                _ => st,
            }
        } else {
            st
        }
    } else if has_type(v, "event_msg"@) {
        let p = payload_of(v);
        if lookup_text(p, "type"@) == Some("user_message"@) {
            match lookup_text(p, "message"@) {
                Some(t) => SummaryState { parts: st.parts.push(lower_of(t)), ..st },
                None => st,
            }
        } else {
            st
        }
    } else {
        st
    }
}

/// The summary state after the first `n` lines: blank lines are skipped,
/// every other line counts as an event, and parseable records update the
/// state.
pub open spec fn summary_state(ls: Seq<Seq<char>>, n: int) -> SummaryState
    decreases n,
{
    if n <= 0 {
        SummaryState {
            id: "unknown"@,
            cwd: "<unknown>"@,
            started_at: "unknown"@,
            event_count: 0,
            parts: Seq::empty(),
        }
    } else {
        let st = summary_state(ls, n - 1);
        let line = ls[n - 1];
        if all_space(line) {
            st
        } else {
            let st1 = SummaryState { event_count: st.event_count + 1, ..st };
            match json_of(line) {
                Some(v) => apply_record(st1, v),
                None => st1,
            }
        }
    }
}

/// The summary of one file's content.
pub open spec fn parse_summary_spec(
    path: Seq<char>,
    file_name: Seq<char>,
    content: Seq<char>,
) -> SessionSummaryV {
    let ls = lines_spec(content);
    let st = summary_state(ls, ls.len() as int);
    SessionSummaryV {
        path,
        file_name,
        id: st.id,
        cwd: st.cwd,
        started_at: st.started_at,
        event_count: st.event_count,
        search_blob: join_nl(st.parts),
    }
}

/// The event count never exceeds the number of lines seen.
proof fn lemma_summary_count(ls: Seq<Seq<char>>, n: int)
    requires
        n >= 0,
    ensures
        0 <= summary_state(ls, n).event_count <= n,
    decreases n,
{
    if n > 0 {
        lemma_summary_count(ls, n - 1);
    }
}

/// Applies one parsed record to the executable summary fields.
#[verifier::loop_isolation(false)]
fn apply_record_exec(
    id: &mut String,
    cwd: &mut String,
    started_at: &mut String,
    parts: &mut Vec<String>,
    v: &JsonValue,
)
    ensures
        ({
            let st0 = SummaryState {
                id: old(id)@,
                cwd: old(cwd)@,
                started_at: old(started_at)@,
                event_count: 0,
                parts: old(parts).deep_view(),
            };
            let st1 = apply_record(st0, v.model());
            &&& final(id)@ == st1.id
            &&& final(cwd)@ == st1.cwd
            &&& final(started_at)@ == st1.started_at
            &&& final(parts).deep_view() == st1.parts
        }),
{
    broadcast use crate::text::lemma_deep_view_len, crate::text::lemma_deep_view_index;

    if v.has_type("session_meta") {
        match v.get("payload") {
            Some(p) => {
                match p.get_text("id") {
                    Some(t) => {
                        *id = t.clone();
                    },
                    None => {},
                }
                match p.get_text("cwd") {
                    Some(t) => {
                        *cwd = t.clone();
                    },
                    None => {},
                }
                match p.get_text("timestamp") {
                    Some(t) => {
                        *started_at = t.clone();
                    },
                    None => {},
                }
            },
            None => {},
        }
    } else if v.has_type("response_item") {
        let null_payload = JsonValue::Null;
        let p: &JsonValue = match v.get("payload") {
            Some(p) => p,
            None => &null_payload,
        };
        let ptype_ok = match p.get_text("type") {
            Some(s) => str_eq(s.as_str(), "message"),
            None => false,
        };
        if ptype_ok {
            match p.get("content") {
                Some(content) => {
                    match content.as_array() {
                        Some(items) => {
                            let ghost im = crate::json::model_seq(items@);
                            let ghost base = parts.deep_view();
                            proof {
                                broadcast use crate::json::lemma_model_seq_props;

                                assert(im.len() == items@.len());
                            }
                            let mut i: usize = 0;
                            while i < items.len()
                                invariant
                                    0 <= i <= items@.len(),
                                    im == crate::json::model_seq(items@),
                                    im.len() == items@.len(),
                                    forall|k: int|
                                        0 <= k < items@.len() ==> #[trigger] im[k]
                                            == items@[k].model(),
                                    parts.deep_view() == base + blob_parts(im, i as int),
                                decreases items@.len() - i,
                            {
                                let item = &items[i];
                                let picked: Option<&JsonValue> = match item.get("text") {
                                    Some(f) => Some(f),
                                    None => match item.get("input_text") {
                                        Some(f) => Some(f),
                                        None => item.get("output_text"),
                                    },
                                };
                                match picked {
                                    Some(f) => {
                                        match f.as_text() {
                                            Some(t) => {
                                                let low = to_lowercase(t.as_str());
                                                let ghost lowg = low;
                                                let ghost prev_parts = *parts;
                                                parts.push(low);
                                                proof {
                                                    crate::text::lemma_deep_push(
                                                        *parts,
                                                        prev_parts.deep_view(),
                                                        lowg,
                                                        prev_parts,
                                                    );
                                                }
                                            },
                                            None => {},
                                        }
                                    },
                                    None => {},
                                }
                                i += 1;
                                proof {
                                    assert(parts.deep_view() =~= base + blob_parts(im, i as int));
                                }
                            }
                        },
                        None => {},
                    }
                },
                None => {},
            }
        }
    } else if v.has_type("event_msg") {
        let null_payload = JsonValue::Null;
        let p: &JsonValue = match v.get("payload") {
            Some(p) => p,
            None => &null_payload,
        };
        let ptype_ok = match p.get_text("type") {
            Some(s) => str_eq(s.as_str(), "user_message"),
            None => false,
        };
        if ptype_ok {
            match p.get_text("message") {
                Some(t) => {
                    parts.push(to_lowercase(t.as_str()));
                    proof {
                        assert(parts.deep_view() =~~= old(parts).deep_view().push(lower_of(t@)));
                    }
                },
                None => {},
            }
        }
    }
}

/// Parses one file's raw content into its summary. Parsing never fails:
/// missing metadata keeps placeholder values, malformed lines only count as
/// events.
#[verifier::loop_isolation(false)]
pub fn parse_session_summary(path: &str, file_name: &str, content: &str) -> (r: SessionSummary)
    ensures
        r@ == parse_summary_spec(path@, file_name@, content@),
{
    broadcast use crate::text::lemma_deep_view_chars, crate::text::lemma_deep_view_len, crate::text::lemma_deep_view_index;

    let cs = str_to_chars(content);
    let ls = split_lines(&cs);
    let ghost lsv = lines_spec(content@);
    let mut id = String::from_str("unknown");
    let mut cwd = String::from_str("<unknown>");
    let mut started_at = String::from_str("unknown");
    let mut event_count: usize = 0;
    let mut parts: Vec<String> = Vec::new();
    let mut i: usize = 0;
    while i < ls.len()
        invariant
            0 <= i <= ls@.len(),
            ls.deep_view() == lsv,
            event_count <= i,
            ({
                let st = summary_state(lsv, i as int);
                &&& id@ == st.id
                &&& cwd@ == st.cwd
                &&& started_at@ == st.started_at
                &&& event_count as int == st.event_count
                &&& parts.deep_view() == st.parts
            }),
        decreases ls@.len() - i,
    {
        proof {
            assert(ls@[i as int].deep_view() == lsv[i as int]);
        }
        if !line_all_space(&ls[i]) {
            event_count += 1;
            let line = chars_to_string(&ls[i]);
            match parse_json_line(line.as_str()) {
                Some(v) => {
                    apply_record_exec(&mut id, &mut cwd, &mut started_at, &mut parts, &v);
                },
                None => {},
            }
        }
        i += 1;
    }
    let search_blob = join_newline(&parts);
    SessionSummary {
        path: String::from_str(path),
        file_name: String::from_str(file_name),
        id,
        cwd,
        started_at,
        event_count,
        search_blob,
    }
}

// ---------------------------------------------------------------------------
// Grouping summaries into buckets.
// ---------------------------------------------------------------------------

/// The summaries of the given files, in order.
pub open spec fn parsed_summaries(files: Seq<SessionFileV>) -> Seq<SessionSummaryV> {
    files.map_values(|f: SessionFileV| parse_summary_spec(f.path, f.file_name, f.content))
}

/// The summaries among the first `n` whose working directory is `w`.
pub open spec fn with_cwd(ss: Seq<SessionSummaryV>, w: Seq<char>, n: int) -> Seq<SessionSummaryV>
    decreases n,
{
    if n <= 0 {
        Seq::empty()
    } else {
        let prev = with_cwd(ss, w, n - 1);
        if ss[n - 1].cwd == w {
            prev.push(ss[n - 1])
        } else {
            prev
        }
    }
}

/// There is a bucket recording the given working directory.
pub open spec fn has_bucket(bs: Seq<ProjectBucketV>, w: Seq<char>) -> bool {
    exists|b: int| 0 <= b < bs.len() && (#[trigger] bs[b]).cwd == w
}

/// Scans a set of candidate files into the project catalog: every file's
/// summary lands in the bucket of its recorded working directory, buckets
/// carry pairwise distinct directories in ascending path order, and each
/// bucket's sessions are sorted most recent first.
#[verifier::loop_isolation(false)]
#[verifier::rlimit(100)]
#[verifier::spinoff_prover]
pub fn scan_sessions(files: &Vec<SessionFile>) -> (r: Vec<ProjectBucket>)
    ensures
        ({
            let parsed = parsed_summaries(files.deep_view());
            let bs = r.deep_view();
            &&& forall|b: int| 0 <= b < bs.len() ==> bucket_wf(#[trigger] bs[b])
            &&& forall|b: int|
                0 <= b < bs.len() ==> sessions_sorted_desc((#[trigger] bs[b]).sessions)
            &&& forall|b1: int, b2: int|
                0 <= b1 < b2 < bs.len() ==> (#[trigger] bs[b1]).cwd != (#[trigger] bs[b2]).cwd
            &&& forall|b: int|
                0 <= b < bs.len() - 1 ==> lex_le((#[trigger] bs[b]).cwd, bs[b + 1].cwd)
            &&& forall|b: int|
                0 <= b < bs.len() ==> (#[trigger] bs[b]).sessions.to_multiset() == with_cwd(
                    parsed,
                    bs[b].cwd,
                    parsed.len() as int,
                ).to_multiset()
            &&& forall|k: int|
                0 <= k < parsed.len() ==> has_bucket(bs, (#[trigger] parsed[k]).cwd)
        }),
{
    broadcast use crate::text::lemma_deep_view_len, crate::text::lemma_deep_view_index;

    let ghost parsed = parsed_summaries(files.deep_view());
    let mut buckets: Vec<ProjectBucket> = Vec::new();
    let mut i: usize = 0;
    while i < files.len()
        invariant
            0 <= i <= files@.len(),
            parsed == parsed_summaries(files.deep_view()),
            parsed.len() == files@.len(),
            forall|b: int|
                0 <= b < buckets@.len() ==> bucket_wf(#[trigger] buckets.deep_view()[b]),
            forall|b1: int, b2: int|
                0 <= b1 < b2 < buckets@.len() ==> (#[trigger] buckets.deep_view()[b1]).cwd != (
                #[trigger] buckets.deep_view()[b2]).cwd,
            forall|b: int|
                0 <= b < buckets@.len() - 1 ==> lex_le(
                    (#[trigger] buckets.deep_view()[b]).cwd,
                    buckets.deep_view()[b + 1].cwd,
                ),
            forall|b: int|
                0 <= b < buckets@.len() ==> (#[trigger] buckets.deep_view()[b]).sessions
                    == with_cwd(parsed, buckets.deep_view()[b].cwd, i as int),
            forall|k: int|
                0 <= k < i ==> has_bucket(buckets.deep_view(), (#[trigger] parsed[k]).cwd),
        decreases files@.len() - i,
    {
        let s = parse_session_summary(
            files[i].path.as_str(),
            files[i].file_name.as_str(),
            files[i].content.as_str(),
        );
        proof {
            assert(parsed[i as int] == s@);
        }
        let ghost prev_buckets = buckets.deep_view();
        let found = find_bucket(&buckets, s.cwd.as_str());
        if found < buckets.len() {
            proof {
                assert(buckets.deep_view()[found as int].cwd == s@.cwd);
            }
            let ghost sg = s;
            let ghost prev_vec = buckets;
            let mut bucket = buckets.remove(found);
            let ghost pre_sess = bucket.sessions;
            bucket.sessions.push(s);
            proof {
                crate::text::lemma_deep_remove(buckets, prev_vec, found as int);
                crate::text::lemma_deep_push(bucket.sessions, pre_sess.deep_view(), sg, pre_sess);
            }
            let ghost mid_vec = buckets;
            let ghost bucketg = bucket;
            buckets.insert(found, bucket);
            proof {
                crate::text::lemma_deep_insert(buckets, mid_vec, found as int, bucketg);
                assert(buckets.deep_view() =~~= prev_buckets.update(
                    found as int,
                    ProjectBucketV {
                        cwd: prev_buckets[found as int].cwd,
                        sessions: prev_buckets[found as int].sessions.push(parsed[i as int]),
                    },
                ));
                assert forall|bb: int|
                    0 <= bb < buckets@.len() implies (#[trigger] buckets.deep_view()[bb]).sessions
                    == with_cwd(parsed, buckets.deep_view()[bb].cwd, i + 1) by {
                    if bb == found {
                        assert(with_cwd(parsed, s@.cwd, i + 1) == with_cwd(parsed, s@.cwd, i as int).push(
                            parsed[i as int],
                        ));
                    } else {
                        assert(prev_buckets[bb].cwd != s@.cwd);
                    }
                }
                assert forall|k: int|
                    0 <= k < i + 1 implies has_bucket(
                    buckets.deep_view(),
                    (#[trigger] parsed[k]).cwd,
                ) by {
                    if k < i {
                        let w = choose|bw: int|
                            0 <= bw < prev_buckets.len() && (#[trigger] prev_buckets[bw]).cwd
                                == parsed[k].cwd;
                        assert(buckets.deep_view()[w].cwd == parsed[k].cwd);
                    } else {
                        assert(buckets.deep_view()[found as int].cwd == parsed[k].cwd);
                    }
                }
            }
        } else {
            // A new working directory: insert its bucket at the sorted spot.
            let mut p: usize = 0;
            while p < buckets.len() && str_lex_le(buckets[p].cwd.as_str(), s.cwd.as_str())
                invariant
                    0 <= p <= buckets@.len(),
                    buckets.deep_view() == prev_buckets,
                    forall|j: int|
                        0 <= j < p ==> lex_le((#[trigger] buckets.deep_view()[j]).cwd, s@.cwd),
                decreases buckets@.len() - p,
            {
                p += 1;
            }
            if p < buckets.len() {
                proof {
                    lemma_lex_le_total(buckets.deep_view()[p as int].cwd, s@.cwd);
                }
            }
            let cwd_copy = s.cwd.clone();
            let ghost sg = s;
            let mut sessions: Vec<SessionSummary> = Vec::new();
            sessions.push(s);
            let bucket = ProjectBucket { cwd: cwd_copy, sessions };
            let ghost mid_vec = buckets;
            let ghost bucketg = bucket;
            buckets.insert(p, bucket);
            proof {
                let nb = ProjectBucketV {
                    cwd: parsed[i as int].cwd,
                    sessions: seq![parsed[i as int]],
                };
                crate::text::lemma_deep_insert(buckets, mid_vec, p as int, bucketg);
                assert(bucketg.deep_view().sessions =~= nb.sessions);
                assert(bucketg.deep_view() == nb);
                assert(buckets.deep_view() =~~= prev_buckets.insert(p as int, nb));
                assert forall|bb: int|
                    0 <= bb < buckets@.len() implies (#[trigger] buckets.deep_view()[bb]).sessions
                    == with_cwd(parsed, buckets.deep_view()[bb].cwd, i + 1) by {
                    if bb < p {
                        assert(buckets.deep_view()[bb] == prev_buckets[bb]);
                        assert(prev_buckets[bb].cwd != s@.cwd);
                    } else if bb == p {
                        assert(with_cwd(parsed, s@.cwd, i as int) =~= Seq::<
                            SessionSummaryV,
                        >::empty()) by {
                            lemma_with_cwd_absent(parsed, s@.cwd, i as int, prev_buckets);
                        }
                    } else {
                        assert(buckets.deep_view()[bb] == prev_buckets[bb - 1]);
                        assert(prev_buckets[bb - 1].cwd != s@.cwd);
                    }
                }
                assert forall|k: int|
                    0 <= k < i + 1 implies has_bucket(
                    buckets.deep_view(),
                    (#[trigger] parsed[k]).cwd,
                ) by {
                    if k < i {
                        let w = choose|bw: int|
                            0 <= bw < prev_buckets.len() && (#[trigger] prev_buckets[bw]).cwd
                                == parsed[k].cwd;
                        if w < p {
                            assert(buckets.deep_view()[w].cwd == parsed[k].cwd);
                        } else {
                            assert(buckets.deep_view()[w + 1].cwd == parsed[k].cwd);
                        }
                    } else {
                        assert(buckets.deep_view()[p as int].cwd == parsed[k].cwd);
                    }
                }
            }
        }
        i += 1;
    }
    // Sort each bucket's sessions, most recent first.
    let ghost grouped = buckets.deep_view();
    let mut b: usize = 0;
    while b < buckets.len()
        invariant
            0 <= b <= buckets@.len(),
            buckets@.len() == grouped.len(),
            forall|j: int|
                0 <= j < buckets@.len() ==> (#[trigger] buckets.deep_view()[j]).cwd
                    == grouped[j].cwd,
            forall|j: int|
                0 <= j < buckets@.len() ==> (#[trigger] buckets.deep_view()[j]).sessions.to_multiset()
                    == grouped[j].sessions.to_multiset(),
            forall|j: int| 0 <= j < buckets@.len() ==> bucket_wf(#[trigger] buckets.deep_view()[j]),
            forall|j: int|
                0 <= j < b ==> sessions_sorted_desc((#[trigger] buckets.deep_view()[j]).sessions),
        decreases buckets@.len() - b,
    {
        let ghost prev_buckets = buckets.deep_view();
        let mut bucket = buckets.remove(b);
        let ghost pre_sessions = bucket.sessions.deep_view();
        let sorted = insertion_sort(bucket.sessions);
        proof {
            crate::order::lemma_multiset_elems(pre_sessions, sorted.deep_view());
        }
        let newb = ProjectBucket { cwd: bucket.cwd, sessions: sorted };
        buckets.insert(b, newb);
        proof {
            assert(buckets.deep_view() =~~= prev_buckets.update(b as int, newb@));
            assert(bucket.deep_view() == prev_buckets[b as int]);
            assert(bucket_wf(newb@)) by {
                assert forall|j: int|
                    0 <= j < newb@.sessions.len() implies (#[trigger] newb@.sessions[j]).cwd
                    == newb@.cwd by {
                    assert(pre_sessions.contains(newb@.sessions[j]));
                    let k = choose|k: int|
                        0 <= k < pre_sessions.len() && pre_sessions[k] == newb@.sessions[j];
                    assert(prev_buckets[b as int].sessions[k].cwd == prev_buckets[b as int].cwd);
                }
            }
            assert(sessions_sorted_desc(newb@.sessions)) by {
                assert forall|k: int|
                    0 <= k < newb@.sessions.len() - 1 implies lex_le(
                    (#[trigger] newb@.sessions[k + 1]).started_at,
                    newb@.sessions[k].started_at,
                ) by {
                    assert(<SessionSummary as SortOrd>::le_spec(sorted@[k], sorted@[k + 1]));
                    assert(newb@.sessions[k] == sorted@[k]@);
                    assert(newb@.sessions[k + 1] == sorted@[k + 1]@);
                }
            }
        }
        b += 1;
    }
    proof {
        let bs = buckets.deep_view();
        assert forall|k: int|
            0 <= k < parsed.len() implies has_bucket(bs, (#[trigger] parsed[k]).cwd) by {
            let w = choose|bw: int|
                0 <= bw < grouped.len() && (#[trigger] grouped[bw]).cwd == parsed[k].cwd;
            assert(bs[w].cwd == parsed[k].cwd);
        }
        assert forall|bb: int|
            0 <= bb < bs.len() implies (#[trigger] bs[bb]).sessions.to_multiset() == with_cwd(
            parsed,
            bs[bb].cwd,
            parsed.len() as int,
        ).to_multiset() by {
            assert(grouped[bb].sessions == with_cwd(parsed, grouped[bb].cwd, files@.len() as int));
        }
    }
    buckets
}

/// The index of the bucket recording this working directory, or the length.
#[verifier::loop_isolation(false)]
fn find_bucket(buckets: &Vec<ProjectBucket>, cwd: &str) -> (r: usize)
    ensures
        r <= buckets@.len(),
        r < buckets@.len() ==> buckets.deep_view()[r as int].cwd == cwd@,
        r == buckets@.len() ==> forall|j: int|
            0 <= j < buckets@.len() ==> (#[trigger] buckets.deep_view()[j]).cwd != cwd@,
{
    broadcast use crate::text::lemma_deep_view_len, crate::text::lemma_deep_view_index;

    let mut b: usize = 0;
    while b < buckets.len()
        invariant
            0 <= b <= buckets@.len(),
            forall|j: int| 0 <= j < b ==> (#[trigger] buckets.deep_view()[j]).cwd != cwd@,
        decreases buckets@.len() - b,
    {
        if str_eq(buckets[b].cwd.as_str(), cwd) {
            return b;
        }
        b += 1;
    }
    b
}

/// When no bucket records `w`, no summary among the first `n` does either.
proof fn lemma_with_cwd_absent(
    ss: Seq<SessionSummaryV>,
    w: Seq<char>,
    n: int,
    bs: Seq<ProjectBucketV>,
)
    requires
        forall|k: int| 0 <= k < n ==> has_bucket(bs, (#[trigger] ss[k]).cwd),
        !has_bucket(bs, w),
        n >= 0,
    ensures
        with_cwd(ss, w, n) == Seq::<SessionSummaryV>::empty(),
    decreases n,
{
    if n > 0 {
        lemma_with_cwd_absent(ss, w, n - 1, bs);
        if ss[n - 1].cwd == w {
            assert(has_bucket(bs, w));
        }
        assert(with_cwd(ss, w, n) =~= Seq::<SessionSummaryV>::empty());
    } else {
        assert(with_cwd(ss, w, n) =~= Seq::<SessionSummaryV>::empty());
    }
}

} // verus!
