//! Assembling the preview pane: metadata header, the turn count line, and
//! one foldable block per chat turn, with the row metadata the pane needs
//! for tinting, fold toggling and focus outlines.
//!
//! The caller supplies each turn's already-rendered body lines (the markup
//! renderer is outside the engine); this module decides every row that is
//! shown: a folded turn keeps its header row but contributes no body rows.

use vstd::prelude::*;
use crate::records::{ChatTurn, ChatTurnV};
use crate::scan::{SessionSummary, SessionSummaryV};
use crate::text::{dec_spec, upper_of, to_uppercase, usize_to_string};

verus! {

broadcast use crate::text::lemma_deep_view_len, crate::text::lemma_deep_view_index;

/// The visual category of a rendered row, for background tinting.
#[derive(Clone, Copy, PartialEq, Eq, Structural)]
pub enum BlockTone {
    User,
    Assistant,
}

/// The assembled preview: the rendered rows, each toned row, each header row
/// with its turn index, and each turn's inclusive row range.
pub struct PreviewData {
    pub lines: Vec<String>,
    pub tone_rows: Vec<(usize, BlockTone)>,
    pub header_rows: Vec<(usize, usize)>,
    pub block_ranges: Vec<(usize, usize, usize)>,
}

/// The ghost model of an assembled preview.
pub struct PreviewV {
    pub lines: Seq<Seq<char>>,
    pub tone_rows: Seq<(int, BlockTone)>,
    pub header_rows: Seq<(int, int)>,
    pub block_ranges: Seq<(int, int, int)>,
}

impl View for PreviewData {
    type V = PreviewV;

    open spec fn view(&self) -> PreviewV {
        PreviewV {
            lines: self.lines.deep_view(),
            tone_rows: Seq::new(
                self.tone_rows@.len(),
                |i: int| (self.tone_rows@[i].0 as int, self.tone_rows@[i].1),
            ),
            header_rows: Seq::new(
                self.header_rows@.len(),
                |i: int| (self.header_rows@[i].0 as int, self.header_rows@[i].1 as int),
            ),
            block_ranges: Seq::new(
                self.block_ranges@.len(),
                |i: int|
                    (
                        self.block_ranges@[i].0 as int,
                        self.block_ranges@[i].1 as int,
                        self.block_ranges@[i].2 as int,
                    ),
            ),
        }
    }
}

/// A turn's tone: user turns tint, everything else reads as assistant.
pub open spec fn tone_of(role: Seq<char>) -> BlockTone {
    if role == "user"@ {
        BlockTone::User
    } else {
        BlockTone::Assistant
    }
}

/// A turn's header row text: the fold marker, the uppercased role, and the
/// timestamp.
pub open spec fn header_text(turn: ChatTurnV, folded: bool) -> Seq<char> {
    let marker = if folded {
        "\u{25b8}"@
    } else {
        "\u{25be}"@
    };
    marker + "  "@ + upper_of(turn.role) + "  "@ + turn.timestamp
}

/// The hairline drawn between assistant blocks.
pub open spec fn hairline(width: int) -> Seq<char> {
    Seq::new(
        (if width - 1 >= 1 {
            width - 1
        } else {
            1
        }) as nat,
        |i: int| '\u{2500}',
    )
}

/// The preview after laying out the first `n` turns.
pub open spec fn turns_state(
    turns: Seq<ChatTurnV>,
    bodies: Seq<Seq<Seq<char>>>,
    folded: Set<usize>,
    width: int,
    base: PreviewV,
    n: int,
) -> PreviewV
    decreases n,
{
    if n <= 0 {
        base
    } else {
        let st = turns_state(turns, bodies, folded, width, base, n - 1);
        let idx = n - 1;
        let turn = turns[idx];
        let tone = tone_of(turn.role);
        let is_folded = folded.contains(idx as usize);
        let block_start = st.lines.len() as int;
        // Blank separator row, then the header row.
        let l1 = st.lines.push(Seq::empty()).push(header_text(turn, is_folded));
        let t1 = st.tone_rows.push((block_start, tone)).push((block_start + 1, tone));
        let h1 = st.header_rows.push((block_start + 1, idx));
        // The body rows, unless the turn is folded.
        let body = if is_folded {
            Seq::<Seq<char>>::empty()
        } else {
            Seq::new(bodies[idx].len(), |k: int| "   "@ + bodies[idx][k])
        };
        let l2 = l1 + body;
        let t2 = t1 + Seq::new(body.len(), |k: int| (block_start + 2 + k, tone));
        // The trailing blank row closes the block.
        let l3 = l2.push(Seq::empty());
        let t3 = t2.push((l2.len() as int, tone));
        let block_end = l3.len() - 1;
        let b1 = st.block_ranges.push((idx, block_start, block_end as int));
        // Between turns: a gap after a user block, a hairline after others.
        let l4 = if idx + 1 < turns.len() {
            if tone == BlockTone::User {
                l3.push(Seq::empty())
            } else {
                l3.push(hairline(width))
            }
        } else {
            l3
        };
        PreviewV { lines: l4, tone_rows: t3, header_rows: h1, block_ranges: b1 }
    }
}

/// A folded turn's block spans exactly its separator, header and trailing
/// blank rows: its body never appears, while its header row always does.
pub proof fn lemma_folded_block_is_bare(
    turns: Seq<ChatTurnV>,
    bodies: Seq<Seq<Seq<char>>>,
    folded: Set<usize>,
    width: int,
    base: PreviewV,
    n: int,
)
    requires
        0 <= n <= turns.len(),
        base.header_rows.len() == base.block_ranges.len(),
    ensures
        ({
            let st = turns_state(turns, bodies, folded, width, base, n);
            &&& st.header_rows.len() == base.header_rows.len() + n
            &&& st.block_ranges.len() == base.block_ranges.len() + n
            &&& forall|k: int|
                0 <= k < n ==> (#[trigger] st.header_rows[base.header_rows.len() + k]).1 == k
            &&& forall|k: int|
                0 <= k < n && folded.contains(k as usize) ==> ({
                    let blk = #[trigger] st.block_ranges[base.block_ranges.len() + k];
                    blk.2 - blk.1 == 2
                })
        }),
    decreases n,
{
    if n > 0 {
        lemma_folded_block_is_bare(turns, bodies, folded, width, base, n - 1);
        let st = turns_state(turns, bodies, folded, width, base, n - 1);
        let stn = turns_state(turns, bodies, folded, width, base, n);
        assert forall|k: int|
            0 <= k < n implies (#[trigger] stn.header_rows[base.header_rows.len() + k]).1
            == k by {
            if k < n - 1 {
                assert(stn.header_rows[base.header_rows.len() + k] == st.header_rows[base.header_rows.len()
                    + k]);
            }
        }
        assert forall|k: int|
            0 <= k < n && folded.contains(k as usize) implies ({
            let blk = #[trigger] stn.block_ranges[base.block_ranges.len() + k];
            blk.2 - blk.1 == 2
        }) by {
            if k < n - 1 {
                assert(stn.block_ranges[base.block_ranges.len() + k] == st.block_ranges[base.block_ranges.len()
                    + k]);
            }
        }
    }
}

/// Lays out the chat turns under an existing preamble: for each turn a blank
/// row, a header row (always shown), the supplied body rows when the turn is
/// not folded, and a trailing blank row; turns are separated by a gap after
/// user blocks and a hairline after assistant blocks.
#[verifier::loop_isolation(false)]
#[verifier::rlimit(100)]
#[verifier::spinoff_prover]
pub fn layout_turns(
    out: &mut PreviewData,
    turns: &Vec<crate::records::ChatTurn>,
    bodies: &Vec<Vec<String>>,
    folds: &crate::workspace::FoldSet,
    width: usize,
)
    requires
        bodies@.len() == turns@.len(),
        old(out)@.header_rows.len() == old(out)@.block_ranges.len(),
    ensures
        final(out)@ == turns_state(
            turns.deep_view(),
            bodies.deep_view(),
            folds.view_set(),
            width as int,
            old(out)@,
            turns@.len() as int,
        ),
{
    let ghost tv = turns.deep_view();
    let ghost bv = bodies.deep_view();
    let ghost fv = folds.view_set();
    let ghost base = out@;
    let mut idx: usize = 0;
    while idx < turns.len()
        invariant
            0 <= idx <= turns@.len(),
            tv == turns.deep_view(),
            bv == bodies.deep_view(),
            fv == folds.view_set(),
            bodies@.len() == turns@.len(),
            out@ == turns_state(tv, bv, fv, width as int, base, idx as int),
        decreases turns@.len() - idx,
    {
        let ghost st = out@;
        let turn = &turns[idx];
        let is_folded = folds.contains(idx);
        let tone = if crate::text::str_eq(turn.role.as_str(), "user") {
            BlockTone::User
        } else {
            BlockTone::Assistant
        };
        let block_start = out.lines.len();
        // Blank separator row, then the header row.
        push_line(out, String::new(), tone);
        let header_row = out.lines.len();
        let mut header = String::from_str(if is_folded {
            "\u{25b8}"
        } else {
            "\u{25be}"
        });
        header.append("  ");
        let upper = to_uppercase(turn.role.as_str());
        header.append(upper.as_str());
        header.append("  ");
        header.append(turn.timestamp.as_str());
        proof {
            assert(header@ =~= header_text(tv[idx as int], is_folded));
        }
        push_line(out, header, tone);
        out.header_rows.push((header_row, idx));
        // The body rows, unless the turn is folded.
        if !is_folded {
            let body = &bodies[idx];
            let mut k: usize = 0;
            while k < body.len()
                invariant
                    0 <= k <= body@.len(),
                    bv[idx as int] == body.deep_view(),
                    0 <= idx < tv.len(),
                    out@.lines == st.lines.push(Seq::empty()).push(
                        header_text(tv[idx as int], false),
                    ) + Seq::new(k as nat, |j: int| "   "@ + bv[idx as int][j]),
                    out@.tone_rows == st.tone_rows.push(
                        (st.lines.len() as int, tone_of(tv[idx as int].role)),
                    ).push((st.lines.len() as int + 1, tone_of(tv[idx as int].role))) + Seq::new(
                        k as nat,
                        |j: int| (st.lines.len() as int + 2 + j, tone_of(tv[idx as int].role)),
                    ),
                    out@.header_rows == st.header_rows.push((st.lines.len() as int + 1, idx as int)),
                    out@.block_ranges == st.block_ranges,
                    tone == tone_of(tv[idx as int].role),
                    out@.lines.len() == st.lines.len() + 2 + k,
                decreases body@.len() - k,
            {
                let mut row = String::from_str("   ");
                row.append(body[k].as_str());
                push_line(out, row, tone);
                proof {
                    assert(out@.lines =~= st.lines.push(Seq::empty()).push(
                        header_text(tv[idx as int], false),
                    ) + Seq::new((k + 1) as nat, |j: int| "   "@ + bv[idx as int][j]));
                    assert(out@.tone_rows =~= st.tone_rows.push(
                        (st.lines.len() as int, tone_of(tv[idx as int].role)),
                    ).push((st.lines.len() as int + 1, tone_of(tv[idx as int].role))) + Seq::new(
                        (k + 1) as nat,
                        |j: int| (st.lines.len() as int + 2 + j, tone_of(tv[idx as int].role)),
                    ));
                }
                k += 1;
            }
        }
        // The trailing blank row closes the block.
        let block_end = out.lines.len();
        push_line(out, String::new(), tone);
        out.block_ranges.push((idx, block_start, block_end));
        // Between turns: a gap after a user block, a hairline after others.
        if idx + 1 < turns.len() {
            if tone == BlockTone::User {
                out.lines.push(String::new());
            } else {
                out.lines.push(hairline_exec(width));
            }
        }
        idx += 1;
        proof {
            let goal = turns_state(tv, bv, fv, width as int, base, idx as int);
            assert(out@.lines =~~= goal.lines);
            assert(out@.tone_rows =~= goal.tone_rows);
            assert(out@.header_rows =~= goal.header_rows);
            assert(out@.block_ranges =~= goal.block_ranges);
        }
    }
}

/// Appends one rendered row and its tone row.
fn push_line(out: &mut PreviewData, line: String, tone: BlockTone)
    ensures
        final(out)@.lines == old(out)@.lines.push(line@),
        final(out)@.tone_rows == old(out)@.tone_rows.push((old(out).lines@.len() as int, tone)),
        final(out)@.header_rows == old(out)@.header_rows,
        final(out)@.block_ranges == old(out)@.block_ranges,
{
    let row = out.lines.len();
    let ghost prev = out.lines;
    let ghost lg = line;
    out.lines.push(line);
    out.tone_rows.push((row, tone));
    proof {
        crate::text::lemma_deep_push(out.lines, prev.deep_view(), lg, prev);
        assert(out@.tone_rows =~= old(out)@.tone_rows.push((old(out).lines@.len() as int, tone)));
        assert(out@.header_rows =~= old(out)@.header_rows);
        assert(out@.block_ranges =~= old(out)@.block_ranges);
    }
}

/// Builds the hairline row.
fn hairline_exec(width: usize) -> (r: String)
    ensures
        r@ == hairline(width as int),
{
    let n = if width >= 2 {
        width - 1
    } else {
        1
    };
    let mut cs: Vec<char> = Vec::new();
    let mut i: usize = 0;
    while i < n
        invariant
            0 <= i <= n,
            cs@ == Seq::new(i as nat, |k: int| '\u{2500}'),
        decreases n - i,
    {
        cs.push('\u{2500}');
        proof {
            assert(cs@ =~= Seq::new((i + 1) as nat, |k: int| '\u{2500}'));
        }
        i += 1;
    }
    proof {
        assert(Seq::new(n as nat, |k: int| '\u{2500}') =~= hairline(width as int));
    }
    crate::text::chars_to_string(&cs)
}

// ---------------------------------------------------------------------------
// The full chat preview.
// ---------------------------------------------------------------------------

/// How many of the first `n` turns carry this role.
pub open spec fn count_role(turns: Seq<ChatTurnV>, role: Seq<char>, n: int) -> int
    decreases n,
{
    if n <= 0 {
        0
    } else {
        count_role(turns, role, n - 1) + if turns[n - 1].role == role {
            1int
        } else {
            0int
        }
    }
}

/// The metadata rows that head every preview.
pub open spec fn meta_rows_spec(s: SessionSummaryV) -> Seq<Seq<char>> {
    seq![
        "Session "@ + s.id,
        "Path    "@ + s.path,
        "Cwd     "@ + s.cwd,
        "Started "@ + s.started_at,
        Seq::<char>::empty(),
    ]
}

/// The metadata rows with the chat-mode title.
pub open spec fn preamble_spec(s: SessionSummaryV) -> Seq<Seq<char>> {
    meta_rows_spec(s).push("Conversation"@)
}

/// The turn-count row: how many user and assistant turns the session holds.
pub open spec fn count_line_spec(turns: Seq<ChatTurnV>) -> Seq<char> {
    "Turns: user="@ + dec_spec(count_role(turns, "user"@, turns.len() as int)) + " assistant="@
        + dec_spec(count_role(turns, "assistant"@, turns.len() as int)) + " total="@ + dec_spec(
        turns.len() as int,
    )
}

/// The whole chat-mode preview: the metadata rows, then either the
/// no-messages notice or the exact turn counts (with a warning when no
/// assistant ever spoke) followed by every turn's block.
pub open spec fn chat_preview_spec(
    s: SessionSummaryV,
    turns: Seq<ChatTurnV>,
    bodies: Seq<Seq<Seq<char>>>,
    folded: Set<usize>,
    width: int,
) -> PreviewV {
    let pre = preamble_spec(s);
    if turns.len() == 0 {
        PreviewV {
            lines: pre.push("No user/assistant chat messages found in this session."@),
            tone_rows: Seq::empty(),
            header_rows: Seq::empty(),
            block_ranges: Seq::empty(),
        }
    } else {
        let counts = pre.push(count_line_spec(turns));
        let warned = if count_role(turns, "assistant"@, turns.len() as int) == 0 {
            counts.push("Warning: no assistant messages detected in this session."@)
        } else {
            counts
        };
        let base = PreviewV {
            lines: warned.push(Seq::<char>::empty()),
            tone_rows: Seq::empty(),
            header_rows: Seq::empty(),
            block_ranges: Seq::empty(),
        };
        turns_state(turns, bodies, folded, width, base, turns.len() as int)
    }
}

/// Builds the chat-mode preview of one session from its turns, their
/// rendered body lines, and the fold state.
#[verifier::loop_isolation(false)]
#[verifier::rlimit(60)]
pub fn build_chat_preview(
    session: &SessionSummary,
    turns: &Vec<ChatTurn>,
    bodies: &Vec<Vec<String>>,
    folds: &crate::workspace::FoldSet,
    width: usize,
) -> (r: PreviewData)
    requires
        bodies@.len() == turns@.len(),
    ensures
        r@ == chat_preview_spec(
            session@,
            turns.deep_view(),
            bodies.deep_view(),
            folds.view_set(),
            width as int,
        ),
{
    let ghost tv = turns.deep_view();
    let mut out = PreviewData {
        lines: Vec::new(),
        tone_rows: Vec::new(),
        header_rows: Vec::new(),
        block_ranges: Vec::new(),
    };
    let mut l = String::from_str("Session ");
    l.append(session.id.as_str());
    out.lines.push(l);
    let mut l = String::from_str("Path    ");
    l.append(session.path.as_str());
    out.lines.push(l);
    let mut l = String::from_str("Cwd     ");
    l.append(session.cwd.as_str());
    out.lines.push(l);
    let mut l = String::from_str("Started ");
    l.append(session.started_at.as_str());
    out.lines.push(l);
    out.lines.push(String::new());
    out.lines.push(String::from_str("Conversation"));
    proof {
        assert(out@.lines =~~= preamble_spec(session@));
        assert(out@.tone_rows =~= Seq::<(int, BlockTone)>::empty());
        assert(out@.header_rows =~= Seq::<(int, int)>::empty());
        assert(out@.block_ranges =~= Seq::<(int, int, int)>::empty());
    }
    if turns.len() == 0 {
        out.lines.push(
            String::from_str("No user/assistant chat messages found in this session."),
        );
        proof {
            assert(out@.lines =~~= chat_preview_spec(
                session@,
                tv,
                bodies.deep_view(),
                folds.view_set(),
                width as int,
            ).lines);
        }
        return out;
    }
    // The exact user and assistant counts.
    let mut user_count: usize = 0;
    let mut assistant_count: usize = 0;
    let mut i: usize = 0;
    while i < turns.len()
        invariant
            0 <= i <= turns@.len(),
            tv == turns.deep_view(),
            user_count as int == count_role(tv, "user"@, i as int),
            assistant_count as int == count_role(tv, "assistant"@, i as int),
            user_count <= i,
            assistant_count <= i,
        decreases turns@.len() - i,
    {
        if crate::text::str_eq(turns[i].role.as_str(), "user") {
            user_count += 1;
        }
        if crate::text::str_eq(turns[i].role.as_str(), "assistant") {
            assistant_count += 1;
        }
        i += 1;
    }
    let mut counts = String::from_str("Turns: user=");
    let u = usize_to_string(user_count);
    counts.append(u.as_str());
    counts.append(" assistant=");
    let a = usize_to_string(assistant_count);
    counts.append(a.as_str());
    counts.append(" total=");
    let t = usize_to_string(turns.len());
    counts.append(t.as_str());
    proof {
        assert(counts@ =~= count_line_spec(tv));
    }
    out.lines.push(counts);
    if assistant_count == 0 {
        out.lines.push(
            String::from_str("Warning: no assistant messages detected in this session."),
        );
    }
    out.lines.push(String::new());
    let ghost base = chat_base(session@, tv);
    proof {
        assert(out@.lines =~~= base.lines);
        assert(out@ == base);
    }
    layout_turns(&mut out, turns, bodies, folds, width);
    out
}

/// The preview rows above the first turn.
pub open spec fn chat_base(s: SessionSummaryV, turns: Seq<ChatTurnV>) -> PreviewV {
    let counts = preamble_spec(s).push(count_line_spec(turns));
    let warned = if count_role(turns, "assistant"@, turns.len() as int) == 0 {
        counts.push("Warning: no assistant messages detected in this session."@)
    } else {
        counts
    };
    PreviewV {
        lines: warned.push(Seq::<char>::empty()),
        tone_rows: Seq::empty(),
        header_rows: Seq::empty(),
        block_ranges: Seq::empty(),
    }
}

// ---------------------------------------------------------------------------
// The events-mode preview.
// ---------------------------------------------------------------------------

/// Where the shown event window starts: only the last 220 events appear.
pub open spec fn events_start(n: int) -> int {
    if n > 220 {
        n - 220
    } else {
        0
    }
}

/// The events-mode preview: the metadata rows, the stream title, a
/// truncation notice when more than 220 events exist, then the last events
/// one row each. No folding or turn metadata applies.
pub open spec fn events_preview_spec(s: SessionSummaryV, events: Seq<Seq<char>>) -> PreviewV {
    let pre = meta_rows_spec(s).push("Event Stream"@);
    let start = events_start(events.len() as int);
    let headed = if start > 0 {
        pre.push(
            "... showing last "@ + dec_spec(events.len() - start) + " of "@ + dec_spec(
                events.len() as int,
            ) + " events ..."@,
        ).push(Seq::<char>::empty())
    } else {
        pre
    };
    PreviewV {
        lines: headed + events.skip(start),
        tone_rows: Seq::empty(),
        header_rows: Seq::empty(),
        block_ranges: Seq::empty(),
    }
}

/// Builds the events-mode preview of one session from its per-line event
/// summaries.
#[verifier::loop_isolation(false)]
pub fn build_events_preview(session: &SessionSummary, events: &Vec<String>) -> (r: PreviewData)
    ensures
        r@ == events_preview_spec(session@, events.deep_view()),
{
    let ghost ev = events.deep_view();
    let mut out = PreviewData {
        lines: Vec::new(),
        tone_rows: Vec::new(),
        header_rows: Vec::new(),
        block_ranges: Vec::new(),
    };
    let mut l = String::from_str("Session ");
    l.append(session.id.as_str());
    out.lines.push(l);
    let mut l = String::from_str("Path    ");
    l.append(session.path.as_str());
    out.lines.push(l);
    let mut l = String::from_str("Cwd     ");
    l.append(session.cwd.as_str());
    out.lines.push(l);
    let mut l = String::from_str("Started ");
    l.append(session.started_at.as_str());
    out.lines.push(l);
    out.lines.push(String::new());
    out.lines.push(String::from_str("Event Stream"));
    let start = if events.len() > 220 {
        events.len() - 220
    } else {
        0
    };
    if start > 0 {
        let mut notice = String::from_str("... showing last ");
        let shown = usize_to_string(events.len() - start);
        notice.append(shown.as_str());
        notice.append(" of ");
        let total = usize_to_string(events.len());
        notice.append(total.as_str());
        notice.append(" events ...");
        proof {
            assert(notice@ =~= "... showing last "@ + dec_spec(ev.len() - start) + " of "@
                + dec_spec(ev.len() as int) + " events ..."@);
        }
        out.lines.push(notice);
        out.lines.push(String::new());
    }
    let ghost headed = out.lines.deep_view();
    proof {
        assert(headed =~~= ({
            let pre = meta_rows_spec(session@).push("Event Stream"@);
            if events_start(ev.len() as int) > 0 {
                pre.push(
                    "... showing last "@ + dec_spec(ev.len() - events_start(ev.len() as int))
                        + " of "@ + dec_spec(ev.len() as int) + " events ..."@,
                ).push(Seq::<char>::empty())
            } else {
                pre
            }
        }));
    }
    let mut i = start;
    while i < events.len()
        invariant
            start <= i <= events@.len(),
            ev == events.deep_view(),
            start as int == events_start(ev.len() as int),
            out.lines.deep_view() == headed + ev.subrange(start as int, i as int),
            out.tone_rows@.len() == 0,
            out.header_rows@.len() == 0,
            out.block_ranges@.len() == 0,
        decreases events@.len() - i,
    {
        let ghost prev = out.lines;
        let item = events[i].clone();
        let ghost ig = item;
        out.lines.push(item);
        proof {
            crate::text::lemma_deep_push(out.lines, prev.deep_view(), ig, prev);
            assert(out.lines.deep_view() =~= headed + ev.subrange(start as int, i + 1));
        }
        i += 1;
    }
    proof {
        assert(ev.subrange(start as int, ev.len() as int) =~= ev.skip(start as int));
        assert(out@.lines =~~= events_preview_spec(session@, ev).lines);
        assert(out@.tone_rows =~= Seq::<(int, BlockTone)>::empty());
        assert(out@.header_rows =~= Seq::<(int, int)>::empty());
        assert(out@.block_ranges =~= Seq::<(int, int, int)>::empty());
    }
    out
}

} // verus!
