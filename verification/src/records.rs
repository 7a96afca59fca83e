//! Structured session records: chat turns and event summaries.
//!
//! A session file is a sequence of JSON lines. A `response_item` record whose
//! payload is a `message` yields one chat turn; a `developer` role is
//! normalized to `user` at extraction time. Sessions without any message
//! turns fall back to a single pass over `event_msg` / `user_message`
//! records. Every other record only matters as an opaque event.

use vstd::prelude::*;
use crate::json::{has_type, json_of, lookup, lookup_text, text_of, JsonV, JsonValue,
    parse_json_line};
use crate::text::{chars_to_string, join_newline, join_nl, str_eq, str_to_chars};
use crate::wrap::{all_space, line_all_space, lines_spec, split_lines};

verus! {

/// One user or assistant message extracted from a session.
pub struct ChatTurn {
    pub role: String,
    pub timestamp: String,
    pub text: String,
}

/// The ghost model of a chat turn.
pub struct ChatTurnV {
    pub role: Seq<char>,
    pub timestamp: Seq<char>,
    pub text: Seq<char>,
}

impl View for ChatTurn {
    type V = ChatTurnV;

    open spec fn view(&self) -> ChatTurnV {
        ChatTurnV { role: self.role@, timestamp: self.timestamp@, text: self.text@ }
    }
}

impl DeepView for ChatTurn {
    type V = ChatTurnV;

    open spec fn deep_view(&self) -> ChatTurnV {
        self.view()
    }
}

// ---------------------------------------------------------------------------
// Message turns from `response_item` records.
// ---------------------------------------------------------------------------

/// The text of one content item: the first of its `text`, `input_text` or
/// `output_text` fields that exists, when that field holds a string.
pub open spec fn item_text(item: JsonV) -> Option<Seq<char>> {
    let picked = if lookup(item, "text"@) is Some {
        lookup(item, "text"@)
    } else if lookup(item, "input_text"@) is Some {
        lookup(item, "input_text"@)
    } else {
        lookup(item, "output_text"@)
    };
    match picked {
        Some(f) => text_of(f),
        None => None,
    }
}

/// The non-blank texts of the first `n` content items, in order.
pub open spec fn content_parts(items: Seq<JsonV>, n: int) -> Seq<Seq<char>>
    decreases n,
{
    if n <= 0 {
        Seq::empty()
    } else {
        let prev = content_parts(items, n - 1);
        match item_text(items[n - 1]) {
            Some(t) => if !all_space(t) {
                prev.push(t)
            } else {
                prev
            },
            None => prev,
        }
    }
}

/// The payload of a record, or null when it has none.
pub open spec fn payload_of(v: JsonV) -> JsonV {
    match lookup(v, "payload"@) {
        Some(p) => p,
        None => JsonV::Null,
    }
}

/// The record's timestamp text, defaulting to `-`.
pub open spec fn timestamp_of(v: JsonV) -> Seq<char> {
    match lookup_text(v, "timestamp"@) {
        Some(t) => t,
        None => "-"@,
    }
}

/// The chat turn contributed by one `response_item` message record, if any:
/// the role (with `developer` normalized to `user`), the record timestamp,
/// and the non-blank content texts joined by newlines.
pub open spec fn msg_turn_of(v: JsonV) -> Option<ChatTurnV> {
    if !has_type(v, "response_item"@) {
        None
    } else {
        let p = payload_of(v);
        if lookup_text(p, "type"@) != Some("message"@) {
            None
        } else {
            let role_raw = match lookup_text(p, "role"@) {
                Some(r) => r,
                None => "unknown"@,
            };
            let role = if role_raw == "developer"@ {
                "user"@
            } else {
                role_raw
            };
            let parts = match lookup(p, "content"@) {
                Some(JsonV::Array(items)) => content_parts(items, items.len() as int),
                _ => Seq::empty(),
            };
            if parts.len() == 0 {
                None
            } else {
                Some(ChatTurnV { role, timestamp: timestamp_of(v), text: join_nl(parts) })
            }
        }
    }
}

/// The chat turn contributed by one `event_msg` / `user_message` record:
/// always a `user` turn holding the message text.
pub open spec fn user_turn_of(v: JsonV) -> Option<ChatTurnV> {
    if !has_type(v, "event_msg"@) {
        None
    } else {
        let p = payload_of(v);
        if lookup_text(p, "type"@) != Some("user_message"@) {
            None
        } else {
            match lookup_text(p, "message"@) {
                Some(t) => Some(
                    ChatTurnV { role: "user"@, timestamp: timestamp_of(v), text: t },
                ),
                None => None,
            }
        }
    }
}

/// The turn of one raw line under the given per-record extractor: blank
/// lines and unparseable lines contribute nothing.
pub open spec fn line_turn(line: Seq<char>, fallback: bool) -> Option<ChatTurnV> {
    if all_space(line) {
        None
    } else {
        match json_of(line) {
            Some(v) => if fallback {
                user_turn_of(v)
            } else {
                msg_turn_of(v)
            },
            None => None,
        }
    }
}

/// The turns of the first `n` lines, in file order.
pub open spec fn lines_turns(ls: Seq<Seq<char>>, n: int, fallback: bool) -> Seq<ChatTurnV>
    decreases n,
{
    if n <= 0 {
        Seq::empty()
    } else {
        let prev = lines_turns(ls, n - 1, fallback);
        match line_turn(ls[n - 1], fallback) {
            Some(t) => prev.push(t),
            None => prev,
        }
    }
}

/// All chat turns of a session's content: the message turns in file order,
/// or, when there are none at all, the fallback `user_message` turns.
pub open spec fn extract_turns_spec(content: Seq<char>) -> Seq<ChatTurnV> {
    let ls = lines_spec(content);
    let primary = lines_turns(ls, ls.len() as int, false);
    if primary.len() > 0 {
        primary
    } else {
        lines_turns(ls, ls.len() as int, true)
    }
}

/// No extracted turn carries the raw `developer` role.
pub proof fn lemma_no_developer_turns(content: Seq<char>)
    ensures
        forall|i: int|
            0 <= i < extract_turns_spec(content).len() ==> (#[trigger] extract_turns_spec(
                content,
            )[i]).role != "developer"@,
{
    let ls = lines_spec(content);
    lemma_lines_turns_roles(ls, ls.len() as int, false);
    lemma_lines_turns_roles(ls, ls.len() as int, true);
}

/// Helper for [`lemma_no_developer_turns`]: each contributed turn's role is
/// either normalized or the literal `user`.
proof fn lemma_lines_turns_roles(ls: Seq<Seq<char>>, n: int, fallback: bool)
    ensures
        forall|i: int|
            0 <= i < lines_turns(ls, n, fallback).len() ==> (#[trigger] lines_turns(
                ls,
                n,
                fallback,
            )[i]).role != "developer"@,
    decreases n,
{
    broadcast use vstd::string::group_string_axioms;

    if n > 0 {
        lemma_lines_turns_roles(ls, n - 1, fallback);
        reveal_strlit("developer");
        reveal_strlit("user");
        reveal_strlit("unknown");
        assert("user"@.len() != "developer"@.len());
        assert("unknown"@.len() != "developer"@.len());
        let prev = lines_turns(ls, n - 1, fallback);
        assert forall|i: int|
            0 <= i < lines_turns(ls, n, fallback).len() implies (#[trigger] lines_turns(
            ls,
            n,
            fallback,
        )[i]).role != "developer"@ by {
            if i < prev.len() {
                assert(lines_turns(ls, n, fallback)[i] == prev[i]);
            }
        }
    }
}

/// Extracts one message turn from a parsed record.
fn msg_turn_exec(v: &JsonValue) -> (r: Option<ChatTurn>)
    ensures
        match r {
            Some(t) => msg_turn_of(v.model()) == Some(t@),
            None => msg_turn_of(v.model()) is None,
        },
{
    broadcast use crate::text::lemma_deep_view_chars, crate::text::lemma_deep_view_len, crate::text::lemma_deep_view_index;

    if !v.has_type("response_item") {
        return None;
    }
    let null_payload = JsonValue::Null;
    let p: &JsonValue = match v.get("payload") {
        Some(p) => p,
        None => &null_payload,
    };
    let ptype_ok = match p.get_text("type") {
        Some(s) => str_eq(s.as_str(), "message"),
        None => false,
    };
    if !ptype_ok {
        return None;
    }
    let role: String = match p.get_text("role") {
        Some(r) => {
            if str_eq(r.as_str(), "developer") {
                String::from_str("user")
            } else {
                r.clone()
            }
        },
        None => String::from_str("unknown"),
    };
    let timestamp: String = match v.get_text("timestamp") {
        Some(t) => t.clone(),
        None => String::from_str("-"),
    };
    let mut parts: Vec<String> = Vec::new();
    let ghost pm = p.model();
    match p.get("content") {
        Some(content) => {
            match content.as_array() {
                Some(items) => {
                    let ghost im = crate::json::model_seq(items@);
                    proof {
                        broadcast use crate::json::lemma_model_seq_props;

                        assert(im.len() == items@.len());
                    }
                    let mut i: usize = 0;
                    while i < items.len()
                        invariant
                            0 <= i <= items@.len(),
                            im == crate::json::model_seq(items@),
                            im.len() == items@.len(),
                            forall|k: int|
                                0 <= k < items@.len() ==> #[trigger] im[k] == items@[k].model(),
                            parts.deep_view() == content_parts(im, i as int),
                        decreases items@.len() - i,
                    {
                        let item = &items[i];
                        let picked: Option<&JsonValue> = match item.get("text") {
                            Some(f) => Some(f),
                            None => match item.get("input_text") {
                                Some(f) => Some(f),
                                None => item.get("output_text"),
                            },
                        };
                        match picked {
                            Some(f) => {
                                match f.as_text() {
                                    Some(t) => {
                                        if !str_all_space(t.as_str()) {
                                            parts.push(t.clone());
                                        }
                                    },
                                    None => {},
                                }
                            },
                            None => {},
                        }
                        i += 1;
                        proof {
                            assert(parts.deep_view() =~~= content_parts(im, i as int));
                        }
                    }
                },
                None => {},
            }
        },
        None => {},
    }
    if parts.len() == 0 {
        return None;
    }
    proof {
        broadcast use vstd::string::group_string_axioms;

        reveal_strlit("unknown");
        reveal_strlit("developer");
        assert("unknown"@.len() != "developer"@.len());
    }
    let text = join_newline(&parts);
    Some(ChatTurn { role, timestamp, text })
}

/// Extracts one fallback user turn from a parsed record.
fn user_turn_exec(v: &JsonValue) -> (r: Option<ChatTurn>)
    ensures
        match r {
            Some(t) => user_turn_of(v.model()) == Some(t@),
            None => user_turn_of(v.model()) is None,
        },
{
    if !v.has_type("event_msg") {
        return None;
    }
    let null_payload = JsonValue::Null;
    let p: &JsonValue = match v.get("payload") {
        Some(p) => p,
        None => &null_payload,
    };
    let ptype_ok = match p.get_text("type") {
        Some(s) => str_eq(s.as_str(), "user_message"),
        None => false,
    };
    if !ptype_ok {
        return None;
    }
    match p.get_text("message") {
        Some(t) => {
            let timestamp: String = match v.get_text("timestamp") {
                Some(ts) => ts.clone(),
                None => String::from_str("-"),
            };
            Some(ChatTurn { role: String::from_str("user"), timestamp, text: t.clone() })
        },
        None => None,
    }
}

/// Whether the string is entirely whitespace.
pub fn str_all_space(s: &str) -> (r: bool)
    ensures
        r == all_space(s@),
{
    let cs = str_to_chars(s);
    line_all_space(&cs)
}

/// Extracts the chat turns of a session's raw content: every `response_item`
/// message record in file order, with `developer` roles normalized to
/// `user`; when no such record exists, the `event_msg` / `user_message`
/// records instead.
#[verifier::loop_isolation(false)]
pub fn extract_chat_turns(content: &str) -> (r: Vec<ChatTurn>)
    ensures
        r.deep_view() == extract_turns_spec(content@),
{
    broadcast use crate::text::lemma_deep_view_chars, crate::text::lemma_deep_view_len, crate::text::lemma_deep_view_index;

    let cs = str_to_chars(content);
    let ls = split_lines(&cs);
    let ghost lsv = lines_spec(content@);
    let mut turns: Vec<ChatTurn> = Vec::new();
    let mut i: usize = 0;
    while i < ls.len()
        invariant
            0 <= i <= ls@.len(),
            ls.deep_view() == lsv,
            turns.deep_view() == lines_turns(lsv, i as int, false),
        decreases ls@.len() - i,
    {
        let line = chars_to_string(&ls[i]);
        if !line_all_space(&ls[i]) {
            match parse_json_line(line.as_str()) {
                Some(v) => {
                    match msg_turn_exec(&v) {
                        Some(t) => {
                            turns.push(t);
                        },
                        None => {},
                    }
                },
                None => {},
            }
        }
        i += 1;
        proof {
            assert(ls@[i - 1].deep_view() == lsv[i - 1]);
            assert(turns.deep_view() =~~= lines_turns(lsv, i as int, false));
        }
    }
    if turns.len() > 0 {
        return turns;
    }
    let mut i: usize = 0;
    while i < ls.len()
        invariant
            0 <= i <= ls@.len(),
            ls.deep_view() == lsv,
            turns.deep_view() == lines_turns(lsv, i as int, true),
            lines_turns(lsv, lsv.len() as int, false).len() == 0,
        decreases ls@.len() - i,
    {
        let line = chars_to_string(&ls[i]);
        if !line_all_space(&ls[i]) {
            match parse_json_line(line.as_str()) {
                Some(v) => {
                    match user_turn_exec(&v) {
                        Some(t) => {
                            turns.push(t);
                        },
                        None => {},
                    }
                },
                None => {},
            }
        }
        i += 1;
        proof {
            assert(ls@[i - 1].deep_view() == lsv[i - 1]);
            assert(turns.deep_view() =~~= lines_turns(lsv, i as int, true));
        }
    }
    turns
}

// ---------------------------------------------------------------------------
// One-line event summaries.
// ---------------------------------------------------------------------------

/// The text of a field, or the given default when it is missing.
pub open spec fn text_or(v: JsonV, key: Seq<char>, dflt: Seq<char>) -> Seq<char> {
    match lookup_text(v, key) {
        Some(t) => t,
        None => dflt,
    }
}

/// The one-line summary of a raw event record: `[timestamp] category` with
/// the payload subtype for `response_item` and `event_msg` records, and the
/// role for message payloads.
pub open spec fn summarize_spec(v: JsonV) -> Seq<char> {
    let ts = text_or(v, "timestamp"@, "-"@);
    let ty = text_or(v, "type"@, "unknown"@);
    let head = "["@ + ts + "] "@;
    if ty == "response_item"@ {
        let pty = text_or(payload_of(v), "type"@, "?"@);
        if pty == "message"@ {
            head + "response_item/message role="@ + text_or(payload_of(v), "role"@, "?"@)
        } else {
            head + "response_item/"@ + pty
        }
    } else if ty == "event_msg"@ {
        head + "event_msg/"@ + text_or(payload_of(v), "type"@, "?"@)
    } else {
        head + ty
    }
}

/// Copies the text of a field, with a default for missing or non-string ones.
fn field_text_or(v: &JsonValue, key: &str, dflt: &str) -> (r: String)
    ensures
        r@ == text_or(v.model(), key@, dflt@),
{
    match v.get_text(key) {
        Some(t) => t.clone(),
        None => String::from_str(dflt),
    }
}

/// Renders one raw event record as a single summary line.
pub fn summarize_event_line(v: &JsonValue) -> (r: String)
    ensures
        r@ == summarize_spec(v.model()),
{
    let ts = field_text_or(v, "timestamp", "-");
    let ty = field_text_or(v, "type", "unknown");
    let mut out = String::from_str("[");
    out.append(ts.as_str());
    out.append("] ");
    let null_payload = JsonValue::Null;
    let p: &JsonValue = match v.get("payload") {
        Some(p) => p,
        None => &null_payload,
    };
    if str_eq(ty.as_str(), "response_item") {
        let pty = field_text_or(p, "type", "?");
        if str_eq(pty.as_str(), "message") {
            let role = field_text_or(p, "role", "?");
            out.append("response_item/message role=");
            out.append(role.as_str());
        } else {
            out.append("response_item/");
            out.append(pty.as_str());
        }
    } else if str_eq(ty.as_str(), "event_msg") {
        let pty = field_text_or(p, "type", "?");
        out.append("event_msg/");
        out.append(pty.as_str());
    } else {
        out.append(ty.as_str());
    }
    out
}

} // verus!
