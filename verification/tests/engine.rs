use session_workspace::fuzzy::fuzzy_score;
use session_workspace::mutate::{summarize_batch, TargetOutcome};
use session_workspace::records::extract_chat_turns;
use session_workspace::scan::{parse_session_summary, scan_sessions, ProjectBucket, SessionFile,
    SessionSummary};
use session_workspace::search::search_catalog;
use session_workspace::text::usize_to_string;
use session_workspace::ui::{format_session_item_lines, parse_colorfgbg_bg_index, ansi_index_to_rgb,
    Action};
use session_workspace::workspace::{action_targets, invert_in_project, preview_selected_text,
    select_all_in_project, FoldSet, SelectionSet};
use session_workspace::wrap::{chunk_by_width, longest_common_prefix, slice_chars, wrap_text_lines};
use session_workspace::delete_confirmation_valid;

fn sample_chat_jsonl() -> String {
    [
        r#"{"timestamp":"2026-01-01T00:00:00Z","type":"session_meta","payload":{"id":"abc","timestamp":"2026-01-01T00:00:00Z","cwd":"/tmp/x"}}"#,
        r#"{"timestamp":"2026-01-01T00:00:01Z","type":"response_item","payload":{"type":"message","role":"user","content":[{"type":"input_text","text":"hello"}]}}"#,
        r#"{"timestamp":"2026-01-01T00:00:02Z","type":"response_item","payload":{"type":"message","role":"assistant","content":[{"type":"output_text","text":"world"}]}}"#,
        r#"{"timestamp":"2026-01-01T00:00:03Z","type":"response_item","payload":{"type":"message","role":"developer","content":[{"type":"input_text","text":"normalized user"}]}}"#,
    ]
    .join("\n")
}

fn sample_session(path: &str, cwd: &str, id: &str) -> SessionSummary {
    SessionSummary {
        path: String::from(path),
        file_name: format!("{id}.jsonl"),
        id: String::from(id),
        cwd: String::from(cwd),
        started_at: String::from("2026-01-01T00:00:00Z"),
        event_count: 1,
        search_blob: String::new(),
    }
}

fn selected_count(project: &ProjectBucket, sel: &SelectionSet) -> usize {
    let mut n = 0;
    for s in project.sessions.iter() {
        if sel.contains(&s.path) {
            n += 1;
        }
    }
    n
}

#[test]
fn extract_chat_turns_normalizes_developer_role() {
    let turns = extract_chat_turns(&sample_chat_jsonl());
    assert_eq!(turns.len(), 3);
    assert_eq!(turns[0].role, "user");
    assert_eq!(turns[1].role, "assistant");
    assert_eq!(turns[2].role, "user");
}

#[test]
fn fuzzy_score_prefers_compact_match() {
    let a = fuzzy_score("abc", "a_b_c").unwrap_or(i64::MIN);
    let b = fuzzy_score("abc", "alphabet-bucket-code").unwrap_or(i64::MIN);
    assert!(a > b);
}

#[test]
fn wrap_text_lines_reflows_for_smaller_width() {
    let text = "this is a long sentence for wrapping";
    let wide = wrap_text_lines(text, 40);
    let narrow = wrap_text_lines(text, 10);
    assert_eq!(wide.len(), 1);
    assert!(narrow.len() > 1);
    assert!(narrow.iter().all(|line| line.chars().count() <= 10));
}

#[test]
fn parse_colorfgbg_bg_index_works() {
    assert_eq!(parse_colorfgbg_bg_index("15;0"), Some(0));
    assert_eq!(parse_colorfgbg_bg_index("0;15"), Some(15));
    assert_eq!(parse_colorfgbg_bg_index("bad"), None);
}

#[test]
fn longest_common_prefix_finds_shared_prefix() {
    let items = vec![
        String::from("alpha"),
        String::from("alpine"),
        String::from("alps"),
    ];
    assert_eq!(longest_common_prefix(&items), "alp");
}

#[test]
fn toggle_current_session_selection_tracks_current_project() {
    let project = ProjectBucket {
        cwd: String::from("/repo"),
        sessions: vec![
            sample_session("/tmp/a.jsonl", "/repo", "a"),
            sample_session("/tmp/b.jsonl", "/repo", "b"),
        ],
    };
    let mut sel = SelectionSet::new();

    sel.toggle("/tmp/b.jsonl");
    assert_eq!(selected_count(&project, &sel), 1);
    assert!(sel.contains("/tmp/b.jsonl"));

    sel.toggle("/tmp/b.jsonl");
    assert_eq!(selected_count(&project, &sel), 0);
}

#[test]
fn select_all_and_invert_sessions_work() {
    let project = ProjectBucket {
        cwd: String::from("/repo"),
        sessions: vec![
            sample_session("/tmp/a.jsonl", "/repo", "a"),
            sample_session("/tmp/b.jsonl", "/repo", "b"),
            sample_session("/tmp/c.jsonl", "/repo", "c"),
        ],
    };
    let mut sel = SelectionSet::new();

    select_all_in_project(&mut sel, &project);
    assert_eq!(selected_count(&project, &sel), 3);

    invert_in_project(&mut sel, &project);
    assert_eq!(selected_count(&project, &sel), 0);
}

#[test]
fn action_targets_prefers_selected_sessions() {
    let project = ProjectBucket {
        cwd: String::from("/repo"),
        sessions: vec![
            sample_session("/tmp/a.jsonl", "/repo", "a"),
            sample_session("/tmp/b.jsonl", "/repo", "b"),
        ],
    };
    let mut sel = SelectionSet::new();
    sel.insert(String::from("/tmp/b.jsonl"));

    let targets = action_targets(&project, &sel, 0, Action::Move);
    assert_eq!(targets.len(), 1);
    assert_eq!(targets[0].id, "b");
}

#[test]
fn delete_targets_prefers_selected_sessions() {
    let project = ProjectBucket {
        cwd: String::from("/repo"),
        sessions: vec![
            sample_session("/tmp/a.jsonl", "/repo", "a"),
            sample_session("/tmp/b.jsonl", "/repo", "b"),
        ],
    };
    let mut sel = SelectionSet::new();
    sel.insert(String::from("/tmp/b.jsonl"));

    let targets = action_targets(&project, &sel, 0, Action::Delete);
    assert_eq!(targets.len(), 1);
    assert_eq!(targets[0].id, "b");
}

#[test]
fn delete_confirmation_is_strict() {
    assert!(delete_confirmation_valid("DELETE"));
    assert!(!delete_confirmation_valid("delete"));
    assert!(!delete_confirmation_valid(" DELETE "));
}

#[test]
fn project_actions_target_all_project_sessions() {
    let project = ProjectBucket {
        cwd: String::from("/repo"),
        sessions: vec![
            sample_session("/tmp/a.jsonl", "/repo", "a"),
            sample_session("/tmp/b.jsonl", "/repo", "b"),
        ],
    };
    let sel = SelectionSet::new();
    let targets = action_targets(&project, &sel, 0, Action::ProjectCopy);
    assert_eq!(targets.len(), 2);
}

#[test]
fn preview_selected_text_uses_character_bounds() {
    let lines = vec![String::from("abcde"), String::from("vwxyz")];
    let text = preview_selected_text(&lines, (0, 1), (1, 2)).expect("selection text");
    assert_eq!(text, "bcde\nvwx");
}

#[test]
fn session_item_lines_are_two_line_pretty_format() {
    let s = SessionSummary {
        path: String::from("/tmp/a.jsonl"),
        file_name: String::from("rollout-a.jsonl"),
        id: String::from("123456789abcdef"),
        cwd: String::from("/tmp"),
        started_at: String::from("2026-01-01T00:00:00Z"),
        event_count: 42,
        search_blob: String::new(),
    };
    let (a, b) = format_session_item_lines(&s);
    assert!(a.contains("| 42 events"));
    assert!(b.starts_with("12345678 | "));
}

#[test]
fn apply_search_filter_reduces_to_matching_sessions() {
    let s1 = SessionSummary {
        path: String::from("/tmp/a.jsonl"),
        file_name: String::from("a.jsonl"),
        id: String::from("a"),
        cwd: String::from("/repo/a"),
        started_at: String::from("2026-01-01T00:00:00Z"),
        event_count: 1,
        search_blob: String::from("deploy fix alpha"),
    };
    let s2 = SessionSummary {
        path: String::from("/tmp/b.jsonl"),
        file_name: String::from("b.jsonl"),
        id: String::from("b"),
        cwd: String::from("/repo/b"),
        started_at: String::from("2026-01-01T00:00:00Z"),
        event_count: 1,
        search_blob: String::from("unrelated text"),
    };
    let catalog = vec![
        ProjectBucket { cwd: String::from("/repo/a"), sessions: vec![s1] },
        ProjectBucket { cwd: String::from("/repo/b"), sessions: vec![s2] },
    ];

    let filtered = search_catalog(&catalog, "alpha");
    assert_eq!(filtered.len(), 1);
    assert_eq!(filtered[0].cwd, "/repo/a");
}

#[test]
fn preview_toggle_all_folds_collapses_and_expands() {
    let mut folds = FoldSet::new();
    let turns = vec![0usize, 1, 2];

    folds.toggle_all(&turns);
    assert!(folds.contains(0) && folds.contains(1) && folds.contains(2));

    folds.toggle_all(&turns);
    assert!(!folds.contains(0) && !folds.contains(1) && !folds.contains(2));
}

#[test]
fn empty_query_matches_everything_with_score_zero() {
    assert_eq!(fuzzy_score("", "anything at all"), Some(0));
    assert_eq!(fuzzy_score("", ""), Some(0));
}

#[test]
fn query_not_a_subsequence_yields_no_match() {
    assert_eq!(fuzzy_score("xyz", "alphabet"), None);
    assert!(fuzzy_score("abc", "a-b-c").is_some());
    assert_eq!(fuzzy_score("abcd", "abc"), None);
}

#[test]
fn wrap_width_at_least_length_returns_single_trimmed_line() {
    let wrapped = wrap_text_lines("hello world", 11);
    assert_eq!(wrapped, vec![String::from("hello world")]);
    let spaced = wrap_text_lines("  hello world  ", 40);
    assert_eq!(spaced, vec![String::from("hello world")]);
}

#[test]
fn chunk_by_width_hard_chunks_long_words() {
    let chunks = chunk_by_width("abcdefgh", 3);
    assert_eq!(chunks, vec![String::from("abc"), String::from("def"), String::from("gh")]);
}

#[test]
fn slice_chars_clamps_to_bounds() {
    assert_eq!(slice_chars("hello", 1, 3), "el");
    assert_eq!(slice_chars("hello", 3, 100), "lo");
    assert_eq!(slice_chars("hello", 9, 12), "");
}

#[test]
fn parse_session_summary_reads_metadata_and_counts_events() {
    let s = parse_session_summary("/tmp/x/a.jsonl", "a.jsonl", &sample_chat_jsonl());
    assert_eq!(s.id, "abc");
    assert_eq!(s.cwd, "/tmp/x");
    assert_eq!(s.started_at, "2026-01-01T00:00:00Z");
    assert_eq!(s.event_count, 4);
    assert_eq!(s.search_blob, "hello\nworld\nnormalized user");
}

#[test]
fn scan_sessions_groups_by_cwd_sorted() {
    let mk = |cwd: &str, ts: &str| {
        format!(
            r#"{{"timestamp":"{ts}","type":"session_meta","payload":{{"id":"x","timestamp":"{ts}","cwd":"{cwd}"}}}}"#
        )
    };
    let files = vec![
        SessionFile {
            path: String::from("/r/1.jsonl"),
            file_name: String::from("1.jsonl"),
            content: mk("/beta", "2026-01-02T00:00:00Z"),
        },
        SessionFile {
            path: String::from("/r/2.jsonl"),
            file_name: String::from("2.jsonl"),
            content: mk("/alpha", "2026-01-01T00:00:00Z"),
        },
        SessionFile {
            path: String::from("/r/3.jsonl"),
            file_name: String::from("3.jsonl"),
            content: mk("/beta", "2026-01-03T00:00:00Z"),
        },
    ];
    let buckets = scan_sessions(&files);
    assert_eq!(buckets.len(), 2);
    assert_eq!(buckets[0].cwd, "/alpha");
    assert_eq!(buckets[1].cwd, "/beta");
    assert_eq!(buckets[1].sessions.len(), 2);
    // Most recent first within the project.
    assert_eq!(buckets[1].sessions[0].path, "/r/3.jsonl");
    assert_eq!(buckets[1].sessions[1].path, "/r/1.jsonl");
}

#[test]
fn batch_report_counts_partial_failures() {
    let outcomes = vec![
        TargetOutcome::Succeeded,
        TargetOutcome::Succeeded,
        TargetOutcome::Failed(String::from("b.jsonl: missing file")),
        TargetOutcome::Succeeded,
    ];
    let report = summarize_batch(&outcomes);
    assert_eq!(report.succeeded, 3);
    assert_eq!(report.skipped, 0);
    assert_eq!(report.failures, vec![String::from("b.jsonl: missing file")]);
}

#[test]
fn batch_report_counts_skips() {
    let outcomes = vec![TargetOutcome::Skipped, TargetOutcome::Succeeded];
    let report = summarize_batch(&outcomes);
    assert_eq!(report.succeeded, 1);
    assert_eq!(report.skipped, 1);
    assert!(report.failures.is_empty());
}

#[test]
fn usize_to_string_renders_decimal() {
    assert_eq!(usize_to_string(0), "0");
    assert_eq!(usize_to_string(7), "7");
    assert_eq!(usize_to_string(120), "120");
    assert_eq!(usize_to_string(1048576), "1048576");
}

#[test]
fn ansi_index_maps_basic_cube_and_gray() {
    assert_eq!(ansi_index_to_rgb(12), (92, 92, 255));
    assert_eq!(ansi_index_to_rgb(16), (0, 0, 0));
    assert_eq!(ansi_index_to_rgb(231), (255, 255, 255));
    assert_eq!(ansi_index_to_rgb(232), (8, 8, 8));
    assert_eq!(ansi_index_to_rgb(255), (238, 238, 238));
}

fn chat_turn(role: &str, ts: &str, text: &str) -> session_workspace::records::ChatTurn {
    session_workspace::records::ChatTurn {
        role: String::from(role),
        timestamp: String::from(ts),
        text: String::from(text),
    }
}

fn bodies_for(turns: &[session_workspace::records::ChatTurn], width: usize) -> Vec<Vec<String>> {
    turns
        .iter()
        .map(|t| wrap_text_lines(&t.text, width.saturating_sub(3)))
        .collect()
}

#[test]
fn folded_turn_hides_body_lines() {
    let turns = vec![chat_turn("user", "2026-01-01T00:00:00Z", "line one line two")];
    let bodies = bodies_for(&turns, 40);
    let s = sample_session("/tmp/fold.jsonl", "/tmp", "x");
    let mut folds = FoldSet::new();
    folds.insert(0);
    let preview =
        session_workspace::preview::build_chat_preview(&s, &turns, &bodies, &folds, 40);
    let all = preview.lines.join("\n");
    assert!(all.contains("\u{25b8}"));
    assert!(!all.contains("line one"));
}

#[test]
fn preview_includes_assistant_count_line() {
    let turns = vec![chat_turn("user", "t1", "u"), chat_turn("assistant", "t2", "a")];
    let bodies = bodies_for(&turns, 40);
    let s = sample_session("/tmp/c.jsonl", "/tmp", "x");
    let folds = FoldSet::new();
    let preview =
        session_workspace::preview::build_chat_preview(&s, &turns, &bodies, &folds, 40);
    let joined = preview.lines.join("\n");
    assert!(joined.contains("assistant=1"));
}

#[test]
fn assistant_blocks_have_hairline_separator() {
    let turns = vec![chat_turn("assistant", "t1", "a1"), chat_turn("assistant", "t2", "a2")];
    let bodies = bodies_for(&turns, 30);
    let s = sample_session("/tmp/sep.jsonl", "/tmp", "x");
    let folds = FoldSet::new();
    let preview =
        session_workspace::preview::build_chat_preview(&s, &turns, &bodies, &folds, 30);
    let sep_idx = preview
        .lines
        .iter()
        .position(|r| r.contains('\u{2500}'))
        .expect("assistant separator");
    assert!(!preview.tone_rows.iter().any(|(idx, _)| *idx == sep_idx));
}

#[test]
fn preview_header_shows_uppercased_roles() {
    let turns = vec![chat_turn("user", "t1", "one"), chat_turn("assistant", "t2", "two")];
    let bodies = bodies_for(&turns, 90);
    let s = sample_session("/tmp/int.jsonl", "/tmp/int", "x");
    let folds = FoldSet::new();
    let preview =
        session_workspace::preview::build_chat_preview(&s, &turns, &bodies, &folds, 90);
    let rendered = preview.lines.join("\n");
    assert!(rendered.contains("USER"));
    assert!(rendered.contains("ASSISTANT"));
}

#[test]
fn events_preview_truncates_to_last_events() {
    let s = sample_session("/tmp/e.jsonl", "/tmp", "e");
    let mut events = Vec::new();
    for i in 0..225 {
        events.push(format!("[t] event {i}"));
    }
    let preview = session_workspace::preview::build_events_preview(&s, &events);
    let joined = preview.lines.join("\n");
    assert!(joined.contains("... showing last 220 of 225 events ..."));
    assert!(!joined.contains("event 4\n"));
    assert!(joined.contains("event 224"));

    let few = vec![String::from("[t] a"), String::from("[t] b")];
    let small = session_workspace::preview::build_events_preview(&s, &few);
    assert!(!small.lines.join("\n").contains("showing last"));
    assert!(small.lines.contains(&String::from("[t] a")));
}

#[test]
fn summarize_event_line_formats_categories() {
    let line = r#"{"timestamp":"2026-01-01T00:00:01Z","type":"response_item","payload":{"type":"message","role":"user","content":[]}}"#;
    let v = session_workspace::json::parse_json_line(line).expect("parse");
    let summary = session_workspace::records::summarize_event_line(&v);
    assert_eq!(summary, "[2026-01-01T00:00:01Z] response_item/message role=user");

    let other = r#"{"timestamp":"t0","type":"turn_context"}"#;
    let v2 = session_workspace::json::parse_json_line(other).expect("parse");
    assert_eq!(session_workspace::records::summarize_event_line(&v2), "[t0] turn_context");
}
