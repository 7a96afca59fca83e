use session_workspace::mutate::{backup_path, collision_candidate, copy_file_name,
    rewrite_session_content};
use session_workspace::scan::parse_session_summary;

fn sample_content() -> String {
    [
        r#"{"timestamp":"2026-01-01T00:00:00Z","type":"session_meta","payload":{"id":"abc","timestamp":"2026-01-01T00:00:00Z","cwd":"/old"}}"#,
        r#"{"timestamp":"2026-01-01T00:00:01Z","type":"response_item","payload":{"type":"message","role":"user","cwd":"/old","content":[{"type":"input_text","text":"hi"}]}}"#,
    ]
    .join("\n")
}

#[test]
fn move_rewrite_replaces_every_cwd_field() {
    let out = rewrite_session_content(&sample_content(), "/new", None, None).expect("rewrite");
    for line in out.lines().filter(|l| !l.trim().is_empty()) {
        let v: serde_json::Value = serde_json::from_str(line).expect("valid json out");
        let payload = v.get("payload").expect("payload");
        if let Some(cwd) = payload.get("cwd") {
            assert_eq!(cwd.as_str(), Some("/new"));
        }
    }
    // The session id is preserved by a move.
    let s = parse_session_summary("/tmp/a.jsonl", "a.jsonl", &out);
    assert_eq!(s.id, "abc");
    assert_eq!(s.cwd, "/new");
}

#[test]
fn fork_rewrite_takes_fresh_id_and_timestamp() {
    let out = rewrite_session_content(
        &sample_content(),
        "/new",
        Some("fresh-id"),
        Some("2026-02-02T00:00:00+00:00"),
    )
    .expect("rewrite");
    let s = parse_session_summary("/tmp/a.jsonl", "a.jsonl", &out);
    assert_eq!(s.cwd, "/new");
    assert_eq!(s.id, "fresh-id");
    assert_eq!(s.started_at, "2026-02-02T00:00:00+00:00");
    assert_ne!(s.id, "abc");
}

#[test]
fn rewrite_fails_on_invalid_json_line() {
    let content = "not json at all\n";
    assert!(rewrite_session_content(content, "/new", None, None).is_err());
}

#[test]
fn rewrite_keeps_blank_lines_blank() {
    let content = format!("{}\n\n", sample_content());
    let out = rewrite_session_content(&content, "/new", None, None).expect("rewrite");
    assert_eq!(out.matches('\n').count(), 3);
}

#[test]
fn backup_path_replaces_extension_with_stamp() {
    assert_eq!(
        backup_path("/root/a/rollout-x.jsonl", "20260101000000"),
        "/root/a/rollout-x.jsonl.bak.20260101000000"
    );
    assert_eq!(backup_path("plain", "1"), "plain.jsonl.bak.1");
}

#[test]
fn copy_file_name_is_date_sharded_rollout() {
    assert_eq!(
        copy_file_name("2026-01-01T00-00-00", "abc"),
        "rollout-2026-01-01T00-00-00-abc.jsonl"
    );
}

#[test]
fn collision_candidates_are_numbered() {
    assert_eq!(collision_candidate("rollout-x", "jsonl", 1), "rollout-x-1.jsonl");
    assert_eq!(collision_candidate("rollout-x", "jsonl", 9999), "rollout-x-9999.jsonl");
}

#[test]
fn copy_then_rescan_shows_target_project() {
    // A copy writes rewritten content to a fresh path; rescanning that
    // content files the new session under the target project with the old id.
    let out = rewrite_session_content(&sample_content(), "/target", None, None).expect("rewrite");
    let s = parse_session_summary("/r/2026/01/02/rollout-t-abc.jsonl", "rollout-t-abc.jsonl", &out);
    assert_eq!(s.cwd, "/target");
    assert_eq!(s.id, "abc");
}
