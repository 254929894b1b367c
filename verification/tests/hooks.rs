use llm_watch::compact::compact_text;
use llm_watch::hooks::{
    compact_value, failure_line, fallback_session, is_activity, last_message, message_from_transcript,
    normalize_event, parse_payload, project, read_payload, tail_start,
    tmux_target, transcript_to_read,
    HookContext, PayloadError,
};
use llm_watch::json::{self, Json};
use llm_watch::model::{Event, MESSAGE_LIMIT, TASK_LIMIT};

fn object(text: &str) -> Vec<(String, Json)> {
    parse_payload(text).ok().unwrap()
}

fn context() -> HookContext {
    HookContext {
        task: None,
        current_dir: Some("/here/now".to_owned()),
        tmux_pane: Some("%3".to_owned()),
        tmux: "main:1.1".to_owned(),
        host: "dev-one".to_owned(),
    }
}

fn normalize(provider: &str, payload: &str) -> Option<Event> {
    normalize_event(provider, &object(payload), None, &context(), None)
}

#[test]
fn codex_completion_is_ready_and_labeled() {
    let event = normalize(
        "codex",
        r#"{
            "type": "agent-turn-complete",
            "thread-id": "thread-1",
            "cwd": "/workspace/payments",
            "input-messages": ["Add retries to payment requests"]
        }"#,
    )
    .unwrap();
    assert_eq!(event.state, "ready");
    assert_eq!(event.run_id, "codex-thread-1");
    assert_eq!(event.task, "Add retries to payment requests");
    assert_eq!(event.project, "payments");
}

#[test]
fn claude_permission_needs_approval() {
    let event = normalize(
        "agent",
        r#"{
            "hook_event_name": "Notification",
            "notification_type": "permission_prompt",
            "session_id": "agent-1",
            "cwd": "/workspace/web"
        }"#,
    );
    assert_eq!(event.unwrap().state, "approval");
}

#[test]
fn codex_notify_payload_supplies_the_last_message() {
    let event = normalize(
        "codex",
        r#"{
            "type": "agent-turn-complete",
            "thread-id": "thread-1",
            "cwd": "/workspace/payments",
            "last-assistant-message": "Added retries.\n\nAll 12 tests pass."
        }"#,
    )
    .unwrap();
    assert_eq!(event.message, "Added retries. All 12 tests pass.");
}

#[test]
fn claude_transcript_yields_the_final_assistant_turn() {
    let lines = [
        r#"{"type": "assistant", "message": {"content": [{"type": "text", "text": "first"}]}}"#,
        r#"{"type": "user", "message": {"content": [{"type": "text", "text": "ignore me"}]}}"#,
        r#"{"type": "assistant", "message": {"content": [
            {"type": "thinking", "thinking": "hidden"},
            {"type": "text", "text": "Rebased the   train  and force pushed."}
        ]}}"#,
        // Trailing non-assistant records must not hide the answer above.
        r#"{"type": "system", "subtype": "hook"}"#,
    ];
    let body = lines
        .iter()
        .map(|line| line.replace('\n', " "))
        .collect::<Vec<_>>()
        .join("\n");

    let payload = object(
        r#"{
            "hook_event_name": "Stop",
            "session_id": "agent-1",
            "cwd": "/workspace/web",
            "transcript_path": "/tmp/session.jsonl"
        }"#,
    );
    assert_eq!(
        transcript_to_read(&payload, None).as_deref(),
        Some("/tmp/session.jsonl")
    );
    let event = normalize_event("agent", &payload, None, &context(), Some(&body)).unwrap();
    assert_eq!(event.state, "ready");
    assert_eq!(event.message, "Rebased the train and force pushed.");
}

#[test]
fn a_missing_or_messageless_transcript_is_not_an_error() {
    let event = normalize(
        "agent",
        r#"{
            "hook_event_name": "Stop",
            "session_id": "agent-2",
            "cwd": "/workspace/web",
            "transcript_path": "/nonexistent/transcript.jsonl"
        }"#,
    );
    assert_eq!(event.unwrap().message, "");
}

#[test]
fn a_truncated_leading_record_is_skipped() {
    // Simulates the tail window slicing through the middle of a record.
    let body = format!(
        "e\": \"broken\"}}]}}}}\n{}\n",
        r#"{"type": "assistant", "message": {"content": [{"type": "text", "text": "intact"}]}}"#
    );
    assert_eq!(message_from_transcript(&body), "intact");
}

#[test]
fn tool_activity_marks_the_run_running_without_reading_the_transcript() {
    let transcript =
        r#"{"type": "assistant", "message": {"content": [{"type": "text", "text": "mid-turn text"}]}}"#;
    let payload = object(
        r#"{
            "hook_event_name": "PostToolUse",
            "session_id": "agent-1",
            "cwd": "/workspace/web",
            "tool_name": "Bash",
            "transcript_path": "/tmp/session.jsonl"
        }"#,
    );
    assert!(transcript_to_read(&payload, None).is_none());
    let event = normalize_event("agent", &payload, None, &context(), Some(transcript)).unwrap();
    assert_eq!(event.state, "running");
    assert!(is_activity(&event.event));
    // A heartbeat must not surface a mid-turn assistant message.
    assert_eq!(event.message, "");
    // Or clobber the task the prompt recorded (empty merges with previous).
    assert_eq!(event.task, "");
}

#[test]
fn compaction_is_ignored() {
    let event = normalize(
        "codex",
        r#"{
            "hook_event_name": "SessionStart",
            "source": "compact",
            "session_id": "one"
        }"#,
    );
    assert!(event.is_none());
}

#[test]
fn every_event_has_its_state() {
    for (name, state) in [
        ("UserPromptSubmit", "running"),
        ("user_prompt_submit", "running"),
        ("PostToolUse", "running"),
        ("post_tool_use", "running"),
        ("agent-turn-complete", "ready"),
        ("Stop", "ready"),
        ("StopFailure", "error"),
        ("stop_failure", "error"),
        ("SessionEnd", "stopped"),
        ("session-end", "stopped"),
        ("SessionStart", "idle"),
        ("session_start", "idle"),
        ("PermissionRequest", "approval"),
        ("permission_request", "approval"),
    ] {
        let event = normalize("codex", &format!("{{\"type\": \"{name}\"}}")).unwrap();
        assert_eq!(event.state, state, "{name}");
        assert_eq!(event.event, name);
    }
    for name in ["PreToolUse", "unknown", "notification", "Compact"] {
        assert!(normalize("codex", &format!("{{\"type\": \"{name}\"}}")).is_none());
    }
}

#[test]
fn notifications_tell_by_their_type() {
    let event = |kind: &str| {
        normalize(
            "agent",
            &format!("{{\"type\": \"Notification\", \"notification-type\": \"{kind}\"}}"),
        )
    };
    assert_eq!(event("permission_prompt").unwrap().state, "approval");
    assert_eq!(event("idle_prompt").unwrap().state, "ready");
    assert!(event("other").is_none());
}

#[test]
fn compaction_is_ignored_in_any_case() {
    assert!(normalize("c", r#"{"type": "session_start", "source": "COMPACT"}"#).is_none());
    assert_eq!(
        normalize("c", r#"{"type": "session_start", "source": "resume"}"#)
            .unwrap()
            .state,
        "idle"
    );
}

#[test]
fn an_event_is_complete() {
    let event = normalize_event(
        "Agent",
        &object(r#"{"session_id": 42, "prompt": "Fix   the\ntests", "cwd": "/work/app/"}"#),
        Some("UserPromptSubmit"),
        &context(),
        None,
    )
    .unwrap();
    assert_eq!(event.schema_version, 1);
    assert_eq!(event.event_id.len(), 36);
    assert_eq!(event.event_id.matches('-').count(), 4);
    assert_eq!(event.provider, "agent");
    assert_eq!(event.event, "UserPromptSubmit");
    assert_eq!(event.session_id, "42");
    assert_eq!(event.run_id, "agent-42");
    assert_eq!(event.host, "dev-one");
    assert_eq!(event.cwd, "/work/app/");
    assert_eq!(event.project, "app");
    assert_eq!(event.tmux, "main:1.1");
    assert_eq!(event.task, "Fix the tests");
    assert_eq!(event.message, "");
    assert_eq!(event.state, "running");
    assert!(event.updated_at.ends_with('Z'));
    assert_eq!(event.updated_at.len(), 20);
}

#[test]
fn events_differ_in_their_identifiers() {
    let payload = r#"{"type": "Stop"}"#;
    let one = normalize("codex", payload).unwrap();
    let other = normalize("codex", payload).unwrap();
    assert_ne!(one.event_id, other.event_id);
    assert_eq!(one.session_id, other.session_id);
}

#[test]
fn a_session_without_a_name_belongs_to_its_place() {
    let here = context();
    let payload = object(r#"{"type": "Stop", "cwd": "/workspace/app"}"#);
    let session = fallback_session("Codex", &payload, &here);
    // The name-based UUID of "codex|/workspace/app|%3" in the URL namespace.
    assert_eq!(session, "aa93f42c-155f-593b-869c-1de1b583517c");
    assert_eq!(fallback_session("codex", &payload, &here), session);
    let event = normalize_event("codex", &payload, None, &here, None).unwrap();
    assert_eq!(event.session_id, session);
    assert_eq!(event.run_id, format!("codex-{session}"));
    let mut elsewhere = context();
    elsewhere.tmux_pane = None;
    assert_ne!(fallback_session("codex", &payload, &elsewhere), session);
}

#[test]
fn the_directory_falls_back() {
    let mut place = context();
    let payload = object(r#"{"type": "Stop"}"#);
    let event = normalize_event("codex", &payload, None, &place, None).unwrap();
    assert_eq!(event.cwd, "/here/now");
    assert_eq!(event.project, "now");
    place.current_dir = None;
    let event = normalize_event("codex", &payload, None, &place, None).unwrap();
    assert_eq!(event.cwd, ".");
    assert_eq!(event.project, ".");
    assert_eq!(project("/"), "/");
    assert_eq!(project("/a/.."), "/a/..");
}

#[test]
fn the_user_can_name_the_task() {
    let mut place = context();
    place.task = Some("  my   task ".to_owned());
    let payload = object(r#"{"type": "PostToolUse", "prompt": "other"}"#);
    let event = normalize_event("codex", &payload, None, &place, None).unwrap();
    assert_eq!(event.task, "my task");
    place.task = Some("  ".to_owned());
    let payload = object(r#"{"type": "UserPromptSubmit", "prompt": "", "input": "other"}"#);
    let event = normalize_event("codex", &payload, None, &place, None).unwrap();
    assert_eq!(event.task, "other");
}

#[test]
fn tasks_and_messages_are_short() {
    let long = "word ".repeat(2000);
    let event = normalize(
        "codex",
        &format!(
            "{{\"type\": \"agent-turn-complete\", \"input_messages\": \"{long}\", \"lastAssistantMessage\": \"{long}\"}}"
        ),
    )
    .unwrap();
    assert!(event.task.chars().count() <= TASK_LIMIT);
    assert!(event.message.chars().count() <= MESSAGE_LIMIT);
    assert!(event.task.ends_with('…'));
}

#[test]
fn values_are_put_in_words() {
    let words = |text: &str| compact_value(&json::read(text).unwrap(), 40);
    assert_eq!(words("null"), "");
    assert_eq!(words("\" a  b \""), "a b");
    assert_eq!(words("[\"a\", 1, {\"b\": true}]"), "a 1 {\"b\":true}");
    assert_eq!(words("{\"text\": \"x\", \"content\": \"y\"}"), "x");
    assert_eq!(words("{\"content\": [1,2]}"), "[1,2]");
    assert_eq!(words("{\"other\": 1}"), "");
    assert_eq!(words("1.5"), "1.5");
    assert_eq!(words("true"), "true");
}

#[test]
fn text_is_cut_with_an_ellipsis() {
    assert_eq!(compact_text("a b", 3), "a b");
    assert_eq!(compact_text("abcd", 3), "ab…");
    // The space before the cut goes too.
    assert_eq!(compact_text("a bcd", 3), "a…");
    assert_eq!(compact_text("abc", 0), "…");
    assert_eq!(compact_text(" \t\n ", 3), "");
    assert_eq!(compact_text("ünïcödé", 4), "ünï…");
}

#[test]
fn a_codex_rollout_has_messages_too() {
    let tail = "{\"payload\": {\"type\": \"agent_message\", \"message\": \"done  here\"}}\n";
    assert_eq!(message_from_transcript(tail), "done here");
    let blank = "{\"type\":\"assistant\",\"message\":{\"content\":[{\"type\":\"text\",\"text\":\"kept\"}]}}\n{\"payload\": {\"type\": \"agent_message\", \"message\": \"  \"}}\n[]\n";
    assert_eq!(message_from_transcript(blank), "kept");
    assert_eq!(message_from_transcript(""), "");
}

#[test]
fn the_last_record_that_speaks_counts() {
    let said = |text: &str| {
        Some(json::read(&format!("{{\"type\":\"assistant\",\"message\":{{\"content\":[{{\"type\":\"text\",\"text\":\"{text}\"}}]}}}}")).unwrap())
    };
    assert_eq!(last_message(&vec![said("one"), None, said("two"), None]), "two");
    assert_eq!(last_message(&vec![None]), "");
}

#[test]
fn payloads_must_be_objects() {
    assert!(matches!(
        parse_payload("[1]"),
        Err(PayloadError::NotAnObject)
    ));
    assert_eq!(
        PayloadError::NotAnObject.message(),
        "hook payload must be a JSON object"
    );
    let Err(error) = parse_payload("{") else {
        panic!("a syntax error is expected");
    };
    assert!(matches!(error, PayloadError::Syntax(_)));
    assert_eq!(
        error.message(),
        "EOF while parsing an object at line 1 column 1"
    );
    assert_eq!(read_payload(" \n ").ok().unwrap().len(), 0);
    assert_eq!(read_payload("{\"a\": 1}").ok().unwrap().len(), 1);
    assert_eq!(
        read_payload("x").err().unwrap().message(),
        "expected value at line 1 column 1"
    );
}

#[test]
fn tmux_panes_are_shown_by_name() {
    assert_eq!(tmux_target(None, Some("x")), "");
    assert_eq!(tmux_target(Some("%1"), None), "%1");
    assert_eq!(tmux_target(Some("%1"), Some(" \n")), "%1");
    assert_eq!(tmux_target(Some("%1"), Some("main:0.1\n")), "main:0.1");
}

#[test]
fn failures_are_logged_in_one_line() {
    assert_eq!(
        failure_line("2026-08-07T10:00:00Z", "codex", "disk full"),
        "2026-08-07T10:00:00Z codex: disk full"
    );
}

#[test]
fn only_the_tail_of_a_transcript_is_read() {
    assert_eq!(tail_start(0), 0);
    assert_eq!(tail_start(262_144), 0);
    assert_eq!(tail_start(262_145), 1);
}

#[test]
fn compact_text_stays_as_it_is() {
    for text in ["", " a  b\tc ", "word word word word"] {
        let once = compact_text(text, 10);
        assert_eq!(compact_text(&once, 10), once);
    }
}
