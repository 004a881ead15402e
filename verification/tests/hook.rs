use herdr_analytics::agents::AgentStates;
use herdr_analytics::hook::{decode_event, event_hook, event_of, EventError, HookEvent};

fn status(raw: &str, at_ms: u64) -> herdr_analytics::agents::Transition {
    match decode_event(raw, at_ms) {
        Ok(HookEvent::StatusChanged(t)) => t,
        _ => panic!("a status change: {raw}"),
    }
}

fn event(pane: &str, status: &str) -> String {
    format!(r#"{{"type":"pane.agent_status_changed","data":{{"pane_id":"{pane}","agent":"aider","agent_status":"{status}"}}}}"#)
}

#[test]
fn working_then_idle_lifecycle_logs_one_completed_turn() {
    let raw = |s: &str| format!(r#"{{"pane_id":"w1:p1","agent":"aider","agent_status":"{s}"}}"#);
    let mut states = AgentStates::new();
    let first = event_hook(&mut states, &status(&raw("working"), 1_000));
    assert!(first.turn.is_none());
    let turn = event_hook(&mut states, &status(&raw("idle"), 4_000)).turn.unwrap();
    assert_eq!(turn.pane_id, "w1:p1");
    assert_eq!(turn.agent.as_deref(), Some("aider"));
    assert_eq!(turn.duration_ms, 3_000);
    assert_eq!(turn.finished_at_ms, 4_000);
    assert_eq!(turn.ended_by, "idle");
}

#[test]
fn blocked_transition_persists_session_state_file() {
    let mut states = AgentStates::new();
    let out = event_hook(&mut states, &status(&event("w1:p2", "blocked"), 5));
    assert_eq!(states.get("w1:p2").unwrap().status, "blocked");
    assert_eq!(out.notice.as_deref(), Some("aider blocked — needs input (w1:p2)"));
}

#[test]
fn envelope_wrapped_event_payload_is_accepted() {
    let wrapped = r#"{"type":"pane.agent_status_changed","data":{"pane_id":"w9:p9","agent":"codex","agent_status":"working"}}"#;
    let mut states = AgentStates::new();
    event_hook(&mut states, &status(wrapped, 1));
    let done = r#"{"type":"pane.agent_status_changed","data":{"pane_id":"w9:p9","agent_status":"done"}}"#;
    let out = event_hook(&mut states, &status(done, 9));
    let turn = out.turn.expect("envelope lifecycle closed a turn");
    assert_eq!(turn.agent, None);
    assert_eq!(turn.duration_ms, 8);
}

#[test]
fn missing_pane_id_fails_loudly_with_message() {
    let err = decode_event(r#"{"agent":"aider","agent_status":"idle"}"#, 0);
    assert!(matches!(err, Err(EventError::MissingPane)));
    assert!(EventError::MissingPane.message("{}").contains("pane_id"));
    // A pane that is no text names none either.
    assert!(matches!(decode_event(r#"{"pane_id":7}"#, 0), Err(EventError::MissingPane)));
    assert!(matches!(decode_event("[1,2]", 0), Err(EventError::MissingPane)));
}

#[test]
fn bad_json_is_refused() {
    match decode_event("{ \"cut", 0) {
        Err(err @ EventError::BadJson(_)) => {
            assert_eq!(err.message("{ \"cut"), r#"bad event JSON "{ \"cut""#);
        }
        _ => panic!("no document"),
    }
    assert!(matches!(decode_event("", 0), Err(EventError::BadJson(_))));
}

#[test]
fn missing_status_is_unknown() {
    let t = status(r#"{"pane_id":"p"}"#, 3);
    assert_eq!(t.status, "unknown");
    assert_eq!(t.agent, None);
    assert_eq!(t.at_ms, 3);
}

#[test]
fn output_matches_are_told_from_status_changes() {
    let raw = r#"{"type":"pane.output_matched","data":{"pane_id":"w1:p1"}}"#;
    match decode_event(raw, 0) {
        Ok(HookEvent::OutputMatched(pane)) => assert_eq!(pane, "w1:p1"),
        _ => panic!("an output match"),
    }
}

#[test]
fn documents_built_by_hand_are_read_alike() {
    let mut body = serde_json::Map::new();
    body.insert("pane_id".to_string(), serde_json::Value::String("p".to_string()));
    body.insert("agent_status".to_string(), serde_json::Value::String("idle".to_string()));
    match event_of(&serde_json::Value::Object(body), 4) {
        Some(HookEvent::StatusChanged(t)) => {
            assert_eq!(t.pane_id, "p");
            assert_eq!(t.status, "idle");
            assert_eq!(t.at_ms, 4);
        }
        _ => panic!("a status change"),
    }
    assert!(event_of(&serde_json::Value::Null, 4).is_none());
}

#[test]
fn working_blocked_working_lifecycle_records_turns_gaps_and_states() {
    let mut states = AgentStates::new();
    event_hook(&mut states, &status(&event("w1:p1", "working"), 100));
    let first = event_hook(&mut states, &status(&event("w1:p1", "blocked"), 200)).turn.unwrap();
    let resumed = event_hook(&mut states, &status(&event("w1:p1", "working"), 500));
    let second = event_hook(&mut states, &status(&event("w1:p1", "idle"), 900)).turn.unwrap();
    assert_eq!(first.ended_by, "blocked", "first turn ended by the block");
    assert_eq!(second.ended_by, "idle", "resumed turn ended by idle");
    assert!(resumed.turn.is_none());
    let gap = resumed.gap.expect("the resume lands a gap record");
    assert_eq!(gap.pane_id, "w1:p1");
    assert_eq!(gap.agent.as_deref(), Some("aider"));
    assert_eq!(gap.duration_ms, 300);
    assert_eq!(gap.started_at_ms, first.finished_at_ms, "gap starts when the block started");
    assert_eq!(states.get("w1:p1").unwrap().status, "idle");
    assert_eq!(states.get("w1:p1").unwrap().agent.as_deref(), Some("aider"));
}
