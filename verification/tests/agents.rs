use herdr_analytics::agents::{
    apply_transition, can_record, evaluate_tips, human_dur, record_output_match, session_key,
    states_path, store_states, AgentStates, Transition, BLOCKED_NAG_SECS, BLOCKED_TIP_SECS,
    LONG_TURN_SECS,
};
use herdr_analytics::config::{session_of_file, PluginPaths};
use herdr_analytics::watch::{merge_loop_alerts, LoopAlert, LoopAlerts};

fn tr(pane: &str, status: &str, at_ms: u64) -> Transition {
    Transition {
        pane_id: pane.to_string(),
        agent: Some("aider".to_string()),
        status: status.to_string(),
        at_ms,
    }
}

fn mark_notified(states: &mut AgentStates, pane: &str, at: u64) {
    let s = states.get(pane).unwrap();
    let marked = herdr_analytics::agents::AgentState {
        pane_id: s.pane_id.clone(),
        agent: s.agent.clone(),
        status: s.status.clone(),
        since_ms: s.since_ms,
        last_notified_ms: Some(at),
    };
    states.insert(pane.to_string(), marked);
}

#[test]
fn blocked_transition_notifies_immediately() {
    let mut states = AgentStates::new();
    let r = apply_transition(&mut states, &tr("w1:p1", "blocked", 1_000));
    assert!(r.entered_blocked);
    assert!(r.completed_turn_ms.is_none());
}

#[test]
fn daemon_tip_waits_for_blocked_threshold() {
    let mut states = AgentStates::new();
    apply_transition(&mut states, &tr("w1:p1", "blocked", 0));
    // Under 5 minutes: silence — the hook already notified on the transition.
    assert!(evaluate_tips(&states, 4 * 60 * 1000).is_empty());
    let tips = evaluate_tips(&states, 6 * 60 * 1000);
    assert_eq!(tips.len(), 1);
    assert!(tips[0].urgent, "a long-blocked agent is urgent");
    assert!(tips[0].message.contains("blocked"));
}

#[test]
fn blocked_nag_respects_rate_limit() {
    let mut states = AgentStates::new();
    apply_transition(&mut states, &tr("w1:p1", "blocked", 0));
    mark_notified(&mut states, "w1:p1", 6 * 60 * 1000);
    // Notified 4 minutes ago: no repeat.
    assert!(evaluate_tips(&states, 10 * 60 * 1000).is_empty());
    // Notified 16 minutes ago: nag again.
    assert_eq!(evaluate_tips(&states, 22 * 60 * 1000).len(), 1);
}

#[test]
fn long_working_turn_flags_non_urgent_tip() {
    let mut states = AgentStates::new();
    apply_transition(&mut states, &tr("w1:p1", "working", 0));
    assert!(evaluate_tips(&states, 44 * 60 * 1000).is_empty());
    let tips = evaluate_tips(&states, 50 * 60 * 1000);
    assert_eq!(tips.len(), 1);
    assert!(!tips[0].urgent, "long turns advise, they do not alarm");
}

#[test]
fn turn_completion_measures_working_span() {
    let mut states = AgentStates::new();
    apply_transition(&mut states, &tr("w1:p1", "working", 0));
    let r = apply_transition(&mut states, &tr("w1:p1", "idle", 600_000));
    assert_eq!(r.completed_turn_ms, Some(600_000));
}

#[test]
fn idle_to_idle_transition_is_not_a_turn() {
    let mut states = AgentStates::new();
    apply_transition(&mut states, &tr("w1:p1", "idle", 0));
    let r = apply_transition(&mut states, &tr("w1:p1", "idle", 999_999));
    assert!(!r.entered_blocked);
    assert_eq!(r.completed_turn_ms, None);
}

#[test]
fn done_after_working_also_closes_the_turn() {
    let mut states = AgentStates::new();
    apply_transition(&mut states, &tr("w1:p1", "working", 0));
    let r = apply_transition(&mut states, &tr("w1:p1", "done", 300_000));
    assert_eq!(r.completed_turn_ms, Some(300_000));
}

#[test]
fn blocked_interrupts_working_and_closes_the_segment() {
    let mut states = AgentStates::new();
    apply_transition(&mut states, &tr("w1:p1", "working", 0));
    let r = apply_transition(&mut states, &tr("w1:p1", "blocked", 120_000));
    // Both matter: the pause cost a 2-minute segment AND the agent needs input.
    assert!(r.entered_blocked);
    assert_eq!(r.completed_turn_ms, Some(120_000));
}

#[test]
fn same_pane_id_in_two_sessions_stays_isolated() {
    let paths = PluginPaths { state_dir: "/tmp/nowhere".to_string() };
    // Both sessions run a pane literally named w1:p1.
    let mut session_a = AgentStates::new();
    apply_transition(&mut session_a, &tr("w1:p1", "working", 100));
    let mut session_b = AgentStates::new();
    apply_transition(&mut session_b, &tr("w1:p1", "blocked", 200));
    let a = store_states(&paths, "session-a");
    let b = store_states(&paths, "session-b");
    assert_ne!(a.target, b.target);
    assert_eq!(a.tmp, "/tmp/nowhere/agent-states-session-a.json.tmp");
    assert_eq!(session_a.get("w1:p1").expect("a kept its pane").status, "working");
    assert_eq!(session_b.get("w1:p1").expect("b kept its pane").status, "blocked");
}

#[test]
fn blocked_tip_fires_exactly_at_threshold_but_not_one_ms_before() {
    let mut states = AgentStates::new();
    apply_transition(&mut states, &tr("w1:p1", "blocked", 0));
    let threshold = BLOCKED_TIP_SECS * 1000;
    assert!(evaluate_tips(&states, threshold - 1).is_empty());
    assert_eq!(evaluate_tips(&states, threshold).len(), 1);
}

#[test]
fn blocked_nag_fires_exactly_at_interval_but_not_one_ms_before() {
    let mut states = AgentStates::new();
    apply_transition(&mut states, &tr("w1:p1", "blocked", 0));
    let notified = 5 * 60 * 1000;
    mark_notified(&mut states, "w1:p1", notified);
    let interval = BLOCKED_NAG_SECS * 1000;
    assert!(evaluate_tips(&states, notified + interval - 1).is_empty());
    assert_eq!(evaluate_tips(&states, notified + interval).len(), 1);
}

#[test]
fn long_turn_tip_fires_exactly_at_threshold_and_stays_non_urgent() {
    let mut states = AgentStates::new();
    apply_transition(&mut states, &tr("w1:p1", "working", 0));
    let threshold = LONG_TURN_SECS * 1000;
    assert!(evaluate_tips(&states, threshold - 1).is_empty());
    let tips = evaluate_tips(&states, threshold);
    assert_eq!(tips.len(), 1);
    assert!(!tips[0].urgent);
}

#[test]
fn unknown_start_status_is_recorded_without_side_effects() {
    let mut states = AgentStates::new();
    let r = apply_transition(&mut states, &tr("w1:p1", "mystery", 500));
    assert!(!r.entered_blocked);
    assert_eq!(r.completed_turn_ms, None);
    assert_eq!(states.get("w1:p1").unwrap().status, "mystery");
}

#[test]
fn human_dur_formats_minutes_hours_and_zero() {
    assert_eq!(human_dur(0), "0m");
    assert_eq!(human_dur(59_999), "0m");
    assert_eq!(human_dur(60_000), "1m");
    assert_eq!(human_dur(45 * 60_000), "45m");
    assert_eq!(human_dur(60 * 60_000), "1h0m");
    assert_eq!(human_dur(90 * 60_000), "1h30m");
}

#[test]
fn states_path_names_files_by_session_key() {
    let paths = PluginPaths { state_dir: "/tmp/nowhere".to_string() };
    assert_eq!(
        states_path(&paths, "sock-abc"),
        "/tmp/nowhere/agent-states-sock-abc.json"
    );
}

#[test]
fn resuming_work_after_blocked_measures_the_gap() {
    let mut states = AgentStates::new();
    apply_transition(&mut states, &tr("w1:p1", "working", 0));
    apply_transition(&mut states, &tr("w1:p1", "blocked", 120_000));
    let r = apply_transition(&mut states, &tr("w1:p1", "working", 420_000));
    assert_eq!(r.resumed_from_blocked_ms, Some(300_000));
    assert!(!r.entered_blocked);
    // Blocked -> idle is not a resume.
    apply_transition(&mut states, &tr("w1:p1", "blocked", 500_000));
    let r = apply_transition(&mut states, &tr("w1:p1", "idle", 600_000));
    assert_eq!(r.resumed_from_blocked_ms, None);
}

#[test]
fn distinct_socket_paths_produce_distinct_state_files() {
    let paths = PluginPaths { state_dir: "/state".to_string() };
    let one = session_key("/tmp/sess one/a");
    let other = session_key("/tmp/sess-two/b");
    // Non-alphanumeric socket chars sanitize to '-', trimmed at the edges.
    assert_eq!(states_path(&paths, &one), "/state/agent-states-tmp-sess-one-a.json");
    assert_eq!(states_path(&paths, &other), "/state/agent-states-tmp-sess-two-b.json");
    assert_eq!(session_of_file("agent-states-tmp-sess-one-a.json"), Some(one));
}

#[test]
fn session_keys_default_and_settle() {
    assert_eq!(session_key(""), "default");
    assert_eq!(session_key("///"), "default");
    assert_eq!(session_key("-"), "default");
    assert_eq!(session_key("é"), "default");
    assert_eq!(session_key("a.b_c"), "a-b-c");
    assert_eq!(session_key(&session_key("/run/x.sock")), "run-x-sock");
}

#[test]
fn session_files_are_told_from_others() {
    assert_eq!(session_of_file("agent-states-default.json"), Some("default".to_string()));
    assert_eq!(session_of_file("agent-states-.json"), Some(String::new()));
    assert_eq!(session_of_file("agent-states-default.json.tmp"), None);
    assert_eq!(session_of_file("agent-states.json"), None);
    assert_eq!(session_of_file("tips.json"), None);
    assert_eq!(session_of_file(""), None);
}

#[test]
fn tips_name_the_agent_and_how_long() {
    let mut states = AgentStates::new();
    apply_transition(&mut states, &tr("b", "blocked", 0));
    let mut t = tr("a", "working", 0);
    t.agent = None;
    apply_transition(&mut states, &t);
    let tips = evaluate_tips(&states, 90 * 60_000);
    assert_eq!(tips.len(), 2);
    // Panes come in the order of their ids.
    assert_eq!(tips[0].pane_id, "a");
    assert_eq!(
        tips[0].message,
        "agent has been working 1h30m on one turn — consider checking in or splitting the task"
    );
    assert_eq!(tips[1].message, "aider has been blocked 1h30m — it needs input");
}

#[test]
fn three_output_matches_are_a_loop_and_silence_starts_over() {
    let mut alerts = LoopAlerts::new();
    record_output_match(&mut alerts, "w1:p1", 1_000);
    record_output_match(&mut alerts, "w1:p1", 2_000);
    assert!(merge_loop_alerts(&alerts, 2_000).0.is_empty());
    record_output_match(&mut alerts, "w1:p1", 602_000);
    assert_eq!(alerts.get("w1:p1").unwrap().count, 3);
    assert_eq!(alerts.get("w1:p1").unwrap().first_at_ms, 1_000);
    assert_eq!(merge_loop_alerts(&alerts, 602_000).0.len(), 1);
    record_output_match(&mut alerts, "w1:p1", 1_202_001);
    assert_eq!(alerts.get("w1:p1").unwrap().count, 1);
    assert_eq!(alerts.get("w1:p1").unwrap().first_at_ms, 1_202_001);
}

#[test]
fn a_full_streak_stops_only_the_matches_that_go_on_with_it() {
    let mut alerts = LoopAlerts::new();
    assert!(can_record(&alerts, "w1:p1", 0));
    alerts.insert(
        "w1:p1".to_string(),
        LoopAlert { count: u64::MAX, first_at_ms: 0, last_at_ms: 1_000 },
    );
    assert!(can_record(&alerts, "w1:p2", 1_000));
    assert!(!can_record(&alerts, "w1:p1", 601_000));
    assert!(can_record(&alerts, "w1:p1", 601_001));
    record_output_match(&mut alerts, "w1:p1", 601_001);
    assert_eq!(alerts.get("w1:p1").unwrap().count, 1);
    assert_eq!(alerts.get("w1:p1").unwrap().first_at_ms, 601_001);
    assert!(can_record(&alerts, "w1:p1", 601_001));
}
