use herdr_analytics::agents::{apply_transition, AgentStates, Tip, Transition};
use herdr_analytics::config::Config;
use herdr_analytics::double::Double;
use herdr_analytics::live::PaneChurn;
use herdr_analytics::textmap::TextMap;
use herdr_analytics::watch::{
    evaluate_budget_alerts, merge_loop_alerts, refresh_tips, suppress_churning_tips, Action,
    AlertState, LoopAlert, LoopAlerts, RefreshInput, LOOP_WINDOW_MS,
};

fn num(x: f64) -> Double {
    Double { bits: x.to_bits() }
}

fn cfg(daily: Option<f64>, burn: f64) -> Config {
    Config {
        scan_interval_secs: 900,
        daily_cost_usd: daily.map(num),
        block_burn_rate_usd_hr: num(burn),
        context_bloat_tokens: 100_000,
    }
}

fn tip(pane: &str, message: &str, urgent: bool) -> Tip {
    Tip { pane_id: pane.into(), message: message.into(), urgent }
}

#[test]
fn daily_budget_alert_fires_once_per_local_day() {
    let c = cfg(Some(10.0), 15.0);
    let (tips, s1) = evaluate_budget_alerts(
        Some(num(12.0)),
        None,
        &c,
        &AlertState::default(),
        1_000,
        "2026-08-21",
    );
    assert_eq!(tips.len(), 1);
    assert!(tips[0].urgent);
    assert_eq!(s1.last_daily_date.as_deref(), Some("2026-08-21"));

    // Same local day, cost climbs further: suppressed.
    let (tips, s2) = evaluate_budget_alerts(Some(num(20.0)), None, &c, &s1, 2_000, "2026-08-21");
    assert!(tips.is_empty());

    // Next local day: fires again.
    let (tips, _) = evaluate_budget_alerts(Some(num(20.0)), None, &c, &s2, 3_000, "2026-08-22");
    assert_eq!(tips.len(), 1);
}

#[test]
fn daily_budget_alert_silent_under_limit_or_without_limit_or_cost() {
    let c = cfg(Some(10.0), 15.0);
    let (tips, _) =
        evaluate_budget_alerts(Some(num(9.99)), None, &c, &AlertState::default(), 0, "d");
    assert!(tips.is_empty());
    let (tips, _) = evaluate_budget_alerts(
        Some(num(99.0)),
        None,
        &cfg(None, 15.0),
        &AlertState::default(),
        0,
        "d",
    );
    assert!(tips.is_empty());
    let (tips, _) = evaluate_budget_alerts(None, None, &c, &AlertState::default(), 0, "d");
    assert!(tips.is_empty());
}

#[test]
fn burn_rate_alert_fires_at_most_once_per_hour() {
    let c = cfg(None, 15.0);
    let (tips, s1) =
        evaluate_budget_alerts(None, Some(num(20.0)), &c, &AlertState::default(), 0, "d");
    assert_eq!(tips.len(), 1);
    assert!(tips[0].urgent);

    // 59 minutes later: still suppressed.
    let (tips, _) = evaluate_budget_alerts(None, Some(num(25.0)), &c, &s1, 59 * 60 * 1000, "d");
    assert!(tips.is_empty());

    // One hour after the last alert: fires again.
    let (tips, _) = evaluate_budget_alerts(None, Some(num(25.0)), &c, &s1, 3_600_000, "d");
    assert_eq!(tips.len(), 1);
}

#[test]
fn burn_rate_alert_silent_at_or_under_threshold() {
    let c = cfg(None, 15.0);
    for rate in [0.0, 14.99, 15.0] {
        let (tips, _) =
            evaluate_budget_alerts(None, Some(num(rate)), &c, &AlertState::default(), 0, "d");
        assert!(tips.is_empty(), "rate {rate} must not alert");
    }
}

#[test]
fn loop_alerts_tip_when_frequent_and_fresh_and_prune_stale_entries() {
    let mut alerts = LoopAlerts::new();
    alerts.insert("w1:p1".into(), LoopAlert { count: 3, first_at_ms: 0, last_at_ms: 1_000 });
    alerts.insert("w1:p2".into(), LoopAlert { count: 2, first_at_ms: 0, last_at_ms: 1_000 });
    alerts.insert("old:p3".into(), LoopAlert { count: 9, first_at_ms: 0, last_at_ms: 0 });
    let now = LOOP_WINDOW_MS + 500;
    let (tips, kept) = merge_loop_alerts(&alerts, now);
    assert_eq!(tips.len(), 1);
    assert_eq!(tips[0].pane_id, "w1:p1");
    assert!(tips[0].urgent);
    assert!(tips[0].message.contains("retry loop"));
    // Stale entry pruned; fresh but infrequent entry kept without a tip.
    assert!(kept.get("old:p3").is_none());
    assert_eq!(kept.len(), 2);
}

#[test]
fn long_turn_tip_on_churning_pane_becomes_progress_note() {
    let tips = vec![
        tip("w1:p1", "omp has been working 12m on one turn", false),
        tip("w1:p2", "aider has been working 11m on one turn", false),
        tip("w1:p3", "codex has been blocked 6m", true),
    ];
    let mut churn: TextMap<u64> = TextMap::new();
    churn.insert("w1:p1".to_string(), 50);
    churn.insert("w1:p3".to_string(), 99);
    let out = suppress_churning_tips(tips, &churn);
    assert!(out[0].message.contains("still producing output"));
    assert!(!out[0].urgent);
    // Below the churn threshold: the advice is kept.
    assert_eq!(out[1].message, "aider has been working 11m on one turn");
    // Urgent tips are never rewritten, even at high churn.
    assert_eq!(out[2].message, "codex has been blocked 6m");
}

#[test]
fn churn_below_the_threshold_keeps_the_advice() {
    let mut churn: TextMap<u64> = TextMap::new();
    churn.insert("p".to_string(), 49);
    let out = suppress_churning_tips(vec![tip("p", "m", false)], &churn);
    assert_eq!(out[0].message, "m");
}

#[test]
fn budget_tips_say_the_figures() {
    let c = cfg(Some(10.0), 15.0);
    let (tips, next) = evaluate_budget_alerts(
        Some(num(12.345)),
        Some(num(15.5)),
        &c,
        &AlertState::default(),
        7,
        "2026-08-21",
    );
    assert_eq!(tips.len(), 2);
    assert_eq!(
        tips[0].message,
        format!("today's cost ${:.2} passed the ${:.2} daily budget", 12.345, 10.0)
    );
    assert_eq!(tips[1].message, "burn rate $15.50/hr exceeds $15.00/hr");
    assert_eq!(tips[1].pane_id, "budget");
    assert_eq!(next.last_burn_at_ms, Some(7));
    // What is no number compares with nothing.
    let (tips, _) = evaluate_budget_alerts(
        Some(num(f64::NAN)),
        Some(num(f64::NAN)),
        &c,
        &AlertState::default(),
        7,
        "d",
    );
    assert!(tips.is_empty());
}

fn quiet_input(now: u64) -> RefreshInput {
    RefreshInput {
        now_ms: now,
        today: "2026-08-21".to_string(),
        churn: vec![],
        sessions: vec![],
        loop_alerts: LoopAlerts::new(),
        config: cfg(None, 15.0),
        alert_state: AlertState::default(),
        today_cost_usd: None,
        burn_rate_usd_per_hr: None,
    }
}

fn working(pane: &str, status: &str) -> Transition {
    Transition { pane_id: pane.into(), agent: None, status: status.into(), at_ms: 0 }
}

#[test]
fn a_quiet_refresh_writes_the_bookkeeping_and_no_tips() {
    let actions = refresh_tips(&quiet_input(5));
    assert_eq!(actions.len(), 2);
    assert!(matches!(&actions[0], Action::StoreAlertState(s) if s.last_burn_at_ms.is_none()));
    assert!(matches!(&actions[1], Action::StoreTips(t) if t.items.is_empty() && t.generated_at_ms == 5));
}

#[test]
fn a_refresh_notifies_marks_prunes_and_publishes_in_order() {
    let now = 3_000_000;
    let mut states = AgentStates::new();
    apply_transition(&mut states, &working("w1:p1", "blocked"));
    apply_transition(&mut states, &working("w1:p2", "working"));
    let mut input = quiet_input(now);
    input.sessions = vec![("sock".to_string(), states), ("idle".to_string(), AgentStates::new())];
    input.churn = vec![PaneChurn {
        pane_id: "w1:p2".to_string(),
        agent: None,
        status: "working".to_string(),
        revision_delta: 60,
    }];
    input.loop_alerts.insert(
        "w1:p9".to_string(),
        LoopAlert { count: 4, first_at_ms: now - 10, last_at_ms: now - 1 },
    );
    input.loop_alerts.insert(
        "gone".to_string(),
        LoopAlert { count: 4, first_at_ms: 0, last_at_ms: 0 },
    );
    input.burn_rate_usd_per_hr = Some(num(16.0));
    let actions = refresh_tips(&input);
    assert_eq!(actions.len(), 7);
    assert!(matches!(&actions[0], Action::Notify(m) if m == "agent has been blocked 50m — it needs input"));
    match &actions[1] {
        Action::StoreStates(session, states) => {
            assert_eq!(session, "sock");
            assert_eq!(states.get("w1:p1").unwrap().last_notified_ms, Some(now));
            assert_eq!(states.get("w1:p2").unwrap().last_notified_ms, None);
        }
        _ => panic!("states are written after the notification"),
    }
    assert!(matches!(&actions[2], Action::StoreLoopAlerts(a) if a.len() == 1));
    assert!(matches!(&actions[3], Action::Notify(m)
        if m == "retry loop suspected (4 output matches) — check the pane"));
    assert!(matches!(&actions[4], Action::StoreAlertState(s) if s.last_burn_at_ms == Some(now)));
    assert!(matches!(&actions[5], Action::Notify(m)
        if m == "burn rate $16.00/hr exceeds $15.00/hr"));
    match &actions[6] {
        Action::StoreTips(tips) => {
            let messages: Vec<&str> = tips.items.iter().map(|t| t.message.as_str()).collect();
            assert_eq!(
                messages,
                vec![
                    "[sock] agent has been blocked 50m — it needs input",
                    "[sock] still producing output — long turn in progress",
                    "retry loop suspected (4 output matches) — check the pane",
                    "burn rate $16.00/hr exceeds $15.00/hr",
                ]
            );
        }
        _ => panic!("the tips are published last"),
    }
}

#[test]
fn daemon_folds_fresh_loop_alerts_into_published_tips() {
    let now = 1_000_000;
    let mut input = quiet_input(now);
    input.loop_alerts.insert(
        "w1:p1".to_string(),
        LoopAlert { count: 3, first_at_ms: now, last_at_ms: now },
    );
    match refresh_tips(&input).last() {
        Some(Action::StoreTips(tips)) => {
            let tip = tips.items.iter().find(|t| t.message.contains("retry loop")).unwrap();
            assert_eq!(tip.pane_id, "w1:p1");
            assert!(tip.urgent);
        }
        _ => panic!("the tips are published last"),
    }
}

#[test]
fn watch_flags_fresh_retry_loop_as_urgent_tip() {
    let now = 3_600_000;
    let mut input = quiet_input(now);
    input.loop_alerts.insert(
        "w9:p9".to_string(),
        LoopAlert { count: 3, first_at_ms: now - 120_000, last_at_ms: now - 30_000 },
    );
    let actions = refresh_tips(&input);
    match actions.last() {
        Some(Action::StoreTips(tips)) => {
            let tip = tips.items.iter().find(|t| t.pane_id == "w9:p9").expect("tip for the looping pane");
            assert!(tip.urgent);
            assert!(tip.message.contains("retry loop"));
        }
        _ => panic!("the tips are published last"),
    }
}

#[test]
fn a_notified_pane_rests_for_a_quarter_of_an_hour() {
    let mut states = AgentStates::new();
    apply_transition(&mut states, &working("w1:p1", "blocked"));
    let mut input = quiet_input(400_000);
    input.sessions = vec![("s".to_string(), states)];
    let marked = refresh_tips(&input)
        .into_iter()
        .find_map(|a| match a {
            Action::StoreStates(_, states) => Some(states),
            _ => None,
        })
        .unwrap();
    let again = |now: u64, states: &AgentStates| {
        let mut input = quiet_input(now);
        input.sessions = vec![("s".to_string(), states.clone())];
        refresh_tips(&input).len()
    };
    assert_eq!(again(400_000 + 899_999, &marked), 2, "nothing but the bookkeeping");
    assert_eq!(again(400_000 + 900_000, &marked), 4, "the nag, and the states with its time");
}

#[test]
fn a_refresh_sends_its_urgent_tips_once_each() {
    let mut first = AgentStates::new();
    apply_transition(&mut first, &working("w1:p1", "blocked"));
    apply_transition(&mut first, &working("w1:p2", "working"));
    let mut second = AgentStates::new();
    apply_transition(&mut second, &working("w1:p1", "blocked"));
    let mut input = quiet_input(3_600_000);
    input.sessions = vec![("a".to_string(), first), ("b".to_string(), second)];
    input.loop_alerts.insert(
        "w9:p9".to_string(),
        LoopAlert { count: 3, first_at_ms: 3_599_000, last_at_ms: 3_599_500 },
    );
    input.config = cfg(Some(1.0), 15.0);
    input.today_cost_usd = Some(num(2.0));
    let actions = refresh_tips(&input);
    let sent: Vec<&str> = actions
        .iter()
        .filter_map(|a| match a {
            Action::Notify(text) => Some(text.as_str()),
            _ => None,
        })
        .collect();
    let published = match actions.last() {
        Some(Action::StoreTips(tips)) => &tips.items,
        _ => panic!("publishing comes last"),
    };
    let urgent: Vec<&str> =
        published.iter().filter(|t| t.urgent).map(|t| t.message.as_str()).collect();
    assert_eq!(published.len(), 5);
    assert_eq!(urgent.len(), 4);
    assert_eq!(urgent[0], format!("[a] {}", sent[0]));
    assert_eq!(urgent[1], format!("[b] {}", sent[1]));
    assert_eq!(urgent[2..], sent[2..]);
}
