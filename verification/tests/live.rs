use herdr_analytics::live::{
    agents_listed, compute_fleet, sample, snapshot_agents, FleetSnapshot, RawAgent,
};
use herdr_analytics::textmap::TextMap;

const AGENTS: &str = r#"[
    {"agent":"omp","agent_status":"working","pane_id":"w1:p1","revision":100},
    {"agent":"aider","agent_status":"blocked","pane_id":"w1:p2","revision":7},
    {"agent":null,"agent_status":"idle","pane_id":"w2:p1","revision":3},
    {"agent":"codex","agent_status":"done","pane_id":"w2:p2","revision":9}
]"#;

fn listed(agents_json: &str) -> Option<Vec<RawAgent>> {
    let doc: serde_json::Value = serde_json::from_str(agents_json).ok()?;
    agents_listed(&doc)
}

fn fleet_of(agents_json: &str, prev: &TextMap<u64>) -> (FleetSnapshot, TextMap<u64>) {
    compute_fleet(listed(agents_json), prev, 1)
}

fn answer(agents_json: &str) -> String {
    format!(r#"{{"id":"cli:api:snapshot","result":{{"snapshot":{{"agents":{agents_json}}}}}}}"#)
}

#[test]
fn counts_working_blocked_idle_and_ignores_other_statuses() {
    let (fleet, _) = fleet_of(AGENTS, &TextMap::new());
    assert_eq!((fleet.working, fleet.blocked, fleet.idle), (1, 1, 1));
    assert_eq!(fleet.churn.len(), 4);
    assert!(fleet.sampled_at_ms > 0);
}

#[test]
fn churn_delta_is_absolute_difference_against_previous_revisions() {
    let mut prev: TextMap<u64> = TextMap::new();
    prev.insert("w1:p1".to_string(), 40);
    prev.insert("w1:p2".to_string(), 50);
    let (fleet, _) = fleet_of(AGENTS, &prev);
    let delta = |pane: &str| {
        fleet.churn.iter().find(|c| c.pane_id == pane).unwrap().revision_delta
    };
    assert_eq!(delta("w1:p1"), 60);
    // Revision went backward (pane restart): churn is still non-negative.
    assert_eq!(delta("w1:p2"), 43);
    // Pane unseen last sample: zero delta.
    assert_eq!(delta("w2:p1"), 0);
}

#[test]
fn next_revisions_prune_vanished_panes() {
    let mut prev: TextMap<u64> = TextMap::new();
    prev.insert("gone:p9".to_string(), 5);
    let (_, next) = fleet_of(AGENTS, &prev);
    assert!(next.get("gone:p9").is_none());
    assert_eq!(next.get("w1:p1"), Some(&100));
}

#[test]
fn malformed_agents_json_degrades_to_empty_fleet() {
    let (fleet, next) = fleet_of("not json", &TextMap::new());
    assert_eq!(fleet.working + fleet.blocked + fleet.idle, 0);
    assert!(fleet.churn.is_empty());
    assert_eq!(next.len(), 0);
}

#[test]
fn extra_snapshot_fields_are_ignored() {
    let raw = r#"[{"agent":"omp","agent_status":"working","pane_id":"p",
        "revision":1,"workspace_id":"w","tokens":42,"focused":true}]"#;
    let (fleet, next) = fleet_of(raw, &TextMap::new());
    assert_eq!(fleet.working, 1);
    assert_eq!(next.get("p"), Some(&1));
}

#[test]
fn agents_are_read_whole_or_not_at_all() {
    let one = listed(r#"[{"agent_status":"idle","pane_id":"p","revision":18446744073709551615}]"#);
    let one = one.unwrap();
    assert_eq!(one.len(), 1);
    assert_eq!(one[0].agent, None);
    assert_eq!(one[0].revision, u64::MAX);
    let parts = listed(r#"[["omp","idle","p",3],[null,"idle","q",4]]"#).unwrap();
    assert_eq!(parts[0].agent.as_deref(), Some("omp"));
    assert_eq!(parts[1].pane_id, "q");
    assert_eq!(parts[1].revision, 4);
    assert!(listed("[]").unwrap().is_empty());
    for bad in [
        "{}",
        r#"[7]"#,
        r#"[["omp","idle","p"]]"#,
        r#"[["omp","idle","p",3,4]]"#,
        r#"[{"agent":7,"agent_status":"idle","pane_id":"p","revision":1}]"#,
        r#"[{"agent_status":null,"pane_id":"p","revision":1}]"#,
        r#"[{"agent_status":"idle","revision":1}]"#,
        r#"[{"agent_status":"idle","pane_id":"p"}]"#,
        r#"[{"agent_status":"idle","pane_id":"p","revision":-1}]"#,
        r#"[{"agent_status":"idle","pane_id":"p","revision":1.5}]"#,
        r#"[{"agent_status":"idle","pane_id":"p","revision":1},{}]"#,
    ] {
        assert!(listed(bad).is_none(), "{bad}");
    }
}

#[test]
fn the_host_answers_with_a_list_of_agents() {
    let doc: serde_json::Value = serde_json::from_str(&answer(r#"[{"pane_id":"p"}]"#)).unwrap();
    assert_eq!(snapshot_agents(&doc).unwrap().to_string(), r#"[{"pane_id":"p"}]"#);
    let doc: serde_json::Value = serde_json::from_str(&answer("{}")).unwrap();
    assert!(snapshot_agents(&doc).is_none());
    let doc: serde_json::Value = serde_json::from_str(r#"{"result":{}}"#).unwrap();
    assert!(snapshot_agents(&doc).is_none());
    assert!(snapshot_agents(&serde_json::Value::Null).is_none());
}

#[test]
fn samples_follow_the_answer_of_the_host() {
    let mut prev: TextMap<u64> = TextMap::new();
    prev.insert("w1:p1".to_string(), 40);
    let (fleet, next) = sample(&answer(AGENTS), &prev, 9).unwrap();
    assert_eq!(fleet.working, 1);
    assert_eq!(fleet.sampled_at_ms, 9);
    assert_eq!(fleet.churn[0].revision_delta, 60);
    assert_eq!(next.len(), 4);
    // A list that cannot be read, no list, no document: no sample.
    assert!(sample(&answer("[1]"), &prev, 9).is_none());
    assert!(sample(&answer("7"), &prev, 9).is_none());
    assert!(sample("{}", &prev, 9).is_none());
    assert!(sample("", &prev, 9).is_none());
}

#[test]
fn unreadable_agents_keep_the_previous_revisions() {
    let mut prev: TextMap<u64> = TextMap::new();
    prev.insert("p".to_string(), 5);
    let (_, next) = compute_fleet(None, &prev, 1);
    assert_eq!(next.get("p"), Some(&5));
    assert_eq!(FleetSnapshot::default().sampled_at_ms, 0);
}

#[test]
fn churn_stands_by_pane_and_a_repeat_is_quiet() {
    let list = r#"[[null,"idle","z",4],[null,"idle","a",9]]"#;
    let (first, next) = fleet_of(list, &TextMap::new());
    let panes: Vec<&str> = first.churn.iter().map(|c| c.pane_id.as_str()).collect();
    assert_eq!(panes, vec!["a", "z"]);
    let (second, _) = fleet_of(list, &next);
    assert!(second.churn.iter().all(|c| c.revision_delta == 0));
    assert_eq!(second.idle, 2);
}
