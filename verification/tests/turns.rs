use herdr_analytics::config::PluginPaths;
use herdr_analytics::jsonl::{append_line, read_lines};
use herdr_analytics::turns::{
    default_ended_by, gaps_countable, gaps_path, nearest_rank, rotate_logs, turn_stats, turns_path,
    GapRecord, TurnRecord, TURN_RETENTION_MS,
};

fn turn_line(pane: &str, agent: &str, finished: u64, duration: u64, ended_by: &str) -> TurnRecord {
    TurnRecord {
        pane_id: pane.to_string(),
        agent: Some(agent.to_string()),
        finished_at_ms: finished,
        duration_ms: duration,
        ended_by: ended_by.to_string(),
    }
}

fn gap(duration: u64) -> GapRecord {
    GapRecord { pane_id: "p1".to_string(), agent: None, started_at_ms: 0, duration_ms: duration }
}

fn float(d: Option<herdr_analytics::double::Double>) -> Option<f64> {
    d.map(|d| f64::from_bits(d.bits))
}

#[test]
fn turn_percentiles_use_nearest_rank() {
    // Durations 10..=100 step 10: nearest-rank p50 of 10 samples is the 5th, p95 the 10th.
    let lines: Vec<_> = (1..=10)
        .map(|i| turn_line("p", "aider", i * 1000, i * 10_000, "idle"))
        .collect();
    let stats = turn_stats(&lines, &vec![]).unwrap();
    assert_eq!(stats.completed, 10);
    assert_eq!(stats.p50_ms, Some(50_000));
    assert_eq!(stats.p95_ms, Some(100_000));
}

#[test]
fn by_agent_sorted_busiest_first_with_per_agent_percentiles() {
    let mut lines = vec![
        turn_line("p1", "aider", 1_000, 40_000, "idle"),
        turn_line("p1", "aider", 2_000, 60_000, "idle"),
        turn_line("p2", "codex", 3_000, 10_000, "done"),
    ];
    // aider gets a third turn so it outranks codex.
    lines.push(turn_line("p3", "aider", 4_000, 20_000, "idle"));
    let stats = turn_stats(&lines, &vec![]).unwrap();
    assert_eq!(stats.by_agent.len(), 2);
    assert_eq!(stats.by_agent[0].agent, "aider");
    assert_eq!(stats.by_agent[0].completed, 3);
    assert_eq!(stats.by_agent[0].p50_ms, Some(40_000));
    assert_eq!(stats.by_agent[1].agent, "codex");
    // Overall intervention rate: 0 blocked / 4 turns.
    assert_eq!(float(stats.intervention_rate), Some(0.0));
    assert_eq!(float(stats.zero_intervention_rate), Some(1.0));
}

#[test]
fn intervention_rate_counts_only_blocked_ended_turns() {
    let stats = turn_stats(
        &vec![
            turn_line("p1", "aider", 1_000, 40_000, "blocked"),
            turn_line("p1", "aider", 2_000, 60_000, "idle"),
            turn_line("p1", "aider", 3_000, 20_000, "blocked"),
            turn_line("p1", "aider", 4_000, 20_000, "done"),
        ],
        &vec![],
    )
    .unwrap();
    assert_eq!(float(stats.intervention_rate), Some(0.5));
    assert_eq!(float(stats.zero_intervention_rate), Some(0.5));
}

#[test]
fn rework_counts_short_turns_following_a_blocked_turn_in_same_pane() {
    let stats = turn_stats(
        &vec![
            // Blocked turn ends at 100_000 on pane p1.
            turn_line("p1", "aider", 100_000, 80_000, "blocked"),
            // Starts 30s later, lasts 2min: rework.
            turn_line("p1", "aider", 220_000, 120_000, "idle"),
            // Starts 20min after the block: outside the window.
            turn_line("p1", "aider", 1_400_000, 120_000, "idle"),
            // Short but follows nothing blocked on its own pane.
            turn_line("p2", "aider", 150_000, 60_000, "idle"),
            // Same window as the rework turn but long: not rework.
            turn_line("p1", "aider", 400_000, 600_000, "idle"),
        ],
        &vec![],
    )
    .unwrap();
    assert_eq!(stats.rework_turns, 1);
}

#[test]
fn human_latency_comes_from_gap_records_only() {
    let gaps = vec![gap(200_000), gap(50_000), gap(800_000)];
    let stats = turn_stats(&vec![], &gaps).unwrap();
    assert_eq!(stats.human_latency_p50_ms, Some(200_000));
    assert_eq!(stats.human_latency_total_ms, 1_050_000);
    assert_eq!(stats.completed, 0);
    assert_eq!(float(stats.intervention_rate), None);
}

#[test]
fn old_turn_lines_without_ended_by_parse_as_plain_turns() {
    let stats = turn_stats(
        &vec![turn_line("p1", "aider", 5_000, 5_000, &default_ended_by())],
        &vec![],
    )
    .unwrap();
    assert_eq!(stats.completed, 1);
    assert_eq!(
        float(stats.intervention_rate),
        Some(0.0),
        "legacy lines are not interventions"
    );
}

#[test]
fn no_log_records_yields_no_turn_stats() {
    assert!(turn_stats(&vec![], &vec![]).is_none());
}

#[test]
fn rotation_drops_old_records_and_keeps_recent() {
    let now = 1_790_000_000_000u64;
    let mut old = turn_line("p", "aider", now - TURN_RETENTION_MS - 1, 1, "idle");
    old.agent = None;
    let turns = vec![old, turn_line("p", "aider", now, 2, "idle")];
    let gaps = vec![GapRecord {
        pane_id: "p".to_string(),
        agent: None,
        started_at_ms: now - TURN_RETENTION_MS - 1,
        duration_ms: 9,
    }];
    let (turns, gaps) = rotate_logs(&turns, &gaps, now, TURN_RETENTION_MS);
    let turns = turns.unwrap();
    assert_eq!(turns.len(), 1);
    assert_eq!(turns[0].duration_ms, 2);
    assert!(gaps.unwrap().is_empty(), "stale gap dropped");
}

#[test]
fn rotation_leaves_fresh_logs_alone() {
    let now = 1_790_000_000_000u64;
    let turns = vec![turn_line("p", "aider", now - TURN_RETENTION_MS, 1, "idle")];
    let (t, g) = rotate_logs(&turns, &vec![], now, TURN_RETENTION_MS);
    assert!(t.is_none());
    assert!(g.is_none());
    // Before the retention has passed since the epoch everything is kept.
    let (t, _) = rotate_logs(&turns, &vec![], 5, TURN_RETENTION_MS);
    assert!(t.is_none());
}

#[test]
fn percentiles_take_the_nearest_rank() {
    assert_eq!(nearest_rank(&vec![], 50), None);
    assert_eq!(nearest_rank(&vec![7], 0), Some(7));
    assert_eq!(nearest_rank(&vec![1, 2], 50), Some(1));
    assert_eq!(nearest_rank(&vec![1, 2, 3], 50), Some(2));
    assert_eq!(nearest_rank(&vec![1, 2, 3], 100), Some(3));
    assert_eq!(nearest_rank(&vec![1, 2, 3, 4], 95), Some(4));
}

#[test]
fn equally_busy_agents_stand_by_name() {
    let stats = turn_stats(
        &vec![
            turn_line("p", "zed", 1, 1, "idle"),
            turn_line("p", "amp", 2, 2, "idle"),
            turn_line("p", "omp", 3, 3, "idle"),
            turn_line("p", "omp", 4, 9, "blocked"),
        ],
        &vec![],
    )
    .unwrap();
    let names: Vec<&str> = stats.by_agent.iter().map(|a| a.agent.as_str()).collect();
    assert_eq!(names, vec!["omp", "amp", "zed"]);
    assert_eq!(stats.by_agent[0].p50_ms, Some(3));
    assert_eq!(stats.by_agent[0].p95_ms, Some(9));
    assert_eq!(stats.by_agent.iter().map(|a| a.completed).sum::<u64>(), stats.completed);
    assert_eq!(float(stats.intervention_rate), Some(0.25));
    assert_eq!(float(stats.zero_intervention_rate), Some(0.75));
}

#[test]
fn rates_round_as_floats_do() {
    let mut turns = vec![turn_line("p", "a", 1, 1, "blocked")];
    turns.push(turn_line("p", "a", 2, 1, "idle"));
    turns.push(turn_line("p", "a", 3, 1, "idle"));
    let stats = turn_stats(&turns, &vec![]).unwrap();
    assert_eq!(float(stats.intervention_rate), Some(1.0 / 3.0));
    assert_eq!(float(stats.zero_intervention_rate), Some(1.0 - 1.0 / 3.0));
}

#[test]
fn turns_without_an_agent_count_as_agent() {
    let mut t = turn_line("p", "x", 1, 1, "idle");
    t.agent = None;
    let stats = turn_stats(&vec![t], &vec![]).unwrap();
    assert_eq!(stats.by_agent[0].agent, "agent");
}

#[test]
fn log_lines_read_back() {
    let mut log: Vec<u8> = Vec::new();
    append_line(&mut log, &b"{\"a\":1}".to_vec());
    append_line(&mut log, &b"x".to_vec());
    assert_eq!(log, b"{\"a\":1}\nx\n".to_vec());
    assert_eq!(read_lines(&log), vec![b"{\"a\":1}".to_vec(), b"x".to_vec()]);
    assert_eq!(read_lines(&b"\n\na\n\nb".to_vec()), vec![b"a".to_vec(), b"b".to_vec()]);
    assert!(read_lines(&vec![]).is_empty());
}

#[test]
fn logs_live_in_the_state_directory() {
    let paths = PluginPaths { state_dir: "/s/".to_string() };
    assert_eq!(turns_path(&paths), "/s/turns.jsonl");
    assert_eq!(gaps_path(&paths), "/s/gaps.jsonl");
}

#[test]
fn gaps_that_add_up_too_far_are_told() {
    assert!(gaps_countable(&vec![gap(u64::MAX)]));
    assert!(gaps_countable(&vec![]));
    assert!(!gaps_countable(&vec![gap(u64::MAX), gap(1)]));
}

#[test]
fn a_lone_turn_is_no_rework() {
    let stats = turn_stats(&vec![turn_line("p", "aider", 1_000, 0, "blocked")], &vec![]).unwrap();
    assert_eq!(stats.completed, 1);
    assert_eq!(float(stats.intervention_rate), Some(1.0));
    assert_eq!(stats.rework_turns, 0);
    // A second one that starts as it ends is, and so is the first: each follows the other.
    let twice = vec![
        turn_line("p", "aider", 1_000, 0, "blocked"),
        turn_line("p", "aider", 1_000, 0, "blocked"),
    ];
    assert_eq!(turn_stats(&twice, &vec![]).unwrap().rework_turns, 2);
}

#[test]
fn the_order_of_the_records_is_free() {
    let lines = vec![
        turn_line("p1", "aider", 100_000, 60_000, "blocked"),
        turn_line("p1", "aider", 250_000, 120_000, "idle"),
        turn_line("p2", "codex", 300_000, 10_000, "done"),
        turn_line("p3", "codex", 300_000, 700_000, "blocked"),
        turn_line("p3", "amp", 310_000, 5_000, "idle"),
    ];
    let gaps = vec![gap(7_000), gap(1_000), gap(4_000)];
    let order = [3, 0, 4, 2, 1];
    let mixed: Vec<TurnRecord> = order
        .iter()
        .map(|i: &usize| {
            let t = &lines[*i];
            turn_line(
                &t.pane_id,
                t.agent.as_deref().unwrap(),
                t.finished_at_ms,
                t.duration_ms,
                &t.ended_by,
            )
        })
        .collect();
    let straight = turn_stats(&lines, &gaps).unwrap();
    let shuffled = turn_stats(&mixed, &vec![gap(4_000), gap(7_000), gap(1_000)]).unwrap();
    assert_eq!(straight.rework_turns, 2);
    assert_eq!(format!("{straight:?}"), format!("{shuffled:?}"));
}
