use herdr_analytics::agents::Tip;
use herdr_analytics::double::Double;
use herdr_analytics::projects::ProjectStats;
use herdr_analytics::render::{
    generated_label, human_tokens, load_report, percent, rel_time, render_text, window_label,
    SNAPSHOT_MAX_AGE_MS,
};
use herdr_analytics::report::{failed_report, Filters, Report};
use herdr_analytics::textmap::TextMap;
use herdr_analytics::tips::Tips;
use herdr_analytics::usage::{ModelDigest, ProjectUsage, SourceDigest, UsageDigest};

const NOW: u64 = 10_000_000_000;

fn num(x: f64) -> Double {
    Double { bits: x.to_bits() }
}

fn counts(list: &[(&str, u64)]) -> TextMap<u64> {
    let mut m = TextMap::new();
    for (k, v) in list {
        m.insert(k.to_string(), *v);
    }
    m
}

fn sample_report() -> Report {
    let mut rep = failed_report(NOW, None, "");
    rep.projects = vec![
        ProjectStats {
            project: "alpha".into(),
            sessions: 3,
            messages: 42,
            active_ms: 7_200_000,
            last_at_ms: NOW - 60_000,
            sources: counts(&[("Codex", 1), ("Aider", 2)]),
        },
        ProjectStats {
            project: "beta".into(),
            sessions: 1,
            messages: 5,
            active_ms: 300_000,
            last_at_ms: NOW - 3_600_000,
            sources: counts(&[("Omp", 1)]),
        },
    ];
    rep.usage_note = Some("disabled; set token_usage = true in config.toml".into());
    rep
}

/// Filters that nothing narrows.
fn nowhere_filters() -> Filters {
    Filters {
        root: Some("/nonexistent-analytics-test-root".to_string()),
        since_ms: None,
        project: None,
        memo_ttl_ms: 0,
    }
}

#[test]
fn text_mode_renders_project_rows_with_sources() {
    let out = render_text(&sample_report(), &Tips::default(), NOW);
    assert!(out.contains("herdr analytics — all history"), "header: {out}");
    assert!(out.contains("alpha"), "project row: {out}");
    assert!(out.contains("beta"));
    assert!(out.contains("Aider:2 Codex:1"), "sources map: {out}");
    assert!(out.contains("Omp:1"));
    // 7.2M ms active = exactly 2.0 hours.
    assert!(out.contains("2.0"), "hours column: {out}");
}

#[test]
fn empty_project_list_shows_the_no_sessions_hint() {
    let mut rep = sample_report();
    rep.projects.clear();
    let out = render_text(&rep, &Tips::default(), NOW);
    assert!(out.contains("(no indexed sessions in window"), "{out}");
}

#[test]
fn missing_usage_renders_the_unavailable_note() {
    let out = render_text(&sample_report(), &Tips::default(), NOW);
    assert!(
        out.contains("Token usage: unavailable — disabled; set token_usage"),
        "{out}"
    );
}

fn digest() -> UsageDigest {
    UsageDigest {
        events: 10,
        total_tokens: 25_000,
        known_cost_usd: num(1.5),
        missed_tokens: 4_000,
        missed_cost_usd: num(0.25),
        miss_count: 3,
        idle_misses: 2,
        model_switch_misses: 1,
        by_source: vec![SourceDigest {
            source: "aider".into(),
            events: 10,
            total_tokens: 25_000,
            known_cost_usd: num(1.5),
            missed_tokens: 4_000,
        }],
        cache_read_tokens: 15_000,
        input_tokens: 20_000,
        cache_hit_rate: Some(num(0.75)),
        by_model: vec![],
    }
}

#[test]
fn present_usage_renders_the_token_usage_block() {
    let mut rep = sample_report();
    rep.usage_note = None;
    rep.usage = Some(digest());
    let out = render_text(&rep, &Tips::default(), NOW);
    assert!(out.contains("Token usage"), "{out}");
    assert!(out.contains("25.0K tokens"), "{out}");
    assert!(out.contains("$1.50 known cost"), "{out}");
    assert!(
        out.contains("cache hit-rate: 75.0% of 20.0K prompt tokens"),
        "{out}"
    );
    assert!(
        out.contains("idle-gap misses 2, model-switch misses 1"),
        "{out}"
    );
}

#[test]
fn stale_or_missing_snapshot_falls_back_to_a_failed_scan_report() {
    // No snapshot at all, or one that is too old: a scan is needed, and a failed
    // one degrades to an empty report.
    assert!(load_report(&nowhere_filters(), None, NOW).is_none());
    let stale = failed_report(NOW - SNAPSHOT_MAX_AGE_MS, None, "");
    assert!(load_report(&nowhere_filters(), Some(stale), NOW).is_none());
    let rep = failed_report(NOW, None, "no index");
    assert!(rep.projects.is_empty());
    assert!(rep.usage_note.unwrap().contains("scan failed"));
}

#[test]
fn fresh_snapshots_answer_only_what_is_not_narrowed() {
    let fresh = || Some(failed_report(NOW - SNAPSHOT_MAX_AGE_MS + 1, None, ""));
    assert!(load_report(&nowhere_filters(), fresh(), NOW).is_some());
    let mut narrowed = nowhere_filters();
    narrowed.since_ms = Some(1);
    assert!(load_report(&narrowed, fresh(), NOW).is_none());
    let mut narrowed = nowhere_filters();
    narrowed.project = Some("p".to_string());
    assert!(load_report(&narrowed, fresh(), NOW).is_none());
}

#[test]
fn rel_time_buckets_seconds_minutes_hours_days() {
    let now = 10_000_000_000u64;
    assert_eq!(rel_time(now, now), "0s");
    assert_eq!(rel_time(now - 59_000, now), "59s");
    assert_eq!(rel_time(now - 60_000, now), "1m");
    assert_eq!(rel_time(now - 3_600_000, now), "1h");
    assert_eq!(rel_time(now - 86_400_000, now), "1d");
}

#[test]
fn human_tokens_scales_through_k_m_b() {
    assert_eq!(human_tokens(0), "0");
    assert_eq!(human_tokens(999), "999");
    assert_eq!(human_tokens(25_000), "25.0K");
    assert_eq!(human_tokens(1_500_000), "1.5M");
    assert_eq!(human_tokens(2_000_000_000), "2.0B");
}

#[test]
fn human_tokens_agree_with_floats() {
    let mut n: u64 = 1_000;
    while n < u64::MAX / 3 {
        for k in [n - 1, n, n + 1, n + n / 2 + 7] {
            let expected = match k {
                0..=999 => k.to_string(),
                1_000..=999_999 => format!("{:.1}K", k as f64 / 1_000.0),
                1_000_000..=999_999_999 => format!("{:.1}M", k as f64 / 1_000_000.0),
                _ => format!("{:.1}B", k as f64 / 1_000_000_000.0),
            };
            assert_eq!(human_tokens(k), expected);
        }
        n = n * 2 + 13;
    }
    assert_eq!(human_tokens(u64::MAX), format!("{:.1}B", u64::MAX as f64 / 1_000_000_000.0));
}

#[test]
fn labels() {
    assert_eq!(window_label(None, NOW), "all history");
    assert_eq!(window_label(Some(NOW - 7 * 86_400_000), NOW), "since 7d");
    assert_eq!(generated_label(NOW - 61_000, NOW), "  (generated 1m)");
    assert_eq!(rel_time(NOW + 5, NOW), "0s");
    assert_eq!(percent(num(0.255), 0), format!("{:.0}", 0.255 * 100.0));
}

#[test]
fn text_report_shows_window_label_for_since_flag() {
    let mut rep = sample_report();
    rep.since_ms = Some(NOW - 7 * 86_400_000);
    assert!(render_text(&rep, &Tips::default(), NOW).contains("herdr analytics — since 7d"));
    rep.since_ms = None;
    assert!(render_text(&rep, &Tips::default(), NOW).contains("herdr analytics — all history"));
}

#[test]
fn the_whole_report_reads_as_laid_out() {
    let mut rep = sample_report();
    rep.usage_note = None;
    let mut d = digest();
    d.by_model = vec![ModelDigest {
        model: "sonnet-4-5-with-a-long-name".into(),
        events: 9,
        total_tokens: 1_500,
        known_cost_usd: num(0.125),
    }];
    rep.usage = Some(d);
    rep.project_usage = (0..6)
        .map(|i| ProjectUsage {
            project: format!("project-{i}"),
            events: i,
            total_tokens: 10 * i,
            known_cost_usd: num(i as f64),
            missed_cost_usd: num(0.0),
        })
        .collect();
    let live = Tips {
        generated_at_ms: NOW,
        items: vec![
            Tip { pane_id: "a".into(), message: "one".into(), urgent: true },
            Tip { pane_id: "b".into(), message: "two".into(), urgent: false },
        ],
    };
    let mut expected = String::from("Live tips\n  ! one\n  - two\n\n");
    expected.push_str("herdr analytics — all history  (generated 5s)\n\n");
    expected.push_str("Sessions\n");
    expected.push_str(&format!(
        "  {:<28.28} {:>8} {:>9} {:>7} {:>10}  {}\n",
        "project", "sessions", "messages", "hrs", "last", "sources"
    ));
    expected.push_str(&format!(
        "  {:<28.28} {:>8} {:>9} {:>7.1} {:>10}  {}\n",
        "alpha", 3, 42, 2.0, "1m", "Aider:2 Codex:1"
    ));
    expected.push_str(&format!(
        "  {:<28.28} {:>8} {:>9} {:>7.1} {:>10}  {}\n",
        "beta", 1, 5, 300_000.0 / 3_600_000.0, "1h", "Omp:1"
    ));
    expected.push_str("\nToken usage\n");
    expected.push_str("  10 events, 25.0K tokens, $1.50 known cost\n");
    expected.push_str("  cache hit-rate: 75.0% of 20.0K prompt tokens\n");
    expected.push_str("  cache waste: 4.0K tokens ($0.25) across 3 misses\n");
    expected.push_str("    idle-gap misses 2, model-switch misses 1\n");
    expected.push_str(&format!(
        "  {:<10.10} {:>6} events {:>10} tokens ${:>8.2}  waste {}\n",
        "aider", 10, "25.0K", 1.5, "4.0K"
    ));
    expected.push_str(&format!(
        "\n  {:<20.20} {:>6} {:>10} {:>9}\n",
        "model", "events", "tokens", "cost"
    ));
    expected.push_str(&format!(
        "  {:<20.20} {:>6} {:>10} ${:>8.2}\n",
        "sonnet-4-5-with-a-long-name", 9, "1.5K", 0.125
    ));
    expected.push_str(&format!(
        "\n  {:<28.28} {:>6} {:>10} {:>9}\n",
        "project", "events", "tokens", "cost"
    ));
    for i in 0..5u64 {
        expected.push_str(&format!(
            "  {:<28.28} {:>6} {:>10} ${:>8.2}\n",
            format!("project-{i}"),
            i,
            (10 * i).to_string(),
            i as f64
        ));
    }
    expected.push_str("\n  tip: idle-gap misses mean returning after the cache went cold —\n");
    expected.push_str("  batching related prompts into one session keeps it warm.\n");
    assert_eq!(render_text(&rep, &live, NOW + 5_000), expected);
}

#[test]
fn old_snapshot_without_new_fields_still_renders() {
    let mut rep = failed_report(NOW, None, "");
    rep.usage_note = None;
    let mut d = digest();
    d.cache_hit_rate = None;
    d.input_tokens = 0;
    rep.usage = Some(d);
    assert!(render_text(&rep, &Tips::default(), NOW).contains("cache hit-rate: n/a"));
}
