use herdr_analytics::clock::{local_day, LocalStamp};
use herdr_analytics::double::Double;
use herdr_analytics::projects::{aggregate_projects, projects_countable, SessionRow};
use herdr_analytics::render::render_text;
use herdr_analytics::report::{
    assemble, can_gather, disabled_note, gather, prior_window, Report, Scan, Wow,
};
use herdr_analytics::textmap::TextMap;
use herdr_analytics::tips::Tips;
use herdr_analytics::usage::{
    bloating_sessions, burn_rate, daily_series, digest_from, display_project,
    event_known_cost_usd, local_stamps, project_usage_from, tokens_countable, CacheWaste, SourceDigest, TokenCounts, UsageEvent,
    UsageReport,
};

const DAY: u64 = 86_400_000;
const MIDNIGHT: u64 = 20_000 * DAY;
const NOW: u64 = MIDNIGHT + 15 * 3_600_000 + 123;

fn num(x: f64) -> Double {
    Double { bits: x.to_bits() }
}

fn float(d: Double) -> f64 {
    f64::from_bits(d.bits)
}

/// The local time of a machine that keeps UTC.
fn stamp(ms: u64) -> LocalStamp {
    LocalStamp {
        day: chrono::DateTime::from_timestamp_millis(ms as i64)
            .unwrap()
            .format("%Y-%m-%d")
            .to_string(),
        number: 719_163 + (ms / DAY) as i32,
        hour: (ms % DAY / 3_600_000) as u32,
    }
}

fn counts(input: u64, cache_read: u64, cache_write: u64, output: u64) -> TokenCounts {
    TokenCounts {
        uncached_input: input,
        cache_read,
        cache_write,
        output,
        reasoning: 0,
        total: input + cache_read + cache_write + output,
    }
}

fn event(ts: u64, input: u64, cost: Option<f64>) -> UsageEvent {
    UsageEvent {
        timestamp_ms: ts,
        tokens: counts(input, 0, 0, 0),
        model: Some("sonnet-4-5".to_string()),
        project: Some("/w/alpha".to_string()),
        session_id: Some("s1".to_string()),
        source_cost_usd: cost.map(num),
    }
}

fn usage(details: Vec<UsageEvent>) -> UsageReport {
    UsageReport {
        events: details.len() as u64,
        total_tokens: details.iter().map(|e| e.tokens.total).sum(),
        known_cost_usd: num(0.0),
        cache_waste: CacheWaste {
            missed_tokens: 0,
            missed_cost_usd: num(0.0),
            miss_count: 0,
            idle_misses: 0,
            model_switch_misses: 0,
        },
        by_source: vec![],
        details,
    }
}

fn scan(rows: Vec<SessionRow>, details: Vec<UsageEvent>) -> Scan {
    Scan {
        generated_at_ms: NOW,
        since_ms: None,
        rows,
        usage: Ok(usage(details)),
        bloat_threshold: 100_000,
        wow: None,
        turns: None,
    }
}

fn report(s: Scan) -> Report {
    let starts: Vec<LocalStamp> = s.rows.iter().map(|r| stamp(r.started_at)).collect();
    let stamps: Vec<LocalStamp> = match &s.usage {
        Ok(u) => u.details.iter().map(|e| stamp(e.timestamp_ms)).collect(),
        Err(_) => vec![],
    };
    let today = stamp(s.generated_at_ms);
    assemble(s, &starts, &stamps, &today)
}

fn session(id: &str, started_at: u64) -> SessionRow {
    SessionRow {
        project: format!("/w/{id}"),
        repo_project: None,
        message_count: 1,
        started_at,
        last_at: started_at,
        source: "Aider".to_string(),
    }
}

#[test]
fn daily_series_buckets_by_local_date_across_midnight() {
    let rep = report(scan(
        vec![
            session("yesterday", MIDNIGHT - 3_600_000),
            session("today", MIDNIGHT + 3_600_000),
        ],
        vec![
            event(MIDNIGHT - 60_000, 100, Some(1.0)),
            event(MIDNIGHT + 60_000, 200, Some(2.0)),
        ],
    ));
    assert_eq!(rep.daily.len(), 2, "one point per active local day");
    assert_eq!(rep.daily[0].date, stamp(MIDNIGHT - 60_000).day);
    assert_eq!(rep.daily[1].date, stamp(MIDNIGHT + 60_000).day);
    assert_eq!(rep.daily[0].tokens, 100);
    assert_eq!(rep.daily[0].events, 1);
    assert!((float(rep.daily[0].cost_usd) - 1.0).abs() < 1e-9);
    assert_eq!(rep.daily[0].sessions, 1, "session started yesterday");
    assert_eq!(rep.daily[1].tokens, 200);
    assert_eq!(rep.daily[1].events, 1);
    assert!((float(rep.daily[1].cost_usd) - 2.0).abs() < 1e-9);
    assert_eq!(rep.daily[1].sessions, 1, "session started today");
}

#[test]
fn heatmap_is_seven_by_24_and_buckets_tokens_by_hour() {
    let hour = 15u64;
    let ts1 = MIDNIGHT + hour * 3_600_000 + 5_000;
    let ts2 = MIDNIGHT + (hour - 7) * 3_600_000 + 35_000;
    let rep = report(scan(
        vec![],
        vec![
            event(ts1, 300, None),
            event(ts2, 700, None),
            // Yesterday 23:58 local: lands in row 6 of 7, col 23.
            event(MIDNIGHT - 120_000, 50, None),
            // Ten days ago: outside the 7-day grid entirely.
            event(MIDNIGHT - 10 * DAY, 9_999, None),
        ],
    ));
    assert_eq!(rep.activity_heatmap.len(), 7, "7 rows: last 7 local days");
    assert!(rep.activity_heatmap.iter().all(|row| row.len() == 24));
    let total: u64 = rep.activity_heatmap.iter().flatten().sum();
    assert_eq!(total, 300 + 700 + 50, "old events stay outside the grid");
    let today = rep.activity_heatmap[6];
    assert_eq!(today[stamp(ts1).hour as usize], 300, "event 1 cell");
    assert_eq!(today[stamp(ts2).hour as usize], 700, "event 2 cell");
    assert_eq!(rep.activity_heatmap[5][23], 50, "yesterday 23:58 cell");
    assert_eq!(rep.activity_heatmap[5].iter().sum::<u64>(), 50);
}

#[test]
fn burn_rate_counts_only_the_trailing_hour() {
    let rep = report(scan(
        vec![],
        vec![
            event(NOW - 30 * 60_000, 10, Some(2.0)),
            event(NOW - 59 * 60_000, 10, Some(0.5)),
            event(NOW - 61 * 60_000, 10, Some(5.0)),
        ],
    ));
    let burn = float(rep.burn_rate_usd_per_hr.expect("burn rate present"));
    assert!((burn - 2.5).abs() < 1e-9, "trailing hour sums 2.0 + 0.5, got {burn}");
}

#[test]
fn today_cost_uses_the_local_date_boundary() {
    let rep = report(scan(
        vec![],
        vec![
            event(MIDNIGHT + 60_000, 10, Some(1.5)),
            event(MIDNIGHT - 60_000, 10, Some(2.5)),
        ],
    ));
    let today = float(rep.today_cost_usd.expect("today cost present"));
    assert!((today - 1.5).abs() < 1e-9, "only today's local-date spend counts, got {today}");
}

#[test]
fn reasoning_share_is_none_when_output_is_zero() {
    let rep = report(scan(vec![], vec![event(NOW - 60_000, 100, None)]));
    assert_eq!(rep.reasoning_tokens, 0);
    assert!(rep.reasoning_share.is_none(), "no output tokens means no share");
}

#[test]
fn reasoning_share_is_reasoning_over_output() {
    let mut e = event(NOW - 60_000, 100, None);
    e.tokens.output = 100;
    e.tokens.reasoning = 40;
    let rep = report(scan(vec![], vec![e]));
    assert_eq!(rep.reasoning_tokens, 40);
    let share = float(rep.reasoning_share.expect("share defined with output"));
    assert!((share - 0.4).abs() < 1e-9, "40/100, got {share}");
}

#[test]
fn bloat_detection_needs_monotonic_growth_threshold_and_three_events() {
    let mut events = Vec::new();
    let mut push = |sid: &str, inputs: &[u64]| {
        for (i, input) in inputs.iter().enumerate() {
            let mut e = event(NOW - 3_600_000 + (i as u64) * 60_000, *input, None);
            e.session_id = Some(sid.to_string());
            e.project = Some("/w/bloat".to_string());
            events.push(e);
        }
    };
    push("s_bloat", &[100, 200, 300]); // monotonic, ends >= 250: flagged
    push("s_bigger", &[200, 300, 400]); // monotonic, ends higher: ranked first
    push("s_dip", &[100, 400, 300]); // ends >= 250 but not monotonic
    push("s_short", &[100, 900]); // high but only two events
    push("s_low", &[50, 100, 200]); // monotonic but below threshold
    let mut s = scan(vec![], events);
    s.bloat_threshold = 250;
    let rep = report(s);
    let ids: Vec<&str> = rep.bloating_sessions.iter().map(|b| b.session_id.as_str()).collect();
    assert_eq!(ids, vec!["s_bigger", "s_bloat"], "worst first: {ids:?}");
    assert_eq!(rep.bloating_sessions[0].last_uncached_input, 400);
    assert_eq!(rep.bloating_sessions[1].last_uncached_input, 300);
    assert_eq!(rep.bloating_sessions[0].project, "/w/bloat");
}

#[test]
fn bloat_goes_by_time_and_names_five_at_most() {
    let mut events = Vec::new();
    for s in 0..7u64 {
        // Listed backwards: the order of time counts.
        for i in (0..3u64).rev() {
            let mut e = event(1_000 + i, 10 * (i + 1) + s, None);
            e.session_id = Some(format!("s{s}"));
            e.project = None;
            events.push(e);
        }
    }
    let mut nameless = event(1, 1, None);
    nameless.session_id = Some(String::new());
    events.push(nameless);
    let out = bloating_sessions(&events, 0);
    let ids: Vec<&str> = out.iter().map(|b| b.session_id.as_str()).collect();
    assert_eq!(ids, vec!["s6", "s5", "s4", "s3", "s2"]);
    assert_eq!(out[0].last_uncached_input, 36);
    assert_eq!(out[0].project, "unknown");
}

#[test]
fn wow_appears_only_with_a_since_window_and_reports_the_prior_window() {
    let wow = Some(Wow { cost_usd: num(3.0), missed_cost_usd: num(0.0) });
    let mut full = scan(vec![], vec![event(NOW - 12 * 3_600_000, 10, Some(4.0))]);
    full.wow = wow;
    assert!(report(full).wow.is_none(), "unbounded history has no preceding window to compare");
    assert_eq!(prior_window(None, true, NOW), None);

    let mut bounded = scan(vec![], vec![event(NOW - 12 * 3_600_000, 10, Some(4.0))]);
    bounded.since_ms = Some(NOW - DAY);
    bounded.wow = wow;
    let got = report(bounded).wow.expect("wow present for a bounded window");
    assert!((float(got.cost_usd) - 3.0).abs() < 1e-9);
    assert!((float(got.missed_cost_usd) - 0.0).abs() < 1e-9);
    assert_eq!(prior_window(Some(NOW - DAY), true, NOW), Some((NOW - 2 * DAY, NOW - DAY)));
    assert_eq!(prior_window(Some(NOW - DAY), false, NOW), None);
    assert_eq!(prior_window(Some(NOW), true, NOW), Some((NOW - 1, NOW)));
    assert_eq!(prior_window(Some(10), true, NOW), Some((0, 10)));
}

fn standard_rows(now: u64) -> Vec<SessionRow> {
    let row = |source: &str, project: &str, repo: Option<&str>, started_at, last_at, messages| {
        SessionRow {
            project: project.to_string(),
            repo_project: repo.map(str::to_string),
            message_count: messages,
            started_at,
            last_at,
            source: source.to_string(),
        }
    };
    vec![
        row("Aider", "/w/alpha", Some("alpha-repo"), now - DAY, now - 3_600_000, 10),
        row("Aider", "/elsewhere/alpha", Some("alpha-repo"), now - 2 * DAY, now - 2 * DAY, 5),
        row(
            "Codex",
            "/w/alpha/sub",
            Some("alpha-repo"),
            now - 3 * DAY,
            now - 3 * DAY + 1_800_000,
            7,
        ),
        row("Omp", "beta-dir", Some(""), now - 4 * DAY, now - 4 * DAY + 300_000, 3),
        row("Aider", "gamma-old", None, now - 60 * DAY, now - 60 * DAY + 60_000, 99),
    ]
}

#[test]
fn report_aggregates_projects_and_sorts_by_recency() {
    let mut s = scan(standard_rows(NOW), vec![]);
    s.usage = Err("disabled".to_string());
    let rep = report(s);
    assert_eq!(rep.since_ms, None, "--all means the full-history window");
    let names: Vec<&str> = rep.projects.iter().map(|p| p.project.as_str()).collect();
    assert_eq!(names, vec!["alpha-repo", "beta-dir", "gamma-old"], "sorted by last_at desc");
    let alpha = &rep.projects[0];
    assert_eq!(alpha.sessions, 3);
    assert_eq!(alpha.messages, 22);
    // a2 contributes 0; per-session wall times: 82_800_000 + 0 + 1_800_000.
    let expected_active: u64 = 82_800_000 + 1_800_000;
    assert_eq!(alpha.active_ms, expected_active, "sum of per-session wall time");
    assert_eq!(alpha.sources.get("Aider"), Some(&2));
    assert_eq!(alpha.sources.get("Codex"), Some(&1));
    assert_eq!(rep.projects[1].sources.get("Omp"), Some(&1));
    assert!(rep.usage.is_none(), "token usage disabled without config.toml opt-in");
    assert!(rep.usage_note.is_some());
}

#[test]
fn empty_repo_project_falls_back_to_raw_project_name() {
    let rows = vec![SessionRow {
        project: "beta-dir".to_string(),
        repo_project: Some(String::new()),
        message_count: 3,
        started_at: NOW - 1000,
        last_at: NOW,
        source: "Omp".to_string(),
    }];
    let projects = aggregate_projects(&rows);
    assert_eq!(projects.len(), 1);
    assert_eq!(projects[0].project, "beta-dir");
}

#[test]
fn empty_database_yields_empty_report_not_a_crash() {
    let rep = report(scan(vec![], vec![]));
    assert!(rep.projects.is_empty());
    assert!(render_text(&rep, &Tips::default(), NOW).contains("(no indexed sessions in window"));
    assert!(rep.daily.is_empty());
    assert!(rep.activity_heatmap.is_empty());
    assert!(rep.burn_rate_usd_per_hr.is_none());
    assert!(rep.today_cost_usd.is_none());
}

#[test]
fn usage_disabled_leaves_usage_none_and_omits_new_sections() {
    let mut s = scan(standard_rows(NOW), vec![]);
    s.usage = Err(disabled_note("/m"));
    let rep = report(s);
    assert!(rep.usage.is_none());
    assert_eq!(
        rep.usage_note.as_deref(),
        Some("token usage unavailable: disabled; set token_usage = true in /m/config.toml")
    );
    assert!(rep.project_usage.is_empty(), "no attribution without usage tracking");
    let text = render_text(&rep, &Tips::default(), NOW);
    assert!(text.contains("Token usage: unavailable"), "{text}");
    assert!(!text.contains("cache hit-rate"), "{text}");
    assert!(!text.contains("model"), "no model table either: {text}");
}

fn told(model: Option<&str>, input: u64, read: u64, write: u64, output: u64) -> UsageEvent {
    let mut e = event(NOW - 60_000, 0, None);
    e.model = model.map(str::to_string);
    e.tokens = counts(input, read, write, output);
    e
}

#[test]
fn json_report_includes_model_mix_sorted_by_tokens() {
    let usage = digest_from(&usage(vec![
        told(Some("sonnet-4-5"), 1_000, 0, 0, 500),
        told(Some("opus-4-6"), 200, 100, 50, 30),
        told(Some("haiku-4-5"), 10, 5, 0, 4),
    ]));
    let models: Vec<&str> = usage.by_model.iter().map(|m| m.model.as_str()).collect();
    assert_eq!(models, vec!["sonnet-4-5", "opus-4-6", "haiku-4-5"]);
    assert_eq!(usage.by_model[0].total_tokens, 1_500);
    assert_eq!(usage.by_model[0].events, 1);
    assert_eq!(usage.by_model[1].total_tokens, 380);
    assert_eq!(usage.total_tokens, 1_899, "digest total matches model mix");
    assert_eq!(float(usage.by_model[0].known_cost_usd), 0.0);
    let model_events: u64 = usage.by_model.iter().map(|m| m.events).sum();
    assert_eq!(model_events, usage.events, "every event lands in one bucket");
}

#[test]
fn unknown_model_events_bucketed_under_unknown() {
    let usage = digest_from(&usage(vec![
        told(None, 100, 0, 0, 10),
        told(Some(""), 50, 0, 0, 5),
        told(Some("sonnet-4-5"), 20, 0, 0, 2),
    ]));
    let unknown: Vec<_> = usage.by_model.iter().filter(|m| m.model == "unknown").collect();
    assert_eq!(unknown.len(), 1, "missing and empty models share one bucket");
    assert_eq!(unknown[0].events, 2);
    assert_eq!(unknown[0].total_tokens, 165);
}

#[test]
fn cache_hit_rate_bounds_and_none_when_no_prompt_tokens() {
    let d = digest_from(&usage(vec![
        // prompt denominator = uncached 300 + read 600 + write 100 = 1000.
        told(Some("sonnet-4-5"), 300, 600, 100, 50),
        // Output-only request: no prompt tokens, must not dilute the rate.
        told(Some("sonnet-4-5"), 0, 0, 0, 999),
    ]));
    assert_eq!(d.input_tokens, 1_000);
    assert_eq!(d.cache_read_tokens, 600);
    let rate = float(d.cache_hit_rate.expect("rate defined with prompt tokens"));
    assert!((0.0..=1.0).contains(&rate), "rate bounded: {rate}");
    assert!((rate - 0.6).abs() < 1e-9, "reads over prompt tokens: {rate}");

    // A window with only output-only traffic has no denominator at all.
    let d = digest_from(&usage(vec![told(Some("sonnet-4-5"), 0, 0, 0, 42)]));
    assert_eq!(d.input_tokens, 0);
    assert_eq!(d.cache_read_tokens, 0);
    assert!(d.cache_hit_rate.is_none(), "no prompt tokens means no rate");
}

#[test]
fn project_usage_ranked_by_cost_with_unknown_fallback() {
    let spent = |cwd: Option<&str>, cost: f64| {
        let mut e = told(Some("sonnet-4-5"), 100, 0, 0, 10);
        e.project = cwd.map(str::to_string);
        e.source_cost_usd = Some(num(cost));
        e
    };
    let list = vec![
        spent(Some("/w/alpha"), 0.50),
        spent(Some("/w/alpha"), 0.25),
        spent(Some("/w/beta"), 2.25),
        spent(None, 9.99),
    ];
    let usages = project_usage_from(&list);
    let projects: Vec<&str> = usages.iter().map(|p| p.project.as_str()).collect();
    assert_eq!(projects, vec!["unknown", "/w/beta", "/w/alpha"]);
    assert_eq!(float(usages[0].known_cost_usd), 9.99);
    assert_eq!(float(usages[1].known_cost_usd), 2.25);
    assert_eq!(float(usages[2].known_cost_usd), 0.75, "per-project costs aggregate");
    assert_eq!(usages[2].events, 2);
    assert_eq!(usages[2].total_tokens, 220);
    let digest = digest_from(&usage(list));
    assert!((float(digest.by_model[0].known_cost_usd) - 12.99).abs() < 1e-9);
    assert!(usages.iter().all(|p| float(p.missed_cost_usd) == 0.0));
}

#[test]
fn only_finite_costs_that_are_not_below_zero_count() {
    let cost = |c: Option<f64>| float(event_known_cost_usd(&event(1, 1, c)));
    assert_eq!(cost(None), 0.0);
    assert_eq!(cost(Some(1.25)), 1.25);
    assert_eq!(cost(Some(-1.0)), 0.0);
    assert_eq!(cost(Some(f64::NAN)), 0.0);
    assert_eq!(cost(Some(f64::INFINITY)), 0.0);
    assert_eq!(cost(Some(-0.0)).to_bits(), (-0.0f64).to_bits());
}

#[test]
fn token_sums_stop_at_the_largest_count() {
    let mut a = event(NOW, 1, None);
    a.tokens.total = u64::MAX;
    let b = event(NOW, 5, None);
    let rep = report(scan(vec![], vec![a, b]));
    assert_eq!(rep.daily[0].tokens, u64::MAX);
    assert_eq!(rep.activity_heatmap[6][15], u64::MAX);
    assert_eq!(rep.usage.unwrap().by_model[0].total_tokens, u64::MAX);
}

#[test]
fn what_cannot_be_counted_is_told() {
    let mut rows = standard_rows(NOW);
    assert!(projects_countable(&rows));
    rows[0].message_count = u64::MAX;
    assert!(!projects_countable(&rows));
    rows[0].message_count = u64::MAX - 12;
    assert!(projects_countable(&rows), "another project's messages do not count");
    let mut a = event(1, 1, None);
    a.tokens.output = u64::MAX;
    let mut b = event(1, 1, None);
    b.tokens.output = 1;
    assert!(tokens_countable(&vec![]));
    let list = vec![a, b];
    assert!(!tokens_countable(&list));
    assert!(!can_gather(&scan(vec![], list)));
    assert!(!can_gather(&scan(vec![session("x", 0), {
        let mut row = session("x", 0);
        row.message_count = u64::MAX;
        row
    }], vec![])));
    assert!(can_gather(&scan(standard_rows(NOW), vec![])));
}

#[test]
fn names_fall_back_to_unknown() {
    assert_eq!(display_project(&None), "unknown");
    assert_eq!(display_project(&Some(String::new())), "unknown");
    assert_eq!(display_project(&Some("x".to_string())), "x");
}

#[test]
fn an_hour_without_events_burns_nothing() {
    let rate = burn_rate(&vec![event(1, 1, Some(3.0))], NOW).unwrap();
    assert_eq!(float(rate), 0.0);
    let none: Vec<f64> = vec![];
    assert_eq!(rate.bits, none.iter().sum::<f64>().to_bits());
    assert!(burn_rate(&vec![], NOW).is_none());
}

#[test]
fn gathering_goes_by_local_time() {
    let e = event(NOW, 7, Some(0.5));
    let rep = gather(scan(vec![session("x", NOW)], vec![e]));
    assert_eq!(rep.daily.len(), 1);
    assert_eq!(rep.daily[0].date, local_day(NOW));
    assert_eq!(rep.daily[0].date.len(), 10);
    assert_eq!(rep.daily[0].sessions, 1);
    assert_eq!(rep.activity_heatmap[6].iter().sum::<u64>(), 7);
    assert_eq!(float(rep.today_cost_usd.unwrap()), 0.5);
    let local = chrono::DateTime::from_timestamp_millis(NOW as i64)
        .unwrap()
        .with_timezone(&chrono::Local);
    assert_eq!(local_day(NOW), local.format("%Y-%m-%d").to_string());
}

#[test]
fn sources_pass_through_the_digest() {
    let mut u = usage(vec![]);
    u.by_source = vec![SourceDigest {
        source: "aider".into(),
        events: 2,
        total_tokens: 3,
        known_cost_usd: num(0.5),
        missed_tokens: 4,
    }];
    u.cache_waste.miss_count = 9;
    let d = digest_from(&u);
    assert_eq!(d.by_source[0].source, "aider");
    assert_eq!(d.by_source[0].missed_tokens, 4);
    assert_eq!(d.miss_count, 9);
}

#[test]
fn the_daily_series_stands_oldest_first() {
    // Around the ends of months, years and February, in no order, and far from today.
    let moments = [20_000, 365, 0, 11_015, 19_782, 11_016, 2_932_894, 19_781, 364, 20_000];
    let events: Vec<UsageEvent> =
        moments.iter().map(|day: &u64| event(day * DAY + DAY / 2, day + 1, None)).collect();
    let stamps = local_stamps(&events);
    for stamp in &stamps {
        let date = chrono::NaiveDate::parse_from_str(&stamp.day, "%Y-%m-%d").unwrap();
        let from_one = date - chrono::NaiveDate::from_ymd_opt(1, 1, 1).unwrap();
        assert_eq!(from_one.num_days() + 1, i64::from(stamp.number));
        assert_eq!(stamp.day.len(), 10);
    }
    let points = daily_series(&events, &stamps, &TextMap::new());
    assert_eq!(points.len(), 9);
    let numbers: Vec<i32> = points
        .iter()
        .map(|p| stamps.iter().find(|s| s.day == p.date).unwrap().number)
        .collect();
    assert!(numbers.windows(2).all(|w| w[0] < w[1]));
    let told: u64 = points.iter().map(|p| p.tokens).sum();
    let all: u64 = events.iter().map(|e| e.tokens.total).sum();
    assert_eq!(told, all);
}

#[test]
fn tokens_of_models_and_projects_add_up_to_those_of_the_events() {
    let named = |model: Option<&str>, project: &str, input: u64| {
        let mut e = told(model, input, 3, 2, 1);
        e.project = Some(project.to_string());
        e
    };
    let events = vec![
        named(Some("b"), "/w/x", 10),
        named(None, "/w/y", 200),
        named(Some("a"), "/w/x", 3_000),
        named(Some("b"), "/w/z", 40_000),
    ];
    let all: u64 = events.iter().map(|e| e.tokens.total).sum();
    let projects: u64 = project_usage_from(&events).iter().map(|p| p.total_tokens).sum();
    let digest = digest_from(&usage(events));
    let models: u64 = digest.by_model.iter().map(|m| m.total_tokens).sum();
    assert_eq!(all, 43_234);
    assert_eq!(models, all);
    assert_eq!(projects, all);
}
