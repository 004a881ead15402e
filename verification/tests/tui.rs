use herdr_analytics::agents::Tip;
use herdr_analytics::double::Double;
use herdr_analytics::live::FleetSnapshot;
use herdr_analytics::projects::ProjectStats;
use herdr_analytics::report::{failed_report, Report, Wow};
use herdr_analytics::textmap::TextMap;
use herdr_analytics::tips::Tips;
use herdr_analytics::tui::{
    chart_lines, chart_title, footer_line, header_line, heatmap_lines, sessions_table, sessions_title,
    signed_usd, status_lines, thousands, tips_height, tips_lines, usage_lines, ChartMode, Color,
    Dashboard, Input, Line, Refresh,
};
use herdr_analytics::turns::TurnStats;
use herdr_analytics::usage::{
    BloatSession, DayPoint, ModelDigest, SourceDigest, UsageDigest,
};

fn num(x: f64) -> Double {
    Double { bits: x.to_bits() }
}

fn day(tokens: u64, cost: f64, sessions: u64) -> DayPoint {
    DayPoint { date: "2026-08-21".into(), tokens, cost_usd: num(cost), events: 1, sessions }
}

fn text(line: &Line) -> String {
    line.spans.iter().map(|s| s.text.as_str()).collect::<String>()
}

#[test]
fn chart_mode_cycles_tokens_cost_sessions_and_labels_match() {
    assert_eq!(ChartMode::Tokens.next(), ChartMode::Cost);
    assert_eq!(ChartMode::Cost.next(), ChartMode::Sessions);
    assert_eq!(ChartMode::Sessions.next(), ChartMode::Tokens);
    assert_eq!(ChartMode::Tokens.label(), "tokens");
    assert_eq!(ChartMode::Cost.label(), "cost");
    assert_eq!(ChartMode::Sessions.label(), "sessions");
    assert_eq!(ChartMode::Cost.value(&day(100, 2.5, 3)), num(2.5));
    assert_eq!(ChartMode::Sessions.value(&day(100, 2.5, 3)), num(3.0));
}

#[test]
fn empty_daily_renders_a_flat_braille_baseline_row() {
    let lines = chart_lines(&vec![], ChartMode::Tokens, 10);
    assert_eq!(lines.len(), 2);
    let bottom = text(&lines[1]);
    assert_eq!(bottom, "⣀".repeat(10));
}

#[test]
fn chart_buckets_daily_series_to_panel_width_with_peak_at_top_ramp() {
    let daily: Vec<_> = (1..=4).map(|i| day(i * 1_000, i as f64, i)).collect();
    for mode in [ChartMode::Tokens, ChartMode::Cost, ChartMode::Sessions] {
        let lines = chart_lines(&daily, mode, 8);
        assert_eq!(lines.len(), 2);
        let bottom = text(&lines[1]);
        // Peak days map to the full block; zero-free series never blanks a column.
        assert!(bottom.contains('⣿'), "peak column must be ⣿: {bottom}");
        assert!(!bottom.contains(' '), "no dead columns: {bottom}");
    }
    // Narrow panels still bucket without panicking.
    assert_eq!(chart_lines(&daily, ChartMode::Cost, 2).len(), 2);
}

#[test]
fn chart_rows_are_eighths_of_the_peak() {
    let daily = vec![day(0, 0.0, 0), day(1, 0.1, 1), day(4, 0.4, 4), day(6, 0.6, 6), day(8, 0.8, 8)];
    let lines = chart_lines(&daily, ChartMode::Tokens, 5);
    assert_eq!(text(&lines[0]), "   ⣤⣿");
    assert_eq!(text(&lines[1]), " ⣀⣿⣿⣿");
    let lines = chart_lines(&daily, ChartMode::Cost, 5);
    assert_eq!(text(&lines[0]), "   ⣤⣿");
    assert_eq!(text(&lines[1]), " ⣀⣿⣿⣿");
    assert!(chart_lines(&daily, ChartMode::Cost, 0).is_empty());
    // Below zero, no number, or an infinite peak: nothing stands up.
    let odd = vec![day(0, -1.0, 0), day(0, f64::NAN, 0), day(0, 2.0, 0)];
    assert_eq!(text(&chart_lines(&odd, ChartMode::Cost, 3)[1]), "  ⣿");
    let endless = vec![day(0, 1.0, 0), day(0, f64::INFINITY, 0)];
    assert_eq!(text(&chart_lines(&endless, ChartMode::Cost, 2)[1]), "  ");
    let below = vec![day(0, -1.0, 0)];
    assert_eq!(text(&chart_lines(&below, ChartMode::Cost, 2)[1]), "⣀⣀");
}

#[test]
fn chart_heights_agree_with_floats() {
    let vals = [0.0, 1e-300, 0.03, 0.0625, 0.3, 1.0 / 3.0, 0.4375, 0.7, 0.9, 0.9375, 1.0];
    for max in [1.0, 3.0, 7.7e10, 1e-310, 5e-324] {
        let mut daily: Vec<DayPoint> = vals.iter().map(|v| day(0, v * max, 0)).collect();
        daily.push(day(0, max, 0));
        let width = daily.len();
        let lines = chart_lines(&daily, ChartMode::Cost, width);
        let ramp = [' ', '⣀', '⣤', '⣶', '⣿'];
        let bottom: String = daily
            .iter()
            .map(|d| {
                let v = f64::from_bits(d.cost_usd.bits);
                let step = (v / max * 8.0).round().clamp(0.0, 8.0) as usize;
                // Whatever is worth anything shows.
                ramp[if step == 0 && v > 0.0 { 1 } else { step.min(4) }]
            })
            .collect();
        assert_eq!(text(&lines[1]), bottom);
    }
}

#[test]
fn a_series_without_zeros_leaves_no_column_blank() {
    let daily = vec![day(10, 5e-324, 1), day(1_000, 1.0, 200), day(3, 1e-9, 1)];
    for mode in [ChartMode::Tokens, ChartMode::Cost, ChartMode::Sessions] {
        for width in [1, 2, 3, 7, 40] {
            let lines = chart_lines(&daily, mode, width);
            assert_eq!(lines.len(), 2);
            assert_eq!(text(&lines[0]).chars().count(), width);
            assert_eq!(text(&lines[1]).chars().count(), width);
            assert!(text(&lines[1]).contains('⣿'));
            assert!(!text(&lines[1]).contains(' '));
        }
        assert_eq!(text(&chart_lines(&daily, mode, 3)[0]), " ⣿ ");
        assert_eq!(text(&chart_lines(&daily, mode, 3)[1]), "⣀⣿⣀");
    }
    // A quiet day between busy ones stays blank.
    let quiet = vec![day(10, 0.0, 0), day(0, 0.0, 0), day(1_000, 0.0, 0)];
    assert_eq!(text(&chart_lines(&quiet, ChartMode::Tokens, 3)[1]), "⣀ ⣿");
}

fn three() -> usize {
    3
}

#[test]
fn j_k_keys_move_selection_with_title_updates() {
    let d = Dashboard::new().framed(three());
    assert!(sessions_title(d.selected, three()).contains("Sessions 1/3"));
    let d = d.handle(Input::Char('j'), three()).unwrap();
    assert!(sessions_title(d.selected, three()).contains("Sessions 2/3"));
    let d = d.handle(Input::Char('k'), three()).unwrap();
    assert!(sessions_title(d.selected, three()).contains("Sessions 1/3"));
}

#[test]
fn arrow_keys_move_selection_like_j_k() {
    let d = Dashboard::new().handle(Input::Down, three()).unwrap();
    assert!(sessions_title(d.selected, three()).contains("Sessions 2/3"));
    let d = d.handle(Input::Up, three()).unwrap();
    assert!(sessions_title(d.selected, three()).contains("Sessions 1/3"));
}

#[test]
fn selection_clamps_at_top_and_bottom_bounds() {
    let mut d = Dashboard::new();
    // Hammer k well past the top bound; selection must stay at 1/3.
    for _ in 0..10 {
        d = d.handle(Input::Char('k'), three()).unwrap();
    }
    assert_eq!(sessions_title(d.selected, three()), " Sessions 1/3 ");
    // Hammer j well past the bottom bound; selection must stop at 3/3.
    for _ in 0..10 {
        d = d.handle(Input::Char('j'), three()).unwrap();
    }
    assert_eq!(sessions_title(d.selected, three()), " Sessions 3/3 ");
}

#[test]
fn mouse_wheel_scroll_moves_selection_and_clamps() {
    let mut d = Dashboard::new();
    // Two wheel-down events land on 3/3.
    d = d.handle(Input::ScrollDown, three()).unwrap();
    d = d.handle(Input::ScrollDown, three()).unwrap();
    assert!(sessions_title(d.selected, three()).contains("Sessions 3/3"));
    // One wheel-up steps back to 2/3.
    d = d.handle(Input::ScrollUp, three()).unwrap();
    assert!(sessions_title(d.selected, three()).contains("Sessions 2/3"));
    // Hammering wheel-up past the top clamps at 1/3.
    for _ in 0..10 {
        d = d.handle(Input::ScrollUp, three()).unwrap();
    }
    assert!(sessions_title(d.selected, three()).contains("Sessions 1/3"));
}

#[test]
fn esc_key_also_quits_cleanly() {
    assert_eq!(Dashboard::new().handle(Input::Esc, three()), None);
    assert_eq!(Dashboard::new().handle(Input::Char('q'), three()), None);
}

#[test]
fn r_rescan_picks_up_new_sessions() {
    let d = Dashboard::new().framed(three());
    assert_eq!(d.refresh(0), Refresh::Keep);
    let d = d.handle(Input::Char('r'), three()).unwrap();
    assert_eq!(d.refresh(0), Refresh::Rescan);
    let d = d.framed(4);
    assert!(sessions_title(d.selected, 4).contains("Sessions 1/4"));
    assert_eq!(d.refresh(29), Refresh::Keep);
    assert_eq!(d.refresh(30), Refresh::Reload);
}

#[test]
fn empty_memex_renders_empty_dashboard_without_panicking() {
    let d = Dashboard { selected: 7, mode: ChartMode::Tokens, force_rescan: false }.framed(0);
    assert_eq!(sessions_title(d.selected, 0), " Sessions 0/0 ");
    assert_eq!(d.handle(Input::Down, 0).unwrap().selected, 0);
}

#[test]
fn c_cycles_chart_mode_tokens_cost_sessions() {
    let mut d = Dashboard::new();
    assert_eq!(chart_title(d.mode), " Activity · tokens ");
    d = d.handle(Input::Char('c'), three()).unwrap();
    assert_eq!(chart_title(d.mode), " Activity · cost ");
    d = d.handle(Input::Char('c'), three()).unwrap();
    assert_eq!(chart_title(d.mode), " Activity · sessions ");
    d = d.handle(Input::Char('c'), three()).unwrap();
    assert_eq!(d.mode, ChartMode::Tokens);
    assert_eq!(d.handle(Input::Other, three()), Some(d));
    assert_eq!(d.handle(Input::Char('x'), three()), Some(d));
}

#[test]
fn thousands_are_grouped() {
    assert_eq!(thousands(0), "0");
    assert_eq!(thousands(999), "999");
    assert_eq!(thousands(1_000), "1,000");
    assert_eq!(thousands(12_345), "12,345");
    assert_eq!(thousands(123_456), "123,456");
    assert_eq!(thousands(u64::MAX), "18,446,744,073,709,551,615");
}

#[test]
fn signed_dollars() {
    assert_eq!(signed_usd(num(1.5)), "+$1.50");
    assert_eq!(signed_usd(num(-0.25)), "-$0.25");
    assert_eq!(signed_usd(num(0.0)), "+$0.00");
    assert_eq!(signed_usd(num(f64::NAN)), "$NaN");
}

fn empty_report() -> Report {
    let mut rep = failed_report(1_000_000, None, "x");
    rep.usage_note = None;
    rep
}

fn stats() -> TurnStats {
    TurnStats {
        completed: 12,
        p50_ms: Some(240_000),
        p95_ms: None,
        by_agent: vec![],
        intervention_rate: Some(num(0.255)),
        zero_intervention_rate: None,
        rework_turns: 0,
        human_latency_p50_ms: None,
        human_latency_total_ms: 0,
    }
}

fn digest() -> UsageDigest {
    UsageDigest {
        events: 1_234,
        total_tokens: 25_000,
        known_cost_usd: num(4.5),
        missed_tokens: 4_000,
        missed_cost_usd: num(0.25),
        miss_count: 3_000,
        idle_misses: 2,
        model_switch_misses: 1,
        by_source: vec![SourceDigest {
            source: "aider".into(),
            events: 10,
            total_tokens: 25_000,
            known_cost_usd: num(1.5),
            missed_tokens: 4_000,
        }],
        cache_read_tokens: 15_000,
        input_tokens: 20_000,
        cache_hit_rate: Some(num(0.6)),
        by_model: (0..4)
            .map(|i| ModelDigest {
                model: format!("a-very-long-model-name-{i}"),
                events: 1,
                total_tokens: 900 + i,
                known_cost_usd: num(0.5),
            })
            .collect(),
    }
}

#[test]
fn nothing_known_shows_no_status() {
    assert!(status_lines(&empty_report()).is_empty());
    let lines = usage_lines(&empty_report());
    assert_eq!(lines.len(), 1);
    assert_eq!(text(&lines[0]), "token usage unavailable");
    let lines = usage_lines(&failed_report(0, None, "no index"));
    assert_eq!(text(&lines[1]), "scan failed: no index");
}

#[test]
fn status_shows_spend_change_fleet_and_turns() {
    let mut rep = empty_report();
    rep.burn_rate_usd_per_hr = Some(num(2.5));
    rep.today_cost_usd = Some(num(10.0));
    rep.usage = Some(digest());
    rep.wow = Some(Wow { cost_usd: num(3.0), missed_cost_usd: num(0.0) });
    rep.fleet = Some(FleetSnapshot {
        working: 2,
        blocked: 1,
        idle: 3,
        churn: vec![],
        sampled_at_ms: 1,
    });
    rep.turns = Some(stats());
    let lines = status_lines(&rep);
    assert_eq!(lines.len(), 4);
    assert_eq!(text(&lines[0]), "spend         burn $2.50/hrtoday $10.00");
    assert_eq!(lines[0].spans.len(), 3);
    assert_eq!(text(&lines[1]), "vs prior      +$1.50 (+50.0%)");
    assert_eq!(lines[1].spans[1].style.fg, Some(Color::Red));
    assert_eq!(text(&lines[2]), "fleet         2 working · 1 blocked · 3 idle");
    assert_eq!(lines[2].spans[1].style.fg, Some(Color::Red));
    assert_eq!(
        text(&lines[3]),
        format!("turns         12 · p50 4m · p95 n/a · IR {:.0}%", 0.255 * 100.0)
    );

    rep.wow = Some(Wow { cost_usd: num(0.0), missed_cost_usd: num(0.0) });
    assert_eq!(text(&status_lines(&rep)[1]), "vs prior      +$4.50");
    rep.wow = Some(Wow { cost_usd: num(7.1), missed_cost_usd: num(0.0) });
    let delta = 4.5 - 7.1;
    let line = &status_lines(&rep)[1];
    assert_eq!(
        text(line),
        format!("vs prior      -${:.2} ({:+.1}%)", -delta, delta / 7.1 * 100.0)
    );
    assert_eq!(line.spans[1].style.fg, Some(Color::Green));
}

#[test]
fn usage_panel_lists_everything_in_order() {
    let mut rep = empty_report();
    rep.usage = Some(digest());
    rep.reasoning_tokens = 40;
    rep.reasoning_share = Some(num(0.4));
    rep.bloating_sessions = vec![BloatSession {
        session_id: "0123456789abcdef".into(),
        project: "/w/bloat".into(),
        last_uncached_input: 150_000,
    }];
    let lines: Vec<String> = usage_lines(&rep).iter().map(text).collect();
    assert_eq!(
        lines,
        vec![
            "events        1,234",
            "tokens        25.0K",
            "cost          $4.50",
            "hit-rate      60.0% of 20.0K prompt tokens",
            "reasoning     40 tokens (40.0% of output)",
            "",
            "cache waste",
            "  tokens      4.0K",
            "  wasted cost $0.25",
            "  misses      3,000",
            "  after idle  2",
            "  switches    1",
            "bloat         0123456789ab (/w/bloat) at 150.0K uncached",
            "",
            "aider      25.0K  $1.50",
            "",
            "top models",
            "a-very-long-mo     900  $0.50",
            "a-very-long-mo     901  $0.50",
            "a-very-long-mo     902  $0.50",
        ]
    );
    // The hit rate is green from 60 %, yellow from 30 %, red below.
    let color = |share: f64| {
        let mut rep = empty_report();
        let mut d = digest();
        d.cache_hit_rate = Some(num(share));
        rep.usage = Some(d);
        usage_lines(&rep)[3].spans[1].style.fg
    };
    assert_eq!(color(0.6), Some(Color::Green));
    assert_eq!(color(0.5999), Some(Color::Yellow));
    assert_eq!(color(0.3), Some(Color::Yellow));
    assert_eq!(color(0.2999), Some(Color::Red));
}

#[test]
fn header_tips_table_and_footer() {
    let mut rep = empty_report();
    assert_eq!(
        text(&header_line(&rep, 1_090_000)),
        " herdr analytics  all history · updated 1m"
    );
    rep.since_ms = Some(5);
    assert_eq!(
        text(&header_line(&rep, 1_000_000)),
        " herdr analytics  last 30d · updated 0s"
    );
    let live = Tips {
        generated_at_ms: 1,
        items: vec![
            Tip { pane_id: "p".into(), message: "now".into(), urgent: true },
            Tip { pane_id: "p".into(), message: "later".into(), urgent: false },
        ],
    };
    let lines = tips_lines(&live);
    assert_eq!(text(&lines[0]), " ! now");
    assert_eq!(lines[0].spans[0].style.fg, Some(Color::Red));
    assert!(lines[0].spans[0].style.bold);
    assert_eq!(text(&lines[1]), " · later");
    assert_eq!(tips_height(&live), 3);
    assert_eq!(tips_height(&Tips::default()), 0);
    assert_eq!(
        text(&footer_line()),
        " q quit  j/k move  c chart mode  r rescan now"
    );
    let p = ProjectStats {
        project: "alpha".into(),
        sessions: 3,
        messages: 42,
        active_ms: 5_580_000,
        last_at_ms: 1_000,
        sources: TextMap::new(),
    };
    let rows = sessions_table(&vec![p.clone(), p], 1, 61_000);
    assert_eq!(rows.len(), 2);
    assert_eq!(rows[0].cells, vec!["alpha", "3", "42", "1.6", "1m"]);
    assert_eq!(rows[0].style.bg, None);
    assert_eq!(rows[1].style.bg, Some(Color::DarkGray));
}

#[test]
fn heatmap_shades_by_share_of_the_peak() {
    let mut today = [0u64; 24];
    today[0] = 100;
    today[1] = 1;
    today[2] = 50;
    today[3] = 84;
    let lines = heatmap_lines(&vec![[0u64; 24], today]);
    assert_eq!(lines.len(), 7);
    assert_eq!(text(&lines[0]), format!("-1d {}", " ".repeat(24)));
    assert_eq!(text(&lines[1]), format!("-0d {}", " ".repeat(24)));
    assert_eq!(text(&lines[2]), format!("-d {}", " ".repeat(24)));
    let shade = |h: usize| lines[1].spans[1 + h].style.bg;
    for (h, v) in [(0usize, 100u64), (1, 1), (2, 50), (3, 84)] {
        let level = (1 + (v as f64 / 100.0 * 3.0).round() as usize).min(4);
        let expected = [236u8, 22, 28, 34, 40][level];
        assert_eq!(shade(h), Some(Color::Indexed(expected)));
    }
    assert_eq!(shade(4), Some(Color::Indexed(236)));
    assert_eq!(heatmap_lines(&vec![]).len(), 7);
    assert_eq!(heatmap_lines(&vec![[0u64; 24]; 8]).len(), 8);
}
