use herdr_analytics::cli::{can_request, request, Cli, Cmd, Request};
use herdr_analytics::config::Config;
use herdr_analytics::since::{ago_ms, can_reckon, parse_since, since_date, SinceError};

const NOW: u64 = 1_790_000_000_000;
const DAY: u64 = 86_400_000;

#[test]
fn default_window_excludes_sessions_older_than_thirty_days() {
    let since = parse_since(None, false, NOW).unwrap().expect("default window is a bounded since");
    assert_eq!(since, NOW - 30 * DAY);
    assert!(NOW - 60 * DAY < since, "60-day-old session outside default window");
    assert_eq!(parse_since(None, true, NOW), Ok(None));
}

#[test]
fn since_flag_filters_by_activity_age() {
    assert_eq!(parse_since(Some("7d"), false, NOW), Ok(Some(NOW - 7 * DAY)));
    assert_eq!(parse_since(Some("2h"), false, NOW), Ok(Some(NOW - 7_200_000)));
}

#[test]
fn malformed_since_values_are_rejected_with_clear_errors() {
    for bad in ["banana", "5x", "2026-13-99"] {
        let err = parse_since(Some(bad), false, NOW).unwrap_err();
        let told = err.message(bad);
        assert!(told.contains("--since") || told.contains("bad"));
    }
    let err = parse_since(Some("-3d"), false, NOW).unwrap_err();
    assert_eq!(err, SinceError::BadDays);
    assert!(err.message("-3d").contains("bad --since"));
    assert_eq!(parse_since(Some("xh"), false, NOW), Err(SinceError::BadHours));
    assert_eq!(parse_since(Some("d"), false, NOW), Err(SinceError::BadDays));
    assert_eq!(parse_since(Some(""), false, NOW), Err(SinceError::BadDate));
}

#[test]
fn dates_start_at_midnight_utc() {
    assert_eq!(parse_since(Some("1970-01-02"), false, NOW), Ok(Some(DAY)));
    assert_eq!(parse_since(Some(" 2026-01-01 "), false, NOW), Ok(Some(1_767_225_600_000)));
    assert_eq!(parse_since(Some("1969-12-31"), false, NOW), Err(SinceError::BeforeEpoch));
    assert_eq!(parse_since(Some("0000-02-29"), false, NOW), Err(SinceError::BeforeEpoch));
    assert_eq!(parse_since(Some("9999-12-31"), false, NOW), Ok(Some(253_402_214_400_000)));
    assert_eq!(parse_since(Some("2024-02-29"), false, NOW), Ok(Some(1_709_164_800_000)));
    assert_eq!(parse_since(Some("2023-02-29"), false, NOW), Err(SinceError::BadDate));
    assert_eq!(parse_since(Some("1970-1-2"), false, NOW), Ok(Some(DAY)));
    assert_eq!(since_date(Some(719_163)), Ok(0));
    assert_eq!(since_date(Some(719_168)), Ok(5 * DAY));
    assert_eq!(since_date(Some(i32::MAX)), Ok((i32::MAX as u64 - 719_163) * DAY));
    assert_eq!(since_date(Some(719_162)), Err(SinceError::BeforeEpoch));
    assert_eq!(since_date(Some(i32::MIN)), Err(SinceError::BeforeEpoch));
    assert_eq!(since_date(None), Err(SinceError::BadDate));
}

#[test]
fn counts_are_read_as_counts() {
    assert_eq!(parse_since(Some(" +3d\t"), false, NOW), Ok(Some(NOW - 3 * DAY)));
    assert_eq!(parse_since(Some("0h"), false, NOW), Ok(Some(NOW)));
    assert_eq!(parse_since(Some("99999999d"), false, NOW), Ok(Some(0)));
    assert_eq!(ago_ms(10, 5_000), 0);
    assert_eq!(ago_ms(1, 5_000), 4_000);
}

#[test]
fn counts_too_large_to_reckon_are_told() {
    assert!(can_reckon("213503982334d"));
    assert!(!can_reckon("213503982335d"));
    assert!(can_reckon("5124095576030h"));
    assert!(!can_reckon("5124095576031h"));
    assert!(can_reckon("18446744073709551616d"));
    assert!(can_reckon("2026-01-01"));
    assert_eq!(
        parse_since(Some("18446744073709551616d"), false, NOW),
        Err(SinceError::BadDays)
    );
}

#[test]
fn every_error_says_what_is_wrong() {
    assert_eq!(SinceError::BadDays.message("xd"), "bad --since day count");
    assert_eq!(SinceError::BadHours.message("xh"), "bad --since hour count");
    assert_eq!(SinceError::BeforeEpoch.message("1969-01-01"), "--since before epoch");
    assert_eq!(
        SinceError::BadDate.message(" a \"b\"\n"),
        r#"bad --since value "a \"b\"" (use YYYY-MM-DD, Nd, or Nh)"#
    );
}

fn cli(cmd: Cmd) -> Cli {
    Cli { root: Some("/m".to_string()), state_dir: None, cmd }
}

#[test]
fn commands_ask_for_what_they_say() {
    let cfg = Config::default();
    let report = |since: Option<&str>, all: bool, watch: bool| {
        request(
            cli(Cmd::Report {
                since: since.map(str::to_string),
                project: Some("p".to_string()),
                all,
                json: true,
                watch,
                interval_secs: 30,
            }),
            &cfg,
            NOW,
        )
    };
    match report(Some("1d"), false, true) {
        Ok(Request::Report { filters, json, every_secs }) => {
            assert_eq!(filters.root.as_deref(), Some("/m"));
            assert_eq!(filters.since_ms, Some(NOW - DAY));
            assert_eq!(filters.project.as_deref(), Some("p"));
            assert_eq!(filters.memo_ttl_ms, 0);
            assert!(json);
            assert_eq!(every_secs, Some(30));
        }
        _ => panic!("a report"),
    }
    match report(Some("nonsense"), true, false) {
        Ok(Request::Report { filters, every_secs, .. }) => {
            assert_eq!(filters.since_ms, None, "--all wins over any value");
            assert_eq!(every_secs, None);
        }
        _ => panic!("a report"),
    }
    assert!(matches!(report(Some("nonsense"), false, false), Err(SinceError::BadDate)));
    match request(cli(Cmd::Watch { scan_interval_secs: None }), &cfg, NOW) {
        Ok(Request::Watch { filters, interval_secs }) => {
            assert_eq!(interval_secs, 900);
            assert_eq!(filters.memo_ttl_ms, 1_800_000);
            assert_eq!(filters.since_ms, None);
        }
        _ => panic!("the daemon"),
    }
    match request(cli(Cmd::Watch { scan_interval_secs: Some(1) }), &cfg, NOW) {
        Ok(Request::Watch { interval_secs, .. }) => assert_eq!(interval_secs, 1),
        _ => panic!("the daemon"),
    }
    assert!(matches!(request(cli(Cmd::Ui), &cfg, NOW), Ok(Request::Ui { .. })));
    let watch = |secs| cli(Cmd::Watch { scan_interval_secs: Some(secs) });
    assert!(can_request(&watch(9_223_372_036_854_775), &cfg));
    assert!(!can_request(&watch(9_223_372_036_854_776), &cfg));
    // Past 64 bits of milliseconds only the last 64 count.
    match request(watch(1 << 62), &cfg, NOW) {
        Ok(Request::Watch { filters, .. }) => assert_eq!(filters.memo_ttl_ms, 0),
        _ => panic!("the daemon"),
    }
    let snapshot = |since: &str, all| {
        cli(Cmd::Snapshot { since: Some(since.to_string()), project: None, all })
    };
    assert!(!can_request(&snapshot("213503982335d", false), &cfg));
    assert!(can_request(&snapshot("213503982335d", true), &cfg));
    assert!(can_request(&snapshot("7d", false), &cfg));
    assert!(matches!(
        request(cli(Cmd::EventHook { event_json: Some("{}".to_string()) }), &cfg, NOW),
        Ok(Request::EventHook { event_json: Some(e) }) if e == "{}"
    ));
    assert!(matches!(
        request(
            cli(Cmd::Snapshot { since: None, project: None, all: false }),
            &cfg,
            NOW
        ),
        Ok(Request::Snapshot { filters }) if filters.since_ms == Some(NOW - 30 * DAY)
    ));
}
