use herdr_analytics::config::{
    config_path, join_path, replace_extension, snapshot_path, store_json, store_log,
    write_snapshot, Config, NoStateDir,
    PluginPaths,
};
use herdr_analytics::live::{live_state_path, store_prev_revisions};
use herdr_analytics::tips::{store, tips_path, Tips};
use herdr_analytics::watch::{
    alert_state_path, loop_alerts_path, store_alert_state, store_loop_alerts, AlertState, LoopAlert,
};

#[test]
fn missing_config_file_falls_back_to_defaults() {
    assert_eq!(Config::load(None).scan_interval_secs, 900);
}

#[test]
fn valid_config_override_is_honored() {
    let mut c = Config::default();
    c.scan_interval_secs = 42;
    assert_eq!(Config::load(Some(c)).scan_interval_secs, 42);
}

#[test]
fn state_dir_env_override_wins_over_home_fallback() {
    // An explicit override must be used verbatim.
    let paths = PluginPaths::new(
        Some("/explicit".to_string()),
        Some("/plugin".to_string()),
        Some("/home/u".to_string()),
    )
    .unwrap();
    assert_eq!(paths.state_dir, "/explicit");
}

#[test]
fn state_dir_comes_from_the_host_then_from_home() {
    let paths =
        PluginPaths::new(None, Some("/plugin".to_string()), Some("/home/u".to_string())).unwrap();
    assert_eq!(paths.state_dir, "/plugin");
    let paths = PluginPaths::new(None, None, Some("/home/u".to_string())).unwrap();
    assert_eq!(paths.state_dir, "/home/u/.herdr-memex-analytics");
    let none = PluginPaths::new(None, None, None);
    assert!(matches!(none, Err(NoStateDir)));
    assert_eq!(NoStateDir.message(), "no state directory (set HOME or --state-dir)");
}

#[test]
fn defaults_are_as_documented() {
    let c = Config::default();
    assert_eq!(c.scan_interval_secs, 900);
    assert_eq!(c.daily_cost_usd, None);
    assert_eq!(c.block_burn_rate_usd_hr.bits, 15.0f64.to_bits());
    assert_eq!(c.context_bloat_tokens, 100_000);
}

#[test]
fn files_live_in_the_state_directory() {
    let paths = PluginPaths { state_dir: "/s".to_string() };
    assert_eq!(snapshot_path(&paths), "/s/snapshot.json");
    assert_eq!(config_path(&paths), "/s/config.toml");
    assert_eq!(tips_path(&paths), "/s/tips.json");
    assert_eq!(live_state_path(&paths), "/s/live-state.json");
    assert_eq!(loop_alerts_path(&paths), "/s/loop-alerts.json");
    assert_eq!(alert_state_path(&paths), "/s/alerts.json");
    assert_eq!(join_path("", "x"), "x");
    assert_eq!(join_path("/", "x"), "/x");
}

#[test]
fn files_are_replaced_by_renaming() {
    let paths = PluginPaths { state_dir: "/s".to_string() };
    for plan in [
        write_snapshot(&paths),
        store(&paths),
        store_prev_revisions(&paths),
        store_loop_alerts(&paths),
        store_alert_state(&paths),
    ] {
        assert_eq!(plan.tmp, format!("{}.tmp", plan.target));
        assert!(plan.target.ends_with(".json"));
    }
    assert_eq!(store_json("a.json".to_string()).tmp, "a.json.tmp");
    // Whatever the extension is, it gives way.
    for (path, tmp) in [
        ("snap", "snap.json.tmp"),
        ("/s/a.b.txt", "/s/a.b.json.tmp"),
        ("/s.d/snap", "/s.d/snap.json.tmp"),
        ("/s/.hidden", "/s/.hidden.json.tmp"),
        ("a.", "a.json.tmp"),
        ("...b", "...json.tmp"),
        ("/s/a.json/./", "/s/a.json.tmp"),
        ("", ""),
        ("/", "/"),
        (".", "."),
        ("./", "./"),
        ("s/..", "s/.."),
    ] {
        let plan = store_json(path.to_string());
        assert_eq!(plan.tmp, tmp);
        assert_eq!(plan.target, path);
        assert_eq!(std::path::Path::new(path).with_extension("json.tmp").to_str(), Some(tmp));
    }
    let plan = store_log("/s/turns.jsonl".to_string());
    assert_eq!(plan.tmp, "/s/turns.jsonl.tmp");
    assert_eq!(plan.target, "/s/turns.jsonl");
    assert_eq!(store_log("log".to_string()).tmp, "log.jsonl.tmp");
    assert_eq!(replace_extension("a/b.c", "d"), "a/b.d");
    assert_eq!(replace_extension("..b", "d"), "..d");
}

#[test]
fn what_was_never_stored_starts_empty() {
    let loaded = Tips::default();
    assert_eq!(loaded.generated_at_ms, 0);
    assert!(loaded.items.is_empty());
    assert_eq!(LoopAlert::default().count, 0);
    assert!(AlertState::default().last_daily_date.is_none());
}
