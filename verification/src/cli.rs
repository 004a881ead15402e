//! The commands, and what each asks for.

use vstd::prelude::*;
use vstd::string::*;

use crate::config::Config;
use crate::report::Filters;
use crate::since::{can_reckon, parse_since, reckonable, window_start, SinceError};
use crate::text::opt_text;

verus! {

/// A command line.
#[derive(Debug)]
pub struct Cli {
    /// memex data directory override (default ~/.memex)
    pub root: Option<String>,
    /// Plugin state directory override (default $HERDR_PLUGIN_STATE_DIR, else
    /// ~/.herdr-memex-analytics)
    pub state_dir: Option<String>,
    pub cmd: Cmd,
}

/// A command.
#[derive(Debug)]
pub enum Cmd {
    /// Print the efficiency report; prefers a fresh daemon snapshot over rescanning
    Report {
        since: Option<String>,
        project: Option<String>,
        all: bool,
        json: bool,
        watch: bool,
        interval_secs: u64,
    },
    /// Interactive dashboard for a herdr pane
    Ui,
    /// Compute once and write the snapshot JSON (one daemon scan cycle)
    Snapshot { since: Option<String>, project: Option<String>, all: bool },
    /// Handle one event of the host
    EventHook { event_json: Option<String> },
    /// Background daemon: refresh the snapshot on a fixed cadence
    Watch { scan_interval_secs: Option<u64> },
}

/// What a command line asks for.
#[derive(Debug)]
pub enum Request {
    /// Print a report, as JSON or as text; every `every_secs` seconds where that is given.
    Report { filters: Filters, json: bool, every_secs: Option<u64> },
    /// Show the dashboard.
    Ui { filters: Filters },
    /// Write a snapshot.
    Snapshot { filters: Filters },
    /// Handle an event; the host's own where none is given.
    EventHook { event_json: Option<String> },
    /// Run the daemon.
    Watch { filters: Filters, interval_secs: u64 },
}

/// The window that a command asks for.
pub open spec fn asked_window(
    since: Option<String>,
    all: bool,
    now_ms: u64,
) -> Result<Option<u64>, SinceError> {
    window_start(opt_text(since), all, now_ms)
}

/// Whether filters are the given ones.
pub open spec fn filters_are(
    f: Filters,
    root: Option<Seq<char>>,
    since_ms: Option<u64>,
    project: Option<Seq<char>>,
    memo_ttl_ms: int,
) -> bool {
    opt_text(f.root) == root && f.since_ms == since_ms && opt_text(f.project) == project
        && f.memo_ttl_ms == memo_ttl_ms
}

/// The daemon's cadence: the one asked for, else that of the settings.
pub open spec fn cadence(asked: Option<u64>, cfg: Config) -> u64 {
    match asked {
        Some(secs) => secs,
        None => cfg.scan_interval_secs,
    }
}

/// How long the daemon's scans share a memo: twice its cadence in milliseconds, of which the last
/// 64 bits count.
pub open spec fn memo_span(interval_secs: u64) -> int {
    (interval_secs * 1000) % 0x1_0000_0000_0000_0000 * 2
}

/// Whether the numbers of a command line can be reckoned with.
pub open spec fn is_reckonable(cli: Cli, cfg: Config) -> bool {
    match cli.cmd {
        Cmd::Report { since, all, .. } => !all && since is Some ==> reckonable(since->0@),
        Cmd::Snapshot { since, all, .. } => !all && since is Some ==> reckonable(since->0@),
        Cmd::Watch { scan_interval_secs } => memo_span(
            cadence(scan_interval_secs, cfg),
        ) <= u64::MAX,
        _ => true,
    }
}

/// Whether `r` is what a command line asks for.
pub open spec fn is_asked(cli: Cli, cfg: Config, now_ms: u64, r: Result<Request, SinceError>) -> bool {
    let root = opt_text(cli.root);
    match cli.cmd {
        Cmd::Report { since, project, all, json, watch, interval_secs } => match asked_window(
            since,
            all,
            now_ms,
        ) {
            Ok(since_ms) => r matches Ok(Request::Report { filters, json: j, every_secs })
                && filters_are(filters, root, since_ms, opt_text(project), 0) && j == json
                && every_secs == (if watch {
                Some(interval_secs)
            } else {
                None
            }),
            Err(e) => r == Err::<Request, SinceError>(e),
        },
        Cmd::Ui => r matches Ok(Request::Ui { filters }) && filters_are(
            filters,
            root,
            None,
            None,
            0,
        ),
        Cmd::Snapshot { since, project, all } => match asked_window(since, all, now_ms) {
            Ok(since_ms) => r matches Ok(Request::Snapshot { filters }) && filters_are(
                filters,
                root,
                since_ms,
                opt_text(project),
                0,
            ),
            Err(e) => r == Err::<Request, SinceError>(e),
        },
        Cmd::EventHook { event_json } => r matches Ok(Request::EventHook { event_json: e })
            && opt_text(e) == opt_text(event_json),
        Cmd::Watch { scan_interval_secs } => r matches Ok(
            Request::Watch { filters, interval_secs },
        ) && interval_secs == cadence(scan_interval_secs, cfg) && filters_are(
            filters,
            root,
            None,
            None,
            memo_span(interval_secs),
        ),
    }
}

fn window(since: &Option<String>, all: bool, now_ms: u64) -> (r: Result<Option<u64>, SinceError>)
    requires
        !all && since is Some ==> reckonable(since->0@),
    ensures
        r == asked_window(*since, all, now_ms),
{
    match since {
        Some(text) => parse_since(Some(text.as_str()), all, now_ms),
        None => parse_since(None, all, now_ms),
    }
}

fn cadence_ms(interval_secs: u64) -> (r: u64)
    ensures
        r * 2 == memo_span(interval_secs),
{
    ((interval_secs as u128 * 1000) % 0x1_0000_0000_0000_0000u128) as u64
}

fn window_reckons(since: &Option<String>, all: bool) -> (r: bool)
    ensures
        r == (!all && since is Some ==> reckonable(since->0@)),
{
    if all {
        return true;
    }
    match since {
        Some(text) => can_reckon(text.as_str()),
        None => true,
    }
}

/// Whether the numbers of a command line can be reckoned with.
pub fn can_request(cli: &Cli, cfg: &Config) -> (r: bool)
    ensures
        r == is_reckonable(*cli, *cfg),
{
    match &cli.cmd {
        Cmd::Report { since, all, .. } => window_reckons(since, *all),
        Cmd::Snapshot { since, all, .. } => window_reckons(since, *all),
        Cmd::Watch { scan_interval_secs } => {
            let interval_secs: u64 = match scan_interval_secs {
                Some(secs) => *secs,
                None => cfg.scan_interval_secs,
            };
            cadence_ms(interval_secs) <= u64::MAX / 2
        },
        Cmd::Ui => true,
        Cmd::EventHook { .. } => true,
    }
}

/// What a command line asks for, seen at `now_ms`. The daemon always maintains the full-window
/// snapshot, and its scans share a memo for twice its cadence.
pub fn request(cli: Cli, cfg: &Config, now_ms: u64) -> (r: Result<Request, SinceError>)
    requires
        is_reckonable(cli, *cfg),
    ensures
        is_asked(cli, *cfg, now_ms, r),
{
    let root = cli.root;
    match cli.cmd {
        Cmd::Report { since, project, all, json, watch, interval_secs } => match window(
            &since,
            all,
            now_ms,
        ) {
            Ok(since_ms) => {
                let every_secs = if watch {
                    Some(interval_secs)
                } else {
                    None
                };
                Ok(
                    Request::Report {
                        filters: Filters { root, since_ms, project, memo_ttl_ms: 0 },
                        json,
                        every_secs,
                    },
                )
            },
            Err(e) => Err(e),
        },
        Cmd::Ui => Ok(
            Request::Ui {
                filters: Filters { root, since_ms: None, project: None, memo_ttl_ms: 0 },
            },
        ),
        Cmd::Snapshot { since, project, all } => match window(&since, all, now_ms) {
            Ok(since_ms) => Ok(
                Request::Snapshot { filters: Filters { root, since_ms, project, memo_ttl_ms: 0 } },
            ),
            Err(e) => Err(e),
        },
        Cmd::EventHook { event_json } => Ok(Request::EventHook { event_json }),
        Cmd::Watch { scan_interval_secs } => {
            let interval_secs: u64 = match scan_interval_secs {
                Some(secs) => secs,
                None => cfg.scan_interval_secs,
            };
            let span: u64 = cadence_ms(interval_secs);
            Ok(
                Request::Watch {
                    filters: Filters {
                        root,
                        since_ms: None,
                        project: None,
                        memo_ttl_ms: span * 2,
                    },
                    interval_secs,
                },
            )
        },
    }
}

} // verus!
