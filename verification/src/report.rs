//! The report: what is known of a window of sessions and their usage.

use vstd::prelude::*;
use vstd::string::*;

use crate::clock::{local_datetime, LocalStamp};
use crate::config::{join_path, joined_path};
use crate::double::Double;
use crate::group::lemma_groups_share_out;
use crate::live::{FleetSnapshot, FleetView};
use crate::order::total;
use crate::projects::{
    aggregate_projects, all_countable, lemma_tally_push, projects_countable, projects_of, tally,
    ProjectStats, ProjectView, SessionRow, SessionView,
};
use crate::text::{monus, opt_text, views};
use crate::textmap::TextMap;
use crate::turns::{TurnStats, TurnStatsView};
use crate::usage::{
    activity_heatmap, bloating_sessions, burn_rate, costliest, daily_series, day_cost, days_of,
    digest_from, digest_of, event_times, heat_of, lemma_nothing_to_rank, local_stamps, on_day,
    output_counts, project_usage_from, rate, rate_of, reasoning_and_output, reasoning_counts,
    recent, rows_of, series_of, spent, stamps_fit, stamps_tell, tokens_countable, worst_bloats,
    BloatSession, BloatView, DayPoint, DayView, DigestView, EventView, ProjectUsage,
    ProjectUsageView, UsageDigest, UsageEvent, UsageReport,
};

verus! {

/// Query filters shared by every entrypoint.
#[derive(Clone, Debug)]
pub struct Filters {
    /// memex data directory override (none = ~/.memex)
    pub root: Option<String>,
    pub since_ms: Option<u64>,
    pub project: Option<String>,
    /// In-process scan memo TTL; the daemon passes twice its interval so back-to-back cycles share
    /// one corpus assembly. Zero disables the memo.
    pub memo_ttl_ms: u64,
}

/// Week-over-week comparison inputs: the figures of the preceding equal-length window.
#[derive(Clone, Copy, Debug, PartialEq, Eq, Structural)]
pub struct Wow {
    pub cost_usd: Double,
    pub missed_cost_usd: Double,
}

/// A report.
#[derive(Clone, Debug)]
pub struct Report {
    pub generated_at_ms: u64,
    pub since_ms: Option<u64>,
    pub projects: Vec<ProjectStats>,
    /// Present only when memex has token usage tracking enabled.
    pub usage: Option<UsageDigest>,
    pub usage_note: Option<String>,
    /// Per-project cost attribution, top 10 by known cost; empty when usage tracking is disabled.
    pub project_usage: Vec<ProjectUsage>,
    /// Per-local-day activity for every day with usage events, oldest first.
    pub daily: Vec<DayPoint>,
    /// 7 rows = the last 7 local days oldest to newest; token sums per hour of day. Empty when no
    /// usage data.
    pub activity_heatmap: Vec<[u64; 24]>,
    /// Source-reported USD spent in the trailing hour (i.e. USD/hr); none when usage is
    /// unavailable.
    pub burn_rate_usd_per_hr: Option<Double>,
    /// Source-reported USD spent today (local date); none when usage is unavailable.
    pub today_cost_usd: Option<Double>,
    pub reasoning_tokens: u64,
    /// reasoning / output; none when no output tokens were seen.
    pub reasoning_share: Option<Double>,
    /// Sessions whose uncached prompt grew monotonically past the bloat threshold; worst 5 by
    /// final size.
    pub bloating_sessions: Vec<BloatSession>,
    /// Prior-window cost figures for week-over-week comparison; present only when the query window
    /// has a bounded start.
    pub wow: Option<Wow>,
    pub turns: Option<TurnStats>,
    /// Fleet status; only the daemon sets this.
    pub fleet: Option<FleetSnapshot>,
}

/// A report as mathematical values.
#[verifier::ext_equal]
pub struct ReportView {
    pub generated_at_ms: u64,
    pub since_ms: Option<u64>,
    pub projects: Seq<ProjectView>,
    pub usage: Option<DigestView>,
    pub usage_note: Option<Seq<char>>,
    pub project_usage: Seq<ProjectUsageView>,
    pub daily: Seq<DayView>,
    pub activity_heatmap: Seq<Seq<u64>>,
    pub burn_rate_usd_per_hr: Option<Double>,
    pub today_cost_usd: Option<Double>,
    pub reasoning_tokens: u64,
    pub reasoning_share: Option<Double>,
    pub bloating_sessions: Seq<BloatView>,
    pub wow: Option<Wow>,
    pub turns: Option<TurnStatsView>,
    pub fleet: Option<FleetView>,
}

/// The view of an optional value.
pub open spec fn opt_view<T: View>(v: Option<T>) -> Option<T::V> {
    match v {
        Some(x) => Some(x@),
        None => None,
    }
}

impl View for Report {
    type V = ReportView;

    open spec fn view(&self) -> ReportView {
        ReportView {
            generated_at_ms: self.generated_at_ms,
            since_ms: self.since_ms,
            projects: views(self.projects@),
            usage: opt_view(self.usage),
            usage_note: opt_text(self.usage_note),
            project_usage: views(self.project_usage@),
            daily: views(self.daily@),
            activity_heatmap: rows_of(self.activity_heatmap@),
            burn_rate_usd_per_hr: self.burn_rate_usd_per_hr,
            today_cost_usd: self.today_cost_usd,
            reasoning_tokens: self.reasoning_tokens,
            reasoning_share: self.reasoning_share,
            bloating_sessions: views(self.bloating_sessions@),
            wow: self.wow,
            turns: opt_view(self.turns),
            fleet: opt_view(self.fleet),
        }
    }
}

// ---------------------------------------------------------------- the prior window
/// The window before the one from `since_ms` to `now_ms`, of the same length, at least a
/// millisecond and not from before the epoch.
pub open spec fn prior_start(since_ms: u64, now_ms: u64) -> u64 {
    let span = monus(now_ms, since_ms);
    monus(since_ms, if span == 0 {
        1
    } else {
        span
    })
}

/// The window to compare with: none where the usage is unavailable or the window has no start.
pub fn prior_window(since_ms: Option<u64>, usage_known: bool, now_ms: u64) -> (r: Option<(u64, u64)>)
    ensures
        r == (if usage_known && since_ms is Some {
            Some((prior_start(since_ms->0, now_ms), since_ms->0))
        } else {
            None
        }),
{
    match since_ms {
        Some(since) => {
            if usage_known {
                let span: u64 = now_ms.saturating_sub(since);
                let back: u64 = if span == 0 {
                    1
                } else {
                    span
                };
                Some((since.saturating_sub(back), since))
            } else {
                None
            }
        },
        None => None,
    }
}

/// The window compared with is as long as the one of the report, as long as the epoch leaves room.
pub proof fn lemma_prior_window_is_as_long(since_ms: u64, now_ms: u64)
    requires
        since_ms < now_ms,
        now_ms - since_ms <= since_ms,
    ensures
        since_ms - prior_start(since_ms, now_ms) == now_ms - since_ms,
{
}

// ---------------------------------------------------------------- gathering
/// What a scan brought together.
#[derive(Debug)]
pub struct Scan {
    pub generated_at_ms: u64,
    pub since_ms: Option<u64>,
    /// The sessions of the window.
    pub rows: Vec<SessionRow>,
    /// The usage of the window, or why there is none.
    pub usage: Result<UsageReport, String>,
    pub bloat_threshold: u64,
    /// The figures of the prior window, where they were asked for and could be had.
    pub wow: Option<Wow>,
    pub turns: Option<TurnStats>,
}

impl Scan {
    /// The usage events; none where the usage is unavailable.
    pub open spec fn events(self) -> Seq<EventView> {
        match self.usage {
            Ok(rep) => views(rep.details@),
            Err(_) => Seq::empty(),
        }
    }

    /// Whether all that is summed up can be counted.
    pub open spec fn is_countable(self) -> bool {
        &&& all_countable(views(self.rows@))
        &&& total(reasoning_counts(self.events())) <= u64::MAX
        &&& total(output_counts(self.events())) <= u64::MAX
    }
}

/// The report on a scan, given the local days on which the sessions started, the local times of
/// the events and that of the report.
pub open spec fn report_of(
    scan: Scan,
    starts: Seq<LocalStamp>,
    stamps: Seq<LocalStamp>,
    today: LocalStamp,
) -> ReportView {
    let events = scan.events();
    let reasoning = total(reasoning_counts(events)) as u64;
    let output = total(output_counts(events)) as u64;
    ReportView {
        generated_at_ms: scan.generated_at_ms,
        since_ms: scan.since_ms,
        projects: projects_of(views(scan.rows@)),
        usage: match scan.usage {
            Ok(rep) => Some(digest_of(rep)),
            Err(_) => None,
        },
        usage_note: match scan.usage {
            Ok(_) => None,
            Err(why) => Some("token usage unavailable: "@ + why@),
        },
        project_usage: costliest(events),
        daily: series_of(events, days_of(stamps), tally(days_of(starts))),
        activity_heatmap: heat_of(events, stamps, today.number as int),
        burn_rate_usd_per_hr: if events.len() == 0 {
            None
        } else {
            Some(spent(events, recent(events, scan.generated_at_ms)))
        },
        today_cost_usd: if events.len() == 0 {
            None
        } else {
            Some(spent(events, on_day(stamps, today.day@)))
        },
        reasoning_tokens: reasoning,
        reasoning_share: rate_of(reasoning, output),
        bloating_sessions: worst_bloats(events, scan.bloat_threshold),
        wow: if scan.usage is Ok && scan.since_ms is Some {
            scan.wow
        } else {
            None
        },
        turns: opt_view(scan.turns),
        fleet: None,
    }
}

fn count_starts(starts: &Vec<LocalStamp>) -> (r: TextMap<u64>)
    ensures
        r@ == tally(days_of(starts@)),
{
    let ghost days = days_of(starts@);
    let mut r: TextMap<u64> = TextMap::new();
    let mut i: usize = 0;
    let count: usize = starts.len();
    assert(tally(days.take(0)) =~= Map::<Seq<char>, u64>::empty());
    while i < count
        invariant
            i <= count == starts@.len(),
            days == days_of(starts@),
            r@ == tally(days.take(i as int)),
        decreases count - i,
    {
        let day = starts[i].day.as_str();
        proof {
            lemma_tally_push(days.take(i as int), day@);
            assert(days.take(i + 1) =~= days.take(i as int).push(day@));
        }
        let seen: u64 = match r.get(day) {
            Some(n) => *n,
            None => 0,
        };
        r.insert(day.to_owned(), seen + 1);
        i = i + 1;
    }
    assert(days.take(i as int) =~= days);
    r
}

/// Whether all that a report on a scan sums up can be counted.
pub fn can_gather(scan: &Scan) -> (r: bool)
    ensures
        r == scan.is_countable(),
{
    let none: Vec<UsageEvent> = Vec::new();
    assert(views(none@) =~= Seq::<EventView>::empty());
    let events: &Vec<UsageEvent> = match &scan.usage {
        Ok(rep) => &rep.details,
        Err(_) => &none,
    };
    assert(views(events@) == scan.events());
    projects_countable(&scan.rows) && tokens_countable(events)
}

/// Puts a report together. `starts` are the local times at which the sessions started, `stamps`
/// those of the usage events and `today` that of the report.
pub fn assemble(
    scan: Scan,
    starts: &Vec<LocalStamp>,
    stamps: &Vec<LocalStamp>,
    today: &LocalStamp,
) -> (r: Report)
    requires
        scan.is_countable(),
        stamps_fit(stamps@, scan.events().len() as int),
    ensures
        r@ == report_of(scan, starts@, stamps@, *today),
{
    let projects = aggregate_projects(&scan.rows);
    let sessions_by_day = count_starts(starts);
    let none: Vec<UsageEvent> = Vec::new();
    assert(views(none@) =~= Seq::<EventView>::empty());
    let ghost shown = report_of(scan, starts@, stamps@, *today);
    let usage_known = match &scan.usage {
        Ok(_) => true,
        Err(_) => false,
    };
    let events: &Vec<UsageEvent> = match &scan.usage {
        Ok(rep) => &rep.details,
        Err(_) => &none,
    };
    assert(views(events@) == scan.events());
    assert(events@.len() == scan.events().len());
    let daily = daily_series(events, stamps, &sessions_by_day);
    let heat = activity_heatmap(events, stamps, today);
    let burn = burn_rate(events, scan.generated_at_ms);
    let today_cost = day_cost(events, stamps, today.day.as_str());
    let (reasoning, output) = reasoning_and_output(events);
    let bloat = bloating_sessions(events, scan.bloat_threshold);
    let per_project = project_usage_from(events);
    let (usage, note) = match &scan.usage {
        Ok(rep) => (Some(digest_from(rep)), None),
        Err(why) => {
            let mut text = "token usage unavailable: ".to_owned();
            text.append(why.as_str());
            (None, Some(text))
        },
    };
    let wow = match scan.since_ms {
        Some(_) => if usage_known {
            scan.wow
        } else {
            None
        },
        None => None,
    };
    Report {
        generated_at_ms: scan.generated_at_ms,
        since_ms: scan.since_ms,
        projects,
        usage,
        usage_note: note,
        project_usage: per_project,
        daily,
        activity_heatmap: heat,
        burn_rate_usd_per_hr: burn,
        today_cost_usd: today_cost,
        reasoning_tokens: reasoning,
        reasoning_share: rate(reasoning, output),
        bloating_sessions: bloat,
        wow,
        turns: scan.turns,
        fleet: None,
    }
}

/// When each session started.
pub open spec fn start_times(rows: Seq<SessionView>) -> Seq<u64> {
    rows.map_values(|r: SessionView| r.started_at)
}

fn start_stamps(rows: &Vec<SessionRow>) -> (r: Vec<LocalStamp>)
    ensures
        stamps_tell(r@, start_times(views(rows@))),
{
    let mut r: Vec<LocalStamp> = Vec::new();
    let mut i: usize = 0;
    while i < rows.len()
        invariant
            i <= rows@.len(),
            stamps_tell(r@, start_times(views(rows@)).take(i as int)),
        decreases rows@.len() - i,
    {
        r.push(local_datetime(rows[i].started_at));
        i = i + 1;
    }
    assert(start_times(views(rows@)).take(i as int) =~= start_times(views(rows@)));
    r
}

/// Puts a report together, in the machine's local time: whatever that is, the report is the one
/// that follows from it.
pub fn gather(scan: Scan) -> (r: Report)
    requires
        scan.is_countable(),
    ensures
        exists|starts: Seq<LocalStamp>, stamps: Seq<LocalStamp>, today: LocalStamp|
            {
                &&& stamps_tell(starts, start_times(views(scan.rows@)))
                &&& stamps_tell(stamps, event_times(scan.events()))
                &&& today.tells(scan.generated_at_ms)
                &&& r@ == #[trigger] report_of(scan, starts, stamps, today)
            },
{
    let starts = start_stamps(&scan.rows);
    let none: Vec<UsageEvent> = Vec::new();
    assert(views(none@) =~= Seq::<EventView>::empty());
    let stamps = match &scan.usage {
        Ok(rep) => local_stamps(&rep.details),
        Err(_) => local_stamps(&none),
    };
    let today = local_datetime(scan.generated_at_ms);
    assert(stamps_fit(stamps@, scan.events().len() as int));
    assemble(scan, &starts, &stamps, &today)
}

/// Where the usage is unavailable, nothing is claimed of it: no figures, no days, no spend and no
/// comparison, only a note that says why.
pub proof fn lemma_no_usage_no_claims(
    scan: Scan,
    starts: Seq<LocalStamp>,
    today: LocalStamp,
)
    requires
        scan.usage is Err,
    ensures
        report_of(scan, starts, Seq::empty(), today) == (ReportView {
            generated_at_ms: scan.generated_at_ms,
            since_ms: scan.since_ms,
            projects: projects_of(views(scan.rows@)),
            turns: opt_view(scan.turns),
            usage_note: Some("token usage unavailable: "@ + scan.usage->Err_0@),
            ..failed_view(scan.generated_at_ms, scan.since_ms, Seq::empty())
        }),
{
    let events = Seq::<EventView>::empty();
    let shown = report_of(scan, starts, Seq::empty(), today);
    lemma_nothing_to_rank(events, scan.bloat_threshold);
    lemma_groups_share_out(days_of(Seq::empty()));
    assert(shown.daily =~= Seq::<DayView>::empty());
    assert(shown.project_usage =~= Seq::<ProjectUsageView>::empty());
    assert(shown.bloating_sessions =~= Seq::<BloatView>::empty());
    assert(total(reasoning_counts(events)) == 0);
    assert(total(output_counts(events)) == 0);
}

/// What is told where usage tracking is off; `root` is memex's data directory.
pub fn disabled_note(root: &str) -> (r: String)
    ensures
        r@ == "disabled; set token_usage = true in "@ + joined_path(root@, "config.toml"@),
{
    let mut r = "disabled; set token_usage = true in ".to_owned();
    r.append(join_path(root, "config.toml").as_str());
    r
}

/// The report on a scan that failed.
pub open spec fn failed_view(generated_at_ms: u64, since_ms: Option<u64>, why: Seq<char>) -> ReportView {
    ReportView {
        generated_at_ms,
        since_ms,
        projects: Seq::empty(),
        usage: None,
        usage_note: Some("scan failed: "@ + why),
        project_usage: Seq::empty(),
        daily: Seq::empty(),
        activity_heatmap: Seq::empty(),
        burn_rate_usd_per_hr: None,
        today_cost_usd: None,
        reasoning_tokens: 0,
        reasoning_share: None,
        bloating_sessions: Seq::empty(),
        wow: None,
        turns: None,
        fleet: None,
    }
}

/// The report on a scan that failed: nothing but why.
pub fn failed_report(generated_at_ms: u64, since_ms: Option<u64>, why: &str) -> (r: Report)
    ensures
        r@ == failed_view(generated_at_ms, since_ms, why@),
{
    let mut note = "scan failed: ".to_owned();
    note.append(why);
    let r = Report {
        generated_at_ms,
        since_ms,
        projects: Vec::new(),
        usage: None,
        usage_note: Some(note),
        project_usage: Vec::new(),
        daily: Vec::new(),
        activity_heatmap: Vec::new(),
        burn_rate_usd_per_hr: None,
        today_cost_usd: None,
        reasoning_tokens: 0,
        reasoning_share: None,
        bloating_sessions: Vec::new(),
        wow: None,
        turns: None,
        fleet: None,
    };
    assert(r@ =~= failed_view(generated_at_ms, since_ms, why@));
    r
}

} // verus!
