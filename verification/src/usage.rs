//! Token usage: what the events of a scan say about spend, models, projects and sessions.

use vstd::prelude::*;
use vstd::string::*;

use crate::calendar::{has_plain_year, lemma_days_in_order};
use crate::clock::{local_datetime, LocalStamp};
use crate::double::{
    lemma_rank_orders, lemma_rates_are_shares, number, ratio_units, summed, Double, SIGN,
};
use crate::group::{
    grouped, groups, lemma_groups_share_out, lemma_members, lemma_shares_add_up,
    lemma_sizes_add_up,
};
use crate::order::{
    ascending, capped, descending, goes_before, is_order, lemma_has_order, lemma_order_keeps_total,
    lemma_part_total, order_of, picked, total, turned,
};
use crate::text::{
    arrange, arranged, lemma_lex_irreflexive, lemma_lex_transitive, lex_lt, monus, opt_text,
    same_text, views, Replica,
};
use crate::textmap::{
    dict, is_sorted, lemma_dict_at, listing_of, slot, sorted_listing, TextMap,
};

verus! {

/// The tokens of an event.
#[derive(Clone, Copy, Debug, PartialEq, Eq, Structural)]
pub struct TokenCounts {
    pub uncached_input: u64,
    pub cache_read: u64,
    pub cache_write: u64,
    pub output: u64,
    pub reasoning: u64,
    /// All tokens of the event, as memex counts them.
    pub total: u64,
}

/// One usage event of a scan.
#[derive(Debug)]
pub struct UsageEvent {
    pub timestamp_ms: u64,
    pub tokens: TokenCounts,
    pub model: Option<String>,
    pub project: Option<String>,
    pub session_id: Option<String>,
    /// What the provider reported the event to cost.
    pub source_cost_usd: Option<Double>,
}

/// A usage event with its texts as sequences of characters.
#[verifier::ext_equal]
pub struct EventView {
    pub timestamp_ms: u64,
    pub tokens: TokenCounts,
    pub model: Option<Seq<char>>,
    pub project: Option<Seq<char>>,
    pub session_id: Option<Seq<char>>,
    pub source_cost_usd: Option<Double>,
}

impl View for UsageEvent {
    type V = EventView;

    open spec fn view(&self) -> EventView {
        EventView {
            timestamp_ms: self.timestamp_ms,
            tokens: self.tokens,
            model: opt_text(self.model),
            project: opt_text(self.project),
            session_id: opt_text(self.session_id),
            source_cost_usd: self.source_cost_usd,
        }
    }
}

// ---------------------------------------------------------------- cost
/// The cost an event is known to have.
pub open spec fn known_cost(e: EventView) -> Double {
    match e.source_cost_usd {
        Some(c) => if c.is_amount() {
            c
        } else {
            Double { bits: 0 }
        },
        None => Double { bits: 0 },
    }
}

/// Per-event cost memex actually charged for, from the provider-reported figure. memex's catalog
/// fallback pricing is not exposed per event, so events without a reported figure contribute
/// tokens but no cost here.
pub fn event_known_cost_usd(event: &UsageEvent) -> (r: Double)
    ensures
        r == known_cost(event@),
        r.is_spend(),
{
    match event.source_cost_usd {
        Some(c) => if c.is_finite_amount() {
            c
        } else {
            Double::zero()
        },
        None => Double::zero(),
    }
}

/// The costs of the events at some positions.
pub open spec fn costs_at(events: Seq<EventView>, at: Seq<usize>) -> Seq<Double> {
    at.map_values(|i: usize| known_cost(events[i as int]))
}

/// The sum of the costs of the events at some positions, counting up from zero.
pub open spec fn cost_of(events: Seq<EventView>, at: Seq<usize>) -> Double {
    summed(Double { bits: 0 }, costs_at(events, at))
}

/// The token totals of the events.
pub open spec fn token_totals(events: Seq<EventView>) -> Seq<u64> {
    events.map_values(|e: EventView| e.tokens.total)
}

/// The tokens of the events at some positions.
pub open spec fn tokens_of(events: Seq<EventView>, at: Seq<usize>) -> u64 {
    capped(total(picked(token_totals(events), at)))
}

fn sum_tokens(events: &Vec<UsageEvent>, at: &Vec<usize>) -> (r: u64)
    requires
        forall|k: int| 0 <= k < at@.len() ==> #[trigger] at@[k] < events@.len(),
    ensures
        r == tokens_of(views(events@), at@),
{
    let ghost all = picked(token_totals(views(events@)), at@);
    let mut sum: u64 = 0;
    let mut i: usize = 0;
    while i < at.len()
        invariant
            i <= at@.len(),
            all == picked(token_totals(views(events@)), at@),
            forall|k: int| 0 <= k < at@.len() ==> #[trigger] at@[k] < events@.len(),
            sum == capped(total(all.take(i as int))),
        decreases at@.len() - i,
    {
        proof {
            assert(all.take(i + 1).drop_last() =~= all.take(i as int));
            assert(all.take(i + 1).last() == events@[at@[i as int] as int].tokens.total);
        }
        sum = sum.saturating_add(events[at[i]].tokens.total);
        i = i + 1;
    }
    assert(all.take(i as int) =~= all);
    sum
}

fn sum_costs(events: &Vec<UsageEvent>, at: &Vec<usize>, start: Double) -> (r: Double)
    requires
        start.is_spend(),
        forall|k: int| 0 <= k < at@.len() ==> #[trigger] at@[k] < events@.len(),
    ensures
        r == summed(start, costs_at(views(events@), at@)),
        r.is_spend(),
{
    let ghost all = costs_at(views(events@), at@);
    let mut sum = start;
    let mut i: usize = 0;
    assert(all.take(0) =~= Seq::<Double>::empty());
    while i < at.len()
        invariant
            i <= at@.len(),
            all == costs_at(views(events@), at@),
            forall|k: int| 0 <= k < at@.len() ==> #[trigger] at@[k] < events@.len(),
            sum == summed(start, all.take(i as int)),
            sum.is_spend(),
        decreases at@.len() - i,
    {
        proof {
            assert(all.take(i + 1).drop_last() =~= all.take(i as int));
            assert(views(events@)[at@[i as int] as int] == events@[at@[i as int] as int]@);
            assert(all.take(i + 1).last() == known_cost(events@[at@[i as int] as int]@));
        }
        sum = Double::add(sum, event_known_cost_usd(&events[at[i]]));
        i = i + 1;
    }
    assert(all.take(i as int) =~= all);
    sum
}

// ---------------------------------------------------------------- names
/// The name, or a stand-in where there is none.
pub open spec fn shown_name(name: Option<Seq<char>>) -> Seq<char> {
    match name {
        Some(n) => if n.len() > 0 {
            n
        } else {
            "unknown"@
        },
        None => "unknown"@,
    }
}

/// The name to show, or a stand-in where there is none.
pub fn display_project(project: &Option<String>) -> (r: String)
    ensures
        r@ == shown_name(opt_text(*project)),
{
    match project {
        Some(name) => {
            if name.as_str().unicode_len() > 0 {
                name.clone()
            } else {
                "unknown".to_owned()
            }
        },
        None => "unknown".to_owned(),
    }
}

// ---------------------------------------------------------------- days
/// The time of each event.
pub open spec fn event_times(events: Seq<EventView>) -> Seq<u64> {
    events.map_values(|e: EventView| e.timestamp_ms)
}

/// Whether each local time can be that of the moment it stands for.
pub open spec fn stamps_tell(stamps: Seq<LocalStamp>, times: Seq<u64>) -> bool {
    stamps.len() == times.len() && forall|i: int|
        0 <= i < stamps.len() ==> (#[trigger] stamps[i]).tells(times[i])
}

/// The local time of each event.
pub fn local_stamps(events: &Vec<UsageEvent>) -> (r: Vec<LocalStamp>)
    ensures
        stamps_tell(r@, event_times(views(events@))),
{
    let mut r: Vec<LocalStamp> = Vec::new();
    let mut i: usize = 0;
    while i < events.len()
        invariant
            i <= events@.len(),
            stamps_tell(r@, event_times(views(events@)).take(i as int)),
        decreases events@.len() - i,
    {
        r.push(local_datetime(events[i].timestamp_ms));
        i = i + 1;
    }
    assert(event_times(views(events@)).take(i as int) =~= event_times(views(events@)));
    r
}

/// Whether there are `n` local times.
pub open spec fn stamps_fit(stamps: Seq<LocalStamp>, n: int) -> bool {
    stamps.len() == n && forall|i: int|
        0 <= i < stamps.len() ==> (#[trigger] stamps[i]).is_valid()
}

/// The local day of each event.
pub open spec fn days_of(stamps: Seq<LocalStamp>) -> Seq<Seq<char>> {
    stamps.map_values(|s: LocalStamp| s.day@)
}

/// What happened on one local day.
#[derive(Clone, Debug)]
pub struct DayPoint {
    /// Local calendar day, YYYY-MM-DD.
    pub date: String,
    pub tokens: u64,
    pub cost_usd: Double,
    pub events: u64,
    pub sessions: u64,
}

/// A day with its date as a sequence of characters.
#[verifier::ext_equal]
pub struct DayView {
    pub date: Seq<char>,
    pub tokens: u64,
    pub cost_usd: Double,
    pub events: u64,
    pub sessions: u64,
}

impl View for DayPoint {
    type V = DayView;

    open spec fn view(&self) -> DayView {
        DayView {
            date: self.date@,
            tokens: self.tokens,
            cost_usd: self.cost_usd,
            events: self.events,
            sessions: self.sessions,
        }
    }
}

/// The day that the events at some positions make, with the sessions that started on it.
pub open spec fn day_of(
    events: Seq<EventView>,
    day: Seq<char>,
    at: Seq<usize>,
    sessions: Map<Seq<char>, u64>,
) -> DayView {
    DayView {
        date: day,
        tokens: tokens_of(events, at),
        cost_usd: cost_of(events, at),
        events: at.len() as u64,
        sessions: if sessions.contains_key(day) {
            sessions[day]
        } else {
            0
        },
    }
}

/// A point for every local day with events, oldest first.
pub open spec fn series_of(
    events: Seq<EventView>,
    days: Seq<Seq<char>>,
    sessions: Map<Seq<char>, u64>,
) -> Seq<DayView> {
    sorted_listing(groups(days)).map_values(
        |e: (Seq<char>, Seq<usize>)| day_of(events, e.0, e.1, sessions),
    )
}

/// Copies of the local days.
fn day_labels(stamps: &Vec<LocalStamp>) -> (r: Vec<String>)
    ensures
        views(r@) == days_of(stamps@),
{
    let mut r: Vec<String> = Vec::new();
    let mut i: usize = 0;
    while i < stamps.len()
        invariant
            i <= stamps@.len(),
            views(r@) =~= days_of(stamps@).take(i as int),
        decreases stamps@.len() - i,
    {
        let ghost done = r@;
        let day = stamps[i].day.clone();
        r.push(day);
        assert(views(r@) =~= views(done).push(days_of(stamps@)[i as int]));
        i = i + 1;
    }
    assert(views(r@) =~= days_of(stamps@));
    r
}

/// Per-local-day usage series over the query window, oldest first; session counts come from the
/// sessions table bucketed by local start date. `stamps` are the local times of the events.
pub fn daily_series(
    events: &Vec<UsageEvent>,
    stamps: &Vec<LocalStamp>,
    sessions_by_day: &TextMap<u64>,
) -> (r: Vec<DayPoint>)
    requires
        stamps@.len() == events@.len(),
    ensures
        views(r@) == series_of(views(events@), days_of(stamps@), sessions_by_day@),
{
    let ghost all = views(events@);
    let ghost days = days_of(stamps@);
    let labels = day_labels(stamps);
    let parts = grouped(&labels);
    let ghost listing = listing_of(parts@);
    let mut r: Vec<DayPoint> = Vec::new();
    let mut k: usize = 0;
    let count: usize = events.len();
    while k < parts.len()
        invariant
            k <= parts@.len(),
            count == events@.len(),
            all == views(events@),
            days.len() == events@.len(),
            listing == listing_of(parts@),
            is_sorted(listing),
            dict(listing) == groups(days),
            listing == sorted_listing(groups(days)),
            views(r@) =~= series_of(all, days, sessions_by_day@).take(k as int),
        decreases parts@.len() - k,
    {
        proof {
            lemma_dict_at(listing, k as int);
            lemma_members(days, listing[k as int].0);
        }
        let at: &Vec<usize> = &parts[k].1;
        let sessions: u64 = match sessions_by_day.get(parts[k].0.as_str()) {
            Some(n) => *n,
            None => 0,
        };
        let point = DayPoint {
            date: parts[k].0.clone(),
            tokens: sum_tokens(events, at),
            cost_usd: sum_costs(events, at, Double::zero()),
            events: at.len() as u64,
            sessions,
        };
        let ghost done = r@;
        r.push(point);
        assert(views(r@) =~= views(done).push(
            series_of(all, days, sessions_by_day@)[k as int],
        ));
        k = k + 1;
    }
    assert(views(r@) =~= series_of(all, days, sessions_by_day@));
    r
}

/// Every event is counted on exactly one day.
pub proof fn lemma_events_have_one_day(
    events: Seq<EventView>,
    days: Seq<Seq<char>>,
    sessions: Map<Seq<char>, u64>,
)
    requires
        days.len() == events.len() <= usize::MAX,
    ensures
        total(day_counts(series_of(events, days, sessions))) == events.len(),
{
    lemma_sizes_add_up(days, day_counts(series_of(events, days, sessions)));
}

/// The tokens of some days.
pub open spec fn day_tokens(points: Seq<DayView>) -> Seq<u64> {
    points.map_values(|p: DayView| p.tokens)
}

/// The tokens of the days add up to the tokens of all events, where these can be counted.
pub proof fn lemma_tokens_have_one_day(
    events: Seq<EventView>,
    days: Seq<Seq<char>>,
    sessions: Map<Seq<char>, u64>,
)
    requires
        days.len() == events.len() <= usize::MAX,
        total(token_totals(events)) <= u64::MAX,
    ensures
        total(day_tokens(series_of(events, days, sessions))) == total(token_totals(events)),
{
    lemma_shares_add_up(
        days,
        token_totals(events),
        day_tokens(series_of(events, days, sessions)),
    );
}

/// The events of some days.
pub open spec fn day_counts(points: Seq<DayView>) -> Seq<u64> {
    points.map_values(|p: DayView| p.events)
}

/// Whether a day is among some points.
pub open spec fn has_day(points: Seq<DayView>, day: Seq<char>) -> bool {
    exists|k: int| 0 <= k < points.len() && (#[trigger] points[k]).date == day
}

/// Each day with events has one point, and the dates ascend.
pub proof fn lemma_days_ascend(
    events: Seq<EventView>,
    days: Seq<Seq<char>>,
    sessions: Map<Seq<char>, u64>,
)
    ensures
        forall|a: int, b: int|
            0 <= a < b < series_of(events, days, sessions).len() ==> lex_lt(
                #[trigger] series_of(events, days, sessions)[a].date,
                #[trigger] series_of(events, days, sessions)[b].date,
            ),
        forall|i: int|
            0 <= i < days.len() ==> has_day(series_of(events, days, sessions), #[trigger] days[i]),
{
    let points = series_of(events, days, sessions);
    let s = sorted_listing(groups(days));
    lemma_groups_share_out(days);
    assert forall|a: int, b: int| 0 <= a < b < points.len() implies lex_lt(
        #[trigger] points[a].date,
        #[trigger] points[b].date,
    ) by {
        assert(lex_lt(s[a].0, s[b].0));
    }
    assert forall|i: int| 0 <= i < days.len() implies has_day(points, #[trigger] days[i]) by {
        assert(groups(days).contains_key(days[i]));
        assert(dict(s).contains_key(days[i]));
        let k = slot(s, days[i]);
        assert(s[k].0 == days[i]);
        assert(points[k].date == days[i]);
    }
}

/// The daily series stands oldest first: every point is the local day of an event, and of two
/// points the first is the earlier day, where the years have four digits.
pub proof fn lemma_days_are_oldest_first(
    events: Seq<EventView>,
    stamps: Seq<LocalStamp>,
    sessions: Map<Seq<char>, u64>,
)
    requires
        stamps_tell(stamps, event_times(events)),
        forall|i: int| 0 <= i < stamps.len() ==> has_plain_year((#[trigger] stamps[i]).number),
    ensures
        forall|a: int|
            0 <= a < series_of(events, days_of(stamps), sessions).len() ==> days_of(
                stamps,
            ).contains((#[trigger] series_of(events, days_of(stamps), sessions)[a]).date),
        forall|a: int, b: int, i: int, j: int|
            #![trigger series_of(events, days_of(stamps), sessions)[a], series_of(events, days_of(stamps), sessions)[b], stamps[i], stamps[j]]
            0 <= a < b < series_of(events, days_of(stamps), sessions).len() && 0 <= i < stamps.len()
                && 0 <= j < stamps.len() && stamps[i].day@ == series_of(
                events,
                days_of(stamps),
                sessions,
            )[a].date && stamps[j].day@ == series_of(events, days_of(stamps), sessions)[b].date
                ==> stamps[i].number < stamps[j].number,
{
    let days = days_of(stamps);
    let points = series_of(events, days, sessions);
    let s = sorted_listing(groups(days));
    lemma_days_ascend(events, days, sessions);
    lemma_groups_share_out(days);
    assert forall|a: int| 0 <= a < points.len() implies days.contains(
        (#[trigger] points[a]).date,
    ) by {
        lemma_dict_at(s, a);
        assert(groups(days).contains_key(s[a].0));
    }
    assert forall|a: int, b: int, i: int, j: int|
        #![trigger points[a], points[b], stamps[i], stamps[j]]
        0 <= a < b < points.len() && 0 <= i < stamps.len() && 0 <= j < stamps.len()
            && stamps[i].day@ == points[a].date && stamps[j].day@
            == points[b].date implies stamps[i].number < stamps[j].number by {
        assert(lex_lt(points[a].date, points[b].date));
        assert(stamps[i].tells(event_times(events)[i]));
        assert(stamps[j].tells(event_times(events)[j]));
        lemma_lex_irreflexive(points[a].date);
        if stamps[j].number < stamps[i].number {
            lemma_days_in_order(stamps[j].number, stamps[i].number);
            lemma_lex_transitive(points[a].date, points[b].date, points[a].date);
        }
    }
}

// ---------------------------------------------------------------- hours
/// The tokens of the events in one hour of one local day.
pub open spec fn hour_total(
    events: Seq<EventView>,
    stamps: Seq<LocalStamp>,
    day: int,
    hour: int,
) -> nat
    decreases events.len(),
{
    if events.len() == 0 {
        0
    } else {
        hour_total(events.drop_last(), stamps, day, hour) + if stamps[events.len() - 1].number == day
            && stamps[events.len() - 1].hour == hour {
            events.last().tokens.total as nat
        } else {
            0
        }
    }
}

/// The hours of one local day.
pub open spec fn day_hours(events: Seq<EventView>, stamps: Seq<LocalStamp>, day: int) -> Seq<u64> {
    Seq::new(24, |hour: int| capped(hour_total(events, stamps, day, hour)))
}

/// The hours of the seven local days up to `today`, the oldest day first; nothing where there are
/// no events at all.
pub open spec fn heat_of(events: Seq<EventView>, stamps: Seq<LocalStamp>, today: int) -> Seq<
    Seq<u64>,
> {
    if events.len() == 0 {
        Seq::empty()
    } else {
        Seq::new(7, |row: int| day_hours(events, stamps, today - 6 + row))
    }
}

/// The rows of a grid.
pub open spec fn rows_of(grid: Seq<[u64; 24]>) -> Seq<Seq<u64>> {
    grid.map_values(|row: [u64; 24]| row@)
}

fn heat_row(events: &Vec<UsageEvent>, stamps: &Vec<LocalStamp>, day: i64) -> (r: [u64; 24])
    requires
        stamps_fit(stamps@, events@.len() as int),
    ensures
        r@ == day_hours(views(events@), stamps@, day as int),
{
    let ghost all = views(events@);
    let mut row: [u64; 24] = [0; 24];
    let mut i: usize = 0;
    assert(all.take(0) =~= Seq::<EventView>::empty());
    while i < events.len()
        invariant
            i <= events@.len(),
            all == views(events@),
            stamps_fit(stamps@, events@.len() as int),
            row@.len() == 24,
            forall|h: int|
                0 <= h < 24 ==> #[trigger] row@[h] == capped(
                    hour_total(all.take(i as int), stamps@, day as int, h),
                ),
        decreases events@.len() - i,
    {
        proof {
            assert(all.take(i + 1).drop_last() =~= all.take(i as int));
            assert(all.take(i + 1).last() == events@[i as int]@);
            assert(stamps@[i as int].is_valid());
        }
        let ghost before = row@;
        if stamps[i].number as i64 == day {
            let h: usize = stamps[i].hour as usize;
            let sum: u64 = row[h].saturating_add(events[i].tokens.total);
            row[h] = sum;
            assert(row@ =~= before.update(h as int, sum));
        }
        i = i + 1;
    }
    assert(all.take(i as int) =~= all);
    assert(row@ =~= day_hours(all, stamps@, day as int));
    row
}

/// Token sums per hour of day for the last 7 local days (rows oldest to newest); empty when there
/// is no usage data at all. `stamps` are the local times of the events and `today` the local time
/// of the report.
pub fn activity_heatmap(
    events: &Vec<UsageEvent>,
    stamps: &Vec<LocalStamp>,
    today: &LocalStamp,
) -> (r: Vec<[u64; 24]>)
    requires
        stamps_fit(stamps@, events@.len() as int),
    ensures
        rows_of(r@) == heat_of(views(events@), stamps@, today.number as int),
{
    let ghost all = views(events@);
    let mut grid: Vec<[u64; 24]> = Vec::new();
    if events.len() == 0 {
        assert(rows_of(grid@) =~= heat_of(all, stamps@, today.number as int));
        return grid;
    }
    let mut row: i64 = 0;
    while row < 7
        invariant
            0 <= row <= 7,
            all == views(events@),
            all.len() > 0,
            stamps_fit(stamps@, events@.len() as int),
            rows_of(grid@) =~= heat_of(all, stamps@, today.number as int).take(row as int),
        decreases 7 - row,
    {
        let ghost done = grid@;
        let hours = heat_row(events, stamps, today.number as i64 - 6 + row);
        grid.push(hours);
        assert(rows_of(grid@) =~= rows_of(done).push(hours@));
        row = row + 1;
    }
    assert(rows_of(grid@) =~= heat_of(all, stamps@, today.number as int));
    grid
}

/// With any events at all the grid has seven days of 24 hours.
pub proof fn lemma_heatmap_shape(events: Seq<EventView>, stamps: Seq<LocalStamp>, today: int)
    requires
        events.len() > 0,
    ensures
        heat_of(events, stamps, today).len() == 7,
        forall|i: int| 0 <= i < 7 ==> (#[trigger] heat_of(events, stamps, today)[i]).len() == 24,
{
}

// ---------------------------------------------------------------- choosing events
/// The positions of a row of `n` for which `p` holds, in ascending order.
pub open spec fn positions(n: nat, p: spec_fn(int) -> bool) -> Seq<usize>
    decreases n,
{
    if n == 0 {
        Seq::empty()
    } else {
        let before = positions((n - 1) as nat, p);
        if p(n - 1) {
            before.push((n - 1) as usize)
        } else {
            before
        }
    }
}

/// The chosen positions are positions of the row.
pub proof fn lemma_positions_in_range(n: nat, p: spec_fn(int) -> bool)
    requires
        n <= usize::MAX,
    ensures
        forall|k: int|
            0 <= k < positions(n, p).len() ==> 0 <= #[trigger] positions(n, p)[k] < n && p(
                positions(n, p)[k] as int,
            ),
        positions(n, p).len() <= n,
    decreases n,
{
    if n > 0 {
        lemma_positions_in_range((n - 1) as nat, p);
    }
}

/// The events of the last hour.
pub open spec fn recent(events: Seq<EventView>, now_ms: u64) -> Seq<usize> {
    positions(
        events.len(),
        |i: int| events[i].timestamp_ms >= monus(now_ms, 3_600_000),
    )
}

/// Which events are of a local day.
pub open spec fn is_on(stamps: Seq<LocalStamp>, day: Seq<char>) -> spec_fn(int) -> bool {
    |i: int| stamps[i].day@ == day
}

/// The events of a local day.
pub open spec fn on_day(stamps: Seq<LocalStamp>, day: Seq<char>) -> Seq<usize> {
    positions(stamps.len(), is_on(stamps, day))
}

/// The sum of the costs of some events. As with any sum of numbers, that of none is negative zero.
pub open spec fn spent(events: Seq<EventView>, at: Seq<usize>) -> Double {
    summed(Double { bits: SIGN }, costs_at(events, at))
}

/// Source-reported USD spent in the trailing hour; none when there are no events.
pub fn burn_rate(events: &Vec<UsageEvent>, now_ms: u64) -> (r: Option<Double>)
    ensures
        r == (if events@.len() == 0 {
            None
        } else {
            Some(spent(views(events@), recent(views(events@), now_ms)))
        }),
{
    if events.len() == 0 {
        return None;
    }
    let ghost all = views(events@);
    let cutoff: u64 = now_ms.saturating_sub(3_600_000);
    let ghost p = |i: int| all[i].timestamp_ms >= monus(now_ms, 3_600_000);
    let mut at: Vec<usize> = Vec::new();
    let mut i: usize = 0;
    while i < events.len()
        invariant
            i <= events@.len(),
            all == views(events@),
            cutoff == monus(now_ms, 3_600_000),
            p == |i: int| all[i].timestamp_ms >= monus(now_ms, 3_600_000),
            at@ == positions(i as nat, p),
        decreases events@.len() - i,
    {
        assert(all[i as int] == events@[i as int]@);
        if events[i].timestamp_ms >= cutoff {
            at.push(i);
        }
        i = i + 1;
    }
    proof {
        lemma_positions_in_range(events@.len() as nat, p);
    }
    Some(sum_costs(events, &at, Double::minus_zero()))
}

/// Source-reported USD spent on a local day; none when there are no events. `stamps` are the local
/// times of the events.
pub fn day_cost(events: &Vec<UsageEvent>, stamps: &Vec<LocalStamp>, day: &str) -> (r: Option<
    Double,
>)
    requires
        stamps@.len() == events@.len(),
    ensures
        r == (if events@.len() == 0 {
            None
        } else {
            Some(spent(views(events@), on_day(stamps@, day@)))
        }),
{
    if events.len() == 0 {
        return None;
    }
    let ghost p = is_on(stamps@, day@);
    let mut at: Vec<usize> = Vec::new();
    let mut i: usize = 0;
    let n: usize = events.len();
    while i < n
        invariant
            i <= n == stamps@.len(),
            p == is_on(stamps@, day@),
            at@ == positions(i as nat, p),
        decreases n - i,
    {
        if same_text(stamps[i].day.as_str(), day) {
            at.push(i);
        }
        i = i + 1;
    }
    proof {
        lemma_positions_in_range(n as nat, p);
    }
    Some(sum_costs(events, &at, Double::minus_zero()))
}

// ---------------------------------------------------------------- sums over all events
/// The reasoning tokens of each event.
pub open spec fn reasoning_counts(events: Seq<EventView>) -> Seq<u64> {
    events.map_values(|e: EventView| e.tokens.reasoning)
}

/// The output tokens of each event.
pub open spec fn output_counts(events: Seq<EventView>) -> Seq<u64> {
    events.map_values(|e: EventView| e.tokens.output)
}

/// The reasoning and the output tokens of all events.
pub fn reasoning_and_output(events: &Vec<UsageEvent>) -> (r: (u64, u64))
    requires
        total(reasoning_counts(views(events@))) <= u64::MAX,
        total(output_counts(views(events@))) <= u64::MAX,
    ensures
        r.0 == total(reasoning_counts(views(events@))),
        r.1 == total(output_counts(views(events@))),
{
    let ghost a = reasoning_counts(views(events@));
    let ghost b = output_counts(views(events@));
    let mut reasoning: u64 = 0;
    let mut output: u64 = 0;
    let mut i: usize = 0;
    while i < events.len()
        invariant
            i <= events@.len(),
            a == reasoning_counts(views(events@)),
            b == output_counts(views(events@)),
            total(a) <= u64::MAX,
            total(b) <= u64::MAX,
            reasoning == total(a.take(i as int)),
            output == total(b.take(i as int)),
        decreases events@.len() - i,
    {
        proof {
            assert(a.take(i + 1).drop_last() =~= a.take(i as int));
            assert(b.take(i + 1).drop_last() =~= b.take(i as int));
            lemma_part_total(a, i + 1);
            lemma_part_total(b, i + 1);
        }
        reasoning = reasoning + events[i].tokens.reasoning;
        output = output + events[i].tokens.output;
        i = i + 1;
    }
    assert(a.take(i as int) =~= a);
    assert(b.take(i as int) =~= b);
    (reasoning, output)
}

/// Whether the reasoning and the output tokens of all events can be counted.
pub fn tokens_countable(events: &Vec<UsageEvent>) -> (r: bool)
    ensures
        r == (total(reasoning_counts(views(events@))) <= u64::MAX && total(
            output_counts(views(events@)),
        ) <= u64::MAX),
{
    let ghost a = reasoning_counts(views(events@));
    let ghost b = output_counts(views(events@));
    let mut reasoning: u64 = 0;
    let mut output: u64 = 0;
    let mut i: usize = 0;
    while i < events.len()
        invariant
            i <= events@.len(),
            a == reasoning_counts(views(events@)),
            b == output_counts(views(events@)),
            reasoning == total(a.take(i as int)),
            output == total(b.take(i as int)),
        decreases events@.len() - i,
    {
        proof {
            assert(a.take(i + 1).drop_last() =~= a.take(i as int));
            assert(b.take(i + 1).drop_last() =~= b.take(i as int));
            lemma_part_total(a, i + 1);
            lemma_part_total(b, i + 1);
        }
        match reasoning.checked_add(events[i].tokens.reasoning) {
            Some(n) => {
                reasoning = n;
            },
            None => {
                return false;
            },
        }
        match output.checked_add(events[i].tokens.output) {
            Some(n) => {
                output = n;
            },
            None => {
                return false;
            },
        }
        i = i + 1;
    }
    assert(a.take(i as int) =~= a);
    assert(b.take(i as int) =~= b);
    true
}

// ---------------------------------------------------------------- bloating sessions
/// A session whose prompt keeps growing.
#[derive(Clone, Debug)]
pub struct BloatSession {
    pub session_id: String,
    pub project: String,
    pub last_uncached_input: u64,
}

/// A bloating session with its texts as sequences of characters.
#[verifier::ext_equal]
pub struct BloatView {
    pub session_id: Seq<char>,
    pub project: Seq<char>,
    pub last_uncached_input: u64,
}

impl View for BloatSession {
    type V = BloatView;

    open spec fn view(&self) -> BloatView {
        BloatView {
            session_id: self.session_id@,
            project: self.project@,
            last_uncached_input: self.last_uncached_input,
        }
    }
}

impl Replica for BloatSession {
    fn copy(&self) -> (r: BloatSession) {
        BloatSession {
            session_id: self.session_id.clone(),
            project: self.project.clone(),
            last_uncached_input: self.last_uncached_input,
        }
    }
}

/// Whether an event names its session.
pub open spec fn has_session(e: EventView) -> bool {
    e.session_id matches Some(id) && id.len() > 0
}

/// The events that name their session.
pub open spec fn in_sessions(events: Seq<EventView>) -> Seq<usize> {
    positions(events.len(), |i: int| has_session(events[i]))
}

/// The sessions that the events at some positions name.
pub open spec fn session_ids(events: Seq<EventView>, at: Seq<usize>) -> Seq<Seq<char>> {
    at.map_values(|i: usize| events[i as int].session_id->0)
}

/// The times of some events.
pub open spec fn times_at(events: Seq<EventView>, at: Seq<usize>) -> Seq<u64> {
    at.map_values(|i: usize| events[i as int].timestamp_ms)
}

/// Some events by time, those of the same time as they come.
pub open spec fn by_time(events: Seq<EventView>, at: Seq<usize>) -> Seq<usize> {
    arranged(at, order_of(times_at(events, at)))
}

/// The uncached prompt of the event at some position.
pub open spec fn prompt_at(events: Seq<EventView>, run: Seq<usize>, k: int) -> u64 {
    events[run[k] as int].tokens.uncached_input
}

/// Whether the uncached prompt grows strictly over at least three events.
pub open spec fn keeps_growing(events: Seq<EventView>, run: Seq<usize>) -> bool {
    run.len() >= 3 && forall|a: int, b: int|
        0 <= a < b < run.len() ==> #[trigger] prompt_at(events, run, a) < #[trigger] prompt_at(
            events,
            run,
            b,
        )
}

/// The session with the events of `run`, if it bloats.
pub open spec fn bloat_of(
    events: Seq<EventView>,
    id: Seq<char>,
    run: Seq<usize>,
    threshold: u64,
) -> Option<BloatView> {
    let last = events[run.last() as int];
    if keeps_growing(events, run) && last.tokens.uncached_input >= threshold {
        Some(
            BloatView {
                session_id: id,
                project: shown_name(last.project),
                last_uncached_input: last.tokens.uncached_input,
            },
        )
    } else {
        None
    }
}

/// The bloating ones of a listing of sessions, each with positions among `at`.
pub open spec fn bloats_in(
    events: Seq<EventView>,
    at: Seq<usize>,
    sessions: Seq<(Seq<char>, Seq<usize>)>,
    threshold: u64,
) -> Seq<BloatView>
    decreases sessions.len(),
{
    if sessions.len() == 0 {
        Seq::empty()
    } else {
        let before = bloats_in(events, at, sessions.drop_last(), threshold);
        let (id, own) = sessions.last();
        match bloat_of(events, id, by_time(events, arranged(at, own)), threshold) {
            Some(b) => before.push(b),
            None => before,
        }
    }
}

/// The bloating sessions, by name.
pub open spec fn all_bloats(events: Seq<EventView>, threshold: u64) -> Seq<BloatView> {
    let at = in_sessions(events);
    bloats_in(events, at, sorted_listing(groups(session_ids(events, at))), threshold)
}

/// The final sizes of some sessions.
pub open spec fn final_sizes(rows: Seq<BloatView>) -> Seq<u64> {
    rows.map_values(|b: BloatView| b.last_uncached_input)
}

/// The first `n` of a row, or all of it.
pub open spec fn at_most<W>(s: Seq<W>, n: nat) -> Seq<W> {
    if s.len() <= n {
        s
    } else {
        s.take(n as int)
    }
}

/// The worst five by final size.
pub open spec fn worst_bloats(events: Seq<EventView>, threshold: u64) -> Seq<BloatView> {
    let rows = all_bloats(events, threshold);
    at_most(arranged(rows, order_of(turned(final_sizes(rows)))), 5)
}

/// The first `n` of an order, or all of it.
fn first_of(order: Vec<usize>, n: usize) -> (r: Vec<usize>)
    ensures
        r@ == at_most(order@, n as nat),
{
    if order.len() <= n {
        return order;
    }
    let mut r: Vec<usize> = Vec::new();
    let mut i: usize = 0;
    while i < n
        invariant
            i <= n < order@.len(),
            r@ =~= order@.take(i as int),
        decreases n - i,
    {
        r.push(order[i]);
        i = i + 1;
    }
    r
}

fn grows(events: &Vec<UsageEvent>, run: &Vec<usize>) -> (r: bool)
    requires
        forall|k: int| 0 <= k < run@.len() ==> #[trigger] run@[k] < events@.len(),
    ensures
        r == keeps_growing(views(events@), run@),
{
    let ghost all = views(events@);
    if run.len() < 3 {
        return false;
    }
    let mut i: usize = 1;
    while i < run.len()
        invariant
            1 <= i <= run@.len(),
            run@.len() >= 3,
            all == views(events@),
            forall|k: int| 0 <= k < run@.len() ==> #[trigger] run@[k] < events@.len(),
            forall|a: int, b: int|
                0 <= a < b < i ==> #[trigger] prompt_at(all, run@, a) < #[trigger] prompt_at(
                    all,
                    run@,
                    b,
                ),
        decreases run@.len() - i,
    {
        assert(prompt_at(all, run@, i - 1) == events@[run@[i - 1] as int].tokens.uncached_input);
        assert(prompt_at(all, run@, i as int) == events@[run@[i as int] as int].tokens.uncached_input);
        if events[run[i - 1]].tokens.uncached_input >= events[run[i]].tokens.uncached_input {
            return false;
        }
        assert forall|a: int, b: int| 0 <= a < b < i + 1 implies #[trigger] prompt_at(all, run@, a)
            < #[trigger] prompt_at(all, run@, b) by {
            if b == i && a < i - 1 {
                assert(prompt_at(all, run@, a) < prompt_at(all, run@, i - 1));
            }
        }
        i = i + 1;
    }
    true
}

/// The events of a session by time, `own` being positions among `at`.
fn session_run(events: &Vec<UsageEvent>, at: &Vec<usize>, own: &Vec<usize>) -> (r: Vec<usize>)
    requires
        forall|k: int| 0 <= k < at@.len() ==> #[trigger] at@[k] < events@.len(),
        forall|k: int| 0 <= k < own@.len() ==> #[trigger] own@[k] < at@.len(),
    ensures
        r@ == by_time(views(events@), arranged(at@, own@)),
        forall|k: int| 0 <= k < r@.len() ==> #[trigger] r@[k] < events@.len(),
        r@.len() == own@.len(),
{
    let ghost all = views(events@);
    let mut mine: Vec<usize> = Vec::new();
    let mut times: Vec<u64> = Vec::new();
    let mut i: usize = 0;
    while i < own.len()
        invariant
            i <= own@.len(),
            all == views(events@),
            forall|k: int| 0 <= k < at@.len() ==> #[trigger] at@[k] < events@.len(),
            forall|k: int| 0 <= k < own@.len() ==> #[trigger] own@[k] < at@.len(),
            mine@ =~= arranged(at@, own@).take(i as int),
            times@ =~= times_at(all, arranged(at@, own@)).take(i as int),
        decreases own@.len() - i,
    {
        let e: usize = at[own[i]];
        mine.push(e);
        times.push(events[e].timestamp_ms);
        i = i + 1;
    }
    assert(mine@ =~= arranged(at@, own@));
    assert(times@ =~= times_at(all, mine@));
    let order = ascending(&times);
    let mut r: Vec<usize> = Vec::new();
    let mut k: usize = 0;
    while k < order.len()
        invariant
            k <= order@.len(),
            is_order(times@, order@),
            times@.len() == mine@.len(),
            forall|k: int| 0 <= k < mine@.len() ==> #[trigger] mine@[k] < events@.len(),
            r@ =~= arranged(mine@, order@).take(k as int),
            forall|k: int| 0 <= k < r@.len() ==> #[trigger] r@[k] < events@.len(),
        decreases order@.len() - k,
    {
        r.push(mine[order[k]]);
        k = k + 1;
    }
    assert(r@ =~= arranged(mine@, order@));
    r
}

fn bloat_row(events: &Vec<UsageEvent>, id: &String, run: &Vec<usize>, threshold: u64) -> (r: Option<
    BloatSession,
>)
    requires
        forall|k: int| 0 <= k < run@.len() ==> #[trigger] run@[k] < events@.len(),
    ensures
        match r {
            Some(b) => bloat_of(views(events@), id@, run@, threshold) == Some(b@),
            None => bloat_of(views(events@), id@, run@, threshold) is None,
        },
{
    if !grows(events, run) {
        return None;
    }
    let last = &events[run[run.len() - 1]];
    assert(views(events@)[run@.last() as int] == last@);
    if last.tokens.uncached_input >= threshold {
        Some(
            BloatSession {
                session_id: id.clone(),
                project: display_project(&last.project),
                last_uncached_input: last.tokens.uncached_input,
            },
        )
    } else {
        None
    }
}

/// Sessions whose time-ordered uncached prompt grew strictly across at least 3 events and ended at
/// or above `threshold`; worst 5 by final size.
pub fn bloating_sessions(events: &Vec<UsageEvent>, threshold: u64) -> (r: Vec<BloatSession>)
    ensures
        views(r@) == worst_bloats(views(events@), threshold),
{
    let ghost all = views(events@);
    let ghost p = |i: int| has_session(all[i]);
    let mut at: Vec<usize> = Vec::new();
    let mut labels: Vec<String> = Vec::new();
    let mut i: usize = 0;
    while i < events.len()
        invariant
            i <= events@.len(),
            all == views(events@),
            p == |i: int| has_session(all[i]),
            at@ == positions(i as nat, p),
            views(labels@) =~= session_ids(all, at@),
        decreases events@.len() - i,
    {
        assert(all[i as int] == events@[i as int]@);
        let ghost done = labels@;
        match &events[i].session_id {
            Some(id) => {
                if id.as_str().unicode_len() > 0 {
                    let copy = id.clone();
                    at.push(i);
                    labels.push(copy);
                    assert(views(labels@) =~= views(done).push(id@));
                }
            },
            None => {},
        }
        i = i + 1;
    }
    proof {
        lemma_positions_in_range(events@.len() as nat, p);
    }
    let parts = grouped(&labels);
    let ghost ids = session_ids(all, at@);
    let ghost listing = listing_of(parts@);
    let mut rows: Vec<BloatSession> = Vec::new();
    let mut keys: Vec<u64> = Vec::new();
    let mut k: usize = 0;
    let count: usize = at.len();
    assert(views(rows@) =~= Seq::<BloatView>::empty());
    assert(listing.take(0) =~= Seq::<(Seq<char>, Seq<usize>)>::empty());
    while k < parts.len()
        invariant
            k <= parts@.len(),
            all == views(events@),
            count == at@.len(),
            ids == session_ids(all, at@),
            listing == listing_of(parts@),
            is_sorted(listing),
            dict(listing) == groups(ids),
            forall|x: int| 0 <= x < at@.len() ==> #[trigger] at@[x] < events@.len(),
            views(rows@) == bloats_in(all, at@, listing.take(k as int), threshold),
            keys@ =~= final_sizes(views(rows@)),
        decreases parts@.len() - k,
    {
        proof {
            lemma_dict_at(listing, k as int);
            lemma_members(ids, listing[k as int].0);
            assert(listing.take(k + 1).drop_last() =~= listing.take(k as int));
            assert(listing.take(k + 1).last() == listing[k as int]);
        }
        let own: &Vec<usize> = &parts[k].1;
        let run = session_run(events, &at, own);
        let ghost done = rows@;
        match bloat_row(events, &parts[k].0, &run, threshold) {
            Some(b) => {
                keys.push(b.last_uncached_input);
                rows.push(b);
                assert(views(rows@) =~= views(done).push(b@));
            },
            None => {},
        }
        k = k + 1;
    }
    assert(listing.take(k as int) =~= listing);
    let order = first_of(descending(&keys), 5);
    let r = arrange(&rows, &order);
    assert(views(r@) =~= worst_bloats(all, threshold));
    r
}

/// At most five sessions are named, and the largest comes first.
pub proof fn lemma_worst_bloats_first(events: Seq<EventView>, threshold: u64, a: int, b: int)
    requires
        events.len() <= usize::MAX,
        0 <= a < b < worst_bloats(events, threshold).len(),
    ensures
        worst_bloats(events, threshold).len() <= 5,
        worst_bloats(events, threshold)[a].last_uncached_input >= worst_bloats(
            events,
            threshold,
        )[b].last_uncached_input,
{
    let rows = all_bloats(events, threshold);
    let keys = turned(final_sizes(rows));
    let at = in_sessions(events);
    lemma_positions_in_range(events.len(), |i: int| has_session(events[i]));
    lemma_groups_share_out(session_ids(events, at));
    lemma_bloats_at_most(
        events,
        at,
        sorted_listing(groups(session_ids(events, at))),
        threshold,
    );
    lemma_has_order(keys);
    let o = order_of(keys);
    assert(goes_before(keys, o[a] as int, o[b] as int));
}

proof fn lemma_bloats_at_most(
    events: Seq<EventView>,
    at: Seq<usize>,
    sessions: Seq<(Seq<char>, Seq<usize>)>,
    threshold: u64,
)
    ensures
        bloats_in(events, at, sessions, threshold).len() <= sessions.len(),
    decreases sessions.len(),
{
    if sessions.len() > 0 {
        lemma_bloats_at_most(events, at, sessions.drop_last(), threshold);
    }
}

/// Every session that is named ended at or above the threshold.
pub proof fn lemma_bloats_reach_threshold(events: Seq<EventView>, threshold: u64, k: int)
    requires
        events.len() <= usize::MAX,
        0 <= k < worst_bloats(events, threshold).len(),
    ensures
        worst_bloats(events, threshold)[k].last_uncached_input >= threshold,
{
    let rows = all_bloats(events, threshold);
    let keys = turned(final_sizes(rows));
    let at = in_sessions(events);
    let sessions = sorted_listing(groups(session_ids(events, at)));
    lemma_positions_in_range(events.len(), |i: int| has_session(events[i]));
    lemma_groups_share_out(session_ids(events, at));
    lemma_bloats_at_most(events, at, sessions, threshold);
    lemma_has_order(keys);
    lemma_bloats_are_large(events, at, sessions, threshold, order_of(keys)[k] as int);
}

proof fn lemma_bloats_are_large(
    events: Seq<EventView>,
    at: Seq<usize>,
    sessions: Seq<(Seq<char>, Seq<usize>)>,
    threshold: u64,
    k: int,
)
    requires
        0 <= k < bloats_in(events, at, sessions, threshold).len(),
    ensures
        bloats_in(events, at, sessions, threshold)[k].last_uncached_input >= threshold,
    decreases sessions.len(),
{
    let before = bloats_in(events, at, sessions.drop_last(), threshold);
    if k < before.len() {
        lemma_bloats_are_large(events, at, sessions.drop_last(), threshold, k);
    }
}

// ---------------------------------------------------------------- models
/// The usage of one model.
#[derive(Clone, Debug)]
pub struct ModelDigest {
    pub model: String,
    pub events: u64,
    pub total_tokens: u64,
    pub known_cost_usd: Double,
}

/// The usage of one model with its name as a sequence of characters.
#[verifier::ext_equal]
pub struct ModelView {
    pub model: Seq<char>,
    pub events: u64,
    pub total_tokens: u64,
    pub known_cost_usd: Double,
}

impl View for ModelDigest {
    type V = ModelView;

    open spec fn view(&self) -> ModelView {
        ModelView {
            model: self.model@,
            events: self.events,
            total_tokens: self.total_tokens,
            known_cost_usd: self.known_cost_usd,
        }
    }
}

impl Replica for ModelDigest {
    fn copy(&self) -> (r: ModelDigest) {
        ModelDigest {
            model: self.model.clone(),
            events: self.events,
            total_tokens: self.total_tokens,
            known_cost_usd: self.known_cost_usd,
        }
    }
}

/// The model of each event.
pub open spec fn model_labels(events: Seq<EventView>) -> Seq<Seq<char>> {
    events.map_values(|e: EventView| shown_name(e.model))
}

/// The usage of one model.
pub open spec fn model_row(events: Seq<EventView>, model: Seq<char>, at: Seq<usize>) -> ModelView {
    ModelView {
        model,
        events: at.len() as u64,
        total_tokens: tokens_of(events, at),
        known_cost_usd: cost_of(events, at),
    }
}

/// The usage of each model, by name.
pub open spec fn model_rows(events: Seq<EventView>) -> Seq<ModelView> {
    sorted_listing(groups(model_labels(events))).map_values(
        |e: (Seq<char>, Seq<usize>)| model_row(events, e.0, e.1),
    )
}

/// The tokens of some models.
pub open spec fn model_tokens(rows: Seq<ModelView>) -> Seq<u64> {
    rows.map_values(|m: ModelView| m.total_tokens)
}

/// The models, those with the most tokens first and by name among equals.
pub open spec fn models_of(events: Seq<EventView>) -> Seq<ModelView> {
    arranged(model_rows(events), order_of(turned(model_tokens(model_rows(events)))))
}

fn rank_models(events: &Vec<UsageEvent>) -> (r: Vec<ModelDigest>)
    ensures
        views(r@) == models_of(views(events@)),
{
    let ghost all = views(events@);
    let ghost names = model_labels(all);
    let mut labels: Vec<String> = Vec::new();
    let mut i: usize = 0;
    let count: usize = events.len();
    while i < count
        invariant
            i <= count == events@.len(),
            all == views(events@),
            names == model_labels(all),
            views(labels@) =~= names.take(i as int),
        decreases count - i,
    {
        let ghost done = labels@;
        let label = display_project(&events[i].model);
        labels.push(label);
        assert(views(labels@) =~= views(done).push(names[i as int]));
        i = i + 1;
    }
    assert(views(labels@) =~= names);
    let parts = grouped(&labels);
    let ghost listing = listing_of(parts@);
    let mut rows: Vec<ModelDigest> = Vec::new();
    let mut keys: Vec<u64> = Vec::new();
    let mut k: usize = 0;
    while k < parts.len()
        invariant
            k <= parts@.len(),
            count == events@.len(),
            all == views(events@),
            names == model_labels(all),
            listing == listing_of(parts@),
            is_sorted(listing),
            dict(listing) == groups(names),
            listing == sorted_listing(groups(names)),
            views(rows@) =~= model_rows(all).take(k as int),
            keys@ =~= model_tokens(model_rows(all)).take(k as int),
        decreases parts@.len() - k,
    {
        proof {
            lemma_dict_at(listing, k as int);
            lemma_members(names, listing[k as int].0);
        }
        let at: &Vec<usize> = &parts[k].1;
        let row = ModelDigest {
            model: parts[k].0.clone(),
            events: at.len() as u64,
            total_tokens: sum_tokens(events, at),
            known_cost_usd: sum_costs(events, at, Double::zero()),
        };
        let ghost done = rows@;
        keys.push(row.total_tokens);
        rows.push(row);
        assert(views(rows@) =~= views(done).push(model_rows(all)[k as int]));
        k = k + 1;
    }
    assert(views(rows@) =~= model_rows(all));
    assert(keys@ =~= model_tokens(model_rows(all)));
    let order = descending(&keys);
    arrange(&rows, &order)
}

/// The events of some models.
pub open spec fn model_counts(rows: Seq<ModelView>) -> Seq<u64> {
    rows.map_values(|m: ModelView| m.events)
}

/// Every event is counted under exactly one model.
pub proof fn lemma_events_have_one_model(events: Seq<EventView>)
    requires
        events.len() <= usize::MAX,
    ensures
        total(model_counts(models_of(events))) == events.len(),
{
    let labels = model_labels(events);
    let rows = model_rows(events);
    let keys = turned(model_tokens(rows));
    lemma_sizes_add_up(labels, model_counts(rows));
    lemma_groups_share_out(labels);
    lemma_has_order(keys);
    lemma_order_keeps_total(keys, order_of(keys), model_counts(rows));
    assert(model_counts(models_of(events)) =~= picked(model_counts(rows), order_of(keys)));
}

/// The tokens of the models add up to the tokens of all events, where these can be counted.
pub proof fn lemma_tokens_have_one_model(events: Seq<EventView>)
    requires
        events.len() <= usize::MAX,
        total(token_totals(events)) <= u64::MAX,
    ensures
        total(model_tokens(models_of(events))) == total(token_totals(events)),
{
    let labels = model_labels(events);
    let rows = model_rows(events);
    let keys = turned(model_tokens(rows));
    lemma_shares_add_up(labels, token_totals(events), model_tokens(rows));
    lemma_groups_share_out(labels);
    lemma_has_order(keys);
    lemma_order_keeps_total(keys, order_of(keys), model_tokens(rows));
    assert(model_tokens(models_of(events)) =~= picked(model_tokens(rows), order_of(keys)));
}

/// No model stands before one with more tokens; of models with equally many the names ascend.
pub proof fn lemma_heaviest_model_first(events: Seq<EventView>, a: int, b: int)
    requires
        events.len() <= usize::MAX,
        0 <= a < b < models_of(events).len(),
    ensures
        models_of(events)[a].total_tokens >= models_of(events)[b].total_tokens,
        models_of(events)[a].total_tokens == models_of(events)[b].total_tokens ==> lex_lt(
            models_of(events)[a].model,
            models_of(events)[b].model,
        ),
{
    let rows = model_rows(events);
    let keys = turned(model_tokens(rows));
    let s = sorted_listing(groups(model_labels(events)));
    lemma_groups_share_out(model_labels(events));
    lemma_has_order(keys);
    let o = order_of(keys);
    assert(goes_before(keys, o[a] as int, o[b] as int));
    assert(rows[o[a] as int].model == s[o[a] as int].0);
    assert(rows[o[b] as int].model == s[o[b] as int].0);
}

// ---------------------------------------------------------------- projects
/// The usage of one project.
#[derive(Clone, Debug)]
pub struct ProjectUsage {
    pub project: String,
    pub events: u64,
    pub total_tokens: u64,
    pub known_cost_usd: Double,
    pub missed_cost_usd: Double,
}

/// The usage of one project with its name as a sequence of characters.
#[verifier::ext_equal]
pub struct ProjectUsageView {
    pub project: Seq<char>,
    pub events: u64,
    pub total_tokens: u64,
    pub known_cost_usd: Double,
    pub missed_cost_usd: Double,
}

impl View for ProjectUsage {
    type V = ProjectUsageView;

    open spec fn view(&self) -> ProjectUsageView {
        ProjectUsageView {
            project: self.project@,
            events: self.events,
            total_tokens: self.total_tokens,
            known_cost_usd: self.known_cost_usd,
            missed_cost_usd: self.missed_cost_usd,
        }
    }
}

impl Replica for ProjectUsage {
    fn copy(&self) -> (r: ProjectUsage) {
        ProjectUsage {
            project: self.project.clone(),
            events: self.events,
            total_tokens: self.total_tokens,
            known_cost_usd: self.known_cost_usd,
            missed_cost_usd: self.missed_cost_usd,
        }
    }
}

/// The project of each event.
pub open spec fn project_labels(events: Seq<EventView>) -> Seq<Seq<char>> {
    events.map_values(|e: EventView| shown_name(e.project))
}

/// The usage of one project. Per-missed-token cost needs memex's private price catalog, so the
/// attribution reports 0 rather than a fabricated estimate; the digest-level figure stays
/// authoritative.
pub open spec fn project_row(
    events: Seq<EventView>,
    project: Seq<char>,
    at: Seq<usize>,
) -> ProjectUsageView {
    ProjectUsageView {
        project,
        events: at.len() as u64,
        total_tokens: tokens_of(events, at),
        known_cost_usd: cost_of(events, at),
        missed_cost_usd: Double { bits: 0 },
    }
}

/// The usage of each project, by name.
pub open spec fn project_rows(events: Seq<EventView>) -> Seq<ProjectUsageView> {
    sorted_listing(groups(project_labels(events))).map_values(
        |e: (Seq<char>, Seq<usize>)| project_row(events, e.0, e.1),
    )
}

/// The ranks of the costs of some projects.
pub open spec fn cost_ranks(rows: Seq<ProjectUsageView>) -> Seq<u64> {
    rows.map_values(|p: ProjectUsageView| p.known_cost_usd.rank())
}

/// The ten projects with the highest cost, the highest first and by name among equals.
pub open spec fn costliest(events: Seq<EventView>) -> Seq<ProjectUsageView> {
    let rows = project_rows(events);
    at_most(arranged(rows, order_of(turned(cost_ranks(rows)))), 10)
}

/// Per-project cost attribution, top 10 by known cost.
pub fn project_usage_from(events: &Vec<UsageEvent>) -> (r: Vec<ProjectUsage>)
    ensures
        views(r@) == costliest(views(events@)),
{
    let ghost all = views(events@);
    let ghost names = project_labels(all);
    let mut labels: Vec<String> = Vec::new();
    let mut i: usize = 0;
    let count: usize = events.len();
    while i < count
        invariant
            i <= count == events@.len(),
            all == views(events@),
            names == project_labels(all),
            views(labels@) =~= names.take(i as int),
        decreases count - i,
    {
        let ghost done = labels@;
        let label = display_project(&events[i].project);
        labels.push(label);
        assert(views(labels@) =~= views(done).push(names[i as int]));
        i = i + 1;
    }
    assert(views(labels@) =~= names);
    let parts = grouped(&labels);
    let ghost listing = listing_of(parts@);
    let mut rows: Vec<ProjectUsage> = Vec::new();
    let mut keys: Vec<u64> = Vec::new();
    let mut k: usize = 0;
    while k < parts.len()
        invariant
            k <= parts@.len(),
            count == events@.len(),
            all == views(events@),
            names == project_labels(all),
            listing == listing_of(parts@),
            is_sorted(listing),
            dict(listing) == groups(names),
            listing == sorted_listing(groups(names)),
            views(rows@) =~= project_rows(all).take(k as int),
            keys@ =~= cost_ranks(project_rows(all)).take(k as int),
        decreases parts@.len() - k,
    {
        proof {
            lemma_dict_at(listing, k as int);
            lemma_members(names, listing[k as int].0);
        }
        let at: &Vec<usize> = &parts[k].1;
        let row = ProjectUsage {
            project: parts[k].0.clone(),
            events: at.len() as u64,
            total_tokens: sum_tokens(events, at),
            known_cost_usd: sum_costs(events, at, Double::zero()),
            missed_cost_usd: Double::zero(),
        };
        let ghost done = rows@;
        keys.push(row.known_cost_usd.order_key());
        rows.push(row);
        assert(views(rows@) =~= views(done).push(project_rows(all)[k as int]));
        k = k + 1;
    }
    assert(views(rows@) =~= project_rows(all));
    assert(keys@ =~= cost_ranks(project_rows(all)));
    let order = first_of(descending(&keys), 10);
    let r = arrange(&rows, &order);
    assert(views(r@) =~= costliest(all));
    r
}

/// The events of some projects.
pub open spec fn usage_counts(rows: Seq<ProjectUsageView>) -> Seq<u64> {
    rows.map_values(|p: ProjectUsageView| p.events)
}

/// Every event is counted under exactly one project, before the costliest ten are chosen.
pub proof fn lemma_events_have_one_project(events: Seq<EventView>)
    requires
        events.len() <= usize::MAX,
    ensures
        total(usage_counts(project_rows(events))) == events.len(),
{
    lemma_sizes_add_up(project_labels(events), usage_counts(project_rows(events)));
}

/// The tokens of some projects.
pub open spec fn usage_tokens(rows: Seq<ProjectUsageView>) -> Seq<u64> {
    rows.map_values(|p: ProjectUsageView| p.total_tokens)
}

/// The tokens of the projects, before the costliest ten are chosen, add up to the tokens of all
/// events, where these can be counted.
pub proof fn lemma_tokens_have_one_project(events: Seq<EventView>)
    requires
        events.len() <= usize::MAX,
        total(token_totals(events)) <= u64::MAX,
    ensures
        total(usage_tokens(project_rows(events))) == total(token_totals(events)),
{
    lemma_shares_add_up(
        project_labels(events),
        token_totals(events),
        usage_tokens(project_rows(events)),
    );
}

/// No project is charged for tokens that the cache missed: that cost is known only for the whole.
pub proof fn lemma_no_waste_is_attributed(events: Seq<EventView>, k: int)
    requires
        events.len() <= usize::MAX,
        0 <= k < costliest(events).len(),
    ensures
        costliest(events)[k].missed_cost_usd == (Double { bits: 0 }),
{
    let rows = project_rows(events);
    let keys = turned(cost_ranks(rows));
    lemma_groups_share_out(project_labels(events));
    lemma_has_order(keys);
    assert(0 <= order_of(keys)[k] < keys.len());
}

/// At most ten projects are named, and none stands before one that cost more.
pub proof fn lemma_costliest_first(events: Seq<EventView>, a: int, b: int)
    requires
        events.len() <= usize::MAX,
        0 <= a < b < costliest(events).len(),
    ensures
        costliest(events).len() <= 10,
        !costliest(events)[b].known_cost_usd.above(costliest(events)[a].known_cost_usd),
{
    let rows = project_rows(events);
    let keys = turned(cost_ranks(rows));
    lemma_groups_share_out(project_labels(events));
    lemma_has_order(keys);
    let o = order_of(keys);
    assert(goes_before(keys, o[a] as int, o[b] as int));
    lemma_rank_orders(costliest(events)[a].known_cost_usd, costliest(events)[b].known_cost_usd);
}

/// Without events there is no project and no session to name.
pub proof fn lemma_nothing_to_rank(events: Seq<EventView>, threshold: u64)
    requires
        events.len() == 0,
    ensures
        costliest(events).len() == 0,
        worst_bloats(events, threshold).len() == 0,
{
    lemma_groups_share_out(project_labels(events));
    lemma_has_order(turned(cost_ranks(project_rows(events))));
    let at = in_sessions(events);
    assert(at.len() == 0);
    lemma_groups_share_out(session_ids(events, at));
    lemma_bloats_at_most(
        events,
        at,
        sorted_listing(groups(session_ids(events, at))),
        threshold,
    );
    lemma_has_order(turned(final_sizes(all_bloats(events, threshold))));
}

// ---------------------------------------------------------------- the digest
/// The usage of one source, as the scan reports it.
#[derive(Clone, Debug)]
pub struct SourceDigest {
    pub source: String,
    pub events: u64,
    pub total_tokens: u64,
    pub known_cost_usd: Double,
    pub missed_tokens: u64,
}

/// The usage of one source with its name as a sequence of characters.
#[verifier::ext_equal]
pub struct SourceView {
    pub source: Seq<char>,
    pub events: u64,
    pub total_tokens: u64,
    pub known_cost_usd: Double,
    pub missed_tokens: u64,
}

impl View for SourceDigest {
    type V = SourceView;

    open spec fn view(&self) -> SourceView {
        SourceView {
            source: self.source@,
            events: self.events,
            total_tokens: self.total_tokens,
            known_cost_usd: self.known_cost_usd,
            missed_tokens: self.missed_tokens,
        }
    }
}

impl Replica for SourceDigest {
    fn copy(&self) -> (r: SourceDigest) {
        SourceDigest {
            source: self.source.clone(),
            events: self.events,
            total_tokens: self.total_tokens,
            known_cost_usd: self.known_cost_usd,
            missed_tokens: self.missed_tokens,
        }
    }
}

/// The prompt-cache waste of a scan.
#[derive(Clone, Copy, Debug, PartialEq, Eq, Structural)]
pub struct CacheWaste {
    pub missed_tokens: u64,
    pub missed_cost_usd: Double,
    pub miss_count: u64,
    pub idle_misses: u64,
    pub model_switch_misses: u64,
}

/// What a scan of the usage logs reports.
#[derive(Debug)]
pub struct UsageReport {
    pub events: u64,
    pub total_tokens: u64,
    pub known_cost_usd: Double,
    pub cache_waste: CacheWaste,
    pub by_source: Vec<SourceDigest>,
    pub details: Vec<UsageEvent>,
}

/// The usage of a window.
#[derive(Clone, Debug)]
pub struct UsageDigest {
    pub events: u64,
    pub total_tokens: u64,
    pub known_cost_usd: Double,
    pub missed_tokens: u64,
    pub missed_cost_usd: Double,
    pub miss_count: u64,
    pub idle_misses: u64,
    pub model_switch_misses: u64,
    pub by_source: Vec<SourceDigest>,
    pub cache_read_tokens: u64,
    /// Prompt-token denominator of `cache_hit_rate`, mirroring memex's cache-chain definition:
    /// uncached_input + cache_read + cache_write.
    pub input_tokens: u64,
    /// cache_read_tokens / input_tokens; none when no prompt tokens were seen.
    pub cache_hit_rate: Option<Double>,
    pub by_model: Vec<ModelDigest>,
}

/// The usage of a window with its texts as sequences of characters.
#[verifier::ext_equal]
pub struct DigestView {
    pub events: u64,
    pub total_tokens: u64,
    pub known_cost_usd: Double,
    pub missed_tokens: u64,
    pub missed_cost_usd: Double,
    pub miss_count: u64,
    pub idle_misses: u64,
    pub model_switch_misses: u64,
    pub by_source: Seq<SourceView>,
    pub cache_read_tokens: u64,
    pub input_tokens: u64,
    pub cache_hit_rate: Option<Double>,
    pub by_model: Seq<ModelView>,
}

impl View for UsageDigest {
    type V = DigestView;

    open spec fn view(&self) -> DigestView {
        DigestView {
            events: self.events,
            total_tokens: self.total_tokens,
            known_cost_usd: self.known_cost_usd,
            missed_tokens: self.missed_tokens,
            missed_cost_usd: self.missed_cost_usd,
            miss_count: self.miss_count,
            idle_misses: self.idle_misses,
            model_switch_misses: self.model_switch_misses,
            by_source: views(self.by_source@),
            cache_read_tokens: self.cache_read_tokens,
            input_tokens: self.input_tokens,
            cache_hit_rate: self.cache_hit_rate,
            by_model: views(self.by_model@),
        }
    }
}

/// The cached prompt tokens of all events.
pub open spec fn read_total(events: Seq<EventView>) -> nat
    decreases events.len(),
{
    if events.len() == 0 {
        0
    } else {
        read_total(events.drop_last()) + events.last().tokens.cache_read as nat
    }
}

/// All prompt tokens of all events.
pub open spec fn prompt_total(events: Seq<EventView>) -> nat
    decreases events.len(),
{
    if events.len() == 0 {
        0
    } else {
        let t = events.last().tokens;
        prompt_total(events.drop_last()) + t.uncached_input as nat + t.cache_read as nat
            + t.cache_write as nat
    }
}

/// One count over another, where there is anything to divide by.
pub open spec fn rate_of(part: u64, whole: u64) -> Option<Double> {
    if whole > 0 {
        Some(number(ratio_units(part, whole)))
    } else {
        None
    }
}

/// One count over another, where there is anything to divide by.
pub fn rate(part: u64, whole: u64) -> (r: Option<Double>)
    ensures
        r == rate_of(part, whole),
{
    if whole > 0 {
        Some(Double::ratio(part, whole))
    } else {
        None
    }
}

/// The digest of a scan.
pub open spec fn digest_of(rep: UsageReport) -> DigestView {
    let events = views(rep.details@);
    let read = capped(read_total(events));
    let input = capped(prompt_total(events));
    DigestView {
        events: rep.events,
        total_tokens: rep.total_tokens,
        known_cost_usd: rep.known_cost_usd,
        missed_tokens: rep.cache_waste.missed_tokens,
        missed_cost_usd: rep.cache_waste.missed_cost_usd,
        miss_count: rep.cache_waste.miss_count,
        idle_misses: rep.cache_waste.idle_misses,
        model_switch_misses: rep.cache_waste.model_switch_misses,
        by_source: views(rep.by_source@),
        cache_read_tokens: read,
        input_tokens: input,
        cache_hit_rate: rate_of(read, input),
        by_model: models_of(events),
    }
}

/// A copy of some rows.
pub fn copy_all<T: Replica>(rows: &Vec<T>) -> (r: Vec<T>)
    ensures
        views(r@) == views(rows@),
{
    let mut r: Vec<T> = Vec::new();
    let mut i: usize = 0;
    while i < rows.len()
        invariant
            i <= rows@.len(),
            views(r@) =~= views(rows@).take(i as int),
        decreases rows@.len() - i,
    {
        let ghost done = r@;
        let row = rows[i].copy();
        r.push(row);
        assert(views(r@) =~= views(done).push(views(rows@)[i as int]));
        i = i + 1;
    }
    assert(views(r@) =~= views(rows@));
    r
}

/// Digests a scan.
pub fn digest_from(rep: &UsageReport) -> (r: UsageDigest)
    ensures
        r@ == digest_of(*rep),
{
    let ghost all = views(rep.details@);
    let mut read: u64 = 0;
    let mut input: u64 = 0;
    let mut i: usize = 0;
    assert(all.take(0) =~= Seq::<EventView>::empty());
    while i < rep.details.len()
        invariant
            i <= rep.details@.len(),
            all == views(rep.details@),
            read == capped(read_total(all.take(i as int))),
            input == capped(prompt_total(all.take(i as int))),
        decreases rep.details@.len() - i,
    {
        let t = rep.details[i].tokens;
        assert(all.take(i + 1).drop_last() =~= all.take(i as int));
        assert(all.take(i + 1).last() == rep.details@[i as int]@);
        read = read.saturating_add(t.cache_read);
        input =
        input.saturating_add(t.uncached_input).saturating_add(t.cache_read).saturating_add(
            t.cache_write,
        );
        i = i + 1;
    }
    assert(all.take(i as int) =~= all);
    UsageDigest {
        events: rep.events,
        total_tokens: rep.total_tokens,
        known_cost_usd: rep.known_cost_usd,
        missed_tokens: rep.cache_waste.missed_tokens,
        missed_cost_usd: rep.cache_waste.missed_cost_usd,
        miss_count: rep.cache_waste.miss_count,
        idle_misses: rep.cache_waste.idle_misses,
        model_switch_misses: rep.cache_waste.model_switch_misses,
        by_source: copy_all(&rep.by_source),
        cache_read_tokens: read,
        input_tokens: input,
        cache_hit_rate: rate(read, input),
        by_model: rank_models(&rep.details),
    }
}

proof fn lemma_cache_read_is_prompt(events: Seq<EventView>)
    ensures
        read_total(events) <= prompt_total(events),
    decreases events.len(),
{
    if events.len() > 0 {
        lemma_cache_read_is_prompt(events.drop_last());
    }
}

/// What was read from the cache is part of the prompt, so the hit rate is a number from zero to
/// one; there is none exactly where no prompt tokens were seen.
pub proof fn lemma_hit_rate_is_share(rep: UsageReport)
    ensures
        digest_of(rep).cache_read_tokens <= digest_of(rep).input_tokens,
        digest_of(rep).cache_hit_rate is None <==> prompt_total(views(rep.details@)) == 0,
        digest_of(rep).cache_hit_rate matches Some(r) ==> r.is_share(),
{
    lemma_cache_read_is_prompt(views(rep.details@));
    let d = digest_of(rep);
    if d.input_tokens > 0 {
        lemma_rates_are_shares(d.cache_read_tokens, d.input_tokens);
    }
}

} // verus!
