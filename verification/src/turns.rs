//! The logs of turns and of human-response gaps, and what they say about efficiency.

use vstd::multiset::Multiset;
use vstd::prelude::*;
use vstd::seq_lib::{to_multiset_contains, to_multiset_len, to_multiset_remove};
use vstd::string::*;

use crate::agents::{agent_name, name_of};
use crate::config::{join_path, PluginPaths};
use crate::double::{
    lemma_rate_is_share, lemma_rates_are_shares, number, ratio_units, rest, Double,
};
use crate::group::{
    grouped, groups, lemma_groups_share_out, lemma_members, lemma_sizes_add_up, members,
};
use crate::order::{
    chosen, descending, goes_before, lemma_has_order, lemma_order_keeps_total, lemma_part_total,
    lemma_same_chosen, lemma_same_sorted, lemma_same_total, lemma_sorted_ascends, order_of, picked,
    sort_values, sorted, total, turned,
};
use crate::text::{arrange, arranged, copy_opt, lex_lt, monus, opt_text, same_text, views, Replica};
use crate::textmap::{
    dict, has_key, is_sorted, lemma_dict_at, lemma_listing_unique, listing_of, slot,
    sorted_listing,
};

verus! {

/// How long completed-turn and gap logs are kept before rotation.
pub const TURN_RETENTION_MS: u64 = 7_776_000_000;

/// A turn that starts this soon after a blocked one may be rework.
pub const REWORK_WINDOW_MS: u64 = 600_000;

/// A turn shorter than this may be rework.
pub const SHORT_TURN_MS: u64 = 300_000;

/// One line of turns.jsonl. Old lines without `ended_by` stand for plain finished turns.
#[derive(Clone, Debug)]
pub struct TurnRecord {
    pub pane_id: String,
    pub agent: Option<String>,
    pub finished_at_ms: u64,
    pub duration_ms: u64,
    pub ended_by: String,
}

/// A turn with its texts as sequences of characters.
#[verifier::ext_equal]
pub struct TurnView {
    pub pane_id: Seq<char>,
    pub agent: Option<Seq<char>>,
    pub finished_at_ms: u64,
    pub duration_ms: u64,
    pub ended_by: Seq<char>,
}

impl View for TurnRecord {
    type V = TurnView;

    open spec fn view(&self) -> TurnView {
        TurnView {
            pane_id: self.pane_id@,
            agent: opt_text(self.agent),
            finished_at_ms: self.finished_at_ms,
            duration_ms: self.duration_ms,
            ended_by: self.ended_by@,
        }
    }
}

/// How a turn ended, where its line does not say.
pub fn default_ended_by() -> (r: String)
    ensures
        r@ == "idle"@,
{
    "idle".to_owned()
}

/// One line of gaps.jsonl: how long a pane sat blocked before resuming work.
#[derive(Clone, Debug)]
pub struct GapRecord {
    pub pane_id: String,
    pub agent: Option<String>,
    pub started_at_ms: u64,
    pub duration_ms: u64,
}

/// A gap with its texts as sequences of characters.
#[verifier::ext_equal]
pub struct GapView {
    pub pane_id: Seq<char>,
    pub agent: Option<Seq<char>>,
    pub started_at_ms: u64,
    pub duration_ms: u64,
}

impl View for GapRecord {
    type V = GapView;

    open spec fn view(&self) -> GapView {
        GapView {
            pane_id: self.pane_id@,
            agent: opt_text(self.agent),
            started_at_ms: self.started_at_ms,
            duration_ms: self.duration_ms,
        }
    }
}

/// Where the log of completed turns is kept.
pub fn turns_path(paths: &PluginPaths) -> (r: String)
    ensures
        r@ == paths.file("turns.jsonl"@),
{
    join_path(paths.state_dir.as_str(), "turns.jsonl")
}

/// Where the log of human-response gaps is kept.
pub fn gaps_path(paths: &PluginPaths) -> (r: String)
    ensures
        r@ == paths.file("gaps.jsonl"@),
{
    join_path(paths.state_dir.as_str(), "gaps.jsonl")
}

// ---------------------------------------------------------------- percentiles
/// The nearest-rank percentile of a row that ascends: the value at rank `pct` percent of the
/// length, rounded up, and at least the first.
pub open spec fn percentile(s: Seq<u64>, pct: nat) -> Option<u64> {
    if s.len() == 0 {
        None
    } else {
        let up = (s.len() * pct + 99) / 100;
        Some(s[if up == 0 {
            0
        } else {
            up - 1
        }])
    }
}

/// Nearest-rank percentile over an ascending row.
pub fn nearest_rank(sorted: &Vec<u64>, pct: usize) -> (r: Option<u64>)
    requires
        sorted@.len() > 0 ==> pct <= 100,
    ensures
        r == percentile(sorted@, pct as nat),
{
    if sorted.len() == 0 {
        return None;
    }
    let n: u128 = sorted.len() as u128;
    proof {
        assert(n * pct <= n * 100) by (nonlinear_arith)
            requires
                pct <= 100,
        ;
        assert(n * pct >= 0) by (nonlinear_arith);
    }
    let up: u128 = (n * (pct as u128) + 99) / 100;
    let rank: usize = if up == 0 {
        0
    } else {
        (up - 1) as usize
    };
    Some(sorted[rank])
}

/// Of a row that ascends, a higher percentile is no smaller.
pub proof fn lemma_percentiles_ascend(s: Seq<u64>, low: nat, high: nat)
    requires
        forall|a: int, b: int| 0 <= a <= b < s.len() ==> s[a] <= s[b],
        low <= high <= 100,
        s.len() > 0,
    ensures
        percentile(s, low)->0 <= percentile(s, high)->0,
{
    let n = s.len();
    assert(n * low <= n * high <= n * 100) by (nonlinear_arith)
        requires
            low <= high <= 100,
    ;
    let a = (n * low + 99) / 100;
    let b = (n * high + 99) / 100;
    assert(a <= b <= n);
}

// ---------------------------------------------------------------- statistics
/// The turns of one agent.
#[derive(Clone, Debug)]
pub struct AgentTurnStats {
    pub agent: String,
    pub completed: u64,
    pub p50_ms: Option<u64>,
    pub p95_ms: Option<u64>,
}

/// The turns of one agent, its name as a sequence of characters.
#[verifier::ext_equal]
pub struct AgentTurnView {
    pub agent: Seq<char>,
    pub completed: u64,
    pub p50_ms: Option<u64>,
    pub p95_ms: Option<u64>,
}

impl View for AgentTurnStats {
    type V = AgentTurnView;

    open spec fn view(&self) -> AgentTurnView {
        AgentTurnView {
            agent: self.agent@,
            completed: self.completed,
            p50_ms: self.p50_ms,
            p95_ms: self.p95_ms,
        }
    }
}

impl Replica for AgentTurnStats {
    fn copy(&self) -> (r: AgentTurnStats) {
        AgentTurnStats {
            agent: self.agent.clone(),
            completed: self.completed,
            p50_ms: self.p50_ms,
            p95_ms: self.p95_ms,
        }
    }
}

/// Turn efficiency over the logs.
#[derive(Clone, Debug)]
pub struct TurnStats {
    pub completed: u64,
    pub p50_ms: Option<u64>,
    pub p95_ms: Option<u64>,
    /// Per-agent breakdown, busiest agent first.
    pub by_agent: Vec<AgentTurnStats>,
    /// Share of turns that ended in `blocked` (the agent had to stop and ask).
    pub intervention_rate: Option<Double>,
    pub zero_intervention_rate: Option<Double>,
    /// Quick follow-up turns right after a blocked turn: signs of rework.
    pub rework_turns: u64,
    /// How long humans took to unblock agents (from gaps.jsonl).
    pub human_latency_p50_ms: Option<u64>,
    pub human_latency_total_ms: u64,
}

/// Turn efficiency, its texts as sequences of characters.
#[verifier::ext_equal]
pub struct TurnStatsView {
    pub completed: u64,
    pub p50_ms: Option<u64>,
    pub p95_ms: Option<u64>,
    pub by_agent: Seq<AgentTurnView>,
    pub intervention_rate: Option<Double>,
    pub zero_intervention_rate: Option<Double>,
    pub rework_turns: u64,
    pub human_latency_p50_ms: Option<u64>,
    pub human_latency_total_ms: u64,
}

impl View for TurnStats {
    type V = TurnStatsView;

    open spec fn view(&self) -> TurnStatsView {
        TurnStatsView {
            completed: self.completed,
            p50_ms: self.p50_ms,
            p95_ms: self.p95_ms,
            by_agent: views(self.by_agent@),
            intervention_rate: self.intervention_rate,
            zero_intervention_rate: self.zero_intervention_rate,
            rework_turns: self.rework_turns,
            human_latency_p50_ms: self.human_latency_p50_ms,
            human_latency_total_ms: self.human_latency_total_ms,
        }
    }
}

/// How long each turn took.
pub open spec fn durations(turns: Seq<TurnView>) -> Seq<u64> {
    turns.map_values(|t: TurnView| t.duration_ms)
}

/// How long each gap took.
pub open spec fn gap_durations(gaps: Seq<GapView>) -> Seq<u64> {
    gaps.map_values(|g: GapView| g.duration_ms)
}

/// Whose turn each one was.
pub open spec fn turn_labels(turns: Seq<TurnView>) -> Seq<Seq<char>> {
    turns.map_values(|t: TurnView| name_of(t.agent))
}

/// The statistics of one agent's durations.
pub open spec fn agent_row(agent: Seq<char>, d: Seq<u64>) -> AgentTurnView {
    AgentTurnView {
        agent,
        completed: d.len() as u64,
        p50_ms: percentile(sorted(d), 50),
        p95_ms: percentile(sorted(d), 95),
    }
}

/// One row for each agent, by name.
pub open spec fn agent_rows(turns: Seq<TurnView>) -> Seq<AgentTurnView> {
    sorted_listing(groups(turn_labels(turns))).map_values(
        |e: (Seq<char>, Seq<usize>)| agent_row(e.0, picked(durations(turns), e.1)),
    )
}

/// The counts of a row of agents.
pub open spec fn counts(rows: Seq<AgentTurnView>) -> Seq<u64> {
    rows.map_values(|r: AgentTurnView| r.completed)
}

/// The agents, those with the most turns first and by name among equals.
pub open spec fn busiest_first(turns: Seq<TurnView>) -> Seq<AgentTurnView> {
    arranged(agent_rows(turns), order_of(turned(counts(agent_rows(turns)))))
}

/// Whether a turn ended because the agent had to stop and ask.
pub open spec fn was_blocked(t: TurnView) -> bool {
    t.ended_by == "blocked"@
}

/// How many of a row of turns ended blocked.
pub open spec fn blocked_count(turns: Seq<TurnView>) -> nat
    decreases turns.len(),
{
    if turns.len() == 0 {
        0
    } else {
        blocked_count(turns.drop_last()) + if was_blocked(turns.last()) {
            1nat
        } else {
            0
        }
    }
}

/// When a turn started.
pub open spec fn start_of(t: TurnView) -> u64 {
    monus(t.finished_at_ms, t.duration_ms)
}

/// Whether `t` starts shortly after `prev` ended blocked in the same pane.
pub open spec fn follows_block(prev: TurnView, t: TurnView) -> bool {
    &&& prev.pane_id == t.pane_id
    &&& was_blocked(prev)
    &&& prev.finished_at_ms <= start_of(t)
    &&& start_of(t) - prev.finished_at_ms < REWORK_WINDOW_MS
}

/// Whether turn `i` is a short one that starts shortly after another turn of the same pane ended
/// blocked: the agent was interrupted mid-task and had to redo work.
pub open spec fn is_rework(turns: Seq<TurnView>, i: int) -> bool {
    turns[i].duration_ms < SHORT_TURN_MS && exists|j: int|
        0 <= j < turns.len() && j != i && follows_block(#[trigger] turns[j], turns[i])
}

/// How many of the first `n` turns are rework.
pub open spec fn rework_count(turns: Seq<TurnView>, n: nat) -> nat
    decreases n,
{
    if n == 0 {
        0
    } else {
        rework_count(turns, (n - 1) as nat) + if is_rework(turns, n - 1) {
            1nat
        } else {
            0
        }
    }
}

/// The statistics of the two logs.
pub open spec fn stats_of(turns: Seq<TurnView>, gaps: Seq<GapView>) -> TurnStatsView {
    let blocked = blocked_count(turns) as u64;
    let rate = if turns.len() == 0 {
        None
    } else {
        Some(number(ratio_units(blocked, turns.len() as u64)))
    };
    TurnStatsView {
        completed: turns.len() as u64,
        p50_ms: percentile(sorted(durations(turns)), 50),
        p95_ms: percentile(sorted(durations(turns)), 95),
        by_agent: busiest_first(turns),
        intervention_rate: rate,
        zero_intervention_rate: match rate {
            Some(r) => Some(rest(r)),
            None => None,
        },
        rework_turns: rework_count(turns, turns.len()) as u64,
        human_latency_p50_ms: percentile(sorted(gap_durations(gaps)), 50),
        human_latency_total_ms: total(gap_durations(gaps)) as u64,
    }
}

fn agent_stats(agent: String, d: &Vec<u64>) -> (r: AgentTurnStats)
    ensures
        r@ == agent_row(agent@, d@),
{
    let s = sort_values(d);
    AgentTurnStats {
        agent,
        completed: d.len() as u64,
        p50_ms: nearest_rank(&s, 50),
        p95_ms: nearest_rank(&s, 95),
    }
}

fn rank_agents(turns: &Vec<TurnRecord>, d: &Vec<u64>) -> (r: Vec<AgentTurnStats>)
    requires
        d@ == durations(views(turns@)),
    ensures
        views(r@) == busiest_first(views(turns@)),
{
    let ghost all = views(turns@);
    let mut labels: Vec<String> = Vec::new();
    let mut i: usize = 0;
    while i < turns.len()
        invariant
            i <= turns@.len(),
            all == views(turns@),
            views(labels@) =~= turn_labels(all).take(i as int),
        decreases turns@.len() - i,
    {
        let ghost done = labels@;
        let label = agent_name(&turns[i].agent);
        labels.push(label);
        assert(views(labels@) =~= views(done).push(turn_labels(all)[i as int]));
        i = i + 1;
    }
    assert(views(labels@) =~= turn_labels(all));
    let parts = grouped(&labels);
    let ghost listing = listing_of(parts@);
    let mut rows: Vec<AgentTurnStats> = Vec::new();
    let mut keys: Vec<u64> = Vec::new();
    let mut k: usize = 0;
    while k < parts.len()
        invariant
            k <= parts@.len(),
            d@ == durations(all),
            d@.len() <= usize::MAX,
            listing == listing_of(parts@),
            is_sorted(listing),
            dict(listing) == groups(turn_labels(all)),
            listing == sorted_listing(groups(turn_labels(all))),
            views(rows@) =~= agent_rows(all).take(k as int),
            keys@ =~= counts(agent_rows(all)).take(k as int),
        decreases parts@.len() - k,
    {
        proof {
            lemma_dict_at(listing, k as int);
            lemma_members(turn_labels(all), listing[k as int].0);
        }
        let at: &Vec<usize> = &parts[k].1;
        assert(at@ == members(turn_labels(all), listing[k as int].0));
        let mut own: Vec<u64> = Vec::new();
        let mut m: usize = 0;
        while m < at.len()
            invariant
                m <= at@.len(),
                d@ == durations(all),
                forall|x: int| 0 <= x < at@.len() ==> #[trigger] at@[x] < d@.len(),
                own@ =~= picked(d@, at@).take(m as int),
            decreases at@.len() - m,
        {
            own.push(d[at[m]]);
            m = m + 1;
        }
        assert(own@ =~= picked(d@, at@));
        let ghost done = rows@;
        let row = agent_stats(parts[k].0.clone(), &own);
        keys.push(row.completed);
        rows.push(row);
        assert(views(rows@) =~= views(done).push(agent_rows(all)[k as int]));
        k = k + 1;
    }
    assert(views(rows@) =~= agent_rows(all));
    assert(keys@ =~= counts(agent_rows(all)));
    let order = descending(&keys);
    arrange(&rows, &order)
}

fn reworked(turns: &Vec<TurnRecord>, i: usize) -> (r: bool)
    requires
        i < turns@.len(),
    ensures
        r == is_rework(views(turns@), i as int),
{
    let t = &turns[i];
    let ghost all = views(turns@);
    assert(all[i as int] == t@);
    if t.duration_ms >= SHORT_TURN_MS {
        return false;
    }
    let start: u64 = t.finished_at_ms.saturating_sub(t.duration_ms);
    let mut j: usize = 0;
    while j < turns.len()
        invariant
            j <= turns@.len(),
            all == views(turns@),
            all[i as int] == t@,
            start == start_of(t@),
            t.duration_ms < SHORT_TURN_MS,
            forall|x: int| 0 <= x < j && x != i ==> !follows_block(#[trigger] all[x], t@),
        decreases turns@.len() - j,
    {
        let prev = &turns[j];
        assert(all[j as int] == prev@);
        if j != i && same_text(prev.pane_id.as_str(), t.pane_id.as_str()) && same_text(
            prev.ended_by.as_str(),
            "blocked",
        ) && prev.finished_at_ms <= start && start - prev.finished_at_ms < REWORK_WINDOW_MS {
            assert(follows_block(all[j as int], t@));
            return true;
        }
        j = j + 1;
    }
    false
}

/// Whether the gaps add up to something that can be counted.
pub fn gaps_countable(gaps: &Vec<GapRecord>) -> (r: bool)
    ensures
        r == (total(gap_durations(views(gaps@))) <= u64::MAX),
{
    let ghost waits = gap_durations(views(gaps@));
    let mut sum: u64 = 0;
    let mut g: usize = 0;
    while g < gaps.len()
        invariant
            g <= gaps@.len(),
            waits == gap_durations(views(gaps@)),
            sum == total(waits.take(g as int)),
        decreases gaps@.len() - g,
    {
        proof {
            assert(waits.take(g + 1).drop_last() =~= waits.take(g as int));
            lemma_part_total(waits, g + 1);
        }
        match sum.checked_add(gaps[g].duration_ms) {
            Some(n) => {
                sum = n;
            },
            None => {
                return false;
            },
        }
        g = g + 1;
    }
    assert(waits.take(g as int) =~= waits);
    true
}

/// Aggregate turn efficiency from the records of turns.jsonl and gaps.jsonl. None when neither
/// log has any records yet.
pub fn turn_stats(turns: &Vec<TurnRecord>, gaps: &Vec<GapRecord>) -> (r: Option<TurnStats>)
    requires
        total(gap_durations(views(gaps@))) <= u64::MAX,
    ensures
        match r {
            Some(s) => (turns@.len() > 0 || gaps@.len() > 0) && s@ == stats_of(
                views(turns@),
                views(gaps@),
            ),
            None => turns@.len() == 0 && gaps@.len() == 0,
        },
{
    if turns.len() == 0 && gaps.len() == 0 {
        return None;
    }
    let ghost all = views(turns@);
    let ghost waits = gap_durations(views(gaps@));
    let mut d: Vec<u64> = Vec::new();
    let mut blocked: u64 = 0;
    let mut rework: u64 = 0;
    let mut i: usize = 0;
    while i < turns.len()
        invariant
            i <= turns@.len(),
            all == views(turns@),
            d@ =~= durations(all).take(i as int),
            blocked == blocked_count(all.take(i as int)),
            rework == rework_count(all, i as nat),
            blocked <= i,
            rework <= i,
        decreases turns@.len() - i,
    {
        let t = &turns[i];
        assert(all.take(i + 1).drop_last() =~= all.take(i as int));
        assert(all.take(i + 1).last() == t@);
        d.push(t.duration_ms);
        if same_text(t.ended_by.as_str(), "blocked") {
            blocked = blocked + 1;
        }
        if reworked(turns, i) {
            rework = rework + 1;
        }
        i = i + 1;
    }
    assert(all.take(i as int) =~= all);
    assert(d@ =~= durations(all));
    let by_agent = rank_agents(turns, &d);
    let mut w: Vec<u64> = Vec::new();
    let mut sum: u64 = 0;
    let mut g: usize = 0;
    while g < gaps.len()
        invariant
            g <= gaps@.len(),
            waits == gap_durations(views(gaps@)),
            total(waits) <= u64::MAX,
            w@ =~= waits.take(g as int),
            sum == total(waits.take(g as int)),
        decreases gaps@.len() - g,
    {
        proof {
            assert(waits.take(g + 1).drop_last() =~= waits.take(g as int));
            lemma_part_total(waits, g + 1);
        }
        w.push(gaps[g].duration_ms);
        sum = sum + gaps[g].duration_ms;
        g = g + 1;
    }
    assert(w@ =~= waits);
    assert(waits.take(g as int) =~= waits);
    let ds = sort_values(&d);
    let ws = sort_values(&w);
    let (rate, rest_rate) = if turns.len() == 0 {
        (None, None)
    } else {
        let x = Double::ratio(blocked, turns.len() as u64);
        proof {
            lemma_rate_is_share(blocked, turns@.len() as u64, x);
        }
        (Some(x), Some(x.complement()))
    };
    Some(
        TurnStats {
            completed: turns.len() as u64,
            p50_ms: nearest_rank(&ds, 50),
            p95_ms: nearest_rank(&ds, 95),
            by_agent,
            intervention_rate: rate,
            zero_intervention_rate: rest_rate,
            rework_turns: rework,
            human_latency_p50_ms: nearest_rank(&ws, 50),
            human_latency_total_ms: sum,
        },
    )
}

/// A median is never above its tail: of the same turns, the 50th percentile is at most the 95th.
pub proof fn lemma_median_below_tail(turns: Seq<TurnView>, gaps: Seq<GapView>)
    requires
        0 < turns.len() <= usize::MAX,
    ensures
        stats_of(turns, gaps).p50_ms is Some,
        stats_of(turns, gaps).p95_ms is Some,
        stats_of(turns, gaps).p50_ms->0 <= stats_of(turns, gaps).p95_ms->0,
{
    lemma_sorted_ascends(durations(turns));
    lemma_percentiles_ascend(sorted(durations(turns)), 50, 95);
}

/// A lone turn follows none, so it is no rework.
pub proof fn lemma_lone_turn_is_no_rework(turn: TurnView, gaps: Seq<GapView>)
    ensures
        stats_of(seq![turn], gaps).completed == 1,
        stats_of(seq![turn], gaps).rework_turns == 0,
{
    let turns = seq![turn];
    assert(!is_rework(turns, 0));
    assert(rework_count(turns, 0) == 0);
    assert(rework_count(turns, 1) == 0);
}

/// Every turn is counted under exactly one agent.
pub proof fn lemma_turns_have_one_agent(turns: Seq<TurnView>)
    requires
        turns.len() <= usize::MAX,
    ensures
        total(counts(busiest_first(turns))) == turns.len(),
{
    let labels = turn_labels(turns);
    let rows = agent_rows(turns);
    let keys = turned(counts(rows));
    lemma_sizes_add_up(labels, counts(rows));
    lemma_groups_share_out(labels);
    lemma_has_order(keys);
    lemma_order_keeps_total(keys, order_of(keys), counts(rows));
    assert(counts(busiest_first(turns)) =~= picked(counts(rows), order_of(keys)));
}

/// The share of turns that ended blocked lies between none and all of them, and what is left of
/// one lies there too.
pub proof fn lemma_intervention_is_share(turns: Seq<TurnView>, gaps: Seq<GapView>)
    requires
        0 < turns.len() <= usize::MAX,
    ensures
        blocked_count(turns) <= turns.len(),
        stats_of(turns, gaps).intervention_rate matches Some(r) && r.is_share(),
        stats_of(turns, gaps).zero_intervention_rate matches Some(r) && r.is_share(),
{
    lemma_blocked_at_most(turns);
    lemma_rates_are_shares(blocked_count(turns) as u64, turns.len() as u64);
}

/// No more turns ended blocked than there are.
pub proof fn lemma_blocked_at_most(turns: Seq<TurnView>)
    ensures
        blocked_count(turns) <= turns.len(),
    decreases turns.len(),
{
    if turns.len() > 0 {
        lemma_blocked_at_most(turns.drop_last());
    }
}

/// The agents stand with the busiest first; among equally busy ones the names ascend.
pub proof fn lemma_busiest_agent_first(turns: Seq<TurnView>, a: int, b: int)
    requires
        turns.len() <= usize::MAX,
        0 <= a < b < busiest_first(turns).len(),
    ensures
        busiest_first(turns)[a].completed >= busiest_first(turns)[b].completed,
        busiest_first(turns)[a].completed == busiest_first(turns)[b].completed ==> lex_lt(
            busiest_first(turns)[a].agent,
            busiest_first(turns)[b].agent,
        ),
{
    let rows = agent_rows(turns);
    let keys = turned(counts(rows));
    let s = sorted_listing(groups(turn_labels(turns)));
    lemma_groups_share_out(turn_labels(turns));
    lemma_has_order(keys);
    let o = order_of(keys);
    assert(goes_before(keys, o[a] as int, o[b] as int));
    assert(rows[o[a] as int].agent == s[o[a] as int].0);
    assert(rows[o[b] as int].agent == s[o[b] as int].0);
}

// ---------------------------------------------------------------- the order of the logs
spec fn duration_of() -> spec_fn(TurnView) -> Option<u64> {
    |t: TurnView| Some(t.duration_ms)
}

spec fn gap_duration_of() -> spec_fn(GapView) -> Option<u64> {
    |g: GapView| Some(g.duration_ms)
}

spec fn own_duration_of(agent: Seq<char>) -> spec_fn(TurnView) -> Option<u64> {
    |t: TurnView|
        if name_of(t.agent) == agent {
            Some(t.duration_ms)
        } else {
            None
        }
}

spec fn blocked_one() -> spec_fn(TurnView) -> Option<u64> {
    |t: TurnView|
        if was_blocked(t) {
            Some(1)
        } else {
            None
        }
}

/// Whether `t` is rework among some other turns.
spec fn reworks(others: Multiset<TurnView>, t: TurnView) -> bool {
    t.duration_ms < SHORT_TURN_MS && exists|p: TurnView|
        others.count(p) > 0 && #[trigger] follows_block(p, t)
}

spec fn rework_one(all: Multiset<TurnView>) -> spec_fn(TurnView) -> Option<u64> {
    |t: TurnView|
        if reworks(all.remove(t), t) {
            Some(1)
        } else {
            None
        }
}

proof fn lemma_durations_chosen(turns: Seq<TurnView>)
    ensures
        durations(turns) == chosen(turns, duration_of()),
    decreases turns.len(),
{
    if turns.len() > 0 {
        lemma_durations_chosen(turns.drop_last());
        assert(durations(turns) =~= durations(turns.drop_last()).push(turns.last().duration_ms));
    } else {
        assert(durations(turns) =~= chosen(turns, duration_of()));
    }
}

proof fn lemma_gap_durations_chosen(gaps: Seq<GapView>)
    ensures
        gap_durations(gaps) == chosen(gaps, gap_duration_of()),
    decreases gaps.len(),
{
    if gaps.len() > 0 {
        lemma_gap_durations_chosen(gaps.drop_last());
        assert(gap_durations(gaps) =~= gap_durations(gaps.drop_last()).push(
            gaps.last().duration_ms,
        ));
    } else {
        assert(gap_durations(gaps) =~= chosen(gaps, gap_duration_of()));
    }
}

proof fn lemma_own_chosen(turns: Seq<TurnView>, agent: Seq<char>)
    requires
        turns.len() <= usize::MAX,
    ensures
        picked(durations(turns), members(turn_labels(turns), agent)) == chosen(
            turns,
            own_duration_of(agent),
        ),
    decreases turns.len(),
{
    let labels = turn_labels(turns);
    let own = picked(durations(turns), members(labels, agent));
    if turns.len() > 0 {
        let rest = turns.drop_last();
        lemma_own_chosen(rest, agent);
        assert(labels.drop_last() =~= turn_labels(rest));
        lemma_members(turn_labels(rest), agent);
        let before = picked(durations(rest), members(turn_labels(rest), agent));
        assert(picked(durations(turns), members(turn_labels(rest), agent)) =~= before);
        if labels.last() == agent {
            assert(own =~= before.push(turns.last().duration_ms));
        } else {
            assert(own =~= before);
        }
    } else {
        assert(own =~= chosen(turns, own_duration_of(agent)));
    }
}

proof fn lemma_blocked_chosen(turns: Seq<TurnView>)
    ensures
        blocked_count(turns) == chosen(turns, blocked_one()).len(),
    decreases turns.len(),
{
    if turns.len() > 0 {
        lemma_blocked_chosen(turns.drop_last());
    }
}

proof fn lemma_rework_among(turns: Seq<TurnView>, i: int)
    requires
        0 <= i < turns.len(),
    ensures
        is_rework(turns, i) == reworks(turns.to_multiset().remove(turns[i]), turns[i]),
{
    let others = turns.remove(i);
    to_multiset_remove(turns, i);
    if is_rework(turns, i) {
        let j = choose|j: int|
            0 <= j < turns.len() && j != i && follows_block(#[trigger] turns[j], turns[i]);
        let j0 = if j < i { j } else { j - 1 };
        assert(others[j0] == turns[j]);
        to_multiset_contains(others, turns[j]);
        assert(follows_block(turns[j], turns[i]));
    }
    if reworks(others.to_multiset(), turns[i]) {
        let p = choose|p: TurnView|
            others.to_multiset().count(p) > 0 && #[trigger] follows_block(p, turns[i]);
        to_multiset_contains(others, p);
        let j0 = choose|j0: int| 0 <= j0 < others.len() && others[j0] == p;
        let j = if j0 < i { j0 } else { j0 + 1 };
        assert(turns[j] == p);
        assert(follows_block(turns[j], turns[i]));
    }
}

proof fn lemma_rework_chosen(turns: Seq<TurnView>, n: nat)
    requires
        n <= turns.len(),
    ensures
        rework_count(turns, n) == chosen(
            turns.take(n as int),
            rework_one(turns.to_multiset()),
        ).len(),
    decreases n,
{
    if n > 0 {
        lemma_rework_chosen(turns, (n - 1) as nat);
        lemma_rework_among(turns, n - 1);
        assert(turns.take(n as int).drop_last() =~= turns.take(n - 1));
        assert(turns.take(n as int).last() == turns[n - 1]);
    }
}

/// The agents with their rows.
spec fn row_listing(turns: Seq<TurnView>) -> Seq<(Seq<char>, AgentTurnView)> {
    sorted_listing(groups(turn_labels(turns))).map_values(
        |e: (Seq<char>, Seq<usize>)|
            (e.0, agent_row(e.0, picked(durations(turns), e.1))),
    )
}

proof fn lemma_row_listing(turns: Seq<TurnView>)
    requires
        turns.len() <= usize::MAX,
    ensures
        is_sorted(row_listing(turns)),
        forall|l: Seq<char>|
            #[trigger] dict(row_listing(turns)).contains_key(l) <==> turn_labels(turns).contains(l),
        forall|l: Seq<char>|
            turn_labels(turns).contains(l) ==> #[trigger] dict(row_listing(turns))[l] == agent_row(
                l,
                chosen(turns, own_duration_of(l)),
            ),
{
    let labels = turn_labels(turns);
    let s = sorted_listing(groups(labels));
    let r = row_listing(turns);
    lemma_groups_share_out(labels);
    assert forall|i: int, j: int| 0 <= i < j < r.len() implies lex_lt(
        #[trigger] r[i].0,
        #[trigger] r[j].0,
    ) by {
        assert(lex_lt(s[i].0, s[j].0));
    }
    assert forall|l: Seq<char>| #[trigger]
        dict(r).contains_key(l) <==> labels.contains(l) by {
        if has_key(r, l) {
            let k = slot(r, l);
            assert(s[k].0 == l);
            lemma_dict_at(s, k);
        }
        if labels.contains(l) {
            assert(groups(labels).contains_key(l));
            assert(dict(s).contains_key(l));
            let k = slot(s, l);
            assert(r[k].0 == l);
        }
    }
    assert forall|l: Seq<char>| labels.contains(l) implies #[trigger] dict(r)[l] == agent_row(
        l,
        chosen(turns, own_duration_of(l)),
    ) by {
        assert(dict(r).contains_key(l));
        let k = slot(r, l);
        assert(r[k].0 == l);
        assert(s[k].0 == l);
        lemma_dict_at(s, k);
        assert(s[k].1 == members(labels, l));
        lemma_own_chosen(turns, l);
    }
}

proof fn lemma_same_rows(s: Seq<TurnView>, t: Seq<TurnView>)
    requires
        s.to_multiset() == t.to_multiset(),
        s.len() == t.len() <= usize::MAX,
    ensures
        agent_rows(s) == agent_rows(t),
{
    let a = row_listing(s);
    let b = row_listing(t);
    lemma_row_listing(s);
    lemma_row_listing(t);
    assert forall|l: Seq<char>| turn_labels(s).contains(l) == turn_labels(t).contains(l) by {
        lemma_label_moves(s, t, l);
        lemma_label_moves(t, s, l);
    }
    assert forall|l: Seq<char>| turn_labels(s).contains(l) implies dict(a)[l] == dict(b)[l] by {
        let own = own_duration_of(l);
        lemma_same_chosen(s, t, own);
        lemma_chosen_at_most(s, own);
        lemma_same_sorted(chosen(s, own), chosen(t, own));
    }
    assert(dict(a) =~= dict(b)) by {
        assert forall|l: Seq<char>| dict(a).contains_key(l) == dict(b).contains_key(l) by {
            assert(turn_labels(s).contains(l) == turn_labels(t).contains(l));
        }
    }
    lemma_listing_unique(a, b);
    assert(agent_rows(s) =~= a.map_values(|e: (Seq<char>, AgentTurnView)| e.1));
    assert(agent_rows(t) =~= b.map_values(|e: (Seq<char>, AgentTurnView)| e.1));
}

proof fn lemma_label_moves(s: Seq<TurnView>, t: Seq<TurnView>, l: Seq<char>)
    requires
        s.to_multiset() == t.to_multiset(),
    ensures
        turn_labels(s).contains(l) ==> turn_labels(t).contains(l),
{
    if turn_labels(s).contains(l) {
        let i = choose|i: int| 0 <= i < turn_labels(s).len() && turn_labels(s)[i] == l;
        to_multiset_contains(s, s[i]);
        to_multiset_contains(t, s[i]);
        let j = choose|j: int| 0 <= j < t.len() && t[j] == s[i];
        assert(turn_labels(t)[j] == l);
    }
}

proof fn lemma_chosen_at_most(s: Seq<TurnView>, f: spec_fn(TurnView) -> Option<u64>)
    ensures
        chosen(s, f).len() <= s.len(),
    decreases s.len(),
{
    if s.len() > 0 {
        lemma_chosen_at_most(s.drop_last(), f);
    }
}

/// The order of the records in the logs does not matter: logs that hold the same records say the
/// same.
pub proof fn lemma_record_order_is_free(
    t1: Seq<TurnView>,
    t2: Seq<TurnView>,
    g1: Seq<GapView>,
    g2: Seq<GapView>,
)
    requires
        t1.to_multiset() == t2.to_multiset(),
        g1.to_multiset() == g2.to_multiset(),
        t1.len() <= usize::MAX,
        g1.len() <= usize::MAX,
    ensures
        t1.len() == t2.len(),
        g1.len() == g2.len(),
        total(gap_durations(g1)) == total(gap_durations(g2)),
        stats_of(t1, g1) == stats_of(t2, g2),
{
    to_multiset_len(t1);
    to_multiset_len(t2);
    to_multiset_len(g1);
    to_multiset_len(g2);
    lemma_durations_chosen(t1);
    lemma_durations_chosen(t2);
    lemma_same_chosen(t1, t2, duration_of());
    lemma_same_sorted(durations(t1), durations(t2));
    lemma_gap_durations_chosen(g1);
    lemma_gap_durations_chosen(g2);
    lemma_same_chosen(g1, g2, gap_duration_of());
    lemma_same_sorted(gap_durations(g1), gap_durations(g2));
    lemma_same_total(gap_durations(g1), gap_durations(g2));
    lemma_blocked_chosen(t1);
    lemma_blocked_chosen(t2);
    lemma_same_chosen(t1, t2, blocked_one());
    lemma_rework_chosen(t1, t1.len());
    lemma_rework_chosen(t2, t2.len());
    assert(t1.take(t1.len() as int) =~= t1);
    assert(t2.take(t2.len() as int) =~= t2);
    lemma_same_chosen(t1, t2, rework_one(t1.to_multiset()));
    lemma_same_rows(t1, t2);
}

// ---------------------------------------------------------------- rotation
/// A record with a time by which it grows old.
pub trait Dated: Replica {
    /// The time of a record.
    spec fn stamp(v: Self::V) -> u64;

    /// The time of this record.
    fn at_ms(&self) -> (r: u64)
        ensures
            r == Self::stamp(self@),
    ;
}

impl Replica for TurnRecord {
    fn copy(&self) -> (r: TurnRecord) {
        TurnRecord {
            pane_id: self.pane_id.clone(),
            agent: copy_opt(&self.agent),
            finished_at_ms: self.finished_at_ms,
            duration_ms: self.duration_ms,
            ended_by: self.ended_by.clone(),
        }
    }
}

impl Dated for TurnRecord {
    open spec fn stamp(v: TurnView) -> u64 {
        v.finished_at_ms
    }

    fn at_ms(&self) -> (r: u64) {
        self.finished_at_ms
    }
}

impl Replica for GapRecord {
    fn copy(&self) -> (r: GapRecord) {
        GapRecord {
            pane_id: self.pane_id.clone(),
            agent: copy_opt(&self.agent),
            started_at_ms: self.started_at_ms,
            duration_ms: self.duration_ms,
        }
    }
}

impl Dated for GapRecord {
    open spec fn stamp(v: GapView) -> u64 {
        v.started_at_ms
    }

    fn at_ms(&self) -> (r: u64) {
        self.started_at_ms
    }
}

/// The records from `cutoff` on, in their order.
pub open spec fn fresh<T: Dated>(s: Seq<T::V>, cutoff: u64) -> Seq<T::V>
    decreases s.len(),
{
    if s.len() == 0 {
        Seq::empty()
    } else {
        let before = fresh::<T>(s.drop_last(), cutoff);
        if T::stamp(s.last()) >= cutoff {
            before.push(s.last())
        } else {
            before
        }
    }
}

/// Whether every record is from `cutoff` on.
pub open spec fn all_fresh<T: Dated>(s: Seq<T::V>, cutoff: u64) -> bool {
    forall|i: int| 0 <= i < s.len() ==> T::stamp(#[trigger] s[i]) >= cutoff
}

/// The contents of a log after rotation; none when the log can stay as it is.
pub fn rotate_file<T: Dated>(records: &Vec<T>, cutoff: u64) -> (r: Option<Vec<T>>)
    ensures
        match r {
            Some(kept) => !all_fresh::<T>(views(records@), cutoff) && views(kept@) == fresh::<T>(
                views(records@),
                cutoff,
            ),
            None => all_fresh::<T>(views(records@), cutoff),
        },
{
    let ghost all = views(records@);
    let mut kept: Vec<T> = Vec::new();
    let mut stale = false;
    let mut i: usize = 0;
    assert(views(kept@) =~= Seq::<T::V>::empty());
    while i < records.len()
        invariant
            i <= records@.len(),
            all == views(records@),
            views(kept@) == fresh::<T>(all.take(i as int), cutoff),
            stale <==> !all_fresh::<T>(all.take(i as int), cutoff),
        decreases records@.len() - i,
    {
        let ghost done = kept@;
        let record = &records[i];
        proof {
            let next = all.take(i + 1);
            assert(next.drop_last() =~= all.take(i as int));
            assert(next.last() == record@);
            assert(next[i as int] == record@);
            assert forall|k: int| 0 <= k < i implies next[k] == #[trigger] all.take(i as int)[k] by {
            }
            if stale {
                let k = choose|k: int| 0 <= k < i && T::stamp(#[trigger] all.take(i as int)[k]) < cutoff;
                assert(next[k] == all.take(i as int)[k]);
            }
        }
        if record.at_ms() >= cutoff {
            let copy = record.copy();
            kept.push(copy);
            assert(views(kept@) =~= views(done).push(record@));
        } else {
            stale = true;
        }
        i = i + 1;
    }
    assert(all.take(i as int) =~= all);
    if stale {
        Some(kept)
    } else {
        None
    }
}

/// The contents of turns.jsonl and gaps.jsonl after rotation at `now_ms`, keeping the records of
/// the last `keep_ms`; none where a log can stay as it is.
pub fn rotate_logs(
    turns: &Vec<TurnRecord>,
    gaps: &Vec<GapRecord>,
    now_ms: u64,
    keep_ms: u64,
) -> (r: (Option<Vec<TurnRecord>>, Option<Vec<GapRecord>>))
    ensures
        match r.0 {
            Some(kept) => !all_fresh::<TurnRecord>(views(turns@), monus(now_ms, keep_ms)) && views(
                kept@,
            ) == fresh::<TurnRecord>(views(turns@), monus(now_ms, keep_ms)),
            None => all_fresh::<TurnRecord>(views(turns@), monus(now_ms, keep_ms)),
        },
        match r.1 {
            Some(kept) => !all_fresh::<GapRecord>(views(gaps@), monus(now_ms, keep_ms)) && views(
                kept@,
            ) == fresh::<GapRecord>(views(gaps@), monus(now_ms, keep_ms)),
            None => all_fresh::<GapRecord>(views(gaps@), monus(now_ms, keep_ms)),
        },
{
    let cutoff: u64 = now_ms.saturating_sub(keep_ms);
    (rotate_file(turns, cutoff), rotate_file(gaps, cutoff))
}

/// Rotation keeps exactly the records from the cutoff on: all that are left are fresh, and
/// rotating them again changes nothing.
pub proof fn lemma_rotation_settles<T: Dated>(s: Seq<T::V>, cutoff: u64)
    ensures
        all_fresh::<T>(fresh::<T>(s, cutoff), cutoff),
        fresh::<T>(fresh::<T>(s, cutoff), cutoff) == fresh::<T>(s, cutoff),
        forall|i: int|
            0 <= i < s.len() && T::stamp(#[trigger] s[i]) >= cutoff ==> fresh::<T>(
                s,
                cutoff,
            ).contains(s[i]),
    decreases s.len(),
{
    if s.len() > 0 {
        let b = s.drop_last();
        let f = fresh::<T>(b, cutoff);
        lemma_rotation_settles::<T>(b, cutoff);
        if T::stamp(s.last()) >= cutoff {
            assert(f.push(s.last()).drop_last() =~= f);
        }
        assert forall|i: int| 0 <= i < s.len() && T::stamp(#[trigger] s[i]) >= cutoff implies fresh::<T>(
            s,
            cutoff,
        ).contains(s[i]) by {
            if i < b.len() {
                assert(b[i] == s[i]);
                let k = choose|k: int| 0 <= k < f.len() && f[k] == b[i];
                assert(fresh::<T>(s, cutoff)[k] == s[i]);
            } else {
                assert(fresh::<T>(s, cutoff)[f.len() as int] == s[i]);
            }
        }
    }
}

} // verus!
