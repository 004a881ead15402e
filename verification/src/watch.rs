//! The daemon's alerts and what it tells the user.

use vstd::prelude::*;
use vstd::string::*;

use crate::agents::{
    evaluate_tips, filed, lemma_blocked_is_not_working, lemma_pane_is_told,
    lemma_tip_tells_its_pane, names_pane, streak_after, tip_for, tips_on, AgentStateView,
    AgentStates, Tip, TipView,
};
use crate::config::{join_path, store_json, Config, PluginPaths, StorePlan};
use crate::double::Double;
use crate::live::{PaneChurn, PaneChurnView};
use crate::text::{copy_opt, dec, decimal, monus, opt_text, same_text, views, Replica};
use crate::textmap::{
    dict, has_key, is_sorted, lemma_dict_at, lemma_dict_finite, lemma_has_listing, slot,
    sorted_listing, TextMap,
};
use crate::tips::{Tips, TipsView};

verus! {

/// A pane.output_matched hit recorded by the event hook; refreshing the tips turns repeated hits
/// into an urgent retry-loop tip.
#[derive(Clone, Copy, Debug, PartialEq, Eq, Structural)]
pub struct LoopAlert {
    pub count: u64,
    pub first_at_ms: u64,
    pub last_at_ms: u64,
}

impl View for LoopAlert {
    type V = LoopAlert;

    open spec fn view(&self) -> LoopAlert {
        *self
    }
}

impl Replica for LoopAlert {
    fn copy(&self) -> (r: LoopAlert) {
        *self
    }
}

impl Default for LoopAlert {
    fn default() -> (r: LoopAlert)
        ensures
            r == (LoopAlert { count: 0, first_at_ms: 0, last_at_ms: 0 }),
    {
        LoopAlert { count: 0, first_at_ms: 0, last_at_ms: 0 }
    }
}

/// All panes' output-match streaks, keyed by pane id.
pub type LoopAlerts = TextMap<LoopAlert>;

/// Output matches within this window are the same loop; older entries are stale and pruned.
pub const LOOP_WINDOW_MS: u64 = 600_000;

/// How many output matches make a retry loop.
pub const LOOP_TIP_MIN_COUNT: u64 = 3;

/// Revision advance per sample above which a long turn is considered actively producing output
/// rather than stuck.
pub const PRODUCING_CHURN_MIN: u64 = 50;

/// How long the burn-rate alert stays silent after it fired.
pub const BURN_ALERT_MS: u64 = 3_600_000;

/// Where the output-match streaks are kept.
pub fn loop_alerts_path(paths: &PluginPaths) -> (r: String)
    ensures
        r@ == paths.file("loop-alerts.json"@),
{
    join_path(paths.state_dir.as_str(), "loop-alerts.json")
}

/// The plan for writing the output-match streaks.
pub fn store_loop_alerts(paths: &PluginPaths) -> (r: StorePlan)
    ensures
        r.replaces(paths.file("loop-alerts.json"@)),
{
    store_json(loop_alerts_path(paths))
}

// ---------------------------------------------------------------- budget
/// Budget-alert bookkeeping, persisted so each alert fires at most once per local day (daily
/// budget) / hour (burn rate).
#[derive(Clone, Debug)]
pub struct AlertState {
    pub last_daily_date: Option<String>,
    pub last_burn_at_ms: Option<u64>,
}

/// The bookkeeping with its text as a sequence of characters.
#[verifier::ext_equal]
pub struct AlertView {
    pub last_daily_date: Option<Seq<char>>,
    pub last_burn_at_ms: Option<u64>,
}

impl View for AlertState {
    type V = AlertView;

    open spec fn view(&self) -> AlertView {
        AlertView {
            last_daily_date: opt_text(self.last_daily_date),
            last_burn_at_ms: self.last_burn_at_ms,
        }
    }
}

impl Default for AlertState {
    fn default() -> (r: AlertState)
        ensures
            r@ == (AlertView { last_daily_date: None, last_burn_at_ms: None }),
    {
        AlertState { last_daily_date: None, last_burn_at_ms: None }
    }
}

/// Where the budget-alert bookkeeping is kept.
pub fn alert_state_path(paths: &PluginPaths) -> (r: String)
    ensures
        r@ == paths.file("alerts.json"@),
{
    join_path(paths.state_dir.as_str(), "alerts.json")
}

/// The plan for writing the budget-alert bookkeeping.
pub fn store_alert_state(paths: &PluginPaths) -> (r: StorePlan)
    ensures
        r.replaces(paths.file("alerts.json"@)),
{
    store_json(alert_state_path(paths))
}

/// Whether the daily tip fires: there is a limit, the cost of today is above it, and it has not
/// fired on this date.
pub open spec fn daily_fires(
    cost: Option<Double>,
    limit: Option<Double>,
    state: AlertView,
    today: Seq<char>,
) -> bool {
    cost is Some && limit is Some && cost->0.above(limit->0) && state.last_daily_date != Some(today)
}

/// Whether the burn-rate tip fires: the rate is above the threshold, and it has not fired within
/// the hour.
pub open spec fn burn_fires(
    rate: Option<Double>,
    threshold: Double,
    state: AlertView,
    now_ms: u64,
) -> bool {
    rate is Some && rate->0.above(threshold) && match state.last_burn_at_ms {
        None => true,
        Some(at) => monus(now_ms, at) >= BURN_ALERT_MS,
    }
}

/// What the daily tip says.
pub open spec fn daily_tip(cost: Double, limit: Double) -> TipView {
    TipView {
        pane_id: "budget"@,
        message: "today's cost $"@ + cost.text(2) + " passed the $"@ + limit.text(2)
            + " daily budget"@,
        urgent: true,
    }
}

/// What the burn-rate tip says.
pub open spec fn burn_tip(rate: Double, threshold: Double) -> TipView {
    TipView {
        pane_id: "budget"@,
        message: "burn rate $"@ + rate.text(2) + "/hr exceeds $"@ + threshold.text(2) + "/hr"@,
        urgent: true,
    }
}

/// The budget tips that fire.
pub open spec fn budget_tips(
    cost: Option<Double>,
    rate: Option<Double>,
    cfg: Config,
    state: AlertView,
    now_ms: u64,
    today: Seq<char>,
) -> Seq<TipView> {
    let daily = if daily_fires(cost, cfg.daily_cost_usd, state, today) {
        seq![daily_tip(cost->0, cfg.daily_cost_usd->0)]
    } else {
        Seq::empty()
    };
    if burn_fires(rate, cfg.block_burn_rate_usd_hr, state, now_ms) {
        daily.push(burn_tip(rate->0, cfg.block_burn_rate_usd_hr))
    } else {
        daily
    }
}

/// The bookkeeping after the budget tips fired.
pub open spec fn alerts_after(
    cost: Option<Double>,
    rate: Option<Double>,
    cfg: Config,
    state: AlertView,
    now_ms: u64,
    today: Seq<char>,
) -> AlertView {
    AlertView {
        last_daily_date: if daily_fires(cost, cfg.daily_cost_usd, state, today) {
            Some(today)
        } else {
            state.last_daily_date
        },
        last_burn_at_ms: if burn_fires(rate, cfg.block_burn_rate_usd_hr, state, now_ms) {
            Some(now_ms)
        } else {
            state.last_burn_at_ms
        },
    }
}

/// Which budget tips fire now, and the resulting alert state. The daily tip fires once per local
/// date; the burn-rate tip at most once per hour.
pub fn evaluate_budget_alerts(
    today_cost_usd: Option<Double>,
    burn_rate_usd_per_hr: Option<Double>,
    cfg: &Config,
    state: &AlertState,
    now_ms: u64,
    today: &str,
) -> (r: (Vec<Tip>, AlertState))
    ensures
        views(r.0@) == budget_tips(
            today_cost_usd,
            burn_rate_usd_per_hr,
            *cfg,
            state@,
            now_ms,
            today@,
        ),
        r.1@ == alerts_after(
            today_cost_usd,
            burn_rate_usd_per_hr,
            *cfg,
            state@,
            now_ms,
            today@,
        ),
{
    let mut next = AlertState {
        last_daily_date: copy_opt(&state.last_daily_date),
        last_burn_at_ms: state.last_burn_at_ms,
    };
    let mut tips: Vec<Tip> = Vec::new();
    match (cfg.daily_cost_usd, today_cost_usd) {
        (Some(limit), Some(cost)) => {
            let told = match &state.last_daily_date {
                Some(date) => same_text(date.as_str(), today),
                None => false,
            };
            if cost.gt(limit) && !told {
                let mut message = "today's cost $".to_owned();
                message.append(cost.fixed(2).as_str());
                message.append(" passed the $");
                message.append(limit.fixed(2).as_str());
                message.append(" daily budget");
                tips.push(Tip { pane_id: "budget".to_owned(), message, urgent: true });
                next.last_daily_date = Some(today.to_owned());
            }
        },
        _ => {},
    }
    let ghost daily = views(tips@);
    assert(daily =~= (if daily_fires(today_cost_usd, cfg.daily_cost_usd, state@, today@) {
        seq![daily_tip(today_cost_usd->0, cfg.daily_cost_usd->0)]
    } else {
        Seq::empty()
    }));
    match burn_rate_usd_per_hr {
        Some(rate) => {
            let rested = match state.last_burn_at_ms {
                Some(at) => now_ms.saturating_sub(at) >= BURN_ALERT_MS,
                None => true,
            };
            if rate.gt(cfg.block_burn_rate_usd_hr) && rested {
                let mut message = "burn rate $".to_owned();
                message.append(rate.fixed(2).as_str());
                message.append("/hr exceeds $");
                message.append(cfg.block_burn_rate_usd_hr.fixed(2).as_str());
                message.append("/hr");
                let tip = Tip { pane_id: "budget".to_owned(), message, urgent: true };
                let ghost done = tips@;
                tips.push(tip);
                assert(views(tips@) =~= views(done).push(tip@));
                next.last_burn_at_ms = Some(now_ms);
            }
        },
        None => {},
    }
    (tips, next)
}

/// On one local date the daily tip fires at most once, whatever the costs and the limits.
pub proof fn lemma_daily_once_a_day(
    cost: Option<Double>,
    rate: Option<Double>,
    cfg: Config,
    state: AlertView,
    now_ms: u64,
    today: Seq<char>,
    later_cost: Option<Double>,
    later_limit: Option<Double>,
)
    requires
        daily_fires(cost, cfg.daily_cost_usd, state, today),
    ensures
        !daily_fires(
            later_cost,
            later_limit,
            alerts_after(cost, rate, cfg, state, now_ms, today),
            today,
        ),
{
}

/// Within an hour of firing, the burn-rate tip does not fire again; from then on it does, while
/// the rate is above the threshold.
pub proof fn lemma_burn_once_an_hour(
    cost: Option<Double>,
    rate: Option<Double>,
    cfg: Config,
    state: AlertView,
    now_ms: u64,
    today: Seq<char>,
    later_rate: Double,
    later_ms: u64,
)
    requires
        burn_fires(rate, cfg.block_burn_rate_usd_hr, state, now_ms),
        later_rate.above(cfg.block_burn_rate_usd_hr),
    ensures
        burn_fires(
            Some(later_rate),
            cfg.block_burn_rate_usd_hr,
            alerts_after(cost, rate, cfg, state, now_ms, today),
            later_ms,
        ) <==> monus(later_ms, now_ms) >= 3_600_000,
{
}

/// At a limit or under it nothing fires, and the bookkeeping stays as it was.
pub proof fn lemma_budget_silent(
    cost: Option<Double>,
    rate: Option<Double>,
    cfg: Config,
    state: AlertView,
    now_ms: u64,
    today: Seq<char>,
)
    requires
        cost is None || cfg.daily_cost_usd is None || !cost->0.above(cfg.daily_cost_usd->0),
        rate is None || !rate->0.above(cfg.block_burn_rate_usd_hr),
    ensures
        budget_tips(cost, rate, cfg, state, now_ms, today) == Seq::<TipView>::empty(),
        alerts_after(cost, rate, cfg, state, now_ms, today) == state,
{
}

// ---------------------------------------------------------------- retry loops
/// Whether a streak is recent enough to count.
pub open spec fn streak_is_fresh(a: LoopAlert, now_ms: u64) -> bool {
    monus(now_ms, a.last_at_ms) < LOOP_WINDOW_MS
}

/// The streaks that are recent enough to count.
pub open spec fn fresh_streaks(m: Map<Seq<char>, LoopAlert>, now_ms: u64) -> Map<
    Seq<char>,
    LoopAlert,
> {
    Map::new(
        |k: Seq<char>| m.contains_key(k) && streak_is_fresh(m[k], now_ms),
        |k: Seq<char>| m[k],
    )
}

/// The retry-loop tips on a row of streaks, in their order.
pub open spec fn loop_tips(panes: Seq<(Seq<char>, LoopAlert)>) -> Seq<TipView>
    decreases panes.len(),
{
    if panes.len() == 0 {
        Seq::empty()
    } else {
        let before = loop_tips(panes.drop_last());
        let (pane, alert) = panes.last();
        if alert.count >= LOOP_TIP_MIN_COUNT {
            before.push(loop_tip(pane, alert))
        } else {
            before
        }
    }
}

/// What the tip on a retry loop says.
pub open spec fn loop_tip(pane: Seq<char>, alert: LoopAlert) -> TipView {
    TipView {
        pane_id: pane,
        message: "retry loop suspected ("@ + dec(alert.count as nat)
            + " output matches) — check the pane"@,
        urgent: true,
    }
}

/// Urgent retry-loop tips for panes with enough fresh matches; stale entries (no match within
/// the window) are dropped from the returned map.
pub fn merge_loop_alerts(alerts: &LoopAlerts, now_ms: u64) -> (r: (Vec<Tip>, LoopAlerts))
    ensures
        r.1@ == fresh_streaks(alerts@, now_ms),
        views(r.0@) == loop_tips(sorted_listing(fresh_streaks(alerts@, now_ms))),
{
    let mut kept: LoopAlerts = TextMap::new();
    let n: usize = alerts.len();
    let ghost all = alerts.listing();
    let mut i: usize = 0;
    while i < n
        invariant
            i <= n == all.len(),
            all == alerts.listing(),
            is_sorted(all),
            alerts@ == dict(all),
            forall|k: Seq<char>|
                #[trigger] kept@.contains_key(k) <==> has_key(all.take(i as int), k) && streak_is_fresh(
                    alerts@[k],
                    now_ms,
                ),
            forall|k: Seq<char>| #[trigger] kept@.contains_key(k) ==> kept@[k] == alerts@[k],
        decreases n - i,
    {
        let alert: LoopAlert = *alerts.value_at(i);
        let ghost was = kept@;
        let ghost here = all[i as int].0;
        proof {
            lemma_dict_at(all, i as int);
            assert forall|k: Seq<char>| #[trigger] has_key(all.take(i + 1), k) <==> has_key(
                all.take(i as int),
                k,
            ) || k == here by {
                if has_key(all.take(i + 1), k) && k != here {
                    let j = slot(all.take(i + 1), k);
                    assert(all.take(i as int)[j].0 == k);
                }
                if has_key(all.take(i as int), k) {
                    let j = slot(all.take(i as int), k);
                    assert(all.take(i + 1)[j].0 == k);
                }
                assert(all.take(i + 1)[i as int].0 == here);
            }
        }
        if now_ms.saturating_sub(alert.last_at_ms) < LOOP_WINDOW_MS {
            kept.insert(alerts.key_at(i).clone(), alert);
        }
        proof {
            assert forall|k: Seq<char>| #[trigger] kept@.contains_key(k) <==> has_key(
                all.take(i + 1),
                k,
            ) && streak_is_fresh(alerts@[k], now_ms) by {
                assert(was.contains_key(k) <==> has_key(all.take(i as int), k) && streak_is_fresh(
                    alerts@[k],
                    now_ms,
                ));
                assert(has_key(all.take(i + 1), k) <==> has_key(all.take(i as int), k) || k == here);
            }
        }
        i = i + 1;
    }
    assert(all.take(n as int) =~= all);
    assert(kept@ =~= fresh_streaks(alerts@, now_ms)) by {
        assert forall|k: Seq<char>| kept@.contains_key(k) == fresh_streaks(
            alerts@,
            now_ms,
        ).contains_key(k) by {
            assert(has_key(all, k) == alerts@.contains_key(k));
        }
    }
    let mut tips: Vec<Tip> = Vec::new();
    let m: usize = kept.len();
    let ghost panes = kept.listing();
    let mut j: usize = 0;
    assert(views(tips@) =~= Seq::<TipView>::empty());
    while j < m
        invariant
            j <= m == panes.len(),
            panes == kept.listing(),
            views(tips@) == loop_tips(panes.take(j as int)),
        decreases m - j,
    {
        let ghost done = tips@;
        assert(panes.take(j + 1).drop_last() =~= panes.take(j as int));
        let alert = kept.value_at(j);
        if alert.count >= LOOP_TIP_MIN_COUNT {
            let mut message = "retry loop suspected (".to_owned();
            message.append(decimal(alert.count).as_str());
            message.append(" output matches) — check the pane");
            let tip = Tip { pane_id: kept.key_at(j).clone(), message, urgent: true };
            tips.push(tip);
            assert(views(tips@) =~= views(done).push(tip@));
        }
        j = j + 1;
    }
    assert(panes.take(m as int) =~= panes);
    (tips, kept)
}

/// Pruning again at the same moment prunes nothing more.
pub proof fn lemma_prune_settles(m: Map<Seq<char>, LoopAlert>, now_ms: u64)
    ensures
        fresh_streaks(fresh_streaks(m, now_ms), now_ms) == fresh_streaks(m, now_ms),
{
    assert(fresh_streaks(fresh_streaks(m, now_ms), now_ms) =~= fresh_streaks(m, now_ms));
}

/// Whether one of a row of streaks is that of `pane` and long enough to be told.
spec fn is_loop(panes: Seq<(Seq<char>, LoopAlert)>, pane: Seq<char>) -> bool {
    exists|k: int|
        0 <= k < panes.len() && (#[trigger] panes[k]).0 == pane && panes[k].1.count
            >= LOOP_TIP_MIN_COUNT
}

proof fn lemma_row_of_loops(panes: Seq<(Seq<char>, LoopAlert)>, pane: Seq<char>)
    ensures
        names_pane(loop_tips(panes), pane) <==> is_loop(panes, pane),
    decreases panes.len(),
{
    if panes.len() > 0 {
        let rest = panes.drop_last();
        let tips = loop_tips(panes);
        let before = loop_tips(rest);
        lemma_row_of_loops(rest, pane);
        assert(panes[panes.len() - 1] == panes.last());
        if names_pane(tips, pane) {
            let i = choose|i: int| 0 <= i < tips.len() && (#[trigger] tips[i]).pane_id == pane;
            if i < before.len() {
                assert(before[i] == tips[i]);
                let k = choose|k: int|
                    0 <= k < rest.len() && (#[trigger] rest[k]).0 == pane && rest[k].1.count
                        >= LOOP_TIP_MIN_COUNT;
                assert(panes[k] == rest[k]);
            }
        }
        if is_loop(panes, pane) {
            let k = choose|k: int|
                0 <= k < panes.len() && (#[trigger] panes[k]).0 == pane && panes[k].1.count
                    >= LOOP_TIP_MIN_COUNT;
            if k < rest.len() {
                assert(rest[k] == panes[k]);
                let i = choose|i: int|
                    0 <= i < before.len() && (#[trigger] before[i]).pane_id == pane;
                assert(tips[i] == before[i]);
            } else {
                assert(tips[before.len() as int].pane_id == pane);
            }
        }
    }
}

/// A pane is told to be in a retry loop exactly where its output matched three times or more and
/// the last match is fresh.
pub proof fn lemma_loop_is_told(m: Map<Seq<char>, LoopAlert>, now_ms: u64, pane: Seq<char>)
    requires
        m.dom().finite(),
    ensures
        names_pane(loop_tips(sorted_listing(fresh_streaks(m, now_ms))), pane) <==> m.contains_key(
            pane,
        ) && streak_is_fresh(m[pane], now_ms) && m[pane].count >= 3,
{
    let kept = fresh_streaks(m, now_ms);
    let s = sorted_listing(kept);
    assert(kept.dom().subset_of(m.dom()));
    vstd::set_lib::lemma_len_subset(kept.dom(), m.dom());
    lemma_has_listing(kept);
    lemma_row_of_loops(s, pane);
    if is_loop(s, pane) {
        let k = choose|k: int|
            0 <= k < s.len() && (#[trigger] s[k]).0 == pane && s[k].1.count >= LOOP_TIP_MIN_COUNT;
        lemma_dict_at(s, k);
        assert(kept.contains_key(pane));
    }
    if kept.contains_key(pane) && m[pane].count >= 3 {
        assert(dict(s).contains_key(pane));
        let k = slot(s, pane);
        assert(s[k].0 == pane);
        lemma_dict_at(s, k);
    }
}

/// The third of three output matches of a pane, each within the window of the one before, makes
/// the streak long enough to be told, and not before.
pub proof fn lemma_three_matches_tip(
    m: Map<Seq<char>, LoopAlert>,
    pane: Seq<char>,
    first: u64,
    second: u64,
    third: u64,
)
    requires
        !m.contains_key(pane) || monus(first, m[pane].last_at_ms) > LOOP_WINDOW_MS,
        monus(second, first) <= LOOP_WINDOW_MS,
        monus(third, second) <= LOOP_WINDOW_MS,
    ensures
        ({
            let one = m.insert(pane, streak_after(m, pane, first));
            let two = one.insert(pane, streak_after(one, pane, second));
            let three = two.insert(pane, streak_after(two, pane, third));
            &&& one[pane].count < LOOP_TIP_MIN_COUNT
            &&& two[pane].count < LOOP_TIP_MIN_COUNT
            &&& three[pane].count == LOOP_TIP_MIN_COUNT
            &&& three[pane].first_at_ms == first
            &&& three[pane].last_at_ms == third
        }),
{
}

/// A pane that was silent for over ten minutes starts its streak over.
pub proof fn lemma_silence_restarts(
    m: Map<Seq<char>, LoopAlert>,
    pane: Seq<char>,
    now_ms: u64,
)
    requires
        m.contains_key(pane) ==> monus(now_ms, m[pane].last_at_ms) > LOOP_WINDOW_MS,
    ensures
        streak_after(m, pane, now_ms) == (LoopAlert {
            count: 1,
            first_at_ms: now_ms,
            last_at_ms: now_ms,
        }),
{
}

// ---------------------------------------------------------------- progress notes
/// The note in place of the advice.
pub open spec fn progress_note() -> Seq<char> {
    "still producing output — long turn in progress"@
}

/// Whether a tip is advice on a pane that keeps producing output.
pub open spec fn is_producing(tip: TipView, churn: Map<Seq<char>, u64>) -> bool {
    !tip.urgent && churn.contains_key(tip.pane_id) && churn[tip.pane_id] >= PRODUCING_CHURN_MIN
}

/// The tip, or the calmer note in its place.
pub open spec fn calmed(tip: TipView, churn: Map<Seq<char>, u64>) -> TipView {
    if is_producing(tip, churn) {
        TipView { message: progress_note(), ..tip }
    } else {
        tip
    }
}

/// The tips, each calmed.
pub open spec fn all_calmed(tips: Seq<TipView>, churn: Map<Seq<char>, u64>) -> Seq<TipView> {
    tips.map_values(|t: TipView| calmed(t, churn))
}

/// A long-turn tip on a pane whose revision keeps advancing means the agent is producing, not
/// stuck: swap the advice for a calmer progress note.
pub fn suppress_churning_tips(tips: Vec<Tip>, churn: &TextMap<u64>) -> (r: Vec<Tip>)
    ensures
        views(r@) == all_calmed(views(tips@), churn@),
{
    let mut out: Vec<Tip> = Vec::new();
    let mut i: usize = 0;
    let ghost all = views(tips@);
    while i < tips.len()
        invariant
            i <= tips@.len(),
            all == views(tips@),
            views(out@) =~= all_calmed(all, churn@).take(i as int),
        decreases tips@.len() - i,
    {
        let tip = &tips[i];
        let producing = match churn.get(tip.pane_id.as_str()) {
            Some(d) => *d >= PRODUCING_CHURN_MIN,
            None => false,
        };
        let ghost done = out@;
        let next = if !tip.urgent && producing {
            Tip {
                pane_id: tip.pane_id.clone(),
                message: "still producing output — long turn in progress".to_owned(),
                urgent: tip.urgent,
            }
        } else {
            tip.copy()
        };
        assert(next@ == calmed(all[i as int], churn@));
        out.push(next);
        assert(views(out@) =~= views(done).push(next@));
        i = i + 1;
    }
    assert(views(out@) =~= all_calmed(all, churn@));
    out
}

/// Calming rewrites no urgent tip, adds and drops none, changes no pane, and does nothing the
/// second time.
pub proof fn lemma_calming_is_mild(tips: Seq<TipView>, churn: Map<Seq<char>, u64>)
    ensures
        all_calmed(tips, churn).len() == tips.len(),
        forall|i: int|
            0 <= i < tips.len() ==> (#[trigger] all_calmed(tips, churn)[i]).pane_id
                == tips[i].pane_id && all_calmed(tips, churn)[i].urgent == tips[i].urgent && (
            tips[i].urgent ==> all_calmed(tips, churn)[i] == tips[i]),
        all_calmed(all_calmed(tips, churn), churn) == all_calmed(tips, churn),
{
    assert(all_calmed(all_calmed(tips, churn), churn) =~= all_calmed(tips, churn));
}

// ---------------------------------------------------------------- refreshing the tips
/// The activity of each pane of a sample; of panes of the same name that of the last.
pub open spec fn churn_map(churn: Seq<PaneChurnView>) -> Map<Seq<char>, u64>
    decreases churn.len(),
{
    if churn.len() == 0 {
        Map::empty()
    } else {
        churn_map(churn.drop_last()).insert(churn.last().pane_id, churn.last().revision_delta)
    }
}

/// The activity of each pane of a sample.
pub fn churn_by_pane(churn: &Vec<PaneChurn>) -> (r: TextMap<u64>)
    ensures
        r@ == churn_map(views(churn@)),
{
    let mut r: TextMap<u64> = TextMap::new();
    let mut i: usize = 0;
    let ghost all = views(churn@);
    while i < churn.len()
        invariant
            i <= churn@.len(),
            all == views(churn@),
            r@ == churn_map(all.take(i as int)),
        decreases churn@.len() - i,
    {
        assert(all.take(i + 1).drop_last() =~= all.take(i as int));
        r.insert(churn[i].pane_id.clone(), churn[i].revision_delta);
        i = i + 1;
    }
    assert(all.take(i as int) =~= all);
    r
}

/// The states after the urgent ones of some tips were sent: their panes were notified now.
pub open spec fn notified(
    states: Map<Seq<char>, AgentStateView>,
    tips: Seq<TipView>,
    now_ms: u64,
) -> Map<Seq<char>, AgentStateView>
    decreases tips.len(),
{
    if tips.len() == 0 {
        states
    } else {
        let before = notified(states, tips.drop_last(), now_ms);
        let tip = tips.last();
        if tip.urgent && before.contains_key(tip.pane_id) {
            before.insert(
                tip.pane_id,
                AgentStateView { last_notified_ms: Some(now_ms), ..before[tip.pane_id] },
            )
        } else {
            before
        }
    }
}

/// Something the daemon does while it refreshes the tips.
pub enum Action {
    /// Show a notification.
    Notify(String),
    /// Write the states of a session.
    StoreStates(String, AgentStates),
    /// Write the output-match streaks.
    StoreLoopAlerts(LoopAlerts),
    /// Write the budget-alert bookkeeping.
    StoreAlertState(AlertState),
    /// Publish the tips.
    StoreTips(Tips),
}

/// An action with its texts as sequences of characters.
#[verifier::ext_equal]
pub enum ActionView {
    Notify(Seq<char>),
    StoreStates(Seq<char>, Map<Seq<char>, AgentStateView>),
    StoreLoopAlerts(Map<Seq<char>, LoopAlert>),
    StoreAlertState(AlertView),
    StoreTips(TipsView),
}

impl View for Action {
    type V = ActionView;

    open spec fn view(&self) -> ActionView {
        match self {
            Action::Notify(text) => ActionView::Notify(text@),
            Action::StoreStates(session, states) => ActionView::StoreStates(session@, states@),
            Action::StoreLoopAlerts(alerts) => ActionView::StoreLoopAlerts(alerts@),
            Action::StoreAlertState(state) => ActionView::StoreAlertState(state@),
            Action::StoreTips(tips) => ActionView::StoreTips(tips@),
        }
    }
}

/// A notification for each urgent one of some tips.
pub open spec fn urgent_notices(tips: Seq<TipView>) -> Seq<ActionView>
    decreases tips.len(),
{
    if tips.len() == 0 {
        Seq::empty()
    } else {
        let before = urgent_notices(tips.drop_last());
        if tips.last().urgent {
            before.push(ActionView::Notify(tips.last().message))
        } else {
            before
        }
    }
}

/// A notification for each of some tips.
pub open spec fn all_notices(tips: Seq<TipView>) -> Seq<ActionView> {
    tips.map_values(|t: TipView| ActionView::Notify(t.message))
}

/// A tip under the name of its session.
pub open spec fn under_session(session: Seq<char>, tip: TipView) -> TipView {
    TipView { message: "["@ + session + "] "@ + tip.message, ..tip }
}

/// The tips of a session under its name.
pub open spec fn session_list(session: Seq<char>, tips: Seq<TipView>) -> Seq<TipView> {
    tips.map_values(|t: TipView| under_session(session, t))
}

/// The tips on the panes of a session.
pub open spec fn session_tips(
    states: Map<Seq<char>, AgentStateView>,
    churn: Map<Seq<char>, u64>,
    now_ms: u64,
) -> Seq<TipView> {
    all_calmed(tips_on(sorted_listing(states), now_ms), churn)
}

/// What is done for a session: its urgent tips are sent, and if it has any tips the states are
/// written with the time of sending.
pub open spec fn session_actions(
    session: Seq<char>,
    states: Map<Seq<char>, AgentStateView>,
    churn: Map<Seq<char>, u64>,
    now_ms: u64,
) -> Seq<ActionView> {
    let tips = session_tips(states, churn, now_ms);
    if tips.len() == 0 {
        Seq::empty()
    } else {
        urgent_notices(tips).push(
            ActionView::StoreStates(session, notified(states, tips, now_ms)),
        )
    }
}

/// What is done for all sessions.
pub open spec fn sessions_actions(
    sessions: Seq<(Seq<char>, Map<Seq<char>, AgentStateView>)>,
    churn: Map<Seq<char>, u64>,
    now_ms: u64,
) -> Seq<ActionView>
    decreases sessions.len(),
{
    if sessions.len() == 0 {
        Seq::empty()
    } else {
        sessions_actions(sessions.drop_last(), churn, now_ms) + session_actions(
            sessions.last().0,
            sessions.last().1,
            churn,
            now_ms,
        )
    }
}

/// The tips of all sessions, each under the name of its session.
pub open spec fn sessions_list(
    sessions: Seq<(Seq<char>, Map<Seq<char>, AgentStateView>)>,
    churn: Map<Seq<char>, u64>,
    now_ms: u64,
) -> Seq<TipView>
    decreases sessions.len(),
{
    if sessions.len() == 0 {
        Seq::empty()
    } else {
        sessions_list(sessions.drop_last(), churn, now_ms) + session_list(
            sessions.last().0,
            session_tips(sessions.last().1, churn, now_ms),
        )
    }
}

/// What a refresh of the tips goes by.
#[derive(Debug)]
pub struct RefreshInput {
    pub now_ms: u64,
    /// The local date.
    pub today: String,
    /// The activity of the panes at the last sample; empty where there is none.
    pub churn: Vec<PaneChurn>,
    /// Every session with its states.
    pub sessions: Vec<(String, AgentStates)>,
    pub loop_alerts: LoopAlerts,
    pub config: Config,
    pub alert_state: AlertState,
    pub today_cost_usd: Option<Double>,
    pub burn_rate_usd_per_hr: Option<Double>,
}

impl RefreshInput {
    /// The sessions as mathematical values.
    pub open spec fn session_views(self) -> Seq<(Seq<char>, Map<Seq<char>, AgentStateView>)> {
        Seq::new(
            self.sessions@.len(),
            |i: int| (self.sessions@[i].0@, self.sessions@[i].1@),
        )
    }

    /// The retry-loop tips.
    pub open spec fn loops(self) -> Seq<TipView> {
        loop_tips(sorted_listing(fresh_streaks(self.loop_alerts@, self.now_ms)))
    }

    /// The budget tips.
    pub open spec fn budget(self) -> Seq<TipView> {
        budget_tips(
            self.today_cost_usd,
            self.burn_rate_usd_per_hr,
            self.config,
            self.alert_state@,
            self.now_ms,
            self.today@,
        )
    }

    /// All tips: those of the sessions, then the retry loops, then the budget.
    pub open spec fn published(self) -> Seq<TipView> {
        sessions_list(self.session_views(), churn_map(views(self.churn@)), self.now_ms)
            + self.loops() + self.budget()
    }

    /// Everything that is done, in order: the sessions; the streaks are written if any went stale;
    /// the retry loops are sent; the bookkeeping is written; the budget tips are sent; and all
    /// tips are published.
    pub open spec fn actions(self) -> Seq<ActionView> {
        let kept = fresh_streaks(self.loop_alerts@, self.now_ms);
        let prune: Seq<ActionView> = if sorted_listing(kept).len() != sorted_listing(
            self.loop_alerts@,
        ).len() {
            seq![ActionView::StoreLoopAlerts(kept)]
        } else {
            Seq::empty()
        };
        (sessions_actions(self.session_views(), churn_map(views(self.churn@)), self.now_ms) + prune
            + all_notices(self.loops())).push(
            ActionView::StoreAlertState(
                alerts_after(
                    self.today_cost_usd,
                    self.burn_rate_usd_per_hr,
                    self.config,
                    self.alert_state@,
                    self.now_ms,
                    self.today@,
                ),
            ),
        ) + all_notices(self.budget()).push(
            ActionView::StoreTips(
                TipsView { generated_at_ms: self.now_ms, items: self.published() },
            ),
        )
    }
}

fn send_all(actions: &mut Vec<Action>, due: &mut Vec<Tip>, tips: &Vec<Tip>)
    ensures
        views(final(actions)@) == views(old(actions)@) + all_notices(views(tips@)),
        views(final(due)@) == views(old(due)@) + views(tips@),
{
    let ghost a0 = views(actions@);
    let ghost d0 = views(due@);
    let ghost all = views(tips@);
    let mut i: usize = 0;
    while i < tips.len()
        invariant
            i <= tips@.len(),
            all == views(tips@),
            views(actions@) =~= a0 + all_notices(all).take(i as int),
            views(due@) =~= d0 + all.take(i as int),
        decreases tips@.len() - i,
    {
        let ghost a1 = actions@;
        let ghost d1 = due@;
        let notice = Action::Notify(tips[i].message.clone());
        let tip = tips[i].copy();
        actions.push(notice);
        due.push(tip);
        assert(views(actions@) =~= views(a1).push(all_notices(all)[i as int]));
        assert(views(due@) =~= views(d1).push(all[i as int]));
        i = i + 1;
    }
    assert(all_notices(all).take(i as int) =~= all_notices(all));
    assert(all.take(i as int) =~= all);
}

fn session_round(
    actions: &mut Vec<Action>,
    due: &mut Vec<Tip>,
    session: &str,
    states: &AgentStates,
    churn: &TextMap<u64>,
    now_ms: u64,
)
    ensures
        views(final(actions)@) == views(old(actions)@) + session_actions(
            session@,
            states@,
            churn@,
            now_ms,
        ),
        views(final(due)@) == views(old(due)@) + session_list(
            session@,
            session_tips(states@, churn@, now_ms),
        ),
{
    let tips = suppress_churning_tips(evaluate_tips(states, now_ms), churn);
    let ghost all = views(tips@);
    let ghost a0 = views(actions@);
    let ghost d0 = views(due@);
    if tips.len() == 0 {
        assert(views(actions@) =~= a0 + session_actions(session@, states@, churn@, now_ms));
        assert(views(due@) =~= d0 + session_list(session@, all));
        return;
    }
    let mut marked = states.copy();
    let mut i: usize = 0;
    assert(all.take(0) =~= Seq::<TipView>::empty());
    while i < tips.len()
        invariant
            i <= tips@.len(),
            all == views(tips@),
            views(actions@) =~= a0 + urgent_notices(all.take(i as int)),
            views(due@) =~= d0 + session_list(session@, all).take(i as int),
            marked@ == notified(states@, all.take(i as int), now_ms),
        decreases tips@.len() - i,
    {
        let ghost a1 = actions@;
        let ghost d1 = due@;
        let ghost m1 = marked@;
        let tip = &tips[i];
        assert(all[i as int] == tip@);
        assert(all.take(i + 1).drop_last() =~= all.take(i as int));
        assert(all.take(i + 1).last() == tip@);
        if tip.urgent {
            let notice = Action::Notify(tip.message.clone());
            actions.push(notice);
            assert(views(actions@) =~= views(a1).push(ActionView::Notify(tip@.message)));
            let found = match marked.get(tip.pane_id.as_str()) {
                Some(s) => Some(s.copy()),
                None => None,
            };
            match found {
                Some(s) => {
                    let mut s = s;
                    s.last_notified_ms = Some(now_ms);
                    marked.insert(tip.pane_id.clone(), s);
                },
                None => {},
            }
        }
        let mut message = "[".to_owned();
        message.append(session);
        message.append("] ");
        message.append(tip.message.as_str());
        let named = Tip { pane_id: tip.pane_id.clone(), message, urgent: tip.urgent };
        assert(named@ == under_session(session@, tip@));
        due.push(named);
        assert(views(due@) =~= views(d1).push(named@));
        i = i + 1;
    }
    assert(all.take(i as int) =~= all);
    assert(session_list(session@, all).take(i as int) =~= session_list(session@, all));
    let ghost a2 = actions@;
    let store = Action::StoreStates(session.to_owned(), marked);
    actions.push(store);
    assert(views(actions@) =~= views(a2).push(store@));
    assert(views(actions@) =~= a0 + session_actions(session@, states@, churn@, now_ms));
}

/// Evaluate tips across every herdr session's state, notify the urgent ones (rate limited by
/// last_notified_ms), and publish the full list for the report pane. Also folds in retry-loop
/// alerts from the event hook and budget alerts from the latest report numbers. The actions are
/// to be performed in the order in which they are returned.
pub fn refresh_tips(input: &RefreshInput) -> (r: Vec<Action>)
    ensures
        views(r@) == input.actions(),
{
    let mut actions: Vec<Action> = Vec::new();
    let mut due: Vec<Tip> = Vec::new();
    let churn = churn_by_pane(&input.churn);
    let ghost sessions = input.session_views();
    let mut i: usize = 0;
    assert(views(actions@) =~= Seq::<ActionView>::empty());
    assert(views(due@) =~= Seq::<TipView>::empty());
    assert(sessions.take(0) =~= Seq::<(Seq<char>, Map<Seq<char>, AgentStateView>)>::empty());
    while i < input.sessions.len()
        invariant
            i <= input.sessions@.len(),
            sessions == input.session_views(),
            churn@ == churn_map(views(input.churn@)),
            views(actions@) == sessions_actions(sessions.take(i as int), churn@, input.now_ms),
            views(due@) == sessions_list(sessions.take(i as int), churn@, input.now_ms),
        decreases input.sessions@.len() - i,
    {
        assert(sessions.take(i + 1).drop_last() =~= sessions.take(i as int));
        assert(sessions.take(i + 1).last() == sessions[i as int]);
        session_round(
            &mut actions,
            &mut due,
            input.sessions[i].0.as_str(),
            &input.sessions[i].1,
            &churn,
            input.now_ms,
        );
        i = i + 1;
    }
    assert(sessions.take(i as int) =~= sessions);
    let ghost s0 = views(actions@);
    let (found, kept) = merge_loop_alerts(&input.loop_alerts, input.now_ms);
    if kept.len() != input.loop_alerts.len() {
        let ghost a1 = actions@;
        let store = Action::StoreLoopAlerts(kept);
        actions.push(store);
        assert(views(actions@) =~= views(a1).push(store@));
        assert(views(actions@) =~= s0 + seq![ActionView::StoreLoopAlerts(
            fresh_streaks(input.loop_alerts@, input.now_ms),
        )]);
    } else {
        assert(views(actions@) =~= s0 + Seq::<ActionView>::empty());
    }
    send_all(&mut actions, &mut due, &found);
    let (budget, state) = evaluate_budget_alerts(
        input.today_cost_usd,
        input.burn_rate_usd_per_hr,
        &input.config,
        &input.alert_state,
        input.now_ms,
        input.today.as_str(),
    );
    let ghost a2 = actions@;
    let store = Action::StoreAlertState(state);
    actions.push(store);
    assert(views(actions@) =~= views(a2).push(store@));
    send_all(&mut actions, &mut due, &budget);
    let ghost a3 = actions@;
    let tips = Action::StoreTips(Tips { generated_at_ms: input.now_ms, items: due });
    actions.push(tips);
    assert(views(actions@) =~= views(a3).push(tips@));
    assert(views(actions@) =~= input.actions());
    actions
}

proof fn lemma_notified(states: Map<Seq<char>, AgentStateView>, tips: Seq<TipView>, now_ms: u64)
    ensures
        notified(states, tips, now_ms).dom() =~= states.dom(),
        forall|pane: Seq<char>|
            states.contains_key(pane) ==> (#[trigger] notified(states, tips, now_ms)[pane]
                == states[pane] || notified(states, tips, now_ms)[pane] == (AgentStateView {
                last_notified_ms: Some(now_ms),
                ..states[pane]
            })),
        forall|k: int|
            0 <= k < tips.len() && (#[trigger] tips[k]).urgent && states.contains_key(
                tips[k].pane_id,
            ) ==> notified(states, tips, now_ms)[tips[k].pane_id].last_notified_ms == Some(now_ms),
        forall|pane: Seq<char>|
            states.contains_key(pane) && (forall|k: int|
                0 <= k < tips.len() ==> !((#[trigger] tips[k]).urgent && tips[k].pane_id == pane))
                ==> #[trigger] notified(states, tips, now_ms)[pane] == states[pane],
    decreases tips.len(),
{
    if tips.len() > 0 {
        let rest = tips.drop_last();
        let before = notified(states, rest, now_ms);
        let after = notified(states, tips, now_ms);
        lemma_notified(states, rest, now_ms);
        assert forall|k: int|
            0 <= k < tips.len() && (#[trigger] tips[k]).urgent && states.contains_key(
                tips[k].pane_id,
            ) implies after[tips[k].pane_id].last_notified_ms == Some(now_ms) by {
            if k < rest.len() {
                assert(rest[k] == tips[k]);
                assert(before[tips[k].pane_id].last_notified_ms == Some(now_ms));
            }
        }
        assert forall|pane: Seq<char>|
            states.contains_key(pane) && (forall|k: int|
                0 <= k < tips.len() ==> !((#[trigger] tips[k]).urgent && tips[k].pane_id == pane))
            implies #[trigger] after[pane] == states[pane] by {
            assert forall|k: int| 0 <= k < rest.len() implies !((#[trigger] rest[k]).urgent
                && rest[k].pane_id == pane) by {
                assert(rest[k] == tips[k]);
            }
            assert(before[pane] == states[pane]);
            let last = tips[tips.len() - 1];
            assert(!(last.urgent && last.pane_id == pane));
        }
    }
}

/// Refreshing the tips keeps every state filed under its own pane.
pub proof fn lemma_refresh_keeps_filed(
    states: Map<Seq<char>, AgentStateView>,
    tips: Seq<TipView>,
    now_ms: u64,
)
    requires
        filed(states),
    ensures
        filed(notified(states, tips, now_ms)),
{
    lemma_notified(states, tips, now_ms);
    let after = notified(states, tips, now_ms);
    assert forall|pane: Seq<char>| after.contains_key(pane) implies (
    #[trigger] after[pane]).pane_id == pane by {
        assert(states.contains_key(pane));
        assert(states[pane].pane_id == pane);
    }
}

/// Refreshing the tips keeps every pane of a session and changes nothing of it but when it was
/// last notified; that is now for the panes with an urgent tip, and as before for all others.
pub proof fn lemma_refresh_marks_the_notified(
    states: Map<Seq<char>, AgentStateView>,
    tips: Seq<TipView>,
    now_ms: u64,
    pane: Seq<char>,
)
    requires
        states.contains_key(pane),
    ensures
        notified(states, tips, now_ms).dom() == states.dom(),
        notified(states, tips, now_ms)[pane] == (AgentStateView {
            last_notified_ms: if exists|k: int|
                0 <= k < tips.len() && (#[trigger] tips[k]).urgent && tips[k].pane_id == pane {
                Some(now_ms)
            } else {
                states[pane].last_notified_ms
            },
            ..states[pane]
        }),
{
    lemma_notified(states, tips, now_ms);
    let after = notified(states, tips, now_ms)[pane];
    if exists|k: int|
        0 <= k < tips.len() && (#[trigger] tips[k]).urgent && tips[k].pane_id == pane {
        let k = choose|k: int|
            0 <= k < tips.len() && (#[trigger] tips[k]).urgent && tips[k].pane_id == pane;
        assert(notified(states, tips, now_ms)[tips[k].pane_id].last_notified_ms == Some(now_ms));
    }
}

/// A blocked pane that was notified at one refresh is left in peace by every refresh within the
/// quarter of an hour after it.
pub proof fn lemma_notified_pane_rests(
    states: Map<Seq<char>, AgentStateView>,
    tips: Seq<TipView>,
    k: int,
    now_ms: u64,
    later_ms: u64,
)
    requires
        0 <= k < tips.len(),
        tips[k].urgent,
        states.contains_key(tips[k].pane_id),
        states[tips[k].pane_id].status == "blocked"@,
        now_ms <= later_ms < now_ms + 900_000,
    ensures
        tip_for(notified(states, tips, now_ms)[tips[k].pane_id], later_ms) is None,
{
    lemma_notified(states, tips, now_ms);
    let s = notified(states, tips, now_ms)[tips[k].pane_id];
    assert(s.last_notified_ms == Some(now_ms));
    lemma_blocked_is_not_working();
}

proof fn lemma_session_listed(
    sessions: Seq<(Seq<char>, Map<Seq<char>, AgentStateView>)>,
    churn: Map<Seq<char>, u64>,
    now_ms: u64,
    i: int,
    k: int,
) -> (at: int)
    requires
        0 <= i < sessions.len(),
        0 <= k < session_tips(sessions[i].1, churn, now_ms).len(),
    ensures
        0 <= at < sessions_list(sessions, churn, now_ms).len(),
        sessions_list(sessions, churn, now_ms)[at] == under_session(
            sessions[i].0,
            session_tips(sessions[i].1, churn, now_ms)[k],
        ),
    decreases sessions.len(),
{
    let before = sessions_list(sessions.drop_last(), churn, now_ms);
    if i < sessions.len() - 1 {
        lemma_session_listed(sessions.drop_last(), churn, now_ms, i, k)
    } else {
        before.len() as int + k
    }
}

/// Every tip of a session is published, under the name of the session.
pub proof fn lemma_session_tips_are_published(input: RefreshInput, i: int, k: int)
    requires
        0 <= i < input.sessions@.len(),
        0 <= k < session_tips(
            input.sessions@[i].1@,
            churn_map(views(input.churn@)),
            input.now_ms,
        ).len(),
    ensures
        input.published().contains(
            under_session(
                input.sessions@[i].0@,
                session_tips(
                    input.sessions@[i].1@,
                    churn_map(views(input.churn@)),
                    input.now_ms,
                )[k],
            ),
        ),
{
    let churn = churn_map(views(input.churn@));
    let at = lemma_session_listed(input.session_views(), churn, input.now_ms, i, k);
    assert(input.published()[at] == sessions_list(
        input.session_views(),
        churn,
        input.now_ms,
    )[at]);
}

/// Every tip on a retry loop or on the budget is published, and publishing comes last.
pub proof fn lemma_alerts_are_published(input: RefreshInput)
    ensures
        forall|i: int|
            0 <= i < input.loops().len() ==> input.published().contains(
                #[trigger] input.loops()[i],
            ),
        forall|i: int|
            0 <= i < input.budget().len() ==> input.published().contains(
                #[trigger] input.budget()[i],
            ),
        input.actions().last() == ActionView::StoreTips(
            TipsView { generated_at_ms: input.now_ms, items: input.published() },
        ),
{
    let first = sessions_list(input.session_views(), churn_map(views(input.churn@)), input.now_ms);
    assert forall|i: int| 0 <= i < input.loops().len() implies input.published().contains(
        #[trigger] input.loops()[i],
    ) by {
        assert(input.published()[first.len() + i] == input.loops()[i]);
    }
    assert forall|i: int| 0 <= i < input.budget().len() implies input.published().contains(
        #[trigger] input.budget()[i],
    ) by {
        assert(input.published()[first.len() + input.loops().len() + i] == input.budget()[i]);
    }
}

// ---------------------------------------------------------------- what is sent
/// A tip with the session that it is about a pane of, if any.
pub type DueTip = (Option<Seq<char>>, TipView);

/// A tip as it is published: under the name of its session, if it has one.
pub open spec fn shown(due: DueTip) -> TipView {
    match due.0 {
        Some(session) => under_session(session, due.1),
        None => due.1,
    }
}

/// Some tips, each with its session.
pub open spec fn due_of(session: Option<Seq<char>>, tips: Seq<TipView>) -> Seq<DueTip> {
    tips.map_values(|t: TipView| (session, t))
}

/// The tips of all sessions, each with its session.
pub open spec fn sessions_due(
    sessions: Seq<(Seq<char>, Map<Seq<char>, AgentStateView>)>,
    churn: Map<Seq<char>, u64>,
    now_ms: u64,
) -> Seq<DueTip>
    decreases sessions.len(),
{
    if sessions.len() == 0 {
        Seq::empty()
    } else {
        sessions_due(sessions.drop_last(), churn, now_ms) + due_of(
            Some(sessions.last().0),
            session_tips(sessions.last().1, churn, now_ms),
        )
    }
}

impl RefreshInput {
    /// All tips of the refresh, each with its session.
    pub open spec fn due(self) -> Seq<DueTip> {
        sessions_due(self.session_views(), churn_map(views(self.churn@)), self.now_ms) + due_of(
            None,
            self.loops(),
        ) + due_of(None, self.budget())
    }
}

/// The texts of the notifications among some actions, in their order.
pub open spec fn notices(actions: Seq<ActionView>) -> Seq<Seq<char>>
    decreases actions.len(),
{
    if actions.len() == 0 {
        Seq::empty()
    } else {
        let before = notices(actions.drop_last());
        match actions.last() {
            ActionView::Notify(text) => before.push(text),
            _ => before,
        }
    }
}

/// The texts of the urgent ones of some tips, in their order.
pub open spec fn urgent_texts(due: Seq<DueTip>) -> Seq<Seq<char>>
    decreases due.len(),
{
    if due.len() == 0 {
        Seq::empty()
    } else {
        let before = urgent_texts(due.drop_last());
        if due.last().1.urgent {
            before.push(due.last().1.message)
        } else {
            before
        }
    }
}

proof fn lemma_notices_join(a: Seq<ActionView>, b: Seq<ActionView>)
    ensures
        notices(a + b) == notices(a) + notices(b),
    decreases b.len(),
{
    if b.len() == 0 {
        assert(a + b =~= a);
    } else {
        lemma_notices_join(a, b.drop_last());
        assert((a + b).drop_last() =~= a + b.drop_last());
    }
}

proof fn lemma_urgent_join(a: Seq<DueTip>, b: Seq<DueTip>)
    ensures
        urgent_texts(a + b) == urgent_texts(a) + urgent_texts(b),
    decreases b.len(),
{
    if b.len() == 0 {
        assert(a + b =~= a);
    } else {
        lemma_urgent_join(a, b.drop_last());
        assert((a + b).drop_last() =~= a + b.drop_last());
    }
}

proof fn lemma_urgent_sent(session: Option<Seq<char>>, tips: Seq<TipView>)
    ensures
        notices(urgent_notices(tips)) == urgent_texts(due_of(session, tips)),
    decreases tips.len(),
{
    if tips.len() > 0 {
        lemma_urgent_sent(session, tips.drop_last());
        let before = urgent_notices(tips.drop_last());
        assert(due_of(session, tips).drop_last() =~= due_of(session, tips.drop_last()));
        if tips.last().urgent {
            assert(urgent_notices(tips).drop_last() =~= before);
        }
    }
}

proof fn lemma_all_sent(tips: Seq<TipView>)
    requires
        forall|i: int| 0 <= i < tips.len() ==> (#[trigger] tips[i]).urgent,
    ensures
        notices(all_notices(tips)) == urgent_texts(due_of(None, tips)),
    decreases tips.len(),
{
    if tips.len() > 0 {
        let rest = tips.drop_last();
        assert forall|i: int| 0 <= i < rest.len() implies (#[trigger] rest[i]).urgent by {
            assert(rest[i] == tips[i]);
        }
        lemma_all_sent(rest);
        assert(due_of(None, tips).drop_last() =~= due_of(None, rest));
        assert(all_notices(tips).drop_last() =~= all_notices(rest));
        assert(tips[tips.len() - 1].urgent);
    }
}

proof fn lemma_session_sent(
    session: Seq<char>,
    states: Map<Seq<char>, AgentStateView>,
    churn: Map<Seq<char>, u64>,
    now_ms: u64,
)
    ensures
        notices(session_actions(session, states, churn, now_ms)) == urgent_texts(
            due_of(Some(session), session_tips(states, churn, now_ms)),
        ),
{
    let tips = session_tips(states, churn, now_ms);
    if tips.len() > 0 {
        lemma_urgent_sent(Some(session), tips);
        assert(session_actions(session, states, churn, now_ms).drop_last() =~= urgent_notices(
            tips,
        ));
    }
}

proof fn lemma_sessions_sent(
    sessions: Seq<(Seq<char>, Map<Seq<char>, AgentStateView>)>,
    churn: Map<Seq<char>, u64>,
    now_ms: u64,
)
    ensures
        notices(sessions_actions(sessions, churn, now_ms)) == urgent_texts(
            sessions_due(sessions, churn, now_ms),
        ),
        sessions_list(sessions, churn, now_ms) == sessions_due(sessions, churn, now_ms).map_values(
            |d: DueTip| shown(d),
        ),
    decreases sessions.len(),
{
    if sessions.len() == 0 {
        assert(sessions_list(sessions, churn, now_ms) =~= sessions_due(
            sessions,
            churn,
            now_ms,
        ).map_values(|d: DueTip| shown(d)));
    } else {
        let rest = sessions.drop_last();
        let last = sessions.last();
        let tips = session_tips(last.1, churn, now_ms);
        lemma_sessions_sent(rest, churn, now_ms);
        lemma_session_sent(last.0, last.1, churn, now_ms);
        lemma_notices_join(
            sessions_actions(rest, churn, now_ms),
            session_actions(last.0, last.1, churn, now_ms),
        );
        lemma_urgent_join(sessions_due(rest, churn, now_ms), due_of(Some(last.0), tips));
        assert(sessions_list(sessions, churn, now_ms) =~= sessions_due(
            sessions,
            churn,
            now_ms,
        ).map_values(|d: DueTip| shown(d)));
    }
}

proof fn lemma_loops_are_urgent(panes: Seq<(Seq<char>, LoopAlert)>)
    ensures
        forall|i: int| 0 <= i < loop_tips(panes).len() ==> (#[trigger] loop_tips(panes)[i]).urgent,
    decreases panes.len(),
{
    if panes.len() > 0 {
        let before = loop_tips(panes.drop_last());
        lemma_loops_are_urgent(panes.drop_last());
        assert forall|i: int| 0 <= i < loop_tips(panes).len() implies (
        #[trigger] loop_tips(panes)[i]).urgent by {
            if i < before.len() {
                assert(before[i] == loop_tips(panes)[i]);
            }
        }
    }
}

/// What a refresh sends is what it publishes as urgent: each urgent tip is sent exactly once, in
/// the order in which the tips are published, and nothing else is sent.
pub proof fn lemma_urgent_tips_are_sent_once(input: RefreshInput)
    ensures
        input.published() == input.due().map_values(|d: DueTip| shown(d)),
        notices(input.actions()) == urgent_texts(input.due()),
{
    let churn = churn_map(views(input.churn@));
    let views = input.session_views();
    let first = sessions_actions(views, churn, input.now_ms);
    let loops = input.loops();
    let budget = input.budget();
    lemma_sessions_sent(views, churn, input.now_ms);
    assert(input.published() =~= input.due().map_values(|d: DueTip| shown(d)));
    lemma_loops_are_urgent(sorted_listing(fresh_streaks(input.loop_alerts@, input.now_ms)));
    lemma_all_sent(loops);
    lemma_all_sent(budget);

    let all = input.actions();
    let tail = all_notices(budget).push(all.last());
    let head = all.take(all.len() - tail.len());
    assert(all =~= head + tail);
    lemma_notices_join(head, tail);
    assert(tail.drop_last() =~= all_notices(budget));
    let sent = head.drop_last();
    assert(!(head.last() is Notify));
    assert(notices(head) == notices(sent));
    let prune = sent.subrange(first.len() as int, sent.len() - loops.len());
    assert(sent =~= first + prune + all_notices(loops));
    lemma_notices_join(first + prune, all_notices(loops));
    lemma_notices_join(first, prune);
    assert(notices(prune) =~= Seq::<Seq<char>>::empty()) by {
        if prune.len() > 0 {
            assert(prune.last() == all[first.len() as int]);
            assert(prune.drop_last() =~= Seq::<ActionView>::empty());
            assert(notices(prune.drop_last()).len() == 0);
        }
    }
    let due = sessions_due(views, churn, input.now_ms);
    lemma_urgent_join(due + due_of(None, loops), due_of(None, budget));
    lemma_urgent_join(due, due_of(None, loops));
}

proof fn lemma_states_are_stored(
    sessions: Seq<(Seq<char>, Map<Seq<char>, AgentStateView>)>,
    churn: Map<Seq<char>, u64>,
    now_ms: u64,
    i: int,
) -> (at: int)
    requires
        0 <= i < sessions.len(),
        session_tips(sessions[i].1, churn, now_ms).len() > 0,
    ensures
        0 <= at < sessions_actions(sessions, churn, now_ms).len(),
        sessions_actions(sessions, churn, now_ms)[at] == ActionView::StoreStates(
            sessions[i].0,
            notified(sessions[i].1, session_tips(sessions[i].1, churn, now_ms), now_ms),
        ),
    decreases sessions.len(),
{
    if i < sessions.len() - 1 {
        lemma_states_are_stored(sessions.drop_last(), churn, now_ms, i)
    } else {
        sessions_actions(sessions, churn, now_ms).len() - 1
    }
}

proof fn lemma_due_has_session(
    sessions: Seq<(Seq<char>, Map<Seq<char>, AgentStateView>)>,
    churn: Map<Seq<char>, u64>,
    now_ms: u64,
    d: int,
) -> (at: (int, int))
    requires
        0 <= d < sessions_due(sessions, churn, now_ms).len(),
    ensures
        0 <= at.0 < sessions.len(),
        0 <= at.1 < session_tips(sessions[at.0].1, churn, now_ms).len(),
        sessions_due(sessions, churn, now_ms)[d] == (
            Some(sessions[at.0].0),
            session_tips(sessions[at.0].1, churn, now_ms)[at.1],
        ),
    decreases sessions.len(),
{
    let before = sessions_due(sessions.drop_last(), churn, now_ms);
    if d < before.len() {
        lemma_due_has_session(sessions.drop_last(), churn, now_ms, d)
    } else {
        (sessions.len() - 1, d - before.len())
    }
}

/// A refresh that sends an urgent tip on a pane of a session stores that it did; and while that
/// state of the pane stands, a refresh within the quarter of an hour after it has no tip on the
/// pane of the session, neither to publish nor to send.
pub proof fn lemma_refreshed_pane_rests(
    first: RefreshInput,
    i: int,
    k: int,
    second: RefreshInput,
    j: int,
)
    requires
        0 <= i < first.sessions@.len(),
        filed(first.sessions@[i].1@),
        0 <= k < session_tips(
            first.sessions@[i].1@,
            churn_map(views(first.churn@)),
            first.now_ms,
        ).len(),
        session_tips(
            first.sessions@[i].1@,
            churn_map(views(first.churn@)),
            first.now_ms,
        )[k].urgent,
        0 <= j < second.sessions@.len(),
        filed(second.sessions@[j].1@),
        second.sessions@[j].0@ == first.sessions@[i].0@,
        forall|a: int, b: int|
            0 <= a < b < second.sessions@.len() ==> (#[trigger] second.sessions@[a]).0@ != (
            #[trigger] second.sessions@[b]).0@,
        ({
            let tips = session_tips(
                first.sessions@[i].1@,
                churn_map(views(first.churn@)),
                first.now_ms,
            );
            let pane = tips[k].pane_id;
            second.sessions@[j].1@.contains_key(pane) ==> second.sessions@[j].1@[pane] == notified(
                first.sessions@[i].1@,
                tips,
                first.now_ms,
            )[pane]
        }),
        first.now_ms <= second.now_ms < first.now_ms + 900_000,
    ensures
        ({
            let tips = session_tips(
                first.sessions@[i].1@,
                churn_map(views(first.churn@)),
                first.now_ms,
            );
            let pane = tips[k].pane_id;
            &&& first.actions().contains(
                ActionView::StoreStates(
                    first.sessions@[i].0@,
                    notified(first.sessions@[i].1@, tips, first.now_ms),
                ),
            )
            &&& !names_pane(
                session_tips(
                    second.sessions@[j].1@,
                    churn_map(views(second.churn@)),
                    second.now_ms,
                ),
                pane,
            )
            &&& forall|d: int|
                0 <= d < second.due().len() && (#[trigger] second.due()[d]).0 == Some(
                    first.sessions@[i].0@,
                ) ==> second.due()[d].1.pane_id != pane
        }),
{
    let session = first.sessions@[i].0@;
    let states = first.sessions@[i].1@;
    let churn = churn_map(views(first.churn@));
    let tips = session_tips(states, churn, first.now_ms);
    let pane = tips[k].pane_id;
    let later = second.sessions@[j].1@;
    let churn2 = churn_map(views(second.churn@));
    let tips2 = session_tips(later, churn2, second.now_ms);

    let at = lemma_states_are_stored(first.session_views(), churn, first.now_ms, i);
    assert(first.actions()[at] == sessions_actions(
        first.session_views(),
        churn,
        first.now_ms,
    )[at]);

    lemma_dict_finite(first.sessions@[i].1.listing());
    lemma_calming_is_mild(tips_on(sorted_listing(states), first.now_ms), churn);
    lemma_tip_tells_its_pane(states, first.now_ms, k);
    lemma_blocked_is_not_working();
    assert(states[pane].status == "blocked"@);
    lemma_notified_pane_rests(states, tips, k, first.now_ms, second.now_ms);

    lemma_dict_finite(second.sessions@[j].1.listing());
    lemma_pane_is_told(later, second.now_ms, pane);
    let plain = tips_on(sorted_listing(later), second.now_ms);
    lemma_calming_is_mild(plain, churn2);
    assert(!names_pane(plain, pane));
    assert(!names_pane(tips2, pane)) by {
        if names_pane(tips2, pane) {
            let n = choose|n: int| 0 <= n < tips2.len() && (#[trigger] tips2[n]).pane_id == pane;
            assert(plain[n].pane_id == pane);
        }
    }
    let views2 = second.session_views();
    let rows = sessions_due(views2, churn2, second.now_ms);
    assert forall|d: int|
        0 <= d < second.due().len() && (#[trigger] second.due()[d]).0 == Some(
            session,
        ) implies second.due()[d].1.pane_id != pane by {
        if d < rows.len() {
            assert(second.due()[d] == rows[d]);
            let (a, n) = lemma_due_has_session(views2, churn2, second.now_ms, d);
            assert(second.sessions@[a].0@ == session);
            assert(a == j);
            assert(tips2[n].pane_id != pane);
        }
    }
}

} // verus!
