//! Promises of the daemon's alerts: when the budget and the retry loops are told, what is calmed,
//! and what a refresh does.

use vstd::prelude::*;
use vstd::string::*;

use crate::agents::{tips_on, AgentStateView, TipView};
use crate::config::Config;
use crate::double::Double;
use crate::live::PaneChurnView;
use crate::text::{dec, lex_lt, views};
use crate::textmap::{
    dict, has_key, is_sorted, lemma_dict_at, lemma_dict_finite, lemma_has_listing, slot,
    sorted_listing,
};
use crate::tips::TipsView;
use crate::watch::{
    alerts_after, all_calmed, all_notices, budget_tips, churn_map, fresh_streaks, loop_tip,
    loop_tips, notified, session_actions, session_tips, sessions_actions, sessions_list,
    under_session, urgent_notices, ActionView, AlertView, LoopAlert, RefreshInput,
};

verus! {

// ---------------------------------------------------------------- budget
/// The daily tip fires where the cost of today is above the limit and none fired on this date; the
/// burn-rate tip where the rate is above its threshold and none fired within the hour. They are
/// urgent, stand in this order, and what fired is kept in the bookkeeping, the rest of which stays.
pub proof fn lemma_budget_fires_above_its_limits(
    cost: Option<Double>,
    rate: Option<Double>,
    cfg: Config,
    state: AlertView,
    now_ms: u64,
    today: Seq<char>,
)
    ensures
        ({
            let daily = cost is Some && cfg.daily_cost_usd is Some && !cost->0.is_nan()
                && !cfg.daily_cost_usd->0.is_nan() && cost->0.amount()
                > cfg.daily_cost_usd->0.amount() && !(state.last_daily_date matches Some(d) && d
                == today);
            let burn = rate is Some && !rate->0.is_nan() && !cfg.block_burn_rate_usd_hr.is_nan()
                && rate->0.amount() > cfg.block_burn_rate_usd_hr.amount() && (
            state.last_burn_at_ms matches Some(at) ==> at + 3_600_000 <= now_ms);
            let tips = budget_tips(cost, rate, cfg, state, now_ms, today);
            let after = alerts_after(cost, rate, cfg, state, now_ms, today);
            let first = TipView {
                pane_id: "budget"@,
                message: "today's cost $"@ + cost->0.text(2) + " passed the $"@
                    + cfg.daily_cost_usd->0.text(2) + " daily budget"@,
                urgent: true,
            };
            let second = TipView {
                pane_id: "budget"@,
                message: "burn rate $"@ + rate->0.text(2) + "/hr exceeds $"@
                    + cfg.block_burn_rate_usd_hr.text(2) + "/hr"@,
                urgent: true,
            };
            &&& daily && burn ==> tips == seq![first, second]
            &&& daily && !burn ==> tips == seq![first]
            &&& !daily && burn ==> tips == seq![second]
            &&& !daily && !burn ==> tips.len() == 0
            &&& after.last_daily_date == if daily {
                Some(today)
            } else {
                state.last_daily_date
            }
            &&& after.last_burn_at_ms == if burn {
                Some(now_ms)
            } else {
                state.last_burn_at_ms
            }
        }),
{
    let tips = budget_tips(cost, rate, cfg, state, now_ms, today);
    assert(tips.len() == 2 ==> tips =~= seq![tips[0], tips[1]]);
    assert(tips.len() == 1 ==> tips =~= seq![tips[0]]);
}

// ---------------------------------------------------------------- retry loops
/// A streak is kept as it is where its last match is less than ten minutes ago, and dropped where
/// it is not.
pub proof fn lemma_streaks_are_kept_ten_minutes(
    m: Map<Seq<char>, LoopAlert>,
    now_ms: u64,
    pane: Seq<char>,
)
    ensures
        fresh_streaks(m, now_ms).contains_key(pane) <==> m.contains_key(pane) && now_ms
            < m[pane].last_at_ms + 600_000,
        fresh_streaks(m, now_ms).contains_key(pane) ==> fresh_streaks(m, now_ms)[pane] == m[pane],
{
}

proof fn lemma_loop_source(panes: Seq<(Seq<char>, LoopAlert)>, k: int) -> (at: int)
    requires
        0 <= k < loop_tips(panes).len(),
    ensures
        0 <= at < panes.len(),
        panes[at].1.count >= 3,
        loop_tips(panes)[k] == loop_tip(panes[at].0, panes[at].1),
    decreases panes.len(),
{
    let rest = panes.drop_last();
    if k < loop_tips(rest).len() {
        lemma_loop_source(rest, k)
    } else {
        panes.len() - 1
    }
}

proof fn lemma_loop_pair(panes: Seq<(Seq<char>, LoopAlert)>, a: int, b: int) -> (at: (int, int))
    requires
        0 <= a < b < loop_tips(panes).len(),
    ensures
        0 <= at.0 < at.1 < panes.len(),
        loop_tips(panes)[a].pane_id == panes[at.0].0,
        loop_tips(panes)[b].pane_id == panes[at.1].0,
    decreases panes.len(),
{
    let rest = panes.drop_last();
    if b < loop_tips(rest).len() {
        lemma_loop_pair(rest, a, b)
    } else {
        (lemma_loop_source(rest, a), panes.len() - 1)
    }
}

proof fn lemma_loop_found(panes: Seq<(Seq<char>, LoopAlert)>, at: int) -> (k: int)
    requires
        0 <= at < panes.len(),
        panes[at].1.count >= 3,
    ensures
        0 <= k < loop_tips(panes).len(),
        loop_tips(panes)[k] == loop_tip(panes[at].0, panes[at].1),
    decreases panes.len(),
{
    let rest = panes.drop_last();
    if at < rest.len() {
        lemma_loop_found(rest, at)
    } else {
        loop_tips(rest).len() as int
    }
}

/// A retry-loop tip is urgent and tells of a pane that matched at least three times, the last time
/// less than ten minutes ago, how often it matched.
pub proof fn lemma_loop_tip_tells_its_streak(m: Map<Seq<char>, LoopAlert>, now_ms: u64, k: int)
    requires
        m.dom().finite(),
        0 <= k < loop_tips(sorted_listing(fresh_streaks(m, now_ms))).len(),
    ensures
        ({
            let tip = loop_tips(sorted_listing(fresh_streaks(m, now_ms)))[k];
            &&& m.contains_key(tip.pane_id)
            &&& m[tip.pane_id].count >= 3
            &&& now_ms < m[tip.pane_id].last_at_ms + 600_000
            &&& tip.urgent
            &&& tip.message == "retry loop suspected ("@ + dec(m[tip.pane_id].count as nat)
                + " output matches) — check the pane"@
        }),
{
    let s = sorted_listing(fresh_streaks(m, now_ms));
    lemma_fresh_listing(m, now_ms);
    let at = lemma_loop_source(s, k);
    lemma_dict_at(s, at);
    assert(fresh_streaks(m, now_ms).contains_key(s[at].0));
}

/// A pane that matched at least three times, the last time less than ten minutes ago, has a tip.
pub proof fn lemma_loop_has_its_tip(m: Map<Seq<char>, LoopAlert>, now_ms: u64, pane: Seq<char>)
    requires
        m.dom().finite(),
        m.contains_key(pane),
        m[pane].count >= 3,
        now_ms < m[pane].last_at_ms + 600_000,
    ensures
        exists|k: int|
            0 <= k < loop_tips(sorted_listing(fresh_streaks(m, now_ms))).len() && (
            #[trigger] loop_tips(sorted_listing(fresh_streaks(m, now_ms)))[k]).pane_id == pane,
{
    let s = sorted_listing(fresh_streaks(m, now_ms));
    lemma_fresh_listing(m, now_ms);
    assert(fresh_streaks(m, now_ms).contains_key(pane));
    assert(dict(s).contains_key(pane));
    let at = slot(s, pane);
    assert(s[at].0 == pane);
    lemma_dict_at(s, at);
    let k = lemma_loop_found(s, at);
    assert(loop_tips(s)[k].pane_id == pane);
}

/// The retry-loop tips stand by pane, at most one on each.
pub proof fn lemma_loops_stand_by_pane(
    m: Map<Seq<char>, LoopAlert>,
    now_ms: u64,
    a: int,
    b: int,
)
    requires
        m.dom().finite(),
        0 <= a < b < loop_tips(sorted_listing(fresh_streaks(m, now_ms))).len(),
    ensures
        lex_lt(
            loop_tips(sorted_listing(fresh_streaks(m, now_ms)))[a].pane_id,
            loop_tips(sorted_listing(fresh_streaks(m, now_ms)))[b].pane_id,
        ),
{
    let s = sorted_listing(fresh_streaks(m, now_ms));
    lemma_fresh_listing(m, now_ms);
    let (x, y) = lemma_loop_pair(s, a, b);
    assert(lex_lt(s[x].0, s[y].0));
}

proof fn lemma_fresh_listing(m: Map<Seq<char>, LoopAlert>, now_ms: u64)
    requires
        m.dom().finite(),
    ensures
        is_sorted(sorted_listing(fresh_streaks(m, now_ms))),
        dict(sorted_listing(fresh_streaks(m, now_ms))) == fresh_streaks(m, now_ms),
{
    let f = fresh_streaks(m, now_ms);
    assert(f.dom().subset_of(m.dom()));
    vstd::set_lib::lemma_set_subset_finite(m.dom(), f.dom());
    lemma_has_listing(f);
}

// ---------------------------------------------------------------- progress notes
/// Advice on a pane whose revision moved by at least fifty becomes a note of progress, as mild as
/// before and on the same pane; every other tip stays as it is.
pub proof fn lemma_advice_on_producing_panes_is_calmed(
    tips: Seq<TipView>,
    churn: Map<Seq<char>, u64>,
    k: int,
)
    requires
        0 <= k < tips.len(),
    ensures
        all_calmed(tips, churn).len() == tips.len(),
        ({
            let producing = !tips[k].urgent && churn.contains_key(tips[k].pane_id)
                && churn[tips[k].pane_id] >= 50;
            &&& producing ==> all_calmed(tips, churn)[k] == (TipView {
                pane_id: tips[k].pane_id,
                message: "still producing output — long turn in progress"@,
                urgent: false,
            })
            &&& !producing ==> all_calmed(tips, churn)[k] == tips[k]
        }),
{
}

/// The tips of a session are those that its panes call for, by pane, and among them the advice on
/// producing panes is calmed: each keeps its place and its pane.
pub proof fn lemma_session_tips_are_those_of_its_panes(
    states: Map<Seq<char>, AgentStateView>,
    churn: Map<Seq<char>, u64>,
    now_ms: u64,
    k: int,
)
    requires
        0 <= k < tips_on(sorted_listing(states), now_ms).len(),
    ensures
        session_tips(states, churn, now_ms).len() == tips_on(sorted_listing(states), now_ms).len(),
        ({
            let due = tips_on(sorted_listing(states), now_ms)[k];
            let told = session_tips(states, churn, now_ms)[k];
            let producing = churn.contains_key(due.pane_id) && churn[due.pane_id] >= 50;
            &&& told.pane_id == due.pane_id
            &&& told.urgent == due.urgent
            &&& due.urgent || !producing ==> told.message == due.message
            &&& !due.urgent && producing ==> told.message
                == "still producing output — long turn in progress"@
        }),
{
}

/// The activity of a pane is the one under which it was listed last.
pub proof fn lemma_activity_is_of_the_last_listing(
    churn: Seq<PaneChurnView>,
    i: int,
    pane: Seq<char>,
)
    ensures
        churn_map(churn).contains_key(pane) <==> exists|k: int|
            0 <= k < churn.len() && (#[trigger] churn[k]).pane_id == pane,
        0 <= i < churn.len() && churn[i].pane_id == pane && (forall|k: int|
            i < k < churn.len() ==> (#[trigger] churn[k]).pane_id != pane) ==> churn_map(
            churn,
        )[pane] == churn[i].revision_delta,
    decreases churn.len(),
{
    if churn.len() > 0 {
        let rest = churn.drop_last();
        lemma_activity_is_of_the_last_listing(rest, i, pane);
        assert(churn[churn.len() - 1] == churn.last());
        if exists|k: int| 0 <= k < rest.len() && (#[trigger] rest[k]).pane_id == pane {
            let k = choose|k: int| 0 <= k < rest.len() && (#[trigger] rest[k]).pane_id == pane;
            assert(churn[k].pane_id == pane);
        }
        if exists|k: int| 0 <= k < churn.len() && (#[trigger] churn[k]).pane_id == pane {
            let k = choose|k: int| 0 <= k < churn.len() && (#[trigger] churn[k]).pane_id == pane;
            if k < rest.len() {
                assert(rest[k].pane_id == pane);
            }
        }
        if 0 <= i < rest.len() && churn[i].pane_id == pane && (forall|k: int|
            i < k < churn.len() ==> (#[trigger] churn[k]).pane_id != pane) {
            assert forall|k: int| i < k < rest.len() implies (#[trigger] rest[k]).pane_id
                != pane by {
                assert(rest[k] == churn[k]);
            }
        }
    }
}

// ---------------------------------------------------------------- a refresh
/// Sending marks a pane of a session as notified now where one of the urgent tips is on it, and
/// changes nothing else of any pane.
pub proof fn lemma_sending_marks_the_panes(
    states: Map<Seq<char>, AgentStateView>,
    tips: Seq<TipView>,
    now_ms: u64,
    pane: Seq<char>,
)
    ensures
        notified(states, tips, now_ms).contains_key(pane) <==> states.contains_key(pane),
        states.contains_key(pane) ==> ({
            let after = notified(states, tips, now_ms)[pane];
            let was = states[pane];
            &&& after.pane_id == was.pane_id
            &&& after.agent == was.agent
            &&& after.status == was.status
            &&& after.since_ms == was.since_ms
            &&& (exists|k: int|
                0 <= k < tips.len() && (#[trigger] tips[k]).urgent && tips[k].pane_id == pane)
                ==> after.last_notified_ms == Some(now_ms)
            &&& (forall|k: int|
                0 <= k < tips.len() ==> !((#[trigger] tips[k]).urgent && tips[k].pane_id == pane))
                ==> after.last_notified_ms == was.last_notified_ms
        }),
    decreases tips.len(),
{
    if tips.len() > 0 {
        let rest = tips.drop_last();
        lemma_sending_marks_the_panes(states, rest, now_ms, pane);
        assert(tips[tips.len() - 1] == tips.last());
        assert(forall|k: int| 0 <= k < rest.len() ==> #[trigger] rest[k] == tips[k]);
        if exists|k: int|
            0 <= k < tips.len() && (#[trigger] tips[k]).urgent && tips[k].pane_id == pane {
            let k = choose|k: int|
                0 <= k < tips.len() && (#[trigger] tips[k]).urgent && tips[k].pane_id == pane;
            if k < rest.len() {
                assert(rest[k].urgent && rest[k].pane_id == pane);
            }
        }
    }
}

/// For a session with tips its urgent ones are sent, one notification each and in their order, and
/// its states are written after them; for a session without tips nothing is done.
pub proof fn lemma_session_is_sent_and_written(
    session: Seq<char>,
    states: Map<Seq<char>, AgentStateView>,
    churn: Map<Seq<char>, u64>,
    now_ms: u64,
)
    ensures
        ({
            let tips = session_tips(states, churn, now_ms);
            let sent = tips.filter(|t: TipView| t.urgent).map_values(
                |t: TipView| ActionView::Notify(t.message),
            );
            &&& tips.len() == 0 ==> session_actions(session, states, churn, now_ms).len() == 0
            &&& tips.len() > 0 ==> session_actions(session, states, churn, now_ms) == sent.push(
                ActionView::StoreStates(session, notified(states, tips, now_ms)),
            )
        }),
{
    lemma_notices_filter(session_tips(states, churn, now_ms));
}

proof fn lemma_notices_filter(tips: Seq<TipView>)
    ensures
        urgent_notices(tips) == tips.filter(|t: TipView| t.urgent).map_values(
            |t: TipView| ActionView::Notify(t.message),
        ),
    decreases tips.len(),
{
    reveal(Seq::filter);
    let f = |t: TipView| ActionView::Notify(t.message);
    let own = tips.filter(|t: TipView| t.urgent);
    if tips.len() == 0 {
        assert(urgent_notices(tips) =~= own.map_values(f));
    } else {
        lemma_notices_filter(tips.drop_last());
        let before = tips.drop_last().filter(|t: TipView| t.urgent);
        if tips.last().urgent {
            assert(own.map_values(f) =~= before.map_values(f).push(f(tips.last())));
        }
    }
}

/// What is done for the sessions is done session by session, in their order.
pub proof fn lemma_sessions_come_one_by_one(
    sessions: Seq<(Seq<char>, Map<Seq<char>, AgentStateView>)>,
    churn: Map<Seq<char>, u64>,
    now_ms: u64,
)
    ensures
        sessions_actions(sessions, churn, now_ms) == sessions.fold_left(
            Seq::<ActionView>::empty(),
            |all: Seq<ActionView>, s: (Seq<char>, Map<Seq<char>, AgentStateView>)|
                all + session_actions(s.0, s.1, churn, now_ms),
        ),
        sessions_list(sessions, churn, now_ms) == sessions.fold_left(
            Seq::<TipView>::empty(),
            |all: Seq<TipView>, s: (Seq<char>, Map<Seq<char>, AgentStateView>)|
                all + session_tips(s.1, churn, now_ms).map_values(
                    |t: TipView|
                        TipView {
                            pane_id: t.pane_id,
                            message: "["@ + s.0 + "] "@ + t.message,
                            urgent: t.urgent,
                        },
                ),
        ),
    decreases sessions.len(),
{
    if sessions.len() > 0 {
        lemma_sessions_come_one_by_one(sessions.drop_last(), churn, now_ms);
        let s = sessions.last();
        let tips = session_tips(s.1, churn, now_ms);
        assert(tips.map_values(|t: TipView| under_session(s.0, t)) =~= tips.map_values(
            |t: TipView|
                TipView {
                    pane_id: t.pane_id,
                    message: "["@ + s.0 + "] "@ + t.message,
                    urgent: t.urgent,
                },
        ));
    }
}

/// A refresh tends the sessions; writes the streaks where one was dropped; sends the retry loops;
/// writes the bookkeeping of the budget; sends the budget tips; and publishes all tips, those of
/// the sessions first, then the retry loops, then the budget.
pub proof fn lemma_refresh_goes_step_by_step(input: RefreshInput)
    ensures
        ({
            let churn = churn_map(views(input.churn@));
            let kept = fresh_streaks(input.loop_alerts@, input.now_ms);
            let loops = loop_tips(sorted_listing(kept));
            let budget = budget_tips(
                input.today_cost_usd,
                input.burn_rate_usd_per_hr,
                input.config,
                input.alert_state@,
                input.now_ms,
                input.today@,
            );
            let sessions = Seq::new(
                input.sessions@.len(),
                |i: int| (input.sessions@[i].0@, input.sessions@[i].1@),
            );
            let prune = if kept == input.loop_alerts@ {
                Seq::<ActionView>::empty()
            } else {
                seq![ActionView::StoreLoopAlerts(kept)]
            };
            let all = sessions_list(sessions, churn, input.now_ms) + loops + budget;
            input.actions() == sessions_actions(sessions, churn, input.now_ms) + prune
                + loops.map_values(|t: TipView| ActionView::Notify(t.message)) + seq![
                ActionView::StoreAlertState(
                    alerts_after(
                        input.today_cost_usd,
                        input.burn_rate_usd_per_hr,
                        input.config,
                        input.alert_state@,
                        input.now_ms,
                        input.today@,
                    ),
                ),
            ] + budget.map_values(|t: TipView| ActionView::Notify(t.message)) + seq![
                ActionView::StoreTips(
                    TipsView { generated_at_ms: input.now_ms, items: all },
                ),
            ]
        }),
{
    let m = input.loop_alerts@;
    let kept = fresh_streaks(m, input.now_ms);
    lemma_dict_finite(input.loop_alerts.listing());
    lemma_has_listing(m);
    lemma_fresh_listing(m, input.now_ms);
    let s = sorted_listing(m);
    let t = sorted_listing(kept);
    if kept != m {
        lemma_fewer_keys(t, s, kept, m);
    }
    let churn = churn_map(views(input.churn@));
    let sessions = Seq::new(
        input.sessions@.len(),
        |i: int| (input.sessions@[i].0@, input.sessions@[i].1@),
    );
    assert(input.session_views() =~= sessions);
    let f = |x: TipView| ActionView::Notify(x.message);
    assert(all_notices(input.loops()) =~= input.loops().map_values(f));
    assert(all_notices(input.budget()) =~= input.budget().map_values(f));
    let prune = if kept == m {
        Seq::<ActionView>::empty()
    } else {
        seq![ActionView::StoreLoopAlerts(kept)]
    };
    let state = ActionView::StoreAlertState(
        alerts_after(
            input.today_cost_usd,
            input.burn_rate_usd_per_hr,
            input.config,
            input.alert_state@,
            input.now_ms,
            input.today@,
        ),
    );
    let tips = ActionView::StoreTips(
        TipsView { generated_at_ms: input.now_ms, items: input.published() },
    );
    let first = sessions_actions(sessions, churn, input.now_ms) + prune + all_notices(
        input.loops(),
    );
    assert(input.actions() =~= first.push(state) + all_notices(input.budget()).push(tips));
    assert(input.actions() =~= first + seq![state] + all_notices(input.budget()) + seq![tips]);
}

/// A listing whose keys are some but not all of another's is the shorter one.
proof fn lemma_fewer_keys(
    t: Seq<(Seq<char>, LoopAlert)>,
    s: Seq<(Seq<char>, LoopAlert)>,
    some: Map<Seq<char>, LoopAlert>,
    all: Map<Seq<char>, LoopAlert>,
)
    requires
        is_sorted(s),
        is_sorted(t),
        dict(s) == all,
        dict(t) == some,
        some != all,
        all.dom().finite(),
        forall|k: Seq<char>| #[trigger] some.contains_key(k) ==> all.contains_key(k),
        forall|k: Seq<char>| #[trigger] some.contains_key(k) ==> some[k] == all[k],
    ensures
        t.len() != s.len(),
{
    lemma_listing_size(s);
    lemma_listing_size(t);
    if t.len() == s.len() {
        assert(some.dom().subset_of(all.dom()));
        vstd::set_lib::lemma_set_subset_finite(all.dom(), some.dom());
        vstd::set_lib::lemma_subset_equality(some.dom(), all.dom());
        assert(some =~= all);
    }
}

proof fn lemma_listing_size(s: Seq<(Seq<char>, LoopAlert)>)
    requires
        is_sorted(s),
    ensures
        dict(s).dom().finite(),
        dict(s).dom().len() == s.len(),
    decreases s.len(),
{
    lemma_dict_finite(s);
    if s.len() == 0 {
        assert(dict(s).dom() =~= Set::<Seq<char>>::empty());
    } else {
        let r = s.drop_last();
        lemma_listing_size(r);
        let k = s.last().0;
        lemma_dict_at(s, s.len() - 1);
        assert forall|x: Seq<char>| has_key(r, x) <==> has_key(s, x) && x != k by {
            if has_key(r, x) {
                let i = choose|i: int| 0 <= i < r.len() && #[trigger] r[i].0 == x;
                assert(s[i].0 == x);
                assert(lex_lt(s[i].0, s[s.len() - 1].0));
                crate::text::lemma_lex_irreflexive(x);
            }
            if has_key(s, x) && x != k {
                let i = choose|i: int| 0 <= i < s.len() && #[trigger] s[i].0 == x;
                assert(r[i].0 == x);
            }
        }
        assert(dict(r).dom() =~= dict(s).dom().remove(k));
    }
}

} // verus!
