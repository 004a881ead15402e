//! Promises of the turn statistics: what a percentile is, what is counted, and what a log keeps.

use vstd::prelude::*;
use vstd::string::*;

use crate::double::{closest, number, ratio_units, units};
use crate::group::{groups, lemma_group_is_filter, lemma_groups_share_out, lemma_members, members};
use crate::order::{
    goes_before, is_named, lemma_filter_len_by_place, lemma_filter_of_values, lemma_has_order,
    lemma_order_keeps_all, lemma_same_filter_len, lemma_sorted_ascends, lemma_total_is_fold,
    order_of, picked, sorted, total, turned,
};
use crate::text::{lemma_lex_irreflexive, lex_lt};
use crate::textmap::{dict, lemma_dict_at, slot, sorted_listing};
use crate::turns::{
    agent_row, agent_rows, all_fresh, blocked_count, busiest_first, counts, durations, fresh,
    gap_durations, is_rework, lemma_blocked_at_most, percentile, rework_count, stats_of,
    turn_labels, Dated, GapRecord, GapView, TurnRecord, TurnView,
};

verus! {

// ---------------------------------------------------------------- percentiles
/// A percentile is the first value of a row at or before which that many in a hundred of the values
/// stand: fewer stand before it. There is one exactly where there are values.
pub proof fn lemma_percentile_is_least_rank(s: Seq<u64>, pct: nat)
    requires
        s.len() > 0 ==> pct <= 100,
    ensures
        s.len() == 0 <==> percentile(s, pct) is None,
        s.len() > 0 ==> exists|before: int|
            {
                &&& 0 <= before < s.len()
                &&& percentile(s, pct) == Some(#[trigger] s[before])
                &&& 100 * (before + 1) >= s.len() * pct
                &&& before > 0 ==> 100 * before < s.len() * pct
            },
{
    if s.len() > 0 {
        let before = lemma_rank(s, pct) - 1;
        assert(percentile(s, pct) == Some(s[before]));
    }
}

proof fn lemma_rank(s: Seq<u64>, pct: nat) -> (k: int)
    requires
        s.len() > 0,
        pct <= 100,
    ensures
        1 <= k <= s.len(),
        percentile(s, pct) == Some(s[k - 1]),
        100 * k >= s.len() * pct,
        pct > 0 ==> 100 * (k - 1) < s.len() * pct,
        pct == 0 ==> k == 1,
{
    let n = s.len();
    assert(n * pct <= n * 100) by (nonlinear_arith)
        requires
            pct <= 100,
    ;
    assert(pct > 0 ==> n * pct > 0) by (nonlinear_arith)
        requires
            n > 0,
    ;
    assert(pct == 0 ==> n * pct == 0) by (nonlinear_arith);
    let up = (n * pct + 99) / 100;
    if up == 0 {
        1
    } else {
        up as int
    }
}

/// The percentile of values in any order: at least that many in a hundred are no larger, and fewer
/// are smaller.
proof fn lemma_percentile_of<T>(
    s: Seq<T>,
    f: spec_fn(T) -> u64,
    pct: nat,
    no_larger: spec_fn(T) -> bool,
    smaller: spec_fn(T) -> bool,
)
    requires
        0 < s.len() <= usize::MAX,
        0 < pct <= 100,
        forall|x: T| #[trigger] no_larger(x) == (f(x) <= percentile(
            sorted(s.map_values(f)),
            pct,
        )->0),
        forall|x: T| #[trigger] smaller(x) == (f(x) < percentile(
            sorted(s.map_values(f)),
            pct,
        )->0),
    ensures
        percentile(sorted(s.map_values(f)), pct) is Some,
        100 * s.filter(no_larger).len() >= s.len() * pct,
        100 * s.filter(smaller).len() < s.len() * pct,
        exists|i: int| 0 <= i < s.len() && f(#[trigger] s[i]) == percentile(
            sorted(s.map_values(f)),
            pct,
        )->0,
{
    let d = s.map_values(f);
    let t = sorted(d);
    lemma_sorted_ascends(d);
    lemma_has_order(d);
    lemma_order_keeps_all(d, order_of(d), d);
    assert(t =~= picked(d, order_of(d)));
    let k = lemma_rank(t, pct);
    let v = percentile(t, pct)->0;
    let p = |x: u64| x <= v;
    let q = |x: u64| x < v;
    lemma_same_filter_len(t, d, p);
    lemma_same_filter_len(t, d, q);
    lemma_filter_of_values(s, f, p, no_larger);
    lemma_filter_of_values(s, f, q, smaller);
    assert forall|i: int| 0 <= i < k implies p(#[trigger] t[i]) by {
        assert(t[i] <= t[k - 1]);
    }
    assert forall|i: int| k - 1 <= i < t.len() implies !q(#[trigger] t[i]) by {
        assert(t[k - 1] <= t[i]);
    }
    lemma_filter_len_by_place(t, p, k as nat);
    lemma_filter_len_by_place(t, q, (k - 1) as nat);
    let i = order_of(d)[k - 1] as int;
    assert(t[k - 1] == d[i]);
    assert(f(s[i]) == v);
}

// ---------------------------------------------------------------- statistics
/// Half of the turns took no longer than the median, and fewer took less; of the 95th percentile
/// the same holds of 95 in a hundred. Both are how long some turn took, and there are none where
/// there are no turns.
pub proof fn lemma_turn_percentiles(turns: Seq<TurnView>, gaps: Seq<GapView>)
    requires
        turns.len() <= usize::MAX,
    ensures
        turns.len() == 0 ==> stats_of(turns, gaps).p50_ms is None && stats_of(
            turns,
            gaps,
        ).p95_ms is None,
        turns.len() > 0 ==> ({
            let p50 = stats_of(turns, gaps).p50_ms->0;
            let p95 = stats_of(turns, gaps).p95_ms->0;
            &&& stats_of(turns, gaps).p50_ms is Some
            &&& stats_of(turns, gaps).p95_ms is Some
            &&& exists|i: int| 0 <= i < turns.len() && (#[trigger] turns[i]).duration_ms == p50
            &&& exists|i: int| 0 <= i < turns.len() && (#[trigger] turns[i]).duration_ms == p95
            &&& 2 * turns.filter(|t: TurnView| t.duration_ms <= p50).len() >= turns.len()
            &&& 2 * turns.filter(|t: TurnView| t.duration_ms < p50).len() < turns.len()
            &&& 20 * turns.filter(|t: TurnView| t.duration_ms <= p95).len() >= 19 * turns.len()
            &&& 20 * turns.filter(|t: TurnView| t.duration_ms < p95).len() < 19 * turns.len()
        }),
{
    if turns.len() > 0 {
        let f = |t: TurnView| t.duration_ms;
        assert(durations(turns) =~= turns.map_values(f));
        let p50 = stats_of(turns, gaps).p50_ms->0;
        let p95 = stats_of(turns, gaps).p95_ms->0;
        lemma_percentile_of(
            turns,
            f,
            50,
            |t: TurnView| t.duration_ms <= p50,
            |t: TurnView| t.duration_ms < p50,
        );
        lemma_percentile_of(
            turns,
            f,
            95,
            |t: TurnView| t.duration_ms <= p95,
            |t: TurnView| t.duration_ms < p95,
        );
    } else {
        lemma_sorted_ascends(durations(turns));
    }
}

/// Half of the human-response gaps were no longer than their median, and fewer were shorter; all
/// of them together are told as their sum, where it can be counted.
pub proof fn lemma_human_latency(turns: Seq<TurnView>, gaps: Seq<GapView>)
    requires
        gaps.len() <= usize::MAX,
    ensures
        gaps.len() == 0 ==> stats_of(turns, gaps).human_latency_p50_ms is None && stats_of(
            turns,
            gaps,
        ).human_latency_total_ms == 0,
        gaps.len() > 0 ==> ({
            let p50 = stats_of(turns, gaps).human_latency_p50_ms->0;
            &&& stats_of(turns, gaps).human_latency_p50_ms is Some
            &&& exists|i: int| 0 <= i < gaps.len() && (#[trigger] gaps[i]).duration_ms == p50
            &&& 2 * gaps.filter(|g: GapView| g.duration_ms <= p50).len() >= gaps.len()
            &&& 2 * gaps.filter(|g: GapView| g.duration_ms < p50).len() < gaps.len()
        }),
        ({
            let sum = gaps.fold_left(0int, |n: int, g: GapView| n + g.duration_ms);
            sum <= u64::MAX ==> stats_of(turns, gaps).human_latency_total_ms == sum
        }),
        total(gap_durations(gaps)) == gaps.fold_left(
            0int,
            |n: int, g: GapView| n + g.duration_ms,
        ),
{
    let f = |g: GapView| g.duration_ms;
    assert(gap_durations(gaps) =~= gaps.map_values(f));
    lemma_total_is_fold(gaps, f, |n: int, g: GapView| n + g.duration_ms);
    if gaps.len() > 0 {
        let p50 = stats_of(turns, gaps).human_latency_p50_ms->0;
        lemma_percentile_of(
            gaps,
            f,
            50,
            |g: GapView| g.duration_ms <= p50,
            |g: GapView| g.duration_ms < p50,
        );
    } else {
        lemma_sorted_ascends(gap_durations(gaps));
    }
}

/// All turns are counted, and the intervention rate is the share of those that ended blocked; the
/// rate of turns without intervention is what is left of one.
pub proof fn lemma_intervention_counts_blocked_turns(turns: Seq<TurnView>, gaps: Seq<GapView>)
    requires
        turns.len() <= usize::MAX,
    ensures
        stats_of(turns, gaps).completed == turns.len(),
        turns.len() == 0 ==> stats_of(turns, gaps).intervention_rate is None && stats_of(
            turns,
            gaps,
        ).zero_intervention_rate is None,
        turns.len() > 0 ==> ({
            let blocked = turns.filter(|t: TurnView| t.ended_by == "blocked"@).len();
            let rate = number(ratio_units(blocked as u64, turns.len() as u64));
            &&& blocked <= turns.len()
            &&& stats_of(turns, gaps).intervention_rate == Some(rate)
            &&& stats_of(turns, gaps).zero_intervention_rate == Some(
                number(closest((units() - rate.magnitude()) as nat, 1)),
            )
        }),
{
    lemma_blocked_filter(turns);
    lemma_blocked_at_most(turns);
}

proof fn lemma_blocked_filter(turns: Seq<TurnView>)
    ensures
        blocked_count(turns) == turns.filter(|t: TurnView| t.ended_by == "blocked"@).len(),
    decreases turns.len(),
{
    reveal(Seq::filter);
    if turns.len() > 0 {
        lemma_blocked_filter(turns.drop_last());
    }
}

/// Rework is counted turn by turn: those under five minutes that start within ten minutes after
/// another turn of the same pane ended blocked, and no others.
pub proof fn lemma_rework_counts_quick_returns(turns: Seq<TurnView>, gaps: Seq<GapView>)
    requires
        turns.len() <= usize::MAX,
    ensures
        stats_of(turns, gaps).rework_turns == Seq::new(turns.len(), |i: int| i).filter(
            |i: int|
                turns[i].duration_ms < 300_000 && exists|j: int|
                    {
                        let start = if turns[i].finished_at_ms >= turns[i].duration_ms {
                            turns[i].finished_at_ms - turns[i].duration_ms
                        } else {
                            0
                        };
                        &&& 0 <= j < turns.len()
                        &&& j != i
                        &&& (#[trigger] turns[j]).pane_id == turns[i].pane_id
                        &&& turns[j].ended_by == "blocked"@
                        &&& turns[j].finished_at_ms <= start < turns[j].finished_at_ms + 600_000
                    },
        ).len(),
{
    let p = |i: int|
        turns[i].duration_ms < 300_000 && exists|j: int|
            {
                let start = if turns[i].finished_at_ms >= turns[i].duration_ms {
                    turns[i].finished_at_ms - turns[i].duration_ms
                } else {
                    0
                };
                &&& 0 <= j < turns.len()
                &&& j != i
                &&& (#[trigger] turns[j]).pane_id == turns[i].pane_id
                &&& turns[j].ended_by == "blocked"@
                &&& turns[j].finished_at_ms <= start < turns[j].finished_at_ms + 600_000
            };
    assert forall|i: int| 0 <= i < turns.len() implies #[trigger] is_rework(turns, i) == p(i) by {
        if is_rework(turns, i) {
            let j = choose|j: int|
                0 <= j < turns.len() && j != i && crate::turns::follows_block(
                    #[trigger] turns[j],
                    turns[i],
                );
            assert(turns[j].pane_id == turns[i].pane_id);
        }
        if p(i) {
            let j = choose|j: int|
                {
                    let start = if turns[i].finished_at_ms >= turns[i].duration_ms {
                        turns[i].finished_at_ms - turns[i].duration_ms
                    } else {
                        0
                    };
                    &&& 0 <= j < turns.len()
                    &&& j != i
                    &&& (#[trigger] turns[j]).pane_id == turns[i].pane_id
                    &&& turns[j].ended_by == "blocked"@
                    &&& turns[j].finished_at_ms <= start < turns[j].finished_at_ms + 600_000
                };
            assert(crate::turns::follows_block(turns[j], turns[i]));
        }
    }
    lemma_rework_filter(turns, turns.len(), p);
}

proof fn lemma_rework_filter(turns: Seq<TurnView>, n: nat, p: spec_fn(int) -> bool)
    requires
        n <= turns.len(),
        forall|i: int| 0 <= i < turns.len() ==> #[trigger] is_rework(turns, i) == p(i),
    ensures
        rework_count(turns, n) == Seq::new(n, |i: int| i).filter(p).len(),
        rework_count(turns, n) <= n,
    decreases n,
{
    reveal(Seq::filter);
    if n > 0 {
        let less = (n - 1) as nat;
        lemma_rework_filter(turns, less, p);
        assert(Seq::new(n, |i: int| i).drop_last() =~= Seq::new(less, |i: int| i));
        assert(Seq::new(n, |i: int| i).last() == n - 1);
        assert(is_rework(turns, n - 1) == p(n - 1));
    }
}

// ---------------------------------------------------------------- agents
/// The row of an agent is about the turns of that agent and no others: how many they are, and
/// their percentiles. A turn without an agent counts as that of `agent`.
pub proof fn lemma_agent_row_is_about_its_turns(turns: Seq<TurnView>, k: int)
    requires
        turns.len() <= usize::MAX,
        0 <= k < busiest_first(turns).len(),
    ensures
        ({
            let row = busiest_first(turns)[k];
            let own = turns.filter(
                |t: TurnView|
                    match t.agent {
                        Some(a) => a == row.agent,
                        None => row.agent == "agent"@,
                    },
            );
            let p50 = row.p50_ms->0;
            let p95 = row.p95_ms->0;
            &&& own.len() > 0
            &&& row.completed == own.len()
            &&& row.p50_ms is Some
            &&& row.p95_ms is Some
            &&& exists|i: int| 0 <= i < own.len() && (#[trigger] own[i]).duration_ms == p50
            &&& exists|i: int| 0 <= i < own.len() && (#[trigger] own[i]).duration_ms == p95
            &&& 2 * own.filter(|t: TurnView| t.duration_ms <= p50).len() >= own.len()
            &&& 2 * own.filter(|t: TurnView| t.duration_ms < p50).len() < own.len()
            &&& 20 * own.filter(|t: TurnView| t.duration_ms <= p95).len() >= 19 * own.len()
            &&& 20 * own.filter(|t: TurnView| t.duration_ms < p95).len() < 19 * own.len()
        }),
{
    let labels = turn_labels(turns);
    let rows = agent_rows(turns);
    let keys = turned(counts(rows));
    let s = sorted_listing(groups(labels));
    lemma_groups_share_out(labels);
    lemma_has_order(keys);
    let i = order_of(keys)[k] as int;
    let row = busiest_first(turns)[k];
    lemma_dict_at(s, i);
    let at = members(labels, s[i].0);
    assert(row == rows[i]);
    assert(row == agent_row(s[i].0, picked(durations(turns), s[i].1)));
    assert(s[i].1 == at);
    let p = |t: TurnView|
        match t.agent {
            Some(a) => a == row.agent,
            None => row.agent == "agent"@,
        };
    let own = turns.filter(p);
    lemma_group_is_filter(turns, labels, row.agent, p);
    lemma_members(labels, row.agent);
    assert(at.map_values(|x: usize| turns[x as int]) == own);
    assert(at.map_values(|x: usize| turns[x as int]).len() == at.len());
    assert forall|x: int| 0 <= x < at.len() implies own[x] == turns[#[trigger] at[x] as int] by {
        assert(at.map_values(|y: usize| turns[y as int])[x] == turns[at[x] as int]);
    }
    let f = |t: TurnView| t.duration_ms;
    assert(picked(durations(turns), at) =~= own.map_values(f));
    let j = choose|x: int| 0 <= x < labels.len() && labels[x] == row.agent;
    assert(labels.contains(row.agent));
    assert(at.contains(j as usize));
    let p50 = row.p50_ms->0;
    let p95 = row.p95_ms->0;
    lemma_percentile_of(
        own,
        f,
        50,
        |t: TurnView| t.duration_ms <= p50,
        |t: TurnView| t.duration_ms < p50,
    );
    lemma_percentile_of(
        own,
        f,
        95,
        |t: TurnView| t.duration_ms <= p95,
        |t: TurnView| t.duration_ms < p95,
    );
}

/// The agent of every turn has a row.
pub proof fn lemma_each_agent_has_a_row(turns: Seq<TurnView>, i: int)
    requires
        turns.len() <= usize::MAX,
        0 <= i < turns.len(),
    ensures
        exists|k: int|
            0 <= k < busiest_first(turns).len() && (#[trigger] busiest_first(turns)[k]).agent == (
            match turns[i].agent {
                Some(a) => a,
                None => "agent"@,
            }),
{
    let labels = turn_labels(turns);
    let keys = turned(counts(agent_rows(turns)));
    let s = sorted_listing(groups(labels));
    let o = order_of(keys);
    lemma_groups_share_out(labels);
    lemma_has_order(keys);
    let l = labels[i];
    assert(groups(labels).contains_key(l));
    assert(dict(s).contains_key(l));
    let x = slot(s, l);
    assert(s[x].0 == l);
    assert(is_named(o, x));
    let k = choose|k: int| 0 <= k < o.len() && #[trigger] o[k] == x;
    assert(busiest_first(turns)[k].agent == l);
}

/// No agent has two rows, and the statistics list the rows with the busiest first.
pub proof fn lemma_no_agent_has_two_rows(
    turns: Seq<TurnView>,
    gaps: Seq<GapView>,
    a: int,
    b: int,
)
    requires
        turns.len() <= usize::MAX,
        0 <= a < b < busiest_first(turns).len(),
    ensures
        stats_of(turns, gaps).by_agent == busiest_first(turns),
        busiest_first(turns)[a].agent != busiest_first(turns)[b].agent,
{
    let labels = turn_labels(turns);
    let keys = turned(counts(agent_rows(turns)));
    let s = sorted_listing(groups(labels));
    let o = order_of(keys);
    lemma_groups_share_out(labels);
    lemma_has_order(keys);
    let x = o[a] as int;
    let y = o[b] as int;
    assert(goes_before(keys, x, y));
    lemma_lex_irreflexive(s[x].0);
    if x < y {
        assert(lex_lt(s[x].0, s[y].0));
    } else {
        assert(lex_lt(s[y].0, s[x].0));
    }
}

// ---------------------------------------------------------------- rotation
/// Rotation keeps the turns that finished at the cutoff or later, and the gaps that started then
/// or later, as they stand; a log stays as it is exactly where it holds nothing older.
pub proof fn lemma_rotation_drops_the_old(
    turns: Seq<TurnView>,
    gaps: Seq<GapView>,
    cutoff: u64,
)
    ensures
        fresh::<TurnRecord>(turns, cutoff) == turns.filter(
            |t: TurnView| t.finished_at_ms >= cutoff,
        ),
        fresh::<GapRecord>(gaps, cutoff) == gaps.filter(|g: GapView| g.started_at_ms >= cutoff),
        all_fresh::<TurnRecord>(turns, cutoff) <==> forall|i: int|
            0 <= i < turns.len() ==> (#[trigger] turns[i]).finished_at_ms >= cutoff,
        all_fresh::<GapRecord>(gaps, cutoff) <==> forall|i: int|
            0 <= i < gaps.len() ==> (#[trigger] gaps[i]).started_at_ms >= cutoff,
{
    lemma_fresh_is_filter::<TurnRecord>(turns, cutoff, |t: TurnView| t.finished_at_ms >= cutoff);
    lemma_fresh_is_filter::<GapRecord>(gaps, cutoff, |g: GapView| g.started_at_ms >= cutoff);
    if all_fresh::<TurnRecord>(turns, cutoff) {
        assert forall|i: int| 0 <= i < turns.len() implies (#[trigger] turns[i]).finished_at_ms
            >= cutoff by {
            assert(TurnRecord::stamp(turns[i]) >= cutoff);
        }
    }
    if all_fresh::<GapRecord>(gaps, cutoff) {
        assert forall|i: int| 0 <= i < gaps.len() implies (#[trigger] gaps[i]).started_at_ms
            >= cutoff by {
            assert(GapRecord::stamp(gaps[i]) >= cutoff);
        }
    }
}

proof fn lemma_fresh_is_filter<T: Dated>(s: Seq<T::V>, cutoff: u64, p: spec_fn(T::V) -> bool)
    requires
        forall|v: T::V| #[trigger] p(v) == (T::stamp(v) >= cutoff),
    ensures
        fresh::<T>(s, cutoff) == s.filter(p),
    decreases s.len(),
{
    reveal(Seq::filter);
    if s.len() > 0 {
        lemma_fresh_is_filter::<T>(s.drop_last(), cutoff, p);
        assert(p(s.last()) == (T::stamp(s.last()) >= cutoff));
    }
}

} // verus!
