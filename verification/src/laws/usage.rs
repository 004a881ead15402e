//! Promises of the usage figures: every sum is a sum over the events it is about, and nothing else.

use vstd::prelude::*;
use vstd::string::*;

use crate::clock::LocalStamp;
use crate::double::{
    lemma_rank_orders, lemma_summed_is_fold, number, plus, ratio_units, Double,
};
use crate::group::{
    groups, lemma_group_is_filter, lemma_groups_share_out, lemma_members, members,
};
use crate::order::{
    goes_before, is_named, is_order, lemma_has_order, lemma_total_is_fold, order_of, picked, total,
    turned,
};
use crate::text::{arranged, lemma_lex_irreflexive, lex_lt, monus, views};
use crate::textmap::{dict, is_sorted, lemma_dict_at, slot, sorted_listing};
use crate::usage::{
    all_bloats, bloat_of, bloats_in, by_time, cost_of, cost_ranks, costliest, costs_at, day_of,
    digest_of, final_sizes, has_session, heat_of, hour_total, in_sessions, is_on, keeps_growing,
    known_cost, lemma_positions_in_range, model_labels, model_row, model_rows, model_tokens,
    models_of, on_day, output_counts, positions, project_labels, project_row, project_rows,
    prompt_at, prompt_total, read_total, reasoning_counts, recent, series_of, session_ids, spent,
    times_at, token_totals, tokens_of, worst_bloats, EventView, UsageReport,
};

verus! {

// ---------------------------------------------------------------- one event
/// An event costs what the provider reported, where that is a finite number that is not below
/// zero, and nothing where it is not.
pub proof fn lemma_cost_is_as_reported(e: EventView)
    ensures
        e.source_cost_usd matches Some(c) && c.is_finite() && c.amount() >= 0 ==> known_cost(e)
            == e.source_cost_usd->0,
        !(e.source_cost_usd matches Some(c) && c.is_finite() && c.amount() >= 0) ==> known_cost(e)
            == (Double { bits: 0 }),
{
}

// ---------------------------------------------------------------- some events
proof fn lemma_own_events<T>(
    s: Seq<T>,
    event: spec_fn(T) -> EventView,
    labels: Seq<Seq<char>>,
    l: Seq<char>,
    p: spec_fn(T) -> bool,
    sum: spec_fn(int, T) -> int,
    cost: spec_fn(Double, T) -> Double,
)
    requires
        s.len() == labels.len() <= usize::MAX,
        forall|i: int| 0 <= i < s.len() ==> p(#[trigger] s[i]) == (labels[i] == l),
        forall|n: int, x: T| #[trigger] sum(n, x) == n + event(x).tokens.total,
        forall|d: Double, x: T| #[trigger] cost(d, x) == plus(d, known_cost(event(x))),
    ensures
        ({
            let events = s.map_values(event);
            let own = s.filter(p);
            let tokens = own.fold_left(0int, sum);
            &&& members(labels, l).len() == own.len()
            &&& tokens_of(events, members(labels, l)) == if tokens <= u64::MAX {
                tokens
            } else {
                u64::MAX as int
            }
            &&& tokens >= 0
            &&& cost_of(events, members(labels, l)) == own.fold_left(Double { bits: 0 }, cost)
        }),
{
    let events = s.map_values(event);
    let at = members(labels, l);
    let own = s.filter(p);
    lemma_group_is_filter(s, labels, l, p);
    lemma_members(labels, l);
    assert(at.map_values(|i: usize| s[i as int]) == own);
    assert(at.map_values(|i: usize| s[i as int]).len() == at.len());
    assert forall|k: int| 0 <= k < at.len() implies own[k] == s[#[trigger] at[k] as int] by {
        assert(at.map_values(|i: usize| s[i as int])[k] == s[at[k] as int]);
    }
    let f = |x: T| event(x).tokens.total;
    let g = |x: T| known_cost(event(x));
    assert(picked(token_totals(events), at) =~= own.map_values(f));
    assert(costs_at(events, at) =~= own.map_values(g));
    lemma_total_is_fold(own, f, sum);
    lemma_summed_is_fold(Double { bits: 0 }, own, g, cost);
}

// ---------------------------------------------------------------- models
/// The row of a model sums up the events of that model: how many they are, the sum of their
/// tokens as far as it can be counted, and the sum of their costs from zero in the order of the
/// events. An event without a model, or with an empty one, is of the model `unknown`.
pub proof fn lemma_model_row_sums_its_events(events: Seq<EventView>, k: int)
    requires
        events.len() <= usize::MAX,
        0 <= k < models_of(events).len(),
    ensures
        ({
            let row = models_of(events)[k];
            let own = events.filter(
                |e: EventView|
                    if e.model matches Some(n) && n.len() > 0 {
                        e.model->0 == row.model
                    } else {
                        row.model == "unknown"@
                    },
            );
            let tokens = own.fold_left(0int, |n: int, e: EventView| n + e.tokens.total);
            &&& own.len() > 0
            &&& row.events == own.len()
            &&& row.total_tokens == if tokens <= u64::MAX {
                tokens
            } else {
                u64::MAX as int
            }
            &&& row.known_cost_usd == own.fold_left(
                Double { bits: 0 },
                |d: Double, e: EventView|
                    plus(
                        d,
                        if e.source_cost_usd matches Some(c) && c.is_finite() && c.amount() >= 0 {
                            e.source_cost_usd->0
                        } else {
                            Double { bits: 0 }
                        },
                    ),
            )
        }),
{
    let labels = model_labels(events);
    let rows = model_rows(events);
    let keys = turned(model_tokens(rows));
    let s = sorted_listing(groups(labels));
    lemma_groups_share_out(labels);
    lemma_has_order(keys);
    let i = order_of(keys)[k] as int;
    let row = models_of(events)[k];
    assert(row == rows[i]);
    assert(row == model_row(events, s[i].0, s[i].1));
    lemma_dict_at(s, i);
    assert(s[i].1 == members(labels, row.model));
    assert(labels.contains(row.model));
    let p = |e: EventView|
        if e.model matches Some(n) && n.len() > 0 {
            e.model->0 == row.model
        } else {
            row.model == "unknown"@
        };
    let id = |e: EventView| e;
    assert(events.map_values(id) =~= events);
    let sum = |n: int, e: EventView| n + e.tokens.total;
    let cost = |d: Double, e: EventView|
        plus(
            d,
            if e.source_cost_usd matches Some(c) && c.is_finite() && c.amount() >= 0 {
                e.source_cost_usd->0
            } else {
                Double { bits: 0 }
            },
        );
    lemma_own_events(events, id, labels, row.model, p, sum, cost);
    let at = choose|x: int| 0 <= x < labels.len() && labels[x] == row.model;
    lemma_members(labels, row.model);
    assert(members(labels, row.model).contains(at as usize));
}

/// Every event is of a model that has a row.
pub proof fn lemma_each_model_has_a_row(events: Seq<EventView>, i: int)
    requires
        events.len() <= usize::MAX,
        0 <= i < events.len(),
    ensures
        events[i].model matches Some(n) && n.len() > 0 ==> exists|k: int|
            0 <= k < models_of(events).len() && (#[trigger] models_of(events)[k]).model
                == events[i].model->0,
        !(events[i].model matches Some(n) && n.len() > 0) ==> exists|k: int|
            0 <= k < models_of(events).len() && (#[trigger] models_of(events)[k]).model
                == "unknown"@,
{
    let labels = model_labels(events);
    let keys = turned(model_tokens(model_rows(events)));
    let s = sorted_listing(groups(labels));
    let o = order_of(keys);
    lemma_groups_share_out(labels);
    lemma_has_order(keys);
    let l = labels[i];
    assert(groups(labels).contains_key(l));
    assert(dict(s).contains_key(l));
    let x = slot(s, l);
    assert(s[x].0 == l);
    assert(is_named(o, x));
    let k = choose|k: int| 0 <= k < o.len() && #[trigger] o[k] == x;
    assert(models_of(events)[k].model == l);
}

/// No model has two rows.
pub proof fn lemma_no_model_has_two_rows(events: Seq<EventView>, a: int, b: int)
    requires
        events.len() <= usize::MAX,
        0 <= a < b < models_of(events).len(),
    ensures
        models_of(events)[a].model != models_of(events)[b].model,
{
    let labels = model_labels(events);
    let keys = turned(model_tokens(model_rows(events)));
    let s = sorted_listing(groups(labels));
    let o = order_of(keys);
    lemma_groups_share_out(labels);
    lemma_has_order(keys);
    let x = o[a] as int;
    let y = o[b] as int;
    assert(goes_before(keys, x, y));
    lemma_lex_irreflexive(s[x].0);
    if x < y {
        assert(lex_lt(s[x].0, s[y].0));
    } else {
        assert(lex_lt(s[y].0, s[x].0));
    }
}

// ---------------------------------------------------------------- days
/// The point of a day sums up the events of that day: how many they are, the sum of their tokens
/// as far as it can be counted, and the sum of their costs from zero in the order of the events.
/// Beside them stand the sessions that started on the day.
pub proof fn lemma_day_sums_its_events(
    events: Seq<EventView>,
    days: Seq<Seq<char>>,
    sessions: Map<Seq<char>, u64>,
    k: int,
)
    requires
        events.len() == days.len() <= usize::MAX,
        0 <= k < series_of(events, days, sessions).len(),
    ensures
        ({
            let point = series_of(events, days, sessions)[k];
            let own = events.zip_with(days).filter(
                |e: (EventView, Seq<char>)| e.1 == point.date,
            );
            let tokens = own.fold_left(
                0int,
                |n: int, e: (EventView, Seq<char>)| n + e.0.tokens.total,
            );
            &&& own.len() > 0
            &&& point.events == own.len()
            &&& point.tokens == if tokens <= u64::MAX {
                tokens
            } else {
                u64::MAX as int
            }
            &&& point.cost_usd == own.fold_left(
                Double { bits: 0 },
                |d: Double, e: (EventView, Seq<char>)|
                    plus(
                        d,
                        if e.0.source_cost_usd matches Some(c) && c.is_finite() && c.amount() >= 0 {
                            e.0.source_cost_usd->0
                        } else {
                            Double { bits: 0 }
                        },
                    ),
            )
            &&& sessions.contains_key(point.date) ==> point.sessions == sessions[point.date]
            &&& !sessions.contains_key(point.date) ==> point.sessions == 0
        }),
{
    let s = sorted_listing(groups(days));
    lemma_groups_share_out(days);
    lemma_dict_at(s, k);
    let point = series_of(events, days, sessions)[k];
    assert(point == day_of(events, s[k].0, s[k].1, sessions));
    assert(s[k].1 == members(days, point.date));
    assert(days.contains(point.date));
    let both = events.zip_with(days);
    let event = |e: (EventView, Seq<char>)| e.0;
    assert(both.map_values(event) =~= events);
    let p = |e: (EventView, Seq<char>)| e.1 == point.date;
    let sum = |n: int, e: (EventView, Seq<char>)| n + e.0.tokens.total;
    let cost = |d: Double, e: (EventView, Seq<char>)|
        plus(
            d,
            if e.0.source_cost_usd matches Some(c) && c.is_finite() && c.amount() >= 0 {
                e.0.source_cost_usd->0
            } else {
                Double { bits: 0 }
            },
        );
    lemma_own_events(both, event, days, point.date, p, sum, cost);
    let at = choose|x: int| 0 <= x < days.len() && days[x] == point.date;
    lemma_members(days, point.date);
    assert(members(days, point.date).contains(at as usize));
}

/// Adding an event to a day adds its cost to the point of that day, and leaves every other day
/// that has a point as it was.
pub proof fn lemma_event_adds_to_its_day(
    events: Seq<EventView>,
    days: Seq<Seq<char>>,
    sessions: Map<Seq<char>, u64>,
    e: EventView,
    day: Seq<char>,
    a: int,
    b: int,
)
    requires
        events.len() == days.len() < usize::MAX,
        0 <= a < series_of(events, days, sessions).len(),
        0 <= b < series_of(events.push(e), days.push(day), sessions).len(),
        series_of(events, days, sessions)[a].date == series_of(
            events.push(e),
            days.push(day),
            sessions,
        )[b].date,
    ensures
        ({
            let before = series_of(events, days, sessions)[a];
            let after = series_of(events.push(e), days.push(day), sessions)[b];
            if before.date == day {
                &&& after.events == before.events + 1
                &&& after.tokens == if before.tokens + e.tokens.total <= u64::MAX {
                    before.tokens + e.tokens.total
                } else {
                    u64::MAX as int
                }
                &&& after.cost_usd == plus(
                    before.cost_usd,
                    if e.source_cost_usd matches Some(c) && c.is_finite() && c.amount() >= 0 {
                        e.source_cost_usd->0
                    } else {
                        Double { bits: 0 }
                    },
                )
            } else {
                after == before
            }
        }),
{
    reveal(Seq::filter);
    let more = events.push(e);
    let later = days.push(day);
    let before = series_of(events, days, sessions)[a];
    let after = series_of(more, later, sessions)[b];
    lemma_day_sums_its_events(events, days, sessions, a);
    lemma_day_sums_its_events(more, later, sessions, b);
    let p = |x: (EventView, Seq<char>)| x.1 == before.date;
    let q = |x: (EventView, Seq<char>)| x.1 == after.date;
    assert(p =~= q);
    assert(more.zip_with(later).drop_last() =~= events.zip_with(days));
    assert(more.zip_with(later).last() == (e, day));
    let own = events.zip_with(days).filter(p);
    let both = more.zip_with(later).filter(p);
    if day == before.date {
        assert(both == own.push((e, day)));
        assert(both.drop_last() =~= own);
        let sum = |n: int, x: (EventView, Seq<char>)| n + x.0.tokens.total;
        lemma_sums_are_counts(own, sum);
    } else {
        assert(both == own);
    }
}

proof fn lemma_sums_are_counts(
    s: Seq<(EventView, Seq<char>)>,
    sum: spec_fn(int, (EventView, Seq<char>)) -> int,
)
    requires
        forall|n: int, x: (EventView, Seq<char>)| #[trigger] sum(n, x) == n + x.0.tokens.total,
    ensures
        s.fold_left(0int, sum) >= 0,
    decreases s.len(),
{
    if s.len() > 0 {
        lemma_sums_are_counts(s.drop_last(), sum);
        let before = s.drop_last().fold_left(0int, sum);
        assert(sum(before, s.last()) >= before);
    }
}

/// Every day with events has a point.
pub proof fn lemma_each_day_has_a_point(
    events: Seq<EventView>,
    days: Seq<Seq<char>>,
    sessions: Map<Seq<char>, u64>,
    i: int,
)
    requires
        events.len() == days.len() <= usize::MAX,
        0 <= i < days.len(),
    ensures
        exists|k: int|
            0 <= k < series_of(events, days, sessions).len() && (#[trigger] series_of(
                events,
                days,
                sessions,
            )[k]).date == days[i],
{
    let s = sorted_listing(groups(days));
    lemma_groups_share_out(days);
    assert(groups(days).contains_key(days[i]));
    assert(dict(s).contains_key(days[i]));
    let k = slot(s, days[i]);
    assert(s[k].0 == days[i]);
    assert(series_of(events, days, sessions)[k].date == days[i]);
}

// ---------------------------------------------------------------- projects
/// The row of a project sums up the events of that project, as the row of a model does; an event
/// without a project, or with an empty one, is of the project `unknown`.
pub proof fn lemma_project_row_sums_its_events(events: Seq<EventView>, k: int)
    requires
        events.len() <= usize::MAX,
        0 <= k < costliest(events).len(),
    ensures
        ({
            let row = costliest(events)[k];
            let own = events.filter(
                |e: EventView|
                    if e.project matches Some(n) && n.len() > 0 {
                        e.project->0 == row.project
                    } else {
                        row.project == "unknown"@
                    },
            );
            let tokens = own.fold_left(0int, |n: int, e: EventView| n + e.tokens.total);
            &&& own.len() > 0
            &&& row.events == own.len()
            &&& row.total_tokens == if tokens <= u64::MAX {
                tokens
            } else {
                u64::MAX as int
            }
            &&& row.known_cost_usd == own.fold_left(
                Double { bits: 0 },
                |d: Double, e: EventView|
                    plus(
                        d,
                        if e.source_cost_usd matches Some(c) && c.is_finite() && c.amount() >= 0 {
                            e.source_cost_usd->0
                        } else {
                            Double { bits: 0 }
                        },
                    ),
            )
        }),
{
    let labels = project_labels(events);
    let rows = project_rows(events);
    let keys = turned(cost_ranks(rows));
    let s = sorted_listing(groups(labels));
    lemma_groups_share_out(labels);
    lemma_has_order(keys);
    let i = order_of(keys)[k] as int;
    let row = costliest(events)[k];
    assert(row == rows[i]);
    assert(row == project_row(events, s[i].0, s[i].1));
    lemma_dict_at(s, i);
    assert(s[i].1 == members(labels, row.project));
    assert(labels.contains(row.project));
    let p = |e: EventView|
        if e.project matches Some(n) && n.len() > 0 {
            e.project->0 == row.project
        } else {
            row.project == "unknown"@
        };
    let id = |e: EventView| e;
    assert(events.map_values(id) =~= events);
    let sum = |n: int, e: EventView| n + e.tokens.total;
    let cost = |d: Double, e: EventView|
        plus(
            d,
            if e.source_cost_usd matches Some(c) && c.is_finite() && c.amount() >= 0 {
                e.source_cost_usd->0
            } else {
                Double { bits: 0 }
            },
        );
    lemma_own_events(events, id, labels, row.project, p, sum, cost);
    let at = choose|x: int| 0 <= x < labels.len() && labels[x] == row.project;
    lemma_members(labels, row.project);
    assert(members(labels, row.project).contains(at as usize));
}

/// The project of an event is named, or ten others are, none of which cost less than its events
/// together.
pub proof fn lemma_project_is_named_or_crowded_out(events: Seq<EventView>, i: int)
    requires
        events.len() <= usize::MAX,
        0 <= i < events.len(),
    ensures
        ({
            let project = if events[i].project matches Some(n) && n.len() > 0 {
                events[i].project->0
            } else {
                "unknown"@
            };
            let cost = events.filter(
                |e: EventView|
                    if e.project matches Some(n) && n.len() > 0 {
                        e.project->0 == project
                    } else {
                        project == "unknown"@
                    },
            ).fold_left(
                Double { bits: 0 },
                |d: Double, e: EventView|
                    plus(
                        d,
                        if e.source_cost_usd matches Some(c) && c.is_finite() && c.amount() >= 0 {
                            e.source_cost_usd->0
                        } else {
                            Double { bits: 0 }
                        },
                    ),
            );
            ||| exists|k: int|
                0 <= k < costliest(events).len() && (#[trigger] costliest(events)[k]).project
                    == project
            ||| costliest(events).len() == 10 && forall|k: int|
                0 <= k < 10 ==> !cost.above((#[trigger] costliest(events)[k]).known_cost_usd)
        }),
{
    let labels = project_labels(events);
    let rows = project_rows(events);
    let keys = turned(cost_ranks(rows));
    let s = sorted_listing(groups(labels));
    let o = order_of(keys);
    let all = costliest(events);
    lemma_groups_share_out(labels);
    lemma_has_order(keys);
    let l = labels[i];
    assert(groups(labels).contains_key(l));
    assert(dict(s).contains_key(l));
    let x = slot(s, l);
    assert(s[x].0 == l);
    lemma_dict_at(s, x);
    assert(rows[x] == project_row(events, l, members(labels, l)));
    let p = |e: EventView|
        if e.project matches Some(n) && n.len() > 0 {
            e.project->0 == l
        } else {
            l == "unknown"@
        };
    let id = |e: EventView| e;
    assert(events.map_values(id) =~= events);
    let sum = |n: int, e: EventView| n + e.tokens.total;
    let add = |d: Double, e: EventView|
        plus(
            d,
            if e.source_cost_usd matches Some(c) && c.is_finite() && c.amount() >= 0 {
                e.source_cost_usd->0
            } else {
                Double { bits: 0 }
            },
        );
    lemma_own_events(events, id, labels, l, p, sum, add);
    let cost = events.filter(p).fold_left(Double { bits: 0 }, add);
    assert(rows[x].known_cost_usd == cost);
    assert(is_named(o, x));
    let at = choose|k: int| 0 <= k < o.len() && #[trigger] o[k] == x;
    if at < all.len() {
        assert(all[at].project == l);
    } else {
        assert forall|k: int| 0 <= k < 10 implies !cost.above(
            (#[trigger] all[k]).known_cost_usd,
        ) by {
            assert(goes_before(keys, o[k] as int, o[at] as int));
            lemma_rank_orders(all[k].known_cost_usd, cost);
        }
    }
}

/// No project is named twice.
pub proof fn lemma_no_project_is_named_twice(events: Seq<EventView>, a: int, b: int)
    requires
        events.len() <= usize::MAX,
        0 <= a < b < costliest(events).len(),
    ensures
        costliest(events)[a].project != costliest(events)[b].project,
{
    let labels = project_labels(events);
    let keys = turned(cost_ranks(project_rows(events)));
    let s = sorted_listing(groups(labels));
    let o = order_of(keys);
    lemma_groups_share_out(labels);
    lemma_has_order(keys);
    let x = o[a] as int;
    let y = o[b] as int;
    assert(goes_before(keys, x, y));
    lemma_lex_irreflexive(s[x].0);
    if x < y {
        assert(lex_lt(s[x].0, s[y].0));
    } else {
        assert(lex_lt(s[y].0, s[x].0));
    }
}

// ---------------------------------------------------------------- the digest
/// The digest hands on what the scan itself counted, and adds up the cached and all prompt tokens
/// over the events, each as far as it can be counted; the hit rate is the first over the second.
pub proof fn lemma_digest_adds_up(rep: UsageReport)
    ensures
        ({
            let d = digest_of(rep);
            let events = views(rep.details@);
            let read = events.fold_left(0int, |n: int, e: EventView| n + e.tokens.cache_read);
            let prompt = events.fold_left(
                0int,
                |n: int, e: EventView|
                    n + e.tokens.uncached_input + e.tokens.cache_read + e.tokens.cache_write,
            );
            &&& d.cache_read_tokens == if read <= u64::MAX {
                read
            } else {
                u64::MAX as int
            }
            &&& d.input_tokens == if prompt <= u64::MAX {
                prompt
            } else {
                u64::MAX as int
            }
            &&& prompt == 0 ==> d.cache_hit_rate is None
            &&& prompt > 0 ==> d.cache_hit_rate == Some(
                number(ratio_units(d.cache_read_tokens, d.input_tokens)),
            )
            &&& d.by_model == models_of(events)
            &&& d.events == rep.events
            &&& d.total_tokens == rep.total_tokens
            &&& d.known_cost_usd == rep.known_cost_usd
            &&& d.missed_tokens == rep.cache_waste.missed_tokens
            &&& d.missed_cost_usd == rep.cache_waste.missed_cost_usd
            &&& d.miss_count == rep.cache_waste.miss_count
            &&& d.idle_misses == rep.cache_waste.idle_misses
            &&& d.model_switch_misses == rep.cache_waste.model_switch_misses
            &&& d.by_source.len() == rep.by_source@.len()
            &&& forall|i: int|
                0 <= i < rep.by_source@.len() ==> (#[trigger] d.by_source[i]).source
                    == rep.by_source@[i].source@ && d.by_source[i].events
                    == rep.by_source@[i].events && d.by_source[i].total_tokens
                    == rep.by_source@[i].total_tokens && d.by_source[i].known_cost_usd
                    == rep.by_source@[i].known_cost_usd && d.by_source[i].missed_tokens
                    == rep.by_source@[i].missed_tokens
        }),
{
    lemma_prompt_folds(views(rep.details@));
}

proof fn lemma_prompt_folds(events: Seq<EventView>)
    ensures
        read_total(events) == events.fold_left(
            0int,
            |n: int, e: EventView| n + e.tokens.cache_read,
        ),
        prompt_total(events) == events.fold_left(
            0int,
            |n: int, e: EventView|
                n + e.tokens.uncached_input + e.tokens.cache_read + e.tokens.cache_write,
        ),
    decreases events.len(),
{
    if events.len() > 0 {
        lemma_prompt_folds(events.drop_last());
    }
}

/// One more event raises the cached and all prompt tokens of the digest by its own, while they can
/// be counted.
pub proof fn lemma_event_adds_to_the_digest(less: UsageReport, more: UsageReport, e: EventView)
    requires
        views(more.details@) == views(less.details@).push(e),
    ensures
        ({
            let read = digest_of(less).cache_read_tokens + e.tokens.cache_read;
            let prompt = digest_of(less).input_tokens + e.tokens.uncached_input
                + e.tokens.cache_read + e.tokens.cache_write;
            &&& read <= u64::MAX ==> digest_of(more).cache_read_tokens == read
            &&& read > u64::MAX ==> digest_of(more).cache_read_tokens == u64::MAX
            &&& prompt <= u64::MAX ==> digest_of(more).input_tokens == prompt
            &&& prompt > u64::MAX ==> digest_of(more).input_tokens == u64::MAX
        }),
{
    assert(views(less.details@).push(e).drop_last() =~= views(less.details@));
}

// ---------------------------------------------------------------- hours
proof fn lemma_hour_folds(events: Seq<EventView>, stamps: Seq<LocalStamp>, day: int, hour: int)
    requires
        events.len() == stamps.len(),
    ensures
        hour_total(events, stamps, day, hour) == events.zip_with(stamps).filter(
            |e: (EventView, LocalStamp)| e.1.number == day && e.1.hour == hour,
        ).fold_left(0int, |n: int, e: (EventView, LocalStamp)| n + e.0.tokens.total),
    decreases events.len(),
{
    reveal(Seq::filter);
    let p = |e: (EventView, LocalStamp)| e.1.number == day && e.1.hour == hour;
    let sum = |n: int, e: (EventView, LocalStamp)| n + e.0.tokens.total;
    if events.len() > 0 {
        let less = events.drop_last();
        let fewer = stamps.drop_last();
        lemma_hour_folds(less, fewer, day, hour);
        lemma_hours_look_back(less, stamps, fewer, day, hour);
        let both = events.zip_with(stamps);
        assert(both.drop_last() =~= less.zip_with(fewer));
        let own = both.drop_last().filter(p);
        if p(both.last()) {
            assert(own.push(both.last()).drop_last() =~= own);
        }
    }
}

proof fn lemma_hours_look_back(
    events: Seq<EventView>,
    a: Seq<LocalStamp>,
    b: Seq<LocalStamp>,
    day: int,
    hour: int,
)
    requires
        events.len() <= a.len(),
        events.len() <= b.len(),
        forall|i: int| 0 <= i < events.len() ==> #[trigger] a[i] == b[i],
    ensures
        hour_total(events, a, day, hour) == hour_total(events, b, day, hour),
    decreases events.len(),
{
    if events.len() > 0 {
        lemma_hours_look_back(events.drop_last(), a, b, day, hour);
        assert(a[events.len() - 1] == b[events.len() - 1]);
    }
}

/// A cell of the heatmap is the sum, as far as it can be counted, of the tokens of the events in
/// that hour of that local day; the last of the seven rows is today, and without events there are
/// no rows.
pub proof fn lemma_cell_sums_its_hour(
    events: Seq<EventView>,
    stamps: Seq<LocalStamp>,
    today: int,
    row: int,
    hour: int,
)
    requires
        events.len() == stamps.len(),
        0 <= row < 7,
        0 <= hour < 24,
    ensures
        events.len() == 0 ==> heat_of(events, stamps, today).len() == 0,
        events.len() > 0 ==> ({
            let grid = heat_of(events, stamps, today);
            let tokens = events.zip_with(stamps).filter(
                |e: (EventView, LocalStamp)| e.1.number + 6 - row == today && e.1.hour == hour,
            ).fold_left(0int, |n: int, e: (EventView, LocalStamp)| n + e.0.tokens.total);
            &&& grid.len() == 7
            &&& grid[row].len() == 24
            &&& grid[row][hour] == if tokens <= u64::MAX {
                tokens
            } else {
                u64::MAX as int
            }
        }),
{
    let p = |e: (EventView, LocalStamp)| e.1.number + 6 - row == today && e.1.hour == hour;
    let q = |e: (EventView, LocalStamp)| e.1.number == today - 6 + row && e.1.hour == hour;
    assert(p =~= q);
    lemma_hour_folds(events, stamps, today - 6 + row, hour);
}

// ---------------------------------------------------------------- what was spent
proof fn lemma_positions_are_filter<T>(
    s: Seq<T>,
    n: nat,
    at: spec_fn(int) -> bool,
    p: spec_fn(T) -> bool,
)
    requires
        n <= s.len() <= usize::MAX,
        forall|i: int| 0 <= i < s.len() ==> #[trigger] at(i) == p(s[i]),
    ensures
        positions(n, at).map_values(|i: usize| s[i as int]) == s.take(n as int).filter(p),
    decreases n,
{
    reveal(Seq::filter);
    if n == 0 {
        assert(positions(n, at).map_values(|i: usize| s[i as int]) =~= s.take(0).filter(p));
    } else {
        let less = (n - 1) as nat;
        lemma_positions_are_filter(s, less, at, p);
        assert(s.take(n as int).drop_last() =~= s.take(less as int));
        let before = positions(less, at);
        assert(at(n - 1) == p(s[n - 1]));
        if at(n - 1) {
            assert(positions(n, at).map_values(|i: usize| s[i as int]) =~= before.map_values(
                |i: usize| s[i as int],
            ).push(s[n - 1]));
        }
    }
}

proof fn lemma_spent_folds<T>(
    s: Seq<T>,
    event: spec_fn(T) -> EventView,
    at: spec_fn(int) -> bool,
    p: spec_fn(T) -> bool,
    cost: spec_fn(Double, T) -> Double,
)
    requires
        s.len() <= usize::MAX,
        forall|i: int| 0 <= i < s.len() ==> #[trigger] at(i) == p(s[i]),
        forall|d: Double, x: T| #[trigger] cost(d, x) == plus(d, known_cost(event(x))),
    ensures
        spent(s.map_values(event), positions(s.len(), at)) == s.filter(p).fold_left(
            Double { bits: 0x8000_0000_0000_0000 },
            cost,
        ),
{
    let n = s.len();
    let events = s.map_values(event);
    let own = s.filter(p);
    let all = positions(n, at);
    lemma_positions_are_filter(s, n, at, p);
    lemma_positions_in_range(n, at);
    assert(s.take(n as int) =~= s);
    assert(all.map_values(|i: usize| s[i as int]) == own);
    let g = |x: T| known_cost(event(x));
    assert forall|k: int| 0 <= k < all.len() implies own[k] == s[#[trigger] all[k] as int] by {
        assert(all.map_values(|i: usize| s[i as int])[k] == s[all[k] as int]);
    }
    assert(all.map_values(|i: usize| s[i as int]).len() == all.len());
    assert(costs_at(events, all) =~= own.map_values(g));
    lemma_summed_is_fold(Double { bits: 0x8000_0000_0000_0000 }, own, g, cost);
}

/// The burn rate is the sum of the costs of the events of the hour before now, in the order of the
/// events.
pub proof fn lemma_burn_sums_the_last_hour(events: Seq<EventView>, now_ms: u64)
    requires
        events.len() <= usize::MAX,
    ensures
        spent(events, recent(events, now_ms)) == events.filter(
            |e: EventView| now_ms <= e.timestamp_ms + 3_600_000,
        ).fold_left(
            Double { bits: 0x8000_0000_0000_0000 },
            |d: Double, e: EventView|
                plus(
                    d,
                    if e.source_cost_usd matches Some(c) && c.is_finite() && c.amount() >= 0 {
                        e.source_cost_usd->0
                    } else {
                        Double { bits: 0 }
                    },
                ),
        ),
{
    let id = |e: EventView| e;
    assert(events.map_values(id) =~= events);
    let at = |i: int| events[i].timestamp_ms >= monus(now_ms, 3_600_000);
    let p = |e: EventView| now_ms <= e.timestamp_ms + 3_600_000;
    let cost = |d: Double, e: EventView|
        plus(
            d,
            if e.source_cost_usd matches Some(c) && c.is_finite() && c.amount() >= 0 {
                e.source_cost_usd->0
            } else {
                Double { bits: 0 }
            },
        );
    lemma_spent_folds(events, id, at, p, cost);
}

/// The cost of a day is the sum of the costs of the events of that local day, in the order of the
/// events.
pub proof fn lemma_day_cost_sums_the_day(
    events: Seq<EventView>,
    stamps: Seq<LocalStamp>,
    day: Seq<char>,
)
    requires
        events.len() == stamps.len() <= usize::MAX,
    ensures
        spent(events, on_day(stamps, day)) == events.zip_with(stamps).filter(
            |e: (EventView, LocalStamp)| e.1.day@ == day,
        ).fold_left(
            Double { bits: 0x8000_0000_0000_0000 },
            |d: Double, e: (EventView, LocalStamp)|
                plus(
                    d,
                    if e.0.source_cost_usd matches Some(c) && c.is_finite() && c.amount() >= 0 {
                        e.0.source_cost_usd->0
                    } else {
                        Double { bits: 0 }
                    },
                ),
        ),
{
    let both = events.zip_with(stamps);
    let event = |e: (EventView, LocalStamp)| e.0;
    assert(both.map_values(event) =~= events);
    let at = is_on(stamps, day);
    let p = |e: (EventView, LocalStamp)| e.1.day@ == day;
    let cost = |d: Double, e: (EventView, LocalStamp)|
        plus(
            d,
            if e.0.source_cost_usd matches Some(c) && c.is_finite() && c.amount() >= 0 {
                e.0.source_cost_usd->0
            } else {
                Double { bits: 0 }
            },
        );
    lemma_spent_folds(both, event, at, p, cost);
}

/// The reasoning and the output tokens of all events are the sums of theirs.
pub proof fn lemma_reasoning_and_output_add_up(events: Seq<EventView>)
    ensures
        total(reasoning_counts(events)) == events.fold_left(
            0int,
            |n: int, e: EventView| n + e.tokens.reasoning,
        ),
        total(output_counts(events)) == events.fold_left(
            0int,
            |n: int, e: EventView| n + e.tokens.output,
        ),
{
    let f = |e: EventView| e.tokens.reasoning;
    let g = |e: EventView| e.tokens.output;
    assert(reasoning_counts(events) =~= events.map_values(f));
    assert(output_counts(events) =~= events.map_values(g));
    lemma_total_is_fold(events, f, |n: int, e: EventView| n + e.tokens.reasoning);
    lemma_total_is_fold(events, g, |n: int, e: EventView| n + e.tokens.output);
}

// ---------------------------------------------------------------- bloating sessions
spec fn comes_before(events: Seq<EventView>, i: int, j: int) -> bool {
    events[i].timestamp_ms < events[j].timestamp_ms || events[i].timestamp_ms
        == events[j].timestamp_ms && i < j
}

spec fn is_of(events: Seq<EventView>, id: Seq<char>, i: int) -> bool {
    0 <= i < events.len() && events[i].session_id == Some(id)
}

spec fn run_of(events: Seq<EventView>, id: Seq<char>) -> Seq<usize> {
    let at = in_sessions(events);
    by_time(events, arranged(at, members(session_ids(events, at), id)))
}

proof fn lemma_positions_ascend(n: nat, p: spec_fn(int) -> bool)
    requires
        n <= usize::MAX,
    ensures
        forall|a: int, b: int|
            0 <= a < b < positions(n, p).len() ==> #[trigger] positions(n, p)[a]
                < #[trigger] positions(n, p)[b],
        forall|i: int| 0 <= i < n && p(i) ==> #[trigger] positions(n, p).contains(i as usize),
    decreases n,
{
    lemma_positions_in_range(n, p);
    if n > 0 {
        let less = (n - 1) as nat;
        lemma_positions_ascend(less, p);
        lemma_positions_in_range(less, p);
        let before = positions(less, p);
        let all = positions(n, p);
        assert forall|i: int| 0 <= i < n && p(i) implies #[trigger] all.contains(i as usize) by {
            if i < less {
                assert(before.contains(i as usize));
                let k = choose|k: int| 0 <= k < before.len() && before[k] == i as usize;
                assert(all[k] == i as usize);
            } else {
                assert(all[before.len() as int] == i as usize);
            }
        }
    }
}

proof fn lemma_run(events: Seq<EventView>, id: Seq<char>)
    requires
        events.len() <= usize::MAX,
        id.len() > 0,
    ensures
        forall|a: int|
            0 <= a < run_of(events, id).len() ==> is_of(
                events,
                id,
                #[trigger] run_of(events, id)[a] as int,
            ),
        forall|a: int, b: int|
            0 <= a < b < run_of(events, id).len() ==> comes_before(
                events,
                #[trigger] run_of(events, id)[a] as int,
                #[trigger] run_of(events, id)[b] as int,
            ),
        forall|i: int|
            #[trigger] is_of(events, id, i) ==> run_of(events, id).contains(i as usize),
{
    let n = events.len();
    let p = |i: int| has_session(events[i]);
    let at = in_sessions(events);
    lemma_positions_in_range(n, p);
    lemma_positions_ascend(n, p);
    let ids = session_ids(events, at);
    let own = members(ids, id);
    lemma_members(ids, id);
    let mine = arranged(at, own);
    let times = times_at(events, mine);
    lemma_has_order(times);
    let o = order_of(times);
    let run = run_of(events, id);
    assert(run =~= arranged(mine, o));
    assert forall|k: int| 0 <= k < mine.len() implies is_of(
        events,
        id,
        #[trigger] mine[k] as int,
    ) by {
        assert(mine[k] == at[own[k] as int]);
        assert(ids[own[k] as int] == id);
        assert(p(at[own[k] as int] as int));
    }
    assert forall|a: int| 0 <= a < run.len() implies is_of(
        events,
        id,
        #[trigger] run[a] as int,
    ) by {
        assert(run[a] == mine[o[a] as int]);
    }
    assert forall|a: int, b: int| 0 <= a < b < run.len() implies comes_before(
        events,
        #[trigger] run[a] as int,
        #[trigger] run[b] as int,
    ) by {
        let x = o[a] as int;
        let y = o[b] as int;
        assert(goes_before(times, x, y));
        assert(run[a] == mine[x] && run[b] == mine[y]);
        if times[x] == times[y] {
            assert(own[x] < own[y]);
            assert(at[own[x] as int] < at[own[y] as int]);
        }
    }
    assert forall|i: int| #[trigger] is_of(events, id, i) implies run.contains(i as usize) by {
        assert(p(i));
        assert(at.contains(i as usize));
        let x = choose|x: int| 0 <= x < at.len() && at[x] == i as usize;
        assert(ids[x] == id);
        assert(own.contains(x as usize));
        let y = choose|y: int| 0 <= y < own.len() && own[y] == x as usize;
        assert(mine[y] == i as usize);
        assert(is_named(o, y));
        let z = choose|z: int| 0 <= z < o.len() && #[trigger] o[z] == y;
        assert(run[z] == i as usize);
    }
}

proof fn lemma_bloat_source(
    events: Seq<EventView>,
    at: Seq<usize>,
    sessions: Seq<(Seq<char>, Seq<usize>)>,
    threshold: u64,
    k: int,
) -> (m: int)
    requires
        0 <= k < bloats_in(events, at, sessions, threshold).len(),
    ensures
        0 <= m < sessions.len(),
        bloat_of(
            events,
            sessions[m].0,
            by_time(events, arranged(at, sessions[m].1)),
            threshold,
        ) == Some(bloats_in(events, at, sessions, threshold)[k]),
    decreases sessions.len(),
{
    let before = bloats_in(events, at, sessions.drop_last(), threshold);
    if k < before.len() {
        lemma_bloat_source(events, at, sessions.drop_last(), threshold, k)
    } else {
        sessions.len() - 1
    }
}

proof fn lemma_bloat_found(
    events: Seq<EventView>,
    at: Seq<usize>,
    sessions: Seq<(Seq<char>, Seq<usize>)>,
    threshold: u64,
    m: int,
) -> (k: int)
    requires
        0 <= m < sessions.len(),
        bloat_of(
            events,
            sessions[m].0,
            by_time(events, arranged(at, sessions[m].1)),
            threshold,
        ) is Some,
    ensures
        0 <= k < bloats_in(events, at, sessions, threshold).len(),
        bloat_of(
            events,
            sessions[m].0,
            by_time(events, arranged(at, sessions[m].1)),
            threshold,
        ) == Some(bloats_in(events, at, sessions, threshold)[k]),
    decreases sessions.len(),
{
    let before = bloats_in(events, at, sessions.drop_last(), threshold);
    if m < sessions.len() - 1 {
        lemma_bloat_found(events, at, sessions.drop_last(), threshold, m)
    } else {
        before.len() as int
    }
}

proof fn lemma_bloats_fit(
    events: Seq<EventView>,
    at: Seq<usize>,
    sessions: Seq<(Seq<char>, Seq<usize>)>,
    threshold: u64,
)
    ensures
        bloats_in(events, at, sessions, threshold).len() <= sessions.len(),
    decreases sessions.len(),
{
    if sessions.len() > 0 {
        lemma_bloats_fit(events, at, sessions.drop_last(), threshold);
    }
}

proof fn lemma_bloat_setting(events: Seq<EventView>, threshold: u64)
    requires
        events.len() <= usize::MAX,
    ensures
        ({
            let at = in_sessions(events);
            let s = sorted_listing(groups(session_ids(events, at)));
            let rows = all_bloats(events, threshold);
            &&& is_sorted(s)
            &&& dict(s) == groups(session_ids(events, at))
            &&& rows == bloats_in(events, at, s, threshold)
            &&& is_order(turned(final_sizes(rows)), order_of(turned(final_sizes(rows))))
            &&& forall|m: int|
                0 <= m < s.len() ==> (#[trigger] s[m]).0.len() > 0 && by_time(
                    events,
                    arranged(at, s[m].1),
                ) == run_of(events, s[m].0)
        }),
{
    let at = in_sessions(events);
    let ids = session_ids(events, at);
    let s = sorted_listing(groups(ids));
    let rows = all_bloats(events, threshold);
    lemma_positions_in_range(events.len(), |i: int| has_session(events[i]));
    lemma_groups_share_out(ids);
    lemma_bloats_fit(events, at, s, threshold);
    lemma_has_order(turned(final_sizes(rows)));
    assert forall|m: int| 0 <= m < s.len() implies (#[trigger] s[m]).0.len() > 0 && by_time(
        events,
        arranged(at, s[m].1),
    ) == run_of(events, s[m].0) by {
        lemma_dict_at(s, m);
        assert(groups(ids).contains_key(s[m].0));
        let x = choose|x: int| 0 <= x < ids.len() && ids[x] == s[m].0;
        assert(ids[x] == events[at[x] as int].session_id->0);
        assert(has_session(events[at[x] as int]));
    }
}

/// Of a session that is named, every later event has a larger uncached prompt than every earlier
/// one; there are at least three; and the last of them is what is told of it, at or above the
/// threshold.
pub proof fn lemma_named_sessions_keep_growing(events: Seq<EventView>, threshold: u64, k: int)
    requires
        events.len() <= usize::MAX,
        0 <= k < worst_bloats(events, threshold).len(),
    ensures
        ({
            let b = worst_bloats(events, threshold)[k];
            &&& b.session_id.len() > 0
            &&& forall|i: int, j: int|
                0 <= i < events.len() && 0 <= j < events.len() && (
                #[trigger] events[i]).session_id == Some(b.session_id) && (
                #[trigger] events[j]).session_id == Some(b.session_id) && (events[i].timestamp_ms
                    < events[j].timestamp_ms || events[i].timestamp_ms == events[j].timestamp_ms
                    && i < j) ==> events[i].tokens.uncached_input < events[j].tokens.uncached_input
            &&& exists|x: int, y: int, z: int|
                0 <= x < events.len() && 0 <= y < events.len() && 0 <= z < events.len() && x != y
                    && y != z && x != z && (#[trigger] events[x]).session_id == Some(b.session_id)
                    && (#[trigger] events[y]).session_id == Some(b.session_id) && (
                #[trigger] events[z]).session_id == Some(b.session_id)
            &&& exists|last: int|
                {
                    &&& 0 <= last < events.len()
                    &&& (#[trigger] events[last]).session_id == Some(b.session_id)
                    &&& forall|i: int|
                        0 <= i < events.len() && (#[trigger] events[i]).session_id == Some(
                            b.session_id,
                        ) && i != last ==> events[i].timestamp_ms < events[last].timestamp_ms
                            || events[i].timestamp_ms == events[last].timestamp_ms && i < last
                    &&& b.last_uncached_input == events[last].tokens.uncached_input
                    &&& b.last_uncached_input >= threshold
                    &&& b.project == (match events[last].project {
                        Some(n) => if n.len() > 0 {
                            n
                        } else {
                            "unknown"@
                        },
                        None => "unknown"@,
                    })
                }
        }),
{
    let at = in_sessions(events);
    let s = sorted_listing(groups(session_ids(events, at)));
    let rows = all_bloats(events, threshold);
    lemma_bloat_setting(events, threshold);
    let b = worst_bloats(events, threshold)[k];
    let r = order_of(turned(final_sizes(rows)))[k] as int;
    assert(b == rows[r]);
    let m = lemma_bloat_source(events, at, s, threshold, r);
    let id = s[m].0;
    let run = run_of(events, id);
    assert(bloat_of(events, id, run, threshold) == Some(b));
    lemma_run(events, id);
    assert(b.session_id == id);
    assert forall|i: int, j: int|
        0 <= i < events.len() && 0 <= j < events.len() && (#[trigger] events[i]).session_id == Some(
            id,
        ) && (#[trigger] events[j]).session_id == Some(id) && comes_before(
            events,
            i,
            j,
        ) implies events[i].tokens.uncached_input < events[j].tokens.uncached_input by {
        assert(is_of(events, id, i) && is_of(events, id, j));
        assert(run.contains(i as usize) && run.contains(j as usize));
        let x = choose|x: int| 0 <= x < run.len() && run[x] == i as usize;
        let y = choose|y: int| 0 <= y < run.len() && run[y] == j as usize;
        if y < x {
            assert(comes_before(events, run[y] as int, run[x] as int));
        }
        assert(x < y);
        assert(prompt_at(events, run, x) < prompt_at(events, run, y));
    }
    let n = run.len();
    assert(comes_before(events, run[0] as int, run[1] as int));
    assert(comes_before(events, run[0] as int, run[2] as int));
    assert(comes_before(events, run[1] as int, run[2] as int));
    assert(is_of(events, id, run[0] as int) && is_of(events, id, run[1] as int) && is_of(
        events,
        id,
        run[2] as int,
    ));
    let (e0, e1, e2) = (run[0] as int, run[1] as int, run[2] as int);
    assert(events[e0].session_id == Some(id) && events[e1].session_id == Some(id)
        && events[e2].session_id == Some(id));
    let last = run[n - 1] as int;
    assert(is_of(events, id, last));
    assert(events[last].session_id == Some(id));
    assert forall|i: int|
        0 <= i < events.len() && (#[trigger] events[i]).session_id == Some(id) && i
            != last implies events[i].timestamp_ms < events[last].timestamp_ms
        || events[i].timestamp_ms == events[last].timestamp_ms && i < last by {
        assert(is_of(events, id, i));
        assert(run.contains(i as usize));
        let x = choose|x: int| 0 <= x < run.len() && run[x] == i as usize;
        assert(comes_before(events, run[x] as int, run[n - 1] as int));
    }
}

/// A session of at least three events, every later one with a larger uncached prompt than every
/// earlier one, of which one reaches the threshold, is named, unless five sessions are that ended
/// no smaller.
pub proof fn lemma_growing_sessions_are_named(
    events: Seq<EventView>,
    threshold: u64,
    id: Seq<char>,
    x: int,
    y: int,
    z: int,
)
    requires
        events.len() <= usize::MAX,
        id.len() > 0,
        x != y,
        y != z,
        x != z,
        0 <= x < events.len() && events[x].session_id == Some(id),
        0 <= y < events.len() && events[y].session_id == Some(id),
        0 <= z < events.len() && events[z].session_id == Some(id),
        events[x].tokens.uncached_input >= threshold,
        forall|i: int, j: int|
            0 <= i < events.len() && 0 <= j < events.len() && (#[trigger] events[i]).session_id
                == Some(id) && (#[trigger] events[j]).session_id == Some(id) && (
            events[i].timestamp_ms < events[j].timestamp_ms || events[i].timestamp_ms
                == events[j].timestamp_ms && i < j) ==> events[i].tokens.uncached_input
                < events[j].tokens.uncached_input,
    ensures
        (exists|k: int|
            0 <= k < worst_bloats(events, threshold).len() && (#[trigger] worst_bloats(
                events,
                threshold,
            )[k]).session_id == id) || (worst_bloats(events, threshold).len() == 5 && forall|
            k: int,
            i: int,
        |
            #![trigger worst_bloats(events, threshold)[k], events[i]]
            0 <= k < 5 && 0 <= i < events.len() && events[i].session_id == Some(id) ==> worst_bloats(
                events,
                threshold,
            )[k].last_uncached_input >= events[i].tokens.uncached_input),
{
    let at = in_sessions(events);
    let ids = session_ids(events, at);
    let s = sorted_listing(groups(ids));
    let rows = all_bloats(events, threshold);
    let keys = turned(final_sizes(rows));
    let o = order_of(keys);
    let worst = worst_bloats(events, threshold);
    lemma_bloat_setting(events, threshold);
    lemma_run(events, id);
    let run = run_of(events, id);
    let n = run.len();
    let p = |i: int| has_session(events[i]);
    lemma_positions_ascend(events.len(), p);
    assert(is_of(events, id, x) && is_of(events, id, y) && is_of(events, id, z));
    assert(p(x));
    assert(at.contains(x as usize));
    let q = choose|q: int| 0 <= q < at.len() && at[q] == x as usize;
    assert(ids[q] == id);
    assert(groups(ids).contains_key(id));
    assert(dict(s).contains_key(id));
    let m = slot(s, id);
    assert(s[m].0 == id);
    assert(run.contains(x as usize) && run.contains(y as usize) && run.contains(z as usize));
    let a = choose|a: int| 0 <= a < n && run[a] == x as usize;
    let b = choose|b: int| 0 <= b < n && run[b] == y as usize;
    let c = choose|c: int| 0 <= c < n && run[c] == z as usize;
    assert(n >= 3);
    assert forall|e: int, f: int| 0 <= e < f < n implies #[trigger] prompt_at(events, run, e)
        < #[trigger] prompt_at(events, run, f) by {
        let (i, j) = (run[e] as int, run[f] as int);
        assert(is_of(events, id, i) && is_of(events, id, j));
        assert(comes_before(events, i, j));
        assert(events[i].session_id == Some(id) && events[j].session_id == Some(id));
    }
    let last = run.last() as int;
    assert forall|i: int| #[trigger] is_of(
        events,
        id,
        i,
    ) implies events[i].tokens.uncached_input <= events[last].tokens.uncached_input by {
        assert(run.contains(i as usize));
        let e = choose|e: int| 0 <= e < n && run[e] == i as usize;
        if e < n - 1 {
            assert(prompt_at(events, run, e) < prompt_at(events, run, n - 1));
        }
    }
    assert(keeps_growing(events, run));
    let r = lemma_bloat_found(events, at, s, threshold, m);
    assert(rows[r].session_id == id);
    assert(rows[r].last_uncached_input == events[last].tokens.uncached_input);
    assert(is_named(o, r));
    let k = choose|k: int| 0 <= k < o.len() && #[trigger] o[k] == r;
    if k < worst.len() {
        assert(worst[k].session_id == id);
    } else {
        assert forall|w: int, i: int|
            #![trigger worst[w], events[i]]
            0 <= w < 5 && 0 <= i < events.len() && events[i].session_id == Some(
                id,
            ) implies worst[w].last_uncached_input >= events[i].tokens.uncached_input by {
            assert(is_of(events, id, i));
            assert(goes_before(keys, o[w] as int, o[k] as int));
        }
    }
}

} // verus!
