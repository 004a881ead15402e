//! Promises of the report: what a project's row sums up, what a report is put together from, and
//! when a snapshot will do.

use vstd::prelude::*;
use vstd::string::*;

use crate::clock::LocalStamp;
use crate::double::{number, ratio_units};
use crate::group::{groups, lemma_group_is_filter, lemma_groups_share_out, lemma_members, members};
use crate::order::{
    goes_before, is_named, lemma_has_order, lemma_total_is_fold, order_of, picked, total, turned,
};
use crate::projects::{
    all_countable, countable, ends, largest, last_times, message_counts, project_names,
    project_of, projects_by_name, projects_of, sources_at, tally, wall_times, SessionView,
};
use crate::render::snapshot_serves;
use crate::report::{failed_view, prior_start, report_of, Filters, Scan};
use crate::text::{lemma_lex_irreflexive, lex_lt, views};
use crate::textmap::{dict, lemma_dict_at, slot, sorted_listing};
use crate::usage::{
    costliest, days_of, digest_of, heat_of, on_day, output_counts, reasoning_counts, recent,
    series_of, spent, worst_bloats, EventView,
};

verus! {

// ---------------------------------------------------------------- projects
proof fn lemma_largest(s: Seq<u64>)
    ensures
        forall|i: int| 0 <= i < s.len() ==> #[trigger] s[i] <= largest(s),
        s.len() > 0 ==> exists|i: int| 0 <= i < s.len() && #[trigger] s[i] == largest(s),
    decreases s.len(),
{
    if s.len() > 0 {
        let t = s.drop_last();
        lemma_largest(t);
        assert forall|i: int| 0 <= i < s.len() implies #[trigger] s[i] <= largest(s) by {
            if i < t.len() {
                assert(t[i] == s[i]);
                assert(t[i] <= largest(t));
            }
        }
        assert(s[s.len() - 1] == s.last());
        if s.last() <= largest(t) && t.len() > 0 {
            let i = choose|i: int| 0 <= i < t.len() && #[trigger] t[i] == largest(t);
            assert(s[i] == largest(s));
        }
    }
}

/// A label is told with how often it occurs, and only where it does.
pub proof fn lemma_tally_counts(labels: Seq<Seq<char>>, l: Seq<char>)
    requires
        labels.len() <= usize::MAX,
    ensures
        tally(labels).contains_key(l) <==> labels.contains(l),
        labels.contains(l) ==> tally(labels)[l] == labels.filter(|x: Seq<char>| x == l).len(),
{
    let p = |x: Seq<char>| x == l;
    lemma_tally(labels, l, p);
    assert(p =~= |x: Seq<char>| x == l);
}

proof fn lemma_tally(labels: Seq<Seq<char>>, l: Seq<char>, p: spec_fn(Seq<char>) -> bool)
    requires
        labels.len() <= usize::MAX,
        forall|x: Seq<char>| #[trigger] p(x) == (x == l),
    ensures
        tally(labels).contains_key(l) <==> labels.contains(l),
        labels.contains(l) ==> tally(labels)[l] == labels.filter(p).len(),
{
    lemma_group_is_filter(labels, labels, l, p);
    lemma_members(labels, l);
    let at = members(labels, l);
    assert(at.map_values(|i: usize| labels[i as int]).len() == at.len());
}

/// The row of a project sums up its sessions: how many they are, their messages, their wall time
/// from first to last message, the latest of their ends, and how many come from each source. A
/// session is of the project of its repository, and of its own where it has no repository.
pub proof fn lemma_project_sums_its_sessions(rows: Seq<SessionView>, k: int)
    requires
        rows.len() <= usize::MAX,
        all_countable(rows),
        0 <= k < projects_of(rows).len(),
    ensures
        ({
            let p = projects_of(rows)[k];
            let own = rows.filter(
                |r: SessionView|
                    if r.repo_project matches Some(n) && n.len() > 0 {
                        r.repo_project->0 == p.project
                    } else {
                        r.project == p.project
                    },
            );
            &&& own.len() > 0
            &&& p.sessions == own.len()
            &&& p.messages == own.fold_left(0int, |n: int, r: SessionView| n + r.message_count)
            &&& p.active_ms == own.fold_left(
                0int,
                |n: int, r: SessionView|
                    n + if r.last_at >= r.started_at {
                        r.last_at - r.started_at
                    } else {
                        0
                    },
            )
            &&& forall|i: int| 0 <= i < own.len() ==> (#[trigger] own[i]).last_at <= p.last_at_ms
            &&& exists|i: int| 0 <= i < own.len() && (#[trigger] own[i]).last_at == p.last_at_ms
            &&& forall|source: Seq<char>|
                #![trigger p.sources.contains_key(source)]
                {
                    let from = own.filter(|r: SessionView| r.source == source);
                    &&& p.sources.contains_key(source) <==> from.len() > 0
                    &&& from.len() > 0 ==> p.sources[source] == from.len()
                }
        }),
{
    let labels = project_names(rows);
    let list = projects_by_name(rows);
    let keys = turned(last_times(list));
    let s = sorted_listing(groups(labels));
    lemma_groups_share_out(labels);
    lemma_has_order(keys);
    let i = order_of(keys)[k] as int;
    let p = projects_of(rows)[k];
    lemma_dict_at(s, i);
    let at = members(labels, s[i].0);
    assert(p == list[i]);
    assert(p == project_of(rows, s[i].0, s[i].1));
    assert(s[i].1 == at);
    assert(labels.contains(p.project));
    assert(countable(rows, members(labels, p.project)));
    let q = |r: SessionView|
        if r.repo_project matches Some(n) && n.len() > 0 {
            r.repo_project->0 == p.project
        } else {
            r.project == p.project
        };
    let own = rows.filter(q);
    lemma_group_is_filter(rows, labels, p.project, q);
    lemma_members(labels, p.project);
    assert(at.map_values(|x: usize| rows[x as int]) == own);
    assert(at.map_values(|x: usize| rows[x as int]).len() == at.len());
    assert forall|x: int| 0 <= x < at.len() implies own[x] == rows[#[trigger] at[x] as int] by {
        assert(at.map_values(|y: usize| rows[y as int])[x] == rows[at[x] as int]);
    }
    let j = choose|x: int| 0 <= x < labels.len() && labels[x] == p.project;
    assert(at.contains(j as usize));
    let f = |r: SessionView| r.message_count;
    let g = |r: SessionView|
        (if r.last_at >= r.started_at {
            r.last_at - r.started_at
        } else {
            0
        }) as u64;
    let e = |r: SessionView| r.last_at;
    assert(picked(message_counts(rows), at) =~= own.map_values(f));
    assert(picked(wall_times(rows), at) =~= own.map_values(g));
    assert(picked(ends(rows), at) =~= own.map_values(e));
    lemma_total_is_fold(own, f, |n: int, r: SessionView| n + r.message_count);
    lemma_total_is_fold(
        own,
        g,
        |n: int, r: SessionView|
            n + if r.last_at >= r.started_at {
                r.last_at - r.started_at
            } else {
                0
            },
    );
    let latest = own.map_values(e);
    lemma_largest(latest);
    assert forall|x: int| 0 <= x < own.len() implies (#[trigger] own[x]).last_at
        <= p.last_at_ms by {
        assert(latest[x] <= largest(latest));
    }
    let m = choose|x: int| 0 <= x < latest.len() && #[trigger] latest[x] == largest(latest);
    assert(own[m].last_at == p.last_at_ms);
    let names = sources_at(rows, at);
    let h = |r: SessionView| r.source;
    assert(names =~= own.map_values(h));
    assert forall|source: Seq<char>|
        #![trigger p.sources.contains_key(source)]
        {
            let from = own.filter(|r: SessionView| r.source == source);
            &&& p.sources.contains_key(source) <==> from.len() > 0
            &&& from.len() > 0 ==> p.sources[source] == from.len()
        } by {
        let from = |r: SessionView| r.source == source;
        let same = |x: Seq<char>| x == source;
        lemma_tally(names, source, same);
        crate::order::lemma_filter_of_values(own, h, same, from);
        lemma_some_are(names, source, same);
        assert(from =~= |r: SessionView| r.source == source);
    }
}

proof fn lemma_some_are(labels: Seq<Seq<char>>, l: Seq<char>, p: spec_fn(Seq<char>) -> bool)
    requires
        forall|x: Seq<char>| #[trigger] p(x) == (x == l),
    ensures
        labels.contains(l) <==> labels.filter(p).len() > 0,
    decreases labels.len(),
{
    reveal(Seq::filter);
    if labels.len() > 0 {
        let rest = labels.drop_last();
        lemma_some_are(rest, l, p);
        assert(p(labels.last()) == (labels.last() == l));
        assert(labels[labels.len() - 1] == labels.last());
        if rest.contains(l) {
            let k = choose|k: int| 0 <= k < rest.len() && rest[k] == l;
            assert(labels[k] == l);
        }
        if labels.contains(l) {
            let k = choose|k: int| 0 <= k < labels.len() && labels[k] == l;
            if k < rest.len() {
                assert(rest[k] == l);
            }
        }
    }
}

/// Every session is of a project that has a row.
pub proof fn lemma_each_project_has_a_row(rows: Seq<SessionView>, i: int)
    requires
        rows.len() <= usize::MAX,
        0 <= i < rows.len(),
    ensures
        exists|k: int|
            0 <= k < projects_of(rows).len() && (#[trigger] projects_of(rows)[k]).project == (
            match rows[i].repo_project {
                Some(n) => if n.len() > 0 {
                    n
                } else {
                    rows[i].project
                },
                None => rows[i].project,
            }),
{
    let labels = project_names(rows);
    let keys = turned(last_times(projects_by_name(rows)));
    let s = sorted_listing(groups(labels));
    let o = order_of(keys);
    lemma_groups_share_out(labels);
    lemma_has_order(keys);
    let l = labels[i];
    assert(groups(labels).contains_key(l));
    assert(dict(s).contains_key(l));
    let x = slot(s, l);
    assert(s[x].0 == l);
    assert(is_named(o, x));
    let k = choose|k: int| 0 <= k < o.len() && #[trigger] o[k] == x;
    assert(projects_of(rows)[k].project == l);
}

/// No project has two rows.
pub proof fn lemma_no_project_has_two_rows(rows: Seq<SessionView>, a: int, b: int)
    requires
        rows.len() <= usize::MAX,
        0 <= a < b < projects_of(rows).len(),
    ensures
        projects_of(rows)[a].project != projects_of(rows)[b].project,
{
    let labels = project_names(rows);
    let keys = turned(last_times(projects_by_name(rows)));
    let s = sorted_listing(groups(labels));
    let o = order_of(keys);
    lemma_groups_share_out(labels);
    lemma_has_order(keys);
    let x = o[a] as int;
    let y = o[b] as int;
    assert(goes_before(keys, x, y));
    lemma_lex_irreflexive(s[x].0);
    if x < y {
        assert(lex_lt(s[x].0, s[y].0));
    } else {
        assert(lex_lt(s[y].0, s[x].0));
    }
}

// ---------------------------------------------------------------- the report
/// A report is of the moment and the window of its scan. Its projects come from the sessions, and
/// all else from the usage events; the sessions of a day are those that started on it. Without
/// usage it says why. The reasoning share is of the output tokens. It compares with a prior window
/// only where there is usage and the window has a start.
pub proof fn lemma_report_tells_the_scan(
    scan: Scan,
    starts: Seq<LocalStamp>,
    stamps: Seq<LocalStamp>,
    today: LocalStamp,
)
    requires
        scan.is_countable(),
    ensures
        ({
            let r = report_of(scan, starts, stamps, today);
            let events = match scan.usage {
                Ok(rep) => views(rep.details@),
                Err(_) => Seq::<EventView>::empty(),
            };
            let reasoning = total(reasoning_counts(events));
            let output = total(output_counts(events));
            &&& r.generated_at_ms == scan.generated_at_ms
            &&& r.since_ms == scan.since_ms
            &&& r.projects == projects_of(views(scan.rows@))
            &&& scan.usage matches Ok(rep) ==> r.usage == Some(digest_of(rep))
                && r.usage_note is None
            &&& scan.usage matches Err(why) ==> r.usage is None && r.usage_note == Some(
                "token usage unavailable: "@ + why@,
            )
            &&& r.project_usage == costliest(events)
            &&& r.daily == series_of(events, days_of(stamps), tally(days_of(starts)))
            &&& r.activity_heatmap == heat_of(events, stamps, today.number as int)
            &&& events.len() == 0 ==> r.burn_rate_usd_per_hr is None && r.today_cost_usd is None
            &&& events.len() > 0 ==> r.burn_rate_usd_per_hr == Some(
                spent(events, recent(events, scan.generated_at_ms)),
            ) && r.today_cost_usd == Some(spent(events, on_day(stamps, today.day@)))
            &&& r.reasoning_tokens == reasoning
            &&& output == 0 ==> r.reasoning_share is None
            &&& output > 0 ==> r.reasoning_share == Some(
                number(ratio_units(reasoning as u64, output as u64)),
            )
            &&& r.bloating_sessions == worst_bloats(events, scan.bloat_threshold)
            &&& scan.usage is Ok && scan.since_ms is Some ==> r.wow == scan.wow
            &&& !(scan.usage is Ok && scan.since_ms is Some) ==> r.wow is None
            &&& scan.turns is None <==> r.turns is None
            &&& scan.turns matches Some(t) ==> r.turns == Some(t@)
            &&& r.fleet is None
        }),
{
}

/// The window to compare with ends where that of the report starts, and is as long; it is at least
/// a millisecond long, and starts no earlier than the epoch.
pub proof fn lemma_prior_window_reaches_back(since_ms: u64, now_ms: u64)
    ensures
        ({
            let length = if now_ms > since_ms {
                now_ms - since_ms
            } else {
                1
            };
            prior_start(since_ms, now_ms) == if since_ms >= length {
                since_ms - length
            } else {
                0
            }
        }),
{
}

/// A snapshot will do where it is less than half an hour old and the request is narrowed neither
/// in time nor to a project.
pub proof fn lemma_snapshot_serves_half_an_hour(filters: Filters, taken_ms: u64, now_ms: u64)
    ensures
        snapshot_serves(filters, taken_ms, now_ms) <==> filters.since_ms is None
            && filters.project is None && now_ms < taken_ms + 1_800_000,
{
}

/// A report in place of a failed scan says why it failed, and claims nothing else.
pub proof fn lemma_failed_report_says_why(
    generated_at_ms: u64,
    since_ms: Option<u64>,
    why: Seq<char>,
)
    ensures
        ({
            let r = failed_view(generated_at_ms, since_ms, why);
            &&& r.generated_at_ms == generated_at_ms
            &&& r.since_ms == since_ms
            &&& r.usage_note == Some("scan failed: "@ + why)
            &&& r.projects.len() == 0
            &&& r.usage is None
            &&& r.project_usage.len() == 0
            &&& r.daily.len() == 0
            &&& r.activity_heatmap.len() == 0
            &&& r.burn_rate_usd_per_hr is None
            &&& r.today_cost_usd is None
            &&& r.reasoning_tokens == 0
            &&& r.reasoning_share is None
            &&& r.bloating_sessions.len() == 0
            &&& r.wow is None
            &&& r.turns is None
            &&& r.fleet is None
        }),
{
}

} // verus!
