//! Promises of the event hook and of the advice on agents: what a status change is answered with,
//! and when a pane calls for a tip.

use vstd::prelude::*;
use vstd::string::*;

use crate::agents::{
    back_undashed, dur_text, filed, front_undashed, key_of, lemma_blocked_is_not_working,
    result_of, state_after, streak_after, streak_goes_on, tame, tip_for, tips_on, AgentStateView,
    TransitionView,
};
use crate::hook::{event_in, outcome_of, HookEventView};
use crate::json::JsonTree;
use crate::text::{dec, lex_lt};
use crate::textmap::{lemma_dict_at, lemma_has_listing, sorted_listing};
use crate::turns::{GapView, TurnView};
use crate::watch::LoopAlert;

verus! {

// ---------------------------------------------------------------- status changes
/// A transition reports a human-response gap exactly where the pane was blocked and goes to work,
/// a completed turn exactly where it was at work and turns idle, done or blocked, and a block
/// exactly where it turns blocked. Both spans count from when the pane took its last status.
pub proof fn lemma_transition_reports(states: Map<Seq<char>, AgentStateView>, t: TransitionView)
    ensures
        result_of(states, t).entered_blocked <==> t.status == "blocked"@,
        result_of(states, t).completed_turn_ms is Some <==> states.contains_key(t.pane_id)
            && states[t.pane_id].status == "working"@ && (t.status == "idle"@ || t.status
            == "done"@ || t.status == "blocked"@),
        result_of(states, t).resumed_from_blocked_ms is Some <==> states.contains_key(t.pane_id)
            && states[t.pane_id].status == "blocked"@ && t.status == "working"@,
        result_of(states, t).completed_turn_ms matches Some(ms) ==> ms == if t.at_ms
            >= states[t.pane_id].since_ms {
            t.at_ms - states[t.pane_id].since_ms
        } else {
            0
        },
        result_of(states, t).resumed_from_blocked_ms matches Some(ms) ==> ms == if t.at_ms
            >= states[t.pane_id].since_ms {
            t.at_ms - states[t.pane_id].since_ms
        } else {
            0
        },
{
}

/// A pane that is not known, that was not blocked, or that does not go to work, has no
/// human-response gap, and the hook logs none.
pub proof fn lemma_no_block_no_gap(states: Map<Seq<char>, AgentStateView>, t: TransitionView)
    requires
        !states.contains_key(t.pane_id) || states[t.pane_id].status != "blocked"@ || t.status
            != "working"@,
    ensures
        result_of(states, t).resumed_from_blocked_ms is None,
        outcome_of(states, t).gap is None,
{
}

/// Whatever a pane turned to, it leaves no human-response gap behind at its next change unless it
/// had turned blocked.
pub proof fn lemma_gap_needs_a_block(
    states: Map<Seq<char>, AgentStateView>,
    first: TransitionView,
    second: TransitionView,
)
    requires
        first.status != "blocked"@,
        second.pane_id == first.pane_id,
    ensures
        result_of(
            states.insert(first.pane_id, state_after(first)),
            second,
        ).resumed_from_blocked_ms is None,
        outcome_of(states.insert(first.pane_id, state_after(first)), second).gap is None,
{
}

/// After a transition its pane has the agent and the status of the transition, from its moment on,
/// and nobody was notified of it.
pub proof fn lemma_state_follows_the_transition(t: TransitionView)
    ensures
        state_after(t).pane_id == t.pane_id,
        state_after(t).agent == t.agent,
        state_after(t).status == t.status,
        state_after(t).since_ms == t.at_ms,
        state_after(t).last_notified_ms is None,
{
}

/// The hook notifies of every block and of nothing else, logs a turn for every segment of work
/// that ended and a gap for every return to work from a block, each with the pane and the agent
/// of the transition.
pub proof fn lemma_hook_logs_what_happened(
    states: Map<Seq<char>, AgentStateView>,
    t: TransitionView,
)
    ensures
        ({
            let known = states.contains_key(t.pane_id);
            let was = states[t.pane_id];
            let span = if t.at_ms >= was.since_ms {
                t.at_ms - was.since_ms
            } else {
                0
            };
            let out = outcome_of(states, t);
            &&& t.status == "blocked"@ ==> out.notice == Some(
                (match t.agent {
                    Some(a) => a,
                    None => "agent"@,
                }) + " blocked — needs input ("@ + t.pane_id + ")"@,
            )
            &&& t.status != "blocked"@ ==> out.notice is None
            &&& known && was.status == "working"@ && (t.status == "idle"@ || t.status == "done"@
                || t.status == "blocked"@) ==> out.turn == Some(
                TurnView {
                    pane_id: t.pane_id,
                    agent: t.agent,
                    finished_at_ms: t.at_ms,
                    duration_ms: span as u64,
                    ended_by: t.status,
                },
            )
            &&& !(known && was.status == "working"@ && (t.status == "idle"@ || t.status == "done"@
                || t.status == "blocked"@)) ==> out.turn is None
            &&& known && was.status == "blocked"@ && t.status == "working"@ ==> out.gap == Some(
                GapView {
                    pane_id: t.pane_id,
                    agent: t.agent,
                    started_at_ms: (t.at_ms - span) as u64,
                    duration_ms: span as u64,
                },
            )
            &&& !(known && was.status == "blocked"@ && t.status == "working"@) ==> out.gap is None
        }),
{
}

/// An event is about the pane that its body names, the body being what stands under `data`, or the
/// whole where there is none. It is an output match where its type says so, and a change to the
/// status it names otherwise, `unknown` where it names none.
pub proof fn lemma_event_is_about_its_pane(doc: JsonTree, at_ms: u64)
    ensures
        ({
            let body = if doc matches JsonTree::Object(all) && all.contains_key("data"@) {
                doc->Object_0["data"@]
            } else {
                doc
            };
            let told = body->Object_0;
            let names = body is Object && told.contains_key("pane_id"@) && told["pane_id"@] is Text;
            let matched = doc is Object && doc->Object_0.contains_key("type"@)
                && doc->Object_0["type"@] == JsonTree::Text("pane.output_matched"@);
            &&& event_in(doc, at_ms) is Some <==> names
            &&& names && matched ==> event_in(doc, at_ms) == Some(
                HookEventView::OutputMatched(told["pane_id"@]->Text_0),
            )
            &&& names && !matched ==> event_in(doc, at_ms) == Some(
                HookEventView::StatusChanged(
                    TransitionView {
                        pane_id: told["pane_id"@]->Text_0,
                        agent: if told.contains_key("agent"@) && told["agent"@] is Text {
                            Some(told["agent"@]->Text_0)
                        } else {
                            None
                        },
                        status: if told.contains_key("agent_status"@)
                            && told["agent_status"@] is Text {
                            told["agent_status"@]->Text_0
                        } else {
                            "unknown"@
                        },
                        at_ms,
                    },
                ),
            )
        }),
{
}

// ---------------------------------------------------------------- session keys
/// The key of a session is what stands in the path between its first and its last letter or digit,
/// with a dash for everything that is neither; a path without any has the key `default`.
pub proof fn lemma_key_follows_the_path(raw: Seq<char>)
    ensures
        (forall|i: int|
            0 <= i < raw.len() ==> !(48 <= (#[trigger] raw[i]) as int <= 57 || 65 <= raw[i] as int
                <= 90 || 97 <= raw[i] as int <= 122)) ==> key_of(raw) == "default"@,
        (exists|i: int|
            0 <= i < raw.len() && (48 <= (#[trigger] raw[i]) as int <= 57 || 65 <= raw[i] as int
                <= 90 || 97 <= raw[i] as int <= 122)) ==> exists|from: int, to: int|
            {
                &&& 0 <= from < to <= raw.len()
                &&& 48 <= raw[from] as int <= 57 || 65 <= raw[from] as int <= 90 || 97
                    <= raw[from] as int <= 122
                &&& 48 <= raw[to - 1] as int <= 57 || 65 <= raw[to - 1] as int <= 90 || 97
                    <= raw[to - 1] as int <= 122
                &&& forall|i: int|
                    0 <= i < from || to <= i < raw.len() ==> !(48 <= (#[trigger] raw[i]) as int
                        <= 57 || 65 <= raw[i] as int <= 90 || 97 <= raw[i] as int <= 122)
                &&& key_of(raw) == (#[trigger] raw.subrange(from, to)).map_values(
                    |c: char|
                        if 48 <= c as int <= 57 || 65 <= c as int <= 90 || 97 <= c as int <= 122 {
                            c
                        } else {
                            '-'
                        },
                )
            },
{
    let all = raw.map_values(|c: char| tame(c));
    let from = lemma_front_place(all);
    let rest = front_undashed(all);
    let to = from + lemma_back_place(rest);
    let core = back_undashed(rest);
    if core.len() == 0 {
        assert forall|i: int| 0 <= i < raw.len() implies !(48 <= (#[trigger] raw[i]) as int <= 57
            || 65 <= raw[i] as int <= 90 || 97 <= raw[i] as int <= 122) by {
            if i < from {
                assert(all[i] == '-');
            } else {
                assert(rest[i - from] == all[i]);
                assert(all[i] == '-');
            }
            assert(tame(raw[i]) == '-');
        }
    } else {
        let k = raw.subrange(from, to).map_values(
            |c: char|
                if 48 <= c as int <= 57 || 65 <= c as int <= 90 || 97 <= c as int <= 122 {
                    c
                } else {
                    '-'
                },
        );
        assert(core =~= k);
        assert(core[0] == all[from] && rest[0] == all[from]);
        assert(tame(raw[from]) != '-');
        assert(core.last() == all[to - 1]);
        assert(tame(raw[to - 1]) != '-');
        assert forall|i: int| 0 <= i < from || to <= i < raw.len() implies !(48 <= (
        #[trigger] raw[i]) as int <= 57 || 65 <= raw[i] as int <= 90 || 97 <= raw[i] as int
            <= 122) by {
            if i >= to {
                assert(rest[i - from] == all[i]);
            }
            assert(all[i] == '-');
            assert(tame(raw[i]) == '-');
        }
    }
}

proof fn lemma_front_place(s: Seq<char>) -> (n: int)
    ensures
        0 <= n <= s.len(),
        front_undashed(s) == s.subrange(n, s.len() as int),
        forall|i: int| 0 <= i < n ==> #[trigger] s[i] == '-',
        n < s.len() ==> s[n] != '-',
    decreases s.len(),
{
    if s.len() > 0 && s[0] == '-' {
        let t = s.skip(1);
        let m = lemma_front_place(t);
        assert(t.subrange(m, t.len() as int) =~= s.subrange(m + 1, s.len() as int));
        assert forall|i: int| 0 <= i < m + 1 implies #[trigger] s[i] == '-' by {
            if i > 0 {
                assert(t[i - 1] == s[i]);
            }
        }
        m + 1
    } else {
        assert(s.subrange(0, s.len() as int) =~= s);
        0
    }
}

proof fn lemma_back_place(s: Seq<char>) -> (n: int)
    ensures
        0 <= n <= s.len(),
        back_undashed(s) == s.subrange(0, n),
        forall|i: int| n <= i < s.len() ==> #[trigger] s[i] == '-',
        n > 0 ==> s[n - 1] != '-',
    decreases s.len(),
{
    if s.len() > 0 && s.last() == '-' {
        let t = s.drop_last();
        let m = lemma_back_place(t);
        assert(t.subrange(0, m) =~= s.subrange(0, m));
        assert forall|i: int| m <= i < s.len() implies #[trigger] s[i] == '-' by {
            if i < t.len() {
                assert(t[i] == s[i]);
            }
        }
        m
    } else {
        assert(s.subrange(0, s.len() as int) =~= s);
        s.len() as int
    }
}

// ---------------------------------------------------------------- output matches
/// An output match counts one more in the streak of its pane where the last one is at most ten
/// minutes ago, and starts a streak of one where it is longer ago or there was none.
pub proof fn lemma_match_goes_on_or_starts_over(
    alerts: Map<Seq<char>, LoopAlert>,
    pane: Seq<char>,
    now_ms: u64,
)
    ensures
        ({
            let goes_on = alerts.contains_key(pane) && now_ms <= alerts[pane].last_at_ms + 600_000;
            let next = streak_after(alerts, pane, now_ms);
            &&& streak_goes_on(alerts, pane, now_ms) <==> goes_on
            &&& next.last_at_ms == now_ms
            &&& goes_on && alerts[pane].count < u64::MAX ==> next.count == alerts[pane].count + 1
                && next.first_at_ms == alerts[pane].first_at_ms
            &&& !goes_on ==> next.count == 1 && next.first_at_ms == now_ms
        }),
{
}

// ---------------------------------------------------------------- tips
/// A duration is told in whole minutes, and from an hour on in hours and minutes.
pub proof fn lemma_duration_is_told_in_minutes(ms: u64)
    ensures
        ms < 3_600_000 ==> dur_text(ms) == dec(ms as nat / 60_000) + "m"@,
        ms >= 3_600_000 ==> dur_text(ms) == dec(ms as nat / 3_600_000) + "h"@ + dec(
            (ms as nat % 3_600_000) / 60_000,
        ) + "m"@,
{
    let mins = ms as nat / 60_000;
    assert(mins / 60 == ms as nat / 3_600_000);
    assert(mins % 60 == (ms as nat % 3_600_000) / 60_000);
}

/// A pane calls for an urgent tip where it has been blocked for five minutes and nobody was
/// notified of it in the last fifteen, and for advice where it has been at work for 45 minutes.
pub proof fn lemma_tip_is_called_for(s: AgentStateView, now_ms: u64)
    ensures
        ({
            let blocked = s.status == "blocked"@ && s.since_ms + 300_000 <= now_ms && (
            s.last_notified_ms matches Some(at) ==> at + 900_000 <= now_ms);
            let long = s.status == "working"@ && s.since_ms + 2_700_000 <= now_ms;
            let name = match s.agent {
                Some(a) => a,
                None => "agent"@,
            };
            let held = dur_text((now_ms - s.since_ms) as u64);
            &&& tip_for(s, now_ms) is Some <==> blocked || long
            &&& blocked ==> ({
                let tip = tip_for(s, now_ms)->0;
                &&& tip.urgent
                &&& tip.pane_id == s.pane_id
                &&& tip.message == name + " has been blocked "@ + held + " — it needs input"@
            })
            &&& long ==> ({
                let tip = tip_for(s, now_ms)->0;
                &&& !tip.urgent
                &&& tip.pane_id == s.pane_id
                &&& tip.message == name + " has been working "@ + held
                    + " on one turn — consider checking in or splitting the task"@
            })
        }),
{
    lemma_blocked_is_not_working();
}

/// The tips stand by pane, at most one on each.
pub proof fn lemma_tips_stand_by_pane(
    states: Map<Seq<char>, AgentStateView>,
    now_ms: u64,
    a: int,
    b: int,
)
    requires
        states.dom().finite(),
        filed(states),
        0 <= a < b < tips_on(sorted_listing(states), now_ms).len(),
    ensures
        lex_lt(
            tips_on(sorted_listing(states), now_ms)[a].pane_id,
            tips_on(sorted_listing(states), now_ms)[b].pane_id,
        ),
{
    let s = sorted_listing(states);
    lemma_has_listing(states);
    assert forall|k: int| 0 <= k < s.len() implies (#[trigger] s[k]).1.pane_id == s[k].0 by {
        lemma_dict_at(s, k);
        assert(states[s[k].0].pane_id == s[k].0);
    }
    let (x, y) = lemma_tips_in_order(s, now_ms, a, b);
    assert(lex_lt(s[x].0, s[y].0));
}

proof fn lemma_tips_in_order(
    panes: Seq<(Seq<char>, AgentStateView)>,
    now_ms: u64,
    a: int,
    b: int,
) -> (at: (int, int))
    requires
        0 <= a < b < tips_on(panes, now_ms).len(),
    ensures
        0 <= at.0 < at.1 < panes.len(),
        tips_on(panes, now_ms)[a].pane_id == panes[at.0].1.pane_id,
        tips_on(panes, now_ms)[b].pane_id == panes[at.1].1.pane_id,
    decreases panes.len(),
{
    let rest = panes.drop_last();
    let before = tips_on(rest, now_ms);
    if b < before.len() {
        lemma_tips_in_order(rest, now_ms, a, b)
    } else {
        (lemma_tip_place(rest, now_ms, a), panes.len() - 1)
    }
}

proof fn lemma_tip_place(
    panes: Seq<(Seq<char>, AgentStateView)>,
    now_ms: u64,
    a: int,
) -> (at: int)
    requires
        0 <= a < tips_on(panes, now_ms).len(),
    ensures
        0 <= at < panes.len(),
        tips_on(panes, now_ms)[a].pane_id == panes[at].1.pane_id,
    decreases panes.len(),
{
    let rest = panes.drop_last();
    if a < tips_on(rest, now_ms).len() {
        lemma_tip_place(rest, now_ms, a)
    } else {
        panes.len() - 1
    }
}

} // verus!
