//! Promises of a fleet sample: who is counted, how activity is measured, and what is kept of it.

use vstd::prelude::*;
use vstd::string::*;

use crate::json::JsonTree;
use crate::live::{
    agent_in, agents_in_list, agents_in_row, agents_of, churn_of, fleet_of, lemma_churn_by_pane,
    lemma_churn_lists_all, lemma_only_seen_panes, listed_churn, revisions_of, sampled,
    status_count, PaneChurnView, RawAgentView,
};
use crate::text::lex_lt;

verus! {

/// A sample counts the agents by status, and is of the moment it was taken.
pub proof fn lemma_fleet_counts_by_status(
    agents: Seq<RawAgentView>,
    prev: Map<Seq<char>, u64>,
    now_ms: u64,
)
    requires
        agents.len() <= u64::MAX,
    ensures
        ({
            let fleet = fleet_of(agents, prev, now_ms);
            &&& fleet.working == agents.filter(
                |a: RawAgentView| a.agent_status == "working"@,
            ).len()
            &&& fleet.blocked == agents.filter(
                |a: RawAgentView| a.agent_status == "blocked"@,
            ).len()
            &&& fleet.idle == agents.filter(|a: RawAgentView| a.agent_status == "idle"@).len()
            &&& fleet.sampled_at_ms == now_ms
        }),
{
    lemma_status_filter(
        agents,
        "working"@,
        |a: RawAgentView| a.agent_status == "working"@,
    );
    lemma_status_filter(
        agents,
        "blocked"@,
        |a: RawAgentView| a.agent_status == "blocked"@,
    );
    lemma_status_filter(agents, "idle"@, |a: RawAgentView| a.agent_status == "idle"@);
}

proof fn lemma_status_filter(
    agents: Seq<RawAgentView>,
    status: Seq<char>,
    p: spec_fn(RawAgentView) -> bool,
)
    requires
        forall|a: RawAgentView| #[trigger] p(a) == (a.agent_status == status),
    ensures
        status_count(agents, status) == agents.filter(p).len(),
        status_count(agents, status) <= agents.len(),
    decreases agents.len(),
{
    reveal(Seq::filter);
    if agents.len() > 0 {
        lemma_status_filter(agents.drop_last(), status, p);
        assert(p(agents.last()) == (agents.last().agent_status == status));
    }
}

/// A sample lists the activity of every agent, as often as it is listed, by pane: how far its
/// revision moved in either direction since the last sample, and nothing for a pane that is new.
pub proof fn lemma_activity_is_the_distance_moved(
    agents: Seq<RawAgentView>,
    prev: Map<Seq<char>, u64>,
    now_ms: u64,
)
    ensures
        ({
            let churn = fleet_of(agents, prev, now_ms).churn;
            &&& churn.to_multiset() == agents.map_values(
                |a: RawAgentView|
                    PaneChurnView {
                        pane_id: a.pane_id,
                        agent: a.agent,
                        status: a.agent_status,
                        revision_delta: (if !prev.contains_key(a.pane_id) {
                            0
                        } else if a.revision > prev[a.pane_id] {
                            a.revision - prev[a.pane_id]
                        } else {
                            prev[a.pane_id] - a.revision
                        }) as u64,
                    },
            ).to_multiset()
            &&& churn.len() == agents.len()
            &&& forall|i: int, j: int|
                0 <= i < j < churn.len() ==> !lex_lt(
                    #[trigger] churn[j].pane_id,
                    #[trigger] churn[i].pane_id,
                )
        }),
{
    lemma_churn_lists_all(agents, prev);
    lemma_churn_by_pane(agents, prev);
    let all = agents.map_values(
        |a: RawAgentView|
            PaneChurnView {
                pane_id: a.pane_id,
                agent: a.agent,
                status: a.agent_status,
                revision_delta: (if !prev.contains_key(a.pane_id) {
                    0
                } else if a.revision > prev[a.pane_id] {
                    a.revision - prev[a.pane_id]
                } else {
                    prev[a.pane_id] - a.revision
                }) as u64,
            },
    );
    assert forall|i: int| 0 <= i < agents.len() implies #[trigger] all[i] == churn_of(
        agents[i],
        prev,
    ) by {
    }
    assert(all =~= listed_churn(agents, prev));
}

/// The revisions that are kept are those of the panes of the sample and of no others: each that
/// under which the pane was listed last.
pub proof fn lemma_revisions_are_of_the_last_listing(
    agents: Seq<RawAgentView>,
    i: int,
    pane: Seq<char>,
)
    ensures
        revisions_of(agents).contains_key(pane) <==> exists|k: int|
            0 <= k < agents.len() && (#[trigger] agents[k]).pane_id == pane,
        0 <= i < agents.len() && agents[i].pane_id == pane && (forall|k: int|
            i < k < agents.len() ==> (#[trigger] agents[k]).pane_id != pane) ==> revisions_of(
            agents,
        )[pane] == agents[i].revision,
    decreases agents.len(),
{
    lemma_only_seen_panes(agents, pane);
    if 0 <= i < agents.len() - 1 && agents[i].pane_id == pane && (forall|k: int|
        i < k < agents.len() ==> (#[trigger] agents[k]).pane_id != pane) {
        let rest = agents.drop_last();
        assert forall|k: int| i < k < rest.len() implies (#[trigger] rest[k]).pane_id != pane by {
            assert(rest[k] == agents[k]);
        }
        lemma_revisions_are_of_the_last_listing(rest, i, pane);
        assert(agents[agents.len() - 1].pane_id != pane);
    }
}

/// A list that cannot be read shows no fleet and leaves the revisions as they were; one that can
/// shows the fleet that it lists.
pub proof fn lemma_unread_list_changes_nothing(
    agents: Seq<RawAgentView>,
    prev: Map<Seq<char>, u64>,
    now_ms: u64,
)
    ensures
        sampled(None, prev, now_ms).0.working == 0,
        sampled(None, prev, now_ms).0.blocked == 0,
        sampled(None, prev, now_ms).0.idle == 0,
        sampled(None, prev, now_ms).0.churn.len() == 0,
        sampled(None, prev, now_ms).0.sampled_at_ms == 0,
        sampled(None, prev, now_ms).1 == prev,
        sampled(Some(agents), prev, now_ms) == (fleet_of(agents, prev, now_ms), revisions_of(
            agents,
        )),
{
}

// ---------------------------------------------------------------- the host's answer
/// A list of agents is read as a whole: agent by agent as it stands, or not at all where one of
/// its elements is none.
pub proof fn lemma_agents_are_read_all_or_none(row: Seq<JsonTree>)
    ensures
        agents_in_list(JsonTree::List(row)) is Some <==> forall|i: int|
            0 <= i < row.len() ==> agent_in(#[trigger] row[i]) is Some,
        agents_in_list(JsonTree::List(row)) matches Some(agents) ==> agents.len() == row.len()
            && forall|i: int|
            0 <= i < row.len() ==> agent_in(#[trigger] row[i]) == Some(agents[i]),
    decreases row.len(),
{
    lemma_row(row);
}

proof fn lemma_row(row: Seq<JsonTree>)
    ensures
        agents_in_row(row) is Some <==> forall|i: int|
            0 <= i < row.len() ==> agent_in(#[trigger] row[i]) is Some,
        agents_in_row(row) matches Some(agents) ==> agents.len() == row.len() && forall|i: int|
            0 <= i < row.len() ==> agent_in(#[trigger] row[i]) == Some(agents[i]),
    decreases row.len(),
{
    if row.len() > 0 {
        let rest = row.drop_last();
        lemma_row(rest);
        if agents_in_row(row) is Some {
            assert forall|i: int| 0 <= i < row.len() implies agent_in(#[trigger] row[i]) == Some(
                agents_in_row(row)->0[i],
            ) by {
                if i < rest.len() {
                    assert(rest[i] == row[i]);
                }
            }
        } else if forall|i: int| 0 <= i < row.len() ==> agent_in(#[trigger] row[i]) is Some {
            assert forall|i: int| 0 <= i < rest.len() implies agent_in(
                #[trigger] rest[i],
            ) is Some by {
                assert(rest[i] == row[i]);
            }
            assert(agent_in(row[row.len() - 1]) is Some);
        }
    }
}

/// A list is an agent where it holds just its name, status, pane and revision, in this order, and
/// anything else than a list or an object is none.
pub proof fn lemma_agent_may_be_a_list_of_four(row: Seq<JsonTree>, t: JsonTree)
    ensures
        ({
            let good = row.len() == 4 && (row[0] is Text || row[0] is Null) && row[1] is Text
                && row[2] is Text && row[3] is Count;
            &&& agent_in(JsonTree::List(row)) is Some <==> good
            &&& good ==> agent_in(JsonTree::List(row)) == Some(
                RawAgentView {
                    agent: match row[0] {
                        JsonTree::Text(s) => Some(s),
                        _ => None,
                    },
                    agent_status: row[1]->Text_0,
                    pane_id: row[2]->Text_0,
                    revision: row[3]->Count_0,
                },
            )
        }),
        !(t is Object) && !(t is List) ==> agent_in(t) is None,
{
}

/// An object is an agent where it holds a status and a pane as texts, a revision as a count, and
/// a name that is a text, null or missing.
pub proof fn lemma_agent_has_status_pane_and_revision(all: Map<Seq<char>, JsonTree>)
    ensures
        ({
            let good = all.contains_key("agent_status"@) && all["agent_status"@] is Text
                && all.contains_key("pane_id"@) && all["pane_id"@] is Text && all.contains_key(
                "revision"@,
            ) && all["revision"@] is Count && (all.contains_key("agent"@) ==> all["agent"@] is Text
                || all["agent"@] is Null);
            &&& agent_in(JsonTree::Object(all)) is Some <==> good
            &&& good ==> agent_in(JsonTree::Object(all)) == Some(
                RawAgentView {
                    agent: if all.contains_key("agent"@) && all["agent"@] is Text {
                        Some(all["agent"@]->Text_0)
                    } else {
                        None
                    },
                    agent_status: all["agent_status"@]->Text_0,
                    pane_id: all["pane_id"@]->Text_0,
                    revision: all["revision"@]->Count_0,
                },
            )
        }),
{
}

/// The agents of an answer are the list under `result`, `snapshot` and `agents`.
pub proof fn lemma_agents_stand_in_the_snapshot(doc: JsonTree)
    ensures
        ({
            let result = doc->Object_0["result"@];
            let snapshot = result->Object_0["snapshot"@];
            let agents = snapshot->Object_0["agents"@];
            let there = doc is Object && doc->Object_0.contains_key("result"@) && result is Object
                && result->Object_0.contains_key("snapshot"@) && snapshot is Object
                && snapshot->Object_0.contains_key("agents"@) && agents is List;
            &&& there ==> agents_of(doc) == Some(agents)
            &&& !there ==> agents_of(doc) is None
        }),
{
}

} // verus!
