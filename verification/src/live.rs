//! Live samples of the fleet of agents.

use vstd::prelude::*;
use vstd::seq_lib::to_multiset_build;

use crate::config::{join_path, store_json, PluginPaths, StorePlan};
use crate::json::{
    as_count, as_text, elements, is_null, json_text, member, member_of, read_json, tree, trees,
    JsonTree,
};
use crate::text::{
    copy_opt, lemma_lex_irreflexive, lemma_lex_total, lemma_lex_transitive, lex_lt, opt_text, precedes,
    same_text, views, Replica,
};
use crate::textmap::TextMap;

verus! {

/// Per-pane output-activity delta since the previous fleet sample. A large revision_delta means
/// the agent is actively emitting output.
#[derive(Clone, Debug)]
pub struct PaneChurn {
    pub pane_id: String,
    pub agent: Option<String>,
    pub status: String,
    pub revision_delta: u64,
}

/// The activity of a pane with its texts as sequences of characters.
#[verifier::ext_equal]
pub struct PaneChurnView {
    pub pane_id: Seq<char>,
    pub agent: Option<Seq<char>>,
    pub status: Seq<char>,
    pub revision_delta: u64,
}

impl View for PaneChurn {
    type V = PaneChurnView;

    open spec fn view(&self) -> PaneChurnView {
        PaneChurnView {
            pane_id: self.pane_id@,
            agent: opt_text(self.agent),
            status: self.status@,
            revision_delta: self.revision_delta,
        }
    }
}

impl Replica for PaneChurn {
    fn copy(&self) -> (r: PaneChurn) {
        PaneChurn {
            pane_id: self.pane_id.clone(),
            agent: copy_opt(&self.agent),
            status: self.status.clone(),
            revision_delta: self.revision_delta,
        }
    }
}

/// Live herdr fleet state at one sample point.
#[derive(Clone, Debug)]
pub struct FleetSnapshot {
    pub working: u64,
    pub blocked: u64,
    pub idle: u64,
    pub churn: Vec<PaneChurn>,
    pub sampled_at_ms: u64,
}

/// The fleet with its texts as sequences of characters.
#[verifier::ext_equal]
pub struct FleetView {
    pub working: u64,
    pub blocked: u64,
    pub idle: u64,
    pub churn: Seq<PaneChurnView>,
    pub sampled_at_ms: u64,
}

impl View for FleetSnapshot {
    type V = FleetView;

    open spec fn view(&self) -> FleetView {
        FleetView {
            working: self.working,
            blocked: self.blocked,
            idle: self.idle,
            churn: views(self.churn@),
            sampled_at_ms: self.sampled_at_ms,
        }
    }
}

/// The fleet before anything is known of it.
pub open spec fn no_fleet() -> FleetView {
    FleetView { working: 0, blocked: 0, idle: 0, churn: Seq::empty(), sampled_at_ms: 0 }
}

impl Default for FleetSnapshot {
    fn default() -> (r: FleetSnapshot)
        ensures
            r@ == no_fleet(),
    {
        let r = FleetSnapshot {
            working: 0,
            blocked: 0,
            idle: 0,
            churn: Vec::new(),
            sampled_at_ms: 0,
        };
        assert(views(r.churn@) =~= Seq::<PaneChurnView>::empty());
        r
    }
}

/// One agent of a snapshot of the host.
#[derive(Debug)]
pub struct RawAgent {
    pub agent: Option<String>,
    pub agent_status: String,
    pub pane_id: String,
    pub revision: u64,
}

/// One agent of a snapshot with its texts as sequences of characters.
#[verifier::ext_equal]
pub struct RawAgentView {
    pub agent: Option<Seq<char>>,
    pub agent_status: Seq<char>,
    pub pane_id: Seq<char>,
    pub revision: u64,
}

impl View for RawAgent {
    type V = RawAgentView;

    open spec fn view(&self) -> RawAgentView {
        RawAgentView {
            agent: opt_text(self.agent),
            agent_status: self.agent_status@,
            pane_id: self.pane_id@,
            revision: self.revision,
        }
    }
}

/// Where the revisions of the previous sample are kept.
pub fn live_state_path(paths: &PluginPaths) -> (r: String)
    ensures
        r@ == paths.file("live-state.json"@),
{
    join_path(paths.state_dir.as_str(), "live-state.json")
}

/// The plan for writing the revisions of a sample.
pub fn store_prev_revisions(paths: &PluginPaths) -> (r: StorePlan)
    ensures
        r.replaces(paths.file("live-state.json"@)),
{
    store_json(live_state_path(paths))
}

/// How many agents have a status.
pub open spec fn status_count(agents: Seq<RawAgentView>, status: Seq<char>) -> nat
    decreases agents.len(),
{
    if agents.len() == 0 {
        0
    } else {
        status_count(agents.drop_last(), status) + if agents.last().agent_status == status {
            1nat
        } else {
            0
        }
    }
}

/// How far a pane's revision moved since the previous sample, in either direction; nothing for a
/// pane that is new.
pub open spec fn delta_of(a: RawAgentView, prev: Map<Seq<char>, u64>) -> u64 {
    if prev.contains_key(a.pane_id) {
        if a.revision >= prev[a.pane_id] {
            (a.revision - prev[a.pane_id]) as u64
        } else {
            (prev[a.pane_id] - a.revision) as u64
        }
    } else {
        0
    }
}

/// The activity of one pane.
pub open spec fn churn_of(a: RawAgentView, prev: Map<Seq<char>, u64>) -> PaneChurnView {
    PaneChurnView {
        pane_id: a.pane_id,
        agent: a.agent,
        status: a.agent_status,
        revision_delta: delta_of(a, prev),
    }
}

/// The activities with one more put behind the last that does not come after it by pane.
pub open spec fn placed(s: Seq<PaneChurnView>, c: PaneChurnView) -> Seq<PaneChurnView>
    decreases s.len(),
{
    if s.len() > 0 && lex_lt(c.pane_id, s.last().pane_id) {
        placed(s.drop_last(), c).push(s.last())
    } else {
        s.push(c)
    }
}

/// The activities of all panes, by pane; panes of the same name as they come.
pub open spec fn churn_list(agents: Seq<RawAgentView>, prev: Map<Seq<char>, u64>) -> Seq<
    PaneChurnView,
>
    decreases agents.len(),
{
    if agents.len() == 0 {
        Seq::empty()
    } else {
        placed(churn_list(agents.drop_last(), prev), churn_of(agents.last(), prev))
    }
}

/// The revisions of the panes of a sample, and of no others.
pub open spec fn revisions_of(agents: Seq<RawAgentView>) -> Map<Seq<char>, u64>
    decreases agents.len(),
{
    if agents.len() == 0 {
        Map::empty()
    } else {
        revisions_of(agents.drop_last()).insert(agents.last().pane_id, agents.last().revision)
    }
}

/// The fleet that a snapshot of the host shows.
pub open spec fn fleet_of(
    agents: Seq<RawAgentView>,
    prev: Map<Seq<char>, u64>,
    now_ms: u64,
) -> FleetView {
    FleetView {
        working: status_count(agents, "working"@) as u64,
        blocked: status_count(agents, "blocked"@) as u64,
        idle: status_count(agents, "idle"@) as u64,
        churn: churn_list(agents, prev),
        sampled_at_ms: now_ms,
    }
}

impl Replica for u64 {
    fn copy(&self) -> (r: u64) {
        *self
    }
}

proof fn lemma_placed_at(s: Seq<PaneChurnView>, c: PaneChurnView, at: int)
    requires
        0 <= at <= s.len(),
        at > 0 ==> !lex_lt(c.pane_id, s[at - 1].pane_id),
        forall|k: int| at <= k < s.len() ==> lex_lt(c.pane_id, #[trigger] s[k].pane_id),
    ensures
        placed(s, c) == s.insert(at, c),
    decreases s.len() - at,
{
    if at < s.len() {
        assert(lex_lt(c.pane_id, s[s.len() - 1].pane_id));
        lemma_placed_at(s.drop_last(), c, at);
        assert(s.drop_last().insert(at, c).push(s.last()) =~= s.insert(at, c));
    } else {
        assert(s.push(c) =~= s.insert(at, c));
    }
}

fn place(list: &mut Vec<PaneChurn>, c: PaneChurn)
    ensures
        views(final(list)@) == placed(views(old(list)@), c@),
{
    let ghost s = views(list@);
    let mut at: usize = list.len();
    while at > 0 && precedes(c.pane_id.as_str(), list[at - 1].pane_id.as_str())
        invariant
            at <= list@.len(),
            s == views(list@),
            forall|k: int| at <= k < s.len() ==> lex_lt(c.pane_id@, #[trigger] s[k].pane_id),
        decreases at,
    {
        at = at - 1;
    }
    let ghost before = list@;
    proof {
        if at > 0 {
            assert(s[at - 1].pane_id == list@[at - 1].pane_id@);
        }
        lemma_placed_at(s, c@, at as int);
    }
    list.insert(at, c);
    assert(views(list@) =~= s.insert(at as int, c@));
}

/// Core of a sample: count statuses, and diff revisions against `prev`. The returned map holds
/// exactly the panes seen now (unseen panes pruned); panes new to `prev` get delta 0. `agents` is
/// what the snapshot lists, none where it could not be read.
pub fn compute_fleet(
    agents: Option<Vec<RawAgent>>,
    prev: &TextMap<u64>,
    now_ms: u64,
) -> (r: (FleetSnapshot, TextMap<u64>))
    ensures
        (r.0@, r.1@) == sampled(
            match agents {
                Some(list) => Some(views(list@)),
                None => None,
            },
            prev@,
            now_ms,
        ),
{
    let list = match agents {
        Some(list) => list,
        None => {
            return (FleetSnapshot::default(), prev.copy());
        },
    };
    let ghost all = views(list@);
    let mut fleet = FleetSnapshot::default();
    fleet.sampled_at_ms = now_ms;
    let mut next: TextMap<u64> = TextMap::new();
    let mut i: usize = 0;
    assert(all.take(0) =~= Seq::<RawAgentView>::empty());
    while i < list.len()
        invariant
            i <= list@.len(),
            all == views(list@),
            fleet.working == status_count(all.take(i as int), "working"@),
            fleet.blocked == status_count(all.take(i as int), "blocked"@),
            fleet.idle == status_count(all.take(i as int), "idle"@),
            fleet.working <= i,
            fleet.blocked <= i,
            fleet.idle <= i,
            fleet.sampled_at_ms == now_ms,
            views(fleet.churn@) == churn_list(all.take(i as int), prev@),
            next@ == revisions_of(all.take(i as int)),
        decreases list@.len() - i,
    {
        let a = &list[i];
        assert(all.take(i + 1).drop_last() =~= all.take(i as int));
        assert(all.take(i + 1).last() == a@);
        let status = a.agent_status.as_str();
        if same_text(status, "working") {
            fleet.working = fleet.working + 1;
        }
        if same_text(status, "blocked") {
            fleet.blocked = fleet.blocked + 1;
        }
        if same_text(status, "idle") {
            fleet.idle = fleet.idle + 1;
        }
        let delta: u64 = match prev.get(a.pane_id.as_str()) {
            Some(last) => {
                if a.revision >= *last {
                    a.revision - *last
                } else {
                    *last - a.revision
                }
            },
            None => 0,
        };
        let churn = PaneChurn {
            pane_id: a.pane_id.clone(),
            agent: copy_opt(&a.agent),
            status: a.agent_status.clone(),
            revision_delta: delta,
        };
        place(&mut fleet.churn, churn);
        next.insert(a.pane_id.clone(), a.revision);
        i = i + 1;
    }
    assert(all.take(i as int) =~= all);
    (fleet, next)
}

/// The revisions of a sample are those of the panes seen now: a pane that vanished is dropped.
pub proof fn lemma_only_seen_panes(agents: Seq<RawAgentView>, pane: Seq<char>)
    ensures
        revisions_of(agents).contains_key(pane) <==> exists|i: int|
            0 <= i < agents.len() && (#[trigger] agents[i]).pane_id == pane,
    decreases agents.len(),
{
    if agents.len() > 0 {
        let rest = agents.drop_last();
        lemma_only_seen_panes(rest, pane);
        if exists|i: int| 0 <= i < rest.len() && (#[trigger] rest[i]).pane_id == pane {
            let i = choose|i: int| 0 <= i < rest.len() && (#[trigger] rest[i]).pane_id == pane;
            assert(agents[i].pane_id == pane);
        }
        if exists|i: int| 0 <= i < agents.len() && (#[trigger] agents[i]).pane_id == pane {
            let i = choose|i: int| 0 <= i < agents.len() && (#[trigger] agents[i]).pane_id == pane;
            if i < rest.len() {
                assert(rest[i].pane_id == pane);
            }
        }
        assert(agents[agents.len() - 1] == agents.last());
    }
}

/// A pane whose revision did not move since the previous sample shows no activity.
pub proof fn lemma_still_pane_is_quiet(a: RawAgentView, prev: Map<Seq<char>, u64>)
    ensures
        prev.contains_key(a.pane_id) && prev[a.pane_id] == a.revision ==> delta_of(a, prev) == 0,
        !prev.contains_key(a.pane_id) ==> delta_of(a, prev) == 0,
{
}

/// Sampling the same snapshot again shows no activity at all, as long as no pane is listed twice.
pub proof fn lemma_repeat_is_quiet(agents: Seq<RawAgentView>, i: int)
    requires
        0 <= i < agents.len(),
        forall|a: int, b: int|
            0 <= a < b < agents.len() ==> (#[trigger] agents[a]).pane_id != (
            #[trigger] agents[b]).pane_id,
    ensures
        delta_of(agents[i], revisions_of(agents)) == 0,
    decreases agents.len(),
{
    if i < agents.len() - 1 {
        let rest = agents.drop_last();
        assert forall|a: int, b: int| 0 <= a < b < rest.len() implies (#[trigger] rest[a]).pane_id != (
        #[trigger] rest[b]).pane_id by {
            assert(agents[a].pane_id != agents[b].pane_id);
        }
        lemma_repeat_is_quiet(rest, i);
        lemma_only_seen_panes(rest, rest[i].pane_id);
        assert(rest[i] == agents[i]);
        assert(agents[i].pane_id != agents[agents.len() - 1].pane_id);
    }
}

/// The activities of a snapshot as its panes are listed.
pub open spec fn listed_churn(agents: Seq<RawAgentView>, prev: Map<Seq<char>, u64>) -> Seq<
    PaneChurnView,
> {
    agents.map_values(|a: RawAgentView| churn_of(a, prev))
}

/// The list of activities holds that of every pane that is listed, once for each time it is
/// listed, and no others.
pub proof fn lemma_churn_lists_all(agents: Seq<RawAgentView>, prev: Map<Seq<char>, u64>)
    ensures
        churn_list(agents, prev).len() == agents.len(),
        churn_list(agents, prev).to_multiset() == listed_churn(agents, prev).to_multiset(),
    decreases agents.len(),
{
    let all = listed_churn(agents, prev);
    if agents.len() == 0 {
        assert(all =~= churn_list(agents, prev));
    } else {
        let rest = agents.drop_last();
        let last = churn_of(agents.last(), prev);
        lemma_churn_lists_all(rest, prev);
        lemma_placed_len(churn_list(rest, prev), last);
        lemma_placed_holds(churn_list(rest, prev), last);
        assert(all =~= listed_churn(rest, prev).push(last));
        to_multiset_build(listed_churn(rest, prev), last);
    }
}

proof fn lemma_placed_len(s: Seq<PaneChurnView>, c: PaneChurnView)
    ensures
        placed(s, c).len() == s.len() + 1,
    decreases s.len(),
{
    if s.len() > 0 && lex_lt(c.pane_id, s.last().pane_id) {
        lemma_placed_len(s.drop_last(), c);
    }
}

proof fn lemma_placed_holds(s: Seq<PaneChurnView>, c: PaneChurnView)
    ensures
        placed(s, c).to_multiset() == s.to_multiset().insert(c),
    decreases s.len(),
{
    if s.len() > 0 && lex_lt(c.pane_id, s.last().pane_id) {
        let t = s.drop_last();
        lemma_placed_holds(t, c);
        to_multiset_build(placed(t, c), s.last());
        to_multiset_build(t, s.last());
        assert(t.push(s.last()) =~= s);
        assert(placed(s, c).to_multiset() =~= s.to_multiset().insert(c));
    } else {
        to_multiset_build(s, c);
    }
}

/// Whether no pane stands behind one that comes after it.
pub open spec fn panes_ascend(s: Seq<PaneChurnView>) -> bool {
    forall|i: int, j: int|
        0 <= i < j < s.len() ==> !lex_lt(#[trigger] s[j].pane_id, #[trigger] s[i].pane_id)
}

/// The activities stand in the order of the panes.
pub proof fn lemma_churn_by_pane(agents: Seq<RawAgentView>, prev: Map<Seq<char>, u64>)
    ensures
        panes_ascend(churn_list(agents, prev)),
    decreases agents.len(),
{
    if agents.len() > 0 {
        lemma_churn_by_pane(agents.drop_last(), prev);
        lemma_placed_ascends(churn_list(agents.drop_last(), prev), churn_of(agents.last(), prev));
    }
}

proof fn lemma_placed_ascends(s: Seq<PaneChurnView>, c: PaneChurnView)
    requires
        panes_ascend(s),
    ensures
        panes_ascend(placed(s, c)),
        forall|k: int|
            0 <= k < placed(s, c).len() ==> #[trigger] placed(s, c)[k] == c || s.contains(
                placed(s, c)[k],
            ),
    decreases s.len(),
{
    let p = placed(s, c);
    if s.len() > 0 && lex_lt(c.pane_id, s.last().pane_id) {
        let t = s.drop_last();
        assert forall|i: int, j: int| 0 <= i < j < t.len() implies !lex_lt(
            #[trigger] t[j].pane_id,
            #[trigger] t[i].pane_id,
        ) by {
            assert(!lex_lt(s[j].pane_id, s[i].pane_id));
        }
        lemma_placed_ascends(t, c);
        lemma_placed_len(t, c);
        let q = placed(t, c);
        assert forall|i: int, j: int| 0 <= i < j < p.len() implies !lex_lt(
            #[trigger] p[j].pane_id,
            #[trigger] p[i].pane_id,
        ) by {
            if j < q.len() {
                assert(!lex_lt(q[j].pane_id, q[i].pane_id));
            } else {
                assert(p[j] == s.last());
                if q[i] == c {
                    if lex_lt(s.last().pane_id, c.pane_id) {
                        lemma_lex_transitive(c.pane_id, s.last().pane_id, c.pane_id);
                        lemma_lex_irreflexive(c.pane_id);
                    }
                } else {
                    let m = choose|m: int| 0 <= m < t.len() && t[m] == q[i];
                    assert(s[m] == q[i]);
                    assert(!lex_lt(s[s.len() - 1].pane_id, s[m].pane_id));
                }
            }
        }
        assert forall|k: int| 0 <= k < p.len() implies #[trigger] p[k] == c || s.contains(p[k]) by {
            if k < q.len() {
                if q[k] != c {
                    let m = choose|m: int| 0 <= m < t.len() && t[m] == q[k];
                    assert(s[m] == q[k]);
                }
            } else {
                assert(s[s.len() - 1] == p[k]);
            }
        }
    } else {
        assert forall|i: int, j: int| 0 <= i < j < p.len() implies !lex_lt(
            #[trigger] p[j].pane_id,
            #[trigger] p[i].pane_id,
        ) by {
            if j < s.len() {
                assert(!lex_lt(s[j].pane_id, s[i].pane_id));
            } else {
                if i < s.len() - 1 {
                    assert(!lex_lt(s[s.len() - 1].pane_id, s[i].pane_id));
                    if lex_lt(c.pane_id, s[i].pane_id) {
                        lemma_lex_total(s[i].pane_id, s.last().pane_id);
                        if lex_lt(s[i].pane_id, s.last().pane_id) {
                            lemma_lex_transitive(c.pane_id, s[i].pane_id, s.last().pane_id);
                        }
                    }
                }
            }
        }
        assert forall|k: int| 0 <= k < p.len() implies #[trigger] p[k] == c || s.contains(p[k]) by {
            if k < s.len() {
                assert(s[k] == p[k]);
            }
        }
    }
}

// ---------------------------------------------------------------- the host's answer
/// The agent's name under a document: none where the document is missing or null; the result is
/// none where it is something else than a text.
pub open spec fn name_in(t: Option<JsonTree>) -> Option<Option<Seq<char>>> {
    match t {
        None => Some(None),
        Some(JsonTree::Null) => Some(None),
        Some(JsonTree::Text(s)) => Some(Some(s)),
        Some(_) => None,
    }
}

/// An agent by the parts of its description.
pub open spec fn agent_from(
    agent: Option<JsonTree>,
    status: Option<JsonTree>,
    pane: Option<JsonTree>,
    revision: Option<JsonTree>,
) -> Option<RawAgentView> {
    match (name_in(agent), status, pane, revision) {
        (
            Some(agent),
            Some(JsonTree::Text(agent_status)),
            Some(JsonTree::Text(pane_id)),
            Some(JsonTree::Count(revision)),
        ) => Some(RawAgentView { agent, agent_status, pane_id, revision }),
        _ => None,
    }
}

/// The agent that a document describes: an object with its parts by name, whatever else it holds,
/// or a list of just the four parts.
pub open spec fn agent_in(t: JsonTree) -> Option<RawAgentView> {
    match t {
        JsonTree::Object(_) => agent_from(
            member_of(t, "agent"@),
            member_of(t, "agent_status"@),
            member_of(t, "pane_id"@),
            member_of(t, "revision"@),
        ),
        JsonTree::List(s) => if s.len() == 4 {
            agent_from(Some(s[0]), Some(s[1]), Some(s[2]), Some(s[3]))
        } else {
            None
        },
        _ => None,
    }
}

/// The agents that a row of documents describes; none where one of them describes none.
pub open spec fn agents_in_row(s: Seq<JsonTree>) -> Option<Seq<RawAgentView>>
    decreases s.len(),
{
    if s.len() == 0 {
        Some(Seq::empty())
    } else {
        match (agents_in_row(s.drop_last()), agent_in(s.last())) {
            (Some(before), Some(a)) => Some(before.push(a)),
            _ => None,
        }
    }
}

/// The agents that a list describes.
pub open spec fn agents_in_list(t: JsonTree) -> Option<Seq<RawAgentView>> {
    match t {
        JsonTree::List(s) => agents_in_row(s),
        _ => None,
    }
}

/// The list of agents in an answer of the host to a request for a snapshot.
pub open spec fn agents_of(doc: JsonTree) -> Option<JsonTree> {
    match member_of(doc, "result"@) {
        Some(result) => match member_of(result, "snapshot"@) {
            Some(snapshot) => match member_of(snapshot, "agents"@) {
                Some(JsonTree::List(all)) => Some(JsonTree::List(all)),
                _ => None,
            },
            None => None,
        },
        None => None,
    }
}

/// The view of what may be missing.
spec fn tree_of(v: Option<&serde_json::Value>) -> Option<JsonTree> {
    match v {
        Some(v) => Some(tree(*v)),
        None => None,
    }
}

fn read_agent(
    agent: Option<&serde_json::Value>,
    status: Option<&serde_json::Value>,
    pane: Option<&serde_json::Value>,
    revision: Option<&serde_json::Value>,
) -> (r: Option<RawAgent>)
    ensures
        match r {
            Some(a) => agent_from(tree_of(agent), tree_of(status), tree_of(pane), tree_of(revision))
                == Some(a@),
            None => agent_from(tree_of(agent), tree_of(status), tree_of(pane), tree_of(revision))
                is None,
        },
{
    let name = match agent {
        None => None,
        Some(v) => {
            if is_null(v) {
                None
            } else {
                match as_text(v) {
                    Some(s) => Some(s),
                    None => {
                        return None;
                    },
                }
            }
        },
    };
    assert(name_in(tree_of(agent)) == Some(opt_text(name)));
    match (status, pane, revision) {
        (Some(status), Some(pane), Some(revision)) => match (
            as_text(status),
            as_text(pane),
            as_count(revision),
        ) {
            (Some(agent_status), Some(pane_id), Some(revision)) => Some(
                RawAgent { agent: name, agent_status, pane_id, revision },
            ),
            _ => None,
        },
        _ => None,
    }
}

fn agent_of(v: &serde_json::Value) -> (r: Option<RawAgent>)
    ensures
        match r {
            Some(a) => agent_in(tree(*v)) == Some(a@),
            None => agent_in(tree(*v)) is None,
        },
{
    match elements(v) {
        Some(parts) => {
            if parts.len() == 4 {
                let ghost s = trees(parts@);
                assert(s.len() == 4);
                assert(s[0] == tree(parts@[0]) && s[1] == tree(parts@[1]));
                assert(s[2] == tree(parts@[2]) && s[3] == tree(parts@[3]));
                read_agent(Some(&parts[0]), Some(&parts[1]), Some(&parts[2]), Some(&parts[3]))
            } else {
                None
            }
        },
        None => {
            let agent = member(v, "agent");
            let status = member(v, "agent_status");
            let pane = member(v, "pane_id");
            let revision = member(v, "revision");
            assert(tree_of(agent) == member_of(tree(*v), "agent"@));
            assert(tree_of(status) == member_of(tree(*v), "agent_status"@));
            assert(tree_of(pane) == member_of(tree(*v), "pane_id"@));
            assert(tree_of(revision) == member_of(tree(*v), "revision"@));
            read_agent(agent, status, pane, revision)
        },
    }
}

/// The agents that a list describes; none where the document is no list, or one of its elements
/// describes no agent.
pub fn agents_listed(doc: &serde_json::Value) -> (r: Option<Vec<RawAgent>>)
    ensures
        match r {
            Some(list) => agents_in_list(tree(*doc)) == Some(views(list@)),
            None => agents_in_list(tree(*doc)) is None,
        },
{
    let row = match elements(doc) {
        Some(row) => row,
        None => {
            return None;
        },
    };
    let ghost s = trees(row@);
    let mut list: Vec<RawAgent> = Vec::new();
    let mut i: usize = 0;
    assert(s.take(0) =~= Seq::<JsonTree>::empty());
    assert(views(list@) =~= Seq::<RawAgentView>::empty());
    while i < row.len()
        invariant
            i <= row@.len(),
            s == trees(row@),
            tree(*doc) == JsonTree::List(s),
            agents_in_row(s.take(i as int)) == Some(views(list@)),
        decreases row@.len() - i,
    {
        assert(s.take(i + 1).drop_last() =~= s.take(i as int));
        assert(s.take(i + 1).last() == tree(row@[i as int]));
        match agent_of(&row[i]) {
            Some(a) => {
                let ghost done = list@;
                list.push(a);
                assert(views(list@) =~= views(done).push(a@));
            },
            None => {
                proof {
                    lemma_row_stays_unread(s, i + 1);
                }
                return None;
            },
        }
        i = i + 1;
    }
    assert(s.take(i as int) =~= s);
    Some(list)
}

proof fn lemma_row_stays_unread(s: Seq<JsonTree>, n: int)
    requires
        0 <= n <= s.len(),
        agents_in_row(s.take(n)) is None,
    ensures
        agents_in_row(s) is None,
    decreases s.len() - n,
{
    if n < s.len() {
        assert(s.take(n + 1).drop_last() =~= s.take(n));
        lemma_row_stays_unread(s, n + 1);
    } else {
        assert(s.take(n) =~= s);
    }
}

/// The list of agents in an answer of the host to a request for a snapshot; none where there is
/// no such list.
pub fn snapshot_agents<'a>(doc: &'a serde_json::Value) -> (r: Option<&'a serde_json::Value>)
    ensures
        match r {
            Some(list) => agents_of(tree(*doc)) == Some(tree(*list)),
            None => agents_of(tree(*doc)) is None,
        },
{
    match member(doc, "result") {
        Some(result) => match member(result, "snapshot") {
            Some(snapshot) => match member(snapshot, "agents") {
                Some(agents) => match elements(agents) {
                    Some(_) => Some(agents),
                    None => None,
                },
                None => None,
            },
            None => None,
        },
        None => None,
    }
}

/// The fleet and the revisions that follow from a list of agents: a list that cannot be read
/// shows nothing and leaves the revisions as they were.
pub open spec fn sampled(
    agents: Option<Seq<RawAgentView>>,
    prev: Map<Seq<char>, u64>,
    now_ms: u64,
) -> (FleetView, Map<Seq<char>, u64>) {
    match agents {
        Some(list) => (fleet_of(list, prev, now_ms), revisions_of(list)),
        None => (no_fleet(), prev),
    }
}

/// The agents in an answer of the host to a request for a snapshot; none where the answer is no
/// JSON document, holds no list of agents, or lists something that is no agent.
pub open spec fn answered(answer: Seq<char>) -> Option<Seq<RawAgentView>> {
    match json_text(answer) {
        Some(doc) => match agents_of(doc) {
            Some(list) => agents_in_list(list),
            None => None,
        },
        None => None,
    }
}

/// One live fleet sample, from the answer of the host to a request for a snapshot: the fleet, and
/// the revisions to keep for the next sample. None where the agents cannot be read from the
/// answer, so that the daemon survives a wedged host.
pub fn sample(answer: &str, prev: &TextMap<u64>, now_ms: u64) -> (r: Option<
    (FleetSnapshot, TextMap<u64>),
>)
    ensures
        match r {
            Some(s) => answered(answer@) is Some && s.0@ == fleet_of(
                answered(answer@)->0,
                prev@,
                now_ms,
            ) && s.1@ == revisions_of(answered(answer@)->0),
            None => answered(answer@) is None,
        },
{
    match read_json(answer) {
        Ok(doc) => match snapshot_agents(&doc) {
            Some(agents) => match agents_listed(agents) {
                Some(list) => Some(compute_fleet(Some(list), prev, now_ms)),
                None => None,
            },
            None => None,
        },
        Err(_) => None,
    }
}

} // verus!
