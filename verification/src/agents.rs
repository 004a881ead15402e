//! Agent states, turns and the advice that follows from them.

use vstd::prelude::*;
use vstd::string::*;

use crate::config::{join_path, session_file, store_json, PluginPaths, StorePlan};
use crate::text::{
    chars_of, code, copy_opt, dec, decimal, monus, opt_text, same_text, text_of, views, Replica,
};
use crate::textmap::{dict, lemma_dict_at, lemma_has_listing, slot, sorted_listing, TextMap};
use crate::watch::{LoopAlert, LoopAlerts, LOOP_WINDOW_MS};

verus! {

/// How long an agent must sit in `blocked` before the daemon re-nags (the event hook already
/// notifies on the transition itself).
pub const BLOCKED_NAG_SECS: u64 = 900;

/// A single agent turn running longer than this is worth flagging.
pub const LONG_TURN_SECS: u64 = 2700;

/// Blocked panes get their first daemon tip after this long.
pub const BLOCKED_TIP_SECS: u64 = 300;

// ---------------------------------------------------------------- states
/// What is known of the agent in a pane.
#[derive(Clone, Debug)]
pub struct AgentState {
    pub pane_id: String,
    pub agent: Option<String>,
    pub status: String,
    pub since_ms: u64,
    pub last_notified_ms: Option<u64>,
}

/// An agent state with its texts as sequences of characters.
#[verifier::ext_equal]
pub struct AgentStateView {
    pub pane_id: Seq<char>,
    pub agent: Option<Seq<char>>,
    pub status: Seq<char>,
    pub since_ms: u64,
    pub last_notified_ms: Option<u64>,
}

impl View for AgentState {
    type V = AgentStateView;

    open spec fn view(&self) -> AgentStateView {
        AgentStateView {
            pane_id: self.pane_id@,
            agent: opt_text(self.agent),
            status: self.status@,
            since_ms: self.since_ms,
            last_notified_ms: self.last_notified_ms,
        }
    }
}

impl Replica for AgentState {
    fn copy(&self) -> (r: AgentState) {
        AgentState {
            pane_id: self.pane_id.clone(),
            agent: copy_opt(&self.agent),
            status: self.status.clone(),
            since_ms: self.since_ms,
            last_notified_ms: self.last_notified_ms,
        }
    }
}

/// The states of a session's panes, by pane id.
pub type AgentStates = TextMap<AgentState>;

/// A status change of the agent in a pane.
#[derive(Clone, Debug)]
pub struct Transition {
    pub pane_id: String,
    pub agent: Option<String>,
    pub status: String,
    pub at_ms: u64,
}

/// A transition with its texts as sequences of characters.
#[verifier::ext_equal]
pub struct TransitionView {
    pub pane_id: Seq<char>,
    pub agent: Option<Seq<char>>,
    pub status: Seq<char>,
    pub at_ms: u64,
}

impl View for Transition {
    type V = TransitionView;

    open spec fn view(&self) -> TransitionView {
        TransitionView {
            pane_id: self.pane_id@,
            agent: opt_text(self.agent),
            status: self.status@,
            at_ms: self.at_ms,
        }
    }
}

/// What the event hook should do after recording a transition.
#[derive(Clone, Copy, Debug, PartialEq, Eq, Structural)]
pub struct TransitionResult {
    /// Agent just entered `blocked`: notify immediately.
    pub entered_blocked: bool,
    /// A working segment ended (idle/done = finished turn, blocked = paused to ask); wall time the
    /// segment took.
    pub completed_turn_ms: Option<u64>,
    /// The agent came back `working` after sitting `blocked`: wall time it sat there (the
    /// human-response gap).
    pub resumed_from_blocked_ms: Option<u64>,
}

impl Default for TransitionResult {
    fn default() -> (r: TransitionResult)
        ensures
            r == (TransitionResult {
                entered_blocked: false,
                completed_turn_ms: None,
                resumed_from_blocked_ms: None,
            }),
    {
        TransitionResult {
            entered_blocked: false,
            completed_turn_ms: None,
            resumed_from_blocked_ms: None,
        }
    }
}

/// Whether a status closes a working segment.
pub open spec fn closes_segment(status: Seq<char>) -> bool {
    status == "idle"@ || status == "done"@ || status == "blocked"@
}

/// What follows from a transition of a pane in the states so far.
pub open spec fn result_of(
    states: Map<Seq<char>, AgentStateView>,
    t: TransitionView,
) -> TransitionResult {
    let known = states.contains_key(t.pane_id);
    let prev = states[t.pane_id];
    TransitionResult {
        entered_blocked: t.status == "blocked"@,
        completed_turn_ms: if known && prev.status == "working"@ && closes_segment(t.status) {
            Some(monus(t.at_ms, prev.since_ms))
        } else {
            None
        },
        resumed_from_blocked_ms: if known && prev.status == "blocked"@ && t.status == "working"@ {
            Some(monus(t.at_ms, prev.since_ms))
        } else {
            None
        },
    }
}

/// The state of a pane after a transition: it counts from the transition, and nobody has been
/// notified of it yet.
pub open spec fn state_after(t: TransitionView) -> AgentStateView {
    AgentStateView {
        pane_id: t.pane_id,
        agent: t.agent,
        status: t.status,
        since_ms: t.at_ms,
        last_notified_ms: None,
    }
}

/// Record a status transition and report what should happen. A working segment closes on
/// idle/done (a finished turn) or on blocked (the agent paused to ask).
pub fn apply_transition(states: &mut AgentStates, t: &Transition) -> (r: TransitionResult)
    ensures
        r == result_of(old(states)@, t@),
        final(states)@ == old(states)@.insert(t.pane_id@, state_after(t@)),
{
    let mut result = TransitionResult::default();
    let status = t.status.as_str();
    match states.get(t.pane_id.as_str()) {
        Some(prev) => {
            if same_text(prev.status.as_str(), "working") && (same_text(status, "idle")
                || same_text(status, "done") || same_text(status, "blocked")) {
                result.completed_turn_ms = Some(t.at_ms.saturating_sub(prev.since_ms));
            }
            if same_text(prev.status.as_str(), "blocked") && same_text(status, "working") {
                result.resumed_from_blocked_ms = Some(t.at_ms.saturating_sub(prev.since_ms));
            }
        },
        None => {},
    }
    if same_text(status, "blocked") {
        result.entered_blocked = true;
    }
    let state = AgentState {
        pane_id: t.pane_id.clone(),
        agent: copy_opt(&t.agent),
        status: t.status.clone(),
        since_ms: t.at_ms,
        last_notified_ms: None,
    };
    states.insert(t.pane_id.clone(), state);
    result
}

/// A transition leaves every other pane of the session as it was.
pub proof fn lemma_other_panes_stay(
    states: Map<Seq<char>, AgentStateView>,
    t: TransitionView,
    pane: Seq<char>,
)
    requires
        pane != t.pane_id,
    ensures
        states.insert(t.pane_id, state_after(t)).contains_key(pane) == states.contains_key(pane),
        states.contains_key(pane) ==> states.insert(t.pane_id, state_after(t))[pane]
            == states[pane],
{
}

/// Whether every state is filed under its own pane.
pub open spec fn filed(states: Map<Seq<char>, AgentStateView>) -> bool {
    forall|pane: Seq<char>|
        states.contains_key(pane) ==> (#[trigger] states[pane]).pane_id == pane
}

/// A transition keeps every state filed under its own pane.
pub proof fn lemma_transition_files(states: Map<Seq<char>, AgentStateView>, t: TransitionView)
    requires
        filed(states),
    ensures
        filed(states.insert(t.pane_id, state_after(t))),
{
    let after = states.insert(t.pane_id, state_after(t));
    assert forall|pane: Seq<char>| after.contains_key(pane) implies (
    #[trigger] after[pane]).pane_id == pane by {
        if pane != t.pane_id {
            assert(states[pane].pane_id == pane);
        }
    }
}

/// A turn is measured from the moment the pane went to work to the moment the work stopped,
/// whatever the states held before.
pub proof fn lemma_turn_span(
    states: Map<Seq<char>, AgentStateView>,
    work: TransitionView,
    stop: TransitionView,
)
    requires
        work.status == "working"@,
        closes_segment(stop.status),
        stop.pane_id == work.pane_id,
    ensures
        result_of(states.insert(work.pane_id, state_after(work)), stop).completed_turn_ms == Some(
            monus(stop.at_ms, work.at_ms),
        ),
{
}

/// The human-response gap is measured from the moment the pane blocked to the moment it went back
/// to work; that resumption neither notifies nor closes a turn.
pub proof fn lemma_gap_span(
    states: Map<Seq<char>, AgentStateView>,
    block: TransitionView,
    resume: TransitionView,
)
    requires
        block.status == "blocked"@,
        resume.status == "working"@,
        resume.pane_id == block.pane_id,
    ensures
        result_of(states.insert(block.pane_id, state_after(block)), resume) == (TransitionResult {
            entered_blocked: false,
            completed_turn_ms: None,
            resumed_from_blocked_ms: Some(monus(resume.at_ms, block.at_ms)),
        }),
{
    reveal_strlit("blocked");
    reveal_strlit("working");
    reveal_strlit("idle");
    reveal_strlit("done");
    assert("blocked"@[0] == 'b');
    assert("working"@[0] == 'w');
}

/// A pane that was not at work closes no turn, whatever it turns to.
pub proof fn lemma_no_work_no_turn(
    states: Map<Seq<char>, AgentStateView>,
    first: TransitionView,
    second: TransitionView,
)
    requires
        first.status != "working"@,
        second.pane_id == first.pane_id,
    ensures
        result_of(
            states.insert(first.pane_id, state_after(first)),
            second,
        ).completed_turn_ms is None,
{
}

// ---------------------------------------------------------------- session identity
/// Whether a character is an ASCII letter or digit.
pub open spec fn is_alnum(c: char) -> bool {
    (48 <= c as int <= 57) || (65 <= c as int <= 90) || (97 <= c as int <= 122)
}

/// The character, or a dash in its place.
pub open spec fn tame(c: char) -> char {
    if is_alnum(c) {
        c
    } else {
        '-'
    }
}

/// Without the dashes in front.
pub open spec fn front_undashed(s: Seq<char>) -> Seq<char>
    decreases s.len(),
{
    if s.len() > 0 && s[0] == '-' {
        front_undashed(s.skip(1))
    } else {
        s
    }
}

/// Without the dashes at the end.
pub open spec fn back_undashed(s: Seq<char>) -> Seq<char>
    decreases s.len(),
{
    if s.len() > 0 && s.last() == '-' {
        back_undashed(s.drop_last())
    } else {
        s
    }
}

/// The key of a session, from the path of its socket.
pub open spec fn key_of(raw: Seq<char>) -> Seq<char> {
    let core = back_undashed(front_undashed(raw.map_values(|c: char| tame(c))));
    if core.len() == 0 {
        "default"@
    } else {
        core
    }
}

fn tamed(c: char) -> (r: char)
    ensures
        r == tame(c),
{
    let k: u32 = code(c);
    if (48 <= k && k <= 57) || (65 <= k && k <= 90) || (97 <= k && k <= 122) {
        c
    } else {
        '-'
    }
}

proof fn lemma_front_run(s: Seq<char>, n: int)
    requires
        0 <= n <= s.len(),
        forall|j: int| 0 <= j < n ==> s[j] == '-',
        n < s.len() ==> s[n] != '-',
    ensures
        front_undashed(s) == s.skip(n),
    decreases n,
{
    if n > 0 {
        let t = s.skip(1);
        lemma_front_run(t, n - 1);
        assert(t.skip(n - 1) =~= s.skip(n));
    } else {
        assert(s.skip(0) =~= s);
    }
}

proof fn lemma_back_run(s: Seq<char>, n: int)
    requires
        0 <= n <= s.len(),
        forall|j: int| n <= j < s.len() ==> s[j] == '-',
        n > 0 ==> s[n - 1] != '-',
    ensures
        back_undashed(s) == s.take(n),
    decreases s.len() - n,
{
    if n < s.len() {
        let t = s.drop_last();
        lemma_back_run(t, n);
        assert(t.take(n) =~= s.take(n));
    } else {
        assert(s.take(n) =~= s);
    }
}

/// Session identity: each herdr session has its own socket, so the socket path (`raw`, empty
/// where there is none) namespaces state. Pane ids are only unique within a session; without
/// this, two sessions running `w1:p2` would clobber each other's status.
pub fn session_key(raw: &str) -> (r: String)
    ensures
        r@ == key_of(raw@),
{
    let given = chars_of(raw);
    let mut v: Vec<char> = Vec::new();
    let mut i: usize = 0;
    let ghost all = raw@.map_values(|c: char| tame(c));
    while i < given.len()
        invariant
            i <= given@.len(),
            given@ == raw@,
            all == raw@.map_values(|c: char| tame(c)),
            v@ =~= all.take(i as int),
        decreases given@.len() - i,
    {
        v.push(tamed(given[i]));
        i = i + 1;
    }
    assert(v@ =~= all);
    let mut from: usize = 0;
    while from < v.len() && v[from] == '-'
        invariant
            from <= v@.len(),
            forall|j: int| 0 <= j < from ==> v@[j] == '-',
        decreases v@.len() - from,
    {
        from = from + 1;
    }
    let mut to: usize = v.len();
    while to > from && v[to - 1] == '-'
        invariant
            from <= to <= v@.len(),
            forall|j: int| to <= j < v@.len() ==> v@[j] == '-',
        decreases to,
    {
        to = to - 1;
    }
    proof {
        lemma_front_run(all, from as int);
        lemma_back_run(all.skip(from as int), to - from);
        assert(all.skip(from as int).take(to - from) =~= all.subrange(from as int, to as int));
    }
    if from == to {
        "default".to_owned()
    } else {
        text_of(&v, from, to)
    }
}

/// A session key is never empty and holds nothing but letters, digits and dashes, so it can be
/// part of a file name.
pub proof fn lemma_key_is_tame(raw: Seq<char>)
    ensures
        key_of(raw).len() > 0,
        forall|i: int|
            0 <= i < key_of(raw).len() ==> is_alnum(#[trigger] key_of(raw)[i]) || key_of(raw)[i]
                == '-',
        key_of(raw)[0] != '-',
        key_of(raw).last() != '-',
{
    let all = raw.map_values(|c: char| tame(c));
    lemma_front_part(all);
    lemma_back_part(front_undashed(all));
    reveal_strlit("default");
    let core = back_undashed(front_undashed(all));
    if core.len() > 0 {
        lemma_back_keeps_front(front_undashed(all));
        assert forall|i: int| 0 <= i < core.len() implies is_alnum(#[trigger] core[i]) || core[i] == '-' by {
            assert(front_undashed(all).contains(core[i]));
            assert(all.contains(core[i]));
        }
    } else {
        assert("default"@.len() == 7);
        assert("default"@[0] == 'd');
        assert("default"@[1] == 'e');
        assert("default"@[2] == 'f');
        assert("default"@[3] == 'a');
        assert("default"@[4] == 'u');
        assert("default"@[5] == 'l');
        assert("default"@[6] == 't');
    }
}

proof fn lemma_front_part(s: Seq<char>)
    ensures
        forall|c: char| front_undashed(s).contains(c) ==> s.contains(c),
        front_undashed(s).len() > 0 ==> front_undashed(s)[0] != '-',
    decreases s.len(),
{
    if s.len() > 0 && s[0] == '-' {
        let t = s.skip(1);
        lemma_front_part(t);
        assert forall|c: char| t.contains(c) implies s.contains(c) by {
            let k = choose|k: int| 0 <= k < t.len() && t[k] == c;
            assert(s[k + 1] == c);
        }
    }
}

proof fn lemma_back_part(s: Seq<char>)
    ensures
        forall|i: int|
            0 <= i < back_undashed(s).len() ==> s.contains(#[trigger] back_undashed(s)[i]),
        back_undashed(s).len() > 0 ==> back_undashed(s).last() != '-',
    decreases s.len(),
{
    if s.len() > 0 && s.last() == '-' {
        let t = s.drop_last();
        lemma_back_part(t);
        assert forall|i: int| 0 <= i < back_undashed(t).len() implies s.contains(
            #[trigger] back_undashed(t)[i],
        ) by {
            let c = back_undashed(t)[i];
            let k = choose|k: int| 0 <= k < t.len() && t[k] == c;
            assert(s[k] == c);
        }
    }
}

proof fn lemma_back_keeps_front(s: Seq<char>)
    requires
        back_undashed(s).len() > 0,
    ensures
        s.len() > 0,
        back_undashed(s)[0] == s[0],
    decreases s.len(),
{
    if s.len() > 0 && s.last() == '-' {
        lemma_back_keeps_front(s.drop_last());
    }
}

/// Making a key of a key changes nothing.
pub proof fn lemma_key_is_stable(raw: Seq<char>)
    ensures
        key_of(key_of(raw)) == key_of(raw),
{
    let k = key_of(raw);
    lemma_key_is_tame(raw);
    assert(k.map_values(|c: char| tame(c)) =~= k) by {
        assert forall|i: int| 0 <= i < k.len() implies tame(#[trigger] k[i]) == k[i] by {
        }
    }
    assert(front_undashed(k) == k);
    assert(back_undashed(k) == k);
}

/// Where the states of a session are kept.
pub fn states_path(paths: &PluginPaths, key: &str) -> (r: String)
    ensures
        r@ == paths.file(session_file(key@)),
{
    let mut name = "agent-states-".to_owned();
    name.append(key);
    name.append(".json");
    join_path(paths.state_dir.as_str(), name.as_str())
}

/// The plan for writing the states of a session.
pub fn store_states(paths: &PluginPaths, key: &str) -> (r: StorePlan)
    ensures
        r.replaces(paths.file(session_file(key@))),
{
    store_json(states_path(paths, key))
}

// ---------------------------------------------------------------- output matches
/// The streak of a pane after one more output match.
pub open spec fn streak_after(
    alerts: Map<Seq<char>, LoopAlert>,
    pane: Seq<char>,
    now_ms: u64,
) -> LoopAlert {
    if streak_goes_on(alerts, pane, now_ms) {
        LoopAlert {
            count: (alerts[pane].count + 1) as u64,
            first_at_ms: alerts[pane].first_at_ms,
            last_at_ms: now_ms,
        }
    } else {
        LoopAlert { count: 1, first_at_ms: now_ms, last_at_ms: now_ms }
    }
}

/// Whether the streak of a pane goes on with a match at `now_ms`.
pub open spec fn streak_goes_on(
    alerts: Map<Seq<char>, LoopAlert>,
    pane: Seq<char>,
    now_ms: u64,
) -> bool {
    alerts.contains_key(pane) && monus(now_ms, alerts[pane].last_at_ms) <= LOOP_WINDOW_MS
}

/// Whether one more output match of a pane can be counted.
pub fn can_record(alerts: &LoopAlerts, pane_id: &str, now_ms: u64) -> (r: bool)
    ensures
        r == (streak_goes_on(alerts@, pane_id@, now_ms) ==> alerts@[pane_id@].count < u64::MAX),
{
    match alerts.get(pane_id) {
        Some(a) => now_ms.saturating_sub(a.last_at_ms) > LOOP_WINDOW_MS || a.count < u64::MAX,
        None => true,
    }
}

/// Count the match; a pane silent for over 10 minutes starts its streak over.
pub fn record_output_match(alerts: &mut LoopAlerts, pane_id: &str, now_ms: u64)
    requires
        streak_goes_on(old(alerts)@, pane_id@, now_ms) ==> old(alerts)@[pane_id@].count < u64::MAX,
    ensures
        final(alerts)@ == old(alerts)@.insert(
            pane_id@,
            streak_after(old(alerts)@, pane_id@, now_ms),
        ),
{
    let fresh = LoopAlert { count: 1, first_at_ms: now_ms, last_at_ms: now_ms };
    let next = match alerts.get(pane_id) {
        Some(a) => {
            if now_ms.saturating_sub(a.last_at_ms) <= LOOP_WINDOW_MS {
                LoopAlert { count: a.count + 1, first_at_ms: a.first_at_ms, last_at_ms: now_ms }
            } else {
                fresh
            }
        },
        None => fresh,
    };
    alerts.insert(pane_id.to_owned(), next);
}

// ---------------------------------------------------------------- tips
/// A tip the daemon surfaced; rendered in the report pane, urgent ones also become herdr
/// notifications.
#[derive(Clone, Debug)]
pub struct Tip {
    pub pane_id: String,
    pub message: String,
    /// Whether it is also sent as a notification.
    pub urgent: bool,
}

/// A tip with its texts as sequences of characters.
#[verifier::ext_equal]
pub struct TipView {
    pub pane_id: Seq<char>,
    pub message: Seq<char>,
    pub urgent: bool,
}

impl View for Tip {
    type V = TipView;

    open spec fn view(&self) -> TipView {
        TipView { pane_id: self.pane_id@, message: self.message@, urgent: self.urgent }
    }
}

impl Replica for Tip {
    fn copy(&self) -> (r: Tip) {
        Tip {
            pane_id: self.pane_id.clone(),
            message: self.message.clone(),
            urgent: self.urgent,
        }
    }
}

/// A duration in minutes, or in hours and minutes.
pub open spec fn dur_text(ms: u64) -> Seq<char> {
    let mins = ms as nat / 60_000;
    if mins < 60 {
        dec(mins) + "m"@
    } else {
        dec(mins / 60) + "h"@ + dec(mins % 60) + "m"@
    }
}

/// Writes a duration in minutes, or in hours and minutes.
pub fn human_dur(ms: u64) -> (r: String)
    ensures
        r@ == dur_text(ms),
{
    let mins: u64 = ms / 60_000;
    if mins < 60 {
        let mut r = decimal(mins);
        r.append("m");
        r
    } else {
        let mut r = decimal(mins / 60);
        r.append("h");
        r.append(decimal(mins % 60).as_str());
        r.append("m");
        r
    }
}

/// What an agent is called.
pub open spec fn name_of(agent: Option<Seq<char>>) -> Seq<char> {
    match agent {
        Some(a) => a,
        None => "agent"@,
    }
}

/// What an agent is called.
pub fn agent_name(agent: &Option<String>) -> (r: String)
    ensures
        r@ == name_of(opt_text(*agent)),
{
    match agent {
        Some(a) => a.clone(),
        None => "agent".to_owned(),
    }
}

/// Whether the last notification is long enough ago for another.
pub open spec fn nag_is_due(s: AgentStateView, now_ms: u64) -> bool {
    match s.last_notified_ms {
        None => true,
        Some(at) => monus(now_ms, at) >= BLOCKED_NAG_SECS * 1000,
    }
}

/// Whether the last notification is long enough ago for another.
pub fn due_for_nag(s: &AgentState, now_ms: u64) -> (r: bool)
    ensures
        r == nag_is_due(s@, now_ms),
{
    match s.last_notified_ms {
        None => true,
        Some(at) => now_ms.saturating_sub(at) >= BLOCKED_NAG_SECS * 1000,
    }
}

/// The tip on one pane, if there is one.
pub open spec fn tip_for(s: AgentStateView, now_ms: u64) -> Option<TipView> {
    let held = monus(now_ms, s.since_ms);
    if s.status == "blocked"@ && held >= BLOCKED_TIP_SECS * 1000 && nag_is_due(s, now_ms) {
        Some(
            TipView {
                pane_id: s.pane_id,
                message: name_of(s.agent) + " has been blocked "@ + dur_text(held)
                    + " — it needs input"@,
                urgent: true,
            },
        )
    } else if s.status == "working"@ && held >= LONG_TURN_SECS * 1000 {
        Some(
            TipView {
                pane_id: s.pane_id,
                message: name_of(s.agent) + " has been working "@ + dur_text(held)
                    + " on one turn — consider checking in or splitting the task"@,
                urgent: false,
            },
        )
    } else {
        None
    }
}

/// The tips on a row of panes, in their order.
pub open spec fn tips_on(panes: Seq<(Seq<char>, AgentStateView)>, now_ms: u64) -> Seq<TipView>
    decreases panes.len(),
{
    if panes.len() == 0 {
        Seq::empty()
    } else {
        let before = tips_on(panes.drop_last(), now_ms);
        match tip_for(panes.last().1, now_ms) {
            Some(tip) => before.push(tip),
            None => before,
        }
    }
}

fn tip_on(s: &AgentState, now_ms: u64) -> (r: Option<Tip>)
    ensures
        match r {
            Some(tip) => tip_for(s@, now_ms) == Some(tip@),
            None => tip_for(s@, now_ms) is None,
        },
{
    let held: u64 = now_ms.saturating_sub(s.since_ms);
    let status = s.status.as_str();
    if same_text(status, "blocked") && held >= BLOCKED_TIP_SECS * 1000 && due_for_nag(s, now_ms) {
        let mut message = agent_name(&s.agent);
        message.append(" has been blocked ");
        message.append(human_dur(held).as_str());
        message.append(" — it needs input");
        Some(Tip { pane_id: s.pane_id.clone(), message, urgent: true })
    } else if same_text(status, "working") && held >= LONG_TURN_SECS * 1000 {
        let mut message = agent_name(&s.agent);
        message.append(" has been working ");
        message.append(human_dur(held).as_str());
        message.append(" on one turn — consider checking in or splitting the task");
        Some(Tip { pane_id: s.pane_id.clone(), message, urgent: false })
    } else {
        None
    }
}

/// What should the daemon tell the user right now?
pub fn evaluate_tips(states: &AgentStates, now_ms: u64) -> (r: Vec<Tip>)
    ensures
        views(r@) == tips_on(sorted_listing(states@), now_ms),
{
    let mut tips: Vec<Tip> = Vec::new();
    let n: usize = states.len();
    let mut i: usize = 0;
    let ghost panes = states.listing();
    assert(views(tips@) =~= Seq::<TipView>::empty());
    while i < n
        invariant
            i <= n == panes.len(),
            panes == states.listing(),
            views(tips@) == tips_on(panes.take(i as int), now_ms),
        decreases n - i,
    {
        let ghost done = tips@;
        assert(panes.take(i + 1).drop_last() =~= panes.take(i as int));
        match tip_on(states.value_at(i), now_ms) {
            Some(tip) => {
                tips.push(tip);
                assert(views(tips@) =~= views(done).push(tip@));
            },
            None => {},
        }
        i = i + 1;
    }
    assert(panes.take(n as int) =~= panes);
    tips
}

/// A pane that is blocked is urgent from the fifth minute on, to the millisecond, and while it is
/// shorter blocked than that there is silence: the hook has already notified on the transition.
pub proof fn lemma_blocked_tip_threshold(s: AgentStateView, now_ms: u64)
    requires
        s.status == "blocked"@,
        s.last_notified_ms is None,
    ensures
        tip_for(s, now_ms) is Some <==> monus(now_ms, s.since_ms) >= 300_000,
        tip_for(s, now_ms) matches Some(tip) ==> tip.urgent && tip.pane_id == s.pane_id,
{
    lemma_blocked_is_not_working();
}

/// Nobody is notified again within a quarter of an hour, and at its end the nag is due.
pub proof fn lemma_nag_rate(s: AgentStateView, at: u64, now_ms: u64)
    requires
        s.status == "blocked"@,
        s.last_notified_ms == Some(at),
        monus(now_ms, s.since_ms) >= 300_000,
    ensures
        tip_for(s, now_ms) is Some <==> monus(now_ms, at) >= 900_000,
{
    lemma_blocked_is_not_working();
}

/// A turn is flagged from its 45th minute on, and never urgently: long turns advise, they do not
/// alarm.
pub proof fn lemma_long_turn_threshold(s: AgentStateView, now_ms: u64)
    requires
        s.status == "working"@,
    ensures
        tip_for(s, now_ms) is Some <==> monus(now_ms, s.since_ms) >= 2_700_000,
        tip_for(s, now_ms) matches Some(tip) ==> !tip.urgent && tip.pane_id == s.pane_id,
{
    lemma_blocked_is_not_working();
}

/// Any other status is left in peace.
pub proof fn lemma_other_statuses_are_silent(s: AgentStateView, now_ms: u64)
    requires
        s.status != "blocked"@,
        s.status != "working"@,
    ensures
        tip_for(s, now_ms) is None,
{
}

/// The two statuses that tips are about are not the same.
pub proof fn lemma_blocked_is_not_working()
    ensures
        "blocked"@ != "working"@,
{
    reveal_strlit("blocked");
    reveal_strlit("working");
    assert("blocked"@[0] == 'b');
    assert("working"@[0] == 'w');
}

/// There are no more tips than panes.
pub proof fn lemma_tips_at_most_panes(panes: Seq<(Seq<char>, AgentStateView)>, now_ms: u64)
    ensures
        tips_on(panes, now_ms).len() <= panes.len(),
    decreases panes.len(),
{
    if panes.len() > 0 {
        lemma_tips_at_most_panes(panes.drop_last(), now_ms);
    }
}

/// Whether one of some tips is about a pane.
pub open spec fn names_pane(tips: Seq<TipView>, pane: Seq<char>) -> bool {
    exists|i: int| 0 <= i < tips.len() && (#[trigger] tips[i]).pane_id == pane
}

/// Whether one of a row of panes is `pane` and has a tip.
spec fn is_due(panes: Seq<(Seq<char>, AgentStateView)>, now_ms: u64, pane: Seq<char>) -> bool {
    exists|k: int|
        0 <= k < panes.len() && (#[trigger] panes[k]).1.pane_id == pane && tip_for(
            panes[k].1,
            now_ms,
        ) is Some
}

proof fn lemma_row_is_told(panes: Seq<(Seq<char>, AgentStateView)>, now_ms: u64, pane: Seq<char>)
    ensures
        names_pane(tips_on(panes, now_ms), pane) <==> is_due(panes, now_ms, pane),
    decreases panes.len(),
{
    if panes.len() > 0 {
        let rest = panes.drop_last();
        let last = panes.last().1;
        let tips = tips_on(panes, now_ms);
        let before = tips_on(rest, now_ms);
        lemma_row_is_told(rest, now_ms, pane);
        assert(panes[panes.len() - 1] == panes.last());
        if names_pane(tips, pane) {
            let i = choose|i: int| 0 <= i < tips.len() && (#[trigger] tips[i]).pane_id == pane;
            if i < before.len() {
                assert(before[i] == tips[i]);
                let k = choose|k: int|
                    0 <= k < rest.len() && (#[trigger] rest[k]).1.pane_id == pane && tip_for(
                        rest[k].1,
                        now_ms,
                    ) is Some;
                assert(panes[k] == rest[k]);
            }
        }
        if is_due(panes, now_ms, pane) {
            let k = choose|k: int|
                0 <= k < panes.len() && (#[trigger] panes[k]).1.pane_id == pane && tip_for(
                    panes[k].1,
                    now_ms,
                ) is Some;
            if k < rest.len() {
                assert(rest[k] == panes[k]);
                let i = choose|i: int|
                    0 <= i < before.len() && (#[trigger] before[i]).pane_id == pane;
                assert(tips[i] == before[i]);
            } else {
                assert(tips[before.len() as int].pane_id == pane);
            }
        }
    }
}

/// The daemon has a tip on a pane exactly where the state of the pane calls for one.
pub proof fn lemma_pane_is_told(
    states: Map<Seq<char>, AgentStateView>,
    now_ms: u64,
    pane: Seq<char>,
)
    requires
        states.dom().finite(),
        filed(states),
    ensures
        names_pane(tips_on(sorted_listing(states), now_ms), pane) <==> states.contains_key(pane)
            && tip_for(states[pane], now_ms) is Some,
{
    let s = sorted_listing(states);
    lemma_has_listing(states);
    lemma_row_is_told(s, now_ms, pane);
    if is_due(s, now_ms, pane) {
        let k = choose|k: int|
            0 <= k < s.len() && (#[trigger] s[k]).1.pane_id == pane && tip_for(s[k].1, now_ms)
                is Some;
        lemma_dict_at(s, k);
        assert(states[s[k].0].pane_id == s[k].0);
    }
    if states.contains_key(pane) && tip_for(states[pane], now_ms) is Some {
        assert(dict(s).contains_key(pane));
        let k = slot(s, pane);
        assert(s[k].0 == pane);
        lemma_dict_at(s, k);
        assert(states[pane].pane_id == pane);
        assert(s[k].1.pane_id == pane);
    }
}

proof fn lemma_tip_has_source(
    panes: Seq<(Seq<char>, AgentStateView)>,
    now_ms: u64,
    i: int,
) -> (k: int)
    requires
        0 <= i < tips_on(panes, now_ms).len(),
    ensures
        0 <= k < panes.len(),
        tip_for(panes[k].1, now_ms) == Some(tips_on(panes, now_ms)[i]),
    decreases panes.len(),
{
    let rest = panes.drop_last();
    if i < tips_on(rest, now_ms).len() {
        lemma_tip_has_source(rest, now_ms, i)
    } else {
        panes.len() - 1
    }
}

/// Every tip is what the state of the pane it names calls for.
pub proof fn lemma_tip_tells_its_pane(
    states: Map<Seq<char>, AgentStateView>,
    now_ms: u64,
    i: int,
)
    requires
        states.dom().finite(),
        filed(states),
        0 <= i < tips_on(sorted_listing(states), now_ms).len(),
    ensures
        states.contains_key(tips_on(sorted_listing(states), now_ms)[i].pane_id),
        tip_for(states[tips_on(sorted_listing(states), now_ms)[i].pane_id], now_ms) == Some(
            tips_on(sorted_listing(states), now_ms)[i],
        ),
{
    let s = sorted_listing(states);
    lemma_has_listing(states);
    let k = lemma_tip_has_source(s, now_ms, i);
    lemma_dict_at(s, k);
    assert(states[s[k].0].pane_id == s[k].0);
}

} // verus!
