//! The event hook: one event of the host, decoded and acted on.

use vstd::prelude::*;
use vstd::string::*;

use crate::agents::{
    agent_name, apply_transition, name_of, result_of, state_after, AgentStateView, AgentStates,
    Transition, TransitionView,
};
use crate::json::{json_text, member, member_of, read_json, text_at, text_under, tree, JsonTree};
use crate::text::{copy_opt, monus, opt_text, quote, quoted, same_text};
use crate::turns::{GapRecord, GapView, TurnRecord, TurnView};

verus! {

/// An event of the host.
#[derive(Debug)]
pub enum HookEvent {
    /// The agent in a pane changed its status.
    StatusChanged(Transition),
    /// The output of a pane matched; this is the pane.
    OutputMatched(String),
}

/// An event with its texts as sequences of characters.
#[verifier::ext_equal]
pub enum HookEventView {
    StatusChanged(TransitionView),
    OutputMatched(Seq<char>),
}

impl View for HookEvent {
    type V = HookEventView;

    open spec fn view(&self) -> HookEventView {
        match self {
            HookEvent::StatusChanged(t) => HookEventView::StatusChanged(t@),
            HookEvent::OutputMatched(pane) => HookEventView::OutputMatched(pane@),
        }
    }
}

/// Why an event cannot be acted on.
#[derive(Debug)]
pub enum EventError {
    /// The event is no JSON document.
    BadJson(serde_json::Error),
    /// The event names no pane.
    MissingPane,
}

/// The body of an event: the host delivers events as an envelope (`type` and `data`), and a bare
/// body is accepted too.
pub open spec fn body_of(doc: JsonTree) -> JsonTree {
    match member_of(doc, "data"@) {
        Some(data) => data,
        None => doc,
    }
}

/// The event that a document describes, received at `at_ms`; none where it names no pane.
pub open spec fn event_in(doc: JsonTree, at_ms: u64) -> Option<HookEventView> {
    let body = body_of(doc);
    match text_under(body, "pane_id"@) {
        Some(pane_id) => if text_under(doc, "type"@) == Some("pane.output_matched"@) {
            Some(HookEventView::OutputMatched(pane_id))
        } else {
            Some(
                HookEventView::StatusChanged(
                    TransitionView {
                        pane_id,
                        agent: text_under(body, "agent"@),
                        status: match text_under(body, "agent_status"@) {
                            Some(status) => status,
                            None => "unknown"@,
                        },
                        at_ms,
                    },
                ),
            )
        },
        None => None,
    }
}

/// The event that a document describes.
pub fn event_of(doc: &serde_json::Value, at_ms: u64) -> (r: Option<HookEvent>)
    ensures
        match r {
            Some(e) => event_in(tree(*doc), at_ms) == Some(e@),
            None => event_in(tree(*doc), at_ms) is None,
        },
{
    let body = match member(doc, "data") {
        Some(data) => data,
        None => doc,
    };
    assert(tree(*body) == body_of(tree(*doc)));
    match text_at(body, "pane_id") {
        Some(pane_id) => {
            let matched = match text_at(doc, "type") {
                Some(kind) => same_text(kind.as_str(), "pane.output_matched"),
                None => false,
            };
            if matched {
                return Some(HookEvent::OutputMatched(pane_id));
            }
            let status = match text_at(body, "agent_status") {
                Some(status) => status,
                None => "unknown".to_owned(),
            };
            Some(
                HookEvent::StatusChanged(
                    Transition { pane_id, agent: text_at(body, "agent"), status, at_ms },
                ),
            )
        },
        None => None,
    }
}

/// Decodes an event of the host.
pub fn decode_event(raw: &str, at_ms: u64) -> (r: Result<HookEvent, EventError>)
    ensures
        match r {
            Ok(e) => json_text(raw@) is Some && event_in(json_text(raw@)->0, at_ms) == Some(e@),
            Err(EventError::BadJson(_)) => json_text(raw@) is None,
            Err(EventError::MissingPane) => json_text(raw@) is Some && event_in(
                json_text(raw@)->0,
                at_ms,
            ) is None,
        },
{
    match read_json(raw) {
        Ok(doc) => match event_of(&doc, at_ms) {
            Some(e) => Ok(e),
            None => Err(EventError::MissingPane),
        },
        Err(err) => Err(EventError::BadJson(err)),
    }
}

impl EventError {
    /// What to tell the user of the event `raw`.
    pub fn message(&self, raw: &str) -> (r: String)
        ensures
            r@ == (match *self {
                EventError::BadJson(_) => "bad event JSON "@ + quoted(raw@),
                EventError::MissingPane => "event missing pane_id"@,
            }),
    {
        match self {
            EventError::BadJson(_) => {
                let mut text = "bad event JSON ".to_owned();
                text.append(quote(raw).as_str());
                text
            },
            EventError::MissingPane => "event missing pane_id".to_owned(),
        }
    }
}

/// An envelope and the bare body that it carries describe the same status change.
pub proof fn lemma_envelope_is_transparent(doc: JsonTree, at_ms: u64)
    requires
        member_of(doc, "data"@) is Some,
        member_of(body_of(doc), "data"@) is None,
        text_under(doc, "type"@) != Some("pane.output_matched"@),
        text_under(body_of(doc), "type"@) != Some("pane.output_matched"@),
    ensures
        event_in(doc, at_ms) == event_in(body_of(doc), at_ms),
{
}

// ---------------------------------------------------------------- acting on a status change
/// What is left to do after a status change was recorded.
#[derive(Debug)]
pub struct HookOutcome {
    /// The notification to show at once.
    pub notice: Option<String>,
    /// The line to append to the log of turns.
    pub turn: Option<TurnRecord>,
    /// The line to append to the log of gaps.
    pub gap: Option<GapRecord>,
}

/// The outcome with its texts as sequences of characters.
#[verifier::ext_equal]
pub struct OutcomeView {
    pub notice: Option<Seq<char>>,
    pub turn: Option<TurnView>,
    pub gap: Option<GapView>,
}

impl View for HookOutcome {
    type V = OutcomeView;

    open spec fn view(&self) -> OutcomeView {
        OutcomeView {
            notice: opt_text(self.notice),
            turn: match self.turn {
                Some(t) => Some(t@),
                None => None,
            },
            gap: match self.gap {
                Some(g) => Some(g@),
                None => None,
            },
        }
    }
}

/// What the user is told when an agent blocks.
pub open spec fn blocked_notice(t: TransitionView) -> Seq<char> {
    name_of(t.agent) + " blocked — needs input ("@ + t.pane_id + ")"@
}

/// The turn that a transition closed.
pub open spec fn turn_of(t: TransitionView, duration_ms: u64) -> TurnView {
    TurnView {
        pane_id: t.pane_id,
        agent: t.agent,
        finished_at_ms: t.at_ms,
        duration_ms,
        ended_by: t.status,
    }
}

/// The gap that a transition closed; it started when the pane blocked.
pub open spec fn gap_of(t: TransitionView, duration_ms: u64) -> GapView {
    GapView {
        pane_id: t.pane_id,
        agent: t.agent,
        started_at_ms: monus(t.at_ms, duration_ms),
        duration_ms,
    }
}

/// What a status change leaves to do, given the states before it.
pub open spec fn outcome_of(
    states: Map<Seq<char>, AgentStateView>,
    t: TransitionView,
) -> OutcomeView {
    let r = result_of(states, t);
    OutcomeView {
        notice: if r.entered_blocked {
            Some(blocked_notice(t))
        } else {
            None
        },
        turn: match r.completed_turn_ms {
            Some(ms) => Some(turn_of(t, ms)),
            None => None,
        },
        gap: match r.resumed_from_blocked_ms {
            Some(ms) => Some(gap_of(t, ms)),
            None => None,
        },
    }
}

/// The line of the turn log for a turn that a transition closed.
pub fn append_turn(t: &Transition, duration_ms: u64) -> (r: TurnRecord)
    ensures
        r@ == turn_of(t@, duration_ms),
{
    TurnRecord {
        pane_id: t.pane_id.clone(),
        agent: copy_opt(&t.agent),
        finished_at_ms: t.at_ms,
        duration_ms,
        ended_by: t.status.clone(),
    }
}

/// Record one agent status transition and say what follows: notify immediately on blocked, log
/// completed turn durations and human-response gaps for later efficiency analysis.
pub fn event_hook(states: &mut AgentStates, t: &Transition) -> (r: HookOutcome)
    ensures
        r@ == outcome_of(old(states)@, t@),
        final(states)@ == old(states)@.insert(t.pane_id@, state_after(t@)),
{
    let result = apply_transition(states, t);
    let notice = if result.entered_blocked {
        let mut text = agent_name(&t.agent);
        text.append(" blocked — needs input (");
        text.append(t.pane_id.as_str());
        text.append(")");
        Some(text)
    } else {
        None
    };
    let turn = match result.completed_turn_ms {
        Some(ms) => Some(append_turn(t, ms)),
        None => None,
    };
    let gap = match result.resumed_from_blocked_ms {
        Some(ms) => Some(
            GapRecord {
                pane_id: t.pane_id.clone(),
                agent: copy_opt(&t.agent),
                started_at_ms: t.at_ms.saturating_sub(ms),
                duration_ms: ms,
            },
        ),
        None => None,
    };
    HookOutcome { notice, turn, gap }
}

/// The gap that is logged when a blocked pane resumes starts when the pane blocked, which is when
/// the turn before it ended.
pub proof fn lemma_gap_starts_at_block(
    states: Map<Seq<char>, AgentStateView>,
    block: TransitionView,
    resume: TransitionView,
)
    requires
        block.status == "blocked"@,
        resume.status == "working"@,
        resume.pane_id == block.pane_id,
        block.at_ms <= resume.at_ms,
    ensures
        ({
            let after = states.insert(block.pane_id, state_after(block));
            outcome_of(after, resume).gap == Some(
                GapView {
                    pane_id: block.pane_id,
                    agent: resume.agent,
                    started_at_ms: block.at_ms,
                    duration_ms: (resume.at_ms - block.at_ms) as u64,
                },
            )
        }),
{
}

/// A turn is logged with the status that ended it, and so a pause to ask counts as one.
pub proof fn lemma_turn_names_its_end(
    states: Map<Seq<char>, AgentStateView>,
    t: TransitionView,
)
    ensures
        outcome_of(states, t).turn matches Some(turn) ==> turn.ended_by == t.status
            && turn.pane_id == t.pane_id && turn.finished_at_ms == t.at_ms,
{
}

} // verus!
