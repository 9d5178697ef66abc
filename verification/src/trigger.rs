//! The live trigger loop: a pub/sub channel delivers payloads that are
//! either a decimal book id to split now or the termination sentinel. This
//! module parses payloads, steps the loop's state machine, and proves that a
//! run of the machine processes exactly the ids the message sequence
//! requests: malformed payloads are skipped, and nothing after the sentinel
//! is processed.

use vstd::prelude::*;
use crate::text::dec_val;
use crate::text::is_dec_i32;
use crate::text::parse_i32;
use crate::text::str_eq;

verus! {

/// A message on the trigger channel.
#[derive(PartialEq, Eq, Structural, Clone, Copy, Debug)]
pub enum TriggerMsg {
    /// The termination sentinel: the loop shuts down cleanly.
    Shutdown,
    /// A request to split the book with this id now.
    Split(i32),
    /// Anything else: logged and skipped, the loop continues.
    Malformed,
}

/// Meaning of one pub/sub payload: the literal `exit` is the sentinel, a
/// decimal integer names a book, anything else is malformed.
pub open spec fn trigger_msg_of(payload: Seq<char>) -> TriggerMsg {
    if payload == "exit"@ {
        TriggerMsg::Shutdown
    } else if is_dec_i32(payload) {
        TriggerMsg::Split(dec_val(payload) as i32)
    } else {
        TriggerMsg::Malformed
    }
}

/// Parses one pub/sub payload. A malformed payload is reported as such,
/// never an error: the loop must keep running.
pub fn parse_trigger(payload: &str) -> (m: TriggerMsg)
    ensures
        m == trigger_msg_of(payload@),
{
    if str_eq(payload, "exit") {
        TriggerMsg::Shutdown
    } else {
        match parse_i32(payload) {
            Some(id) => TriggerMsg::Split(id),
            None => TriggerMsg::Malformed,
        }
    }
}

/// State of the live trigger loop.
#[derive(PartialEq, Eq, Structural, Clone, Copy, Debug)]
pub enum LoopState {
    /// Between messages; nothing in flight.
    Idle,
    /// Blocked on the channel.
    AwaitingMessage,
    /// A split is in flight.
    Processing,
    /// The sentinel arrived; the loop is done.
    Terminated,
}

/// What the loop learns on one step.
#[derive(PartialEq, Eq, Structural, Clone, Copy, Debug)]
pub enum LoopEvent {
    /// The loop turns to the channel for the next message.
    Listen,
    /// A message arrived, already parsed.
    Received(TriggerMsg),
    /// The in-flight split finished, well or badly; either way the loop
    /// goes back to idle, never to a terminal state.
    Finished,
}

/// What the caller must do after a step.
#[derive(PartialEq, Eq, Structural, Clone, Copy, Debug)]
pub enum LoopAction {
    /// Block on the channel for the next message.
    Await,
    /// Resolve this book id and run the split.
    StartSplit(i32),
    /// Nothing to do; keep the loop running.
    Proceed,
    /// Shut down cleanly; no further message is processed.
    Stop,
}

/// Transition table of the live trigger loop. Only the sentinel reaches the
/// terminal state; a malformed message and a finished split both return the
/// loop to idle.
pub open spec fn spec_trigger_step(state: LoopState, event: LoopEvent) -> (LoopState, LoopAction) {
    match (state, event) {
        (LoopState::Idle, LoopEvent::Listen) => (LoopState::AwaitingMessage, LoopAction::Await),
        (LoopState::AwaitingMessage, LoopEvent::Received(m)) => match m {
            TriggerMsg::Shutdown => (LoopState::Terminated, LoopAction::Stop),
            TriggerMsg::Split(id) => (LoopState::Processing, LoopAction::StartSplit(id)),
            TriggerMsg::Malformed => (LoopState::Idle, LoopAction::Proceed),
        },
        (LoopState::Processing, LoopEvent::Finished) => (LoopState::Idle, LoopAction::Proceed),
        (LoopState::Terminated, _) => (LoopState::Terminated, LoopAction::Stop),
        (s, _) => (s, LoopAction::Proceed),
    }
}

/// Steps the live trigger loop once.
pub fn trigger_step(state: LoopState, event: LoopEvent) -> (r: (LoopState, LoopAction))
    ensures
        r == spec_trigger_step(state, event),
        state is Terminated ==> r.0 is Terminated && r.1 is Stop,
{
    match (state, event) {
        (LoopState::Idle, LoopEvent::Listen) => (LoopState::AwaitingMessage, LoopAction::Await),
        (LoopState::AwaitingMessage, LoopEvent::Received(m)) => match m {
            TriggerMsg::Shutdown => (LoopState::Terminated, LoopAction::Stop),
            TriggerMsg::Split(id) => (LoopState::Processing, LoopAction::StartSplit(id)),
            TriggerMsg::Malformed => (LoopState::Idle, LoopAction::Proceed),
        },
        (LoopState::Processing, LoopEvent::Finished) => (LoopState::Idle, LoopAction::Proceed),
        (LoopState::Terminated, _) => (LoopState::Terminated, LoopAction::Stop),
        (s, _) => (s, LoopAction::Proceed),
    }
}

/// The book ids the loop processes out of a payload sequence: in order,
/// malformed payloads skipped, nothing at or after the first sentinel.
pub open spec fn split_requests(msgs: Seq<Seq<char>>) -> Seq<int>
    decreases msgs.len(),
{
    if msgs.len() == 0 {
        Seq::empty()
    } else {
        match trigger_msg_of(msgs.first()) {
            TriggerMsg::Shutdown => Seq::empty(),
            TriggerMsg::Split(id) => seq![id as int] + split_requests(msgs.drop_first()),
            TriggerMsg::Malformed => split_requests(msgs.drop_first()),
        }
    }
}

/// A malformed payload is skipped: the loop processes exactly the requests
/// it would process were that payload never delivered.
pub proof fn lemma_malformed_ignored(msgs: Seq<Seq<char>>, i: int)
    requires
        0 <= i < msgs.len(),
        trigger_msg_of(msgs[i]) is Malformed,
    ensures
        split_requests(msgs) == split_requests(msgs.remove(i)),
    decreases msgs.len(),
{
    if i == 0 {
        assert(msgs.remove(0) =~= msgs.drop_first());
    } else {
        assert(msgs.remove(i).first() == msgs.first());
        assert(msgs.remove(i).drop_first() =~= msgs.drop_first().remove(i - 1));
        lemma_malformed_ignored(msgs.drop_first(), i - 1);
    }
}

/// The sentinel terminates the loop: no message delivered after it is
/// processed, even one already enqueued behind it.
pub proof fn lemma_sentinel_terminates(msgs: Seq<Seq<char>>, i: int)
    requires
        0 <= i < msgs.len(),
        trigger_msg_of(msgs[i]) is Shutdown,
    ensures
        split_requests(msgs) == split_requests(msgs.take(i)),
    decreases msgs.len(),
{
    if i > 0 {
        assert(msgs.take(i).first() == msgs.first());
        assert(msgs.take(i).drop_first() =~= msgs.drop_first().take(i - 1));
        lemma_sentinel_terminates(msgs.drop_first(), i - 1);
    }
}

/// Rank used to show that the machine always comes back to the channel.
pub open spec fn state_rank(s: LoopState) -> int {
    match s {
        LoopState::Processing => 2,
        LoopState::Idle => 1,
        LoopState::AwaitingMessage => 0,
        LoopState::Terminated => 0,
    }
}

/// The splits the state machine starts when run from `state` over a payload
/// sequence: between messages the loop listens again or finishes the
/// in-flight split, as the transition table says.
pub open spec fn run_requests(state: LoopState, msgs: Seq<Seq<char>>) -> Seq<int>
    decreases msgs.len(), state_rank(state),
{
    match state {
        LoopState::Terminated => Seq::empty(),
        LoopState::Idle => run_requests(spec_trigger_step(state, LoopEvent::Listen).0, msgs),
        LoopState::Processing => run_requests(
            spec_trigger_step(state, LoopEvent::Finished).0,
            msgs,
        ),
        LoopState::AwaitingMessage => {
            if msgs.len() == 0 {
                Seq::empty()
            } else {
                let step = spec_trigger_step(
                    state,
                    LoopEvent::Received(trigger_msg_of(msgs.first())),
                );
                let rest = run_requests(step.0, msgs.drop_first());
                match step.1 {
                    LoopAction::StartSplit(id) => seq![id as int] + rest,
                    _ => rest,
                }
            }
        },
    }
}

/// Run from the awaiting state, the machine starts exactly the splits the
/// message sequence requests.
pub proof fn lemma_machine_processes_requests(msgs: Seq<Seq<char>>)
    ensures
        run_requests(LoopState::AwaitingMessage, msgs) == split_requests(msgs),
    decreases msgs.len(),
{
    if msgs.len() > 0 {
        lemma_machine_processes_requests(msgs.drop_first());
        let rest = msgs.drop_first();
        match trigger_msg_of(msgs.first()) {
            TriggerMsg::Shutdown => {
                assert(run_requests(LoopState::Terminated, rest) == Seq::<int>::empty());
                assert(run_requests(LoopState::AwaitingMessage, msgs) =~= Seq::<int>::empty());
            },
            TriggerMsg::Split(id) => {
                assert(run_requests(LoopState::Processing, rest) == run_requests(
                    LoopState::Idle,
                    rest,
                ));
                assert(run_requests(LoopState::Idle, rest) == run_requests(
                    LoopState::AwaitingMessage,
                    rest,
                ));
            },
            TriggerMsg::Malformed => {
                assert(run_requests(LoopState::Idle, rest) == run_requests(
                    LoopState::AwaitingMessage,
                    rest,
                ));
            },
        }
    }
}

} // verus!
