use book_splitter::trigger::parse_trigger;
use book_splitter::trigger::trigger_step;
use book_splitter::trigger::LoopAction;
use book_splitter::trigger::LoopEvent;
use book_splitter::trigger::LoopState;
use book_splitter::trigger::TriggerMsg;

#[test]
fn payloads_parse_to_messages() {
    assert_eq!(parse_trigger("exit"), TriggerMsg::Shutdown);
    assert_eq!(parse_trigger("12"), TriggerMsg::Split(12));
    assert_eq!(parse_trigger("0"), TriggerMsg::Split(0));
    assert_eq!(parse_trigger("-5"), TriggerMsg::Split(-5));
}

#[test]
fn malformed_payloads_never_become_requests() {
    assert_eq!(parse_trigger("abc"), TriggerMsg::Malformed);
    assert_eq!(parse_trigger(""), TriggerMsg::Malformed);
    assert_eq!(parse_trigger("12x"), TriggerMsg::Malformed);
    assert_eq!(parse_trigger("99999999999"), TriggerMsg::Malformed);
    assert_eq!(parse_trigger("exit "), TriggerMsg::Malformed);
}

#[test]
fn transition_table() {
    assert_eq!(
        trigger_step(LoopState::Idle, LoopEvent::Listen),
        (LoopState::AwaitingMessage, LoopAction::Await)
    );
    assert_eq!(
        trigger_step(LoopState::AwaitingMessage, LoopEvent::Received(TriggerMsg::Split(7))),
        (LoopState::Processing, LoopAction::StartSplit(7))
    );
    assert_eq!(
        trigger_step(LoopState::Processing, LoopEvent::Finished),
        (LoopState::Idle, LoopAction::Proceed)
    );
    assert_eq!(
        trigger_step(LoopState::AwaitingMessage, LoopEvent::Received(TriggerMsg::Shutdown)),
        (LoopState::Terminated, LoopAction::Stop)
    );
}

#[test]
fn malformed_message_keeps_the_loop_running() {
    // A malformed payload returns the loop to idle, and the next message is
    // processed as if the malformed one had never arrived.
    let (s, a) = trigger_step(
        LoopState::AwaitingMessage,
        LoopEvent::Received(parse_trigger("abc")),
    );
    assert_eq!(a, LoopAction::Proceed);
    assert_eq!(s, LoopState::Idle);
    let (s, a) = trigger_step(s, LoopEvent::Listen);
    assert_eq!(a, LoopAction::Await);
    let (s, a) = trigger_step(s, LoopEvent::Received(parse_trigger("7")));
    assert_eq!(s, LoopState::Processing);
    assert_eq!(a, LoopAction::StartSplit(7));
}

#[test]
fn sentinel_stops_processing_for_good() {
    // Once the sentinel arrived, no later event is processed, even one that
    // was already enqueued behind it.
    let (s, a) = trigger_step(
        LoopState::AwaitingMessage,
        LoopEvent::Received(parse_trigger("exit")),
    );
    assert_eq!(s, LoopState::Terminated);
    assert_eq!(a, LoopAction::Stop);
    let (s, a) = trigger_step(s, LoopEvent::Received(TriggerMsg::Split(9)));
    assert_eq!(s, LoopState::Terminated);
    assert_eq!(a, LoopAction::Stop);
    let (s, a) = trigger_step(s, LoopEvent::Listen);
    assert_eq!(s, LoopState::Terminated);
    assert_eq!(a, LoopAction::Stop);
}
