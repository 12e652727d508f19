use boltr::message::ClientMessage;
use boltr::state_machine::{Admission, ConnectionState};
use boltr::value::BoltDict;

fn hello() -> ClientMessage {
    ClientMessage::Hello { extra: BoltDict::new() }
}
fn logon() -> ClientMessage {
    ClientMessage::Logon { auth: BoltDict::new() }
}
fn run() -> ClientMessage {
    ClientMessage::Run { query: "RETURN 1".into(), parameters: BoltDict::new(), extra: BoltDict::new() }
}
fn pull() -> ClientMessage {
    ClientMessage::pull_all()
}
fn begin() -> ClientMessage {
    ClientMessage::Begin { extra: BoltDict::new() }
}

#[test]
fn negotiation_accepts_only_hello() {
    assert!(ConnectionState::Negotiation.accepts(&hello()));
    assert!(!ConnectionState::Negotiation.accepts(&run()));
    assert!(!ConnectionState::Negotiation.accepts(&ClientMessage::Goodbye));
}

#[test]
fn authentication_accepts_logon_and_goodbye() {
    assert!(ConnectionState::Authentication.accepts(&logon()));
    assert!(ConnectionState::Authentication.accepts(&ClientMessage::Goodbye));
    assert!(!ConnectionState::Authentication.accepts(&run()));
}

#[test]
fn ready_state_transitions() {
    let s = ConnectionState::Ready;
    assert!(s.accepts(&run()));
    assert!(s.accepts(&begin()));
    assert!(s.accepts(&ClientMessage::Reset));
    assert!(s.accepts(&ClientMessage::Goodbye));
    assert!(!s.accepts(&pull()));
    assert!(!s.accepts(&ClientMessage::Commit));
}

#[test]
fn streaming_to_ready() {
    let s = ConnectionState::Streaming;
    assert!(s.accepts(&pull()));
    assert!(s.accepts(&ClientMessage::Discard { extra: BoltDict::new() }));
    assert!(!s.accepts(&run()));
    assert_eq!(s.complete_streaming(), ConnectionState::Ready);
}

#[test]
fn tx_flow() {
    let s = ConnectionState::Ready;
    let s = s.transition_success(&begin());
    assert_eq!(s, ConnectionState::TxReady);
    let s = s.transition_success(&run());
    assert_eq!(s, ConnectionState::TxStreaming);
    let s = s.complete_streaming();
    assert_eq!(s, ConnectionState::TxReady);
    let s = s.transition_success(&ClientMessage::Commit);
    assert_eq!(s, ConnectionState::Ready);
}

#[test]
fn failed_state() {
    let s = ConnectionState::Failed;
    assert!(s.accepts(&ClientMessage::Reset));
    assert!(s.accepts(&ClientMessage::Goodbye));
    assert!(!s.accepts(&run()));
    assert!(!s.accepts(&pull()));
}

#[test]
fn failure_transitions_to_failed() {
    let s = ConnectionState::Ready;
    assert_eq!(s.transition_failure(&run()), ConnectionState::Failed);
}

#[test]
fn reset_from_failed() {
    let s = ConnectionState::Failed;
    assert_eq!(s.transition_success(&ClientMessage::Reset), ConnectionState::Ready);
}

#[test]
fn full_state_flow() {
    let s = ConnectionState::Negotiation;
    let s = s.transition_success(&hello());
    assert_eq!(s, ConnectionState::Authentication);
    let s = s.transition_success(&logon());
    assert_eq!(s, ConnectionState::Ready);
    let s = s.transition_success(&begin());
    assert_eq!(s, ConnectionState::TxReady);
    let s = s.transition_success(&run());
    assert_eq!(s, ConnectionState::TxStreaming);
    let s = s.complete_streaming();
    assert_eq!(s, ConnectionState::TxReady);
    let s = s.transition_success(&ClientMessage::Commit);
    assert_eq!(s, ConnectionState::Ready);
}

#[test]
fn rejected_messages_are_ignored_without_state_change() {
    assert_eq!(ConnectionState::Ready.screen(&pull()), (Admission::Ignore, ConnectionState::Ready));
    assert_eq!(ConnectionState::Failed.screen(&run()), (Admission::Ignore, ConnectionState::Failed));
    assert_eq!(
        ConnectionState::Negotiation.screen(&ClientMessage::Goodbye),
        (Admission::Close, ConnectionState::Defunct)
    );
    assert_eq!(
        ConnectionState::Defunct.screen(&ClientMessage::Goodbye),
        (Admission::Close, ConnectionState::Defunct)
    );
    assert_eq!(ConnectionState::Ready.screen(&run()), (Admission::Dispatch, ConnectionState::Ready));
}

#[test]
fn failed_goodbye_and_reset_are_fatal() {
    assert_eq!(ConnectionState::Ready.transition_failure(&ClientMessage::Goodbye), ConnectionState::Defunct);
    assert_eq!(ConnectionState::Failed.transition_failure(&ClientMessage::Reset), ConnectionState::Defunct);
    assert_eq!(ConnectionState::Ready.transition_success(&ClientMessage::Logoff), ConnectionState::Authentication);
    assert_eq!(ConnectionState::TxReady.transition_success(&ClientMessage::Rollback), ConnectionState::Ready);
}
