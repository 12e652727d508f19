use boltr::backend::{BoltRecord, ResultMetadata, ResultStream};
use boltr::connection::{
    hello_config, hello_metadata, logon_credentials, pull_size, requested_database, ConnectionCore,
    Step,
};
use boltr::error::BoltError;
use boltr::message::{encode_client_message, ClientMessage, ServerMessage};
use boltr::session_manager::{SessionHandle, TransactionHandle};
use boltr::state_machine::ConnectionState;
use boltr::value::{BoltDict, BoltValue};

fn dict(entries: Vec<(&str, BoltValue)>) -> BoltDict {
    let mut d = BoltDict::new();
    for (k, v) in entries {
        d.insert(k.to_string(), v);
    }
    d
}

fn frame_of(msg: &ClientMessage) -> Vec<u8> {
    let mut buf: Vec<u8> = Vec::new();
    encode_client_message(&mut buf, msg);
    buf
}

fn result_with(n: i64) -> ResultStream {
    ResultStream {
        metadata: ResultMetadata { columns: vec!["x".into()], extra: BoltDict::new() },
        records: (0..n).map(|i| BoltRecord { values: vec![BoltValue::Integer(i)] }).collect(),
        summary: dict(vec![("type", BoltValue::String("r".into()))]),
    }
}

fn ready_core() -> ConnectionCore {
    let mut core = ConnectionCore::new();
    core.state = ConnectionState::Ready;
    core.session = Some(SessionHandle("s".into()));
    core
}

#[test]
fn empty_frame_is_noop() {
    let mut core = ConnectionCore::new();
    assert!(matches!(core.on_frame(&[]), Step::Noop));
    assert_eq!(core.state, ConnectionState::Negotiation);
}

#[test]
fn undecodable_frame_latches_failed() {
    let mut core = ready_core();
    match core.on_frame(&[0xB0, 0x55]) {
        Step::Reply(ServerMessage::Failure { metadata }) => {
            assert_eq!(
                metadata.get("code"),
                Some(&BoltValue::String("Neo.ClientError.Request.InvalidFormat".into()))
            );
        }
        other => panic!("unexpected step {other:?}"),
    }
    assert_eq!(core.state, ConnectionState::Failed);
}

#[test]
fn failure_then_reset() {
    let mut core = ready_core();
    let run = ClientMessage::Run { query: "bad".into(), parameters: BoltDict::new(), extra: BoltDict::new() };
    assert!(matches!(core.on_frame(&frame_of(&run)), Step::Dispatch(_)));
    let err = BoltError::Query { code: "Neo.ClientError.Statement.SyntaxError".into(), message: "bad".into() };
    let reply = core.failed(&run, &err);
    assert!(matches!(reply, ServerMessage::Failure { .. }));
    assert_eq!(core.state, ConnectionState::Failed);
    // A PULL is ignored and leaves the state alone.
    match core.on_frame(&frame_of(&ClientMessage::pull_all())) {
        Step::Reply(ServerMessage::Ignored) => {}
        other => panic!("unexpected step {other:?}"),
    }
    assert_eq!(core.state, ConnectionState::Failed);
    // RESET is taken, clears what is pending, and ends in Ready.
    core.pending = None;
    assert!(matches!(core.on_frame(&frame_of(&ClientMessage::Reset)), Step::Dispatch(ClientMessage::Reset)));
    assert_eq!(core.reset(), None);
    core.handled(&ClientMessage::Reset);
    assert_eq!(core.state, ConnectionState::Ready);
    assert!(core.pending.is_none());
}

#[test]
fn reset_returns_open_transaction() {
    let mut core = ready_core();
    core.begin_succeeded(TransactionHandle("t1".into()));
    assert_eq!(core.state, ConnectionState::TxReady);
    let _ = core.run_succeeded(result_with(2));
    assert_eq!(core.reset(), Some(TransactionHandle("t1".into())));
    assert!(core.pending.is_none());
}

#[test]
fn pull_in_batches_then_summary() {
    let mut core = ready_core();
    let reply = core.run_succeeded(result_with(3));
    match reply {
        ServerMessage::Success { metadata } => {
            assert_eq!(
                metadata.get("fields"),
                Some(&BoltValue::List(vec![BoltValue::String("x".into())]))
            );
            assert_eq!(metadata.get("t_first"), Some(&BoltValue::Integer(0)));
        }
        other => panic!("unexpected reply {other:?}"),
    }
    assert_eq!(core.state, ConnectionState::Streaming);
    let first = core.pull(2).unwrap();
    assert_eq!(first.len(), 3);
    assert_eq!(first[0], ServerMessage::Record { data: vec![BoltValue::Integer(0)] });
    assert_eq!(first[1], ServerMessage::Record { data: vec![BoltValue::Integer(1)] });
    assert_eq!(
        first[2],
        ServerMessage::Success { metadata: dict(vec![("has_more", BoltValue::Boolean(true))]) }
    );
    assert_eq!(core.state, ConnectionState::Streaming);
    let rest = core.pull(-1).unwrap();
    assert_eq!(rest.len(), 2);
    assert_eq!(rest[0], ServerMessage::Record { data: vec![BoltValue::Integer(2)] });
    assert_eq!(
        rest[1],
        ServerMessage::Success {
            metadata: dict(vec![
                ("has_more", BoltValue::Boolean(false)),
                ("type", BoltValue::String("r".into())),
            ])
        }
    );
    assert_eq!(core.state, ConnectionState::Ready);
    assert!(core.pending.is_none());
    let err = core.pull(-1).unwrap_err();
    assert!(matches!(err, BoltError::Protocol(ref m) if m == "no pending result to pull"));
}

#[test]
fn discard_completes_streaming() {
    let mut core = ready_core();
    core.begin_succeeded(TransactionHandle("t".into()));
    let _ = core.run_succeeded(result_with(4));
    assert_eq!(core.state, ConnectionState::TxStreaming);
    let reply = core.discard();
    assert_eq!(
        reply,
        ServerMessage::Success { metadata: dict(vec![("has_more", BoltValue::Boolean(false))]) }
    );
    assert_eq!(core.state, ConnectionState::TxReady);
}

#[test]
fn commit_needs_session_and_transaction() {
    let mut core = ConnectionCore::new();
    assert!(matches!(core.take_transaction(), Err(BoltError::Session(_))));
    let mut core = ready_core();
    assert!(matches!(core.take_transaction(), Err(BoltError::Transaction(_))));
    core.begin_succeeded(TransactionHandle("t".into()));
    assert_eq!(core.take_transaction().unwrap(), TransactionHandle("t".into()));
    assert!(core.transaction.is_none());
}

#[test]
fn hello_helpers() {
    let cfg = hello_config(&dict(vec![("user_agent", BoltValue::String("test/1.0".into()))]));
    assert_eq!(cfg.user_agent, "test/1.0");
    assert!(cfg.database.is_none());
    assert_eq!(hello_config(&BoltDict::new()).user_agent, "unknown");
    let meta = hello_metadata(dict(vec![("server", BoltValue::String("X/1".into()))]), "cid".into());
    assert_eq!(meta.get("server"), Some(&BoltValue::String("X/1".into())));
    assert_eq!(meta.get("connection_id"), Some(&BoltValue::String("cid".into())));
    assert_eq!(meta.get("hints"), Some(&BoltValue::Dict(BoltDict::new())));
    let kept = hello_metadata(dict(vec![("connection_id", BoltValue::String("mine".into()))]), "cid".into());
    assert_eq!(kept.get("connection_id"), Some(&BoltValue::String("mine".into())));
    let mut core = ConnectionCore::new();
    let reply = core.hello_succeeded(SessionHandle("s".into()), meta);
    assert!(matches!(reply, ServerMessage::Success { .. }));
    assert_eq!(core.state, ConnectionState::Authentication);
    assert_eq!(boltr::connection::fresh_connection_id().len(), 36);
}

#[test]
fn logon_and_extra_helpers() {
    let creds = logon_credentials(&dict(vec![
        ("scheme", BoltValue::String("basic".into())),
        ("principal", BoltValue::String("neo4j".into())),
    ]));
    assert_eq!(creds.scheme, "basic");
    assert_eq!(creds.principal.as_deref(), Some("neo4j"));
    assert!(creds.credentials.is_none());
    assert_eq!(logon_credentials(&BoltDict::new()).scheme, "none");
    assert_eq!(pull_size(&dict(vec![("n", BoltValue::Integer(7))])), 7);
    assert_eq!(pull_size(&BoltDict::new()), -1);
    assert_eq!(requested_database(&dict(vec![("db", BoltValue::String("neo4j".into()))])), Some("neo4j".into()));
    assert_eq!(requested_database(&dict(vec![("db", BoltValue::Integer(1))])), None);
}

#[test]
fn error_codes() {
    let cases = vec![
        (BoltError::Protocol("p".into()), "Neo.ClientError.Request.Invalid"),
        (BoltError::Authentication("a".into()), "Neo.ClientError.Security.Unauthorized"),
        (BoltError::Session("s".into()), "Neo.ClientError.Request.Invalid"),
        (BoltError::Transaction("t".into()), "Neo.ClientError.Transaction.TransactionStartFailed"),
        (BoltError::Query { code: "Q.C".into(), message: "m".into() }, "Q.C"),
        (BoltError::ResourceExhausted("r".into()), "Neo.TransientError.General.MemoryPoolOutOfMemoryError"),
        (BoltError::Io("i".into()), "Neo.TransientError.General.DatabaseUnavailable"),
        (BoltError::Backend("b".into()), "Neo.DatabaseError.General.UnknownError"),
    ];
    for (e, code) in cases {
        let meta = e.to_failure_metadata();
        assert_eq!(meta.get("code"), Some(&BoltValue::String(code.into())));
        assert_eq!(meta.len(), 2);
    }
    assert!(matches!(BoltError::backend("boom"), BoltError::Backend(ref m) if m == "boom"));
}

#[test]
fn pipelined_messages_answer_in_order() {
    // RUN then PULL: one SUCCESS for RUN, then the records and one SUCCESS.
    let mut core = ready_core();
    let run = ClientMessage::Run { query: "q".into(), parameters: BoltDict::new(), extra: BoltDict::new() };
    let mut replies: Vec<ServerMessage> = Vec::new();
    if let Step::Dispatch(_) = core.on_frame(&frame_of(&run)) {
        replies.push(core.run_succeeded(result_with(2)));
    }
    if let Step::Dispatch(ClientMessage::Pull { extra }) = core.on_frame(&frame_of(&ClientMessage::pull_all())) {
        replies.extend(core.pull(pull_size(&extra)).unwrap());
    }
    assert_eq!(replies.len(), 4);
    assert!(matches!(replies[0], ServerMessage::Success { .. }));
    assert!(matches!(replies[1], ServerMessage::Record { .. }));
    assert!(matches!(replies[2], ServerMessage::Record { .. }));
    assert!(matches!(replies[3], ServerMessage::Success { .. }));
}

#[test]
fn helpers_read_first_entry_exactly() {
    let extra = dict(vec![("user_agent", BoltValue::Integer(3))]);
    assert_eq!(hello_config(&extra).user_agent, "unknown");
    assert_eq!(pull_size(&dict(vec![("n", BoltValue::String("5".into()))])), -1);
    assert_eq!(pull_size(&dict(vec![("n", BoltValue::Integer(-1))])), -1);
    let auth = dict(vec![
        ("scheme", BoltValue::String("basic".into())),
        ("credentials", BoltValue::String("pw".into())),
    ]);
    let c = logon_credentials(&auth);
    assert_eq!(c.credentials.as_deref(), Some("pw"));
    assert!(c.principal.is_none());
}

#[test]
fn undecodable_frame_reports_protocol_text() {
    let mut core = ready_core();
    match core.on_frame(&[0xB0, 0x55]) {
        Step::Reply(ServerMessage::Failure { metadata }) => {
            assert_eq!(
                metadata.get("message"),
                Some(&BoltValue::String("protocol error: unknown client message tag".into()))
            );
        }
        other => panic!("unexpected step {other:?}"),
    }
    assert_eq!(core.state, ConnectionState::Failed);
}

#[test]
fn run_keeps_summary_and_columns() {
    let mut core = ready_core();
    let _ = core.run_succeeded(result_with(1));
    let p = core.pending.as_ref().unwrap();
    assert_eq!(p.columns, vec!["x".to_string()]);
    assert_eq!(p.summary, dict(vec![("type", BoltValue::String("r".into()))]));
    assert_eq!(p.offset, 0);
    let _ = core.pull(0).unwrap();
    assert_eq!(core.pending.as_ref().unwrap().offset, 0);
}
