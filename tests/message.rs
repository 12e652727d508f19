use boltr::message::{
    client_message_encodable, server_message_encodable,
    decode_client_message, decode_server_message, encode_client_message, encode_server_message,
    expect_fields, read_u8, ClientMessage, ServerMessage,
};
use boltr::value::{BoltDict, BoltValue};

fn dict(entries: Vec<(&str, BoltValue)>) -> BoltDict {
    let mut d = BoltDict::new();
    for (k, v) in entries {
        d.insert(k.to_string(), v);
    }
    d
}

fn round_trip_client(msg: &ClientMessage) -> ClientMessage {
    let mut buf: Vec<u8> = Vec::new();
    encode_client_message(&mut buf, msg);
    decode_client_message(&buf).expect("decode failed")
}

fn round_trip_server(msg: &ServerMessage) -> ServerMessage {
    let mut buf: Vec<u8> = Vec::new();
    encode_server_message(&mut buf, msg);
    decode_server_message(&buf).expect("decode failed")
}

#[test]
fn round_trip_hello() {
    let msg = ClientMessage::Hello {
        extra: dict(vec![("user_agent", BoltValue::String("test/1.0".into()))]),
    };
    assert_eq!(round_trip_client(&msg), msg);
}

#[test]
fn round_trip_logon() {
    let msg = ClientMessage::Logon {
        auth: dict(vec![
            ("scheme", BoltValue::String("basic".into())),
            ("principal", BoltValue::String("neo4j".into())),
            ("credentials", BoltValue::String("password".into())),
        ]),
    };
    assert_eq!(round_trip_client(&msg), msg);
}

#[test]
fn round_trip_run() {
    let msg = ClientMessage::Run {
        query: "RETURN 1".into(),
        parameters: BoltDict::new(),
        extra: dict(vec![("db", BoltValue::String("neo4j".into()))]),
    };
    assert_eq!(round_trip_client(&msg), msg);
}

#[test]
fn round_trip_zero_field_messages() {
    for msg in [
        ClientMessage::Logoff,
        ClientMessage::Goodbye,
        ClientMessage::Reset,
        ClientMessage::Commit,
        ClientMessage::Rollback,
    ] {
        assert_eq!(round_trip_client(&msg), msg);
    }
}

#[test]
fn round_trip_pull() {
    let msg = ClientMessage::pull_all();
    assert_eq!(round_trip_client(&msg), msg);
}

#[test]
fn round_trip_success() {
    let msg = ServerMessage::Success {
        metadata: dict(vec![("server", BoltValue::String("GrafeoDB/0.4.4".into()))]),
    };
    assert_eq!(round_trip_server(&msg), msg);
}

#[test]
fn round_trip_record() {
    let msg = ServerMessage::Record {
        data: vec![BoltValue::Integer(1), BoltValue::String("hello".into())],
    };
    assert_eq!(round_trip_server(&msg), msg);
}

#[test]
fn round_trip_failure() {
    let msg = ServerMessage::Failure {
        metadata: dict(vec![
            ("code", BoltValue::String("Neo.ClientError.Statement.SyntaxError".into())),
            ("message", BoltValue::String("bad query".into())),
        ]),
    };
    assert_eq!(round_trip_server(&msg), msg);
}

#[test]
fn round_trip_ignored() {
    assert_eq!(round_trip_server(&ServerMessage::Ignored), ServerMessage::Ignored);
}

#[test]
fn hello_wire_bytes() {
    let msg = ClientMessage::Hello { extra: dict(vec![("a", BoltValue::Integer(1))]) };
    let mut buf: Vec<u8> = Vec::new();
    encode_client_message(&mut buf, &msg);
    assert_eq!(buf, vec![0xB1, 0x01, 0xA1, 0x81, 0x61, 0x01]);
}

#[test]
fn pull_n_and_discard_all() {
    let mut buf: Vec<u8> = Vec::new();
    encode_client_message(&mut buf, &ClientMessage::pull_n(5));
    assert_eq!(buf, vec![0xB1, 0x3F, 0xA1, 0x81, 0x6E, 0x05]);
    buf.clear();
    encode_client_message(&mut buf, &ClientMessage::discard_all());
    assert_eq!(buf, vec![0xB1, 0x2F, 0xA1, 0x81, 0x6E, 0xFF]);
}

#[test]
fn decode_message_errors() {
    assert!(decode_client_message(&[]).is_err());
    assert!(decode_client_message(&[0xB0]).is_err());
    assert!(decode_client_message(&[0xB0, 0x55]).is_err());
    // HELLO announcing no fields.
    assert!(decode_client_message(&[0xB0, 0x01]).is_err());
    assert!(decode_server_message(&[0xB0, 0x01]).is_err());
}

#[test]
fn read_u8_and_expect_fields() {
    assert_eq!(read_u8(&[7, 8], 1).unwrap(), (8, 2));
    assert!(read_u8(&[7, 8], 2).is_err());
    assert!(expect_fields("RUN", 3, 3).is_ok());
    assert!(expect_fields("RUN", 2, 3).is_err());
}

#[test]
fn message_encodability_checks() {
    assert!(client_message_encodable(&ClientMessage::pull_all()));
    assert!(client_message_encodable(&ClientMessage::Goodbye));
    assert!(server_message_encodable(&ServerMessage::Record { data: vec![BoltValue::Null] }));
    assert!(server_message_encodable(&ServerMessage::Ignored));
}
