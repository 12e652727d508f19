use boltr::handshake::{client_handshake, handshake_reply, server_handshake, HandshakeOutcome};
use boltr::version::{default_client_proposals, BOLT_MAGIC};

#[test]
fn handshake_success() {
    let proposals = default_client_proposals();
    let outcome = server_handshake(&BOLT_MAGIC, &proposals);
    assert_eq!(outcome, HandshakeOutcome::Agreed { major: 5, minor: 4 });
    let reply = handshake_reply(outcome).unwrap();
    let client_version = client_handshake(&reply).unwrap();
    assert_eq!(client_version, (5, 4));
}

#[test]
fn handshake_no_match() {
    let mut proposals = [0u8; 16];
    proposals[2] = 4;
    proposals[3] = 4;
    let outcome = server_handshake(&BOLT_MAGIC, &proposals);
    assert_eq!(outcome, HandshakeOutcome::NoVersion);
    let reply = handshake_reply(outcome).unwrap();
    assert!(client_handshake(&reply).is_err());
}

#[test]
fn handshake_literal_bytes() {
    // 60 60 B0 17, then 00 03 04 05 and twelve zero bytes.
    let magic = [0x60, 0x60, 0xB0, 0x17];
    let mut proposals = [0u8; 16];
    proposals[0] = 0x00;
    proposals[1] = 0x03;
    proposals[2] = 0x04;
    proposals[3] = 0x05;
    let outcome = server_handshake(&magic, &proposals);
    assert_eq!(handshake_reply(outcome), Some([0x00, 0x00, 0x04, 0x05]));
    assert_eq!(outcome, HandshakeOutcome::Agreed { major: 5, minor: 4 });
}

#[test]
fn handshake_bad_magic() {
    let proposals = default_client_proposals();
    let outcome = server_handshake(&[0x60, 0x60, 0xB0, 0x18], &proposals);
    assert_eq!(outcome, HandshakeOutcome::BadMagic);
    assert_eq!(handshake_reply(outcome), None);
}
