//! The handshake: the client's magic preamble and version proposals, and
//! the server's answer. Reading and writing the bytes is the caller's part.
use vstd::prelude::*;

use crate::error::{protocol_error, BoltError};
use crate::version::{encode_version, negotiate_from, negotiate_version, BOLT_MAGIC, NO_VERSION};

verus! {

/// What the server does after reading the preamble and the proposals.
#[derive(Debug, Clone, Copy, PartialEq, Eq, Structural)]
pub enum HandshakeOutcome {
    /// The preamble is wrong: drop the connection without a reply.
    BadMagic,
    /// No proposal can be honoured: reply `00 00 00 00`, then close.
    NoVersion,
    /// Reply `[0, 0, minor, major]` and go on with this version.
    Agreed { major: u8, minor: u8 },
}

/// Decides the server's side of the handshake.
pub fn server_handshake(magic: &[u8; 4], proposals: &[u8; 16]) -> (r: HandshakeOutcome)
    ensures
        magic@ != seq![0x60u8, 0x60u8, 0xB0u8, 0x17u8] ==> r == HandshakeOutcome::BadMagic,
        magic@ == seq![0x60u8, 0x60u8, 0xB0u8, 0x17u8] ==> match negotiate_from(proposals@, 0) {
            None => r == HandshakeOutcome::NoVersion,
            Some((major, minor)) => r == (HandshakeOutcome::Agreed { major, minor }),
        },
{
    let expected = BOLT_MAGIC;
    if !(magic[0] == expected[0] && magic[1] == expected[1] && magic[2] == expected[2]
        && magic[3] == expected[3]) {
        assert(magic@ != seq![0x60u8, 0x60u8, 0xB0u8, 0x17u8]) by {
            if magic@ == seq![0x60u8, 0x60u8, 0xB0u8, 0x17u8] {
                assert(magic@[0] == 0x60u8);
            }
        }
        return HandshakeOutcome::BadMagic;
    }
    assert(magic@ =~= seq![0x60u8, 0x60u8, 0xB0u8, 0x17u8]);
    match negotiate_version(proposals) {
        Some((major, minor)) => HandshakeOutcome::Agreed { major, minor },
        None => HandshakeOutcome::NoVersion,
    }
}

/// The four bytes the server sends for an outcome, if it sends any.
pub fn handshake_reply(outcome: HandshakeOutcome) -> (r: Option<[u8; 4]>)
    ensures
        outcome is BadMagic ==> r is None,
        outcome is NoVersion ==> r is Some && r->Some_0@ == seq![0u8, 0u8, 0u8, 0u8],
        outcome is Agreed ==> r is Some && r->Some_0@ == seq![
            0u8,
            0u8,
            outcome->Agreed_minor,
            outcome->Agreed_major,
        ],
{
    match outcome {
        HandshakeOutcome::BadMagic => None,
        HandshakeOutcome::NoVersion => {
            let reply = NO_VERSION;
            assert(reply@ =~= seq![0u8, 0u8, 0u8, 0u8]);
            Some(reply)
        },
        HandshakeOutcome::Agreed { major, minor } => Some(encode_version(major, minor)),
    }
}

/// Reads the server's reply on the client side: the agreed version, or an
/// error when the server rejected every proposal.
pub fn client_handshake(response: &[u8; 4]) -> (r: Result<(u8, u8), BoltError>)
    ensures
        response@[3] == 0 && response@[2] == 0 <==> r is Err,
        r is Ok ==> r->Ok_0 == (response@[3], response@[2]),
        r is Err ==> r->Err_0 is Protocol,
{
    let major = response[3];
    let minor = response[2];
    if major == 0 && minor == 0 {
        return Err(protocol_error("server rejected all proposed versions"));
    }
    Ok((major, minor))
}

} // verus!
