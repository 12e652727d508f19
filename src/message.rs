//! Bolt messages: the requests a client sends, the replies a server sends,
//! and their PackStream form (a tiny structure with a fixed tag).
use vstd::prelude::*;

use crate::decode::{decode_value, decodes_to, encoded_at, items_at, lemma_item_at, sound_items};
use crate::error::{protocol_error, BoltError};
use crate::packstream::{
    enc, enc_items, encodable, encodable_items, encode_dict, encode_list, encode_string,
    encode_struct_header, dict_encodable, list_encodable, str_encodable, TINY_STRUCT,
};
use crate::value::{view_items, BoltDict, BoltValue, Value};

verus! {

pub const SIG_HELLO: u8 = 0x01;
pub const SIG_LOGON: u8 = 0x6A;
pub const SIG_LOGOFF: u8 = 0x6B;
pub const SIG_GOODBYE: u8 = 0x02;
pub const SIG_RESET: u8 = 0x0F;
pub const SIG_RUN: u8 = 0x10;
pub const SIG_PULL: u8 = 0x3F;
pub const SIG_DISCARD: u8 = 0x2F;
pub const SIG_BEGIN: u8 = 0x11;
pub const SIG_COMMIT: u8 = 0x12;
pub const SIG_ROLLBACK: u8 = 0x13;
pub const SIG_SUCCESS: u8 = 0x70;
pub const SIG_RECORD: u8 = 0x71;
pub const SIG_FAILURE: u8 = 0x7F;
pub const SIG_IGNORED: u8 = 0x7E;

/// A message sent from the client to the server.
#[derive(Debug, PartialEq)]
pub enum ClientMessage {
    /// Opens the connection; sent once after the handshake.
    Hello { extra: BoltDict },
    /// Authenticates after HELLO.
    Logon { auth: BoltDict },
    /// Drops the authentication.
    Logoff,
    /// Closes the connection.
    Goodbye,
    /// Returns the connection to a clean state, aborting pending work.
    Reset,
    /// Runs a query, in auto-commit mode or inside a transaction.
    Run { query: String, parameters: BoltDict, extra: BoltDict },
    /// Fetches records of the last RUN.
    Pull { extra: BoltDict },
    /// Drops the records of the last RUN.
    Discard { extra: BoltDict },
    /// Opens an explicit transaction.
    Begin { extra: BoltDict },
    Commit,
    Rollback,
}

/// A message sent from the server to the client.
#[derive(Debug, PartialEq)]
pub enum ServerMessage {
    Success { metadata: BoltDict },
    /// One row of a result.
    Record { data: Vec<BoltValue> },
    Failure { metadata: BoltDict },
    /// The request was not handled (the connection is in an error state).
    Ignored,
}

/// A client message as PackStream sees it: its tag and its fields.
pub open spec fn client_struct(m: ClientMessage) -> Value {
    match m {
        ClientMessage::Hello { extra } => Value::Struct(SIG_HELLO, seq![Value::Dict(extra@)]),
        ClientMessage::Logon { auth } => Value::Struct(SIG_LOGON, seq![Value::Dict(auth@)]),
        ClientMessage::Logoff => Value::Struct(SIG_LOGOFF, seq![]),
        ClientMessage::Goodbye => Value::Struct(SIG_GOODBYE, seq![]),
        ClientMessage::Reset => Value::Struct(SIG_RESET, seq![]),
        ClientMessage::Run { query, parameters, extra } => Value::Struct(
            SIG_RUN,
            seq![Value::Str(query@), Value::Dict(parameters@), Value::Dict(extra@)],
        ),
        ClientMessage::Pull { extra } => Value::Struct(SIG_PULL, seq![Value::Dict(extra@)]),
        ClientMessage::Discard { extra } => Value::Struct(SIG_DISCARD, seq![Value::Dict(extra@)]),
        ClientMessage::Begin { extra } => Value::Struct(SIG_BEGIN, seq![Value::Dict(extra@)]),
        ClientMessage::Commit => Value::Struct(SIG_COMMIT, seq![]),
        ClientMessage::Rollback => Value::Struct(SIG_ROLLBACK, seq![]),
    }
}

/// A server message as PackStream sees it: its tag and its fields.
pub open spec fn server_struct(m: ServerMessage) -> Value {
    match m {
        ServerMessage::Success { metadata } => Value::Struct(
            SIG_SUCCESS,
            seq![Value::Dict(metadata@)],
        ),
        ServerMessage::Record { data } => Value::Struct(
            SIG_RECORD,
            seq![Value::List(view_items(data, data.len() as nat))],
        ),
        ServerMessage::Failure { metadata } => Value::Struct(
            SIG_FAILURE,
            seq![Value::Dict(metadata@)],
        ),
        ServerMessage::Ignored => Value::Struct(SIG_IGNORED, seq![]),
    }
}

proof fn lemma_struct_fields(tag: u8, fs: Seq<Value>)
    ensures
        fs.len() == 0 ==> enc(Value::Struct(tag, fs)) == seq![(0xB0u8 + fs.len()) as u8, tag],
        fs.len() == 1 ==> enc(Value::Struct(tag, fs)) == seq![(0xB0u8 + fs.len()) as u8, tag]
            + enc(fs[0]),
        fs.len() == 3 ==> enc(Value::Struct(tag, fs)) == seq![(0xB0u8 + fs.len()) as u8, tag]
            + enc(fs[0]) + enc(fs[1]) + enc(fs[2]),
        fs.len() <= 15 && crate::packstream::encodable_items(fs, fs.len()) ==> encodable(
            Value::Struct(tag, fs),
        ),
        encodable(Value::Struct(tag, fs)) ==> forall|i: int|
            0 <= i < fs.len() ==> encodable(#[trigger] fs[i]),
{
    reveal_with_fuel(crate::packstream::enc_items, 4);
    reveal_with_fuel(crate::packstream::encodable_items, 4);
    if encodable(Value::Struct(tag, fs)) {
        crate::packstream::lemma_encodable_fields(Value::Struct(tag, fs));
    }
    assert(crate::packstream::enc_items(fs, 0) =~= Seq::<u8>::empty());
    if fs.len() == 1 {
        assert(crate::packstream::enc_items(fs, 1) =~= enc(fs[0]));
    }
    if fs.len() == 3 {
        assert(crate::packstream::enc_items(fs, 3) =~= enc(fs[0]) + enc(fs[1]) + enc(fs[2]));
    }
}

/// Whether every size in a client message fits its header, so that
/// `encode_client_message` may be called on it.
pub fn client_message_encodable(msg: &ClientMessage) -> (r: bool)
    ensures
        r == encodable(client_struct(*msg)),
{
    proof {
        crate::packstream::lemma_encodable_fields_n(client_struct(*msg)->Struct_1);
    }
    match msg {
        ClientMessage::Hello { extra } => dict_encodable(extra),
        ClientMessage::Logon { auth } => dict_encodable(auth),
        ClientMessage::Run { query, parameters, extra } => {
            str_encodable(query) && dict_encodable(parameters) && dict_encodable(extra)
        },
        ClientMessage::Pull { extra } => dict_encodable(extra),
        ClientMessage::Discard { extra } => dict_encodable(extra),
        ClientMessage::Begin { extra } => dict_encodable(extra),
        _ => true,
    }
}

/// Whether every size in a server message fits its header, so that
/// `encode_server_message` may be called on it.
pub fn server_message_encodable(msg: &ServerMessage) -> (r: bool)
    ensures
        r == encodable(server_struct(*msg)),
{
    proof {
        crate::packstream::lemma_encodable_fields_n(server_struct(*msg)->Struct_1);
    }
    match msg {
        ServerMessage::Success { metadata } => dict_encodable(metadata),
        ServerMessage::Record { data } => list_encodable(data),
        ServerMessage::Failure { metadata } => dict_encodable(metadata),
        ServerMessage::Ignored => true,
    }
}

/// Appends the PackStream form of a client message.
pub fn encode_client_message(buf: &mut Vec<u8>, msg: &ClientMessage)
    requires
        encodable(client_struct(*msg)),
    ensures
        final(buf)@ == old(buf)@ + enc(client_struct(*msg)),
{
    let ghost v = client_struct(*msg);
    proof {
        lemma_struct_fields(v->Struct_0, v->Struct_1);
    }
    match msg {
        ClientMessage::Hello { extra } => {
            encode_struct_header(buf, SIG_HELLO, 1);
            encode_dict(buf, extra);
        },
        ClientMessage::Logon { auth } => {
            encode_struct_header(buf, SIG_LOGON, 1);
            encode_dict(buf, auth);
        },
        ClientMessage::Logoff => encode_struct_header(buf, SIG_LOGOFF, 0),
        ClientMessage::Goodbye => encode_struct_header(buf, SIG_GOODBYE, 0),
        ClientMessage::Reset => encode_struct_header(buf, SIG_RESET, 0),
        ClientMessage::Run { query, parameters, extra } => {
            encode_struct_header(buf, SIG_RUN, 3);
            encode_string(buf, query.as_str());
            encode_dict(buf, parameters);
            encode_dict(buf, extra);
        },
        ClientMessage::Pull { extra } => {
            encode_struct_header(buf, SIG_PULL, 1);
            encode_dict(buf, extra);
        },
        ClientMessage::Discard { extra } => {
            encode_struct_header(buf, SIG_DISCARD, 1);
            encode_dict(buf, extra);
        },
        ClientMessage::Begin { extra } => {
            encode_struct_header(buf, SIG_BEGIN, 1);
            encode_dict(buf, extra);
        },
        ClientMessage::Commit => encode_struct_header(buf, SIG_COMMIT, 0),
        ClientMessage::Rollback => encode_struct_header(buf, SIG_ROLLBACK, 0),
    }
    assert(final(buf)@ =~= old(buf)@ + enc(client_struct(*msg)));
}

/// Appends the PackStream form of a server message.
pub fn encode_server_message(buf: &mut Vec<u8>, msg: &ServerMessage)
    requires
        encodable(server_struct(*msg)),
    ensures
        final(buf)@ == old(buf)@ + enc(server_struct(*msg)),
{
    let ghost v = server_struct(*msg);
    proof {
        lemma_struct_fields(v->Struct_0, v->Struct_1);
    }
    match msg {
        ServerMessage::Success { metadata } => {
            encode_struct_header(buf, SIG_SUCCESS, 1);
            encode_dict(buf, metadata);
        },
        ServerMessage::Record { data } => {
            encode_struct_header(buf, SIG_RECORD, 1);
            encode_list(buf, data);
        },
        ServerMessage::Failure { metadata } => {
            encode_struct_header(buf, SIG_FAILURE, 1);
            encode_dict(buf, metadata);
        },
        ServerMessage::Ignored => encode_struct_header(buf, SIG_IGNORED, 0),
    }
    assert(final(buf)@ =~= old(buf)@ + enc(server_struct(*msg)));
}

/// Appends a SUCCESS reply with the given metadata.
pub fn encode_success(buf: &mut Vec<u8>, metadata: &BoltDict)
    requires
        encodable(Value::Dict(metadata@)),
    ensures
        final(buf)@ == old(buf)@ + enc(Value::Struct(SIG_SUCCESS, seq![Value::Dict(metadata@)])),
{
    proof {
        reveal_with_fuel(crate::packstream::encodable_items, 2);
        lemma_struct_fields(SIG_SUCCESS, seq![Value::Dict(metadata@)]);
    }
    encode_struct_header(buf, SIG_SUCCESS, 1);
    encode_dict(buf, metadata);
    assert(final(buf)@ =~= old(buf)@ + enc(
        Value::Struct(SIG_SUCCESS, seq![Value::Dict(metadata@)]),
    ));
}

/// Reads one byte at `pos`.
pub fn read_u8(data: &[u8], pos: usize) -> (r: Result<(u8, usize), BoltError>)
    ensures
        pos < data@.len() <==> r is Ok,
        r is Ok ==> r->Ok_0 == (data@[pos as int], (pos + 1) as usize),
        r is Err ==> r->Err_0 is Protocol,
{
    if pos < data.len() {
        Ok((data[pos], pos + 1))
    } else {
        Err(protocol_error("unexpected end of message"))
    }
}

/// Checks that a message structure carries at least `expected` fields.
pub fn expect_fields(msg_name: &str, got: u8, expected: u8) -> (r: Result<(), BoltError>)
    ensures
        r is Ok <==> got >= expected,
        r is Err ==> r->Err_0 is Protocol,
{
    if got < expected {
        Err(protocol_error("message has too few fields"))
    } else {
        Ok(())
    }
}

/// The tags of the client messages.
pub open spec fn is_client_tag(t: u8) -> bool {
    t == SIG_HELLO || t == SIG_LOGON || t == SIG_LOGOFF || t == SIG_GOODBYE || t == SIG_RESET
        || t == SIG_RUN || t == SIG_PULL || t == SIG_DISCARD || t == SIG_BEGIN || t == SIG_COMMIT
        || t == SIG_ROLLBACK
}

/// The tags of the server messages.
pub open spec fn is_server_tag(t: u8) -> bool {
    t == SIG_SUCCESS || t == SIG_RECORD || t == SIG_FAILURE || t == SIG_IGNORED
}

/// The number of fields a client message with this tag must announce.
pub open spec fn client_fields_needed(t: u8) -> u8 {
    if t == SIG_RUN {
        3
    } else if t == SIG_HELLO || t == SIG_LOGON || t == SIG_PULL || t == SIG_DISCARD || t == SIG_BEGIN {
        1
    } else {
        0
    }
}

/// `v` is a structure whose encoding starts `d`, with well-formed fields.
pub open spec fn message_at(d: Seq<u8>, v: Value) -> bool {
    &&& v is Struct
    &&& encodable(v)
    &&& sound_items(v->Struct_1, v->Struct_1.len())
    &&& enc(v).len() <= d.len()
    &&& d.subrange(0, enc(v).len() as int) == enc(v)
}

/// The fields of a message structure stand in `d` from offset 2 on, and its
/// header says how many there are.
proof fn lemma_message_fields(d: Seq<u8>, v: Value)
    requires
        message_at(d, v),
    ensures
        d.len() >= 2,
        d[1] == v->Struct_0,
        d[0] & 0x0F == v->Struct_1.len(),
        items_at(d, 2, v->Struct_1.len(), v->Struct_1),
{
    let fs = v->Struct_1;
    let h = seq![(TINY_STRUCT + fs.len()) as u8, v->Struct_0];
    let body = enc_items(fs, fs.len());
    assert(enc(v) == h + body);
    crate::packstream::lemma_encodable_fields(v);
    assert(encodable_items(fs, fs.len()));
    assert(d.subrange(0, enc(v).len() as int)[0] == d[0]);
    assert(d.subrange(0, enc(v).len() as int)[1] == d[1]);
    let k = fs.len() as u8;
    let b: u8 = (0xB0u8 + k) as u8;
    assert(b == d[0]);
    assert(b & 0x0F == k) by (bit_vector)
        requires
            k <= 15,
            b == (0xB0u8 + k) as u8,
    ;
    assert(enc(v).subrange(2, enc(v).len() as int) =~= body);
    assert(d.subrange(2, (2 + body.len()) as int) =~= d.subrange(0, enc(v).len() as int).subrange(2, enc(v).len() as int));
}

/// Reads a dictionary-valued field at `pos`.
fn dict_field(data: &[u8], pos: usize) -> (r: Result<(BoltDict, usize), BoltError>)
    requires
        pos <= data@.len(),
    ensures
        r is Ok ==> pos < r->Ok_0.1 <= data@.len(),
        r is Err ==> r->Err_0 is Protocol,
        forall|w: Value|
            #[trigger] encoded_at(data@, pos as int, w) && w is Dict ==> r is Ok && r->Ok_0.0@
                == w->Dict_0 && r->Ok_0.1 == pos + enc(w).len(),
        forall|w: Value| #[trigger] encoded_at(data@, pos as int, w) && !(w is Dict) ==> r is Err,
{
    let (v, end) = decode_value(data, pos)?;
    match v {
        BoltValue::Dict(d) => Ok((d, end)),
        _ => Err(protocol_error("expected dict")),
    }
}

/// Reads the single dictionary field of a message announcing `count` fields.
fn single_dict(data: &[u8], count: u8) -> (r: Result<BoltDict, BoltError>)
    requires
        2 <= data@.len(),
    ensures
        r is Err ==> r->Err_0 is Protocol,
        count < 1 ==> r is Err,
        forall|w: Value| #[trigger] encoded_at(data@, 2, w) && !(w is Dict) ==> r is Err,
        forall|fs: Seq<Value>|
            fs.len() == 1 && fs[0] is Dict && count == 1 && #[trigger] items_at(data@, 2, 1, fs)
                ==> r is Ok && r->Ok_0@ == fs[0]->Dict_0,
{
    expect_fields("message", count, 1)?;
    let r = dict_field(data, 2);
    proof {
        assert forall|fs: Seq<Value>|
            fs.len() == 1 && fs[0] is Dict && count == 1 && #[trigger] items_at(data@, 2, 1, fs)
                implies r is Ok && r->Ok_0.0@ == fs[0]->Dict_0 by {
            lemma_item_at(data@, 2, 1, fs, 0);
            assert(enc_items(fs, 0).len() == 0);
        }
    }
    match r {
        Ok((d, _)) => Ok(d),
        Err(e) => Err(e),
    }
}

/// Reads the three fields of a RUN: query, parameters, extra.
fn run_fields(data: &[u8], count: u8) -> (r: Result<(String, BoltDict, BoltDict), BoltError>)
    requires
        2 <= data@.len(),
    ensures
        r is Err ==> r->Err_0 is Protocol,
        count < 3 ==> r is Err,
        forall|w: Value| #[trigger] encoded_at(data@, 2, w) && !(w is Str) ==> r is Err,
        forall|fs: Seq<Value>|
            fs.len() == 3 && fs[0] is Str && fs[1] is Dict && fs[2] is Dict && count == 3
                && #[trigger] items_at(data@, 2, 3, fs) ==> r is Ok && r->Ok_0.0@ == fs[0]->Str_0
                && r->Ok_0.1@ == fs[1]->Dict_0 && r->Ok_0.2@ == fs[2]->Dict_0,
{
    let ghost d = data@;
    expect_fields("RUN", count, 3)?;
    let first = decode_value(data, 2);
    proof {
        assert forall|fs: Seq<Value>|
            fs.len() == 3 && fs[0] is Str && fs[1] is Dict && fs[2] is Dict && count == 3
                && #[trigger] items_at(d, 2, 3, fs) implies decodes_to(first, 2, fs[0]) by {
            lemma_item_at(d, 2, 3, fs, 0);
            assert(enc_items(fs, 0).len() == 0);
        }
    }
    let (q, p) = match first {
        Ok(x) => x,
        Err(e) => {
            return Err(e);
        },
    };
    let query = match q {
        BoltValue::String(s) => s,
        _ => {
            return Err(protocol_error("expected string"));
        },
    };
    let second = dict_field(data, p);
    proof {
        assert forall|fs: Seq<Value>|
            fs.len() == 3 && fs[0] is Str && fs[1] is Dict && fs[2] is Dict && count == 3
                && #[trigger] items_at(d, 2, 3, fs) implies second is Ok && second->Ok_0.0@ == fs[1]->Dict_0
                && second->Ok_0.1 == 2 + enc_items(fs, 2).len() by {
            lemma_item_at(d, 2, 3, fs, 0);
            lemma_item_at(d, 2, 3, fs, 1);
            assert(enc_items(fs, 0).len() == 0);
        }
    }
    let (parameters, p2) = match second {
        Ok(x) => x,
        Err(e) => {
            return Err(e);
        },
    };
    let third = dict_field(data, p2);
    proof {
        assert forall|fs: Seq<Value>|
            fs.len() == 3 && fs[0] is Str && fs[1] is Dict && fs[2] is Dict && count == 3
                && #[trigger] items_at(d, 2, 3, fs) implies third is Ok && third->Ok_0.0@ == fs[2]->Dict_0 by {
            lemma_item_at(d, 2, 3, fs, 0);
            lemma_item_at(d, 2, 3, fs, 1);
            lemma_item_at(d, 2, 3, fs, 2);
            assert(enc_items(fs, 0).len() == 0);
        }
    }
    let (extra, _) = match third {
        Ok(x) => x,
        Err(e) => {
            return Err(e);
        },
    };
    Ok((query, parameters, extra))
}

/// Decodes a client message from the payload of one framed message. The
/// encoding of any message with well-formed fields decodes to that message.
pub fn decode_client_message(data: &[u8]) -> (r: Result<ClientMessage, BoltError>)
    ensures
        data@.len() < 2 ==> r is Err,
        data@.len() >= 2 && !is_client_tag(data@[1]) ==> r is Err,
        data@.len() >= 2 && client_fields_needed(data@[1]) > (data@[0] & 0x0F) ==> r is Err,
        r is Ok ==> client_struct(r->Ok_0)->Struct_0 == data@[1],
        forall|w: Value|
            data@.len() >= 2 && #[trigger] encoded_at(data@, 2, w) && ((data@[1] == SIG_RUN
                && !(w is Str)) || (client_fields_needed(data@[1]) == 1 && !(w is Dict))) ==> r is Err,
        r is Err ==> r->Err_0 is Protocol,
        forall|m: ClientMessage| #[trigger] message_at(data@, client_struct(m)) ==> r is Ok
            && client_struct(r->Ok_0) == client_struct(m),
{
    let ghost d = data@;
    if data.len() < 2 {
        proof {
            assert forall|m: ClientMessage| #[trigger] message_at(d, client_struct(m)) implies false by {
                lemma_message_fields(d, client_struct(m));
            }
        }
        return Err(protocol_error("unexpected end of message"));
    }
    let field_count = data[0] & 0x0F;
    let tag = data[1];
    let r = if tag == SIG_HELLO {
        match single_dict(data, field_count) {
            Ok(extra) => Ok(ClientMessage::Hello { extra }),
            Err(e) => Err(e),
        }
    } else if tag == SIG_LOGON {
        match single_dict(data, field_count) {
            Ok(auth) => Ok(ClientMessage::Logon { auth }),
            Err(e) => Err(e),
        }
    } else if tag == SIG_LOGOFF {
        Ok(ClientMessage::Logoff)
    } else if tag == SIG_GOODBYE {
        Ok(ClientMessage::Goodbye)
    } else if tag == SIG_RESET {
        Ok(ClientMessage::Reset)
    } else if tag == SIG_RUN {
        match run_fields(data, field_count) {
            Ok((query, parameters, extra)) => Ok(ClientMessage::Run { query, parameters, extra }),
            Err(e) => Err(e),
        }
    } else if tag == SIG_PULL {
        match single_dict(data, field_count) {
            Ok(extra) => Ok(ClientMessage::Pull { extra }),
            Err(e) => Err(e),
        }
    } else if tag == SIG_DISCARD {
        match single_dict(data, field_count) {
            Ok(extra) => Ok(ClientMessage::Discard { extra }),
            Err(e) => Err(e),
        }
    } else if tag == SIG_BEGIN {
        match single_dict(data, field_count) {
            Ok(extra) => Ok(ClientMessage::Begin { extra }),
            Err(e) => Err(e),
        }
    } else if tag == SIG_COMMIT {
        Ok(ClientMessage::Commit)
    } else if tag == SIG_ROLLBACK {
        Ok(ClientMessage::Rollback)
    } else {
        Err(protocol_error("unknown client message tag"))
    };
    proof {
        assert forall|m: ClientMessage| #[trigger] message_at(d, client_struct(m)) implies r is Ok
            && client_struct(r->Ok_0) == client_struct(m) by {
            lemma_message_fields(d, client_struct(m));
            assert(client_struct(r->Ok_0)->Struct_1 =~= client_struct(m)->Struct_1);
        }
    }
    r
}

/// Reads the single list field of a RECORD announcing `count` fields.
fn single_list(data: &[u8], count: u8) -> (r: Result<Vec<BoltValue>, BoltError>)
    requires
        2 <= data@.len(),
    ensures
        r is Err ==> r->Err_0 is Protocol,
        count < 1 ==> r is Err,
        forall|fs: Seq<Value>|
            fs.len() == 1 && fs[0] is List && count == 1 && #[trigger] items_at(data@, 2, 1, fs)
                ==> r is Ok && view_items(r->Ok_0, r->Ok_0.len() as nat) == fs[0]->List_0,
{
    expect_fields("RECORD", count, 1)?;
    let r = decode_value(data, 2);
    proof {
        assert forall|fs: Seq<Value>|
            fs.len() == 1 && fs[0] is List && count == 1 && #[trigger] items_at(data@, 2, 1, fs)
                implies decodes_to(r, 2, fs[0]) by {
            lemma_item_at(data@, 2, 1, fs, 0);
            assert(enc_items(fs, 0).len() == 0);
        }
    }
    match r {
        Ok((BoltValue::List(items), _)) => Ok(items),
        Ok(_) => Err(protocol_error("expected list")),
        Err(e) => Err(e),
    }
}

/// Decodes a server message from the payload of one framed message. The
/// encoding of any message with well-formed fields decodes to that message.
pub fn decode_server_message(data: &[u8]) -> (r: Result<ServerMessage, BoltError>)
    ensures
        data@.len() < 2 ==> r is Err,
        data@.len() >= 2 && !is_server_tag(data@[1]) ==> r is Err,
        data@.len() >= 2 && is_server_tag(data@[1]) && data@[1] != SIG_IGNORED && (data@[0] & 0x0F)
            < 1 ==> r is Err,
        r is Ok ==> server_struct(r->Ok_0)->Struct_0 == data@[1],
        r is Err ==> r->Err_0 is Protocol,
        forall|m: ServerMessage| #[trigger] message_at(data@, server_struct(m)) ==> r is Ok
            && server_struct(r->Ok_0) == server_struct(m),
{
    let ghost d = data@;
    if data.len() < 2 {
        proof {
            assert forall|m: ServerMessage| #[trigger] message_at(d, server_struct(m)) implies false by {
                lemma_message_fields(d, server_struct(m));
            }
        }
        return Err(protocol_error("unexpected end of message"));
    }
    let field_count = data[0] & 0x0F;
    let tag = data[1];
    let r = if tag == SIG_SUCCESS {
        match single_dict(data, field_count) {
            Ok(metadata) => Ok(ServerMessage::Success { metadata }),
            Err(e) => Err(e),
        }
    } else if tag == SIG_RECORD {
        match single_list(data, field_count) {
            Ok(items) => Ok(ServerMessage::Record { data: items }),
            Err(e) => Err(e),
        }
    } else if tag == SIG_FAILURE {
        match single_dict(data, field_count) {
            Ok(metadata) => Ok(ServerMessage::Failure { metadata }),
            Err(e) => Err(e),
        }
    } else if tag == SIG_IGNORED {
        Ok(ServerMessage::Ignored)
    } else {
        Err(protocol_error("unknown server message tag"))
    };
    proof {
        assert forall|m: ServerMessage| #[trigger] message_at(d, server_struct(m)) implies r is Ok
            && server_struct(r->Ok_0) == server_struct(m) by {
            lemma_message_fields(d, server_struct(m));
            assert(server_struct(r->Ok_0)->Struct_1 =~= server_struct(m)->Struct_1);
        }
    }
    r
}

impl ClientMessage {
    /// A PULL asking for all remaining records (`n` = -1).
    pub fn pull_all() -> (r: ClientMessage)
        ensures
            r is Pull,
            r->Pull_extra@ == seq![(seq!['n'], Value::Int(-1i64))],
    {
        ClientMessage::Pull { extra: n_dict(-1) }
    }

    /// A PULL asking for `n` records.
    pub fn pull_n(n: i64) -> (r: ClientMessage)
        ensures
            r is Pull,
            r->Pull_extra@ == seq![(seq!['n'], Value::Int(n))],
    {
        ClientMessage::Pull { extra: n_dict(n) }
    }

    /// A DISCARD of all remaining records (`n` = -1).
    pub fn discard_all() -> (r: ClientMessage)
        ensures
            r is Discard,
            r->Discard_extra@ == seq![(seq!['n'], Value::Int(-1i64))],
    {
        ClientMessage::Discard { extra: n_dict(-1) }
    }
}

fn n_dict(n: i64) -> (r: BoltDict)
    ensures
        r@ == seq![(seq!['n'], Value::Int(n))],
{
    let mut d = BoltDict::new();
    d.entries.push(("n".to_owned(), BoltValue::Integer(n)));
    proof {
        reveal_strlit("n");
        crate::value::lemma_dict_view(d);
        assert("n"@ =~= seq!['n']);
    }
    assert(d@ =~= seq![(seq!['n'], Value::Int(n))]);
    d
}

} // verus!
