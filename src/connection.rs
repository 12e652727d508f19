//! The decisions of one server connection. The caller reads frames,
//! calls the backend and writes replies; this core decides what each
//! frame means, what to reply, and how the state moves.
use vstd::prelude::*;

use crate::backend::{AuthCredentials, BoltRecord, ResultStream, SessionConfig};
use crate::error::protocol_error;
use crate::error::{failure_dict, failure_metadata, failure_parts, BoltError, CODE_INVALID_FORMAT};
use crate::message::{
    client_fields_needed, client_struct, decode_client_message, is_client_tag, message_at,
    ClientMessage, ServerMessage,
};
use crate::session_manager::{SessionHandle, TransactionHandle};
use crate::state_machine::{admits, after_failure, after_streaming, after_success, Admission, ConnectionState};
use crate::value::{dict_insert, find_key, lemma_dict_view, lookup, str_items, BoltDict, BoltValue, Value};

verus! {

/// The records of the last RUN not yet pulled, with what was delivered.
pub struct PendingResult {
    /// Records not yet sent, in order.
    pub records: Vec<BoltRecord>,
    /// How many records were sent so far.
    pub offset: usize,
    pub columns: Vec<String>,
    pub summary: BoltDict,
}

/// What the caller does with one inbound frame.
#[derive(Debug)]
pub enum Step {
    /// An empty frame (keep-alive): nothing to do.
    Noop,
    /// Send this reply; no handler runs.
    Reply(ServerMessage),
    /// Close the connection without a reply.
    Close,
    /// Run the handler of this message.
    Dispatch(ClientMessage),
}

/// The per-connection state that the driver owns.
pub struct ConnectionCore {
    pub state: ConnectionState,
    pub session: Option<SessionHandle>,
    pub transaction: Option<TransactionHandle>,
    pub pending: Option<PendingResult>,
}

pub open spec fn key_has_more() -> Seq<char> {
    seq!['h', 'a', 's', '_', 'm', 'o', 'r', 'e']
}

/// The number of records a PULL of size `n` takes from `available`:
/// all of them for a negative size, else at most `n`.
pub open spec fn take_count(n: i64, available: nat) -> nat {
    if n < 0 || n >= available {
        available
    } else {
        n as nat
    }
}

impl ConnectionCore {
    /// A connection just past the handshake, waiting for HELLO.
    pub fn new() -> (r: ConnectionCore)
        ensures
            r.state == ConnectionState::Negotiation,
            r.session is None,
            r.transaction is None,
            r.pending is None,
    {
        ConnectionCore {
            state: ConnectionState::Negotiation,
            session: None,
            transaction: None,
            pending: None,
        }
    }

    /// Decides what an inbound frame means. An empty frame is a keep-alive;
    /// an undecodable one is answered with an InvalidFormat FAILURE and
    /// latches `Failed`; a message the state does not accept is ignored
    /// (a GOODBYE closes); any other message goes to its handler.
    pub fn on_frame(&mut self, payload: &[u8]) -> (r: Step)
        ensures
            payload@.len() == 0 ==> r is Noop && final(self).state == old(self).state,
            r is Noop ==> payload@.len() == 0,
            r is Reply ==> (r->Reply_0 is Ignored && final(self).state == old(self).state)
                || (r->Reply_0 is Failure && final(self).state == ConnectionState::Failed),
            r is Close ==> final(self).state == ConnectionState::Defunct,
            r is Reply && r->Reply_0 is Failure ==> exists|m: Seq<char>|
                r->Reply_0->Failure_metadata@ == failure_metadata(
                    CODE_INVALID_FORMAT@,
                    "protocol error: "@ + m,
                ),
            payload@.len() > 0 && (payload@.len() < 2 || !is_client_tag(payload@[1])
                || client_fields_needed(payload@[1]) > (payload@[0] & 0x0F)) ==> r is Reply
                && r->Reply_0 is Failure && final(self).state == ConnectionState::Failed,
            r is Dispatch ==> admits(old(self).state, r->Dispatch_0) && final(self).state == old(
                self,
            ).state,
            forall|m: ClientMessage| #[trigger] message_at(payload@, client_struct(m)) ==> {
                &&& admits(old(self).state, m) ==> r is Dispatch && client_struct(r->Dispatch_0)
                    == client_struct(m)
                &&& !admits(old(self).state, m) && m is Goodbye ==> r is Close
                &&& !admits(old(self).state, m) && !(m is Goodbye) ==> r is Reply && r->Reply_0 is Ignored
                    && final(self).state == old(self).state
            },
            final(self).session == old(self).session,
            final(self).transaction == old(self).transaction,
            final(self).pending == old(self).pending,
    {
        if payload.len() == 0 {
            proof {
                assert forall|m: ClientMessage| #[trigger] message_at(payload@, client_struct(m)) implies false by {
                    crate::packstream::lemma_enc_fields(client_struct(m)->Struct_1);
                }
            }
            return Step::Noop;
        }
        match decode_client_message(payload) {
            Err(e) => {
                let text = e.to_text();
                self.state = ConnectionState::Failed;
                Step::Reply(ServerMessage::Failure { metadata: failure_dict(CODE_INVALID_FORMAT, text.as_str()) })
            },
            Ok(msg) => {
                proof {
                    assert forall|m: ClientMessage| #[trigger] message_at(payload@, client_struct(m)) implies (
                        admits(old(self).state, m) == admits(old(self).state, msg) && (m is Goodbye <==> msg is Goodbye)) by {
                        lemma_same_struct_same_kind(m, msg);
                    }
                }
                let (admission, next) = self.state.screen(&msg);
                self.state = next;
                match admission {
                    Admission::Dispatch => Step::Dispatch(msg),
                    Admission::Ignore => Step::Reply(ServerMessage::Ignored),
                    Admission::Close => Step::Close,
                }
            },
        }
    }

    /// Records that the handler of `msg` succeeded.
    pub fn handled(&mut self, msg: &ClientMessage)
        ensures
            final(self).state == after_success(old(self).state, *msg),
            final(self).session == old(self).session,
            final(self).transaction == old(self).transaction,
            final(self).pending == old(self).pending,
    {
        self.state = self.state.transition_success(msg);
    }

    /// Records that the handler of `msg` failed with `e`, and gives the
    /// FAILURE reply that reports it.
    pub fn failed(&mut self, msg: &ClientMessage, e: &BoltError) -> (r: ServerMessage)
        ensures
            final(self).state == after_failure(*msg),
            r is Failure,
            r->Failure_metadata@ == failure_metadata(failure_parts(*e).0, failure_parts(*e).1),
            final(self).session == old(self).session,
            final(self).transaction == old(self).transaction,
            final(self).pending == old(self).pending,
    {
        self.state = self.state.transition_failure(msg);
        ServerMessage::Failure { metadata: e.to_failure_metadata() }
    }

    /// Buffers the result of a RUN and gives its SUCCESS reply, with the
    /// column names under `fields` and `t_first` = 0.
    pub fn run_succeeded(&mut self, result: ResultStream) -> (r: ServerMessage)
        ensures
            final(self).state == match old(self).state {
                ConnectionState::Ready => ConnectionState::Streaming,
                ConnectionState::TxReady => ConnectionState::TxStreaming,
                other => other,
            },
            final(self).pending is Some,
            final(self).pending->Some_0.offset == 0,
            final(self).pending->Some_0.records@ == result.records@,
            final(self).pending->Some_0.summary == result.summary,
            final(self).pending->Some_0.columns@ == result.metadata.columns@,
            r is Success,
            r->Success_metadata@ == seq![
                (seq!['f', 'i', 'e', 'l', 'd', 's'], Value::List(str_items(result.metadata.columns@))),
                (seq!['t', '_', 'f', 'i', 'r', 's', 't'], Value::Int(0)),
            ],
            final(self).session == old(self).session,
            final(self).transaction == old(self).transaction,
    {
        let ghost records = result.records@;
        let columns = result.metadata.columns;
        let mut fields: Vec<BoltValue> = Vec::new();
        let mut i: usize = 0;
        while i < columns.len()
            invariant
                i <= columns.len(),
                fields.len() == i,
                forall|j: int| 0 <= j < i ==> #[trigger] fields[j] == BoltValue::String(fields[j]->String_0) && fields[j]->String_0@ == columns@[j]@,
            decreases columns.len() - i,
        {
            fields.push(BoltValue::String(columns[i].clone()));
            i += 1;
        }
        let mut meta = BoltDict::new();
        meta.entries.push(("fields".to_owned(), BoltValue::List(fields)));
        meta.entries.push(("t_first".to_owned(), BoltValue::Integer(0)));
        proof {
            reveal_strlit("fields");
            reveal_strlit("t_first");
            assert("fields"@ =~= seq!['f', 'i', 'e', 'l', 'd', 's']);
            assert("t_first"@ =~= seq!['t', '_', 'f', 'i', 'r', 's', 't']);
            lemma_dict_view(meta);
            crate::value::lemma_list_view(fields);
            assert(crate::value::view_items(fields, fields.len() as nat) =~= str_items(columns@));
        }
        assert(meta@ =~= seq![
            (seq!['f', 'i', 'e', 'l', 'd', 's'], Value::List(str_items(columns@))),
            (seq!['t', '_', 'f', 'i', 'r', 's', 't'], Value::Int(0)),
        ]);
        self.pending = Some(PendingResult { records: result.records, offset: 0, columns, summary: result.summary });
        let run = ClientMessage::Run { query: String::new(), parameters: BoltDict::new(), extra: BoltDict::new() };
        self.state = self.state.transition_success(&run);
        ServerMessage::Success { metadata: meta }
    }

    /// Answers a PULL of `n` records (negative: all that remain): one
    /// RECORD per record taken, in order, then a SUCCESS with `has_more`.
    /// When nothing remains the pending result is dropped, its summary is
    /// merged into the SUCCESS and streaming completes.
    pub fn pull(&mut self, n: i64) -> (r: Result<Vec<ServerMessage>, BoltError>)
        ensures
            old(self).pending is None <==> r is Err,
            r is Err ==> r->Err_0 is Protocol && final(self).state == old(self).state,
            r is Ok ==> r->Ok_0@.len() == take_count(n, old(self).pending->Some_0.records@.len()) + 1,
            r is Ok ==> forall|i: int|
                0 <= i < take_count(n, old(self).pending->Some_0.records@.len()) ==> #[trigger] r->Ok_0@[i]
                    == (ServerMessage::Record { data: old(self).pending->Some_0.records@[i].values }),
            r is Ok ==> r->Ok_0@.last() is Success,
            r is Ok ==> r->Ok_0@.last()->Success_metadata@.len() >= 1 && r->Ok_0@.last()->Success_metadata@[0].0 == key_has_more(),
            r is Ok && take_count(n, old(self).pending->Some_0.records@.len()) < old(self).pending->Some_0.records@.len() ==> {
                &&& r->Ok_0@.last()->Success_metadata@ == seq![(key_has_more(), Value::Bool(true))]
                &&& final(self).pending is Some
                &&& final(self).pending->Some_0.records@ == old(self).pending->Some_0.records@.skip(take_count(n, old(self).pending->Some_0.records@.len()) as int)
                &&& final(self).pending->Some_0.offset == (if old(self).pending->Some_0.offset + take_count(n, old(self).pending->Some_0.records@.len()) <= usize::MAX {
                    old(self).pending->Some_0.offset + take_count(n, old(self).pending->Some_0.records@.len())
                } else {
                    usize::MAX as int
                })
                &&& final(self).pending->Some_0.summary == old(self).pending->Some_0.summary
                &&& final(self).pending->Some_0.columns == old(self).pending->Some_0.columns
                &&& final(self).state == old(self).state
            },
            r is Ok && take_count(n, old(self).pending->Some_0.records@.len()) == old(self).pending->Some_0.records@.len() ==> {
                &&& final(self).pending is None
                &&& final(self).state == after_streaming(old(self).state)
                &&& r->Ok_0@.last()->Success_metadata@ == insert_all(
                    seq![(key_has_more(), Value::Bool(false))],
                    old(self).pending->Some_0.summary@,
                )
                &&& (forall|i: int| 0 <= i < old(self).pending->Some_0.summary@.len() ==> #[trigger] old(self).pending->Some_0.summary@[i].0 != key_has_more())
                    ==> r->Ok_0@.last()->Success_metadata@[0].1 == Value::Bool(false)
            },
            final(self).session == old(self).session,
            final(self).transaction == old(self).transaction,
    {
        if self.pending.is_none() {
            return Err(crate::error::protocol_error("no pending result to pull"));
        }
        let mut pending = self.pending.take().unwrap();
        let ghost old_records = pending.records@;
        let total = pending.records.len();
        let k: usize = if n < 0 || n as u64 >= total as u64 { total } else { n as usize };
        let mut replies: Vec<ServerMessage> = Vec::new();
        let mut i: usize = 0;
        while i < k
            invariant
                i <= k,
                k <= total,
                total == old_records.len(),
                pending.records@ == old_records.skip(i as int),
                replies@.len() == i,
                forall|j: int| 0 <= j < i ==> #[trigger] replies@[j] == (ServerMessage::Record { data: old_records[j].values }),
                pending.offset == old(self).pending->Some_0.offset,
                pending.summary == old(self).pending->Some_0.summary,
                pending.columns == old(self).pending->Some_0.columns,
            decreases k - i,
        {
            let rec = pending.records.remove(0);
            replies.push(ServerMessage::Record { data: rec.values });
            i += 1;
            assert(pending.records@ =~= old_records.skip(i as int));
        }
        let has_more = k < total;
        let mut meta = BoltDict::new();
        meta.entries.push(("has_more".to_owned(), BoltValue::Boolean(has_more)));
        proof {
            reveal_strlit("has_more");
            lemma_dict_view(meta);
            assert("has_more"@ =~= key_has_more());
        }
        assert(meta@ =~= seq![(key_has_more(), Value::Bool(has_more))]);
        if has_more {
            pending.offset = if pending.offset <= usize::MAX - k { pending.offset + k } else { usize::MAX };
            self.pending = Some(pending);
        } else {
            meta = merge_summary(meta, pending.summary);
            self.state = self.state.complete_streaming();
        }
        replies.push(ServerMessage::Success { metadata: meta });
        Ok(replies)
    }
    /// Answers a DISCARD: the pending result is dropped and streaming
    /// completes; the reply is SUCCESS with `has_more` false.
    pub fn discard(&mut self) -> (r: ServerMessage)
        ensures
            final(self).pending is None,
            final(self).state == after_streaming(old(self).state),
            r is Success,
            r->Success_metadata@ == seq![(key_has_more(), Value::Bool(false))],
            final(self).session == old(self).session,
            final(self).transaction == old(self).transaction,
    {
        self.pending = None;
        self.state = self.state.complete_streaming();
        let mut meta = BoltDict::new();
        meta.entries.push(("has_more".to_owned(), BoltValue::Boolean(false)));
        proof {
            reveal_strlit("has_more");
            lemma_dict_view(meta);
            assert("has_more"@ =~= key_has_more());
        }
        assert(meta@ =~= seq![(key_has_more(), Value::Bool(false))]);
        ServerMessage::Success { metadata: meta }
    }

    /// Starts a RESET: the pending result is dropped and the open
    /// transaction, if any, is handed back to be rolled back.
    pub fn reset(&mut self) -> (r: Option<TransactionHandle>)
        ensures
            r == old(self).transaction,
            final(self).transaction is None,
            final(self).pending is None,
            final(self).state == old(self).state,
            final(self).session == old(self).session,
    {
        self.pending = None;
        self.transaction.take()
    }

    /// Checks that HELLO has opened a session.
    pub fn require_session(&self) -> (r: Result<(), BoltError>)
        ensures
            r is Ok <==> self.session is Some,
            r is Err ==> r->Err_0 is Session,
    {
        if self.session.is_none() {
            return Err(BoltError::Session("no active session".to_owned()));
        }
        Ok(())
    }

    /// Takes the open transaction for COMMIT or ROLLBACK; fails when there
    /// is no session, or no transaction.
    pub fn take_transaction(&mut self) -> (r: Result<TransactionHandle, BoltError>)
        ensures
            old(self).session is None ==> r is Err && r->Err_0 is Session,
            old(self).session is Some && old(self).transaction is None ==> r is Err && r->Err_0 is Transaction,
            r is Ok ==> old(self).session is Some && old(self).transaction == Some(r->Ok_0),
            final(self).transaction is None || final(self).transaction == old(self).transaction,
            r is Ok ==> final(self).transaction is None,
            final(self).session == old(self).session,
            final(self).state == old(self).state,
            final(self).pending == old(self).pending,
    {
        if self.session.is_none() {
            return Err(BoltError::Session("no active session".to_owned()));
        }
        match self.transaction.take() {
            Some(tx) => Ok(tx),
            None => Err(BoltError::Transaction("no active transaction".to_owned())),
        }
    }

    /// Records an opened transaction after BEGIN.
    pub fn begin_succeeded(&mut self, tx: TransactionHandle)
        ensures
            final(self).transaction == Some(tx),
            final(self).state == (if old(self).state == ConnectionState::Ready {
                ConnectionState::TxReady
            } else {
                old(self).state
            }),
            final(self).session == old(self).session,
            final(self).pending == old(self).pending,
    {
        self.transaction = Some(tx);
        let begin = ClientMessage::Begin { extra: BoltDict::new() };
        self.state = self.state.transition_success(&begin);
    }

    /// Records the session that HELLO opened, and gives the SUCCESS reply.
    pub fn hello_succeeded(&mut self, session: SessionHandle, metadata: BoltDict) -> (r: ServerMessage)
        ensures
            final(self).session == Some(session),
            final(self).state == (if old(self).state == ConnectionState::Negotiation {
                ConnectionState::Authentication
            } else {
                old(self).state
            }),
            r == (ServerMessage::Success { metadata }),
            final(self).transaction == old(self).transaction,
            final(self).pending == old(self).pending,
    {
        self.session = Some(session);
        let hello = ClientMessage::Hello { extra: BoltDict::new() };
        self.state = self.state.transition_success(&hello);
        ServerMessage::Success { metadata }
    }
}

/// Two client messages with the same PackStream structure are of the same
/// kind.
proof fn lemma_same_struct_same_kind(a: ClientMessage, b: ClientMessage)
    requires
        client_struct(a) == client_struct(b),
    ensures
        forall|s: ConnectionState| admits(s, a) == admits(s, b),
        a is Goodbye <==> b is Goodbye,
{
}

/// Relies on `uuid::Uuid::new_v4` and its `Display`: a random version-4
/// UUID in its hyphenated form, 36 characters long.
#[verifier::external_body]
pub fn fresh_connection_id() -> (r: String)
    ensures
        r@.len() == 36,
{
    uuid::Uuid::new_v4().to_string()
}

/// The string stored under `key`, if that entry holds a string.
pub fn string_entry(d: &BoltDict, key: &str) -> (r: Option<String>)
    ensures
        match lookup(d@, key@) {
            Some(Value::Str(s)) => r is Some && r->Some_0@ == s,
            _ => r is None,
        },
{
    match d.get(key) {
        Some(BoltValue::String(s)) => Some(s.clone()),
        _ => None,
    }
}

pub open spec fn key_n() -> Seq<char> {
    seq!['n']
}

pub open spec fn key_db() -> Seq<char> {
    seq!['d', 'b']
}

pub open spec fn key_user_agent() -> Seq<char> {
    seq!['u', 's', 'e', 'r', '_', 'a', 'g', 'e', 'n', 't']
}

pub open spec fn key_scheme() -> Seq<char> {
    seq!['s', 'c', 'h', 'e', 'm', 'e']
}

pub open spec fn key_principal() -> Seq<char> {
    seq!['p', 'r', 'i', 'n', 'c', 'i', 'p', 'a', 'l']
}

pub open spec fn key_credentials() -> Seq<char> {
    seq!['c', 'r', 'e', 'd', 'e', 'n', 't', 'i', 'a', 'l', 's']
}

pub open spec fn key_connection_id() -> Seq<char> {
    seq!['c', 'o', 'n', 'n', 'e', 'c', 't', 'i', 'o', 'n', '_', 'i', 'd']
}

pub open spec fn key_hints() -> Seq<char> {
    seq!['h', 'i', 'n', 't', 's']
}

/// The string under `key`, or `default` when there is none.
pub open spec fn string_or(d: Seq<(Seq<char>, Value)>, key: Seq<char>, default: Seq<char>) -> Seq<char> {
    match lookup(d, key) {
        Some(Value::Str(s)) => s,
        _ => default,
    }
}

/// The size a PULL asks for: the integer under `n`, else -1 (all).
pub fn pull_size(extra: &BoltDict) -> (r: i64)
    ensures
        r == match lookup(extra@, key_n()) {
            Some(Value::Int(k)) => k,
            _ => -1i64,
        },
{
    proof {
        reveal_strlit("n");
        assert("n"@ =~= key_n());
    }
    match extra.get("n") {
        Some(BoltValue::Integer(n)) => *n,
        _ => -1,
    }
}

/// The database a RUN or BEGIN asks to switch to, under `db`.
pub fn requested_database(extra: &BoltDict) -> (r: Option<String>)
    ensures
        match lookup(extra@, key_db()) {
            Some(Value::Str(s)) => r is Some && r->Some_0@ == s,
            _ => r is None,
        },
{
    proof {
        reveal_strlit("db");
        assert("db"@ =~= key_db());
    }
    string_entry(extra, "db")
}

/// The session settings of a HELLO: its `user_agent` ("unknown" when
/// absent) and no database.
pub fn hello_config(extra: &BoltDict) -> (r: SessionConfig)
    ensures
        r.database is None,
        r.user_agent@ == string_or(extra@, key_user_agent(), seq!['u', 'n', 'k', 'n', 'o', 'w', 'n']),
{
    proof {
        reveal_strlit("user_agent");
        reveal_strlit("unknown");
        assert("user_agent"@ =~= key_user_agent());
        assert("unknown"@ =~= seq!['u', 'n', 'k', 'n', 'o', 'w', 'n']);
    }
    let user_agent = match string_entry(extra, "user_agent") {
        Some(s) => s,
        None => "unknown".to_owned(),
    };
    SessionConfig { user_agent, database: None }
}

/// The credentials of a LOGON: `scheme` ("none" when absent), and the
/// optional `principal` and `credentials`.
pub fn logon_credentials(auth: &BoltDict) -> (r: AuthCredentials)
    ensures
        r.scheme@ == string_or(auth@, key_scheme(), seq!['n', 'o', 'n', 'e']),
        match lookup(auth@, key_principal()) {
            Some(Value::Str(s)) => r.principal is Some && r.principal->Some_0@ == s,
            _ => r.principal is None,
        },
        match lookup(auth@, key_credentials()) {
            Some(Value::Str(s)) => r.credentials is Some && r.credentials->Some_0@ == s,
            _ => r.credentials is None,
        },
{
    proof {
        reveal_strlit("scheme");
        reveal_strlit("none");
        reveal_strlit("principal");
        reveal_strlit("credentials");
        assert("scheme"@ =~= key_scheme());
        assert("none"@ =~= seq!['n', 'o', 'n', 'e']);
        assert("principal"@ =~= key_principal());
        assert("credentials"@ =~= key_credentials());
    }
    let scheme = match string_entry(auth, "scheme") {
        Some(s) => s,
        None => "none".to_owned(),
    };
    AuthCredentials {
        scheme,
        principal: string_entry(auth, "principal"),
        credentials: string_entry(auth, "credentials"),
    }
}

/// The metadata of the SUCCESS that answers HELLO: the server's own
/// entries, then `connection_id` holding the given id unless the server
/// already set one, then `hints` holding an empty dictionary.
pub fn hello_metadata(server_info: BoltDict, connection_id: String) -> (r: BoltDict)
    ensures
        r@ == dict_insert(
            if find_key(server_info@, key_connection_id(), 0) is None {
                server_info@.push((key_connection_id(), Value::Str(connection_id@)))
            } else {
                server_info@
            },
            key_hints(),
            Value::Dict(Seq::empty()),
        ),
{
    let mut meta = server_info;
    proof {
        reveal_strlit("connection_id");
        reveal_strlit("hints");
        assert("connection_id"@ =~= key_connection_id());
        assert("hints"@ =~= key_hints());
    }
    if meta.get("connection_id").is_none() {
        meta.insert("connection_id".to_owned(), BoltValue::String(connection_id));
    }
    let hints = BoltDict::new();
    meta.insert("hints".to_owned(), BoltValue::Dict(hints));
    meta
}

/// Storing every entry of `s`, in order, into `m`.
pub open spec fn insert_all(m: Seq<(Seq<char>, Value)>, s: Seq<(Seq<char>, Value)>) -> Seq<(Seq<char>, Value)>
    decreases s.len(),
{
    if s.len() == 0 {
        m
    } else {
        insert_all(dict_insert(m, s[0].0, s[0].1), s.skip(1))
    }
}

/// Appends the entries of `summary` to `meta`; an entry whose key is
/// already there replaces its value.
fn merge_summary(meta: BoltDict, summary: BoltDict) -> (r: BoltDict)
    requires
        meta@.len() >= 1,
    ensures
        r@.len() >= 1,
        r@[0].0 == meta@[0].0,
        (forall|i: int| 0 <= i < summary@.len() ==> #[trigger] summary@[i].0 != meta@[0].0) ==> r@[0]
            == meta@[0],
        summary@.len() == 0 ==> r@ == meta@,
        r@ == insert_all(meta@, summary@),
{
    let ghost meta0 = meta@;
    let ghost orig = summary@;
    let mut meta = meta;
    let mut summary = summary;
    let ghost mut t: int = 0;
    proof {
        lemma_dict_view(summary);
        assert(summary@ =~= orig.skip(0));
    }
    while summary.entries.len() > 0
        invariant
            0 <= t <= orig.len(),
            summary@ == orig.skip(t),
            summary@.len() == summary.entries.len(),
            meta@.len() >= 1,
            meta@[0].0 == meta0[0].0,
            (forall|i: int| 0 <= i < orig.len() ==> #[trigger] orig[i].0 != meta0[0].0) ==> meta@[0]
                == meta0[0],
            t == 0 ==> meta@ == meta0,
            insert_all(meta@, orig.skip(t)) == insert_all(meta0, orig),
        decreases summary.entries.len(),
    {
        proof {
            lemma_dict_view(summary);
        }
        let ghost before = summary;
        proof {
            assert(before@[0] == orig[t]);
            assert(before@[0] == (before.entries[0].0@, before.entries[0].1@));
        }
        let (k, v) = summary.entries.remove(0);
        proof {
            assert(k@ == orig[t].0);
            lemma_dict_view(summary);
            assert forall|i: int| 0 <= i < summary@.len() implies summary@[i] == orig.skip(t + 1)[i] by {
                assert(summary.entries[i] == before.entries[i + 1]);
                assert(before@[i + 1] == orig[t + 1 + i]);
            }
            assert(summary@ =~= orig.skip(t + 1));
        }
        let ghost m_before = meta@;
        meta.insert(k, v);
        proof {
            assert(orig.skip(t).skip(1) =~= orig.skip(t + 1));
            assert(orig.skip(t)[0] == orig[t]);
            assert(insert_all(m_before, orig.skip(t)) == insert_all(meta@, orig.skip(t + 1)));
            t = t + 1;
            if forall|i: int| 0 <= i < orig.len() ==> #[trigger] orig[i].0 != meta0[0].0 {
                assert(orig[t - 1].0 != meta0[0].0);
            }
        }
    }
    proof {
        assert(orig.skip(t).len() == 0);
    }
    meta
}

} // verus!
