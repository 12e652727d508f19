//! The per-connection protocol state machine.
use vstd::prelude::*;

use crate::message::ClientMessage;

verus! {

/// The state of a Bolt connection.
#[derive(Debug, Clone, Copy, PartialEq, Eq, Structural)]
pub enum ConnectionState {
    /// Handshake done, waiting for HELLO.
    Negotiation,
    /// HELLO received, waiting for LOGON.
    Authentication,
    /// Authenticated and idle.
    Ready,
    /// An auto-commit query has results pending.
    Streaming,
    /// Inside an explicit transaction, idle.
    TxReady,
    /// Inside an explicit transaction, with results pending.
    TxStreaming,
    /// An error is latched; only RESET and GOODBYE are taken.
    Failed,
    /// Terminal: the connection is to be closed.
    Defunct,
}

/// Whether `s` accepts the message `m`.
pub open spec fn admits(s: ConnectionState, m: ClientMessage) -> bool {
    match s {
        ConnectionState::Negotiation => m is Hello,
        ConnectionState::Authentication => m is Logon || m is Goodbye,
        ConnectionState::Ready => m is Run || m is Begin || m is Reset || m is Goodbye
            || m is Logoff,
        ConnectionState::Streaming | ConnectionState::TxStreaming => m is Pull || m is Discard
            || m is Reset || m is Goodbye,
        ConnectionState::TxReady => m is Run || m is Commit || m is Rollback || m is Reset
            || m is Goodbye,
        ConnectionState::Failed => m is Reset || m is Goodbye,
        ConnectionState::Defunct => false,
    }
}

/// The state after `m` was handled successfully in `s`.
pub open spec fn after_success(s: ConnectionState, m: ClientMessage) -> ConnectionState {
    if m is Reset {
        ConnectionState::Ready
    } else if m is Goodbye {
        ConnectionState::Defunct
    } else {
        match (s, m) {
            (ConnectionState::Negotiation, ClientMessage::Hello { .. }) => ConnectionState::Authentication,
            (ConnectionState::Authentication, ClientMessage::Logon { .. }) => ConnectionState::Ready,
            (ConnectionState::Ready, ClientMessage::Run { .. }) => ConnectionState::Streaming,
            (ConnectionState::Ready, ClientMessage::Begin { .. }) => ConnectionState::TxReady,
            (ConnectionState::Ready, ClientMessage::Logoff) => ConnectionState::Authentication,
            (ConnectionState::TxReady, ClientMessage::Run { .. }) => ConnectionState::TxStreaming,
            (ConnectionState::TxReady, ClientMessage::Commit) => ConnectionState::Ready,
            (ConnectionState::TxReady, ClientMessage::Rollback) => ConnectionState::Ready,
            _ => s,
        }
    }
}

/// The state after handling `m` failed: a failed GOODBYE or RESET is
/// fatal, any other failure latches `Failed`.
pub open spec fn after_failure(m: ClientMessage) -> ConnectionState {
    if m is Goodbye || m is Reset {
        ConnectionState::Defunct
    } else {
        ConnectionState::Failed
    }
}

/// The state once a result stream has been fully consumed or discarded.
pub open spec fn after_streaming(s: ConnectionState) -> ConnectionState {
    match s {
        ConnectionState::Streaming => ConnectionState::Ready,
        ConnectionState::TxStreaming => ConnectionState::TxReady,
        _ => s,
    }
}

/// What the connection does with a decoded message.
#[derive(Debug, Clone, Copy, PartialEq, Eq, Structural)]
pub enum Admission {
    /// Hand the message to its handler.
    Dispatch,
    /// Reply IGNORED; the state stays as it is.
    Ignore,
    /// A GOODBYE the state does not accept: close without a reply.
    Close,
}

impl ConnectionState {
    /// Whether this state accepts `msg`.
    pub fn accepts(&self, msg: &ClientMessage) -> (r: bool)
        ensures
            r == admits(*self, *msg),
    {
        match self {
            ConnectionState::Negotiation => matches!(msg, ClientMessage::Hello { .. }),
            ConnectionState::Authentication => matches!(
                msg,
                ClientMessage::Logon { .. } | ClientMessage::Goodbye
            ),
            ConnectionState::Ready => matches!(
                msg,
                ClientMessage::Run { .. } | ClientMessage::Begin { .. } | ClientMessage::Reset
                    | ClientMessage::Goodbye | ClientMessage::Logoff
            ),
            ConnectionState::Streaming | ConnectionState::TxStreaming => matches!(
                msg,
                ClientMessage::Pull { .. } | ClientMessage::Discard { .. } | ClientMessage::Reset
                    | ClientMessage::Goodbye
            ),
            ConnectionState::TxReady => matches!(
                msg,
                ClientMessage::Run { .. } | ClientMessage::Commit | ClientMessage::Rollback
                    | ClientMessage::Reset | ClientMessage::Goodbye
            ),
            ConnectionState::Failed => matches!(msg, ClientMessage::Reset | ClientMessage::Goodbye),
            ConnectionState::Defunct => false,
        }
    }

    /// The next state after `msg` was handled successfully.
    pub fn transition_success(&self, msg: &ClientMessage) -> (r: ConnectionState)
        ensures
            r == after_success(*self, *msg),
    {
        match msg {
            ClientMessage::Reset => ConnectionState::Ready,
            ClientMessage::Goodbye => ConnectionState::Defunct,
            ClientMessage::Hello { .. } => if *self == ConnectionState::Negotiation {
                ConnectionState::Authentication
            } else {
                *self
            },
            ClientMessage::Logon { .. } => if *self == ConnectionState::Authentication {
                ConnectionState::Ready
            } else {
                *self
            },
            ClientMessage::Run { .. } => match self {
                ConnectionState::Ready => ConnectionState::Streaming,
                ConnectionState::TxReady => ConnectionState::TxStreaming,
                _ => *self,
            },
            ClientMessage::Begin { .. } => if *self == ConnectionState::Ready {
                ConnectionState::TxReady
            } else {
                *self
            },
            ClientMessage::Logoff => if *self == ConnectionState::Ready {
                ConnectionState::Authentication
            } else {
                *self
            },
            ClientMessage::Commit | ClientMessage::Rollback => if *self == ConnectionState::TxReady {
                ConnectionState::Ready
            } else {
                *self
            },
            _ => *self,
        }
    }

    /// The next state after handling `msg` failed.
    pub fn transition_failure(&self, msg: &ClientMessage) -> (r: ConnectionState)
        ensures
            r == after_failure(*msg),
    {
        match msg {
            ClientMessage::Goodbye | ClientMessage::Reset => ConnectionState::Defunct,
            _ => ConnectionState::Failed,
        }
    }

    /// The state once streaming is complete: `Streaming` becomes `Ready`,
    /// `TxStreaming` becomes `TxReady`, any other state stays.
    pub fn complete_streaming(&self) -> (r: ConnectionState)
        ensures
            r == after_streaming(*self),
    {
        match self {
            ConnectionState::Streaming => ConnectionState::Ready,
            ConnectionState::TxStreaming => ConnectionState::TxReady,
            _ => *self,
        }
    }

    /// Decides what to do with a decoded message, and the state that
    /// results before any handler runs. A message the state does not accept
    /// is ignored and leaves the state unchanged, except GOODBYE, which
    /// makes the connection defunct.
    pub fn screen(&self, msg: &ClientMessage) -> (r: (Admission, ConnectionState))
        ensures
            admits(*self, *msg) ==> r == (Admission::Dispatch, *self),
            !admits(*self, *msg) && !(*msg is Goodbye) ==> r == (Admission::Ignore, *self),
            !admits(*self, *msg) && *msg is Goodbye ==> r == (
                Admission::Close,
                ConnectionState::Defunct,
            ),
    {
        if self.accepts(msg) {
            (Admission::Dispatch, *self)
        } else if matches!(msg, ClientMessage::Goodbye) {
            (Admission::Close, ConnectionState::Defunct)
        } else {
            (Admission::Ignore, *self)
        }
    }
}

/// Every state but `Defunct` accepts GOODBYE and RESET is accepted
/// everywhere but in `Negotiation`, `Authentication` and `Defunct`.
pub proof fn lemma_goodbye_and_reset(s: ConnectionState, m: ClientMessage)
    ensures
        m is Goodbye ==> (admits(s, m) <==> s != ConnectionState::Defunct
            && s != ConnectionState::Negotiation),
        m is Reset ==> (admits(s, m) <==> !(s == ConnectionState::Defunct || s
            == ConnectionState::Negotiation || s == ConnectionState::Authentication)),
        admits(s, m) && m is Goodbye ==> after_success(s, m) == ConnectionState::Defunct,
        admits(s, m) && m is Reset ==> after_success(s, m) == ConnectionState::Ready,
{
}

} // verus!
