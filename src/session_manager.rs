//! Tracking of live sessions: a capacity limit, activity timestamps and
//! reaping of idle sessions. Times are milliseconds on a clock the caller
//! reads; the manager itself never reads a clock.
use vstd::prelude::*;

use crate::error::BoltError;
use crate::value::str_eq;

verus! {

/// Opaque handle of a Bolt session (one per connection), assigned by the
/// backend.
#[derive(Debug, Clone, PartialEq, Eq, Hash)]
pub struct SessionHandle(pub String);

/// Opaque handle of a transaction within a session.
#[derive(Debug, Clone, PartialEq, Eq, Hash)]
pub struct TransactionHandle(pub String);

/// What the manager keeps of one session.
#[derive(Debug)]
pub struct SessionState {
    pub handle: SessionHandle,
    pub peer_addr: String,
    pub created_at: u64,
    pub last_active: u64,
}

/// The live sessions, at most `max_sessions` of them when a limit is set.
pub struct SessionManager {
    pub sessions: Vec<SessionState>,
    pub max_sessions: Option<usize>,
}

pub open spec fn session_id(s: SessionState) -> Seq<char> {
    s.handle.0@
}

/// A session last active at `last` has been idle longer than `timeout` at
/// time `now`.
pub open spec fn is_idle(now: u64, last: u64, timeout: u64) -> bool {
    now > last && now - last > timeout
}

/// The sessions of `s` that are not idle, in order.
pub open spec fn kept(s: Seq<SessionState>, now: u64, timeout: u64) -> Seq<SessionState>
    decreases s.len(),
{
    if s.len() == 0 {
        s
    } else if is_idle(now, s.last().last_active, timeout) {
        kept(s.drop_last(), now, timeout)
    } else {
        kept(s.drop_last(), now, timeout).push(s.last())
    }
}

/// The ids of the sessions of `s` that are idle, in order.
pub open spec fn reaped(s: Seq<SessionState>, now: u64, timeout: u64) -> Seq<Seq<char>>
    decreases s.len(),
{
    if s.len() == 0 {
        Seq::empty()
    } else if is_idle(now, s.last().last_active, timeout) {
        reaped(s.drop_last(), now, timeout).push(session_id(s.last()))
    } else {
        reaped(s.drop_last(), now, timeout)
    }
}

impl SessionManager {
    /// No two sessions share an id.
    pub open spec fn wf(&self) -> bool {
        forall|i: int, j: int|
            0 <= i < j < self.sessions.len() ==> session_id(#[trigger] self.sessions[i])
                != session_id(#[trigger] self.sessions[j])
    }

    /// Whether a session with id `id` is live.
    pub open spec fn has(&self, id: Seq<char>) -> bool {
        exists|i: int| 0 <= i < self.sessions.len() && session_id(#[trigger] self.sessions[i]) == id
    }

    pub fn new(max_sessions: Option<usize>) -> (r: SessionManager)
        ensures
            r.wf(),
            r.sessions@.len() == 0,
            r.max_sessions == max_sessions,
    {
        SessionManager { sessions: Vec::new(), max_sessions }
    }

    fn find(&self, id: &str) -> (r: Option<usize>)
        ensures
            r is None <==> !self.has(id@),
            r is Some ==> r->Some_0 < self.sessions.len() && session_id(
                self.sessions[r->Some_0 as int],
            ) == id@,
    {
        let mut i: usize = 0;
        while i < self.sessions.len()
            invariant
                i <= self.sessions.len(),
                forall|j: int| 0 <= j < i ==> session_id(#[trigger] self.sessions[j]) != id@,
            decreases self.sessions.len() - i,
        {
            if str_eq(self.sessions[i].handle.0.as_str(), id) {
                return Some(i);
            }
            i += 1;
        }
        None
    }

    /// Registers a session at time `now`. When the limit is reached the
    /// session is refused with `ResourceExhausted` and nothing changes; a
    /// session with an id already present replaces it.
    pub fn register(&mut self, handle: SessionHandle, peer_addr: String, now: u64) -> (r: Result<(), BoltError>)
        requires
            old(self).wf(),
        ensures
            final(self).wf(),
            final(self).max_sessions == old(self).max_sessions,
            match old(self).max_sessions {
                Some(n) => old(self).sessions.len() >= n,
                None => false,
            } <==> r is Err,
            r is Err ==> r->Err_0 is ResourceExhausted && final(self).sessions@ == old(
                self,
            ).sessions@,
            r is Ok ==> final(self).has(handle.0@),
            r is Ok ==> exists|i: int|
                0 <= i < final(self).sessions.len() && session_id(
                    #[trigger] final(self).sessions[i],
                ) == handle.0@ && final(self).sessions[i].last_active == now
                    && final(self).sessions[i].created_at == now,
            r is Ok && !old(self).has(handle.0@) ==> final(self).sessions.len() == old(
                self,
            ).sessions.len() + 1,
            r is Ok && old(self).has(handle.0@) ==> final(self).sessions.len() == old(
                self,
            ).sessions.len(),
            forall|id: Seq<char>| id != handle.0@ ==> (old(self).has(id) <==> final(self).has(id)),
    {
        if let Some(limit) = self.max_sessions {
            if self.sessions.len() >= limit {
                return Err(BoltError::ResourceExhausted("max sessions reached".to_owned()));
            }
        }
        let state = SessionState { handle, peer_addr, created_at: now, last_active: now };
        match self.find(state.handle.0.as_str()) {
            Some(i) => {
                let ghost before = self.sessions@;
                self.sessions.set(i, state);
                assert(forall|j: int| 0 <= j < self.sessions.len() && j != i ==> self.sessions[j] == before[j]);
                assert(session_id(self.sessions[i as int]) == session_id(before[i as int]));
                assert forall|id: Seq<char>| id != handle.0@ implies (old(self).has(id) <==> self.has(id)) by {
                    if old(self).has(id) {
                        let j = choose|j: int| 0 <= j < before.len() && session_id(#[trigger] before[j]) == id;
                        assert(session_id(self.sessions[j]) == id);
                    }
                    if self.has(id) {
                        let j = choose|j: int| 0 <= j < self.sessions.len() && session_id(#[trigger] self.sessions[j]) == id;
                        assert(session_id(before[j]) == id);
                    }
                }
            },
            None => {
                let ghost before = self.sessions@;
                self.sessions.push(state);
                let ghost k = before.len() as int;
                assert(session_id(self.sessions[k]) == handle.0@);
                assert forall|id: Seq<char>| id != handle.0@ implies (old(self).has(id) <==> self.has(id)) by {
                    if old(self).has(id) {
                        let j = choose|j: int| 0 <= j < before.len() && session_id(#[trigger] before[j]) == id;
                        assert(session_id(self.sessions[j]) == id);
                    }
                    if self.has(id) {
                        let j = choose|j: int| 0 <= j < self.sessions.len() && session_id(#[trigger] self.sessions[j]) == id;
                        assert(j != k);
                        assert(session_id(before[j]) == id);
                    }
                }
            },
        }
        Ok(())
    }

    /// Removes the session with id `id`, if there is one.
    pub fn remove(&mut self, id: &str)
        requires
            old(self).wf(),
        ensures
            final(self).wf(),
            !final(self).has(id@),
            final(self).max_sessions == old(self).max_sessions,
            forall|other: Seq<char>| other != id@ ==> (old(self).has(other) <==> final(self).has(other)),
            old(self).has(id@) ==> final(self).sessions.len() == old(self).sessions.len() - 1,
            !old(self).has(id@) ==> final(self).sessions@ == old(self).sessions@,
    {
        if let Some(i) = self.find(id) {
            let ghost before = self.sessions@;
            let _ = self.sessions.remove(i);
            assert(self.sessions@ == before.remove(i as int));
            assert forall|other: Seq<char>| other != id@ implies (old(self).has(other) <==> self.has(other)) by {
                if old(self).has(other) {
                    let j = choose|j: int| 0 <= j < before.len() && session_id(#[trigger] before[j]) == other;
                    if j < i {
                        assert(session_id(self.sessions[j]) == other);
                    } else {
                        assert(j != i);
                        assert(session_id(self.sessions[j - 1]) == other);
                    }
                }
                if self.has(other) {
                    let j = choose|j: int| 0 <= j < self.sessions.len() && session_id(#[trigger] self.sessions[j]) == other;
                    if j < i {
                        assert(session_id(before[j]) == other);
                    } else {
                        assert(session_id(before[j + 1]) == other);
                    }
                }
            }
            assert(!self.has(id@)) by {
                if self.has(id@) {
                    let j = choose|j: int| 0 <= j < self.sessions.len() && session_id(#[trigger] self.sessions[j]) == id@;
                    if j < i {
                        assert(session_id(before[j]) == id@);
                    } else {
                        assert(session_id(before[j + 1]) == id@);
                    }
                }
            }
        }
    }

    /// Marks the session with id `id` active at time `now`.
    pub fn touch(&mut self, id: &str, now: u64)
        requires
            old(self).wf(),
        ensures
            final(self).wf(),
            final(self).max_sessions == old(self).max_sessions,
            final(self).sessions.len() == old(self).sessions.len(),
            forall|i: int|
                0 <= i < old(self).sessions.len() ==> {
                    let s = #[trigger] final(self).sessions[i];
                    let o = old(self).sessions[i];
                    &&& session_id(s) == session_id(o)
                    &&& s.created_at == o.created_at
                    &&& s.last_active == if session_id(o) == id@ {
                        now
                    } else {
                        o.last_active
                    }
                },
    {
        if let Some(i) = self.find(id) {
            let ghost before = self.sessions@;
            let mut list: Vec<SessionState> = Vec::new();
            std::mem::swap(&mut list, &mut self.sessions);
            let mut s = list.remove(i);
            s.last_active = now;
            list.insert(i, s);
            std::mem::swap(&mut list, &mut self.sessions);
            assert forall|k: int| 0 <= k < before.len() && k != i implies self.sessions[k] == before[k] by {
                if k < i {
                } else {
                }
            }
        }
    }

    /// The number of live sessions.
    pub fn count(&self) -> (r: usize)
        ensures
            r == self.sessions.len(),
    {
        self.sessions.len()
    }

    /// Removes every session idle for longer than `timeout` at time `now`,
    /// and returns their ids.
    pub fn reap_idle(&mut self, now: u64, timeout: u64) -> (r: Vec<String>)
        requires
            old(self).wf(),
        ensures
            final(self).wf(),
            final(self).max_sessions == old(self).max_sessions,
            final(self).sessions@ == kept(old(self).sessions@, now, timeout),
            r@.len() == reaped(old(self).sessions@, now, timeout).len(),
            forall|j: int| 0 <= j < r@.len() ==> #[trigger] r@[j]@ == reaped(old(self).sessions@, now, timeout)[j],
            forall|i: int|
                0 <= i < final(self).sessions.len() ==> !is_idle(
                    now,
                    #[trigger] final(self).sessions[i].last_active,
                    timeout,
                ),
    {
        let ghost orig = self.sessions@;
        let mut rest: Vec<SessionState> = Vec::new();
        std::mem::swap(&mut rest, &mut self.sessions);
        let mut ids: Vec<String> = Vec::new();
        let ghost mut i: int = 0;
        while rest.len() > 0
            invariant
                0 <= i <= orig.len(),
                rest@ == orig.skip(i),
                self.sessions@ == kept(orig.take(i), now, timeout),
                ids@.len() == reaped(orig.take(i), now, timeout).len(),
                forall|j: int| 0 <= j < ids@.len() ==> #[trigger] ids@[j]@ == reaped(orig.take(i), now, timeout)[j],
                self.max_sessions == old(self).max_sessions,
            decreases rest.len(),
        {
            let s = rest.remove(0);
            proof {
                assert(orig.take(i + 1).drop_last() =~= orig.take(i));
                assert(orig.take(i + 1).last() == orig[i]);
                assert(s == orig[i]);
            }
            if now > s.last_active && now - s.last_active > timeout {
                ids.push(s.handle.0.clone());
            } else {
                self.sessions.push(s);
            }
            proof {
                i = i + 1;
                assert(rest@ =~= orig.skip(i));
            }
        }
        proof {
            assert(orig.take(i) =~= orig);
            lemma_kept_not_idle(orig, now, timeout);
            lemma_kept_unique(orig, now, timeout);
        }
        ids
    }
}

/// `kept` keeps sessions of `s`, and keeps their ids distinct.
pub proof fn lemma_kept_unique(s: Seq<SessionState>, now: u64, timeout: u64)
    requires
        forall|i: int, j: int|
            0 <= i < j < s.len() ==> session_id(#[trigger] s[i]) != session_id(#[trigger] s[j]),
    ensures
        forall|i: int|
            0 <= i < kept(s, now, timeout).len() ==> exists|j: int|
                0 <= j < s.len() && #[trigger] kept(s, now, timeout)[i] == s[j],
        forall|i: int, j: int|
            0 <= i < j < kept(s, now, timeout).len() ==> session_id(
                #[trigger] kept(s, now, timeout)[i],
            ) != session_id(#[trigger] kept(s, now, timeout)[j]),
    decreases s.len(),
{
    if s.len() > 0 {
        let init = s.drop_last();
        assert forall|i: int, j: int|
            0 <= i < j < init.len() implies session_id(#[trigger] init[i]) != session_id(#[trigger] init[j]) by {
            assert(init[i] == s[i] && init[j] == s[j]);
        }
        lemma_kept_unique(init, now, timeout);
        let k = kept(init, now, timeout);
        assert forall|i: int| 0 <= i < k.len() implies exists|j: int| 0 <= j < s.len() && #[trigger] k[i] == s[j] by {
            let j = choose|j: int| 0 <= j < init.len() && k[i] == init[j];
            assert(k[i] == s[j]);
        }
        if !is_idle(now, s.last().last_active, timeout) {
            let k2 = kept(s, now, timeout);
            assert(k2 == k.push(s.last()));
            assert forall|i: int| 0 <= i < k.len() implies session_id(#[trigger] k[i]) != session_id(s.last()) by {
                let j = choose|j: int| 0 <= j < init.len() && k[i] == init[j];
                assert(s[j] == init[j]);
                assert(s.last() == s[s.len() - 1]);
            }
            assert forall|i: int| 0 <= i < k2.len() implies exists|j: int| 0 <= j < s.len() && #[trigger] k2[i] == s[j] by {
                if i < k.len() {
                    let j = choose|j: int| 0 <= j < s.len() && k[i] == s[j];
                    assert(k2[i] == s[j]);
                } else {
                    assert(k2[i] == s[s.len() - 1]);
                }
            }
            assert forall|i: int, j: int|
                0 <= i < j < k2.len() implies session_id(#[trigger] k2[i]) != session_id(#[trigger] k2[j]) by {
                if j < k.len() {
                    assert(k2[i] == k[i] && k2[j] == k[j]);
                } else {
                    assert(k2[i] == k[i]);
                    assert(k2[j] == s.last());
                }
            }
        }
    }
}

/// No session that `kept` keeps is idle.
pub proof fn lemma_kept_not_idle(s: Seq<SessionState>, now: u64, timeout: u64)
    ensures
        forall|i: int|
            0 <= i < kept(s, now, timeout).len() ==> !is_idle(
                now,
                #[trigger] kept(s, now, timeout)[i].last_active,
                timeout,
            ),
        kept(s, now, timeout).len() + reaped(s, now, timeout).len() == s.len(),
    decreases s.len(),
{
    if s.len() > 0 {
        lemma_kept_not_idle(s.drop_last(), now, timeout);
    }
}

} // verus!
