//! Connection session: the decision core of the per-connection task pair.
//!
//! One session owns one client connection. Its life runs
//! `Connecting -> Active -> Closing -> Closed`. While `Active`, two loops
//! run concurrently outside this crate: the deliver loop drains the
//! session's bus subscription and writes to the client, the ingest loop
//! reads client messages and republishes them. The loops themselves perform
//! I/O and so live with the transport; every decision they take — what an
//! inbound message becomes, what a delivered envelope looks like on the
//! wire, and what must happen the instant either loop ends — is a function
//! here, with a contract.
//!
//! Echo policy: a sender does receive its own broadcast back. Delivery is
//! not filtered by origin (see [`Session::deliver_line`]); suppression, if
//! wanted, must be layered on top by the caller.
use vstd::prelude::*;

use crate::ChatError;
use crate::Envelope;
use crate::EnvelopeView;

verus! {

/// Where a session stands in its life.
#[derive(Clone, Copy, Debug, PartialEq, Eq, Structural)]
pub enum SessionState {
    Connecting,
    Active,
    Closing,
    Closed,
}

/// One of the session's two concurrently running loops.
#[derive(Clone, Copy, Debug, PartialEq, Eq, Structural)]
pub enum SessionLoop {
    Deliver,
    Ingest,
}

/// The loop that must be cancelled when the other ends.
pub open spec fn sibling_of(l: SessionLoop) -> SessionLoop {
    match l {
        SessionLoop::Deliver => SessionLoop::Ingest,
        SessionLoop::Ingest => SessionLoop::Deliver,
    }
}

/// How a delivered envelope reads on the client stream.
pub open spec fn delivery_line(e: EnvelopeView) -> Seq<char> {
    e.from + ": "@ + e.text
}

/// The departure notice broadcast to a leaving identity's rooms.
pub open spec fn departure_line(id: Seq<char>) -> Seq<char> {
    id + " left"@
}

/// The decision state of one client connection.
pub struct Session {
    pub identity: String,
    pub room: String,
    pub state: SessionState,
}

impl Session {
    /// A fresh session for an authenticated identity and its initial room;
    /// nothing is registered or joined yet.
    pub fn start(identity: String, room: String) -> (s: Session)
        ensures
            s.state == SessionState::Connecting,
            s.identity@ == identity@,
            s.room@ == room@,
    {
        Session { identity, room, state: SessionState::Connecting }
    }

    /// The verdict of the presence registry on this session's identity.
    /// Acceptance activates the session; a conflict is fatal to it — the
    /// earlier session wins, this one closes at once, with no broadcast.
    pub fn on_register_outcome(&mut self, accepted: bool) -> (r: Result<(), ChatError>)
        requires
            old(self).state == SessionState::Connecting,
        ensures
            final(self).identity == old(self).identity,
            final(self).room == old(self).room,
            accepted ==> final(self).state == SessionState::Active && r is Ok,
            !accepted ==> final(self).state == SessionState::Closed
                && r == Err::<(), ChatError>(ChatError::IdentityConflict),
    {
        if accepted {
            self.state = SessionState::Active;
            Ok(())
        } else {
            self.state = SessionState::Closed;
            Err(ChatError::IdentityConflict)
        }
    }

    /// An inbound payload becomes an envelope tagged with this session's
    /// identity and current room — the form in which it is published both
    /// locally and towards the external bus.
    pub fn envelope_for(&self, text: &String) -> (env: Envelope)
        requires
            self.state == SessionState::Active,
        ensures
            env@ == (EnvelopeView { from: self.identity@, room: self.room@, text: text@ }),
    {
        Envelope::new(self.identity.clone(), self.room.clone(), text.clone())
    }

    /// An inbound join message switches the session's current room; the
    /// caller re-targets registry membership and subscription accordingly.
    pub fn join_room(&mut self, room: String)
        requires
            old(self).state == SessionState::Active,
        ensures
            final(self).state == SessionState::Active,
            final(self).identity == old(self).identity,
            final(self).room@ == room@,
    {
        self.room = room;
    }

    /// How an envelope drained from the subscription reads on this client's
    /// stream. Deliberately independent of the envelope's origin: the
    /// session does not suppress its own echo.
    pub fn deliver_line(&self, env: &Envelope) -> (line: String)
        ensures
            line@ == delivery_line(env@),
    {
        env.from.clone().concat(": ").concat(env.text.as_str())
    }

    /// The end of either loop, for any reason — write failure, subscription
    /// closure, read failure, malformed input or explicit close — moves the
    /// session to `Closing` and orders the sibling loop cancelled, at once
    /// and unconditionally.
    pub fn on_loop_end(&mut self, ended: SessionLoop) -> (cancel: SessionLoop)
        requires
            old(self).state == SessionState::Active,
        ensures
            final(self).state == SessionState::Closing,
            final(self).identity == old(self).identity,
            final(self).room == old(self).room,
            cancel == sibling_of(ended),
    {
        self.state = SessionState::Closing;
        match ended {
            SessionLoop::Deliver => SessionLoop::Ingest,
            SessionLoop::Ingest => SessionLoop::Deliver,
        }
    }

    /// The best-effort notice broadcast to the session's rooms while
    /// closing.
    pub fn departure_notice(&self) -> (line: String)
        requires
            self.state == SessionState::Closing,
        ensures
            line@ == departure_line(self.identity@),
    {
        self.identity.clone().concat(" left")
    }

    /// Cleanup — departure notice sent, memberships removed, identity
    /// unregistered — ends the session for good.
    pub fn on_cleanup_done(&mut self)
        requires
            old(self).state == SessionState::Closing,
        ensures
            final(self).state == SessionState::Closed,
            final(self).identity == old(self).identity,
            final(self).room == old(self).room,
    {
        self.state = SessionState::Closed;
    }
}

/// Law: whichever loop ends first, the one ordered cancelled is exactly the
/// other — ending the deliver loop cancels ingest, ending the ingest loop
/// cancels deliver — and a session never stays `Active` past either end
/// (see the contract of [`Session::on_loop_end`]).
pub proof fn lemma_loop_end_cancels_sibling()
    ensures
        sibling_of(SessionLoop::Deliver) == SessionLoop::Ingest,
        sibling_of(SessionLoop::Ingest) == SessionLoop::Deliver,
        forall|l: SessionLoop| sibling_of(#[trigger] sibling_of(l)) == l,
{
    assert forall|l: SessionLoop| sibling_of(#[trigger] sibling_of(l)) == l by {
        match l {
            SessionLoop::Deliver => {},
            SessionLoop::Ingest => {},
        }
    }
}

} // verus!
