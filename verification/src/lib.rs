//! A real-time message routing layer: many full-duplex client streams are
//! connected through a multi-room publish/subscribe fabric, optionally backed
//! by an external durable bus for cross-instance fan-out.
//!
//! The crate holds the design content of the service: the presence registry
//! (unique identities), the room registry (bidirectional identity/room
//! membership), the in-process fan-out bus (bounded per-subscriber queues),
//! the wire codec spoken by the external-bus bridge and by clients, and the
//! per-connection session state machine. Transport, handshake and the
//! external bus connection itself are collaborators that live outside this
//! crate and drive it through plain values.
use vstd::prelude::*;

pub mod bus;
pub mod codec;
pub mod presence;
pub mod rooms;
pub mod session;

verus! {

/// Failure taxonomy of the routing layer.
///
/// `IdentityConflict`: a duplicate identity was offered to the presence
/// registry; fatal to the new session only, the earlier session wins.
/// `RoomIO`: a registry operation failed internally; fatal to that operation.
/// `TransportFailure`: the client stream broke; ends that session's loops.
/// `BridgeFailure`: the external bus was unreachable at bridge setup.
#[derive(Clone, Copy, Debug, PartialEq, Eq, Structural)]
pub enum ChatError {
    IdentityConflict,
    RoomIO,
    TransportFailure,
    BridgeFailure,
}

/// One routed message: origin identity, target room, text payload.
/// Immutable once produced.
pub struct Envelope {
    pub from: String,
    pub room: String,
    pub text: String,
}

/// Mathematical image of an [`Envelope`]: its three fields as character
/// sequences.
pub ghost struct EnvelopeView {
    pub from: Seq<char>,
    pub room: Seq<char>,
    pub text: Seq<char>,
}

impl View for Envelope {
    type V = EnvelopeView;

    open spec fn view(&self) -> EnvelopeView {
        EnvelopeView { from: self.from@, room: self.room@, text: self.text@ }
    }
}

impl Envelope {
    pub fn new(from: String, room: String, text: String) -> (r: Envelope)
        ensures
            r@ == (EnvelopeView { from: from@, room: room@, text: text@ }),
    {
        Envelope { from, room, text }
    }

    /// A deep copy carrying the same view.
    pub fn duplicate(&self) -> (r: Envelope)
        ensures
            r@ == self@,
    {
        Envelope {
            from: self.from.clone(),
            room: self.room.clone(),
            text: self.text.clone(),
        }
    }
}

/// Appending a value not yet present keeps a sequence duplicate-free.
pub proof fn lemma_push_keeps_no_duplicates<A>(s: Seq<A>, e: A)
    requires
        s.no_duplicates(),
        !s.contains(e),
    ensures
        s.push(e).no_duplicates(),
{
    let t = s.push(e);
    assert forall|i: int, j: int|
        0 <= i < t.len() && 0 <= j < t.len() && i != j implies t[i] != t[j] by {
        if i < s.len() && j < s.len() {
            assert(t[i] == s[i] && t[j] == s[j]);
        } else if j == s.len() {
            assert(t[i] == s[i] && t[j] == e);
            assert(s[i] != e);
        } else {
            assert(t[j] == s[j] && t[i] == e);
            assert(s[j] != e);
        }
    }
}

/// Appending a value inserts exactly it into the induced set.
pub proof fn lemma_push_to_set<A>(s: Seq<A>, e: A)
    ensures
        s.push(e).to_set() == s.to_set().insert(e),
{
    let t = s.push(e);
    assert forall|x: A| t.to_set().contains(x) <==> s.to_set().insert(e).contains(x) by {
        if t.contains(x) {
            let j = choose|j: int| 0 <= j < t.len() && t[j] == x;
            if j < s.len() {
                assert(s[j] == x);
            }
        }
        if s.contains(x) {
            let j = choose|j: int| 0 <= j < s.len() && s[j] == x;
            assert(t[j] == x);
        }
        if x == e {
            assert(t[s.len() as int] == x);
        }
    }
    assert(t.to_set() =~= s.to_set().insert(e));
}

/// Removing the only occurrence of a value from a duplicate-free sequence
/// removes exactly it from the induced set and keeps the rest duplicate-free.
pub proof fn lemma_remove_one_to_set<A>(s: Seq<A>, i: int)
    requires
        s.no_duplicates(),
        0 <= i < s.len(),
    ensures
        s.remove(i).no_duplicates(),
        s.remove(i).to_set() == s.to_set().remove(s[i]),
{
    let t = s.remove(i);
    assert forall|p: int, q: int|
        0 <= p < t.len() && 0 <= q < t.len() && p != q implies t[p] != t[q] by {
        let p0 = if p < i { p } else { p + 1 };
        let q0 = if q < i { q } else { q + 1 };
        assert(t[p] == s[p0] && t[q] == s[q0]);
    }
    assert forall|x: A| t.to_set().contains(x) <==> s.to_set().remove(s[i]).contains(x) by {
        if t.contains(x) {
            let j = choose|j: int| 0 <= j < t.len() && t[j] == x;
            if j < i {
                assert(s[j] == x);
            } else {
                assert(s[j + 1] == x);
            }
        }
        if s.contains(x) && x != s[i] {
            let j = choose|j: int| 0 <= j < s.len() && s[j] == x;
            if j < i {
                assert(t[j] == x);
            } else {
                assert(t[j - 1] == x);
            }
        }
    }
    assert(t.to_set() =~= s.to_set().remove(s[i]));
}

} // verus!
