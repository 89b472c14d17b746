//! Presence registry: the set of currently-active unique identities.
//!
//! Invariant of the fabric: at most one active identity with a given value
//! exists at any time. `register` is the atomic admission step — of any
//! serialized run of `register` calls with one identity value, exactly one
//! succeeds (see [`lemma_register_exactly_one_success`]).
use vstd::prelude::*;

use crate::ChatError;

verus! {

/// Tracks the identities of the connected users. Leaf component: no
/// dependencies, no side effects beyond its membership set.
pub struct PresenceRegistry {
    users: Vec<String>,
}

impl View for PresenceRegistry {
    type V = Set<Seq<char>>;

    /// The registry is modelled as the set of active identity values.
    closed spec fn view(&self) -> Set<Seq<char>> {
        self.ids().to_set()
    }
}

impl PresenceRegistry {
    /// The stored identities, in storage order.
    pub closed spec fn ids(self) -> Seq<Seq<char>> {
        self.users@.map_values(|s: String| s@)
    }

    /// Well-formedness: no identity value is stored twice.
    pub closed spec fn wf(self) -> bool {
        self.ids().no_duplicates()
    }

    pub fn new() -> (r: PresenceRegistry)
        ensures
            r.wf(),
            r@ == Set::<Seq<char>>::empty(),
    {
        let r = PresenceRegistry { users: Vec::new() };
        proof {
            assert(r.ids() =~= Seq::<Seq<char>>::empty());
            assert(r@ =~= Set::<Seq<char>>::empty());
        }
        r
    }

    /// Whether `id` is currently registered.
    pub fn contains(&self, id: &String) -> (r: bool)
        ensures
            r == self@.contains(id@),
    {
        let n = self.users.len();
        let mut i: usize = 0;
        while i < n
            invariant
                n == self.users@.len(),
                i <= n,
                forall|j: int| 0 <= j < i ==> self.users@[j]@ != id@,
            decreases n - i,
        {
            if *id == self.users[i] {
                proof {
                    assert(self.ids()[i as int] == id@);
                    assert(self.ids().contains(id@));
                }
                return true;
            }
            i += 1;
        }
        proof {
            assert(forall|j: int|
                0 <= j < self.ids().len() ==> self.ids()[j] != id@);
            assert(!self.ids().contains(id@));
        }
        false
    }

    /// Atomic admission: succeeds exactly when `id` is not yet present, and
    /// then adds it; a duplicate is refused with `IdentityConflict` and the
    /// registry is unchanged.
    pub fn register(&mut self, id: String) -> (r: Result<(), ChatError>)
        requires
            old(self).wf(),
        ensures
            final(self).wf(),
            r is Ok <==> !old(self)@.contains(id@),
            r is Ok ==> final(self)@ == old(self)@.insert(id@),
            r is Err ==> r == Err::<(), ChatError>(ChatError::IdentityConflict)
                && final(self)@ == old(self)@,
    {
        if self.contains(&id) {
            Err(ChatError::IdentityConflict)
        } else {
            let ghost pre = self.ids();
            self.users.push(id);
            proof {
                assert(self.ids() =~= pre.push(id@));
                assert forall|x: Seq<char>| self.ids().to_set().contains(x)
                    <==> pre.to_set().insert(id@).contains(x) by {
                    if self.ids().contains(x) {
                        let j = choose|j: int|
                            0 <= j < self.ids().len() && self.ids()[j] == x;
                        if j < pre.len() {
                            assert(pre[j] == x);
                        }
                    }
                    if pre.contains(x) {
                        let j = choose|j: int| 0 <= j < pre.len() && pre[j] == x;
                        assert(self.ids()[j] == x);
                    }
                    if x == id@ {
                        assert(self.ids()[pre.len() as int] == x);
                    }
                }
                assert(self.ids().to_set() =~= pre.to_set().insert(id@));
                assert(forall|j: int| 0 <= j < pre.len() ==> pre[j] != id@);
                assert(self.ids().no_duplicates());
            }
            Ok(())
        }
    }

    /// Removes `id` if present; a no-op on an absent identity (idempotent).
    pub fn unregister(&mut self, id: &String)
        requires
            old(self).wf(),
        ensures
            final(self).wf(),
            final(self)@ == old(self)@.remove(id@),
    {
        let n = self.users.len();
        let mut i: usize = 0;
        while i < n
            invariant
                n == self.users@.len(),
                i <= n,
                *self == *old(self),
                old(self).wf(),
                forall|j: int| 0 <= j < i ==> self.users@[j]@ != id@,
            decreases n - i,
        {
            if *id == self.users[i] {
                let ghost pre = self.ids();
                proof {
                    assert(old(self).wf());
                    assert(pre == old(self).ids());
                    assert(pre.no_duplicates());
                    assert(pre[i as int] == id@);
                }
                self.users.remove(i);
                proof {
                    assert(self.ids() =~= pre.remove(i as int));
                    crate::lemma_remove_one_to_set(pre, i as int);
                    assert(final(self)@ =~= old(self)@.remove(id@));
                }
                return;
            }
            i += 1;
        }
        proof {
            assert(forall|j: int|
                0 <= j < self.ids().len() ==> self.ids()[j] != id@);
            assert(!self.ids().contains(id@));
            assert(!self@.contains(id@));
            assert(final(self)@ =~= old(self)@.remove(id@));
        }
    }
}

/// One abstract `register` step on the model: the call succeeds exactly when
/// the identity is absent, and afterwards the identity is present either way
/// (a success inserted it; a refusal found it already there).
pub open spec fn register_succeeds(s: Set<Seq<char>>, id: Seq<char>) -> bool {
    !s.contains(id)
}

/// The registry state after one `register` call, successful or not.
pub open spec fn register_next(s: Set<Seq<char>>, id: Seq<char>) -> Set<Seq<char>> {
    s.insert(id)
}

/// How many of `n` serialized `register(id)` calls, starting from state `s`,
/// return `Ok`. Each step follows the contract of
/// [`PresenceRegistry::register`].
pub open spec fn register_successes(s: Set<Seq<char>>, id: Seq<char>, n: nat) -> nat
    decreases n,
{
    if n == 0 {
        0
    } else {
        (if register_succeeds(s, id) { 1nat } else { 0nat })
            + register_successes(register_next(s, id), id, (n - 1) as nat)
    }
}

/// Once the identity is present, no later `register` call with it succeeds.
pub proof fn lemma_register_no_success_when_present(
    s: Set<Seq<char>>,
    id: Seq<char>,
    n: nat,
)
    requires
        s.contains(id),
    ensures
        register_successes(s, id, n) == 0,
    decreases n,
{
    if n > 0 {
        lemma_register_no_success_when_present(register_next(s, id), id, (n - 1) as nat);
    }
}

/// Law: of any serialized run of `register` calls with one identity value,
/// starting from a state in which it is absent, exactly one call succeeds.
pub proof fn lemma_register_exactly_one_success(
    s: Set<Seq<char>>,
    id: Seq<char>,
    n: nat,
)
    requires
        !s.contains(id),
        n >= 1,
    ensures
        register_successes(s, id, n) == 1,
{
    lemma_register_no_success_when_present(register_next(s, id), id, (n - 1) as nat);
}

} // verus!
