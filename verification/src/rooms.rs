//! Room registry: the bidirectional mapping between identities and the rooms
//! they belong to.
//!
//! Rooms need no pre-registration: a room comes into being on the first join
//! and is reclaimed when its member count drops to zero (no entry with an
//! empty member list is ever kept). Every operation updates both directions
//! of the mapping before returning, so a reader never observes the two maps
//! disagreeing.
use vstd::prelude::*;

use crate::{lemma_push_keeps_no_duplicates, lemma_push_to_set, lemma_remove_one_to_set};

verus! {

/// One direction of the mapping: a key with the non-empty list of values
/// currently associated with it.
pub type Entry = (String, Vec<String>);

/// The character sequences of a list of strings, in order.
pub open spec fn strs(v: Seq<String>) -> Seq<Seq<char>> {
    v.map_values(|s: String| s@)
}

/// The keys of an association list, in storage order.
pub open spec fn entry_keys(m: Seq<Entry>) -> Seq<Seq<char>> {
    m.map_values(|p: Entry| p.0@)
}

pub open spec fn has_key(m: Seq<Entry>, k: Seq<char>) -> bool {
    entry_keys(m).contains(k)
}

/// The index of the entry holding `k`; meaningful only when the keys are
/// duplicate-free and `has_key(m, k)` holds.
pub open spec fn key_index(m: Seq<Entry>, k: Seq<char>) -> int {
    choose|i: int| 0 <= i < m.len() && m[i].0@ == k
}

/// The set of values associated with `k`; empty when `k` has no entry.
pub open spec fn assoc_lookup(m: Seq<Entry>, k: Seq<char>) -> Set<Seq<char>> {
    if has_key(m, k) {
        strs(m[key_index(m, k)].1@).to_set()
    } else {
        Set::<Seq<char>>::empty()
    }
}

/// Well-formedness of one direction: keys unique, value lists duplicate-free
/// and never empty (an emptied entry is reclaimed at once).
pub open spec fn assoc_wf(m: Seq<Entry>) -> bool {
    &&& entry_keys(m).no_duplicates()
    &&& forall|i: int| 0 <= i < m.len() ==> (#[trigger] strs(m[i].1@)).no_duplicates()
    &&& forall|i: int| 0 <= i < m.len() ==> (#[trigger] m[i].1@).len() > 0
}

/// With duplicate-free keys, an entry whose key matches is the entry
/// `key_index` points at.
proof fn lemma_key_index_is(m: Seq<Entry>, k: Seq<char>, i: int)
    requires
        entry_keys(m).no_duplicates(),
        0 <= i < m.len(),
        m[i].0@ == k,
    ensures
        has_key(m, k),
        key_index(m, k) == i,
{
    assert(entry_keys(m)[i] == k);
    assert(has_key(m, k));
    let j = key_index(m, k);
    assert(0 <= j < m.len() && m[j].0@ == k);
    if j != i {
        assert(entry_keys(m)[j] == entry_keys(m)[i]);
        assert(false);
    }
}

/// Finds the entry index of `k`, if any.
fn find_key(m: &Vec<Entry>, k: &String) -> (r: Option<usize>)
    requires
        entry_keys(m@).no_duplicates(),
    ensures
        match r {
            Some(i) => i < m@.len() && m@[i as int].0@ == k@ && has_key(m@, k@)
                && key_index(m@, k@) == i,
            None => !has_key(m@, k@),
        },
{
    let n = m.len();
    let mut i: usize = 0;
    while i < n
        invariant
            n == m@.len(),
            i <= n,
            entry_keys(m@).no_duplicates(),
            forall|j: int| 0 <= j < i ==> m@[j].0@ != k@,
        decreases n - i,
    {
        if m[i].0 == *k {
            proof {
                lemma_key_index_is(m@, k@, i as int);
            }
            return Some(i);
        }
        i += 1;
    }
    proof {
        assert forall|j: int| 0 <= j < entry_keys(m@).len()
            implies entry_keys(m@)[j] != k@ by {
            assert(entry_keys(m@)[j] == m@[j].0@);
        }
    }
    None
}

/// Finds the position of `x` in a list of strings, if any.
fn find_val(v: &Vec<String>, x: &String) -> (r: Option<usize>)
    ensures
        match r {
            Some(j) => j < v@.len() && v@[j as int]@ == x@ && strs(v@).contains(x@),
            None => !strs(v@).contains(x@),
        },
{
    let n = v.len();
    let mut j: usize = 0;
    while j < n
        invariant
            n == v@.len(),
            j <= n,
            forall|p: int| 0 <= p < j ==> v@[p]@ != x@,
        decreases n - j,
    {
        if v[j] == *x {
            proof {
                assert(strs(v@)[j as int] == x@);
            }
            return Some(j);
        }
        j += 1;
    }
    proof {
        assert forall|p: int| 0 <= p < strs(v@).len() implies strs(v@)[p] != x@ by {
            assert(strs(v@)[p] == v@[p]@);
        }
    }
    None
}

/// Copies a list of strings, value for value.
fn clone_strings(v: &Vec<String>) -> (r: Vec<String>)
    ensures
        strs(r@) == strs(v@),
{
    let n = v.len();
    let mut r: Vec<String> = Vec::new();
    let mut i: usize = 0;
    while i < n
        invariant
            n == v@.len(),
            i <= n,
            r@.len() == i,
            forall|j: int| 0 <= j < i ==> r@[j]@ == v@[j]@,
        decreases n - i,
    {
        r.push(v[i].clone());
        i += 1;
    }
    proof {
        assert(strs(r@) =~= strs(v@));
    }
    r
}

/// Associates `x` with `k`, creating the entry if needed; a no-op when the
/// association already exists.
fn add_pair(m: &mut Vec<Entry>, k: &String, x: &String)
    requires
        assoc_wf(old(m)@),
    ensures
        assoc_wf(final(m)@),
        assoc_lookup(final(m)@, k@) == assoc_lookup(old(m)@, k@).insert(x@),
        forall|k2: Seq<char>| k2 != k@
            ==> #[trigger] assoc_lookup(final(m)@, k2) == assoc_lookup(old(m)@, k2),
{
    match find_key(m, k) {
        None => {
            let mut vs: Vec<String> = Vec::new();
            vs.push(x.clone());
            m.push((k.clone(), vs));
            proof {
                let pre = old(m)@;
                let post = m@;
                let e = post.last();
                assert(post =~= pre.push(e));
                assert(e.0@ == k@);
                assert(entry_keys(post) =~= entry_keys(pre).push(k@));
                assert(!entry_keys(pre).contains(k@));
                lemma_push_keeps_no_duplicates(entry_keys(pre), k@);
                assert forall|i: int| 0 <= i < post.len()
                    implies (#[trigger] strs(post[i].1@)).no_duplicates()
                        && post[i].1@.len() > 0 by {
                    if i < pre.len() {
                        assert(post[i] == pre[i]);
                    } else {
                        assert(post[i].1@ =~= seq![vs@[0]]);
                        assert(strs(post[i].1@) =~= seq![x@]);
                    }
                }
                lemma_key_index_is(post, k@, pre.len() as int);
                assert(strs(vs@) =~= Seq::<Seq<char>>::empty().push(x@));
                lemma_push_to_set(Seq::<Seq<char>>::empty(), x@);
                assert(Seq::<Seq<char>>::empty().to_set() =~= Set::<Seq<char>>::empty());
                assert(strs(vs@).to_set() == Set::<Seq<char>>::empty().insert(x@));
                assert(assoc_lookup(post, k@)
                    =~= assoc_lookup(pre, k@).insert(x@));
                assert forall|k2: Seq<char>| k2 != k@
                    implies #[trigger] assoc_lookup(post, k2) == assoc_lookup(pre, k2) by {
                    lemma_frame_after_push(pre, e, k2);
                }
            }
        },
        Some(i) => {
            let present = find_val(&m[i].1, x);
            match present {
                Some(_) => {
                    proof {
                        assert(assoc_lookup(m@, k@) == strs(m@[i as int].1@).to_set());
                        assert(assoc_lookup(m@, k@).contains(x@));
                        assert(assoc_lookup(m@, k@).insert(x@) =~= assoc_lookup(m@, k@));
                    }
                },
                None => {
                    let ghost pre = m@;
                    m[i].1.push(x.clone());
                    proof {
                        let post = m@;
                        assert(post =~= pre.update(i as int,
                            (pre[i as int].0, post[i as int].1)));
                        assert(post[i as int].1@ =~= pre[i as int].1@.push(
                            post[i as int].1@.last()));
                        let e = post[i as int].1@.last();
                        assert(e@ == x@);
                        assert(strs(post[i as int].1@)
                            =~= strs(pre[i as int].1@).push(x@));
                        assert(entry_keys(post) =~= entry_keys(pre));
                        lemma_push_keeps_no_duplicates(strs(pre[i as int].1@), x@);
                        assert forall|p: int| 0 <= p < post.len()
                            implies (#[trigger] strs(post[p].1@)).no_duplicates()
                                && post[p].1@.len() > 0 by {
                            if p != i {
                                assert(post[p] == pre[p]);
                            }
                        }
                        lemma_key_index_is(post, k@, i as int);
                        lemma_key_index_is(pre, k@, i as int);
                        lemma_push_to_set(strs(pre[i as int].1@), x@);
                        assert(assoc_lookup(post, k@)
                            == assoc_lookup(pre, k@).insert(x@));
                        assert forall|k2: Seq<char>| k2 != k@
                            implies #[trigger] assoc_lookup(post, k2)
                                == assoc_lookup(pre, k2) by {
                            lemma_frame_after_update(pre, post, i as int, k2);
                        }
                    }
                },
            }
        },
    }
}

/// Dissociates `x` from `k`; the entry is reclaimed when it empties. A
/// no-op when the association does not exist.
fn remove_pair(m: &mut Vec<Entry>, k: &String, x: &String)
    requires
        assoc_wf(old(m)@),
    ensures
        assoc_wf(final(m)@),
        assoc_lookup(final(m)@, k@) == assoc_lookup(old(m)@, k@).remove(x@),
        forall|k2: Seq<char>| k2 != k@
            ==> #[trigger] assoc_lookup(final(m)@, k2) == assoc_lookup(old(m)@, k2),
{
    match find_key(m, k) {
        None => {
            proof {
                assert(assoc_lookup(m@, k@).remove(x@) =~= assoc_lookup(m@, k@));
            }
        },
        Some(i) => {
            let jopt = find_val(&m[i].1, x);
            match jopt {
                None => {
                    proof {
                        assert(assoc_lookup(m@, k@) == strs(m@[i as int].1@).to_set());
                        assert(!assoc_lookup(m@, k@).contains(x@));
                        assert(assoc_lookup(m@, k@).remove(x@) =~= assoc_lookup(m@, k@));
                    }
                },
                Some(j) => {
                    if m[i].1.len() == 1 {
                        let ghost pre = m@;
                        m.remove(i);
                        proof {
                            lemma_remove_entry(pre, i as int);
                            assert(!has_key(m@, k@));
                            assert(pre[i as int].1@.len() == 1);
                            assert(strs(pre[i as int].1@)
                                =~= Seq::<Seq<char>>::empty().push(x@));
                            lemma_push_to_set(Seq::<Seq<char>>::empty(), x@);
                            assert(Seq::<Seq<char>>::empty().to_set()
                                =~= Set::<Seq<char>>::empty());
                            assert(assoc_lookup(pre, k@)
                                == Set::<Seq<char>>::empty().insert(x@));
                            assert(assoc_lookup(pre, k@).remove(x@)
                                =~= Set::<Seq<char>>::empty());
                            assert(assoc_lookup(m@, k@)
                                == assoc_lookup(pre, k@).remove(x@));
                        }
                    } else {
                        let ghost pre = m@;
                        m[i].1.remove(j);
                        proof {
                            let post = m@;
                            assert(post[i as int].1@ =~= pre[i as int].1@.remove(j as int));
                            assert forall|p: int| 0 <= p < post[i as int].1@.len()
                                implies strs(post[i as int].1@)[p]
                                    == strs(pre[i as int].1@).remove(j as int)[p] by {
                                if p < j {
                                    assert(post[i as int].1@[p] == pre[i as int].1@[p]);
                                } else {
                                    assert(post[i as int].1@[p] == pre[i as int].1@[p + 1]);
                                }
                            }
                            assert(strs(post[i as int].1@)
                                =~= strs(pre[i as int].1@).remove(j as int));
                            lemma_remove_one_to_set(strs(pre[i as int].1@), j as int);
                            assert(strs(pre[i as int].1@)[j as int] == x@);
                            assert(entry_keys(post) =~= entry_keys(pre));
                            assert forall|p: int| 0 <= p < post.len()
                                implies (#[trigger] strs(post[p].1@)).no_duplicates()
                                    && post[p].1@.len() > 0 by {
                                if p != i {
                                    assert(post[p] == pre[p]);
                                }
                            }
                            lemma_key_index_is(post, k@, i as int);
                            lemma_key_index_is(pre, k@, i as int);
                            assert(assoc_lookup(post, k@)
                                == assoc_lookup(pre, k@).remove(x@));
                            assert forall|k2: Seq<char>| k2 != k@
                                implies #[trigger] assoc_lookup(post, k2)
                                    == assoc_lookup(pre, k2) by {
                                lemma_frame_after_update(pre, post, i as int, k2);
                            }
                        }
                    }
                },
            }
        },
    }
}

/// Drops the whole entry of `k`, if any; every other key keeps its
/// associations.
fn drop_key(m: &mut Vec<Entry>, k: &String)
    requires
        assoc_wf(old(m)@),
    ensures
        assoc_wf(final(m)@),
        !has_key(final(m)@, k@),
        assoc_lookup(final(m)@, k@) == Set::<Seq<char>>::empty(),
        forall|k2: Seq<char>| k2 != k@
            ==> #[trigger] assoc_lookup(final(m)@, k2) == assoc_lookup(old(m)@, k2),
{
    match find_key(m, k) {
        None => {},
        Some(i) => {
            let ghost pre = m@;
            m.remove(i);
            proof {
                lemma_remove_entry(pre, i as int);
            }
        },
    }
}

/// Removing entry `i` whole: its key is gone, every other key keeps its
/// associations, and well-formedness is preserved.
proof fn lemma_remove_entry(pre: Seq<Entry>, i: int)
    requires
        assoc_wf(pre),
        0 <= i < pre.len(),
    ensures
        assoc_wf(pre.remove(i)),
        !has_key(pre.remove(i), pre[i].0@),
        forall|k2: Seq<char>| k2 != pre[i].0@
            ==> #[trigger] assoc_lookup(pre.remove(i), k2) == assoc_lookup(pre, k2),
{
    let post = pre.remove(i);
    assert forall|p: int| 0 <= p < post.len()
        implies entry_keys(post)[p] == entry_keys(pre).remove(i)[p] by {
        if p < i {
            assert(post[p] == pre[p]);
        } else {
            assert(post[p] == pre[p + 1]);
        }
    }
    assert(entry_keys(post) =~= entry_keys(pre).remove(i));
    lemma_remove_one_to_set(entry_keys(pre), i);
    if has_key(post, pre[i].0@) {
        let j = choose|j: int| 0 <= j < post.len() && entry_keys(post)[j] == pre[i].0@;
        assert(entry_keys(pre).remove(i)[j] == pre[i].0@);
        let j0 = if j < i { j } else { j + 1 };
        assert(entry_keys(pre)[j0] == pre[i].0@);
        assert(entry_keys(pre)[i] == pre[i].0@);
        assert(j0 != i);
        assert(false);
    }
    assert forall|p: int| 0 <= p < post.len()
        implies (#[trigger] strs(post[p].1@)).no_duplicates() && post[p].1@.len() > 0 by {
        if p < i {
            assert(post[p] == pre[p]);
        } else {
            assert(post[p] == pre[p + 1]);
        }
    }
    assert forall|k2: Seq<char>| k2 != pre[i].0@
        implies #[trigger] assoc_lookup(post, k2) == assoc_lookup(pre, k2) by {
        if has_key(pre, k2) {
            let j = key_index(pre, k2);
            assert(0 <= j < pre.len() && pre[j].0@ == k2);
            assert(j != i);
            if j < i {
                assert(post[j] == pre[j]);
                lemma_key_index_is(post, k2, j);
            } else {
                assert(post[j - 1] == pre[j]);
                lemma_key_index_is(post, k2, j - 1);
            }
        } else {
            if has_key(post, k2) {
                let j = choose|j: int| 0 <= j < post.len() && entry_keys(post)[j] == k2;
                assert(post[j].0@ == k2);
                let j0 = if j < i { j } else { j + 1 };
                assert(pre[j0].0@ == k2);
                assert(entry_keys(pre)[j0] == k2);
                assert(false);
            }
        }
    }
}

/// Entries other than the pushed one keep their associations.
proof fn lemma_frame_after_push(pre: Seq<Entry>, e: Entry, k2: Seq<char>)
    requires
        entry_keys(pre).no_duplicates(),
        k2 != e.0@,
        !has_key(pre, e.0@),
    ensures
        assoc_lookup(pre.push(e), k2) == assoc_lookup(pre, k2),
{
    let post = pre.push(e);
    assert(entry_keys(post) =~= entry_keys(pre).push(e.0@));
    lemma_push_keeps_no_duplicates(entry_keys(pre), e.0@);
    if has_key(pre, k2) {
        let i = key_index(pre, k2);
        assert(0 <= i < pre.len() && pre[i].0@ == k2);
        assert(post[i] == pre[i]);
        lemma_key_index_is(post, k2, i);
    } else {
        if has_key(post, k2) {
            let j = choose|j: int| 0 <= j < post.len() && entry_keys(post)[j] == k2;
            assert(post[j].0@ == k2);
            if j < pre.len() {
                assert(entry_keys(pre)[j] == k2);
            }
            assert(false);
        }
    }
}

/// Entries other than the updated one keep their associations.
proof fn lemma_frame_after_update(pre: Seq<Entry>, post: Seq<Entry>, i: int, k2: Seq<char>)
    requires
        entry_keys(pre).no_duplicates(),
        0 <= i < pre.len(),
        post.len() == pre.len(),
        forall|p: int| 0 <= p < pre.len() && p != i ==> post[p] == pre[p],
        post[i].0@ == pre[i].0@,
        k2 != pre[i].0@,
    ensures
        assoc_lookup(post, k2) == assoc_lookup(pre, k2),
{
    assert(entry_keys(post) =~= entry_keys(pre));
    if has_key(pre, k2) {
        let j = key_index(pre, k2);
        assert(0 <= j < pre.len() && pre[j].0@ == k2);
        assert(j != i);
        assert(post[j] == pre[j]);
        lemma_key_index_is(post, k2, j);
    }
}

/// The room registry: which streams each connection listens to. A message
/// arriving with a room id is routed to every connection this structure
/// records for that room.
///
/// Both directions of the many-to-many membership relation are kept, and
/// every operation updates the two together.
pub struct ChatRoomStreamsService {
    user_id_to_rooms_ids_map: Vec<Entry>,
    room_id_to_user_ids_map: Vec<Entry>,
}

impl ChatRoomStreamsService {
    /// The member set of `room` (empty for an unknown room).
    pub closed spec fn members(self, room: Seq<char>) -> Set<Seq<char>> {
        assoc_lookup(self.room_id_to_user_ids_map@, room)
    }

    /// The rooms `id` belongs to (empty for an unknown identity).
    pub closed spec fn rooms(self, id: Seq<char>) -> Set<Seq<char>> {
        assoc_lookup(self.user_id_to_rooms_ids_map@, id)
    }

    /// Well-formedness: both directions are proper association lists, and
    /// they agree — `id` is recorded as a member of `room` exactly when
    /// `room` is recorded among `id`'s rooms.
    pub closed spec fn wf(self) -> bool {
        &&& assoc_wf(self.user_id_to_rooms_ids_map@)
        &&& assoc_wf(self.room_id_to_user_ids_map@)
        &&& forall|r: Seq<char>, u: Seq<char>|
                #![trigger self.members(r).contains(u)]
                #![trigger self.rooms(u).contains(r)]
                self.members(r).contains(u) <==> self.rooms(u).contains(r)
    }

    pub fn new() -> (r: ChatRoomStreamsService)
        ensures
            r.wf(),
            forall|x: Seq<char>| #[trigger] r.members(x) == Set::<Seq<char>>::empty(),
            forall|x: Seq<char>| #[trigger] r.rooms(x) == Set::<Seq<char>>::empty(),
    {
        let r = ChatRoomStreamsService {
            user_id_to_rooms_ids_map: Vec::new(),
            room_id_to_user_ids_map: Vec::new(),
        };
        proof {
            assert forall|x: Seq<char>| !has_key(r.user_id_to_rooms_ids_map@, x)
                && !has_key(r.room_id_to_user_ids_map@, x) by {
            }
        }
        r
    }

    /// Adds `id` to `room`, in both directions, before returning. A room
    /// with no members so far comes into being by this very call; a repeated
    /// join changes nothing.
    pub fn join(&mut self, id: &String, room: &String)
        requires
            old(self).wf(),
        ensures
            final(self).wf(),
            final(self).members(room@) == old(self).members(room@).insert(id@),
            final(self).rooms(id@) == old(self).rooms(id@).insert(room@),
            forall|r: Seq<char>| r != room@
                ==> #[trigger] final(self).members(r) == old(self).members(r),
            forall|u: Seq<char>| u != id@
                ==> #[trigger] final(self).rooms(u) == old(self).rooms(u),
    {
        add_pair(&mut self.room_id_to_user_ids_map, room, id);
        add_pair(&mut self.user_id_to_rooms_ids_map, id, room);
        proof {
            assert forall|r: Seq<char>, u: Seq<char>|
                self.members(r).contains(u) <==> self.rooms(u).contains(r) by {
                assert(old(self).members(r).contains(u)
                    <==> old(self).rooms(u).contains(r));
                if r == room@ && u != id@ {
                    assert(self.members(r) == old(self).members(r).insert(id@));
                    assert(self.rooms(u) == old(self).rooms(u));
                }
                if r != room@ && u == id@ {
                    assert(self.members(r) == old(self).members(r));
                    assert(self.rooms(u) == old(self).rooms(u).insert(room@));
                }
            }
        }
    }

    /// Removes `id` from `room`, in both directions, before returning; a
    /// room emptied by this call is reclaimed. A no-op when `id` was not a
    /// member.
    pub fn leave(&mut self, id: &String, room: &String)
        requires
            old(self).wf(),
        ensures
            final(self).wf(),
            final(self).members(room@) == old(self).members(room@).remove(id@),
            final(self).rooms(id@) == old(self).rooms(id@).remove(room@),
            forall|r: Seq<char>| r != room@
                ==> #[trigger] final(self).members(r) == old(self).members(r),
            forall|u: Seq<char>| u != id@
                ==> #[trigger] final(self).rooms(u) == old(self).rooms(u),
    {
        remove_pair(&mut self.room_id_to_user_ids_map, room, id);
        remove_pair(&mut self.user_id_to_rooms_ids_map, id, room);
        proof {
            assert forall|r: Seq<char>, u: Seq<char>|
                self.members(r).contains(u) <==> self.rooms(u).contains(r) by {
                assert(old(self).members(r).contains(u)
                    <==> old(self).rooms(u).contains(r));
                if r == room@ && u != id@ {
                    assert(self.members(r) == old(self).members(r).remove(id@));
                    assert(self.rooms(u) == old(self).rooms(u));
                }
                if r != room@ && u == id@ {
                    assert(self.members(r) == old(self).members(r));
                    assert(self.rooms(u) == old(self).rooms(u).remove(room@));
                }
            }
        }
    }

    /// Removes every membership of `id` in one logically atomic step: no
    /// caller of this registry can observe a partially-removed identity.
    /// Afterwards `id` belongs to no room, and every room that had only
    /// `id` as its member is gone.
    pub fn leave_all(&mut self, id: &String)
        requires
            old(self).wf(),
        ensures
            final(self).wf(),
            final(self).rooms(id@) == Set::<Seq<char>>::empty(),
            forall|r: Seq<char>|
                #[trigger] final(self).members(r) == old(self).members(r).remove(id@),
            forall|u: Seq<char>| u != id@
                ==> #[trigger] final(self).rooms(u) == old(self).rooms(u),
            forall|r: Seq<char>|
                old(self).members(r) == Set::<Seq<char>>::empty().insert(id@)
                    ==> (#[trigger] final(self).members(r)).is_empty(),
    {
        let rs = self.rooms_of(id);
        let n = rs.len();
        let mut k: usize = 0;
        while k < n
            invariant
                n == rs@.len(),
                k <= n,
                old(self).wf(),
                strs(rs@).no_duplicates(),
                strs(rs@).to_set() == old(self).rooms(id@),
                self.user_id_to_rooms_ids_map == old(self).user_id_to_rooms_ids_map,
                assoc_wf(self.room_id_to_user_ids_map@),
                forall|r: Seq<char>| strs(rs@).subrange(0, k as int).contains(r)
                    ==> #[trigger] self.members(r) == old(self).members(r).remove(id@),
                forall|r: Seq<char>| !strs(rs@).subrange(0, k as int).contains(r)
                    ==> #[trigger] self.members(r) == old(self).members(r),
            decreases n - k,
        {
            let ghost prefix = strs(rs@).subrange(0, k as int);
            let ghost mid = *self;
            remove_pair(&mut self.room_id_to_user_ids_map, &rs[k], id);
            proof {
                let cur = rs@[k as int]@;
                let prefix2 = strs(rs@).subrange(0, k + 1);
                assert(prefix2 =~= prefix.push(strs(rs@)[k as int]));
                assert(strs(rs@)[k as int] == cur);
                assert(prefix2[k as int] == cur);
                assert(prefix2.contains(cur));
                assert(!prefix.contains(cur)) by {
                    if prefix.contains(cur) {
                        let j = choose|j: int| 0 <= j < prefix.len() && prefix[j] == cur;
                        assert(strs(rs@)[j] == cur);
                        assert(strs(rs@)[k as int] == cur);
                        assert(false);
                    }
                }
                assert forall|r: Seq<char>| #![auto] prefix2.contains(r)
                    implies self.members(r) == old(self).members(r).remove(id@) by {
                    if r == cur {
                        assert(mid.members(r) == old(self).members(r));
                        assert(self.members(r) == mid.members(r).remove(id@));
                    } else {
                        let j = choose|j: int| 0 <= j < prefix2.len() && prefix2[j] == r;
                        assert(j < k + 1);
                        if j == k {
                            assert(r == cur);
                        }
                        assert(prefix[j] == r);
                        assert(prefix.contains(r));
                        assert(mid.members(r) == old(self).members(r).remove(id@));
                        assert(self.members(r) == mid.members(r));
                    }
                }
                assert forall|r: Seq<char>| #![auto] !prefix2.contains(r)
                    implies self.members(r) == old(self).members(r) by {
                    assert(r != cur);
                    assert(!prefix.contains(r)) by {
                        if prefix.contains(r) {
                            let j = choose|j: int| 0 <= j < prefix.len() && prefix[j] == r;
                            assert(prefix2[j] == r);
                        }
                    }
                    assert(mid.members(r) == old(self).members(r));
                    assert(self.members(r) == mid.members(r));
                }
            }
            k += 1;
        }
        proof {
            assert(strs(rs@).subrange(0, n as int) =~= strs(rs@));
            assert forall|r: Seq<char>|
                #[trigger] self.members(r) == old(self).members(r).remove(id@) by {
                if !strs(rs@).contains(r) {
                    assert(self.members(r) == old(self).members(r));
                    assert(!old(self).rooms(id@).contains(r));
                    assert(!old(self).members(r).contains(id@));
                    assert(old(self).members(r).remove(id@) =~= old(self).members(r));
                }
            }
        }
        let ghost mid2 = *self;
        drop_key(&mut self.user_id_to_rooms_ids_map, id);
        proof {
            assert(self.room_id_to_user_ids_map == mid2.room_id_to_user_ids_map);
            assert forall|r: Seq<char>|
                #[trigger] self.members(r) == old(self).members(r).remove(id@) by {
                assert(mid2.members(r) == old(self).members(r).remove(id@));
            }
            assert forall|r: Seq<char>, u: Seq<char>|
                self.members(r).contains(u) <==> self.rooms(u).contains(r) by {
                assert(old(self).members(r).contains(u)
                    <==> old(self).rooms(u).contains(r));
                assert(self.members(r) == old(self).members(r).remove(id@));
                if u == id@ {
                    assert(self.rooms(u).is_empty());
                    assert(!self.members(r).contains(u));
                } else {
                    assert(self.rooms(u) == old(self).rooms(u));
                }
            }
            assert forall|r: Seq<char>|
                old(self).members(r) == Set::<Seq<char>>::empty().insert(id@)
                    implies (#[trigger] self.members(r)).is_empty() by {
                assert(self.members(r) == old(self).members(r).remove(id@));
                assert(self.members(r) =~= Set::<Seq<char>>::empty());
            }
        }
    }

    /// The identities currently in `room`, duplicate-free, as a list.
    pub fn members_of(&self, room: &String) -> (r: Vec<String>)
        requires
            self.wf(),
        ensures
            strs(r@).no_duplicates(),
            strs(r@).to_set() == self.members(room@),
            r@.len() == self.members(room@).len(),
    {
        match find_key(&self.room_id_to_user_ids_map, room) {
            Some(i) => {
                let r = clone_strings(&self.room_id_to_user_ids_map[i].1);
                proof {
                    strs(r@).unique_seq_to_set();
                }
                r
            },
            None => {
                let r: Vec<String> = Vec::new();
                proof {
                    assert(strs(r@) =~= Seq::<Seq<char>>::empty());
                    assert(strs(r@).to_set() =~= Set::<Seq<char>>::empty());
                }
                r
            },
        }
    }

    /// The rooms `id` currently belongs to, duplicate-free, as a list.
    pub fn rooms_of(&self, id: &String) -> (r: Vec<String>)
        requires
            self.wf(),
        ensures
            strs(r@).no_duplicates(),
            strs(r@).to_set() == self.rooms(id@),
            r@.len() == self.rooms(id@).len(),
    {
        match find_key(&self.user_id_to_rooms_ids_map, id) {
            Some(i) => {
                let r = clone_strings(&self.user_id_to_rooms_ids_map[i].1);
                proof {
                    strs(r@).unique_seq_to_set();
                }
                r
            },
            None => {
                let r: Vec<String> = Vec::new();
                proof {
                    assert(strs(r@) =~= Seq::<Seq<char>>::empty());
                    assert(strs(r@).to_set() =~= Set::<Seq<char>>::empty());
                }
                r
            },
        }
    }

    /// How many members `room` has right now.
    pub fn member_count(&self, room: &String) -> (r: usize)
        requires
            self.wf(),
        ensures
            r == self.members(room@).len(),
    {
        match find_key(&self.room_id_to_user_ids_map, room) {
            Some(i) => {
                proof {
                    let vs = strs(self.room_id_to_user_ids_map@[i as int].1@);
                    vs.unique_seq_to_set();
                }
                self.room_id_to_user_ids_map[i].1.len()
            },
            None => {
                proof {
                    assert(self.members(room@).is_empty());
                }
                0
            },
        }
    }
}

/// An abstract image of the registry for reasoning about runs of calls:
/// the two directions of the membership relation.
pub ghost struct MembershipModel {
    pub by_room: Map<Seq<char>, Set<Seq<char>>>,
    pub by_id: Map<Seq<char>, Set<Seq<char>>>,
}

/// The set a key maps to, empty when the key is unknown — exactly how
/// `members` and `rooms` treat unknown keys.
pub open spec fn model_get(m: Map<Seq<char>, Set<Seq<char>>>, k: Seq<char>) -> Set<Seq<char>> {
    if m.dom().contains(k) {
        m[k]
    } else {
        Set::<Seq<char>>::empty()
    }
}

/// One `join(id, room)` call as its contract states it: `id` enters the
/// room's member set, `room` enters the identity's room set, everything
/// else stays.
pub open spec fn join_step(st: MembershipModel, id: Seq<char>, room: Seq<char>) -> MembershipModel {
    MembershipModel {
        by_room: st.by_room.insert(room, model_get(st.by_room, room).insert(id)),
        by_id: st.by_id.insert(id, model_get(st.by_id, id).insert(room)),
    }
}

/// A serialized run of `join(ids[p], room)` calls, in order.
pub open spec fn join_run(st: MembershipModel, ids: Seq<Seq<char>>, room: Seq<char>) -> MembershipModel
    decreases ids.len(),
{
    if ids.len() == 0 {
        st
    } else {
        join_step(join_run(st, ids.drop_last(), room), ids.last(), room)
    }
}

/// Law: after a run of `join` calls with distinct identities into a room
/// that starts empty, the room's member set is exactly those identities —
/// so it has exactly as many elements as there were calls — and every one
/// of the identities lists the room among its rooms.
pub proof fn lemma_join_run_members(st: MembershipModel, ids: Seq<Seq<char>>, room: Seq<char>)
    requires
        ids.no_duplicates(),
        model_get(st.by_room, room) == Set::<Seq<char>>::empty(),
    ensures
        model_get(join_run(st, ids, room).by_room, room) == ids.to_set(),
        model_get(join_run(st, ids, room).by_room, room).len() == ids.len(),
        forall|p: int| 0 <= p < ids.len()
            ==> #[trigger] model_get(join_run(st, ids, room).by_id, ids[p]).contains(room),
    decreases ids.len(),
{
    if ids.len() == 0 {
        assert(ids.to_set() =~= Set::<Seq<char>>::empty());
        ids.unique_seq_to_set();
    } else {
        let front = ids.drop_last();
        let prev = join_run(st, front, room);
        lemma_join_run_members(st, front, room);
        crate::lemma_push_to_set(front, ids.last());
        assert(front.push(ids.last()) =~= ids);
        assert(model_get(join_run(st, ids, room).by_room, room)
            == front.to_set().insert(ids.last()));
        ids.unique_seq_to_set();
        assert forall|p: int| 0 <= p < ids.len()
            implies #[trigger] model_get(join_run(st, ids, room).by_id, ids[p]).contains(room) by {
            if p < ids.len() - 1 {
                assert(ids[p] == front[p]);
                assert(model_get(prev.by_id, ids[p]).contains(room));
                assert(ids[p] != ids.last());
            }
        }
    }
}

} // verus!
