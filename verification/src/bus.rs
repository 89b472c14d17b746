//! In-process fan-out bus: a multi-producer, multi-consumer broadcast
//! primitive distributing envelopes to every live subscriber of a room.
//!
//! Each subscriber owns a bounded pending queue of fixed capacity. On
//! overflow the oldest pending envelope is dropped for that subscriber only:
//! a slow consumer never delays or disturbs another subscriber, and
//! `publish` never waits on anyone's drain speed. A room with no subscriber
//! silently drops what is published to it. Every subscriber that keeps
//! draining observes the envelopes of its room in publish order, exactly
//! once, modulo drops under overflow — see [`lemma_enqueue_run_is_suffix`].
use vstd::prelude::*;

use crate::{Envelope, EnvelopeView};

verus! {

/// How many envelopes may wait in one subscriber's queue.
pub const SUBSCRIBER_QUEUE_CAPACITY: usize = 100;

/// One live subscription: its handle, the room it listens to, and its
/// pending envelopes, oldest first.
struct Subscription {
    handle: u64,
    room: String,
    queue: Vec<Envelope>,
}

/// The views of a list of envelopes, in order.
pub open spec fn env_views(q: Seq<Envelope>) -> Seq<EnvelopeView> {
    q.map_values(|x: Envelope| x@)
}

/// What one publish does to one subscriber's pending queue: the envelope is
/// appended; if the queue is full, the oldest pending envelope gives way.
pub open spec fn enqueue_step(q: Seq<EnvelopeView>, e: EnvelopeView) -> Seq<EnvelopeView> {
    if q.len() < SUBSCRIBER_QUEUE_CAPACITY {
        q.push(e)
    } else {
        q.drop_first().push(e)
    }
}

/// The in-process broadcast fabric, one pending queue per subscriber.
pub struct FanOutBus {
    next_handle: u64,
    subs: Vec<Subscription>,
}

impl FanOutBus {
    spec fn handles(self) -> Seq<u64> {
        self.subs@.map_values(|s: Subscription| s.handle)
    }

    /// Whether `h` is a live subscription handle.
    pub closed spec fn is_subscriber(self, h: u64) -> bool {
        self.handles().contains(h)
    }

    spec fn sub_index(self, h: u64) -> int {
        choose|i: int| 0 <= i < self.subs@.len() && self.subs@[i].handle == h
    }

    /// The room a live subscriber listens to.
    pub closed spec fn room_of(self, h: u64) -> Seq<char> {
        self.subs@[self.sub_index(h)].room@
    }

    /// A live subscriber's pending envelopes, oldest first.
    pub closed spec fn queue_of(self, h: u64) -> Seq<EnvelopeView> {
        env_views(self.subs@[self.sub_index(h)].queue@)
    }

    /// Well-formedness: handles are unique and below the next fresh one,
    /// and no queue exceeds its capacity.
    pub closed spec fn wf(self) -> bool {
        &&& self.handles().no_duplicates()
        &&& forall|i: int| 0 <= i < self.subs@.len()
                ==> (#[trigger] self.subs@[i]).handle < self.next_handle
        &&& forall|i: int| 0 <= i < self.subs@.len()
                ==> (#[trigger] self.subs@[i]).queue@.len() <= SUBSCRIBER_QUEUE_CAPACITY
    }

    /// Whether a fresh handle can still be minted.
    pub closed spec fn can_subscribe(self) -> bool {
        self.next_handle < u64::MAX
    }

    proof fn lemma_sub_index_is(self, h: u64, i: int)
        requires
            self.handles().no_duplicates(),
            0 <= i < self.subs@.len(),
            self.subs@[i].handle == h,
        ensures
            self.is_subscriber(h),
            self.sub_index(h) == i,
    {
        assert(self.handles()[i] == h);
        let j = self.sub_index(h);
        assert(0 <= j < self.subs@.len() && self.subs@[j].handle == h);
        if j != i {
            assert(self.handles()[j] == self.handles()[i]);
            assert(false);
        }
    }

    /// No subscriber holds a handle at or above `next_handle`.
    proof fn lemma_fresh_handle(self, h: u64)
        requires
            self.wf(),
            h >= self.next_handle,
        ensures
            !self.is_subscriber(h),
    {
        if self.is_subscriber(h) {
            let j = choose|j: int| 0 <= j < self.handles().len() && self.handles()[j] == h;
            assert(self.subs@[j].handle == h);
            assert(false);
        }
    }

    pub fn new() -> (r: FanOutBus)
        ensures
            r.wf(),
            forall|h: u64| !(#[trigger] r.is_subscriber(h)),
    {
        let r = FanOutBus { next_handle: 0, subs: Vec::new() };
        proof {
            assert forall|h: u64| !(#[trigger] r.is_subscriber(h)) by {
                r.lemma_fresh_handle(h);
            }
        }
        r
    }

    /// Opens a feed on `room` and hands back its fresh, exclusive handle.
    /// The new queue starts empty: a subscriber sees only what is published
    /// after it subscribed. Nobody else's subscription changes.
    pub fn subscribe(&mut self, room: &String) -> (h: u64)
        requires
            old(self).wf(),
            old(self).can_subscribe(),
        ensures
            final(self).wf(),
            !old(self).is_subscriber(h),
            final(self).is_subscriber(h),
            final(self).room_of(h) == room@,
            final(self).queue_of(h) == Seq::<EnvelopeView>::empty(),
            forall|h2: u64| h2 != h
                ==> #[trigger] final(self).is_subscriber(h2) == old(self).is_subscriber(h2),
            forall|h2: u64| h2 != h && old(self).is_subscriber(h2)
                ==> #[trigger] final(self).room_of(h2) == old(self).room_of(h2)
                    && final(self).queue_of(h2) == old(self).queue_of(h2),
    {
        let h = self.next_handle;
        proof {
            old(self).lemma_fresh_handle(h);
        }
        self.next_handle = self.next_handle + 1;
        let sub = Subscription { handle: h, room: room.clone(), queue: Vec::new() };
        self.subs.push(sub);
        proof {
            let pre = old(self).subs@;
            let post = self.subs@;
            let n = pre.len() as int;
            assert(post =~= pre.push(post.last()));
            assert(post.last().handle == h);
            assert(self.handles() =~= old(self).handles().push(h));
            assert forall|j: int| 0 <= j < n implies old(self).handles()[j] != h by {
                assert(pre[j].handle < h + 1);
                assert(pre[j].handle != h) by {
                    old(self).lemma_fresh_handle(h);
                    if pre[j].handle == h {
                        assert(old(self).handles()[j] == h);
                    }
                }
            }
            assert(!old(self).handles().contains(h));
            crate::lemma_push_keeps_no_duplicates(old(self).handles(), h);
            self.lemma_sub_index_is(h, n);
            assert(env_views(post[n].queue@) =~= Seq::<EnvelopeView>::empty());
            assert forall|h2: u64| h2 != h
                implies #[trigger] final(self).is_subscriber(h2)
                    == old(self).is_subscriber(h2) by {
                if old(self).is_subscriber(h2) {
                    let j = choose|j: int|
                        0 <= j < n && old(self).handles()[j] == h2;
                    assert(self.handles()[j] == h2);
                }
                if self.is_subscriber(h2) {
                    let j = choose|j: int|
                        0 <= j < post.len() && self.handles()[j] == h2;
                    if j < n {
                        assert(old(self).handles()[j] == h2);
                    }
                }
            }
            assert forall|h2: u64| h2 != h && old(self).is_subscriber(h2)
                implies #[trigger] final(self).room_of(h2) == old(self).room_of(h2)
                    && final(self).queue_of(h2) == old(self).queue_of(h2) by {
                let j = choose|j: int| 0 <= j < n && old(self).handles()[j] == h2;
                assert(pre[j].handle == h2);
                old(self).lemma_sub_index_is(h2, j);
                assert(post[j] == pre[j]);
                self.lemma_sub_index_is(h2, j);
            }
        }
        h
    }

    /// Closes the feed behind `h`; its pending queue is discarded. A no-op
    /// on an unknown handle. Nobody else's subscription changes.
    pub fn unsubscribe(&mut self, h: u64)
        requires
            old(self).wf(),
        ensures
            final(self).wf(),
            !final(self).is_subscriber(h),
            forall|h2: u64| h2 != h
                ==> #[trigger] final(self).is_subscriber(h2) == old(self).is_subscriber(h2),
            forall|h2: u64| h2 != h && old(self).is_subscriber(h2)
                ==> #[trigger] final(self).room_of(h2) == old(self).room_of(h2)
                    && final(self).queue_of(h2) == old(self).queue_of(h2),
    {
        let n = self.subs.len();
        let mut i: usize = 0;
        while i < n
            invariant
                n == self.subs@.len(),
                i <= n,
                *self == *old(self),
                old(self).wf(),
                forall|j: int| 0 <= j < i ==> (#[trigger] self.subs@[j]).handle != h,
            decreases n - i,
        {
            if self.subs[i].handle == h {
                let ghost pre = self.subs@;
                self.subs.remove(i);
                proof {
                    let post = self.subs@;
                    assert forall|p: int| 0 <= p < post.len()
                        implies self.handles()[p] == old(self).handles().remove(i as int)[p] by {
                        if p < i {
                            assert(post[p] == pre[p]);
                        } else {
                            assert(post[p] == pre[p + 1]);
                        }
                    }
                    assert(self.handles() =~= old(self).handles().remove(i as int));
                    crate::lemma_remove_one_to_set(old(self).handles(), i as int);
                    if self.is_subscriber(h) {
                        let j = choose|j: int|
                            0 <= j < post.len() && self.handles()[j] == h;
                        let j0 = if j < i { j } else { j + 1 };
                        assert(pre[j0].handle == h);
                        assert(old(self).handles()[j0] == h);
                        assert(old(self).handles()[i as int] == h);
                        assert(j0 != i);
                        assert(false);
                    }
                    assert forall|p: int| 0 <= p < post.len()
                        implies (#[trigger] post[p]).handle < self.next_handle
                            && post[p].queue@.len() <= SUBSCRIBER_QUEUE_CAPACITY by {
                        if p < i {
                            assert(post[p] == pre[p]);
                        } else {
                            assert(post[p] == pre[p + 1]);
                        }
                    }
                    assert forall|h2: u64| h2 != h
                        implies #[trigger] final(self).is_subscriber(h2)
                            == old(self).is_subscriber(h2) by {
                        if old(self).is_subscriber(h2) {
                            let j = choose|j: int|
                                0 <= j < pre.len() && old(self).handles()[j] == h2;
                            assert(j != i);
                            if j < i {
                                assert(self.handles()[j] == h2);
                            } else {
                                assert(post[j - 1] == pre[j]);
                                assert(self.handles()[j - 1] == h2);
                            }
                        }
                        if self.is_subscriber(h2) {
                            let j = choose|j: int|
                                0 <= j < post.len() && self.handles()[j] == h2;
                            let j0 = if j < i { j } else { j + 1 };
                            assert(pre[j0].handle == h2);
                            assert(old(self).handles()[j0] == h2);
                        }
                    }
                    assert forall|h2: u64| h2 != h && old(self).is_subscriber(h2)
                        implies #[trigger] final(self).room_of(h2) == old(self).room_of(h2)
                            && final(self).queue_of(h2) == old(self).queue_of(h2) by {
                        let j = choose|j: int|
                            0 <= j < pre.len() && old(self).handles()[j] == h2;
                        assert(pre[j].handle == h2);
                        old(self).lemma_sub_index_is(h2, j);
                        assert(j != i);
                        if j < i {
                            assert(post[j] == pre[j]);
                            self.lemma_sub_index_is(h2, j);
                        } else {
                            assert(post[j - 1] == pre[j]);
                            self.lemma_sub_index_is(h2, j - 1);
                        }
                    }
                }
                return;
            }
            i += 1;
        }
        proof {
            if self.is_subscriber(h) {
                let j = choose|j: int|
                    0 <= j < self.subs@.len() && self.handles()[j] == h;
                assert(self.subs@[j].handle == h);
                assert(false);
            }
        }
    }
}

/// What `publish` leaves of one subscription: handle and room are
/// untouched; the queue takes the envelope exactly when the room matches.
spec fn published_sub(pre: Subscription, post: Subscription, e: EnvelopeView) -> bool {
    &&& post.handle == pre.handle
    &&& post.room@ == pre.room@
    &&& if pre.room@ == e.room {
            env_views(post.queue@) == enqueue_step(env_views(pre.queue@), e)
        } else {
            post == pre
        }
}

impl FanOutBus {
    /// Broadcasts `env` to every current subscriber of its target room:
    /// each matching queue takes one enqueue step of its own, every other
    /// subscriber is untouched, and nobody is waited on. With no subscriber
    /// in the room the envelope is silently dropped.
    pub fn publish(&mut self, env: &Envelope)
        requires
            old(self).wf(),
        ensures
            final(self).wf(),
            forall|h: u64| #[trigger] final(self).is_subscriber(h)
                == old(self).is_subscriber(h),
            forall|h: u64| old(self).is_subscriber(h)
                ==> #[trigger] final(self).room_of(h) == old(self).room_of(h),
            forall|h: u64| old(self).is_subscriber(h) && old(self).room_of(h) == env@.room
                ==> #[trigger] final(self).queue_of(h)
                    == enqueue_step(old(self).queue_of(h), env@),
            forall|h: u64| old(self).is_subscriber(h) && old(self).room_of(h) != env@.room
                ==> #[trigger] final(self).queue_of(h) == old(self).queue_of(h),
    {
        let n = self.subs.len();
        let mut i: usize = 0;
        while i < n
            invariant
                n == self.subs@.len(),
                n == old(self).subs@.len(),
                i <= n,
                old(self).wf(),
                self.next_handle == old(self).next_handle,
                forall|j: int| i <= j < n
                    ==> #[trigger] self.subs@[j] == old(self).subs@[j],
                forall|j: int| 0 <= j < i
                    ==> published_sub(old(self).subs@[j], #[trigger] self.subs@[j], env@),
                forall|j: int| 0 <= j < n
                    ==> (#[trigger] self.subs@[j]).queue@.len() <= SUBSCRIBER_QUEUE_CAPACITY,
            decreases n - i,
        {
            let ghost pre = self.subs@;
            if self.subs[i].room == env.room {
                if self.subs[i].queue.len() >= SUBSCRIBER_QUEUE_CAPACITY {
                    self.subs[i].queue.remove(0);
                    proof {
                        assert(self.subs@[i as int].queue@
                            =~= pre[i as int].queue@.drop_first());
                    }
                }
                let ghost mid = self.subs@;
                self.subs[i].queue.push(env.duplicate());
                proof {
                    let post = self.subs@;
                    let d = post[i as int].queue@.last();
                    assert(d@ == env@);
                    assert(post[i as int].queue@ =~= mid[i as int].queue@.push(d));
                    assert(env_views(post[i as int].queue@)
                        =~= env_views(mid[i as int].queue@).push(env@));
                    if pre[i as int].queue@.len() >= SUBSCRIBER_QUEUE_CAPACITY {
                        assert(env_views(mid[i as int].queue@)
                            =~= env_views(pre[i as int].queue@).drop_first());
                        assert(env_views(pre[i as int].queue@).len()
                            == pre[i as int].queue@.len());
                        assert(env_views(post[i as int].queue@)
                            == enqueue_step(env_views(pre[i as int].queue@), env@));
                    } else {
                        assert(mid == pre);
                        assert(env_views(post[i as int].queue@)
                            == enqueue_step(env_views(pre[i as int].queue@), env@));
                    }
                    assert(published_sub(pre[i as int], post[i as int], env@));
                    assert forall|j: int| 0 <= j < n && j != i
                        implies post[j] == pre[j] by {
                    }
                    assert forall|j: int| 0 <= j < i + 1
                        implies published_sub(old(self).subs@[j],
                            #[trigger] self.subs@[j], env@) by {
                        if j < i {
                            assert(self.subs@[j] == pre[j]);
                        } else {
                            assert(pre[j] == old(self).subs@[j]);
                        }
                    }
                }
            } else {
                proof {
                    assert(self.subs@[i as int].room@ != env@.room);
                    assert(published_sub(old(self).subs@[i as int],
                        self.subs@[i as int], env@));
                }
            }
            i += 1;
        }
        proof {
            assert forall|j: int| 0 <= j < n
                implies published_sub(old(self).subs@[j],
                    #[trigger] self.subs@[j], env@) by {
            }
            assert(self.handles() =~= old(self).handles());
            assert forall|h: u64| #[trigger] final(self).is_subscriber(h)
                == old(self).is_subscriber(h) by {
            }
            assert forall|h: u64| old(self).is_subscriber(h)
                implies #[trigger] final(self).room_of(h) == old(self).room_of(h) by {
                let j = choose|j: int|
                    0 <= j < old(self).subs@.len() && old(self).handles()[j] == h;
                assert(old(self).subs@[j].handle == h);
                old(self).lemma_sub_index_is(h, j);
                assert(published_sub(old(self).subs@[j], self.subs@[j], env@));
                self.lemma_sub_index_is(h, j);
            }
            assert forall|h: u64| old(self).is_subscriber(h)
                && old(self).room_of(h) == env@.room
                implies #[trigger] final(self).queue_of(h)
                    == enqueue_step(old(self).queue_of(h), env@) by {
                let j = choose|j: int|
                    0 <= j < old(self).subs@.len() && old(self).handles()[j] == h;
                assert(old(self).subs@[j].handle == h);
                old(self).lemma_sub_index_is(h, j);
                assert(published_sub(old(self).subs@[j], self.subs@[j], env@));
                self.lemma_sub_index_is(h, j);
            }
            assert forall|h: u64| old(self).is_subscriber(h)
                && old(self).room_of(h) != env@.room
                implies #[trigger] final(self).queue_of(h) == old(self).queue_of(h) by {
                let j = choose|j: int|
                    0 <= j < old(self).subs@.len() && old(self).handles()[j] == h;
                assert(old(self).subs@[j].handle == h);
                old(self).lemma_sub_index_is(h, j);
                assert(published_sub(old(self).subs@[j], self.subs@[j], env@));
                self.lemma_sub_index_is(h, j);
            }
        }
    }

    /// Takes the oldest pending envelope of subscriber `h`, if any. The
    /// queue loses exactly its front; every other subscription is
    /// untouched.
    pub fn recv(&mut self, h: u64) -> (r: Option<Envelope>)
        requires
            old(self).wf(),
            old(self).is_subscriber(h),
        ensures
            final(self).wf(),
            forall|h2: u64| #[trigger] final(self).is_subscriber(h2)
                == old(self).is_subscriber(h2),
            final(self).room_of(h) == old(self).room_of(h),
            old(self).queue_of(h).len() == 0 ==> r is None
                && final(self).queue_of(h) == old(self).queue_of(h),
            old(self).queue_of(h).len() > 0 ==> r is Some
                && r->0@ == old(self).queue_of(h)[0]
                && final(self).queue_of(h) == old(self).queue_of(h).drop_first(),
            forall|h2: u64| h2 != h && old(self).is_subscriber(h2)
                ==> #[trigger] final(self).room_of(h2) == old(self).room_of(h2)
                    && final(self).queue_of(h2) == old(self).queue_of(h2),
    {
        let n = self.subs.len();
        let mut i: usize = 0;
        while i < n
            invariant
                n == self.subs@.len(),
                i <= n,
                *self == *old(self),
                old(self).wf(),
                old(self).is_subscriber(h),
                forall|j: int| 0 <= j < i ==> (#[trigger] self.subs@[j]).handle != h,
            decreases n - i,
        {
            if self.subs[i].handle == h {
                proof {
                    old(self).lemma_sub_index_is(h, i as int);
                }
                if self.subs[i].queue.is_empty() {
                    proof {
                        assert(env_views(self.subs@[i as int].queue@).len() == 0);
                    }
                    return None;
                }
                let ghost pre = self.subs@;
                let e = self.subs[i].queue.remove(0);
                proof {
                    let post = self.subs@;
                    assert(post[i as int].queue@ =~= pre[i as int].queue@.drop_first());
                    assert(env_views(post[i as int].queue@)
                        =~= env_views(pre[i as int].queue@).drop_first());
                    assert(e@ == env_views(pre[i as int].queue@)[0]);
                    assert(self.handles() =~= old(self).handles());
                    self.lemma_sub_index_is(h, i as int);
                    assert forall|j: int| 0 <= j < n && j != i
                        implies post[j] == pre[j] by {
                    }
                    assert forall|h2: u64| h2 != h && old(self).is_subscriber(h2)
                        implies #[trigger] final(self).room_of(h2) == old(self).room_of(h2)
                            && final(self).queue_of(h2) == old(self).queue_of(h2) by {
                        let j = choose|j: int|
                            0 <= j < pre.len() && old(self).handles()[j] == h2;
                        assert(pre[j].handle == h2);
                        old(self).lemma_sub_index_is(h2, j);
                        assert(j != i);
                        self.lemma_sub_index_is(h2, j);
                    }
                }
                return Some(e);
            }
            i += 1;
        }
        proof {
            let j = old(self).sub_index(h);
            assert(0 <= j < n && self.subs@[j].handle == h);
            assert(false);
        }
        None
    }
}

/// A serialized run of publishes to one room, as one subscriber's queue
/// sees it: each publish is one [`enqueue_step`].
pub open spec fn enqueue_run(q: Seq<EnvelopeView>, ps: Seq<EnvelopeView>) -> Seq<EnvelopeView>
    decreases ps.len(),
{
    if ps.len() == 0 {
        q
    } else {
        enqueue_step(enqueue_run(q, ps.drop_last()), ps.last())
    }
}

/// Law: a subscriber that does not drain while `ps` is published to its
/// room ends up holding exactly a suffix of `q0 + ps` — the most recent
/// envelopes, in publish order, never reordered, with drops taking only
/// the oldest and only under overflow. Publishing to one subscriber's
/// queue never touches another's (see `publish`), so one slow subscriber's
/// backlog is its own.
pub proof fn lemma_enqueue_run_is_suffix(q0: Seq<EnvelopeView>, ps: Seq<EnvelopeView>)
    requires
        q0.len() <= SUBSCRIBER_QUEUE_CAPACITY,
    ensures
        enqueue_run(q0, ps).len()
            == if q0.len() + ps.len() <= SUBSCRIBER_QUEUE_CAPACITY {
                q0.len() + ps.len()
            } else {
                SUBSCRIBER_QUEUE_CAPACITY as nat
            },
        enqueue_run(q0, ps) == (q0 + ps).subrange(
            q0.len() + ps.len() - enqueue_run(q0, ps).len(),
            (q0 + ps).len() as int,
        ),
    decreases ps.len(),
{
    if ps.len() == 0 {
        assert(enqueue_run(q0, ps) == q0);
        assert((q0 + ps).subrange(0, (q0 + ps).len() as int) =~= q0);
    } else {
        let front = ps.drop_last();
        let prev = enqueue_run(q0, front);
        lemma_enqueue_run_is_suffix(q0, front);
        let all_prev = q0 + front;
        let all = q0 + ps;
        assert(all =~= all_prev.push(ps.last()));
        let dprev = all_prev.len() - prev.len();
        assert(prev == all_prev.subrange(dprev, all_prev.len() as int));
        let cur = enqueue_run(q0, ps);
        assert(cur == enqueue_step(prev, ps.last()));
        if prev.len() < SUBSCRIBER_QUEUE_CAPACITY {
            assert(cur == prev.push(ps.last()));
            assert forall|p: int| 0 <= p < cur.len()
                implies cur[p] == all.subrange(dprev, all.len() as int)[p] by {
                if p < prev.len() {
                    assert(cur[p] == all_prev[dprev + p]);
                }
            }
            assert(cur =~= all.subrange(dprev, all.len() as int));
        } else {
            assert(cur == prev.drop_first().push(ps.last()));
            assert forall|p: int| 0 <= p < cur.len()
                implies cur[p] == all.subrange(dprev + 1, all.len() as int)[p] by {
                if p < prev.len() - 1 {
                    assert(cur[p] == prev[p + 1]);
                    assert(prev[p + 1] == all_prev[dprev + 1 + p]);
                }
            }
            assert(cur =~= all.subrange(dprev + 1, all.len() as int));
        }
    }
}

} // verus!
