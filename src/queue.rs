use vstd::prelude::*;
use std::collections::HashMap;
use std::collections::VecDeque;
use crate::peer::{PeerHandle, PeerId};

verus! {

broadcast use vstd::std_specs::hash::group_hash_axioms;

/// What `push` makes of a queue: `id` goes to the back unless it is already in.
pub open spec fn pushed(q: Seq<PeerId>, id: PeerId) -> Seq<PeerId> {
    if q.contains(id) {
        q
    } else {
        q.push(id)
    }
}

/// The queue after pushing each of `ids` in turn onto `q`.
pub open spec fn pushed_all(q: Seq<PeerId>, ids: Seq<PeerId>) -> Seq<PeerId>
    decreases ids.len(),
{
    if ids.len() == 0 {
        q
    } else {
        pushed(pushed_all(q, ids.drop_last()), ids.last())
    }
}

/// Peers pushed in order onto an empty queue wait in that order, so the
/// oldest of them is the first to come out.
pub proof fn lemma_fifo_order(ids: Seq<PeerId>)
    requires
        ids.no_duplicates(),
    ensures
        pushed_all(Seq::empty(), ids) == ids,
        ids.len() > 0 ==> pushed_all(Seq::empty(), ids)[0] == ids[0],
    decreases ids.len(),
{
    if ids.len() > 0 {
        let init = ids.drop_last();
        assert(init.no_duplicates()) by {
            assert forall|i: int, j: int| 0 <= i < j < init.len() implies init[i] != init[j] by {
                assert(ids[i] != ids[j]);
            }
        }
        lemma_fifo_order(init);
        assert(!init.contains(ids.last())) by {
            if init.contains(ids.last()) {
                let j = choose|j: int| 0 <= j < init.len() && init[j] == ids.last();
                assert(ids[j] == ids[ids.len() - 1]);
            }
        }
        assert(init.push(ids.last()) =~= ids);
    }
}

/// What `remove` makes of a queue: `id` leaves, the others keep their order.
pub open spec fn without(q: Seq<PeerId>, id: PeerId) -> Seq<PeerId> {
    q.filter(other_than(id))
}

/// Holds of every identity but `id`.
pub open spec fn other_than(id: PeerId) -> spec_fn(PeerId) -> bool {
    |x: PeerId| x != id
}

/// Number of times `id` occurs in `s`.
pub open spec fn occurrences(s: Seq<PeerId>, id: PeerId) -> nat
    decreases s.len(),
{
    if s.len() == 0 {
        0
    } else {
        (if s[0] == id {
            1nat
        } else {
            0nat
        }) + occurrences(s.drop_first(), id)
    }
}

/// How many tombstones of `id` the order still holds.
pub open spec fn stale_count(stale: Map<PeerId, usize>, id: PeerId) -> nat {
    if stale.contains_key(id) {
        stale[id] as nat
    } else {
        0
    }
}

/// The identities that popping `order` yields, oldest first: an occurrence is
/// a tombstone while its identity still has tombstones counted in `stale`, and
/// an identity of `live` is yielded once.
pub open spec fn live_order(order: Seq<PeerId>, stale: Map<PeerId, usize>, live: Set<PeerId>) -> Seq<PeerId>
    decreases order.len(),
{
    if order.len() == 0 {
        Seq::empty()
    } else {
        let x = order[0];
        if stale_count(stale, x) > 0 {
            live_order(order.drop_first(), stale.insert(x, (stale[x] - 1) as usize), live)
        } else if live.contains(x) {
            seq![x] + live_order(order.drop_first(), stale, live.remove(x))
        } else {
            live_order(order.drop_first(), stale, live)
        }
    }
}

proof fn lemma_occurrences_push(s: Seq<PeerId>, a: PeerId, y: PeerId)
    ensures
        occurrences(s.push(a), y) == occurrences(s, y) + (if a == y {
            1nat
        } else {
            0nat
        }),
    decreases s.len(),
{
    assert(s.push(a)[0] == if s.len() > 0 {
        s[0]
    } else {
        a
    });
    if s.len() > 0 {
        assert(s.push(a).drop_first() =~= s.drop_first().push(a));
        lemma_occurrences_push(s.drop_first(), a, y);
    } else {
        assert(s.push(a).drop_first() =~= Seq::<PeerId>::empty());
        assert(occurrences(s.push(a).drop_first(), y) == 0);
        assert(occurrences(s, y) == 0);
    }
}

proof fn lemma_occurrences_bound(s: Seq<PeerId>, y: PeerId)
    ensures
        occurrences(s, y) <= s.len(),
    decreases s.len(),
{
    if s.len() > 0 {
        lemma_occurrences_bound(s.drop_first(), y);
    }
}

/// Only the tombstone counts matter, not whether a zero count is stored.
proof fn lemma_live_order_counts(o: Seq<PeerId>, a: Map<PeerId, usize>, b: Map<PeerId, usize>, d: Set<PeerId>)
    requires
        forall|y: PeerId| stale_count(a, y) == stale_count(b, y),
    ensures
        live_order(o, a, d) == live_order(o, b, d),
    decreases o.len(),
{
    if o.len() > 0 {
        let x = o[0];
        if stale_count(a, x) > 0 {
            let a2 = a.insert(x, (a[x] - 1) as usize);
            let b2 = b.insert(x, (b[x] - 1) as usize);
            assert forall|y: PeerId| stale_count(a2, y) == stale_count(b2, y) by {
                assert(stale_count(a, y) == stale_count(b, y));
            }
            lemma_live_order_counts(o.drop_first(), a2, b2, d);
        } else if d.contains(x) {
            lemma_live_order_counts(o.drop_first(), a, b, d.remove(x));
        } else {
            lemma_live_order_counts(o.drop_first(), a, b, d);
        }
    }
}

/// Only identities of `live` are yielded.
proof fn lemma_live_order_sound(o: Seq<PeerId>, st: Map<PeerId, usize>, d: Set<PeerId>, y: PeerId)
    requires
        live_order(o, st, d).contains(y),
    ensures
        d.contains(y),
    decreases o.len(),
{
    let x = o[0];
    if stale_count(st, x) > 0 {
        lemma_live_order_sound(o.drop_first(), st.insert(x, (st[x] - 1) as usize), d, y);
    } else if d.contains(x) {
        let rest = live_order(o.drop_first(), st, d.remove(x));
        if y != x {
            assert(rest.contains(y)) by {
                let j = choose|j: int| 0 <= j < live_order(o, st, d).len() && live_order(o, st, d)[j] == y;
                assert(rest[j - 1] == y);
            }
            lemma_live_order_sound(o.drop_first(), st, d.remove(x), y);
        }
    } else {
        lemma_live_order_sound(o.drop_first(), st, d, y);
    }
}

/// No identity is yielded twice.
proof fn lemma_live_order_unique(o: Seq<PeerId>, st: Map<PeerId, usize>, d: Set<PeerId>)
    ensures
        live_order(o, st, d).no_duplicates(),
    decreases o.len(),
{
    if o.len() > 0 {
        let x = o[0];
        if stale_count(st, x) > 0 {
            lemma_live_order_unique(o.drop_first(), st.insert(x, (st[x] - 1) as usize), d);
        } else if d.contains(x) {
            let rest = live_order(o.drop_first(), st, d.remove(x));
            lemma_live_order_unique(o.drop_first(), st, d.remove(x));
            let all = live_order(o, st, d);
            assert forall|i: int, j: int| 0 <= i < j < all.len() implies all[i] != all[j] by {
                if i == 0 {
                    if all[j] == x {
                        assert(rest[j - 1] == x);
                        lemma_live_order_sound(o.drop_first(), st, d.remove(x), x);
                    }
                } else {
                    assert(rest[i - 1] != rest[j - 1]);
                }
            }
        } else {
            lemma_live_order_unique(o.drop_first(), st, d);
        }
    }
}

/// An identity of `live` with an occurrence beyond its tombstones is yielded.
proof fn lemma_live_order_complete(o: Seq<PeerId>, st: Map<PeerId, usize>, d: Set<PeerId>, y: PeerId)
    requires
        d.contains(y),
        occurrences(o, y) >= stale_count(st, y) + 1,
    ensures
        live_order(o, st, d).contains(y),
    decreases o.len(),
{
    let x = o[0];
    if stale_count(st, x) > 0 {
        lemma_live_order_complete(o.drop_first(), st.insert(x, (st[x] - 1) as usize), d, y);
    } else if d.contains(x) {
        if x == y {
            assert(live_order(o, st, d)[0] == y);
        } else {
            lemma_live_order_complete(o.drop_first(), st, d.remove(x), y);
            let rest = live_order(o.drop_first(), st, d.remove(x));
            let j = choose|j: int| 0 <= j < rest.len() && rest[j] == y;
            assert(live_order(o, st, d)[j + 1] == y);
        }
    } else {
        lemma_live_order_complete(o.drop_first(), st, d, y);
    }
}

/// Pushing an identity that is not waiting, and whose tombstones are all
/// counted, appends it.
proof fn lemma_live_order_push(o: Seq<PeerId>, st: Map<PeerId, usize>, d: Set<PeerId>, id: PeerId)
    requires
        !d.contains(id),
        occurrences(o, id) == stale_count(st, id),
    ensures
        live_order(o.push(id), st, d.insert(id)) == live_order(o, st, d).push(id),
    decreases o.len(),
{
    if o.len() == 0 {
        assert(o.push(id).drop_first() =~= Seq::<PeerId>::empty());
        assert(o.push(id)[0] == id);
        assert(d.insert(id).contains(id));
        assert(live_order(o.push(id).drop_first(), st, d.insert(id).remove(id)) == Seq::<PeerId>::empty());
        assert(live_order(o, st, d) == Seq::<PeerId>::empty());
        assert(seq![id] + Seq::<PeerId>::empty() =~= Seq::<PeerId>::empty().push(id));
    } else {
        let x = o[0];
        assert(o.push(id).drop_first() =~= o.drop_first().push(id));
        assert(o.push(id)[0] == x);
        if stale_count(st, x) > 0 {
            lemma_live_order_push(o.drop_first(), st.insert(x, (st[x] - 1) as usize), d, id);
        } else if d.insert(id).contains(x) {
            assert(x != id);
            assert(d.insert(id).remove(x) =~= d.remove(x).insert(id));
            lemma_live_order_push(o.drop_first(), st, d.remove(x), id);
            assert(seq![x] + live_order(o.drop_first(), st, d.remove(x)).push(id) =~= (seq![x]
                + live_order(o.drop_first(), st, d.remove(x))).push(id));
        } else {
            lemma_live_order_push(o.drop_first(), st, d, id);
        }
    }
}

/// Turning the live occurrence of `id` into a tombstone takes `id` out of
/// what popping yields.
proof fn lemma_live_order_remove(o: Seq<PeerId>, st: Map<PeerId, usize>, d: Set<PeerId>, id: PeerId)
    requires
        d.contains(id),
        occurrences(o, id) == stale_count(st, id) + 1,
        stale_count(st, id) < usize::MAX,
    ensures
        live_order(o, st.insert(id, (stale_count(st, id) + 1) as usize), d.remove(id)) == without(
            live_order(o, st, d),
            id,
        ),
    decreases o.len(),
{
    let x = o[0];
    let r = o.drop_first();
    let s = stale_count(st, id);
    let st1 = st.insert(id, (s + 1) as usize);
    if x == id {
        if s > 0 {
            let st2 = st.insert(id, (st[id] - 1) as usize);
            lemma_live_order_remove(r, st2, d, id);
            assert(st1.insert(id, (st1[id] - 1) as usize) =~= st2.insert(id, (stale_count(st2, id) + 1) as usize));
        } else {
            let st3 = st1.insert(id, (st1[id] - 1) as usize);
            assert forall|y: PeerId| stale_count(st3, y) == stale_count(st, y) by {}
            lemma_live_order_counts(r, st3, st, d.remove(id));
            let rest = live_order(r, st, d.remove(id));
            rest.lemma_filter_prepend(id, other_than(id));
            assert(!rest.contains(id)) by {
                if rest.contains(id) {
                    lemma_live_order_sound(r, st, d.remove(id), id);
                }
            }
            assert(without(rest, id) == rest) by {
                lemma_without_absent(rest, id);
            }
        }
    } else {
        if stale_count(st, x) > 0 {
            let st2 = st.insert(x, (st[x] - 1) as usize);
            lemma_live_order_remove(r, st2, d, id);
            assert(st1.insert(x, (st1[x] - 1) as usize) =~= st2.insert(id, (stale_count(st2, id) + 1) as usize));
        } else if d.contains(x) {
            lemma_live_order_remove(r, st, d.remove(x), id);
            assert(d.remove(id).remove(x) =~= d.remove(x).remove(id));
            live_order(r, st, d.remove(x)).lemma_filter_prepend(x, other_than(id));
        } else {
            lemma_live_order_remove(r, st, d, id);
        }
    }
}

/// Removing an identity that does not wait leaves the queue as it is.
pub proof fn lemma_without_absent(q: Seq<PeerId>, id: PeerId)
    requires
        !q.contains(id),
    ensures
        without(q, id) == q,
    decreases q.len(),
{
    if q.len() > 0 {
        let init = q.drop_last();
        assert(!init.contains(id)) by {
            if init.contains(id) {
                let j = choose|j: int| 0 <= j < init.len() && init[j] == id;
                assert(q[j] == id);
            }
        }
        lemma_without_absent(init, id);
        assert(init.push(q.last()) =~= q);
        init.lemma_filter_push(q.last(), other_than(id));
    }
}

/// FIFO pool of peers awaiting a match.
///
/// `order` holds identities oldest first; `peers` maps each waiting identity
/// to its handle. Removal only drops the handle and counts a tombstone in
/// `stale`; popping skips that many occurrences of the identity later on.
pub struct WaitingQueue {
    order: VecDeque<PeerId>,
    peers: HashMap<PeerId, PeerHandle>,
    stale: HashMap<PeerId, usize>,
}

impl View for WaitingQueue {
    type V = Seq<PeerId>;

    closed spec fn view(&self) -> Seq<PeerId> {
        live_order(self.order@, self.stale@, self.peers@.dom())
    }
}

fn stale_of(m: &HashMap<PeerId, usize>, x: PeerId) -> (r: usize)
    ensures
        r == stale_count(m@, x),
{
    match m.get(&x) {
        Some(v) => *v,
        None => 0,
    }
}

impl WaitingQueue {
    /// Every occurrence in the order is either a counted tombstone or the one
    /// live entry of a waiting identity, and handles carry their own identity.
    pub closed spec fn wf(&self) -> bool {
        &&& forall|y: PeerId| #[trigger] occurrences(self.order@, y) == stale_count(self.stale@, y) + (if self.peers@.contains_key(y) {
            1nat
        } else {
            0nat
        })
        &&& forall|k: PeerId| #[trigger] self.peers@.contains_key(k) ==> self.peers@[k].id == k
    }

    /// A well-formed queue holds each identity at most once.
    pub proof fn lemma_wf(&self)
        requires
            self.wf(),
        ensures
            self@.no_duplicates(),
    {
        lemma_live_order_unique(self.order@, self.stale@, self.peers@.dom());
    }

    pub fn new() -> (r: WaitingQueue)
        ensures
            r.wf(),
            r@ == Seq::<PeerId>::empty(),
    {
        let r = WaitingQueue { order: VecDeque::new(), peers: HashMap::new(), stale: HashMap::new() };
        assert(r.peers@.dom() =~= Set::<PeerId>::empty());
        r
    }

    /// Appends `peer` to the back; does nothing if its identity already waits.
    pub fn push(&mut self, peer: PeerHandle)
        requires
            old(self).wf(),
        ensures
            final(self).wf(),
            final(self)@ == pushed(old(self)@, peer.id),
    {
        let id = peer.id;
        if !self.peers.contains_key(&id) {
            proof {
                assert(occurrences(self.order@, id) == stale_count(self.stale@, id));
                lemma_live_order_push(self.order@, self.stale@, self.peers@.dom(), id);
                if old(self)@.contains(id) {
                    lemma_live_order_sound(self.order@, self.stale@, self.peers@.dom(), id);
                }
            }
            self.order.push_back(id);
            self.peers.insert(id, peer);
            assert(self.peers@.dom() =~= old(self).peers@.dom().insert(id));
            assert forall|y: PeerId| #[trigger] occurrences(self.order@, y) == stale_count(self.stale@, y) + (if self.peers@.contains_key(y) {
                1nat
            } else {
                0nat
            }) by {
                lemma_occurrences_push(old(self).order@, id, y);
            }
        } else {
            proof {
                lemma_live_order_complete(self.order@, self.stale@, self.peers@.dom(), id);
            }
        }
    }

    /// Takes the oldest waiting peer, whatever the state of its outbox.
    /// Tombstones met on the way are dropped.
    pub fn take_front(&mut self) -> (r: Option<PeerHandle>)
        requires
            old(self).wf(),
        ensures
            final(self).wf(),
            match r {
                Some(p) => old(self)@.len() > 0 && p.id == old(self)@[0] && final(self)@ == old(self)@.drop_first(),
                None => old(self)@.len() == 0 && final(self)@ == old(self)@,
            },
    {
        loop
            invariant
                self.wf(),
                self@ == old(self)@,
            decreases self.order@.len(),
        {
            let ghost o = self.order@;
            let ghost st = self.stale@;
            let ghost d0 = self.peers@.dom();
            match self.order.pop_front() {
                None => {
                    return None;
                },
                Some(x) => {
                    assert(o.drop_first() =~= self.order@);
                    assert(o[0] == x);
                    assert forall|y: PeerId| #[trigger] occurrences(o, y) == (if x == y {
                        1nat
                    } else {
                        0nat
                    }) + occurrences(self.order@, y) by {}
                    let s = stale_of(&self.stale, x);
                    if s > 0 {
                        if s == 1 {
                            self.stale.remove(&x);
                            proof {
                                let st2 = st.insert(x, (st[x] - 1) as usize);
                                assert forall|y: PeerId| stale_count(self.stale@, y) == stale_count(st2, y) by {}
                                lemma_live_order_counts(self.order@, self.stale@, st2, self.peers@.dom());
                            }
                        } else {
                            self.stale.insert(x, s - 1);
                        }
                        assert forall|y: PeerId| #[trigger] occurrences(self.order@, y) == stale_count(self.stale@, y) + (if self.peers@.contains_key(y) {
                            1nat
                        } else {
                            0nat
                        }) by {
                            assert(occurrences(o, y) == (if x == y {
                                1nat
                            } else {
                                0nat
                            }) + occurrences(self.order@, y));
                        }
                    } else {
                        assert(occurrences(o, x) >= 1);
                        assert(self.peers@.contains_key(x));
                        let p = self.peers.remove(&x);
                        assert(self.peers@.dom() =~= d0.remove(x));
                        assert forall|y: PeerId| #[trigger] occurrences(self.order@, y) == stale_count(self.stale@, y) + (if self.peers@.contains_key(y) {
                            1nat
                        } else {
                            0nat
                        }) by {
                            assert(occurrences(o, y) == (if x == y {
                                1nat
                            } else {
                                0nat
                            }) + occurrences(self.order@, y));
                        }
                        assert(old(self)@ == seq![x] + self@);
                        assert(old(self)@.drop_first() =~= self@);
                        return p;
                    }
                },
            }
        }
    }

    /// Takes the oldest waiting peer whose outbox is still open. Peers with a
    /// closed outbox met on the way are discarded, not handed out.
    pub fn pop(&mut self) -> (r: Option<PeerHandle>)
        requires
            old(self).wf(),
        ensures
            final(self).wf(),
            match r {
                Some(p) => exists|k: int|
                    0 <= k < old(self)@.len() && #[trigger] old(self)@[k] == p.id && final(self)@
                        == old(self)@.subrange(k + 1, old(self)@.len() as int),
                None => final(self)@ == Seq::<PeerId>::empty(),
            },
    {
        assert(self@ =~= old(self)@.subrange(0, old(self)@.len() as int));
        loop
            invariant
                self.wf(),
                exists|k: int|
                    0 <= k <= old(self)@.len() && self@ == old(self)@.subrange(k, old(self)@.len() as int),
            decreases self@.len(),
        {
            let ghost before = self@;
            match self.take_front() {
                None => {
                    return None;
                },
                Some(p) => {
                    let ghost k = choose|k: int|
                        0 <= k <= old(self)@.len() && before == old(self)@.subrange(k, old(self)@.len() as int);
                    assert(old(self)@[k] == p.id);
                    assert(self@ =~= old(self)@.subrange(k + 1, old(self)@.len() as int));
                    let closed = p.is_closed();
                    match Self::settle(p, closed) {
                        Some(live) => {
                            return Some(live);
                        },
                        None => {},
                    }
                },
            }
        }
    }

    /// Decides on a candidate just taken from the queue, given whether its
    /// outbox is closed: a closed one is dropped, an open one handed out.
    pub fn settle(candidate: PeerHandle, closed: bool) -> (r: Option<PeerHandle>)
        ensures
            closed ==> r is None,
            !closed ==> r is Some && r->Some_0.id == candidate.id,
    {
        if closed {
            None
        } else {
            Some(candidate)
        }
    }

    /// Takes `id` out of the queue if it waits there. Only its handle goes at
    /// once; its slot in the order becomes a tombstone that popping skips.
    pub fn remove(&mut self, id: PeerId)
        requires
            old(self).wf(),
        ensures
            final(self).wf(),
            final(self)@ == without(old(self)@, id),
    {
        if self.peers.contains_key(&id) {
            let s = stale_of(&self.stale, id);
            let n = self.order.len();
            proof {
                lemma_occurrences_bound(self.order@, id);
                lemma_live_order_remove(self.order@, self.stale@, self.peers@.dom(), id);
            }
            self.peers.remove(&id);
            self.stale.insert(id, s + 1);
            assert(self.peers@.dom() =~= old(self).peers@.dom().remove(id));
        } else {
            proof {
                if old(self)@.contains(id) {
                    lemma_live_order_sound(self.order@, self.stale@, self.peers@.dom(), id);
                }
                lemma_without_absent(old(self)@, id);
            }
        }
    }

    /// Whether `id` waits in the queue.
    pub fn contains(&self, id: PeerId) -> (r: bool)
        requires
            self.wf(),
        ensures
            r == self@.contains(id),
    {
        let r = self.peers.contains_key(&id);
        proof {
            if r {
                lemma_live_order_complete(self.order@, self.stale@, self.peers@.dom(), id);
            } else if self@.contains(id) {
                lemma_live_order_sound(self.order@, self.stale@, self.peers@.dom(), id);
            }
        }
        r
    }

    /// Whether no peer waits.
    pub fn is_empty(&self) -> (r: bool)
        requires
            self.wf(),
        ensures
            r == (self@.len() == 0),
    {
        let r = self.peers.is_empty();
        proof {
            if self@.len() > 0 {
                assert(self@.contains(self@[0]));
                lemma_live_order_sound(self.order@, self.stale@, self.peers@.dom(), self@[0]);
            } else if !r {
                let k = choose|k: PeerId| self.peers@.contains_key(k);
                lemma_live_order_complete(self.order@, self.stale@, self.peers@.dom(), k);
            }
        }
        r
    }
}

} // verus!
