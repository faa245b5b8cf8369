use vstd::prelude::*;
use crate::messages::OutboundMsg;
use crate::peer::{PeerHandle, PeerId};
use crate::queue::{WaitingQueue, lemma_without_absent, other_than, pushed, without};
use crate::sessions::{
    Session, SessionTable, links_of, table_insert, table_new, table_partner, table_remove,
};

verus! {

/// Every session has a partner that is another peer, whose session points back.
pub open spec fn symmetric(links: Map<PeerId, PeerId>) -> bool {
    forall|a: PeerId| #[trigger] links.contains_key(a) ==> {
        &&& links[a] != a
        &&& links.contains_key(links[a])
        &&& links[links[a]] == a
    }
}

/// No identity both waits and holds a session.
pub open spec fn disjoint(queue: Seq<PeerId>, links: Map<PeerId, PeerId>) -> bool {
    forall|a: PeerId| #[trigger] links.contains_key(a) ==> !queue.contains(a)
}

/// Session table after `id` leaves its session, and the partner that the
/// caller must notify: only the one whose own entry this call removed.
pub open spec fn after_leave(links: Map<PeerId, PeerId>, id: PeerId) -> (Map<PeerId, PeerId>, Option<PeerId>) {
    if !links.contains_key(id) {
        (links, None)
    } else {
        let p = links[id];
        let rest = links.remove(id);
        if rest.contains_key(p) {
            (rest.remove(p), Some(p))
        } else {
            (rest, None)
        }
    }
}

/// Session table after `a` and `b` are matched.
pub open spec fn linked(links: Map<PeerId, PeerId>, a: PeerId, b: PeerId) -> Map<PeerId, PeerId> {
    links.insert(a, b).insert(b, a)
}

/// An identity is in a queue without `id` exactly when it is in the queue and
/// is not `id`.
pub proof fn lemma_without_contains(q: Seq<PeerId>, id: PeerId)
    ensures
        forall|x: PeerId| #[trigger] without(q, id).contains(x) <==> (q.contains(x) && x != id),
{
    broadcast use vstd::seq_lib::group_seq_properties;
    assert forall|x: PeerId| #[trigger] without(q, id).contains(x) <==> (q.contains(x) && x != id) by {
        if q.contains(x) && x != id {
            let j = choose|j: int| 0 <= j < q.len() && q[j] == x;
            q.lemma_filter_contains(other_than(id), j);
        }
        if without(q, id).contains(x) {
            q.lemma_filter_contains_rev(other_than(id), x);
        }
    }
}

/// Of two teardowns of one pair, one after the other, exactly one reports a
/// partner to notify: the first reports the other side, the second nothing,
/// and the second changes nothing more.
pub proof fn lemma_teardown_notifies_once(links: Map<PeerId, PeerId>, a: PeerId)
    requires
        symmetric(links),
        links.contains_key(a),
    ensures
        after_leave(links, a).1 == Some(links[a]),
        after_leave(after_leave(links, a).0, links[a]).1 is None,
        after_leave(after_leave(links, a).0, links[a]).0 == after_leave(links, a).0,
        !after_leave(links, a).0.contains_key(a),
        !after_leave(links, a).0.contains_key(links[a]),
{
}

/// What one step of matchmaking did with a candidate.
pub enum PairStep {
    /// Its outbox was closed: it was dropped.
    Discarded,
    /// It was the newcomer itself, which went back to the queue.
    Requeued,
    /// It was matched with the newcomer.
    Matched(PeerHandle),
}

/// The shared matchmaking state: who waits, and who is paired with whom.
pub struct AppState {
    waiting: WaitingQueue,
    sessions: SessionTable,
    log: Ghost<Seq<(PeerId, OutboundMsg)>>,
}

impl AppState {
    /// Identities in the waiting queue, oldest first.
    pub closed spec fn queue(&self) -> Seq<PeerId> {
        self.waiting@
    }

    /// Each paired identity mapped to its partner.
    pub closed spec fn links(&self) -> Map<PeerId, PeerId> {
        links_of(self.sessions)
    }

    /// Every message handed to an outbox so far, with its recipient, in order.
    pub closed spec fn sent(&self) -> Seq<(PeerId, OutboundMsg)> {
        self.log@
    }

    /// The queue is well formed, sessions come in symmetric pairs, and no
    /// paired identity waits.
    pub closed spec fn wf(&self) -> bool {
        &&& self.waiting.wf()
        &&& self.links().dom().finite()
        &&& symmetric(self.links())
        &&& disjoint(self.queue(), self.links())
    }

    /// Whether `id` waits in the queue.
    pub open spec fn waits(&self, id: PeerId) -> bool {
        self.queue().contains(id)
    }

    /// Whether `id` holds a session.
    pub open spec fn paired(&self, id: PeerId) -> bool {
        self.links().contains_key(id)
    }

    /// The well-formedness facts that callers may rely on.
    pub proof fn lemma_wf(&self)
        requires
            self.wf(),
        ensures
            self.queue().no_duplicates(),
            self.links().dom().finite(),
            symmetric(self.links()),
            disjoint(self.queue(), self.links()),
    {
        self.waiting.lemma_wf();
    }

    /// Matches `incoming` with the oldest waiting peer whose outbox is open, and
    /// returns that partner; peers with a closed outbox met on the way are
    /// discarded. With no such peer, `incoming` waits instead. A peer is never
    /// matched with itself: if the candidate is `incoming`, it goes back to the
    /// queue.
    pub fn try_pair(&mut self, incoming: PeerHandle) -> (r: Option<PeerHandle>)
        requires
            old(self).wf(),
            !old(self).paired(incoming.id),
        ensures
            final(self).wf(),
            final(self).sent() == old(self).sent(),
            match r {
                Some(c) => {
                    &&& c.id != incoming.id
                    &&& old(self).waits(c.id)
                    &&& final(self).links() == linked(old(self).links(), incoming.id, c.id)
                    &&& exists|k: int|
                        0 <= k < old(self).queue().len() && #[trigger] old(self).queue()[k] == c.id
                            && final(self).queue() == without(
                            old(self).queue().subrange(k + 1, old(self).queue().len() as int),
                            incoming.id,
                        )
                },
                None => {
                    &&& final(self).waits(incoming.id)
                    &&& final(self).links() == old(self).links()
                    &&& (final(self).queue() == seq![incoming.id] || exists|k: int|
                        0 <= k < old(self).queue().len() && #[trigger] old(self).queue()[k] == incoming.id
                            && final(self).queue() == old(self).queue().subrange(
                            k + 1,
                            old(self).queue().len() as int,
                        ).push(incoming.id))
                },
            },
    {
        let ghost q0 = self.queue();
        let ghost l0 = self.links();
        assert(self.queue() =~= q0.subrange(0, q0.len() as int));
        loop
            invariant
                self.wf(),
                !self.paired(incoming.id),
                self.sent() == old(self).sent(),
                self.links() == l0,
                q0 == old(self).queue(),
                l0 == old(self).links(),
                exists|k: int| 0 <= k <= q0.len() && self.queue() == q0.subrange(k, q0.len() as int),
            decreases self.queue().len(),
        {
            let ghost before = self.queue();
            let ghost k = choose|k: int| 0 <= k <= q0.len() && before == q0.subrange(k, q0.len() as int);
            match self.next_candidate() {
                None => {
                    let ghost id = incoming.id;
                    self.waiting.push(incoming);
                    assert(self.queue() =~= seq![id]);
                    assert(self.queue()[0] == id);
                    assert(disjoint(self.queue(), self.links())) by {
                        assert forall|a: PeerId| #[trigger] self.links().contains_key(a) implies !self.queue().contains(a) by {
                            if self.queue().contains(a) {
                                assert(a == id);
                            }
                        }
                    }
                    return None;
                },
                Some(c) => {
                    assert(q0[k] == c.id);
                    assert(self.queue() =~= q0.subrange(k + 1, q0.len() as int));
                    let ghost cid = c.id;
                    let closed = c.is_closed();
                    match self.pair_with(&incoming, c, closed) {
                        PairStep::Discarded => {},
                        PairStep::Requeued => {
                            proof {
                                self.lemma_wf();
                                let rest = q0.subrange(k + 1, q0.len() as int);
                                assert(cid == incoming.id);
                                assert(!rest.contains(incoming.id)) by {
                                    if rest.contains(incoming.id) {
                                        let j = choose|j: int| 0 <= j < rest.len() && rest[j] == incoming.id;
                                        assert(q0[k + 1 + j] == q0[k]);
                                        old(self).lemma_wf();
                                    }
                                }
                                assert(self.queue() == rest.push(incoming.id));
                                assert(self.queue()[self.queue().len() - 1] == incoming.id);
                                assert(q0[k] == incoming.id);
                            }
                            return None;
                        },
                        PairStep::Matched(p) => {
                            return Some(p);
                        },
                    }
                },
            }
        }
    }

    /// Takes the oldest waiting peer out of the queue, whatever its outbox.
    fn next_candidate(&mut self) -> (r: Option<PeerHandle>)
        requires
            old(self).wf(),
        ensures
            final(self).wf(),
            final(self).sent() == old(self).sent(),
            final(self).links() == old(self).links(),
            match r {
                Some(p) => {
                    &&& old(self).queue().len() > 0
                    &&& p.id == old(self).queue()[0]
                    &&& final(self).queue() == old(self).queue().drop_first()
                    &&& !final(self).waits(p.id)
                    &&& !final(self).paired(p.id)
                },
                None => old(self).queue().len() == 0 && final(self).queue() == old(self).queue(),
            },
    {
        proof {
            self.waiting.lemma_wf();
        }
        let ghost q = self.queue();
        let r = self.waiting.take_front();
        proof {
            if r is Some {
                let id = r->Some_0.id;
                assert(q.contains(id)) by {
                    assert(q[0] == id);
                }
                assert forall|x: PeerId| self.queue().contains(x) implies q.contains(x) && x != id by {
                    let j = choose|j: int| 0 <= j < self.queue().len() && self.queue()[j] == x;
                    assert(q[j + 1] == x);
                }
            }
        }
        r
    }

    /// One step of matchmaking for `incoming`, given a candidate just taken
    /// from the queue and whether the candidate's outbox is closed: a closed
    /// candidate is dropped; the newcomer itself goes back to the queue; any
    /// other candidate is matched with the newcomer, which then leaves the
    /// queue if it waited there.
    pub fn pair_with(&mut self, incoming: &PeerHandle, candidate: PeerHandle, closed: bool) -> (r: PairStep)
        requires
            old(self).wf(),
            !old(self).paired(incoming.id),
            !old(self).waits(candidate.id),
            !old(self).paired(candidate.id),
        ensures
            final(self).wf(),
            final(self).sent() == old(self).sent(),
            closed ==> r is Discarded && final(self).queue() == old(self).queue() && final(self).links()
                == old(self).links(),
            !closed && candidate.id == incoming.id ==> r is Requeued && final(self).queue() == pushed(
                old(self).queue(),
                incoming.id,
            ) && final(self).links() == old(self).links(),
            !closed && candidate.id != incoming.id ==> (r matches PairStep::Matched(c) && c.id == candidate.id
                && final(self).links() == linked(old(self).links(), incoming.id, candidate.id)
                && final(self).queue() == without(old(self).queue(), incoming.id)),
    {
        let ghost q = self.queue();
        let ghost l0 = self.links();
        if closed {
            return PairStep::Discarded;
        }
        if candidate.id == incoming.id {
            self.waiting.push(incoming.share());
            assert(self.queue() == q.push(incoming.id));
            assert(disjoint(self.queue(), self.links())) by {
                assert forall|a: PeerId| #[trigger] self.links().contains_key(a) implies !self.queue().contains(a) by {
                    if self.queue().contains(a) && a != incoming.id {
                        let j = choose|j: int| 0 <= j < self.queue().len() && self.queue()[j] == a;
                        assert(q[j] == a);
                    }
                }
            }
            return PairStep::Requeued;
        }
        if self.waiting.contains(incoming.id) {
            self.waiting.remove(incoming.id);
        } else {
            proof {
                lemma_without_absent(q, incoming.id);
            }
        }
        proof {
            lemma_without_contains(q, incoming.id);
        }
        let a = incoming.id;
        let b = candidate.id;
        let c2 = candidate.share();
        table_insert(&mut self.sessions, a, Session { partner: c2 });
        table_insert(&mut self.sessions, b, Session { partner: incoming.share() });
        assert(self.links() =~= linked(l0, a, b));
        assert(disjoint(self.queue(), self.links())) by {
            assert forall|x: PeerId| #[trigger] self.links().contains_key(x) implies !self.queue().contains(x) by {
                if x != a && x != b && self.queue().contains(x) {
                    assert(q.contains(x));
                }
            }
        }
        PairStep::Matched(candidate)
    }

    /// Ends the session of `id`, if it has one, and returns the partner that the
    /// caller must notify. The partner is returned only when this call also
    /// removed the partner's own entry, so of two concurrent leaves of one pair
    /// exactly one reports the other.
    pub fn leave_session(&mut self, id: PeerId) -> (r: Option<PeerHandle>)
        requires
            old(self).wf(),
        ensures
            final(self).wf(),
            final(self).sent() == old(self).sent(),
            final(self).queue() == old(self).queue(),
            final(self).links() == after_leave(old(self).links(), id).0,
            match r {
                Some(p) => after_leave(old(self).links(), id).1 == Some(p.id),
                None => after_leave(old(self).links(), id).1 is None,
            },
    {
        let ghost l0 = self.links();
        match table_remove(&mut self.sessions, id) {
            None => None,
            Some(s) => {
                let p = s.partner;
                match table_remove(&mut self.sessions, p.id) {
                    Some(_) => {
                        assert(self.links() =~= l0.remove(id).remove(p.id));
                        assert forall|a: PeerId| #[trigger] self.links().contains_key(a) implies {
                            &&& self.links()[a] != a
                            &&& self.links().contains_key(self.links()[a])
                            &&& self.links()[self.links()[a]] == a
                        } by {
                            assert(l0.contains_key(a));
                            assert(l0.contains_key(l0[a]));
                        }
                        Some(p)
                    },
                    None => {
                        assert(l0.contains_key(l0[id]));
                        None
                    },
                }
            },
        }
    }

    /// Takes `id` out of the waiting queue, if it waits there.
    pub fn leave_queue(&mut self, id: PeerId)
        requires
            old(self).wf(),
        ensures
            final(self).wf(),
            final(self).sent() == old(self).sent(),
            final(self).queue() == without(old(self).queue(), id),
            final(self).links() == old(self).links(),
    {
        let ghost q0 = self.queue();
        self.waiting.remove(id);
        proof {
            lemma_without_contains(q0, id);
        }
    }

    /// Whether `id` waits in the queue.
    pub fn is_waiting(&self, id: PeerId) -> (r: bool)
        requires
            self.wf(),
        ensures
            r == self.waits(id),
    {
        self.waiting.contains(id)
    }

    /// The partner of `id`, if it holds a session.
    pub fn partner_of(&self, id: PeerId) -> (r: Option<PeerHandle>)
        ensures
            r is Some <==> self.paired(id),
            r is Some ==> r->Some_0.id == self.links()[id],
    {
        table_partner(&self.sessions, id)
    }

    /// No identity both waits and holds a session.
    pub proof fn lemma_exclusive(&self, id: PeerId)
        requires
            self.wf(),
        ensures
            !(self.waits(id) && self.paired(id)),
    {
    }

    /// A peer's partner is another peer whose partner is the first.
    pub proof fn lemma_pair_symmetry(&self, a: PeerId)
        requires
            self.wf(),
            self.paired(a),
        ensures
            self.links()[a] != a,
            self.paired(self.links()[a]),
            self.links()[self.links()[a]] == a,
    {
    }

    /// Hands `msg` to the outbox of `to`, without waiting, and records it.
    pub fn post(&mut self, to: &PeerHandle, msg: OutboundMsg)
        ensures
            final(self).wf() == old(self).wf(),
            final(self).queue() == old(self).queue(),
            final(self).links() == old(self).links(),
            final(self).sent() == old(self).sent().push((to.id, msg)),
    {
        let ghost entry = (to.id, msg);
        self.log = Ghost(self.log@.push(entry));
        to.post(msg);
    }

    pub fn new() -> (r: AppState)
        ensures
            r.wf(),
            r.queue() == Seq::<PeerId>::empty(),
            r.links() == Map::<PeerId, PeerId>::empty(),
            r.sent() == Seq::<(PeerId, OutboundMsg)>::empty(),
    {
        let r = AppState { waiting: WaitingQueue::new(), sessions: table_new(), log: Ghost(Seq::empty()) };
        assert(r.links().dom() =~= Set::<PeerId>::empty());
        r
    }
}

} // verus!
