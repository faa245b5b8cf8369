use vstd::prelude::*;
use crate::messages::{OutboundMsg, SignalMessage};
use crate::peer::{PeerHandle, PeerId};
use crate::queue::without;
use crate::state::{AppState, after_leave, linked};

verus! {

/// What an inbound text asks of the server.
#[derive(Debug, Clone, Copy, PartialEq, Eq, Structural)]
pub enum InboundKind {
    Skip,
    Ready,
    Offer,
    Answer,
    IceCandidate,
    /// Any other tag, a missing tag, a negotiation payload whose fields do not
    /// parse, or text that is not JSON.
    Other,
}

/// How the partner of a departing peer was told and re-matched.
#[derive(Debug, Clone, Copy, PartialEq, Eq)]
pub struct Rematch {
    /// The partner that was told `PeerLeft` then `Waiting`.
    pub partner: PeerId,
    /// Whom it was matched with on re-entering matchmaking, if anyone.
    pub partner_match: Option<PeerId>,
}

/// What a Skip or Ready did.
#[derive(Debug, Clone, Copy, PartialEq, Eq)]
pub struct SkipOutcome {
    /// The partner told of the skip, if this call ended a session.
    pub notified: Option<Rematch>,
    /// Whom the skipping peer was matched with afterwards, if anyone.
    pub own_match: Option<PeerId>,
}

/// What handling one inbound text did.
#[derive(Debug, Clone, Copy, PartialEq, Eq)]
pub enum Handled {
    /// The sender left its session (if any) and re-entered matchmaking.
    Skipped(SkipOutcome),
    /// The text went to the sender's partner, if it had one.
    Relayed(Option<PeerId>),
    /// Unknown or malformed: dropped without any change.
    Ignored,
}

/// The string under `key` in `text` read as a JSON object, if `text` is JSON
/// and that value is a string.
pub uninterp spec fn str_field_of(text: Seq<char>, key: Seq<char>) -> Option<Seq<char>>;

/// The non-negative integer under `key` in `text` read as a JSON object, if
/// `text` is JSON and that value is an integer that fits in a `u64`.
pub uninterp spec fn uint_field_of(text: Seq<char>, key: Seq<char>) -> Option<u64>;

/// Relies on serde_json: `from_str` into a `Value`, then `get(key)` and
/// `as_str`; the outcome depends on the text and the key alone.
#[verifier::external_body]
fn read_str_field(text: &str, key: &str) -> (r: Option<String>)
    ensures
        r is Some <==> str_field_of(text@, key@) is Some,
        r is Some ==> str_field_of(text@, key@) == Some(r->Some_0@),
{
    let v: serde_json::Value = serde_json::from_str(text).ok()?;
    let s = v.get(key)?.as_str()?;
    Some(s.to_string())
}

/// Relies on serde_json: `from_str` into a `Value`, then `get(key)` and
/// `as_u64`; the outcome depends on the text and the key alone.
#[verifier::external_body]
fn read_uint_field(text: &str, key: &str) -> (r: Option<u64>)
    ensures
        r == uint_field_of(text@, key@),
{
    let v: serde_json::Value = serde_json::from_str(text).ok()?;
    v.get(key)?.as_u64()
}

/// The kind that a `type` tag names.
pub open spec fn kind_of_tag(tag: Option<Seq<char>>) -> InboundKind {
    match tag {
        None => InboundKind::Other,
        Some(t) => if t == "Skip"@ {
            InboundKind::Skip
        } else if t == "Ready"@ {
            InboundKind::Ready
        } else if t == "Offer"@ {
            InboundKind::Offer
        } else if t == "Answer"@ {
            InboundKind::Answer
        } else if t == "IceCandidate"@ {
            InboundKind::IceCandidate
        } else {
            InboundKind::Other
        },
    }
}

/// The kind of a message from its tag and whether its fields parse: an offer
/// or answer needs a string `sdp`; a candidate needs string `candidate` and
/// `sdp_mid` and a `sdp_m_line_index` that fits in 16 bits.
pub open spec fn kind_of_parts(
    tag: Option<Seq<char>>,
    has_sdp: bool,
    has_candidate: bool,
    has_sdp_mid: bool,
    line_index: Option<u64>,
) -> InboundKind {
    let k = kind_of_tag(tag);
    match k {
        InboundKind::Offer | InboundKind::Answer => if has_sdp {
            k
        } else {
            InboundKind::Other
        },
        InboundKind::IceCandidate => if has_candidate && has_sdp_mid && (match line_index {
            Some(n) => n <= 65535,
            None => false,
        }) {
            k
        } else {
            InboundKind::Other
        },
        _ => k,
    }
}

/// The kind of an inbound text.
pub open spec fn inbound_kind(text: Seq<char>) -> InboundKind {
    kind_of_parts(
        str_field_of(text, "type"@),
        str_field_of(text, "sdp"@) is Some,
        str_field_of(text, "candidate"@) is Some,
        str_field_of(text, "sdp_mid"@) is Some,
        uint_field_of(text, "sdp_m_line_index"@),
    )
}

/// Whether `t` spells exactly `name`.
fn same_text(t: &String, name: &str) -> (r: bool)
    ensures
        r == (t@ == name@),
{
    let n = name.to_owned();
    t.eq(&n)
}

/// Names the kind of an inbound text from its `type` tag.
pub fn classify(tag: &Option<String>) -> (r: InboundKind)
    ensures
        r == kind_of_tag(
            match tag {
                Some(t) => Some(t@),
                None => None,
            },
        ),
{
    match tag {
        None => InboundKind::Other,
        Some(t) => if same_text(t, "Skip") {
            InboundKind::Skip
        } else if same_text(t, "Ready") {
            InboundKind::Ready
        } else if same_text(t, "Offer") {
            InboundKind::Offer
        } else if same_text(t, "Answer") {
            InboundKind::Answer
        } else if same_text(t, "IceCandidate") {
            InboundKind::IceCandidate
        } else {
            InboundKind::Other
        },
    }
}

/// Names the kind of an inbound text from its tag and the presence of the
/// fields that its kind needs.
pub fn classify_parts(
    tag: &Option<String>,
    has_sdp: bool,
    has_candidate: bool,
    has_sdp_mid: bool,
    line_index: Option<u64>,
) -> (r: InboundKind)
    ensures
        r == kind_of_parts(
            match tag {
                Some(t) => Some(t@),
                None => None,
            },
            has_sdp,
            has_candidate,
            has_sdp_mid,
            line_index,
        ),
{
    let k = classify(tag);
    match k {
        InboundKind::Offer | InboundKind::Answer => if has_sdp {
            k
        } else {
            InboundKind::Other
        },
        InboundKind::IceCandidate => {
            let index_fits = match line_index {
                Some(n) => n <= 65535,
                None => false,
            };
            if has_candidate && has_sdp_mid && index_fits {
                k
            } else {
                InboundKind::Other
            }
        },
        _ => k,
    }
}

/// The kind of an inbound text, read from its JSON fields.
pub fn extract_type(text: &str) -> (r: InboundKind)
    ensures
        r == inbound_kind(text@),
{
    let tag = read_str_field(text, "type");
    let sdp = read_str_field(text, "sdp");
    let candidate = read_str_field(text, "candidate");
    let sdp_mid = read_str_field(text, "sdp_mid");
    let line_index = read_uint_field(text, "sdp_m_line_index");
    classify_parts(&tag, sdp.is_some(), candidate.is_some(), sdp_mid.is_some(), line_index)
}

/// Messages that a match sends: the newcomer `me` offers, the partner answers.
pub open spec fn paired_notes(me: PeerId, m: Option<PeerId>) -> Seq<(PeerId, OutboundMsg)> {
    match m {
        Some(c) => seq![
            (me, OutboundMsg::Typed(SignalMessage::Paired { you_are_offerer: true })),
            (c, OutboundMsg::Typed(SignalMessage::Paired { you_are_offerer: false })),
        ],
        None => Seq::empty(),
    }
}

/// Messages that telling and re-matching a left-behind partner sends.
pub open spec fn left_notes(r: Option<Rematch>) -> Seq<(PeerId, OutboundMsg)> {
    match r {
        Some(m) => seq![
            (m.partner, OutboundMsg::Typed(SignalMessage::PeerLeft)),
            (m.partner, OutboundMsg::Typed(SignalMessage::Waiting)),
        ] + paired_notes(m.partner, m.partner_match),
        None => Seq::empty(),
    }
}

/// The partner named by a re-match, if any.
pub open spec fn notified_of(r: Option<Rematch>) -> Option<PeerId> {
    match r {
        Some(m) => Some(m.partner),
        None => None,
    }
}

/// How matchmaking for `me` took the queue `pq` and sessions `pl` to `q` and
/// `l`, `m` being the peer it was matched with: the oldest waiting peer with an
/// open outbox, which leaves the queue together with the peers discarded
/// before it; or, with no match, `me` waits at the back. Nothing else changes.
pub open spec fn matched(
    pq: Seq<PeerId>,
    pl: Map<PeerId, PeerId>,
    q: Seq<PeerId>,
    l: Map<PeerId, PeerId>,
    me: PeerId,
    m: Option<PeerId>,
) -> bool {
    match m {
        Some(c) => {
            &&& c != me
            &&& pq.contains(c)
            &&& l == linked(pl, me, c)
            &&& exists|k: int|
                0 <= k < pq.len() && #[trigger] pq[k] == c && q == without(pq.subrange(k + 1, pq.len() as int), me)
        },
        None => {
            &&& q.contains(me)
            &&& l == pl
            &&& (q == seq![me] || exists|k: int|
                0 <= k < pq.len() && #[trigger] pq[k] == me && q == pq.subrange(k + 1, pq.len() as int).push(me))
        },
    }
}

/// What a Skip or Ready from `me` did: the session ended as `after_leave`
/// says, the partner it reports was told and re-matched first, then `me` was
/// told it waits and re-matched; `me` ends up waiting or paired, and so does
/// the partner unless the partner was discarded while `me` found no match.
pub open spec fn skip_done(pre: AppState, post: AppState, me: PeerId, o: SkipOutcome) -> bool {
    &&& post.wf()
    &&& notified_of(o.notified) == after_leave(pre.links(), me).1
    &&& post.sent() == pre.sent() + left_notes(o.notified) + seq![
        (me, OutboundMsg::Typed(SignalMessage::Waiting)),
    ] + paired_notes(me, o.own_match)
    &&& match o.notified {
        Some(n) => {
            &&& n.partner_match != Some(me)
            &&& exists|q: Seq<PeerId>, l: Map<PeerId, PeerId>|
                #[trigger] matched(pre.queue(), after_leave(pre.links(), me).0, q, l, n.partner, n.partner_match)
                    && matched(q, l, post.queue(), post.links(), me, o.own_match)
        },
        None => matched(pre.queue(), after_leave(pre.links(), me).0, post.queue(), post.links(), me, o.own_match),
    }
    &&& post.waits(me) || post.paired(me)
    &&& (o.own_match matches Some(c) ==> post.links()[me] == c)
    &&& (o.notified matches Some(n) ==> {
        &&& (n.partner_match matches Some(c) ==> post.paired(n.partner))
        &&& (post.waits(n.partner) || post.paired(n.partner) || o.own_match is None)
    })
}

/// What relaying `raw` from `from` did: nothing changed but that `raw`
/// itself was handed to the partner's outbox, if there is a partner.
pub open spec fn relay_done(pre: AppState, post: AppState, from: PeerId, raw: String, r: Option<PeerId>) -> bool {
    &&& post.wf() == pre.wf()
    &&& post.queue() == pre.queue()
    &&& post.links() == pre.links()
    &&& (r is Some <==> pre.paired(from))
    &&& post.sent() == match r {
        Some(b) => pre.sent().push((b, OutboundMsg::Raw(raw))),
        None => pre.sent(),
    }
    &&& (r matches Some(b) ==> b == pre.links()[from])
}

/// Runs matchmaking for `peer`; on a match tells it to offer and tells the
/// partner to answer. Returns the partner.
pub fn attempt_pair(state: &mut AppState, peer: PeerHandle) -> (r: Option<PeerId>)
    requires
        old(state).wf(),
        !old(state).paired(peer.id),
    ensures
        final(state).wf(),
        matched(old(state).queue(), old(state).links(), final(state).queue(), final(state).links(), peer.id, r),
        final(state).sent() == old(state).sent() + paired_notes(peer.id, r),
{
    let me = peer.share();
    match state.try_pair(peer) {
        None => {
            assert(old(state).sent() + paired_notes(me.id, None) =~= old(state).sent());
            None
        },
        Some(partner) => {
            state.post(&me, OutboundMsg::Typed(SignalMessage::Paired { you_are_offerer: true }));
            state.post(&partner, OutboundMsg::Typed(SignalMessage::Paired { you_are_offerer: false }));
            assert(state.sent() =~= old(state).sent() + paired_notes(me.id, Some(partner.id)));
            Some(partner.id)
        },
    }
}

/// A new connection: it is told that it waits, then enters matchmaking.
pub fn connect(state: &mut AppState, peer: PeerHandle) -> (r: Option<PeerId>)
    requires
        old(state).wf(),
        !old(state).paired(peer.id),
    ensures
        final(state).wf(),
        matched(old(state).queue(), old(state).links(), final(state).queue(), final(state).links(), peer.id, r),
        final(state).sent() == old(state).sent() + seq![(peer.id, OutboundMsg::Typed(SignalMessage::Waiting))]
            + paired_notes(peer.id, r),
{
    state.post(&peer, OutboundMsg::Typed(SignalMessage::Waiting));
    let ghost mid = *state;
    let r = attempt_pair(state, peer);
    assert(matched(old(state).queue(), old(state).links(), state.queue(), state.links(), peer.id, r)) by {
        assert(mid.queue() == old(state).queue());
        assert(mid.links() == old(state).links());
    }
    r
}

/// Forwards `raw` unchanged to the partner of `from`; without a session the
/// text is dropped. Returns the partner it went to.
pub fn relay_raw(state: &mut AppState, from: PeerId, raw: String) -> (r: Option<PeerId>)
    ensures
        relay_done(*old(state), *final(state), from, raw, r),
{
    match state.partner_of(from) {
        None => None,
        Some(p) => {
            state.post(&p, OutboundMsg::Raw(raw));
            Some(p.id)
        },
    }
}

/// Tells a peer whose partner left, and puts it back into matchmaking.
fn rematch(state: &mut AppState, partner: PeerHandle) -> (r: Rematch)
    requires
        old(state).wf(),
        !old(state).paired(partner.id),
    ensures
        final(state).wf(),
        r.partner == partner.id,
        matched(old(state).queue(), old(state).links(), final(state).queue(), final(state).links(), partner.id, r.partner_match),
        final(state).sent() == old(state).sent() + left_notes(Some(r)),
        final(state).waits(partner.id) || final(state).paired(partner.id),
{
    state.post(&partner, OutboundMsg::Typed(SignalMessage::PeerLeft));
    state.post(&partner, OutboundMsg::Typed(SignalMessage::Waiting));
    let ghost mid = *state;
    let id = partner.id;
    let m = attempt_pair(state, partner);
    let r = Rematch { partner: id, partner_match: m };
    assert(state.sent() =~= old(state).sent() + left_notes(Some(r)));
    assert(matched(old(state).queue(), old(state).links(), state.queue(), state.links(), id, m)) by {
        assert(mid.queue() == old(state).queue());
        assert(mid.links() == old(state).links());
    }
    r
}

/// Skip or Ready from `peer`: it leaves its session (if any), the partner (if
/// this call removed the partner's entry) is told and re-enters matchmaking,
/// then `peer` is told it waits and re-enters matchmaking too.
pub fn handle_skip(state: &mut AppState, peer: &PeerHandle) -> (r: SkipOutcome)
    requires
        old(state).wf(),
    ensures
        skip_done(*old(state), *final(state), peer.id, r),
{
    proof {
        old(state).lemma_wf();
    }
    let left = state.leave_session(peer.id);
    let notified = match left {
        None => None,
        Some(p) => {
            proof {
                state.lemma_wf();
                assert(old(state).paired(p.id));
            }
            let m = rematch(state, p);
            Some(m)
        },
    };
    let ghost before_own = *state;
    let ghost after_left = after_leave(old(state).links(), peer.id).0;
    proof {
        if notified is Some {
            let n = notified->Some_0;
            if n.partner_match is None {
                assert(!old(state).waits(n.partner));
                assert(state.queue() =~= seq![n.partner]);
            }
        }
    }
    state.post(peer, OutboundMsg::Typed(SignalMessage::Waiting));
    let own_match = attempt_pair(state, peer.share());
    let r = SkipOutcome { notified, own_match };
    proof {
        assert(state.sent() =~= old(state).sent() + left_notes(notified) + seq![
            (peer.id, OutboundMsg::Typed(SignalMessage::Waiting)),
        ] + paired_notes(peer.id, own_match));
        if notified is Some {
            let n = notified->Some_0;
            assert(!old(state).waits(peer.id));
            assert(matched(old(state).queue(), after_left, before_own.queue(), before_own.links(), n.partner, n.partner_match));
            assert(matched(before_own.queue(), before_own.links(), state.queue(), state.links(), peer.id, own_match));
            if own_match is Some {
                let c = own_match->Some_0;
                if n.partner_match is None {
                    assert(before_own.queue() =~= seq![n.partner]);
                    assert(before_own.waits(c));
                    assert(c == n.partner);
                }
            }
        }
    }
    r
}

/// What a departure of `me` did: it left its session as `after_leave` says,
/// and the queue; the partner it reports was told, and re-matched as
/// `matched` says; nothing else changed.
pub open spec fn cleanup_done(pre: AppState, post: AppState, me: PeerId, r: Option<Rematch>) -> bool {
    &&& post.wf()
    &&& notified_of(r) == after_leave(pre.links(), me).1
    &&& post.sent() == pre.sent() + left_notes(r)
    &&& !post.waits(me)
    &&& !post.paired(me)
    &&& (r matches Some(m) ==> {
        &&& post.waits(m.partner) || post.paired(m.partner)
        &&& (m.partner_match matches Some(c) ==> post.links()[m.partner] == c)
    })
    &&& match r {
        Some(m) => exists|q: Seq<PeerId>, l: Map<PeerId, PeerId>|
            #[trigger] matched(pre.queue(), after_leave(pre.links(), me).0, q, l, m.partner, m.partner_match)
                && post.queue() == without(q, me) && post.links() == l,
        None => post.queue() == without(pre.queue(), me) && post.links() == after_leave(pre.links(), me).0,
    }
}

/// What handling the text `text` from `me` did, by the kind of the text.
pub open spec fn text_done(pre: AppState, post: AppState, me: PeerId, text: String, r: Handled) -> bool {
    &&& post.wf()
    &&& match inbound_kind(text@) {
        InboundKind::Skip | InboundKind::Ready => r is Skipped && skip_done(pre, post, me, r->Skipped_0),
        InboundKind::Offer | InboundKind::Answer | InboundKind::IceCandidate => r is Relayed && relay_done(
            pre,
            post,
            me,
            text,
            r->Relayed_0,
        ),
        InboundKind::Other => post == pre && r == Handled::Ignored,
    }
}

/// One event on a connection, as the transport reports it.
pub enum Event {
    /// A text frame.
    Text(String),
    /// A keepalive frame (ping or pong), or a frame of another kind.
    Idle,
    /// The client closed the connection.
    Close,
    /// No frame arrived within the liveness interval.
    Timeout,
    /// Reading from or writing to the connection failed.
    Failed,
}

/// What the connection's driver does next.
#[derive(Debug, Clone, Copy, PartialEq, Eq)]
pub enum Step {
    /// Keep reading; holds what a text frame did, if it was one.
    Continue(Option<Handled>),
    /// The connection is over and torn down; holds the partner that was told.
    End(Option<Rematch>),
}

/// The driver's decision on one event: text is handled, keepalives and other
/// frames change nothing, and a close, timeout or failure tears the
/// connection down.
pub fn on_event(state: &mut AppState, peer: &PeerHandle, ev: Event) -> (r: Step)
    requires
        old(state).wf(),
    ensures
        final(state).wf(),
        match ev {
            Event::Text(t) => r matches Step::Continue(Some(h)) && text_done(*old(state), *final(state), peer.id, t, h),
            Event::Idle => r == Step::Continue(None) && *final(state) == *old(state),
            _ => r matches Step::End(x) && cleanup_done(*old(state), *final(state), peer.id, x),
        },
{
    match ev {
        Event::Text(t) => Step::Continue(Some(handle_text(state, peer, t))),
        Event::Idle => Step::Continue(None),
        _ => Step::End(cleanup(state, peer)),
    }
}

/// A connection ended: it leaves its session (telling and re-matching the
/// partner, as for a skip) and the waiting queue.
pub fn cleanup(state: &mut AppState, peer: &PeerHandle) -> (r: Option<Rematch>)
    requires
        old(state).wf(),
    ensures
        cleanup_done(*old(state), *final(state), peer.id, r),
{
    proof {
        old(state).lemma_wf();
    }
    let left = state.leave_session(peer.id);
    let r = match left {
        None => None,
        Some(p) => {
            let id = p.id;
            assert(!state.waits(peer.id)) by {
                assert(old(state).paired(peer.id));
            }
            assert(!state.paired(peer.id));
            assert(id != peer.id);
            proof {
                assert(old(state).paired(id));
            }
            let m = rematch(state, p);
            assert(!state.paired(peer.id));
            Some(m)
        },
    };
    let ghost q = state.queue();
    let ghost l = state.links();
    state.leave_queue(peer.id);
    proof {
        if r is Some {
            let m = r->Some_0;
            assert(matched(old(state).queue(), after_leave(old(state).links(), peer.id).0, q, l, m.partner, m.partner_match));
        }
        crate::state::lemma_without_contains(q, peer.id);
        assert(state.sent() =~= old(state).sent() + left_notes(r));
    }
    r
}

/// Handles one inbound text from `peer`: Skip and Ready re-match, negotiation
/// payloads whose fields parse are relayed verbatim, anything else is dropped.
pub fn handle_text(state: &mut AppState, peer: &PeerHandle, text: String) -> (r: Handled)
    requires
        old(state).wf(),
    ensures
        text_done(*old(state), *final(state), peer.id, text, r),
{
    match extract_type(text.as_str()) {
        InboundKind::Skip | InboundKind::Ready => Handled::Skipped(handle_skip(state, peer)),
        InboundKind::Offer | InboundKind::Answer | InboundKind::IceCandidate => Handled::Relayed(
            relay_raw(state, peer.id, text),
        ),
        InboundKind::Other => Handled::Ignored,
    }
}

} // verus!
