use mismatch_server::messages::{OutboundMsg, SignalMessage};
use mismatch_server::peer::PeerHandle;
use mismatch_server::queue::WaitingQueue;
use mismatch_server::signaling::{
    classify, classify_parts, cleanup, connect, extract_type, handle_skip, handle_text,
    on_event, relay_raw, Event, Handled, InboundKind, Rematch, SkipOutcome, Step,
};
use mismatch_server::state::PairStep;
use mismatch_server::state::AppState;
use tokio::sync::mpsc::{channel, Receiver};

fn peer(id: u128) -> (PeerHandle, Receiver<OutboundMsg>) {
    let (tx, rx) = channel::<OutboundMsg>(256);
    (PeerHandle { id, tx }, rx)
}

fn drain(rx: &mut Receiver<OutboundMsg>) -> Vec<OutboundMsg> {
    let mut out = Vec::new();
    while let Ok(m) = rx.try_recv() {
        out.push(m);
    }
    out
}

fn typed(m: SignalMessage) -> OutboundMsg {
    OutboundMsg::Typed(m)
}

#[test]
fn queue_pops_in_insertion_order() {
    let (a, _ra) = peer(1);
    let (b, _rb) = peer(2);
    let (c, _rc) = peer(3);
    let mut q = WaitingQueue::new();
    q.push(a);
    q.push(b);
    q.push(c);
    assert_eq!(q.pop().map(|p| p.id), Some(1));
    assert_eq!(q.pop().map(|p| p.id), Some(2));
    assert_eq!(q.pop().map(|p| p.id), Some(3));
    assert!(q.pop().is_none());
    assert!(q.is_empty());
}

#[test]
fn queue_push_is_idempotent() {
    let (a, _ra) = peer(7);
    let mut q = WaitingQueue::new();
    q.push(a.share());
    q.push(a);
    assert_eq!(q.pop().map(|p| p.id), Some(7));
    assert!(q.pop().is_none());
}

#[test]
fn queue_remove_then_pop_skips_removed() {
    let (a, _ra) = peer(1);
    let (b, _rb) = peer(2);
    let mut q = WaitingQueue::new();
    q.push(a);
    q.push(b);
    q.remove(1);
    assert!(!q.contains(1));
    assert!(!q.is_empty());
    assert_eq!(q.pop().map(|p| p.id), Some(2));
    assert!(q.is_empty());
}

#[test]
fn queue_pushed_again_after_remove_goes_to_back() {
    let (a, _ra) = peer(1);
    let (b, _rb) = peer(2);
    let mut q = WaitingQueue::new();
    q.push(a.share());
    q.push(b);
    q.remove(1);
    q.push(a);
    assert_eq!(q.pop().map(|p| p.id), Some(2));
    assert_eq!(q.pop().map(|p| p.id), Some(1));
}

#[test]
fn queue_pop_skips_closed_outbox() {
    let (dead, rdead) = peer(1);
    let (live, _rlive) = peer(2);
    drop(rdead);
    let mut q = WaitingQueue::new();
    q.push(dead);
    q.push(live);
    assert_eq!(q.pop().map(|p| p.id), Some(2));
    assert!(q.is_empty());
    assert!(!q.contains(1));
}

#[test]
fn queue_take_front_ignores_outbox_state() {
    let (dead, rdead) = peer(1);
    drop(rdead);
    let mut q = WaitingQueue::new();
    q.push(dead);
    assert_eq!(q.take_front().map(|p| p.id), Some(1));
    assert!(q.take_front().is_none());
}

#[test]
fn first_waiting_peer_is_matched_first() {
    let mut s = AppState::new();
    let (first, _r1) = peer(1);
    let (second, _r2) = peer(2);
    let (third, _r3) = peer(3);
    let (fourth, _r4) = peer(4);
    assert!(s.try_pair(first).is_none());
    assert_eq!(s.try_pair(second).map(|p| p.id), Some(1));
    assert!(s.try_pair(third).is_none());
    assert_eq!(s.try_pair(fourth).map(|p| p.id), Some(3));
    assert_eq!(s.partner_of(1).map(|p| p.id), Some(2));
    assert_eq!(s.partner_of(2).map(|p| p.id), Some(1));
    assert_eq!(s.partner_of(3).map(|p| p.id), Some(4));
    assert!(!s.is_waiting(1) && !s.is_waiting(3));
}

#[test]
fn try_pair_skips_dead_candidate() {
    let mut s = AppState::new();
    let (dead, rdead) = peer(1);
    let (live, _rl) = peer(2);
    let (incoming, _ri) = peer(3);
    assert!(s.try_pair(dead).is_none());
    drop(rdead);
    assert!(s.try_pair(live).is_none());
    assert_eq!(s.try_pair(incoming).map(|p| p.id), Some(2));
    assert!(!s.is_waiting(1));
    assert!(s.partner_of(1).is_none());
}

#[test]
fn try_pair_never_matches_a_peer_with_itself() {
    let mut s = AppState::new();
    let (a, _ra) = peer(5);
    assert!(s.try_pair(a.share()).is_none());
    assert!(s.try_pair(a.share()).is_none());
    assert!(s.is_waiting(5));
    assert!(s.partner_of(5).is_none());
    let (b, _rb) = peer(6);
    assert_eq!(s.try_pair(b).map(|p| p.id), Some(5));
    assert!(!s.is_waiting(5));
}

#[test]
fn double_teardown_notifies_exactly_once() {
    let mut s = AppState::new();
    let (a, _ra) = peer(1);
    let (b, _rb) = peer(2);
    s.try_pair(a);
    s.try_pair(b);
    let first = s.leave_session(1).map(|p| p.id);
    let second = s.leave_session(2).map(|p| p.id);
    assert_eq!(first, Some(2));
    assert_eq!(second, None);
    assert!(s.partner_of(1).is_none() && s.partner_of(2).is_none());
}

#[test]
fn double_teardown_other_order() {
    let mut s = AppState::new();
    let (a, _ra) = peer(1);
    let (b, _rb) = peer(2);
    s.try_pair(a);
    s.try_pair(b);
    assert_eq!(s.leave_session(2).map(|p| p.id), Some(1));
    assert!(s.leave_session(1).is_none());
}

#[test]
fn leave_session_without_session_is_noop() {
    let mut s = AppState::new();
    let (a, _ra) = peer(1);
    s.try_pair(a);
    assert!(s.leave_session(1).is_none());
    assert!(s.is_waiting(1));
}

#[test]
fn leave_queue_removes_waiting_peer() {
    let mut s = AppState::new();
    let (a, _ra) = peer(1);
    let (b, _rb) = peer(2);
    s.try_pair(a);
    s.leave_queue(1);
    assert!(!s.is_waiting(1));
    assert!(s.try_pair(b).is_none());
    assert!(s.is_waiting(2));
}

#[test]
fn relay_delivers_payload_unchanged_to_partner() {
    let mut s = AppState::new();
    let (a, mut ra) = peer(1);
    let (b, mut rb) = peer(2);
    s.try_pair(a);
    s.try_pair(b);
    let text = String::from("{\"type\":\"Offer\",\"sdp\":\"v=0 x\"}");
    assert_eq!(relay_raw(&mut s, 1, text.clone()), Some(2));
    assert_eq!(drain(&mut rb), vec![OutboundMsg::Raw(text)]);
    assert!(drain(&mut ra).is_empty());
}

#[test]
fn relay_without_session_is_noop() {
    let mut s = AppState::new();
    let (a, mut ra) = peer(1);
    s.try_pair(a);
    assert_eq!(relay_raw(&mut s, 1, String::from("{}")), None);
    assert_eq!(relay_raw(&mut s, 9, String::from("{}")), None);
    assert!(drain(&mut ra).is_empty());
}

#[test]
fn extract_type_reads_tag() {
    assert_eq!(extract_type("{\"type\":\"Skip\"}"), InboundKind::Skip);
    assert_eq!(extract_type("{\"type\":\"Ready\"}"), InboundKind::Ready);
    assert_eq!(extract_type("{\"type\":\"Offer\",\"sdp\":\"x\"}"), InboundKind::Offer);
    assert_eq!(extract_type("{\"sdp\":\"x\",\"type\":\"Answer\"}"), InboundKind::Answer);
    assert_eq!(
        extract_type("{\"type\":\"IceCandidate\",\"candidate\":\"c\",\"sdp_mid\":\"0\",\"sdp_m_line_index\":0}"),
        InboundKind::IceCandidate
    );
}

#[test]
fn extract_type_rejects_malformed() {
    assert_eq!(extract_type("not json"), InboundKind::Other);
    assert_eq!(extract_type("{\"type\":\"Report\"}"), InboundKind::Other);
    assert_eq!(extract_type("{\"type\":\"skip\"}"), InboundKind::Other);
    assert_eq!(extract_type("{\"type\":5}"), InboundKind::Other);
    assert_eq!(extract_type("{\"sdp\":\"x\"}"), InboundKind::Other);
    assert_eq!(extract_type("[\"Skip\"]"), InboundKind::Other);
    assert_eq!(extract_type(""), InboundKind::Other);
}

#[test]
fn classify_names_each_tag() {
    assert_eq!(classify(&None), InboundKind::Other);
    assert_eq!(classify(&Some(String::from("Skip"))), InboundKind::Skip);
    assert_eq!(classify(&Some(String::from("IceCandidate"))), InboundKind::IceCandidate);
    assert_eq!(classify(&Some(String::from("Waiting"))), InboundKind::Other);
}

#[test]
fn connect_alone_waits() {
    let mut s = AppState::new();
    let (a, mut ra) = peer(1);
    assert_eq!(connect(&mut s, a), None);
    assert_eq!(drain(&mut ra), vec![typed(SignalMessage::Waiting)]);
    assert!(s.is_waiting(1));
}

#[test]
fn cleanup_notifies_and_requeues_partner() {
    let mut s = AppState::new();
    let (a, mut ra) = peer(1);
    let (b, mut rb) = peer(2);
    connect(&mut s, a.share());
    connect(&mut s, b);
    drain(&mut ra);
    drain(&mut rb);
    assert_eq!(cleanup(&mut s, &a), Some(Rematch { partner: 2, partner_match: None }));
    assert_eq!(
        drain(&mut rb),
        vec![typed(SignalMessage::PeerLeft), typed(SignalMessage::Waiting)]
    );
    assert!(s.is_waiting(2));
    assert!(!s.is_waiting(1));
    assert!(s.partner_of(1).is_none());
}

#[test]
fn cleanup_of_waiting_peer_leaves_queue() {
    let mut s = AppState::new();
    let (a, _ra) = peer(1);
    let (b, _rb) = peer(2);
    connect(&mut s, a.share());
    assert!(cleanup(&mut s, &a).is_none());
    assert!(!s.is_waiting(1));
    assert_eq!(connect(&mut s, b), None);
}

#[test]
fn skip_while_waiting_keeps_peer_waiting() {
    let mut s = AppState::new();
    let (a, mut ra) = peer(1);
    connect(&mut s, a.share());
    drain(&mut ra);
    assert_eq!(handle_skip(&mut s, &a), SkipOutcome { notified: None, own_match: None });
    assert_eq!(drain(&mut ra), vec![typed(SignalMessage::Waiting)]);
    assert!(s.is_waiting(1));
}

#[test]
fn unknown_text_is_ignored() {
    let mut s = AppState::new();
    let (a, mut ra) = peer(1);
    let (b, mut rb) = peer(2);
    connect(&mut s, a.share());
    connect(&mut s, b);
    drain(&mut ra);
    drain(&mut rb);
    assert_eq!(handle_text(&mut s, &a, String::from("garbage")), Handled::Ignored);
    assert_eq!(handle_text(&mut s, &a, String::from("{\"type\":\"Report\"}")), Handled::Ignored);
    assert!(drain(&mut rb).is_empty());
    assert_eq!(s.partner_of(1).map(|p| p.id), Some(2));
}

#[test]
fn end_to_end_session() {
    let mut s = AppState::new();
    let (a, mut ra) = peer(1);
    let (b, mut rb) = peer(2);
    let (c, mut rc) = peer(3);

    assert_eq!(connect(&mut s, a.share()), None);
    assert_eq!(drain(&mut ra), vec![typed(SignalMessage::Waiting)]);

    // The newly arriving peer is the offerer.
    assert_eq!(connect(&mut s, b.share()), Some(1));
    assert_eq!(drain(&mut ra), vec![typed(SignalMessage::Paired { you_are_offerer: false })]);
    assert_eq!(
        drain(&mut rb),
        vec![typed(SignalMessage::Waiting), typed(SignalMessage::Paired { you_are_offerer: true })]
    );

    let offer = String::from("{\"type\":\"Offer\",\"sdp\":\"x\"}");
    assert_eq!(handle_text(&mut s, &a, offer.clone()), Handled::Relayed(Some(2)));
    assert_eq!(drain(&mut rb), vec![OutboundMsg::Raw(offer)]);

    // B re-enters matchmaking first and waits; A then re-enters and meets B.
    assert_eq!(
        handle_text(&mut s, &a, String::from("{\"type\":\"Skip\"}")),
        Handled::Skipped(SkipOutcome {
            notified: Some(Rematch { partner: 2, partner_match: None }),
            own_match: Some(2),
        })
    );
    assert_eq!(
        drain(&mut rb),
        vec![
            typed(SignalMessage::PeerLeft),
            typed(SignalMessage::Waiting),
            typed(SignalMessage::Paired { you_are_offerer: false }),
        ]
    );
    assert_eq!(
        drain(&mut ra),
        vec![typed(SignalMessage::Waiting), typed(SignalMessage::Paired { you_are_offerer: true })]
    );

    // Nobody is left waiting, so C waits.
    assert_eq!(connect(&mut s, c), None);
    assert_eq!(drain(&mut rc), vec![typed(SignalMessage::Waiting)]);
    assert!(s.is_waiting(3));
    assert_eq!(s.partner_of(2).map(|p| p.id), Some(1));
}

#[test]
fn ready_behaves_like_skip() {
    let mut s = AppState::new();
    let (a, mut ra) = peer(1);
    let (b, mut rb) = peer(2);
    connect(&mut s, a.share());
    connect(&mut s, b.share());
    drain(&mut ra);
    drain(&mut rb);
    assert_eq!(
        handle_text(&mut s, &b, String::from("{\"type\":\"Ready\"}")),
        Handled::Skipped(SkipOutcome {
            notified: Some(Rematch { partner: 1, partner_match: None }),
            own_match: Some(1),
        })
    );
    assert_eq!(
        drain(&mut ra),
        vec![
            typed(SignalMessage::PeerLeft),
            typed(SignalMessage::Waiting),
            typed(SignalMessage::Paired { you_are_offerer: false }),
        ]
    );
    assert_eq!(
        drain(&mut rb),
        vec![typed(SignalMessage::Waiting), typed(SignalMessage::Paired { you_are_offerer: true })]
    );
}

#[test]
fn answer_and_candidate_are_relayed_verbatim() {
    let mut s = AppState::new();
    let (a, mut ra) = peer(1);
    let (b, mut rb) = peer(2);
    connect(&mut s, a.share());
    connect(&mut s, b.share());
    drain(&mut ra);
    drain(&mut rb);
    let answer = String::from("{ \"type\" : \"Answer\", \"sdp\": \"y\" }");
    let cand = String::from(
        "{\"type\":\"IceCandidate\",\"candidate\":\"c\",\"sdp_mid\":\"0\",\"sdp_m_line_index\":1}",
    );
    assert_eq!(handle_text(&mut s, &b, answer.clone()), Handled::Relayed(Some(1)));
    assert_eq!(handle_text(&mut s, &b, cand.clone()), Handled::Relayed(Some(1)));
    assert_eq!(drain(&mut ra), vec![OutboundMsg::Raw(answer), OutboundMsg::Raw(cand)]);
    assert!(drain(&mut rb).is_empty());
}

#[test]
fn offer_without_partner_is_dropped() {
    let mut s = AppState::new();
    let (a, mut ra) = peer(1);
    connect(&mut s, a.share());
    drain(&mut ra);
    assert_eq!(
        handle_text(&mut s, &a, String::from("{\"type\":\"Offer\",\"sdp\":\"x\"}")),
        Handled::Relayed(None)
    );
    assert!(drain(&mut ra).is_empty());
    assert!(s.is_waiting(1));
}

#[test]
fn negotiation_payload_with_bad_fields_is_not_relayed() {
    let mut s = AppState::new();
    let (a, mut ra) = peer(1);
    let (b, mut rb) = peer(2);
    connect(&mut s, a.share());
    connect(&mut s, b);
    drain(&mut ra);
    drain(&mut rb);
    for text in [
        "{\"type\":\"Offer\"}",
        "{\"type\":\"Answer\",\"sdp\":3}",
        "{\"type\":\"IceCandidate\",\"candidate\":\"c\",\"sdp_mid\":\"0\"}",
        "{\"type\":\"IceCandidate\",\"candidate\":\"c\",\"sdp_mid\":\"0\",\"sdp_m_line_index\":70000}",
        "{\"type\":\"IceCandidate\",\"candidate\":\"c\",\"sdp_mid\":\"0\",\"sdp_m_line_index\":-1}",
    ] {
        assert_eq!(extract_type(text), InboundKind::Other);
        assert_eq!(handle_text(&mut s, &a, String::from(text)), Handled::Ignored);
    }
    assert!(drain(&mut rb).is_empty());
    assert_eq!(s.partner_of(1).map(|p| p.id), Some(2));
}

#[test]
fn classify_parts_checks_required_fields() {
    let offer = Some(String::from("Offer"));
    let ice = Some(String::from("IceCandidate"));
    let skip = Some(String::from("Skip"));
    assert_eq!(classify_parts(&offer, true, false, false, None), InboundKind::Offer);
    assert_eq!(classify_parts(&offer, false, true, true, Some(0)), InboundKind::Other);
    assert_eq!(classify_parts(&ice, false, true, true, Some(65535)), InboundKind::IceCandidate);
    assert_eq!(classify_parts(&ice, false, true, true, Some(65536)), InboundKind::Other);
    assert_eq!(classify_parts(&ice, false, true, false, Some(1)), InboundKind::Other);
    assert_eq!(classify_parts(&skip, false, false, false, None), InboundKind::Skip);
    assert_eq!(classify_parts(&None, true, true, true, Some(1)), InboundKind::Other);
}

#[test]
fn relays_arrive_in_order() {
    let mut s = AppState::new();
    let (a, _ra) = peer(1);
    let (b, mut rb) = peer(2);
    connect(&mut s, a);
    connect(&mut s, b);
    drain(&mut rb);
    let first = String::from("{\"type\":\"Offer\",\"sdp\":\"1\"}");
    let second = String::from("{\"type\":\"Answer\",\"sdp\":\"2\"}");
    assert_eq!(relay_raw(&mut s, 1, first.clone()), Some(2));
    assert_eq!(relay_raw(&mut s, 1, second.clone()), Some(2));
    assert_eq!(drain(&mut rb), vec![OutboundMsg::Raw(first), OutboundMsg::Raw(second)]);
}

#[test]
fn settle_drops_closed_and_keeps_open() {
    let (a, _ra) = peer(4);
    assert!(WaitingQueue::settle(a.share(), true).is_none());
    assert_eq!(WaitingQueue::settle(a, false).map(|p| p.id), Some(4));
}

#[test]
fn pair_with_decides_each_case() {
    let mut s = AppState::new();
    let (a, _ra) = peer(1);
    let (b, _rb) = peer(2);
    assert!(matches!(s.pair_with(&a, b.share(), true), PairStep::Discarded));
    assert!(!s.is_waiting(2) && s.partner_of(1).is_none());
    assert!(matches!(s.pair_with(&a, a.share(), false), PairStep::Requeued));
    assert!(s.is_waiting(1));
    let (c, _rc) = peer(3);
    match s.pair_with(&a, c, false) {
        PairStep::Matched(p) => assert_eq!(p.id, 3),
        _ => panic!("expected a match"),
    }
    assert!(!s.is_waiting(1));
    assert_eq!(s.partner_of(1).map(|p| p.id), Some(3));
    assert_eq!(s.partner_of(3).map(|p| p.id), Some(1));
    assert!(s.partner_of(2).is_none());
}

#[test]
fn driver_steps_on_events() {
    let mut s = AppState::new();
    let (a, mut ra) = peer(1);
    let (b, mut rb) = peer(2);
    connect(&mut s, a.share());
    connect(&mut s, b.share());
    drain(&mut ra);
    drain(&mut rb);
    assert_eq!(on_event(&mut s, &a, Event::Idle), Step::Continue(None));
    assert_eq!(
        on_event(&mut s, &a, Event::Text(String::from("nonsense"))),
        Step::Continue(Some(Handled::Ignored))
    );
    assert!(drain(&mut rb).is_empty());
    assert_eq!(
        on_event(&mut s, &a, Event::Timeout),
        Step::End(Some(Rematch { partner: 2, partner_match: None }))
    );
    assert_eq!(
        drain(&mut rb),
        vec![typed(SignalMessage::PeerLeft), typed(SignalMessage::Waiting)]
    );
    assert!(s.is_waiting(2));
    assert_eq!(on_event(&mut s, &b, Event::Close), Step::End(None));
    assert!(!s.is_waiting(2));
    let (c, _rc) = peer(3);
    assert_eq!(on_event(&mut s, &c, Event::Failed), Step::End(None));
}
