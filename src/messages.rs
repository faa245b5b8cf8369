use vstd::prelude::*;

verus! {

/// Messages exchanged over the signaling channel, tagged by their `type` field
/// on the wire.
#[derive(Debug, Clone, PartialEq, Eq)]
pub enum SignalMessage {
    /// The peer is in the waiting queue.
    Waiting,
    /// A match was found; exactly one side of the pair is the offerer.
    Paired { you_are_offerer: bool },
    /// The partner disconnected or skipped.
    PeerLeft,
    /// The client asks for a new partner.
    Skip,
    /// The client is ready for a partner.
    Ready,
    /// The client reports its current partner.
    Report,
    /// Negotiation payloads, relayed between partners without interpretation.
    Offer { sdp: String },
    Answer { sdp: String },
    IceCandidate { candidate: String, sdp_mid: String, sdp_m_line_index: u16 },
}

/// A message queued for delivery to one connection.
#[derive(Debug, Clone, PartialEq, Eq)]
pub enum OutboundMsg {
    /// A server-originated message, encoded when it is written out.
    Typed(SignalMessage),
    /// Text received from another peer, forwarded byte for byte.
    Raw(String),
}

} // verus!
