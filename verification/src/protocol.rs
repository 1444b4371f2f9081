//! The values that peers and the tracker exchange while they set up
//! connections.
use vstd::prelude::*;
use crate::codec::{hex_encode_upper, hex_upper};

verus! {

/// The kind of a session description.
#[derive(Clone, Copy, Debug, PartialEq, Eq, Structural, Hash)]
pub enum SdpType {
    Offer,
    Answer,
    Pranswer,
    Rollback,
}

/// One side's description of the session it proposes or accepts.
#[derive(Clone, Debug, PartialEq, Eq, Hash)]
pub struct SessionDescription {
    pub sdp_type: SdpType,
    pub sdp: String,
}

/// A transport address that a peer offers for the connection.
#[derive(Clone, Debug, PartialEq, Eq, Hash)]
pub struct IceCandidate {
    pub candidate: String,
    pub sdp_mid: Option<String>,
    pub sdp_mline_index: Option<u16>,
    pub username_fragment: Option<String>,
}

/// The SHA-256 of a whole file: its identity in the swarm.
#[derive(Clone, Copy, Debug, PartialEq, Eq, Hash)]
pub struct Sha256(pub [u8; 32]);

/// The number that the tracker gives a peer for one session.
#[derive(Clone, Copy, Debug, PartialEq, Eq, Structural, Hash)]
pub struct PeerId(pub u32);

/// What a peer sends to the tracker.
#[derive(Clone, Debug, PartialEq, Eq, Hash)]
pub enum PeerTrackerMessage {
    RequestOffers { file_sha256: Sha256 },
    SendOffer { peer_id: PeerId, offer: SessionDescription },
    SendAnswer { peer_id: PeerId, answer: SessionDescription },
    SendIceCandidate { peer_id: PeerId, candidate: IceCandidate },
    AllIceCandidatesSent { peer_id: PeerId },
}

/// What the tracker sends to a peer.
#[derive(Clone, Debug, PartialEq, Eq, Hash)]
pub enum TrackerPeerMessage {
    PeerIdAssigned { peer_id: PeerId },
    RequestOffer { peer_id: PeerId, file_sha256: Sha256 },
    PeerOffer { peer_id: PeerId, offer: SessionDescription },
    PeerAnswer { peer_id: PeerId, answer: SessionDescription },
    PeerIceCandidate { peer_id: PeerId, candidate: IceCandidate },
    PeerAllIceCandidatesSent { peer_id: PeerId },
}

impl Sha256 {
    /// The digest in upper-case hexadecimal.
    pub fn to_hex(&self) -> (r: String)
        ensures
            r@ == hex_upper(self.0@),
    {
        hex_encode_upper(self.0.as_slice())
    }

    /// Whether two digests hold the same bytes.
    pub fn same(&self, other: &Sha256) -> (r: bool)
        ensures
            r <==> self.0@ == other.0@,
    {
        let mut i: usize = 0;
        while i < 32
            invariant
                i <= 32,
                forall|j: int| 0 <= j < i ==> self.0@[j] == other.0@[j],
            decreases 32 - i,
        {
            if self.0[i] != other.0[i] {
                return false;
            }
            i += 1;
        }
        assert(self.0@ =~= other.0@);
        true
    }
}

} // verus!
