//! One link to a remote peer: where its handshake stands, which candidates
//! wait for it, and whether a message may go out on it.
use vstd::prelude::*;
use crate::protocol::{IceCandidate, PeerId, PeerTrackerMessage, SdpType, SessionDescription};

verus! {

/// Which side of the handshake the local peer takes.
#[derive(Clone, Copy, Debug, PartialEq, Eq, Structural)]
pub enum RemotePeerKind {
    /// The local peer proposes the session.
    Offering,
    /// The local peer accepts the session that the remote peer proposes.
    Answering,
}

/// Where the handshake of a link stands.
#[derive(Clone, Copy, Debug, PartialEq, Eq, Structural)]
pub enum RemotePeerState {
    New,
    LocalDescribed,
    WaitingAnswer,
    RemoteDescribed,
    Open,
    Closed,
}

/// What happens to a link.
#[derive(Clone, Copy, Debug, PartialEq, Eq, Structural)]
pub enum RemotePeerEvent {
    /// The local description has been made and set.
    LocalDescriptionSet,
    /// The offer has gone to the tracker.
    OfferSent,
    /// The description of the remote peer has arrived and been set.
    RemoteDescriptionSet,
    /// The channel has opened.
    ChannelOpened,
    /// The channel has closed.
    ChannelClosed,
}

/// A message did not go out.
#[derive(Clone, Copy, Debug, PartialEq, Eq, Structural)]
pub enum PeerConnectionSendError {
    /// The channel holds as many unsent bytes as it may.
    BufferIsFilled,
    /// The channel is not open.
    ChannelIsClosed,
}

/// The state that follows an event, or `None` when the event has no place
/// in the handshake at this state.
pub open spec fn spec_next_state(
    kind: RemotePeerKind,
    state: RemotePeerState,
    event: RemotePeerEvent,
) -> Option<RemotePeerState> {
    match (kind, state, event) {
        (_, RemotePeerState::Closed, _) => None,
        (_, _, RemotePeerEvent::ChannelClosed) => Some(RemotePeerState::Closed),
        (
            RemotePeerKind::Offering,
            RemotePeerState::New,
            RemotePeerEvent::LocalDescriptionSet,
        ) => Some(RemotePeerState::LocalDescribed),
        (
            RemotePeerKind::Offering,
            RemotePeerState::LocalDescribed,
            RemotePeerEvent::OfferSent,
        ) => Some(RemotePeerState::WaitingAnswer),
        (
            RemotePeerKind::Offering,
            RemotePeerState::WaitingAnswer,
            RemotePeerEvent::RemoteDescriptionSet,
        ) => Some(RemotePeerState::WaitingAnswer),
        (
            RemotePeerKind::Offering,
            RemotePeerState::WaitingAnswer,
            RemotePeerEvent::ChannelOpened,
        ) => Some(RemotePeerState::Open),
        (
            RemotePeerKind::Answering,
            RemotePeerState::New,
            RemotePeerEvent::RemoteDescriptionSet,
        ) => Some(RemotePeerState::RemoteDescribed),
        (
            RemotePeerKind::Answering,
            RemotePeerState::RemoteDescribed,
            RemotePeerEvent::LocalDescriptionSet,
        ) => Some(RemotePeerState::LocalDescribed),
        (
            RemotePeerKind::Answering,
            RemotePeerState::LocalDescribed,
            RemotePeerEvent::ChannelOpened,
        ) => Some(RemotePeerState::Open),
        _ => None,
    }
}

/// The state that follows an event.
pub fn next_state(kind: RemotePeerKind, state: RemotePeerState, event: RemotePeerEvent) -> (r:
    Option<RemotePeerState>)
    ensures
        r == spec_next_state(kind, state, event),
{
    match (kind, state, event) {
        (_, RemotePeerState::Closed, _) => None,
        (_, _, RemotePeerEvent::ChannelClosed) => Some(RemotePeerState::Closed),
        (
            RemotePeerKind::Offering,
            RemotePeerState::New,
            RemotePeerEvent::LocalDescriptionSet,
        ) => Some(RemotePeerState::LocalDescribed),
        (
            RemotePeerKind::Offering,
            RemotePeerState::LocalDescribed,
            RemotePeerEvent::OfferSent,
        ) => Some(RemotePeerState::WaitingAnswer),
        (
            RemotePeerKind::Offering,
            RemotePeerState::WaitingAnswer,
            RemotePeerEvent::RemoteDescriptionSet,
        ) => Some(RemotePeerState::WaitingAnswer),
        (
            RemotePeerKind::Offering,
            RemotePeerState::WaitingAnswer,
            RemotePeerEvent::ChannelOpened,
        ) => Some(RemotePeerState::Open),
        (
            RemotePeerKind::Answering,
            RemotePeerState::New,
            RemotePeerEvent::RemoteDescriptionSet,
        ) => Some(RemotePeerState::RemoteDescribed),
        (
            RemotePeerKind::Answering,
            RemotePeerState::RemoteDescribed,
            RemotePeerEvent::LocalDescriptionSet,
        ) => Some(RemotePeerState::LocalDescribed),
        (
            RemotePeerKind::Answering,
            RemotePeerState::LocalDescribed,
            RemotePeerEvent::ChannelOpened,
        ) => Some(RemotePeerState::Open),
        _ => None,
    }
}

/// The kind of a session description by its name in the browser.
pub fn sdp_type_to_protocol_sdp_type(sdp_type: &str) -> (r: Option<SdpType>)
    ensures
        r == if sdp_type@ == "offer"@ {
            Some(SdpType::Offer)
        } else if sdp_type@ == "answer"@ {
            Some(SdpType::Answer)
        } else if sdp_type@ == "pranswer"@ {
            Some(SdpType::Pranswer)
        } else if sdp_type@ == "rollback"@ {
            Some(SdpType::Rollback)
        } else {
            None
        },
{
    if text_eq(sdp_type, "offer") {
        Some(SdpType::Offer)
    } else if text_eq(sdp_type, "answer") {
        Some(SdpType::Answer)
    } else if text_eq(sdp_type, "pranswer") {
        Some(SdpType::Pranswer)
    } else if text_eq(sdp_type, "rollback") {
        Some(SdpType::Rollback)
    } else {
        None
    }
}

/// Whether two texts are the same.
fn text_eq(a: &str, b: &str) -> (r: bool)
    ensures
        r <==> a@ == b@,
{
    let x = a.to_owned();
    let y = b.to_owned();
    x == y
}

/// One link to a remote peer.
#[derive(Debug)]
pub struct RemotePeer {
    peer_id: PeerId,
    kind: RemotePeerKind,
    state: RemotePeerState,
    has_remote_description: bool,
    pending_candidates: Vec<IceCandidate>,
}

impl RemotePeer {
    /// The peer at the other end.
    pub closed spec fn spec_peer_id(&self) -> PeerId {
        self.peer_id
    }

    /// Which side of the handshake the local peer takes.
    pub closed spec fn spec_kind(&self) -> RemotePeerKind {
        self.kind
    }

    /// Where the handshake stands.
    pub closed spec fn spec_state(&self) -> RemotePeerState {
        self.state
    }

    /// Whether the description of the remote peer has been set.
    pub closed spec fn described(&self) -> bool {
        self.has_remote_description
    }

    /// The candidates that wait for the description of the remote peer, in
    /// the order in which they came.
    pub closed spec fn pending(&self) -> Seq<IceCandidate> {
        self.pending_candidates@
    }

    /// A link that has not begun its handshake.
    pub fn new(peer_id: PeerId, kind: RemotePeerKind) -> (r: Self)
        ensures
            r.spec_peer_id() == peer_id,
            r.spec_kind() == kind,
            r.spec_state() == RemotePeerState::New,
            !r.described(),
            r.pending() == Seq::<IceCandidate>::empty(),
    {
        Self {
            peer_id,
            kind,
            state: RemotePeerState::New,
            has_remote_description: false,
            pending_candidates: Vec::new(),
        }
    }

    /// The peer at the other end.
    pub fn peer_id(&self) -> (r: PeerId)
        ensures
            r == self.spec_peer_id(),
    {
        self.peer_id
    }

    /// Which side of the handshake the local peer takes.
    pub fn kind(&self) -> (r: RemotePeerKind)
        ensures
            r == self.spec_kind(),
    {
        self.kind
    }

    /// Where the handshake stands.
    pub fn state(&self) -> (r: RemotePeerState)
        ensures
            r == self.spec_state(),
    {
        self.state
    }

    /// Whether the channel is open.
    pub fn is_ready(&self) -> (r: bool)
        ensures
            r <==> self.spec_state() == RemotePeerState::Open,
    {
        matches!(self.state, RemotePeerState::Open)
    }

    /// Takes note of an event. An event that has no place in the handshake
    /// changes nothing and is answered with `false`. When the description
    /// of the remote peer is set, the waiting candidates are handed out,
    /// oldest first.
    pub fn on_event(&mut self, event: RemotePeerEvent) -> (r: (bool, Vec<IceCandidate>))
        ensures
            final(self).spec_peer_id() == old(self).spec_peer_id(),
            final(self).spec_kind() == old(self).spec_kind(),
            match spec_next_state(old(self).spec_kind(), old(self).spec_state(), event) {
                None => {
                    &&& !r.0
                    &&& r.1@ == Seq::<IceCandidate>::empty()
                    &&& *final(self) == *old(self)
                },
                Some(state) => {
                    &&& r.0
                    &&& final(self).spec_state() == state
                    &&& if event == RemotePeerEvent::RemoteDescriptionSet {
                        &&& final(self).described()
                        &&& r.1@ == old(self).pending()
                        &&& final(self).pending() == Seq::<IceCandidate>::empty()
                    } else {
                        &&& final(self).described() == old(self).described()
                        &&& r.1@ == Seq::<IceCandidate>::empty()
                        &&& final(self).pending() == old(self).pending()
                    }
                },
            },
    {
        match next_state(self.kind, self.state, event) {
            None => (false, Vec::new()),
            Some(state) => {
                self.state = state;
                let mut released: Vec<IceCandidate> = Vec::new();
                if matches!(event, RemotePeerEvent::RemoteDescriptionSet) {
                    self.has_remote_description = true;
                    core::mem::swap(&mut self.pending_candidates, &mut released);
                }
                (true, released)
            },
        }
    }

    /// Takes a candidate of the remote peer. It is handed back at once when
    /// the description of the remote peer has been set; else it waits. On
    /// a closed link it is dropped.
    pub fn on_peer_icecandidate(&mut self, candidate: IceCandidate) -> (r: Option<IceCandidate>)
        ensures
            final(self).spec_peer_id() == old(self).spec_peer_id(),
            final(self).spec_kind() == old(self).spec_kind(),
            final(self).spec_state() == old(self).spec_state(),
            final(self).described() == old(self).described(),
            if old(self).spec_state() == RemotePeerState::Closed {
                r is None && final(self).pending() == old(self).pending()
            } else if old(self).described() {
                r == Some(candidate) && final(self).pending() == old(self).pending()
            } else {
                r is None && final(self).pending() == old(self).pending().push(candidate)
            },
    {
        if matches!(self.state, RemotePeerState::Closed) {
            None
        } else if self.has_remote_description {
            Some(candidate)
        } else {
            self.pending_candidates.push(candidate);
            None
        }
    }

    /// Whether a message may go out whatever the channel holds: it may
    /// unless the channel is not open.
    pub fn send(&self) -> (r: Result<(), PeerConnectionSendError>)
        ensures
            r == if self.spec_state() == RemotePeerState::Open {
                Ok::<(), PeerConnectionSendError>(())
            } else {
                Err(PeerConnectionSendError::ChannelIsClosed)
            },
    {
        if self.is_ready() {
            Ok(())
        } else {
            Err(PeerConnectionSendError::ChannelIsClosed)
        }
    }

    /// Whether a message may go out while the channel holds
    /// `buffered_bytes` unsent bytes: it may on an open channel that holds
    /// fewer than `max_buffer_bytes`.
    pub fn send_with_max_buffer_size(&self, buffered_bytes: u64, max_buffer_bytes: u64) -> (r:
        Result<(), PeerConnectionSendError>)
        ensures
            r == if self.spec_state() != RemotePeerState::Open {
                Err::<(), PeerConnectionSendError>(PeerConnectionSendError::ChannelIsClosed)
            } else if buffered_bytes >= max_buffer_bytes {
                Err(PeerConnectionSendError::BufferIsFilled)
            } else {
                Ok(())
            },
    {
        if !self.is_ready() {
            Err(PeerConnectionSendError::ChannelIsClosed)
        } else if buffered_bytes >= max_buffer_bytes {
            Err(PeerConnectionSendError::BufferIsFilled)
        } else {
            Ok(())
        }
    }

    /// The message that carries the local description to the tracker.
    pub fn describe_to_tracker(&self, description: SessionDescription) -> (r: PeerTrackerMessage)
        ensures
            r == match self.spec_kind() {
                RemotePeerKind::Offering => PeerTrackerMessage::SendOffer {
                    peer_id: self.spec_peer_id(),
                    offer: description,
                },
                RemotePeerKind::Answering => PeerTrackerMessage::SendAnswer {
                    peer_id: self.spec_peer_id(),
                    answer: description,
                },
            },
    {
        match self.kind {
            RemotePeerKind::Offering => PeerTrackerMessage::SendOffer {
                peer_id: self.peer_id,
                offer: description,
            },
            RemotePeerKind::Answering => PeerTrackerMessage::SendAnswer {
                peer_id: self.peer_id,
                answer: description,
            },
        }
    }

    /// The message that carries a local candidate to the tracker. A
    /// candidate without text marks the end of the candidates.
    pub fn candidate_to_tracker(&self, candidate: IceCandidate) -> (r: PeerTrackerMessage)
        ensures
            r == if candidate.candidate@.len() == 0 {
                PeerTrackerMessage::AllIceCandidatesSent { peer_id: self.spec_peer_id() }
            } else {
                PeerTrackerMessage::SendIceCandidate { peer_id: self.spec_peer_id(), candidate }
            },
    {
        if candidate.candidate.as_str().is_empty() {
            PeerTrackerMessage::AllIceCandidatesSent { peer_id: self.peer_id }
        } else {
            PeerTrackerMessage::SendIceCandidate { peer_id: self.peer_id, candidate }
        }
    }
}

} // verus!
