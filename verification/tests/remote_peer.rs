use peer::remote_peer::{next_state, sdp_type_to_protocol_sdp_type};
use peer::{
    IceCandidate, PeerConnectionSendError, PeerId, PeerTrackerMessage, RemotePeer, RemotePeerEvent,
    RemotePeerKind, RemotePeerState, SdpType, SessionDescription,
};

fn candidate(text: &str) -> IceCandidate {
    IceCandidate {
        candidate: text.to_owned(),
        sdp_mid: None,
        sdp_mline_index: None,
        username_fragment: None,
    }
}

#[test]
fn offering_link_goes_through_its_handshake() {
    let mut link = RemotePeer::new(PeerId(3), RemotePeerKind::Offering);
    assert_eq!(link.peer_id(), PeerId(3));
    assert_eq!(link.kind(), RemotePeerKind::Offering);
    assert_eq!(link.state(), RemotePeerState::New);
    assert!(!link.is_ready());
    assert!(link.on_event(RemotePeerEvent::LocalDescriptionSet).0);
    assert_eq!(link.state(), RemotePeerState::LocalDescribed);
    assert!(link.on_event(RemotePeerEvent::OfferSent).0);
    assert_eq!(link.state(), RemotePeerState::WaitingAnswer);
    assert!(link.on_event(RemotePeerEvent::RemoteDescriptionSet).0);
    assert_eq!(link.state(), RemotePeerState::WaitingAnswer);
    assert!(link.on_event(RemotePeerEvent::ChannelOpened).0);
    assert_eq!(link.state(), RemotePeerState::Open);
    assert!(link.is_ready());
    assert!(link.on_event(RemotePeerEvent::ChannelClosed).0);
    assert_eq!(link.state(), RemotePeerState::Closed);
    assert!(!link.on_event(RemotePeerEvent::ChannelOpened).0);
    assert_eq!(link.state(), RemotePeerState::Closed);
}

#[test]
fn answering_link_goes_through_its_handshake() {
    let mut link = RemotePeer::new(PeerId(4), RemotePeerKind::Answering);
    assert!(!link.on_event(RemotePeerEvent::LocalDescriptionSet).0);
    assert_eq!(link.state(), RemotePeerState::New);
    assert!(link.on_event(RemotePeerEvent::RemoteDescriptionSet).0);
    assert_eq!(link.state(), RemotePeerState::RemoteDescribed);
    assert!(!link.on_event(RemotePeerEvent::OfferSent).0);
    assert!(link.on_event(RemotePeerEvent::LocalDescriptionSet).0);
    assert_eq!(link.state(), RemotePeerState::LocalDescribed);
    assert!(link.on_event(RemotePeerEvent::ChannelOpened).0);
    assert_eq!(link.state(), RemotePeerState::Open);
    assert_eq!(
        next_state(RemotePeerKind::Answering, RemotePeerState::Open, RemotePeerEvent::ChannelClosed),
        Some(RemotePeerState::Closed)
    );
    assert_eq!(
        next_state(RemotePeerKind::Answering, RemotePeerState::Closed, RemotePeerEvent::ChannelClosed),
        None
    );
}

#[test]
fn candidates_wait_for_the_remote_description() {
    let mut link = RemotePeer::new(PeerId(4), RemotePeerKind::Answering);
    assert_eq!(link.on_peer_icecandidate(candidate("a")), None);
    assert_eq!(link.on_peer_icecandidate(candidate("b")), None);
    let (known, released) = link.on_event(RemotePeerEvent::RemoteDescriptionSet);
    assert!(known);
    assert_eq!(released, vec![candidate("a"), candidate("b")]);
    assert_eq!(link.on_peer_icecandidate(candidate("c")), Some(candidate("c")));
    let (_, released) = link.on_event(RemotePeerEvent::LocalDescriptionSet);
    assert!(released.is_empty());
    link.on_event(RemotePeerEvent::ChannelClosed);
    assert_eq!(link.on_peer_icecandidate(candidate("d")), None);
}

#[test]
fn bounded_send_is_refused_when_the_buffer_is_full() {
    let mut link = RemotePeer::new(PeerId(1), RemotePeerKind::Answering);
    assert_eq!(link.send(), Err(PeerConnectionSendError::ChannelIsClosed));
    assert_eq!(
        link.send_with_max_buffer_size(0, 100),
        Err(PeerConnectionSendError::ChannelIsClosed)
    );
    link.on_event(RemotePeerEvent::RemoteDescriptionSet);
    link.on_event(RemotePeerEvent::LocalDescriptionSet);
    link.on_event(RemotePeerEvent::ChannelOpened);
    assert_eq!(link.send(), Ok(()));
    assert_eq!(link.send_with_max_buffer_size(99, 100), Ok(()));
    assert_eq!(
        link.send_with_max_buffer_size(100, 100),
        Err(PeerConnectionSendError::BufferIsFilled)
    );
    assert_eq!(
        link.send_with_max_buffer_size(101, 100),
        Err(PeerConnectionSendError::BufferIsFilled)
    );
}

#[test]
fn zero_buffer_refuses_every_bounded_send() {
    let mut link = RemotePeer::new(PeerId(1), RemotePeerKind::Offering);
    link.on_event(RemotePeerEvent::LocalDescriptionSet);
    link.on_event(RemotePeerEvent::OfferSent);
    link.on_event(RemotePeerEvent::ChannelOpened);
    for buffered in [0u64, 1, 1024, u64::MAX] {
        assert_eq!(
            link.send_with_max_buffer_size(buffered, 0),
            Err(PeerConnectionSendError::BufferIsFilled)
        );
    }
    assert_eq!(link.send(), Ok(()));
}

#[test]
fn local_description_and_candidates_go_to_the_tracker() {
    let offering = RemotePeer::new(PeerId(8), RemotePeerKind::Offering);
    let answering = RemotePeer::new(PeerId(9), RemotePeerKind::Answering);
    let description = SessionDescription { sdp_type: SdpType::Offer, sdp: "v=0".to_owned() };
    assert_eq!(
        offering.describe_to_tracker(description.clone()),
        PeerTrackerMessage::SendOffer { peer_id: PeerId(8), offer: description.clone() }
    );
    assert_eq!(
        answering.describe_to_tracker(description.clone()),
        PeerTrackerMessage::SendAnswer { peer_id: PeerId(9), answer: description }
    );
    assert_eq!(
        offering.candidate_to_tracker(candidate("")),
        PeerTrackerMessage::AllIceCandidatesSent { peer_id: PeerId(8) }
    );
    assert_eq!(
        offering.candidate_to_tracker(candidate("x")),
        PeerTrackerMessage::SendIceCandidate { peer_id: PeerId(8), candidate: candidate("x") }
    );
}

#[test]
fn sdp_kinds_are_read_from_their_names() {
    assert_eq!(sdp_type_to_protocol_sdp_type("offer"), Some(SdpType::Offer));
    assert_eq!(sdp_type_to_protocol_sdp_type("answer"), Some(SdpType::Answer));
    assert_eq!(sdp_type_to_protocol_sdp_type("pranswer"), Some(SdpType::Pranswer));
    assert_eq!(sdp_type_to_protocol_sdp_type("rollback"), Some(SdpType::Rollback));
    assert_eq!(sdp_type_to_protocol_sdp_type("Offer"), None);
    assert_eq!(sdp_type_to_protocol_sdp_type(""), None);
}
