use peer::{
    IceCandidate, PeerId, PeerTrackerMessage, SdpType, SessionDescription, Sha256, State,
    StateAddFilePeerError, TrackerPeerMessage,
};

fn offer(text: &str) -> SessionDescription {
    SessionDescription { sdp_type: SdpType::Offer, sdp: text.to_owned() }
}

#[test]
fn tracker_gives_each_peer_its_own_number() {
    let mut state = State::new();
    assert_eq!(state.new_peer(), Some(PeerId(0)));
    assert_eq!(state.new_peer(), Some(PeerId(1)));
    assert_eq!(state.new_peer(), Some(PeerId(2)));
    assert!(state.get_peer_sender(PeerId(1)));
    assert!(!state.get_peer_sender(PeerId(3)));
    state.remove_peer(PeerId(1));
    assert!(!state.get_peer_sender(PeerId(1)));
    assert!(state.get_peer_sender(PeerId(0)));
    assert!(state.get_peer_sender(PeerId(2)));
    assert_eq!(state.new_peer(), Some(PeerId(3)));
}

#[test]
fn tracker_lists_the_peers_of_a_file() {
    let mut state = State::new();
    let first = state.new_peer().unwrap();
    let second = state.new_peer().unwrap();
    let file = Sha256([1; 32]);
    let other = Sha256([2; 32]);
    assert_eq!(state.add_file_peer_and_get_file_peer_list(file, first), Ok(vec![first]));
    assert_eq!(state.add_file_peer_and_get_file_peer_list(file, second), Ok(vec![first, second]));
    assert_eq!(state.add_file_peer_and_get_file_peer_list(other, second), Ok(vec![second]));
    assert_eq!(
        state.add_file_peer_and_get_file_peer_list(file, first),
        Err(StateAddFilePeerError::FileIsAlreadyAdded(file))
    );
}

#[test]
fn tracker_asks_every_other_peer_of_the_file_for_an_offer() {
    let mut state = State::new();
    let a = state.new_peer().unwrap();
    let b = state.new_peer().unwrap();
    let c = state.new_peer().unwrap();
    let file = Sha256([5; 32]);
    let asked = state.relay(a, PeerTrackerMessage::RequestOffers { file_sha256: file }).unwrap();
    assert!(asked.is_empty());
    let asked = state.relay(b, PeerTrackerMessage::RequestOffers { file_sha256: file }).unwrap();
    assert_eq!(asked.len(), 1);
    assert_eq!(asked[0].peer_id, a);
    assert_eq!(
        asked[0].message,
        TrackerPeerMessage::RequestOffer { peer_id: b, file_sha256: file }
    );
    state.remove_peer(a);
    let asked = state.relay(c, PeerTrackerMessage::RequestOffers { file_sha256: file }).unwrap();
    assert_eq!(asked.len(), 1);
    assert_eq!(asked[0].peer_id, b);
    assert_eq!(
        asked[0].message,
        TrackerPeerMessage::RequestOffer { peer_id: c, file_sha256: file }
    );
    assert!(state.relay(c, PeerTrackerMessage::RequestOffers { file_sha256: file }).is_err());
}

#[test]
fn tracker_passes_a_message_on_with_the_sender_in_place_of_the_receiver() {
    let mut state = State::new();
    let a = state.new_peer().unwrap();
    let b = state.new_peer().unwrap();
    let sent =
        state.relay(a, PeerTrackerMessage::SendOffer { peer_id: b, offer: offer("v=0") }).unwrap();
    assert_eq!(sent.len(), 1);
    assert_eq!(sent[0].peer_id, b);
    assert_eq!(sent[0].message, TrackerPeerMessage::PeerOffer { peer_id: a, offer: offer("v=0") });
    let sent = state
        .relay(b, PeerTrackerMessage::SendAnswer { peer_id: a, answer: offer("v=1") })
        .unwrap();
    assert_eq!(sent[0].peer_id, a);
    assert_eq!(sent[0].message, TrackerPeerMessage::PeerAnswer { peer_id: b, answer: offer("v=1") });
    let candidate = IceCandidate {
        candidate: "candidate:1".to_owned(),
        sdp_mid: Some("0".to_owned()),
        sdp_mline_index: Some(0),
        username_fragment: None,
    };
    let sent = state
        .relay(a, PeerTrackerMessage::SendIceCandidate { peer_id: b, candidate: candidate.clone() })
        .unwrap();
    assert_eq!(sent[0].peer_id, b);
    assert_eq!(sent[0].message, TrackerPeerMessage::PeerIceCandidate { peer_id: a, candidate });
    let sent = state.relay(a, PeerTrackerMessage::AllIceCandidatesSent { peer_id: b }).unwrap();
    assert_eq!(sent[0].message, TrackerPeerMessage::PeerAllIceCandidatesSent { peer_id: a });
    let sent = state.relay(a, PeerTrackerMessage::AllIceCandidatesSent { peer_id: PeerId(9) });
    assert!(sent.unwrap().is_empty());
}
