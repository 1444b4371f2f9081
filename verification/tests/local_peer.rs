use peer::local_peer::Outgoing;
use peer::{
    File, FileLen, FileMetadata, FilePieceIdx, IceCandidate, LocalPeer, LocalPeerAddFileError,
    LocalPeerCommand, PeerConnectionSendError, PeerId, PeerPeerMessage, PeerTrackerMessage,
    RemotePeerEvent, RemotePeerKind, RemotePeerState, SdpType, SenderParams, SessionDescription,
    Sha256, SharedFileLocalStateStatus, Time, TrackerPeerMessage, FILE_PIECE_SIZE,
};
use rand::SeedableRng;
use rand_chacha::ChaCha8Rng;

const CHUNK: usize = 2048;
const TICK: u64 = 100_000_000;

type Swarm = LocalPeer<Vec<u8>, CHUNK>;

fn contents(num_pieces: usize) -> Vec<u8> {
    (0..num_pieces * FILE_PIECE_SIZE).map(|i| (i % 253) as u8).collect()
}

fn params(pieces: usize) -> SenderParams {
    SenderParams {
        data_send_interval: TICK,
        state_resend_interval: 10_000_000_000,
        piece_resend_interval: 500_000_000,
        num_pieces_to_be_sent: pieces,
        max_buffer_bytes: Some(2_097_152),
    }
}

fn description(kind: SdpType) -> SessionDescription {
    SessionDescription { sdp_type: kind, sdp: "v=0".to_owned() }
}

fn id(index: usize) -> PeerId {
    PeerId(index as u32 + 1)
}

fn connect(swarm: &mut Vec<Swarm>, offering: usize, answering: usize, sha256: Sha256) {
    let commands = swarm[offering].on_tracker_message(TrackerPeerMessage::RequestOffer {
        peer_id: id(answering),
        file_sha256: sha256,
    });
    assert_eq!(
        commands,
        vec![LocalPeerCommand::Connect { peer_id: id(answering), kind: RemotePeerKind::Offering }]
    );
    assert!(swarm[offering]
        .on_remote_peer_event(id(answering), RemotePeerEvent::LocalDescriptionSet)
        .is_empty());
    assert!(swarm[offering]
        .on_remote_peer_event(id(answering), RemotePeerEvent::OfferSent)
        .is_empty());
    let commands = swarm[answering].on_tracker_message(TrackerPeerMessage::PeerOffer {
        peer_id: id(offering),
        offer: description(SdpType::Offer),
    });
    assert_eq!(
        commands,
        vec![
            LocalPeerCommand::Connect { peer_id: id(offering), kind: RemotePeerKind::Answering },
            LocalPeerCommand::SetRemoteDescription {
                peer_id: id(offering),
                description: description(SdpType::Offer)
            },
        ]
    );
    swarm[answering].on_remote_peer_event(id(offering), RemotePeerEvent::RemoteDescriptionSet);
    swarm[answering].on_remote_peer_event(id(offering), RemotePeerEvent::LocalDescriptionSet);
    let commands = swarm[offering].on_tracker_message(TrackerPeerMessage::PeerAnswer {
        peer_id: id(answering),
        answer: description(SdpType::Answer),
    });
    assert_eq!(
        commands,
        vec![LocalPeerCommand::SetRemoteDescription {
            peer_id: id(answering),
            description: description(SdpType::Answer)
        }]
    );
    swarm[offering].on_remote_peer_event(id(answering), RemotePeerEvent::RemoteDescriptionSet);
    swarm[offering].on_remote_peer_event(id(answering), RemotePeerEvent::ChannelOpened);
    swarm[answering].on_remote_peer_event(id(offering), RemotePeerEvent::ChannelOpened);
}

fn swarm_of(count: usize, num_pieces: usize) -> (Vec<Swarm>, Sha256) {
    let bytes = contents(num_pieces);
    let seed: File<Vec<u8>, CHUNK> = File::from_file("shared.bin".to_owned(), &bytes).unwrap();
    let sha256 = seed.sha256();
    let metadata =
        FileMetadata::new(sha256, "shared.bin".to_owned(), FileLen(bytes.len() as u64));
    let mut swarm = Vec::new();
    for index in 0..count {
        let mut peer = Swarm::new();
        peer.on_tracker_message(TrackerPeerMessage::PeerIdAssigned { peer_id: id(index) });
        assert_eq!(peer.peer_id(), Some(id(index)));
        swarm.push(peer);
    }
    let (at, message) = swarm[0].add_file(seed).unwrap();
    assert_eq!(at, 0);
    assert_eq!(message, PeerTrackerMessage::RequestOffers { file_sha256: sha256 });
    for index in 1..count {
        let file: File<Vec<u8>, CHUNK> = File::new(metadata.clone()).unwrap();
        swarm[index].add_file(file).unwrap();
    }
    (swarm, sha256)
}

struct Wire {
    pieces_sent: Vec<(usize, usize, usize)>,
    dropped: Vec<(usize, usize, usize)>,
}

fn route(
    swarm: &mut Vec<Swarm>,
    from: usize,
    out: Vec<Outgoing>,
    wire: &mut Wire,
    lossy: bool,
    max_buffer_bytes: u64,
) {
    for sent in out {
        let to = sent.peer_id.0 as usize - 1;
        let link = swarm[from].get_peer(sent.peer_id).unwrap();
        let allowed = if sent.bounded {
            swarm[from].peer(link).send_with_max_buffer_size(0, max_buffer_bytes)
        } else {
            swarm[from].peer(link).send()
        };
        if allowed == Err(PeerConnectionSendError::BufferIsFilled) {
            continue;
        }
        assert_eq!(allowed, Ok(()));
        if let PeerPeerMessage::FilePiece { piece_idx, .. } = &sent.message {
            let key = (from, to, piece_idx.0);
            let first_time = !wire.pieces_sent.contains(&key);
            wire.pieces_sent.push(key);
            if lossy && piece_idx.0 % 3 == 0 && first_time {
                wire.dropped.push(key);
                continue;
            }
        }
        if to >= swarm.len() || swarm[to].get_peer(id(from)).is_none() {
            continue;
        }
        if let Some(reply) = swarm[to].on_peer_message(id(from), sent.message) {
            let _ = swarm[from].on_peer_message(id(to), reply);
        }
    }
}

fn round(
    swarm: &mut Vec<Swarm>,
    active: &[usize],
    now: Time,
    pieces: usize,
    rng: &mut ChaCha8Rng,
    wire: &mut Wire,
    lossy: bool,
    max_buffer_bytes: u64,
) {
    for index in active {
        let out = swarm[*index].tick(&params(pieces), now, rng);
        route(swarm, *index, out, wire, lossy, max_buffer_bytes);
    }
}

#[test]
fn single_receiver_replication() {
    let (mut swarm, sha256) = swarm_of(2, 16);
    connect(&mut swarm, 0, 1, sha256);
    let mut rng = ChaCha8Rng::seed_from_u64(3);
    let mut wire = Wire { pieces_sent: Vec::new(), dropped: Vec::new() };
    let mut rounds = 0;
    while !swarm[1].file(0).file().state().is_complete() {
        round(&mut swarm, &[0, 1], Time(rounds * TICK), 4, &mut rng, &mut wire, false, 1 << 20);
        rounds += 1;
        assert!(rounds <= 6);
    }
    assert_eq!(swarm[1].file(0).file().to_blob(), Ok(contents(16)));
    assert!(swarm[0].file(0).remote_state().is_complete());
    assert_eq!(wire.pieces_sent.len(), 16);
    let mut pieces: Vec<usize> = wire.pieces_sent.iter().map(|sent| sent.2).collect();
    pieces.sort();
    assert_eq!(pieces, (0..16).collect::<Vec<usize>>());
    assert_eq!(
        swarm[0].file(0).local_state_status(&id(1)),
        Ok(SharedFileLocalStateStatus::Received)
    );
    round(&mut swarm, &[0, 1], Time(rounds * TICK), 4, &mut rng, &mut wire, false, 1 << 20);
    assert_eq!(wire.pieces_sent.len(), 16);
}

#[test]
fn lossy_transport() {
    let (mut swarm, sha256) = swarm_of(2, 16);
    connect(&mut swarm, 0, 1, sha256);
    let mut rng = ChaCha8Rng::seed_from_u64(5);
    let mut wire = Wire { pieces_sent: Vec::new(), dropped: Vec::new() };
    let mut rounds = 0;
    while !swarm[1].file(0).file().state().is_complete() {
        round(&mut swarm, &[0, 1], Time(rounds * TICK), 4, &mut rng, &mut wire, true, 1 << 20);
        rounds += 1;
        assert!(rounds <= 40);
    }
    assert_eq!(swarm[1].file(0).file().to_blob(), Ok(contents(16)));
    let mut dropped: Vec<usize> = wire.dropped.iter().map(|sent| sent.2).collect();
    dropped.sort();
    assert_eq!(dropped, vec![0, 3, 6, 9, 12, 15]);
    for piece in 0..16 {
        let times = wire.pieces_sent.iter().filter(|sent| sent.2 == piece).count();
        assert_eq!(times, if piece % 3 == 0 { 2 } else { 1 });
    }
    round(&mut swarm, &[0, 1], Time(rounds * TICK), 4, &mut rng, &mut wire, true, 1 << 20);
    assert!(swarm[0].file(0).remote_state().is_complete());
}

#[test]
fn peer_churn() {
    let (mut swarm, sha256) = swarm_of(3, 16);
    connect(&mut swarm, 0, 1, sha256);
    connect(&mut swarm, 0, 2, sha256);
    let mut rng = ChaCha8Rng::seed_from_u64(8);
    let mut wire = Wire { pieces_sent: Vec::new(), dropped: Vec::new() };
    for rounds in 0..3 {
        round(&mut swarm, &[0, 1, 2], Time(rounds * TICK), 2, &mut rng, &mut wire, false, 1 << 20);
    }
    assert_eq!(swarm[0].file(0).num_peers_with_state().0, 2);
    assert!(!swarm[2].file(0).file().state().is_complete());
    swarm[0].on_remote_peer_event(id(1), RemotePeerEvent::ChannelClosed);
    assert_eq!(swarm[0].peer(swarm[0].get_peer(id(1)).unwrap()).state(), RemotePeerState::Closed);
    let mut rounds = 3;
    while !swarm[2].file(0).file().state().is_complete() {
        round(&mut swarm, &[0, 2], Time(rounds * TICK), 2, &mut rng, &mut wire, false, 1 << 20);
        rounds += 1;
        assert!(rounds <= 40);
        let file = swarm[0].file(0);
        assert_eq!(file.num_peers_with_state().0, 1);
        assert_eq!(file.num_peers(), 1);
        assert!(!file.has_peer(id(1)));
        assert!(file.sent_pieces().iter().all(|entry| entry.peer_id == id(2)));
        assert_eq!(
            file.remote_state().to_vec(),
            file.peer_state(&id(2)).unwrap().confirmed().to_vec()
        );
    }
    assert!(swarm[0].get_peer(id(1)).is_none());
    assert_eq!(swarm[0].num_peers(), 1);
    assert_eq!(swarm[2].file(0).file().to_blob(), Ok(contents(16)));
}

#[test]
fn backpressure() {
    let (mut swarm, sha256) = swarm_of(2, 16);
    connect(&mut swarm, 0, 1, sha256);
    let mut rng = ChaCha8Rng::seed_from_u64(13);
    let mut wire = Wire { pieces_sent: Vec::new(), dropped: Vec::new() };
    for rounds in 0..12 {
        round(&mut swarm, &[0, 1], Time(rounds * TICK), 4, &mut rng, &mut wire, false, 0);
    }
    assert!(wire.pieces_sent.is_empty());
    assert!(swarm[1].file(0).file().state().is_missing());
    assert!(swarm[1].file(0).remote_state().is_complete());
    assert!(swarm[0].file(0).remote_state().is_missing());
    assert_eq!(
        swarm[0].file(0).local_state_status(&id(1)),
        Ok(SharedFileLocalStateStatus::Received)
    );
    assert_eq!(
        swarm[1].file(0).local_state_status(&id(0)),
        Ok(SharedFileLocalStateStatus::Received)
    );
}

#[test]
fn tick_sends_state_before_acknowledgements_before_pieces() {
    let (mut swarm, sha256) = swarm_of(2, 4);
    connect(&mut swarm, 0, 1, sha256);
    swarm[0].on_peer_message(id(1), PeerPeerMessage::FileMissing { sha256 });
    let mut rng = ChaCha8Rng::seed_from_u64(1);
    let start = 20_000_000_000;
    let out = swarm[0].tick(&params(3), Time(start), &mut rng);
    assert_eq!(out.len(), 4);
    assert_eq!(out[0].message, PeerPeerMessage::FileComplete { sha256 });
    assert!(!out[0].bounded);
    for sent in &out[1..] {
        assert!(sent.bounded);
        assert_eq!(sent.peer_id, id(1));
        assert!(matches!(sent.message, PeerPeerMessage::FilePiece { .. }));
    }
    assert_eq!(
        swarm[0].file(0).local_state_status(&id(1)),
        Ok(SharedFileLocalStateStatus::Sent(Time(start)))
    );
    let out = swarm[0].tick(&params(3), Time(start + TICK), &mut rng);
    assert_eq!(out.len(), 1);
    assert!(out[0].bounded);
    let out = swarm[0].tick(&params(3), Time(start + 2 * TICK), &mut rng);
    assert!(out.is_empty());
    let out = swarm[0].tick(&params(3), Time(start + 10_000_000_000), &mut rng);
    assert_eq!(out[0].message, PeerPeerMessage::FileComplete { sha256 });
    assert_eq!(out.iter().filter(|sent| sent.bounded).count(), 3);
}

#[test]
fn state_message_is_short_when_nothing_or_everything_is_here() {
    let (mut swarm, sha256) = swarm_of(2, 4);
    connect(&mut swarm, 1, 0, sha256);
    let out = swarm[1].send_state_to_remote_peers(Time(0), Time(1));
    assert_eq!(out.len(), 1);
    assert_eq!(out[0].peer_id, id(0));
    assert_eq!(out[0].message, PeerPeerMessage::FileMissing { sha256 });
    assert!(swarm[1].send_state_to_remote_peers(Time(0), Time(5)).is_empty());
    let bytes = contents(4);
    swarm[1].on_peer_message(
        id(0),
        PeerPeerMessage::FilePiece {
            sha256,
            piece_idx: FilePieceIdx(2),
            bytes: bytes[2048..3072].to_vec(),
        },
    );
    assert!(swarm[1].send_state_to_remote_peers(Time(0), Time(6)).is_empty());
    let out = swarm[1].send_state_to_remote_peers(Time(1), Time(7));
    assert_eq!(
        out[0].message,
        PeerPeerMessage::FileState { sha256, state: vec![false, false, true, false] }
    );
    assert!(swarm[1].send_state_to_remote_peers(Time(6), Time(8)).is_empty());
    assert_eq!(swarm[1].send_state_to_remote_peers(Time(7), Time(9)).len(), 1);
    let acks = swarm[1].send_recently_received_to_remote_peers();
    assert_eq!(acks.len(), 1);
    assert_eq!(
        acks[0].message,
        PeerPeerMessage::FilePiecesReceived { sha256, pieces: vec![FilePieceIdx(2)] }
    );
    assert!(swarm[1].send_recently_received_to_remote_peers().is_empty());
}

#[test]
fn peer_messages_are_routed_by_digest() {
    let (mut swarm, sha256) = swarm_of(2, 4);
    let unknown = Sha256([0; 32]);
    assert_eq!(swarm[0].on_peer_message(id(1), PeerPeerMessage::FileMissing { sha256: unknown }), None);
    assert_eq!(swarm[0].file(0).num_peers(), 0);
    assert_eq!(
        swarm[0].on_peer_message(id(1), PeerPeerMessage::FileMissing { sha256 }),
        Some(PeerPeerMessage::FileStateReceived { sha256 })
    );
    assert!(swarm[0].file(0).has_peer(id(1)));
    assert!(swarm[0].file(0).remote_state().is_missing());
    assert_eq!(
        swarm[0].on_peer_message(id(1), PeerPeerMessage::FileComplete { sha256 }),
        Some(PeerPeerMessage::FileStateReceived { sha256 })
    );
    assert!(swarm[0].file(0).remote_state().is_complete());
    assert_eq!(
        swarm[0].on_peer_message(
            id(1),
            PeerPeerMessage::FileState { sha256, state: vec![true, false, true, false] }
        ),
        Some(PeerPeerMessage::FileStateReceived { sha256 })
    );
    assert_eq!(swarm[0].file(0).remote_state().to_vec(), vec![true, false, true, false]);
    assert_eq!(
        swarm[0].on_peer_message(
            id(1),
            PeerPeerMessage::FileState { sha256, state: vec![true, true] }
        ),
        Some(PeerPeerMessage::FileStateReceived { sha256 })
    );
    assert_eq!(swarm[0].file(0).remote_state().to_vec(), vec![true, false, true, false]);
    assert_eq!(
        swarm[0].on_peer_message(
            id(1),
            PeerPeerMessage::FilePiecesReceived {
                sha256,
                pieces: vec![FilePieceIdx(1), FilePieceIdx(9), FilePieceIdx(3)]
            }
        ),
        None
    );
    assert!(swarm[0].file(0).remote_state().is_complete());
    assert_eq!(swarm[0].on_peer_message(id(1), PeerPeerMessage::FileStateReceived { sha256 }), None);
    assert_eq!(
        swarm[0].file(0).local_state_status(&id(1)),
        Ok(SharedFileLocalStateStatus::Received)
    );
    assert_eq!(swarm[0].on_peer_message(id(1), PeerPeerMessage::FileRemoved { sha256 }), None);
    assert!(!swarm[0].file(0).has_peer(id(1)));
}

#[test]
fn a_piece_that_is_here_already_is_ignored() {
    let (mut swarm, sha256) = swarm_of(2, 4);
    let bytes = contents(4);
    let piece = PeerPeerMessage::FilePiece {
        sha256,
        piece_idx: FilePieceIdx(1),
        bytes: bytes[1024..2048].to_vec(),
    };
    assert_eq!(swarm[1].on_peer_message(id(0), piece.clone()), None);
    assert_eq!(swarm[1].file(0).file().state().num_available(), 1);
    let other = PeerPeerMessage::FilePiece {
        sha256,
        piece_idx: FilePieceIdx(1),
        bytes: vec![0xEE; FILE_PIECE_SIZE],
    };
    assert_eq!(swarm[1].on_peer_message(id(0), other), None);
    assert_eq!(swarm[1].file(0).file().state().num_available(), 1);
    assert_eq!(
        swarm[1].file(0).file().get_piece(&FilePieceIdx(1)),
        Ok(Some(bytes[1024..2048].to_vec()))
    );
    let short = PeerPeerMessage::FilePiece { sha256, piece_idx: FilePieceIdx(2), bytes: vec![1; 5] };
    assert_eq!(swarm[1].on_peer_message(id(0), short), None);
    assert_eq!(swarm[1].file(0).file().state().num_available(), 1);
    let acks = swarm[1].file(0).peer_ids();
    assert_eq!(acks, vec![id(0)]);
}

#[test]
fn tracker_messages_for_unknown_peers_are_noted() {
    let (mut swarm, sha256) = swarm_of(1, 2);
    let peer_id = PeerId(40);
    assert_eq!(
        swarm[0].on_tracker_message(TrackerPeerMessage::PeerAnswer {
            peer_id,
            answer: description(SdpType::Answer)
        }),
        vec![LocalPeerCommand::Unexpected { peer_id }]
    );
    let candidate = IceCandidate {
        candidate: "candidate:1".to_owned(),
        sdp_mid: None,
        sdp_mline_index: Some(0),
        username_fragment: None,
    };
    assert_eq!(
        swarm[0].on_tracker_message(TrackerPeerMessage::PeerIceCandidate {
            peer_id,
            candidate: candidate.clone()
        }),
        vec![LocalPeerCommand::Unexpected { peer_id }]
    );
    assert_eq!(
        swarm[0].on_tracker_message(TrackerPeerMessage::PeerAllIceCandidatesSent { peer_id }),
        vec![LocalPeerCommand::Unexpected { peer_id }]
    );
    assert_eq!(
        swarm[0].on_remote_peer_event(peer_id, RemotePeerEvent::ChannelOpened),
        vec![LocalPeerCommand::Unexpected { peer_id }]
    );
    assert!(swarm[0]
        .on_tracker_message(TrackerPeerMessage::RequestOffer {
            peer_id,
            file_sha256: Sha256([0; 32])
        })
        .is_empty());
    assert_eq!(swarm[0].num_peers(), 0);
    assert_eq!(
        swarm[0].on_tracker_message(TrackerPeerMessage::RequestOffer { peer_id, file_sha256: sha256 }),
        vec![LocalPeerCommand::Connect { peer_id, kind: RemotePeerKind::Offering }]
    );
    assert!(swarm[0]
        .on_tracker_message(TrackerPeerMessage::RequestOffer { peer_id, file_sha256: sha256 })
        .is_empty());
    assert_eq!(
        swarm[0].on_tracker_message(TrackerPeerMessage::PeerIceCandidate {
            peer_id,
            candidate: candidate.clone()
        }),
        vec![]
    );
    assert_eq!(
        swarm[0].on_tracker_message(TrackerPeerMessage::PeerOffer {
            peer_id,
            offer: description(SdpType::Offer)
        }),
        vec![
            LocalPeerCommand::Unexpected { peer_id },
            LocalPeerCommand::SetRemoteDescription {
                peer_id,
                description: description(SdpType::Offer)
            }
        ]
    );
    swarm[0].on_remote_peer_event(peer_id, RemotePeerEvent::LocalDescriptionSet);
    swarm[0].on_remote_peer_event(peer_id, RemotePeerEvent::OfferSent);
    assert_eq!(
        swarm[0].on_remote_peer_event(peer_id, RemotePeerEvent::RemoteDescriptionSet),
        vec![LocalPeerCommand::AddIceCandidate { peer_id, candidate }]
    );
    assert_eq!(
        swarm[0].on_tracker_message(TrackerPeerMessage::PeerAllIceCandidatesSent { peer_id }),
        vec![LocalPeerCommand::EndOfCandidates { peer_id }]
    );
    assert_eq!(swarm[0].closed_peers(), vec![]);
}

#[test]
fn files_are_added_once_and_found_by_digest() {
    let (mut swarm, sha256) = swarm_of(1, 2);
    let again: File<Vec<u8>, CHUNK> = File::from_file("x".to_owned(), &contents(2)).unwrap();
    assert_eq!(swarm[0].add_file(again).err(), Some(LocalPeerAddFileError::AlreadyAdded));
    let other: File<Vec<u8>, CHUNK> = File::from_file("y".to_owned(), b"other").unwrap();
    let other_sha256 = other.sha256();
    assert_eq!(swarm[0].add_file(other).unwrap().0, 1);
    assert_eq!(swarm[0].num_files(), 2);
    assert_eq!(swarm[0].get_file(sha256), Some(0));
    assert_eq!(swarm[0].get_file(other_sha256), Some(1));
    assert_eq!(swarm[0].get_file(Sha256([1; 32])), None);
    let removed = swarm[0].remove_file(0);
    assert!(removed.file().sha256().same(&sha256));
    assert_eq!(swarm[0].get_file(other_sha256), Some(0));
    assert_eq!(swarm[0].get_file(sha256), None);
}

#[test]
fn first_piece_of_a_round_is_among_the_rarest() {
    for seed in 0..32 {
        let first_bytes = vec![1u8; 2 * FILE_PIECE_SIZE];
        let second_bytes = vec![2u8; 2 * FILE_PIECE_SIZE];
        let first: File<Vec<u8>, CHUNK> = File::from_file("one".to_owned(), &first_bytes).unwrap();
        let second: File<Vec<u8>, CHUNK> = File::from_file("two".to_owned(), &second_bytes).unwrap();
        let (first_sha256, second_sha256) = (first.sha256(), second.sha256());
        let mut peer = Swarm::new();
        peer.add_file(first).unwrap();
        peer.add_file(second).unwrap();
        for other in [PeerId(2), PeerId(3)] {
            peer.on_peer_message(other, PeerPeerMessage::FileMissing { sha256: first_sha256 });
        }
        peer.on_peer_message(
            PeerId(2),
            PeerPeerMessage::FileState { sha256: second_sha256, state: vec![true, false] },
        );
        peer.on_peer_message(PeerId(3), PeerPeerMessage::FileMissing { sha256: second_sha256 });
        let mut rng = ChaCha8Rng::seed_from_u64(seed);
        let out = peer.send_pieces_to_remote_peers(1, Time(0), &mut rng);
        assert_eq!(out.len(), 1);
        assert!(out[0].bounded);
        match &out[0].message {
            PeerPeerMessage::FilePiece { sha256, piece_idx, bytes } => {
                if sha256.same(&first_sha256) {
                    assert_eq!(bytes, &vec![1u8; FILE_PIECE_SIZE]);
                } else {
                    assert!(sha256.same(&second_sha256));
                    assert_eq!(*piece_idx, FilePieceIdx(1));
                    assert_eq!(bytes, &vec![2u8; FILE_PIECE_SIZE]);
                }
            }
            other => panic!("{:?} is no piece", other),
        }
        let rest = peer.send_pieces_to_remote_peers(100, Time(0), &mut rng);
        assert_eq!(rest.len(), 6);
        assert!(peer.send_pieces_to_remote_peers(100, Time(0), &mut rng).is_empty());
    }
}

#[test]
fn pieces_go_out_until_none_can() {
    for seed in 0..16 {
        let bytes = contents(4);
        let file: File<Vec<u8>, CHUNK> = File::from_file("shared.bin".to_owned(), &bytes).unwrap();
        let sha256 = file.sha256();
        let mut peer = Swarm::new();
        peer.add_file(file).unwrap();
        let mut rng = ChaCha8Rng::seed_from_u64(seed);
        assert!(peer.send_pieces_to_remote_peers(3, Time(0), &mut rng).is_empty());
        peer.on_peer_message(PeerId(7), PeerPeerMessage::FileMissing { sha256 });
        assert!(peer.send_pieces_to_remote_peers(0, Time(1), &mut rng).is_empty());
        assert!(peer.file(0).sent_pieces().is_empty());
        let first = peer.send_pieces_to_remote_peers(3, Time(2), &mut rng);
        assert_eq!(first.len(), 3);
        assert_eq!(peer.file(0).sent_pieces().len(), 3);
        let second = peer.send_pieces_to_remote_peers(3, Time(3), &mut rng);
        assert_eq!(second.len(), 1);
        assert!(peer.send_pieces_to_remote_peers(3, Time(4), &mut rng).is_empty());
        let mut pieces = Vec::new();
        for sent in first.iter().chain(second.iter()) {
            assert!(sent.bounded);
            assert_eq!(sent.peer_id, PeerId(7));
            match &sent.message {
                PeerPeerMessage::FilePiece { sha256: of, piece_idx, bytes: carried } => {
                    assert!(of.same(&sha256));
                    let from = piece_idx.0 * FILE_PIECE_SIZE;
                    assert_eq!(carried, &bytes[from..from + FILE_PIECE_SIZE].to_vec());
                    pieces.push(piece_idx.0);
                }
                other => panic!("{:?} is no piece", other),
            }
        }
        pieces.sort();
        assert_eq!(pieces, vec![0, 1, 2, 3]);
        let recorded: Vec<(u64, u32)> =
            peer.file(0).sent_pieces().iter().map(|entry| (entry.time.0, entry.peer_id.0)).collect();
        assert_eq!(recorded.len(), 4);
        assert!(recorded[..3].iter().all(|entry| *entry == (2, 7)));
        assert_eq!(recorded[3], (3, 7));
    }
}

#[test]
fn a_full_channel_holds_back_only_bounded_messages_to_its_peer() {
    let sha256 = Sha256([9; 32]);
    let piece = |to: u32| Outgoing {
        peer_id: PeerId(to),
        message: PeerPeerMessage::FilePiece {
            sha256,
            piece_idx: FilePieceIdx(0),
            bytes: vec![0; FILE_PIECE_SIZE],
        },
        bounded: true,
    };
    let state = |to: u32| Outgoing {
        peer_id: PeerId(to),
        message: PeerPeerMessage::FileMissing { sha256 },
        bounded: false,
    };
    let full = vec![PeerId(2), PeerId(5)];
    assert!(!peer::local_peer::may_go(&full, &piece(2)));
    assert!(!peer::local_peer::may_go(&full, &piece(5)));
    assert!(peer::local_peer::may_go(&full, &piece(3)));
    assert!(peer::local_peer::may_go(&full, &state(2)));
    assert!(peer::local_peer::may_go(&Vec::new(), &piece(2)));
}

#[test]
fn no_peer_is_told_the_state_of_a_file_twice_in_a_round() {
    let (mut swarm, sha256) = swarm_of(3, 4);
    connect(&mut swarm, 0, 1, sha256);
    connect(&mut swarm, 0, 2, sha256);
    let out = swarm[0].send_state_to_remote_peers(Time(0), Time(5));
    let mut told: Vec<u32> = out.iter().map(|sent| sent.peer_id.0).collect();
    told.sort();
    assert_eq!(told, vec![id(1).0, id(2).0]);
    assert!(out.iter().all(|sent| !sent.bounded
        && sent.message == PeerPeerMessage::FileComplete { sha256 }));
    assert!(swarm[0].send_state_to_remote_peers(Time(0), Time(6)).is_empty());
    let again = swarm[0].send_state_to_remote_peers(Time(5), Time(7));
    assert_eq!(again.len(), 2);
}

#[test]
fn a_peer_that_asks_for_an_offer_joins_the_file_untold() {
    let (mut swarm, sha256) = swarm_of(2, 3);
    assert!(!swarm[0].file(0).has_peer(id(1)));
    let commands = swarm[0].on_tracker_message(TrackerPeerMessage::RequestOffer {
        peer_id: id(1),
        file_sha256: sha256,
    });
    assert_eq!(commands.len(), 1);
    assert!(swarm[0].file(0).has_peer(id(1)));
    assert_eq!(
        swarm[0].file(0).local_state_status(&id(1)),
        Ok(SharedFileLocalStateStatus::NotSent)
    );
    assert!(swarm[0].file(0).peer_state(&id(1)).is_none());
    assert_eq!(swarm[0].file(0).num_peers_with_state().0, 0);
    assert!(swarm[0].file(0).sent_pieces().is_empty());
    assert_eq!(swarm[0].file(0).piece_queues().next_queue().map(|(owners, _)| owners.0), None);
}

#[test]
fn acknowledged_pieces_move_in_the_order_of_the_list() {
    let bytes = contents(3);
    let file: File<Vec<u8>, CHUNK> = File::from_file("shared.bin".to_owned(), &bytes).unwrap();
    let sha256 = file.sha256();
    let mut peer = Swarm::new();
    peer.add_file(file).unwrap();
    peer.on_peer_message(PeerId(1), PeerPeerMessage::FileMissing { sha256 });
    peer.on_peer_message(PeerId(2), PeerPeerMessage::FileMissing { sha256 });
    let waiting = |peer: &Swarm| {
        peer.file(0)
            .piece_queues()
            .next_queue()
            .map(|(owners, pieces)| (owners.0, pieces.iter().map(|piece| piece.0).collect::<Vec<_>>()))
    };
    assert_eq!(waiting(&peer), Some((0, vec![0, 1, 2])));
    peer.on_peer_message(
        PeerId(1),
        PeerPeerMessage::FilePiecesReceived {
            sha256,
            pieces: vec![FilePieceIdx(2), FilePieceIdx(0)],
        },
    );
    assert_eq!(waiting(&peer), Some((0, vec![1])));
    peer.on_peer_message(
        PeerId(1),
        PeerPeerMessage::FilePiecesReceived { sha256, pieces: vec![FilePieceIdx(1)] },
    );
    assert_eq!(waiting(&peer), Some((1, vec![2, 0, 1])));
}

#[test]
fn a_round_draws_the_rarest_pieces_before_it_looks_at_the_files_again() {
    for seed in 0..32 {
        let first_bytes = vec![1u8; 2 * FILE_PIECE_SIZE];
        let second_bytes = vec![2u8; 2 * FILE_PIECE_SIZE];
        let first: File<Vec<u8>, CHUNK> = File::from_file("one".to_owned(), &first_bytes).unwrap();
        let second: File<Vec<u8>, CHUNK> = File::from_file("two".to_owned(), &second_bytes).unwrap();
        let (first_sha256, second_sha256) = (first.sha256(), second.sha256());
        let mut peer = Swarm::new();
        peer.add_file(first).unwrap();
        peer.add_file(second).unwrap();
        for other in [PeerId(2), PeerId(3)] {
            peer.on_peer_message(other, PeerPeerMessage::FileMissing { sha256: first_sha256 });
        }
        peer.on_peer_message(
            PeerId(2),
            PeerPeerMessage::FileState { sha256: second_sha256, state: vec![true, false] },
        );
        peer.on_peer_message(PeerId(3), PeerPeerMessage::FileMissing { sha256: second_sha256 });
        let mut rng = ChaCha8Rng::seed_from_u64(seed);
        let out = peer.send_pieces_to_remote_peers(3, Time(0), &mut rng);
        let mut drawn: Vec<(bool, usize)> = out
            .iter()
            .map(|sent| match &sent.message {
                PeerPeerMessage::FilePiece { sha256, piece_idx, .. } => {
                    (sha256.same(&second_sha256), piece_idx.0)
                }
                other => panic!("{:?} is no piece", other),
            })
            .collect();
        drawn.sort();
        assert_eq!(drawn, vec![(false, 0), (false, 1), (true, 1)]);
    }
}
