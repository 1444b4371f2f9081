use peer::{
    File, FileLen, FileMetadata, FilePieceIdx, FileSetPieceError, FileState, FileStatePieceError,
    LocalStateStatusError, PeerId, Sha256, SharedFile, SharedFileAddLocalPieceError,
    SharedFileAddPeerError, SharedFileAddPeerStateError, SharedFileLocalStateStatus,
    SharedFileMarkError, SharedFileMarkForResendStatus, SharedFileMarkStatus,
    SharedFileRemovePeerError, SharedFileRemovePeerStateError, SharedFileSelectPiecePeerError,
    SharedFileSetPeerStateError, Time, FILE_PIECE_SIZE,
};

const CHUNK: usize = 2048;

fn shared(num_pieces: usize) -> SharedFile<Vec<u8>, CHUNK> {
    let metadata = FileMetadata::new(
        Sha256([9; 32]),
        "file".to_owned(),
        FileLen((num_pieces * FILE_PIECE_SIZE) as u64),
    );
    SharedFile::new(File::new(metadata).unwrap())
}

fn complete(num_pieces: usize) -> SharedFile<Vec<u8>, CHUNK> {
    let mut file = shared(num_pieces);
    for piece in 0..num_pieces {
        file.add_local_piece(FilePieceIdx(piece), &[piece as u8; FILE_PIECE_SIZE]).unwrap();
    }
    let _ = file.take_recently_added_pieces();
    file
}

fn level(file: &SharedFile<Vec<u8>, CHUNK>) -> Option<(usize, Vec<usize>)> {
    file.piece_queues()
        .next_queue()
        .map(|(owners, pieces)| (owners.0, pieces.iter().map(|piece| piece.0).collect()))
}

fn bits(file: &SharedFile<Vec<u8>, CHUNK>, peer: u32) -> (Vec<bool>, Vec<bool>) {
    let state = file.peer_state(&PeerId(peer)).unwrap();
    (state.confirmed().to_vec(), state.possible().to_vec())
}

fn check_rules(file: &SharedFile<Vec<u8>, CHUNK>) {
    let num_pieces = file.num_pieces();
    let local = file.file().state().to_vec();
    let remote = file.remote_state().to_vec();
    let mut with_state = Vec::new();
    for peer_id in file.peer_ids() {
        if let Some(state) = file.peer_state(&peer_id) {
            with_state.push((state.confirmed().to_vec(), state.possible().to_vec()));
        }
    }
    assert_eq!(with_state.len(), file.num_peers_with_state().0);
    assert_eq!(file.file().state().num_available(), local.iter().filter(|bit| **bit).count());
    for piece in 0..num_pieces {
        let mut confirmed = 0;
        let mut possible = 0;
        for (has, may) in &with_state {
            assert!(!has[piece] || may[piece]);
            confirmed += has[piece] as usize;
            possible += may[piece] as usize;
        }
        assert_eq!(remote[piece], confirmed == with_state.len());
        match file.piece_queues().get(FilePieceIdx(piece)) {
            Ok(entry) => {
                assert!(local[piece]);
                assert_eq!(entry.num_confirmed_owners.0, confirmed);
                assert_eq!(entry.num_possible_owners.0, possible);
            }
            Err(_) => {
                assert!(!(local[piece] && possible < with_state.len()));
            }
        }
    }
    if let Some((owners, pieces)) = file.piece_queues().next_queue() {
        assert!(!pieces.is_empty());
        for piece in 0..num_pieces {
            if let Ok(entry) = file.piece_queues().get(FilePieceIdx(piece)) {
                assert!(owners.0 <= entry.num_possible_owners.0);
            }
        }
    } else {
        for piece in 0..num_pieces {
            assert!(file.piece_queues().get(FilePieceIdx(piece)).is_err());
        }
    }
    let sent = file.sent_pieces();
    for pair in sent.windows(2) {
        assert!(pair[0].time <= pair[1].time);
    }
    for entry in sent.iter() {
        assert!(file.peer_state(&entry.peer_id).is_some());
    }
}

#[test]
fn add_peer_twice_is_an_error() {
    let mut file = shared(4);
    assert_eq!(file.add_peer(PeerId(1)), Ok(()));
    assert_eq!(file.add_peer(PeerId(1)), Err(SharedFileAddPeerError::PeerIsAlreadyAdded));
    assert!(file.has_peer(PeerId(1)));
    assert!(!file.has_peer(PeerId(2)));
    assert_eq!(file.num_peers(), 1);
    assert_eq!(file.num_peers_with_state().0, 0);
    check_rules(&file);
}

#[test]
fn add_peer_state_reports_each_error() {
    let mut file = shared(4);
    assert_eq!(
        file.add_peer_state(PeerId(1), FileState::from_missing(4)),
        Err(SharedFileAddPeerStateError::PeerIsNotAdded)
    );
    file.add_peer(PeerId(1)).unwrap();
    assert_eq!(
        file.add_peer_state(PeerId(1), FileState::from_missing(5)),
        Err(SharedFileAddPeerStateError::PeerInvalidStateLen { peer_len: 5, local_len: 4 })
    );
    assert_eq!(file.add_peer_state(PeerId(1), FileState::from_missing(4)), Ok(()));
    assert_eq!(
        file.add_peer_state(PeerId(1), FileState::from_missing(4)),
        Err(SharedFileAddPeerStateError::PeerIsAlreadyHasState)
    );
    assert_eq!(
        file.remove_peer_state(&PeerId(2)),
        Err(SharedFileRemovePeerStateError::PeerIsNotAdded)
    );
    assert_eq!(file.remove_peer_state(&PeerId(1)), Ok(()));
    assert_eq!(
        file.remove_peer_state(&PeerId(1)),
        Err(SharedFileRemovePeerStateError::PeerStateIsAlreadyRemoved)
    );
    check_rules(&file);
}

#[test]
fn set_peer_state_replaces_the_bitmap() {
    let mut file = complete(4);
    assert_eq!(
        file.set_peer_state(PeerId(1), FileState::from_missing(4)),
        Err(SharedFileSetPeerStateError::PeerIsNotAdded)
    );
    file.add_peer(PeerId(1)).unwrap();
    assert_eq!(
        file.set_peer_state(PeerId(1), FileState::from_missing(3)),
        Err(SharedFileSetPeerStateError::PeerInvalidStateLen { peer_len: 3, local_len: 4 })
    );
    assert!(file.peer_state(&PeerId(1)).is_none());
    let first = FileState::from_bits(&vec![true, false, false, true]).unwrap();
    assert_eq!(file.set_peer_state(PeerId(1), first), Ok(()));
    assert_eq!(bits(&file, 1).0, vec![true, false, false, true]);
    assert_eq!(file.remote_state().to_vec(), vec![true, false, false, true]);
    assert_eq!(level(&file), Some((0, vec![1, 2])));
    check_rules(&file);
    let second = FileState::from_bits(&vec![false, true, false, true]).unwrap();
    assert_eq!(file.set_peer_state(PeerId(1), second), Ok(()));
    assert_eq!(bits(&file, 1), (vec![false, true, false, true], vec![false, true, false, true]));
    assert_eq!(file.remote_state().to_vec(), vec![false, true, false, true]);
    assert_eq!(file.num_peers_with_state().0, 1);
    check_rules(&file);
    assert_eq!(file.set_peer_file_complete(PeerId(1)), Ok(()));
    assert!(file.remote_state().is_complete());
    assert_eq!(file.set_peer_file_missing(PeerId(1)), Ok(()));
    assert!(file.remote_state().is_missing());
    assert_eq!(level(&file).unwrap().0, 0);
    check_rules(&file);
}

#[test]
fn remote_state_is_the_meet_of_the_confirmed_bitmaps() {
    let mut file = complete(4);
    for peer in 1..=3 {
        file.add_peer(PeerId(peer)).unwrap();
    }
    file.set_peer_state(PeerId(1), FileState::from_bits(&vec![true, true, false, true]).unwrap())
        .unwrap();
    file.set_peer_state(PeerId(2), FileState::from_bits(&vec![true, false, true, true]).unwrap())
        .unwrap();
    assert_eq!(file.remote_state().to_vec(), vec![true, false, false, true]);
    file.set_peer_state(PeerId(3), FileState::from_bits(&vec![false, true, true, true]).unwrap())
        .unwrap();
    assert_eq!(file.remote_state().to_vec(), vec![false, false, false, true]);
    assert_eq!(level(&file), Some((2, vec![0, 1, 2])));
    check_rules(&file);
    file.remove_peer(&PeerId(1)).unwrap();
    assert_eq!(file.remote_state().to_vec(), vec![false, false, true, true]);
    assert_eq!(file.num_peers_with_state().0, 2);
    check_rules(&file);
}

#[test]
fn add_local_piece_twice_changes_nothing() {
    let mut file = shared(3);
    file.add_peer(PeerId(1)).unwrap();
    file.set_peer_file_missing(PeerId(1)).unwrap();
    assert_eq!(file.add_local_piece(FilePieceIdx(1), &[1; FILE_PIECE_SIZE]), Ok(()));
    assert_eq!(file.file().state().num_available(), 1);
    assert_eq!(level(&file), Some((0, vec![1])));
    assert_eq!(
        file.add_local_piece(FilePieceIdx(1), &[2; FILE_PIECE_SIZE]),
        Err(SharedFileAddLocalPieceError::PieceIsAlreadySet)
    );
    assert_eq!(file.file().state().num_available(), 1);
    assert_eq!(file.file().get_piece(&FilePieceIdx(1)), Ok(Some(vec![1; FILE_PIECE_SIZE])));
    assert_eq!(level(&file), Some((0, vec![1])));
    assert_eq!(file.take_recently_added_pieces(), vec![FilePieceIdx(1)]);
    assert_eq!(file.take_recently_added_pieces(), vec![]);
    check_rules(&file);
}

#[test]
fn add_local_piece_reports_each_error() {
    let mut file = shared(3);
    assert_eq!(
        file.add_local_piece(FilePieceIdx(3), &[0; FILE_PIECE_SIZE]),
        Err(SharedFileAddLocalPieceError::SetPiece(FileSetPieceError::AddPieceError(
            FileStatePieceError::PieceIndexOutOfRange
        )))
    );
    assert_eq!(
        file.add_local_piece(FilePieceIdx(0), &[0; 10]),
        Err(SharedFileAddLocalPieceError::SetPiece(FileSetPieceError::InvalidPieceLen {
            expected: FILE_PIECE_SIZE
        }))
    );
    assert_eq!(file.file().state().num_available(), 0);
    assert_eq!(file.add_local_piece(FilePieceIdx(0), &[0; FILE_PIECE_SIZE]), Ok(()));
    assert_eq!(file.file().state().num_available(), 1);
    assert_eq!(file.piece_queues().next_queue(), None);
}

#[test]
fn add_local_piece_queues_the_piece_while_a_peer_has_told_nothing() {
    let mut file = shared(2);
    file.add_peer(PeerId(1)).unwrap();
    file.add_local_piece(FilePieceIdx(0), &[0; FILE_PIECE_SIZE]).unwrap();
    assert_eq!(level(&file), Some((0, vec![0])));
    assert_eq!(
        file.select_piece_peer(FilePieceIdx(0), Time(0)),
        Err(SharedFileSelectPiecePeerError::PieceIsAlreadyOwned)
    );
    file.set_peer_file_complete(PeerId(1)).unwrap();
    assert_eq!(file.piece_queues().get(FilePieceIdx(0)).unwrap().num_possible_owners.0, 1);
    check_rules_modulo_full(&file);
}

fn check_rules_modulo_full(file: &SharedFile<Vec<u8>, CHUNK>) {
    for piece in 0..file.num_pieces() {
        if let Ok(entry) = file.piece_queues().get(FilePieceIdx(piece)) {
            assert!(entry.num_confirmed_owners.0 <= entry.num_possible_owners.0);
            assert!(entry.num_possible_owners.0 <= file.num_peers_with_state().0);
        }
    }
}

#[test]
fn mark_received_is_idempotent() {
    let mut file = complete(3);
    file.add_peer(PeerId(1)).unwrap();
    file.add_peer(PeerId(2)).unwrap();
    file.set_peer_file_missing(PeerId(1)).unwrap();
    file.set_peer_file_missing(PeerId(2)).unwrap();
    assert_eq!(
        file.mark_peer_piece_as_received_by_remote(&PeerId(1), FilePieceIdx(2)),
        Ok(SharedFileMarkStatus::JustMarked)
    );
    let after_first = bits(&file, 1);
    assert_eq!(after_first.0, vec![false, false, true]);
    assert_eq!(after_first.1, vec![false, false, true]);
    assert_eq!(file.piece_queues().get(FilePieceIdx(2)).unwrap().num_confirmed_owners.0, 1);
    assert_eq!(file.piece_queues().get(FilePieceIdx(2)).unwrap().num_possible_owners.0, 1);
    assert_eq!(
        file.mark_peer_piece_as_received_by_remote(&PeerId(1), FilePieceIdx(2)),
        Ok(SharedFileMarkStatus::AlreadyMarked)
    );
    assert_eq!(bits(&file, 1), after_first);
    assert_eq!(file.piece_queues().get(FilePieceIdx(2)).unwrap().num_confirmed_owners.0, 1);
    assert_eq!(file.remote_state().to_vec(), vec![false, false, false]);
    assert_eq!(
        file.mark_peer_piece_as_received_by_remote(&PeerId(2), FilePieceIdx(2)),
        Ok(SharedFileMarkStatus::JustMarked)
    );
    assert_eq!(file.remote_state().to_vec(), vec![false, false, true]);
    check_rules_modulo_full(&file);
}

#[test]
fn mark_received_reports_each_error() {
    let mut file = complete(3);
    assert_eq!(
        file.mark_peer_piece_as_received_by_remote(&PeerId(1), FilePieceIdx(3)),
        Err(SharedFileMarkError::PieceIndexOutOfRange)
    );
    assert_eq!(
        file.mark_peer_piece_as_received_by_remote(&PeerId(1), FilePieceIdx(0)),
        Err(SharedFileMarkError::PeerIsNotAdded)
    );
    file.add_peer(PeerId(1)).unwrap();
    assert_eq!(
        file.mark_peer_piece_as_received_by_remote(&PeerId(1), FilePieceIdx(0)),
        Err(SharedFileMarkError::PeerStateIsNotAdded)
    );
    assert_eq!(
        file.mark_for_resend_if_not_sent(&PeerId(1), FilePieceIdx(0)),
        Err(SharedFileMarkError::PeerStateIsNotAdded)
    );
    assert_eq!(
        file.mark_for_resend_if_not_sent(&PeerId(2), FilePieceIdx(0)),
        Err(SharedFileMarkError::PeerIsNotAdded)
    );
    assert_eq!(
        file.mark_for_resend_if_not_sent(&PeerId(1), FilePieceIdx(7)),
        Err(SharedFileMarkError::PieceIndexOutOfRange)
    );
}

#[test]
fn mark_received_for_a_piece_that_is_not_here_touches_no_queue() {
    let mut file = shared(2);
    file.add_peer(PeerId(1)).unwrap();
    file.set_peer_file_missing(PeerId(1)).unwrap();
    assert_eq!(
        file.mark_peer_piece_as_received_by_remote(&PeerId(1), FilePieceIdx(0)),
        Ok(SharedFileMarkStatus::JustMarked)
    );
    assert_eq!(file.piece_queues().next_queue(), None);
    assert_eq!(file.remote_state().to_vec(), vec![true, false]);
    check_rules(&file);
}

#[test]
fn resend_gives_up_what_was_sent_and_not_acknowledged() {
    let mut file = complete(2);
    file.add_peer(PeerId(1)).unwrap();
    file.set_peer_file_missing(PeerId(1)).unwrap();
    assert_eq!(
        file.mark_for_resend_if_not_sent(&PeerId(1), FilePieceIdx(0)),
        Ok(SharedFileMarkForResendStatus::AlreadyMarked)
    );
    assert_eq!(file.select_piece_peer(FilePieceIdx(0), Time(10)), Ok(PeerId(1)));
    assert_eq!(file.select_piece_peer(FilePieceIdx(1), Time(20)), Ok(PeerId(1)));
    assert_eq!(bits(&file, 1), (vec![false, false], vec![true, true]));
    assert_eq!(file.sent_pieces().len(), 2);
    assert_eq!(level(&file), Some((1, vec![0, 1])));
    file.mark_peer_piece_as_received_by_remote(&PeerId(1), FilePieceIdx(1)).unwrap();
    assert_eq!(
        file.mark_for_resend_if_not_sent(&PeerId(1), FilePieceIdx(1)),
        Ok(SharedFileMarkForResendStatus::Received)
    );
    assert_eq!(file.mark_pieces_for_resend_before(Time(10)), Ok(()));
    assert_eq!(file.sent_pieces().len(), 2);
    assert_eq!(file.mark_pieces_for_resend_before(Time(21)), Ok(()));
    assert_eq!(file.sent_pieces().len(), 0);
    assert_eq!(bits(&file, 1), (vec![false, true], vec![false, true]));
    assert_eq!(level(&file), Some((0, vec![0])));
    assert_eq!(file.select_piece_peer(FilePieceIdx(0), Time(30)), Ok(PeerId(1)));
    assert_eq!(
        file.mark_for_resend_if_not_sent(&PeerId(1), FilePieceIdx(0)),
        Ok(SharedFileMarkForResendStatus::JustMarked)
    );
    assert_eq!(bits(&file, 1).1, vec![false, true]);
}

#[test]
fn sent_pieces_stay_in_the_order_of_their_times() {
    let mut file = complete(3);
    file.add_peer(PeerId(1)).unwrap();
    file.set_peer_file_missing(PeerId(1)).unwrap();
    file.select_piece_peer(FilePieceIdx(0), Time(50)).unwrap();
    file.select_piece_peer(FilePieceIdx(1), Time(10)).unwrap();
    file.select_piece_peer(FilePieceIdx(2), Time(50)).unwrap();
    let order: Vec<(u64, usize)> =
        file.sent_pieces().iter().map(|entry| (entry.time.0, entry.piece_idx.0)).collect();
    assert_eq!(order, vec![(10, 1), (50, 0), (50, 2)]);
    file.mark_pieces_for_resend_before(Time(50)).unwrap();
    let order: Vec<(u64, usize)> =
        file.sent_pieces().iter().map(|entry| (entry.time.0, entry.piece_idx.0)).collect();
    assert_eq!(order, vec![(50, 0), (50, 2)]);
    assert_eq!(bits(&file, 1).1, vec![true, false, true]);
}

#[test]
fn select_with_one_peer_returns_that_peer() {
    let mut file = complete(5);
    file.add_peer(PeerId(77)).unwrap();
    file.set_peer_file_missing(PeerId(77)).unwrap();
    for piece in 0..5 {
        assert_eq!(file.select_piece_peer(FilePieceIdx(piece), Time(1)), Ok(PeerId(77)));
    }
    for piece in 0..5 {
        assert_eq!(
            file.select_piece_peer(FilePieceIdx(piece), Time(1)),
            Err(SharedFileSelectPiecePeerError::PieceIsAlreadyOwned)
        );
        assert_eq!(file.piece_queues().get(FilePieceIdx(piece)).unwrap().num_possible_owners.0, 1);
    }
    check_rules_modulo_full(&file);
}

#[test]
fn select_with_no_peers_fails_and_nothing_is_queued() {
    let mut file = complete(3);
    assert_eq!(file.piece_queues().next_queue(), None);
    assert_eq!(
        file.select_piece_peer(FilePieceIdx(0), Time(0)),
        Err(SharedFileSelectPiecePeerError::PieceIsNotAdded)
    );
    assert_eq!(
        file.select_piece_peer(FilePieceIdx(3), Time(0)),
        Err(SharedFileSelectPiecePeerError::PieceIndexOutOfRange)
    );
    file.add_peer(PeerId(1)).unwrap();
    file.set_peer_file_missing(PeerId(1)).unwrap();
    assert_eq!(level(&file), Some((0, vec![0, 1, 2])));
    file.remove_peer(&PeerId(1)).unwrap();
    assert_eq!(file.piece_queues().next_queue(), None);
    assert_eq!(file.num_peers(), 0);
    assert!(file.select_piece_peer(FilePieceIdx(0), Time(0)).is_err());
    check_rules(&file);
}

#[test]
fn select_for_a_piece_that_is_not_here_fails() {
    let mut file = shared(2);
    file.add_peer(PeerId(1)).unwrap();
    file.set_peer_file_missing(PeerId(1)).unwrap();
    assert_eq!(
        file.select_piece_peer(FilePieceIdx(0), Time(0)),
        Err(SharedFileSelectPiecePeerError::PieceIsNotAdded)
    );
    assert_eq!(bits(&file, 1).1, vec![false, false]);
}

#[test]
fn select_walks_over_every_peer_of_three() {
    let mut file = complete(1);
    for peer in 1..=3 {
        file.add_peer(PeerId(peer)).unwrap();
        file.set_peer_file_missing(PeerId(peer)).unwrap();
    }
    let mut chosen = Vec::new();
    for round in 0..3 {
        let peer_id = file.select_piece_peer(FilePieceIdx(0), Time(round)).unwrap();
        assert!(!chosen.contains(&peer_id));
        chosen.push(peer_id);
        assert_eq!(
            file.piece_queues().get(FilePieceIdx(0)).unwrap().num_possible_owners.0,
            chosen.len()
        );
    }
    assert_eq!(
        file.select_piece_peer(FilePieceIdx(0), Time(9)),
        Err(SharedFileSelectPiecePeerError::PieceIsAlreadyOwned)
    );
    check_rules_modulo_full(&file);
}

#[test]
fn remove_peer_forgets_the_peer() {
    let mut file = complete(4);
    assert_eq!(file.remove_peer(&PeerId(1)), Err(SharedFileRemovePeerError::PeerIsNotAdded));
    for peer in 1..=3 {
        file.add_peer(PeerId(peer)).unwrap();
        file.set_peer_file_missing(PeerId(peer)).unwrap();
    }
    let mut sent_to = Vec::new();
    for piece in 0..4 {
        sent_to.push(file.select_piece_peer(FilePieceIdx(piece), Time(piece as u64)).unwrap());
    }
    let gone = sent_to[0];
    let before = file.sent_pieces().len();
    let to_gone = sent_to.iter().filter(|peer_id| **peer_id == gone).count();
    assert_eq!(file.remove_peer(&gone), Ok(()));
    assert_eq!(file.num_peers_with_state().0, 2);
    assert_eq!(file.num_peers(), 2);
    assert!(!file.has_peer(gone));
    assert!(file.peer_state(&gone).is_none());
    assert_eq!(file.sent_pieces().len(), before - to_gone);
    assert!(file.sent_pieces().iter().all(|entry| entry.peer_id != gone));
    assert_eq!(file.local_state_status(&gone), Err(LocalStateStatusError::PeerIsNotAdded));
    check_rules_modulo_full(&file);
    for peer_id in file.peer_ids() {
        assert!(file.peer_state(&peer_id).is_some());
        assert_eq!(file.peer_state(&peer_id).unwrap().peer_id(), peer_id);
    }
    let other = file.peer_ids()[0];
    for piece in 0..4 {
        if !file.peer_state(&other).unwrap().possible().to_vec()[piece] {
            assert!(file.select_piece_peer(FilePieceIdx(piece), Time(100)).is_ok());
        }
    }
}

#[test]
fn local_state_status_is_kept_for_each_peer() {
    let mut file = shared(2);
    assert_eq!(
        file.local_state_status(&PeerId(5)),
        Err(LocalStateStatusError::PeerIsNotAdded)
    );
    assert_eq!(
        file.set_local_state_status(&PeerId(5), SharedFileLocalStateStatus::Received),
        Err(LocalStateStatusError::PeerIsNotAdded)
    );
    file.add_peer(PeerId(5)).unwrap();
    file.add_peer(PeerId(6)).unwrap();
    assert_eq!(
        file.set_local_state_status(&PeerId(5), SharedFileLocalStateStatus::Sent(Time(4))),
        Ok(())
    );
    file.set_peer_file_missing(PeerId(5)).unwrap();
    assert_eq!(file.local_state_status(&PeerId(5)), Ok(SharedFileLocalStateStatus::Sent(Time(4))));
    assert_eq!(file.local_state_status(&PeerId(6)), Ok(SharedFileLocalStateStatus::NotSent));
    let mut ids: Vec<u32> = file.peer_ids().iter().map(|peer_id| peer_id.0).collect();
    ids.sort();
    assert_eq!(ids, vec![5, 6]);
}

#[test]
fn pieces_enter_their_queue_in_ascending_order_when_a_peer_joins() {
    let mut file = complete(4);
    file.add_peer(PeerId(1)).unwrap();
    file.add_peer(PeerId(2)).unwrap();
    file.set_peer_file_complete(PeerId(1)).unwrap();
    assert_eq!(level(&file), None);
    assert_eq!(file.add_peer_state(PeerId(2), FileState::from_missing(4)), Ok(()));
    assert_eq!(level(&file), Some((1, vec![0, 1, 2, 3])));
    assert!(file.remote_state().is_missing());
    assert_eq!(file.num_peers_with_state().0, 2);
}

#[test]
fn pieces_move_to_the_end_of_their_new_queue_when_a_peer_leaves() {
    let mut file = complete(4);
    file.add_peer(PeerId(1)).unwrap();
    file.add_peer(PeerId(2)).unwrap();
    let held = FileState::from_bits(&vec![true, false, true, false]).unwrap();
    file.set_peer_state(PeerId(1), held).unwrap();
    assert_eq!(level(&file), Some((0, vec![1, 3])));
    file.set_peer_file_missing(PeerId(2)).unwrap();
    assert_eq!(level(&file), Some((0, vec![1, 3])));
    assert_eq!(file.piece_queues().get(FilePieceIdx(0)).unwrap().num_possible_owners.0, 1);
    assert_eq!(file.piece_queues().get(FilePieceIdx(2)).unwrap().num_possible_owners.0, 1);
    assert_eq!(file.remove_peer_state(&PeerId(1)), Ok(()));
    assert_eq!(level(&file), Some((0, vec![1, 3, 0, 2])));
}

#[test]
fn pieces_given_up_move_in_the_order_in_which_they_were_sent() {
    let mut file = complete(3);
    file.add_peer(PeerId(1)).unwrap();
    file.set_peer_file_missing(PeerId(1)).unwrap();
    assert_eq!(level(&file), Some((0, vec![0, 1, 2])));
    assert_eq!(file.select_piece_peer(FilePieceIdx(2), Time(10)), Ok(PeerId(1)));
    assert_eq!(level(&file), Some((0, vec![0, 1])));
    assert_eq!(file.select_piece_peer(FilePieceIdx(0), Time(20)), Ok(PeerId(1)));
    assert_eq!(file.select_piece_peer(FilePieceIdx(1), Time(30)), Ok(PeerId(1)));
    assert_eq!(level(&file), Some((1, vec![2, 0, 1])));
    assert_eq!(file.mark_pieces_for_resend_before(Time(30)), Ok(()));
    assert_eq!(level(&file), Some((0, vec![2, 0])));
    assert_eq!(file.piece_queues().get(FilePieceIdx(1)).unwrap().num_possible_owners.0, 1);
    assert_eq!(file.sent_pieces().len(), 1);
}

#[test]
fn pieces_that_arrive_in_any_order_complete_the_file_once() {
    let mut file = shared(16);
    let order = [5usize, 3, 5, 0, 15, 9, 1, 2, 4, 6, 7, 0, 8, 10, 11, 12, 13, 14, 9];
    for (turn, piece) in order.iter().enumerate() {
        let stored = file.add_local_piece(FilePieceIdx(*piece), &[turn as u8; FILE_PIECE_SIZE]);
        let first = order.iter().position(|other| other == piece) == Some(turn);
        assert_eq!(stored.is_ok(), first);
        if !first {
            assert_eq!(stored, Err(SharedFileAddLocalPieceError::PieceIsAlreadySet));
        }
    }
    assert!(file.file().state().is_complete());
    assert_eq!(file.file().state().num_available(), 16);
    for piece in 0..16usize {
        let first = order.iter().position(|other| *other == piece).unwrap();
        assert_eq!(
            file.file().get_piece(&FilePieceIdx(piece)),
            Ok(Some(vec![first as u8; FILE_PIECE_SIZE]))
        );
    }
    let mut listed: Vec<usize> =
        file.take_recently_added_pieces().iter().map(|piece| piece.0).collect();
    assert_eq!(listed.len(), 16);
    listed.sort();
    assert_eq!(listed, (0..16).collect::<Vec<usize>>());
}

#[test]
fn a_piece_that_every_peer_holds_is_already_owned_though_it_never_waited() {
    let mut file = shared(2);
    file.add_local_piece(FilePieceIdx(0), &[0; FILE_PIECE_SIZE]).unwrap();
    file.add_peer(PeerId(1)).unwrap();
    file.set_peer_file_complete(PeerId(1)).unwrap();
    assert_eq!(level(&file), None);
    assert_eq!(
        file.select_piece_peer(FilePieceIdx(0), Time(0)),
        Err(SharedFileSelectPiecePeerError::PieceIsAlreadyOwned)
    );
    assert_eq!(
        file.select_piece_peer(FilePieceIdx(1), Time(0)),
        Err(SharedFileSelectPiecePeerError::PieceIsNotAdded)
    );
    assert_eq!(
        file.select_piece_peer(FilePieceIdx(2), Time(0)),
        Err(SharedFileSelectPiecePeerError::PieceIndexOutOfRange)
    );
    assert!(file.sent_pieces().is_empty());
}

#[test]
fn a_piece_goes_to_each_peer_that_lacks_it_once_and_is_owned_then() {
    for peers in [1u32, 2, 3, 5, 7] {
        let mut file = complete(1);
        for peer in 1..=peers {
            file.add_peer(PeerId(peer)).unwrap();
            file.set_peer_file_missing(PeerId(peer)).unwrap();
        }
        let mut receivers = Vec::new();
        while let Ok(peer) = file.select_piece_peer(FilePieceIdx(0), Time(0)) {
            assert!(!receivers.contains(&peer.0));
            receivers.push(peer.0);
            assert!(receivers.len() <= peers as usize);
        }
        assert_eq!(
            file.select_piece_peer(FilePieceIdx(0), Time(1)),
            Err(SharedFileSelectPiecePeerError::PieceIsAlreadyOwned)
        );
        receivers.sort();
        assert_eq!(receivers, (1..=peers).collect::<Vec<u32>>());
    }
}
