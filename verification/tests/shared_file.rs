use peer::{
    File, FileLen, FileMetadata, FilePieceIdx, FileState, PeerId, Sha256, SharedFile,
    SharedFileLocalStateStatus, SharedFileSelectPiecePeerError, Time, FILE_PIECE_SIZE,
};

fn queue_num_owners<const CHUNK_LEN: usize>(file: &SharedFile<Vec<u8>, CHUNK_LEN>) -> usize {
    file.piece_queues().next_queue().unwrap().0 .0
}

fn queue<const CHUNK_LEN: usize>(file: &SharedFile<Vec<u8>, CHUNK_LEN>) -> Vec<usize> {
    file.piece_queues().next_queue().unwrap().1.iter().map(|v| v.0).collect::<Vec<_>>()
}

#[test]
fn send_shared_file_to_single_receiver() {
    const NUM_PIECES: usize = 16;
    const CHUNK_LEN: usize = FILE_PIECE_SIZE * 2;

    let metadata = FileMetadata::new(
        Sha256(Default::default()),
        "filename".to_owned(),
        FileLen((NUM_PIECES * FILE_PIECE_SIZE) as u64),
    );
    let file: File<Vec<u8>, CHUNK_LEN> = File::new(metadata).unwrap();
    let mut shared_file = SharedFile::new(file);

    assert_eq!(shared_file.file().state().to_vec(), vec![false; NUM_PIECES]);
    assert_eq!(shared_file.file().state().num_missing(), NUM_PIECES);
    assert_eq!(shared_file.file().state().num_available(), 0);
    assert_eq!(shared_file.file().state().is_missing(), true);
    assert_eq!(shared_file.file().state().is_complete(), false);
    assert_eq!(shared_file.num_pieces(), NUM_PIECES);
    assert_eq!(shared_file.peer_ids().len(), 0);
    assert_eq!(shared_file.piece_queues().next_queue(), None);

    for j in 0..NUM_PIECES {
        shared_file
            .add_local_piece(FilePieceIdx(j), &[0; FILE_PIECE_SIZE])
            .unwrap();
    }
    let _ = shared_file.take_recently_added_pieces();

    assert_eq!(shared_file.file().state().to_vec(), vec![true; NUM_PIECES]);
    assert_eq!(shared_file.file().state().num_missing(), 0);
    assert_eq!(shared_file.file().state().num_available(), NUM_PIECES);
    assert_eq!(shared_file.file().state().is_missing(), false);
    assert_eq!(shared_file.file().state().is_complete(), true);
    assert_eq!(shared_file.num_pieces(), NUM_PIECES);
    assert_eq!(shared_file.peer_ids().len(), 0);
    assert_eq!(shared_file.piece_queues().next_queue(), None);

    shared_file.add_peer(PeerId(1)).unwrap();
    assert_eq!(
        shared_file.local_state_status(&PeerId(1)).unwrap(),
        SharedFileLocalStateStatus::NotSent
    );
    assert_eq!(shared_file.peer_ids().len(), 1);
    assert_eq!(shared_file.piece_queues().next_queue(), None);

    shared_file
        .add_peer_state(PeerId(1), FileState::from_missing(NUM_PIECES))
        .unwrap();
    assert_eq!(shared_file.peer_ids().len(), 1);
    assert_eq!(queue_num_owners(&shared_file), 0);
    assert_eq!(
        queue(&shared_file),
        &[0, 1, 2, 3, 4, 5, 6, 7, 8, 9, 10, 11, 12, 13, 14, 15]
    );

    let peer_id = shared_file.select_piece_peer(FilePieceIdx(4), Time(0)).unwrap();
    assert_eq!(peer_id, PeerId(1));
    assert_eq!(queue_num_owners(&shared_file), 0);
    assert_eq!(
        queue(&shared_file),
        &[0, 1, 2, 3, 15, 5, 6, 7, 8, 9, 10, 11, 12, 13, 14]
    );

    let peer_id = shared_file.select_piece_peer(FilePieceIdx(7), Time(0)).unwrap();
    assert_eq!(peer_id, PeerId(1));
    assert_eq!(queue_num_owners(&shared_file), 0);
    assert_eq!(
        queue(&shared_file),
        &[0, 1, 2, 3, 15, 5, 6, 14, 8, 9, 10, 11, 12, 13]
    );

    let peer_id = shared_file.select_piece_peer(FilePieceIdx(13), Time(0)).unwrap();
    assert_eq!(peer_id, PeerId(1));
    assert_eq!(queue_num_owners(&shared_file), 0);
    assert_eq!(
        queue(&shared_file),
        &[0, 1, 2, 3, 15, 5, 6, 14, 8, 9, 10, 11, 12]
    );

    for j in [6, 2, 5, 8, 14, 10, 9, 11, 0, 3, 15, 12] {
        let peer_id = shared_file.select_piece_peer(FilePieceIdx(j), Time(0)).unwrap();
        assert_eq!(peer_id, PeerId(1));
        assert_eq!(queue_num_owners(&shared_file), 0);
        println!("{} {:?}", j, queue(&shared_file));
    }
    assert_eq!(queue(&shared_file), &[1]);

    let peer_id = shared_file.select_piece_peer(FilePieceIdx(1), Time(0)).unwrap();
    assert_eq!(peer_id, PeerId(1));
    assert_eq!(queue_num_owners(&shared_file), 1);
    assert_eq!(
        queue(&shared_file),
        &[4, 7, 13, 6, 2, 5, 8, 14, 10, 9, 11, 0, 3, 15, 12, 1]
    );

    let peer_id = shared_file.select_piece_peer(FilePieceIdx(6), Time(0));
    assert_eq!(
        peer_id,
        Err(SharedFileSelectPiecePeerError::PieceIsAlreadyOwned)
    );
}

#[test]
fn send_shared_file_to_multiple_receivers() {
    const NUM_PIECES: usize = 4;
    const CHUNK_LEN: usize = FILE_PIECE_SIZE * 2;

    let metadata = FileMetadata::new(
        Sha256(Default::default()),
        "filename".to_owned(),
        FileLen((NUM_PIECES * FILE_PIECE_SIZE) as u64),
    );
    let file: File<Vec<u8>, CHUNK_LEN> = File::new(metadata).unwrap();
    let mut shared_file: SharedFile<_, CHUNK_LEN> = SharedFile::new(file);

    for j in 0..NUM_PIECES {
        shared_file
            .add_local_piece(FilePieceIdx(j), &[0; FILE_PIECE_SIZE])
            .unwrap();
    }
    let _ = shared_file.take_recently_added_pieces();

    for j in 1..=8 {
        shared_file.add_peer(PeerId(j)).unwrap();
        assert_eq!(
            shared_file.local_state_status(&PeerId(1)).unwrap(),
            SharedFileLocalStateStatus::NotSent
        );
        assert_eq!(shared_file.peer_ids().len(), j as usize);

        shared_file
            .add_peer_state(PeerId(j), FileState::from_missing(NUM_PIECES))
            .unwrap();
        assert_eq!(shared_file.peer_ids().len(), j as usize);
    }

    assert_eq!(queue_num_owners(&shared_file), 0);
    assert_eq!(queue(&shared_file), &[0, 1, 2, 3]);

    let peer_id = shared_file.select_piece_peer(FilePieceIdx(1), Time(0)).unwrap();
    assert_eq!(peer_id, PeerId(5));
    assert_eq!(queue_num_owners(&shared_file), 0);
    assert_eq!(queue(&shared_file), &[0, 3, 2]);

    let peer_id = shared_file.select_piece_peer(FilePieceIdx(0), Time(0)).unwrap();
    assert_eq!(peer_id, PeerId(1));
    assert_eq!(queue_num_owners(&shared_file), 0);
    assert_eq!(queue(&shared_file), &[2, 3]);

    let peer_id = shared_file.select_piece_peer(FilePieceIdx(3), Time(0)).unwrap();
    assert_eq!(peer_id, PeerId(6));
    assert_eq!(queue_num_owners(&shared_file), 0);
    assert_eq!(queue(&shared_file), &[2]);

    let peer_id = shared_file.select_piece_peer(FilePieceIdx(2), Time(0)).unwrap();
    assert_eq!(peer_id, PeerId(7));
    assert_eq!(queue_num_owners(&shared_file), 1);
    assert_eq!(queue(&shared_file), &[1, 0, 3, 2]);

    let peer_id = shared_file.select_piece_peer(FilePieceIdx(2), Time(0)).unwrap();
    assert_eq!(peer_id, PeerId(6));
    assert_eq!(queue_num_owners(&shared_file), 1);
    assert_eq!(queue(&shared_file), &[1, 0, 3]);

    let peer_id = shared_file.select_piece_peer(FilePieceIdx(1), Time(0)).unwrap();
    assert_eq!(peer_id, PeerId(1));
    assert_eq!(queue_num_owners(&shared_file), 1);
    assert_eq!(queue(&shared_file), &[3, 0]);

    let peer_id = shared_file.select_piece_peer(FilePieceIdx(3), Time(0)).unwrap();
    assert_eq!(peer_id, PeerId(1));
    assert_eq!(queue_num_owners(&shared_file), 1);
    assert_eq!(queue(&shared_file), &[0]);

    let peer_id = shared_file.select_piece_peer(FilePieceIdx(0), Time(0)).unwrap();
    assert_eq!(peer_id, PeerId(2));
    assert_eq!(queue_num_owners(&shared_file), 2);
    assert_eq!(queue(&shared_file), &[2, 1, 3, 0]);
}
