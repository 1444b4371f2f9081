use peer::{
    File, FileGetPieceError, FileHasPieceError, FileLen, FileMetaDataDecodeBase64Error,
    FileMetadata, FilePieceIdx, FileSetPieceError, FileStatePieceError, FileStateSetStatus,
    FileToBlobError, Sha256, FILE_PIECE_SIZE,
};

const CHUNK: usize = 2048;

fn metadata(len: u64) -> FileMetadata {
    FileMetadata::new(Sha256([7; 32]), "data.bin".to_owned(), FileLen(len))
}

#[test]
fn metadata_keeps_what_it_was_given() {
    let meta = FileMetadata::new(Sha256([1; 32]), "name".to_owned(), FileLen(42));
    assert_eq!(meta.sha256(), Sha256([1; 32]));
    assert_eq!(meta.name(), "name");
    assert_eq!(meta.len(), FileLen(42));
}

#[test]
fn magnet_round_trip() {
    let meta = FileMetadata::new(Sha256([0xAA; 32]), "report.pdf".to_owned(), FileLen(1048577));
    let magnet = meta.encode_base64().unwrap();
    assert_eq!(
        magnet,
        "qqqqqqqqqqqqqqqqqqqqqqqqqqqqqqqqqqqqqqqqqqoKAAAAAAAAAHJlcG9ydC5wZGYBABAAAAAAAA=="
    );
    let decoded = FileMetadata::decode_base64(&magnet).unwrap();
    assert_eq!(decoded, meta);
    let file: File<Vec<u8>, CHUNK> = File::new(decoded).unwrap();
    assert_eq!(file.num_pieces(), 1025);
}

#[test]
fn magnet_binary_form_is_laid_out_as_documented() {
    let meta = FileMetadata::new(Sha256([3; 32]), "ab".to_owned(), FileLen(0x0102));
    let bytes = meta.encode();
    let mut expected = vec![3u8; 32];
    expected.extend_from_slice(&[2, 0, 0, 0, 0, 0, 0, 0]);
    expected.extend_from_slice(b"ab");
    expected.extend_from_slice(&[2, 1, 0, 0, 0, 0, 0, 0]);
    assert_eq!(bytes, expected);
    assert_eq!(FileMetadata::decode(&bytes).unwrap(), meta);
    let mut longer = bytes.clone();
    longer.push(9);
    assert_eq!(FileMetadata::decode(&longer).unwrap(), meta);
}

#[test]
fn magnet_decoding_fails_on_bad_input() {
    assert!(matches!(
        FileMetadata::decode_base64("not base64 !"),
        Err(FileMetaDataDecodeBase64Error::Base64DecodeError(_))
    ));
    assert!(matches!(
        FileMetadata::decode_base64("AAAA"),
        Err(FileMetaDataDecodeBase64Error::DeserializeError)
    ));
    let meta = FileMetadata::new(Sha256([3; 32]), "ab".to_owned(), FileLen(5));
    let mut bytes = meta.encode();
    bytes.pop();
    assert!(matches!(
        FileMetadata::decode(&bytes),
        Err(FileMetaDataDecodeBase64Error::DeserializeError)
    ));
    let mut not_text = vec![0u8; 32];
    not_text.extend_from_slice(&[1, 0, 0, 0, 0, 0, 0, 0]);
    not_text.push(0xFF);
    not_text.extend_from_slice(&[0; 8]);
    assert!(matches!(
        FileMetadata::decode(&not_text),
        Err(FileMetaDataDecodeBase64Error::DeserializeError)
    ));
}

#[test]
fn file_counts_its_pieces() {
    let empty: File<Vec<u8>, CHUNK> = File::new(metadata(0)).unwrap();
    assert_eq!(empty.num_pieces(), 0);
    let one: File<Vec<u8>, CHUNK> = File::new(metadata(1)).unwrap();
    assert_eq!(one.num_pieces(), 1);
    let exact: File<Vec<u8>, CHUNK> = File::new(metadata(4096)).unwrap();
    assert_eq!(exact.num_pieces(), 4);
    let over: File<Vec<u8>, CHUNK> = File::new(metadata(4097)).unwrap();
    assert_eq!(over.num_pieces(), 5);
    assert_eq!(over.len(), FileLen(4097));
    assert_eq!(over.name(), "data.bin");
    assert_eq!(over.sha256(), Sha256([7; 32]));
    assert_eq!(over.metadata().len(), FileLen(4097));
    assert!(over.state().is_missing());
}

#[test]
fn last_piece_has_the_tail_length() {
    let mut file: File<Vec<u8>, CHUNK> = File::new(metadata(3 * 1024 + 100)).unwrap();
    assert_eq!(file.num_pieces(), 4);
    assert_eq!(file.piece_len(&FilePieceIdx(0)), FILE_PIECE_SIZE);
    assert_eq!(file.piece_len(&FilePieceIdx(2)), FILE_PIECE_SIZE);
    assert_eq!(file.piece_len(&FilePieceIdx(3)), 100);
    assert_eq!(
        file.set_piece(&FilePieceIdx(3), &[1; FILE_PIECE_SIZE]),
        Err(FileSetPieceError::InvalidPieceLen { expected: 100 })
    );
    assert_eq!(file.has_piece(&FilePieceIdx(3)), Ok(false));
    assert_eq!(file.set_piece(&FilePieceIdx(3), &[1; 100]), Ok(FileStateSetStatus::JustSet));
    assert_eq!(file.get_piece(&FilePieceIdx(3)), Ok(Some(vec![1; 100])));
    assert_eq!(
        file.set_piece(&FilePieceIdx(0), &[1; 100]),
        Err(FileSetPieceError::InvalidPieceLen { expected: FILE_PIECE_SIZE })
    );
}

#[test]
fn file_stores_and_returns_pieces() {
    let mut file: File<Vec<u8>, CHUNK> = File::new(metadata(5 * 1024)).unwrap();
    assert_eq!(file.get_piece(&FilePieceIdx(1)), Ok(None));
    assert_eq!(
        file.set_piece(&FilePieceIdx(1), &[5; FILE_PIECE_SIZE]),
        Ok(FileStateSetStatus::JustSet)
    );
    assert_eq!(
        file.set_piece(&FilePieceIdx(2), &[6; FILE_PIECE_SIZE]),
        Ok(FileStateSetStatus::JustSet)
    );
    assert_eq!(
        file.set_piece(&FilePieceIdx(1), &[9; FILE_PIECE_SIZE]),
        Ok(FileStateSetStatus::AlreadySet)
    );
    assert_eq!(file.get_piece(&FilePieceIdx(1)), Ok(Some(vec![5; FILE_PIECE_SIZE])));
    assert_eq!(file.get_piece(&FilePieceIdx(2)), Ok(Some(vec![6; FILE_PIECE_SIZE])));
    assert_eq!(file.get_piece(&FilePieceIdx(0)), Ok(None));
    assert_eq!(file.has_piece(&FilePieceIdx(1)), Ok(true));
    assert_eq!(file.state().num_available(), 2);
    assert_eq!(
        file.to_blob(),
        Err(FileToBlobError::NotComplete { available: 2, missing: 3 })
    );
}

#[test]
fn file_rejects_an_index_out_of_range() {
    let mut file: File<Vec<u8>, CHUNK> = File::new(metadata(2048)).unwrap();
    assert_eq!(
        file.has_piece(&FilePieceIdx(2)),
        Err(FileHasPieceError::HasPieceError(FileStatePieceError::PieceIndexOutOfRange))
    );
    assert_eq!(
        file.get_piece(&FilePieceIdx(2)),
        Err(FileGetPieceError::HasPieceError(FileStatePieceError::PieceIndexOutOfRange))
    );
    assert_eq!(
        file.set_piece(&FilePieceIdx(2), &[0; FILE_PIECE_SIZE]),
        Err(FileSetPieceError::AddPieceError(FileStatePieceError::PieceIndexOutOfRange))
    );
}

#[test]
fn file_from_complete_bytes_has_every_piece_and_the_digest() {
    let file: File<Vec<u8>, CHUNK> = File::from_file("abc.txt".to_owned(), b"abc").unwrap();
    assert_eq!(
        file.sha256().to_hex(),
        "BA7816BF8F01CFEA414140DE5DAE2223B00361A396177A9CB410FF61F20015AD"
    );
    assert_eq!(file.name(), "abc.txt");
    assert_eq!(file.len(), FileLen(3));
    assert_eq!(file.num_pieces(), 1);
    assert!(file.state().is_complete());
    assert_eq!(file.get_piece(&FilePieceIdx(0)), Ok(Some(b"abc".to_vec())));

    let bytes: Vec<u8> = (0..5000u32).map(|i| (i % 251) as u8).collect();
    let file: File<Vec<u8>, CHUNK> = File::from_file("big".to_owned(), &bytes).unwrap();
    assert_eq!(file.num_pieces(), 5);
    assert_eq!(file.get_piece(&FilePieceIdx(2)), Ok(Some(bytes[2048..3072].to_vec())));
    assert_eq!(file.get_piece(&FilePieceIdx(4)), Ok(Some(bytes[4096..].to_vec())));
    assert_eq!(file.to_blob(), Ok(bytes));
}

#[test]
fn file_assembled_from_pieces_gives_its_bytes_back() {
    let bytes: Vec<u8> = (0..3000u32).map(|i| (i % 7) as u8).collect();
    let mut file: File<Vec<u8>, CHUNK> = File::new(metadata(3000)).unwrap();
    file.set_piece(&FilePieceIdx(2), &bytes[2048..]).unwrap();
    file.set_piece(&FilePieceIdx(0), &bytes[..1024]).unwrap();
    file.set_piece(&FilePieceIdx(1), &bytes[1024..2048]).unwrap();
    assert!(file.state().is_complete());
    assert_eq!(file.to_blob(), Ok(bytes));
}

#[test]
fn sha256_is_shown_in_upper_case_hex() {
    let mut digest = [0u8; 32];
    digest[0] = 0x0F;
    digest[1] = 0xA0;
    digest[31] = 0x9C;
    let text = Sha256(digest).to_hex();
    assert_eq!(text.len(), 64);
    assert!(text.starts_with("0FA000"));
    assert!(text.ends_with("009C"));
    assert!(Sha256(digest).same(&Sha256(digest)));
    assert!(!Sha256(digest).same(&Sha256([0; 32])));
}
