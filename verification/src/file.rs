//! The contents of one file, kept in chunks, with the bitmap of the pieces
//! that are present.
use vstd::prelude::*;
use vstd::arithmetic::div_mod::{lemma_fundamental_div_mod, lemma_mod_bound};
use vstd::slice::slice_subrange;
use crate::bits::max_bits;
use crate::digest::{sha256, sha256_digest};
use crate::file_chunk::FileChunk;
use crate::file_metadata::{FileLen, FileMetadata, FileMetadataView};
use crate::file_piece::{FilePieceIdx, FILE_PIECE_SIZE};
use crate::file_state::{FileState, FileStatePieceError, FileStateSetStatus};
use crate::protocol::Sha256;

verus! {

/// The default size of a chunk: one mebibyte, a whole number of pieces.
pub const FILE_CHUNK_SIZE: usize = 1048576;

/// The file has more pieces than a bitmap can hold.
#[derive(Clone, Copy, Debug, PartialEq, Eq, Structural)]
pub enum NewFileError {
    SizeIsTooLarge { len: FileLen },
}

/// The file has more pieces than a bitmap can hold.
#[derive(Clone, Copy, Debug, PartialEq, Eq, Structural)]
pub enum FileFromError {
    SizeIsTooLarge { len: FileLen },
}

/// The contents were asked for while pieces are missing.
#[derive(Clone, Copy, Debug, PartialEq, Eq, Structural)]
pub enum FileToBlobError {
    NotComplete { available: usize, missing: usize },
}

/// `has_piece` was asked about a piece that the file does not have.
#[derive(Clone, Copy, Debug, PartialEq, Eq, Structural)]
pub enum FileHasPieceError {
    HasPieceError(FileStatePieceError),
}

/// `get_piece` was asked for a piece that the file does not have.
#[derive(Clone, Copy, Debug, PartialEq, Eq, Structural)]
pub enum FileGetPieceError {
    HasPieceError(FileStatePieceError),
}

/// `set_piece` was given a piece that the file does not have, or bytes of
/// the wrong length for the piece.
#[derive(Clone, Copy, Debug, PartialEq, Eq, Structural)]
pub enum FileSetPieceError {
    AddPieceError(FileStatePieceError),
    InvalidPieceLen { expected: usize },
}

/// The number of pieces of a file of `len` bytes.
pub open spec fn num_pieces_of(len: u64) -> int {
    (len + 1023) / 1024
}

/// The length of piece `piece` of a file of `len` bytes: a full piece, or
/// what is left of the file for the last one.
pub open spec fn piece_len_of(len: u64, piece: int) -> int {
    if len - piece * 1024 < 1024 {
        len - piece * 1024
    } else {
        1024
    }
}

/// The last piece of a file holds what the pieces before it leave over, and
/// every other piece is full.
pub proof fn lemma_piece_len(len: u64, piece: int)
    requires
        0 <= piece < num_pieces_of(len),
    ensures
        0 < piece_len_of(len, piece) <= 1024,
        piece * 1024 < len,
        piece < num_pieces_of(len) - 1 ==> piece_len_of(len, piece) == 1024,
        piece == num_pieces_of(len) - 1 ==> piece_len_of(len, piece) == len - 1024 * (
        num_pieces_of(len) - 1),
        piece == num_pieces_of(len) - 1 && len % 1024 != 0 ==> piece_len_of(len, piece) != 1024,
{
    let n = num_pieces_of(len);
    lemma_fundamental_div_mod(len + 1023, 1024);
    lemma_mod_bound(len + 1023, 1024);
    lemma_fundamental_div_mod(len as int, 1024);
    lemma_mod_bound(len as int, 1024);
}

/// Where a piece lies: in which chunk, and from which offset in it.
pub open spec fn piece_chunk(chunk_size: int, piece: int) -> int {
    piece / (chunk_size / 1024)
}

pub open spec fn piece_offset(chunk_size: int, piece: int) -> int {
    (piece % (chunk_size / 1024)) * 1024
}

/// The length of chunk `chunk` of a file of `len` bytes.
pub open spec fn chunk_len_of(len: u64, chunk_size: int, chunk: int) -> int {
    if len - chunk * chunk_size < chunk_size {
        len - chunk * chunk_size
    } else {
        chunk_size
    }
}

/// A piece lies within one chunk.
pub proof fn lemma_piece_location(len: u64, chunk_size: int, piece: int)
    requires
        chunk_size > 0,
        chunk_size % 1024 == 0,
        0 <= piece < num_pieces_of(len),
    ensures
        chunk_size / 1024 > 0,
        0 <= piece_chunk(chunk_size, piece),
        piece_chunk(chunk_size, piece) * chunk_size < len,
        piece_chunk(chunk_size, piece) * chunk_size + piece_offset(chunk_size, piece) == piece
            * 1024,
        0 <= piece_offset(chunk_size, piece),
        piece_offset(chunk_size, piece) + 1024 <= chunk_size,
        piece_offset(chunk_size, piece) + piece_len_of(len, piece) <= chunk_len_of(
            len,
            chunk_size,
            piece_chunk(chunk_size, piece),
        ),
{
    lemma_piece_len(len, piece);
    let ppc = chunk_size / 1024;
    lemma_fundamental_div_mod(chunk_size, 1024);
    assert(chunk_size == 1024 * ppc);
    assert(ppc > 0);
    lemma_fundamental_div_mod(piece, ppc);
    lemma_mod_bound(piece, ppc);
    let c = piece / ppc;
    let m = piece % ppc;
    assert(c >= 0) by (nonlinear_arith)
        requires
            piece >= 0,
            ppc > 0,
            c == piece / ppc,
    ;
    assert(c * chunk_size + m * 1024 == piece * 1024) by (nonlinear_arith)
        requires
            piece == ppc * c + m,
            chunk_size == 1024 * ppc,
    ;
}

/// A chunk that starts inside the file is one of the chunks that cover it.
pub proof fn lemma_chunk_in_range(len: u64, chunk_size: int, chunks: int, chunk: int)
    requires
        chunk_size > 0,
        chunks * chunk_size >= len,
        chunk * chunk_size < len,
    ensures
        chunk < chunks,
{
    if chunk >= chunks {
        assert(chunk * chunk_size >= chunks * chunk_size) by (nonlinear_arith)
            requires
                chunk >= chunks,
                chunk_size > 0,
        ;
    }
}

/// Two different pieces of one chunk do not overlap.
pub proof fn lemma_pieces_apart(chunk_size: int, a: int, b: int)
    requires
        chunk_size > 0,
        chunk_size % 1024 == 0,
        0 <= a,
        0 <= b,
        a != b,
        piece_chunk(chunk_size, a) == piece_chunk(chunk_size, b),
    ensures
        piece_offset(chunk_size, a) + 1024 <= piece_offset(chunk_size, b) || piece_offset(
            chunk_size,
            b,
        ) + 1024 <= piece_offset(chunk_size, a),
{
    let ppc = chunk_size / 1024;
    lemma_fundamental_div_mod(chunk_size, 1024);
    assert(ppc > 0);
    lemma_fundamental_div_mod(a, ppc);
    lemma_fundamental_div_mod(b, ppc);
    assert(a % ppc != b % ppc);
}

/// One file: its metadata, its contents in chunks of `CHUNK_SIZE` bytes, and
/// the bitmap of the pieces that are present.
#[derive(Debug)]
pub struct File<C, const CHUNK_SIZE: usize> {
    metadata: FileMetadata,
    chunks: Vec<C>,
    num_pieces: usize,
    state: FileState,
}

impl<C: FileChunk, const CHUNK_SIZE: usize> File<C, CHUNK_SIZE> {
    /// The metadata as plain values.
    pub closed spec fn metadata_view(&self) -> FileMetadataView {
        self.metadata@
    }

    /// The length of the file in bytes.
    pub open spec fn spec_len(&self) -> u64 {
        self.metadata_view().len
    }

    /// The number of pieces of the file.
    pub open spec fn spec_num_pieces(&self) -> int {
        num_pieces_of(self.spec_len())
    }

    /// Which pieces are present.
    pub closed spec fn local(&self) -> Seq<bool> {
        self.state@
    }

    /// The bytes that the storage holds for a piece.
    pub closed spec fn piece(&self, piece: int) -> Seq<u8> {
        let offset = piece_offset(CHUNK_SIZE as int, piece);
        self.chunks@[piece_chunk(CHUNK_SIZE as int, piece)].bytes().subrange(
            offset,
            offset + piece_len_of(self.spec_len(), piece),
        )
    }

    /// Every chunk starts inside the file.
    pub closed spec fn chunks_tight(&self) -> bool {
        forall|chunk: int|
            0 <= chunk < self.chunks@.len() ==> (#[trigger] self.chunks@[chunk]).bytes().len() > 0
    }

    /// The chunks cover the file, and the counters agree with the bitmap.
    pub closed spec fn storage_wf(&self) -> bool {
        &&& self.num_pieces == self.spec_num_pieces()
        &&& self.state.wf()
        &&& self.chunks@.len() * CHUNK_SIZE >= self.spec_len()
        &&& self.chunks_tight()
        &&& forall|chunk: int|
            0 <= chunk < self.chunks@.len() ==> (#[trigger] self.chunks@[chunk]).bytes().len()
                == chunk_len_of(self.spec_len(), CHUNK_SIZE as int, chunk)
    }

    /// A chunk is a whole number of pieces, the bitmap has a bit for each
    /// piece, and the storage is in order.
    pub open spec fn wf(&self) -> bool {
        &&& CHUNK_SIZE > 0
        &&& CHUNK_SIZE % 1024 == 0
        &&& self.local().len() == self.spec_num_pieces()
        &&& self.spec_num_pieces() <= max_bits()
        &&& self.storage_wf()
    }

    /// An empty store for the file that the metadata describes: no piece
    /// present, every byte zero.
    pub fn new(metadata: FileMetadata) -> (r: Result<Self, NewFileError>)
        requires
            CHUNK_SIZE > 0,
            CHUNK_SIZE % 1024 == 0,
        ensures
            match r {
                Ok(file) => {
                    &&& num_pieces_of(metadata@.len) <= max_bits()
                    &&& file.wf()
                    &&& file.metadata_view() == metadata@
                    &&& file.local() == Seq::new(
                        num_pieces_of(metadata@.len) as nat,
                        |i: int| false,
                    )
                },
                Err(err) => {
                    &&& num_pieces_of(metadata@.len) > max_bits()
                    &&& err == NewFileError::SizeIsTooLarge { len: FileLen(metadata@.len) }
                },
            },
    {
        let len = metadata.len();
        let num_pieces = match Self::count_pieces(len.0) {
            Some(num_pieces) => num_pieces,
            None => {
                return Err(NewFileError::SizeIsTooLarge { len });
            },
        };
        let chunks = Self::zeroed_chunks(len.0);
        let state = FileState::from_missing(num_pieces);
        Ok(Self { metadata, chunks, num_pieces, state })
    }

    /// The number of pieces of a file of `len` bytes, when a bitmap can hold
    /// that many.
    fn count_pieces(len: u64) -> (r: Option<usize>)
        ensures
            match r {
                Some(num_pieces) => num_pieces == num_pieces_of(len) && num_pieces <= max_bits(),
                None => num_pieces_of(len) > max_bits(),
            },
    {
        let whole: u64 = len / 1024;
        let num_pieces: u64 = if len % 1024 == 0 {
            whole
        } else {
            whole + 1
        };
        proof {
            lemma_fundamental_div_mod(len + 1023, 1024);
            lemma_mod_bound(len + 1023, 1024);
            lemma_fundamental_div_mod(len as int, 1024);
            lemma_mod_bound(len as int, 1024);
        }
        let limit: usize = usize::MAX / 8;
        if num_pieces > limit as u64 {
            None
        } else {
            Some(num_pieces as usize)
        }
    }

    /// Chunks of zero bytes that cover a file of `len` bytes.
    fn zeroed_chunks(len: u64) -> (chunks: Vec<C>)
        requires
            CHUNK_SIZE > 0,
        ensures
            chunks@.len() * CHUNK_SIZE >= len,
            forall|chunk: int|
                0 <= chunk < chunks@.len() ==> (#[trigger] chunks@[chunk]).bytes()
                    == Seq::new(
                    chunk_len_of(len, CHUNK_SIZE as int, chunk) as nat,
                    |i: int| 0u8,
                ) && chunk_len_of(len, CHUNK_SIZE as int, chunk) > 0,
    {
        let mut chunks: Vec<C> = Vec::new();
        let mut start: u64 = 0;
        assert(chunks@.len() * CHUNK_SIZE == 0) by (nonlinear_arith)
            requires
                chunks@.len() == 0,
        ;
        while start < len
            invariant
                CHUNK_SIZE > 0,
                start <= len,
                start == len || start == chunks@.len() * CHUNK_SIZE,
                start == len ==> chunks@.len() * CHUNK_SIZE >= len,
                forall|chunk: int|
                    0 <= chunk < chunks@.len() ==> (#[trigger] chunks@[chunk]).bytes()
                        == Seq::new(
                        chunk_len_of(len, CHUNK_SIZE as int, chunk) as nat,
                        |i: int| 0u8,
                    ) && chunk_len_of(len, CHUNK_SIZE as int, chunk) > 0,
            decreases len - start,
        {
            let left: u64 = len - start;
            let this: usize = if left < CHUNK_SIZE as u64 {
                left as usize
            } else {
                CHUNK_SIZE
            };
            let ghost at = chunks@.len() as int;
            assert(this == chunk_len_of(len, CHUNK_SIZE as int, at));
            chunks.push(C::with_len(this));
            start = start + this as u64;
            proof {
                assert(at * CHUNK_SIZE + CHUNK_SIZE == (at + 1) * CHUNK_SIZE) by (nonlinear_arith);
            }
        }
        chunks
    }

    /// The metadata of the file.
    pub fn metadata(&self) -> (r: &FileMetadata)
        ensures
            r@ == self.metadata_view(),
    {
        &self.metadata
    }

    /// The name of the file.
    pub fn name(&self) -> (r: &str)
        ensures
            r@ == self.metadata_view().name,
    {
        self.metadata.name()
    }

    /// The length of the file in bytes.
    pub fn len(&self) -> (r: FileLen)
        ensures
            r.0 == self.spec_len(),
    {
        self.metadata.len()
    }

    /// The digest of the whole file.
    pub fn sha256(&self) -> (r: Sha256)
        ensures
            r.0@ == self.metadata_view().sha256,
    {
        self.metadata.sha256()
    }

    /// The number of pieces of the file.
    pub fn num_pieces(&self) -> (r: usize)
        requires
            self.wf(),
        ensures
            r == self.spec_num_pieces(),
    {
        self.num_pieces
    }

    /// The bitmap of the pieces that are present.
    pub fn state(&self) -> (r: &FileState)
        requires
            self.wf(),
        ensures
            r.wf(),
            r@ == self.local(),
    {
        &self.state
    }

    /// The length that the bytes of a piece must have: a full piece, or the
    /// tail of the file for the last piece.
    pub fn piece_len(&self, piece_idx: &FilePieceIdx) -> (r: usize)
        requires
            self.wf(),
            piece_idx.0 < self.spec_num_pieces(),
        ensures
            r == piece_len_of(self.spec_len(), piece_idx.0 as int),
            0 < r <= 1024,
    {
        proof {
            lemma_piece_len(self.spec_len(), piece_idx.0 as int);
        }
        let offset: u64 = piece_idx.0 as u64 * 1024;
        let left: u64 = self.metadata.len().0 - offset;
        if left < 1024 {
            left as usize
        } else {
            1024
        }
    }

    /// Whether the piece is present.
    pub fn has_piece(&self, piece_idx: &FilePieceIdx) -> (r: Result<bool, FileHasPieceError>)
        requires
            self.wf(),
        ensures
            r == if piece_idx.0 < self.spec_num_pieces() {
                Ok::<bool, FileHasPieceError>(self.local()[piece_idx.0 as int])
            } else {
                Err(FileHasPieceError::HasPieceError(FileStatePieceError::PieceIndexOutOfRange))
            },
    {
        match self.state.has(piece_idx) {
            Ok(has) => Ok(has),
            Err(err) => Err(FileHasPieceError::HasPieceError(err)),
        }
    }

    /// The bytes of a piece that is present; `None` for one that is not.
    pub fn get_piece(&self, piece_idx: &FilePieceIdx) -> (r: Result<
        Option<Vec<u8>>,
        FileGetPieceError,
    >)
        requires
            self.wf(),
        ensures
            piece_idx.0 >= self.spec_num_pieces() ==> r == Err::<
                Option<Vec<u8>>,
                FileGetPieceError,
            >(FileGetPieceError::HasPieceError(FileStatePieceError::PieceIndexOutOfRange)),
            piece_idx.0 < self.spec_num_pieces() && !self.local()[piece_idx.0 as int] ==> r
                == Ok::<Option<Vec<u8>>, FileGetPieceError>(None),
            piece_idx.0 < self.spec_num_pieces() && self.local()[piece_idx.0 as int] ==> r is Ok
                && r->Ok_0 is Some && r->Ok_0->0@ == self.piece(piece_idx.0 as int),
    {
        match self.state.has(piece_idx) {
            Err(err) => Err(FileGetPieceError::HasPieceError(err)),
            Ok(false) => Ok(None),
            Ok(true) => {
                proof {
                    lemma_piece_location(
                        self.spec_len(),
                        CHUNK_SIZE as int,
                        piece_idx.0 as int,
                    );
                    lemma_chunk_in_range(
                        self.spec_len(),
                        CHUNK_SIZE as int,
                        self.chunks@.len() as int,
                        piece_chunk(CHUNK_SIZE as int, piece_idx.0 as int),
                    );
                }
                let pieces_in_chunk: usize = CHUNK_SIZE / FILE_PIECE_SIZE;
                let chunk_idx: usize = piece_idx.0 / pieces_in_chunk;
                let offset: usize = (piece_idx.0 % pieces_in_chunk) * FILE_PIECE_SIZE;
                let len = self.piece_len(piece_idx);
                Ok(Some(self.chunks[chunk_idx].get(offset, len)))
            },
        }
    }

    /// Stores the bytes of a piece that is not present yet and marks it
    /// present. A piece that is present already keeps its bytes.
    pub fn set_piece(&mut self, piece_idx: &FilePieceIdx, data: &[u8]) -> (r: Result<
        FileStateSetStatus,
        FileSetPieceError,
    >)
        requires
            old(self).wf(),
        ensures
            final(self).wf(),
            final(self).metadata_view() == old(self).metadata_view(),
            piece_idx.0 >= old(self).spec_num_pieces() ==> {
                &&& r == Err::<FileStateSetStatus, FileSetPieceError>(
                    FileSetPieceError::AddPieceError(FileStatePieceError::PieceIndexOutOfRange),
                )
                &&& *final(self) == *old(self)
            },
            piece_idx.0 < old(self).spec_num_pieces() && data@.len() != piece_len_of(
                old(self).spec_len(),
                piece_idx.0 as int,
            ) ==> {
                &&& r == Err::<FileStateSetStatus, FileSetPieceError>(
                    FileSetPieceError::InvalidPieceLen {
                        expected: piece_len_of(old(self).spec_len(), piece_idx.0 as int) as usize,
                    },
                )
                &&& *final(self) == *old(self)
            },
            piece_idx.0 < old(self).spec_num_pieces() && data@.len() == piece_len_of(
                old(self).spec_len(),
                piece_idx.0 as int,
            ) && old(self).local()[piece_idx.0 as int] ==> {
                &&& r == Ok::<FileStateSetStatus, FileSetPieceError>(
                    FileStateSetStatus::AlreadySet,
                )
                &&& *final(self) == *old(self)
            },
            piece_idx.0 < old(self).spec_num_pieces() && data@.len() == piece_len_of(
                old(self).spec_len(),
                piece_idx.0 as int,
            ) && !old(self).local()[piece_idx.0 as int] ==> {
                &&& r == Ok::<FileStateSetStatus, FileSetPieceError>(FileStateSetStatus::JustSet)
                &&& final(self).local() == old(self).local().update(piece_idx.0 as int, true)
                &&& final(self).piece(piece_idx.0 as int) == data@
                &&& forall|other: int|
                    0 <= other < old(self).spec_num_pieces() && other != piece_idx.0
                        ==> #[trigger] final(self).piece(other) == old(self).piece(other)
            },
    {
        let has = match self.state.has(piece_idx) {
            Ok(has) => has,
            Err(err) => {
                return Err(FileSetPieceError::AddPieceError(err));
            },
        };
        let expected = self.piece_len(piece_idx);
        if data.len() != expected {
            return Err(FileSetPieceError::InvalidPieceLen { expected });
        }
        if has {
            return Ok(FileStateSetStatus::AlreadySet);
        }
        proof {
            lemma_piece_location(self.spec_len(), CHUNK_SIZE as int, piece_idx.0 as int);
            lemma_chunk_in_range(
                self.spec_len(),
                CHUNK_SIZE as int,
                self.chunks@.len() as int,
                piece_chunk(CHUNK_SIZE as int, piece_idx.0 as int),
            );
        }
        let pieces_in_chunk: usize = CHUNK_SIZE / FILE_PIECE_SIZE;
        let chunk_idx: usize = piece_idx.0 / pieces_in_chunk;
        let offset: usize = (piece_idx.0 % pieces_in_chunk) * FILE_PIECE_SIZE;
        self.chunks[chunk_idx].set(offset, data);
        let _ = self.state.set(piece_idx);
        proof {
            let me = piece_idx.0 as int;
            assert(self.piece(me) =~= data@);
            assert forall|other: int|
                0 <= other < old(self).spec_num_pieces() && other != me implies #[trigger] self.piece(
                other,
            ) == old(self).piece(other) by {
                lemma_piece_location(self.spec_len(), CHUNK_SIZE as int, other);
                lemma_chunk_in_range(
                    self.spec_len(),
                    CHUNK_SIZE as int,
                    self.chunks@.len() as int,
                    piece_chunk(CHUNK_SIZE as int, other),
                );
                if piece_chunk(CHUNK_SIZE as int, other) == chunk_idx {
                    lemma_pieces_apart(CHUNK_SIZE as int, me, other);
                    lemma_piece_len(self.spec_len(), other);
                }
                assert(self.piece(other) =~= old(self).piece(other));
            }
        }
        Ok(FileStateSetStatus::JustSet)
    }

    /// The byte of the file at a position, as the storage holds it.
    pub closed spec fn byte_at(&self, at: int) -> u8 {
        self.chunks@[at / (CHUNK_SIZE as int)].bytes()[at % (CHUNK_SIZE as int)]
    }

    /// The bytes of the whole file, as the storage holds them.
    pub open spec fn contents(&self) -> Seq<u8> {
        Seq::new(self.spec_len() as nat, |at: int| self.byte_at(at))
    }

    /// A piece is the part of the contents that starts at its index times
    /// the size of a piece.
    pub proof fn lemma_piece_of_contents(&self, piece: int)
        requires
            self.wf(),
            0 <= piece < self.spec_num_pieces(),
        ensures
            self.piece(piece) == self.contents().subrange(
                piece * 1024,
                piece * 1024 + piece_len_of(self.spec_len(), piece),
            ),
    {
        let len = self.spec_len();
        let size = CHUNK_SIZE as int;
        lemma_piece_location(len, size, piece);
        lemma_piece_len(len, piece);
        let chunk = piece_chunk(size, piece);
        let offset = piece_offset(size, piece);
        lemma_chunk_in_range(len, size, self.chunks@.len() as int, chunk);
        let part = self.contents().subrange(
            piece * 1024,
            piece * 1024 + piece_len_of(len, piece),
        );
        assert forall|at: int| 0 <= at < part.len() implies part[at] == self.piece(piece)[at] by {
            let place = piece * 1024 + at;
            assert(place == chunk * size + (offset + at));
            lemma_fundamental_div_mod(place, size);
            assert(place / size == chunk && place % size == offset + at) by (nonlinear_arith)
                requires
                    place == chunk * size + (offset + at),
                    0 <= offset + at < size,
                    size > 0,
            ;
        }
        assert(self.piece(piece) =~= part);
    }

    /// The store of a file whose bytes are all at hand: every piece is
    /// present, and the digest in the metadata is that of the bytes.
    pub fn from_file(name: String, bytes: &[u8]) -> (r: Result<Self, FileFromError>)
        requires
            CHUNK_SIZE > 0,
            CHUNK_SIZE % 1024 == 0,
        ensures
            match r {
                Ok(file) => {
                    &&& file.wf()
                    &&& file.metadata_view() == (FileMetadataView {
                        sha256: sha256_digest(bytes@),
                        name: name@,
                        len: bytes@.len() as u64,
                    })
                    &&& file.local() == Seq::new(file.spec_num_pieces() as nat, |i: int| true)
                    &&& file.contents() == bytes@
                },
                Err(err) => {
                    &&& num_pieces_of(bytes@.len() as u64) > max_bits()
                    &&& err == FileFromError::SizeIsTooLarge { len: FileLen(bytes@.len() as u64) }
                },
            },
    {
        let len = FileLen(bytes.len() as u64);
        let num_pieces = match Self::count_pieces(len.0) {
            Some(num_pieces) => num_pieces,
            None => {
                return Err(FileFromError::SizeIsTooLarge { len });
            },
        };
        let mut chunks: Vec<C> = Vec::new();
        let mut start: usize = 0;
        assert(chunks@.len() * CHUNK_SIZE == 0) by (nonlinear_arith)
            requires
                chunks@.len() == 0,
        ;
        while start < bytes.len()
            invariant
                CHUNK_SIZE > 0,
                len.0 == bytes@.len(),
                start <= bytes@.len(),
                start == bytes@.len() || start == chunks@.len() * CHUNK_SIZE,
                start == bytes@.len() ==> chunks@.len() * CHUNK_SIZE >= bytes@.len(),
                forall|chunk: int|
                    0 <= chunk < chunks@.len() ==> (#[trigger] chunks@[chunk]).bytes()
                        == bytes@.subrange(
                        chunk * CHUNK_SIZE,
                        chunk * CHUNK_SIZE + chunk_len_of(len.0, CHUNK_SIZE as int, chunk),
                    ) && chunk_len_of(len.0, CHUNK_SIZE as int, chunk) > 0 && chunk * CHUNK_SIZE
                        + chunk_len_of(len.0, CHUNK_SIZE as int, chunk) <= bytes@.len(),
            decreases bytes@.len() - start,
        {
            let left: usize = bytes.len() - start;
            let this: usize = if left < CHUNK_SIZE {
                left
            } else {
                CHUNK_SIZE
            };
            let ghost at = chunks@.len() as int;
            assert(this == chunk_len_of(len.0, CHUNK_SIZE as int, at));
            let mut chunk = C::with_len(this);
            chunk.set(0, slice_subrange(bytes, start, start + this));
            assert(chunk.bytes() =~= bytes@.subrange(start as int, start + this));
            let ghost before = chunks@;
            chunks.push(chunk);
            proof {
                assert(at * CHUNK_SIZE + CHUNK_SIZE == (at + 1) * CHUNK_SIZE) by (nonlinear_arith);
                assert forall|other: int| 0 <= other < chunks@.len() implies (
                #[trigger] chunks@[other]).bytes() == bytes@.subrange(
                    other * CHUNK_SIZE,
                    other * CHUNK_SIZE + chunk_len_of(len.0, CHUNK_SIZE as int, other),
                ) && chunk_len_of(len.0, CHUNK_SIZE as int, other) > 0 && other * CHUNK_SIZE
                    + chunk_len_of(len.0, CHUNK_SIZE as int, other) <= bytes@.len() by {
                    if other < at {
                        assert(chunks@[other] == before[other]);
                    }
                }
            }
            start = start + this;
        }
        let digest = sha256(bytes);
        let metadata = FileMetadata::new(Sha256(digest), name, len);
        let state = FileState::from_complete(num_pieces);
        let file = Self { metadata, chunks, num_pieces, state };
        proof {
            let size = CHUNK_SIZE as int;
            assert forall|at: int| 0 <= at < bytes@.len() implies file.byte_at(at) == bytes@[at] by {
                let chunk = at / size;
                lemma_fundamental_div_mod(at, size);
                lemma_mod_bound(at, size);
                assert(chunk >= 0 && chunk * size <= at) by (nonlinear_arith)
                    requires
                        at == size * chunk + at % size,
                        0 <= at % size < size,
                        at >= 0,
                        size > 0,
                ;
                lemma_chunk_in_range(len.0, size, file.chunks@.len() as int, chunk);
                assert(file.chunks@[chunk].bytes() == bytes@.subrange(
                    chunk * size,
                    chunk * size + chunk_len_of(len.0, size, chunk),
                ));
            }
            assert(file.contents() =~= bytes@);
        }
        Ok(file)
    }

    /// The bytes of the whole file, once every piece is present.
    pub fn to_blob(&self) -> (r: Result<Vec<u8>, FileToBlobError>)
        requires
            self.wf(),
        ensures
            match r {
                Ok(bytes) => {
                    &&& bytes@ == self.contents()
                    &&& forall|i: int| 0 <= i < self.local().len() ==> self.local()[i]
                },
                Err(err) => {
                    &&& exists|i: int| 0 <= i < self.local().len() && !self.local()[i]
                    &&& err == FileToBlobError::NotComplete {
                        available: crate::bits::count_ones(self.local()) as usize,
                        missing: (self.local().len() - crate::bits::count_ones(
                            self.local(),
                        )) as usize,
                    }
                },
            },
    {
        if !self.state.is_complete() {
            return Err(
                FileToBlobError::NotComplete {
                    available: self.state.num_available(),
                    missing: self.state.num_missing(),
                },
            );
        }
        let mut out: Vec<u8> = Vec::new();
        let mut at: usize = 0;
        let ghost size = CHUNK_SIZE as int;
        let ghost len = self.spec_len() as int;
        assert(at * size == 0) by (nonlinear_arith)
            requires
                at == 0,
        ;
        proof {
            if self.chunks@.len() > 0 {
                self.lemma_chunk_starts_inside(0);
            }
        }
        while at < self.chunks.len()
            invariant
                self.wf(),
                size == CHUNK_SIZE,
                len == self.spec_len(),
                at <= self.chunks@.len(),
                out@.len() == if at * size < len {
                    at * size
                } else {
                    len
                },
                at < self.chunks@.len() ==> at * size < len,
                forall|b: int| 0 <= b < out@.len() ==> out@[b] == self.byte_at(b),
            decreases self.chunks@.len() - at,
        {
            let ghost before = out@;
            let total = self.chunks[at].get(0, Self::chunk_len(&self.chunks[at], self.metadata.len().0, at));
            let mut part = total;
            out.append(&mut part);
            proof {
                let this = chunk_len_of(self.spec_len(), size, at as int);
                assert((at + 1) * size == at * size + size) by (nonlinear_arith);
                assert forall|b: int| 0 <= b < out@.len() implies out@[b] == self.byte_at(b) by {
                    if b >= before.len() {
                        let within = b - before.len();
                        assert(b == at * size + within);
                        lemma_fundamental_div_mod(b, size);
                        assert(b / size == at && b % size == within) by (nonlinear_arith)
                            requires
                                b == at * size + within,
                                0 <= within < size,
                                size > 0,
                        ;
                    }
                }
                if at + 1 < self.chunks@.len() {
                    assert(self.chunks@[at + 1].bytes().len() == chunk_len_of(
                        self.spec_len(),
                        size,
                        at + 1,
                    ));
                    assert(chunk_len_of(self.spec_len(), size, at + 1) >= 0);
                    self.lemma_chunk_starts_inside(at + 1);
                }
            }
            at += 1;
        }
        proof {
            assert(self.chunks@.len() * size >= len);
            assert(out@ =~= self.contents());
        }
        Ok(out)
    }

    /// The length of a chunk, read off the file's length.
    fn chunk_len(chunk: &C, len: u64, at: usize) -> (r: usize)
        requires
            CHUNK_SIZE > 0,
            at * CHUNK_SIZE < len,
            chunk.bytes().len() == chunk_len_of(len, CHUNK_SIZE as int, at as int),
        ensures
            r == chunk.bytes().len(),
            0 < r <= CHUNK_SIZE,
    {
        proof {
            assert(at * CHUNK_SIZE <= u64::MAX);
        }
        let start: u64 = (at as u64) * (CHUNK_SIZE as u64);
        let left: u64 = len - start;
        if left < CHUNK_SIZE as u64 {
            left as usize
        } else {
            CHUNK_SIZE
        }
    }

    /// Every chunk starts inside the file.
    proof fn lemma_chunk_starts_inside(&self, chunk: int)
        requires
            self.wf(),
            0 <= chunk < self.chunks@.len(),
        ensures
            chunk * CHUNK_SIZE < self.spec_len(),
    {
        assert(self.chunks@[chunk].bytes().len() == chunk_len_of(
            self.spec_len(),
            CHUNK_SIZE as int,
            chunk,
        ));
    }
}

} // verus!
