//! The piece bitmap of one file on one peer, with its cardinality kept
//! alongside the bits.
use vstd::prelude::*;
use crate::bits::{
    bits_clone, bits_count_ones, bits_get, bits_len, bits_of, bits_repeat, bits_set, count_ones,
    lemma_count_ones_bound, lemma_count_ones_constant, lemma_count_ones_full,
    lemma_count_ones_none, lemma_count_ones_update, max_bits, PieceBits,
};
use crate::file_piece::FilePieceIdx;

verus! {

/// Which pieces of a file are present: one bit per piece, and the number of
/// set bits.
#[derive(Debug)]
pub struct FileState {
    raw: PieceBits,
    num_available: usize,
}

/// What `FileState::set` found.
#[derive(Clone, Copy, Debug, PartialEq, Eq, Structural, Hash)]
pub enum FileStateSetStatus {
    JustSet,
    AlreadySet,
}

/// What `FileState::unset` found.
#[derive(Clone, Copy, Debug, PartialEq, Eq, Structural, Hash)]
pub enum FileStateUnsetStatus {
    JustUnset,
    AlreadyUnset,
}

/// A piece index that is not below the bitmap's length.
#[derive(Clone, Copy, Debug, PartialEq, Eq, Structural)]
pub enum FileStatePieceError {
    PieceIndexOutOfRange,
}

impl FileStatePieceError {
    /// The message of the error.
    pub fn message(&self) -> (r: &'static str)
        ensures
            r@ == "piece index out of range"@,
    {
        "piece index out of range"
    }
}

impl View for FileState {
    type V = Seq<bool>;

    closed spec fn view(&self) -> Seq<bool> {
        bits_of(self.raw)
    }
}

impl FileState {
    /// The counter agrees with the bits.
    pub closed spec fn wf(&self) -> bool {
        self.num_available == count_ones(bits_of(self.raw))
    }

    /// The bitmap of a file without pieces.
    pub fn empty() -> (r: Self)
        ensures
            r.wf(),
            r@.len() == 0,
    {
        let raw = bits_repeat(false, 0);
        proof {
            lemma_count_ones_constant(0, false);
        }
        Self { raw, num_available: 0 }
    }

    /// A bitmap of `len` pieces, none present.
    pub fn from_missing(len: usize) -> (r: Self)
        requires
            len <= max_bits(),
        ensures
            r.wf(),
            r@ == Seq::new(len as nat, |i: int| false),
    {
        let raw = bits_repeat(false, len);
        proof {
            lemma_count_ones_constant(len as nat, false);
        }
        Self { raw, num_available: 0 }
    }

    /// A bitmap of `len` pieces, all present.
    pub fn from_complete(len: usize) -> (r: Self)
        requires
            len <= max_bits(),
        ensures
            r.wf(),
            r@ == Seq::new(len as nat, |i: int| true),
    {
        let raw = bits_repeat(true, len);
        proof {
            lemma_count_ones_constant(len as nat, true);
        }
        Self { raw, num_available: len }
    }

    /// Takes over a run of bits and counts the set ones.
    pub fn from_raw(raw: PieceBits) -> (r: Self)
        ensures
            r.wf(),
            r@ == raw@,
    {
        let num_available = bits_count_ones(&raw);
        Self { raw, num_available }
    }

    /// Builds the bitmap that has `bits[i]` at every `i`, or `None` when
    /// there are more bits than one allocation can address.
    pub fn from_bits(bits: &Vec<bool>) -> (r: Option<Self>)
        ensures
            r is Some <==> bits@.len() <= max_bits(),
            r is Some ==> r->0.wf() && r->0@ == bits@,
    {
        if bits.len() > usize::MAX / 8 {
            return None;
        }
        let mut state = Self::from_missing(bits.len());
        let mut i: usize = 0;
        while i < bits.len()
            invariant
                i <= bits.len(),
                state.wf(),
                state@.len() == bits@.len(),
                forall|j: int| 0 <= j < i ==> state@[j] == bits@[j],
                forall|j: int| i <= j < bits@.len() ==> !state@[j],
            decreases bits.len() - i,
        {
            if bits[i] {
                let _ = state.set(&FilePieceIdx(i));
            }
            i += 1;
        }
        assert(state@ =~= bits@);
        Some(state)
    }

    /// The bits, one `bool` per piece.
    pub fn to_vec(&self) -> (r: Vec<bool>)
        ensures
            r@ == self@,
    {
        let len = bits_len(&self.raw);
        let mut out: Vec<bool> = Vec::new();
        let mut i: usize = 0;
        while i < len
            invariant
                i <= len,
                len == self@.len(),
                out@.len() == i,
                forall|j: int| 0 <= j < i ==> out@[j] == self@[j],
            decreases len - i,
        {
            match bits_get(&self.raw, i) {
                Some(bit) => out.push(bit),
                None => {},
            }
            i += 1;
        }
        assert(out@ =~= self@);
        out
    }

    /// A second bitmap with the same bits.
    pub fn clone(&self) -> (r: Self)
        requires
            self.wf(),
        ensures
            r.wf(),
            r@ == self@,
    {
        Self { raw: bits_clone(&self.raw), num_available: self.num_available }
    }

    /// Whether no piece is present.
    pub fn is_missing(&self) -> (r: bool)
        requires
            self.wf(),
        ensures
            r <==> forall|i: int| 0 <= i < self@.len() ==> !self@[i],
    {
        proof {
            lemma_count_ones_none(self@);
        }
        self.num_available == 0
    }

    /// Whether every piece is present.
    pub fn is_complete(&self) -> (r: bool)
        requires
            self.wf(),
        ensures
            r <==> forall|i: int| 0 <= i < self@.len() ==> self@[i],
    {
        proof {
            lemma_count_ones_full(self@);
        }
        self.num_available == bits_len(&self.raw)
    }

    /// The number of pieces.
    pub fn len(&self) -> (r: usize)
        ensures
            r == self@.len(),
    {
        bits_len(&self.raw)
    }

    /// The number of pieces that are not present.
    pub fn num_missing(&self) -> (r: usize)
        requires
            self.wf(),
        ensures
            r == self@.len() - count_ones(self@),
    {
        proof {
            lemma_count_ones_bound(self@);
        }
        bits_len(&self.raw) - self.num_available
    }

    /// The number of pieces that are present, read from the counter.
    pub fn num_available(&self) -> (r: usize)
        requires
            self.wf(),
        ensures
            r == count_ones(self@),
    {
        self.num_available
    }

    /// The bits themselves.
    pub fn raw(&self) -> (r: &PieceBits)
        ensures
            r@ == self@,
    {
        &self.raw
    }

    /// Gives up the bits.
    pub fn into_raw(self) -> (r: PieceBits)
        ensures
            r@ == self@,
    {
        self.raw
    }

    /// Whether the piece is present.
    pub fn has(&self, piece_idx: &FilePieceIdx) -> (r: Result<bool, FileStatePieceError>)
        ensures
            r == if piece_idx.0 < self@.len() {
                Ok::<bool, FileStatePieceError>(self@[piece_idx.0 as int])
            } else {
                Err(FileStatePieceError::PieceIndexOutOfRange)
            },
    {
        match bits_get(&self.raw, piece_idx.0) {
            Some(bit) => Ok(bit),
            None => Err(FileStatePieceError::PieceIndexOutOfRange),
        }
    }

    /// Marks the piece present and says whether it was so before.
    pub fn set(&mut self, piece_idx: &FilePieceIdx) -> (r: Result<
        FileStateSetStatus,
        FileStatePieceError,
    >)
        requires
            old(self).wf(),
        ensures
            final(self).wf(),
            piece_idx.0 >= old(self)@.len() ==> r == Err::<FileStateSetStatus, FileStatePieceError>(
                FileStatePieceError::PieceIndexOutOfRange,
            ) && final(self)@ == old(self)@,
            piece_idx.0 < old(self)@.len() ==> final(self)@ == old(self)@.update(
                piece_idx.0 as int,
                true,
            ) && r == Ok::<FileStateSetStatus, FileStatePieceError>(
                if old(self)@[piece_idx.0 as int] {
                    FileStateSetStatus::AlreadySet
                } else {
                    FileStateSetStatus::JustSet
                },
            ),
    {
        match bits_get(&self.raw, piece_idx.0) {
            None => Err(FileStatePieceError::PieceIndexOutOfRange),
            Some(true) => {
                assert(self@.update(piece_idx.0 as int, true) =~= self@);
                Ok(FileStateSetStatus::AlreadySet)
            },
            Some(false) => {
                let len = bits_len(&self.raw);
                proof {
                    lemma_count_ones_update(self@, piece_idx.0 as int, true);
                    lemma_count_ones_bound(self@.update(piece_idx.0 as int, true));
                }
                bits_set(&mut self.raw, piece_idx.0, true);
                self.num_available += 1;
                Ok(FileStateSetStatus::JustSet)
            },
        }
    }

    /// Marks the piece absent and says whether it was so before.
    pub fn unset(&mut self, piece_idx: &FilePieceIdx) -> (r: Result<
        FileStateUnsetStatus,
        FileStatePieceError,
    >)
        requires
            old(self).wf(),
        ensures
            final(self).wf(),
            piece_idx.0 >= old(self)@.len() ==> r == Err::<
                FileStateUnsetStatus,
                FileStatePieceError,
            >(FileStatePieceError::PieceIndexOutOfRange) && final(self)@ == old(self)@,
            piece_idx.0 < old(self)@.len() ==> final(self)@ == old(self)@.update(
                piece_idx.0 as int,
                false,
            ) && r == Ok::<FileStateUnsetStatus, FileStatePieceError>(
                if old(self)@[piece_idx.0 as int] {
                    FileStateUnsetStatus::JustUnset
                } else {
                    FileStateUnsetStatus::AlreadyUnset
                },
            ),
    {
        match bits_get(&self.raw, piece_idx.0) {
            None => Err(FileStatePieceError::PieceIndexOutOfRange),
            Some(false) => {
                assert(self@.update(piece_idx.0 as int, false) =~= self@);
                Ok(FileStateUnsetStatus::AlreadyUnset)
            },
            Some(true) => {
                proof {
                    lemma_count_ones_update(self@, piece_idx.0 as int, false);
                }
                bits_set(&mut self.raw, piece_idx.0, false);
                self.num_available -= 1;
                Ok(FileStateUnsetStatus::JustUnset)
            },
        }
    }

    /// Keeps a piece only where `rhs` has it too. Positions past the end of
    /// `rhs` count as absent there.
    pub fn and_assign(&mut self, rhs: &Self)
        requires
            old(self).wf(),
        ensures
            final(self).wf(),
            final(self)@.len() == old(self)@.len(),
            forall|i: int|
                0 <= i < old(self)@.len() ==> #[trigger] final(self)@[i] == (old(self)@[i] && i
                    < rhs@.len() && rhs@[i]),
    {
        let len = self.len();
        let mut i: usize = 0;
        while i < len
            invariant
                i <= len,
                self.wf(),
                len == old(self)@.len(),
                self@.len() == len,
                forall|j: int|
                    0 <= j < i ==> #[trigger] self@[j] == (old(self)@[j] && j < rhs@.len()
                        && rhs@[j]),
                forall|j: int| i <= j < len ==> #[trigger] self@[j] == old(self)@[j],
            decreases len - i,
        {
            let keep = match bits_get(&rhs.raw, i) {
                Some(bit) => bit,
                None => false,
            };
            if !keep {
                let _ = self.unset(&FilePieceIdx(i));
            }
            i += 1;
        }
    }

    /// The bitmap that has a piece exactly where both bitmaps have it.
    /// Positions past the end of `rhs` count as absent there.
    pub fn bitand(self, rhs: &Self) -> (r: Self)
        requires
            self.wf(),
        ensures
            r.wf(),
            r@.len() == self@.len(),
            forall|i: int|
                0 <= i < self@.len() ==> #[trigger] r@[i] == (self@[i] && i < rhs@.len()
                    && rhs@[i]),
    {
        let mut state = self;
        state.and_assign(rhs);
        state
    }
}

} // verus!
