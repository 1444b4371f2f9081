//! Piece indices and the per-piece bookkeeping of the sharing queues.
use vstd::prelude::*;

verus! {

/// The number of bytes in every piece of a file but the last: the largest
/// payload that fits one datagram of the transport.
pub const FILE_PIECE_SIZE: usize = 1024;

/// The position of a piece in its file.
#[derive(Clone, Copy, Debug, PartialEq, Eq, Structural, PartialOrd, Ord, Hash)]
pub struct FilePieceIdx(pub usize);

/// The position at which the next probe for a receiver starts.
#[derive(Clone, Copy, Debug, PartialEq, Eq, Structural, PartialOrd, Ord, Hash)]
pub struct PiecePeerShift(pub usize);

/// How many remote peers are known to hold a piece.
#[derive(Clone, Copy, Debug, PartialEq, Eq, Structural, PartialOrd, Ord, Hash)]
pub struct PieceNumConfirmedOwners(pub usize);

/// How many remote peers hold a piece or have been sent it.
#[derive(Clone, Copy, Debug, PartialEq, Eq, Structural, PartialOrd, Ord, Hash)]
pub struct PieceNumPossibleOwners(pub usize);

/// What the sharing queues record about one piece.
#[derive(Clone, Copy, Debug, PartialEq, Eq, Structural)]
pub struct FilePieceData {
    pub peer_shift: PiecePeerShift,
    pub num_confirmed_owners: PieceNumConfirmedOwners,
    pub num_possible_owners: PieceNumPossibleOwners,
}

} // verus!
