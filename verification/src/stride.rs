//! The order in which the peers of a file are tried as receivers of a
//! piece: a walk with a step and a start that depend on the piece alone.
use vstd::prelude::*;
use vstd::arithmetic::div_mod::{
    lemma_fundamental_div_mod, lemma_mod_bound, lemma_mod_multiples_vanish, lemma_mul_mod_noop,
    lemma_mul_mod_noop_left, lemma_small_mod,
};
use crate::digest::{fx_hash64, fx_hash64_usize};
use crate::file_piece::FilePieceIdx;

verus! {

/// The step of the walk: between one and the number of peers less one,
/// or one where there is a single peer.
pub open spec fn stride_multiplier(piece: int, num_peers: int) -> int {
    (fx_hash64(piece) / 0x1_0000_0000) % (if num_peers > 1 {
        num_peers - 1
    } else {
        1
    }) + 1
}

/// The start of the walk: the low half of the piece's hash.
pub open spec fn stride_offset(piece: int) -> int {
    fx_hash64(piece) % 0x1_0000_0000
}

/// The place among `num_peers` peers that the walk reaches at `shift`.
pub open spec fn stride_index(piece: int, num_peers: int, shift: int) -> int {
    (stride_multiplier(piece, num_peers) * (stride_offset(piece) + shift)) % num_peers
}

/// The walk stays among the peers, and with one peer it stays on that peer.
pub proof fn lemma_stride_index_bound(piece: int, num_peers: int, shift: int)
    requires
        num_peers > 0,
    ensures
        0 <= stride_index(piece, num_peers, shift) < num_peers,
        num_peers == 1 ==> stride_index(piece, num_peers, shift) == 0,
{
    lemma_mod_bound(
        stride_multiplier(piece, num_peers) * (stride_offset(piece) + shift),
        num_peers,
    );
}

/// What a step leaves over `num_peers` when it is taken `times` times.
pub open spec fn step_taken(step: int, times: int, num_peers: int) -> int {
    (step * times) % num_peers
}

/// Whether a step comes back to every place among `num_peers`: it does
/// when some number of steps moves on by one place.
pub open spec fn step_turns_round(step: int, num_peers: int) -> bool {
    exists|times: int| 0 <= times < num_peers && #[trigger] step_taken(step, times, num_peers) == 1int
        % num_peers
}

/// A walk whose step comes back to every place reaches each peer within
/// as many steps as there are peers, wherever it starts.
pub proof fn lemma_walk_reaches(piece: int, num_peers: int, start: int, place: int)
    requires
        num_peers > 0,
        0 <= place < num_peers,
        step_turns_round(stride_multiplier(piece, num_peers), num_peers),
    ensures
        exists|step: int|
            0 <= step < num_peers && #[trigger] stride_index(piece, num_peers, start + step)
                == place,
{
    let n = num_peers;
    let m = stride_multiplier(piece, n);
    let o = stride_offset(piece);
    let times = choose|times: int| 0 <= times < n && #[trigger] step_taken(m, times, n) == 1int % n;
    let wanted = times * place - o - start;
    let step = wanted % n;
    let laps = wanted / n;
    lemma_mod_bound(wanted, n);
    lemma_fundamental_div_mod(wanted, n);
    assert(o + start + step == times * place - n * laps);
    assert(m * (o + start + step) == n * (-(m * laps)) + (m * times) * place) by (nonlinear_arith)
        requires
            o + start + step == times * place - n * laps,
    ;
    lemma_mod_multiples_vanish(-(m * laps), (m * times) * place, n);
    lemma_mul_mod_noop_left(m * times, place, n);
    if n == 1 {
        lemma_mod_bound(m * (o + start + step), n);
    } else {
        lemma_small_mod(1, n as nat);
        assert((m * times) % n == 1);
        assert(1 * place == place);
        lemma_small_mod(place as nat, n as nat);
    }
    assert(stride_index(piece, n, start + step) == place);
}

/// The step and the start of the walk for a piece.
pub fn peer_stride(piece_idx: FilePieceIdx, num_peers: usize) -> (r: (usize, u64))
    requires
        num_peers > 0,
    ensures
        r.0 == stride_multiplier(piece_idx.0 as int, num_peers as int),
        r.1 == stride_offset(piece_idx.0 as int),
        1 <= r.0 <= num_peers,
        r.1 < 0x1_0000_0000,
{
    let hash: u64 = fx_hash64_usize(piece_idx.0);
    let high: u64 = hash / 0x1_0000_0000;
    let low: u64 = hash % 0x1_0000_0000;
    let modulus: usize = if num_peers > 1 {
        num_peers - 1
    } else {
        1
    };
    let rest: u64 = high % (modulus as u64);
    ((rest as usize) + 1, low)
}

/// The place that the walk reaches at `shift + step`.
pub fn stride_probe(
    piece_idx: FilePieceIdx,
    stride: (usize, u64),
    num_peers: usize,
    shift: usize,
    step: usize,
) -> (r: usize)
    requires
        num_peers > 0,
        stride.0 == stride_multiplier(piece_idx.0 as int, num_peers as int),
        stride.1 == stride_offset(piece_idx.0 as int),
    ensures
        r == stride_index(piece_idx.0 as int, num_peers as int, shift + step),
        r < num_peers,
{
    let peers: u128 = num_peers as u128;
    let by: u128 = (stride.0 as u128) % peers;
    let at: u128 = (stride.1 as u128 + shift as u128 + step as u128) % peers;
    proof {
        lemma_mul_mod_noop(stride.0 as int, stride.1 + shift + step, num_peers as int);
        lemma_stride_index_bound(piece_idx.0 as int, num_peers as int, shift + step);
        assert(by * at <= (peers - 1) * (peers - 1)) by (nonlinear_arith)
            requires
                0 <= by <= peers - 1,
                0 <= at <= peers - 1,
        ;
        assert((peers - 1) * (peers - 1) < 0x1_0000_0000_0000_0000 * 0x1_0000_0000_0000_0000)
            by (nonlinear_arith)
            requires
                0 < peers <= 0x1_0000_0000_0000_0000,
        ;
    }
    ((by * at) % peers) as usize
}

/// The shift at which the next walk for the piece starts, after a receiver
/// was found at `shift + step`.
pub fn next_shift(num_peers: usize, shift: usize, step: usize) -> (r: usize)
    requires
        num_peers > 0,
    ensures
        r == (shift + step + 1) % (num_peers as int),
{
    let peers: u128 = num_peers as u128;
    ((shift as u128 + step as u128 + 1) % peers) as usize
}

} // verus!
