//! Packed bit storage, kept in a boxed bit-slice of the `bitvec` crate.
//!
//! The storage is opaque to the proofs; each function here that reaches
//! into it states what `bitvec` does, and that statement is taken on trust.
use vstd::prelude::*;
use bitvec::boxed::BitBox;
use bitvec::order::Lsb0;
use bitvec::vec::BitVec;

verus! {

/// A fixed-length run of bits, held by a `bitvec::boxed::BitBox<usize, Lsb0>`.
#[verifier::external_body]
#[derive(Debug)]
pub struct PieceBits {
    raw: BitBox<usize, Lsb0>,
}

/// The bits that the storage holds, first bit first.
pub uninterp spec fn bits_of(bits: PieceBits) -> Seq<bool>;

impl View for PieceBits {
    type V = Seq<bool>;

    open spec fn view(&self) -> Seq<bool> {
        bits_of(*self)
    }
}

/// The number of `true` entries of a sequence of bits.
pub open spec fn count_ones(bits: Seq<bool>) -> nat
    decreases bits.len(),
{
    if bits.len() == 0 {
        0
    } else {
        count_ones(bits.drop_last()) + if bits.last() {
            1nat
        } else {
            0nat
        }
    }
}

/// The largest number of bits that one `bitvec` allocation can address.
pub open spec fn max_bits() -> int {
    usize::MAX as int / 8
}

/// `BitVec::repeat` followed by `BitVec::into_boxed_bitslice`: `len` copies
/// of `bit`. `bitvec` panics when `len` exceeds `BitSlice::MAX_BITS`, which
/// is `usize::MAX >> 3`; the precondition leaves those lengths out.
#[verifier::external_body]
pub(crate) fn bits_repeat(bit: bool, len: usize) -> (r: PieceBits)
    requires
        len <= max_bits(),
    ensures
        bits_of(r) == Seq::new(len as nat, |i: int| bit),
{
    PieceBits { raw: BitVec::<usize, Lsb0>::repeat(bit, len).into_boxed_bitslice() }
}

/// `BitSlice::len`: the number of bits held.
#[verifier::external_body]
pub(crate) fn bits_len(bits: &PieceBits) -> (r: usize)
    ensures
        r == bits_of(*bits).len(),
{
    bits.raw.len()
}

/// `BitSlice::get`: the bit at `idx`, or `None` when `idx` is not below the
/// length.
#[verifier::external_body]
pub(crate) fn bits_get(bits: &PieceBits, idx: usize) -> (r: Option<bool>)
    ensures
        r == if idx < bits_of(*bits).len() {
            Some(bits_of(*bits)[idx as int])
        } else {
            None
        },
{
    match bits.raw.get(idx) {
        Some(bit) => Some(*bit),
        None => None,
    }
}

/// `BitSlice::set`: writes `value` at `idx` and leaves every other bit as it
/// was. `bitvec` panics when `idx` is not below the length.
#[verifier::external_body]
pub(crate) fn bits_set(bits: &mut PieceBits, idx: usize, value: bool)
    requires
        idx < bits_of(*old(bits)).len(),
    ensures
        bits_of(*final(bits)) == bits_of(*old(bits)).update(idx as int, value),
{
    bits.raw.set(idx, value);
}

/// `BitSlice::count_ones`: how many of the bits are set.
#[verifier::external_body]
pub(crate) fn bits_count_ones(bits: &PieceBits) -> (r: usize)
    ensures
        r == count_ones(bits_of(*bits)),
{
    bits.raw.count_ones()
}

/// `BitBox::clone`: a second allocation with the same bits.
#[verifier::external_body]
pub(crate) fn bits_clone(bits: &PieceBits) -> (r: PieceBits)
    ensures
        bits_of(r) == bits_of(*bits),
{
    PieceBits { raw: bits.raw.clone() }
}

pub proof fn lemma_count_ones_bound(bits: Seq<bool>)
    ensures
        count_ones(bits) <= bits.len(),
    decreases bits.len(),
{
    if bits.len() > 0 {
        lemma_count_ones_bound(bits.drop_last());
    }
}

/// Writing a bit changes the count by at most one, in the direction of the
/// write.
pub proof fn lemma_count_ones_update(bits: Seq<bool>, idx: int, value: bool)
    requires
        0 <= idx < bits.len(),
    ensures
        count_ones(bits.update(idx, value)) == count_ones(bits) + (if value {
            1int
        } else {
            0int
        }) - (if bits[idx] {
            1int
        } else {
            0int
        }),
    decreases bits.len(),
{
    let after = bits.update(idx, value);
    if idx == bits.len() - 1 {
        assert(after.drop_last() =~= bits.drop_last());
    } else {
        assert(after.drop_last() =~= bits.drop_last().update(idx, value));
        lemma_count_ones_update(bits.drop_last(), idx, value);
    }
}

pub proof fn lemma_count_ones_constant(len: nat, bit: bool)
    ensures
        count_ones(Seq::new(len, |i: int| bit)) == if bit {
            len
        } else {
            0
        },
    decreases len,
{
    if len > 0 {
        assert(Seq::new(len, |i: int| bit).drop_last() =~= Seq::new((len - 1) as nat, |i: int| bit));
        lemma_count_ones_constant((len - 1) as nat, bit);
    }
}

/// A sequence has as many ones as entries exactly when every entry is set.
pub proof fn lemma_count_ones_full(bits: Seq<bool>)
    ensures
        count_ones(bits) == bits.len() <==> (forall|i: int| 0 <= i < bits.len() ==> bits[i]),
    decreases bits.len(),
{
    if bits.len() > 0 {
        let init = bits.drop_last();
        lemma_count_ones_full(init);
        lemma_count_ones_bound(init);
        if count_ones(bits) == bits.len() {
            assert forall|i: int| 0 <= i < bits.len() implies bits[i] by {
                if i < init.len() {
                    assert(init[i]);
                }
            }
        }
        if forall|i: int| 0 <= i < bits.len() ==> bits[i] {
            assert(forall|i: int| 0 <= i < init.len() ==> init[i] == bits[i]);
        }
    }
}

/// A sequence has no ones exactly when no entry is set.
pub proof fn lemma_count_ones_none(bits: Seq<bool>)
    ensures
        count_ones(bits) == 0 <==> (forall|i: int| 0 <= i < bits.len() ==> !bits[i]),
    decreases bits.len(),
{
    if bits.len() > 0 {
        let init = bits.drop_last();
        lemma_count_ones_none(init);
        if count_ones(bits) == 0 {
            assert forall|i: int| 0 <= i < bits.len() implies !bits[i] by {
                if i < init.len() {
                    assert(!init[i]);
                }
            }
        }
        if forall|i: int| 0 <= i < bits.len() ==> !bits[i] {
            assert(forall|i: int| 0 <= i < init.len() ==> init[i] == bits[i]);
        }
    }
}

} // verus!
