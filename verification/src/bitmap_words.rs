//! A bitmap as it travels between peers: packed into 64-bit words, the
//! bit of piece `i` at place `i % 64` of word `i / 64`, and the places of
//! the last word that stand for no piece left at zero.
use vstd::prelude::*;

verus! {

/// Whether the bit at a place of a word is set.
pub open spec fn word_bit(word: u64, place: u64) -> bool {
    (word >> place) & 1 == 1
}

/// The bit that packed words hold for a piece.
pub open spec fn packed_bit(words: Seq<u64>, piece: int) -> bool {
    word_bit(words[piece / 64], (piece % 64) as u64)
}

/// How many words a number of bits takes.
pub open spec fn words_for(bits: int) -> int {
    (bits + 63) / 64
}

/// Whether words are the packed form of a bitmap.
pub open spec fn words_hold(words: Seq<u64>, bits: Seq<bool>) -> bool {
    &&& words.len() == words_for(bits.len() as int)
    &&& forall|piece: int| 0 <= piece < bits.len() ==> #[trigger] packed_bit(words, piece) == bits[piece]
    &&& forall|piece: int|
        bits.len() <= piece < 64 * words.len() ==> !#[trigger] packed_bit(words, piece)
}

/// No bit of the word zero is set.
proof fn lemma_zero_word(place: u64)
    requires
        place < 64,
    ensures
        !word_bit(0, place),
{
    assert((0u64 >> place) & 1 == 0) by (bit_vector)
        requires
            place < 64,
    ;
}

/// Setting the bit at one place of a word sets that bit and leaves every
/// other bit of the word as it was.
proof fn lemma_set_bit(word: u64, place: u64, other: u64)
    requires
        place < 64,
        other < 64,
    ensures
        word_bit(word | (1u64 << place), other) == (other == place || word_bit(word, other)),
{
    assert((((word | (1u64 << place)) >> other) & 1 == 1) == (other == place || (word >> other) & 1
        == 1)) by (bit_vector)
        requires
            place < 64,
            other < 64,
    ;
}

/// Packs a bitmap into words.
pub fn words_of_bits(bits: &Vec<bool>) -> (r: Vec<u64>)
    ensures
        words_hold(r@, bits@),
{
    let len = bits.len();
    let extra: usize = if len % 64 == 0 {
        0
    } else {
        1
    };
    let count: usize = len / 64 + extra;
    assert(count == words_for(len as int));
    let mut words: Vec<u64> = Vec::new();
    while words.len() < count
        invariant
            words@.len() <= count,
            forall|w: int| 0 <= w < words@.len() ==> words@[w] == 0,
        decreases count - words@.len(),
    {
        words.push(0);
    }
    proof {
        assert forall|piece: int| 0 <= piece < 64 * words@.len() implies !#[trigger] packed_bit(
            words@,
            piece,
        ) by {
            lemma_zero_word((piece % 64) as u64);
        }
    }
    let mut at: usize = 0;
    while at < len
        invariant
            at <= len,
            len == bits@.len(),
            words@.len() == count,
            count == words_for(len as int),
            forall|piece: int| 0 <= piece < at ==> #[trigger] packed_bit(words@, piece) == bits@[piece],
            forall|piece: int| at <= piece < 64 * count ==> !#[trigger] packed_bit(words@, piece),
        decreases len - at,
    {
        if bits[at] {
            let ghost before = words@;
            let place: u64 = (at % 64) as u64;
            let word: u64 = words[at / 64];
            words.set(at / 64, word | (1u64 << place));
            proof {
                assert forall|piece: int| 0 <= piece < 64 * count implies #[trigger] packed_bit(
                    words@,
                    piece,
                ) == (piece == at || packed_bit(before, piece)) by {
                    if piece / 64 == at / 64 {
                        lemma_set_bit(word, place, (piece % 64) as u64);
                    }
                }
            }
        }
        at += 1;
    }
    words
}

/// How many bits packed words give at most: the number that the words
/// were packed from, as far as the words reach and a list can hold.
pub open spec fn bits_held(bit_length: u64, words: int) -> int {
    let reach = if 64 * words < bit_length {
        64 * words
    } else {
        bit_length as int
    };
    if reach < usize::MAX {
        reach
    } else {
        usize::MAX as int
    }
}

/// Unpacks the first `bit_length` bits of packed words, or as many as the
/// words hold.
pub fn bits_of_words(bit_length: u64, words: &Vec<u64>) -> (r: Vec<bool>)
    ensures
        r@.len() == bits_held(bit_length, words@.len() as int),
        forall|piece: int| 0 <= piece < r@.len() ==> r@[piece] == #[trigger] packed_bit(words@, piece),
{
    let reach: usize = if words.len() > usize::MAX / 64 {
        usize::MAX
    } else {
        words.len() * 64
    };
    let asked: usize = if bit_length > usize::MAX as u64 {
        usize::MAX
    } else {
        bit_length as usize
    };
    let len: usize = if asked < reach {
        asked
    } else {
        reach
    };
    let mut bits: Vec<bool> = Vec::new();
    let mut at: usize = 0;
    while at < len
        invariant
            at <= len,
            len <= 64 * words@.len(),
            bits@.len() == at,
            forall|piece: int| 0 <= piece < at ==> bits@[piece] == #[trigger] packed_bit(words@, piece),
        decreases len - at,
    {
        let place: u64 = (at % 64) as u64;
        let word: u64 = words[at / 64];
        bits.push((word >> place) & 1 == 1);
        at += 1;
    }
    bits
}

} // verus!
