//! The storage unit of a file's contents.
use vstd::prelude::*;

verus! {

/// A run of bytes of fixed length that can be read and overwritten in
/// parts. A file keeps its contents in several of them, so that no single
/// allocation grows with the file.
pub trait FileChunk: Sized {
    /// The bytes that the chunk holds.
    spec fn bytes(&self) -> Seq<u8>;

    /// A chunk of `len` zero bytes.
    fn with_len(len: usize) -> (r: Self)
        ensures
            r.bytes() == Seq::new(len as nat, |i: int| 0u8),
    ;

    /// A copy of the `len` bytes that start at `offset`.
    fn get(&self, offset: usize, len: usize) -> (r: Vec<u8>)
        requires
            offset + len <= self.bytes().len(),
        ensures
            r@ == self.bytes().subrange(offset as int, offset + len),
    ;

    /// Overwrites the bytes that start at `offset` with `data`.
    fn set(&mut self, offset: usize, data: &[u8])
        requires
            offset + data@.len() <= old(self).bytes().len(),
        ensures
            final(self).bytes().len() == old(self).bytes().len(),
            forall|i: int|
                0 <= i < old(self).bytes().len() ==> final(self).bytes()[i] == if offset <= i
                    < offset + data@.len() {
                    data@[i - offset]
                } else {
                    old(self).bytes()[i]
                },
    ;
}

impl FileChunk for Vec<u8> {
    open spec fn bytes(&self) -> Seq<u8> {
        self@
    }

    fn with_len(len: usize) -> (r: Self) {
        let mut chunk: Vec<u8> = Vec::new();
        let mut i: usize = 0;
        while i < len
            invariant
                i <= len,
                chunk@ == Seq::new(i as nat, |j: int| 0u8),
            decreases len - i,
        {
            chunk.push(0u8);
            assert(chunk@ =~= Seq::new((i + 1) as nat, |j: int| 0u8));
            i += 1;
        }
        chunk
    }

    fn get(&self, offset: usize, len: usize) -> (r: Vec<u8>) {
        let mut out: Vec<u8> = Vec::new();
        let mut i: usize = 0;
        let total = self.len();
        while i < len
            invariant
                i <= len,
                total == self@.len(),
                offset + len <= self@.len(),
                out@ == self@.subrange(offset as int, offset + i),
            decreases len - i,
        {
            out.push(self[offset + i]);
            assert(out@ =~= self@.subrange(offset as int, offset + i + 1));
            i += 1;
        }
        out
    }

    fn set(&mut self, offset: usize, data: &[u8]) {
        let mut i: usize = 0;
        let total = self.len();
        while i < data.len()
            invariant
                i <= data@.len(),
                total == self@.len(),
                offset + data@.len() <= self@.len(),
                self@.len() == old(self)@.len(),
                forall|j: int|
                    0 <= j < self@.len() ==> self@[j] == if offset <= j < offset + i {
                        data@[j - offset]
                    } else {
                        old(self)@[j]
                    },
            decreases data@.len() - i,
        {
            self[offset + i] = data[i];
            i += 1;
        }
    }
}

} // verus!
