//! Byte-exact, offset-addressed storage for one upload destination.
//!
//! A `ChunkBuffer` models the preallocated backing file of an upload session:
//! it is created at a fixed size, filled with zeros, written at byte-precise
//! offsets, and never resized. A write touches exactly the bytes in
//! `[offset, offset + payload.len())` and nothing outside that range.

use vstd::prelude::*;

verus! {

pub struct ChunkBuffer {
    bytes: Vec<u8>,
}

impl View for ChunkBuffer {
    type V = Seq<u8>;

    closed spec fn view(&self) -> Seq<u8> {
        self.bytes@
    }
}

impl ChunkBuffer {
    /// Preallocate a destination of exactly `size` zero bytes.
    pub fn create(size: usize) -> (buf: ChunkBuffer)
        ensures
            buf@.len() == size,
            forall|i: int| 0 <= i < size ==> buf@[i] == 0u8,
    {
        let mut bytes: Vec<u8> = Vec::new();
        let mut n: usize = 0;
        while n < size
            invariant
                n <= size,
                bytes@.len() == n,
                forall|i: int| 0 <= i < n ==> bytes@[i] == 0u8,
            decreases size - n,
        {
            bytes.push(0u8);
            n = n + 1;
        }
        ChunkBuffer { bytes }
    }

    pub fn len(&self) -> (n: usize)
        ensures
            n == self@.len(),
    {
        self.bytes.len()
    }

    /// Write `payload` starting at byte `offset`, leaving every byte outside
    /// `[offset, offset + payload.len())` untouched.
    pub fn write_at(&mut self, offset: usize, payload: &Vec<u8>)
        requires
            offset + payload@.len() <= old(self)@.len(),
        ensures
            final(self)@.len() == old(self)@.len(),
            forall|i: int|
                offset <= i < offset + payload@.len() ==> final(self)@[i] == payload@[i - offset],
            forall|i: int|
                0 <= i < old(self)@.len() && !(offset <= i < offset + payload@.len())
                    ==> final(self)@[i] == old(self)@[i],
    {
        let total = self.bytes.len();
        let mut k: usize = 0;
        while k < payload.len()
            invariant
                k <= payload@.len(),
                total == self@.len(),
                offset + payload@.len() <= total,
                self@.len() == old(self)@.len(),
                forall|i: int| offset <= i < offset + k ==> self@[i] == payload@[i - offset],
                forall|i: int|
                    0 <= i < old(self)@.len() && !(offset <= i < offset + k)
                        ==> self@[i] == old(self)@[i],
            decreases payload@.len() - k,
        {
            self.bytes[offset + k] = payload[k];
            k = k + 1;
        }
    }

    /// The assembled contents.
    pub fn as_bytes(&self) -> (bytes: &Vec<u8>)
        ensures
            bytes@ == self@,
    {
        &self.bytes
    }
}

} // verus!
