//! The byte-source contract: anything that can hand out entropy bytes on
//! demand, plus an in-memory implementation over a byte slice.

use vstd::prelude::*;
use vstd::slice::slice_to_vec;

verus! {

/// A source of entropy bytes. `bytes()` is the abstract content still to be
/// served; `read` hands out bytes from its front. A return of 0 from `read`
/// (with room in the destination) signals that the source is exhausted.
pub trait ByteReader {
    /// The bytes this source will still serve, in order.
    spec fn bytes(&self) -> Seq<u8>;

    /// Fill `dest` from the front with the next bytes of the source and
    /// report how many were written. Writing fewer bytes than `dest` holds
    /// is allowed; writing 0 when `dest` is non-empty means the source is
    /// (and stays) empty.
    fn read(&mut self, dest: &mut Vec<u8>) -> (n: usize)
        ensures
            n <= old(dest).len(),
            n <= old(self).bytes().len(),
            final(dest)@.len() == old(dest)@.len(),
            forall|i: int| 0 <= i < n ==> final(dest)@[i] == old(self).bytes()[i],
            forall|i: int| n <= i < old(dest)@.len() ==> final(dest)@[i] == old(dest)@[i],
            final(self).bytes() == old(self).bytes().skip(n as int),
            n == 0 && old(dest)@.len() > 0 ==> old(self).bytes().len() == 0,
    ;
}

/// A finite byte source backed by an owned copy of a slice.
pub struct SliceReader {
    bytes: Vec<u8>,
    pos: usize,
}

impl SliceReader {
    #[verifier::type_invariant]
    spec fn wf(self) -> bool {
        self.pos <= self.bytes@.len()
    }

    pub fn new(bytes: &[u8]) -> (r: SliceReader)
        ensures
            r.bytes() == bytes@,
    {
        let owned = slice_to_vec(bytes);
        let r = SliceReader { bytes: owned, pos: 0 };
        proof {
            assert(r.bytes() =~= bytes@);
        }
        r
    }
}

impl ByteReader for SliceReader {
    closed spec fn bytes(&self) -> Seq<u8> {
        self.bytes@.skip(self.pos as int)
    }

    fn read(&mut self, dest: &mut Vec<u8>) -> (n: usize)
        ensures
            n <= old(dest).len(),
            n <= old(self).bytes().len(),
            final(dest)@.len() == old(dest)@.len(),
            forall|i: int| 0 <= i < n ==> final(dest)@[i] == old(self).bytes()[i],
            forall|i: int| n <= i < old(dest)@.len() ==> final(dest)@[i] == old(dest)@[i],
            final(self).bytes() == old(self).bytes().skip(n as int),
            n == 0 && old(dest)@.len() > 0 ==> old(self).bytes().len() == 0,
    {
        proof {
            use_type_invariant(&*self);
        }
        let mut i: usize = 0;
        while i < dest.len() && self.pos < self.bytes.len()
            invariant
                i <= dest@.len(),
                dest@.len() == old(dest)@.len(),
                old(self).pos <= self.pos <= self.bytes@.len(),
                self.bytes == old(self).bytes,
                i == self.pos - old(self).pos,
                forall|j: int| 0 <= j < i ==> dest@[j] == old(self).bytes()[j],
                forall|j: int| i <= j < old(dest)@.len() ==> dest@[j] == old(dest)@[j],
            decreases dest@.len() - i,
        {
            let b = self.bytes[self.pos];
            dest[i] = b;
            self.pos = self.pos + 1;
            i = i + 1;
        }
        proof {
            assert(final(self).bytes() =~= old(self).bytes().skip(i as int));
        }
        i
    }
}

} // verus!
