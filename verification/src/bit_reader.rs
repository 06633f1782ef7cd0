//! A bit-level cursor over a byte source: buffers bytes pulled from a
//! `ByteReader` and serves fixed-width bit groups, most-significant bit
//! first, without forcing byte alignment.

use vstd::prelude::*;
use vstd::arithmetic::power2::pow2;
use crate::traits::ByteReader;

verus! {

/// `tail` is what is left of `whole` after some front bytes were consumed.
pub open spec fn suffix_of(tail: Seq<u8>, whole: Seq<u8>) -> bool {
    tail.len() <= whole.len() && tail == whole.skip(whole.len() - tail.len())
}

pub proof fn lemma_suffix_of_refl(s: Seq<u8>)
    ensures
        suffix_of(s, s),
{
    assert(s =~= s.skip(0));
}

pub proof fn lemma_suffix_of_trans(a: Seq<u8>, b: Seq<u8>, c: Seq<u8>)
    requires
        suffix_of(a, b),
        suffix_of(b, c),
    ensures
        suffix_of(a, c),
{
    assert(a =~= c.skip(c.len() - a.len()));
}

/// Bit `i` of a byte sequence, counting from the most significant bit of the
/// first byte; either 0 or 1.
pub open spec fn nth_bit(bytes: Seq<u8>, i: int) -> u8 {
    (bytes[i / 8] >> ((7 - (i % 8)) as u8)) & 1u8
}

/// The unsigned value of the `n` bits starting at bit position `pos`,
/// most-significant bit first.
pub open spec fn bits_value(bytes: Seq<u8>, pos: int, n: nat) -> nat
    decreases n,
{
    if n == 0 {
        0
    } else {
        2 * bits_value(bytes, pos, (n - 1) as nat) + nth_bit(bytes, pos + n - 1) as nat
    }
}

pub proof fn lemma_nth_bit_le_one(bytes: Seq<u8>, i: int)
    ensures
        nth_bit(bytes, i) <= 1,
{
    let b = bytes[i / 8];
    let s = (7 - (i % 8)) as u8;
    assert((b >> s) & 1u8 <= 1) by (bit_vector);
}

/// Buffers bytes from a `ByteReader` and serves arbitrary-width bit groups
/// (1 to 32 bits). Once the source reports exhaustion, availability is
/// judged from the buffered bits alone.
pub struct BitReader {
    buffer: Vec<u8>,
    bit_pos: usize,
    exhausted: bool,
}

impl BitReader {
    /// The whole byte stream this cursor ranges over: what it has buffered
    /// followed by what the source still holds.
    pub closed spec fn src(self, reader_bytes: Seq<u8>) -> Seq<u8> {
        self.buffer@ + reader_bytes
    }

    /// The current cursor position, in bits from the start of `src`.
    pub closed spec fn pos(self) -> int {
        self.bit_pos as int
    }

    /// Well-formedness, tied to the bytes the source still holds: the cursor
    /// stays inside the buffer, exhaustion is only recorded when the source
    /// is empty, and the stream is small enough for bit arithmetic in usize.
    pub closed spec fn inv(self, reader_bytes: Seq<u8>) -> bool {
        &&& self.bit_pos <= 8 * self.buffer@.len()
        &&& (self.exhausted ==> reader_bytes.len() == 0)
        &&& 8 * (self.buffer@.len() + reader_bytes.len()) + 64 <= usize::MAX
    }

    /// Bits not yet consumed.
    pub open spec fn avail(self, reader_bytes: Seq<u8>) -> int {
        8 * self.src(reader_bytes).len() - self.pos()
    }

    /// A well-formed cursor sits between the start and the end of its stream.
    pub proof fn lemma_inv_pos_bound(self, reader_bytes: Seq<u8>)
        requires
            self.inv(reader_bytes),
        ensures
            0 <= self.pos() <= 8 * self.src(reader_bytes).len(),
    {
    }

    pub fn new<R: ByteReader>(reader: &R) -> (r: BitReader)
        requires
            8 * reader.bytes().len() + 64 <= usize::MAX,
        ensures
            r.inv(reader.bytes()),
            r.pos() == 0,
            r.src(reader.bytes()) == reader.bytes(),
    {
        let r = BitReader { buffer: Vec::new(), bit_pos: 0, exhausted: false };
        proof {
            assert(r.src(reader.bytes()) =~= reader.bytes());
        }
        r
    }

    /// Bits left in the buffer past the cursor.
    fn bits_available(&self) -> (n: usize)
        requires
            self.bit_pos <= 8 * self.buffer@.len(),
            8 * self.buffer@.len() <= usize::MAX,
        ensures
            n == 8 * self.buffer@.len() - self.bit_pos,
    {
        self.buffer.len() * 8 - self.bit_pos
    }

    /// Pull bytes from the source until `bits` more bits are buffered or the
    /// source runs dry; report whether `bits` more bits are available.
    fn ensure_bits<R: ByteReader>(&mut self, reader: &mut R, bits: usize) -> (b: bool)
        requires
            old(self).inv(old(reader).bytes()),
            bits <= 32,
        ensures
            final(self).inv(final(reader).bytes()),
            final(self).src(final(reader).bytes()) == old(self).src(old(reader).bytes()),
            final(self).pos() == old(self).pos(),
            b == (old(self).avail(old(reader).bytes()) >= bits),
            b ==> final(self).bit_pos + bits <= 8 * final(self).buffer@.len(),
            suffix_of(final(reader).bytes(), old(reader).bytes()),
    {
        let ghost src0 = old(self).src(old(reader).bytes());
        if self.exhausted {
            proof {
                lemma_suffix_of_refl(reader.bytes());
                assert(self.src(reader.bytes()) =~= self.buffer@);
            }
            return self.bits_available() >= bits;
        }

        proof {
            lemma_suffix_of_refl(reader.bytes());
        }
        let bytes_needed = (self.bit_pos + bits + 7) / 8;
        while self.buffer.len() < bytes_needed
            invariant
                self.bit_pos == old(self).bit_pos,
                self.bit_pos <= 8 * self.buffer@.len(),
                bytes_needed == (old(self).bit_pos + bits + 7) / 8,
                self.src(reader.bytes()) == src0,
                8 * (self.buffer@.len() + reader.bytes().len()) + 64 <= usize::MAX,
                self.exhausted ==> reader.bytes().len() == 0,
                suffix_of(reader.bytes(), old(reader).bytes()),
            ensures
                self.buffer@.len() >= bytes_needed || self.exhausted,
            decreases bytes_needed - self.buffer@.len(),
        {
            let ghost rb_before = reader.bytes();
            let mut byte: Vec<u8> = Vec::new();
            byte.push(0u8);
            let n = reader.read(&mut byte);
            proof {
                assert(reader.bytes() =~= rb_before.skip(n as int));
                lemma_suffix_of_trans(reader.bytes(), rb_before, old(reader).bytes());
            }
            if n == 0 {
                self.exhausted = true;
                break;
            } else {
                let b0 = byte[0];
                proof {
                    assert(b0 == rb_before[0]);
                    assert(self.buffer@.push(b0) + reader.bytes() =~= self.buffer@
                        + rb_before);
                }
                self.buffer.push(b0);
            }
        }
        proof {
            if self.exhausted {
                assert(self.src(reader.bytes()) =~= self.buffer@);
            } else {
                assert(8 * ((self.bit_pos + bits + 7) / 8) >= self.bit_pos + bits);
            }
        }
        self.bits_available() >= bits
    }

    /// Does the stream still hold at least `bits` bits? Does not consume.
    pub fn has_more_bits<R: ByteReader>(&mut self, reader: &mut R, bits: usize) -> (b: bool)
        requires
            old(self).inv(old(reader).bytes()),
            bits <= 32,
        ensures
            final(self).inv(final(reader).bytes()),
            final(self).src(final(reader).bytes()) == old(self).src(old(reader).bytes()),
            final(self).pos() == old(self).pos(),
            b == (old(self).avail(old(reader).bytes()) >= bits),
            suffix_of(final(reader).bytes(), old(reader).bytes()),
    {
        self.ensure_bits(reader, bits)
    }

    /// Read the next `bits` bits (1 to 32) as an unsigned value, most
    /// significant bit first, or `None` when the request is out of range or
    /// the stream holds fewer than `bits` bits. `None` consumes nothing.
    pub fn read_bits<R: ByteReader>(&mut self, reader: &mut R, bits: usize) -> (r: Option<
        u32,
    >)
        requires
            old(self).inv(old(reader).bytes()),
        ensures
            final(self).inv(final(reader).bytes()),
            final(self).src(final(reader).bytes()) == old(self).src(old(reader).bytes()),
            suffix_of(final(reader).bytes(), old(reader).bytes()),
            1 <= bits <= 32 && old(self).avail(old(reader).bytes()) >= bits ==> {
                &&& r == Some(
                    bits_value(
                        old(self).src(old(reader).bytes()),
                        old(self).pos(),
                        bits as nat,
                    ) as u32,
                )
                &&& final(self).pos() == old(self).pos() + bits
            },
            !(1 <= bits <= 32 && old(self).avail(old(reader).bytes()) >= bits) ==> {
                &&& r is None
                &&& final(self).pos() == old(self).pos()
            },
    {
        if bits == 0 || bits > 32 {
            proof {
                lemma_suffix_of_refl(reader.bytes());
            }
            return None;
        }
        if !self.ensure_bits(reader, bits) {
            return None;
        }

        let ghost src0 = self.src(reader.bytes());
        let ghost pos0 = self.bit_pos as int;
        let ghost buf = self.buffer@;
        let ghost rb = reader.bytes();

        proof {
            vstd::arithmetic::power2::lemma2_to64();
        }
        let mut result: u32 = 0;
        let mut k: usize = 0;
        while k < bits
            invariant
                k <= bits,
                1 <= bits <= 32,
                self.buffer@ == buf,
                self.exhausted ==> rb.len() == 0,
                reader.bytes() == rb,
                self.bit_pos == pos0 + k,
                pos0 + bits <= 8 * buf.len(),
                8 * (buf.len() + rb.len()) + 64 <= usize::MAX,
                src0 == buf + rb,
                result as nat == bits_value(src0, pos0, k as nat),
                result < pow2(k as nat),
            decreases bits - k,
        {
            let byte_idx = self.bit_pos / 8;
            let bit_idx = self.bit_pos % 8;
            let bit = (self.buffer[byte_idx] >> ((7 - bit_idx) as u8)) & 1u8;
            proof {
                assert(buf[byte_idx as int] == src0[byte_idx as int]);
                assert(bit == nth_bit(src0, pos0 + k));
                lemma_nth_bit_le_one(src0, pos0 + k);
                vstd::arithmetic::power2::lemma_pow2_unfold((k + 1) as nat);
                vstd::arithmetic::power2::lemma2_to64();
                if k < 31 {
                    vstd::arithmetic::power2::lemma_pow2_strictly_increases(k as nat, 31);
                }
                assert(result < pow2(31));
            }
            result = result * 2 + (bit as u32);
            self.bit_pos = self.bit_pos + 1;
            k = k + 1;
            proof {
                assert(bits_value(src0, pos0, k as nat) == 2 * bits_value(
                    src0,
                    pos0,
                    (k - 1) as nat,
                ) + nth_bit(src0, pos0 + k - 1));
            }
        }
        Some(result)
    }
}

} // verus!
