// Most-significant-bit-first bit writer, the mirror of `BitReader`.
//
// The encoder builds a FLAC stream a field at a time. Completed bytes flow into
// an output buffer as they fill, with a partial byte held back until more bits
// arrive or the caller asks to align. The writer's view is the sequence of
// bits written so far; whenever it is byte aligned the buffer holds exactly
// those bits.

use crate::bits::{
    bits_of, bits_of_bytes, byte_bits, lemma_bits_of_bytes_push, lemma_cut_chunk,
    lemma_place_chunk, low_mask8, zeros,
};
use vstd::prelude::*;

verus! {

/// The number of zero bits that pad `n` bits up to a byte boundary.
pub open spec fn pad_len(n: nat) -> nat {
    if n % 8 == 0 {
        0
    } else {
        (8 - n % 8) as nat
    }
}

pub struct BitWriter {
    out: Vec<u8>,
    /// Bits accumulated for the byte currently being filled, left aligned.
    current: u8,
    /// How many bits of `current` are used, 0 to 7.
    used: u8,
}

impl View for BitWriter {
    type V = Seq<bool>;

    closed spec fn view(&self) -> Seq<bool> {
        bits_of_bytes(self.out@) + byte_bits(self.current, self.used as nat)
    }
}

proof fn lemma_full_byte(c: u8, used: u8)
    requires
        used < 8,
        c & low_mask8((8 - used) as u8) == 0,
    ensures
        byte_bits(c, 8) == byte_bits(c, used as nat) + zeros((8 - used) as nat),
{
    let lhs = byte_bits(c, 8);
    let rhs = byte_bits(c, used as nat) + zeros((8 - used) as nat);
    assert forall|j: int| 0 <= j < 8 implies lhs[j] == rhs[j] by {
        if j >= used {
            let sh = (7 - j) as u8;
            let jj = j as u8;
            assert((c >> sh) & 1u8 == 0) by (bit_vector)
                requires
                    used < 8,
                    used <= jj < 8,
                    sh == 7 - jj,
                    c & low_mask8((8 - used) as u8) == 0,
            ;
        }
    }
    assert(lhs =~= rhs);
}

proof fn lemma_unary_tail(m: u64)
    requires
        1 <= m <= 8,
    ensures
        bits_of(1, m as nat) == zeros((m - 1) as nat).push(true),
{
    let lhs = bits_of(1, m as nat);
    let rhs = zeros((m - 1) as nat).push(true);
    assert forall|i: int| 0 <= i < m implies lhs[i] == rhs[i] by {
        let sh = (m - 1 - i) as u64;
        assert(((1u64 >> sh) & 1u64 == 1u64) == (sh == 0)) by (bit_vector);
    }
    assert(lhs =~= rhs);
}

proof fn lemma_zero_byte()
    ensures
        bits_of(0, 8) == zeros(8),
{
    let lhs = bits_of(0, 8);
    assert forall|i: int| 0 <= i < 8 implies lhs[i] == false by {
        let sh = (8 - 1 - i) as u64;
        assert((0u64 >> sh) & 1u64 == 0u64) by (bit_vector);
    }
    assert(lhs =~= zeros(8));
}

impl BitWriter {
    /// The writer's internal state is consistent.
    pub closed spec fn wf(&self) -> bool {
        &&& self.used < 8
        &&& self.current & low_mask8((8 - self.used) as u8) == 0
    }

    pub fn new() -> (w: Self)
        ensures
            w.wf(),
            w@ == Seq::<bool>::empty(),
    {
        let w = BitWriter { out: Vec::new(), current: 0, used: 0 };
        assert(0u8 & low_mask8(8) == 0) by (bit_vector);
        assert(w@ =~= Seq::<bool>::empty());
        w
    }

    /// True when no partial byte is pending.
    pub fn is_byte_aligned(&self) -> (b: bool)
        requires
            self.wf(),
        ensures
            b == (self@.len() % 8 == 0),
    {
        proof {
            crate::bits::lemma_bit_index(self.out@.len() as int, self.used as int);
        }
        self.used == 0
    }

    /// Borrow the emitted bytes: every completed byte written so far.
    pub fn bytes(&self) -> (b: &[u8])
        requires
            self.wf(),
        ensures
            b@.len() == self@.len() / 8,
            bits_of_bytes(b@) == self@.take(b@.len() * 8 as int),
    {
        proof {
            crate::bits::lemma_bit_index(self.out@.len() as int, self.used as int);
            assert(bits_of_bytes(self.out@) =~= self@.take(self.out@.len() * 8 as int));
        }
        self.out.as_slice()
    }

    /// Write the low `n` bits of `value`, most significant first.
    pub fn write_bits(&mut self, value: u64, n: u32)
        requires
            old(self).wf(),
            n <= 64,
        ensures
            final(self).wf(),
            final(self)@ == old(self)@ + bits_of(value, n as nat),
    {
        let ghost start = self@;
        let ghost all = bits_of(value, n as nat);
        let mut remaining = n;
        assert(all.take(0) =~= Seq::<bool>::empty());
        assert(start + all.take(0) =~= start);
        while remaining > 0
            invariant
                self.wf(),
                remaining <= n <= 64,
                all == bits_of(value, n as nat),
                self@ == start + all.take((n - remaining) as int),
            decreases remaining,
        {
            let ghost done = (n - remaining) as int;
            let free = 8 - self.used;
            let take: u8 = if remaining < free as u32 {
                remaining as u8
            } else {
                free
            };
            let shift = remaining - take as u32;
            let t64 = take as u64;
            assert((1u64 << t64) >= 1) by (bit_vector)
                requires
                    1 <= t64 <= 8,
            ;
            let chunk: u8 = ((value >> (shift as u64)) & ((1u64 << t64) - 1)) as u8;
            proof {
                let s64 = shift as u64;
                let tk = take;
                assert(chunk <= low_mask8(tk)) by (bit_vector)
                    requires
                        1 <= t64 <= 8,
                        tk as u64 == t64,
                        chunk == ((value >> s64) & (((1u64 << t64) - 1) as u64)) as u8,
                ;
                let c = self.current;
                let used = self.used;
                lemma_place_chunk(c, used, chunk, take);
                let piece = Seq::new(
                    take as nat,
                    |j: int| (chunk >> ((take - 1 - j) as u8)) & 1u8 == 1u8,
                );
                assert forall|j: int| 0 <= j < take implies piece[j] == all[done + j] by {
                    let q = (take - 1 - j) as u64;
                    lemma_cut_chunk(value, s64, t64, q);
                    assert(((n - 1 - (done + j)) as u64) == s64 + q);
                }
                assert(all.take(done + take) =~= all.take(done) + piece);
            }
            let ghost before = self@;
            let ghost piece = Seq::new(
                take as nat,
                |j: int| (chunk >> ((take - 1 - j) as u8)) & 1u8 == 1u8,
            );
            self.current = self.current | (chunk << (free - take));
            self.used += take;
            assert(self@ =~= before + piece);
            assert(start + all.take(done) + piece =~= start + all.take(done + take));
            if self.used == 8 {
                proof {
                    lemma_bits_of_bytes_push(self.out@, self.current);
                    assert(byte_bits(0, 0) =~= Seq::<bool>::empty());
                    assert(0u8 & low_mask8(8) == 0) by (bit_vector);
                }
                self.out.push(self.current);
                self.current = 0;
                self.used = 0;
            }
            remaining -= take as u32;
        }
        assert(all.take(n as int) =~= all);
    }

    /// Write a unary code: `q` zero bits followed by a single one bit.
    pub fn write_unary(&mut self, q: u64)
        requires
            old(self).wf(),
        ensures
            final(self).wf(),
            final(self)@ == old(self)@ + zeros(q as nat).push(true),
    {
        let ghost start = self@;
        let mut left = q;
        while left >= 8
            invariant
                self.wf(),
                left <= q,
                self@ == start + zeros((q - left) as nat),
            decreases left,
        {
            proof {
                lemma_zero_byte();
                assert(zeros((q - left) as nat) + zeros(8) =~= zeros((q - left + 8) as nat));
            }
            self.write_bits(0, 8);
            left -= 8;
        }
        proof {
            lemma_unary_tail((left + 1) as u64);
            assert(zeros((q - left) as nat) + zeros(left as nat).push(true) =~= zeros(
                q as nat,
            ).push(true));
        }
        // `left` zeros then a one: a value of 1 in (left + 1) bits.
        self.write_bits(1, left as u32 + 1);
    }

    /// Pad with zero bits up to the next byte boundary.
    pub fn align_to_byte(&mut self)
        requires
            old(self).wf(),
        ensures
            final(self).wf(),
            final(self)@ == old(self)@ + zeros(pad_len(old(self)@.len())),
            final(self)@.len() % 8 == 0,
    {
        proof {
            crate::bits::lemma_bit_index(self.out@.len() as int, self.used as int);
        }
        if self.used != 0 {
            proof {
                lemma_full_byte(self.current, self.used);
                lemma_bits_of_bytes_push(self.out@, self.current);
                assert(byte_bits(0, 0) =~= Seq::<bool>::empty());
                assert(0u8 & low_mask8(8) == 0) by (bit_vector);
            }
            self.out.push(self.current);
            self.current = 0;
            self.used = 0;
        } else {
            assert(zeros(0) =~= Seq::<bool>::empty());
            assert(self@ + zeros(0) =~= self@);
        }
        proof {
            crate::bits::lemma_bit_index(self.out@.len() as int, 0);
        }
    }

    /// Finish writing and return the buffer. Pads a trailing partial byte.
    pub fn into_bytes(self) -> (b: Vec<u8>)
        requires
            self.wf(),
        ensures
            bits_of_bytes(b@) == self@ + zeros(pad_len(self@.len())),
    {
        let mut w = self;
        w.align_to_byte();
        proof {
            assert(byte_bits(w.current, 0) =~= Seq::<bool>::empty());
            assert(w@ =~= bits_of_bytes(w.out@));
        }
        w.out
    }
}

impl Default for BitWriter {
    /// The same as [`BitWriter::new`].
    fn default() -> (r: Self)
        ensures
            r.wf(),
            r@ == Seq::<bool>::empty(),
    {
        Self::new()
    }
}

} // verus!
