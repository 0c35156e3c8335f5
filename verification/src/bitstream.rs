// Most-significant-bit-first bit reader over a byte slice.
//
// FLAC packs its fields as a stream of bits, big bit first within each byte.
// Everything the decoder reads comes through this reader. It tracks a byte
// cursor and a bit offset inside the current byte; its specification speaks
// of a single bit position into the data.

use crate::bits::{bit_at, bits_val, sign_extend, lemma_bit_index, lemma_byte_chunk, lemma_bits_val_bound, lemma_bits_val_split, low_mask32};
use crate::error::{ErrorView, FlacError, SpecResult, agrees, corrupt};
use vstd::arithmetic::power2::*;
use vstd::bits::*;
use vstd::prelude::*;

verus! {

/// A guard against a hostile stream asking us to count an unbounded run of
/// zero bits in a unary code.
pub const MAX_UNARY_BITS: u32 = 0x10_0000;

/// Reading `n` bits (at most 32) at bit position `pos`.
pub open spec fn spec_read_u32(data: Seq<u8>, pos: int, n: nat) -> SpecResult<u32> {
    if pos + n <= data.len() * 8 {
        Ok((bits_val(data, pos, n) as u32, pos + n))
    } else {
        Err(ErrorView::Truncated)
    }
}

/// Reading `n` bits (at most 64) at bit position `pos`.
pub open spec fn spec_read_u64(data: Seq<u8>, pos: int, n: nat) -> SpecResult<u64> {
    if pos + n <= data.len() * 8 {
        Ok((bits_val(data, pos, n) as u64, pos + n))
    } else {
        Err(ErrorView::Truncated)
    }
}

/// Reading `n` bits (1 to 32) as a two's-complement value.
pub open spec fn spec_read_signed(data: Seq<u8>, pos: int, n: nat) -> SpecResult<i32> {
    if pos + n <= data.len() * 8 {
        Ok((sign_extend(bits_val(data, pos, n), n) as i32, pos + n))
    } else {
        Err(ErrorView::Truncated)
    }
}

/// Reading `n` bits (1 to 33) as a two's-complement value into 64 bits.
pub open spec fn spec_read_signed_wide(data: Seq<u8>, pos: int, n: nat) -> SpecResult<i64> {
    if pos + n <= data.len() * 8 {
        Ok((sign_extend(bits_val(data, pos, n), n) as i64, pos + n))
    } else {
        Err(ErrorView::Truncated)
    }
}

/// Counting a unary code from bit `pos`, `count` zeros having been seen.
pub open spec fn spec_unary_from(data: Seq<u8>, pos: int, count: nat) -> SpecResult<u32>
    decreases MAX_UNARY_BITS + 1 - count,
{
    if pos < 0 || pos >= data.len() * 8 {
        Err(ErrorView::Truncated)
    } else if bit_at(data, pos) {
        Ok((count as u32, pos + 1))
    } else if count + 1 > MAX_UNARY_BITS {
        Err(ErrorView::CorruptStream("unary code exceeds the sane length cap"@))
    } else {
        spec_unary_from(data, pos + 1, count + 1)
    }
}

/// Reading a unary code at bit `pos`: the number of zero bits before the
/// first one bit, which is consumed too.
pub open spec fn spec_read_unary(data: Seq<u8>, pos: int) -> SpecResult<u32> {
    spec_unary_from(data, pos, 0)
}

/// The position of the next byte boundary at or after bit `pos`.
pub open spec fn align_up(pos: int) -> int {
    if pos % 8 == 0 {
        pos
    } else {
        pos - pos % 8 + 8
    }
}

/// Appending `t` bits below a value: a shift and an OR are a multiply and an
/// add when the value has room.
pub proof fn lemma_shift_in(v: u32, t: u32, b: u32)
    requires
        t <= 8,
        b <= low_mask32(t),
        (v as nat) * pow2(t as nat) <= u32::MAX,
    ensures
        (v << t) | b == (v as nat) * pow2(t as nat) + b,
{
    assert((v << t) | b == (v << t) + b) by (bit_vector)
        requires
            t <= 8,
            b <= low_mask32(t),
    ;
    lemma_u32_shl_is_mul(v, t);
}

/// Sign-extend the low `n` bits of `raw` into a signed 64-bit value.
fn sign_extend_u64(raw: u64, n: u32) -> (v: i64)
    requires
        1 <= n <= 33,
        raw < pow2(n as nat),
    ensures
        v == sign_extend(raw as nat, n as nat),
{
    proof {
        lemma2_to64();
        lemma_pow2_strictly_increases((n - 1) as nat, n as nat);
        if n < 33 {
            lemma_pow2_strictly_increases(n as nat, 33);
        }
        assert(pow2(n as nat) <= pow2(33));
        lemma2_to64_rest();
        assert(1 * pow2(((n - 1) as u64) as nat) <= u64::MAX);
        assert(1 * pow2((n as u64) as nat) <= u64::MAX);
        lemma_u64_shl_is_mul(1, (n - 1) as u64);
        lemma_u64_shl_is_mul(1, n as u64);
    }
    let sign_bit: u64 = 1u64 << ((n - 1) as u64);
    if raw >= sign_bit {
        let full: u64 = 1u64 << (n as u64);
        assert(full == pow2(n as nat));
        assert(pow2(n as nat) <= pow2(33));
        raw as i64 - full as i64
    } else {
        raw as i64
    }
}

pub struct BitReader<'a> {
    data: &'a [u8],
    /// Index of the next byte to draw bits from.
    byte_pos: usize,
    /// Number of bits already consumed from `data[byte_pos]`, 0 to 7.
    bit_pos: u8,
}

impl<'a> BitReader<'a> {
    /// The bytes being read.
    pub closed spec fn bytes(&self) -> Seq<u8> {
        self.data@
    }

    /// The bit position of the next unread bit.
    pub closed spec fn pos(&self) -> int {
        self.byte_pos * 8 + self.bit_pos
    }

    /// The cursor lies within the data.
    pub closed spec fn wf(&self) -> bool {
        &&& self.bit_pos < 8
        &&& self.byte_pos * 8 + self.bit_pos <= self.data@.len() * 8
        &&& self.data@.len() <= usize::MAX / 8
    }

    /// A well-formed cursor lies between the first and the last bit.
    pub proof fn lemma_bounds(&self)
        requires
            self.wf(),
        ensures
            0 <= self.pos() <= self.bytes().len() * 8,
            self.bytes().len() <= usize::MAX / 8,
    {
    }

    pub fn new(data: &'a [u8]) -> (r: Self)
        requires
            data@.len() <= usize::MAX / 8,
        ensures
            r.wf(),
            r.bytes() == data@,
            r.pos() == 0,
    {
        BitReader { data, byte_pos: 0, bit_pos: 0 }
    }

    /// Total bits not yet consumed.
    pub fn bits_left(&self) -> (n: usize)
        requires
            self.wf(),
        ensures
            n == self.bytes().len() * 8 - self.pos(),
    {
        (self.data.len() - self.byte_pos) * 8 - self.bit_pos as usize
    }

    /// True when the cursor sits on a byte boundary.
    pub fn is_byte_aligned(&self) -> (b: bool)
        requires
            self.wf(),
        ensures
            b == (self.pos() % 8 == 0),
    {
        proof {
            lemma_bit_index(self.byte_pos as int, self.bit_pos as int);
        }
        self.bit_pos == 0
    }

    /// Index of the next unread byte. Only meaningful when byte aligned.
    pub fn byte_position(&self) -> (p: usize)
        requires
            self.wf(),
        ensures
            p == self.pos() / 8,
    {
        proof {
            lemma_bit_index(self.byte_pos as int, self.bit_pos as int);
        }
        self.byte_pos
    }

    /// Read `n` bits (0 to 32) most-significant first into a u32.
    pub fn read_u32(&mut self, n: u32) -> (r: Result<u32, FlacError>)
        requires
            old(self).wf(),
            n <= 32,
        ensures
            final(self).wf(),
            final(self).bytes() == old(self).bytes(),
            final(self).pos() >= old(self).pos(),
            agrees(r, spec_read_u32(old(self).bytes(), old(self).pos(), n as nat)),
            r is Ok ==> final(self).pos() == old(self).pos() + n,
            r is Err ==> final(self).pos() == old(self).pos(),
    {
        let ghost data = self.data@;
        let ghost pos0 = self.pos();
        if n == 0 {
            return Ok(0);
        }
        if (self.bits_left() as u64) < n as u64 {
            return Err(FlacError::Truncated);
        }
        let mut value: u32 = 0;
        let mut remaining = n;
        while remaining > 0
            invariant
                self.wf(),
                self.data@ == data,
                remaining <= n <= 32,
                self.pos() == pos0 + (n - remaining),
                pos0 + n <= data.len() * 8,
                value as nat == bits_val(data, pos0, (n - remaining) as nat),
            decreases remaining,
        {
            let ghost k = (n - remaining) as nat;
            let ghost pos = self.pos();
            proof {
                lemma_bits_val_bound(data, pos0, k);
            }
            let cur = self.data[self.byte_pos];
            let avail = 8 - self.bit_pos;
            let take: u8 = if remaining < avail as u32 {
                remaining as u8
            } else {
                avail
            };
            let shift = avail - take;
            let t32 = take as u32;
            assert((1u32 << t32) >= 1) by (bit_vector)
                requires
                    t32 <= 8,
            ;
            let chunk: u32 = ((cur as u32) >> (shift as u32)) & ((1u32 << t32) - 1);
            proof {
                let m = low_mask32(t32);
                let x = (cur as u32) >> (shift as u32);
                assert(chunk == x & m);
                assert(x & m <= m) by (bit_vector);
                lemma_byte_chunk(data, self.byte_pos as int, self.bit_pos as int, take as int);
                lemma_bits_val_bound(data, pos, take as nat);
                lemma_pow2_adds(k, take as nat);
                lemma2_to64();
                vstd::arithmetic::mul::lemma_mul_inequality(
                    value as int + 1,
                    pow2(k) as int,
                    pow2(take as nat) as int,
                );
                vstd::arithmetic::mul::lemma_mul_is_distributive_add_other_way(
                    pow2(take as nat) as int,
                    value as int,
                    1,
                );
                if k + take < 32 {
                    lemma_pow2_strictly_increases((k + take) as nat, 32);
                }
                assert(value as nat * pow2(take as nat) <= u32::MAX);
                lemma_shift_in(value, take as u32, chunk);
                lemma_bits_val_split(data, pos0, k, take as nat);
            }
            value = (value << (take as u32)) | chunk;
            self.bit_pos += take;
            if self.bit_pos == 8 {
                self.bit_pos = 0;
                self.byte_pos += 1;
            }
            remaining -= take as u32;
        }
        Ok(value)
    }

    /// Read `n` bits (0 to 64) most-significant first into a u64.
    pub fn read_u64(&mut self, n: u32) -> (r: Result<u64, FlacError>)
        requires
            old(self).wf(),
            n <= 64,
        ensures
            final(self).wf(),
            final(self).bytes() == old(self).bytes(),
            final(self).pos() >= old(self).pos(),
            agrees(r, spec_read_u64(old(self).bytes(), old(self).pos(), n as nat)),
            r is Ok ==> final(self).pos() == old(self).pos() + n,
    {
        let ghost data = self.bytes();
        let ghost pos0 = self.pos();
        proof {
            lemma_bits_val_bound(data, pos0, n as nat);
            lemma2_to64();
        }
        if n <= 32 {
            proof {
                if n < 32 {
                    lemma_pow2_strictly_increases(n as nat, 32);
                }
            }
            return match self.read_u32(n) {
                Ok(v) => Ok(v as u64),
                Err(e) => Err(e),
            };
        }
        let high = match self.read_u32(n - 32) {
            Ok(v) => v as u64,
            Err(e) => return Err(e),
        };
        let low = match self.read_u32(32) {
            Ok(v) => v as u64,
            Err(e) => return Err(e),
        };
        proof {
            lemma_bits_val_split(data, pos0, (n - 32) as nat, 32);
            lemma_bits_val_bound(data, pos0, (n - 32) as nat);
            lemma_bits_val_bound(data, pos0 + n - 32, 32);
            if n < 64 {
                lemma_pow2_strictly_increases(n as nat, 64);
            }
            lemma_pow2_adds((n - 32) as nat, 32);
            vstd::arithmetic::mul::lemma_mul_inequality(
                high as int,
                pow2((n - 32) as nat) as int,
                pow2(32) as int,
            );
            lemma_u64_shl_is_mul(high, 32);
            assert((high << 32u64) | low == (high << 32u64) + low) by (bit_vector)
                requires
                    low < 0x1_0000_0000,
            ;
        }
        Ok((high << 32u64) | low)
    }

    /// Read `n` bits (1 to 32) as a two's-complement signed value,
    /// sign-extended.
    pub fn read_signed(&mut self, n: u32) -> (r: Result<i32, FlacError>)
        requires
            old(self).wf(),
            1 <= n <= 32,
        ensures
            final(self).wf(),
            final(self).bytes() == old(self).bytes(),
            final(self).pos() >= old(self).pos(),
            agrees(r, spec_read_signed(old(self).bytes(), old(self).pos(), n as nat)),
            r is Ok ==> final(self).pos() == old(self).pos() + n,
    {
        let ghost data = self.bytes();
        let ghost pos0 = self.pos();
        let raw = match self.read_u32(n) {
            Ok(v) => v,
            Err(e) => return Err(e),
        };
        proof {
            lemma_bits_val_bound(data, pos0, n as nat);
            lemma2_to64();
            if n < 32 {
                lemma_pow2_strictly_increases(n as nat, 32);
            }
            lemma_pow2_strictly_increases((n - 1) as nat, n as nat);
        }
        let v = sign_extend_u64(raw as u64, n);
        Ok(v as i32)
    }

    /// Read `n` bits (1 to 33) as a two's-complement signed value into an
    /// i64. A side channel of a 32-bit stream carries 33 bits.
    pub fn read_signed_wide(&mut self, n: u32) -> (r: Result<i64, FlacError>)
        requires
            old(self).wf(),
            1 <= n <= 33,
        ensures
            final(self).wf(),
            final(self).bytes() == old(self).bytes(),
            final(self).pos() >= old(self).pos(),
            agrees(r, spec_read_signed_wide(old(self).bytes(), old(self).pos(), n as nat)),
            r is Ok ==> final(self).pos() == old(self).pos() + n,
    {
        let ghost data = self.bytes();
        let ghost pos0 = self.pos();
        let raw = match self.read_u64(n) {
            Ok(v) => v,
            Err(e) => return Err(e),
        };
        proof {
            lemma_bits_val_bound(data, pos0, n as nat);
            lemma2_to64();
            lemma_pow2_strictly_increases(n as nat, 64);
        }
        Ok(sign_extend_u64(raw, n))
    }

    /// Read a unary-coded value: the number of zero bits before the first one
    /// bit. The terminating one bit is consumed.
    pub fn read_unary(&mut self) -> (r: Result<u32, FlacError>)
        requires
            old(self).wf(),
        ensures
            final(self).wf(),
            final(self).bytes() == old(self).bytes(),
            final(self).pos() >= old(self).pos(),
            agrees(r, spec_read_unary(old(self).bytes(), old(self).pos())),
            r matches Ok(v) ==> v <= MAX_UNARY_BITS,
            spec_read_unary(old(self).bytes(), old(self).pos()) matches Ok((_, p)) ==> final(self).pos() == p,
            r is Err ==> final(self).pos() <= old(self).pos() + MAX_UNARY_BITS + 1,
    {
        let ghost data = self.bytes();
        let ghost pos0 = self.pos();
        let mut count: u32 = 0;
        loop
            invariant
                self.wf(),
                self.bytes() == data,
                data == old(self).bytes(),
                pos0 == old(self).pos(),
                self.pos() >= pos0,
                self.pos() == pos0 + count,
                count <= MAX_UNARY_BITS,
                spec_read_unary(data, pos0) == spec_unary_from(data, self.pos(), count as nat),
            decreases MAX_UNARY_BITS - count,
        {
            if self.bits_left() == 0 {
                return Err(FlacError::Truncated);
            }
            let ghost p = self.pos();
            let bit = match self.read_u32(1) {
                Ok(b) => b,
                Err(e) => return Err(e),
            };
            assert(bits_val(data, p, 1) == if bit_at(data, p) { 1nat } else { 0nat }) by {
                assert(bits_val(data, p, 0) == 0);
            }
            if bit == 1 {
                return Ok(count);
            }
            count += 1;
            if count > MAX_UNARY_BITS {
                return Err(corrupt("unary code exceeds the sane length cap"));
            }
        }
    }

    /// Advance to the next byte boundary, discarding any partial bits.
    pub fn align_to_byte(&mut self)
        requires
            old(self).wf(),
        ensures
            final(self).wf(),
            final(self).bytes() == old(self).bytes(),
            final(self).pos() == align_up(old(self).pos()),
            final(self).pos() >= old(self).pos(),
    {
        proof {
            lemma_bit_index(self.byte_pos as int, self.bit_pos as int);
        }
        if self.bit_pos != 0 {
            self.bit_pos = 0;
            self.byte_pos += 1;
        }
    }

    /// Borrow the underlying bytes.
    pub fn data(&self) -> (d: &'a [u8])
        ensures
            d@ == self.bytes(),
    {
        self.data
    }
}

} // verus!
