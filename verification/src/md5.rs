// A small, self-contained MD5 implementation.
//
// FLAC stores an MD5 digest of the unencoded samples in STREAMINFO. Computing
// the same digest over our decoded samples is the strongest possible decode
// self-check. The encoder writes this digest too. MD5 is used here purely as
// a checksum. The specification below is RFC 1321: pad the message, absorb it
// a 64-byte block at a time, and emit the state little-endian.

use vstd::prelude::*;

verus! {

/// The per-round left-rotation amounts.
pub open spec fn md5_s() -> Seq<u32> {
    seq![
        7u32, 12, 17, 22, 7, 12, 17, 22, 7, 12, 17, 22, 7, 12, 17, 22, 5, 9, 14, 20, 5, 9, 14, 20, 5,
        9, 14, 20, 5, 9, 14, 20, 4, 11, 16, 23, 4, 11, 16, 23, 4, 11, 16, 23, 4, 11, 16, 23, 6, 10,
        15, 21, 6, 10, 15, 21, 6, 10, 15, 21, 6, 10, 15, 21,
    ]
}

/// The per-round additive constants.
pub open spec fn md5_k() -> Seq<u32> {
    seq![
        0xd76aa478u32, 0xe8c7b756, 0x242070db, 0xc1bdceee, 0xf57c0faf, 0x4787c62a, 0xa8304613,
        0xfd469501, 0x698098d8, 0x8b44f7af, 0xffff5bb1, 0x895cd7be, 0x6b901122, 0xfd987193,
        0xa679438e, 0x49b40821, 0xf61e2562, 0xc040b340, 0x265e5a51, 0xe9b6c7aa, 0xd62f105d,
        0x02441453, 0xd8a1e681, 0xe7d3fbc8, 0x21e1cde6, 0xc33707d6, 0xf4d50d87, 0x455a14ed,
        0xa9e3e905, 0xfcefa3f8, 0x676f02d9, 0x8d2a4c8a, 0xfffa3942, 0x8771f681, 0x6d9d6122,
        0xfde5380c, 0xa4beea44, 0x4bdecfa9, 0xf6bb4b60, 0xbebfbc70, 0x289b7ec6, 0xeaa127fa,
        0xd4ef3085, 0x04881d05, 0xd9d4d039, 0xe6db99e5, 0x1fa27cf8, 0xc4ac5665, 0xf4292244,
        0x432aff97, 0xab9423a7, 0xfc93a039, 0x655b59c3, 0x8f0ccc92, 0xffeff47d, 0x85845dd1,
        0x6fa87e4f, 0xfe2ce6e0, 0xa3014314, 0x4e0811a1, 0xf7537e82, 0xbd3af235, 0x2ad7d2bb,
        0xeb86d391,
    ]
}

/// The four state words.
pub type Md5State = (u32, u32, u32, u32);

/// The initial state.
pub open spec fn md5_init() -> Md5State {
    (0x67452301u32, 0xefcdab89u32, 0x98badcfeu32, 0x10325476u32)
}

/// Left rotation of a 32-bit word by `s` (1 to 31) bits.
pub open spec fn rotl(x: u32, s: u32) -> u32 {
    (x << s) | (x >> ((32 - s) as u32))
}

/// The little-endian word at byte `i` of a block.
pub open spec fn le_word(b: Seq<u8>, i: int) -> u32 {
    (b[i] as u32) | ((b[i + 1] as u32) << 8u32) | ((b[i + 2] as u32) << 16u32) | ((b[i + 3] as u32)
        << 24u32)
}

/// The round function and message word index of round `i`.
pub open spec fn md5_fg(b: u32, c: u32, d: u32, i: int) -> (u32, int) {
    if i < 16 {
        ((b & c) | (!b & d), i)
    } else if i < 32 {
        ((d & b) | (!d & c), (5 * i + 1) % 16)
    } else if i < 48 {
        (b ^ c ^ d, (3 * i + 5) % 16)
    } else {
        (c ^ (b | !d), (7 * i) % 16)
    }
}

/// Round `i` of the compression function.
pub open spec fn md5_step(st: Md5State, block: Seq<u8>, i: int) -> Md5State {
    let (a, b, c, d) = st;
    let (f, g) = md5_fg(b, c, d, i);
    let sum = a.wrapping_add(f).wrapping_add(md5_k()[i]).wrapping_add(le_word(block, 4 * g));
    (d, b.wrapping_add(rotl(sum, md5_s()[i])), b, c)
}

/// The first `i` rounds of the compression function.
pub open spec fn md5_rounds(st: Md5State, block: Seq<u8>, i: nat) -> Md5State
    decreases i,
{
    if i == 0 {
        st
    } else {
        md5_step(md5_rounds(st, block, (i - 1) as nat), block, i - 1)
    }
}

/// The compression function: 64 rounds, then the feed-forward addition.
pub open spec fn md5_compress(st: Md5State, block: Seq<u8>) -> Md5State {
    let r = md5_rounds(st, block, 64);
    (st.0.wrapping_add(r.0), st.1.wrapping_add(r.1), st.2.wrapping_add(r.2), st.3.wrapping_add(r.3))
}

/// The state after absorbing every whole 64-byte block of `data`.
pub open spec fn md5_absorb(data: Seq<u8>) -> Md5State
    decreases data.len(),
{
    if data.len() < 64 {
        md5_init()
    } else {
        md5_compress(md5_absorb(data.take(data.len() - 64)), data.skip(data.len() - 64))
    }
}

/// The number of zero bytes between the 0x80 marker and the length field.
pub open spec fn md5_zero_pad(len: nat) -> nat {
    ((119 - len % 64) % 64) as nat
}

/// The little-endian bytes of a 64-bit value.
pub open spec fn le64(v: u64) -> Seq<u8> {
    Seq::new(8, |j: int| (v >> ((8 * j) as u64)) as u8)
}

/// The padding appended to a message of `len` bytes.
pub open spec fn md5_padding(len: nat) -> Seq<u8> {
    seq![0x80u8] + Seq::new(md5_zero_pad(len), |i: int| 0u8) + le64(((len * 8) % 0x1_0000_0000_0000_0000) as u64)
}

/// The little-endian bytes of the state.
pub open spec fn state_bytes(st: Md5State) -> Seq<u8> {
    let w = seq![st.0, st.1, st.2, st.3];
    Seq::new(16, |i: int| (w[i / 4] >> ((8 * (i % 4)) as u32)) as u8)
}

/// The MD5 digest of a message.
pub open spec fn spec_md5(m: Seq<u8>) -> Seq<u8> {
    state_bytes(md5_absorb(m + md5_padding(m.len())))
}

/// Absorbing one more whole block.
pub proof fn lemma_absorb_block(p: Seq<u8>, b: Seq<u8>)
    requires
        b.len() == 64,
    ensures
        md5_absorb(p + b) == md5_compress(md5_absorb(p), b),
{
    assert((p + b).take((p + b).len() - 64) =~= p);
    assert((p + b).skip((p + b).len() - 64) =~= b);
}

/// Adding to a count kept modulo 2^64.
proof fn lemma_wrapping_count(l: nat, x: u64, y: nat)
    requires
        x == l % 0x1_0000_0000_0000_0000,
        y < 0x1_0000_0000_0000_0000,
    ensures
        x.wrapping_add(y as u64) == (l + y) % 0x1_0000_0000_0000_0000,
{
    let m = 0x1_0000_0000_0000_0000int;
    vstd::arithmetic::div_mod::lemma_add_mod_noop(l as int, y as int, m);
    vstd::arithmetic::div_mod::lemma_small_mod(y, m as nat);
    if x + y >= m {
        vstd::arithmetic::div_mod::lemma_mod_sub_multiples_vanish(x + y, m);
        vstd::arithmetic::div_mod::lemma_small_mod((x + y - m) as nat, m as nat);
    } else {
        vstd::arithmetic::div_mod::lemma_small_mod((x + y) as nat, m as nat);
    }
}

/// The hasher's state words, buffer and buffer length reflect message `m`.
pub open spec fn consistent(st: [u32; 4], buf: [u8; 64], bl: usize, m: Seq<u8>) -> bool {
    let done = (m.len() - bl) as int;
    &&& bl < 64
    &&& bl <= m.len()
    &&& done % 64 == 0
    &&& (st[0], st[1], st[2], st[3]) == md5_absorb(m.take(done))
    &&& buf@.take(bl as int) == m.skip(done)
}

/// Streaming MD5 hasher.
pub struct Md5 {
    state: [u32; 4],
    /// Bytes hashed so far (for the length padding).
    length: u64,
    /// Partial block waiting for more input.
    buffer: [u8; 64],
    buffer_len: usize,
    /// Every byte hashed so far.
    absorbed: Ghost<Seq<u8>>,
}

impl View for Md5 {
    type V = Seq<u8>;

    closed spec fn view(&self) -> Seq<u8> {
        self.absorbed@
    }
}

impl Md5 {
    /// The hasher's state reflects every byte absorbed.
    pub closed spec fn wf(&self) -> bool {
        &&& consistent(self.state, self.buffer, self.buffer_len, self.absorbed@)
        &&& self.length == self.absorbed@.len() % 0x1_0000_0000_0000_0000
    }

    pub fn new() -> (h: Self)
        ensures
            h.wf(),
            h@ == Seq::<u8>::empty(),
    {
        let h = Md5 {
            state: [0x67452301, 0xefcdab89, 0x98badcfe, 0x10325476],
            length: 0,
            buffer: [0u8; 64],
            buffer_len: 0,
            absorbed: Ghost(Seq::empty()),
        };
        assert(h.absorbed@.take(0) =~= Seq::<u8>::empty());
        assert(h.buffer@.take(0) =~= h.absorbed@.skip(0));
        h
    }

    /// Absorb `data` into the hash.
    pub fn update(&mut self, data: &[u8])
        requires
            old(self).wf(),
        ensures
            final(self).wf(),
            final(self)@ == old(self)@ + data@,
    {
        let ghost m0 = self.absorbed@;
        let dl = data.len();
        assert(dl < 0x1_0000_0000_0000_0000);
        proof {
            lemma_wrapping_count(m0.len(), self.length, data@.len());
        }
        self.length = self.length.wrapping_add(data.len() as u64);
        let mut off: usize = 0;
        assert(data@.take(0) =~= Seq::<u8>::empty());
        assert(m0 + data@.take(0) =~= m0);
        // Top up an existing partial block first.
        while self.buffer_len != 0 && off < data.len()
            invariant
                off <= data@.len(),
                consistent(self.state, self.buffer, self.buffer_len, self.absorbed@),
                self.absorbed@ == m0 + data@.take(off as int),
                self.length == (m0.len() + data@.len()) % 0x1_0000_0000_0000_0000,
            decreases data@.len() - off,
        {
            self.absorb_byte(data[off]);
            off += 1;
            assert(m0 + data@.take(off as int) =~= (m0 + data@.take((off - 1) as int)).push(
                data@[off - 1],
            ));
        }
        while data.len() - off >= 64
            invariant
                off <= data@.len(),
                consistent(self.state, self.buffer, self.buffer_len, self.absorbed@),
                self.absorbed@ == m0 + data@.take(off as int),
                self.buffer_len == 0 || off == data@.len(),
                self.length == (m0.len() + data@.len()) % 0x1_0000_0000_0000_0000,
            decreases data@.len() - off,
        {
            self.absorb_block(data, off);
            off += 64;
            assert(m0 + data@.take(off as int) =~= m0 + data@.take((off - 64) as int)
                + data@.subrange(off - 64, off as int));
        }
        while off < data.len()
            invariant
                off <= data@.len(),
                consistent(self.state, self.buffer, self.buffer_len, self.absorbed@),
                self.absorbed@ == m0 + data@.take(off as int),
                self.length == (m0.len() + data@.len()) % 0x1_0000_0000_0000_0000,
            decreases data@.len() - off,
        {
            self.absorb_byte(data[off]);
            off += 1;
            assert(m0 + data@.take(off as int) =~= (m0 + data@.take((off - 1) as int)).push(
                data@[off - 1],
            ));
        }
        assert(data@.take(data@.len() as int) =~= data@);
    }

    /// Absorb one byte.
    #[verifier::spinoff_prover]
    #[verifier::rlimit(40)]
    fn absorb_byte(&mut self, byte: u8)
        requires
            consistent(old(self).state, old(self).buffer, old(self).buffer_len, old(self).absorbed@),
        ensures
            consistent(final(self).state, final(self).buffer, final(self).buffer_len, final(self).absorbed@),
            final(self).absorbed@ == old(self).absorbed@.push(byte),
            final(self).length == old(self).length,
            final(self).buffer_len == (old(self).buffer_len + 1) % 64,
    {
        let ghost m0 = self.absorbed@;
        let bl = self.buffer_len;
        let ghost done = m0.len() - bl;
        let ghost old_buf = self.buffer@;
        self.buffer[bl] = byte;
        self.buffer_len = bl + 1;
        proof {
            let m1 = m0.push(byte);
            assert(old_buf.take(bl as int) == m0.skip(done));
            assert forall|t: int| 0 <= t < bl + 1 implies self.buffer@.take(bl + 1)[t] == m1.skip(
                done,
            )[t] by {
                if t < bl {
                    assert(old_buf.take(bl as int)[t] == m0.skip(done)[t]);
                }
            }
            assert(self.buffer@.take(bl + 1) =~= m1.skip(done));
            assert(m1.take(done) =~= m0.take(done));
            self.absorbed = Ghost(m1);
        }
        if self.buffer_len == 64 {
            let block = self.buffer;
            let ghost m1 = self.absorbed@;
            proof {
                assert(block@ =~= m1.skip(done));
                lemma_absorb_block(m1.take(done), block@);
                assert(m1.take(done) + block@ =~= m1);
                assert(m1.take(m1.len() as int) =~= m1);
            }
            self.process(&block);
            self.buffer_len = 0;
            proof {
                assert(self.buffer@.take(0) =~= m1.skip(m1.len() as int));
            }
        }
    }

    /// Absorb the 64 bytes of `data` at `off` while no partial block is held.
    fn absorb_block(&mut self, data: &[u8], off: usize)
        requires
            consistent(old(self).state, old(self).buffer, old(self).buffer_len, old(self).absorbed@),
            old(self).buffer_len == 0,
            off + 64 <= data@.len(),
        ensures
            consistent(final(self).state, final(self).buffer, final(self).buffer_len, final(self).absorbed@),
            final(self).absorbed@ == old(self).absorbed@ + data@.subrange(off as int, off + 64),
            final(self).length == old(self).length,
            final(self).buffer_len == 0,
    {
        let dl = data.len();
        let mut block = [0u8; 64];
        let mut k: usize = 0;
        while k < 64
            invariant
                k <= 64,
                dl == data@.len(),
                off + 64 <= dl,
                forall|t: int| 0 <= t < k ==> block@[t] == data@[off + t],
            decreases 64 - k,
        {
            block[k] = data[off + k];
            k += 1;
        }
        let ghost m1 = self.absorbed@;
        proof {
            assert(block@ =~= data@.subrange(off as int, off + 64));
            assert(m1.take(m1.len() as int) =~= m1);
            lemma_absorb_block(m1, block@);
        }
        self.process(&block);
        proof {
            let m2 = m1 + block@;
            self.absorbed = Ghost(m2);
            assert(m2.take(m2.len() as int) =~= m2);
            assert(self.buffer@.take(0) =~= m2.skip(m2.len() as int));
        }
    }

    /// Absorb zero bytes until 56 bytes of a block are held.
    fn pad_to_length_field(&mut self)
        requires
            consistent(old(self).state, old(self).buffer, old(self).buffer_len, old(self).absorbed@),
            old(self).absorbed@.len() >= 1,
        ensures
            consistent(final(self).state, final(self).buffer, final(self).buffer_len, final(self).absorbed@),
            final(self).buffer_len == 56,
            final(self).length == old(self).length,
            final(self).absorbed@ == old(self).absorbed@ + Seq::new(
                md5_zero_pad((old(self).absorbed@.len() - 1) as nat),
                |i: int| 0u8,
            ),
    {
        let ghost m0 = self.absorbed@;
        let ghost l = m0.len();
        let ghost target = md5_zero_pad((l - 1) as nat);
        let ghost mut pads: nat = 0;
        proof {
            assert(m0 + Seq::new(0, |i: int| 0u8) =~= m0);
            assert(target == (119 - (l - 1) % 64) % 64);
        }
        while self.buffer_len != 56
            invariant
                consistent(self.state, self.buffer, self.buffer_len, self.absorbed@),
                self.length == old(self).length,
                m0 == old(self).absorbed@,
                l == m0.len(),
                l >= 1,
                target == md5_zero_pad((l - 1) as nat),
                target == (119 - (l - 1) % 64) % 64,
                self.absorbed@ == m0 + Seq::new(pads, |i: int| 0u8),
                self.absorbed@.len() == l + pads,
                pads <= target,
            decreases target - pads,
        {
            proof {
                let bl = self.buffer_len;
                // The held bytes are the absorbed count modulo the block size.
                assert((l + pads) % 64 == bl) by (nonlinear_arith)
                    requires
                        bl < 64,
                        (l + pads - bl) % 64 == 0,
                        l + pads >= bl,
                ;
                if pads == target {
                    assert(false) by (nonlinear_arith)
                        requires
                            target == (119 - (l - 1) % 64) % 64,
                            pads == target,
                            (l + pads) % 64 == bl,
                            bl != 56,
                            l >= 0,
                    ;
                }
            }
            self.absorb_byte(0);
            proof {
                assert(m0 + Seq::new(pads + 1, |i: int| 0u8) =~= (m0 + Seq::new(pads, |i: int| 0u8)).push(0u8));
                pads = pads + 1;
            }
        }
        proof {
            let bl = self.buffer_len;
            assert((l + pads) % 64 == 56) by (nonlinear_arith)
                requires
                    bl == 56,
                    (l + pads - bl) % 64 == 0,
                    l + pads >= bl,
            ;
            assert(pads == target) by (nonlinear_arith)
                requires
                    target == (119 - (l - 1) % 64) % 64,
                    pads <= target,
                    (l + pads) % 64 == 56,
            ;
        }
    }

    /// Finish the hash and return the 16-byte digest.
    pub fn finalize(self) -> (digest: [u8; 16])
        requires
            self.wf(),
        ensures
            digest@ == spec_md5(self@),
    {
        let ghost msg = self@;
        let mut h = self;
        proof {
            vstd::arithmetic::div_mod::lemma_mul_mod_noop_left(
                msg.len() as int,
                8,
                0x1_0000_0000_0000_0000int,
            );
        }
        let bit_len = h.length.wrapping_mul(8);
        assert(bit_len == (msg.len() * 8) % 0x1_0000_0000_0000_0000);
        // Append the 0x80 terminator then zero-pad to 56 mod 64.
        let marker: [u8; 1] = [0x80];
        assert(marker@ =~= seq![0x80u8]);
        h.update(&marker);
        h.pad_to_length_field();
        let ghost mp = h.absorbed@;
        assert(mp =~= msg + seq![0x80u8] + Seq::new(md5_zero_pad(msg.len()), |i: int| 0u8));
        // Write the length directly into the buffer and process.
        let mut j: usize = 0;
        while j < 8
            invariant
                j <= 8,
                h.absorbed@ == mp,
                h.buffer_len == 56,
                consistent(h.state, h.buffer, h.buffer_len, h.absorbed@),
                forall|t: int| 0 <= t < j ==> h.buffer@[56 + t] == le64(bit_len)[t],
            decreases 8 - j,
        {
            let ghost old_buf = h.buffer@;
            h.buffer[56 + j] = (bit_len >> ((8 * j) as u64)) as u8;
            assert(h.buffer@.take(56) =~= old_buf.take(56));
            j += 1;
        }
        let block = h.buffer;
        let ghost m1 = h.absorbed@;
        let ghost done = m1.len() - 56;
        proof {
            assert(block@ =~= m1.skip(done) + le64(bit_len));
            lemma_absorb_block(m1.take(done), block@);
            assert(m1.take(done) + block@ =~= msg + md5_padding(msg.len()));
        }
        h.process(&block);

        let mut out = [0u8; 16];
        let mut i: usize = 0;
        let ghost st = (h.state[0], h.state[1], h.state[2], h.state[3]);
        while i < 16
            invariant
                i <= 16,
                st == (h.state[0], h.state[1], h.state[2], h.state[3]),
                forall|t: int| 0 <= t < i ==> out@[t] == state_bytes(st)[t],
            decreases 16 - i,
        {
            out[i] = (h.state[i / 4] >> ((8 * (i % 4)) as u32)) as u8;
            i += 1;
        }
        assert(out@ =~= state_bytes(st));
        out
    }

    /// Run the compression function over one block.
    fn process(&mut self, block: &[u8; 64])
        ensures
            (final(self).state[0], final(self).state[1], final(self).state[2], final(self).state[3])
                == md5_compress(
                (old(self).state[0], old(self).state[1], old(self).state[2], old(self).state[3]),
                block@,
            ),
            final(self).length == old(self).length,
            final(self).buffer == old(self).buffer,
            final(self).buffer_len == old(self).buffer_len,
            final(self).absorbed == old(self).absorbed,
    {
        let s_tab: [u32; 64] = [
            7, 12, 17, 22, 7, 12, 17, 22, 7, 12, 17, 22, 7, 12, 17, 22, 5, 9, 14, 20, 5, 9, 14, 20,
            5, 9, 14, 20, 5, 9, 14, 20, 4, 11, 16, 23, 4, 11, 16, 23, 4, 11, 16, 23, 4, 11, 16, 23,
            6, 10, 15, 21, 6, 10, 15, 21, 6, 10, 15, 21, 6, 10, 15, 21,
        ];
        let k_tab: [u32; 64] = [
            0xd76aa478, 0xe8c7b756, 0x242070db, 0xc1bdceee, 0xf57c0faf, 0x4787c62a, 0xa8304613,
            0xfd469501, 0x698098d8, 0x8b44f7af, 0xffff5bb1, 0x895cd7be, 0x6b901122, 0xfd987193,
            0xa679438e, 0x49b40821, 0xf61e2562, 0xc040b340, 0x265e5a51, 0xe9b6c7aa, 0xd62f105d,
            0x02441453, 0xd8a1e681, 0xe7d3fbc8, 0x21e1cde6, 0xc33707d6, 0xf4d50d87, 0x455a14ed,
            0xa9e3e905, 0xfcefa3f8, 0x676f02d9, 0x8d2a4c8a, 0xfffa3942, 0x8771f681, 0x6d9d6122,
            0xfde5380c, 0xa4beea44, 0x4bdecfa9, 0xf6bb4b60, 0xbebfbc70, 0x289b7ec6, 0xeaa127fa,
            0xd4ef3085, 0x04881d05, 0xd9d4d039, 0xe6db99e5, 0x1fa27cf8, 0xc4ac5665, 0xf4292244,
            0x432aff97, 0xab9423a7, 0xfc93a039, 0x655b59c3, 0x8f0ccc92, 0xffeff47d, 0x85845dd1,
            0x6fa87e4f, 0xfe2ce6e0, 0xa3014314, 0x4e0811a1, 0xf7537e82, 0xbd3af235, 0x2ad7d2bb,
            0xeb86d391,
        ];
        assert(s_tab@ =~= md5_s());
        assert(k_tab@ =~= md5_k());
        let mut m = [0u32; 16];
        let mut j: usize = 0;
        while j < 16
            invariant
                j <= 16,
                forall|t: int| 0 <= t < j ==> m@[t] == le_word(block@, 4 * t),
            decreases 16 - j,
        {
            m[j] = (block[4 * j] as u32) | ((block[4 * j + 1] as u32) << 8u32) | ((block[4 * j
                + 2] as u32) << 16u32) | ((block[4 * j + 3] as u32) << 24u32);
            j += 1;
        }
        let ghost st0 = (self.state[0], self.state[1], self.state[2], self.state[3]);
        let mut a = self.state[0];
        let mut b = self.state[1];
        let mut c = self.state[2];
        let mut d = self.state[3];
        let mut i: usize = 0;
        while i < 64
            invariant
                i <= 64,
                s_tab@ == md5_s(),
                k_tab@ == md5_k(),
                forall|t: int| 0 <= t < 16 ==> m@[t] == le_word(block@, 4 * t),
                (a, b, c, d) == md5_rounds(st0, block@, i as nat),
            decreases 64 - i,
        {
            let (f, g) = if i < 16 {
                ((b & c) | (!b & d), i)
            } else if i < 32 {
                ((d & b) | (!d & c), (5 * i + 1) % 16)
            } else if i < 48 {
                (b ^ c ^ d, (3 * i + 5) % 16)
            } else {
                (c ^ (b | !d), (7 * i) % 16)
            };
            let tmp = d;
            d = c;
            c = b;
            let sum = a.wrapping_add(f).wrapping_add(k_tab[i]).wrapping_add(m[g]);
            let s = s_tab[i];
            b = b.wrapping_add((sum << s) | (sum >> (32 - s)));
            a = tmp;
            i += 1;
        }
        self.state[0] = self.state[0].wrapping_add(a);
        self.state[1] = self.state[1].wrapping_add(b);
        self.state[2] = self.state[2].wrapping_add(c);
        self.state[3] = self.state[3].wrapping_add(d);
    }
}

/// One-shot convenience digest.
pub fn digest(data: &[u8]) -> (d: [u8; 16])
    ensures
        d@ == spec_md5(data@),
{
    let mut h = Md5::new();
    h.update(data);
    assert(Seq::<u8>::empty() + data@ =~= data@);
    h.finalize()
}

impl Default for Md5 {
    /// The same as [`Md5::new`].
    fn default() -> (r: Self)
        ensures
            r.wf(),
            r@ == Seq::<u8>::empty(),
    {
        Self::new()
    }
}

} // verus!
