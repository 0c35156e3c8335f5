// The bit-level model shared by the reader and the writer.
//
// A byte slice is read as a stream of bits, most significant bit first within
// each byte. Bit `i` of the stream is bit `7 - i % 8` of byte `i / 8`. A run of
// `n` bits starting at bit `pos` denotes the big-endian number they spell.

use vstd::arithmetic::power2::*;
use vstd::prelude::*;

verus! {

/// Bit `i` of the byte sequence, most significant bit first within each byte.
pub open spec fn bit_at(data: Seq<u8>, i: int) -> bool {
    (data[i / 8] >> ((7 - i % 8) as u8)) & 1u8 == 1u8
}

/// The number spelled, most significant bit first, by the `n` bits of `data`
/// that start at bit `pos`.
pub open spec fn bits_val(data: Seq<u8>, pos: int, n: nat) -> nat
    decreases n,
{
    if n == 0 {
        0
    } else {
        2 * bits_val(data, pos, (n - 1) as nat) + if bit_at(data, pos + n - 1) {
            1nat
        } else {
            0nat
        }
    }
}

/// The low `t` bits set, as a 32-bit mask.
pub open spec fn low_mask32(t: u32) -> u32 {
    ((1u32 << t) - 1) as u32
}

/// Two's-complement reading of an `n`-bit unsigned value.
pub open spec fn sign_extend(v: nat, n: nat) -> int {
    if n > 0 && v >= pow2((n - 1) as nat) {
        v - pow2(n)
    } else {
        v as int
    }
}

/// The value of a run of bits is below two to the length of the run.
pub proof fn lemma_bits_val_bound(data: Seq<u8>, pos: int, n: nat)
    ensures
        bits_val(data, pos, n) < pow2(n),
    decreases n,
{
    lemma2_to64();
    if n > 0 {
        lemma_bits_val_bound(data, pos, (n - 1) as nat);
        lemma_pow2_unfold(n);
    }
}

/// Splitting a run of bits: the first `a` bits are the high part.
pub proof fn lemma_bits_val_split(data: Seq<u8>, pos: int, a: nat, b: nat)
    ensures
        bits_val(data, pos, a + b) == bits_val(data, pos, a) * pow2(b) + bits_val(
            data,
            pos + a,
            b,
        ),
    decreases b,
{
    reveal(pow2);
    if b == 0 {
        lemma2_to64();
    } else {
        lemma_bits_val_split(data, pos, a, (b - 1) as nat);
        lemma_pow2_unfold(b);
        assert(bits_val(data, pos, a + b) == 2 * bits_val(data, pos, (a + b - 1) as nat) + (
        if bit_at(data, pos + a + b - 1) {
            1nat
        } else {
            0nat
        }));
        assert(bits_val(data, pos + a, b) == 2 * bits_val(data, pos + a, (b - 1) as nat) + (
        if bit_at(data, pos + a + b - 1) {
            1nat
        } else {
            0nat
        }));
        let x = bits_val(data, pos, a);
        let p = pow2((b - 1) as nat);
        assert(2 * (x * p) == x * (2 * p)) by (nonlinear_arith);
    }
}

proof fn lemma_byte_chunk_step(b: u32, s: u32, t: u32)
    requires
        b < 256,
        1 <= t,
        s + t <= 8,
    ensures
        (b >> s) & low_mask32(t) == ((b >> (s + 1)) & low_mask32((t - 1) as u32)) * 2 + ((b >> s)
            & 1),
{
    assert((b >> s) & low_mask32(t) == ((b >> (s + 1)) & low_mask32((t - 1) as u32)) * 2 + ((b
        >> s) & 1)) by (bit_vector)
        requires
            b < 256,
            1 <= t,
            s + t <= 8,
    ;
}

/// Position arithmetic: bit `8 k + j` (with `j < 8`) lies in byte `k`.
pub proof fn lemma_bit_index(k: int, j: int)
    requires
        0 <= j < 8,
    ensures
        (8 * k + j) / 8 == k,
        (8 * k + j) % 8 == j,
{
    assert((8 * k + j) / 8 == k) by (nonlinear_arith)
        requires
            0 <= j < 8,
    ;
    assert((8 * k + j) % 8 == j) by (nonlinear_arith)
        requires
            0 <= j < 8,
    ;
}

/// The `take` bits of byte `k` that begin `off` bits into it spell the value
/// obtained by shifting the byte right and masking.
pub proof fn lemma_byte_chunk(data: Seq<u8>, k: int, off: int, take: int)
    requires
        0 <= k < data.len(),
        0 <= off,
        1 <= take,
        off + take <= 8,
    ensures
        (((data[k] as u32) >> ((8 - off - take) as u32)) & low_mask32(take as u32)) as nat
            == bits_val(data, 8 * k + off, take as nat),
    decreases take,
{
    let b = data[k] as u32;
    let s = (8 - off - take) as u32;
    lemma_bit_index(k, off + take - 1);
    let i = 8 * k + off + take - 1;
    assert(i / 8 == k);
    assert(i % 8 == off + take - 1);
    let d = data[k];
    let sh: u8 = (7 - (off + take - 1)) as u8;
    assert(sh as u32 == s);
    assert(((d >> sh) & 1u8 == 1u8) == (((d as u32) >> s) & 1 == 1) && ((d as u32) >> s) & 1 <= 1)
        by (bit_vector)
        requires
            sh as u32 == s,
            s < 8,
    ;
    if take == 1 {
        assert(((b >> s) & low_mask32(1)) == (b >> s) & 1) by (bit_vector);
        assert(bits_val(data, 8 * k + off, 0) == 0);
    } else {
        lemma_byte_chunk(data, k, off, take - 1);
        lemma_byte_chunk_step(b, s, take as u32);
        assert((s + 1) as u32 == (8 - off - (take - 1)) as u32);
    }
}

/// The bits of a byte sequence, in reading order.
pub open spec fn bits_of_bytes(s: Seq<u8>) -> Seq<bool> {
    Seq::new(s.len() * 8, |i: int| bit_at(s, i))
}

/// The first `k` bits (most significant first) of a byte.
pub open spec fn byte_bits(c: u8, k: nat) -> Seq<bool> {
    Seq::new(k, |j: int| (c >> ((7 - j) as u8)) & 1u8 == 1u8)
}

/// The low `n` bits (at most 64) of `v`, most significant first.
pub open spec fn bits_of(v: u64, n: nat) -> Seq<bool> {
    Seq::new(n, |i: int| (v >> ((n - 1 - i) as u64)) & 1u64 == 1u64)
}

/// A run of `n` zero bits.
pub open spec fn zeros(n: nat) -> Seq<bool> {
    Seq::new(n, |i: int| false)
}

/// The low `t` bits set, as an 8-bit mask.
pub open spec fn low_mask8(t: u8) -> u8 {
    (((1u32 << (t as u32)) - 1) as u32) as u8
}

/// Placing `take` bits of `chunk` right after the `used` bits already held in
/// a partial byte whose remaining bits are clear.
pub proof fn lemma_place_chunk(c: u8, used: u8, chunk: u8, take: u8)
    requires
        used + take <= 8,
        1 <= take,
        c & low_mask8((8 - used) as u8) == 0,
        chunk <= low_mask8(take),
    ensures
        ({
            let c2 = c | (chunk << ((8 - used - take) as u8));
            &&& byte_bits(c2, (used + take) as nat) == byte_bits(c, used as nat) + Seq::new(
                take as nat,
                |j: int| (chunk >> ((take - 1 - j) as u8)) & 1u8 == 1u8,
            )
            &&& c2 & low_mask8((8 - used - take) as u8) == 0
        }),
{
    let c2 = c | (chunk << ((8 - used - take) as u8));
    let lhs = byte_bits(c2, (used + take) as nat);
    let rhs = byte_bits(c, used as nat) + Seq::new(
        take as nat,
        |j: int| (chunk >> ((take - 1 - j) as u8)) & 1u8 == 1u8,
    );
    assert forall|j: int| 0 <= j < used + take implies lhs[j] == rhs[j] by {
        let jj = j as u8;
        let sh = (7 - j) as u8;
        if j < used {
            assert((c2 >> sh) & 1u8 == (c >> sh) & 1u8) by (bit_vector)
                requires
                    used + take <= 8,
                    jj < used,
                    sh == 7 - jj,
                    c & low_mask8((8 - used) as u8) == 0,
                    chunk <= low_mask8(take),
                    c2 == c | (chunk << ((8 - used - take) as u8)),
            ;
        } else {
            let q = (take - 1 - (j - used)) as u8;
            assert((c2 >> sh) & 1u8 == (chunk >> q) & 1u8) by (bit_vector)
                requires
                    used + take <= 8,
                    used <= jj < used + take,
                    sh == 7 - jj,
                    q == take - 1 - (jj - used),
                    c & low_mask8((8 - used) as u8) == 0,
                    chunk <= low_mask8(take),
                    c2 == c | (chunk << ((8 - used - take) as u8)),
            ;
        }
    }
    assert(lhs =~= rhs);
    assert(c2 & low_mask8((8 - used - take) as u8) == 0) by (bit_vector)
        requires
            used + take <= 8,
            c & low_mask8((8 - used) as u8) == 0,
            chunk <= low_mask8(take),
            c2 == c | (chunk << ((8 - used - take) as u8)),
    ;
}

/// The bits of a chunk cut from a 64-bit value by a shift and a mask.
pub proof fn lemma_cut_chunk(v: u64, shift: u64, take: u64, q: u64)
    requires
        1 <= take <= 8,
        shift + take <= 64,
        q < take,
    ensures
        ((((v >> shift) & (((1u64 << take) - 1) as u64)) as u8) >> (q as u8)) & 1u8 == (v >> (
        shift + q)) & 1u64,
{
    assert(((((v >> shift) & (((1u64 << take) - 1) as u64)) as u8) >> (q as u8)) & 1u8 == ((v
        >> (shift + q)) & 1u64) as u8 && (v >> (shift + q)) & 1u64 <= 1) by (bit_vector)
        requires
            1 <= take <= 8,
            shift + take <= 64,
            q < take,
    ;
}

/// Appending a byte to a sequence appends its eight bits.
pub proof fn lemma_bits_of_bytes_push(s: Seq<u8>, c: u8)
    ensures
        bits_of_bytes(s.push(c)) == bits_of_bytes(s) + byte_bits(c, 8),
{
    let lhs = bits_of_bytes(s.push(c));
    let rhs = bits_of_bytes(s) + byte_bits(c, 8);
    assert forall|i: int| 0 <= i < lhs.len() implies lhs[i] == rhs[i] by {
        if i < s.len() * 8 {
            lemma_bit_index(i / 8, i % 8);
        } else {
            lemma_bit_index(s.len() as int, i - s.len() * 8);
        }
    }
    assert(lhs =~= rhs);
}

/// Concatenating byte sequences concatenates their bits.
pub proof fn lemma_bits_of_bytes_add(a: Seq<u8>, b: Seq<u8>)
    ensures
        bits_of_bytes(a + b) == bits_of_bytes(a) + bits_of_bytes(b),
{
    let lhs = bits_of_bytes(a + b);
    let rhs = bits_of_bytes(a) + bits_of_bytes(b);
    assert forall|i: int| 0 <= i < lhs.len() implies lhs[i] == rhs[i] by {
        lemma_bit_index(i / 8, i % 8);
        if i >= a.len() * 8 {
            lemma_bit_index(i / 8 - a.len(), i % 8);
        }
    }
    assert(lhs =~= rhs);
}

/// A byte is determined by its eight bits.
pub proof fn lemma_byte_bits_injective(x: u8, y: u8)
    requires
        byte_bits(x, 8) == byte_bits(y, 8),
    ensures
        x == y,
{
    assert(byte_bits(x, 8)[0] == byte_bits(y, 8)[0]);
    assert(byte_bits(x, 8)[0] == ((x >> ((7 - 0) as u8)) & 1u8 == 1u8));
    assert(byte_bits(y, 8)[0] == ((y >> ((7 - 0) as u8)) & 1u8 == 1u8));
    assert(byte_bits(x, 8)[1] == byte_bits(y, 8)[1]);
    assert(byte_bits(x, 8)[1] == ((x >> ((7 - 1) as u8)) & 1u8 == 1u8));
    assert(byte_bits(y, 8)[1] == ((y >> ((7 - 1) as u8)) & 1u8 == 1u8));
    assert(byte_bits(x, 8)[2] == byte_bits(y, 8)[2]);
    assert(byte_bits(x, 8)[2] == ((x >> ((7 - 2) as u8)) & 1u8 == 1u8));
    assert(byte_bits(y, 8)[2] == ((y >> ((7 - 2) as u8)) & 1u8 == 1u8));
    assert(byte_bits(x, 8)[3] == byte_bits(y, 8)[3]);
    assert(byte_bits(x, 8)[3] == ((x >> ((7 - 3) as u8)) & 1u8 == 1u8));
    assert(byte_bits(y, 8)[3] == ((y >> ((7 - 3) as u8)) & 1u8 == 1u8));
    assert(byte_bits(x, 8)[4] == byte_bits(y, 8)[4]);
    assert(byte_bits(x, 8)[4] == ((x >> ((7 - 4) as u8)) & 1u8 == 1u8));
    assert(byte_bits(y, 8)[4] == ((y >> ((7 - 4) as u8)) & 1u8 == 1u8));
    assert(byte_bits(x, 8)[5] == byte_bits(y, 8)[5]);
    assert(byte_bits(x, 8)[5] == ((x >> ((7 - 5) as u8)) & 1u8 == 1u8));
    assert(byte_bits(y, 8)[5] == ((y >> ((7 - 5) as u8)) & 1u8 == 1u8));
    assert(byte_bits(x, 8)[6] == byte_bits(y, 8)[6]);
    assert(byte_bits(x, 8)[6] == ((x >> ((7 - 6) as u8)) & 1u8 == 1u8));
    assert(byte_bits(y, 8)[6] == ((y >> ((7 - 6) as u8)) & 1u8 == 1u8));
    assert(byte_bits(x, 8)[7] == byte_bits(y, 8)[7]);
    assert(byte_bits(x, 8)[7] == ((x >> ((7 - 7) as u8)) & 1u8 == 1u8));
    assert(byte_bits(y, 8)[7] == ((y >> ((7 - 7) as u8)) & 1u8 == 1u8));
    assert(x == y) by (bit_vector)
        requires
            ((x >> 7u8) & 1u8 == 1u8) == ((y >> 7u8) & 1u8 == 1u8),
            ((x >> 6u8) & 1u8 == 1u8) == ((y >> 6u8) & 1u8 == 1u8),
            ((x >> 5u8) & 1u8 == 1u8) == ((y >> 5u8) & 1u8 == 1u8),
            ((x >> 4u8) & 1u8 == 1u8) == ((y >> 4u8) & 1u8 == 1u8),
            ((x >> 3u8) & 1u8 == 1u8) == ((y >> 3u8) & 1u8 == 1u8),
            ((x >> 2u8) & 1u8 == 1u8) == ((y >> 2u8) & 1u8 == 1u8),
            ((x >> 1u8) & 1u8 == 1u8) == ((y >> 1u8) & 1u8 == 1u8),
            ((x >> 0u8) & 1u8 == 1u8) == ((y >> 0u8) & 1u8 == 1u8),
    ;
}

/// A byte sequence is determined by its bits.
pub proof fn lemma_bits_of_bytes_injective(a: Seq<u8>, b: Seq<u8>)
    requires
        bits_of_bytes(a) == bits_of_bytes(b),
    ensures
        a == b,
{
    assert(bits_of_bytes(a).len() == a.len() * 8);
    assert(bits_of_bytes(b).len() == b.len() * 8);
    assert(a.len() == b.len());
    assert forall|k: int| 0 <= k < a.len() implies a[k] == b[k] by {
        assert forall|j: int| 0 <= j < 8 implies byte_bits(a[k], 8)[j] == byte_bits(b[k], 8)[j] by {
            lemma_bit_index(k, j);
            assert(8 * k + j < a.len() * 8);
            assert(bits_of_bytes(a)[8 * k + j] == bit_at(a, 8 * k + j));
            assert(bits_of_bytes(b)[8 * k + j] == bit_at(b, 8 * k + j));
        }
        assert(byte_bits(a[k], 8) =~= byte_bits(b[k], 8));
        lemma_byte_bits_injective(a[k], b[k]);
    }
    assert(a =~= b);
}

/// The bytes whose bits are `bits`, when there are such bytes.
pub open spec fn bytes_of_bits(bits: Seq<bool>) -> Seq<u8> {
    choose|b: Seq<u8>| bits_of_bytes(b) == bits
}

/// Bytes are recovered from their bits.
pub proof fn lemma_bytes_of_bits(b: Seq<u8>)
    ensures
        bytes_of_bits(bits_of_bytes(b)) == b,
{
    let c = bytes_of_bits(bits_of_bytes(b));
    assert(bits_of_bytes(c) == bits_of_bytes(b));
    lemma_bits_of_bytes_injective(c, b);
}

} // verus!
