// What the reader makes of what the writer wrote.
//
// The encoder's contracts say which bits it emits; the decoder's say how it
// parses bits. The lemmas here connect the two, field by field and then
// subframe by subframe and frame by frame, up to the lossless round trip of
// a whole stream.

use crate::bits::{
    lemma_bits_of_bytes_add, bit_at, bits_of, bits_of_bytes, bits_val, bytes_of_bits, lemma_bit_index, lemma_bytes_of_bits,
    sign_extend, zeros,
};
use crate::bitstream::{align_up, spec_read_u32, spec_read_unary, spec_read_signed_wide, spec_unary_from, MAX_UNARY_BITS};
use crate::encoder::{
    all_same, best_plan_among, encoded_stream, flac_marker, samples_fit, spec_encode,
    spec_signed_range, spec_streaminfo_block, streaminfo_bits, validate_fault, frames_from, spec_frame_bytes, BLOCK_SIZE, frame_bits, frame_header_bits, lemma_utf8_len, subframes_bits,
    utf8_bits, utf8_cont_bits, utf8_lead, utf8_len, best_rice_among, enc_pred, fixed_bits, param_width,
    rice_bits, rice_fits, rice_run, signed_bits, signed_run, spec_best_rice, spec_fixed_residual,
    spec_zigzag, subframe_bits, zigzags, MAX_RICE_PARAM, MAX_RICE_QUOTIENT,
};
use crate::bitwriter::pad_len;
use crate::crc::{spec_crc16, spec_crc8};
use crate::error::ErrorView;
use crate::md5::spec_md5;
use crate::metadata::{spec_blocks_from, spec_header, stream_info_fault};
use crate::sample_bytes::{frames_of, rectangular, sample_bytes};
use crate::AudioView;
use crate::decoder::{
    append_frame, body_channels, body_total, params_fault, spec_decode,
    spec_decode_native, spec_frames, trim, MAX_TOTAL_SAMPLES,
};
use crate::frame::{narrow, 
    fixed_pred, spec_frame, spec_frame_header, spec_subframes, spec_undo, spec_channel_count, ChannelAssignment, FrameHeader, spec_constant, spec_read_utf8_coded, spec_utf8_cont, utf8_following, spec_fixed, spec_partitions, spec_read_rice, spec_residual,
    spec_restore_fixed, spec_rice_run, spec_subframe, spec_subframe_body, spec_wide_run,
    zigzag_decode,
};
use vstd::arithmetic::div_mod::{lemma_mod_breakdown, lemma_mod_multiples_vanish, lemma_small_mod};
use vstd::arithmetic::power2::{lemma2_to64, lemma2_to64_rest, lemma_pow2_adds, lemma_pow2_pos, lemma_pow2_unfold, pow2};
use vstd::prelude::*;

verus! {

/// The number a run of bits spells, most significant first.
pub open spec fn bits_num(s: Seq<bool>) -> nat
    decreases s.len(),
{
    if s.len() == 0 {
        0
    } else {
        2 * bits_num(s.drop_last()) + if s.last() {
            1nat
        } else {
            0nat
        }
    }
}

/// The bits of `d` from bit `pos` on are `s`.
pub open spec fn at(d: Seq<u8>, pos: int, s: Seq<bool>) -> bool {
    &&& 0 <= pos
    &&& pos + s.len() <= d.len() * 8
    &&& bits_of_bytes(d).subrange(pos, pos + s.len()) == s
}

/// Bits found at a position split at any point.
pub proof fn lemma_at_split(d: Seq<u8>, pos: int, a: Seq<bool>, b: Seq<bool>)
    requires
        at(d, pos, a + b),
    ensures
        at(d, pos, a),
        at(d, pos + a.len(), b),
{
    let all = bits_of_bytes(d).subrange(pos, pos + a.len() + b.len());
    assert(bits_of_bytes(d).subrange(pos, pos + a.len()) =~= all.subrange(0, a.len() as int));
    assert(all.subrange(0, a.len() as int) =~= a);
    assert(bits_of_bytes(d).subrange(pos + a.len(), pos + a.len() + b.len()) =~= all.subrange(
        a.len() as int,
        (a.len() + b.len()) as int,
    ));
    assert(all.subrange(a.len() as int, (a.len() + b.len()) as int) =~= b);
}

/// Reading a field of known bits gives the number they spell.
pub proof fn lemma_at_val(d: Seq<u8>, pos: int, s: Seq<bool>)
    requires
        at(d, pos, s),
    ensures
        bits_val(d, pos, s.len()) == bits_num(s),
    decreases s.len(),
{
    if s.len() > 0 {
        let n = s.len() as int;
        assert(bits_of_bytes(d).subrange(pos, pos + n - 1) =~= s.drop_last());
        lemma_at_val(d, pos, s.drop_last());
        assert(bits_of_bytes(d)[pos + n - 1] == s[n - 1]);
    }
}

proof fn lemma_shr_shr(v: u64, k: u64)
    requires
        k < 63,
    ensures
        (v >> 1u64) >> k == v >> (k + 1),
{
    assert((v >> 1u64) >> k == v >> (k + 1)) by (bit_vector)
        requires
            k < 63,
    ;
}

/// The bits of the low `n` bits of `v` spell `v` modulo two to the `n`.
pub proof fn lemma_bits_num_of(v: u64, n: nat)
    requires
        n <= 64,
    ensures
        bits_num(bits_of(v, n)) == (v as nat) % pow2(n),
    decreases n,
{
    lemma_pow2_pos(n);
    if n == 0 {
        assert(bits_of(v, 0) =~= Seq::<bool>::empty());
        lemma2_to64();
    } else {
        let s = bits_of(v, n);
        let h = v >> 1u64;
        assert forall|i: int| 0 <= i < n - 1 implies s[i] == bits_of(h, (n - 1) as nat)[i] by {
            lemma_shr_shr(v, (n - 2 - i) as u64);
        }
        assert(s.drop_last() =~= bits_of(h, (n - 1) as nat));
        lemma_bits_num_of(h, (n - 1) as nat);
        assert(h == v / 2 && (v >> 0u64) & 1u64 == v % 2) by (bit_vector)
            requires
                h == v >> 1u64,
        ;
        lemma_pow2_unfold(n);
        lemma_pow2_pos((n - 1) as nat);
        lemma_mod_breakdown(v as int, 2, pow2((n - 1) as nat) as int);
    }
}

/// Reading `n` bits where `bits_of(v, n)` was written gives `v` back when it
/// fits.
pub proof fn lemma_read_field(d: Seq<u8>, pos: int, v: u64, n: nat)
    requires
        n <= 64,
        v < pow2(n),
        at(d, pos, bits_of(v, n)),
    ensures
        bits_val(d, pos, n) == v,
        pos + n <= d.len() * 8,
{
    lemma_at_val(d, pos, bits_of(v, n));
    lemma_bits_num_of(v, n);
    lemma_small_mod(v as nat, pow2(n));
}

/// Reading `n` bits where the `n`-bit two's complement of `v` was written,
/// with sign extension, gives `v` back when it fits.
pub proof fn lemma_read_signed(d: Seq<u8>, pos: int, v: i64, n: nat)
    requires
        1 <= n <= 64,
        -pow2((n - 1) as nat) <= v < pow2((n - 1) as nat),
        at(d, pos, bits_of(v as u64, n)),
    ensures
        sign_extend(bits_val(d, pos, n), n) == v,
        pos + n <= d.len() * 8,
{
    lemma_at_val(d, pos, bits_of(v as u64, n));
    lemma_bits_num_of(v as u64, n);
    lemma_pow2_unfold(n);
    lemma_pow2_pos((n - 1) as nat);
    if v >= 0 {
        assert((v as u64) as int == v) by (bit_vector)
            requires
                v >= 0,
        ;
        lemma_small_mod(v as nat, pow2(n));
    } else {
        assert((v as u64) as int == v + 0x1_0000_0000_0000_0000) by (bit_vector)
            requires
                v < 0,
        ;
        lemma2_to64_rest();
        lemma_pow2_adds(n, (64 - n) as nat);
        assert(pow2(64) == 0x1_0000_0000_0000_0000) by {
            lemma2_to64_rest();
        }
        let m = pow2(n) as int;
        let a = pow2((64 - n) as nat) as int - 1;
        assert(m * a + (v + m) == v + 0x1_0000_0000_0000_0000) by (nonlinear_arith)
            requires
                m * pow2((64 - n) as nat) == 0x1_0000_0000_0000_0000,
                a == pow2((64 - n) as nat) - 1,
        ;
        lemma_mod_multiples_vanish(a, v + m, m);
        lemma_small_mod((v + m) as nat, pow2(n));
    }
}

/// A unary code written as `q` zeros and a one reads back as `q`.
pub proof fn lemma_read_unary(d: Seq<u8>, pos: int, q: nat)
    requires
        q <= MAX_UNARY_BITS,
        at(d, pos, zeros(q).push(true)),
    ensures
        spec_read_unary(d, pos) == Ok::<(u32, int), crate::error::ErrorView>((q as u32, pos + q + 1)),
{
    lemma_unary_from(d, pos, q, 0);
}

proof fn lemma_unary_from(d: Seq<u8>, pos: int, q: nat, i: nat)
    requires
        i <= q <= MAX_UNARY_BITS,
        at(d, pos, zeros(q).push(true)),
    ensures
        spec_unary_from(d, pos + i, i) == Ok::<(u32, int), crate::error::ErrorView>((q as u32, pos + q + 1)),
    decreases q - i,
{
    let s = zeros(q).push(true);
    assert(bits_of_bytes(d)[pos + i] == s[i as int]);
    assert(bits_of_bytes(d)[pos + i] == bit_at(d, pos + i));
    if i < q {
        lemma_unary_from(d, pos, q, i + 1);
    }
}

/// Samples widened to 64 bits.
pub open spec fn widen(s: Seq<i32>) -> Seq<i64> {
    Seq::new(s.len(), |i: int| s[i] as i64)
}

/// Every sample fits the `bps`-bit two's-complement range.
pub open spec fn fits(s: Seq<i32>, bps: u32) -> bool {
    forall|i: int|
        0 <= i < s.len() ==> -pow2((bps - 1) as nat) <= #[trigger] s[i] < pow2((bps - 1) as nat)
}

/// Samples `j..n`, each in `bps`-bit two's complement, read front to back.
pub open spec fn fsigned(s: Seq<i32>, bps: u32, j: int, n: int) -> Seq<bool>
    decreases n - j,
{
    if j >= n {
        Seq::empty()
    } else {
        signed_bits(s[j] as i64, bps as nat) + fsigned(s, bps, j + 1, n)
    }
}

/// Residuals `j..n`, each Rice-coded with parameter `k`, read front to back.
pub open spec fn frice(r: Seq<i64>, k: u32, j: int, n: int) -> Seq<bool>
    decreases n - j,
{
    if j >= n {
        Seq::empty()
    } else {
        rice_bits(r[j], k) + frice(r, k, j + 1, n)
    }
}

proof fn lemma_fsigned_snoc(s: Seq<i32>, bps: u32, j: int, n: int)
    requires
        j < n,
    ensures
        fsigned(s, bps, j, n) == fsigned(s, bps, j, n - 1) + signed_bits(s[n - 1] as i64, bps as nat),
    decreases n - j,
{
    if j < n - 1 {
        lemma_fsigned_snoc(s, bps, j + 1, n);
        assert(fsigned(s, bps, j, n) =~= fsigned(s, bps, j, n - 1) + signed_bits(
            s[n - 1] as i64,
            bps as nat,
        ));
    } else {
        assert(fsigned(s, bps, j + 1, n) =~= Seq::<bool>::empty());
        assert(fsigned(s, bps, j, n - 1) =~= Seq::<bool>::empty());
        assert(fsigned(s, bps, j, n) =~= fsigned(s, bps, j, n - 1) + signed_bits(
            s[n - 1] as i64,
            bps as nat,
        ));
    }
}

/// The writer's run of raw samples is the reader's, front to back.
pub proof fn lemma_signed_run_fwd(s: Seq<i32>, bps: u32, n: nat)
    ensures
        signed_run(s, bps, n) == fsigned(s, bps, 0, n as int),
    decreases n,
{
    if n > 0 {
        lemma_signed_run_fwd(s, bps, (n - 1) as nat);
        lemma_fsigned_snoc(s, bps, 0, n as int);
    }
}

proof fn lemma_frice_snoc(r: Seq<i64>, k: u32, j: int, n: int)
    requires
        j < n,
    ensures
        frice(r, k, j, n) == frice(r, k, j, n - 1) + rice_bits(r[n - 1], k),
    decreases n - j,
{
    if j < n - 1 {
        lemma_frice_snoc(r, k, j + 1, n);
    } else {
        assert(frice(r, k, j + 1, n) =~= Seq::<bool>::empty());
        assert(frice(r, k, j, n - 1) =~= Seq::<bool>::empty());
    }
    assert(frice(r, k, j, n) =~= frice(r, k, j, n - 1) + rice_bits(r[n - 1], k));
}

/// The writer's run of Rice codes is the reader's, front to back.
pub proof fn lemma_rice_run_fwd(r: Seq<i64>, k: u32, n: nat)
    ensures
        rice_run(r, k, n) == frice(r, k, 0, n as int),
    decreases n,
{
    if n > 0 {
        lemma_rice_run_fwd(r, k, (n - 1) as nat);
        lemma_frice_snoc(r, k, 0, n as int);
    }
}

/// Raw samples written front to back read back, widened, onto `acc`.
pub proof fn lemma_read_wide_run(
    d: Seq<u8>,
    p: int,
    s: Seq<i32>,
    bps: u32,
    j: int,
    n: int,
    acc: Seq<i64>,
)
    requires
        1 <= bps <= 32,
        0 <= j <= n <= s.len(),
        fits(s, bps),
        at(d, p, fsigned(s, bps, j, n)),
    ensures
        spec_wide_run(d, p, (n - j) as nat, bps, acc) == Ok::<(Seq<i64>, int), ErrorView>(
            (acc + widen(s).subrange(j, n), p + fsigned(s, bps, j, n).len()),
        ),
    decreases n - j,
{
    if j < n {
        let f = signed_bits(s[j] as i64, bps as nat);
        let rest = fsigned(s, bps, j + 1, n);
        lemma_at_split(d, p, f, rest);
        assert(-pow2((bps - 1) as nat) <= s[j] < pow2((bps - 1) as nat));
        lemma_read_signed(d, p, s[j] as i64, bps as nat);
        let v = sign_extend(bits_val(d, p, bps as nat), bps as nat) as i64;
        assert(v == s[j] as i64);
        assert(spec_read_signed_wide(d, p, bps as nat) == Ok::<(i64, int), ErrorView>(
            (s[j] as i64, p + bps),
        ));
        lemma_read_wide_run(d, p + bps, s, bps, j + 1, n, acc.push(s[j] as i64));
        assert(acc.push(s[j] as i64) + widen(s).subrange(j + 1, n) =~= acc + widen(s).subrange(j, n));
    } else {
        assert(acc + widen(s).subrange(j, n) =~= acc);
    }
}

proof fn lemma_zigzag_inverse(r: i64)
    ensures
        zigzag_decode(spec_zigzag(r)) == r,
{
    let z = spec_zigzag(r);
    if r >= 0 {
        assert(z == (2 * r) as u64);
        assert(((2 * r) as u64) & 1u64 == 0 && (((2 * r) as u64) >> 1u64) == r) by (bit_vector)
            requires
                r >= 0,
        ;
    } else {
        let m = (-r - 1) as u64;
        assert(z == (2 * m + 1) as u64);
        assert(((2 * m + 1) as u64) & 1u64 == 1 && (((2 * m + 1) as u64) >> 1u64) == m)
            by (bit_vector)
            requires
                m < 0x8000_0000_0000_0000,
        ;
    }
}

/// The zigzag of a residual decodes back to it.
pub proof fn lemma_zigzag_roundtrip(r: i64)
    ensures
        zigzag_decode(spec_zigzag(r)) == r,
{
    lemma_zigzag_inverse(r);
}

/// A Rice code written with parameter `k` reads back as its residual.
#[verifier::spinoff_prover]
pub proof fn lemma_read_rice(d: Seq<u8>, p: int, r: i64, k: u32)
    requires
        k <= MAX_RICE_PARAM,
        spec_zigzag(r) >> (k as u64) <= MAX_UNARY_BITS,
        at(d, p, rice_bits(r, k)),
    ensures
        spec_read_rice(d, p, k) == Ok::<(i64, int), ErrorView>((r, p + rice_bits(r, k).len())),
{
    let z = spec_zigzag(r);
    let q = (z >> (k as u64)) as nat;
    let un = zeros(q).push(true);
    let rem = bits_of(z, k as nat);
    lemma_at_split(d, p, un, rem);
    lemma_read_unary(d, p, q);
    lemma_at_val(d, p + q + 1, rem);
    lemma_bits_num_of(z, k as nat);
    let rv = (z as nat) % pow2(k as nat);
    assert(bits_val(d, p + q + 1, k as nat) == rv);
    lemma2_to64();
    lemma_pow2_pos(k as nat);
    vstd::bits::lemma_u64_shl_is_mul(1u64, k as u64);
    vstd::bits::lemma_u64_pow2_no_overflow(k as nat);
    vstd::bits::lemma_u64_low_bits_mask_is_mod(z, k as nat);
    assert(vstd::bits::low_bits_mask(k as nat) == pow2(k as nat) - 1);
    let mask = ((1u64 << (k as u64)) - 1) as u64;
    assert(z & mask == rv);
    assert((((z >> (k as u64)) << (k as u64)) | (z & mask)) == z) by (bit_vector)
        requires
            k <= 30,
            mask == ((1u64 << (k as u64)) - 1) as u64,
    ;
    if k > 0 {
        assert(rv < pow2(k as nat)) by {
            vstd::arithmetic::div_mod::lemma_mod_pos_bound(z as int, pow2(k as nat) as int);
        }
        assert(rv <= u32::MAX) by {
            lemma2_to64();
            vstd::arithmetic::power2::lemma_pow2_strictly_increases(k as nat, 32);
        }
        assert(spec_read_u32(d, p + q + 1, k as nat) == Ok::<(u32, int), ErrorView>(
            (rv as u32, p + q + 1 + k),
        ));
        assert(((q as u64) << (k as u64)) | ((rv as u32) as u64) == z);
    } else {
        assert(mask == 0) by (bit_vector)
            requires
                mask == ((1u64 << (k as u64)) - 1) as u64,
                k == 0,
        ;
        assert(((z >> (k as u64)) << (k as u64)) == z) by (bit_vector)
            requires
                k == 0,
        ;
        assert((q as u64) << (k as u64) == z);
    }
    lemma_zigzag_inverse(r);
}

/// Rice codes written front to back read back onto `acc`.
pub proof fn lemma_read_rice_run(
    d: Seq<u8>,
    p: int,
    r: Seq<i64>,
    k: u32,
    j: int,
    n: int,
    acc: Seq<i64>,
)
    requires
        k <= MAX_RICE_PARAM,
        0 <= j <= n <= r.len(),
        forall|i: int| j <= i < n ==> (#[trigger] spec_zigzag(r[i]) >> (k as u64)) <= MAX_UNARY_BITS,
        at(d, p, frice(r, k, j, n)),
    ensures
        spec_rice_run(d, p, (n - j) as nat, k, acc) == Ok::<(Seq<i64>, int), ErrorView>(
            (acc + r.subrange(j, n), p + frice(r, k, j, n).len()),
        ),
    decreases n - j,
{
    if j < n {
        let f = rice_bits(r[j], k);
        let rest = frice(r, k, j + 1, n);
        lemma_at_split(d, p, f, rest);
        assert(spec_zigzag(r[j]) >> (k as u64) <= MAX_UNARY_BITS);
        lemma_read_rice(d, p, r[j], k);
        lemma_read_rice_run(d, p + f.len(), r, k, j + 1, n, acc.push(r[j]));
        assert(acc.push(r[j]) + r.subrange(j + 1, n) =~= acc + r.subrange(j, n));
    } else {
        assert(acc + r.subrange(j, n) =~= acc);
    }
}

proof fn lemma_mul_exact(c: i64, x: i64)
    requires
        0 <= c <= 6,
        -0x1_0000_0000 <= x <= 0x1_0000_0000,
    ensures
        c.wrapping_mul(x) == c * x,
{
    let v = c * x;
    assert(-0x6_0000_0000 <= v <= 0x6_0000_0000) by (nonlinear_arith)
        requires
            0 <= c <= 6,
            -0x1_0000_0000 <= x <= 0x1_0000_0000,
            v == c * x,
    ;
    let m = 0x1_0000_0000_0000_0000int;
    if v >= 0 {
        lemma_small_mod(v as nat, m as nat);
    } else {
        lemma_mod_multiples_vanish(1, v, m);
        lemma_small_mod((v + m) as nat, m as nat);
    }
}

/// The wrapping fixed predictor of the decoder equals the exact one of the
/// encoder on samples that came from 32-bit values.
proof fn lemma_fixed_pred_exact(s: Seq<i32>, i: int, order: nat)
    requires
        order <= 4,
        order <= i <= s.len(),
    ensures
        fixed_pred(widen(s.take(i)), order) == enc_pred(s, i, order),
{
    let x = widen(s.take(i));
    assert(x.len() == i);
    if order >= 1 {
        assert(x[i - 1] == s[i - 1] as i64);
        lemma_mul_exact(2, x[i - 1]);
        lemma_mul_exact(3, x[i - 1]);
        lemma_mul_exact(4, x[i - 1]);
    }
    if order >= 2 {
        assert(x[i - 2] == s[i - 2] as i64);
        lemma_mul_exact(3, x[i - 2]);
        lemma_mul_exact(6, x[i - 2]);
    }
    if order >= 3 {
        assert(x[i - 3] == s[i - 3] as i64);
        lemma_mul_exact(4, x[i - 3]);
    }
    if order >= 4 {
        assert(x[i - 4] == s[i - 4] as i64);
    }
}

/// Restoring the encoder's fixed residuals from the warm-up samples gives
/// back every sample.
pub proof fn lemma_restore_fixed(s: Seq<i32>, order: nat, i: nat)
    requires
        order <= 4,
        order + i <= s.len(),
    ensures
        spec_restore_fixed(widen(s.take((order + i) as int)), spec_fixed_residual(s, order), order, i)
            == widen(s),
    decreases s.len() - order - i,
{
    let res = spec_fixed_residual(s, order);
    let x = widen(s.take((order + i) as int));
    if order + i < s.len() {
        let k = order + i;
        lemma_fixed_pred_exact(s, k as int, order);
        let pred = fixed_pred(x, order);
        assert(res[i as int] == (s[k as int] - enc_pred(s, k as int, order)) as i64);
        assert(res[i as int].wrapping_add(pred) == s[k as int] as i64);
        assert(x.push(res[i as int].wrapping_add(pred)) =~= widen(s.take((k + 1) as int)));
        lemma_restore_fixed(s, order, i + 1);
    } else {
        assert(x =~= widen(s));
    }
}

proof fn lemma_best_rice_among_facts(zs: Seq<u64>, m: nat)
    ensures
        best_rice_among(zs, m) matches Some((k, _)) ==> k < m && rice_fits(zs, k),
    decreases m,
{
    if m > 0 {
        lemma_best_rice_among_facts(zs, (m - 1) as nat);
    }
}

/// The chosen Rice parameter is legal and keeps every quotient in bounds.
proof fn lemma_best_rice_facts(r: Seq<i64>)
    ensures
        spec_best_rice(r) matches Some((k, _)) ==> k <= MAX_RICE_PARAM && forall|i: int|
            0 <= i < r.len() ==> (#[trigger] spec_zigzag(r[i]) >> (k as u64)) <= MAX_RICE_QUOTIENT,
{
    if r.len() > 0 {
        lemma_best_rice_among_facts(zigzags(r), (MAX_RICE_PARAM + 1) as nat);
        if let Some((k, _)) = spec_best_rice(r) {
            assert forall|i: int| 0 <= i < r.len() implies (#[trigger] spec_zigzag(r[i]) >> (
            k as u64)) <= MAX_RICE_QUOTIENT by {
                assert(zigzags(r)[i] == spec_zigzag(r[i]));
            }
        }
    }
}

/// The chosen fixed predictor leaves warm-up room and has a Rice code.
proof fn lemma_best_plan_facts(s: Seq<i32>, bps: u32, m: nat)
    ensures
        best_plan_among(s, bps, m) matches Some((o, p, _)) ==> (o < m && o < s.len() && (
        spec_best_rice(spec_fixed_residual(s, o)) matches Some((pp, _)) && pp == p)),
    decreases m,
{
    if m > 0 {
        lemma_best_plan_facts(s, bps, (m - 1) as nat);
    }
}

/// The eight-bit subframe header (zero padding bit, type `t`, no wasted
/// bits) followed by `body` reads back field by field.
proof fn lemma_read_subframe_header(d: Seq<u8>, pos: int, t: u64, body: Seq<bool>)
    requires
        t < 64,
        at(d, pos, bits_of(0, 1) + bits_of(t, 6) + bits_of(0, 1) + body),
    ensures
        pos + 8 <= d.len() * 8,
        bits_val(d, pos, 1) == 0,
        bits_val(d, pos + 1, 6) == t,
        bits_val(d, pos + 7, 1) == 0,
        at(d, pos + 8, body),
{
    lemma2_to64();
    let a = bits_of(0, 1);
    let b = bits_of(t, 6);
    let c = bits_of(0, 1);
    lemma_at_split(d, pos, a + b + c, body);
    lemma_at_split(d, pos, a + b, c);
    lemma_at_split(d, pos, a, b);
    lemma_read_field(d, pos, 0, 1);
    lemma_read_field(d, pos + 1, t, 6);
    lemma_read_field(d, pos + 7, 0, 1);
}

/// A subframe the encoder wrote reads back as its samples.
#[verifier::spinoff_prover]
pub proof fn lemma_read_subframe(d: Seq<u8>, pos: int, s: Seq<i32>, bps: u32)
    requires
        4 <= bps <= 32,
        1 <= s.len() <= 0x1_0000,
        fits(s, bps),
        at(d, pos, subframe_bits(s, bps)),
    ensures
        spec_subframe(d, pos, s.len(), bps as nat) == Ok::<(Seq<i64>, int), ErrorView>(
            (widen(s), pos + subframe_bits(s, bps).len()),
        ),
{
    let n = s.len();
    let sb = subframe_bits(s, bps);
    if all_same(s) {
        let body = signed_bits(s[0] as i64, bps as nat);
        assert(sb == bits_of(0, 1) + bits_of(0, 6) + bits_of(0, 1) + body);
        lemma_read_subframe_header(d, pos, 0, body);
        assert(-pow2((bps - 1) as nat) <= s[0] < pow2((bps - 1) as nat));
        lemma_read_signed(d, pos + 8, s[0] as i64, bps as nat);
        assert(spec_constant(d, pos + 8, n, bps) == Ok::<(Seq<i64>, int), ErrorView>(
            (widen(s), pos + 8 + bps),
        )) by {
            assert(Seq::new(n, |i: int| s[0] as i64) =~= widen(s));
        }
    } else {
        lemma_best_plan_facts(s, bps, 5);
        let plan = best_plan_among(s, bps, 5);
        if plan is Some && plan->Some_0.2 < 8 + s.len() * bps {
            let (order, param, cost) = plan->Some_0;
            lemma_read_fixed(d, pos, s, bps, order, param);
            assert(sb == fixed_bits(s, bps, order, param));
        } else {
            let body = signed_run(s, bps, n);
            assert(sb == bits_of(0, 1) + bits_of(1, 6) + bits_of(0, 1) + body);
            lemma_read_subframe_header(d, pos, 1, body);
            lemma_signed_run_fwd(s, bps, n);
            lemma_read_wide_run(d, pos + 8, s, bps, 0, n as int, Seq::empty());
            assert(Seq::<i64>::empty() + widen(s).subrange(0, n as int) =~= widen(s));
        }
    }
}

/// The residual block of a fixed subframe (method, partition order 0, Rice
/// parameter, then the codes) reads back as the residuals.
#[verifier::spinoff_prover]
proof fn lemma_read_residual(d: Seq<u8>, p1: int, res: Seq<i64>, n: nat, order: nat, param: u32)
    requires
        res.len() + order == n,
        order < n,
        param <= MAX_RICE_PARAM,
        forall|i: int|
            0 <= i < res.len() ==> (#[trigger] spec_zigzag(res[i]) >> (param as u64))
                <= MAX_RICE_QUOTIENT,
        at(
            d,
            p1,
            bits_of(
                if param <= 14 {
                    0
                } else {
                    1
                },
                2,
            ) + bits_of(0, 4) + bits_of(param as u64, param_width(param)) + rice_run(
                res,
                param,
                res.len(),
            ),
        ),
    ensures
        spec_residual(d, p1, n, order) == Ok::<(Seq<i64>, int), ErrorView>(
            (res, p1 + 6 + param_width(param) + rice_run(res, param, res.len()).len()),
        ),
{
    lemma2_to64();
    let method: u64 = if param <= 14 {
        0
    } else {
        1
    };
    let pbits: u32 = if method == 0 {
        4
    } else {
        5
    };
    let m = bits_of(method, 2);
    let po = bits_of(0, 4);
    let pk = bits_of(param as u64, param_width(param));
    let rr = rice_run(res, param, res.len());
    lemma_at_split(d, p1, m + po + pk, rr);
    lemma_at_split(d, p1, m + po, pk);
    lemma_at_split(d, p1, m, po);
    lemma_read_field(d, p1, method, 2);
    lemma_read_field(d, p1 + 2, 0, 4);
    assert(param_width(param) == pbits);
    lemma_read_field(d, p1 + 6, param as u64, pbits as nat);
    assert(vstd::arithmetic::power2::pow2(0) == 1);
    lemma_rice_run_fwd(res, param, res.len());
    let p2 = p1 + 6 + pbits;
    lemma_read_rice_run(d, p2, res, param, 0, res.len() as int, Seq::empty());
    assert(Seq::<i64>::empty() + res.subrange(0, res.len() as int) =~= res);
    let p3 = p2 + rr.len();
    assert(spec_partitions(d, p3, 1, 1, n, order, pbits, res) == Ok::<(Seq<i64>, int), ErrorView>(
        (res, p3),
    ));
    assert(spec_rice_run(d, p2, (n - order) as nat, param, Seq::empty()) == Ok::<
        (Seq<i64>, int),
        ErrorView,
    >((res, p3)));
    assert(spec_partitions(d, p1 + 6, 0, 1, n, order, pbits, Seq::empty()) == Ok::<
        (Seq<i64>, int),
        ErrorView,
    >((res, p3)));
}

/// A fixed subframe the encoder wrote reads back as its samples.
#[verifier::spinoff_prover]
proof fn lemma_read_fixed(d: Seq<u8>, pos: int, s: Seq<i32>, bps: u32, order: nat, param: u32)
    requires
        4 <= bps <= 32,
        1 <= s.len() <= 0x1_0000,
        fits(s, bps),
        order <= 4,
        order < s.len(),
        spec_best_rice(spec_fixed_residual(s, order)) matches Some((pp, _)) && pp == param,
        at(d, pos, fixed_bits(s, bps, order, param)),
    ensures
        spec_subframe(d, pos, s.len(), bps as nat) == Ok::<(Seq<i64>, int), ErrorView>(
            (widen(s), pos + fixed_bits(s, bps, order, param).len()),
        ),
{
    lemma2_to64();
    let n = s.len();
    let res = spec_fixed_residual(s, order);
    lemma_best_rice_facts(res);
    let method: u64 = if param <= 14 {
        0
    } else {
        1
    };
    let w = signed_run(s, bps, order);
    let rb = bits_of(method, 2) + bits_of(0, 4) + bits_of(param as u64, param_width(param))
        + rice_run(res, param, res.len());
    let body = w + rb;
    assert(fixed_bits(s, bps, order, param) =~= bits_of(0, 1) + bits_of((8 + order) as u64, 6)
        + bits_of(0, 1) + body);
    lemma_read_subframe_header(d, pos, (8 + order) as u64, body);
    let p0 = pos + 8;
    lemma_at_split(d, p0, w, rb);
    // Warm-up samples.
    lemma_signed_run_fwd(s, bps, order);
    lemma_read_wide_run(d, p0, s, bps, 0, order as int, Seq::empty());
    assert(Seq::<i64>::empty() + widen(s).subrange(0, order as int) =~= widen(s.take(order as int)));
    let p1 = p0 + w.len();
    lemma_read_residual(d, p1, res, n, order, param);
    let p3 = p1 + rb.len();
    lemma_restore_fixed(s, order, 0);
    assert(spec_fixed(d, p0, n, bps, order) == Ok::<(Seq<i64>, int), ErrorView>((widen(s), p3)));
    assert(spec_subframe_body(d, p0, n, bps, (8 + order) as nat) == Ok::<(Seq<i64>, int), ErrorView>(
        (widen(s), p3),
    ));
}

/// Whole bytes of known bits at a byte boundary are those bytes.
pub proof fn lemma_at_bytes(d: Seq<u8>, pos: int, s: Seq<bool>)
    requires
        at(d, pos, s),
        pos % 8 == 0,
        s.len() % 8 == 0,
    ensures
        d.subrange(pos / 8, (pos + s.len()) / 8) == bytes_of_bits(s),
{
    let a = pos / 8;
    let b = (pos + s.len()) / 8;
    let sub = d.subrange(a, b);
    assert(b - a == s.len() / 8);
    assert forall|i: int| 0 <= i < s.len() implies bits_of_bytes(sub)[i] == s[i] by {
        lemma_bit_index(i / 8, i % 8);
        lemma_bit_index(a + i / 8, i % 8);
        assert(8 * (a + i / 8) + i % 8 == pos + i);
        assert(bits_of_bytes(d)[pos + i] == s[i]);
        assert(sub[i / 8] == d[a + i / 8]);
    }
    assert(bits_of_bytes(sub) =~= s);
    lemma_bytes_of_bits(sub);
}

proof fn lemma_read_utf8_cont(d: Seq<u8>, p: int, v: u64, k: nat, value: u64)
    requires
        k <= 6,
        value == v >> ((k * 6) as u64),
        at(d, p, utf8_cont_bits(v, k)),
    ensures
        spec_utf8_cont(d, p, k, value) matches Ok((x, q)) && q == p + 8 * k && x == v >> 0u64,
    decreases k,
{
    if k > 0 {
        let sh = ((k - 1) * 6) as u64;
        let sh6 = (k * 6) as u64;
        let c = 0x80u64 | ((v >> sh) & 0x3Fu64);
        let first = bits_of(c, 8);
        let rest = utf8_cont_bits(v, (k - 1) as nat);
        lemma_at_split(d, p, first, rest);
        let x = v >> sh;
        lemma2_to64();
        let cb = c as u8;
        assert(c < 256 && cb & 0xC0u8 == 0x80u8 && (value << 6u64) | (((cb & 0x3Fu8) as u64))
            == x) by (bit_vector)
            requires
                c == 0x80u64 | (x & 0x3Fu64),
                x == v >> sh,
                value == v >> sh6,
                sh6 == sh + 6,
                sh <= 30,
                cb == c as u8,
        ;
        lemma_read_field(d, p, c, 8);
        let byte = bits_val(d, p, 8) as u8;
        assert(byte == cb);
        let next = (value << 6u64) | ((byte & 0x3Fu8) as u64);
        lemma_read_utf8_cont(d, p + 8, v, (k - 1) as nat, next);
    }
}

/// Length of the continuation bits.
proof fn lemma_utf8_cont_len(v: u64, k: nat)
    ensures
        utf8_cont_bits(v, k).len() == 8 * k,
    decreases k,
{
    if k > 0 {
        lemma_utf8_cont_len(v, (k - 1) as nat);
    }
}

/// The coded-number round trip: a number below 2^36 written in FLAC's
/// extended UTF-8 reads back as itself, consuming exactly its bytes.
#[verifier::spinoff_prover]
pub proof fn law_utf8_round_trip(d: Seq<u8>, p: int, v: u64)
    requires
        v < 0x10_0000_0000,
        at(d, p, utf8_bits(v)),
    ensures
        spec_read_utf8_coded(d, p) == Ok::<(u64, int), ErrorView>((v, p + utf8_bits(v).len())),
{
    lemma2_to64();
    if v < 0x80 {
        lemma_read_field(d, p, v, 8);
        assert((v as u8) & 0x80u8 == 0 && (v as u8) as u64 == v) by (bit_vector)
            requires
                v < 0x80,
        ;
    } else {
        let len = utf8_len(v);
        let lead = utf8_lead(v);
        let cont = utf8_cont_bits(v, (len - 1) as nat);
        lemma_at_split(d, p, bits_of(lead, 8), cont);
        lemma_utf8_cont_len(v, (len - 1) as nat);
        let first = lead as u8;
        let n = (len - 1) as u8;
        let sh = ((len - 1) * 6) as u64;
        let tl = (8 - len) as u64;
        assert(lead < 256 && first & 0x80u8 != 0 && (first & 0xE0u8 == 0xC0u8) == (n == 1) && (
        first & 0xF0u8 == 0xE0u8) == (n == 2) && (first & 0xF8u8 == 0xF0u8) == (n == 3) && (first
            & 0xFCu8 == 0xF8u8) == (n == 4) && (first & 0xFEu8 == 0xFCu8) == (n == 5) && (first
            == 0xFEu8) == (n == 6) && ((first & ((((1u32 << ((6 - n) as u32)) - 1) as u32) as u8))
            as u64) == v >> sh && v >> 0u64 == v) by (bit_vector)
            requires
                0x80 <= v < 0x10_0000_0000,
                len == (if v < 0x800 {
                    2u64
                } else if v < 0x1_0000 {
                    3u64
                } else if v < 0x20_0000 {
                    4u64
                } else if v < 0x400_0000 {
                    5u64
                } else if v < 0x8000_0000 {
                    6u64
                } else {
                    7u64
                }),
                tl == 8 - len,
                sh == (len - 1) * 6,
                lead == ((0xFFu64 << tl) & 0xFFu64) | (v >> sh),
                first == lead as u8,
                n == (len - 1) as u8,
        ;
        lemma_read_field(d, p, lead, 8);
        assert(bits_val(d, p, 8) as u8 == first);
        assert(utf8_following(first) == Some(n));
        lemma_read_utf8_cont(
            d,
            p + 8,
            v,
            (len - 1) as nat,
            (first & ((((1u32 << ((6 - n) as u32)) - 1) as u32) as u8)) as u64,
        );
    }
}

/// A frame header the encoder wrote reads back as its block size, its
/// independent channels and the stream's sample depth.
#[verifier::spinoff_prover]
pub proof fn lemma_read_frame_header(d: Seq<u8>, pos: int, nch: nat, block: nat, fnum: u64, bps: u8)
    requires
        1 <= nch <= 8,
        1 <= block <= 4096,
        fnum < 0x20_0000,
        at(d, pos, frame_header_bits(nch, block, fnum)),
    ensures
        spec_frame_header(d, pos, bps) == Ok::<(FrameHeader, int), ErrorView>(
            (
                FrameHeader {
                    block_size: block as u32,
                    channel_assignment: ChannelAssignment::Independent(nch as u8),
                    bits_per_sample: bps,
                },
                pos + frame_header_bits(nch, block, fnum).len(),
            ),
        ),
{
    reveal(spec_frame_header);
    lemma2_to64();
    let a0 = bits_of(0x3FFE, 14);
    let a1 = bits_of(0, 1);
    let a2 = bits_of(0, 1);
    let a3 = bits_of(7, 4);
    let a4 = bits_of(0, 4);
    let a5 = bits_of((nch - 1) as u64, 4);
    let a6 = bits_of(0, 3);
    let a7 = bits_of(0, 1);
    let u = utf8_bits(fnum);
    let b = bits_of((block - 1) as u64, 16);
    let x1 = a0 + a1;
    let x2 = x1 + a2;
    let x3 = x2 + a3;
    let x4 = x3 + a4;
    let x5 = x4 + a5;
    let x6 = x5 + a6;
    let x7 = x6 + a7;
    let x8 = x7 + u;
    lemma_at_split(d, pos, x8, b);
    lemma_at_split(d, pos, x7, u);
    lemma_at_split(d, pos, x6, a7);
    lemma_at_split(d, pos, x5, a6);
    lemma_at_split(d, pos, x4, a5);
    lemma_at_split(d, pos, x3, a4);
    lemma_at_split(d, pos, x2, a3);
    lemma_at_split(d, pos, x1, a2);
    lemma_at_split(d, pos, a0, a1);
    lemma_read_field(d, pos, 0x3FFE, 14);
    lemma_read_field(d, pos + 16, 7, 4);
    lemma_read_field(d, pos + 20, 0, 4);
    lemma_read_field(d, pos + 24, (nch - 1) as u64, 4);
    lemma_read_field(d, pos + 28, 0, 3);
    law_utf8_round_trip(d, pos + 32, fnum);
    let p1 = pos + 32 + u.len();
    lemma_read_field(d, p1, (block - 1) as u64, 16);
    assert(spec_read_utf8_coded(d, pos + 32) matches Ok((_, q)) && q == p1);
    assert(crate::frame::spec_block_size(d, p1, 7) == Ok::<(u32, int), ErrorView>(
        (block as u32, p1 + 16),
    ));
    assert(crate::frame::spec_skip_rate(d, p1 + 16, 0) == Ok::<((), int), ErrorView>(((), p1 + 16)));
    assert(crate::frame::assignment_of((nch - 1) as u32) == Some(
        ChannelAssignment::Independent(nch as u8),
    ));
    assert(crate::frame::sample_size_of(0, bps) == Some(bps));
    assert(x8.len() + 16 == frame_header_bits(nch, block, fnum).len());
}

/// Subframes of channels `c..n`, front to back.
pub open spec fn fsubframes(s: Seq<Seq<i32>>, start: int, block: int, bps: u32, c: int, n: int) -> Seq<
    bool,
>
    decreases n - c,
{
    if c >= n {
        Seq::empty()
    } else {
        subframe_bits(s[c].subrange(start, start + block), bps) + fsubframes(
            s,
            start,
            block,
            bps,
            c + 1,
            n,
        )
    }
}

proof fn lemma_fsubframes_snoc(s: Seq<Seq<i32>>, start: int, block: int, bps: u32, c: int, n: int)
    requires
        c < n,
    ensures
        fsubframes(s, start, block, bps, c, n) == fsubframes(s, start, block, bps, c, n - 1)
            + subframe_bits(s[n - 1].subrange(start, start + block), bps),
    decreases n - c,
{
    if c < n - 1 {
        lemma_fsubframes_snoc(s, start, block, bps, c + 1, n);
    } else {
        assert(fsubframes(s, start, block, bps, c + 1, n) =~= Seq::<bool>::empty());
        assert(fsubframes(s, start, block, bps, c, n - 1) =~= Seq::<bool>::empty());
    }
    assert(fsubframes(s, start, block, bps, c, n) =~= fsubframes(s, start, block, bps, c, n - 1)
        + subframe_bits(s[n - 1].subrange(start, start + block), bps));
}

proof fn lemma_subframes_fwd(s: Seq<Seq<i32>>, start: int, block: int, bps: u32, n: nat)
    ensures
        subframes_bits(s, start, block, bps, n) == fsubframes(s, start, block, bps, 0, n as int),
    decreases n,
{
    if n > 0 {
        lemma_subframes_fwd(s, start, block, bps, (n - 1) as nat);
        lemma_fsubframes_snoc(s, start, block, bps, 0, n as int);
    }
}

/// The samples `start..start + block` of the first `nch` channels, widened.
pub open spec fn block_of(s: Seq<Seq<i32>>, start: int, block: int, nch: nat) -> Seq<Seq<i64>> {
    Seq::new(nch, |c: int| widen(s[c].subrange(start, start + block)))
}

/// Every channel holds the block and fits the depth.
pub open spec fn block_ok(s: Seq<Seq<i32>>, start: int, block: int, bps: u32, nch: nat) -> bool {
    &&& nch <= s.len()
    &&& 0 <= start
    &&& 1 <= block <= 4096
    &&& forall|c: int| 0 <= c < nch ==> start + block <= (#[trigger] s[c]).len() && fits(s[c], bps)
}

proof fn lemma_fits_sub(x: Seq<i32>, bps: u32, a: int, b: int)
    requires
        fits(x, bps),
        0 <= a <= b <= x.len(),
    ensures
        fits(x.subrange(a, b), bps),
{
    assert forall|i: int| 0 <= i < b - a implies -pow2((bps - 1) as nat) <= #[trigger] x.subrange(
        a,
        b,
    )[i] < pow2((bps - 1) as nat) by {
        assert(x.subrange(a, b)[i] == x[a + i]);
    }
}

/// Subframes the encoder wrote for channels `c..nch` read back onto `acc`.
#[verifier::spinoff_prover]
#[verifier::rlimit(30)]
proof fn lemma_read_subframes(
    d: Seq<u8>,
    p: int,
    s: Seq<Seq<i32>>,
    start: int,
    block: int,
    bps: u32,
    h: FrameHeader,
    c: int,
    nch: nat,
    acc: Seq<Seq<i64>>,
)
    requires
        4 <= bps <= 32,
        h == (FrameHeader {
            block_size: block as u32,
            channel_assignment: ChannelAssignment::Independent(nch as u8),
            bits_per_sample: bps as u8,
        }),
        1 <= nch <= 8,
        0 <= c <= nch,
        block_ok(s, start, block, bps, nch),
        at(d, p, fsubframes(s, start, block, bps, c, nch as int)),
    ensures
        spec_subframes(d, p, h, c as nat, nch, acc) == Ok::<(Seq<Seq<i64>>, int), ErrorView>(
            (
                acc + block_of(s, start, block, nch).subrange(c, nch as int),
                p + fsubframes(s, start, block, bps, c, nch as int).len(),
            ),
        ),
    decreases nch - c,
{
    if c < nch {
        let x = s[c].subrange(start, start + block);
        let f = subframe_bits(x, bps);
        let rest = fsubframes(s, start, block, bps, c + 1, nch as int);
        lemma_at_split(d, p, f, rest);
        lemma_fits_sub(s[c], bps, start, start + block);
        lemma_read_subframe(d, p, x, bps);
        lemma_read_subframes(d, p + f.len(), s, start, block, bps, h, c + 1, nch, acc.push(widen(x)));
        assert(acc.push(widen(x)) + block_of(s, start, block, nch).subrange(c + 1, nch as int)
            =~= acc + block_of(s, start, block, nch).subrange(c, nch as int));
    } else {
        assert(acc + block_of(s, start, block, nch).subrange(c, nch as int) =~= acc);
    }
}

/// The body of a frame before padding: header, CRC-8, subframes.
pub open spec fn frame_body(s: Seq<Seq<i32>>, nch: nat, bps: u32, start: int, block: int, fnum: u64) -> Seq<
    bool,
> {
    let hb = frame_header_bits(nch, block as nat, fnum);
    hb + bits_of(spec_crc8(bytes_of_bits(hb)) as u64, 8) + subframes_bits(s, start, block, bps, nch)
}

/// The frame before its CRC-16: the body padded to a byte boundary.
pub open spec fn frame_aligned(s: Seq<Seq<i32>>, nch: nat, bps: u32, start: int, block: int, fnum: u64) -> Seq<
    bool,
> {
    let body = frame_body(s, nch, bps, start, block, fnum);
    body + zeros(pad_len(body.len()))
}

/// The header of an encoded frame and its CRC-8 read back.
#[verifier::spinoff_prover]
proof fn lemma_frame_head(
    d: Seq<u8>,
    pos: int,
    s: Seq<Seq<i32>>,
    nch: nat,
    bps: u32,
    start: int,
    block: int,
    fnum: u64,
)
    requires
        pos % 8 == 0,
        1 <= nch <= 8,
        4 <= bps <= 32,
        block_ok(s, start, block, bps, nch),
        fnum < 0x20_0000,
        at(d, pos, frame_bits(s, nch, bps, start, block, fnum)),
    ensures
        ({
            let hb = frame_header_bits(nch, block as nat, fnum);
            let p1 = pos + hb.len();
            &&& spec_frame_header(d, pos, bps as u8) == Ok::<(FrameHeader, int), ErrorView>(
                (
                    FrameHeader {
                        block_size: block as u32,
                        channel_assignment: ChannelAssignment::Independent(nch as u8),
                        bits_per_sample: bps as u8,
                    },
                    p1,
                ),
            )
            &&& p1 + 8 <= d.len() * 8
            &&& bits_val(d, p1, 8) == spec_crc8(d.subrange(pos / 8, p1 / 8))
            &&& at(d, p1 + 8, subframes_bits(s, start, block, bps, nch))
            &&& hb.len() % 8 == 0
        }),
{
    lemma2_to64();
    let hb = frame_header_bits(nch, block as nat, fnum);
    let c8v = spec_crc8(bytes_of_bits(hb));
    let c8 = bits_of(c8v as u64, 8);
    let sf = subframes_bits(s, start, block, bps, nch);
    let body = frame_body(s, nch, bps, start, block, fnum);
    let aligned = frame_aligned(s, nch, bps, start, block, fnum);
    let c16 = bits_of(spec_crc16(bytes_of_bits(aligned)) as u64, 16);
    assert(aligned + c16 == frame_bits(s, nch, bps, start, block, fnum));
    lemma_at_split(d, pos, aligned, c16);
    lemma_at_split(d, pos, body, zeros(pad_len(body.len())));
    lemma_at_split(d, pos, hb + c8, sf);
    lemma_at_split(d, pos, hb, c8);
    lemma_utf8_len(fnum);
    lemma_read_frame_header(d, pos, nch, block as nat, fnum, bps as u8);
    let p1 = pos + hb.len();
    lemma_read_field(d, p1, c8v as u64, 8);
    lemma_at_bytes(d, pos, hb);
}

/// The subframes of an encoded frame read back as its block.
#[verifier::spinoff_prover]
proof fn lemma_frame_subframes(
    d: Seq<u8>,
    p: int,
    s: Seq<Seq<i32>>,
    nch: nat,
    bps: u32,
    start: int,
    block: int,
)
    requires
        1 <= nch <= 8,
        4 <= bps <= 32,
        block_ok(s, start, block, bps, nch),
        at(d, p, subframes_bits(s, start, block, bps, nch)),
    ensures
        spec_subframes(
            d,
            p,
            FrameHeader {
                block_size: block as u32,
                channel_assignment: ChannelAssignment::Independent(nch as u8),
                bits_per_sample: bps as u8,
            },
            0,
            nch,
            Seq::empty(),
        ) == Ok::<(Seq<Seq<i64>>, int), ErrorView>(
            (block_of(s, start, block, nch), p + subframes_bits(s, start, block, bps, nch).len()),
        ),
{
    let h = FrameHeader {
        block_size: block as u32,
        channel_assignment: ChannelAssignment::Independent(nch as u8),
        bits_per_sample: bps as u8,
    };
    lemma_subframes_fwd(s, start, block, bps, nch);
    lemma_read_subframes(d, p, s, start, block, bps, h, 0, nch, Seq::empty());
    assert(Seq::<Seq<i64>>::empty() + block_of(s, start, block, nch).subrange(0, nch as int)
        =~= block_of(s, start, block, nch));
}

/// The padding and CRC-16 of an encoded frame read back.
#[verifier::spinoff_prover]
proof fn lemma_frame_crc16(
    d: Seq<u8>,
    pos: int,
    s: Seq<Seq<i32>>,
    nch: nat,
    bps: u32,
    start: int,
    block: int,
    fnum: u64,
)
    requires
        pos % 8 == 0,
        at(d, pos, frame_bits(s, nch, bps, start, block, fnum)),
    ensures
        ({
            let p2 = pos + frame_body(s, nch, bps, start, block, fnum).len();
            let p3 = align_up(p2);
            &&& p3 + 16 <= d.len() * 8
            &&& bits_val(d, p3, 16) == spec_crc16(d.subrange(pos / 8, p3 / 8))
            &&& p3 + 16 == pos + frame_bits(s, nch, bps, start, block, fnum).len()
            &&& frame_bits(s, nch, bps, start, block, fnum).len() % 8 == 0
        }),
{
    lemma2_to64();
    let body = frame_body(s, nch, bps, start, block, fnum);
    let aligned = frame_aligned(s, nch, bps, start, block, fnum);
    let c16v = spec_crc16(bytes_of_bits(aligned));
    let c16 = bits_of(c16v as u64, 16);
    assert(aligned + c16 == frame_bits(s, nch, bps, start, block, fnum));
    lemma_at_split(d, pos, aligned, c16);
    let p2 = pos + body.len();
    let p3 = align_up(p2);
    assert(p3 == pos + aligned.len());
    lemma_read_field(d, p3, c16v as u64, 16);
    lemma_at_bytes(d, pos, aligned);
}

/// A frame the encoder wrote at a byte boundary reads back as its block of
/// samples, and ends where its bits end.
#[verifier::spinoff_prover]
pub proof fn lemma_read_frame(
    d: Seq<u8>,
    pos: int,
    s: Seq<Seq<i32>>,
    nch: nat,
    bps: u32,
    start: int,
    block: int,
    fnum: u64,
)
    requires
        pos % 8 == 0,
        1 <= nch <= 8,
        4 <= bps <= 32,
        block_ok(s, start, block, bps, nch),
        fnum < 0x20_0000,
        at(d, pos, frame_bits(s, nch, bps, start, block, fnum)),
    ensures
        spec_frame(d, pos, bps as u8, nch) == Ok::<(Seq<Seq<i64>>, int), ErrorView>(
            (block_of(s, start, block, nch), pos + frame_bits(s, nch, bps, start, block, fnum).len()),
        ),
        frame_bits(s, nch, bps, start, block, fnum).len() % 8 == 0,
{
    reveal(spec_frame);
    lemma_frame_head(d, pos, s, nch, bps, start, block, fnum);
    let p1 = pos + frame_header_bits(nch, block as nat, fnum).len();
    lemma_frame_subframes(d, p1 + 8, s, nch, bps, start, block);
    lemma_frame_crc16(d, pos, s, nch, bps, start, block, fnum);
    assert(frame_body(s, nch, bps, start, block, fnum).len() == p1 + 8 + subframes_bits(
        s,
        start,
        block,
        bps,
        nch,
    ).len() - pos);
    let h = FrameHeader {
        block_size: block as u32,
        channel_assignment: ChannelAssignment::Independent(nch as u8),
        bits_per_sample: bps as u8,
    };
    assert(spec_channel_count(h.channel_assignment) == nch);
    assert(spec_undo(h.channel_assignment, block_of(s, start, block, nch)) == block_of(
        s,
        start,
        block,
        nch,
    ));
}

/// The byte whose bits, most significant first, are `b[8k..8k + 8]`.
pub open spec fn byte_from_bits(b: Seq<bool>, k: int) -> u8 {
    (if b[8 * k] {
        0x80u8
    } else {
        0u8
    }) | (if b[8 * k + 1] {
        0x40u8
    } else {
        0u8
    }) | (if b[8 * k + 2] {
        0x20u8
    } else {
        0u8
    }) | (if b[8 * k + 3] {
        0x10u8
    } else {
        0u8
    }) | (if b[8 * k + 4] {
        0x08u8
    } else {
        0u8
    }) | (if b[8 * k + 5] {
        0x04u8
    } else {
        0u8
    }) | (if b[8 * k + 6] {
        0x02u8
    } else {
        0u8
    }) | (if b[8 * k + 7] {
        0x01u8
    } else {
        0u8
    })
}

proof fn lemma_byte_from_bits(x0: bool, x1: bool, x2: bool, x3: bool, x4: bool, x5: bool, x6: bool, x7: bool, c: u8)
    requires
        c == (if x0 {
            0x80u8
        } else {
            0u8
        }) | (if x1 {
            0x40u8
        } else {
            0u8
        }) | (if x2 {
            0x20u8
        } else {
            0u8
        }) | (if x3 {
            0x10u8
        } else {
            0u8
        }) | (if x4 {
            0x08u8
        } else {
            0u8
        }) | (if x5 {
            0x04u8
        } else {
            0u8
        }) | (if x6 {
            0x02u8
        } else {
            0u8
        }) | (if x7 {
            0x01u8
        } else {
            0u8
        }),
    ensures
        ((c >> 7u8) & 1u8 == 1u8) == x0,
        ((c >> 6u8) & 1u8 == 1u8) == x1,
        ((c >> 5u8) & 1u8 == 1u8) == x2,
        ((c >> 4u8) & 1u8 == 1u8) == x3,
        ((c >> 3u8) & 1u8 == 1u8) == x4,
        ((c >> 2u8) & 1u8 == 1u8) == x5,
        ((c >> 1u8) & 1u8 == 1u8) == x6,
        ((c >> 0u8) & 1u8 == 1u8) == x7,
{
    assert(((c >> 7u8) & 1u8 == 1u8) == x0 && ((c >> 6u8) & 1u8 == 1u8) == x1 && ((c >> 5u8) & 1u8
        == 1u8) == x2 && ((c >> 4u8) & 1u8 == 1u8) == x3 && ((c >> 3u8) & 1u8 == 1u8) == x4 && ((c
        >> 2u8) & 1u8 == 1u8) == x5 && ((c >> 1u8) & 1u8 == 1u8) == x6 && ((c >> 0u8) & 1u8 == 1u8)
        == x7) by (bit_vector)
        requires
            c == (if x0 {
                0x80u8
            } else {
                0u8
            }) | (if x1 {
                0x40u8
            } else {
                0u8
            }) | (if x2 {
                0x20u8
            } else {
                0u8
            }) | (if x3 {
                0x10u8
            } else {
                0u8
            }) | (if x4 {
                0x08u8
            } else {
                0u8
            }) | (if x5 {
                0x04u8
            } else {
                0u8
            }) | (if x6 {
                0x02u8
            } else {
                0u8
            }) | (if x7 {
                0x01u8
            } else {
                0u8
            }),
    ;
}

/// Any whole number of bytes' worth of bits is the bits of some bytes, so
/// `bytes_of_bits` gives those bytes back.
pub proof fn lemma_bits_to_bytes(b: Seq<bool>)
    requires
        b.len() % 8 == 0,
    ensures
        bits_of_bytes(bytes_of_bits(b)) == b,
        bytes_of_bits(b).len() * 8 == b.len(),
{
    let x = Seq::new(b.len() / 8, |k: int| byte_from_bits(b, k));
    assert forall|i: int| 0 <= i < b.len() implies bits_of_bytes(x)[i] == b[i] by {
        let k = i / 8;
        let j = i % 8;
        lemma_bit_index(k, j);
        assert(8 * k + j == i);
        lemma_byte_from_bits(
            b[8 * k],
            b[8 * k + 1],
            b[8 * k + 2],
            b[8 * k + 3],
            b[8 * k + 4],
            b[8 * k + 5],
            b[8 * k + 6],
            b[8 * k + 7],
            x[k],
        );
    }
    assert(bits_of_bytes(x) =~= b);
    let y = bytes_of_bits(b);
    assert(bits_of_bytes(y) == b);
}

/// An encoded frame is a whole number of bytes, at least six.
pub proof fn lemma_frame_bits_len(s: Seq<Seq<i32>>, nch: nat, bps: u32, start: int, block: int, fnum: u64)
    ensures
        frame_bits(s, nch, bps, start, block, fnum).len() % 8 == 0,
        frame_bits(s, nch, bps, start, block, fnum).len() >= 48,
{
    let body = frame_body(s, nch, bps, start, block, fnum);
    let aligned = frame_aligned(s, nch, bps, start, block, fnum);
    assert(aligned.len() == body.len() + pad_len(body.len()));
    assert(aligned.len() % 8 == 0);
    assert(body.len() >= 32);
}

/// Bytes found at byte `k` on: their bits are found at bit `8 k`.
pub proof fn lemma_at_suffix(d: Seq<u8>, k: int, x: Seq<u8>, rest: Seq<u8>)
    requires
        0 <= k <= d.len(),
        d.subrange(k, d.len() as int) == x + rest,
    ensures
        at(d, 8 * k, bits_of_bytes(x)),
{
    assert(d =~= d.subrange(0, k) + d.subrange(k, d.len() as int));
    lemma_bits_of_bytes_add(d.subrange(0, k), d.subrange(k, d.len() as int));
    lemma_bits_of_bytes_add(x, rest);
    assert(bits_of_bytes(d).subrange(8 * k, 8 * k + bits_of_bytes(x).len()) =~= bits_of_bytes(x));
}

/// Narrowing widened samples gives them back.
proof fn lemma_narrow_widen(x: Seq<i32>)
    ensures
        narrow(widen(x)) == x,
{
    assert(narrow(widen(x)) =~= x);
}

/// The frames the encoder wrote for samples `start..total` of every channel,
/// found at byte `k` of the frame data, decode onto the samples before them
/// to give every sample.
#[verifier::spinoff_prover]
pub proof fn lemma_decode_frames(
    d: Seq<u8>,
    k: int,
    s: Seq<Seq<i32>>,
    nch: nat,
    bps: u32,
    start: nat,
    fnum: nat,
    total: nat,
)
    requires
        1 <= nch <= 8,
        nch == s.len(),
        4 <= bps <= 32,
        forall|c: int| 0 <= c < nch ==> (#[trigger] s[c]).len() == total && fits(s[c], bps),
        total * nch <= MAX_TOTAL_SAMPLES,
        start <= total,
        start < total ==> fnum * 4096 <= start,
        0 <= k <= d.len(),
        d.subrange(k, d.len() as int) == frames_from(s, nch, bps, start, fnum, total),
    ensures
        spec_frames(
            d,
            8 * k,
            Seq::new(nch, |c: int| s[c].take(start as int)),
            bps as u8,
            total,
        ) == Ok::<Seq<Seq<i32>>, ErrorView>(s),
    decreases total - start,
{
    let out = Seq::new(nch, |c: int| s[c].take(start as int));
    assert(out[0].len() == start);
    if start >= total {
        assert(out =~= s) by {
            assert forall|c: int| 0 <= c < nch implies out[c] == s[c] by {
                assert(s[c].take(total as int) =~= s[c]);
            }
        }
        if total == 0 {
            assert(frames_from(s, nch, bps, start, fnum, total) =~= Seq::<u8>::empty());
            assert(d.subrange(k, d.len() as int).len() == 0);
            assert(d.len() == k);
        }
    } else {
        assert(total <= MAX_TOTAL_SAMPLES) by (nonlinear_arith)
            requires
                total * nch <= MAX_TOTAL_SAMPLES,
                nch >= 1,
        ;
        let block: nat = if total - start < BLOCK_SIZE {
            (total - start) as nat
        } else {
            BLOCK_SIZE as nat
        };
        let fb = frame_bits(s, nch, bps, start as int, block as int, fnum as u64);
        let f = spec_frame_bytes(s, nch, bps, start as int, block as int, fnum as u64);
        let rest = frames_from(s, nch, bps, start + block, fnum + 1, total);
        assert(frames_from(s, nch, bps, start, fnum, total) == f + rest);
        lemma_frame_bits_len(s, nch, bps, start as int, block as int, fnum as u64);
        lemma_bits_to_bytes(fb);
        lemma_at_suffix(d, k, f, rest);
        assert(block_ok(s, start as int, block as int, bps, nch));
        lemma_read_frame(d, 8 * k, s, nch, bps, start as int, block as int, fnum as u64);
        let chs = block_of(s, start as int, block as int, nch);
        let out2 = append_frame(out, chs);
        let next = Seq::new(nch, |c: int| s[c].take((start + block) as int));
        assert(out2 =~= next) by {
            assert forall|c: int| 0 <= c < nch implies out2[c] == next[c] by {
                lemma_narrow_widen(s[c].subrange(start as int, (start + block) as int));
                assert(s[c].take(start as int) + s[c].subrange(start as int, (start + block) as int)
                    =~= s[c].take((start + block) as int));
            }
        }
        assert(out2[0].len() == start + block);
        assert((start + block) * nch <= MAX_TOTAL_SAMPLES) by (nonlinear_arith)
            requires
                total * nch <= MAX_TOTAL_SAMPLES,
                start + block <= total,
        ;
        let k2 = k + f.len();
        assert(d.subrange(k2, d.len() as int) =~= rest) by {
            assert(d.subrange(k2, d.len() as int) =~= d.subrange(k, d.len() as int).subrange(
                f.len() as int,
                (d.len() - k) as int,
            ));
        }
        assert(8 * k2 == 8 * k + fb.len());
        lemma_decode_frames(d, k2, s, nch, bps, start + block, fnum + 1, total);
    }
}

/// The STREAMINFO body the encoder writes: its fields read back as the
/// audio's parameters, and it ends with the sample MD5.
pub proof fn lemma_streaminfo_body(a: AudioView, total: nat)
    requires
        validate_fault(a) is None,
        total < 0x10_0000_0000,
    ensures
        ({
            let body = bytes_of_bits(streaminfo_bits(a, total)) + spec_md5(
                sample_bytes(a.samples, a.bits_per_sample),
            );
            &&& body.len() == 34
            &&& bits_val(body, 80, 20) == a.sample_rate
            &&& bits_val(body, 100, 3) + 1 == a.channels
            &&& bits_val(body, 103, 5) + 1 == a.bits_per_sample
            &&& bits_val(body, 108, 36) == total
            &&& body.subrange(18, 34) == spec_md5(sample_bytes(a.samples, a.bits_per_sample))
        }),
{
    lemma2_to64();
    lemma2_to64_rest();
    let sib = streaminfo_bits(a, total);
    let md5 = spec_md5(sample_bytes(a.samples, a.bits_per_sample));
    assert(md5.len() == 16);
    assert(sib.len() == 144);
    lemma_bits_to_bytes(sib);
    let x = bytes_of_bits(sib);
    let body = x + md5;
    lemma_bits_of_bytes_add(x, md5);
    assert(at(body, 0, sib)) by {
        assert(bits_of_bytes(body).subrange(0, 144) =~= sib);
    }
    let blk = crate::encoder::si_block_size(total);
    let f0 = bits_of(blk, 16);
    let f1 = bits_of(blk, 16);
    let f2 = bits_of(0, 24);
    let f3 = bits_of(0, 24);
    let f4 = bits_of(a.sample_rate as u64, 20);
    let f5 = bits_of((a.channels - 1) as u64, 3);
    let f6 = bits_of((a.bits_per_sample - 1) as u64, 5);
    let f7 = bits_of(total as u64, 36);
    assert(sib == f0 + f1 + f2 + f3 + f4 + f5 + f6 + f7);
    lemma_at_split(body, 0, f0 + f1 + f2 + f3 + f4 + f5 + f6, f7);
    lemma_at_split(body, 0, f0 + f1 + f2 + f3 + f4 + f5, f6);
    lemma_at_split(body, 0, f0 + f1 + f2 + f3 + f4, f5);
    lemma_at_split(body, 0, f0 + f1 + f2 + f3, f4);
    lemma_read_field(body, 80, a.sample_rate as u64, 20);
    lemma_read_field(body, 100, (a.channels - 1) as u64, 3);
    lemma_read_field(body, 103, (a.bits_per_sample - 1) as u64, 5);
    lemma_read_field(body, 108, total as u64, 36);
    assert(body.subrange(18, 34) =~= md5);
}

/// The header of an encoded stream: the marker, then one last STREAMINFO
/// block whose body is bytes 8 to 42.
pub proof fn lemma_encoded_header(a: AudioView)
    requires
        validate_fault(a) is None,
        frames_of(a.samples) < 0x10_0000_0000,
    ensures
        spec_header(encoded_stream(a)) == Ok::<(int, int), ErrorView>((8, 42)),
        encoded_stream(a).subrange(8, 42) == bytes_of_bits(streaminfo_bits(a, frames_of(a.samples)))
            + spec_md5(sample_bytes(a.samples, a.bits_per_sample)),
        encoded_stream(a).subrange(42, encoded_stream(a).len() as int) == frames_from(
            a.samples,
            a.channels as nat,
            a.bits_per_sample as u32,
            0,
            0,
            frames_of(a.samples),
        ),
{
    let total = frames_of(a.samples);
    let b = encoded_stream(a);
    let sib = streaminfo_bits(a, total);
    let body = bytes_of_bits(sib) + spec_md5(sample_bytes(a.samples, a.bits_per_sample));
    lemma_streaminfo_body(a, total);
    let blockb = spec_streaminfo_block(a, total, true);
    let fr = frames_from(a.samples, a.channels as nat, a.bits_per_sample as u32, 0, 0, total);
    assert(blockb =~= seq![0x80u8, 0u8, 0u8, 0x22u8] + body);
    assert(b =~= flac_marker() + blockb + fr);
    assert(b.subrange(8, 42) =~= body);
    assert(b.subrange(42, b.len() as int) =~= fr);
    assert(b[4] == 0x80u8 && b[5] == 0 && b[6] == 0 && b[7] == 0x22u8);
    assert(0x80u8 & 0x80u8 != 0 && 0x80u8 & 0x7Fu8 == 0) by (bit_vector);
    assert(stream_info_fault(b.subrange(8, 42)) is None);
    assert(spec_blocks_from(b, 4, None) == Ok::<(int, int), ErrorView>((8, 42)));
}

/// The frames of an encoded stream decode back to every sample.
pub proof fn lemma_encoded_frames(a: AudioView)
    requires
        validate_fault(a) is None,
        frames_of(a.samples) * a.channels <= MAX_TOTAL_SAMPLES,
    ensures
        spec_frames(
            encoded_stream(a).subrange(42, encoded_stream(a).len() as int),
            0,
            Seq::new(a.channels as nat, |c: int| Seq::<i32>::empty()),
            a.bits_per_sample,
            frames_of(a.samples),
        ) == Ok::<Seq<Seq<i32>>, ErrorView>(a.samples),
{
    let total = frames_of(a.samples);
    let nch = a.channels as nat;
    let bps = a.bits_per_sample as u32;
    assert(total <= MAX_TOTAL_SAMPLES) by (nonlinear_arith)
        requires
            total * nch <= MAX_TOTAL_SAMPLES,
            nch >= 1,
    ;
    lemma_encoded_header(a);
    let d = encoded_stream(a).subrange(42, encoded_stream(a).len() as int);
    assert forall|c: int| 0 <= c < nch implies (#[trigger] a.samples[c]).len() == total && fits(
        a.samples[c],
        bps,
    ) by {
        assert(rectangular(a.samples));
        assert forall|i: int| 0 <= i < a.samples[c].len() implies -pow2((bps - 1) as nat)
            <= #[trigger] a.samples[c][i] < pow2((bps - 1) as nat) by {
            assert(samples_fit(a.samples, bps));
            assert(spec_signed_range(bps).0 <= a.samples[c][i] <= spec_signed_range(bps).1);
        }
    }
    assert(d.subrange(0, d.len() as int) =~= d);
    lemma_decode_frames(d, 0, a.samples, nch, bps, 0, 0, total);
    assert forall|c: int| 0 <= c < nch implies #[trigger] a.samples[c].take(0) == Seq::<
        i32,
    >::empty() by {
        assert(a.samples[c].take(0) =~= Seq::<i32>::empty());
    }
    assert(Seq::new(nch, |c: int| a.samples[c].take(0)) =~= Seq::new(
        nch,
        |c: int| Seq::<i32>::empty(),
    ));
}

/// Lossless round trip: the stream `encode` writes for valid audio decodes
/// back to exactly that audio (parameters and every sample), as long as the
/// audio is within the decoder's sample cap and the stream can be addressed
/// bit by bit.
pub proof fn law_round_trip(a: AudioView)
    requires
        spec_encode(a) is Ok,
        frames_of(a.samples) * a.channels <= MAX_TOTAL_SAMPLES,
        spec_encode(a)->Ok_0.len() - 42 <= usize::MAX / 8,
    ensures
        spec_decode(spec_encode(a)->Ok_0) == Ok::<AudioView, ErrorView>(a),
{
    let b = encoded_stream(a);
    let total = frames_of(a.samples);
    let nch = a.channels as nat;
    assert(total <= MAX_TOTAL_SAMPLES) by (nonlinear_arith)
        requires
            total * nch <= MAX_TOTAL_SAMPLES,
            nch >= 1,
    ;
    lemma_encoded_header(a);
    lemma_streaminfo_body(a, total);
    lemma_encoded_frames(a);
    let body = b.subrange(8, 42);
    assert(body_channels(body) == nch);
    assert(body_total(body) == total);
    assert(params_fault(body) is None);
    assert(trim(a.samples, total) =~= a.samples) by {
        assert(rectangular(a.samples));
    }
    assert(!crate::ogg::ogg_magic_at(b, 0));
    assert(spec_decode_native(b) == Ok::<AudioView, ErrorView>(a));
}

} // verus!
