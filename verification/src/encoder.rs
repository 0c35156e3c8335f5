// FLAC encoder: a correct, deterministic, byte-stable baseline.
//
// Each block of samples is encoded per channel with whichever of three
// subframe types is smallest: a constant (all samples equal), a fixed
// polynomial predictor of order 0 to 4 with Rice-coded residuals, or a
// verbatim fallback that always works. Channels are stored independently (no
// mid/side transform). Every choice is a deterministic function of the input,
// so encoding the same samples twice yields byte-identical output; the
// contracts below state that output exactly.

use crate::bits::{bits_of, bytes_of_bits, lemma_bytes_of_bits, zeros};
use crate::bitwriter::{BitWriter, pad_len};
use crate::crc::{crc16, crc8, spec_crc16, spec_crc8};
use crate::error::{decimal, numbered, push_number, ErrorView, FlacError, invalid_input};
use crate::md5::spec_md5;
use crate::ogg::{mux, packet_views, spec_mux, Packet};
use crate::sample_bytes::{frames_of, md5_of_samples, rectangular, sample_bytes};
use crate::{AudioView, FlacAudio};
use vstd::arithmetic::power2::{lemma2_to64, lemma2_to64_rest, pow2};
use vstd::prelude::*;

verus! {

/// Samples per block: the common FLAC default, fixed so the output is
/// reproducible.
pub const BLOCK_SIZE: usize = 4096;

/// Largest Rice parameter the encoder will pick.
pub const MAX_RICE_PARAM: u32 = 30;

/// If even the best Rice parameter leaves a quotient longer than this, the
/// residuals are pathological and a verbatim subframe is used instead.
pub const MAX_RICE_QUOTIENT: u64 = 0x10_0000;

/// Zigzag mapping of a signed residual onto the unsigned line:
/// 0, -1, 1, -2, 2, ... become 0, 1, 2, 3, 4, ...
pub open spec fn spec_zigzag(n: i64) -> u64 {
    if n >= 0 {
        (2 * n) as u64
    } else {
        (2 * (-n - 1) + 1) as u64
    }
}

/// Zigzag-encode a signed residual.
pub fn zigzag(n: i64) -> (z: u64)
    ensures
        z == spec_zigzag(n),
{
    let z = ((n << 1u32) ^ (n >> 63u32)) as u64;
    assert((n >= 0 ==> ((n << 1u32) ^ (n >> 63u32)) as u64 == (2 * n) as u64) && (n < 0 ==> ((n
        << 1u32) ^ (n >> 63u32)) as u64 == (2 * (-n - 1) + 1) as u64)) by (bit_vector);
    z
}

/// The two's-complement range of a `bits`-bit signed sample.
pub open spec fn spec_signed_range(bits: u32) -> (int, int) {
    if bits >= 64 {
        (i64::MIN as int, i64::MAX as int)
    } else {
        (-pow2((bits - 1) as nat), pow2((bits - 1) as nat) - 1)
    }
}

/// The smallest and largest `bits`-bit two's-complement values.
pub fn signed_range(bits: u32) -> (r: (i64, i64))
    requires
        bits >= 1,
    ensures
        r.0 == spec_signed_range(bits).0,
        r.1 == spec_signed_range(bits).1,
{
    if bits >= 64 {
        return (i64::MIN, i64::MAX);
    }
    let shift = bits - 1;
    proof {
        vstd::bits::lemma_u64_pow2_no_overflow(shift as nat);
        vstd::bits::lemma_u64_shl_is_mul(1u64, shift as u64);
        lemma2_to64_rest();
        vstd::arithmetic::power2::lemma_pow2_strictly_increases(shift as nat, 63);
    }
    let p: u64 = 1u64 << (shift as u64);
    let hi = p as i64 - 1;
    let lo = -(p as i64);
    (lo, hi)
}

/// The low `n` bits of a signed value's two's complement, most significant
/// first.
pub open spec fn signed_bits(v: i64, n: nat) -> Seq<bool> {
    bits_of(v as u64, n)
}

/// Write a signed value in `bits` bits as two's complement (its low bits).
pub fn write_signed(w: &mut BitWriter, value: i64, bits: u32)
    requires
        old(w).wf(),
        bits <= 64,
    ensures
        final(w).wf(),
        final(w)@ == old(w)@ + signed_bits(value, bits as nat),
{
    w.write_bits(value as u64, bits);
}

/// The Rice code of one residual with parameter `k`: the quotient in unary,
/// then the low `k` bits of the zigzagged value.
pub open spec fn rice_bits(r: i64, k: u32) -> Seq<bool> {
    zeros((spec_zigzag(r) >> (k as u64)) as nat).push(true) + bits_of(spec_zigzag(r), k as nat)
}

/// Write one Rice-coded residual.
pub fn write_rice(w: &mut BitWriter, residual: i64, k: u32)
    requires
        old(w).wf(),
        k <= MAX_RICE_PARAM,
    ensures
        final(w).wf(),
        final(w)@ == old(w)@ + rice_bits(residual, k),
{
    let value = zigzag(residual);
    let quotient = value >> (k as u64);
    w.write_unary(quotient);
    w.write_bits(value, k);
    assert(w@ =~= old(w)@ + rice_bits(residual, k));
}

/// The order-`order` fixed-polynomial prediction of sample `i` from the
/// samples before it.
pub open spec fn enc_pred(s: Seq<i32>, i: int, order: nat) -> int {
    if order == 0 {
        0
    } else if order == 1 {
        s[i - 1] as int
    } else if order == 2 {
        2 * s[i - 1] - s[i - 2]
    } else if order == 3 {
        3 * s[i - 1] - 3 * s[i - 2] + s[i - 3]
    } else {
        4 * s[i - 1] - 6 * s[i - 2] + 4 * s[i - 3] - s[i - 4]
    }
}

/// The order-`order` fixed-predictor residuals: each sample from `order` on,
/// minus its prediction.
pub open spec fn spec_fixed_residual(s: Seq<i32>, order: nat) -> Seq<i64> {
    Seq::new((s.len() - order) as nat, |j: int| (s[j + order] - enc_pred(s, j + order, order)) as i64)
}

/// Compute the order-`order` fixed-predictor residuals.
pub fn fixed_residual(samples: &[i32], order: usize) -> (res: Vec<i64>)
    requires
        order <= 4,
        order <= samples@.len(),
    ensures
        res@ == spec_fixed_residual(samples@, order as nat),
        forall|j: int|
            0 <= j < res@.len() ==> -0x8_0000_0000 <= #[trigger] res@[j] <= 0x8_0000_0000,
{
    let n = samples.len();
    let mut res: Vec<i64> = Vec::new();
    let mut i = order;
    while i < n
        invariant
            order <= i <= n,
            n == samples@.len(),
            order <= 4,
            res@.len() == i - order,
            forall|j: int|
                0 <= j < res@.len() ==> res@[j] == spec_fixed_residual(samples@, order as nat)[j]
                    && -0x8_0000_0000 <= #[trigger] res@[j] <= 0x8_0000_0000,
        decreases n - i,
    {
        let pred: i64 = if order == 0 {
            0
        } else if order == 1 {
            samples[i - 1] as i64
        } else if order == 2 {
            2 * (samples[i - 1] as i64) - samples[i - 2] as i64
        } else if order == 3 {
            3 * (samples[i - 1] as i64) - 3 * (samples[i - 2] as i64) + samples[i - 3] as i64
        } else {
            4 * (samples[i - 1] as i64) - 6 * (samples[i - 2] as i64) + 4 * (samples[i - 3] as i64)
                - samples[i - 4] as i64
        };
        assert(pred == enc_pred(samples@, i as int, order as nat));
        res.push(samples[i] as i64 - pred);
        i += 1;
    }
    assert(res@ =~= spec_fixed_residual(samples@, order as nat));
    res
}

/// The zigzagged residuals.
pub open spec fn zigzags(r: Seq<i64>) -> Seq<u64> {
    Seq::new(r.len(), |i: int| spec_zigzag(r[i]))
}

/// Bits used by the first `n` values Rice-coded with parameter `k`.
pub open spec fn rice_total(zs: Seq<u64>, k: u32, n: nat) -> nat
    decreases n,
{
    if n == 0 {
        0
    } else {
        (rice_total(zs, k, (n - 1) as nat) + (zs[n - 1] >> (k as u64)) + 1 + k) as nat
    }
}

/// Every quotient under parameter `k` stays within the sane bound.
pub open spec fn rice_fits(zs: Seq<u64>, k: u32) -> bool {
    forall|i: int| 0 <= i < zs.len() ==> (#[trigger] zs[i] >> (k as u64)) <= MAX_RICE_QUOTIENT
}

/// The best parameter among `0..m` as `(parameter, total bits)`: the first
/// one, in increasing order, whose quotients fit and whose size no earlier
/// fitting parameter beats or equals.
pub open spec fn best_rice_among(zs: Seq<u64>, m: nat) -> Option<(u32, u64)>
    decreases m,
{
    if m == 0 {
        None
    } else {
        let prev = best_rice_among(zs, (m - 1) as nat);
        let k = (m - 1) as u32;
        if !rice_fits(zs, k) {
            prev
        } else {
            let bits = rice_total(zs, k, zs.len()) as u64;
            match prev {
                Some((_, b)) => if bits < b {
                    Some((k, bits))
                } else {
                    prev
                },
                None => Some((k, bits)),
            }
        }
    }
}

/// The Rice parameter that minimises the coded size of `r`, with that size.
pub open spec fn spec_best_rice(r: Seq<i64>) -> Option<(u32, u64)> {
    if r.len() == 0 {
        Some((0, 0))
    } else {
        best_rice_among(zigzags(r), (MAX_RICE_PARAM + 1) as nat)
    }
}

proof fn lemma_shr_le(z: u64, k: u64)
    ensures
        z >> k <= z,
{
    assert(z >> k <= z) by (bit_vector);
}

/// The bits of the first `i` values are no more than those of the first `n`.
proof fn lemma_rice_total_mono(zs: Seq<u64>, k: u32, i: nat, n: nat)
    requires
        i <= n,
    ensures
        rice_total(zs, k, i) <= rice_total(zs, k, n),
    decreases n - i,
{
    if i < n {
        lemma_rice_total_mono(zs, k, i, (n - 1) as nat);
    }
}

/// Pick the Rice parameter that minimises the encoded residual size, returning
/// `(parameter, total_bits)`, or `None` if the residuals are too large to Rice
/// code sanely.
pub fn best_rice_param(residual: &[i64]) -> (r: Option<(u32, u64)>)
    requires
        forall|k: u32|
            k <= MAX_RICE_PARAM ==> #[trigger] rice_total(zigzags(residual@), k, residual@.len())
                <= u64::MAX,
    ensures
        r == spec_best_rice(residual@),
{
    if residual.len() == 0 {
        return Some((0, 0));
    }
    let ghost zs = zigzags(residual@);
    let mut zigzag_vals: Vec<u64> = Vec::new();
    let mut j: usize = 0;
    while j < residual.len()
        invariant
            j <= residual@.len(),
            zs == zigzags(residual@),
            zigzag_vals@ == zs.take(j as int),
        decreases residual@.len() - j,
    {
        zigzag_vals.push(zigzag(residual[j]));
        j += 1;
        assert(zigzag_vals@ =~= zs.take(j as int));
    }
    assert(zigzag_vals@ =~= zs);
    let n = zigzag_vals.len();
    let mut best: Option<(u32, u64)> = None;
    let mut k: u32 = 0;
    while k <= MAX_RICE_PARAM
        invariant
            k <= MAX_RICE_PARAM + 1,
            zigzag_vals@ == zs,
            n == zs.len(),
            1 <= n,
            forall|kk: u32| kk <= MAX_RICE_PARAM ==> #[trigger] rice_total(zs, kk, n as nat) <= u64::MAX,
            best == best_rice_among(zs, k as nat),
        decreases MAX_RICE_PARAM + 1 - k,
    {
        let mut bits: u64 = 0;
        let mut max_quotient: u64 = 0;
        let mut i: usize = 0;
        while i < n
            invariant
                i <= n,
                n == zs.len(),
                k <= MAX_RICE_PARAM,
                zigzag_vals@ == zs,
                rice_total(zs, k, n as nat) <= u64::MAX,
                bits == rice_total(zs, k, i as nat),
                (max_quotient <= MAX_RICE_QUOTIENT) == (forall|t: int|
                    0 <= t < i ==> (#[trigger] zs[t] >> (k as u64)) <= MAX_RICE_QUOTIENT),
            decreases n - i,
        {
            let z = zigzag_vals[i];
            let q = z >> (k as u64);
            proof {
                lemma_rice_total_mono(zs, k, (i + 1) as nat, n as nat);
            }
            if q > max_quotient {
                max_quotient = q;
            }
            bits += q + 1 + k as u64;
            i += 1;
        }
        if max_quotient <= MAX_RICE_QUOTIENT {
            let improves = match best {
                None => true,
                Some((_, b)) => bits < b,
            };
            if improves {
                best = Some((k, bits));
            }
        }
        k += 1;
    }
    best
}

/// The first `n` samples, each in `bps`-bit two's complement.
pub open spec fn signed_run(s: Seq<i32>, bps: u32, n: nat) -> Seq<bool>
    decreases n,
{
    if n == 0 {
        Seq::empty()
    } else {
        signed_run(s, bps, (n - 1) as nat) + signed_bits(s[n - 1] as i64, bps as nat)
    }
}

/// The first `n` residuals, each Rice-coded with parameter `k`.
pub open spec fn rice_run(r: Seq<i64>, k: u32, n: nat) -> Seq<bool>
    decreases n,
{
    if n == 0 {
        Seq::empty()
    } else {
        rice_run(r, k, (n - 1) as nat) + rice_bits(r[n - 1], k)
    }
}

/// Every sample equals the first.
pub open spec fn all_same(s: Seq<i32>) -> bool {
    forall|i: int| 0 <= i < s.len() ==> #[trigger] s[i] == s[0]
}

/// The width of the Rice parameter field: 4 bits when the parameter fits,
/// else the 5-bit form.
pub open spec fn param_width(k: u32) -> nat {
    if k <= 14 {
        4
    } else {
        5
    }
}

/// A constant subframe: header byte (type 0, no wasted bits), then the value.
pub open spec fn constant_bits(v: i32, bps: u32) -> Seq<bool> {
    bits_of(0, 1) + bits_of(0, 6) + bits_of(0, 1) + signed_bits(v as i64, bps as nat)
}

/// A verbatim subframe: header byte (type 1), then every sample raw.
pub open spec fn verbatim_bits(s: Seq<i32>, bps: u32) -> Seq<bool> {
    bits_of(0, 1) + bits_of(1, 6) + bits_of(0, 1) + signed_run(s, bps, s.len())
}

/// A fixed subframe of order `order`: header byte (type 8 + order), the warm-up
/// samples raw, then one Rice partition (partition order 0) of the residuals.
pub open spec fn fixed_bits(s: Seq<i32>, bps: u32, order: nat, param: u32) -> Seq<bool> {
    let res = spec_fixed_residual(s, order);
    bits_of(0, 1) + bits_of((8 + order) as u64, 6) + bits_of(0, 1) + signed_run(s, bps, order)
        + bits_of(
        if param <= 14 {
            0
        } else {
            1
        },
        2,
    ) + bits_of(0, 4) + bits_of(param as u64, param_width(param)) + rice_run(res, param, res.len())
}

/// The size in bits of a fixed subframe of order `order` whose residuals take
/// `rice` bits under parameter `param`.
pub open spec fn plan_cost(order: nat, bps: u32, param: u32, rice: u64) -> int {
    8 + order * bps + 2 + 4 + param_width(param) + rice
}

/// Every sum the encoder forms for the fixed predictor of order `order`
/// fits in 64 bits: the residuals' Rice sizes under every parameter, and the
/// subframe size for the parameter chosen.
pub open spec fn order_costs_fit(s: Seq<i32>, bps: u32, order: nat) -> bool {
    let r = spec_fixed_residual(s, order);
    &&& forall|k: u32|
        k <= MAX_RICE_PARAM ==> #[trigger] rice_total(zigzags(r), k, r.len()) <= u64::MAX
    &&& spec_best_rice(r) matches Some((k, b)) ==> plan_cost(order, bps, k, b) <= u64::MAX
}

/// Every size the encoder computes when choosing a non-constant subframe
/// fits in 64 bits: each fixed predictor's, and verbatim's.
pub open spec fn subframe_costs_fit(s: Seq<i32>, bps: u32) -> bool {
    &&& 8 + s.len() * bps <= u64::MAX
    &&& forall|order: nat| order <= 4 && order < s.len() ==> #[trigger] order_costs_fit(s, bps, order)
}

/// The cheapest fixed predictor among orders `0..m` as `(order, parameter,
/// cost)`: the first order, in increasing order, that no earlier order beats
/// or equals. Orders that leave no warm-up room or no sane Rice code are
/// skipped.
pub open spec fn best_plan_among(s: Seq<i32>, bps: u32, m: nat) -> Option<(nat, u32, int)>
    decreases m,
{
    if m == 0 {
        None
    } else {
        let prev = best_plan_among(s, bps, (m - 1) as nat);
        let order = (m - 1) as nat;
        if s.len() <= order {
            prev
        } else {
            match spec_best_rice(spec_fixed_residual(s, order)) {
                None => prev,
                Some((param, rb)) => {
                    let cost = plan_cost(order, bps, param, rb);
                    match prev {
                        None => Some((order, param, cost)),
                        Some((_, _, c)) => if cost < c {
                            Some((order, param, cost))
                        } else {
                            prev
                        },
                    }
                },
            }
        }
    }
}

/// The subframe the encoder writes for `s`: constant when every sample is the
/// same, else the cheapest fixed predictor when it beats verbatim, else
/// verbatim.
pub open spec fn subframe_bits(s: Seq<i32>, bps: u32) -> Seq<bool> {
    if all_same(s) {
        constant_bits(s[0], bps)
    } else {
        match best_plan_among(s, bps, 5) {
            Some((order, param, cost)) => if cost < 8 + s.len() * bps {
                fixed_bits(s, bps, order, param)
            } else {
                verbatim_bits(s, bps)
            },
            None => verbatim_bits(s, bps),
        }
    }
}

/// A chosen fixed predictor: its order, residuals, Rice parameter and total
/// size in bits.
pub struct FixedPlan {
    pub order: usize,
    pub residual: Vec<i64>,
    pub param: u32,
    pub cost: u64,
}

/// The plan as `(order, parameter, cost)`.
pub open spec fn plan_view(p: Option<FixedPlan>) -> Option<(nat, u32, int)> {
    match p {
        Some(plan) => Some((plan.order as nat, plan.param, plan.cost as int)),
        None => None,
    }
}

/// Write `n` samples raw in `bps`-bit two's complement.
fn write_samples(w: &mut BitWriter, samples: &[i32], n: usize, bps: u32)
    requires
        old(w).wf(),
        n <= samples@.len(),
        bps <= 64,
    ensures
        final(w).wf(),
        final(w)@ == old(w)@ + signed_run(samples@, bps, n as nat),
{
    let mut i: usize = 0;
    while i < n
        invariant
            w.wf(),
            i <= n,
            n <= samples@.len(),
            bps <= 64,
            w@ == old(w)@ + signed_run(samples@, bps, i as nat),
        decreases n - i,
    {
        write_signed(w, samples[i] as i64, bps);
        i += 1;
        assert(w@ =~= old(w)@ + signed_run(samples@, bps, i as nat));
    }
}

/// Write a verbatim subframe.
pub fn write_verbatim(w: &mut BitWriter, samples: &[i32], bps: u32)
    requires
        old(w).wf(),
        bps <= 64,
    ensures
        final(w).wf(),
        final(w)@ == old(w)@ + verbatim_bits(samples@, bps),
{
    w.write_bits(0, 1);  // padding
    w.write_bits(1, 6);  // type: verbatim
    w.write_bits(0, 1);  // no wasted bits
    write_samples(w, samples, samples.len(), bps);
    assert(w@ =~= old(w)@ + verbatim_bits(samples@, bps));
}

/// Write a fixed-predictor subframe following `plan`.
pub fn write_fixed(w: &mut BitWriter, samples: &[i32], bps: u32, plan: FixedPlan)
    requires
        old(w).wf(),
        bps <= 64,
        plan.order <= 4,
        plan.order <= samples@.len(),
        plan.param <= MAX_RICE_PARAM,
        plan.residual@ == spec_fixed_residual(samples@, plan.order as nat),
    ensures
        final(w).wf(),
        final(w)@ == old(w)@ + fixed_bits(samples@, bps, plan.order as nat, plan.param),
{
    let ghost res = spec_fixed_residual(samples@, plan.order as nat);
    w.write_bits(0, 1);  // padding
    w.write_bits(8 + plan.order as u64, 6);  // type: fixed, order in low bits
    w.write_bits(0, 1);  // no wasted bits
    write_samples(w, samples, plan.order, bps);
    // Residual: single partition (order 0), method picked by parameter width.
    let method: u64 = if plan.param <= 14 {
        0
    } else {
        1
    };
    let param_bits: u32 = if method == 0 {
        4
    } else {
        5
    };
    w.write_bits(method, 2);
    w.write_bits(0, 4);  // partition order 0
    w.write_bits(plan.param as u64, param_bits);
    let ghost mid = w@;
    let mut i: usize = 0;
    while i < plan.residual.len()
        invariant
            w.wf(),
            i <= plan.residual@.len(),
            plan.residual@ == res,
            plan.param <= MAX_RICE_PARAM,
            w@ == mid + rice_run(res, plan.param, i as nat),
        decreases plan.residual@.len() - i,
    {
        write_rice(w, plan.residual[i], plan.param);
        i += 1;
        assert(w@ =~= mid + rice_run(res, plan.param, i as nat));
    }
    assert(w@ =~= old(w)@ + fixed_bits(samples@, bps, plan.order as nat, plan.param));
}

/// True when every sample equals the first.
fn all_equal(samples: &[i32]) -> (b: bool)
    requires
        samples@.len() >= 1,
    ensures
        b == all_same(samples@),
{
    let first = samples[0];
    let mut i: usize = 0;
    while i < samples.len()
        invariant
            i <= samples@.len(),
            first == samples@[0],
            forall|t: int| 0 <= t < i ==> #[trigger] samples@[t] == first,
        decreases samples@.len() - i,
    {
        if samples[i] != first {
            return false;
        }
        i += 1;
    }
    true
}

/// Encode one channel's block as the smallest of constant, fixed and verbatim.
pub fn encode_subframe(w: &mut BitWriter, samples: &[i32], bps: u32)
    requires
        old(w).wf(),
        1 <= samples@.len(),
        bps <= 32,
        all_same(samples@) || subframe_costs_fit(samples@, bps),
    ensures
        final(w).wf(),
        final(w)@ == old(w)@ + subframe_bits(samples@, bps),
{
    // Constant subframe: every sample identical.
    if all_equal(samples) {
        w.write_bits(0, 1);  // padding
        w.write_bits(0, 6);  // type: constant
        w.write_bits(0, 1);  // no wasted bits
        write_signed(w, samples[0] as i64, bps);
        assert(w@ =~= old(w)@ + subframe_bits(samples@, bps));
        return;
    }
    // Find the best fixed predictor order, if any beats verbatim.
    let mut best: Option<FixedPlan> = None;
    let mut order: usize = 0;
    while order <= 4
        invariant
            order <= 5,
            1 <= samples@.len(),
            subframe_costs_fit(samples@, bps),
            bps <= 32,
            plan_view(best) == best_plan_among(samples@, bps, order as nat),
            best matches Some(p) ==> p.order < order && p.order < samples@.len() && p.param
                <= MAX_RICE_PARAM && p.residual@ == spec_fixed_residual(samples@, p.order as nat),
        decreases 5 - order,
    {
        if samples.len() <= order {
            order += 1;
            continue;
        }
        let residual = fixed_residual(samples, order);
        assert(order_costs_fit(samples@, bps, order as nat));
        let (param, rice_bits) = match best_rice_param(&residual) {
            Some(pr) => pr,
            None => {
                order += 1;
                continue;
            },
        };
        assert(plan_cost(order as nat, bps, param, rice_bits) <= u64::MAX);
        proof {
            lemma_best_rice_range(zigzags(residual@), (MAX_RICE_PARAM + 1) as nat);
        }
        assert(order * bps <= 4 * 32) by (nonlinear_arith)
            requires
                order <= 4,
                bps <= 32,
        ;
        let warmup_bits = order as u64 * bps as u64;
        // header(8) + method(2) + partition order(4) + param field + rice
        let param_field: u64 = if param <= 14 {
            4
        } else {
            5
        };
        let cost = 8 + warmup_bits + 2 + 4 + param_field + rice_bits;
        let improves = match &best {
            None => true,
            Some(b) => cost < b.cost,
        };
        if improves {
            best = Some(FixedPlan { order, residual, param, cost });
        }
        order += 1;
    }
    let verbatim_cost = 8 + samples.len() as u64 * bps as u64;
    match best {
        Some(plan) => {
            if plan.cost < verbatim_cost {
                write_fixed(w, samples, bps, plan);
            } else {
                write_verbatim(w, samples, bps);
            }
        },
        None => write_verbatim(w, samples, bps),
    }
}

/// What `best_rice_among` picks, stated directly: among the parameters
/// below `m` whose quotients fit, one of least size, and the first such.
proof fn lemma_best_rice_among_min(zs: Seq<u64>, m: nat)
    requires
        m <= MAX_RICE_PARAM + 1,
    ensures
        match best_rice_among(zs, m) {
            None => forall|j: u32| j < m ==> !#[trigger] rice_fits(zs, j),
            Some((k, b)) => {
                &&& k < m
                &&& rice_fits(zs, k)
                &&& b == rice_total(zs, k, zs.len()) as u64
                &&& forall|j: u32|
                    j < m && #[trigger] rice_fits(zs, j) ==> b <= rice_total(zs, j, zs.len()) as u64
                &&& forall|j: u32|
                    j < k && #[trigger] rice_fits(zs, j) ==> b < rice_total(zs, j, zs.len()) as u64
            },
        },
    decreases m,
{
    if m > 0 {
        lemma_best_rice_among_min(zs, (m - 1) as nat);
        assert(((m - 1) as u32) as nat == m - 1);
    }
}

/// The Rice parameter the encoder picks, stated directly: for non-empty
/// residuals, the least parameter of least size among those (0 to 30) whose
/// quotients all fit; none when no parameter fits.
pub proof fn law_rice_parameter_is_cheapest(r: Seq<i64>)
    requires
        r.len() > 0,
    ensures
        match spec_best_rice(r) {
            None => forall|j: u32| j <= MAX_RICE_PARAM ==> !#[trigger] rice_fits(zigzags(r), j),
            Some((k, b)) => {
                let zs = zigzags(r);
                &&& k <= MAX_RICE_PARAM
                &&& rice_fits(zs, k)
                &&& b == rice_total(zs, k, zs.len()) as u64
                &&& forall|j: u32|
                    j <= MAX_RICE_PARAM && #[trigger] rice_fits(zs, j) ==> b <= rice_total(
                        zs,
                        j,
                        zs.len(),
                    ) as u64
                &&& forall|j: u32|
                    j < k && #[trigger] rice_fits(zs, j) ==> b < rice_total(zs, j, zs.len()) as u64
            },
        },
{
    lemma_best_rice_among_min(zigzags(r), (MAX_RICE_PARAM + 1) as nat);
}

/// The fixed predictor the encoder considers best, stated directly: among
/// the orders below `m` that leave warm-up room and have a Rice parameter,
/// one of least size, and the first such; none when no order qualifies.
pub proof fn law_fixed_order_is_cheapest(s: Seq<i32>, bps: u32, m: nat)
    ensures
        match best_plan_among(s, bps, m) {
            None => forall|o: nat|
                o < m && o < s.len() ==> #[trigger] spec_best_rice(spec_fixed_residual(s, o)) is None,
            Some((order, param, cost)) => {
                &&& order < m
                &&& order < s.len()
                &&& spec_best_rice(spec_fixed_residual(s, order)) matches Some((k, rb)) && k == param
                    && cost == plan_cost(order, bps, k, rb)
                &&& forall|o: nat|
                    o < m && o < s.len() ==> (#[trigger] spec_best_rice(spec_fixed_residual(s, o)) matches Some(
                        (k2, rb2),
                    ) ==> cost <= plan_cost(o, bps, k2, rb2))
                &&& forall|o: nat|
                    o < order && o < s.len() ==> (#[trigger] spec_best_rice(spec_fixed_residual(s, o)) matches Some(
                        (k2, rb2),
                    ) ==> cost < plan_cost(o, bps, k2, rb2))
            },
        },
    decreases m,
{
    if m > 0 {
        law_fixed_order_is_cheapest(s, bps, (m - 1) as nat);
    }
}

/// The best parameter found is one of those tried.
proof fn lemma_best_rice_range(zs: Seq<u64>, m: nat)
    ensures
        best_rice_among(zs, m) matches Some((k, b)) ==> k < m,
    decreases m,
{
    if m > 0 {
        lemma_best_rice_range(zs, (m - 1) as nat);
    }
}

/// The fixed-predictor residuals of samples that fit 32 bits stay within
/// 2^35 in size.
proof fn lemma_fixed_residual_bound(s: Seq<i32>, order: nat)
    requires
        order <= 4,
        order <= s.len(),
    ensures
        forall|j: int|
            0 <= j < spec_fixed_residual(s, order).len() ==> -0x8_0000_0000
                <= #[trigger] spec_fixed_residual(s, order)[j] <= 0x8_0000_0000,
{
    assert forall|j: int| 0 <= j < spec_fixed_residual(s, order).len() implies -0x8_0000_0000
        <= #[trigger] spec_fixed_residual(s, order)[j] <= 0x8_0000_0000 by {
        let i = j + order;
        let e = s[i] - enc_pred(s, i, order);
        assert(-0x8_0000_0000 <= e <= 0x8_0000_0000);
    }
}

/// Every size the encoder computes fits in 64 bits for up to 2^28 - 1
/// samples of at most 32 bits.
pub proof fn lemma_subframe_costs_fit(s: Seq<i32>, bps: u32)
    requires
        1 <= s.len() <= 0x0FFF_FFFF,
        bps <= 32,
    ensures
        subframe_costs_fit(s, bps),
{
    assert(s.len() * bps <= 0x0FFF_FFFF * 32) by (nonlinear_arith)
        requires
            s.len() <= 0x0FFF_FFFF,
            bps <= 32,
    ;
    assert forall|order: nat| order <= 4 && order < s.len() implies #[trigger] order_costs_fit(
        s,
        bps,
        order,
    ) by {
        let r = spec_fixed_residual(s, order);
        let zs = zigzags(r);
        lemma_fixed_residual_bound(s, order);
        assert forall|t: int| 0 <= t < zs.len() implies #[trigger] zs[t] <= 0x10_0000_0000 by {
            assert(-0x8_0000_0000 <= r[t] <= 0x8_0000_0000);
        }
        assert(zs.len() * 0x10_0000_0020 <= 0x0FFF_FFFF * 0x10_0000_0020) by (nonlinear_arith)
            requires
                zs.len() <= 0x0FFF_FFFF,
        ;
        assert forall|k: u32| k <= MAX_RICE_PARAM implies #[trigger] rice_total(zs, k, r.len())
            <= u64::MAX by {
            lemma_rice_total_bound(zs, k, zs.len());
        }
        lemma_best_rice_bounds(zs, (MAX_RICE_PARAM + 1) as nat);
        assert(order * bps <= 4 * 32) by (nonlinear_arith)
            requires
                order <= 4,
                bps <= 32,
        ;
    }
}

/// The best parameter found is a legal one and its size is bounded by the
/// residual count.
proof fn lemma_best_rice_bounds(zs: Seq<u64>, m: nat)
    requires
        m <= MAX_RICE_PARAM + 1,
        zs.len() <= 0x0FFF_FFFF,
        forall|t: int| 0 <= t < zs.len() ==> #[trigger] zs[t] <= 0x10_0000_0000,
    ensures
        best_rice_among(zs, m) matches Some((k, b)) ==> k < m && b <= zs.len() * 0x10_0000_0020,
    decreases m,
{
    if m > 0 {
        lemma_best_rice_bounds(zs, (m - 1) as nat);
        lemma_rice_total_bound(zs, (m - 1) as u32, zs.len());
        assert(zs.len() * 0x10_0000_0020 <= 0x0FFF_FFFF * 0x10_0000_0020) by (nonlinear_arith)
            requires
                zs.len() <= 0x0FFF_FFFF,
        ;
    }
}

proof fn lemma_rice_total_bound(zs: Seq<u64>, k: u32, n: nat)
    requires
        n <= zs.len(),
        k <= MAX_RICE_PARAM,
        forall|t: int| 0 <= t < zs.len() ==> #[trigger] zs[t] <= 0x10_0000_0000,
    ensures
        rice_total(zs, k, n) <= n * 0x10_0000_0020,
    decreases n,
{
    if n > 0 {
        lemma_rice_total_bound(zs, k, (n - 1) as nat);
        lemma_shr_le(zs[n - 1], k as u64);
    }
}

/// How many bytes FLAC's extended UTF-8 uses for a number of at least 0x80:
/// the smallest length whose payload (five bits per byte plus one) holds it,
/// at most seven.
pub open spec fn utf8_len(v: u64) -> u64 {
    if v < 0x800 {
        2
    } else if v < 0x1_0000 {
        3
    } else if v < 0x20_0000 {
        4
    } else if v < 0x400_0000 {
        5
    } else if v < 0x8000_0000 {
        6
    } else {
        7
    }
}

/// The lead byte of a multi-byte coded number: one bits for the length, then
/// the top payload bits.
pub open spec fn utf8_lead(v: u64) -> u64 {
    let len = utf8_len(v);
    ((0xFFu64 << ((8 - len) as u64)) & 0xFFu64) | (v >> (((len - 1) * 6) as u64))
}

/// The continuation bytes of a coded number from the `n`-th last down: each
/// `10` then six payload bits.
pub open spec fn utf8_cont_bits(v: u64, n: nat) -> Seq<bool>
    decreases n,
{
    if n == 0 {
        Seq::empty()
    } else {
        bits_of(0x80u64 | ((v >> (((n - 1) * 6) as u64)) & 0x3Fu64), 8) + utf8_cont_bits(
            v,
            (n - 1) as nat,
        )
    }
}

/// FLAC's extended-UTF-8 coding of a frame number.
pub open spec fn utf8_bits(v: u64) -> Seq<bool> {
    if v < 0x80 {
        bits_of(v, 8)
    } else {
        bits_of(utf8_lead(v), 8) + utf8_cont_bits(v, (utf8_len(v) - 1) as nat)
    }
}

proof fn lemma_utf8_cont_len(v: u64, n: nat)
    ensures
        utf8_cont_bits(v, n).len() == 8 * n,
    decreases n,
{
    if n > 0 {
        lemma_utf8_cont_len(v, (n - 1) as nat);
    }
}

/// The coded number is a whole number of bytes.
pub proof fn lemma_utf8_len(v: u64)
    ensures
        utf8_bits(v).len() % 8 == 0,
{
    lemma_utf8_cont_len(v, (utf8_len(v) - 1) as nat);
}

/// Write FLAC's extended-UTF-8 coding of `value`.
pub fn write_utf8_coded(w: &mut BitWriter, value: u64)
    requires
        old(w).wf(),
    ensures
        final(w).wf(),
        final(w)@ == old(w)@ + utf8_bits(value),
{
    if value < 0x80 {
        w.write_bits(value, 8);
        return;
    }
    // Choose the smallest length whose payload bits hold the value. An N-byte
    // sequence carries 5*N + 1 payload bits.
    let len: u64 = if value < 0x800 {
        2
    } else if value < 0x1_0000 {
        3
    } else if value < 0x20_0000 {
        4
    } else if value < 0x400_0000 {
        5
    } else if value < 0x8000_0000 {
        6
    } else {
        7
    };
    let cont = len - 1;
    let lead_ones = (0xFFu64 << (8 - len)) & 0xFF;
    let first = lead_ones | (value >> (cont * 6));
    w.write_bits(first, 8);
    let ghost target = old(w)@ + utf8_bits(value);
    let mut i = cont;
    while i > 0
        invariant
            w.wf(),
            i <= cont,
            cont == utf8_len(value) - 1,
            value >= 0x80,
            w@ + utf8_cont_bits(value, i as nat) == target,
        decreases i,
    {
        let six = (value >> ((i - 1) * 6)) & 0x3F;
        let ghost before = w@;
        w.write_bits(0x80 | six, 8);
        assert(before + utf8_cont_bits(value, i as nat) =~= w@ + utf8_cont_bits(
            value,
            (i - 1) as nat,
        ));
        i -= 1;
    }
    assert(w@ =~= target);
}

/// The header of frame `fnum` holding `block` samples of `nch` independent
/// channels: sync code, fixed blocking, an explicit 16-bit block size, the
/// sample rate and depth taken from STREAMINFO, then the coded frame number.
pub open spec fn frame_header_bits(nch: nat, block: nat, fnum: u64) -> Seq<bool> {
    bits_of(0x3FFE, 14) + bits_of(0, 1) + bits_of(0, 1) + bits_of(7, 4) + bits_of(0, 4) + bits_of(
        (nch - 1) as u64,
        4,
    ) + bits_of(0, 3) + bits_of(0, 1) + utf8_bits(fnum) + bits_of((block - 1) as u64, 16)
}

/// The subframes of the first `n` channels for samples `start..start + block`.
pub open spec fn subframes_bits(s: Seq<Seq<i32>>, start: int, block: int, bps: u32, n: nat) -> Seq<
    bool,
>
    decreases n,
{
    if n == 0 {
        Seq::empty()
    } else {
        subframes_bits(s, start, block, bps, (n - 1) as nat) + subframe_bits(
            s[n - 1].subrange(start, start + block),
            bps,
        )
    }
}

/// A whole frame: header, its CRC-8, one subframe per channel, zero padding
/// to a byte boundary, then the CRC-16 of everything before it.
pub open spec fn frame_bits(
    s: Seq<Seq<i32>>,
    nch: nat,
    bps: u32,
    start: int,
    block: int,
    fnum: u64,
) -> Seq<bool> {
    let hb = frame_header_bits(nch, block as nat, fnum);
    let body = hb + bits_of(spec_crc8(bytes_of_bits(hb)) as u64, 8) + subframes_bits(
        s,
        start,
        block,
        bps,
        nch,
    );
    let aligned = body + zeros(pad_len(body.len()));
    aligned + bits_of(spec_crc16(bytes_of_bits(aligned)) as u64, 16)
}

/// The bytes of one encoded frame.
pub open spec fn spec_frame_bytes(
    s: Seq<Seq<i32>>,
    nch: nat,
    bps: u32,
    start: int,
    block: int,
    fnum: u64,
) -> Seq<u8> {
    bytes_of_bits(frame_bits(s, nch, bps, start, block, fnum))
}

/// Encode samples `start..start + block` of every channel as frame number
/// `frame_number`.
pub fn frame_bytes(
    audio: &FlacAudio,
    channels: usize,
    bps: u32,
    start: usize,
    block: usize,
    frame_number: u64,
) -> (r: Vec<u8>)
    requires
        1 <= channels <= 8,
        channels == audio.samples@.len(),
        rectangular(audio@.samples),
        1 <= block <= BLOCK_SIZE,
        start + block <= frames_of(audio@.samples),
        bps <= 32,
    ensures
        r@ == spec_frame_bytes(audio@.samples, channels as nat, bps, start as int, block as int, frame_number),
{
    let ghost sv = audio@.samples;
    let mut w = BitWriter::new();

    // Frame header. Fixed blocking strategy; explicit 16-bit block size; sample
    // rate and sample depth taken from STREAMINFO; independent channels.
    w.write_bits(0x3FFE, 14);  // sync
    w.write_bits(0, 1);  // mandatory zero
    w.write_bits(0, 1);  // blocking strategy: fixed block size
    w.write_bits(0b0111, 4);  // block size: read 16 bits at end of header
    w.write_bits(0b0000, 4);  // sample rate: from STREAMINFO
    w.write_bits((channels - 1) as u64, 4);  // independent channels
    w.write_bits(0b000, 3);  // sample size: from STREAMINFO
    w.write_bits(0, 1);  // mandatory zero
    write_utf8_coded(&mut w, frame_number);
    w.write_bits((block - 1) as u64, 16);  // block size minus one
    let ghost hb = w@;
    proof {
        lemma_utf8_len(frame_number);
        assert(hb =~= frame_header_bits(channels as nat, block as nat, frame_number));
    }

    // CRC-8 over the header bytes so far (the header is byte aligned here).
    let c8 = {
        let header = w.bytes();
        proof {
            assert(header@.len() * 8 == hb.len());
            assert(hb.take(hb.len() as int) =~= hb);
            lemma_bytes_of_bits(header@);
        }
        crc8(header)
    };
    w.write_bits(c8 as u64, 8);

    // One subframe per channel.
    let ghost pre = w@;
    let mut ch: usize = 0;
    while ch < channels
        invariant
            w.wf(),
            ch <= channels,
            channels == audio.samples@.len(),
            sv == audio@.samples,
            rectangular(sv),
            1 <= block <= BLOCK_SIZE,
            start + block <= frames_of(sv),
            bps <= 32,
            w@ == pre + subframes_bits(sv, start as int, block as int, bps, ch as nat),
        decreases channels - ch,
    {
        assert(sv[ch as int].len() == frames_of(sv));
        assert(sv[ch as int] == audio.samples@[ch as int]@);
        let len = audio.samples[ch].len();
        assert(start + block <= len);
        let samples = &audio.samples[ch][start..start + block];
        proof {
            lemma_subframe_costs_fit(samples@, bps);
        }
        encode_subframe(&mut w, samples, bps);
        ch += 1;
        assert(w@ =~= pre + subframes_bits(sv, start as int, block as int, bps, ch as nat));
    }

    // Whole-frame CRC-16 over everything written (now byte aligned).
    w.align_to_byte();
    let ghost aligned = w@;
    let c16 = {
        let frame = w.bytes();
        proof {
            assert(aligned.take(aligned.len() as int) =~= aligned);
            lemma_bytes_of_bits(frame@);
        }
        crc16(frame)
    };
    w.write_bits(c16 as u64, 16);
    let ghost fb = w@;
    assert(fb =~= frame_bits(sv, channels as nat, bps, start as int, block as int, frame_number));
    let r = w.into_bytes();
    proof {
        assert(fb.len() % 8 == 0);
        assert(fb + zeros(pad_len(fb.len())) =~= fb);
        lemma_bytes_of_bits(r@);
    }
    r
}

/// Append every byte of `src` to `out`.
pub fn extend_bytes(out: &mut Vec<u8>, src: &[u8])
    ensures
        final(out)@ == old(out)@ + src@,
{
    let mut i: usize = 0;
    while i < src.len()
        invariant
            i <= src@.len(),
            out@ == old(out)@ + src@.take(i as int),
        decreases src@.len() - i,
    {
        out.push(src[i]);
        i += 1;
        assert(out@ =~= old(out)@ + src@.take(i as int));
    }
    assert(src@.take(src@.len() as int) =~= src@);
}

/// The `fLaC` stream marker.
pub open spec fn flac_marker() -> Seq<u8> {
    seq![0x66u8, 0x4Cu8, 0x61u8, 0x43u8]
}

/// The block size STREAMINFO reports: the frame size when the whole stream
/// is one short frame, else the fixed block size.
pub open spec fn si_block_size(total: nat) -> u64 {
    if 1 <= total < BLOCK_SIZE {
        total as u64
    } else {
        BLOCK_SIZE as u64
    }
}

/// The first 144 bits of the STREAMINFO body: block-size bounds, unknown
/// frame-size bounds, rate, channels, depth and total.
pub open spec fn streaminfo_bits(a: AudioView, total: nat) -> Seq<bool> {
    let blk = si_block_size(total);
    bits_of(blk, 16) + bits_of(blk, 16) + bits_of(0, 24) + bits_of(0, 24) + bits_of(
        a.sample_rate as u64,
        20,
    ) + bits_of((a.channels - 1) as u64, 3) + bits_of((a.bits_per_sample - 1) as u64, 5) + bits_of(
        total as u64,
        36,
    )
}

/// The STREAMINFO metadata block: its header (`last` flag, type 0, length
/// 34), then the body ending with the sample MD5.
pub open spec fn spec_streaminfo_block(a: AudioView, total: nat, last: bool) -> Seq<u8> {
    seq![
        if last {
            0x80u8
        } else {
            0u8
        },
        0u8,
        0u8,
        0x22u8,
    ] + bytes_of_bits(streaminfo_bits(a, total)) + spec_md5(sample_bytes(a.samples, a.bits_per_sample))
}

/// Build the STREAMINFO metadata block (its 4-byte header plus 34-byte body,
/// with the sample MD5 included). `last` sets the last-metadata-block flag.
pub fn streaminfo_block(audio: &FlacAudio, total: usize, last: bool) -> (r: Vec<u8>)
    requires
        audio.channels >= 1,
        1 <= audio.bits_per_sample <= 32,
        rectangular(audio@.samples),
    ensures
        r@ == spec_streaminfo_block(audio@, total as nat, last),
        r@.len() == 38,
{
    let mut w = BitWriter::new();
    // The block-size bounds describe the inter-frame block size; both are
    // equal because the encoder uses one fixed block size.
    let block: u64 = if 1 <= total && total < BLOCK_SIZE {
        total as u64
    } else {
        BLOCK_SIZE as u64
    };
    w.write_bits(block, 16);  // min block size
    w.write_bits(block, 16);  // max block size
    w.write_bits(0, 24);  // min frame size: unknown
    w.write_bits(0, 24);  // max frame size: unknown
    w.write_bits(audio.sample_rate as u64, 20);
    w.write_bits((audio.channels - 1) as u64, 3);
    w.write_bits((audio.bits_per_sample - 1) as u64, 5);
    w.write_bits(total as u64, 36);
    let ghost sb = w@;
    assert(sb =~= streaminfo_bits(audio@, total as nat));
    let body = w.into_bytes();
    proof {
        assert(sb + zeros(pad_len(sb.len())) =~= sb);
        lemma_bytes_of_bits(body@);
    }
    let md5 = md5_of_samples(&audio.samples, audio.bits_per_sample);

    // Metadata block header: last-block flag, type 0 (STREAMINFO), length 34.
    let mut block: Vec<u8> = Vec::new();
    block.push(if last {
        0x80
    } else {
        0x00
    });
    block.push(0x00);
    block.push(0x00);
    block.push(0x22);
    extend_bytes(&mut block, body.as_slice());
    extend_bytes(&mut block, &md5);
    assert(block@ =~= spec_streaminfo_block(audio@, total as nat, last));
    block
}

/// The minimal VORBIS_COMMENT block: vendor string `flac-io`, no comments,
/// flagged as the last metadata block.
pub open spec fn spec_vorbis_comment_block() -> Seq<u8> {
    seq![
        0x84u8, 0u8, 0u8, 15u8,
        7u8, 0u8, 0u8, 0u8,
        0x66u8, 0x6Cu8, 0x61u8, 0x63u8, 0x2Du8, 0x69u8, 0x6Fu8,
        0u8, 0u8, 0u8, 0u8,
    ]
}

/// Build a minimal VORBIS_COMMENT metadata block: a fixed vendor string and no
/// user comments, as the last metadata block. The vendor string is a fixed
/// literal so the output stays byte-stable.
pub fn vorbis_comment_block() -> (r: Vec<u8>)
    ensures
        r@ == spec_vorbis_comment_block(),
{
    let vendor: [u8; 7] = [0x66, 0x6C, 0x61, 0x63, 0x2D, 0x69, 0x6F];  // "flac-io"
    // Vorbis comment bodies use little-endian lengths, unlike the big-endian
    // fields elsewhere in FLAC metadata.
    let mut body: Vec<u8> = Vec::new();
    let vendor_len: u32 = 7;
    body.push(vendor_len as u8);
    body.push((vendor_len >> 8u32) as u8);
    body.push((vendor_len >> 16u32) as u8);
    body.push((vendor_len >> 24u32) as u8);
    extend_bytes(&mut body, &vendor);
    body.push(0);  // user comment count, little-endian
    body.push(0);
    body.push(0);
    body.push(0);
    let len = body.len() as u32;
    assert(len == 15);
    // Header: last-block flag set, type 4 (VORBIS_COMMENT), 24-bit length.
    let mut block: Vec<u8> = Vec::new();
    block.push(0x84);
    block.push((len >> 16u32) as u8);
    block.push((len >> 8u32) as u8);
    block.push(len as u8);
    extend_bytes(&mut block, body.as_slice());
    assert(vendor@ =~= seq![0x66u8, 0x6Cu8, 0x61u8, 0x63u8, 0x2Du8, 0x69u8, 0x6Fu8]);
    assert((7u32 >> 8u32) as u8 == 0u8 && (7u32 >> 16u32) as u8 == 0u8 && (7u32 >> 24u32) as u8
        == 0u8 && (15u32 >> 16u32) as u8 == 0u8 && (15u32 >> 8u32) as u8 == 0u8) by (bit_vector);
    assert(block@ =~= spec_vorbis_comment_block());
    block
}

/// Every sample fits the two's-complement range of the bit depth.
pub open spec fn samples_fit(s: Seq<Seq<i32>>, bps: u32) -> bool {
    forall|c: int, i: int|
        0 <= c < s.len() && 0 <= i < s[c].len() ==> spec_signed_range(bps).0 <= #[trigger] s[c][i]
            <= spec_signed_range(bps).1
}

/// The first channel from `c` on whose length is not `len`, if any.
pub open spec fn first_ragged(s: Seq<Seq<i32>>, len: nat, c: nat) -> Option<nat>
    decreases s.len() - c,
{
    if c >= s.len() {
        None
    } else if s[c as int].len() != len {
        Some(c)
    } else {
        first_ragged(s, len, c + 1)
    }
}

/// Every sample of one channel fits the range of the bit depth.
pub open spec fn channel_fits(x: Seq<i32>, bps: u32) -> bool {
    forall|i: int| 0 <= i < x.len() ==> spec_signed_range(bps).0 <= #[trigger] x[i]
        <= spec_signed_range(bps).1
}

/// The first channel from `c` on with a sample outside the range of the bit
/// depth, if any.
pub open spec fn first_unfit(s: Seq<Seq<i32>>, bps: u32, c: nat) -> Option<nat>
    decreases s.len() - c,
{
    if c >= s.len() {
        None
    } else if !channel_fits(s[c as int], bps) {
        Some(c)
    } else {
        first_unfit(s, bps, c + 1)
    }
}

/// Why the encoder refuses `a`, if it does.
pub open spec fn validate_fault(a: AudioView) -> Option<ErrorView> {
    if a.channels < 1 || a.channels > 8 {
        Some(
            ErrorView::InvalidInput(
                "channel count "@ + decimal(a.channels as nat) + " is outside 1 to 8"@,
            ),
        )
    } else if a.samples.len() != a.channels {
        Some(ErrorView::InvalidInput("channel count does not match the number of sample vectors"@))
    } else if a.bits_per_sample < 4 || a.bits_per_sample > 32 {
        Some(
            ErrorView::InvalidInput(
                "bit depth "@ + decimal(a.bits_per_sample as nat) + " is outside 4 to 32"@,
            ),
        )
    } else if a.sample_rate == 0 || a.sample_rate >= 0x10_0000 {
        Some(
            ErrorView::InvalidInput(
                "sample rate "@ + decimal(a.sample_rate as nat) + " is outside 1 to 1048575"@,
            ),
        )
    } else if !rectangular(a.samples) {
        let i = first_ragged(a.samples, frames_of(a.samples), 0)->Some_0;
        Some(
            ErrorView::InvalidInput(
                "channel "@ + decimal(i) + " has "@ + decimal(a.samples[i as int].len())
                    + " samples but channel 0 has "@ + decimal(frames_of(a.samples)),
            ),
        )
    } else if !samples_fit(a.samples, a.bits_per_sample as u32) {
        let i = first_unfit(a.samples, a.bits_per_sample as u32, 0)->Some_0;
        Some(
            ErrorView::InvalidInput(
                "channel "@ + decimal(i) + " has a sample outside the "@ + decimal(
                    a.bits_per_sample as nat,
                ) + "-bit range"@,
            ),
        )
    } else {
        None
    }
}

/// Check the samples handed to the encoder.
pub fn validate(audio: &FlacAudio) -> (r: Result<(), FlacError>)
    ensures
        match validate_fault(audio@) {
            Some(e) => r is Err && r->Err_0@ == e,
            None => r is Ok,
        },
{
    let ghost sv = audio@.samples;
    if audio.channels < 1 || audio.channels > 8 {
        return Err(FlacError::InvalidInput(
            numbered("channel count ", audio.channels as u64, " is outside 1 to 8"),
        ));
    }
    if audio.samples.len() != audio.channels as usize {
        return Err(invalid_input("channel count does not match the number of sample vectors"));
    }
    if audio.bits_per_sample < 4 || audio.bits_per_sample > 32 {
        return Err(FlacError::InvalidInput(
            numbered("bit depth ", audio.bits_per_sample as u64, " is outside 4 to 32"),
        ));
    }
    if audio.sample_rate == 0 || audio.sample_rate >= 0x10_0000 {
        return Err(FlacError::InvalidInput(
            numbered("sample rate ", audio.sample_rate as u64, " is outside 1 to 1048575"),
        ));
    }
    let len = audio.samples_per_channel();
    let mut c: usize = 0;
    while c < audio.samples.len()
        invariant
            c <= sv.len(),
            sv == audio@.samples,
            sv.len() == audio.samples@.len(),
            len == frames_of(sv),
            forall|k: int| 0 <= k < c ==> (#[trigger] sv[k]).len() == len,
            first_ragged(sv, len as nat, 0) == first_ragged(sv, len as nat, c as nat),
            1 <= audio.channels <= 8,
            sv.len() == audio.channels,
            4 <= audio.bits_per_sample <= 32,
            0 < audio.sample_rate < 0x10_0000,
        decreases sv.len() - c,
    {
        if audio.samples[c].len() != len {
            assert(sv[c as int].len() != frames_of(sv));
            let mut why = "channel ".to_owned();
            push_number(&mut why, c as u64);
            why.append(" has ");
            push_number(&mut why, audio.samples[c].len() as u64);
            why.append(" samples but channel 0 has ");
            push_number(&mut why, len as u64);
            return Err(FlacError::InvalidInput(why));
        }
        c += 1;
    }
    // Every sample must fit the declared bit depth.
    let bps = audio.bits_per_sample as u32;
    let (lo, hi) = signed_range(bps);
    let mut c: usize = 0;
    while c < audio.samples.len()
        invariant
            c <= sv.len(),
            sv == audio@.samples,
            sv.len() == audio.samples@.len(),
            bps == audio.bits_per_sample,
            lo == spec_signed_range(bps).0,
            hi == spec_signed_range(bps).1,
            forall|k: int, i: int|
                0 <= k < c && 0 <= i < sv[k].len() ==> lo <= #[trigger] sv[k][i] <= hi,
            first_unfit(sv, bps, 0) == first_unfit(sv, bps, c as nat),
            1 <= audio.channels <= 8,
            sv.len() == audio.channels,
            4 <= audio.bits_per_sample <= 32,
            0 < audio.sample_rate < 0x10_0000,
            rectangular(sv),
        decreases sv.len() - c,
    {
        let channel = &audio.samples[c];
        let mut i: usize = 0;
        while i < channel.len()
            invariant
                c < sv.len(),
                sv == audio@.samples,
                channel@ == sv[c as int],
                i <= channel@.len(),
                forall|k: int, t: int|
                    0 <= k < c && 0 <= t < sv[k].len() ==> lo <= #[trigger] sv[k][t] <= hi,
                forall|t: int| 0 <= t < i ==> lo <= #[trigger] sv[c as int][t] <= hi,
                first_unfit(sv, bps, 0) == first_unfit(sv, bps, c as nat),
                1 <= audio.channels <= 8,
                sv.len() == audio.channels,
                4 <= audio.bits_per_sample <= 32,
                0 < audio.sample_rate < 0x10_0000,
                rectangular(sv),
                bps == audio.bits_per_sample,
                lo == spec_signed_range(bps).0,
                hi == spec_signed_range(bps).1,
            decreases channel@.len() - i,
        {
            let s = channel[i] as i64;
            if s < lo || s > hi {
                assert(!(lo <= sv[c as int][i as int] <= hi));
                assert(!channel_fits(sv[c as int], bps));
                let mut why = "channel ".to_owned();
                push_number(&mut why, c as u64);
                why.append(" has a sample outside the ");
                push_number(&mut why, bps as u64);
                why.append("-bit range");
                return Err(FlacError::InvalidInput(why));
            }
            i += 1;
        }
        assert(channel_fits(sv[c as int], bps));
        c += 1;
    }
    Ok(())
}

/// The frames of every block from `start` on, numbered from `fnum`.
pub open spec fn frames_from(s: Seq<Seq<i32>>, nch: nat, bps: u32, start: nat, fnum: nat, total: nat) -> Seq<u8>
    decreases total - start,
{
    if start >= total {
        Seq::empty()
    } else {
        let block: nat = if total - start < BLOCK_SIZE {
            (total - start) as nat
        } else {
            BLOCK_SIZE as nat
        };
        spec_frame_bytes(s, nch, bps, start as int, block as int, fnum as u64) + frames_from(
            s,
            nch,
            bps,
            start + block,
            fnum + 1,
            total,
        )
    }
}

/// The native FLAC stream the encoder writes for valid audio.
pub open spec fn encoded_stream(a: AudioView) -> Seq<u8> {
    let total = frames_of(a.samples);
    flac_marker() + spec_streaminfo_block(a, total, true) + frames_from(
        a.samples,
        a.channels as nat,
        a.bits_per_sample as u32,
        0,
        0,
        total,
    )
}

/// Encoding: the validation fault, or the stream.
pub open spec fn spec_encode(a: AudioView) -> Result<Seq<u8>, ErrorView> {
    match validate_fault(a) {
        Some(e) => Err(e),
        None => Ok(encoded_stream(a)),
    }
}

/// Encode samples into a native FLAC byte stream.
pub fn encode(audio: &FlacAudio) -> (r: Result<Vec<u8>, FlacError>)
    ensures
        match spec_encode(audio@) {
            Ok(b) => r is Ok && r->Ok_0@ == b,
            Err(e) => r is Err && r->Err_0@ == e,
        },
{
    match validate(audio) {
        Ok(()) => {},
        Err(e) => return Err(e),
    }
    let ghost a = audio@;
    let channels = audio.channels as usize;
    let bps = audio.bits_per_sample as u32;
    let total = audio.samples_per_channel();

    let mut out: Vec<u8> = Vec::new();
    out.push(0x66);
    out.push(0x4C);
    out.push(0x61);
    out.push(0x43);
    let si = streaminfo_block(audio, total, true);
    extend_bytes(&mut out, si.as_slice());
    let ghost full = encoded_stream(a);
    assert(out@ + frames_from(a.samples, channels as nat, bps, 0, 0, total as nat) =~= full);

    // Encode frame by frame over fixed-size blocks.
    let mut frame_number: u64 = 0;
    let mut start: usize = 0;
    while start < total
        invariant
            a == audio@,
            validate_fault(a) is None,
            channels == a.channels,
            channels == audio.samples@.len(),
            bps == a.bits_per_sample,
            total == frames_of(a.samples),
            start <= total,
            frame_number <= start,
            out@ + frames_from(a.samples, channels as nat, bps, start as nat, frame_number as nat, total as nat) == full,
        decreases total - start,
    {
        let block = if total - start < BLOCK_SIZE {
            total - start
        } else {
            BLOCK_SIZE
        };
        let f = frame_bytes(audio, channels, bps, start, block, frame_number);
        let ghost before = out@;
        extend_bytes(&mut out, f.as_slice());
        assert(before + frames_from(a.samples, channels as nat, bps, start as nat, frame_number as nat, total as nat)
            =~= out@ + frames_from(a.samples, channels as nat, bps, (start + block) as nat, (frame_number + 1) as nat, total as nat));
        start += block;
        frame_number += 1;
    }
    // A stream with zero samples is STREAMINFO alone, a legal FLAC stream.
    assert(out@ =~= full);
    Ok(out)
}

/// The FLAC-to-Ogg mapping header packet: type byte, "FLAC", mapping version
/// 1.0, one following header packet, then `fLaC` and the STREAMINFO block
/// (not the last metadata block, since the comment block follows).
pub open spec fn mapping_packet(a: AudioView, total: nat) -> Seq<u8> {
    seq![0x7Fu8, 0x46u8, 0x4Cu8, 0x41u8, 0x43u8, 1u8, 0u8, 0u8, 1u8] + flac_marker()
        + spec_streaminfo_block(a, total, false)
}

/// One packet per frame from `start` on, each carrying the running sample
/// count once it is decoded.
pub open spec fn frame_packets(
    s: Seq<Seq<i32>>,
    nch: nat,
    bps: u32,
    start: nat,
    fnum: nat,
    total: nat,
) -> Seq<(Seq<u8>, i64)>
    decreases total - start,
{
    if start >= total {
        Seq::empty()
    } else {
        let block: nat = if total - start < BLOCK_SIZE {
            (total - start) as nat
        } else {
            BLOCK_SIZE as nat
        };
        seq![
            (
                spec_frame_bytes(s, nch, bps, start as int, block as int, fnum as u64),
                (start + block) as i64,
            ),
        ] + frame_packets(s, nch, bps, start + block, fnum + 1, total)
    }
}

/// The packets of the Ogg encoding of valid audio.
pub open spec fn ogg_packets(a: AudioView) -> Seq<(Seq<u8>, i64)> {
    let total = frames_of(a.samples);
    seq![(mapping_packet(a, total), 0i64), (spec_vorbis_comment_block(), 0i64)] + frame_packets(
        a.samples,
        a.channels as nat,
        a.bits_per_sample as u32,
        0,
        0,
        total,
    )
}

/// Ogg encoding: the validation fault, or the paged stream.
pub open spec fn spec_encode_ogg(a: AudioView) -> Result<Seq<u8>, ErrorView> {
    match validate_fault(a) {
        Some(e) => Err(e),
        None => Ok(spec_mux(ogg_packets(a))),
    }
}

/// Encode samples into a FLAC stream wrapped in the Ogg container (`.oga`).
///
/// The audio is encoded exactly as [`encode`] does; the only difference is the
/// envelope. The STREAMINFO becomes the FLAC-to-Ogg mapping header packet, a
/// minimal VORBIS_COMMENT follows, each audio frame becomes one Ogg packet,
/// and the packets are paged up with the granule positions and checksums Ogg
/// requires.
pub fn encode_ogg(audio: &FlacAudio) -> (r: Result<Vec<u8>, FlacError>)
    ensures
        match spec_encode_ogg(audio@) {
            Ok(b) => r is Ok && r->Ok_0@ == b,
            Err(e) => r is Err && r->Err_0@ == e,
        },
{
    match validate(audio) {
        Ok(()) => {},
        Err(e) => return Err(e),
    }
    let ghost a = audio@;
    let channels = audio.channels as usize;
    let bps = audio.bits_per_sample as u32;
    let total = audio.samples_per_channel();

    // First packet: the mapping header, then the native `fLaC` signature and
    // the STREAMINFO block. One header packet follows: the comment block.
    let mut header: Vec<u8> = Vec::new();
    header.push(0x7F);
    header.push(0x46);  // "FLAC"
    header.push(0x4C);
    header.push(0x41);
    header.push(0x43);
    header.push(1);  // mapping version 1.0
    header.push(0);
    header.push(0);  // one following header packet, big-endian
    header.push(1);
    header.push(0x66);  // "fLaC"
    header.push(0x4C);
    header.push(0x61);
    header.push(0x43);
    let si = streaminfo_block(audio, total, false);
    extend_bytes(&mut header, si.as_slice());
    assert(header@ =~= mapping_packet(a, total as nat));

    let mut packets: Vec<Packet> = Vec::new();
    packets.push(Packet { data: header, granule: 0 });
    packets.push(Packet { data: vorbis_comment_block(), granule: 0 });
    let ghost full = ogg_packets(a);
    assert(packet_views(packets@) + frame_packets(a.samples, channels as nat, bps, 0, 0, total as nat)
        =~= full);

    let mut frame_number: u64 = 0;
    let mut start: usize = 0;
    while start < total
        invariant
            a == audio@,
            validate_fault(a) is None,
            channels == a.channels,
            channels == audio.samples@.len(),
            bps == a.bits_per_sample,
            total == frames_of(a.samples),
            start <= total,
            frame_number <= start,
            packet_views(packets@) + frame_packets(a.samples, channels as nat, bps, start as nat, frame_number as nat, total as nat) == full,
        decreases total - start,
    {
        let block = if total - start < BLOCK_SIZE {
            total - start
        } else {
            BLOCK_SIZE
        };
        let data = frame_bytes(audio, channels, bps, start, block, frame_number);
        let ghost before = packet_views(packets@);
        packets.push(Packet { data, granule: (start + block) as i64 });
        assert(packet_views(packets@) =~= before.push((data@, (start + block) as i64)));
        assert(before + frame_packets(a.samples, channels as nat, bps, start as nat, frame_number as nat, total as nat)
            =~= packet_views(packets@) + frame_packets(a.samples, channels as nat, bps, (start + block) as nat, (frame_number + 1) as nat, total as nat));
        start += block;
        frame_number += 1;
    }
    assert(packet_views(packets@) =~= full);
    Ok(mux(packets.as_slice()))
}

} // verus!
