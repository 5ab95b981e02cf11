//! The core operations on the 16-limb representation: codec, limb
//! arithmetic, carry normalization, Fermat inversion and the branchless
//! conditional swap.
use vstd::prelude::*;
use vstd::arithmetic::div_mod::lemma_fundamental_div_mod;
use vstd::arithmetic::div_mod::lemma_fundamental_div_mod_converse;
use vstd::arithmetic::power2::lemma_pow2_adds;
use vstd::arithmetic::power2::lemma_pow2_pos;
use vstd::arithmetic::power2::lemma2_to64;
use vstd::arithmetic::power2::pow2;
use crate::model::bytes_val;
use crate::model::fe_val;
use crate::model::lemma_bytes_limbs_pair;
use crate::model::lemma_div_range;
use crate::model::lemma_inv_exp_base;
use crate::model::lemma_inv_exp_step;
use crate::model::lemma_pow_mul_mod;
use crate::model::lemma_limbs_prefix_abs_bound;
use crate::model::lemma_limbs_prefix_split;
use crate::model::lemma_p_facts;
use crate::model::lemma_p_limbs_val;
use crate::model::p_limbs;
use crate::model::lemma_wrap_mod_p;
use crate::model::p;
use crate::model::lemma_limbs_prefix_bounds;
use crate::model::lemma_limbs_prefix_ext;
use crate::model::lemma_limbs_prefix_pointwise_add;
use crate::model::lemma_limbs_prefix_pointwise_sub;
use crate::model::lemma_limbs_prefix_update;
use crate::model::limbs_val_prefix;

verus! {

/// A field element in redundant base-2^16 limb form.
pub type FieldElem = [i64; 16];

/// An arithmetic right shift by 16 splits an i64 into its quotient and
/// remainder at 2^16, with the remainder recovered by clearing the low bits.
proof fn lemma_shr16(x: i64)
    ensures
        (x >> 16) << 16 == (x >> 16) * 0x10000,
        0 <= x - (x >> 16) * 0x10000 < 0x10000,
        x >> 16 == x / 0x10000,
        x - (x >> 16) * 0x10000 == x % 0x10000,
{
    assert((x >> 16) << 16 == (x >> 16) * 0x10000 && 0 <= x - ((x >> 16) << 16) < 0x10000)
        by (bit_vector);
    lemma_fundamental_div_mod_converse(
        x as int,
        0x10000,
        (x >> 16) as int,
        x - (x >> 16) * 0x10000,
    );
}

/// Masking an all-ones or all-zeros word against an xor either swaps two
/// words or leaves them both unchanged.
proof fn lemma_masked_swap(x: i64, y: i64, c: i64)
    by (bit_vector)
    ensures
        c == 0i64 ==> (x ^ (c & (x ^ y)) == x) && (y ^ (c & (x ^ y)) == y),
        c == !0i64 ==> (x ^ (c & (x ^ y)) == y) && (y ^ (c & (x ^ y)) == x),
{
}

/// Limb-wise sum; the result is left in redundant form for a later carry.
pub fn fadd(a: &FieldElem, b: &FieldElem) -> (out: FieldElem)
    requires
        forall|i: int| 0 <= i < 16 ==> i64::MIN <= #[trigger] a@[i] + b@[i] <= i64::MAX,
    ensures
        forall|i: int| 0 <= i < 16 ==> out@[i] == a@[i] + b@[i],
        fe_val(out@) == fe_val(a@) + fe_val(b@),
{
    let mut out: FieldElem = [0i64; 16];
    for i in 0..16usize
        invariant
            forall|j: int| 0 <= j < i ==> out@[j] == a@[j] + b@[j],
            forall|j: int| 0 <= j < 16 ==> i64::MIN <= #[trigger] a@[j] + b@[j] <= i64::MAX,
    {
        out[i] = a[i] + b[i];
    }
    proof {
        lemma_limbs_prefix_pointwise_add(a@, b@, out@, 16);
    }
    out
}

/// Limb-wise difference; limbs may come out negative, which a later carry
/// resolves.
pub fn fsub(a: &FieldElem, b: &FieldElem) -> (out: FieldElem)
    requires
        forall|i: int| 0 <= i < 16 ==> i64::MIN <= #[trigger] a@[i] - b@[i] <= i64::MAX,
    ensures
        forall|i: int| 0 <= i < 16 ==> out@[i] == a@[i] - b@[i],
        fe_val(out@) == fe_val(a@) - fe_val(b@),
{
    let mut out: FieldElem = [0i64; 16];
    for i in 0..16usize
        invariant
            forall|j: int| 0 <= j < i ==> out@[j] == a@[j] - b@[j],
            forall|j: int| 0 <= j < 16 ==> i64::MIN <= #[trigger] a@[j] - b@[j] <= i64::MAX,
    {
        out[i] = a[i] - b[i];
    }
    proof {
        lemma_limbs_prefix_pointwise_sub(a@, b@, out@, 16);
    }
    out
}

/// Branchless conditional swap: when the bit is 1 the two elements exchange
/// all limbs, when it is 0 neither changes. The mask construction keeps the
/// instruction sequence independent of the (possibly secret) bit.
pub fn swap25519(p: &mut FieldElem, q: &mut FieldElem, b: i64)
    requires
        b == 0 || b == 1,
    ensures
        b == 0 ==> final(p)@ == old(p)@ && final(q)@ == old(q)@,
        b == 1 ==> final(p)@ == old(q)@ && final(q)@ == old(p)@,
{
    let c = !(b - 1);
    proof {
        if b == 1 {
            assert(c == !0i64);
            assert(!0i64 == -1i64) by (bit_vector);
        } else {
            assert(c == !(-1i64));
            assert(!(-1i64) == 0i64) by (bit_vector);
        }
    }
    for i in 0..16usize
        invariant
            c == if b == 1 { -1i64 } else { 0i64 },
            forall|j: int| 0 <= j < i ==> b == 1 ==> p@[j] == old(q)@[j] && q@[j] == old(p)@[j],
            forall|j: int| 0 <= j < i ==> b == 0 ==> p@[j] == old(p)@[j] && q@[j] == old(q)@[j],
            forall|j: int| i <= j < 16 ==> p@[j] == old(p)@[j] && q@[j] == old(q)@[j],
    {
        let pi = p[i];
        let qi = q[i];
        let t = c & (pi ^ qi);
        p[i] = pi ^ t;
        q[i] = qi ^ t;
        proof {
            lemma_masked_swap(pi, qi, c);
            assert(!0i64 == -1i64) by (bit_vector);
        }
    }
    proof {
        if b == 0 {
            assert(p@ =~= old(p)@);
            assert(q@ =~= old(q)@);
        } else {
            assert(p@ =~= old(q)@);
            assert(q@ =~= old(p)@);
        }
    }
}

/// Decode 32 little-endian bytes into 16 limbs of 16 bits each. The top bit
/// of the top limb is cleared, so the result is the encoded integer reduced
/// modulo 2^255: an encoding at or above 2^255 is silently truncated, never
/// rejected.
pub fn unpack25519(input: &[u8]) -> (out: FieldElem)
    requires
        input@.len() == 32,
    ensures
        forall|i: int| 0 <= i < 15 ==> #[trigger] out@[i] == input@[2 * i] + 0x100 * input@[2 * i
            + 1],
        out@[15] == (input@[30] + 0x100 * input@[31]) % 0x8000,
        forall|i: int| 0 <= i < 16 ==> 0 <= #[trigger] out@[i] < 0x10000,
        out@[15] < 0x8000,
        fe_val(out@) == bytes_val(input@) % (pow2(255) as int),
{
    let mut out: FieldElem = [0i64; 16];
    for i in 0..16usize
        invariant
            input@.len() == 32,
            forall|j: int| 0 <= j < i ==> #[trigger] out@[j] == input@[2 * j] + 0x100 * input@[2
                * j + 1],
    {
        let byte1 = input[2 * i] as i64;
        let byte2 = input[2 * i + 1] as i64;
        proof {
            assert(byte2 << 8 == byte2 * 0x100) by (bit_vector)
                requires
                    0 <= byte2 < 0x100,
            ;
        }
        out[i] = (byte2 << 8) + byte1;
    }
    let ghost pre = out@;
    proof {
        lemma_bytes_limbs_pair(input@, out@, 16);
        assert(bytes_val(input@) == fe_val(out@));
    }
    let x = out[15];
    out[15] = out[15] & 0x7fff;
    proof {
        assert(x & 0x7fff == x % 0x8000) by (bit_vector)
            requires
                0 <= x < 0x10000,
        ;
        lemma_unpack_mask(pre, out@, bytes_val(input@));
    }
    out
}

/// Moving a carry from limb `i` to limb `i + 1` leaves the value unchanged.
proof fn lemma_carry_move(s0: Seq<i64>, i: int, c: i64, r: i64)
    requires
        s0.len() == 16,
        0 <= i < 15,
        r == s0[i] - c * 0x10000,
        i64::MIN <= s0[i + 1] + c <= i64::MAX,
    ensures
        fe_val(s0.update(i, r).update(i + 1, (s0[i + 1] + c) as i64)) == fe_val(s0),
{
    let s1 = s0.update(i, r);
    lemma_limbs_prefix_update(s0, i, r, 16);
    lemma_limbs_prefix_update(s1, i + 1, (s0[i + 1] + c) as i64, 16);
    let w = pow2((16 * i) as nat) as int;
    let w2 = pow2((16 * (i + 1)) as nat) as int;
    lemma2_to64();
    assert(w2 == 0x10000 * w) by {
        lemma_pow2_adds(16, (16 * i) as nat);
        assert((16 * (i + 1)) as nat == (16 + 16 * i) as nat);
    }
    assert(s1[i + 1] == s0[i + 1]);
    assert(((s0[i + 1] + c) as i64 - s1[i + 1]) * w2 == (c as int) * w2);
    assert((r - s0[i]) * w + (c as int) * w2 == 0) by (nonlinear_arith)
        requires
            r == s0[i] - c * 0x10000,
            w2 == 0x10000 * w,
    ;
}

/// The carry out of the top limb is exactly the value's overflow past
/// 2^256; folding it into limb 0 with weight 38 turns the value v into
/// v % 2^256 + 38 * (v / 2^256).
proof fn lemma_carry_wrap(s0: Seq<i64>, c: i64, r: i64)
    requires
        s0.len() == 16,
        forall|j: int| 0 <= j < 15 ==> 0 <= #[trigger] s0[j] < 0x10000,
        s0[15] == c * 0x10000 + r,
        0 <= r < 0x10000,
        i64::MIN <= s0[0] + 38 * c <= i64::MAX,
    ensures
        c == fe_val(s0) / (pow2(256) as int),
        limbs_val_prefix(s0, 15) + (r as int) * (pow2(240) as int) == fe_val(s0) % (pow2(256) as int),
        fe_val(s0.update(15, r).update(0, (s0[0] + 38 * c) as i64)) == fe_val(s0) % (pow2(
            256,
        ) as int) + 38 * (fe_val(s0) / (pow2(256) as int)),
{
    let v = fe_val(s0);
    let w240 = pow2(240) as int;
    let w256 = pow2(256) as int;
    lemma2_to64();
    lemma_pow2_pos(240);
    lemma_pow2_pos(256);
    assert(pow2((16 * 15) as nat) == pow2(240));
    lemma_limbs_prefix_bounds(s0, 15);
    let low = limbs_val_prefix(s0, 15) + (r as int) * w240;
    assert(0x10000 * w240 == w256) by {
        lemma_pow2_adds(16, 240);
    }
    assert((s0[15] as int) * w240 == (c as int) * w256 + (r as int) * w240) by (nonlinear_arith)
        requires
            s0[15] == c * 0x10000 + r,
            0x10000 * w240 == w256,
    ;
    assert(0 <= (r as int) * w240 <= 0xffff * w240) by (nonlinear_arith)
        requires
            0 <= r <= 0xffff,
            w240 > 0,
    ;
    assert(low < w256);
    assert(v == (c as int) * w256 + low);
    lemma_fundamental_div_mod_converse(v, w256, c as int, low);
    let s1 = s0.update(15, r);
    lemma_limbs_prefix_update(s0, 15, r, 16);
    assert((r - s0[15]) * w240 == -((c as int) * w256)) by (nonlinear_arith)
        requires
            s0[15] == c * 0x10000 + r,
            0x10000 * w240 == w256,
    ;
    assert(fe_val(s1) == low);
    lemma_limbs_prefix_update(s1, 0, (s0[0] + 38 * c) as i64, 16);
    assert(s1[0] == s0[0]);
    assert(pow2((16 * 0) as nat) == 1);
    let w0 = pow2((16 * 0) as nat) as int;
    let delta = ((s0[0] + 38 * c) as i64) - s1[0];
    assert(delta == 38 * (c as int));
    assert(delta * w0 == 38 * (c as int)) by (nonlinear_arith)
        requires
            w0 == 1,
            delta == 38 * (c as int),
    ;
}

/// One left-to-right carry pass. Every limb is brought back to [0, 2^16)
/// using a sign-preserving arithmetic shift, each carry moves one limb up,
/// and the carry out of the top limb folds back into limb 0 with weight 38,
/// since 2^256 = 38 (mod p). Afterwards all limbs but limb 0 are normalized,
/// and limb 0 is normalized up to the folded-back overflow term.
pub fn carry25519(elem: &mut FieldElem)
    requires
        forall|i: int|
            0 <= i < 16 ==> -0x1000_0000_0000_0000 <= #[trigger] old(elem)@[i]
                <= 0x1000_0000_0000_0000,
    ensures
        forall|i: int| 1 <= i < 16 ==> 0 <= #[trigger] final(elem)@[i] < 0x10000,
        0 <= final(elem)@[0] - 38 * (fe_val(old(elem)@) / (pow2(256) as int)) < 0x10000,
        fe_val(final(elem)@) == fe_val(old(elem)@) % (pow2(256) as int) + 38 * (fe_val(
            old(elem)@,
        ) / (pow2(256) as int)),
{
    for i in 0..16usize
        invariant
            forall|j: int|
                0 <= j < 16 ==> -0x1000_0000_0000_0000 <= #[trigger] old(elem)@[j]
                    <= 0x1000_0000_0000_0000,
            i < 16 ==> fe_val(elem@) == fe_val(old(elem)@),
            i < 16 ==> forall|j: int| 0 <= j < i ==> 0 <= #[trigger] elem@[j] < 0x10000,
            forall|j: int| i < j < 16 ==> #[trigger] elem@[j] == old(elem)@[j],
            i < 16 ==> -0x1000_2000_0000_0000 <= elem@[i as int] <= 0x1000_2000_0000_0000,
            i == 16 ==> forall|j: int| 1 <= j < 16 ==> 0 <= #[trigger] elem@[j] < 0x10000,
            i == 16 ==> 0 <= elem@[0] - 38 * (fe_val(old(elem)@) / (pow2(256) as int)) < 0x10000,
            i == 16 ==> fe_val(elem@) == fe_val(old(elem)@) % (pow2(256) as int) + 38 * (fe_val(
                old(elem)@,
            ) / (pow2(256) as int)),
    {
        let ghost s0 = elem@;
        let x = elem[i];
        let carry = x >> 16;
        proof {
            lemma_shr16(x);
            assert(-0x2000_0000_0000 <= carry <= 0x2000_0000_0000);
        }
        elem[i] = x - (carry << 16);
        if i < 15 {
            elem[i + 1] = elem[i + 1] + carry;
            proof {
                lemma_carry_move(s0, i as int, carry, (x - carry * 0x10000) as i64);
            }
        } else {
            elem[0] = elem[0] + 38 * carry;
            proof {
                lemma_carry_wrap(s0, carry, (x - carry * 0x10000) as i64);
            }
        }
    }
}

/// Ring identity for one convolution step: adding x*y at weight 2^(16(i+j))
/// extends the partial sum over b by one term.
proof fn lemma_conv_step(x: int, y: int, wi: int, wj: int, wij: int, pb: int)
    by (nonlinear_arith)
    requires
        wij == wi * wj,
    ensures
        x * wi * (pb + y * wj) == x * wi * pb + (x * y) * wij,
{
}

/// Ring identity for finishing one row of the convolution.
proof fn lemma_row_done(pa: int, x: int, wi: int, vb: int)
    by (nonlinear_arith)
    ensures
        (pa + x * wi) * vb == pa * vb + x * wi * vb,
{
}

/// A product of two factors bounded by m in magnitude is bounded by m*m.
proof fn lemma_abs_mul(x: int, y: int, m: int)
    by (nonlinear_arith)
    requires
        -m <= x <= m,
        -m <= y <= m,
        0 <= m,
    ensures
        -(m * m) <= x * y <= m * m,
{
}

/// Schoolbook multiplication with reduction. The 32-limb convolution is
/// folded down with the identity 2^256 = 38 (mod p): limb i of the high half
/// is added into limb i of the low half scaled by 38, except that low limb
/// 15 receives nothing, since high limb 31 of a 16x16 convolution is always
/// zero. Two carry passes then settle the limbs.
#[verifier::loop_isolation(false)]
#[verifier::rlimit(100)]
pub fn fmul(a: &FieldElem, b: &FieldElem) -> (out: FieldElem)
    requires
        forall|i: int| 0 <= i < 16 ==> -0x20_0000 <= #[trigger] a@[i] <= 0x20_0000,
        forall|i: int| 0 <= i < 16 ==> -0x20_0000 <= #[trigger] b@[i] <= 0x20_0000,
    ensures
        fe_val(out@) % p() == (fe_val(a@) * fe_val(b@)) % p(),
        forall|i: int| 1 <= i < 16 ==> 0 <= #[trigger] out@[i] < 0x10000,
        -38 <= out@[0] <= 0xffff + 38,
{
    let mut product: [i64; 32] = [0i64; 32];
    proof {
        assert(limbs_val_prefix(product@, 32) == 0) by {
            lemma_zero_val(product@, 32);
        }
        assert(limbs_val_prefix(a@, 0) * fe_val(b@) == 0) by (nonlinear_arith);
    }
    for i in 0..16usize
        invariant
            forall|k: int|
                0 <= k < 32 ==> -(0x400_0000_0000 * (i as int)) <= #[trigger] product@[k]
                    <= 0x400_0000_0000 * (i as int),
            product@[31] == 0,
            limbs_val_prefix(product@, 32) == limbs_val_prefix(a@, i as nat) * fe_val(b@),
    {
        proof {
            assert(limbs_val_prefix(b@, 0) == 0);
            assert(limbs_val_prefix(a@, i as nat) * fe_val(b@) + (a@[i as int] as int) * (pow2(
                (16 * (i as int)) as nat,
            ) as int) * 0 == limbs_val_prefix(a@, i as nat) * fe_val(b@)) by (nonlinear_arith);
        }
        for j in 0..16usize
            invariant
                forall|k: int|
                    i as int <= k < i as int + j as int ==> -(0x400_0000_0000 * (i as int + 1))
                        <= #[trigger] product@[k] <= 0x400_0000_0000 * (i as int + 1),
                forall|k: int|
                    (0 <= k < i as int || i as int + j as int <= k < 32) ==> -(0x400_0000_0000 * (
                    i as int)) <= #[trigger] product@[k] <= 0x400_0000_0000 * (i as int),
                product@[31] == 0,
                limbs_val_prefix(product@, 32) == limbs_val_prefix(a@, i as nat) * fe_val(b@) + (
                a@[i as int] as int) * (pow2((16 * (i as int)) as nat) as int) * limbs_val_prefix(
                    b@,
                    j as nat,
                ),
        {
            let ghost s0 = product@;
            proof {
                lemma_abs_mul(a@[i as int] as int, b@[j as int] as int, 0x20_0000);
            }
            let prod_ij = a[i] * b[j];
            product[i + j] = product[i + j] + prod_ij;
            proof {
                let gi = i as int;
                let gj = j as int;
                let x = a@[gi] as int;
                let y = b@[gj] as int;
                let wi = pow2((16 * gi) as nat) as int;
                let wj = pow2((16 * gj) as nat) as int;
                let wij = pow2((16 * (gi + gj)) as nat) as int;
                let nv = (s0[gi + gj] + x * y) as i64;
                assert(product@ == s0.update(gi + gj, nv));
                lemma_limbs_prefix_update(s0, gi + gj, nv, 32);
                assert(wij == wi * wj) by {
                    lemma_pow2_adds((16 * gi) as nat, (16 * gj) as nat);
                    assert((16 * (gi + gj)) as nat == ((16 * gi) + (16 * gj)) as nat);
                }
                lemma_conv_step(x, y, wi, wj, wij, limbs_val_prefix(b@, gj as nat));
                assert(limbs_val_prefix(b@, (gj + 1) as nat) == limbs_val_prefix(b@, gj as nat)
                    + y * wj);
            }
        }
        proof {
            let gi = i as int;
            let x = a@[gi] as int;
            let wi = pow2((16 * gi) as nat) as int;
            assert(limbs_val_prefix(a@, (gi + 1) as nat) == limbs_val_prefix(a@, gi as nat) + x
                * wi);
            lemma_row_done(limbs_val_prefix(a@, gi as nat), x, wi, fe_val(b@));
        }
    }
    let ghost hi_snap = product@;
    let ghost t = limbs_val_prefix(hi_snap.subrange(16, 32), 15);
    for i in 0..15usize
        invariant
            forall|k: int| i as int <= k < 32 ==> #[trigger] product@[k] == hi_snap[k],
            forall|k: int|
                0 <= k < i as int ==> -0x10_0000_0000_0000 <= #[trigger] product@[k]
                    <= 0x10_0000_0000_0000,
            limbs_val_prefix(product@, 16) == limbs_val_prefix(hi_snap, 16) + 38
                * limbs_val_prefix(hi_snap.subrange(16, 32), i as nat),
    {
        let ghost s0 = product@;
        let f = 38 * product[i + 16];
        product[i] = product[i] + f;
        proof {
            let gi = i as int;
            let wi = pow2((16 * gi) as nat) as int;
            let h = hi_snap[16 + gi] as int;
            let nv = (s0[gi] + 38 * h) as i64;
            assert(product@ == s0.update(gi, nv));
            lemma_limbs_prefix_update(s0, gi, nv, 16);
            assert(hi_snap.subrange(16, 32)[gi] == hi_snap[16 + gi]);
            assert(limbs_val_prefix(hi_snap.subrange(16, 32), (gi + 1) as nat)
                == limbs_val_prefix(hi_snap.subrange(16, 32), gi as nat) + h * wi);
            assert((38 * h) * wi == 38 * (h * wi)) by (nonlinear_arith);
            assert(38 * limbs_val_prefix(hi_snap.subrange(16, 32), (gi + 1) as nat) == 38
                * limbs_val_prefix(hi_snap.subrange(16, 32), gi as nat) + 38 * (h * wi));
        }
    }
    proof {
        let va = fe_val(a@);
        let vb = fe_val(b@);
        let sub = hi_snap.subrange(16, 32);
        lemma_limbs_prefix_split(hi_snap, 16, 32);
        assert(sub[15] == hi_snap[31]);
        assert(limbs_val_prefix(sub, 16) == t + (sub[15] as int) * (pow2((16 * 15) as nat) as int));
        assert((sub[15] as int) * (pow2((16 * 15) as nat) as int) == 0) by (nonlinear_arith)
            requires
                sub[15] == 0i64,
        ;
        // prefix(hi,32) == va*vb, so prefix(hi,16) == va*vb - 2^256 * t.
        let w256 = pow2((16 * 16) as nat) as int;
        assert(pow2((16 * 16) as nat) == pow2(256));
        lemma_p_facts();
        assert(w256 * t == p() * (2 * t) + 38 * t) by (nonlinear_arith)
            requires
                w256 == 2 * p() + 38,
        ;
        // after the fold: prefix(product,16) == prefix(hi,16) + 38t == va*vb - p()*(2t)
        assert(p() * (-(2 * t)) == -(p() * (2 * t))) by (nonlinear_arith);
        assert(limbs_val_prefix(product@, 16) == p() * (-(2 * t)) + va * vb);
        vstd::arithmetic::div_mod::lemma_mod_multiples_vanish(-(2 * t), va * vb, p());
        assert(limbs_val_prefix(product@, 16) % p() == (va * vb) % p());
    }
    let mut out: FieldElem = [0i64; 16];
    for k in 0..16usize
        invariant
            forall|j: int| 0 <= j < k ==> #[trigger] out@[j] == product@[j],
    {
        out[k] = product[k];
    }
    proof {
        lemma_limbs_prefix_ext(out@, product@, 16);
    }
    let ghost v_pre = fe_val(out@);
    let ghost w256 = pow2(256) as int;
    proof {
        lemma_pow2_pos(256);
        lemma_limbs_prefix_abs_bound(out@, 16, 0x10_0000_0000_0000);
        assert(pow2((16 * 16) as nat) == pow2(256));
        lemma_div_range(v_pre, w256, -0x10_0000_0000_0000, 0x10_0000_0000_0000);
    }
    carry25519(&mut out);
    let ghost v_mid = fe_val(out@);
    proof {
        lemma_wrap_mod_p(v_pre);
        vstd::arithmetic::div_mod::lemma_mod_bound(v_pre, w256);
        // limb 0 now carries at most the folded overflow: within carry's input range.
        assert(-0x1000_0000_0000_0000 <= out@[0] <= 0x1000_0000_0000_0000);
        vstd::arithmetic::power2::lemma_pow2_strictly_increases(60, 256);
        vstd::arithmetic::power2::lemma2_to64_rest();
        assert(w256 > 0x1000_0000_0000_0000);
        assert(v_mid == v_pre % w256 + 38 * (v_pre / w256));
        assert(0 <= v_pre % w256 < w256);
        assert(-0x10_0000_0000_0000 <= v_pre / w256 < 0x10_0000_0000_0000);
        assert((-1) * w256 <= v_mid < 2 * w256);
        lemma_div_range(v_mid, w256, -1, 2);
    }
    carry25519(&mut out);
    proof {
        lemma_wrap_mod_p(v_mid);
        vstd::arithmetic::div_mod::lemma_mod_bound(v_mid, w256);
        assert(-38 <= out@[0] <= 0xffff + 38);
        assert(fe_val(out@) % p() == (fe_val(a@) * fe_val(b@)) % p());
    }
    out
}

/// Modular inverse by Fermat's little theorem: raises the input to the
/// power p - 2 = 2^255 - 21 with a fixed square-and-multiply chain. All
/// exponent bits are 1 except bits 2 and 4, and starting the accumulator at
/// the input itself covers the leading bit, so the chain runs from bit 253
/// down to 0. The chain is total: an input congruent to 0 yields 0.
#[verifier::loop_isolation(false)]
pub fn finverse(out: &mut FieldElem, iin: &FieldElem)
    requires
        forall|i: int| 0 <= i < 16 ==> -0x20_0000 <= #[trigger] iin@[i] <= 0x20_0000,
    ensures
        fe_val(final(out)@) % p() == vstd::arithmetic::power::pow(
            fe_val(iin@),
            (p() - 2) as nat,
        ) % p(),
        forall|i: int| 0 <= i < 16 ==> -0x20_0000 <= #[trigger] final(out)@[i] <= 0x20_0000,
{
    let ghost a = fe_val(iin@);
    let mut result: FieldElem = *iin;
    let ghost mut e: int = 1;
    proof {
        lemma_inv_exp_base();
        lemma_p_facts();
        vstd::arithmetic::power::lemma_pow1(a);
    }
    let mut k: usize = 0;
    while k < 254
        invariant
            k <= 254,
            1 <= e,
            e == (p() - 2) / (pow2((254 - k) as nat) as int),
            fe_val(result@) % p() == vstd::arithmetic::power::pow(a, e as nat) % p(),
            forall|i: int| 0 <= i < 16 ==> -0x20_0000 <= #[trigger] result@[i] <= 0x20_0000,
        decreases 254 - k,
    {
        let i = 253 - k;
        let ghost vr = fe_val(result@);
        result = fmul(&result, &result);
        proof {
            lemma_pow_mul_mod(a, e as nat, e as nat, vr, vr, fe_val(result@), p());
        }
        if i != 2 && i != 4 {
            let ghost vs = fe_val(result@);
            result = fmul(&result, iin);
            proof {
                lemma_pow_mul_mod(a, (2 * e) as nat, 1, vs, a, fe_val(result@), p());
                e = 2 * e + 1;
            }
        } else {
            proof {
                e = 2 * e;
            }
        }
        proof {
            lemma_inv_exp_step((253 - k) as nat);
        }
        k = k + 1;
    }
    proof {
        lemma2_to64();
        vstd::arithmetic::div_mod::lemma_div_basics(p() - 2);
        assert(e == p() - 2);
    }
    *out = result;
}

/// The borrow bit of a one-limb subtraction: for a difference above
/// -2^16, bit 16 of the two's-complement form is set exactly when the
/// difference is negative, and masking to 16 bits adds 2^16 back.
proof fn lemma_borrow_bit(x: i64)
    requires
        -0x10000 <= x < 0x10000,
    ensures
        x < 0 ==> ((x >> 16) & 1) == 1 && (x & 0xffff) == x + 0x10000,
        x >= 0 ==> ((x >> 16) & 1) == 0 && (x & 0xffff) == x,
{
    assert((-0x10000 <= x < 0 ==> ((x >> 16) & 1) == 1 && (x & 0xffff) == x + 0x10000) && (0 <= x
        < 0x10000 ==> ((x >> 16) & 1) == 0 && (x & 0xffff) == x)) by (bit_vector);
}

/// A normalized limb splits into its low and high byte.
proof fn lemma_byte_split(x: i64)
    requires
        0 <= x < 0x10000,
    ensures
        0 <= (x & 0xff) < 0x100,
        0 <= (x >> 8) < 0x100,
        x == (x & 0xff) + 0x100 * (x >> 8),
{
    assert(0 <= x < 0x10000 ==> 0 <= (x & 0xff) < 0x100 && 0 <= (x >> 8) < 0x100 && x == (x & 0xff)
        + 0x100 * (x >> 8)) by (bit_vector);
}

/// One step of the borrowed subtraction of p: writing the next raw
/// difference and masking the previous one extends the subtraction by one
/// limb.
proof fn lemma_sub_round_step(s_old: Seq<i64>, t: Seq<i64>, i: int, b: i64, nv: i64, masked: i64)
    requires
        s_old.len() == 16,
        t.len() == 16,
        1 <= i <= 15,
        b == 0 || b == 1,
        masked == s_old[i - 1] + b * 0x10000,
        nv == t[i] - p_limbs()[i] - b,
        limbs_val_prefix(s_old, i as nat) == limbs_val_prefix(t, i as nat) - limbs_val_prefix(
            p_limbs(),
            i as nat,
        ),
    ensures
        limbs_val_prefix(s_old.update(i, nv).update(i - 1, masked), (i + 1) as nat)
            == limbs_val_prefix(t, (i + 1) as nat) - limbs_val_prefix(p_limbs(), (i + 1) as nat),
{
    let s1 = s_old.update(i, nv);
    let s2 = s1.update(i - 1, masked);
    let w_prev = pow2((16 * (i - 1)) as nat) as int;
    let w_i = pow2((16 * i) as nat) as int;
    lemma2_to64();
    assert(w_i == 0x10000 * w_prev) by {
        lemma_pow2_adds(16, (16 * (i - 1)) as nat);
        assert((16 * i) as nat == (16 + 16 * (i - 1)) as nat);
    }
    lemma_limbs_prefix_ext(s1, s_old, i as nat);
    lemma_limbs_prefix_update(s1, i - 1, masked, i as nat);
    assert(s1[i - 1] == s_old[i - 1]);
    assert(limbs_val_prefix(s2, i as nat) == limbs_val_prefix(s_old, i as nat) + ((
    b as int) * 0x10000) * w_prev);
    assert(s2[i] == nv);
    assert(limbs_val_prefix(s2, (i + 1) as nat) == limbs_val_prefix(s2, i as nat) + (nv as int)
        * w_i);
    let pl = p_limbs()[i] as int;
    assert(((b as int) * 0x10000) * w_prev == (b as int) * w_i) by (nonlinear_arith)
        requires
            w_i == 0x10000 * w_prev,
    ;
    assert((nv as int) * w_i == (t[i] as int) * w_i - pl * w_i - (b as int) * w_i) by (
    nonlinear_arith)
        requires
            nv == t[i] - pl - b,
    ;
    assert(limbs_val_prefix(t, (i + 1) as nat) == limbs_val_prefix(t, i as nat) + (t[i] as int)
        * w_i);
    assert(limbs_val_prefix(p_limbs(), (i + 1) as nat) == limbs_val_prefix(p_limbs(), i as nat)
        + pl * w_i);
}

/// Encode a field element as its canonical 32-byte little-endian form.
/// Three carry passes bring every limb into [0, 2^16): the first settles
/// wide limbs, and the wraparound term that each pass can add to limb 0
/// needs up to two more passes to settle. Two rounds of conditional
/// subtraction of p then bring the value into [0, p): each round subtracts
/// p with a running borrow and keeps the difference only when no borrow
/// leaves the top limb, selecting with the branchless swap so that control
/// flow does not depend on the value. The output is always the canonical
/// representative of the input modulo p.
#[verifier::loop_isolation(false)]
#[verifier::rlimit(100)]
pub fn pack25519(input: &mut FieldElem) -> (out: [u8; 32])
    requires
        forall|i: int|
            0 <= i < 16 ==> -0x4_0000_0000_0000 <= #[trigger] old(input)@[i] <= 0x4_0000_0000_0000,
    ensures
        bytes_val(out@) == fe_val(old(input)@) % p(),
        forall|i: int| 0 <= i < 16 ==> 0 <= #[trigger] final(input)@[i] < 0x10000,
        fe_val(final(input)@) == fe_val(old(input)@) % p(),
{
    let ghost v0 = fe_val(input@);
    let ghost w256 = pow2(256) as int;
    let mut m: FieldElem = [0i64; 16];
    proof {
        lemma_pow2_pos(256);
        lemma_p_facts();
        vstd::arithmetic::power2::lemma_pow2_strictly_increases(60, 256);
        vstd::arithmetic::power2::lemma2_to64_rest();
        assert(pow2((16 * 16) as nat) == pow2(256));
        lemma_limbs_prefix_abs_bound(input@, 16, 0x4_0000_0000_0000);
        lemma_div_range(v0, w256, -0x4_0000_0000_0000, 0x4_0000_0000_0000);
    }
    carry25519(input);
    let ghost v1 = fe_val(input@);
    proof {
        lemma_wrap_mod_p(v0);
        vstd::arithmetic::div_mod::lemma_mod_bound(v0, w256);
        assert(-0x1000_0000_0000_0000 <= input@[0] <= 0x1000_0000_0000_0000);
        lemma_div_range(v1, w256, -1, 2);
    }
    carry25519(input);
    let ghost v2 = fe_val(input@);
    let ghost q1 = v1 / w256;
    proof {
        lemma_wrap_mod_p(v1);
        vstd::arithmetic::div_mod::lemma_mod_bound(v1, w256);
        lemma_fundamental_div_mod(v1, w256);
        assert(q1 == -1 ==> w256 * q1 == -w256) by (nonlinear_arith);
        assert(q1 == 0 ==> w256 * q1 == 0) by (nonlinear_arith);
        assert(q1 == 1 ==> w256 * q1 == w256) by (nonlinear_arith);
        assert(0 <= v2 < w256);
        lemma_div_range(v2, w256, 0, 1);
        assert(-0x1000_0000_0000_0000 <= input@[0] <= 0x1000_0000_0000_0000);
    }
    carry25519(input);
    proof {
        lemma_wrap_mod_p(v2);
        lemma_fundamental_div_mod(v2, w256);
        assert(v2 / w256 == 0);
        assert(v2 % w256 == v2) by (nonlinear_arith)
            requires
                0 <= v2 < w256,
        ;
        assert(fe_val(input@) == v2);
        assert(fe_val(input@) % p() == v0 % p());
        assert(forall|i: int| 0 <= i < 16 ==> 0 <= #[trigger] input@[i] < 0x10000);
    }
    for round in 0..2usize
        invariant
            forall|i: int| 0 <= i < 16 ==> 0 <= #[trigger] input@[i] < 0x10000,
            fe_val(input@) % p() == v0 % p(),
            0 <= fe_val(input@) < pow2(256),
            round >= 1 ==> fe_val(input@) < p() + 38,
            round == 2 ==> fe_val(input@) < p(),
    {
        let ghost t = input@;
        let ghost vt = fe_val(input@);
        m[0] = input[0] - 0xffed;
        proof {
            lemma2_to64();
            assert(limbs_val_prefix(m@, 0) == 0);
            assert(limbs_val_prefix(t, 0) == 0);
            assert(limbs_val_prefix(p_limbs(), 0) == 0);
            assert(pow2((16 * 0) as nat) == 1);
            assert((m@[0] as int) * 1 == m@[0] && (t[0] as int) * 1 == t[0] && (p_limbs()[0] as int) * 1 == 0xffed) by (nonlinear_arith)
                requires
                    p_limbs()[0] == 0xffedi64,
            ;
            assert(limbs_val_prefix(m@, 1) == limbs_val_prefix(t, 1) - limbs_val_prefix(p_limbs(), 1));
        }
        for i in 1..15usize
            invariant
                forall|j: int| 0 <= j < i as int - 1 ==> 0 <= #[trigger] m@[j] < 0x10000,
                -0x10000 <= m@[i as int - 1] < 0x10000,
                limbs_val_prefix(m@, i as nat) == limbs_val_prefix(t, i as nat)
                    - limbs_val_prefix(p_limbs(), i as nat),
        {
            let ghost s_old = m@;
            let prev = m[i - 1];
            let borrow = (prev >> 16) & 1;
            proof {
                lemma_borrow_bit(prev);
            }
            m[i] = input[i] - 0xffff - borrow;
            m[i - 1] = prev & 0xffff;
            proof {
                lemma_sub_round_step(
                    s_old,
                    t,
                    i as int,
                    borrow,
                    (t[i as int] - 0xffff - borrow) as i64,
                    (prev + borrow * 0x10000) as i64,
                );
            }
        }
        let ghost s_old = m@;
        let prev = m[14];
        let borrow15 = (prev >> 16) & 1;
        proof {
            lemma_borrow_bit(prev);
        }
        m[15] = input[15] - 0x7fff - borrow15;
        let m15 = m[15];
        let keep = (m15 >> 16) & 1;
        m[14] = prev & 0xffff;
        proof {
            lemma_borrow_bit(m15);
            lemma_sub_round_step(
                s_old,
                t,
                15,
                borrow15,
                (t[15] - 0x7fff - borrow15) as i64,
                (prev + borrow15 * 0x10000) as i64,
            );
            lemma_p_limbs_val();
            assert(fe_val(m@) == vt - p());
        }
        swap25519(input, &mut m, 1 - keep);
        proof {
            let w240 = pow2((16 * 15) as nat) as int;
            lemma_pow2_pos((16 * 15) as nat);
            if keep == 0 {
                // No borrow out of the top: the difference is kept.
                assert(forall|j: int| 0 <= j < 16 ==> 0 <= #[trigger] input@[j] < 0x10000);
                lemma_limbs_prefix_bounds(input@, 16);
                assert(fe_val(input@) == vt - p());
                lemma_wrap_mod_p_sub(vt, v0);
            } else {
                // A borrow: the difference is negative, so the value was
                // already below p and stays untouched.
                assert(input@ == t);
                lemma_limbs_prefix_bounds(s_old.update(15, (t[15] - 0x7fff - borrow15) as i64).update(14, (prev + borrow15 * 0x10000) as i64), 15);
                assert(m15 <= -1);
                vstd::arithmetic::mul::lemma_mul_inequality(m15 as int, -1, w240);
                assert((-1) * w240 == -w240) by (nonlinear_arith);
                assert(vt - p() < 0);
            }
        }
    }
    proof {
        vstd::arithmetic::div_mod::lemma_fundamental_div_mod_converse_mod(
            fe_val(input@),
            p(),
            0,
            fe_val(input@),
        );
        assert((0 as int) * p() == 0) by (nonlinear_arith);
        assert(fe_val(input@) == v0 % p());
    }
    let mut out: [u8; 32] = [0u8; 32];
    for i in 0..16usize
        invariant
            forall|j: int|
                0 <= j < i ==> #[trigger] input@[j] == out@[2 * j] + 0x100 * out@[2 * j + 1],
    {
        let x = input[i];
        proof {
            lemma_byte_split(x);
        }
        out[2 * i] = (x & 0xff) as u8;
        out[2 * i + 1] = (x >> 8) as u8;
    }
    proof {
        lemma_bytes_limbs_pair(out@, input@, 16);
    }
    out
}

/// Subtracting p once preserves the value modulo p.
proof fn lemma_wrap_mod_p_sub(vt: int, v0: int)
    requires
        vt % p() == v0 % p(),
        p() > 0,
    ensures
        (vt - p()) % p() == v0 % p(),
{
    vstd::arithmetic::div_mod::lemma_mod_sub_multiples_vanish(vt, p());
}

/// The all-zero limb array has value zero.
proof fn lemma_zero_val(s: Seq<i64>, n: nat)
    requires
        forall|i: int| 0 <= i < n ==> s[i] == 0i64,
    ensures
        limbs_val_prefix(s, n) == 0,
    decreases n,
{
    if n > 0 {
        lemma_zero_val(s, (n - 1) as nat);
        assert((s[n - 1] as int) * (pow2((16 * (n - 1)) as nat) as int) == 0) by (nonlinear_arith)
            requires
                s[n - 1] == 0i64,
        ;
    }
}

/// Clearing the top bit of the top limb reduces the represented value
/// modulo 2^255.
proof fn lemma_unpack_mask(pre: Seq<i64>, post: Seq<i64>, v: int)
    requires
        pre.len() == 16,
        post == pre.update(15, (pre[15] % 0x8000) as i64),
        forall|i: int| 0 <= i < 16 ==> 0 <= #[trigger] pre[i] < 0x10000,
        v == fe_val(pre),
    ensures
        fe_val(post) == v % (pow2(255) as int),
{
    lemma2_to64();
    let m: i64 = (pre[15] % 0x8000) as i64;
    let q = pre[15] as int / 0x8000;
    lemma_fundamental_div_mod(pre[15] as int, 0x8000);
    assert(0 <= q <= 1);
    lemma_limbs_prefix_update(pre, 15, m, 16);
    let w240 = pow2(240) as int;
    assert(pow2((16 * 15) as nat) == pow2(240));
    assert(fe_val(post) == v + (m - pre[15]) * w240);
    assert((m - pre[15]) * w240 == -(q * (0x8000 * w240))) by (nonlinear_arith)
        requires
            m == pre[15] - 0x8000 * q,
    ;
    assert(0x8000 * w240 == pow2(255)) by {
        lemma_pow2_adds(15, 240);
    }
    assert(fe_val(post) == v - q * (pow2(255) as int));
    // The masked element is in range [0, 2^255).
    assert(forall|i: int| 0 <= i < 16 ==> 0 <= #[trigger] post[i] < 0x10000);
    lemma_limbs_prefix_bounds(post.subrange(0, 16), 15);
    lemma_limbs_prefix_ext(post.subrange(0, 16), post, 15);
    assert(fe_val(post) == limbs_val_prefix(post, 15) + (post[15] as int) * w240);
    assert(0 <= (post[15] as int) * w240 <= 0x7fff * w240) by (nonlinear_arith)
        requires
            0 <= post[15] <= 0x7fff,
            w240 > 0,
    ;
    assert(pow2(255) == 0x8000 * w240);
    assert(pow2((16 * 15) as nat) == w240);
    assert(limbs_val_prefix(post, 15) < w240);
    assert(fe_val(post) < 0x8000 * w240);
    vstd::arithmetic::div_mod::lemma_fundamental_div_mod_converse_mod(
        v,
        pow2(255) as int,
        q,
        fe_val(post),
    );
}

} // verus!
