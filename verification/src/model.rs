//! The mathematical model: integer values of limb arrays and byte strings,
//! and the lemmas about positional (radix) representations that the
//! arithmetic proofs rest on.
use vstd::prelude::*;
use vstd::arithmetic::div_mod::lemma_fundamental_div_mod;
use vstd::arithmetic::div_mod::lemma_fundamental_div_mod_converse;
use vstd::arithmetic::mul::lemma_mul_inequality;
use vstd::arithmetic::mul::lemma_mul_is_distributive_add_other_way;
use vstd::arithmetic::mul::lemma_mul_is_distributive_sub_other_way;
use vstd::arithmetic::power2::lemma_pow2_adds;
use vstd::arithmetic::power2::lemma_pow2_pos;
use vstd::arithmetic::power2::lemma2_to64;
use vstd::arithmetic::power2::pow2;

verus! {

/// The prime modulus of the field: 2^255 - 19.
pub open spec fn p() -> int {
    pow2(255) - 19
}

/// Value of the first `n` limbs of `s`, read in base 2^16:
/// s[0] + s[1]*2^16 + ... + s[n-1]*2^(16*(n-1)).
pub open spec fn limbs_val_prefix(s: Seq<i64>, n: nat) -> int
    decreases n,
{
    if n == 0 {
        0
    } else {
        limbs_val_prefix(s, (n - 1) as nat) + (s[n - 1] as int) * (pow2((16 * (n - 1)) as nat) as int)
    }
}

/// Integer value of a 16-limb field element in base 2^16.
pub open spec fn fe_val(s: Seq<i64>) -> int {
    limbs_val_prefix(s, 16)
}

/// Value of the first `n` bytes of `s`, read little-endian in base 256.
pub open spec fn bytes_val_prefix(s: Seq<u8>, n: nat) -> int
    decreases n,
{
    if n == 0 {
        0
    } else {
        bytes_val_prefix(s, (n - 1) as nat) + (s[n - 1] as int) * (pow2((8 * (n - 1)) as nat) as int)
    }
}

/// Integer value of a 32-byte little-endian encoding.
pub open spec fn bytes_val(s: Seq<u8>) -> int {
    bytes_val_prefix(s, 32)
}

/// Two limb sequences that agree on their first `n` entries have the same
/// prefix value.
pub proof fn lemma_limbs_prefix_ext(s: Seq<i64>, t: Seq<i64>, n: nat)
    requires
        forall|i: int| 0 <= i < n ==> s[i] == t[i],
    ensures
        limbs_val_prefix(s, n) == limbs_val_prefix(t, n),
    decreases n,
{
    if n > 0 {
        lemma_limbs_prefix_ext(s, t, (n - 1) as nat);
    }
}

/// Changing the limb at index `k` changes the prefix value by the change in
/// that limb, scaled by its positional weight (and not at all if `k` lies
/// beyond the prefix).
pub proof fn lemma_limbs_prefix_update(s: Seq<i64>, k: int, v: i64, n: nat)
    requires
        0 <= k < s.len(),
        n <= s.len(),
    ensures
        limbs_val_prefix(s.update(k, v), n) == limbs_val_prefix(s, n) + if k < n {
            (v - s[k]) * (pow2((16 * k) as nat) as int)
        } else {
            0
        },
    decreases n,
{
    if n > 0 {
        lemma_limbs_prefix_update(s, k, v, (n - 1) as nat);
        let t = s.update(k, v);
        if k == n - 1 {
            assert((v as int) * (pow2((16 * k) as nat) as int) - (s[k] as int) * (pow2((16 * k) as nat) as int)
                == (v - s[k]) * (pow2((16 * k) as nat) as int)) by {
                lemma_mul_is_distributive_sub_other_way(pow2((16 * k) as nat) as int, v as int, s[k] as int);
            }
        } else {
            assert(t[n - 1] == s[n - 1]);
        }
    }
}

/// A prefix of limbs that all lie in [0, 2^16) has a value in [0, 2^(16n)).
pub proof fn lemma_limbs_prefix_bounds(s: Seq<i64>, n: nat)
    requires
        forall|i: int| 0 <= i < n ==> 0 <= #[trigger] s[i] < 0x10000,
    ensures
        0 <= limbs_val_prefix(s, n) < pow2((16 * n) as nat),
    decreases n,
{
    lemma_pow2_pos((16 * n) as nat);
    if n > 0 {
        lemma_limbs_prefix_bounds(s, (n - 1) as nat);
        let w = pow2((16 * (n - 1)) as nat) as int;
        lemma_pow2_pos((16 * (n - 1)) as nat);
        assert((s[n - 1] as int) * w <= 0xffff * w) by {
            lemma_mul_inequality(s[n - 1] as int, 0xffff, w);
        }
        assert((s[n - 1] as int) * w >= 0) by {
            lemma_mul_inequality(0, s[n - 1] as int, w);
        }
        assert(pow2((16 * n) as nat) == 0x10000 * w) by {
            lemma2_to64();
            lemma_pow2_adds(16, (16 * (n - 1)) as nat);
        }
    }
}

/// A prefix value splits at any cut `k`: the low `k` limbs contribute their
/// own value, and the rest contribute the value of the shifted tail, scaled
/// by 2^(16k).
pub proof fn lemma_limbs_prefix_split(s: Seq<i64>, k: nat, n: nat)
    requires
        k <= n <= s.len(),
    ensures
        limbs_val_prefix(s, n) == limbs_val_prefix(s, k) + (pow2((16 * k) as nat) as int)
            * limbs_val_prefix(s.subrange(k as int, s.len() as int), (n - k) as nat),
    decreases n - k,
{
    let tail = s.subrange(k as int, s.len() as int);
    let w = pow2((16 * k) as nat) as int;
    if n == k {
        assert(limbs_val_prefix(tail, 0) == 0);
    } else {
        lemma_limbs_prefix_split(s, k, (n - 1) as nat);
        let m = (n - 1 - k) as nat;
        assert(tail[n - 1 - k] == s[n - 1]);
        assert(limbs_val_prefix(tail, (n - k) as nat) == limbs_val_prefix(tail, m)
            + (s[n - 1] as int) * (pow2((16 * m) as nat) as int));
        assert(w * ((s[n - 1] as int) * (pow2((16 * m) as nat) as int))
            == (s[n - 1] as int) * (pow2((16 * (n - 1)) as nat) as int)) by {
            lemma_pow2_adds((16 * k) as nat, (16 * m) as nat);
            assert(w * ((s[n - 1] as int) * (pow2((16 * m) as nat) as int))
                == (s[n - 1] as int) * (w * (pow2((16 * m) as nat) as int))) by (nonlinear_arith);
        }
        assert(w * (limbs_val_prefix(tail, m) + (s[n - 1] as int) * (pow2((16 * m) as nat) as int))
            == w * limbs_val_prefix(tail, m) + w * ((s[n - 1] as int) * (pow2((16 * m) as nat) as int))) by {
            lemma_mul_is_distributive_add_other_way(w, limbs_val_prefix(tail, m),
                (s[n - 1] as int) * (pow2((16 * m) as nat) as int));
            assert(w * (limbs_val_prefix(tail, m) + (s[n - 1] as int) * (pow2((16 * m) as nat) as int))
                == (limbs_val_prefix(tail, m) + (s[n - 1] as int) * (pow2((16 * m) as nat) as int)) * w) by (nonlinear_arith);
            assert(w * limbs_val_prefix(tail, m) == limbs_val_prefix(tail, m) * w) by (nonlinear_arith);
        }
    }
}

/// Limb-wise sums add up: if `c` is the pointwise sum of `a` and `b`, its
/// prefix value is the sum of theirs.
pub proof fn lemma_limbs_prefix_pointwise_add(a: Seq<i64>, b: Seq<i64>, c: Seq<i64>, n: nat)
    requires
        forall|i: int| 0 <= i < n ==> #[trigger] c[i] == a[i] + b[i],
    ensures
        limbs_val_prefix(c, n) == limbs_val_prefix(a, n) + limbs_val_prefix(b, n),
    decreases n,
{
    if n > 0 {
        lemma_limbs_prefix_pointwise_add(a, b, c, (n - 1) as nat);
        let w = pow2((16 * (n - 1)) as nat) as int;
        assert((c[n - 1] as int) * w == (a[n - 1] as int) * w + (b[n - 1] as int) * w) by {
            lemma_mul_is_distributive_add_other_way(w, a[n - 1] as int, b[n - 1] as int);
        }
    }
}

/// Limb-wise differences subtract: if `c` is the pointwise difference of `a`
/// and `b`, its prefix value is the difference of theirs.
pub proof fn lemma_limbs_prefix_pointwise_sub(a: Seq<i64>, b: Seq<i64>, c: Seq<i64>, n: nat)
    requires
        forall|i: int| 0 <= i < n ==> #[trigger] c[i] == a[i] - b[i],
    ensures
        limbs_val_prefix(c, n) == limbs_val_prefix(a, n) - limbs_val_prefix(b, n),
    decreases n,
{
    if n > 0 {
        lemma_limbs_prefix_pointwise_sub(a, b, c, (n - 1) as nat);
        let w = pow2((16 * (n - 1)) as nat) as int;
        assert((c[n - 1] as int) * w == (a[n - 1] as int) * w - (b[n - 1] as int) * w) by {
            lemma_mul_is_distributive_sub_other_way(w, a[n - 1] as int, b[n - 1] as int);
        }
    }
}

/// A prefix of limbs bounded by `b` in magnitude has a value strictly
/// smaller than b * 2^(16n) in magnitude.
pub proof fn lemma_limbs_prefix_abs_bound(s: Seq<i64>, n: nat, b: int)
    requires
        b >= 1,
        forall|i: int| 0 <= i < n ==> -b <= #[trigger] s[i] <= b,
    ensures
        -(b * (pow2((16 * n) as nat) as int)) < limbs_val_prefix(s, n) < b * (pow2(
            (16 * n) as nat,
        ) as int),
    decreases n,
{
    let wn = pow2((16 * n) as nat) as int;
    lemma_pow2_pos((16 * n) as nat);
    if n == 0 {
        assert(b * wn >= 1) by (nonlinear_arith)
            requires
                b >= 1,
                wn >= 1,
        ;
    } else {
        lemma_limbs_prefix_abs_bound(s, (n - 1) as nat, b);
        let w = pow2((16 * (n - 1)) as nat) as int;
        lemma_pow2_pos((16 * (n - 1)) as nat);
        assert(wn == 0x10000 * w) by {
            lemma2_to64();
            lemma_pow2_adds(16, (16 * (n - 1)) as nat);
        }
        assert(-(b * w) <= (s[n - 1] as int) * w <= b * w) by {
            lemma_mul_inequality(s[n - 1] as int, b, w);
            lemma_mul_inequality(-b, s[n - 1] as int, w);
            assert((-b) * w == -(b * w)) by (nonlinear_arith);
        }
        assert(2 * (b * w) <= b * wn) by (nonlinear_arith)
            requires
                wn == 0x10000 * w,
                b >= 1,
                w >= 1,
        ;
    }
}

/// A value between lo*w (inclusive) and hi*w (exclusive) has a quotient by w
/// in [lo, hi).
pub proof fn lemma_div_range(v: int, w: int, lo: int, hi: int)
    requires
        w > 0,
        lo * w <= v < hi * w,
    ensures
        lo <= v / w < hi,
{
    lemma_fundamental_div_mod(v, w);
    vstd::arithmetic::div_mod::lemma_mod_bound(v, w);
    let q = v / w;
    let r = v % w;
    assert(w * q == v - r);
    if q < lo {
        assert(q <= lo - 1);
        lemma_mul_inequality(q, lo - 1, w);
        assert((lo - 1) * w == lo * w - w) by (nonlinear_arith);
        assert(q * w == w * q) by (nonlinear_arith);
        assert(false);
    }
    if q >= hi {
        lemma_mul_inequality(hi, q, w);
        assert(q * w == w * q) by (nonlinear_arith);
        assert(false);
    }
}

/// A prefix of `n` bytes has a value in [0, 2^(8n)).
pub proof fn lemma_bytes_prefix_bounds(s: Seq<u8>, n: nat)
    requires
        n <= s.len(),
    ensures
        0 <= bytes_val_prefix(s, n) < pow2((8 * n) as nat),
    decreases n,
{
    lemma_pow2_pos((8 * n) as nat);
    if n > 0 {
        lemma_bytes_prefix_bounds(s, (n - 1) as nat);
        let w = pow2((8 * (n - 1)) as nat) as int;
        lemma_pow2_pos((8 * (n - 1)) as nat);
        assert((s[n - 1] as int) * w <= 0xff * w) by {
            lemma_mul_inequality(s[n - 1] as int, 0xff, w);
        }
        assert((s[n - 1] as int) * w >= 0) by {
            lemma_mul_inequality(0, s[n - 1] as int, w);
        }
        assert(pow2((8 * n) as nat) == 0x100 * w) by {
            lemma2_to64();
            lemma_pow2_adds(8, (8 * (n - 1)) as nat);
        }
    }
}

/// A byte prefix value splits at any cut `k`, with the tail scaled by 2^(8k).
pub proof fn lemma_bytes_prefix_split(s: Seq<u8>, k: nat, n: nat)
    requires
        k <= n <= s.len(),
    ensures
        bytes_val_prefix(s, n) == bytes_val_prefix(s, k) + (pow2((8 * k) as nat) as int)
            * bytes_val_prefix(s.subrange(k as int, s.len() as int), (n - k) as nat),
    decreases n - k,
{
    let tail = s.subrange(k as int, s.len() as int);
    let w = pow2((8 * k) as nat) as int;
    if n == k {
        assert(bytes_val_prefix(tail, 0) == 0);
    } else {
        lemma_bytes_prefix_split(s, k, (n - 1) as nat);
        let m = (n - 1 - k) as nat;
        assert(tail[n - 1 - k] == s[n - 1]);
        assert(w * ((s[n - 1] as int) * (pow2((8 * m) as nat) as int))
            == (s[n - 1] as int) * (pow2((8 * (n - 1)) as nat) as int)) by {
            lemma_pow2_adds((8 * k) as nat, (8 * m) as nat);
            assert(w * ((s[n - 1] as int) * (pow2((8 * m) as nat) as int))
                == (s[n - 1] as int) * (w * (pow2((8 * m) as nat) as int))) by (nonlinear_arith);
        }
        assert(w * (bytes_val_prefix(tail, m) + (s[n - 1] as int) * (pow2((8 * m) as nat) as int))
            == w * bytes_val_prefix(tail, m) + w * ((s[n - 1] as int) * (pow2((8 * m) as nat) as int))) by {
            lemma_mul_is_distributive_add_other_way(w, bytes_val_prefix(tail, m),
                (s[n - 1] as int) * (pow2((8 * m) as nat) as int));
            assert(w * (bytes_val_prefix(tail, m) + (s[n - 1] as int) * (pow2((8 * m) as nat) as int))
                == (bytes_val_prefix(tail, m) + (s[n - 1] as int) * (pow2((8 * m) as nat) as int)) * w) by (nonlinear_arith);
            assert(w * bytes_val_prefix(tail, m) == bytes_val_prefix(tail, m) * w) by (nonlinear_arith);
        }
    }
}

/// Each byte of a 32-byte string is the base-256 digit of its value at the
/// byte's own position.
pub proof fn lemma_bytes_digit(s: Seq<u8>, k: nat)
    requires
        s.len() == 32,
        k < 32,
    ensures
        (bytes_val(s) / (pow2((8 * k) as nat) as int)) % 0x100 == s[k as int],
{
    let w = pow2((8 * k) as nat) as int;
    lemma_pow2_pos((8 * k) as nat);
    let tail = s.subrange(k as int, 32);
    let tv = bytes_val_prefix(tail, (32 - k) as nat);
    lemma_bytes_prefix_split(s, k, 32);
    lemma_bytes_prefix_bounds(s, k);
    assert(bytes_val(s) == tv * w + bytes_val_prefix(s, k)) by {
        assert(w * tv == tv * w) by (nonlinear_arith);
    }
    vstd::arithmetic::div_mod::lemma_fundamental_div_mod_converse_div(
        bytes_val(s), w, tv, bytes_val_prefix(s, k));
    // Peel the lowest byte off the tail: tv == s[k] + 256 * rest.
    lemma_bytes_prefix_split(tail, 1, (32 - k) as nat);
    let rest = bytes_val_prefix(tail.subrange(1, tail.len() as int), (31 - k) as nat);
    lemma2_to64();
    assert(bytes_val_prefix(tail, 1) == bytes_val_prefix(tail, 0) + (tail[0] as int) * (pow2((8 * 0) as nat) as int));
    assert(pow2((8 * 0) as nat) == 1);
    assert((tail[0] as int) * 1 == tail[0] as int) by (nonlinear_arith);
    assert(tv == rest * 0x100 + tail[0]) by {
        assert(0x100 * rest == rest * 0x100) by (nonlinear_arith);
    }
    vstd::arithmetic::div_mod::lemma_fundamental_div_mod_converse_mod(tv, 0x100, rest, tail[0] as int);
}

/// Two 32-byte strings with the same value are the same string: the
/// little-endian encoding of a value below 2^256 is unique.
pub proof fn lemma_bytes_val_injective(x: Seq<u8>, y: Seq<u8>)
    requires
        x.len() == 32,
        y.len() == 32,
        bytes_val(x) == bytes_val(y),
    ensures
        x == y,
{
    assert forall|k: int| 0 <= k < 32 implies x[k] == y[k] by {
        lemma_bytes_digit(x, k as nat);
        lemma_bytes_digit(y, k as nat);
    }
    assert(x =~= y);
}

/// Pairing bytes two at a time: if limb `i` holds bytes `2i` and `2i+1` of a
/// string, the limbs' value equals the bytes' value.
pub proof fn lemma_bytes_limbs_pair(b: Seq<u8>, l: Seq<i64>, k: nat)
    requires
        k <= 16,
        forall|i: int| 0 <= i < k ==> #[trigger] l[i] == b[2 * i] + 0x100 * b[2 * i + 1],
    ensures
        bytes_val_prefix(b, (2 * k) as nat) == limbs_val_prefix(l, k),
    decreases k,
{
    if k > 0 {
        lemma_bytes_limbs_pair(b, l, (k - 1) as nat);
        let w = pow2((16 * (k - 1)) as nat) as int;
        let lo = b[2 * (k - 1)] as int;
        let hi = b[2 * (k - 1) + 1] as int;
        lemma2_to64();
        assert(pow2((8 * (2 * k - 1)) as nat) == 0x100 * w) by {
            lemma_pow2_adds(8, (16 * (k - 1)) as nat);
        }
        assert(bytes_val_prefix(b, (2 * k - 1) as nat)
            == bytes_val_prefix(b, (2 * k - 2) as nat) + lo * (pow2((8 * (2 * k - 2)) as nat) as int));
        assert(bytes_val_prefix(b, (2 * k) as nat)
            == bytes_val_prefix(b, (2 * k - 1) as nat) + hi * (pow2((8 * (2 * k - 1)) as nat) as int));
        assert(pow2((8 * (2 * k - 2)) as nat) == pow2((16 * (k - 1)) as nat));
        assert(hi * (0x100 * w) == (0x100 * hi) * w) by (nonlinear_arith);
        assert((l[k - 1] as int) * w == lo * w + (0x100 * hi) * w) by {
            lemma_mul_is_distributive_add_other_way(w, lo, 0x100 * hi);
        }
    }
}

/// The limb decomposition of the prime p itself: 0xffed, fourteen limbs of
/// 0xffff, and 0x7fff on top.
pub open spec fn p_limbs() -> Seq<i64> {
    Seq::new(
        16,
        |i: int|
            if i == 0 {
                0xffedi64
            } else if i == 15 {
                0x7fffi64
            } else {
                0xffffi64
            },
    )
}

/// A prefix of `n` all-0xffff limbs has value 2^(16n) - 1.
proof fn lemma_all_ones_val(s: Seq<i64>, n: nat)
    requires
        forall|i: int| 0 <= i < n ==> s[i] == 0xffffi64,
    ensures
        limbs_val_prefix(s, n) == pow2((16 * n) as nat) - 1,
    decreases n,
{
    lemma2_to64();
    if n > 0 {
        lemma_all_ones_val(s, (n - 1) as nat);
        let w = pow2((16 * (n - 1)) as nat) as int;
        assert(pow2((16 * n) as nat) == 0x10000 * w) by {
            lemma_pow2_adds(16, (16 * (n - 1)) as nat);
        }
    }
}

/// The limb decomposition of p has value p.
pub proof fn lemma_p_limbs_val()
    ensures
        limbs_val_prefix(p_limbs(), 16) == p(),
{
    lemma2_to64();
    let ones = Seq::<i64>::new(16, |i: int| 0xffffi64);
    lemma_all_ones_val(ones, 16);
    assert(limbs_val_prefix(ones, 16) == pow2(256) - 1);
    let one_update = ones.update(0, 0xffedi64);
    lemma_limbs_prefix_update(ones, 0, 0xffedi64, 16);
    assert(ones[0] == 0xffffi64);
    assert(pow2((16 * 0) as nat) == 1);
    assert((0xffedi64 - ones[0]) * (pow2((16 * 0) as nat) as int) == -18) by (nonlinear_arith)
        requires
            ones[0] == 0xffffi64,
            pow2((16 * 0) as nat) == 1,
    ;
    assert(limbs_val_prefix(one_update, 16) == pow2(256) - 19);
    lemma_limbs_prefix_update(one_update, 15, 0x7fffi64, 16);
    assert(p_limbs() =~= one_update.update(15, 0x7fffi64));
    assert(one_update[15] == 0xffffi64);
    let w240 = pow2((16 * 15) as nat) as int;
    assert(pow2(255) == 0x8000 * w240) by {
        lemma_pow2_adds(15, 240);
        assert((16 * 15) as nat == 240nat);
    }
    assert(pow2(256) == 2 * pow2(255)) by {
        lemma_pow2_adds(1, 255);
    }
    assert((0x7fffi64 - one_update[15]) * w240 == -(0x8000 * w240)) by {
        lemma_mul_is_distributive_sub_other_way(w240, 0x7fff, 0xffff);
    }
    assert(limbs_val_prefix(p_limbs(), 16) == pow2(256) - 19 - pow2(255));
}

/// Basic size facts about the prime.
pub proof fn lemma_p_facts()
    ensures
        19 < p(),
        0x10000 < p(),
        2 * p() == pow2(256) - 38,
        pow2(255) < pow2(256),
        p() < pow2(255),
{
    lemma2_to64();
    vstd::arithmetic::power2::lemma_pow2_strictly_increases(6, 255);
    vstd::arithmetic::power2::lemma_pow2_strictly_increases(17, 255);
    assert(pow2(256) == 2 * pow2(255)) by {
        lemma_pow2_adds(1, 255);
    }
}

/// For bit positions 5 and up, the quotient of p - 2 = 2^255 - 21 by 2^i is
/// 2^(255-i) - 1: all those bits are set.
proof fn lemma_pm2_div_high(i: nat)
    requires
        5 <= i <= 254,
    ensures
        (p() - 2) / (pow2(i) as int) == pow2((255 - i) as nat) - 1,
{
    let e = p() - 2;
    let d = pow2(i) as int;
    let q = pow2((255 - i) as nat) as int - 1;
    lemma_pow2_pos(i);
    lemma_pow2_pos((255 - i) as nat);
    lemma2_to64();
    if i > 5 {
        vstd::arithmetic::power2::lemma_pow2_strictly_increases(5, i);
    }
    assert(d >= 32);
    lemma_pow2_adds(i, (255 - i) as nat);
    assert(q * d == pow2(255) - d) by (nonlinear_arith)
        requires
            q == pow2((255 - i) as nat) - 1,
            (pow2(i) as int) * (pow2((255 - i) as nat) as int) == pow2(255),
            d == pow2(i) as int,
    ;
    assert(e == q * d + (d - 21));
    vstd::arithmetic::div_mod::lemma_fundamental_div_mod_converse_div(e, d, q, d - 21);
}

/// The inversion chain starts with exponent 1: the quotient of p - 2 by
/// 2^254 is 1.
pub proof fn lemma_inv_exp_base()
    ensures
        (p() - 2) / (pow2(254) as int) == 1,
{
    let e = p() - 2;
    let d = pow2(254) as int;
    lemma_pow2_pos(254);
    lemma2_to64();
    vstd::arithmetic::power2::lemma_pow2_strictly_increases(5, 254);
    assert(pow2(255) == 2 * pow2(254)) by {
        lemma_pow2_adds(1, 254);
    }
    assert(e == 1 * d + (d - 21));
    vstd::arithmetic::div_mod::lemma_fundamental_div_mod_converse_div(e, d, 1, d - 21);
}

/// Reading p - 2 one bit at a time from the top: halving the divisor doubles
/// the quotient and brings in the next bit, which is 0 exactly at positions
/// 2 and 4.
pub proof fn lemma_inv_exp_step(i: nat)
    requires
        i <= 253,
    ensures
        (p() - 2) / (pow2(i) as int) == 2 * ((p() - 2) / (pow2((i + 1) as nat) as int)) + if i == 2
            || i == 4 {
            0int
        } else {
            1int
        },
{
    let e = p() - 2;
    lemma2_to64();
    lemma_p_facts();
    if i >= 5 {
        lemma_pm2_div_high(i);
        lemma_pm2_div_high((i + 1) as nat);
        assert(pow2((255 - i) as nat) == 2 * pow2((254 - i) as nat)) by {
            lemma_pow2_adds(1, (254 - i) as nat);
        }
    } else {
        let q1 = pow2(254) as int - 11;
        let q2 = pow2(253) as int - 6;
        let q3 = pow2(252) as int - 3;
        let q4 = pow2(251) as int - 2;
        let q5 = pow2(250) as int - 1;
        assert(pow2(255) == 2 * pow2(254) && pow2(254) == 2 * pow2(253) && pow2(253) == 2 * pow2(
            252,
        ) && pow2(252) == 2 * pow2(251) && pow2(251) == 2 * pow2(250)) by {
            lemma_pow2_adds(1, 254);
            lemma_pow2_adds(1, 253);
            lemma_pow2_adds(1, 252);
            lemma_pow2_adds(1, 251);
            lemma_pow2_adds(1, 250);
        }
        vstd::arithmetic::power2::lemma_pow2_strictly_increases(5, 250);
        assert(e == q1 * 2 + 1) by (nonlinear_arith)
            requires
                e == 2 * q1 + 1,
        ;
        vstd::arithmetic::div_mod::lemma_fundamental_div_mod_converse_div(e, 2, q1, 1);
        assert(e == q2 * 4 + 3) by (nonlinear_arith)
            requires
                e == 4 * q2 + 3,
        ;
        vstd::arithmetic::div_mod::lemma_fundamental_div_mod_converse_div(e, 4, q2, 3);
        assert(e == q3 * 8 + 3) by (nonlinear_arith)
            requires
                e == 8 * q3 + 3,
        ;
        vstd::arithmetic::div_mod::lemma_fundamental_div_mod_converse_div(e, 8, q3, 3);
        assert(e == q4 * 16 + 11) by (nonlinear_arith)
            requires
                e == 16 * q4 + 11,
        ;
        vstd::arithmetic::div_mod::lemma_fundamental_div_mod_converse_div(e, 16, q4, 11);
        assert(e == q5 * 32 + 11) by (nonlinear_arith)
            requires
                e == 32 * q5 + 11,
        ;
        vstd::arithmetic::div_mod::lemma_fundamental_div_mod_converse_div(e, 32, q5, 11);
        vstd::arithmetic::div_mod::lemma_div_basics(e);
    }
}

/// Multiplying two residues multiplies the powers they stand for: the
/// modular step of a square-and-multiply chain.
pub proof fn lemma_pow_mul_mod(a: int, e1: nat, e2: nat, x: int, y: int, z: int, m: int)
    requires
        m > 0,
        x % m == vstd::arithmetic::power::pow(a, e1) % m,
        y % m == vstd::arithmetic::power::pow(a, e2) % m,
        z % m == (x * y) % m,
    ensures
        z % m == vstd::arithmetic::power::pow(a, e1 + e2) % m,
{
    vstd::arithmetic::power::lemma_pow_adds(a, e1, e2);
    vstd::arithmetic::div_mod::lemma_mul_mod_noop_general(x, y, m);
    vstd::arithmetic::div_mod::lemma_mul_mod_noop_general(
        vstd::arithmetic::power::pow(a, e1),
        vstd::arithmetic::power::pow(a, e2),
        m,
    );
}

/// A value already in [0, m) is its own remainder.
pub proof fn lemma_small_mod_int(x: int, m: int)
    requires
        0 <= x < m,
    ensures
        x % m == x,
{
    assert(x == 0 * m + x) by (nonlinear_arith);
    vstd::arithmetic::div_mod::lemma_fundamental_div_mod_converse_mod(x, m, 0, x);
}

/// Folding the top of the range down with weight 38 preserves the value
/// modulo p: subtracting q*2^256 while adding 38*q subtracts a multiple of
/// 2p = 2^256 - 38.
pub proof fn lemma_wrap_mod_p(v: int)
    ensures
        (v % (pow2(256) as int) + 38 * (v / (pow2(256) as int))) % p() == v % p(),
{
    lemma_p_facts();
    let q = v / (pow2(256) as int);
    let r = v % (pow2(256) as int);
    lemma_fundamental_div_mod(v, pow2(256) as int);
    assert(v == (r + 38 * q) + p() * (2 * q)) by {
        assert((pow2(256) as int) * q == (2 * p() + 38) * q);
        assert((2 * p() + 38) * q == (2 * q) * p() + 38 * q) by (nonlinear_arith);
        assert((2 * q) * p() == p() * (2 * q)) by (nonlinear_arith);
    }
    vstd::arithmetic::div_mod::lemma_mod_multiples_vanish(2 * q, r + 38 * q, p());
}

} // verus!
