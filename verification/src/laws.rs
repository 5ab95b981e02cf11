//! Algebraic laws of the field engine, stated over the same model that the
//! operations' contracts use.
use vstd::prelude::*;
use vstd::arithmetic::mul::lemma_mul_is_commutative;
use vstd::arithmetic::power2::pow2;
use crate::model::bytes_val;
use crate::model::fe_val;
use crate::model::lemma_bytes_val_injective;
use crate::model::lemma_p_facts;
use crate::model::lemma_small_mod_int;
use crate::model::p;

verus! {

/// Round trip: a 32-byte string that encodes a value below p, decoded to
/// limbs as `unpack25519` does and re-encoded canonically as `pack25519`
/// does, comes back unchanged. An encoding of a value in [p, 2^255), such
/// as the encoding of p itself, does not come back: packing canonicalizes
/// it.
pub proof fn lemma_pack_unpack_round_trip(b: Seq<u8>, u: Seq<i64>, r: Seq<u8>)
    requires
        b.len() == 32,
        r.len() == 32,
        0 <= bytes_val(b) < p(),
        fe_val(u) == bytes_val(b) % (pow2(255) as int),
        bytes_val(r) == fe_val(u) % p(),
    ensures
        r == b,
{
    lemma_p_facts();
    lemma_small_mod_int(bytes_val(b), pow2(255) as int);
    lemma_small_mod_int(bytes_val(b), p());
    lemma_bytes_val_injective(r, b);
}

/// Additive inverse: adding b and then subtracting b returns a unchanged,
/// limb for limb, so in particular the packed encodings agree.
pub proof fn lemma_add_sub_cancels(a: Seq<i64>, b: Seq<i64>, c: Seq<i64>, d: Seq<i64>)
    requires
        a.len() == 16,
        c.len() == 16,
        d.len() == 16,
        forall|i: int| 0 <= i < 16 ==> #[trigger] c[i] == a[i] + b[i],
        forall|i: int| 0 <= i < 16 ==> #[trigger] d[i] == c[i] - b[i],
    ensures
        d == a,
        fe_val(d) == fe_val(a),
{
    assert(d =~= a);
}

/// Commutativity: the canonical encoding of a*b equals that of b*a, in
/// whichever order the product was computed and packed.
pub proof fn lemma_mul_commutes(a: Seq<i64>, b: Seq<i64>, r1: Seq<u8>, r2: Seq<u8>)
    requires
        r1.len() == 32,
        r2.len() == 32,
        bytes_val(r1) == (fe_val(a) * fe_val(b)) % p(),
        bytes_val(r2) == (fe_val(b) * fe_val(a)) % p(),
    ensures
        r1 == r2,
{
    lemma_mul_is_commutative(fe_val(a), fe_val(b));
    lemma_bytes_val_injective(r1, r2);
}

/// Swap involution: a conditional swap with bit 0 changes nothing and one
/// with bit 1 exchanges the elements — that is `swap25519`'s contract — and
/// exchanging twice restores both originals.
pub proof fn lemma_swap_involution(
    p0: Seq<i64>,
    q0: Seq<i64>,
    p1: Seq<i64>,
    q1: Seq<i64>,
    p2: Seq<i64>,
    q2: Seq<i64>,
)
    requires
        p1 == q0,
        q1 == p0,
        p2 == q1,
        q2 == p1,
    ensures
        p2 == p0,
        q2 == q0,
{
}

} // verus!
