//! Tests of the limb-level operations.
use ed25519::field::carry25519;
use ed25519::field::fadd;
use ed25519::field::finverse;
use ed25519::field::fmul;
use ed25519::field::fsub;
use ed25519::field::pack25519;
use ed25519::field::swap25519;
use ed25519::field::unpack25519;
use ed25519::field::FieldElem;

#[test]
fn carry_unit_case() {
    // One carry pass moves the overflow of limb 0 into limb 1.
    let mut e: FieldElem = [0i64; 16];
    e[0] = 0x1ffff;
    carry25519(&mut e);
    assert_eq!(e[0], 0xffff);
    assert_eq!(e[1], 1);
    for i in 2..16 {
        assert_eq!(e[i], 0);
    }
}

#[test]
fn carry_folds_top_limb_with_weight_38() {
    // A carry out of limb 15 lands in limb 0 scaled by 38.
    let mut e: FieldElem = [0i64; 16];
    e[15] = 0x1_0005;
    carry25519(&mut e);
    assert_eq!(e[0], 38);
    assert_eq!(e[15], 0x0005);
    for i in 1..15 {
        assert_eq!(e[i], 0);
    }
}

#[test]
fn carry_preserves_sign_of_negative_limbs() {
    // The shift is arithmetic, so a negative limb borrows from the next one;
    // the borrow out of the top limb wraps through limb 0 with weight 38.
    let mut e: FieldElem = [0i64; 16];
    e[0] = -1;
    carry25519(&mut e);
    assert_eq!(e[0], 0xffff - 38);
    for i in 1..16 {
        assert_eq!(e[i], 0xffff);
    }
}

#[test]
fn swap_bit_zero_is_a_noop() {
    let mut p: FieldElem = [3i64; 16];
    let mut q: FieldElem = [9i64; 16];
    swap25519(&mut p, &mut q, 0);
    assert_eq!(p, [3i64; 16]);
    assert_eq!(q, [9i64; 16]);
}

#[test]
fn swap_bit_one_exchanges() {
    let mut p: FieldElem = [0i64; 16];
    let mut q: FieldElem = [0i64; 16];
    for i in 0..16 {
        p[i] = i as i64;
        q[i] = 100 + i as i64;
    }
    let p_before = p;
    let q_before = q;
    swap25519(&mut p, &mut q, 1);
    assert_eq!(p, q_before);
    assert_eq!(q, p_before);
}

#[test]
fn swap_twice_restores() {
    let mut p: FieldElem = [7i64; 16];
    let mut q: FieldElem = [2i64; 16];
    p[5] = -4;
    q[11] = 0x1234;
    let p_before = p;
    let q_before = q;
    swap25519(&mut p, &mut q, 1);
    swap25519(&mut p, &mut q, 1);
    assert_eq!(p, p_before);
    assert_eq!(q, q_before);
}

#[test]
fn round_trip_of_a_low_encoding() {
    let mut bytes = [0u8; 32];
    for i in 0..32 {
        bytes[i] = i as u8;
    }
    let mut e = unpack25519(&bytes);
    let out = pack25519(&mut e);
    assert_eq!(out, bytes);
}

#[test]
fn unpack_masks_the_top_bit() {
    // All-ones bytes encode 2^256 - 1; unpacking truncates to 2^255 - 1,
    // and packing canonicalizes that to 2^255 - 1 - p = 18.
    let bytes = [0xffu8; 32];
    let mut e = unpack25519(&bytes);
    let out = pack25519(&mut e);
    let mut expected = [0u8; 32];
    expected[0] = 18;
    assert_eq!(out, expected);
}

#[test]
fn add_two_and_three_packs_to_five() {
    let mut two = [0u8; 32];
    two[0] = 2;
    let mut three = [0u8; 32];
    three[0] = 3;
    let a = unpack25519(&two);
    let b = unpack25519(&three);
    let mut sum = fadd(&a, &b);
    let out = pack25519(&mut sum);
    let mut expected = [0u8; 32];
    expected[0] = 5;
    assert_eq!(out, expected);
}

#[test]
fn sub_below_zero_wraps_to_p_minus_one() {
    // 2 - 3 canonicalizes to p - 1 = 2^255 - 20.
    let mut two = [0u8; 32];
    two[0] = 2;
    let mut three = [0u8; 32];
    three[0] = 3;
    let a = unpack25519(&two);
    let b = unpack25519(&three);
    let mut diff = fsub(&a, &b);
    let out = pack25519(&mut diff);
    let mut expected = [0xffu8; 32];
    expected[0] = 0xec;
    expected[31] = 0x7f;
    assert_eq!(out, expected);
}

#[test]
fn mul_commutes_on_fixed_vectors() {
    let mut a_bytes = [0u8; 32];
    let mut b_bytes = [0u8; 32];
    for i in 0..32 {
        a_bytes[i] = (13 * i + 5) as u8;
        b_bytes[i] = (3 * i + 17) as u8;
    }
    a_bytes[31] &= 0x7f;
    b_bytes[31] &= 0x7f;
    let a = unpack25519(&a_bytes);
    let b = unpack25519(&b_bytes);
    let mut ab = fmul(&a, &b);
    let mut ba = fmul(&b, &a);
    assert_eq!(pack25519(&mut ab), pack25519(&mut ba));
}

#[test]
fn finverse_of_two() {
    let mut two_bytes = [0u8; 32];
    two_bytes[0] = 2;
    let two = unpack25519(&two_bytes);
    let mut inv: FieldElem = [0i64; 16];
    finverse(&mut inv, &two);

    let mut inv_for_packing = inv;
    let packed_inv = pack25519(&mut inv_for_packing);
    let mut expected = [0xffu8; 32];
    expected[0] = 0xf7;
    expected[31] = 0x3f;
    assert_eq!(packed_inv, expected);

    let mut product = fmul(&inv, &two);
    let mut one = [0u8; 32];
    one[0] = 1;
    assert_eq!(pack25519(&mut product), one);
}

#[test]
fn finverse_of_zero_is_zero() {
    // The Fermat chain is total: 0 has no inverse, and the chain returns 0.
    let zero: FieldElem = [0i64; 16];
    let mut inv: FieldElem = [1i64; 16];
    finverse(&mut inv, &zero);
    let out = pack25519(&mut inv);
    assert_eq!(out, [0u8; 32]);
}

#[test]
fn add_then_sub_is_identity_on_limbs() {
    let mut a_bytes = [0u8; 32];
    let mut b_bytes = [0u8; 32];
    for i in 0..32 {
        a_bytes[i] = (31 * i + 2) as u8;
        b_bytes[i] = (9 * i + 4) as u8;
    }
    a_bytes[31] &= 0x7f;
    b_bytes[31] &= 0x7f;
    let a = unpack25519(&a_bytes);
    let b = unpack25519(&b_bytes);
    let sum = fadd(&a, &b);
    let back = fsub(&sum, &b);
    assert_eq!(back, a);
}
