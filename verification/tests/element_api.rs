//! Tests of the packed/unpacked element API.
use ed25519::element::FieldElement;

#[test]
fn packunpack() {
    let mut items = [0u8; 32];
    items[31] = 0x2a;
    let packed = FieldElement::new(items);
    let mut unpacked = packed.unpack();

    let repacked = unpacked.pack();

    assert_eq!(packed, repacked);
}

#[test]
fn addsub() {
    let mut a_items = [0u8; 32];
    a_items[31] = 0x15;
    let packed_a = FieldElement::new(a_items);

    let mut b_items = [0u8; 32];
    b_items[31] = 0x15;
    let packed_b = FieldElement::new(b_items);

    let unpacked_a = packed_a.unpack();
    let unpacked_b = packed_b.unpack();
    let unpacked_c = unpacked_a.add(&unpacked_b);

    assert_eq!(unpacked_a, unpacked_c.sub(&unpacked_b));
}

#[test]
fn mul() {
    let mut a_items = [0u8; 32];
    a_items[0] = 0x2;
    let packed_a = FieldElement::new(a_items);

    let mut b_items = [0u8; 32];
    b_items[0] = 0x3;
    let packed_b = FieldElement::new(b_items);

    let unpacked_a = packed_a.unpack();
    let unpacked_b = packed_b.unpack();
    let mut unpacked_c = unpacked_a.mul(&unpacked_b);

    let mut expected_items = [0u8; 32];
    expected_items[0] = 0x6;
    let expected_packed = FieldElement::new(expected_items);

    assert_eq!(expected_packed, unpacked_c.pack());
}

#[test]
fn inverse_of_two_is_half_of_p_plus_one() {
    // The encoding of 2 inverts to the canonical encoding of (p + 1) / 2 =
    // 2^254 - 9, and multiplying back by 2 canonicalizes to 1.
    let mut items = [0u8; 32];
    items[0] = 0x02;
    let packed = FieldElement::new(items);
    let unpacked = packed.unpack();

    let mut inv = unpacked.inverse();
    let packed_inv = inv.pack();

    let mut expected = [0u8; 32];
    expected[0] = 0xf7;
    for i in 1..31 {
        expected[i] = 0xff;
    }
    expected[31] = 0x3f;
    assert_eq!(FieldElement::new(expected), packed_inv);

    let mut product = inv.mul(&unpacked);
    let mut one = [0u8; 32];
    one[0] = 0x01;
    assert_eq!(FieldElement::new(one), product.pack());
}

#[test]
fn inverse_times_self_is_one() {
    let mut items = [0u8; 32];
    for i in 0..32 {
        items[i] = (7 * i + 3) as u8;
    }
    items[31] &= 0x7f;
    let packed = FieldElement::new(items);
    let unpacked = packed.unpack();

    let inv = unpacked.inverse();
    let mut product = unpacked.mul(&inv);

    let mut one = [0u8; 32];
    one[0] = 0x01;
    assert_eq!(FieldElement::new(one), product.pack());
}

#[test]
fn mul_order_does_not_matter() {
    let mut a_items = [0u8; 32];
    let mut b_items = [0u8; 32];
    for i in 0..32 {
        a_items[i] = (11 * i + 1) as u8;
        b_items[i] = (5 * i + 2) as u8;
    }
    a_items[31] &= 0x7f;
    b_items[31] &= 0x7f;
    let a = FieldElement::new(a_items).unpack();
    let b = FieldElement::new(b_items).unpack();

    let mut ab = a.mul(&b);
    let mut ba = b.mul(&a);

    assert_eq!(ab.pack(), ba.pack());
}

#[test]
fn default_elements_are_zero() {
    let zero_unpacked: FieldElement<i64, 16> = FieldElement::default();
    let zero_packed: FieldElement<u8, 32> = FieldElement::default();
    assert_eq!(zero_unpacked.len(), 16);
    assert_eq!(zero_packed.len(), 32);
    let mut sum = zero_unpacked.add(&FieldElement::new([0u8; 32]).unpack());
    assert_eq!(sum.pack(), zero_packed);
}
