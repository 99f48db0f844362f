use sharks::GF256;

#[test]
fn field_addition_is_xor() {
    assert_eq!(GF256(0x53).plus(GF256(0xca)), GF256(0x99));
    assert_eq!(GF256(0x53).minus(GF256(0x53)), GF256(0));
}

#[test]
fn field_multiplication_values() {
    // x * x^7 = x^8 = x^4 + x^3 + x^2 + 1
    assert_eq!(GF256(0x02).times(GF256(0x80)), GF256(0x1d));
    // (x + 1)(x^2 + x + 1) = x^3 + 1
    assert_eq!(GF256(3).times(GF256(7)), GF256(9));
    assert_eq!(GF256(0).times(GF256(200)), GF256(0));
    assert_eq!(GF256(1).times(GF256(200)), GF256(200));
    assert_eq!(GF256(0x57).times(GF256(0x13)), GF256(0x13).times(GF256(0x57)));
}

#[test]
fn field_inverse_and_division() {
    for a in 1..=255u8 {
        let inv = GF256(a).inverse();
        assert_eq!(GF256(a).times(inv), GF256(1));
        assert_eq!(GF256(a).divide(GF256(a)), GF256(1));
    }
    assert_eq!(GF256(0).inverse(), GF256(0));
    assert_eq!(GF256(2).inverse(), GF256(0x8e));
    assert_eq!(GF256(9).divide(GF256(3)), GF256(7));
}
