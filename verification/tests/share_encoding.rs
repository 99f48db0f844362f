use sharks::{Share, GF256};
use std::convert::TryFrom;

#[test]
fn vec_from_share_works() {
    let share = Share {
        x: GF256(1),
        y: vec![GF256(2), GF256(3)],
    };
    let bytes = Vec::from(&share);
    assert_eq!(bytes, vec![1, 2, 3]);
}

#[test]
fn share_from_u8_slice_works() {
    let bytes = [1, 2, 3];
    let share = Share::try_from(&bytes[..]).unwrap();
    assert_eq!(share.x, GF256(1));
    assert_eq!(share.y, vec![GF256(2), GF256(3)]);
}

#[test]
fn share_from_short_slice_fails() {
    let bytes = [1u8];
    let result = Share::try_from(&bytes[..]);
    assert_eq!(result.err(), Some("A Share must be at least 2 bytes long"));
    let empty: [u8; 0] = [];
    assert!(Share::try_from(&empty[..]).is_err());
}

#[test]
fn share_bytes_round_trip() {
    let bytes = vec![7u8, 0, 255, 3, 9];
    let share = Share::from_bytes(&bytes).unwrap();
    assert_eq!(share.x, GF256(7));
    assert_eq!(share.to_bytes(), bytes);
    let again = Share::try_from(Vec::from(&share).as_slice()).unwrap();
    assert_eq!(again.x, share.x);
    assert_eq!(again.y, share.y);
}
