use receipts::codec::{u32_from_be_bytes, u32_to_be_bytes};
use receipts::u256::U256;

#[test]
fn u256_arithmetic() {
    let max = U256::max_value();
    assert_eq!(max.saturating_add(U256::from_u128(1)), max);
    let big = U256::from_u128(u128::MAX);
    let sum = big.saturating_add(U256::from_u128(1));
    let mut expected = [0u8; 32];
    expected[15] = 1;
    assert_eq!(sum.to_be_bytes(), expected);
    assert_eq!(sum.checked_sub(U256::from_u128(1)), Some(big));
    assert_eq!(U256::from_u128(3).checked_sub(U256::from_u128(4)), None);
    assert_eq!(U256::from_u128(61).quarter(), U256::from_u128(15));
    assert_eq!(sum.quarter().to_be_bytes()[16], 0x40);
    assert!(U256::from_u128(2).lt(sum));
    assert!(!sum.lt(U256::from_u128(2)));
    assert!(U256::zero().is_zero());
    assert!(!sum.is_zero());
}

#[test]
fn u256_bytes_round_trip() {
    let mut b = [0u8; 40];
    for (i, x) in b.iter_mut().enumerate() {
        *x = i as u8;
    }
    let v = U256::from_be_bytes(&b, 5);
    assert_eq!(&v.to_be_bytes()[..], &b[5..37]);
    assert_eq!(U256::from_u128(0x0102).to_be_bytes()[30..], [1, 2]);
}

#[test]
fn u32_bytes() {
    assert_eq!(u32_to_be_bytes(0x0102_0304), [1, 2, 3, 4]);
    assert_eq!(u32_from_be_bytes(&[0xff, 0, 0, 1]), 0xff00_0001);
}
