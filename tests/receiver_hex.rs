use receipts::receiver::{validate_receipt, RECEIPT_INFO_LEN};
use receipts::u256::U256;

fn sample() -> Vec<u8> {
    let mut b = vec![0x11u8; 20];
    b.extend_from_slice(&U256::from_u128(0xabcd).to_be_bytes());
    b.extend_from_slice(&[0x22u8; 15]);
    b.extend_from_slice(&[0x33u8; 64]);
    b.push(27);
    b
}

fn to_hex(b: &[u8]) -> String {
    b.iter().map(|x| format!("{:02x}", x)).collect()
}

#[test]
fn reads_receipt_with_prefix() {
    let b = sample();
    assert_eq!(b.len(), RECEIPT_INFO_LEN);
    let info = validate_receipt(&format!("0x{}", to_hex(&b))).unwrap();
    assert_eq!(info.allocation, [0x11u8; 20]);
    assert_eq!(info.fees, U256::from_u128(0xabcd));
    assert_eq!(info.id, [0x22u8; 15]);
    assert_eq!(&info.signature[..64], &[0x33u8; 64][..]);
    assert_eq!(info.signature[64], 27);
}

#[test]
fn reads_receipt_without_prefix_and_upper_case() {
    let info = validate_receipt(&to_hex(&sample()).to_uppercase()).unwrap();
    assert_eq!(info.fees, U256::from_u128(0xabcd));
}

#[test]
fn rejects_malformed_hex() {
    let good = to_hex(&sample());
    assert!(validate_receipt(&good[2..]).is_none());
    assert!(validate_receipt(&format!("{}00", good)).is_none());
    let bad = format!("zz{}", &good[2..]);
    assert!(validate_receipt(&bad).is_none());
    assert!(validate_receipt("").is_none());
    assert!(validate_receipt(&format!("0x0x{}", good)).is_some());
}
