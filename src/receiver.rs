//! Hex ingress on the receiving side.
use vstd::prelude::*;
use vstd::string::StringSliceAdditionalSpecFns;

use crate::codec::{bytes15_at, ADDRESS_LEN, RECEIPT_ID_LEN, SIGNATURE_LEN, U256_LEN};
use crate::u256::{be_value, U256};

verus! {

/// A receipt as the provider reads it off the wire.
pub struct ReceiptInfo {
    pub id: [u8; 15],
    pub allocation: [u8; 20],
    pub fees: U256,
    pub signature: [u8; 65],
}

/// `allocation_id || fees || receipt_id || signature`: the commitment of an
/// allocation pool without its trailing unlocked fee, 132 bytes. Earlier
/// ingress code decoded 130 bytes, which these fields do not fit; the
/// layout is fixed here at the boundary instead.
pub const RECEIPT_INFO_LEN: usize = ADDRESS_LEN + U256_LEN + RECEIPT_ID_LEN + SIGNATURE_LEN;

/// The value of one hex digit, either case.
pub open spec fn hex_digit(c: u8) -> Option<u8> {
    if 48 <= c <= 57 {
        Some((c - 48) as u8)
    } else if 97 <= c <= 102 {
        Some((c - 87) as u8)
    } else if 65 <= c <= 70 {
        Some((c - 55) as u8)
    } else {
        None
    }
}

/// `s` without every leading `0x`.
pub open spec fn strip_0x(s: Seq<u8>) -> Seq<u8>
    decreases s.len(),
{
    if s.len() >= 2 && s[0] == 48 && s[1] == 120 {
        strip_0x(s.subrange(2, s.len() as int))
    } else {
        s
    }
}

pub open spec fn all_hex(s: Seq<u8>) -> bool {
    forall|i: int| 0 <= i < s.len() ==> (#[trigger] hex_digit(s[i])) is Some
}

/// The bytes that the hex digits `s` spell, two digits to a byte.
pub open spec fn hex_decoded(s: Seq<u8>) -> Seq<u8> {
    Seq::new(s.len() / 2, |i: int| (hex_digit(s[2 * i]).unwrap() * 16 + hex_digit(s[2 * i + 1]).unwrap()) as u8)
}

fn hex_digit_of(c: u8) -> (r: Option<u8>)
    ensures
        r == hex_digit(c),
{
    if 48 <= c && c <= 57 {
        Some(c - 48)
    } else if 97 <= c && c <= 102 {
        Some(c - 87)
    } else if 65 <= c && c <= 70 {
        Some(c - 55)
    } else {
        None
    }
}

/// Reads a receipt from hex, with or without leading `0x`: exactly
/// `2 * RECEIPT_INFO_LEN` digits, else `None`.
pub fn validate_receipt(receipt_hex: &str) -> (r: Option<ReceiptInfo>)
    ensures
        ({
            let s = strip_0x(receipt_hex.spec_bytes());
            &&& r is Some <==> s.len() == 2 * RECEIPT_INFO_LEN && all_hex(s)
            &&& r matches Some(info) ==> {
                let b = hex_decoded(s);
                &&& info.allocation@ == b.subrange(0, 20)
                &&& info.fees.value() == be_value(b.subrange(20, 52))
                &&& info.id@ == b.subrange(52, 67)
                &&& info.signature@ == b.subrange(67, 132)
            }
        }),
{
    let text = receipt_hex.as_bytes();
    let n = text.len();
    let mut start: usize = 0;
    assert(text@.subrange(0, n as int) =~= text@);
    while n - start >= 2 && text[start] == 48 && text[start + 1] == 120
        invariant
            n == text@.len(),
            start <= n,
            strip_0x(text@) == strip_0x(text@.subrange(start as int, n as int)),
        decreases n - start,
    {
        assert(text@.subrange(start as int, n as int).subrange(2, n - start) =~= text@.subrange(start + 2, n as int));
        start += 2;
    }
    let ghost s = text@.subrange(start as int, n as int);
    assert(strip_0x(s) == s);
    if n - start != 2 * RECEIPT_INFO_LEN {
        return None;
    }
    let mut bytes: Vec<u8> = Vec::new();
    let mut i: usize = 0;
    while i < RECEIPT_INFO_LEN
        invariant
            n == text@.len(),
            n - start == 2 * RECEIPT_INFO_LEN,
            s == text@.subrange(start as int, n as int),
            strip_0x(receipt_hex.spec_bytes()) == s,
            0 <= i <= RECEIPT_INFO_LEN,
            bytes@.len() == i,
            forall|k: int| 0 <= k < 2 * i ==> (#[trigger] hex_digit(s[k])) is Some,
            forall|k: int| 0 <= k < i ==> bytes@[k] == hex_decoded(s)[k],
        decreases RECEIPT_INFO_LEN - i,
    {
        let hi = hex_digit_of(text[start + 2 * i]);
        let lo = hex_digit_of(text[start + 2 * i + 1]);
        match (hi, lo) {
            (Some(h), Some(l)) => {
                bytes.push(h * 16 + l);
            },
            _ => {
                proof {
                    if hi is None {
                        assert(hex_digit(s[2 * i as int]) is None);
                    } else {
                        assert(hex_digit(s[2 * i + 1]) is None);
                    }
                    assert(!all_hex(s));
                }
                return None;
            },
        }
        i += 1;
    }
    let fees = U256::from_be_bytes(bytes.as_slice(), ADDRESS_LEN);
    let id = bytes15_at(bytes.as_slice(), ADDRESS_LEN + U256_LEN);
    let mut allocation = [0u8; 20];
    let mut signature = [0u8; 65];
    let mut k: usize = 0;
    while k < SIGNATURE_LEN
        invariant
            bytes@.len() == RECEIPT_INFO_LEN,
            0 <= k <= SIGNATURE_LEN,
            forall|j: int| 0 <= j < k ==> signature@[j] == bytes@[67 + j],
            forall|j: int| 0 <= j < k && j < 20 ==> allocation@[j] == bytes@[j],
        decreases SIGNATURE_LEN - k,
    {
        signature[k] = bytes[67 + k];
        if k < 20 {
            allocation[k] = bytes[k];
        }
        k += 1;
    }
    proof {
        assert(bytes@ =~= hex_decoded(s));
        assert(allocation@ =~= bytes@.subrange(0, 20));
        assert(signature@ =~= bytes@.subrange(67, 132));
    }
    Some(ReceiptInfo { id, allocation, fees, signature })
}

} // verus!
