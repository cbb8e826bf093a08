//! Fixed-layout byte records shared by the pools and the voucher builder.
use vstd::prelude::*;

use crate::u256::be_value;

verus! {

pub const ADDRESS_LEN: usize = 20;
pub const BYTES32_LEN: usize = 32;
pub const U256_LEN: usize = 32;
/// A bounded receipt id is a `u32`.
pub const SHORT_RECEIPT_ID_LEN: usize = 4;
/// An unbounded receipt id is a random nonce of 15 bytes, so that
/// `ADDRESS_LEN + 15` differs from `BYTES32_LEN + SHORT_RECEIPT_ID_LEN`.
pub const RECEIPT_ID_LEN: usize = 15;
/// 64 bytes of compact `(r, s)` and a recovery id of 27 or 28.
pub const SIGNATURE_LEN: usize = 65;
pub const COMPACT_SIGNATURE_LEN: usize = 64;

proof fn lemma_be_value_4(s: Seq<u8>)
    requires
        s.len() == 4,
    ensures
        be_value(s) == ((s[0] as nat * 256 + s[1] as nat) * 256 + s[2] as nat) * 256 + s[3] as nat,
{
    let s3 = s.drop_last();
    let s2 = s3.drop_last();
    let s1 = s2.drop_last();
    assert(s1.drop_last() =~= Seq::<u8>::empty());
    assert(be_value(s1.drop_last()) == 0);
    assert(s1.last() == s[0] && s2.last() == s[1] && s3.last() == s[2]);
    assert(be_value(s1) == s[0] as nat);
    assert(be_value(s2) == s[0] as nat * 256 + s[1] as nat);
    assert(be_value(s3) == (s[0] as nat * 256 + s[1] as nat) * 256 + s[2] as nat);
}

/// The big-endian bytes of `v`.
pub fn u32_to_be_bytes(v: u32) -> (r: [u8; 4])
    ensures
        be_value(r@) == v,
{
    let b0 = (v / 16777216) as u8;
    let b1 = ((v / 65536) % 256) as u8;
    let b2 = ((v / 256) % 256) as u8;
    let b3 = (v % 256) as u8;
    let r = [b0, b1, b2, b3];
    proof {
        lemma_be_value_4(r@);
        assert(v == ((b0 as nat * 256 + b1 as nat) * 256 + b2 as nat) * 256 + b3 as nat);
    }
    r
}

/// The `u32` that the four big-endian bytes `b` spell.
pub fn u32_from_be_bytes(b: &[u8]) -> (r: u32)
    requires
        b@.len() == 4,
    ensures
        r == be_value(b@),
{
    proof {
        lemma_be_value_4(b@);
    }
    let r = (b[0] as u32) * 16777216 + (b[1] as u32) * 65536 + (b[2] as u32) * 256 + (b[3] as u32);
    r
}

/// Appends the bytes of `b` to `v`.
pub fn append_bytes(v: &mut Vec<u8>, b: &[u8])
    ensures
        final(v)@ == old(v)@ + b@,
{
    let n = b.len();
    let mut i: usize = 0;
    while i < n
        invariant
            n == b@.len(),
            0 <= i <= n,
            v@ == old(v)@ + b@.subrange(0, i as int),
        decreases n - i,
    {
        v.push(b[i]);
        i += 1;
        assert(v@ =~= old(v)@ + b@.subrange(0, i as int));
    }
    assert(b@.subrange(0, n as int) =~= b@);
}

/// The 15 bytes at `start` of `b`.
pub fn bytes15_at(b: &[u8], start: usize) -> (r: [u8; 15])
    requires
        start + RECEIPT_ID_LEN <= b@.len(),
    ensures
        r@ == b@.subrange(start as int, start + RECEIPT_ID_LEN),
{
    let mut bytes = [0u8; 15];
    let n = b.len();
    let mut i: usize = 0;
    while i < RECEIPT_ID_LEN
        invariant
            n == b@.len(),
            start + RECEIPT_ID_LEN <= b@.len(),
            0 <= i <= RECEIPT_ID_LEN,
            forall|k: int| 0 <= k < i ==> bytes@[k] == b@[start + k],
        decreases RECEIPT_ID_LEN - i,
    {
        bytes[i] = b[start + i];
        i += 1;
    }
    assert(bytes@ =~= b@.subrange(start as int, start + RECEIPT_ID_LEN));
    bytes
}

/// The 32 bytes at `start` of `b`.
pub fn bytes32_at(b: &[u8], start: usize) -> (r: [u8; 32])
    requires
        start + BYTES32_LEN <= b@.len(),
    ensures
        r@ == b@.subrange(start as int, start + BYTES32_LEN),
{
    let mut bytes = [0u8; 32];
    let n = b.len();
    let mut i: usize = 0;
    while i < BYTES32_LEN
        invariant
            n == b@.len(),
            start + BYTES32_LEN <= b@.len(),
            0 <= i <= BYTES32_LEN,
            forall|k: int| 0 <= k < i ==> bytes@[k] == b@[start + k],
        decreases BYTES32_LEN - i,
    {
        bytes[i] = b[start + i];
        i += 1;
    }
    assert(bytes@ =~= b@.subrange(start as int, start + BYTES32_LEN));
    bytes
}

} // verus!

verus! {

#[derive(Clone, Copy, PartialEq, Eq, Debug)]
pub enum SignError {
    InvalidRecoveryId,
}

/// Keccak-256 of `data`.
pub uninterp spec fn keccak256(data: Seq<u8>) -> Seq<u8>;

/// Relies on `tiny_keccak::Keccak::v256`, fed `data` once: a 32-byte digest
/// that depends on `data` alone.
#[verifier::external_body]
pub(crate) fn keccak(data: &[u8]) -> (r: [u8; 32])
    ensures
        r@ == keccak256(data@),
{
    let mut hasher = tiny_keccak::Keccak::v256();
    tiny_keccak::Hasher::update(&mut hasher, data);
    let mut out = [0u8; 32];
    tiny_keccak::Hasher::finalize(hasher, &mut out);
    out
}

/// The byte that a raw recovery id becomes on the wire: 0 and 1 map to 27
/// and 28, which pass unchanged; any other id is refused.
pub open spec fn wire_recovery_id(v: i32) -> Option<u8> {
    if 0 <= v <= 1 {
        Some((v + 27) as u8)
    } else if v == 27 || v == 28 {
        Some(v as u8)
    } else {
        None
    }
}

/// The 65-byte signature: the compact `(r, s)` followed by the wire recovery id.
pub fn signature_from_parts(compact: &[u8; 64], recovery_id: i32) -> (r: Result<[u8; 65], SignError>)
    ensures
        wire_recovery_id(recovery_id) is None <==> r == Err::<[u8; 65], SignError>(SignError::InvalidRecoveryId),
        wire_recovery_id(recovery_id) is Some <==> r is Ok,
        r matches Ok(s) ==> s@ == compact@.push(wire_recovery_id(recovery_id).unwrap()),
{
    let v: u8 = if 0 <= recovery_id && recovery_id <= 1 {
        (recovery_id + 27) as u8
    } else if recovery_id == 27 || recovery_id == 28 {
        recovery_id as u8
    } else {
        return Err(SignError::InvalidRecoveryId);
    };
    let mut s = [0u8; 65];
    let mut i: usize = 0;
    while i < COMPACT_SIGNATURE_LEN
        invariant
            0 <= i <= COMPACT_SIGNATURE_LEN,
            s@.len() == 65,
            forall|k: int| 0 <= k < i ==> s@[k] == compact@[k],
        decreases COMPACT_SIGNATURE_LEN - i,
    {
        s[i] = compact[i];
        i += 1;
    }
    s[64] = v;
    assert(s@ =~= compact@.push(v));
    Ok(s)
}

/// `sig` is what `sign_digest` gave for `key` and Keccak-256 of `message`,
/// with the recovery id in its wire form.
pub open spec fn signs<F: Fn(&[u8; 32], &[u8; 32]) -> ([u8; 64], i32)>(sign_digest: F, key: Seq<u8>, message: Seq<u8>, sig: Seq<u8>) -> bool {
    exists|k: &[u8; 32], d: &[u8; 32], out: ([u8; 64], i32)|
        k@ == key && d@ == keccak256(message) && #[trigger] sign_digest.ensures((k, d), out)
            && wire_recovery_id(out.1) is Some && sig == out.0@.push(wire_recovery_id(out.1).unwrap())
}

/// `sign_digest`, on `key` and Keccak-256 of `message`, can give a recovery
/// id that has no wire form.
pub open spec fn signing_refused<F: Fn(&[u8; 32], &[u8; 32]) -> ([u8; 64], i32)>(sign_digest: F, key: Seq<u8>, message: Seq<u8>) -> bool {
    exists|k: &[u8; 32], d: &[u8; 32], out: ([u8; 64], i32)|
        k@ == key && d@ == keccak256(message) && #[trigger] sign_digest.ensures((k, d), out) && wire_recovery_id(out.1) is None
}

/// Signs Keccak-256 of `message` with the secret `key`. The ECDSA step is
/// `sign_digest`, which is handed the key and the digest and gives back the
/// compact `(r, s)` and the raw recovery id.
pub fn sign<F: Fn(&[u8; 32], &[u8; 32]) -> ([u8; 64], i32)>(message: &[u8], key: &[u8; 32], sign_digest: &F) -> (r: Result<[u8; 65], SignError>)
    requires
        forall|k: &[u8; 32], d: &[u8; 32]| sign_digest.requires((k, d)),
    ensures
        r matches Ok(s) ==> s@[64] == 27 || s@[64] == 28,
        r matches Ok(s) ==> signs(*sign_digest, key@, message@, s@),
        r is Err ==> r == Err::<[u8; 65], SignError>(SignError::InvalidRecoveryId),
        r is Err ==> signing_refused(*sign_digest, key@, message@),
{
    let digest = keccak(message);
    let out = sign_digest(key, &digest);
    let (compact, recovery_id) = out;
    let r = signature_from_parts(&compact, recovery_id);
    proof {
        if let Ok(s) = r {
            assert(s@[64] == wire_recovery_id(recovery_id).unwrap());
            assert(sign_digest.ensures((key, &digest), out));
            assert(signs(*sign_digest, key@, message@, s@));
        } else {
            assert(sign_digest.ensures((key, &digest), out));
            assert(signing_refused(*sign_digest, key@, message@));
        }
    }
    r
}

} // verus!
