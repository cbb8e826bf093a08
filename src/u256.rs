//! A 256-bit unsigned integer, as two `u128` halves, with its 32-byte
//! big-endian encoding.
use vstd::prelude::*;

verus! {

pub open spec fn pow256(n: nat) -> nat
    decreases n,
{
    if n == 0 {
        1
    } else {
        256 * pow256((n - 1) as nat)
    }
}

/// 2^128.
pub open spec fn half_modulus() -> nat {
    0x1_0000_0000_0000_0000 * 0x1_0000_0000_0000_0000
}

/// One more than the largest value a `U256` holds.
pub open spec fn u256_modulus() -> nat {
    0x1_0000_0000_0000_0000 * 0x1_0000_0000_0000_0000 * 0x1_0000_0000_0000_0000 * 0x1_0000_0000_0000_0000
}

/// The number that the big-endian bytes `s` spell.
pub open spec fn be_value(s: Seq<u8>) -> nat
    decreases s.len(),
{
    if s.len() == 0 {
        0
    } else {
        be_value(s.drop_last()) * 256 + s.last() as nat
    }
}

/// `a + b`, held at the largest value a `U256` holds.
pub open spec fn sat_add(a: nat, b: nat) -> nat {
    if a + b < u256_modulus() {
        a + b
    } else {
        (u256_modulus() - 1) as nat
    }
}

pub proof fn lemma_be_concat(a: Seq<u8>, b: Seq<u8>)
    ensures
        be_value(a + b) == be_value(a) * pow256(b.len()) + be_value(b),
    decreases b.len(),
{
    if b.len() == 0 {
        assert(a + b =~= a);
        assert(pow256(0) == 1);
        assert(be_value(b) == 0);
    } else {
        assert((a + b).drop_last() =~= a + b.drop_last());
        lemma_be_concat(a, b.drop_last());
        let x = be_value(a);
        let p = pow256((b.len() - 1) as nat);
        let y = be_value(b.drop_last());
        assert((x * p + y) * 256 + b.last() == x * (256 * p) + (y * 256 + b.last())) by (nonlinear_arith);
    }
}

pub proof fn lemma_be_bound(s: Seq<u8>)
    ensures
        be_value(s) < pow256(s.len()),
    decreases s.len(),
{
    if s.len() > 0 {
        lemma_be_bound(s.drop_last());
        let x = be_value(s.drop_last());
        let p = pow256((s.len() - 1) as nat);
        let l = s.last() as nat;
        assert(x * 256 + l < 256 * p) by (nonlinear_arith)
            requires
                x < p,
                l < 256,
        ;
    }
}

proof fn lemma_pow256_16()
    ensures
        pow256(16) == half_modulus(),
{
    reveal_with_fuel(pow256, 17);
}

proof fn lemma_scale_by_half_modulus(h: nat)
    requires
        pow256(16) == half_modulus(),
    ensures
        h * pow256(16) == h * 0x1_0000_0000_0000_0000 * 0x1_0000_0000_0000_0000,
{
    assert(h * pow256(16) == h * 0x1_0000_0000_0000_0000 * 0x1_0000_0000_0000_0000) by (nonlinear_arith)
        requires
            pow256(16) == 0x1_0000_0000_0000_0000 * 0x1_0000_0000_0000_0000,
    ;
}

/// The 16 big-endian bytes of `v`.
fn u128_to_be(v: u128) -> (r: [u8; 16])
    ensures
        be_value(r@) == v,
{
    let mut out = [0u8; 16];
    let mut rest: u128 = v;
    let mut i: usize = 16;
    assert(pow256(0) == 1);
    assert(be_value(out@.subrange(16, 16)) == 0);
    assert(rest * pow256(0) == rest) by (nonlinear_arith)
        requires
            pow256(0) == 1,
    ;
    while i > 0
        invariant
            0 <= i <= 16,
            out@.len() == 16,
            v == rest * pow256((16 - i) as nat) + be_value(out@.subrange(i as int, 16)),
        decreases i,
    {
        let ghost before = out@;
        let digit = (rest % 256) as u8;
        out[i - 1] = digit;
        proof {
            let tail = before.subrange(i as int, 16);
            assert(out@.subrange(i as int, 16) =~= tail);
            assert(out@.subrange(i - 1, 16) =~= seq![digit] + tail);
            lemma_be_concat(seq![digit], tail);
            assert(seq![digit].drop_last() =~= Seq::<u8>::empty());
            assert(be_value(Seq::<u8>::empty()) == 0);
            assert(be_value(seq![digit]) == digit as nat);
            let p = pow256((16 - i) as nat);
            assert(pow256((16 - i + 1) as nat) == 256 * p);
            let q = rest / 256;
            assert(rest == q * 256 + digit as nat);
            assert(rest * p == q * (256 * p) + digit as nat * p) by (nonlinear_arith)
                requires
                    rest == q * 256 + digit as nat,
            ;
        }
        rest = rest / 256;
        i -= 1;
    }
    proof {
        assert(out@.subrange(0, 16) =~= out@);
        lemma_be_bound(out@);
        lemma_pow256_16();
        assert(rest == 0) by (nonlinear_arith)
            requires
                v == rest * pow256(16) + be_value(out@),
                v < pow256(16),
        ;
    }
    out
}

/// The `u128` that the 16 big-endian bytes at `start` of `b` spell.
fn u128_from_be(b: &[u8], start: usize) -> (r: u128)
    requires
        start + 16 <= b@.len(),
    ensures
        r == be_value(b@.subrange(start as int, start + 16)),
{
    let n = b.len();
    let mut acc: u128 = 0;
    let mut i: usize = 0;
    assert(be_value(b@.subrange(start as int, start as int)) == 0);
    while i < 16
        invariant
            n == b@.len(),
            start + 16 <= n,
            0 <= i <= 16,
            acc == be_value(b@.subrange(start as int, start + i)),
        decreases 16 - i,
    {
        assert(b@.len() == b.len());
        proof {
            let s = b@.subrange(start as int, start + i + 1);
            assert(s.drop_last() =~= b@.subrange(start as int, start + i));
            lemma_be_bound(s);
            reveal_with_fuel(pow256, 17);
            assert(pow256(s.len()) <= half_modulus()) by {
                if s.len() < 16 {
                    assert(pow256(s.len()) <= pow256(16));
                }
            }
        }
        acc = acc * 256 + b[start + i] as u128;
        i += 1;
    }
    acc
}

#[derive(Clone, Copy, PartialEq, Eq, Structural, Debug)]
pub struct U256 {
    hi: u128,
    lo: u128,
}

impl U256 {
    pub closed spec fn value(self) -> nat {
        self.hi as nat * 0x1_0000_0000_0000_0000 * 0x1_0000_0000_0000_0000 + self.lo as nat
    }

    /// Every value is below 2^256.
    pub proof fn lemma_value_bound(self)
        ensures
            self.value() < u256_modulus(),
    {
        let h = self.hi as nat;
        let l = self.lo as nat;
        assert(h * 0x1_0000_0000_0000_0000 * 0x1_0000_0000_0000_0000 + l < u256_modulus()) by (nonlinear_arith)
            requires
                h < 0x1_0000_0000_0000_0000 * 0x1_0000_0000_0000_0000,
                l < 0x1_0000_0000_0000_0000 * 0x1_0000_0000_0000_0000,
        ;
    }

    pub fn from_u128(v: u128) -> (r: U256)
        ensures
            r.value() == v,
    {
        U256 { hi: 0, lo: v }
    }

    pub fn zero() -> (r: U256)
        ensures
            r.value() == 0,
    {
        U256 { hi: 0, lo: 0 }
    }

    /// The largest value.
    pub fn max_value() -> (r: U256)
        ensures
            r.value() == u256_modulus() - 1,
    {
        U256 { hi: u128::MAX, lo: u128::MAX }
    }

    pub fn saturating_add(self, other: U256) -> (r: U256)
        ensures
            r.value() == sat_add(self.value(), other.value()),
    {
        let (lo, carry) = if self.lo > u128::MAX - other.lo {
            (self.lo - (u128::MAX - other.lo) - 1, 1u128)
        } else {
            (self.lo + other.lo, 0u128)
        };
        if self.hi > u128::MAX - other.hi || self.hi + other.hi > u128::MAX - carry {
            U256::max_value()
        } else {
            U256 { hi: self.hi + other.hi + carry, lo }
        }
    }

    pub fn checked_sub(self, other: U256) -> (r: Option<U256>)
        ensures
            self.value() >= other.value() <==> r is Some,
            r matches Some(d) ==> d.value() == self.value() - other.value(),
    {
        if self.lt(other) {
            return None;
        }
        if self.lo >= other.lo {
            Some(U256 { hi: self.hi - other.hi, lo: self.lo - other.lo })
        } else {
            Some(U256 { hi: self.hi - other.hi - 1, lo: (u128::MAX - other.lo) + self.lo + 1 })
        }
    }

    /// The value divided by 4, rounded down.
    pub fn quarter(self) -> (r: U256)
        ensures
            r.value() == self.value() / 4,
    {
        let carried = (self.hi % 4) * 0x4000_0000_0000_0000_0000_0000_0000_0000;
        let r = U256 { hi: self.hi / 4, lo: carried + self.lo / 4 };
        proof {
            let h = self.hi as nat;
            let l = self.lo as nat;
            let m = half_modulus();
            assert(m == 4 * 0x4000_0000_0000_0000_0000_0000_0000_0000);
            assert((h * m + l) / 4 == (h / 4) * m + (h % 4) * (m / 4) + l / 4) by (nonlinear_arith)
                requires
                    m == 4 * 0x4000_0000_0000_0000_0000_0000_0000_0000,
            ;
        }
        r
    }

    pub fn lt(self, other: U256) -> (r: bool)
        ensures
            r == (self.value() < other.value()),
    {
        self.hi < other.hi || (self.hi == other.hi && self.lo < other.lo)
    }

    pub fn is_zero(self) -> (r: bool)
        ensures
            r == (self.value() == 0),
    {
        self.hi == 0 && self.lo == 0
    }

    /// The 32 big-endian bytes.
    pub fn to_be_bytes(self) -> (r: [u8; 32])
        ensures
            be_value(r@) == self.value(),
    {
        let hi = u128_to_be(self.hi);
        let lo = u128_to_be(self.lo);
        let mut out = [0u8; 32];
        let mut i: usize = 0;
        while i < 16
            invariant
                0 <= i <= 16,
                out@.len() == 32,
                forall|k: int| 0 <= k < i ==> out@[k] == hi@[k] && out@[16 + k] == lo@[k],
            decreases 16 - i,
        {
            out[i] = hi[i];
            out[16 + i] = lo[i];
            i += 1;
        }
        proof {
            assert(out@ =~= hi@ + lo@);
            lemma_be_concat(hi@, lo@);
            lemma_pow256_16();
            lemma_scale_by_half_modulus(self.hi as nat);
        }
        out
    }

    /// The value that the 32 big-endian bytes at `start` of `b` spell.
    pub fn from_be_bytes(b: &[u8], start: usize) -> (r: U256)
        requires
            start + 32 <= b@.len(),
        ensures
            r.value() == be_value(b@.subrange(start as int, start + 32)),
    {
        assert(b@.len() == b.len());
        let hi = u128_from_be(b, start);
        let lo = u128_from_be(b, start + 16);
        proof {
            let s = b@.subrange(start as int, start + 32);
            assert(s =~= b@.subrange(start as int, start + 16) + b@.subrange(start + 16, start + 32));
            lemma_be_concat(b@.subrange(start as int, start + 16), b@.subrange(start + 16, start + 32));
            lemma_pow256_16();
            lemma_scale_by_half_modulus(hi as nat);
        }
        U256 { hi, lo }
    }
}

} // verus!
