//! Fixed-width unsigned integers held as big-endian bytes, and the
//! big-endian byte encoding of numbers.

use vstd::prelude::*;

verus! {

/// 256 to the power `n`.
pub open spec fn pow256(n: nat) -> nat
    decreases n,
{
    if n == 0 {
        1
    } else {
        256 * pow256((n - 1) as nat)
    }
}

/// The number that the big-endian bytes `s` stand for.
pub open spec fn be_value(s: Seq<u8>) -> nat
    decreases s.len(),
{
    if s.len() == 0 {
        0
    } else {
        s[0] as nat * pow256((s.len() - 1) as nat) + be_value(s.skip(1))
    }
}

/// The last `n` bytes of the big-endian form of `v` (all of it when
/// `v < 256^n`).
pub open spec fn be_bytes(v: nat, n: nat) -> Seq<u8>
    decreases n,
{
    if n == 0 {
        Seq::empty()
    } else {
        be_bytes(v / 256, (n - 1) as nat).push((v % 256) as u8)
    }
}

/// `n` zero bytes.
pub open spec fn zeros(n: nat) -> Seq<u8> {
    Seq::new(n, |i: int| 0u8)
}

/// A 256-bit unsigned integer, as 32 big-endian bytes.
#[derive(Clone, Copy, Debug)]
pub struct U256 {
    pub bytes: [u8; 32],
}

/// A 160-bit unsigned integer, as 20 big-endian bytes.
#[derive(Clone, Copy, Debug)]
pub struct U160 {
    pub bytes: [u8; 20],
}

/// A 256-bit signed integer, as 32 big-endian bytes in two's complement.
#[derive(Clone, Copy, Debug)]
pub struct I256 {
    pub bytes: [u8; 32],
}

/// 2^255: the first value outside the signed 256-bit range.
pub open spec fn i256_bound() -> int {
    pow256(31) as int * 128
}

/// `v` fits in a signed 256-bit integer.
pub open spec fn fits_i256(v: int) -> bool {
    -i256_bound() <= v < i256_bound()
}

impl View for I256 {
    type V = Seq<u8>;

    open spec fn view(&self) -> Seq<u8> {
        self.bytes@
    }
}

/// The signed number that 32 two's-complement bytes stand for.
pub open spec fn signed_value(s: Seq<u8>) -> int {
    if be_value(s) >= i256_bound() {
        be_value(s) - 2 * i256_bound()
    } else {
        be_value(s) as int
    }
}

impl I256 {
    /// The number held.
    pub open spec fn value(self) -> int {
        signed_value(self@)
    }

    /// The signed number with the same bits as `raw`.
    pub fn from_raw(raw: U256) -> (r: I256)
        ensures
            r@ == raw@,
            r.value() == signed_value(raw@),
    {
        I256 { bytes: raw.bytes }
    }

    /// Zero.
    pub fn zero() -> (r: I256)
        ensures
            r.value() == 0,
    {
        let r = I256 { bytes: [0u8; 32] };
        proof {
            lemma_be_value_zeros(r@);
            assert(pow256(31) > 0) by {
                lemma_pow256_positive(31);
            }
        }
        r
    }
}

/// Powers of 256 are positive.
pub proof fn lemma_pow256_positive(n: nat)
    ensures
        pow256(n) > 0,
    decreases n,
{
    if n > 0 {
        lemma_pow256_positive((n - 1) as nat);
    }
}

/// alloy-primitives `I256::checked_sub` (on values read with
/// `I256::from_be_bytes`, written back with `to_be_bytes`): claimed to give
/// the difference when it fits in 256 signed bits, and `None` otherwise.
#[verifier::external_body]
pub(crate) fn i256_checked_sub(a: I256, b: I256) -> (r: Option<I256>)
    ensures
        r is Some <==> fits_i256(a.value() - b.value()),
        r matches Some(x) ==> x.value() == a.value() - b.value(),
{
    match alloy::primitives::I256::from_be_bytes(a.bytes).checked_sub(
        alloy::primitives::I256::from_be_bytes(b.bytes),
    ) {
        Some(v) => Some(I256 { bytes: v.to_be_bytes() }),
        None => None,
    }
}

/// alloy-primitives `I256::checked_add` (on values read with
/// `I256::from_be_bytes`, written back with `to_be_bytes`): claimed to give
/// the sum when it fits in 256 signed bits, and `None` otherwise.
#[verifier::external_body]
pub(crate) fn i256_checked_add(a: I256, b: I256) -> (r: Option<I256>)
    ensures
        r is Some <==> fits_i256(a.value() + b.value()),
        r matches Some(x) ==> x.value() == a.value() + b.value(),
{
    match alloy::primitives::I256::from_be_bytes(a.bytes).checked_add(
        alloy::primitives::I256::from_be_bytes(b.bytes),
    ) {
        Some(v) => Some(I256 { bytes: v.to_be_bytes() }),
        None => None,
    }
}

impl View for U256 {
    type V = Seq<u8>;

    open spec fn view(&self) -> Seq<u8> {
        self.bytes@
    }
}

impl View for U160 {
    type V = Seq<u8>;

    open spec fn view(&self) -> Seq<u8> {
        self.bytes@
    }
}

impl U256 {
    /// The number held.
    pub open spec fn value(self) -> nat {
        be_value(self@)
    }

    /// The number whose big-endian bytes are `bytes`.
    pub fn from_be_bytes(bytes: [u8; 32]) -> (r: U256)
        ensures
            r.bytes == bytes,
    {
        U256 { bytes }
    }

    /// Whether `self` is less than `other`.
    pub fn lt(&self, other: &U256) -> (r: bool)
        ensures
            r == (self.value() < other.value()),
    {
        let mut i: usize = 0;
        while i < 32
            invariant
                i <= 32,
                self@.len() == 32,
                other@.len() == 32,
                self@.take(i as int) == other@.take(i as int),
            decreases 32 - i,
        {
            if self.bytes[i] != other.bytes[i] {
                proof {
                    if self.bytes[i as int] < other.bytes[i as int] {
                        lemma_be_value_first_diff(self@, other@, i as int);
                    } else {
                        lemma_be_value_first_diff(other@, self@, i as int);
                    }
                }
                return self.bytes[i] < other.bytes[i];
            }
            proof {
                assert(self@.take(i + 1) =~= self@.take(i as int).push(self@[i as int]));
                assert(other@.take(i + 1) =~= other@.take(i as int).push(other@[i as int]));
            }
            i = i + 1;
        }
        proof {
            assert(self@ =~= self@.take(32));
            assert(other@ =~= other@.take(32));
        }
        false
    }
}

impl U160 {
    /// The number held.
    pub open spec fn value(self) -> nat {
        be_value(self@)
    }

    /// The number whose big-endian bytes are `bytes`.
    pub fn from_be_bytes(bytes: [u8; 20]) -> (r: U160)
        ensures
            r.bytes == bytes,
    {
        U160 { bytes }
    }

    /// Zero.
    pub fn zero() -> (r: U160)
        ensures
            r.value() == 0,
            forall|i: int| 0 <= i < 20 ==> r@[i] == 0,
    {
        let r = U160 { bytes: [0u8; 20] };
        proof {
            lemma_be_value_zeros(r@);
        }
        r
    }
}

/// All-zero bytes stand for zero.
pub proof fn lemma_be_value_zeros(s: Seq<u8>)
    requires
        forall|i: int| 0 <= i < s.len() ==> s[i] == 0,
    ensures
        be_value(s) == 0,
    decreases s.len(),
{
    if s.len() > 0 {
        lemma_be_value_zeros(s.skip(1));
    }
}

/// The number that `n` bytes stand for is below `256^n`.
pub proof fn lemma_be_value_bound(s: Seq<u8>)
    ensures
        be_value(s) < pow256(s.len()),
    decreases s.len(),
{
    if s.len() > 0 {
        let p = pow256((s.len() - 1) as nat);
        lemma_be_value_bound(s.skip(1));
        let d = s[0] as nat;
        let rest = be_value(s.skip(1));
        assert(d * p + rest < 256 * p) by (nonlinear_arith)
            requires
                d <= 255,
                rest < p,
        ;
    }
}

/// Of two byte strings of one length that agree before position `k`, the
/// one with the smaller byte at `k` stands for the smaller number.
pub proof fn lemma_be_value_first_diff(a: Seq<u8>, b: Seq<u8>, k: int)
    requires
        a.len() == b.len(),
        0 <= k < a.len(),
        a.take(k) == b.take(k),
        a[k] < b[k],
    ensures
        be_value(a) < be_value(b),
    decreases k,
{
    let p = pow256((a.len() - 1) as nat);
    if k == 0 {
        lemma_be_value_bound(a.skip(1));
        let x = a[0] as nat;
        let y = b[0] as nat;
        let ra = be_value(a.skip(1));
        let rb = be_value(b.skip(1));
        assert(x * p + ra < y * p + rb) by (nonlinear_arith)
            requires
                x < y,
                ra < p,
        ;
    } else {
        assert(a[0] == a.take(k)[0]);
        assert(b[0] == b.take(k)[0]);
        let a1 = a.skip(1);
        let b1 = b.skip(1);
        assert forall|j: int| 0 <= j < k - 1 implies #[trigger] a1.take(k - 1)[j] == b1.take(
            k - 1,
        )[j] by {
            assert(a1.take(k - 1)[j] == a[j + 1]);
            assert(b1.take(k - 1)[j] == b[j + 1]);
            assert(a.take(k)[j + 1] == a[j + 1]);
            assert(b.take(k)[j + 1] == b[j + 1]);
        }
        assert(a1.take(k - 1) =~= b1.take(k - 1));
        assert(a1[k - 1] == a[k]);
        assert(b1[k - 1] == b[k]);
        lemma_be_value_first_diff(a1, b1, k - 1);
        lemma_be_value_bound(a1);
        lemma_be_value_bound(b1);
    }
}

/// The big-endian bytes of a number below `256^n` stand for that number.
pub proof fn lemma_be_bytes_value(v: nat, n: nat)
    requires
        v < pow256(n),
    ensures
        be_bytes(v, n).len() == n,
        be_value(be_bytes(v, n)) == v,
    decreases n,
{
    if n > 0 {
        let q = v / 256;
        assert(q < pow256((n - 1) as nat)) by (nonlinear_arith)
            requires
                v < 256 * pow256((n - 1) as nat),
                q == v / 256,
        ;
        lemma_be_bytes_value(q, (n - 1) as nat);
        lemma_be_value_append(be_bytes(q, (n - 1) as nat), (v % 256) as u8);
    }
}

/// Appending a byte multiplies by 256 and adds the byte.
pub proof fn lemma_be_value_append(s: Seq<u8>, b: u8)
    ensures
        be_value(s.push(b)) == be_value(s) * 256 + b as nat,
    decreases s.len(),
{
    let t = s.push(b);
    assert(be_value(t) == t[0] as nat * pow256((t.len() - 1) as nat) + be_value(t.skip(1)));
    if s.len() == 0 {
        assert(t.skip(1) =~= Seq::<u8>::empty());
        assert(t[0] == b);
        assert(pow256(0) == 1);
        assert(be_value(t.skip(1)) == 0);
        assert(be_value(s) == 0);
        assert((t.len() - 1) as nat == 0);
        let one = pow256(0);
        assert(b as nat * one == b as nat) by (nonlinear_arith)
            requires
                one == 1,
        ;
    } else {
        let p = pow256((s.len() - 1) as nat);
        assert(pow256(s.len()) == 256 * p);
        assert((t.len() - 1) as nat == s.len());
        assert(t[0] == s[0]);
        assert(t.skip(1) =~= s.skip(1).push(b));
        lemma_be_value_append(s.skip(1), b);
        let d = s[0] as nat;
        let r = be_value(s.skip(1));
        assert(be_value(s) == d * p + r);
        assert(be_value(t) == d * (256 * p) + (r * 256 + b as nat));
        assert(d * (256 * p) + (r * 256 + b as nat) == (d * p + r) * 256 + b as nat)
            by (nonlinear_arith);
    }
}

/// The big-endian form kept to `n` bytes has `n` bytes.
pub proof fn lemma_be_bytes_len(v: nat, n: nat)
    ensures
        be_bytes(v, n).len() == n,
    decreases n,
{
    if n > 0 {
        lemma_be_bytes_len(v / 256, (n - 1) as nat);
    }
}

} // verus!
