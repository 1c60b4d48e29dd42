//! Arbitrary-precision naturals and integers held as little-endian bytes.
//!
//! The arithmetic itself is done by `num-bigint`; each operation is a small
//! trusted wrapper whose contract states the exact mathematical result.
use num_bigint::{BigInt, BigUint};
use num_integer::Integer;
use num_traits::ToPrimitive;
use vstd::arithmetic::power::pow;
use vstd::prelude::*;

verus! {

/// Value of little-endian base-256 digits.
pub open spec fn nat_of_le(s: Seq<u8>) -> nat
    decreases s.len(),
{
    if s.len() == 0 {
        0
    } else {
        s[0] as nat + 256 * nat_of_le(s.drop_first())
    }
}

/// Value of little-endian two's-complement bytes.
pub open spec fn int_of_le(s: Seq<u8>) -> int {
    if s.len() > 0 && s.last() >= 128 {
        nat_of_le(s) - pow(256, s.len())
    } else {
        nat_of_le(s) as int
    }
}

/// A natural number of any size.
#[derive(Debug)]
pub struct BigNat {
    /// Little-endian base-256 digits; trailing zeros are allowed.
    pub bytes: Vec<u8>,
}

impl View for BigNat {
    type V = nat;

    open spec fn view(&self) -> nat {
        nat_of_le(self.bytes@)
    }
}

/// A signed integer of any size.
#[derive(Debug)]
pub struct BigSigned {
    /// Little-endian two's-complement bytes; the empty sequence is zero.
    pub bytes: Vec<u8>,
}

impl View for BigSigned {
    type V = int;

    open spec fn view(&self) -> int {
        int_of_le(self.bytes@)
    }
}

proof fn lemma_nat_of_le_push_zero(s: Seq<u8>)
    ensures
        nat_of_le(s.push(0)) == nat_of_le(s),
    decreases s.len(),
{
    if s.len() > 0 {
        assert(s.push(0).drop_first() =~= s.drop_first().push(0));
        lemma_nat_of_le_push_zero(s.drop_first());
    } else {
        assert(s.push(0).drop_first() =~= s);
    }
}

proof fn lemma_nat_of_le_bound(s: Seq<u8>)
    ensures
        nat_of_le(s) < pow(256, s.len()),
    decreases s.len(),
{
    reveal(pow);
    if s.len() > 0 {
        let t = s.drop_first();
        lemma_nat_of_le_bound(t);
        assert(pow(256, s.len()) == 256 * pow(256, t.len()));
        assert(nat_of_le(s) < 256 * pow(256, t.len())) by (nonlinear_arith)
            requires
                nat_of_le(s) == s[0] as nat + 256 * nat_of_le(t),
                s[0] < 256,
                nat_of_le(t) + 1 <= pow(256, t.len()),
        ;
    }
}

impl BigNat {
    /// The same value as a signed integer.
    pub fn to_signed(&self) -> (r: BigSigned)
        ensures
            r@ == self@ as int,
    {
        let mut bytes = self.bytes.clone();
        assert(bytes@ =~= self.bytes@);
        bytes.push(0);
        proof {
            lemma_nat_of_le_push_zero(self.bytes@);
        }
        BigSigned { bytes }
    }
}

impl BigSigned {
    /// The same value as a natural number.
    pub fn to_nat(&self) -> (r: BigNat)
        requires
            self@ >= 0,
        ensures
            r@ == self@,
    {
        let bytes = self.bytes.clone();
        assert(bytes@ =~= self.bytes@);
        proof {
            lemma_nat_of_le_bound(self.bytes@);
            if self.bytes@.len() > 0 && self.bytes@.last() >= 128 {
                assert(false);
            }
        }
        BigNat { bytes }
    }
}

/// Euclidean remainder: the representative of `a` in `[0, m)`.
pub open spec fn mod_floor(a: int, m: int) -> int
    recommends
        m > 0,
{
    a % m
}

/// Relies on `From<u64> for BigUint`: the same value.
#[verifier::external_body]
pub(crate) fn nat_from_u64(n: u64) -> (r: BigNat)
    ensures
        r@ == n,
{
    BigNat { bytes: BigUint::from(n).to_bytes_le() }
}

/// Relies on `ToPrimitive::to_usize` for `BigUint`: the value when it fits.
#[verifier::external_body]
pub(crate) fn nat_to_usize(a: &BigNat) -> (r: Option<usize>)
    ensures
        a@ <= usize::MAX ==> r == Some(a@ as usize),
        a@ > usize::MAX ==> r is None,
{
    BigUint::from_bytes_le(&a.bytes).to_usize()
}

/// Relies on `BigUint + BigUint`: the sum.
#[verifier::external_body]
pub(crate) fn nat_add(a: &BigNat, b: &BigNat) -> (r: BigNat)
    ensures
        r@ == a@ + b@,
{
    BigNat { bytes: (BigUint::from_bytes_le(&a.bytes) + BigUint::from_bytes_le(&b.bytes)).to_bytes_le() }
}

/// Relies on `BigUint - BigUint`, which panics below zero: the difference.
#[verifier::external_body]
pub(crate) fn nat_sub(a: &BigNat, b: &BigNat) -> (r: BigNat)
    requires
        b@ <= a@,
    ensures
        r@ == a@ - b@,
{
    BigNat { bytes: (BigUint::from_bytes_le(&a.bytes) - BigUint::from_bytes_le(&b.bytes)).to_bytes_le() }
}

/// Relies on `BigUint * BigUint`: the product.
#[verifier::external_body]
pub(crate) fn nat_mul(a: &BigNat, b: &BigNat) -> (r: BigNat)
    ensures
        r@ == a@ * b@,
{
    BigNat { bytes: (BigUint::from_bytes_le(&a.bytes) * BigUint::from_bytes_le(&b.bytes)).to_bytes_le() }
}

/// Relies on `Integer::div_mod_floor` for `BigUint`, which panics on a zero
/// divisor: quotient and remainder.
#[verifier::external_body]
pub(crate) fn nat_div_mod_floor(a: &BigNat, b: &BigNat) -> (r: (BigNat, BigNat))
    requires
        b@ > 0,
    ensures
        r.0@ == a@ / b@,
        r.1@ == a@ % b@,
{
    let (q, m) = BigUint::from_bytes_le(&a.bytes).div_mod_floor(&BigUint::from_bytes_le(&b.bytes));
    (BigNat { bytes: q.to_bytes_le() }, BigNat { bytes: m.to_bytes_le() })
}

/// Relies on `PartialOrd::lt` for `BigUint`: the order of the values.
#[verifier::external_body]
pub(crate) fn nat_lt(a: &BigNat, b: &BigNat) -> (r: bool)
    ensures
        r == (a@ < b@),
{
    BigUint::from_bytes_le(&a.bytes) < BigUint::from_bytes_le(&b.bytes)
}

/// Relies on `PartialEq::eq` for `BigUint`: equality of the values.
#[verifier::external_body]
pub(crate) fn nat_eq(a: &BigNat, b: &BigNat) -> (r: bool)
    ensures
        r == (a@ == b@),
{
    BigUint::from_bytes_le(&a.bytes) == BigUint::from_bytes_le(&b.bytes)
}

/// Relies on `BigUint::pow`: the power.
#[verifier::external_body]
pub(crate) fn nat_pow(a: &BigNat, e: u32) -> (r: BigNat)
    ensures
        r@ == pow(a@ as int, e as nat),
{
    BigNat { bytes: BigUint::from_bytes_le(&a.bytes).pow(e).to_bytes_le() }
}

/// Relies on `Integer::extended_gcd` for `BigInt`: the greatest common
/// divisor, which is not negative, with Bezout coefficients `x` and `y`.
#[verifier::external_body]
pub(crate) fn int_extended_gcd(a: &BigSigned, b: &BigSigned) -> (r: (BigSigned, BigSigned, BigSigned))
    ensures
        r.0@ >= 0,
        r.0@ == a@ * r.1@ + b@ * r.2@,
        r.0@ > 0 ==> a@ % r.0@ == 0 && b@ % r.0@ == 0,
        a@ != 0 || b@ != 0 ==> r.0@ > 0,
{
    let e = BigInt::from_signed_bytes_le(&a.bytes).extended_gcd(&BigInt::from_signed_bytes_le(&b.bytes));
    (
        BigSigned { bytes: e.gcd.to_signed_bytes_le() },
        BigSigned { bytes: e.x.to_signed_bytes_le() },
        BigSigned { bytes: e.y.to_signed_bytes_le() },
    )
}

/// Relies on `BigInt + BigInt`: the sum.
#[verifier::external_body]
pub(crate) fn int_add(a: &BigSigned, b: &BigSigned) -> (r: BigSigned)
    ensures
        r@ == a@ + b@,
{
    BigSigned { bytes: (BigInt::from_signed_bytes_le(&a.bytes) + BigInt::from_signed_bytes_le(&b.bytes)).to_signed_bytes_le() }
}

/// Relies on `BigInt - BigInt`: the difference.
#[verifier::external_body]
pub(crate) fn int_sub(a: &BigSigned, b: &BigSigned) -> (r: BigSigned)
    ensures
        r@ == a@ - b@,
{
    BigSigned { bytes: (BigInt::from_signed_bytes_le(&a.bytes) - BigInt::from_signed_bytes_le(&b.bytes)).to_signed_bytes_le() }
}

/// Relies on `BigInt * BigInt`: the product.
#[verifier::external_body]
pub(crate) fn int_mul(a: &BigSigned, b: &BigSigned) -> (r: BigSigned)
    ensures
        r@ == a@ * b@,
{
    BigSigned { bytes: (BigInt::from_signed_bytes_le(&a.bytes) * BigInt::from_signed_bytes_le(&b.bytes)).to_signed_bytes_le() }
}

/// Relies on `Integer::mod_floor` for `BigInt`, which panics on a zero
/// modulus: for a positive modulus, the remainder in `[0, m)`.
#[verifier::external_body]
pub(crate) fn int_mod_floor(a: &BigSigned, m: &BigSigned) -> (r: BigSigned)
    requires
        m@ > 0,
    ensures
        r@ == mod_floor(a@, m@),
{
    BigSigned { bytes: BigInt::from_signed_bytes_le(&a.bytes).mod_floor(&BigInt::from_signed_bytes_le(&m.bytes)).to_signed_bytes_le() }
}

} // verus!
