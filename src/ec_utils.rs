//! The arithmetic of the secp256k1 hints: point negation, slopes and the
//! coordinates of doubled and added points, all modulo `SECP_P`.
use crate::bignum::{
    int_add, int_mod_floor, int_mul, int_sub, nat_div_mod_floor, nat_from_u64, nat_lt, nat_pow, nat_sub,
    BigNat, BigSigned,
};
use crate::errors::MathError;
use crate::math_utils::{div_mod_unsigned, is_quotient_mod, quotient_exists};
use vstd::arithmetic::div_mod::lemma_mul_mod_noop_right;
use vstd::arithmetic::power::pow;
use vstd::arithmetic::power2::{pow2, lemma2_to64, lemma2_to64_rest, lemma_pow2, lemma_pow2_strictly_increases};
use vstd::prelude::*;

verus! {

/// `2^256 - 2^32 - 977`, the prime of secp256k1.
pub open spec fn secp_p() -> nat {
    (pow(2, 256) - pow(2, 32) - 977) as nat
}

proof fn lemma_secp_p_positive()
    ensures
        secp_p() > 0,
        pow(2, 256) > pow(2, 32) + 977,
        pow(2, 32) == 4294967296,
{
    lemma2_to64();
    lemma2_to64_rest();
    lemma_pow2(32);
    lemma_pow2(33);
    lemma_pow2(256);
    lemma_pow2_strictly_increases(33, 256);
    assert(pow2(32) == 4294967296);
    assert(pow2(33) == 8589934592);
    assert(pow(2, 256) > 8589934592);
}

/// The prime of secp256k1.
pub fn secp_p_value() -> (r: BigNat)
    ensures
        r@ == secp_p(),
        r@ > 0,
{
    proof {
        lemma_secp_p_positive();
    }
    let two = nat_from_u64(2);
    let high = nat_pow(&two, 256);
    let low = nat_from_u64(4294968273);
    nat_sub(&high, &low)
}

/// `v mod p` for a positive `p`.
fn mod_p(v: &BigSigned, p: &BigNat) -> (r: BigNat)
    requires
        p@ > 0,
    ensures
        r@ == v@ % (p@ as int),
        r@ < p@,
{
    let m = int_mod_floor(v, &p.to_signed());
    proof {
        vstd::arithmetic::div_mod::lemma_mod_bound(v@, p@ as int);
    }
    m.to_nat()
}

/// Some `x` in `[0, p)` with `x * m == n (mod p)`, when one exists.
pub fn div_mod(n: &BigSigned, m: &BigSigned, p: &BigNat) -> (r: Result<BigNat, MathError>)
    requires
        p@ > 0,
    ensures
        r is Ok <==> quotient_exists((n@ % (p@ as int)) as nat, (m@ % (p@ as int)) as nat, p@),
        r matches Ok(x) ==> x@ < p@ && (x@ * m@) % (p@ as int) == n@ % (p@ as int),
{
    let n_red = mod_p(n, p);
    let m_red = mod_p(m, p);
    let r = div_mod_unsigned(&n_red, &m_red, p);
    proof {
        if r is Ok {
            let x = r->Ok_0@;
            assert(is_quotient_mod(x, n_red@, m_red@, p@));
            lemma_mul_mod_noop_right(x as int, m@, p@ as int);
            vstd::arithmetic::div_mod::lemma_mod_twice(n@, p@ as int);
        }
    }
    r
}

/// A field element as a signed integer: itself below `prime / 2`, else
/// itself minus `prime`.
pub open spec fn as_int_spec(v: nat, prime: nat) -> int {
    if v < prime / 2 {
        v as int
    } else {
        v - prime
    }
}

/// The integer of three limbs of 86 bits, each read as a signed field
/// element.
pub open spec fn pack_spec(d0: nat, d1: nat, d2: nat, prime: nat) -> int {
    as_int_spec(d0, prime) + as_int_spec(d1, prime) * pow(2, 86) + as_int_spec(d2, prime) * pow(
        2,
        172,
    )
}

/// `v` as a signed integer relative to `prime`.
pub fn as_int(v: &BigNat, prime: &BigNat) -> (r: BigSigned)
    ensures
        r@ == as_int_spec(v@, prime@),
{
    let two = nat_from_u64(2);
    let (half, _) = nat_div_mod_floor(prime, &two);
    if nat_lt(v, &half) {
        v.to_signed()
    } else {
        int_sub(&v.to_signed(), &prime.to_signed())
    }
}

/// Packs three limbs of 86 bits into one integer, each limb read as a
/// signed field element modulo `prime`.
pub fn pack(d0: &BigNat, d1: &BigNat, d2: &BigNat, prime: &BigNat) -> (r: BigSigned)
    ensures
        r@ == pack_spec(d0@, d1@, d2@, prime@),
{
    let two = nat_from_u64(2);
    let b1 = nat_pow(&two, 86).to_signed();
    let b2 = nat_pow(&two, 172).to_signed();
    let low = as_int(d0, prime);
    let mid = int_mul(&as_int(d1, prime), &b1);
    let high = int_mul(&as_int(d2, prime), &b2);
    int_add(&int_add(&low, &mid), &high)
}

/// `(-y) mod SECP_P`.
pub fn ec_negate(y: &BigSigned) -> (r: BigNat)
    ensures
        r@ == (-y@) % (secp_p() as int),
{
    let p = secp_p_value();
    let zero = BigSigned { bytes: Vec::new() };
    assert(zero@ == 0);
    mod_p(&int_sub(&zero, y), &p)
}

/// The slope of the tangent at `(x, y)` on `y^2 = x^3 + 7`:
/// `3 * x^2 / (2 * y) mod SECP_P`.
pub fn compute_doubling_slope(x: &BigSigned, y: &BigSigned) -> (r: Result<BigNat, MathError>)
    ensures
        r is Ok <==> quotient_exists(
            ((3 * x@ * x@) % (secp_p() as int)) as nat,
            ((2 * y@) % (secp_p() as int)) as nat,
            secp_p(),
        ),
        r matches Ok(s) ==> s@ < secp_p() && (s@ * (2 * y@)) % (secp_p() as int) == (3 * x@ * x@)
            % (secp_p() as int),
{
    let p = secp_p_value();
    let three = nat_from_u64(3).to_signed();
    let two = nat_from_u64(2).to_signed();
    let num = int_mul(&int_mul(&three, x), x);
    let den = int_mul(&two, y);
    div_mod(&num, &den, &p)
}

/// The slope of the line through `(x0, y0)` and `(x1, y1)`:
/// `(y0 - y1) / (x0 - x1) mod SECP_P`.
pub fn compute_slope(x0: &BigSigned, y0: &BigSigned, x1: &BigSigned, y1: &BigSigned) -> (r: Result<
    BigNat,
    MathError,
>)
    ensures
        r is Ok <==> quotient_exists(
            ((y0@ - y1@) % (secp_p() as int)) as nat,
            ((x0@ - x1@) % (secp_p() as int)) as nat,
            secp_p(),
        ),
        r matches Ok(s) ==> s@ < secp_p() && (s@ * (x0@ - x1@)) % (secp_p() as int) == (y0@ - y1@)
            % (secp_p() as int),
{
    let p = secp_p_value();
    div_mod(&int_sub(y0, y1), &int_sub(x0, x1), &p)
}

/// The x coordinate of the doubled point: `(slope^2 - 2 * x) mod SECP_P`.
pub fn ec_double_assign_new_x(slope: &BigSigned, x: &BigSigned) -> (r: BigNat)
    ensures
        r@ == (slope@ * slope@ - 2 * x@) % (secp_p() as int),
{
    let p = secp_p_value();
    let square = int_mul(slope, slope);
    mod_p(&int_sub(&square, &int_add(x, x)), &p)
}

/// The y coordinate of the doubled point:
/// `(slope * (x - new_x) - y) mod SECP_P`.
pub fn ec_double_assign_new_y(slope: &BigSigned, x: &BigSigned, new_x: &BigSigned, y: &BigSigned) -> (r:
    BigNat)
    ensures
        r@ == (slope@ * (x@ - new_x@) - y@) % (secp_p() as int),
{
    let p = secp_p_value();
    mod_p(&int_sub(&int_mul(slope, &int_sub(x, new_x)), y), &p)
}

/// The x coordinate of the sum of two points:
/// `(slope^2 mod SECP_P - x0 - x1) mod SECP_P`.
pub fn fast_ec_add_assign_new_x(slope: &BigSigned, x0: &BigSigned, x1: &BigSigned) -> (r: BigNat)
    ensures
        r@ == ((slope@ * slope@) % (secp_p() as int) - x0@ - x1@) % (secp_p() as int),
{
    let p = secp_p_value();
    let square = mod_p(&int_mul(slope, slope), &p).to_signed();
    mod_p(&int_sub(&int_sub(&square, x0), x1), &p)
}

/// The y coordinate of the sum of two points:
/// `(slope * (x0 - new_x) - y0) mod SECP_P`.
pub fn fast_ec_add_assign_new_y(slope: &BigSigned, x0: &BigSigned, new_x: &BigSigned, y0: &BigSigned) -> (r:
    BigNat)
    ensures
        r@ == (slope@ * (x0@ - new_x@) - y0@) % (secp_p() as int),
{
    let p = secp_p_value();
    mod_p(&int_sub(&int_mul(slope, &int_sub(x0, new_x)), y0), &p)
}

/// The parity of `scalar mod prime`.
pub fn ec_mul_inner(scalar: &BigSigned, prime: &BigNat) -> (r: BigNat)
    requires
        prime@ > 0,
    ensures
        r@ == (scalar@ % (prime@ as int)) % 2,
{
    let reduced = mod_p(scalar, prime).to_signed();
    mod_p(&reduced, &nat_from_u64(2))
}

} // verus!
