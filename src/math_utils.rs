//! Modular division and the facts of modular arithmetic that the builtin
//! and the secp hints rely on.
use crate::bignum::{
    int_extended_gcd, int_mod_floor, int_mul, nat_div_mod_floor, nat_eq, nat_from_u64, BigNat,
};
use crate::errors::MathError;
use vstd::arithmetic::div_mod::{
    lemma_fundamental_div_mod, lemma_mod_bound, lemma_mod_multiples_basic,
    lemma_mod_multiples_vanish, lemma_mul_mod_noop_left,
};
use vstd::prelude::*;

verus! {

/// `x * m == n (mod p)`: `x` is a quotient of `n` by `m` modulo `p`.
pub open spec fn is_quotient_mod(x: nat, n: nat, m: nat, p: nat) -> bool {
    (x * m) % p == n % p
}

/// Some `x` in `[0, p)` is a quotient of `n` by `m` modulo `p`.
pub open spec fn quotient_exists(n: nat, m: nat, p: nat) -> bool {
    exists|x: nat| x < p && #[trigger] is_quotient_mod(x, n, m, p)
}

/// With `g = m * s + p * t` and `n = q * g`, `(q * s) mod p` is a quotient
/// of `n` by `m` modulo `p`.
proof fn lemma_quotient_from_bezout(n: nat, m: nat, p: nat, g: int, s: int, t: int, q: int)
    requires
        p > 0,
        g == m * s + p * t,
        n == q * g,
    ensures
        (q * s) % (p as int) >= 0,
        is_quotient_mod(((q * s) % (p as int)) as nat, n, m, p),
{
    let x = (q * s) % (p as int);
    lemma_mod_bound(q * s, p as int);
    lemma_mul_mod_noop_left(q * s, m as int, p as int);
    assert(q * s * m == n + p * (-(q * t))) by (nonlinear_arith)
        requires
            g == m * s + p * t,
            n == q * g,
    ;
    lemma_mod_multiples_vanish(-(q * t), n as int, p as int);
}

/// When a common divisor `g` of `m` and `p` does not divide `n`, no `x`
/// is a quotient of `n` by `m` modulo `p`.
proof fn lemma_no_quotient(n: nat, m: nat, p: nat, g: int)
    requires
        p > 0,
        g > 0,
        (m as int) % g == 0,
        (p as int) % g == 0,
        (n as int) % g != 0,
    ensures
        !quotient_exists(n, m, p),
{
    let (ni, mi, pi) = (n as int, m as int, p as int);
    assert forall|x: nat| x < p implies !#[trigger] is_quotient_mod(x, n, m, p) by {
        if is_quotient_mod(x, n, m, p) {
            let xm = (x * m) as int;
            lemma_fundamental_div_mod(xm, pi);
            lemma_fundamental_div_mod(ni, pi);
            lemma_fundamental_div_mod(mi, g);
            lemma_fundamental_div_mod(pi, g);
            let (m1, p1) = (mi / g, pi / g);
            let j = xm / pi - ni / pi;
            let k = x * m1 - p1 * j;
            assert(ni == g * k) by (nonlinear_arith)
                requires
                    xm == x * mi,
                    xm == pi * (xm / pi) + xm % pi,
                    ni == pi * (ni / pi) + ni % pi,
                    xm % pi == ni % pi,
                    mi == g * m1 + mi % g,
                    pi == g * p1 + pi % g,
                    mi % g == 0,
                    pi % g == 0,
                    j == xm / pi - ni / pi,
                    k == x * m1 - p1 * j,
            ;
            assert(k * g == g * k) by (nonlinear_arith);
            lemma_mod_multiples_basic(k, g);
        }
    }
}

/// Some `x` in `[0, p)` with `x * m == n (mod p)`; it exists exactly when
/// the gcd of `m` and `p` divides `n`.
pub fn div_mod_unsigned(n: &BigNat, m: &BigNat, p: &BigNat) -> (r: Result<BigNat, MathError>)
    ensures
        p@ == 0 ==> r matches Err(MathError::DivisionByZero),
        p@ > 0 ==> (r is Ok <==> quotient_exists(n@, m@, p@)),
        p@ > 0 && !quotient_exists(n@, m@, p@) ==> (r matches Err(MathError::DivModNoSolution(_, _))),
        r matches Ok(x) ==> x@ < p@ && is_quotient_mod(x@, n@, m@, p@),
{
    let zero = nat_from_u64(0);
    if nat_eq(p, &zero) {
        return Err(MathError::DivisionByZero);
    }
    let ps = p.to_signed();
    let (g, s, t) = int_extended_gcd(&m.to_signed(), &ps);
    let gn = g.to_nat();
    let (q, rest) = nat_div_mod_floor(n, &gn);
    if !nat_eq(&rest, &zero) {
        proof {
            lemma_no_quotient(n@, m@, p@, g@);
        }
        return Err(MathError::DivModNoSolution(m.clone(), p.clone()));
    }
    let x = int_mod_floor(&int_mul(&q.to_signed(), &s), &ps);
    proof {
        lemma_fundamental_div_mod(n@ as int, g@);
        lemma_quotient_from_bezout(n@, m@, p@, g@, s@, t@, q@ as int);
        lemma_mod_bound(q@ * s@, p@ as int);
    }
    Ok(x.to_nat())
}

} // verus!
