use mod_builtin::bignum::{BigNat, BigSigned};
use mod_builtin::ec_utils::{
    compute_doubling_slope, compute_slope, ec_double_assign_new_x, ec_double_assign_new_y,
    ec_mul_inner, ec_negate, fast_ec_add_assign_new_x, fast_ec_add_assign_new_y, pack,
    secp_p_value,
};
use num_bigint::{BigInt, BigUint};

fn dec(s: &str) -> BigUint {
    BigUint::parse_bytes(s.as_bytes(), 10).unwrap()
}

fn to_nat(v: &BigUint) -> BigNat {
    BigNat { bytes: v.to_bytes_le() }
}

fn num(b: &BigNat) -> BigUint {
    BigUint::from_bytes_le(&b.bytes)
}

fn signed(v: &BigUint) -> BigSigned {
    BigSigned { bytes: BigInt::from(v.clone()).to_signed_bytes_le() }
}

fn int_of(b: &BigSigned) -> BigInt {
    BigInt::from_signed_bytes_le(&b.bytes)
}

/// The prime of the Cairo field.
fn cairo_prime() -> BigUint {
    (BigUint::from(1u32) << 251) + (BigUint::from(17u32) << 192) + BigUint::from(1u32)
}

fn packed(d0: u128, d1: u128, d2: u128) -> BigSigned {
    let p = to_nat(&cairo_prime());
    pack(
        &to_nat(&BigUint::from(d0)),
        &to_nat(&BigUint::from(d1)),
        &to_nat(&BigUint::from(d2)),
        &p,
    )
}

#[test]
fn run_ec_negate_ok() {
    let y = packed(2645, 454, 206);
    let value = ec_negate(&y);
    assert_eq!(
        num(&value),
        dec("115792089237316195423569751828682367333329274433232027476421668138471189901786")
    );
}

#[test]
fn run_compute_doubling_slope_ok() {
    let x = packed(614323, 5456867, 101208);
    let y = packed(773712524, 77371252, 5298795);
    let value = compute_doubling_slope(&x, &y).unwrap();
    assert_eq!(
        num(&value),
        dec("40442433062102151071094722250325492738932110061897694430475034100717288403728")
    );
}

#[test]
fn run_compute_slope_ok() {
    let x0 = packed(134, 5123, 140);
    let y0 = packed(1232, 4652, 720);
    let x1 = packed(156, 6545, 100010);
    let y1 = packed(1123, 1325, 910);
    let value = compute_slope(&x0, &y0, &x1, &y1).unwrap();
    assert_eq!(
        num(&value),
        dec("41419765295989780131385135514529906223027172305400087935755859001910844026631")
    );
}

#[test]
fn run_ec_double_assign_new_x_ok() {
    let x = packed(134, 5123, 140);
    let y = packed(1232, 4652, 720);
    let slope = packed(
        44186171158942157784255469,
        54173758974262696047492534,
        8106299688661572814170174,
    );
    assert_eq!(
        int_of(&slope),
        BigInt::from(dec(
            "48526828616392201132917323266456307435009781900148206102108934970258721901549"
        ))
    );
    assert_eq!(
        int_of(&x),
        BigInt::from(dec("838083498911032969414721426845751663479194726707495046"))
    );
    assert_eq!(
        int_of(&y),
        BigInt::from(dec("4310143708685312414132851373791311001152018708061750480"))
    );
    let value = ec_double_assign_new_x(&slope, &x);
    assert_eq!(
        num(&value),
        dec("59479631769792988345961122678598249997181612138456851058217178025444564264149")
    );
}

#[test]
fn run_ec_double_assign_new_y_ok() {
    let slope =
        signed(&dec("48526828616392201132917323266456307435009781900148206102108934970258721901549"));
    let x = signed(&dec("838083498911032969414721426845751663479194726707495046"));
    let new_x =
        signed(&dec("59479631769792988345961122678598249997181612138456851058217178025444564264149"));
    let y = signed(&dec("4310143708685312414132851373791311001152018708061750480"));
    let value = ec_double_assign_new_y(&slope, &x, &new_x, &y);
    assert_eq!(
        num(&value),
        dec("7948634220683381957329555864604318996476649323793038777651086572350147290350")
    );
}

#[test]
fn run_fast_ec_add_assign_new_x_ok() {
    let x0 = packed(89712, 56, 1233409);
    let x1 = packed(1235216451, 5967, 2171381);
    let slope = packed(
        67470097831679799377177424,
        43370026683122492246392730,
        16032182557092050689870202,
    );
    let value = fast_ec_add_assign_new_x(&slope, &x0, &x1);
    assert_eq!(
        num(&value),
        dec("8891838197222656627233627110766426698842623939023296165598688719819499152657")
    );
}

#[test]
fn run_fast_ec_add_assign_new_y_ok() {
    let slope =
        signed(&dec("48526828616392201132917323266456307435009781900148206102108934970258721901549"));
    let x0 = signed(&dec("838083498911032969414721426845751663479194726707495046"));
    let new_x =
        signed(&dec("59479631769792988345961122678598249997181612138456851058217178025444564264149"));
    let y0 = signed(&dec("4310143708685312414132851373791311001152018708061750480"));
    let value = fast_ec_add_assign_new_y(&slope, &x0, &new_x, &y0);
    assert_eq!(
        num(&value),
        dec("7948634220683381957329555864604318996476649323793038777651086572350147290350")
    );
}

#[test]
fn run_ec_mul_inner_ok() {
    let scalar = signed(&(BigUint::from(89712u32) + cairo_prime()));
    let value = ec_mul_inner(&scalar, &to_nat(&cairo_prime()));
    assert_eq!(num(&value), BigUint::from(0u32));
}

#[test]
fn ec_mul_inner_odd_scalar() {
    let scalar = signed(&BigUint::from(89713u32));
    let value = ec_mul_inner(&scalar, &to_nat(&cairo_prime()));
    assert_eq!(num(&value), BigUint::from(1u32));
}

#[test]
fn secp_prime_value() {
    let expected = (BigUint::from(1u32) << 256) - (BigUint::from(1u32) << 32) - BigUint::from(977u32);
    assert_eq!(num(&secp_p_value()), expected);
}

#[test]
fn pack_reads_high_limbs_as_negative() {
    let p = cairo_prime();
    let minus_one = &p - BigUint::from(1u32);
    let r = pack(
        &to_nat(&minus_one),
        &to_nat(&BigUint::from(0u32)),
        &to_nat(&BigUint::from(0u32)),
        &to_nat(&p),
    );
    assert_eq!(int_of(&r), BigInt::from(-1));
}

#[test]
fn ec_negate_of_zero_is_zero() {
    let y = packed(0, 0, 0);
    assert_eq!(num(&ec_negate(&y)), BigUint::from(0u32));
}

#[test]
fn doubling_slope_needs_nonzero_y() {
    let x = packed(5, 0, 0);
    let y = packed(0, 0, 0);
    assert!(compute_doubling_slope(&x, &y).is_err());
}

#[test]
fn slope_of_small_points() {
    // (y0 - y1) / (x0 - x1) = (9 - 3) / (5 - 2) = 2.
    let x0 = packed(5, 0, 0);
    let y0 = packed(9, 0, 0);
    let x1 = packed(2, 0, 0);
    let y1 = packed(3, 0, 0);
    let value = compute_slope(&x0, &y0, &x1, &y1).unwrap();
    assert_eq!(num(&value), BigUint::from(2u32));
}
