use mod_builtin::air_private_input::PrivateInput;
use mod_builtin::bignum::BigNat;
use mod_builtin::errors::{MathError, MemoryError, RunnerError, SecurityCheckFailure};
use mod_builtin::memory::{MaybeRelocatable, Memory, Relocatable};
use mod_builtin::modulo::{
    apply_op, div_ceil, get_usize, ModBuiltinRunner, ModBuiltinType, ModInstanceDef, Operation,
};
use num_bigint::{BigInt, BigUint};

fn rel(segment_index: isize, offset: usize) -> Relocatable {
    Relocatable { segment_index, offset }
}

fn to_nat(v: &BigUint) -> BigNat {
    BigNat { bytes: v.to_bytes_le() }
}

fn num(b: &BigNat) -> BigUint {
    BigUint::from_bytes_le(&b.bytes)
}

fn big(v: u64) -> BigUint {
    BigUint::from(v)
}

fn p25519() -> BigUint {
    (BigUint::from(1u32) << 255u32) - BigUint::from(19u32)
}

fn def(batch_size: usize) -> ModInstanceDef {
    ModInstanceDef { ratio: Some(1), word_bit_len: 96, batch_size }
}

fn memory(n_segments: usize) -> Memory {
    let mut m = Memory::new();
    for _ in 0..n_segments {
        m.add_segment();
    }
    m
}

fn put_int(m: &mut Memory, s: isize, o: usize, v: &BigUint) {
    m.insert(rel(s, o), MaybeRelocatable::Int(to_nat(v))).unwrap();
}

fn put_rel(m: &mut Memory, s: isize, o: usize, target: Relocatable) {
    m.insert(rel(s, o), MaybeRelocatable::RelocatableValue(target)).unwrap();
}

/// Writes the four 96-bit words of `v` from `(s, o)`.
fn put_value(m: &mut Memory, s: isize, o: usize, v: &BigUint) {
    let shift = BigUint::from(1u32) << 96u32;
    let mut rest = v.clone();
    for i in 0..4 {
        put_int(m, s, o + i, &(&rest % &shift));
        rest = &rest / &shift;
    }
}

fn put_header(
    m: &mut Memory,
    at: Relocatable,
    p: &BigUint,
    values_ptr: Relocatable,
    offsets_ptr: Relocatable,
    n: u64,
) {
    put_value(m, at.segment_index, at.offset, p);
    put_rel(m, at.segment_index, at.offset + 4, values_ptr);
    put_rel(m, at.segment_index, at.offset + 5, offsets_ptr);
    put_int(m, at.segment_index, at.offset + 6, &big(n));
}

fn put_offsets(m: &mut Memory, s: isize, o: usize, offsets: &[u64]) {
    for (i, v) in offsets.iter().enumerate() {
        put_int(m, s, o + i, &big(*v));
    }
}

fn read_value(runner: &ModBuiltinRunner, m: &Memory, at: Relocatable) -> Option<BigUint> {
    let (_, v) = runner.read_n_words_value(m, at).unwrap();
    v.map(|x| num(&x))
}

/// One add_mod instance: a = 10, b = 20, c missing, on segments 0 (builtin),
/// 1 (values) and 2 (offsets).
fn add_setup() -> (Memory, ModBuiltinRunner) {
    let mut m = memory(3);
    put_header(&mut m, rel(0, 0), &p25519(), rel(1, 0), rel(2, 0), 1);
    put_value(&mut m, 1, 0, &big(10));
    put_value(&mut m, 1, 4, &big(20));
    put_offsets(&mut m, 2, 0, &[0, 4, 8]);
    (m, ModBuiltinRunner::new_add_mod(&def(1), true))
}

#[test]
fn pure_add_deduces_c() {
    let (mut m, runner) = add_setup();
    ModBuiltinRunner::fill_memory(&mut m, Some((rel(0, 0), &runner, 1)), None).unwrap();
    assert_eq!(read_value(&runner, &m, rel(1, 8)), Some(big(30)));
    assert!(runner.run_additional_security_checks(&m).is_ok());
}

#[test]
fn pure_mul_deduces_a_by_division() {
    let mut m = memory(3);
    put_header(&mut m, rel(0, 0), &p25519(), rel(1, 0), rel(2, 0), 1);
    put_value(&mut m, 1, 0, &big(3));
    put_value(&mut m, 1, 4, &big(21));
    put_offsets(&mut m, 2, 0, &[8, 0, 4]);
    let runner = ModBuiltinRunner::new_mul_mod(&def(1), true);
    ModBuiltinRunner::fill_memory(&mut m, None, Some((rel(0, 0), &runner, 1))).unwrap();
    assert_eq!(read_value(&runner, &m, rel(1, 8)), Some(big(7)));
    assert!(runner.run_additional_security_checks(&m).is_ok());
}

#[test]
fn add_deduces_b_below_a() {
    // a = 50, c = 20: b = (20 - 50) mod p.
    let mut m = memory(3);
    put_header(&mut m, rel(0, 0), &p25519(), rel(1, 0), rel(2, 0), 1);
    put_value(&mut m, 1, 0, &big(50));
    put_value(&mut m, 1, 4, &big(20));
    put_offsets(&mut m, 2, 0, &[0, 8, 4]);
    let runner = ModBuiltinRunner::new_add_mod(&def(1), true);
    ModBuiltinRunner::fill_memory(&mut m, Some((rel(0, 0), &runner, 1)), None).unwrap();
    assert_eq!(read_value(&runner, &m, rel(1, 8)), Some(p25519() - big(30)));
    assert!(runner.run_additional_security_checks(&m).is_ok());
}

#[test]
fn interleaved_add_and_mul() {
    // Segments: 0 add builtin, 1 mul builtin, 2 values, 3 add offsets, 4 mul offsets.
    let mut m = memory(5);
    let p = p25519();
    put_header(&mut m, rel(0, 0), &p, rel(2, 0), rel(3, 0), 2);
    put_header(&mut m, rel(1, 0), &p, rel(2, 0), rel(4, 0), 2);
    // mul0 = (2, 3, m0) at 0, 4, 8; mul1 = (4, 5, m1) at 12, 16, 20.
    put_value(&mut m, 2, 0, &big(2));
    put_value(&mut m, 2, 4, &big(3));
    put_value(&mut m, 2, 12, &big(4));
    put_value(&mut m, 2, 16, &big(5));
    put_offsets(&mut m, 4, 0, &[0, 4, 8, 12, 16, 20]);
    // add0 = (m0, 1, s0) at 8, 24, 28; add1 = (m1, s0, s1) at 20, 28, 32.
    put_value(&mut m, 2, 24, &big(1));
    put_offsets(&mut m, 3, 0, &[8, 24, 28, 20, 28, 32]);
    let mut add = ModBuiltinRunner::new_add_mod(&def(1), true);
    let mut mul = ModBuiltinRunner::new_mul_mod(&def(1), true);
    add.base = 0;
    mul.base = 1;
    ModBuiltinRunner::fill_memory(&mut m, Some((rel(0, 0), &add, 2)), Some((rel(1, 0), &mul, 2)))
        .unwrap();
    assert_eq!(read_value(&mul, &m, rel(2, 8)), Some(big(6)));
    assert_eq!(read_value(&add, &m, rel(2, 28)), Some(big(7)));
    assert_eq!(read_value(&mul, &m, rel(2, 20)), Some(big(20)));
    assert_eq!(read_value(&add, &m, rel(2, 32)), Some(big(27)));
    assert!(add.run_additional_security_checks(&m).is_ok());
    assert!(mul.run_additional_security_checks(&m).is_ok());
}

#[test]
fn offsets_and_headers_are_padded() {
    let (mut m, runner) = {
        let mut m = memory(3);
        put_header(&mut m, rel(0, 0), &p25519(), rel(1, 0), rel(2, 0), 4);
        put_value(&mut m, 1, 0, &big(10));
        put_value(&mut m, 1, 4, &big(20));
        put_offsets(&mut m, 2, 0, &[0, 4, 8]);
        (m, ModBuiltinRunner::new_add_mod(&def(1), true))
    };
    ModBuiltinRunner::fill_memory(&mut m, Some((rel(0, 0), &runner, 1)), None).unwrap();
    for k in 1..4usize {
        for i in 0..3usize {
            assert_eq!(
                get_usize(&m, rel(2, 3 * k + i)).unwrap(),
                get_usize(&m, rel(2, i)).unwrap()
            );
        }
        let inputs = runner.read_inputs(&m, rel(0, 7 * k)).unwrap();
        assert_eq!(num(&inputs.p), p25519());
        assert_eq!(inputs.values_ptr, rel(1, 0));
        assert_eq!(inputs.offsets_ptr, rel(2, 3 * k));
        assert_eq!(inputs.n, 4 - k);
    }
    assert_eq!(read_value(&runner, &m, rel(1, 8)), Some(big(30)));
    assert!(runner.run_additional_security_checks(&m).is_ok());
}

#[test]
fn tampered_c_fails_the_security_check() {
    let (mut m, runner) = add_setup();
    ModBuiltinRunner::fill_memory(&mut m, Some((rel(0, 0), &runner, 1)), None).unwrap();
    m.data[1][8] = Some(MaybeRelocatable::Int(to_nat(&big(31))));
    match runner.run_additional_security_checks(&m) {
        Err(RunnerError::ModBuiltinSecurityCheck(
            name,
            SecurityCheckFailure::Triple { instance, index_in_batch, .. },
        )) => {
            assert_eq!(name, "add_mod_builtin");
            assert_eq!(instance, 0);
            assert_eq!(index_in_batch, 0);
        }
        other => panic!("unexpected result: {:?}", other),
    }
}

#[test]
fn limb_equal_to_shift_is_rejected() {
    let mut m = memory(2);
    put_int(&mut m, 1, 0, &big(1));
    put_int(&mut m, 1, 1, &(BigUint::from(1u32) << 96u32));
    let runner = ModBuiltinRunner::new_add_mod(&def(1), true);
    match runner.read_n_words_value(&m, rel(1, 0)) {
        Err(RunnerError::WordExceedsModBuiltinWordBitLen(addr, bits, word)) => {
            assert_eq!(addr, rel(1, 1));
            assert_eq!(bits, 96);
            assert_eq!(num(&word), BigUint::from(1u32) << 96u32);
        }
        other => panic!("unexpected result: {:?}", other),
    }
}

#[test]
fn write_then_read_round_trip() {
    let mut m = memory(2);
    let runner = ModBuiltinRunner::new_add_mod(&def(1), true);
    let v = (BigUint::from(1u32) << 300u32) + big(123456789);
    runner.write_n_words_value(&mut m, rel(1, 0), to_nat(&v)).unwrap();
    let (words, value) = runner.read_n_words_value(&m, rel(1, 0)).unwrap();
    assert_eq!(num(&value.unwrap()), v);
    let shift = BigUint::from(1u32) << 96u32;
    assert_eq!(num(&words[0]), big(123456789));
    assert_eq!(num(&words[3]), &v / (&shift * &shift * &shift));
}

#[test]
fn write_of_too_large_value_fails() {
    let mut m = memory(2);
    let runner = ModBuiltinRunner::new_add_mod(&def(1), true);
    let v = BigUint::from(1u32) << 384u32;
    match runner.write_n_words_value(&mut m, rel(1, 0), to_nat(&v)) {
        Err(RunnerError::WriteNWordsValueNotZero(name)) => assert_eq!(name, "add_mod_builtin"),
        other => panic!("unexpected result: {:?}", other),
    }
}

#[test]
fn missing_word_reads_as_none() {
    let mut m = memory(2);
    put_int(&mut m, 1, 0, &big(5));
    put_int(&mut m, 1, 1, &big(6));
    let runner = ModBuiltinRunner::new_add_mod(&def(1), true);
    assert_eq!(read_value(&runner, &m, rel(1, 0)), None);
}

#[test]
fn fill_memory_without_builtins_fails() {
    let mut m = memory(1);
    assert!(matches!(
        ModBuiltinRunner::fill_memory(&mut m, None, None),
        Err(RunnerError::FillMemoryNoBuiltinSet)
    ));
}

#[test]
fn fill_memory_with_mismatched_word_bit_len_fails() {
    let (mut m, add) = add_setup();
    let mul = ModBuiltinRunner::new_mul_mod(
        &ModInstanceDef { ratio: Some(1), word_bit_len: 64, batch_size: 1 },
        true,
    );
    assert!(matches!(
        ModBuiltinRunner::fill_memory(&mut m, Some((rel(0, 0), &add, 1)), Some((rel(0, 0), &mul, 1))),
        Err(RunnerError::ModBuiltinsMismatchedInstanceDef)
    ));
}

#[test]
fn fill_memory_above_the_maximum_fails() {
    let mut m = memory(3);
    put_header(&mut m, rel(0, 0), &p25519(), rel(1, 0), rel(2, 0), 100001);
    let runner = ModBuiltinRunner::new_add_mod(&def(1), true);
    match ModBuiltinRunner::fill_memory(&mut m, Some((rel(0, 0), &runner, 1)), None) {
        Err(RunnerError::FillMemoryMaxExceeded(name, max)) => {
            assert_eq!(name, "add_mod_builtin");
            assert_eq!(max, 100000);
        }
        other => panic!("unexpected result: {:?}", other),
    }
}

#[test]
fn n_not_a_multiple_of_batch_size_fails() {
    let mut m = memory(3);
    put_header(&mut m, rel(0, 0), &p25519(), rel(1, 0), rel(2, 0), 3);
    let runner = ModBuiltinRunner::new_add_mod(&def(2), true);
    assert!(matches!(
        ModBuiltinRunner::fill_memory(&mut m, Some((rel(0, 0), &runner, 1)), None),
        Err(RunnerError::Math(MathError::SafeDivFail(3, 2)))
    ));
}

#[test]
fn n_below_one_fails() {
    let mut m = memory(3);
    put_header(&mut m, rel(0, 0), &p25519(), rel(1, 0), rel(2, 0), 0);
    let runner = ModBuiltinRunner::new_add_mod(&def(1), true);
    match runner.read_inputs(&m, rel(0, 0)) {
        Err(RunnerError::ModBuiltinNLessThanOne(name, n)) => {
            assert_eq!(name, "add_mod_builtin");
            assert_eq!(n, 0);
        }
        other => panic!("unexpected result: {:?}", other),
    }
}

#[test]
fn missing_word_of_p_fails() {
    let mut m = memory(3);
    put_int(&mut m, 0, 0, &big(7));
    put_rel(&mut m, 0, 4, rel(1, 0));
    put_rel(&mut m, 0, 5, rel(2, 0));
    put_int(&mut m, 0, 6, &big(1));
    let runner = ModBuiltinRunner::new_add_mod(&def(1), true);
    match runner.read_inputs(&m, rel(0, 0)) {
        Err(RunnerError::ModBuiltinMissingValue(_, addr)) => assert_eq!(addr, rel(0, 4)),
        other => panic!("unexpected result: {:?}", other),
    }
}

#[test]
fn two_unknowns_cannot_be_filled() {
    let mut m = memory(3);
    put_header(&mut m, rel(0, 0), &p25519(), rel(1, 0), rel(2, 0), 1);
    put_value(&mut m, 1, 0, &big(10));
    put_offsets(&mut m, 2, 0, &[0, 4, 8]);
    let runner = ModBuiltinRunner::new_add_mod(&def(1), true);
    assert!(matches!(
        ModBuiltinRunner::fill_memory(&mut m, Some((rel(0, 0), &runner, 1)), None),
        Err(RunnerError::FillMemoryCoudNotFillTable(0, 0))
    ));
}

#[test]
fn division_by_non_invertible_fails() {
    let mut m = memory(3);
    put_header(&mut m, rel(0, 0), &p25519(), rel(1, 0), rel(2, 0), 1);
    put_value(&mut m, 1, 0, &big(0));
    put_value(&mut m, 1, 4, &big(21));
    put_offsets(&mut m, 2, 0, &[8, 0, 4]);
    let runner = ModBuiltinRunner::new_mul_mod(&def(1), true);
    assert!(matches!(
        ModBuiltinRunner::fill_memory(&mut m, None, Some((rel(0, 0), &runner, 1))),
        Err(RunnerError::Math(MathError::DivModNoSolution(_, _)))
    ));
}

#[test]
fn deducer_reports_two_unknowns() {
    let mut m = memory(3);
    put_header(&mut m, rel(0, 0), &p25519(), rel(1, 0), rel(2, 0), 1);
    put_value(&mut m, 1, 0, &big(10));
    put_offsets(&mut m, 2, 0, &[0, 4, 8]);
    let runner = ModBuiltinRunner::new_add_mod(&def(1), true);
    let inputs = runner.read_inputs(&m, rel(0, 0)).unwrap();
    let filled = runner
        .fill_value(&mut m, &inputs, 0, &Operation::Add, &Operation::Sub)
        .unwrap();
    assert!(!filled);
}

#[test]
fn apply_op_computes_each_operation() {
    let a = to_nat(&big(7));
    let b = to_nat(&big(9));
    let sum = apply_op(&a, &b, &Operation::Add).unwrap();
    assert_eq!(BigInt::from_signed_bytes_le(&sum.bytes), BigInt::from(16));
    let diff = apply_op(&a, &b, &Operation::Sub).unwrap();
    assert_eq!(BigInt::from_signed_bytes_le(&diff.bytes), BigInt::from(-2));
    let prod = apply_op(&a, &b, &Operation::Mul).unwrap();
    assert_eq!(BigInt::from_signed_bytes_le(&prod.bytes), BigInt::from(63));
    let quot = apply_op(&a, &b, &Operation::DivMod(to_nat(&big(11)))).unwrap();
    // 9 * 2 = 18 = 7 (mod 11).
    assert_eq!(BigInt::from_signed_bytes_le(&quot.bytes), BigInt::from(2));
    assert!(matches!(
        apply_op(&a, &b, &Operation::DivMod(to_nat(&big(0)))),
        Err(MathError::DivisionByZero)
    ));
}

#[test]
fn security_check_rejects_wrong_last_n() {
    let mut m = memory(3);
    put_header(&mut m, rel(0, 0), &p25519(), rel(1, 0), rel(2, 0), 2);
    put_value(&mut m, 1, 0, &big(10));
    put_value(&mut m, 1, 4, &big(20));
    put_value(&mut m, 1, 8, &big(30));
    put_offsets(&mut m, 2, 0, &[0, 4, 8]);
    let runner = ModBuiltinRunner::new_add_mod(&def(1), true);
    match runner.run_additional_security_checks(&m) {
        Err(RunnerError::ModBuiltinSecurityCheck(_, SecurityCheckFailure::LastN { prev_n, batch_size })) => {
            assert_eq!(prev_n, 2);
            assert_eq!(batch_size, 1);
        }
        other => panic!("unexpected result: {:?}", other),
    }
}

#[test]
fn security_check_rejects_moved_values_ptr() {
    let mut m = memory(3);
    put_header(&mut m, rel(0, 0), &p25519(), rel(1, 0), rel(2, 0), 2);
    put_header(&mut m, rel(0, 7), &p25519(), rel(1, 4), rel(2, 3), 1);
    put_value(&mut m, 1, 0, &big(10));
    put_value(&mut m, 1, 4, &big(20));
    put_value(&mut m, 1, 8, &big(30));
    put_offsets(&mut m, 2, 0, &[0, 4, 8, 0, 4, 8]);
    let runner = ModBuiltinRunner::new_add_mod(&def(1), true);
    assert!(matches!(
        runner.run_additional_security_checks(&m),
        Err(RunnerError::ModBuiltinSecurityCheck(_, SecurityCheckFailure::ValuesPtr { instance: 1 }))
    ));
}

#[test]
fn runner_shell() {
    let mut m = Memory::new();
    let mut runner = ModBuiltinRunner::new_add_mod(&def(5), true);
    runner.initialize_segments(&mut m);
    assert_eq!(runner.base(), 0);
    assert_eq!(runner.zero_segment_index, 1);
    assert_eq!(m.data[1].len(), 15);
    assert_eq!(runner.batch_size(), 5);
    assert_eq!(runner.ratio(), Some(1));
    assert_eq!(runner.cells_per_instance(), 7);
    assert_eq!(runner.n_input_cells(), 7);
    assert_eq!(runner.name(), "add_mod_builtin");
    assert_eq!(runner.builtin_type, ModBuiltinType::Add);
    let stack = runner.initial_stack();
    assert_eq!(stack.len(), 1);
    assert!(matches!(stack[0], MaybeRelocatable::RelocatableValue(r) if r == rel(0, 0)));
    for i in 0..8usize {
        put_int(&mut m, 0, i, &big(1));
    }
    assert_eq!(runner.get_used_cells(&m).unwrap(), 8);
    assert_eq!(runner.get_used_instances(&m).unwrap(), 2);
    assert_eq!(div_ceil(14, 7), 2);
    assert_eq!(div_ceil(15, 7), 3);
    let mul = ModBuiltinRunner::new_mul_mod(&def(1), false);
    assert_eq!(mul.name(), "mul_mod_builtin");
    assert!(mul.initial_stack().is_empty());
}

#[test]
fn private_input_reads_instances_and_triples() {
    let (mut m, runner) = add_setup();
    ModBuiltinRunner::fill_memory(&mut m, Some((rel(0, 0), &runner, 1)), None).unwrap();
    let inputs = runner.air_private_input(&m);
    assert_eq!(inputs.len(), 1);
    let PrivateInput::Mod(mi) = &inputs[0];
    assert_eq!(mi.instances.len(), 1);
    let inst = &mi.instances[0];
    assert_eq!(inst.index, 0);
    assert_eq!(num(&inst.p_words[0]), p25519() % (BigUint::from(1u32) << 96u32));
    assert_eq!(inst.values_ptr, rel(1, 0));
    assert_eq!(inst.offsets_ptr, rel(2, 0));
    assert_eq!(inst.n, 1);
    assert_eq!(inst.batch.len(), 1);
    let vars = &inst.batch[0];
    assert_eq!((vars.a_offset, vars.b_offset, vars.c_offset), (0, 4, 8));
    assert_eq!(num(&vars.a_words[0]), big(10));
    assert_eq!(num(&vars.b_words[0]), big(20));
    assert_eq!(num(&vars.c_words[0]), big(30));
    assert_eq!(num(&vars.c_words[1]), big(0));
    // Segment 0 is relocated to address 1.
    assert_eq!(mi.zero_value_address, 1);
}

#[test]
fn private_input_relocates_the_zero_segment() {
    let mut m = Memory::new();
    let mut runner = ModBuiltinRunner::new_mul_mod(&def(2), false);
    runner.initialize_segments(&mut m);
    for i in 0..3usize {
        put_int(&mut m, 0, i, &big(1));
    }
    let inputs = runner.air_private_input(&m);
    let PrivateInput::Mod(mi) = &inputs[0];
    assert!(mi.instances.is_empty());
    // Segment 0 holds 3 cells from address 1, so the zero segment starts at 4.
    assert_eq!(mi.zero_value_address, 4);
}

#[test]
fn deducer_fills_a_single_missing_value_at_once() {
    let (mut m, runner) = add_setup();
    let inputs = runner.read_inputs(&m, rel(0, 0)).unwrap();
    let filled = runner
        .fill_value(&mut m, &inputs, 0, &Operation::Add, &Operation::Sub)
        .unwrap();
    assert!(filled);
    assert_eq!(read_value(&runner, &m, rel(1, 8)), Some(big(30)));
    let (a, b, c) = runner.read_memory_vars(&m, rel(1, 0), rel(2, 0), 0).unwrap();
    assert_eq!((num(&a), num(&b), num(&c)), (big(10), big(20), big(30)));
}

#[test]
fn deducer_divides_modulo_p() {
    // b missing with a = 5, c = 1 (mod 7): b = 3, since 5 * 3 = 15 = 1 (mod 7).
    let mut m = memory(3);
    put_header(&mut m, rel(0, 0), &big(7), rel(1, 0), rel(2, 0), 1);
    put_value(&mut m, 1, 0, &big(5));
    put_value(&mut m, 1, 4, &big(1));
    put_offsets(&mut m, 2, 0, &[0, 8, 4]);
    let runner = ModBuiltinRunner::new_mul_mod(&def(1), true);
    let inputs = runner.read_inputs(&m, rel(0, 0)).unwrap();
    let filled = runner
        .fill_value(&mut m, &inputs, 0, &Operation::Mul, &Operation::DivMod(to_nat(&big(7))))
        .unwrap();
    assert!(filled);
    assert_eq!(read_value(&runner, &m, rel(1, 8)), Some(big(3)));
}

#[test]
fn written_cell_cannot_change() {
    let mut m = memory(1);
    put_int(&mut m, 0, 0, &big(1));
    assert!(m.insert(rel(0, 0), MaybeRelocatable::Int(to_nat(&big(1)))).is_ok());
    assert!(m.insert(rel(0, 0), MaybeRelocatable::Int(to_nat(&big(2)))).is_err());
    assert!(m.insert(rel(5, 0), MaybeRelocatable::Int(to_nat(&big(2)))).is_err());
}

#[test]
fn operation_symbols() {
    assert_eq!(Operation::Mul.symbol(), "*");
    assert_eq!(Operation::Add.symbol(), "+");
    assert_eq!(Operation::Sub.symbol(), "-");
    assert_eq!(Operation::DivMod(to_nat(&big(7))).symbol(), "/");
}

#[test]
fn division_with_common_factor_is_solved() {
    // gcd(2, 6) = 2 divides 4: some x below 6 has 2 * x = 4 (mod 6).
    let q = apply_op(&to_nat(&big(4)), &to_nat(&big(2)), &Operation::DivMod(to_nat(&big(6)))).unwrap();
    let x = BigInt::from_signed_bytes_le(&q.bytes);
    assert!(x >= BigInt::from(0) && x < BigInt::from(6));
    assert_eq!((x * 2) % 6, BigInt::from(4));
    // gcd(2, 6) = 2 does not divide 3.
    assert!(matches!(
        apply_op(&to_nat(&big(3)), &to_nat(&big(2)), &Operation::DivMod(to_nat(&big(6)))),
        Err(MathError::DivModNoSolution(_, _))
    ));
}

#[test]
fn mul_deduces_a_with_non_invertible_b() {
    // p = 6, b = 2, c = 4: a = 2 (or 5) completes the triple.
    let mut m = memory(3);
    put_header(&mut m, rel(0, 0), &big(6), rel(1, 0), rel(2, 0), 1);
    put_value(&mut m, 1, 0, &big(2));
    put_value(&mut m, 1, 4, &big(4));
    put_offsets(&mut m, 2, 0, &[8, 0, 4]);
    let runner = ModBuiltinRunner::new_mul_mod(&def(1), true);
    ModBuiltinRunner::fill_memory(&mut m, None, Some((rel(0, 0), &runner, 1))).unwrap();
    let a = read_value(&runner, &m, rel(1, 8)).unwrap();
    assert!(a < big(6));
    assert_eq!((a * big(2)) % big(6), big(4));
    assert!(runner.run_additional_security_checks(&m).is_ok());
}

#[test]
fn missing_word_pads_with_zero() {
    let mut m = memory(2);
    put_int(&mut m, 1, 0, &big(5));
    let runner = ModBuiltinRunner::new_add_mod(&def(1), true);
    let (words, value) = runner.read_n_words_value(&m, rel(1, 0)).unwrap();
    assert!(value.is_none());
    assert_eq!(words.len(), 4);
    assert_eq!(num(&words[0]), big(5));
    assert_eq!(num(&words[3]), big(0));
}

#[test]
fn security_check_without_segment_fails() {
    let m = memory(0);
    let runner = ModBuiltinRunner::new_add_mod(&def(1), true);
    assert!(matches!(
        runner.run_additional_security_checks(&m),
        Err(RunnerError::Memory(MemoryError::MissingSegmentUsedSizes))
    ));
}

#[test]
fn written_words_are_marked_accessed() {
    let mut m = memory(2);
    let runner = ModBuiltinRunner::new_add_mod(&def(1), true);
    runner.write_n_words_value(&mut m, rel(1, 0), to_nat(&big(9))).unwrap();
    for i in 0..4usize {
        assert!(m.accessed.contains(&rel(1, i)));
    }
}
