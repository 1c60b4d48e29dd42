//! The `add_mod` and `mul_mod` builtin runners: the codec of multi-word
//! values, the reading of instance headers and triples, the deduction of
//! missing operands, the fill of all instances and the security checks.
use crate::bignum::{
    int_add, int_mod_floor, int_mul, int_sub, nat_add, nat_div_mod_floor, nat_eq, nat_from_u64,
    nat_lt, nat_mul, nat_pow, nat_to_usize, BigNat, BigSigned,
};
use crate::errors::{MathError, MemoryError, RunnerError, SecurityCheckFailure};
use crate::math_utils::{div_mod_unsigned, is_quotient_mod, quotient_exists};
use crate::memory::{CellVal, MaybeRelocatable, Memory, Relocatable};
use crate::model::{
    ceil_div, completes, first_non_word, first_non_word_from, header_cells, header_n, header_ok,
    header_ptrs_ok, in_words, inputs_apart, inputs_at, inputs_chained, inputs_sound,
    inputs_triple_ok, instance_addr, instance_ok, is_word, kind_of, lemma_chained,
    lemma_codec_round_trip, lemma_div_basics_ge, lemma_extends_stored,
    lemma_header_cells_extends, lemma_header_some, lemma_inverse_holds,
    lemma_operand_addr_extends, lemma_operand_value_extends, lemma_side_prepared_extends,
    lemma_sound_setup, lemma_triple_ok_inputs, limb, offsets_paddable, headers_fillable,
    headers_open, implied_header_cell, lemma_headers_open_step, rel_at, deducible,
    inputs_deducible, lemma_deducible_reads, lemma_deducible_step, prepare_ok, ready_side,
    layouts_apart, lemma_prepare_ok_untouched, lemma_deducible_untouched, header_p,
    builtin_name, in_headers, in_padding, operand_missing, not_stuck, stuck_at,
    first_wrong_triple, lemma_ok_instance_not_wrong, chained, values_settled, sound_state,
    lemma_sound_state_init, lemma_sound_state_open, lemma_sound_state_step, missing_index,
    n_missing, op_holds, operand_addr, operand_readable, operand_value, ops_match, read_result,
    security_ok, side_filled, side_prepared, sides_apart, solvable, sound_side, triple_ok,
    triples_filled, triples_hold, usize_at, word_of, words_value, words_written, writable,
};
use vstd::arithmetic::div_mod::lemma_div_denominator;
use vstd::arithmetic::power::{lemma_pow_positive, pow};
use vstd::prelude::*;

verus! {

/// The largest `n` that `fill_memory` accepts.
pub const FILL_MEMORY_MAX: usize = 100000;

/// Cells in the header of one instance.
pub const INPUT_CELLS: usize = 7;

/// Words of a value; each is below `2^word_bit_len`.
pub const N_WORDS: usize = 4;

pub const VALUES_PTR_OFFSET: usize = 4;

pub const OFFSETS_PTR_OFFSET: usize = 5;

pub const N_OFFSET: usize = 6;

/// Which of the two builtins a runner is.
#[derive(Clone, Copy, Debug, PartialEq, Eq, Structural)]
pub enum ModBuiltinType {
    Mul,
    Add,
}

/// The layout parameters of a builtin.
#[derive(Clone, Copy, Debug, PartialEq, Eq, Structural)]
pub struct ModInstanceDef {
    pub ratio: Option<u32>,
    pub word_bit_len: u32,
    pub batch_size: usize,
}

/// An operation on the values of a triple.
#[derive(Debug)]
pub enum Operation {
    Mul,
    Add,
    Sub,
    /// Division modulo the given number.
    DivMod(BigNat),
}

impl Operation {
    /// The operator's symbol, as diagnostics print it.
    pub fn symbol(&self) -> (r: &'static str)
        ensures
            self is Mul ==> r == "*",
            self is Add ==> r == "+",
            self is Sub ==> r == "-",
            self is DivMod ==> r == "/",
    {
        match self {
            Operation::Mul => "*",
            Operation::Add => "+",
            Operation::Sub => "-",
            Operation::DivMod(_) => "/",
        }
    }
}

/// The header of one instance.
#[derive(Debug)]
pub struct Inputs {
    pub p: BigNat,
    pub p_values: Vec<BigNat>,
    pub values_ptr: Relocatable,
    pub offsets_ptr: Relocatable,
    pub n: usize,
}

/// A runner of the `add_mod` or the `mul_mod` builtin.
#[derive(Debug)]
pub struct ModBuiltinRunner {
    pub builtin_type: ModBuiltinType,
    pub base: usize,
    pub stop_ptr: Option<usize>,
    pub instance_def: ModInstanceDef,
    pub included: bool,
    pub zero_segment_index: usize,
    pub zero_segment_size: usize,
    /// `2^word_bit_len`.
    pub shift: BigNat,
    /// `shift^i` for each word `i`.
    pub shift_powers: Vec<BigNat>,
}
/// Reads the integer at `a` as a `usize`.
pub fn get_usize(memory: &Memory, a: Relocatable) -> (r: Result<usize, RunnerError>)
    ensures
        not_stuck(r),
        r is Ok <==> usize_at(*memory, a) is Some,
        r matches Ok(n) ==> usize_at(*memory, a) == Some(n),
{
    match memory.get_integer(a) {
        Ok(x) => match nat_to_usize(&x) {
            Some(n) => Ok(n),
            None => Err(RunnerError::Math(MathError::BigNatToUsizeConversion(x))),
        },
        Err(e) => Err(RunnerError::Memory(e)),
    }
}

/// `lhs op rhs`.
pub fn apply_op(lhs: &BigNat, rhs: &BigNat, op: &Operation) -> (r: Result<BigSigned, MathError>)
    ensures
        op is Add ==> (r matches Ok(x) && x@ == lhs@ + rhs@),
        op is Sub ==> (r matches Ok(x) && x@ == lhs@ - rhs@),
        op is Mul ==> (r matches Ok(x) && x@ == lhs@ * rhs@),
        op is DivMod ==> {
            let p = op->DivMod_0@;
            &&& p == 0 ==> (r matches Err(MathError::DivisionByZero))
            &&& p > 0 ==> (r is Ok <==> quotient_exists(lhs@, rhs@, p))
            &&& p > 0 && !quotient_exists(lhs@, rhs@, p) ==> (r matches Err(
                MathError::DivModNoSolution(_, _),
            ))
            &&& r matches Ok(x) ==> 0 <= x@ < p && is_quotient_mod(x@ as nat, lhs@, rhs@, p)
        },
{
    match op {
        Operation::Mul => Ok(int_mul(&lhs.to_signed(), &rhs.to_signed())),
        Operation::Add => Ok(int_add(&lhs.to_signed(), &rhs.to_signed())),
        Operation::Sub => Ok(int_sub(&lhs.to_signed(), &rhs.to_signed())),
        Operation::DivMod(p) => match div_mod_unsigned(lhs, rhs, p) {
            Ok(x) => Ok(x.to_signed()),
            Err(e) => Err(e),
        },
    }
}

/// `v mod p`, in `[0, p)`.
fn reduce(v: &BigSigned, p: &BigNat) -> (r: Result<BigNat, RunnerError>)
    ensures
        not_stuck(r),
        p@ == 0 ==> r matches Err(RunnerError::Math(MathError::DivisionByZero)),
        p@ > 0 ==> (r matches Ok(x) && x@ == v@ % (p@ as int)),
{
    let zero = nat_from_u64(0);
    if nat_eq(p, &zero) {
        return Err(RunnerError::Math(MathError::DivisionByZero));
    }
    let m = int_mod_floor(v, &p.to_signed());
    Ok(m.to_nat())
}

/// Writes `v` at `a`, which must be empty or already hold it.
fn insert_cell(memory: &mut Memory, a: Relocatable, v: MaybeRelocatable) -> (r: Result<(), RunnerError>)
    ensures
        not_stuck(r),
        r is Ok ==> Memory::extends(*old(memory), *final(memory)) && final(memory).value_at(a)
            == Some(v.val()),
        r is Ok ==> Memory::same_outside(*old(memory), *final(memory), a.segment_index, a.segment_index),
        r is Ok ==> forall|x: Relocatable| x != a ==> #[trigger] final(memory).value_at(x) == old(
            memory,
        ).value_at(x),
        old(memory).has_segment(a.segment_index) && a.offset < usize::MAX && (old(memory).value_at(a) is None
            || old(memory).value_at(a) == Some(v.val())) ==> r is Ok,
{
    let ghost val = v.val();
    match memory.insert(a, v) {
        Ok(()) => {
            proof {
                assert forall|x: Relocatable| #[trigger]
                    old(memory).value_at(x) is Some implies memory.value_at(x) == old(
                    memory,
                ).value_at(x) by {
                    if x == a {
                    }
                }
            }
            Ok(())
        },
        Err(e) => Err(RunnerError::Memory(e)),
    }
}

/// `a / b` rounded up.
pub fn div_ceil(a: usize, b: usize) -> (r: usize)
    requires
        b > 0,
    ensures
        r == ceil_div(a as nat, b as nat),
{
    if a % b == 0 {
        a / b
    } else {
        proof {
            assert(a / b < a) by (nonlinear_arith)
                requires
                    b > 0,
                    a % b != 0,
                    a >= 0,
            ;
        }
        a / b + 1
    }
}

/// Deducibility stated over the memory before the fill carries over to the
/// memory that the deduction starts from.
proof fn lemma_ready_setup(
    m0: Memory,
    m_add: Memory,
    m_mul: Memory,
    s: nat,
    add_mod: Option<(Relocatable, &ModBuiltinRunner, usize)>,
    add_inputs: Option<Inputs>,
    mul_mod: Option<(Relocatable, &ModBuiltinRunner, usize)>,
    mul_inputs: Option<Inputs>,
)
    requires
        Memory::extends(m0, m_add),
        Memory::extends(m_add, m_mul),
        add_mod is None ==> add_inputs is None && m_add == m0,
        mul_mod is None ==> mul_inputs is None && m_mul == m_add,
        add_mod matches Some((ptr, run, n)) ==> run.shift@ == s && add_inputs is Some && add_inputs->Some_0.values_ptr
            == rel_at(m0, ptr.plus(VALUES_PTR_OFFSET as int)) && add_inputs->Some_0.offsets_ptr == rel_at(
            m0,
            ptr.plus(OFFSETS_PTR_OFFSET as int),
        ) && add_inputs->Some_0.p@ == header_p(m0, ptr, s) && Memory::same_outside(
            m0,
            m_add,
            ptr.segment_index,
            add_inputs->Some_0.offsets_ptr.segment_index,
        ),
        mul_mod matches Some((ptr, run, n)) ==> run.shift@ == s && mul_inputs is Some && mul_inputs->Some_0.values_ptr
            == rel_at(m0, ptr.plus(VALUES_PTR_OFFSET as int)) && mul_inputs->Some_0.offsets_ptr == rel_at(
            m0,
            ptr.plus(OFFSETS_PTR_OFFSET as int),
        ) && mul_inputs->Some_0.p@ == header_p(m0, ptr, s) && Memory::same_outside(
            m_add,
            m_mul,
            ptr.segment_index,
            mul_inputs->Some_0.offsets_ptr.segment_index,
        ),
        add_mod matches Some((ptr, run, n)) ==> ready_side(
            m0,
            ptr,
            s,
            run.instance_def.batch_size as nat,
            n as nat,
            ModBuiltinType::Add,
        ),
        mul_mod matches Some((ptr, run, n)) ==> ready_side(
            m0,
            ptr,
            s,
            run.instance_def.batch_size as nat,
            n as nat,
            ModBuiltinType::Mul,
        ),
        add_mod is Some && mul_mod is Some ==> sides_apart(
            m0,
            add_mod->Some_0.0,
            add_mod->Some_0.2 as nat,
            mul_mod->Some_0.0,
            mul_mod->Some_0.2 as nat,
        ),
    ensures
        add_mod matches Some((ptr, run, n)) ==> inputs_deducible(m_mul, s, add_inputs, 0, n as nat, ModBuiltinType::Add),
        mul_mod matches Some((ptr, run, n)) ==> inputs_deducible(m_mul, s, mul_inputs, 0, n as nat, ModBuiltinType::Mul),
{
    if let Some((p1, run1, n1)) = add_mod {
        let inp = add_inputs->Some_0;
        assert forall|j: nat| 0 <= j < n1 implies #[trigger] deducible(
            m_mul,
            s,
            inp.values_ptr,
            inp.offsets_ptr,
            j,
            ModBuiltinType::Add,
            inp.p@,
        ) by {
            assert(deducible(m0, s, inp.values_ptr, inp.offsets_ptr, j, ModBuiltinType::Add, inp.p@));
            lemma_deducible_untouched(
                m0,
                m_add,
                s,
                inp.values_ptr,
                inp.offsets_ptr,
                j,
                ModBuiltinType::Add,
                inp.p@,
                p1.segment_index,
                inp.offsets_ptr.segment_index,
            );
            if let Some((p2, run2, n2)) = mul_mod {
                lemma_deducible_untouched(
                    m_add,
                    m_mul,
                    s,
                    inp.values_ptr,
                    inp.offsets_ptr,
                    j,
                    ModBuiltinType::Add,
                    inp.p@,
                    p2.segment_index,
                    mul_inputs->Some_0.offsets_ptr.segment_index,
                );
            }
        }
    }
    if let Some((p2, run2, n2)) = mul_mod {
        let inp = mul_inputs->Some_0;
        assert forall|j: nat| 0 <= j < n2 implies #[trigger] deducible(
            m_mul,
            s,
            inp.values_ptr,
            inp.offsets_ptr,
            j,
            ModBuiltinType::Mul,
            inp.p@,
        ) by {
            assert(deducible(m0, s, inp.values_ptr, inp.offsets_ptr, j, ModBuiltinType::Mul, inp.p@));
            if let Some((p1, run1, n1)) = add_mod {
                lemma_deducible_untouched(
                    m0,
                    m_add,
                    s,
                    inp.values_ptr,
                    inp.offsets_ptr,
                    j,
                    ModBuiltinType::Mul,
                    inp.p@,
                    p1.segment_index,
                    add_inputs->Some_0.offsets_ptr.segment_index,
                );
            }
            lemma_deducible_untouched(
                m_add,
                m_mul,
                s,
                inp.values_ptr,
                inp.offsets_ptr,
                j,
                ModBuiltinType::Mul,
                inp.p@,
                p2.segment_index,
                inp.offsets_ptr.segment_index,
            );
        }
    }
}

impl ModBuiltinRunner {
    pub open spec fn wf(&self) -> bool {
        &&& self.shift@ == pow(2, self.instance_def.word_bit_len as nat)
        &&& self.shift@ > 0
        &&& self.shift_powers@.len() == N_WORDS
        &&& forall|i: int|
            0 <= i < N_WORDS ==> #[trigger] self.shift_powers@[i]@ == pow(
                self.shift@ as int,
                i as nat,
            )
        &&& self.instance_def.batch_size * 3 <= usize::MAX
        &&& self.base <= isize::MAX
    }

    pub fn new_add_mod(instance_def: &ModInstanceDef, included: bool) -> (r: Self)
        requires
            instance_def.batch_size * 3 <= usize::MAX,
        ensures
            r.wf(),
            r.builtin_type == ModBuiltinType::Add,
            r.instance_def == *instance_def,
            r.included == included,
    {
        Self::new(*instance_def, included, ModBuiltinType::Add)
    }

    pub fn new_mul_mod(instance_def: &ModInstanceDef, included: bool) -> (r: Self)
        requires
            instance_def.batch_size * 3 <= usize::MAX,
        ensures
            r.wf(),
            r.builtin_type == ModBuiltinType::Mul,
            r.instance_def == *instance_def,
            r.included == included,
    {
        Self::new(*instance_def, included, ModBuiltinType::Mul)
    }

    fn new(instance_def: ModInstanceDef, included: bool, builtin_type: ModBuiltinType) -> (r: Self)
        requires
            instance_def.batch_size * 3 <= usize::MAX,
        ensures
            r.wf(),
            r.builtin_type == builtin_type,
            r.instance_def == instance_def,
            r.included == included,
            r.base == 0,
            r.zero_segment_index == 0,
            r.stop_ptr is None,
            r.zero_segment_size == if N_WORDS > instance_def.batch_size * 3 {
                N_WORDS as int
            } else {
                instance_def.batch_size * 3
            },
    {
        let two = nat_from_u64(2);
        let shift = nat_pow(&two, instance_def.word_bit_len);
        proof {
            lemma_pow_positive(2, instance_def.word_bit_len as nat);
        }
        let mut shift_powers: Vec<BigNat> = Vec::new();
        let mut i: u32 = 0;
        while i < N_WORDS as u32
            invariant
                i <= N_WORDS,
                shift_powers@.len() == i,
                forall|k: int|
                    0 <= k < i ==> #[trigger] shift_powers@[k]@ == pow(shift@ as int, k as nat),
            decreases N_WORDS - i,
        {
            shift_powers.push(nat_pow(&shift, i));
            i += 1;
        }
        let zero_segment_size = if N_WORDS > instance_def.batch_size * 3 {
            N_WORDS
        } else {
            instance_def.batch_size * 3
        };
        ModBuiltinRunner {
            builtin_type,
            base: 0,
            stop_ptr: None,
            instance_def,
            included,
            zero_segment_index: 0,
            zero_segment_size,
            shift,
            shift_powers,
        }
    }

    pub fn name(&self) -> (r: &'static str)
        ensures
            r == builtin_name(self.builtin_type),
    {
        match self.builtin_type {
            ModBuiltinType::Mul => "mul_mod_builtin",
            ModBuiltinType::Add => "add_mod_builtin",
        }
    }

    /// Allocates the builtin's segment and the zero segment.
    pub fn initialize_segments(&mut self, memory: &mut Memory)
        requires
            old(self).wf(),
            old(memory).data@.len() + 2 < isize::MAX,
        ensures
            final(self).wf(),
            final(self).base == old(memory).data@.len(),
            final(self).zero_segment_index == old(memory).data@.len() + 1,
            final(self).builtin_type == old(self).builtin_type,
            final(self).instance_def == old(self).instance_def,
            final(self).included == old(self).included,
            final(self).zero_segment_size == old(self).zero_segment_size,
            final(memory).data@.len() == old(memory).data@.len() + 2,
            final(memory).segment_len(final(self).base as isize) == 0,
            final(memory).segment_len(final(self).zero_segment_index as isize)
                == old(self).zero_segment_size,
    {
        let base = memory.add_segment();
        self.base = base.segment_index as usize;
        self.zero_segment_index = memory.add_zero_segment(self.zero_segment_size);
    }

    /// The initial stack: the builtin's base when it is included.
    pub fn initial_stack(&self) -> (r: Vec<MaybeRelocatable>)
        ensures
            self.included ==> r@.len() == 1 && r@[0].val() == CellVal::Rel(
                Relocatable { segment_index: self.base as isize, offset: 0 },
            ),
            !self.included ==> r@.len() == 0,
    {
        let mut r: Vec<MaybeRelocatable> = Vec::new();
        if self.included {
            r.push(
                MaybeRelocatable::RelocatableValue(
                    Relocatable { segment_index: self.base as isize, offset: 0 },
                ),
            );
        }
        r
    }

    pub fn base(&self) -> (r: usize)
        ensures
            r == self.base,
    {
        self.base
    }

    pub fn ratio(&self) -> (r: Option<u32>)
        ensures
            r == self.instance_def.ratio,
    {
        self.instance_def.ratio
    }

    pub fn cells_per_instance(&self) -> (r: u32)
        ensures
            r == INPUT_CELLS,
    {
        INPUT_CELLS as u32
    }

    pub fn n_input_cells(&self) -> (r: u32)
        ensures
            r == INPUT_CELLS,
    {
        INPUT_CELLS as u32
    }

    pub fn batch_size(&self) -> (r: usize)
        ensures
            r == self.instance_def.batch_size,
    {
        self.instance_def.batch_size
    }

    /// The number of cells used in the builtin's segment.
    pub fn get_used_cells(&self, memory: &Memory) -> (r: Result<usize, MemoryError>)
        ensures
            self.base < memory.data@.len() ==> (r matches Ok(n) && n == memory.data@[self.base as int]@.len()),
            self.base >= memory.data@.len() ==> (r matches Err(MemoryError::MissingSegmentUsedSizes)),
    {
        match memory.get_segment_used_size(self.base) {
            Some(n) => Ok(n),
            None => Err(MemoryError::MissingSegmentUsedSizes),
        }
    }

    /// The number of instances that the used cells take, rounded up.
    pub fn get_used_instances(&self, memory: &Memory) -> (r: Result<usize, MemoryError>)
        ensures
            self.base < memory.data@.len() ==> (r matches Ok(n) && n == ceil_div(
                memory.data@[self.base as int]@.len(),
                INPUT_CELLS as nat,
            )),
            self.base >= memory.data@.len() ==> (r matches Err(MemoryError::MissingSegmentUsedSizes)),
    {
        let used_cells = match self.get_used_cells(memory) {
            Ok(n) => n,
            Err(e) => {
                return Err(e);
            },
        };
        Ok(div_ceil(used_cells, INPUT_CELLS))
    }

    /// Reads the `N_WORDS` words at `addr`. Returns the words and their value
    /// when all of them are in memory, and `None` at the first empty cell.
    /// Each word must be an integer below `2^word_bit_len`.
    pub fn read_n_words_value(&self, memory: &Memory, addr: Relocatable) -> (r: Result<
        (Vec<BigNat>, Option<BigNat>),
        RunnerError,
    >)
        requires
            self.wf(),
        ensures
            not_stuck(r),
            addr.offset + N_WORDS > usize::MAX ==> r is Err,
            addr.offset + N_WORDS <= usize::MAX ==> read_result(
                *memory,
                addr,
                self.shift@,
                self.instance_def.word_bit_len,
                r,
            ),
    {
        if addr.offset > usize::MAX - N_WORDS {
            return Err(
                RunnerError::Math(MathError::RelocatableAddUsizeOffsetExceeded(addr, N_WORDS)),
            );
        }
        let mut words: Vec<BigNat> = Vec::new();
        let mut value = nat_from_u64(0);
        let mut i: usize = 0;
        while i < N_WORDS
            invariant
                self.wf(),
                addr.offset + N_WORDS <= usize::MAX,
                i <= N_WORDS,
                words@.len() == i,
                forall|k: int|
                    0 <= k < i ==> is_word(#[trigger] memory.value_at(addr.plus(k)), self.shift@),
                forall|k: int|
                    0 <= k < i ==> #[trigger] words@[k]@ == word_of(memory.value_at(addr.plus(k))),
                value@ == words_value(*memory, addr, self.shift@, i as nat),
                first_non_word(*memory, addr, self.shift@) == first_non_word_from(
                    *memory,
                    addr,
                    self.shift@,
                    i as nat,
                ),
            decreases N_WORDS - i,
        {
            let addr_i = Relocatable { segment_index: addr.segment_index, offset: addr.offset + i };
            assert(addr_i == addr.plus(i as int));
            match memory.get(addr_i) {
                None => {
                    let ghost j = i;
                    while words.len() < N_WORDS
                        invariant
                            j <= words@.len() <= N_WORDS,
                            forall|k: int| 0 <= k < j ==> #[trigger] words@[k]@ == word_of(memory.value_at(addr.plus(k))),
                            forall|k: int| j <= k < words@.len() ==> #[trigger] words@[k]@ == 0,
                        decreases N_WORDS - words@.len(),
                    {
                        words.push(nat_from_u64(0));
                    }
                    return Ok((words, None));
                },
                Some(MaybeRelocatable::RelocatableValue(_)) => {
                    return Err(RunnerError::Memory(MemoryError::ExpectedInteger(addr_i)));
                },
                Some(MaybeRelocatable::Int(word)) => {
                    if !nat_lt(&word, &self.shift) {
                        return Err(
                            RunnerError::WordExceedsModBuiltinWordBitLen(
                                addr_i,
                                self.instance_def.word_bit_len,
                                word,
                            ),
                        );
                    }
                    let term = nat_mul(&word, &self.shift_powers[i]);
                    value = nat_add(&value, &term);
                    let ghost w = word@;
                    let ghost old_words = words@;
                    words.push(word);
                    assert forall|k: int| 0 <= k < i implies #[trigger] words@[k]@ == word_of(
                        memory.value_at(addr.plus(k)),
                    ) by {
                        assert(words@[k] == old_words[k]);
                    }
                    assert(memory.value_at(addr.plus(i as int)) == Some(CellVal::Int(w)));
                    assert(words@[i as int]@ == w);
                    assert(w < self.shift@);
                    assert(is_word(memory.value_at(addr.plus(i as int)), self.shift@));
                    i += 1;
                },
            }
        }
        Ok((words, Some(value)))
    }

    /// Writes the `N_WORDS` words of `value` at `addr`, the least significant
    /// first. Fails when `value` does not fit in them; the words are written
    /// before that is found.
    pub fn write_n_words_value(&self, memory: &mut Memory, addr: Relocatable, value: BigNat) -> (r:
        Result<(), RunnerError>)
        requires
            self.wf(),
        ensures
            not_stuck(r),
            r is Ok <==> writable(*old(memory), addr, value@, self.shift@) && value@ < pow(
                self.shift@ as int,
                N_WORDS as nat,
            ),
            r is Ok ==> words_written(*old(memory), *final(memory), addr, value@, self.shift@),
            r is Ok ==> Memory::extends(*old(memory), *final(memory)),
            r is Ok ==> forall|i: nat|
                i < N_WORDS ==> #[trigger] final(memory).is_accessed(addr.plus(i as int)),
            writable(*old(memory), addr, value@, self.shift@) && value@ >= pow(
                self.shift@ as int,
                N_WORDS as nat,
            ) ==> (r matches Err(RunnerError::WriteNWordsValueNotZero(nm)) && nm == builtin_name(
                self.builtin_type,
            )),
            r matches Err(RunnerError::WriteNWordsValueNotZero(_)) ==> words_written(
                *old(memory),
                *final(memory),
                addr,
                value@,
                self.shift@,
            ) && Memory::extends(*old(memory), *final(memory)),
    {
        let ghost v = value@;
        let ghost s = self.shift@;
        let ghost old_mem = *memory;
        let mut rest = value;
        let mut i: usize = 0;
        proof {
            vstd::arithmetic::power::lemma_pow0(s as int);
        }
        while i < N_WORDS
            invariant
                self.wf(),
                s == self.shift@,
                old_mem == *old(memory),
                v == value@,
                i <= N_WORDS,
                rest@ == v / pow(s as int, i as nat) as nat,
                memory.data@.len() == old_mem.data@.len(),
                forall|k: nat|
                    k < i ==> #[trigger] memory.value_at(addr.plus(k as int)) == Some(
                        CellVal::Int(limb(v, s, k)),
                    ),
                forall|k: nat| k < i ==> #[trigger] memory.is_accessed(addr.plus(k as int)),
                i > 0 ==> addr.offset + N_WORDS < usize::MAX,
                i > 0 ==> old_mem.has_segment(addr.segment_index),
                forall|x: Relocatable|
                    !(in_words(x, addr) && x.offset < addr.offset + i) ==> #[trigger] memory.value_at(x)
                        == old_mem.value_at(x),
                forall|k: nat|
                    k < i ==> {
                        let c = #[trigger] old_mem.value_at(addr.plus(k as int));
                        c is None || c == Some(CellVal::Int(limb(v, s, k)))
                    },
            decreases N_WORDS - i,
        {
            proof {
                lemma_pow_positive(s as int, i as nat);
                lemma_pow_positive(s as int, (i + 1) as nat);
                lemma_div_denominator(v as int, pow(s as int, i as nat), s as int);
                assert(pow(s as int, (i + 1) as nat) == s * pow(s as int, i as nat)) by {
                    reveal(pow);
                }
                assert(pow(s as int, i as nat) * s == s * pow(s as int, i as nat)) by (nonlinear_arith);
            }
            let (q, word) = nat_div_mod_floor(&rest, &self.shift);
            if addr.offset > usize::MAX - N_WORDS - 1 {
                return Err(
                    RunnerError::Math(MathError::RelocatableAddUsizeOffsetExceeded(addr, N_WORDS)),
                );
            }
            let addr_i = Relocatable { segment_index: addr.segment_index, offset: addr.offset + i };
            assert(addr_i == addr.plus(i as int));
            assert(word@ == limb(v, s, i as nat));
            let ghost wv = word@;
            let ghost acc = memory.accessed@;
            proof {
                assert forall|k: nat| k < i implies acc.contains(#[trigger] addr.plus(k as int)) by {
                    assert(memory.is_accessed(addr.plus(k as int)));
                }
            }
            match memory.insert(addr_i, MaybeRelocatable::Int(word)) {
                Ok(()) => {},
                Err(e) => {
                    assert(memory.value_at(addr_i) == old_mem.value_at(addr_i));
                    assert(memory.has_segment(addr.segment_index) == old_mem.has_segment(
                        addr.segment_index,
                    ));
                    assert(old_mem.value_at(addr.plus(i as nat as int)) == old_mem.value_at(addr_i));
                    proof {
                        if old_mem.has_segment(addr.segment_index) {
                            assert(old_mem.value_at(addr_i) is Some);
                            assert(old_mem.value_at(addr_i) != Some(CellVal::Int(wv)));
                        }
                        assert(!writable(old_mem, addr, v, s));
                    }
                    return Err(RunnerError::Memory(e));
                },
            }
            assert(old_mem.value_at(addr.plus(i as int)) == old_mem.value_at(addr_i));
            proof {
                assert forall|k: nat| k < i + 1 implies #[trigger] memory.is_accessed(addr.plus(k as int)) by {
                    if k < i {
                        assert(acc.contains(addr.plus(k as int)));
                        let idx = choose|idx: int| 0 <= idx < acc.len() && acc[idx] == addr.plus(k as int);
                        assert(memory.accessed@[idx] == addr.plus(k as int));
                    } else {
                        assert(memory.accessed@[acc.len() as int] == addr_i);
                    }
                }
            }
            rest = q;
            i += 1;
        }
        proof {
            lemma_pow_positive(s as int, N_WORDS as nat);
            if v >= pow(s as int, N_WORDS as nat) {
                lemma_div_basics_ge(v, pow(s as int, N_WORDS as nat) as nat);
            } else {
                vstd::arithmetic::div_mod::lemma_basic_div(v as int, pow(s as int, N_WORDS as nat));
            }
        }
        proof {
            assert forall|x: Relocatable| #[trigger]
                old_mem.value_at(x) is Some implies memory.value_at(x) == old_mem.value_at(x) by {
                if in_words(x, addr) {
                    let k = (x.offset - addr.offset) as nat;
                    assert(x == addr.plus(k as int));
                }
            }
            assert(words_written(old_mem, *memory, addr, v, s));
        }
        let zero = nat_from_u64(0);
        if !nat_eq(&rest, &zero) {
            return Err(RunnerError::WriteNWordsValueNotZero(self.name()));
        }
        Ok(())
    }

    /// Reads the header of the instance at `addr`.
    pub fn read_inputs(&self, memory: &Memory, addr: Relocatable) -> (r: Result<Inputs, RunnerError>)
        requires
            self.wf(),
        ensures
            not_stuck(r),
            r is Ok <==> header_ok(*memory, addr, self.shift@),
            r matches Ok(inp) ==> inputs_at(*memory, addr, self.shift@, inp),
            header_ptrs_ok(*memory, addr) && usize_at(*memory, addr.plus(N_OFFSET as int)) == Some(
                0usize,
            ) ==> (r matches Err(RunnerError::ModBuiltinNLessThanOne(nm, 0)) && nm == builtin_name(
                self.builtin_type,
            )),
            header_ptrs_ok(*memory, addr) && (usize_at(*memory, addr.plus(N_OFFSET as int)) matches Some(
                n,
            ) && n >= 1) && first_non_word(*memory, addr, self.shift@) < N_WORDS && memory.value_at(
                addr.plus(first_non_word(*memory, addr, self.shift@) as int),
            ) is None ==> (r matches Err(RunnerError::ModBuiltinMissingValue(nm, b)) && nm == builtin_name(
                self.builtin_type,
            ) && b == addr.plus(
                N_WORDS as int,
            )),
    {
        if addr.offset > usize::MAX - INPUT_CELLS {
            return Err(
                RunnerError::Math(MathError::RelocatableAddUsizeOffsetExceeded(addr, INPUT_CELLS)),
            );
        }
        let values_ptr = match memory.get_relocatable(
            Relocatable { segment_index: addr.segment_index, offset: addr.offset + VALUES_PTR_OFFSET },
        ) {
            Ok(x) => x,
            Err(e) => {
                return Err(RunnerError::Memory(e));
            },
        };
        let offsets_ptr = match memory.get_relocatable(
            Relocatable { segment_index: addr.segment_index, offset: addr.offset + OFFSETS_PTR_OFFSET },
        ) {
            Ok(x) => x,
            Err(e) => {
                return Err(RunnerError::Memory(e));
            },
        };
        let n = match get_usize(
            memory,
            Relocatable { segment_index: addr.segment_index, offset: addr.offset + N_OFFSET },
        ) {
            Ok(x) => x,
            Err(e) => {
                return Err(e);
            },
        };
        if n < 1 {
            return Err(RunnerError::ModBuiltinNLessThanOne(self.name(), n));
        }
        let (p_values, p) = match self.read_n_words_value(memory, addr) {
            Ok(x) => x,
            Err(e) => {
                return Err(e);
            },
        };
        match p {
            Some(p) => Ok(Inputs { p, p_values, values_ptr, offsets_ptr, n }),
            None => Err(
                RunnerError::ModBuiltinMissingValue(
                    self.name(),
                    Relocatable { segment_index: addr.segment_index, offset: addr.offset + N_WORDS },
                ),
            ),
        }
    }

    /// Reads operand `k` of triple `index_in_batch`; a missing word is an error.
    fn read_operand(
        &self,
        memory: &Memory,
        values_ptr: Relocatable,
        offsets_ptr: Relocatable,
        index_in_batch: usize,
        k: usize,
    ) -> (r: Result<BigNat, RunnerError>)
        requires
            self.wf(),
            k < 3,
            3 * index_in_batch + k <= usize::MAX,
        ensures
            r is Ok <==> operand_value(
                *memory,
                self.shift@,
                values_ptr,
                offsets_ptr,
                index_in_batch as nat,
                k as nat,
            ) is Some,
            operand_missing(
                *memory,
                self.shift@,
                values_ptr,
                offsets_ptr,
                index_in_batch as nat,
                k as nat,
            ) ==> (r matches Err(RunnerError::ModBuiltinMissingValue(nm, b)) && nm == builtin_name(
                self.builtin_type,
            ) && b == operand_addr(*memory, values_ptr, offsets_ptr, index_in_batch as nat, k as nat)->Some_0.plus(
                N_WORDS as int,
            )),
            r matches Ok(v) ==> operand_value(
                *memory,
                self.shift@,
                values_ptr,
                offsets_ptr,
                index_in_batch as nat,
                k as nat,
            ) == Some(v@),
    {
        let cell = match offsets_ptr.add_usize(3 * index_in_batch + k) {
            Ok(x) => x,
            Err(e) => {
                return Err(RunnerError::Math(e));
            },
        };
        let offset = match get_usize(memory, cell) {
            Ok(x) => x,
            Err(e) => {
                return Err(e);
            },
        };
        let value_addr = match values_ptr.add_usize(offset) {
            Ok(x) => x,
            Err(e) => {
                return Err(RunnerError::Math(e));
            },
        };
        let (_, value) = match self.read_n_words_value(memory, value_addr) {
            Ok(x) => x,
            Err(e) => {
                return Err(e);
            },
        };
        match value {
            Some(v) => Ok(v),
            None => Err(
                RunnerError::ModBuiltinMissingValue(
                    self.name(),
                    Relocatable {
                        segment_index: value_addr.segment_index,
                        offset: value_addr.offset + N_WORDS,
                    },
                ),
            ),
        }
    }

    /// Reads the values `a`, `b` and `c` of triple `index_in_batch`.
    pub fn read_memory_vars(
        &self,
        memory: &Memory,
        values_ptr: Relocatable,
        offsets_ptr: Relocatable,
        index_in_batch: usize,
    ) -> (r: Result<(BigNat, BigNat, BigNat), RunnerError>)
        requires
            self.wf(),
            3 * index_in_batch + 2 <= usize::MAX,
        ensures
            r is Ok <==> (forall|k: nat|
                k < 3 ==> #[trigger] operand_value(
                    *memory,
                    self.shift@,
                    values_ptr,
                    offsets_ptr,
                    index_in_batch as nat,
                    k,
                ) is Some),
            r matches Ok((a, b, c)) ==> {
                &&& operand_value(*memory, self.shift@, values_ptr, offsets_ptr, index_in_batch as nat, 0)
                    == Some(a@)
                &&& operand_value(*memory, self.shift@, values_ptr, offsets_ptr, index_in_batch as nat, 1)
                    == Some(b@)
                &&& operand_value(*memory, self.shift@, values_ptr, offsets_ptr, index_in_batch as nat, 2)
                    == Some(c@)
            },
            forall|k: nat|
                k < 3 && (forall|j: nat|
                    j < k ==> (#[trigger] operand_value(
                        *memory,
                        self.shift@,
                        values_ptr,
                        offsets_ptr,
                        index_in_batch as nat,
                        j,
                    )) is Some) && #[trigger] operand_missing(
                    *memory,
                    self.shift@,
                    values_ptr,
                    offsets_ptr,
                    index_in_batch as nat,
                    k,
                ) ==> (r matches Err(RunnerError::ModBuiltinMissingValue(nm, b)) && nm == builtin_name(
                    self.builtin_type,
                ) && b == operand_addr(*memory, values_ptr, offsets_ptr, index_in_batch as nat, k)->Some_0.plus(
                    N_WORDS as int,
                )),
    {
        let a = match self.read_operand(memory, values_ptr, offsets_ptr, index_in_batch, 0) {
            Ok(x) => x,
            Err(e) => {
                return Err(e);
            },
        };
        let b = match self.read_operand(memory, values_ptr, offsets_ptr, index_in_batch, 1) {
            Ok(x) => x,
            Err(e) => {
                return Err(e);
            },
        };
        let c = match self.read_operand(memory, values_ptr, offsets_ptr, index_in_batch, 2) {
            Ok(x) => x,
            Err(e) => {
                return Err(e);
            },
        };
        proof {
            assert forall|k: nat| k < 3 implies #[trigger] operand_value(
                *memory,
                self.shift@,
                values_ptr,
                offsets_ptr,
                index_in_batch as nat,
                k,
            ) is Some by {
                if k == 1 {
                } else if k == 2 {
                }
            }
        }
        Ok((a, b, c))
    }

    /// Writes the headers of instances `1 .. n / batch_size` from the
    /// header `inputs` of the first one, at `builtin_ptr`.
    #[verifier::rlimit(100)]
    pub fn fill_inputs(&self, memory: &mut Memory, builtin_ptr: Relocatable, inputs: &Inputs) -> (r:
        Result<(), RunnerError>)
        requires
            self.wf(),
            header_ok(*old(memory), builtin_ptr, self.shift@),
            inputs_at(*old(memory), builtin_ptr, self.shift@, *inputs),
        ensures
            not_stuck(r),
            inputs.n > FILL_MEMORY_MAX ==> (r matches Err(
                RunnerError::FillMemoryMaxExceeded(nm, m),
            ) && nm == builtin_name(self.builtin_type) && m == FILL_MEMORY_MAX),
            inputs.n <= FILL_MEMORY_MAX && (self.instance_def.batch_size == 0 || inputs.n
                % self.instance_def.batch_size != 0) ==> (r matches Err(
                RunnerError::Math(MathError::SafeDivFail(n, b)),
            ) && n == inputs.n && b == self.instance_def.batch_size),
            inputs.n > FILL_MEMORY_MAX || self.instance_def.batch_size == 0 || inputs.n
                % self.instance_def.batch_size != 0 ==> *final(memory) == *old(memory),
            inputs.n <= FILL_MEMORY_MAX && self.instance_def.batch_size > 0 && inputs.n
                % self.instance_def.batch_size == 0 && headers_fillable(
                *old(memory),
                builtin_ptr,
                self.instance_def.batch_size as nat,
            ) ==> r is Ok,
            r is Ok ==> {
                &&& Memory::extends(*old(memory), *final(memory))
                &&& Memory::same_outside(
                    *old(memory),
                    *final(memory),
                    builtin_ptr.segment_index,
                    builtin_ptr.segment_index,
                )
                &&& self.instance_def.batch_size > 0
                &&& forall|x: Relocatable|
                    !in_headers(x, builtin_ptr, (inputs.n / self.instance_def.batch_size) as nat)
                        ==> #[trigger] final(memory).value_at(x) == old(memory).value_at(x)
                &&& forall|k: nat|
                    1 <= k < inputs.n / self.instance_def.batch_size ==> #[trigger] header_cells(
                        *final(memory),
                        *old(memory),
                        builtin_ptr,
                        self.instance_def.batch_size as nat,
                        k,
                    )
            },
    {
        if inputs.n > FILL_MEMORY_MAX {
            return Err(RunnerError::FillMemoryMaxExceeded(self.name(), FILL_MEMORY_MAX));
        }
        let batch = self.instance_def.batch_size;
        if batch == 0 || inputs.n % batch != 0 {
            return Err(RunnerError::Math(MathError::SafeDivFail(inputs.n, batch)));
        }
        let n_instances = inputs.n / batch;
        let mut instance: usize = 1;
        let ghost m0 = *memory;
        let ghost fill = headers_fillable(m0, builtin_ptr, batch as nat);
        proof {
            lemma_header_some(m0, builtin_ptr, self.shift@);
            assert(header_n(m0, builtin_ptr) == inputs.n);
            assert(rel_at(m0, builtin_ptr.plus(OFFSETS_PTR_OFFSET as int)) == inputs.offsets_ptr);
        }
        while instance < n_instances
            invariant
                self.wf(),
                batch == self.instance_def.batch_size,
                batch > 0,
                inputs.n <= FILL_MEMORY_MAX,
                inputs.n % batch == 0,
                inputs.p_values@.len() == N_WORDS,
                n_instances == inputs.n / batch,
                1 <= instance,
                m0 == *old(memory),
                header_ok(m0, builtin_ptr, self.shift@),
                inputs_at(m0, builtin_ptr, self.shift@, *inputs),
                Memory::extends(m0, *memory),
                Memory::same_outside(m0, *memory, builtin_ptr.segment_index, builtin_ptr.segment_index),
                header_n(m0, builtin_ptr) == inputs.n,
                rel_at(m0, builtin_ptr.plus(OFFSETS_PTR_OFFSET as int)) == inputs.offsets_ptr,
                fill == headers_fillable(m0, builtin_ptr, batch as nat),
                fill ==> headers_open(m0, *memory, builtin_ptr, batch as nat, n_instances as nat),
                forall|x: Relocatable|
                    !in_headers(x, builtin_ptr, n_instances as nat) ==> #[trigger] memory.value_at(x)
                        == m0.value_at(x),
                forall|k: nat|
                    1 <= k < instance && k < n_instances ==> #[trigger] header_cells(
                        *memory,
                        m0,
                        builtin_ptr,
                        batch as nat,
                        k,
                    ),
            decreases n_instances - instance,
        {
            proof {
                assert(instance * INPUT_CELLS <= n_instances * INPUT_CELLS) by (nonlinear_arith)
                    requires
                        instance < n_instances,
                ;
                assert(n_instances <= inputs.n) by (nonlinear_arith)
                    requires
                        n_instances == inputs.n / batch,
                        batch > 0,
                ;
                assert(3 * instance * batch <= 3 * inputs.n) by (nonlinear_arith)
                    requires
                        instance < n_instances,
                        n_instances == inputs.n / batch,
                        batch > 0,
                ;
                assert(instance * batch < inputs.n) by (nonlinear_arith)
                    requires
                        instance < n_instances,
                        n_instances == inputs.n / batch,
                        batch > 0,
                ;
                assert(INPUT_CELLS * (instance + 1) <= INPUT_CELLS * n_instances) by (nonlinear_arith)
                    requires
                        instance < n_instances,
                ;
            }
            let h = match builtin_ptr.add_usize(instance * INPUT_CELLS) {
                Ok(x) => x,
                Err(e) => {
                    return Err(RunnerError::Math(e));
                },
            };
            if h.offset > usize::MAX - INPUT_CELLS {
                return Err(
                    RunnerError::Math(MathError::RelocatableAddUsizeOffsetExceeded(h, INPUT_CELLS)),
                );
            }
            let moved = match inputs.offsets_ptr.add_usize(3 * instance * batch) {
                Ok(x) => x,
                Err(e) => {
                    return Err(RunnerError::Math(e));
                },
            };
            let ghost before = *memory;
            let mut i: usize = 0;
            while i < N_WORDS
                invariant
                    i <= N_WORDS,
                    batch == self.instance_def.batch_size,
                    batch > 0,
                    inputs.n <= FILL_MEMORY_MAX,
                    inputs.n % batch == 0,
                    inputs.p_values@.len() == N_WORDS,
                    h.offset + INPUT_CELLS <= usize::MAX,
                    h.segment_index == builtin_ptr.segment_index,
                    h == builtin_ptr.plus((INPUT_CELLS * instance) as int),
                    h.offset == builtin_ptr.offset + INPUT_CELLS * instance,
                    1 <= instance < n_instances,
                    m0 == *old(memory),
                    header_ok(m0, builtin_ptr, self.shift@),
                    inputs_at(m0, builtin_ptr, self.shift@, *inputs),
                    Memory::extends(m0, *memory),
                    fill == headers_fillable(m0, builtin_ptr, batch as nat),
                    fill ==> headers_open(m0, *memory, builtin_ptr, batch as nat, n_instances as nat),
                    forall|x: Relocatable|
                        !in_headers(x, builtin_ptr, n_instances as nat) ==> #[trigger] memory.value_at(x)
                            == m0.value_at(x),
                    INPUT_CELLS * (instance + 1) <= INPUT_CELLS * n_instances,
                    n_instances == inputs.n / batch,
                    header_n(m0, builtin_ptr) == inputs.n,
                    Memory::extends(before, *memory),
                    Memory::same_outside(m0, *memory, builtin_ptr.segment_index, builtin_ptr.segment_index),
                    forall|j: int|
                        0 <= j < i ==> #[trigger] memory.value_at(h.plus(j)) == Some(
                            CellVal::Int(inputs.p_values@[j]@),
                        ),
                decreases N_WORDS - i,
            {
                let ghost prev = *memory;
                let cell = Relocatable { segment_index: h.segment_index, offset: h.offset + i };
                let word = MaybeRelocatable::Int(inputs.p_values[i].clone());
                proof {
                    lemma_header_some(m0, builtin_ptr, self.shift@);
                    assert(cell == builtin_ptr.plus((INPUT_CELLS * instance + i) as int));
                    assert(inputs.p_values@[i as int]@ == word_of(m0.value_at(builtin_ptr.plus(i as int))));
                    assert(m0.value_at(builtin_ptr.plus(i as int)) == Some(
                        CellVal::Int(word_of(m0.value_at(builtin_ptr.plus(i as int)))),
                    ));
                    assert(word.val() == CellVal::Int(inputs.p_values@[i as int]@));
                    assert(implied_header_cell(m0, builtin_ptr, batch as nat, instance as nat, i as nat)
                        == Some(word.val()));
                    assert(m0.value_at(builtin_ptr.plus(0)) is Some);
                    assert(prev.has_segment(cell.segment_index));
                }
                match insert_cell(memory, cell, word) {
                    Ok(()) => {},
                    Err(e) => {
                        return Err(e);
                    },
                }
                proof {
                    if fill {
                        lemma_headers_open_step(
                            m0,
                            prev,
                            *memory,
                            builtin_ptr,
                            batch as nat,
                            n_instances as nat,
                            instance as nat,
                            i as nat,
                        );
                    }
                    assert forall|j: int| 0 <= j < i implies #[trigger] memory.value_at(h.plus(j))
                        == Some(CellVal::Int(inputs.p_values@[j]@)) by {
                        assert(prev.value_at(h.plus(j)) is Some);
                    }
                    assert(cell == h.plus(i as int));
                }
                i += 1;
            }
            let ghost after_p = *memory;
            let cell_v = Relocatable { segment_index: h.segment_index, offset: h.offset + VALUES_PTR_OFFSET };
            proof {
                lemma_header_some(m0, builtin_ptr, self.shift@);
                assert(cell_v == builtin_ptr.plus((INPUT_CELLS * instance + VALUES_PTR_OFFSET) as int));
                assert(m0.value_at(builtin_ptr.plus(0)) is Some);
                assert(after_p.has_segment(cell_v.segment_index));
            }
            match insert_cell(memory, cell_v, MaybeRelocatable::RelocatableValue(inputs.values_ptr)) {
                Ok(()) => {},
                Err(e) => {
                    return Err(e);
                },
            }
            proof {
                if fill {
                    lemma_headers_open_step(
                        m0,
                        after_p,
                        *memory,
                        builtin_ptr,
                        batch as nat,
                        n_instances as nat,
                        instance as nat,
                        VALUES_PTR_OFFSET as nat,
                    );
                }
            }
            let ghost after_v = *memory;
            let cell_o = Relocatable { segment_index: h.segment_index, offset: h.offset + OFFSETS_PTR_OFFSET };
            proof {
                assert(cell_o == builtin_ptr.plus((INPUT_CELLS * instance + OFFSETS_PTR_OFFSET) as int));
                assert(after_v.has_segment(cell_o.segment_index));
            }
            match insert_cell(memory, cell_o, MaybeRelocatable::RelocatableValue(moved)) {
                Ok(()) => {},
                Err(e) => {
                    return Err(e);
                },
            }
            proof {
                if fill {
                    lemma_headers_open_step(
                        m0,
                        after_v,
                        *memory,
                        builtin_ptr,
                        batch as nat,
                        n_instances as nat,
                        instance as nat,
                        OFFSETS_PTR_OFFSET as nat,
                    );
                }
            }
            let ghost after_o = *memory;
            let rest = inputs.n - instance * batch;
            let cell_n = Relocatable { segment_index: h.segment_index, offset: h.offset + N_OFFSET };
            let count = MaybeRelocatable::Int(nat_from_u64(rest as u64));
            proof {
                assert(cell_n == builtin_ptr.plus((INPUT_CELLS * instance + N_OFFSET) as int));
                assert(after_o.has_segment(cell_n.segment_index));
                assert(count.val() == CellVal::Int(rest as nat));
            }
            match insert_cell(memory, cell_n, count) {
                Ok(()) => {},
                Err(e) => {
                    return Err(e);
                },
            }
            proof {
                if fill {
                    lemma_headers_open_step(
                        m0,
                        after_o,
                        *memory,
                        builtin_ptr,
                        batch as nat,
                        n_instances as nat,
                        instance as nat,
                        N_OFFSET as nat,
                    );
                }
            }
            proof {
                let k = instance as nat;
                assert(h == builtin_ptr.plus((INPUT_CELLS * k) as int));
                assert forall|j: int| 0 <= j < N_WORDS implies #[trigger] memory.value_at(h.plus(j))
                    == Some(CellVal::Int(inputs.p_values@[j]@)) by {
                    assert(after_p.value_at(h.plus(j)) is Some);
                    assert(after_v.value_at(h.plus(j)) is Some);
                    assert(after_o.value_at(h.plus(j)) is Some);
                }
                assert(after_v.value_at(h.plus(VALUES_PTR_OFFSET as int)) is Some);
                assert(after_o.value_at(h.plus(VALUES_PTR_OFFSET as int)) is Some);
                assert(after_o.value_at(h.plus(OFFSETS_PTR_OFFSET as int)) is Some);
                lemma_header_some(m0, builtin_ptr, self.shift@);
                assert(inputs.p_values@[0]@ == word_of(m0.value_at(builtin_ptr.plus(0))));
                assert(inputs.p_values@[1]@ == word_of(m0.value_at(builtin_ptr.plus(1))));
                assert(inputs.p_values@[2]@ == word_of(m0.value_at(builtin_ptr.plus(2))));
                assert(inputs.p_values@[3]@ == word_of(m0.value_at(builtin_ptr.plus(3))));
                assert(memory.value_at(h.plus(0)) == Some(CellVal::Int(inputs.p_values@[0]@)));
                assert(memory.value_at(h.plus(1)) == Some(CellVal::Int(inputs.p_values@[1]@)));
                assert(memory.value_at(h.plus(2)) == Some(CellVal::Int(inputs.p_values@[2]@)));
                assert(memory.value_at(h.plus(3)) == Some(CellVal::Int(inputs.p_values@[3]@)));
                assert(header_cells(*memory, m0, builtin_ptr, batch as nat, k));
                assert forall|k2: nat|
                    1 <= k2 < instance + 1 && k2 < n_instances implies #[trigger] header_cells(
                    *memory,
                    m0,
                    builtin_ptr,
                    batch as nat,
                    k2,
                ) by {
                    if k2 < instance {
                        lemma_header_cells_extends(before, *memory, m0, builtin_ptr, batch as nat, k2);
                    }
                }
            }
            instance += 1;
        }
        Ok(())
    }

    /// Copies the first three cells of the offsets table to triples
    /// `index .. index + n_copies`.
    pub fn fill_offsets(
        &self,
        memory: &mut Memory,
        offsets_ptr: Relocatable,
        index: usize,
        n_copies: usize,
    ) -> (r: Result<(), RunnerError>)
        requires
            n_copies == 0 || 3 * (index + n_copies) <= usize::MAX,
        ensures
            not_stuck(r),
            n_copies == 0 ==> r is Ok && *final(memory) == *old(memory),
            n_copies > 0 && offsets_paddable(*old(memory), offsets_ptr, index as nat, n_copies as nat)
                ==> r is Ok,
            forall|j: nat|
                n_copies > 0 && offsets_ptr.offset + 3 <= usize::MAX && j < 3 && (forall|i: nat|
                    i < j ==> (#[trigger] old(memory).value_at(offsets_ptr.plus(i as int))) is Some)
                    && old(memory).value_at(offsets_ptr.plus(j as int)) is None ==> (r matches Err(
                    RunnerError::Memory(MemoryError::UnknownMemoryCell(b)),
                ) && b == offsets_ptr.plus(j as int)),
            n_copies > 0 && offsets_ptr.offset + 3 <= usize::MAX && (exists|i: nat|
                i < 3 && (#[trigger] old(memory).value_at(offsets_ptr.plus(i as int))) is None)
                ==> r is Err,
            r is Ok ==> {
                &&& Memory::extends(*old(memory), *final(memory))
                &&& Memory::same_outside(
                    *old(memory),
                    *final(memory),
                    offsets_ptr.segment_index,
                    offsets_ptr.segment_index,
                )
                &&& forall|x: Relocatable|
                    !in_padding(x, offsets_ptr, index as nat, n_copies as nat)
                        ==> #[trigger] final(memory).value_at(x) == old(memory).value_at(x)
                &&& forall|c: nat, i: nat|
                    c < n_copies && i < 3 ==> #[trigger] final(memory).value_at(
                        offsets_ptr.plus(3 * (index + c) + i),
                    ) == old(memory).value_at(offsets_ptr.plus(i as int)) && old(
                        memory,
                    ).value_at(offsets_ptr.plus(i as int)) is Some
            },
    {
        if n_copies == 0 {
            return Ok(());
        }
        let ghost m0 = *memory;
        let ghost pad = offsets_paddable(m0, offsets_ptr, index as nat, n_copies as nat);
        if offsets_ptr.offset > usize::MAX - 3 {
            return Err(
                RunnerError::Math(MathError::RelocatableAddUsizeOffsetExceeded(offsets_ptr, 3)),
            );
        }
        let mut firsts: Vec<MaybeRelocatable> = Vec::new();
        let mut i: usize = 0;
        while i < 3
            invariant
                i <= 3,
                n_copies > 0,
                offsets_ptr.offset + 3 <= usize::MAX,
                m0 == *memory,
                pad == offsets_paddable(m0, offsets_ptr, index as nat, n_copies as nat),
                firsts@.len() == i,
                forall|k: nat|
                    k < i ==> (#[trigger] m0.value_at(offsets_ptr.plus(k as int))) == Some(
                        firsts@[k as int].val(),
                    ),
            decreases 3 - i,
        {
            let src = Relocatable { segment_index: offsets_ptr.segment_index, offset: offsets_ptr.offset + i };
            assert(src == offsets_ptr.plus(i as int));
            match memory.get(src) {
                Some(v) => {
                    firsts.push(v);
                },
                None => {
                    proof {
                        assert(m0.value_at(offsets_ptr.plus(i as nat as int)) is None);
                        assert(!pad);
                    }
                    return Err(RunnerError::Memory(MemoryError::UnknownMemoryCell(src)));
                },
            }
            i += 1;
        }
        proof {
            if pad {
                assert forall|c: nat, k: nat| c < n_copies && k < 3 implies {
                    let x = #[trigger] memory.value_at(offsets_ptr.plus(3 * (index + c) + k));
                    x is None || x == m0.value_at(offsets_ptr.plus(k as int))
                } by {
                    let y = m0.value_at(offsets_ptr.plus((3 * (index as nat + c) + k) as int));
                    assert(y is None || y == m0.value_at(offsets_ptr.plus(k as int)));
                }
            }
        }
        let mut i: usize = 0;
        while i < 3
            invariant
                n_copies > 0,
                3 * (index + n_copies) <= usize::MAX,
                i <= 3,
                m0 == *old(memory),
                Memory::extends(m0, *memory),
                Memory::same_outside(m0, *memory, offsets_ptr.segment_index, offsets_ptr.segment_index),
                forall|x: Relocatable|
                    !in_padding(x, offsets_ptr, index as nat, n_copies as nat) ==> #[trigger] memory.value_at(x)
                        == m0.value_at(x),
                offsets_ptr.offset + 3 <= usize::MAX,
                firsts@.len() == 3,
                forall|k: nat|
                    k < 3 ==> (#[trigger] m0.value_at(offsets_ptr.plus(k as int))) == Some(
                        firsts@[k as int].val(),
                    ),
                forall|c: nat, k: nat|
                    c < n_copies && k < i ==> #[trigger] memory.value_at(
                        offsets_ptr.plus(3 * (index + c) + k),
                    ) == m0.value_at(offsets_ptr.plus(k as int)),
                pad == offsets_paddable(m0, offsets_ptr, index as nat, n_copies as nat),
                pad ==> forall|c: nat, k: nat|
                    c < n_copies && k < 3 ==> {
                        let x = #[trigger] memory.value_at(offsets_ptr.plus(3 * (index + c) + k));
                        x is None || x == m0.value_at(offsets_ptr.plus(k as int))
                    },
            decreases 3 - i,
        {
            let offset = firsts[i].clone();
            assert(m0.value_at(offsets_ptr.plus(i as nat as int)) == Some(offset.val()));
            let ghost before = *memory;
            let mut copy_i: usize = 0;
            while copy_i < n_copies
                invariant
                    n_copies > 0,
                    3 * (index + n_copies) <= usize::MAX,
                    i < 3,
                    offsets_ptr.offset + 3 <= usize::MAX,
                    m0 == *old(memory),
                    Memory::extends(m0, before),
                    Memory::extends(before, *memory),
                    Memory::same_outside(m0, *memory, offsets_ptr.segment_index, offsets_ptr.segment_index),
                    forall|x: Relocatable|
                        !in_padding(x, offsets_ptr, index as nat, n_copies as nat) ==> #[trigger] memory.value_at(
                            x,
                        ) == m0.value_at(x),
                    copy_i <= n_copies,
                    m0.value_at(offsets_ptr.plus(i as int)) == Some(offset.val()),
                    firsts@.len() == 3,
                    forall|k: nat|
                        k < 3 ==> (#[trigger] m0.value_at(offsets_ptr.plus(k as int))) == Some(
                            firsts@[k as int].val(),
                        ),
                    forall|c: nat, k: nat|
                        c < n_copies && k < i ==> #[trigger] before.value_at(
                            offsets_ptr.plus(3 * (index + c) + k),
                        ) == m0.value_at(offsets_ptr.plus(k as int)),
                    forall|c: nat|
                        c < copy_i ==> #[trigger] memory.value_at(
                            offsets_ptr.plus(3 * (index + c) + i),
                        ) == m0.value_at(offsets_ptr.plus(i as int)),
                    pad == offsets_paddable(m0, offsets_ptr, index as nat, n_copies as nat),
                    pad ==> forall|c: nat, k: nat|
                        c < n_copies && k < 3 ==> {
                            let x = #[trigger] memory.value_at(offsets_ptr.plus(3 * (index + c) + k));
                            x is None || x == m0.value_at(offsets_ptr.plus(k as int))
                        },
                decreases n_copies - copy_i,
            {
                let dst = match offsets_ptr.add_usize(3 * (index + copy_i) + i) {
                    Ok(x) => x,
                    Err(e) => {
                        return Err(RunnerError::Math(e));
                    },
                };
                let ghost prev = *memory;
                proof {
                    if pad {
                        assert(dst == offsets_ptr.plus(3 * (index + copy_i as nat) + i as nat));
                        assert(m0.value_at(offsets_ptr.plus(0)) is Some);
                        assert(prev.has_segment(dst.segment_index));
                    }
                }
                match insert_cell(memory, dst, offset.clone()) {
                    Ok(()) => {},
                    Err(e) => {
                        return Err(e);
                    },
                }
                proof {
                    if pad {
                        assert forall|c: nat, k: nat| c < n_copies && k < 3 implies {
                            let x = #[trigger] memory.value_at(offsets_ptr.plus(3 * (index + c) + k));
                            x is None || x == m0.value_at(offsets_ptr.plus(k as int))
                        } by {
                            if offsets_ptr.plus(3 * (index + c) + k) != dst {
                                assert(memory.value_at(offsets_ptr.plus(3 * (index + c) + k)) == prev.value_at(
                                    offsets_ptr.plus(3 * (index + c) + k),
                                ));
                            }
                        }
                    }
                    assert forall|c: nat| c < copy_i + 1 implies #[trigger] memory.value_at(
                        offsets_ptr.plus(3 * (index + c) + i),
                    ) == m0.value_at(offsets_ptr.plus(i as int)) by {
                        if c < copy_i {
                            assert(prev.value_at(offsets_ptr.plus(3 * (index + c) + i)) is Some);
                        } else {
                            assert(dst == offsets_ptr.plus(3 * (index + c) + i));
                        }
                    }
                }
                copy_i += 1;
            }
            proof {
                assert forall|c: nat, k: nat|
                    c < n_copies && k < i + 1 implies #[trigger] memory.value_at(
                    offsets_ptr.plus(3 * (index + c) + k),
                ) == m0.value_at(offsets_ptr.plus(k as int)) by {
                    if k < i {
                        assert(before.value_at(offsets_ptr.plus(3 * (index + c) + k)) is Some);
                    } else {
                        assert(memory.value_at(offsets_ptr.plus(3 * (index + c) + i)) == m0.value_at(
                            offsets_ptr.plus(i as int),
                        ));
                    }
                }
            }
            i += 1;
        }
        Ok(())
    }

    /// Reads the first header at `ptr`, writes the headers of the other
    /// instances, and pads the offsets table from triple `index` on.
    fn prepare(&self, memory: &mut Memory, ptr: Relocatable, index: usize) -> (r: Result<
        Inputs,
        RunnerError,
    >)
        requires
            self.wf(),
        ensures
            not_stuck(r),
            prepare_ok(*old(memory), ptr, self.shift@, self.instance_def.batch_size as nat, index as nat)
                ==> r is Ok,
            header_ok(*old(memory), ptr, self.shift@) && header_n(*old(memory), ptr) > FILL_MEMORY_MAX
                ==> (r matches Err(RunnerError::FillMemoryMaxExceeded(nm, m)) && nm == builtin_name(
                self.builtin_type,
            ) && m == FILL_MEMORY_MAX),
            r matches Ok(inp) ==> {
                &&& inputs_at(*old(memory), ptr, self.shift@, inp)
                &&& Memory::extends(*old(memory), *final(memory))
                &&& Memory::same_outside(
                    *old(memory),
                    *final(memory),
                    ptr.segment_index,
                    inp.offsets_ptr.segment_index,
                )
                &&& side_prepared(
                    *old(memory),
                    *final(memory),
                    ptr,
                    self.shift@,
                    self.instance_def.batch_size as nat,
                    index as nat,
                )
            },
    {
        let inputs = match self.read_inputs(memory, ptr) {
            Ok(x) => x,
            Err(e) => {
                return Err(e);
            },
        };
        let ghost m0 = *memory;
        match self.fill_inputs(memory, ptr, &inputs) {
            Ok(()) => {},
            Err(e) => {
                return Err(e);
            },
        }
        let ghost m1 = *memory;
        proof {
            if prepare_ok(m0, ptr, self.shift@, self.instance_def.batch_size as nat, index as nat) && inputs.n > index {
                let opp = inputs.offsets_ptr;
                let (idx, nc) = (index as nat, (inputs.n - index) as nat);
                assert(opp.segment_index != ptr.segment_index);
                assert forall|i: nat| i < 3 implies (#[trigger] m1.value_at(opp.plus(i as int))) is Some by {
                    assert(m0.value_at(opp.plus(i as int)) is Some);
                }
                assert forall|c: nat, i: nat| c < nc && i < 3 implies {
                    let x = #[trigger] m1.value_at(opp.plus((3 * (idx + c) + i) as int));
                    x is None || x == m1.value_at(opp.plus(i as int))
                } by {
                    assert(m0.value_at(opp.plus((3 * (idx + c) + i) as int)) == m1.value_at(
                        opp.plus((3 * (idx + c) + i) as int),
                    ));
                    assert(m0.value_at(opp.plus(i as int)) == m1.value_at(opp.plus(i as int)));
                }
                assert(offsets_paddable(m1, opp, idx, nc));
            }
        }
        let n_copies = if inputs.n > index {
            inputs.n - index
        } else {
            0
        };
        match self.fill_offsets(memory, inputs.offsets_ptr, index, n_copies) {
            Ok(()) => {},
            Err(e) => {
                return Err(e);
            },
        }
        proof {
            let batch = self.instance_def.batch_size as nat;
            let total = inputs.n as nat;
            let opp = inputs.offsets_ptr;
            lemma_header_some(m0, ptr, self.shift@);
            assert forall|k: nat| 1 <= k < total / batch implies #[trigger] header_cells(
                *memory,
                m0,
                ptr,
                batch,
                k,
            ) by {
                lemma_header_cells_extends(m1, *memory, m0, ptr, batch, k);
            }
            assert forall|c: nat, i: nat| index + c < total && i < 3 implies #[trigger] memory.value_at(
                opp.plus((3 * (index + c) + i) as int),
            ) == memory.value_at(opp.plus(i as int)) && memory.value_at(opp.plus(i as int)) is Some by {
                assert(memory.value_at(opp.plus(3 * (index + c) + i)) == m1.value_at(
                    opp.plus(i as int),
                ));
                assert(m1.value_at(opp.plus(i as int)) is Some);
            }
        }
        Ok(inputs)
    }

    /// Fills the memory of the `add_mod` and `mul_mod` builtins given as
    /// `(builtin_ptr, runner, n)`, where `n` is the number of triples written
    /// in the offsets table: writes the headers of all instances from the
    /// first one, pads the offsets table up to the first header's `n` with
    /// copies of its first triple, and deduces the missing values of the
    /// first `n` triples of each, trying the `add_mod` side first.
    #[verifier::rlimit(100)]
    pub fn fill_memory(
        memory: &mut Memory,
        add_mod: Option<(Relocatable, &ModBuiltinRunner, usize)>,
        mul_mod: Option<(Relocatable, &ModBuiltinRunner, usize)>,
    ) -> (r: Result<(), RunnerError>)
        requires
            add_mod matches Some((_, run, n)) ==> run.wf() && 3 * n <= usize::MAX,
            mul_mod matches Some((_, run, n)) ==> run.wf() && 3 * n <= usize::MAX,
        ensures
            add_mod is None && mul_mod is None ==> (r matches Err(
                RunnerError::FillMemoryNoBuiltinSet,
            )),
            add_mod is Some && mul_mod is Some && add_mod->Some_0.1.instance_def.word_bit_len
                != mul_mod->Some_0.1.instance_def.word_bit_len ==> (r matches Err(
                RunnerError::ModBuiltinsMismatchedInstanceDef,
            )),
            (add_mod matches Some((ptr, run, n)) && header_ok(*old(memory), ptr, run.shift@)
                && header_n(*old(memory), ptr) > FILL_MEMORY_MAX) && !(mul_mod is Some
                && add_mod->Some_0.1.instance_def.word_bit_len
                != mul_mod->Some_0.1.instance_def.word_bit_len) ==> (r matches Err(
                RunnerError::FillMemoryMaxExceeded(nm, m),
            ) && nm == builtin_name(add_mod->Some_0.1.builtin_type) && m == FILL_MEMORY_MAX),
            r matches Err(RunnerError::FillMemoryCoudNotFillTable(ai, mi)) ==> {
                &&& add_mod is None ==> ai == 0
                &&& add_mod is Some ==> ai <= add_mod->Some_0.2
                &&& add_mod is Some && ai < add_mod->Some_0.2 ==> stuck_at(
                    *final(memory),
                    add_mod->Some_0.1.shift@,
                    rel_at(*final(memory), add_mod->Some_0.0.plus(VALUES_PTR_OFFSET as int)),
                    rel_at(*final(memory), add_mod->Some_0.0.plus(OFFSETS_PTR_OFFSET as int)),
                    ai as nat,
                )
                &&& mul_mod is None ==> mi == 0
                &&& mul_mod is Some ==> mi <= mul_mod->Some_0.2
                &&& mul_mod is Some && mi < mul_mod->Some_0.2 ==> stuck_at(
                    *final(memory),
                    mul_mod->Some_0.1.shift@,
                    rel_at(*final(memory), mul_mod->Some_0.0.plus(VALUES_PTR_OFFSET as int)),
                    rel_at(*final(memory), mul_mod->Some_0.0.plus(OFFSETS_PTR_OFFSET as int)),
                    mi as nat,
                )
            },
            add_mod is None && mul_mod is None ==> *final(memory) == *old(memory),
            add_mod is Some && mul_mod is Some && add_mod->Some_0.1.instance_def.word_bit_len
                != mul_mod->Some_0.1.instance_def.word_bit_len ==> *final(memory) == *old(memory),
            r is Ok ==> Memory::extends(*old(memory), *final(memory)),
            r is Ok ==> (add_mod matches Some((ptr, run, n)) ==> side_filled(
                *old(memory),
                *final(memory),
                ptr,
                run.shift@,
                run.instance_def.batch_size as nat,
                n as nat,
            )),
            r is Ok ==> (mul_mod matches Some((ptr, run, n)) ==> exists|m: Memory|
                Memory::extends(*old(memory), m) && Memory::extends(m, *final(memory))
                    && #[trigger] side_filled(
                    m,
                    *final(memory),
                    ptr,
                    run.shift@,
                    run.instance_def.batch_size as nat,
                    n as nat,
                )),
            (add_mod is Some || mul_mod is Some) && (add_mod matches Some((ptr, run, n)) ==> ready_side(
                *old(memory),
                ptr,
                run.shift@,
                run.instance_def.batch_size as nat,
                n as nat,
                ModBuiltinType::Add,
            )) && (mul_mod matches Some((ptr, run, n)) ==> ready_side(
                *old(memory),
                ptr,
                run.shift@,
                run.instance_def.batch_size as nat,
                n as nat,
                ModBuiltinType::Mul,
            )) && (add_mod is Some && mul_mod is Some ==> add_mod->Some_0.1.instance_def.word_bit_len
                == mul_mod->Some_0.1.instance_def.word_bit_len && sides_apart(
                *old(memory),
                add_mod->Some_0.0,
                add_mod->Some_0.2 as nat,
                mul_mod->Some_0.0,
                mul_mod->Some_0.2 as nat,
            ) && layouts_apart(*old(memory), add_mod->Some_0.0, mul_mod->Some_0.0)) ==> r is Ok,
            (r is Ok && (add_mod matches Some((ptr, run, n)) ==> sound_side(
                *old(memory),
                ptr,
                run.shift@,
                n as nat,
                ModBuiltinType::Add,
            )) && (mul_mod matches Some((ptr, run, n)) ==> sound_side(
                *old(memory),
                ptr,
                run.shift@,
                n as nat,
                ModBuiltinType::Mul,
            )) && (add_mod is Some && mul_mod is Some ==> sides_apart(
                *old(memory),
                add_mod->Some_0.0,
                add_mod->Some_0.2 as nat,
                mul_mod->Some_0.0,
                mul_mod->Some_0.2 as nat,
            ))) ==> (add_mod matches Some((ptr, run, n)) ==> triples_hold(
                *old(memory),
                *final(memory),
                ptr,
                run.shift@,
                n as nat,
                ModBuiltinType::Add,
            )) && (mul_mod matches Some((ptr, run, n)) ==> triples_hold(
                *old(memory),
                *final(memory),
                ptr,
                run.shift@,
                n as nat,
                ModBuiltinType::Mul,
            )),
    {
        if add_mod.is_none() && mul_mod.is_none() {
            return Err(RunnerError::FillMemoryNoBuiltinSet);
        }
        if let (Some((_, add_run, _)), Some((_, mul_run, _))) = (add_mod, mul_mod) {
            if add_run.instance_def.word_bit_len != mul_run.instance_def.word_bit_len {
                return Err(RunnerError::ModBuiltinsMismatchedInstanceDef);
            }
        }
        let ghost m0 = *memory;
        let (add_inputs, add_n) = match add_mod {
            Some((ptr, run, index)) => match run.prepare(memory, ptr, index) {
                Ok(inp) => (Some(inp), index),
                Err(e) => {
                    return Err(e);
                },
            },
            None => (None, 0),
        };
        let ghost m_add = *memory;
        let ghost go = (add_mod is Some || mul_mod is Some) && (add_mod matches Some((ptr, run, n)) ==> ready_side(
            m0,
            ptr,
            run.shift@,
            run.instance_def.batch_size as nat,
            n as nat,
            ModBuiltinType::Add,
        )) && (mul_mod matches Some((ptr, run, n)) ==> ready_side(
            m0,
            ptr,
            run.shift@,
            run.instance_def.batch_size as nat,
            n as nat,
            ModBuiltinType::Mul,
        )) && (add_mod is Some && mul_mod is Some ==> add_mod->Some_0.1.instance_def.word_bit_len
            == mul_mod->Some_0.1.instance_def.word_bit_len && sides_apart(
            m0,
            add_mod->Some_0.0,
            add_mod->Some_0.2 as nat,
            mul_mod->Some_0.0,
            mul_mod->Some_0.2 as nat,
        ) && layouts_apart(m0, add_mod->Some_0.0, mul_mod->Some_0.0));
        proof {
            if go {
                if let Some((p2, run2, n2)) = mul_mod {
                    if let Some((p1, run1, n1)) = add_mod {
                        lemma_prepare_ok_untouched(
                            m0,
                            m_add,
                            p2,
                            run2.shift@,
                            run2.instance_def.batch_size as nat,
                            n2 as nat,
                            p1.segment_index,
                            add_inputs->Some_0.offsets_ptr.segment_index,
                        );
                    }
                }
            }
        }
        let (mul_inputs, mul_n) = match mul_mod {
            Some((ptr, run, index)) => match run.prepare(memory, ptr, index) {
                Ok(inp) => (Some(inp), index),
                Err(e) => {
                    return Err(e);
                },
            },
            None => (None, 0),
        };
        let ghost m_mul = *memory;
        let mod_runner = match add_mod {
            Some((_, run, _)) => run,
            None => match mul_mod {
                Some((_, run, _)) => run,
                None => {
                    return Err(RunnerError::FillMemoryNoBuiltinSet);
                },
            },
        };
        let ghost s = mod_runner.shift@;
        proof {
            if add_mod is Some && mul_mod is Some {
                assert(add_mod->Some_0.1.shift@ == mul_mod->Some_0.1.shift@);
            }
        }
        proof {
            let law = (add_mod matches Some((ptr, run, n)) ==> sound_side(
                m0,
                ptr,
                run.shift@,
                n as nat,
                ModBuiltinType::Add,
            )) && (mul_mod matches Some((ptr, run, n)) ==> sound_side(
                m0,
                ptr,
                run.shift@,
                n as nat,
                ModBuiltinType::Mul,
            )) && (add_mod is Some && mul_mod is Some ==> sides_apart(
                m0,
                add_mod->Some_0.0,
                add_mod->Some_0.2 as nat,
                mul_mod->Some_0.0,
                mul_mod->Some_0.2 as nat,
            ));
            if law {
                lemma_sound_setup(m0, m_add, m_mul, s, add_mod, add_inputs, mul_mod, mul_inputs);
            }
        }
        proof {
            if go {
                lemma_ready_setup(m0, m_add, m_mul, s, add_mod, add_inputs, mul_mod, mul_inputs);
            }
        }
        match mod_runner.deduce(memory, &add_inputs, add_n, &mul_inputs, mul_n) {
            Ok(()) => {},
            Err(e) => {
                return Err(e);
            },
        }
        proof {
            if let Some((ptr, run, n)) = add_mod {
                lemma_side_prepared_extends(m0, m_add, *memory, ptr, s, run.instance_def.batch_size as nat, n as nat);
            }
            if let Some((ptr, run, n)) = mul_mod {
                lemma_side_prepared_extends(m_add, m_mul, *memory, ptr, s, run.instance_def.batch_size as nat, n as nat);
                assert(side_filled(m_add, *memory, ptr, run.shift@, run.instance_def.batch_size as nat, n as nat));
            }
        }
        Ok(())
    }

    /// Deduces the missing values of the first `add_n` triples of the
    /// `add_mod` builtin and the first `mul_n` of the `mul_mod` builtin,
    /// trying the `add_mod` side first at each step, until both are done or
    /// neither can move.
    #[verifier::rlimit(100)]
    #[verifier::spinoff_prover]
    fn deduce(
        &self,
        memory: &mut Memory,
        add_inputs: &Option<Inputs>,
        add_n: usize,
        mul_inputs: &Option<Inputs>,
        mul_n: usize,
    ) -> (r: Result<(), RunnerError>)
        requires
            self.wf(),
            add_inputs is None ==> add_n == 0,
            mul_inputs is None ==> mul_n == 0,
            3 * add_n <= usize::MAX,
            3 * mul_n <= usize::MAX,
        ensures
            r is Ok ==> Memory::extends(*old(memory), *final(memory)),
            r is Ok ==> (add_inputs matches Some(inp) ==> triples_filled(
                *final(memory),
                self.shift@,
                inp.values_ptr,
                inp.offsets_ptr,
                add_n as nat,
            )),
            r is Ok ==> (mul_inputs matches Some(inp) ==> triples_filled(
                *final(memory),
                self.shift@,
                inp.values_ptr,
                inp.offsets_ptr,
                mul_n as nat,
            )),
            r is Ok && inputs_sound(*old(memory), self.shift@, *add_inputs, add_n as nat, ModBuiltinType::Add)
                && inputs_sound(*old(memory), self.shift@, *mul_inputs, mul_n as nat, ModBuiltinType::Mul)
                && inputs_apart(*old(memory), *add_inputs, add_n as nat, *mul_inputs, mul_n as nat)
                ==> inputs_sound(*final(memory), self.shift@, *add_inputs, add_n as nat, ModBuiltinType::Add)
                && inputs_sound(*final(memory), self.shift@, *mul_inputs, mul_n as nat, ModBuiltinType::Mul)
                && values_settled(*old(memory), *final(memory), self.shift@, *add_inputs, add_n as nat)
                && values_settled(*old(memory), *final(memory), self.shift@, *mul_inputs, mul_n as nat),
            inputs_sound(*old(memory), self.shift@, *add_inputs, add_n as nat, ModBuiltinType::Add)
                && inputs_sound(*old(memory), self.shift@, *mul_inputs, mul_n as nat, ModBuiltinType::Mul)
                && inputs_apart(*old(memory), *add_inputs, add_n as nat, *mul_inputs, mul_n as nat)
                && inputs_deducible(*old(memory), self.shift@, *add_inputs, 0, add_n as nat, ModBuiltinType::Add)
                && inputs_deducible(*old(memory), self.shift@, *mul_inputs, 0, mul_n as nat, ModBuiltinType::Mul)
                ==> r is Ok,
            r matches Err(RunnerError::FillMemoryCoudNotFillTable(ai, mi)) ==> {
                &&& Memory::extends(*old(memory), *final(memory))
                &&& ai <= add_n && mi <= mul_n && (ai < add_n || mi < mul_n)
                &&& add_inputs is Some && ai < add_n ==> stuck_at(
                    *final(memory),
                    self.shift@,
                    add_inputs->Some_0.values_ptr,
                    add_inputs->Some_0.offsets_ptr,
                    ai as nat,
                )
                &&& mul_inputs is Some && mi < mul_n ==> stuck_at(
                    *final(memory),
                    self.shift@,
                    mul_inputs->Some_0.values_ptr,
                    mul_inputs->Some_0.offsets_ptr,
                    mi as nat,
                )
            },
    {
        let div_operation = match mul_inputs {
            Some(inp) => Operation::DivMod(inp.p.clone()),
            None => Operation::DivMod(nat_from_u64(0)),
        };
        let ghost s = self.shift@;
        let ghost m0 = *memory;
        let ghost sound = inputs_sound(m0, s, *add_inputs, add_n as nat, ModBuiltinType::Add)
            && inputs_sound(m0, s, *mul_inputs, mul_n as nat, ModBuiltinType::Mul)
            && inputs_apart(m0, *add_inputs, add_n as nat, *mul_inputs, mul_n as nat);
        let ghost ready = sound && inputs_deducible(m0, s, *add_inputs, 0, add_n as nat, ModBuiltinType::Add)
            && inputs_deducible(m0, s, *mul_inputs, 0, mul_n as nat, ModBuiltinType::Mul);
        proof {
            if sound {
                lemma_sound_state_init(m0, s, *add_inputs, add_n as nat, *mul_inputs, mul_n as nat);
            }
        }
        let mut add_index: usize = 0;
        let mut mul_index: usize = 0;
        while add_index < add_n || mul_index < mul_n
            invariant
                self.wf(),
                s == self.shift@,
                m0 == *old(memory),
                add_inputs is None ==> add_n == 0,
                mul_inputs is None ==> mul_n == 0,
                3 * add_n <= usize::MAX,
                3 * mul_n <= usize::MAX,
                mul_inputs matches Some(inp) ==> div_operation is DivMod && div_operation->DivMod_0@
                    == inp.p@,
                add_index <= add_n,
                mul_index <= mul_n,
                Memory::extends(m0, *memory),
                add_inputs matches Some(inp) ==> triples_filled(
                    *memory,
                    s,
                    inp.values_ptr,
                    inp.offsets_ptr,
                    add_index as nat,
                ),
                mul_inputs matches Some(inp) ==> triples_filled(
                    *memory,
                    s,
                    inp.values_ptr,
                    inp.offsets_ptr,
                    mul_index as nat,
                ),
                sound == (inputs_sound(m0, s, *add_inputs, add_n as nat, ModBuiltinType::Add)
                    && inputs_sound(m0, s, *mul_inputs, mul_n as nat, ModBuiltinType::Mul)
                    && inputs_apart(m0, *add_inputs, add_n as nat, *mul_inputs, mul_n as nat)),
                ready == (sound && inputs_deducible(m0, s, *add_inputs, 0, add_n as nat, ModBuiltinType::Add)
                    && inputs_deducible(m0, s, *mul_inputs, 0, mul_n as nat, ModBuiltinType::Mul)),
                ready ==> inputs_deducible(*memory, s, *add_inputs, add_index as nat, add_n as nat, ModBuiltinType::Add)
                    && inputs_deducible(*memory, s, *mul_inputs, mul_index as nat, mul_n as nat, ModBuiltinType::Mul),
                sound ==> sound_state(m0, *memory, s, *add_inputs, add_n as nat, *mul_inputs, mul_n as nat),
            decreases (add_n - add_index) + (mul_n - mul_index),
        {
            let ghost before = *memory;
            let mut advanced = false;
            if add_index < add_n {
                if let Some(inp) = add_inputs {
                    proof {
                        if ready {
                            assert(deducible(before, s, inp.values_ptr, inp.offsets_ptr, add_index as nat, ModBuiltinType::Add, inp.p@));
                            lemma_deducible_reads(before, s, inp.values_ptr, inp.offsets_ptr, add_index as nat, ModBuiltinType::Add, inp.p@);
                        }
                    }
                    match self.fill_value(memory, inp, add_index, &Operation::Add, &Operation::Sub) {
                        Ok(true) => {
                            advanced = true;
                            proof {
                                if sound {
                                    lemma_sound_state_open(m0, before, s, *add_inputs, add_n as nat, *mul_inputs, mul_n as nat);
                                }
                                if ready {
                                    lemma_deducible_step(
                                        before,
                                        *memory,
                                        s,
                                        *add_inputs,
                                        add_index as nat,
                                        add_n as nat,
                                        *mul_inputs,
                                        mul_index as nat,
                                        mul_n as nat,
                                        true,
                                    );
                                }
                                if sound {
                                    lemma_sound_state_step(
                                        m0,
                                        before,
                                        *memory,
                                        s,
                                        *add_inputs,
                                        add_n as nat,
                                        *mul_inputs,
                                        mul_n as nat,
                                        true,
                                        add_index as nat,
                                    );
                                }
                            }
                        },
                        Ok(false) => {},
                        Err(e) => {
                            return Err(e);
                        },
                    }
                }
            }
            if advanced {
                add_index += 1;
            } else if mul_index < mul_n {
                if let Some(inp) = mul_inputs {
                    proof {
                        if ready {
                            assert(deducible(before, s, inp.values_ptr, inp.offsets_ptr, mul_index as nat, ModBuiltinType::Mul, inp.p@));
                            lemma_deducible_reads(before, s, inp.values_ptr, inp.offsets_ptr, mul_index as nat, ModBuiltinType::Mul, inp.p@);
                        }
                    }
                    match self.fill_value(memory, inp, mul_index, &Operation::Mul, &div_operation) {
                        Ok(true) => {
                            advanced = true;
                            proof {
                                if sound {
                                    lemma_sound_state_open(m0, before, s, *add_inputs, add_n as nat, *mul_inputs, mul_n as nat);
                                }
                                if ready {
                                    lemma_deducible_step(
                                        before,
                                        *memory,
                                        s,
                                        *add_inputs,
                                        add_index as nat,
                                        add_n as nat,
                                        *mul_inputs,
                                        mul_index as nat,
                                        mul_n as nat,
                                        false,
                                    );
                                }
                                if sound {
                                    lemma_sound_state_step(
                                        m0,
                                        before,
                                        *memory,
                                        s,
                                        *add_inputs,
                                        add_n as nat,
                                        *mul_inputs,
                                        mul_n as nat,
                                        false,
                                        mul_index as nat,
                                    );
                                }
                            }
                        },
                        Ok(false) => {},
                        Err(e) => {
                            return Err(e);
                        },
                    }
                }
                if advanced {
                    mul_index += 1;
                }
            }
            if !advanced {
                return Err(RunnerError::FillMemoryCoudNotFillTable(add_index, mul_index));
            }
            proof {
                if add_inputs is Some {
                    let inp = add_inputs->Some_0;
                    assert forall|j: nat, k: nat| j < add_index && k < 3 implies (#[trigger] operand_value(
                        *memory,
                        s,
                        inp.values_ptr,
                        inp.offsets_ptr,
                        j,
                        k,
                    )) is Some by {
                        lemma_operand_value_extends(before, *memory, s, inp.values_ptr, inp.offsets_ptr, j, k);
                    }
                }
                if mul_inputs is Some {
                    let inp = mul_inputs->Some_0;
                    assert forall|j: nat, k: nat| j < mul_index && k < 3 implies (#[trigger] operand_value(
                        *memory,
                        s,
                        inp.values_ptr,
                        inp.offsets_ptr,
                        j,
                        k,
                    )) is Some by {
                        lemma_operand_value_extends(before, *memory, s, inp.values_ptr, inp.offsets_ptr, j, k);
                    }
                }
            }
        }
        proof {
            if sound {
                lemma_sound_state_open(m0, *memory, s, *add_inputs, add_n as nat, *mul_inputs, mul_n as nat);
            }
        }
        Ok(())
    }

    /// Checks that the header `inputs` of an instance follows the header `pv`
    /// of the previous one.
    fn check_chain(&self, instance: usize, pv: &Inputs, inputs: &Inputs) -> (r: Result<(), RunnerError>)
        requires
            self.wf(),
            inputs.p_values@.len() == N_WORDS,
            pv.p_values@.len() == N_WORDS,
        ensures
            r is Ok <==> inputs_chained(*pv, *inputs, self.instance_def.batch_size as nat),
    {
        let batch = self.instance_def.batch_size;
        if pv.n <= batch {
            return Ok(());
        }
        let mut i: usize = 0;
        while i < N_WORDS
            invariant
                i <= N_WORDS,
                batch == self.instance_def.batch_size,
                pv.n > batch,
                inputs.p_values@.len() == N_WORDS,
                pv.p_values@.len() == N_WORDS,
                forall|j: int| 0 <= j < i ==> #[trigger] inputs.p_values@[j]@ == pv.p_values@[j]@,
            decreases N_WORDS - i,
        {
            if !nat_eq(&inputs.p_values[i], &pv.p_values[i]) {
                assert(inputs.p_values@[i as int]@ != pv.p_values@[i as int]@);
                assert(!inputs_chained(*pv, *inputs, batch as nat));
                return Err(
                    RunnerError::ModBuiltinSecurityCheck(
                        self.name(),
                        SecurityCheckFailure::PValues { instance, i },
                    ),
                );
            }
            i += 1;
        }
        if inputs.values_ptr != pv.values_ptr {
            return Err(
                RunnerError::ModBuiltinSecurityCheck(
                    self.name(),
                    SecurityCheckFailure::ValuesPtr { instance },
                ),
            );
        }
        let expected = match pv.offsets_ptr.add_usize(3 * batch) {
            Ok(x) => x,
            Err(e) => {
                return Err(RunnerError::Math(e));
            },
        };
        if inputs.offsets_ptr != expected {
            return Err(
                RunnerError::ModBuiltinSecurityCheck(
                    self.name(),
                    SecurityCheckFailure::OffsetsPtr { instance },
                ),
            );
        }
        if inputs.n != pv.n - batch {
            return Err(
                RunnerError::ModBuiltinSecurityCheck(
                    self.name(),
                    SecurityCheckFailure::N { instance, n: inputs.n, prev_n: pv.n },
                ),
            );
        }
        Ok(())
    }

    /// Checks that triple `index_in_batch` of the instance with header
    /// `inputs` satisfies `a op b == c (mod p)`.
    fn check_triple(&self, memory: &Memory, inputs: &Inputs, instance: usize, index_in_batch: usize) -> (r:
        Result<(), RunnerError>)
        requires
            self.wf(),
            index_in_batch < self.instance_def.batch_size,
        ensures
            r is Ok <==> inputs_triple_ok(
                *memory,
                self.shift@,
                self.builtin_type,
                *inputs,
                index_in_batch as nat,
            ),            ({
                let (vp, opp, p) = (inputs.values_ptr, inputs.offsets_ptr, inputs.p@);
                let (sh, i) = (self.shift@, index_in_batch as nat);
                operand_value(*memory, sh, vp, opp, i, 0) is Some && operand_value(*memory, sh, vp, opp, i, 1)
                    is Some && operand_value(*memory, sh, vp, opp, i, 2) is Some && p > 0 && !op_holds(
                    self.builtin_type,
                    operand_value(*memory, sh, vp, opp, i, 0)->Some_0,
                    operand_value(*memory, sh, vp, opp, i, 1)->Some_0,
                    operand_value(*memory, sh, vp, opp, i, 2)->Some_0,
                    p,
                )
            }) ==> (r matches Err(
                RunnerError::ModBuiltinSecurityCheck(nm, SecurityCheckFailure::Triple { instance: k, index_in_batch: j, .. }),
            ) && nm == builtin_name(self.builtin_type) && k == instance && j == index_in_batch),
    {
        let (a, b, c) = match self.read_memory_vars(
            memory,
            inputs.values_ptr,
            inputs.offsets_ptr,
            index_in_batch,
        ) {
            Ok(x) => x,
            Err(e) => {
                return Err(e);
            },
        };
        let op = match self.builtin_type {
            ModBuiltinType::Add => Operation::Add,
            ModBuiltinType::Mul => Operation::Mul,
        };
        let a_op_b = match apply_op(&a, &b, &op) {
            Ok(x) => x,
            Err(e) => {
                return Err(RunnerError::Math(e));
            },
        };
        let lhs = match reduce(&a_op_b, &inputs.p) {
            Ok(x) => x,
            Err(e) => {
                return Err(e);
            },
        };
        let (_, rhs) = nat_div_mod_floor(&c, &inputs.p);
        if !nat_eq(&lhs, &rhs) {
            return Err(
                RunnerError::ModBuiltinSecurityCheck(
                    self.name(),
                    SecurityCheckFailure::Triple {
                        instance,
                        index_in_batch,
                        p: inputs.p.clone(),
                        a,
                        b,
                        c,
                    },
                ),
            );
        }
        Ok(())
    }

    /// Checks every instance of this builtin's segment: each header is
    /// valid and follows the previous one, each triple satisfies
    /// `a op b == c (mod p)`, and the last instance has `n == batch_size`.
    #[verifier::rlimit(100)]
    pub fn run_additional_security_checks(&self, memory: &Memory) -> (r: Result<(), RunnerError>)
        requires
            self.wf(),
        ensures
            r is Ok <==> memory.has_segment(self.base as isize) && security_ok(
                *memory,
                self.base,
                self.shift@,
                self.builtin_type,
                self.instance_def.batch_size as nat,
            ),            !memory.has_segment(self.base as isize) ==> (r matches Err(
                RunnerError::Memory(MemoryError::MissingSegmentUsedSizes),
            )),
            forall|k: nat, idx: nat|
                #[trigger] first_wrong_triple(
                    *memory,
                    self.base,
                    self.shift@,
                    self.builtin_type,
                    self.instance_def.batch_size as nat,
                    k,
                    idx,
                ) ==> (r matches Err(
                    RunnerError::ModBuiltinSecurityCheck(
                        nm,
                        SecurityCheckFailure::Triple { instance: i, index_in_batch: j, .. },
                    ),
                ) && nm == builtin_name(self.builtin_type) && i == k && j == idx),
    {
        let segment_size = match memory.get_segment_used_size(self.base) {
            Some(x) => x,
            None => {
                return Err(RunnerError::Memory(MemoryError::MissingSegmentUsedSizes));
            },
        };
        let n_instances = if segment_size % INPUT_CELLS == 0 {
            segment_size / INPUT_CELLS
        } else {
            segment_size / INPUT_CELLS + 1
        };
        let batch = self.instance_def.batch_size;
        let ghost s = self.shift@;
        let ghost t = self.builtin_type;
        let ghost mem = *memory;
        proof {
            assert(self.base as isize as int == self.base as int);
            assert(memory.has_segment(self.base as isize));
            assert(memory.data@[self.base as int]@.len() == segment_size);
            assert(memory.segment_len(self.base as isize) == segment_size);
            assert(n_instances * INPUT_CELLS < segment_size + INPUT_CELLS) by (nonlinear_arith)
                requires
                    n_instances == if segment_size % INPUT_CELLS == 0 {
                        (segment_size / INPUT_CELLS) as int
                    } else {
                        segment_size / INPUT_CELLS + 1
                    },
            ;
        }
        let mut prev: Option<Inputs> = None;
        let mut instance: usize = 0;
        while instance < n_instances
            invariant
                self.wf(),
                batch == self.instance_def.batch_size,
                s == self.shift@,
                t == self.builtin_type,
                mem == *memory,
                memory.has_segment(self.base as isize),
                n_instances == ceil_div(memory.segment_len(self.base as isize), INPUT_CELLS as nat),
                n_instances * INPUT_CELLS < segment_size + INPUT_CELLS,
                segment_size == memory.segment_len(self.base as isize),
                instance <= n_instances,
                instance == 0 <==> prev is None,
                prev matches Some(pv) ==> inputs_at(
                    mem,
                    instance_addr(self.base, (instance - 1) as nat),
                    s,
                    pv,
                ),
                forall|k: nat| k < instance ==> #[trigger] instance_ok(mem, self.base, k, s, t, batch as nat),
            decreases n_instances - instance,
        {
            proof {
                assert(instance * INPUT_CELLS < segment_size) by (nonlinear_arith)
                    requires
                        instance < n_instances,
                        n_instances * INPUT_CELLS < segment_size + INPUT_CELLS,
                ;
            }
            let addr = Relocatable { segment_index: self.base as isize, offset: instance * INPUT_CELLS };
            assert(addr == instance_addr(self.base, instance as nat));
            let inputs = match self.read_inputs(memory, addr) {
                Ok(x) => x,
                Err(e) => {
                    proof {
                        assert(!instance_ok(mem, self.base, instance as nat, s, t, batch as nat));
                        assert forall|k: nat, idx: nat| !#[trigger] first_wrong_triple(mem, self.base, s, t, batch as nat, k, idx) by {
                            if k < instance {
                                assert(instance_ok(mem, self.base, k, s, t, batch as nat));
                                lemma_ok_instance_not_wrong(mem, self.base, s, t, batch as nat, k);
                            }
                        }
                    }
                    return Err(e);
                },
            };
            if let Some(pv) = &prev {
                let checked = self.check_chain(instance, pv, &inputs);
                proof {
                    assert(instance_ok(mem, self.base, (instance - 1) as nat, s, t, batch as nat));
                    lemma_chained(
                        mem,
                        instance_addr(self.base, (instance - 1) as nat),
                        addr,
                        s,
                        batch as nat,
                        *pv,
                        inputs,
                    );
                }
                match checked {
                    Ok(()) => {},
                    Err(e) => {
                        proof {
                            assert(!instance_ok(mem, self.base, instance as nat, s, t, batch as nat));
                            assert forall|k: nat, idx: nat| !#[trigger] first_wrong_triple(mem, self.base, s, t, batch as nat, k, idx) by {
                                if k < instance {
                                    assert(instance_ok(mem, self.base, k, s, t, batch as nat));
                                    lemma_ok_instance_not_wrong(mem, self.base, s, t, batch as nat, k);
                                }
                            }
                        }
                        return Err(e);
                    },
                }
            }
            let mut index_in_batch: usize = 0;
            while index_in_batch < batch
                invariant
                    self.wf(),
                    batch == self.instance_def.batch_size,
                    s == self.shift@,
                    t == self.builtin_type,
                    mem == *memory,
                    header_ok(mem, addr, s),
                    inputs_at(mem, addr, s, inputs),
                    addr == instance_addr(self.base, instance as nat),
                    instance < n_instances,
                    n_instances == ceil_div(memory.segment_len(self.base as isize), INPUT_CELLS as nat),
                    index_in_batch <= batch,
                    forall|idx: nat| idx < index_in_batch ==> #[trigger] triple_ok(mem, addr, s, t, idx),
                    forall|k: nat| k < instance ==> #[trigger] instance_ok(mem, self.base, k, s, t, batch as nat),
                    instance > 0 ==> chained(mem, instance_addr(self.base, (instance - 1) as nat), addr, batch as nat),
                decreases batch - index_in_batch,
            {
                let checked = self.check_triple(memory, &inputs, instance, index_in_batch);
                proof {
                    lemma_triple_ok_inputs(mem, addr, s, t, inputs, index_in_batch as nat);
                }
                match checked {
                    Ok(()) => {},
                    Err(e) => {
                        proof {
                            assert(!triple_ok(mem, addr, s, t, index_in_batch as nat));
                            assert(!instance_ok(mem, self.base, instance as nat, s, t, batch as nat));
                            assert(rel_at(mem, addr.plus(VALUES_PTR_OFFSET as int)) == inputs.values_ptr);
                            assert(rel_at(mem, addr.plus(OFFSETS_PTR_OFFSET as int)) == inputs.offsets_ptr);
                            assert(header_p(mem, addr, s) == inputs.p@);
                            assert forall|k: nat, idx: nat| #[trigger] first_wrong_triple(mem, self.base, s, t, batch as nat, k, idx) implies k == instance
                                && idx == index_in_batch by {
                                if k < instance {
                                    assert(instance_ok(mem, self.base, k, s, t, batch as nat));
                                    lemma_ok_instance_not_wrong(mem, self.base, s, t, batch as nat, k);
                                }
                                if k == instance && idx < index_in_batch {
                                    assert(triple_ok(mem, addr, s, t, idx));
                                }
                            }
                        }
                        return Err(e);
                    },
                }
                index_in_batch += 1;
            }
            prev = Some(inputs);
            instance += 1;
        }
        proof {
            assert forall|k: nat, idx: nat| !#[trigger] first_wrong_triple(mem, self.base, s, t, batch as nat, k, idx) by {
                if k < instance {
                    assert(instance_ok(mem, self.base, k, s, t, batch as nat));
                    lemma_ok_instance_not_wrong(mem, self.base, s, t, batch as nat, k);
                }
            }
        }
        if let Some(pv) = &prev {
            if pv.n != batch {
                return Err(
                    RunnerError::ModBuiltinSecurityCheck(
                        self.name(),
                        SecurityCheckFailure::LastN { prev_n: pv.n, batch_size: batch },
                    ),
                );
            }
        }
        Ok(())
    }

    /// After the words of `x` are written at the address of operand `k`,
    /// that operand holds `x` and the others keep their addresses and values.
    proof fn lemma_after_write(
        &self,
        m0: Memory,
        m1: Memory,
        inputs: &Inputs,
        index: usize,
        k: nat,
        t: Relocatable,
        x: nat,
    )
        requires
            self.wf(),
            k < 3,
            operand_addr(m0, inputs.values_ptr, inputs.offsets_ptr, index as nat, k) == Some(t),
            words_written(m0, m1, t, x, self.shift@),
            Memory::extends(m0, m1),
            x < pow(self.shift@ as int, N_WORDS as nat),
        ensures
            operand_value(m1, self.shift@, inputs.values_ptr, inputs.offsets_ptr, index as nat, k)
                == Some(x),
            forall|j: nat|
                j < 3 && (#[trigger] operand_value(
                    m0,
                    self.shift@,
                    inputs.values_ptr,
                    inputs.offsets_ptr,
                    index as nat,
                    j,
                )) is Some ==> operand_value(
                    m1,
                    self.shift@,
                    inputs.values_ptr,
                    inputs.offsets_ptr,
                    index as nat,
                    j,
                ) == operand_value(
                    m0,
                    self.shift@,
                    inputs.values_ptr,
                    inputs.offsets_ptr,
                    index as nat,
                    j,
                ),
    {
        let (s, vp, opp, i) = (self.shift@, inputs.values_ptr, inputs.offsets_ptr, index as nat);
        lemma_operand_addr_extends(m0, m1, vp, opp, i, k);
        lemma_codec_round_trip(m0, m1, t, x, s);
        assert forall|j: nat|
            j < 3 && (#[trigger] operand_value(m0, s, vp, opp, i, j)) is Some implies operand_value(
            m1,
            s,
            vp,
            opp,
            i,
            j,
        ) == operand_value(m0, s, vp, opp, i, j) by {
            lemma_operand_addr_extends(m0, m1, vp, opp, i, j);
            let a = operand_addr(m0, vp, opp, i, j)->Some_0;
            lemma_extends_stored(m0, m1, a, s);
        }
    }

    /// The address of operand `k` of triple `index`, and its value when all
    /// its words are there.
    fn read_operand_opt(
        &self,
        memory: &Memory,
        values_ptr: Relocatable,
        offsets_ptr: Relocatable,
        index: usize,
        k: usize,
    ) -> (r: Result<(Relocatable, Option<BigNat>), RunnerError>)
        requires
            self.wf(),
            k < 3,
            3 * index + k <= usize::MAX,
        ensures
            not_stuck(r),
            r is Ok <==> operand_readable(
                *memory,
                self.shift@,
                values_ptr,
                offsets_ptr,
                index as nat,
                k as nat,
            ),
            r matches Ok((a, v)) ==> {
                &&& operand_addr(*memory, values_ptr, offsets_ptr, index as nat, k as nat) == Some(a)
                &&& v is Some <==> operand_value(
                    *memory,
                    self.shift@,
                    values_ptr,
                    offsets_ptr,
                    index as nat,
                    k as nat,
                ) is Some
                &&& v matches Some(x) ==> operand_value(
                    *memory,
                    self.shift@,
                    values_ptr,
                    offsets_ptr,
                    index as nat,
                    k as nat,
                ) == Some(x@)
            },
    {
        let cell = match offsets_ptr.add_usize(3 * index + k) {
            Ok(x) => x,
            Err(e) => {
                return Err(RunnerError::Math(e));
            },
        };
        let offset = match get_usize(memory, cell) {
            Ok(x) => x,
            Err(e) => {
                return Err(e);
            },
        };
        let addr = match values_ptr.add_usize(offset) {
            Ok(x) => x,
            Err(e) => {
                return Err(RunnerError::Math(e));
            },
        };
        match self.read_n_words_value(memory, addr) {
            Ok((_, v)) => Ok((addr, v)),
            Err(e) => Err(e),
        }
    }

    /// Fills the missing value of triple `index` when exactly one of `a`,
    /// `b` and `c` is missing, computing it with `op` or its inverse
    /// `inv_op`. Returns true on success or when all three are known, and
    /// false, changing nothing, when two or more are missing.
    pub fn fill_value(
        &self,
        memory: &mut Memory,
        inputs: &Inputs,
        index: usize,
        op: &Operation,
        inv_op: &Operation,
    ) -> (r: Result<bool, RunnerError>)
        requires
            self.wf(),
            3 * index + 2 <= usize::MAX,
            ops_match(*op, *inv_op, inputs.p@),
        ensures
            not_stuck(r),
            ({
                let (m0, m1) = (*old(memory), *final(memory));
                let (s, vp, opp, i) = (self.shift@, inputs.values_ptr, inputs.offsets_ptr, index as nat);
                let (a0, b0, c0) = (
                    operand_value(m0, s, vp, opp, i, 0),
                    operand_value(m0, s, vp, opp, i, 1),
                    operand_value(m0, s, vp, opp, i, 2),
                );
                let (a1, b1, c1) = (
                    operand_value(m1, s, vp, opp, i, 0),
                    operand_value(m1, s, vp, opp, i, 1),
                    operand_value(m1, s, vp, opp, i, 2),
                );
                let readable = operand_readable(m0, s, vp, opp, i, 0) && operand_readable(
                    m0,
                    s,
                    vp,
                    opp,
                    i,
                    1,
                ) && operand_readable(m0, s, vp, opp, i, 2);
                &&& r matches Ok(false) ==> m1 == m0 && n_missing(a0, b0, c0) >= 2
                &&& r matches Ok(true) ==> {
                    &&& Memory::extends(m0, m1)
                    &&& a1 is Some && b1 is Some && c1 is Some
                    &&& a0 is Some ==> a1 == a0
                    &&& b0 is Some ==> b1 == b0
                    &&& c0 is Some ==> c1 == c0
                    &&& n_missing(a0, b0, c0) == 1 ==> op_holds(
                        kind_of(*op),
                        a1->Some_0,
                        b1->Some_0,
                        c1->Some_0,
                        inputs.p@,
                    )
                    &&& a0 is None ==> a1->Some_0 < inputs.p@
                    &&& b0 is None ==> b1->Some_0 < inputs.p@
                    &&& c0 is None ==> c1->Some_0 < inputs.p@
                }
                &&& (r matches Ok(true)) ==> n_missing(a0, b0, c0) <= 1
                &&& (r matches Ok(true)) && n_missing(a0, b0, c0) == 0 ==> m1 == m0
                &&& (r matches Ok(true)) && n_missing(a0, b0, c0) == 1 ==> forall|x: Relocatable|
                    !in_words(x, operand_addr(m0, vp, opp, i, missing_index(a0, b0, c0))->Some_0)
                        ==> #[trigger] m1.value_at(x) == m0.value_at(x)
                &&& readable && n_missing(a0, b0, c0) == 1 && 0 < inputs.p@ && !solvable(
                    kind_of(*op),
                    a0,
                    b0,
                    c0,
                    inputs.p@,
                ) ==> (r matches Err(RunnerError::Math(MathError::DivModNoSolution(_, _)))) && m1 == m0
                &&& readable && n_missing(a0, b0, c0) >= 2 ==> (r matches Ok(false))
                &&& readable && n_missing(a0, b0, c0) == 0 ==> (r matches Ok(true))
                &&& readable && n_missing(a0, b0, c0) == 1 && 0 < inputs.p@ <= pow(
                    s as int,
                    N_WORDS as nat,
                ) && solvable(kind_of(*op), a0, b0, c0, inputs.p@) && (forall|x: nat|
                    x < inputs.p@ && #[trigger] completes(kind_of(*op), a0, b0, c0, x, inputs.p@)
                        ==> writable(
                        m0,
                        operand_addr(m0, vp, opp, i, missing_index(a0, b0, c0))->Some_0,
                        x,
                        s,
                    )) ==> (r matches Ok(true))
            }),
    {
        let ra = self.read_operand_opt(memory, inputs.values_ptr, inputs.offsets_ptr, index, 0);
        let (a_addr, a) = match ra {
            Ok(x) => x,
            Err(e) => {
                return Err(e);
            },
        };
        let rb = self.read_operand_opt(memory, inputs.values_ptr, inputs.offsets_ptr, index, 1);
        let (b_addr, b) = match rb {
            Ok(x) => x,
            Err(e) => {
                return Err(e);
            },
        };
        let rc = self.read_operand_opt(memory, inputs.values_ptr, inputs.offsets_ptr, index, 2);
        let (c_addr, c) = match rc {
            Ok(x) => x,
            Err(e) => {
                return Err(e);
            },
        };
        let ghost m0 = *memory;
        let ghost s = self.shift@;
        let ghost p = inputs.p@;
        match (a, b, c) {
            (Some(a), Some(b), None) => {
                let v = match apply_op(&a, &b, op) {
                    Ok(x) => x,
                    Err(e) => {
                        return Err(RunnerError::Math(e));
                    },
                };
                let value = match reduce(&v, &inputs.p) {
                    Ok(x) => x,
                    Err(e) => {
                        return Err(e);
                    },
                };
                let ghost x = value@;
                proof {
                    vstd::arithmetic::div_mod::lemma_mod_twice(v@, p as int);
                    assert(completes(kind_of(*op), Some(a@), Some(b@), None, x, p));
                }
                match self.write_n_words_value(memory, c_addr, value) {
                    Ok(()) => {},
                    Err(e) => {
                        return Err(e);
                    },
                }
                proof {
                    self.lemma_after_write(m0, *memory, inputs, index, 2, c_addr, x);
                    vstd::arithmetic::div_mod::lemma_mod_twice(v@, p as int);
                }
                Ok(true)
            },
            (Some(a), None, Some(c)) => {
                let v = match apply_op(&c, &a, inv_op) {
                    Ok(x) => x,
                    Err(e) => {
                        return Err(RunnerError::Math(e));
                    },
                };
                let value = match reduce(&v, &inputs.p) {
                    Ok(x) => x,
                    Err(e) => {
                        return Err(e);
                    },
                };
                let ghost x = value@;
                proof {
                    lemma_inverse_holds(kind_of(*op), v@, c@, a@, p, x, true);
                    assert(completes(kind_of(*op), Some(a@), None, Some(c@), x, p));
                }
                match self.write_n_words_value(memory, b_addr, value) {
                    Ok(()) => {},
                    Err(e) => {
                        return Err(e);
                    },
                }
                proof {
                    self.lemma_after_write(m0, *memory, inputs, index, 1, b_addr, x);
                    lemma_inverse_holds(kind_of(*op), v@, c@, a@, p, x, true);
                }
                Ok(true)
            },
            (None, Some(b), Some(c)) => {
                let v = match apply_op(&c, &b, inv_op) {
                    Ok(x) => x,
                    Err(e) => {
                        return Err(RunnerError::Math(e));
                    },
                };
                let value = match reduce(&v, &inputs.p) {
                    Ok(x) => x,
                    Err(e) => {
                        return Err(e);
                    },
                };
                let ghost x = value@;
                proof {
                    lemma_inverse_holds(kind_of(*op), v@, c@, b@, p, x, false);
                    assert(completes(kind_of(*op), None, Some(b@), Some(c@), x, p));
                }
                match self.write_n_words_value(memory, a_addr, value) {
                    Ok(()) => {},
                    Err(e) => {
                        return Err(e);
                    },
                }
                proof {
                    self.lemma_after_write(m0, *memory, inputs, index, 0, a_addr, x);
                    lemma_inverse_holds(kind_of(*op), v@, c@, b@, p, x, false);
                }
                Ok(true)
            },
            (Some(_), Some(_), Some(_)) => Ok(true),
            _ => Ok(false),
        }
    }
}

} // verus!
