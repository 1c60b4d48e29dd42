//! The builtin's memory as the contracts see it: the words of a value, the
//! header of an instance, the operands of a triple, the conditions that the
//! fill and the security checks establish, and the facts that relate them.
use crate::bignum::BigNat;
use crate::errors::{MemoryError, RunnerError};
use crate::math_utils::{is_quotient_mod, quotient_exists};
use crate::memory::{CellVal, Memory, Relocatable};
use crate::modulo::{
    Inputs, ModBuiltinRunner, ModBuiltinType, Operation, FILL_MEMORY_MAX, INPUT_CELLS, N_OFFSET,
    N_WORDS, OFFSETS_PTR_OFFSET, VALUES_PTR_OFFSET,
};
use vstd::arithmetic::power::{lemma_pow_positive, pow};
use vstd::prelude::*;

verus! {

/// `r` is not the error by which `fill_memory` reports that the deduction
/// got stuck.
pub open spec fn not_stuck<T>(r: Result<T, RunnerError>) -> bool {
    !(r matches Err(RunnerError::FillMemoryCoudNotFillTable(_, _)))
}

/// Triple `j` has two or more values missing, so the deducer cannot fill it.
pub open spec fn stuck_at(m: Memory, s: nat, vp: Relocatable, opp: Relocatable, j: nat) -> bool {
    n_missing(
        operand_value(m, s, vp, opp, j, 0),
        operand_value(m, s, vp, opp, j, 1),
        operand_value(m, s, vp, opp, j, 2),
    ) >= 2
}

/// The name of a builtin, as diagnostics and errors give it.
pub open spec fn builtin_name(t: ModBuiltinType) -> &'static str {
    match t {
        ModBuiltinType::Mul => "mul_mod_builtin",
        ModBuiltinType::Add => "add_mod_builtin",
    }
}

/// The cell holds an integer below `shift`.
pub open spec fn is_word(c: Option<CellVal>, shift: nat) -> bool {
    match c {
        Some(CellVal::Int(x)) => x < shift,
        _ => false,
    }
}

pub open spec fn word_of(c: Option<CellVal>) -> nat {
    match c {
        Some(CellVal::Int(x)) => x,
        _ => 0,
    }
}

/// The first `i' >= i` below `N_WORDS` whose cell at `addr + i'` is not a
/// word, or `N_WORDS`.
pub open spec fn first_non_word_from(mem: Memory, addr: Relocatable, shift: nat, i: nat) -> nat
    decreases N_WORDS - i,
{
    if i >= N_WORDS {
        N_WORDS as nat
    } else if is_word(mem.value_at(addr.plus(i as int)), shift) {
        first_non_word_from(mem, addr, shift, i + 1)
    } else {
        i
    }
}

pub open spec fn first_non_word(mem: Memory, addr: Relocatable, shift: nat) -> nat {
    first_non_word_from(mem, addr, shift, 0)
}

/// The value of the first `k` words at `addr`, the least significant first.
pub open spec fn words_value(mem: Memory, addr: Relocatable, shift: nat, k: nat) -> nat
    decreases k,
{
    if k == 0 {
        0
    } else {
        words_value(mem, addr, shift, (k - 1) as nat) + word_of(
            mem.value_at(addr.plus(k - 1)),
        ) * pow(shift as int, (k - 1) as nat) as nat
    }
}

/// The value stored at `addr`, when all its words are there.
pub open spec fn stored_value(mem: Memory, addr: Relocatable, shift: nat) -> Option<nat> {
    if first_non_word(mem, addr, shift) == N_WORDS {
        Some(words_value(mem, addr, shift, N_WORDS as nat))
    } else {
        None
    }
}

/// Word `i` of `v` in base `shift`.
pub open spec fn limb(v: nat, shift: nat, i: nat) -> nat {
    ((v / pow(shift as int, i) as nat) % shift) as nat
}

pub(crate) proof fn lemma_div_basics_ge(x: nat, d: nat)
    requires
        0 < d <= x,
    ensures
        x / d > 0,
{
    vstd::arithmetic::div_mod::lemma_div_non_zero(x as int, d as int);
}

pub(crate) proof fn lemma_limbs_words_value(mem: Memory, addr: Relocatable, s: nat, v: nat, k: nat)
    requires
        s > 0,
        k <= N_WORDS,
        forall|i: nat|
            i < N_WORDS ==> #[trigger] mem.value_at(addr.plus(i as int)) == Some(
                CellVal::Int(limb(v, s, i)),
            ),
    ensures
        words_value(mem, addr, s, k) == v % pow(s as int, k) as nat,
        first_non_word_from(mem, addr, s, k) == N_WORDS,
    decreases k,
{
    assert(forall|i: nat| i < N_WORDS ==> limb(v, s, i) < s);
    lemma_limbs_first_non_word(mem, addr, s, v, k);
    if k == 0 {
        vstd::arithmetic::power::lemma_pow0(s as int);
    } else {
        let j = (k - 1) as nat;
        lemma_limbs_words_value(mem, addr, s, v, j);
        lemma_pow_positive(s as int, j);
        let y = pow(s as int, j);
        assert(pow(s as int, k) == y * s) by {
            reveal(pow);
            assert(pow(s as int, k) == s * pow(s as int, j));
        }
        vstd::arithmetic::div_mod::lemma_mod_breakdown(v as int, y, s as int);
        assert(mem.value_at(addr.plus(j as int)) == Some(CellVal::Int(limb(v, s, j))));
        assert(y * ((v as int / y) % (s as int)) == ((v as int / y) % (s as int)) * y) by (nonlinear_arith);
    }
}

pub(crate) proof fn lemma_limbs_first_non_word(mem: Memory, addr: Relocatable, s: nat, v: nat, k: nat)
    requires
        s > 0,
        forall|i: nat|
            i < N_WORDS ==> #[trigger] mem.value_at(addr.plus(i as int)) == Some(
                CellVal::Int(limb(v, s, i)),
            ),
    ensures
        first_non_word_from(mem, addr, s, k) == N_WORDS,
    decreases N_WORDS - k,
{
    if k < N_WORDS {
        assert(mem.value_at(addr.plus(k as int)) == Some(CellVal::Int(limb(v, s, k))));
        lemma_limbs_first_non_word(mem, addr, s, v, k + 1);
    }
}

/// Codec round trip: after the words of a value `v < shift^N_WORDS` are
/// written at `addr`, reading there finds all `N_WORDS` words, each the
/// corresponding word of `v`, and their value is `v`.
pub proof fn lemma_codec_round_trip(a: Memory, b: Memory, addr: Relocatable, v: nat, s: nat)
    requires
        s > 0,
        v < pow(s as int, N_WORDS as nat),
        words_written(a, b, addr, v, s),
    ensures
        first_non_word(b, addr, s) == N_WORDS,
        words_value(b, addr, s, N_WORDS as nat) == v,
        forall|i: nat| i < N_WORDS ==> #[trigger] word_of(b.value_at(addr.plus(i as int))) == limb(v, s, i),
        stored_value(b, addr, s) == Some(v),
{
    lemma_limbs_words_value(b, addr, s, v, N_WORDS as nat);
    lemma_limbs_first_non_word(b, addr, s, v, 0);
    vstd::arithmetic::div_mod::lemma_small_mod(v, pow(s as int, N_WORDS as nat) as nat);
}

pub(crate) proof fn lemma_same_words_from(m1: Memory, a1: Relocatable, m2: Memory, a2: Relocatable, s: nat, k: nat)
    requires
        forall|i: nat|
            i < N_WORDS ==> #[trigger] m1.value_at(a1.plus(i as int)) == m2.value_at(
                a2.plus(i as int),
            ),
    ensures
        first_non_word_from(m1, a1, s, k) == first_non_word_from(m2, a2, s, k),
    decreases N_WORDS - k,
{
    if k < N_WORDS {
        assert(m1.value_at(a1.plus(k as int)) == m2.value_at(a2.plus(k as int)));
        lemma_same_words_from(m1, a1, m2, a2, s, k + 1);
    }
}

pub(crate) proof fn lemma_same_words_value(m1: Memory, a1: Relocatable, m2: Memory, a2: Relocatable, s: nat, k: nat)
    requires
        k <= N_WORDS,
        forall|i: nat|
            i < N_WORDS ==> #[trigger] m1.value_at(a1.plus(i as int)) == m2.value_at(
                a2.plus(i as int),
            ),
    ensures
        words_value(m1, a1, s, k) == words_value(m2, a2, s, k),
    decreases k,
{
    if k > 0 {
        assert(m1.value_at(a1.plus(k - 1)) == m2.value_at(a2.plus((k - 1) as nat as int)));
        lemma_same_words_value(m1, a1, m2, a2, s, (k - 1) as nat);
    }
}

pub(crate) proof fn lemma_first_non_word_prefix(mem: Memory, addr: Relocatable, s: nat, k: nat, i: nat)
    requires
        i <= k,
        first_non_word_from(mem, addr, s, 0) == first_non_word_from(mem, addr, s, i),
        first_non_word_from(mem, addr, s, i) >= k,
    ensures
        forall|j: nat| i <= j < k ==> #[trigger] is_word(mem.value_at(addr.plus(j as int)), s),
    decreases k - i,
{
    if i < k {
        assert(is_word(mem.value_at(addr.plus(i as int)), s));
        lemma_first_non_word_prefix(mem, addr, s, k, i + 1);
    }
}

/// A value all of whose words are in `m1` is still there in a memory that
/// extends `m1`.
pub proof fn lemma_extends_stored(m1: Memory, m2: Memory, addr: Relocatable, s: nat)
    requires
        Memory::extends(m1, m2),
        stored_value(m1, addr, s) is Some,
    ensures
        stored_value(m2, addr, s) == stored_value(m1, addr, s),
{
    lemma_first_non_word_prefix(m1, addr, s, N_WORDS as nat, 0);
    assert forall|i: nat| i < N_WORDS implies #[trigger] m1.value_at(addr.plus(i as int))
        == m2.value_at(addr.plus(i as int)) by {
        assert(is_word(m1.value_at(addr.plus(i as int)), s));
    }
    lemma_same_words_from(m1, addr, m2, addr, s, 0);
    lemma_same_words_value(m1, addr, m2, addr, s, N_WORDS as nat);
}

/// An operand address found in `m0` is found in a memory that extends it.
pub proof fn lemma_operand_addr_extends(
    m0: Memory,
    m1: Memory,
    values_ptr: Relocatable,
    offsets_ptr: Relocatable,
    idx: nat,
    k: nat,
)
    requires
        Memory::extends(m0, m1),
    ensures
        operand_addr(m0, values_ptr, offsets_ptr, idx, k) is Some ==> operand_addr(
            m1,
            values_ptr,
            offsets_ptr,
            idx,
            k,
        ) == operand_addr(m0, values_ptr, offsets_ptr, idx, k),
{
    let cell = offsets_ptr.plus((3 * idx + k) as int);
    if m0.value_at(cell) is Some {
        assert(m1.value_at(cell) == m0.value_at(cell));
    }
}

/// A complete operand of `m0` keeps its value in a memory that extends it.
pub proof fn lemma_operand_value_extends(
    m0: Memory,
    m1: Memory,
    s: nat,
    values_ptr: Relocatable,
    offsets_ptr: Relocatable,
    idx: nat,
    k: nat,
)
    requires
        Memory::extends(m0, m1),
    ensures
        operand_value(m0, s, values_ptr, offsets_ptr, idx, k) is Some ==> operand_value(
            m1,
            s,
            values_ptr,
            offsets_ptr,
            idx,
            k,
        ) == operand_value(m0, s, values_ptr, offsets_ptr, idx, k),
{
    lemma_operand_addr_extends(m0, m1, values_ptr, offsets_ptr, idx, k);
    if operand_value(m0, s, values_ptr, offsets_ptr, idx, k) is Some {
        lemma_extends_stored(m0, m1, operand_addr(m0, values_ptr, offsets_ptr, idx, k)->Some_0, s);
    }
}

/// The `N_WORDS` cells from `a` and those from `b` do not meet.
pub open spec fn ranges_disjoint(a: Relocatable, b: Relocatable) -> bool {
    a.segment_index != b.segment_index || a.offset + N_WORDS <= b.offset || b.offset + N_WORDS
        <= a.offset
}

/// An operand whose words lie apart from the words written at `t` keeps its
/// address and value.
pub(crate) proof fn lemma_operand_apart(
    m0: Memory,
    m1: Memory,
    s: nat,
    t: Relocatable,
    values_ptr: Relocatable,
    offsets_ptr: Relocatable,
    j: nat,
    k: nat,
)
    requires
        Memory::extends(m0, m1),
        forall|x: Relocatable| !in_words(x, t) ==> #[trigger] m1.value_at(x) == m0.value_at(x),
        operand_addr(m0, values_ptr, offsets_ptr, j, k) is Some,
        ranges_disjoint(operand_addr(m0, values_ptr, offsets_ptr, j, k)->Some_0, t),
    ensures
        operand_value(m1, s, values_ptr, offsets_ptr, j, k) == operand_value(
            m0,
            s,
            values_ptr,
            offsets_ptr,
            j,
            k,
        ),
{
    lemma_operand_addr_extends(m0, m1, values_ptr, offsets_ptr, j, k);
    let u = operand_addr(m0, values_ptr, offsets_ptr, j, k)->Some_0;
    assert forall|i: nat| i < N_WORDS implies #[trigger] m1.value_at(u.plus(i as int)) == m0.value_at(
        u.plus(i as int),
    ) by {
        assert(!in_words(u.plus(i as int), t));
    }
    lemma_same_words_from(m1, u, m0, u, s, 0);
    lemma_same_words_value(m1, u, m0, u, s, N_WORDS as nat);
}

/// `x` lies among the `N_WORDS` cells from `addr`.
pub open spec fn in_words(x: Relocatable, addr: Relocatable) -> bool {
    x.segment_index == addr.segment_index && addr.offset <= x.offset < addr.offset + N_WORDS
}

/// What reading the words at `addr` gives, when its addresses fit.
pub open spec fn read_result(
    mem: Memory,
    addr: Relocatable,
    shift: nat,
    bits: u32,
    r: Result<(Vec<BigNat>, Option<BigNat>), RunnerError>,
) -> bool {
    let j = first_non_word(mem, addr, shift);
    if j == N_WORDS {
        r matches Ok((w, Some(v))) && v@ == words_value(mem, addr, shift, N_WORDS as nat)
            && w@.len() == N_WORDS && forall|i: int|
            0 <= i < N_WORDS ==> #[trigger] w@[i]@ == word_of(mem.value_at(addr.plus(i)))
    } else {
        match mem.value_at(addr.plus(j as int)) {
            None => r matches Ok((w, None)) && w@.len() == N_WORDS && forall|i: int|
                0 <= i < N_WORDS ==> #[trigger] w@[i]@ == if i < j {
                    word_of(mem.value_at(addr.plus(i)))
                } else {
                    0
                },
            Some(CellVal::Rel(_)) => r matches Err(
                RunnerError::Memory(MemoryError::ExpectedInteger(b)),
            ) && b == addr.plus(j as int),
            Some(CellVal::Int(x)) => r matches Err(
                RunnerError::WordExceedsModBuiltinWordBitLen(b, k, w),
            ) && b == addr.plus(j as int) && k == bits && w@ == x,
        }
    }
}

/// The words at `addr` can take the words of `v`: the segment exists, the
/// addresses fit, and each cell is empty or already holds that word.
pub open spec fn writable(mem: Memory, addr: Relocatable, v: nat, shift: nat) -> bool {
    &&& mem.has_segment(addr.segment_index)
    &&& addr.offset + N_WORDS < usize::MAX
    &&& forall|i: nat|
        i < N_WORDS ==> {
            let c = #[trigger] mem.value_at(addr.plus(i as int));
            c is None || c == Some(CellVal::Int(limb(v, shift, i)))
        }
}

/// `b` is `a` with the words of `v` at `addr`.
pub open spec fn words_written(a: Memory, b: Memory, addr: Relocatable, v: nat, shift: nat) -> bool {
    &&& forall|i: nat|
        i < N_WORDS ==> #[trigger] b.value_at(addr.plus(i as int)) == Some(
            CellVal::Int(limb(v, shift, i)),
        )
    &&& forall|x: Relocatable| !in_words(x, addr) ==> #[trigger] b.value_at(x) == a.value_at(x)
    &&& b.data@.len() == a.data@.len()
}

/// The cell at `a` holds an integer that fits in a `usize`.
pub open spec fn usize_at(mem: Memory, a: Relocatable) -> Option<usize> {
    match mem.value_at(a) {
        Some(CellVal::Int(x)) => if x <= usize::MAX {
            Some(x as usize)
        } else {
            None
        },
        _ => None,
    }
}


/// The header at `addr` fits in its segment's offsets and holds its two
/// addresses.
pub open spec fn header_ptrs_ok(mem: Memory, addr: Relocatable) -> bool {
    &&& addr.offset + INPUT_CELLS <= usize::MAX
    &&& mem.value_at(addr.plus(VALUES_PTR_OFFSET as int)) matches Some(CellVal::Rel(_))
    &&& mem.value_at(addr.plus(OFFSETS_PTR_OFFSET as int)) matches Some(CellVal::Rel(_))
}

/// A valid instance header is at `addr`: two addresses, `n >= 1`, and the
/// words of `p`.
pub open spec fn header_ok(mem: Memory, addr: Relocatable, shift: nat) -> bool {
    &&& header_ptrs_ok(mem, addr)
    &&& usize_at(mem, addr.plus(N_OFFSET as int)) matches Some(n) && n >= 1
    &&& first_non_word(mem, addr, shift) == N_WORDS
}

/// `inp` is what the header at `addr` holds.
pub open spec fn inputs_at(mem: Memory, addr: Relocatable, shift: nat, inp: Inputs) -> bool {
    &&& inp.p@ == words_value(mem, addr, shift, N_WORDS as nat)
    &&& inp.p_values@.len() == N_WORDS
    &&& forall|i: int|
        0 <= i < N_WORDS ==> #[trigger] inp.p_values@[i]@ == word_of(mem.value_at(addr.plus(i)))
    &&& mem.value_at(addr.plus(VALUES_PTR_OFFSET as int)) == Some(CellVal::Rel(inp.values_ptr))
    &&& mem.value_at(addr.plus(OFFSETS_PTR_OFFSET as int)) == Some(CellVal::Rel(inp.offsets_ptr))
    &&& usize_at(mem, addr.plus(N_OFFSET as int)) == Some(inp.n)
}

/// The address of operand `k` of triple `idx`: `values_ptr` plus the offset
/// in cell `3 * idx + k` of the offsets table.
pub open spec fn operand_addr(
    mem: Memory,
    values_ptr: Relocatable,
    offsets_ptr: Relocatable,
    idx: nat,
    k: nat,
) -> Option<Relocatable> {
    if offsets_ptr.offset + 3 * idx + k <= usize::MAX {
        match usize_at(mem, offsets_ptr.plus((3 * idx + k) as int)) {
            Some(o) => if values_ptr.offset + o + N_WORDS <= usize::MAX {
                Some(values_ptr.plus(o as int))
            } else {
                None
            },
            None => None,
        }
    } else {
        None
    }
}

/// The value of operand `k` of triple `idx`, when it is all in memory.
pub open spec fn operand_value(
    mem: Memory,
    shift: nat,
    values_ptr: Relocatable,
    offsets_ptr: Relocatable,
    idx: nat,
    k: nat,
) -> Option<nat> {
    match operand_addr(mem, values_ptr, offsets_ptr, idx, k) {
        Some(a) => stored_value(mem, a, shift),
        None => None,
    }
}

/// Operand `k` of triple `idx` reads without error: its address is valid
/// and its words are there up to the first empty cell.
pub open spec fn operand_readable(
    mem: Memory,
    shift: nat,
    values_ptr: Relocatable,
    offsets_ptr: Relocatable,
    idx: nat,
    k: nat,
) -> bool {
    match operand_addr(mem, values_ptr, offsets_ptr, idx, k) {
        Some(a) => first_non_word(mem, a, shift) == N_WORDS || mem.value_at(
            a.plus(first_non_word(mem, a, shift) as int),
        ) is None,
        None => false,
    }
}

/// Operand `k` of triple `idx` reads without error but a word is absent.
pub open spec fn operand_missing(
    mem: Memory,
    shift: nat,
    values_ptr: Relocatable,
    offsets_ptr: Relocatable,
    idx: nat,
    k: nat,
) -> bool {
    operand_readable(mem, shift, values_ptr, offsets_ptr, idx, k) && operand_value(
        mem,
        shift,
        values_ptr,
        offsets_ptr,
        idx,
        k,
    ) is None
}

/// The operation of a builtin.
pub open spec fn op_holds(t: ModBuiltinType, a: nat, b: nat, c: nat, p: nat) -> bool {
    match t {
        ModBuiltinType::Add => (a + b) % p == c % p,
        ModBuiltinType::Mul => (a * b) % p == c % p,
    }
}

/// `op` and `inv_op` are an operation and its inverse modulo `p`.
pub open spec fn ops_match(op: Operation, inv_op: Operation, p: nat) -> bool {
    ||| (op is Add && inv_op is Sub)
    ||| (op is Mul && inv_op is DivMod && inv_op->DivMod_0@ == p)
}

pub open spec fn kind_of(op: Operation) -> ModBuiltinType {
    if op is Add {
        ModBuiltinType::Add
    } else {
        ModBuiltinType::Mul
    }
}

pub open spec fn n_missing(a: Option<nat>, b: Option<nat>, c: Option<nat>) -> nat {
    (if a is None {
        1nat
    } else {
        0nat
    }) + (if b is None {
        1nat
    } else {
        0nat
    }) + (if c is None {
        1nat
    } else {
        0nat
    })
}

/// The value deduced with the inverse operation makes the triple hold.
pub(crate) proof fn lemma_inverse_holds(
    t: ModBuiltinType,
    v: int,
    c: nat,
    known: nat,
    p: nat,
    x: nat,
    known_is_a: bool,
)
    requires
        p > 0,
        t == ModBuiltinType::Add ==> v == c - known,
        t == ModBuiltinType::Mul ==> 0 <= v < p && is_quotient_mod(v as nat, c, known, p),
        x == v % (p as int),
    ensures
        known_is_a ==> op_holds(t, known, x, c, p),
        !known_is_a ==> op_holds(t, x, known, c, p),
{
    match t {
        ModBuiltinType::Add => {
            vstd::arithmetic::div_mod::lemma_add_mod_noop_right(known as int, v, p as int);
            assert(known + x == x + known);
        },
        ModBuiltinType::Mul => {
            vstd::arithmetic::div_mod::lemma_small_mod(v as nat, p);
            assert(known * x == x * known) by (nonlinear_arith);
        },
    }
}

/// `x` in place of the one missing operand makes the triple hold.
pub open spec fn completes(
    t: ModBuiltinType,
    a: Option<nat>,
    b: Option<nat>,
    c: Option<nat>,
    x: nat,
    p: nat,
) -> bool {
    match (a, b, c) {
        (Some(a), Some(b), None) => op_holds(t, a, b, x, p),
        (Some(a), None, Some(c)) => op_holds(t, a, x, c, p),
        (None, Some(b), Some(c)) => op_holds(t, x, b, c, p),
        _ => false,
    }
}

/// The operand that is missing, when one is.
pub open spec fn missing_index(a: Option<nat>, b: Option<nat>, c: Option<nat>) -> nat {
    if a is None {
        0
    } else if b is None {
        1
    } else {
        2
    }
}

/// A division that the deduction needs has an answer: some value below `p`
/// times the known factor is `c` modulo `p`.
pub open spec fn solvable(t: ModBuiltinType, a: Option<nat>, b: Option<nat>, c: Option<nat>, p: nat) -> bool {
    &&& t == ModBuiltinType::Mul && a is None ==> quotient_exists(c->Some_0, b->Some_0, p)
    &&& t == ModBuiltinType::Mul && b is None ==> quotient_exists(c->Some_0, a->Some_0, p)
}



/// The address in the cell at `a`.
pub open spec fn rel_at(mem: Memory, a: Relocatable) -> Relocatable {
    match mem.value_at(a) {
        Some(CellVal::Rel(r)) => r,
        _ => a,
    }
}

/// In `m1`, the header of instance `k` from `ptr` is the one that the first
/// header, in `m0`, implies: the same `p` and `values_ptr`, `offsets_ptr`
/// moved by `3 * k * batch_size`, and `n - k * batch_size`.
pub open spec fn header_cells(m1: Memory, m0: Memory, ptr: Relocatable, batch: nat, k: nat) -> bool {
    let h = ptr.plus((INPUT_CELLS * k) as int);
    &&& ptr.offset + INPUT_CELLS * k + INPUT_CELLS <= usize::MAX
    &&& rel_at(m0, ptr.plus(OFFSETS_PTR_OFFSET as int)).offset + 3 * k * batch <= usize::MAX
    &&& m1.value_at(h.plus(0)) == m0.value_at(ptr.plus(0))
    &&& m1.value_at(h.plus(1)) == m0.value_at(ptr.plus(1))
    &&& m1.value_at(h.plus(2)) == m0.value_at(ptr.plus(2))
    &&& m1.value_at(h.plus(3)) == m0.value_at(ptr.plus(3))
    &&& m1.value_at(h.plus(VALUES_PTR_OFFSET as int)) == m0.value_at(
        ptr.plus(VALUES_PTR_OFFSET as int),
    )
    &&& m1.value_at(h.plus(OFFSETS_PTR_OFFSET as int)) == Some(
        CellVal::Rel(rel_at(m0, ptr.plus(OFFSETS_PTR_OFFSET as int)).plus((3 * k * batch) as int)),
    )
    &&& m1.value_at(h.plus(N_OFFSET as int)) == Some(
        CellVal::Int((usize_at(m0, ptr.plus(N_OFFSET as int))->Some_0 - k * batch) as nat),
    )
}

pub(crate) proof fn lemma_header_cells_extends(
    m1: Memory,
    m2: Memory,
    m0: Memory,
    ptr: Relocatable,
    batch: nat,
    k: nat,
)
    requires
        Memory::extends(m1, m2),
        header_cells(m1, m0, ptr, batch, k),
        forall|i: int| 0 <= i < INPUT_CELLS ==> (#[trigger] m0.value_at(ptr.plus(i))) is Some,
    ensures
        header_cells(m2, m0, ptr, batch, k),
{
    let h = ptr.plus((INPUT_CELLS * k) as int);
    assert(m0.value_at(ptr.plus(0)) is Some);
    assert(m0.value_at(ptr.plus(1)) is Some);
    assert(m0.value_at(ptr.plus(2)) is Some);
    assert(m0.value_at(ptr.plus(3)) is Some);
    assert(m0.value_at(ptr.plus(VALUES_PTR_OFFSET as int)) is Some);
    assert(m1.value_at(h.plus(0)) is Some);
    assert(m1.value_at(h.plus(1)) is Some);
    assert(m1.value_at(h.plus(2)) is Some);
    assert(m1.value_at(h.plus(3)) is Some);
    assert(m1.value_at(h.plus(VALUES_PTR_OFFSET as int)) is Some);
    assert(m1.value_at(h.plus(OFFSETS_PTR_OFFSET as int)) is Some);
    assert(m1.value_at(h.plus(N_OFFSET as int)) is Some);
}

/// The cells of a valid header all hold values, the words of `p` integers.
pub(crate) proof fn lemma_header_some(mem: Memory, ptr: Relocatable, s: nat)
    requires
        header_ok(mem, ptr, s),
    ensures
        forall|i: int| 0 <= i < INPUT_CELLS ==> (#[trigger] mem.value_at(ptr.plus(i))) is Some,
        forall|i: int|
            0 <= i < N_WORDS ==> mem.value_at(ptr.plus(i)) == Some(
                CellVal::Int(word_of(#[trigger] mem.value_at(ptr.plus(i)))),
            ),
{
    lemma_first_non_word_prefix(mem, ptr, s, N_WORDS as nat, 0);
    assert forall|i: int| 0 <= i < INPUT_CELLS implies (#[trigger] mem.value_at(ptr.plus(i))) is Some by {
        if i < N_WORDS {
            assert(is_word(mem.value_at(ptr.plus(i as nat as int)), s));
        }
    }
    assert forall|i: int| 0 <= i < N_WORDS implies mem.value_at(ptr.plus(i)) == Some(
        CellVal::Int(word_of(#[trigger] mem.value_at(ptr.plus(i)))),
    ) by {
        assert(is_word(mem.value_at(ptr.plus(i as nat as int)), s));
    }
}


/// The first `n` triples from the offsets table of `ptr`'s header (read in
/// `m0`) all have their three values in `m1`.
pub open spec fn triples_complete(m0: Memory, m1: Memory, ptr: Relocatable, s: nat, n: nat) -> bool {
    let vp = rel_at(m0, ptr.plus(VALUES_PTR_OFFSET as int));
    let opp = rel_at(m0, ptr.plus(OFFSETS_PTR_OFFSET as int));
    forall|j: nat, k: nat| j < n && k < 3 ==> (#[trigger] operand_value(m1, s, vp, opp, j, k)) is Some
}

/// The first `n` triples of the table have all three values.
pub open spec fn triples_filled(m: Memory, s: nat, vp: Relocatable, opp: Relocatable, n: nat) -> bool {
    forall|j: nat, k: nat| j < n && k < 3 ==> (#[trigger] operand_value(m, s, vp, opp, j, k)) is Some
}

/// `x` is a cell of the headers of instances `1 .. n_instances` from `ptr`.
pub open spec fn in_headers(x: Relocatable, ptr: Relocatable, n_instances: nat) -> bool {
    &&& x.segment_index == ptr.segment_index
    &&& ptr.offset + INPUT_CELLS <= x.offset < ptr.offset + INPUT_CELLS * n_instances
}

/// `x` is a cell of triples `index .. index + n_copies` of the offsets table.
pub open spec fn in_padding(x: Relocatable, opp: Relocatable, index: nat, n_copies: nat) -> bool {
    &&& x.segment_index == opp.segment_index
    &&& opp.offset + 3 * index <= x.offset < opp.offset + 3 * (index + n_copies)
}

/// Cell `j` of the header of instance `k` from `ptr`, as the first header
/// (in `m`) implies it.
pub open spec fn implied_header_cell(m: Memory, ptr: Relocatable, batch: nat, k: nat, j: nat) -> Option<
    CellVal,
> {
    if j < N_WORDS || j == VALUES_PTR_OFFSET {
        m.value_at(ptr.plus(j as int))
    } else if j == OFFSETS_PTR_OFFSET {
        Some(CellVal::Rel(rel_at(m, ptr.plus(OFFSETS_PTR_OFFSET as int)).plus((3 * k * batch) as int)))
    } else {
        Some(CellVal::Int((header_n(m, ptr) - k * batch) as nat))
    }
}

/// In `m`, each header cell of instances `1 .. n_instances` from `ptr` is
/// empty or holds what the first header, in `m0`, implies.
pub open spec fn headers_open(m0: Memory, m: Memory, ptr: Relocatable, batch: nat, n_instances: nat) -> bool {
    forall|k: nat, j: nat|
        1 <= k < n_instances && j < INPUT_CELLS ==> {
            let x = #[trigger] m.value_at(ptr.plus((INPUT_CELLS * k + j) as int));
            x is None || x == implied_header_cell(m0, ptr, batch, k, j)
        }
}

/// The headers of instances `1 .. n / batch` can be written: their addresses
/// fit, and each of their cells is empty or already holds what the first
/// header implies.
pub open spec fn headers_fillable(m: Memory, ptr: Relocatable, batch: nat) -> bool {
    let n_instances = header_n(m, ptr) / batch;
    &&& ptr.offset + INPUT_CELLS * n_instances <= usize::MAX
    &&& rel_at(m, ptr.plus(OFFSETS_PTR_OFFSET as int)).offset + 3 * header_n(m, ptr) <= usize::MAX
    &&& headers_open(m, m, ptr, batch, n_instances)
}

/// Writing what the first header implies into one header cell keeps the
/// others open.
pub(crate) proof fn lemma_headers_open_step(
    m0: Memory,
    m1: Memory,
    m2: Memory,
    ptr: Relocatable,
    batch: nat,
    n_instances: nat,
    k0: nat,
    j0: nat,
)
    requires
        headers_open(m0, m1, ptr, batch, n_instances),
        ptr.offset + INPUT_CELLS * n_instances <= usize::MAX,
        1 <= k0 < n_instances,
        j0 < INPUT_CELLS,
        m2.value_at(ptr.plus((INPUT_CELLS * k0 + j0) as int)) == implied_header_cell(m0, ptr, batch, k0, j0),
        forall|x: Relocatable|
            x != ptr.plus((INPUT_CELLS * k0 + j0) as int) ==> #[trigger] m2.value_at(x) == m1.value_at(x),
    ensures
        headers_open(m0, m2, ptr, batch, n_instances),
{
    assert forall|k: nat, j: nat| 1 <= k < n_instances && j < INPUT_CELLS implies {
        let x = #[trigger] m2.value_at(ptr.plus((INPUT_CELLS * k + j) as int));
        x is None || x == implied_header_cell(m0, ptr, batch, k, j)
    } by {
        assert(INPUT_CELLS * k + j < INPUT_CELLS * n_instances) by (nonlinear_arith)
            requires
                k < n_instances,
                j < INPUT_CELLS,
        ;
        assert(INPUT_CELLS * k0 + j0 < INPUT_CELLS * n_instances) by (nonlinear_arith)
            requires
                k0 < n_instances,
                j0 < INPUT_CELLS,
        ;
        if ptr.plus((INPUT_CELLS * k + j) as int) == ptr.plus((INPUT_CELLS * k0 + j0) as int) {
            assert(INPUT_CELLS * k + j == INPUT_CELLS * k0 + j0);
            assert(k == k0 && j == j0) by (nonlinear_arith)
                requires
                    INPUT_CELLS * k + j == INPUT_CELLS * k0 + j0,
                    j < INPUT_CELLS,
                    j0 < INPUT_CELLS,
            ;
        }
    }
}

/// Triples `index .. index + n_copies` of the offsets table can take copies
/// of the first one: it is there, and each of their cells is empty or
/// already holds the copy.
pub open spec fn offsets_paddable(m: Memory, opp: Relocatable, index: nat, n_copies: nat) -> bool {
    &&& opp.offset + 3 * (index + n_copies) <= usize::MAX
    &&& forall|i: nat| i < 3 ==> (#[trigger] m.value_at(opp.plus(i as int))) is Some
    &&& forall|c: nat, i: nat|
        c < n_copies && i < 3 ==> {
            let x = #[trigger] m.value_at(opp.plus((3 * (index + c) + i) as int));
            x is None || x == m.value_at(opp.plus(i as int))
        }
}

/// Preparing the builtin whose first header is at `ptr`, with `index`
/// triples written, succeeds: the header is valid, its `n` is at most the
/// maximum and a multiple of `batch`, the offsets table lies in another
/// segment than the header, and the cells of the other headers and of the
/// padding are empty or already hold what they are to hold.
pub open spec fn prepare_ok(m: Memory, ptr: Relocatable, s: nat, batch: nat, index: nat) -> bool {
    let opp = rel_at(m, ptr.plus(OFFSETS_PTR_OFFSET as int));
    let total = header_n(m, ptr);
    &&& header_ok(m, ptr, s)
    &&& total <= FILL_MEMORY_MAX
    &&& batch > 0
    &&& total % batch == 0
    &&& opp.segment_index != ptr.segment_index
    &&& headers_fillable(m, ptr, batch)
    &&& total > index ==> offsets_paddable(m, opp, index, (total - index) as nat)
}

/// A builtin on which `fill_memory` succeeds: the deduction is sound on it,
/// it can be prepared, and each of its first `n` triples is deducible.
pub open spec fn ready_side(m: Memory, ptr: Relocatable, s: nat, batch: nat, n: nat, t: ModBuiltinType) -> bool {
    let vp = rel_at(m, ptr.plus(VALUES_PTR_OFFSET as int));
    let opp = rel_at(m, ptr.plus(OFFSETS_PTR_OFFSET as int));
    &&& sound_side(m, ptr, s, n, t)
    &&& prepare_ok(m, ptr, s, batch, n)
    &&& forall|j: nat| j < n ==> #[trigger] deducible(m, s, vp, opp, j, t, header_p(m, ptr, s))
}

/// The headers and offsets tables of the two builtins lie in segments of
/// their own: neither builtin's preparation writes where the other's reads.
pub open spec fn layouts_apart(m: Memory, p1: Relocatable, p2: Relocatable) -> bool {
    let opp1 = rel_at(m, p1.plus(OFFSETS_PTR_OFFSET as int));
    let opp2 = rel_at(m, p2.plus(OFFSETS_PTR_OFFSET as int));
    &&& p1.segment_index != p2.segment_index && p1.segment_index != opp2.segment_index
    &&& opp1.segment_index != p2.segment_index && opp1.segment_index != opp2.segment_index
}

/// What preparing a builtin for the deduction leaves in `m1`, for a builtin
/// whose first header is at `ptr` in `m0` and which has `n` triples written:
/// the header is valid, the headers of all instances follow from it, and the
/// first triple of the offsets table is copied up to the header's `n`.
pub open spec fn side_prepared(m0: Memory, m1: Memory, ptr: Relocatable, s: nat, batch: nat, n: nat) -> bool {
    let opp = rel_at(m0, ptr.plus(OFFSETS_PTR_OFFSET as int));
    let total = usize_at(m0, ptr.plus(N_OFFSET as int))->Some_0 as nat;
    &&& header_ok(m0, ptr, s)
    &&& batch > 0 && total % batch == 0 && total <= FILL_MEMORY_MAX
    &&& forall|k: nat| 1 <= k < total / batch ==> #[trigger] header_cells(m1, m0, ptr, batch, k)
    &&& forall|c: nat, i: nat|
        n + c < total && i < 3 ==> #[trigger] m1.value_at(opp.plus((3 * (n + c) + i) as int))
            == m1.value_at(opp.plus(i as int)) && m1.value_at(opp.plus(i as int)) is Some
}

/// What `fill_memory` leaves for a builtin: it is prepared, and its first
/// `n` triples are complete.
pub open spec fn side_filled(m0: Memory, m1: Memory, ptr: Relocatable, s: nat, batch: nat, n: nat) -> bool {
    &&& side_prepared(m0, m1, ptr, s, batch, n)
    &&& triples_complete(m0, m1, ptr, s, n)
}

pub(crate) proof fn lemma_side_prepared_extends(
    m0: Memory,
    m1: Memory,
    m2: Memory,
    ptr: Relocatable,
    s: nat,
    batch: nat,
    n: nat,
)
    requires
        side_prepared(m0, m1, ptr, s, batch, n),
        Memory::extends(m1, m2),
    ensures
        side_prepared(m0, m2, ptr, s, batch, n),
{
    let opp = rel_at(m0, ptr.plus(OFFSETS_PTR_OFFSET as int));
    let total = usize_at(m0, ptr.plus(N_OFFSET as int))->Some_0 as nat;
    lemma_header_some(m0, ptr, s);
    assert forall|k: nat| 1 <= k < total / batch implies #[trigger] header_cells(m2, m0, ptr, batch, k) by {
        lemma_header_cells_extends(m1, m2, m0, ptr, batch, k);
    }
    assert forall|c: nat, i: nat| n + c < total && i < 3 implies #[trigger] m2.value_at(
        opp.plus((3 * (n + c) + i) as int),
    ) == m2.value_at(opp.plus(i as int)) && m2.value_at(opp.plus(i as int)) is Some by {
        assert(m1.value_at(opp.plus((3 * (n + c) + i) as int)) is Some);
        assert(m1.value_at(opp.plus(i as int)) is Some);
    }
}

/// `a / b` rounded up.
pub open spec fn ceil_div(a: nat, b: nat) -> nat {
    if a % b == 0 {
        a / b
    } else {
        a / b + 1
    }
}

/// The header address of instance `k` in segment `base`.
pub open spec fn instance_addr(base: usize, k: nat) -> Relocatable {
    Relocatable { segment_index: base as isize, offset: (INPUT_CELLS * k) as usize }
}

/// The `n` of the header at `h`.
pub open spec fn header_n(mem: Memory, h: Relocatable) -> nat {
    usize_at(mem, h.plus(N_OFFSET as int))->Some_0 as nat
}

/// The value of `p` in the header at `h`.
pub open spec fn header_p(mem: Memory, h: Relocatable, s: nat) -> nat {
    words_value(mem, h, s, N_WORDS as nat)
}

/// The header at `h` follows the one at `prev`, when `prev`'s `n` exceeds
/// `batch`: same `p` and `values_ptr`, `offsets_ptr` moved by
/// `3 * batch`, and `n` less by `batch`.
pub open spec fn chained(mem: Memory, prev: Relocatable, h: Relocatable, batch: nat) -> bool {
    header_n(mem, prev) > batch ==> {
        &&& forall|i: int| 0 <= i < N_WORDS ==> #[trigger] mem.value_at(h.plus(i)) == mem.value_at(prev.plus(i))
        &&& rel_at(mem, h.plus(VALUES_PTR_OFFSET as int)) == rel_at(
            mem,
            prev.plus(VALUES_PTR_OFFSET as int),
        )
        &&& rel_at(mem, prev.plus(OFFSETS_PTR_OFFSET as int)).offset + 3 * batch <= usize::MAX
        &&& rel_at(mem, h.plus(OFFSETS_PTR_OFFSET as int)) == rel_at(
            mem,
            prev.plus(OFFSETS_PTR_OFFSET as int),
        ).plus((3 * batch) as int)
        &&& header_n(mem, h) == header_n(mem, prev) - batch
    }
}

/// Triple `idx` of the instance at `h` is complete and satisfies
/// `a op b == c (mod p)`.
pub open spec fn triple_ok(mem: Memory, h: Relocatable, s: nat, t: ModBuiltinType, idx: nat) -> bool {
    let vp = rel_at(mem, h.plus(VALUES_PTR_OFFSET as int));
    let opp = rel_at(mem, h.plus(OFFSETS_PTR_OFFSET as int));
    let p = header_p(mem, h, s);
    &&& operand_value(mem, s, vp, opp, idx, 0) is Some
    &&& operand_value(mem, s, vp, opp, idx, 1) is Some
    &&& operand_value(mem, s, vp, opp, idx, 2) is Some
    &&& p > 0
    &&& op_holds(
        t,
        operand_value(mem, s, vp, opp, idx, 0)->Some_0,
        operand_value(mem, s, vp, opp, idx, 1)->Some_0,
        operand_value(mem, s, vp, opp, idx, 2)->Some_0,
        p,
    )
}

/// Instance `k` of segment `base` passes the checks.
pub open spec fn instance_ok(mem: Memory, base: usize, k: nat, s: nat, t: ModBuiltinType, batch: nat) -> bool {
    &&& header_ok(mem, instance_addr(base, k), s)
    &&& k > 0 ==> chained(mem, instance_addr(base, (k - 1) as nat), instance_addr(base, k), batch)
    &&& forall|idx: nat| idx < batch ==> #[trigger] triple_ok(mem, instance_addr(base, k), s, t, idx)
}

/// Every instance of the used part of segment `base` passes the checks,
/// and the last one has `n == batch`.
pub open spec fn security_ok(mem: Memory, base: usize, s: nat, t: ModBuiltinType, batch: nat) -> bool {
    let n_instances = ceil_div(mem.segment_len(base as isize), INPUT_CELLS as nat);
    &&& forall|k: nat| k < n_instances ==> #[trigger] instance_ok(mem, base, k, s, t, batch)
    &&& n_instances > 0 ==> header_n(mem, instance_addr(base, (n_instances - 1) as nat)) == batch
}

/// Triple `idx` of the instance at `h` is complete, `p` is positive, and
/// `a op b != c (mod p)`.
pub open spec fn triple_wrong(mem: Memory, h: Relocatable, s: nat, t: ModBuiltinType, idx: nat) -> bool {
    let vp = rel_at(mem, h.plus(VALUES_PTR_OFFSET as int));
    let opp = rel_at(mem, h.plus(OFFSETS_PTR_OFFSET as int));
    let p = header_p(mem, h, s);
    &&& operand_value(mem, s, vp, opp, idx, 0) is Some
    &&& operand_value(mem, s, vp, opp, idx, 1) is Some
    &&& operand_value(mem, s, vp, opp, idx, 2) is Some
    &&& p > 0
    &&& !op_holds(
        t,
        operand_value(mem, s, vp, opp, idx, 0)->Some_0,
        operand_value(mem, s, vp, opp, idx, 1)->Some_0,
        operand_value(mem, s, vp, opp, idx, 2)->Some_0,
        p,
    )
}

/// The first thing that the security check finds wrong is triple `idx` of
/// instance `k`: the instances before pass, instance `k`'s header is valid
/// and follows the previous one, its triples before `idx` pass, and triple
/// `idx` is complete but does not hold.
pub open spec fn first_wrong_triple(
    mem: Memory,
    base: usize,
    s: nat,
    t: ModBuiltinType,
    batch: nat,
    k: nat,
    idx: nat,
) -> bool {
    let h = instance_addr(base, k);
    &&& k < ceil_div(mem.segment_len(base as isize), INPUT_CELLS as nat)
    &&& forall|k2: nat| k2 < k ==> #[trigger] instance_ok(mem, base, k2, s, t, batch)
    &&& header_ok(mem, h, s)
    &&& k > 0 ==> chained(mem, instance_addr(base, (k - 1) as nat), h, batch)
    &&& idx < batch
    &&& forall|i2: nat| i2 < idx ==> #[trigger] triple_ok(mem, h, s, t, i2)
    &&& triple_wrong(mem, h, s, t, idx)
}

/// An instance that passes the checks holds no first wrong triple.
pub(crate) proof fn lemma_ok_instance_not_wrong(
    mem: Memory,
    base: usize,
    s: nat,
    t: ModBuiltinType,
    batch: nat,
    k: nat,
)
    requires
        instance_ok(mem, base, k, s, t, batch),
    ensures
        forall|idx: nat| !#[trigger] first_wrong_triple(mem, base, s, t, batch, k, idx),
{
    assert forall|idx: nat| !#[trigger] first_wrong_triple(mem, base, s, t, batch, k, idx) by {
        if idx < batch {
            assert(triple_ok(mem, instance_addr(base, k), s, t, idx));
        }
    }
}

/// `inputs` follows `pv` as `chained` asks, read from the two headers.
pub open spec fn inputs_chained(pv: Inputs, inputs: Inputs, batch: nat) -> bool {
    pv.n > batch ==> {
        &&& forall|i: int| 0 <= i < N_WORDS ==> #[trigger] inputs.p_values@[i]@ == pv.p_values@[i]@
        &&& inputs.values_ptr == pv.values_ptr
        &&& pv.offsets_ptr.offset + 3 * batch <= usize::MAX
        &&& inputs.offsets_ptr == pv.offsets_ptr.plus((3 * batch) as int)
        &&& inputs.n == pv.n - batch
    }
}

/// `triple_ok`, read from the header `inputs`.
pub open spec fn inputs_triple_ok(mem: Memory, s: nat, t: ModBuiltinType, inputs: Inputs, idx: nat) -> bool {
    let (vp, opp, p) = (inputs.values_ptr, inputs.offsets_ptr, inputs.p@);
    &&& operand_value(mem, s, vp, opp, idx, 0) is Some
    &&& operand_value(mem, s, vp, opp, idx, 1) is Some
    &&& operand_value(mem, s, vp, opp, idx, 2) is Some
    &&& p > 0
    &&& op_holds(
        t,
        operand_value(mem, s, vp, opp, idx, 0)->Some_0,
        operand_value(mem, s, vp, opp, idx, 1)->Some_0,
        operand_value(mem, s, vp, opp, idx, 2)->Some_0,
        p,
    )
}

pub(crate) proof fn lemma_triple_ok_inputs(
    mem: Memory,
    h: Relocatable,
    s: nat,
    t: ModBuiltinType,
    inputs: Inputs,
    idx: nat,
)
    requires
        header_ok(mem, h, s),
        inputs_at(mem, h, s, inputs),
    ensures
        triple_ok(mem, h, s, t, idx) == inputs_triple_ok(mem, s, t, inputs, idx),
{
    assert(rel_at(mem, h.plus(VALUES_PTR_OFFSET as int)) == inputs.values_ptr);
    assert(rel_at(mem, h.plus(OFFSETS_PTR_OFFSET as int)) == inputs.offsets_ptr);
    assert(header_p(mem, h, s) == inputs.p@);
}

pub(crate) proof fn lemma_chained(
    mem: Memory,
    prev: Relocatable,
    h: Relocatable,
    s: nat,
    batch: nat,
    pv: Inputs,
    inputs: Inputs,
)
    requires
        header_ok(mem, prev, s),
        header_ok(mem, h, s),
        inputs_at(mem, prev, s, pv),
        inputs_at(mem, h, s, inputs),
    ensures
        chained(mem, prev, h, batch) <==> inputs_chained(pv, inputs, batch),
{
    lemma_header_some(mem, prev, s);
    lemma_header_some(mem, h, s);
    assert(header_n(mem, prev) == pv.n);
    assert(header_n(mem, h) == inputs.n);
    assert((forall|i: int| 0 <= i < N_WORDS ==> #[trigger] mem.value_at(h.plus(i)) == mem.value_at(prev.plus(i)))
        <==> (forall|i: int| 0 <= i < N_WORDS ==> #[trigger] inputs.p_values@[i]@ == pv.p_values@[i]@)) by {
        if forall|i: int| 0 <= i < N_WORDS ==> #[trigger] mem.value_at(h.plus(i)) == mem.value_at(prev.plus(i)) {
            assert forall|i: int| 0 <= i < N_WORDS implies #[trigger] inputs.p_values@[i]@ == pv.p_values@[i]@ by {
                assert(mem.value_at(h.plus(i)) == mem.value_at(prev.plus(i)));
            }
        }
        if forall|i: int| 0 <= i < N_WORDS ==> #[trigger] inputs.p_values@[i]@ == pv.p_values@[i]@ {
            assert forall|i: int| 0 <= i < N_WORDS implies #[trigger] mem.value_at(h.plus(i)) == mem.value_at(prev.plus(i)) by {
                assert(inputs.p_values@[i]@ == pv.p_values@[i]@);
                assert(mem.value_at(h.plus(i)) == Some(CellVal::Int(word_of(mem.value_at(h.plus(i))))));
                assert(mem.value_at(prev.plus(i)) == Some(CellVal::Int(word_of(mem.value_at(prev.plus(i))))));
            }
        }
    }
}


/// A header at `h` in `m1` that repeats the valid header at `ptr` in `m0`,
/// with `offsets_ptr` moved by `d` and `n` less by `e`, is valid and reads so.
pub(crate) proof fn lemma_header_image(m0: Memory, m1: Memory, ptr: Relocatable, h: Relocatable, s: nat, d: nat, e: nat)
    requires
        header_ok(m0, ptr, s),
        h.offset + INPUT_CELLS <= usize::MAX,
        e < header_n(m0, ptr),
        rel_at(m0, ptr.plus(OFFSETS_PTR_OFFSET as int)).offset + d <= usize::MAX,
        forall|i: int| 0 <= i < N_WORDS ==> #[trigger] m1.value_at(h.plus(i)) == m0.value_at(ptr.plus(i)),
        m1.value_at(h.plus(VALUES_PTR_OFFSET as int)) == m0.value_at(ptr.plus(VALUES_PTR_OFFSET as int)),
        m1.value_at(h.plus(OFFSETS_PTR_OFFSET as int)) == Some(
            CellVal::Rel(rel_at(m0, ptr.plus(OFFSETS_PTR_OFFSET as int)).plus(d as int)),
        ),
        m1.value_at(h.plus(N_OFFSET as int)) == Some(CellVal::Int((header_n(m0, ptr) - e) as nat)),
    ensures
        header_ok(m1, h, s),
        header_p(m1, h, s) == header_p(m0, ptr, s),
        rel_at(m1, h.plus(VALUES_PTR_OFFSET as int)) == rel_at(m0, ptr.plus(VALUES_PTR_OFFSET as int)),
        rel_at(m1, h.plus(OFFSETS_PTR_OFFSET as int)) == rel_at(
            m0,
            ptr.plus(OFFSETS_PTR_OFFSET as int),
        ).plus(d as int),
        header_n(m1, h) == header_n(m0, ptr) - e,
{
    assert forall|i: nat| i < N_WORDS implies #[trigger] m1.value_at(h.plus(i as int)) == m0.value_at(
        ptr.plus(i as int),
    ) by {
        assert(m1.value_at(h.plus(i as int)) == m0.value_at(ptr.plus(i as int)));
    }
    lemma_same_words_from(m1, h, m0, ptr, s, 0);
    lemma_same_words_value(m1, h, m0, ptr, s, N_WORDS as nat);
}

/// Cross-instance invariant: once the headers are filled from the first one,
/// the header of every instance `k >= 1` is valid and follows the header of
/// instance `k - 1` as the security check asks: the same `p` and
/// `values_ptr`, `offsets_ptr` moved by `3 * batch_size`, and `n` less by
/// `batch_size`.
pub proof fn lemma_filled_headers_chained(
    m0: Memory,
    m1: Memory,
    ptr: Relocatable,
    s: nat,
    batch: nat,
    n: nat,
    k: nat,
)
    requires
        side_prepared(m0, m1, ptr, s, batch, n),
        Memory::extends(m0, m1),
        1 <= k < header_n(m0, ptr) / batch,
    ensures
        header_ok(m1, ptr.plus((INPUT_CELLS * k) as int), s),
        header_ok(m1, ptr.plus((INPUT_CELLS * (k - 1)) as int), s),
        chained(
            m1,
            ptr.plus((INPUT_CELLS * (k - 1)) as int),
            ptr.plus((INPUT_CELLS * k) as int),
            batch,
        ),
{
    let total = header_n(m0, ptr);
    let opp = rel_at(m0, ptr.plus(OFFSETS_PTR_OFFSET as int));
    let h = ptr.plus((INPUT_CELLS * k) as int);
    let g = ptr.plus((INPUT_CELLS * (k - 1)) as int);
    lemma_header_some(m0, ptr, s);
    assert(header_cells(m1, m0, ptr, batch, k));
    assert(k * batch < total) by (nonlinear_arith)
        requires
            k < total / batch,
            batch > 0,
    ;
    assert(3 * k * batch == 3 * (k - 1) * batch + 3 * batch) by (nonlinear_arith)
        requires
            k >= 1,
    ;
    assert(k * batch == (k - 1) * batch + batch) by (nonlinear_arith)
        requires
            k >= 1,
    ;
    lemma_header_image(m0, m1, ptr, h, s, 3 * k * batch, k * batch);
    if k == 1 {
        assert(g == ptr);
        assert forall|i: int| 0 <= i < N_WORDS implies #[trigger] m1.value_at(g.plus(i)) == m0.value_at(
            ptr.plus(i),
        ) by {
            assert(m0.value_at(ptr.plus(i)) is Some);
        }
        assert(m0.value_at(ptr.plus(VALUES_PTR_OFFSET as int)) is Some);
        assert(m0.value_at(ptr.plus(OFFSETS_PTR_OFFSET as int)) is Some);
        assert(m0.value_at(ptr.plus(N_OFFSET as int)) is Some);
        assert(opp.plus(0) == opp);
        lemma_header_image(m0, m1, ptr, g, s, 0, 0);
    } else {
        assert(header_cells(m1, m0, ptr, batch, (k - 1) as nat));
        assert(((k - 1) as nat) * batch < total) by (nonlinear_arith)
            requires
                k >= 1,
                k * batch < total,
                batch > 0,
        ;
        let j = (k - 1) as nat;
        lemma_header_image(m0, m1, ptr, g, s, 3 * j * batch, j * batch);
    }
    assert forall|i: int| 0 <= i < N_WORDS implies #[trigger] m1.value_at(h.plus(i)) == m1.value_at(
        g.plus(i),
    ) by {
        assert(m1.value_at(h.plus(i)) == m0.value_at(ptr.plus(i)));
    }
}

/// When the three values of triple `j` are known, they satisfy
/// `a op b == c (mod p)`.
pub open spec fn known_triple_holds(
    m: Memory,
    s: nat,
    vp: Relocatable,
    opp: Relocatable,
    j: nat,
    t: ModBuiltinType,
    p: nat,
) -> bool {
    let (a, b, c) = (
        operand_value(m, s, vp, opp, j, 0),
        operand_value(m, s, vp, opp, j, 1),
        operand_value(m, s, vp, opp, j, 2),
    );
    a is Some && b is Some && c is Some ==> op_holds(t, a->Some_0, b->Some_0, c->Some_0, p)
}

pub open spec fn known_triples_hold(
    m: Memory,
    s: nat,
    vp: Relocatable,
    opp: Relocatable,
    n: nat,
    t: ModBuiltinType,
    p: nat,
) -> bool {
    forall|j: nat| j < n ==> #[trigger] known_triple_holds(m, s, vp, opp, j, t, p)
}

/// Each operand of the first `n` triples of `inp` holds in `m` what it held
/// in `m0`, or a value below `p`: all that the deduction wrote is reduced.
pub open spec fn values_settled(m0: Memory, m: Memory, s: nat, inp: Option<Inputs>, n: nat) -> bool {
    match inp {
        Some(i) => forall|j: nat, k: nat|
            j < n && k < 3 ==> {
                let v = #[trigger] operand_value(m, s, i.values_ptr, i.offsets_ptr, j, k);
                v == operand_value(m0, s, i.values_ptr, i.offsets_ptr, j, k) || (v is Some && v->Some_0
                    < i.p@)
            },
        None => true,
    }
}

/// The operands of the first `n` triples all have addresses.
pub open spec fn operands_known(m: Memory, vp: Relocatable, opp: Relocatable, n: nat) -> bool {
    forall|j: nat, k: nat| j < n && k < 3 ==> (#[trigger] operand_addr(m, vp, opp, j, k)) is Some
}

/// The words of operand `(j1, k1)` of the first table and of operand
/// `(j2, k2)` of the second never meet; when the two tables are the `same`,
/// the operands of one triple may.
pub open spec fn operands_apart(
    m: Memory,
    vp1: Relocatable,
    opp1: Relocatable,
    n1: nat,
    vp2: Relocatable,
    opp2: Relocatable,
    n2: nat,
    same: bool,
) -> bool {
    forall|j1: nat, k1: nat, j2: nat, k2: nat|
        j1 < n1 && k1 < 3 && j2 < n2 && k2 < 3 && !(same && j1 == j2) ==> ranges_disjoint(
            (#[trigger] operand_addr(m, vp1, opp1, j1, k1))->Some_0,
            (#[trigger] operand_addr(m, vp2, opp2, j2, k2))->Some_0,
        )
}

/// One builtin's first `n` triples have addresses whose words do not meet
/// from triple to triple, and those already complete hold.
pub open spec fn inputs_sound(m: Memory, s: nat, inp: Option<Inputs>, n: nat, t: ModBuiltinType) -> bool {
    match inp {
        Some(i) => {
            &&& operands_known(m, i.values_ptr, i.offsets_ptr, n)
            &&& operands_apart(m, i.values_ptr, i.offsets_ptr, n, i.values_ptr, i.offsets_ptr, n, true)
            &&& known_triples_hold(m, s, i.values_ptr, i.offsets_ptr, n, t, i.p@)
        },
        None => true,
    }
}

/// The operands of the two builtins never meet.
pub open spec fn inputs_apart(m: Memory, a: Option<Inputs>, an: nat, b: Option<Inputs>, bn: nat) -> bool {
    match (a, b) {
        (Some(x), Some(y)) => operands_apart(
            m,
            x.values_ptr,
            x.offsets_ptr,
            an,
            y.values_ptr,
            y.offsets_ptr,
            bn,
            false,
        ),
        _ => true,
    }
}

pub(crate) proof fn lemma_addrs_extend(m0: Memory, m1: Memory, vp: Relocatable, opp: Relocatable, n: nat)
    requires
        Memory::extends(m0, m1),
        operands_known(m0, vp, opp, n),
    ensures
        forall|j: nat, k: nat|
            j < n && k < 3 ==> #[trigger] operand_addr(m1, vp, opp, j, k) == operand_addr(m0, vp, opp, j, k),
        operands_known(m1, vp, opp, n),
{
    assert forall|j: nat, k: nat| j < n && k < 3 implies #[trigger] operand_addr(m1, vp, opp, j, k)
        == operand_addr(m0, vp, opp, j, k) by {
        assert(operand_addr(m0, vp, opp, j, k) is Some);
        lemma_operand_addr_extends(m0, m1, vp, opp, j, k);
    }
}

pub(crate) proof fn lemma_apart_extends(
    m0: Memory,
    m1: Memory,
    vp1: Relocatable,
    opp1: Relocatable,
    n1: nat,
    vp2: Relocatable,
    opp2: Relocatable,
    n2: nat,
    same: bool,
)
    requires
        Memory::extends(m0, m1),
        operands_known(m0, vp1, opp1, n1),
        operands_known(m0, vp2, opp2, n2),
        operands_apart(m0, vp1, opp1, n1, vp2, opp2, n2, same),
    ensures
        operands_apart(m1, vp1, opp1, n1, vp2, opp2, n2, same),
{
    lemma_addrs_extend(m0, m1, vp1, opp1, n1);
    lemma_addrs_extend(m0, m1, vp2, opp2, n2);
    assert forall|j1: nat, k1: nat, j2: nat, k2: nat|
        j1 < n1 && k1 < 3 && j2 < n2 && k2 < 3 && !(same && j1 == j2) implies ranges_disjoint(
        (#[trigger] operand_addr(m1, vp1, opp1, j1, k1))->Some_0,
        (#[trigger] operand_addr(m1, vp2, opp2, j2, k2))->Some_0,
    ) by {
        assert(operand_addr(m1, vp1, opp1, j1, k1) == operand_addr(m0, vp1, opp1, j1, k1));
        assert(operand_addr(m1, vp2, opp2, j2, k2) == operand_addr(m0, vp2, opp2, j2, k2));
    }
}

/// Triples whose operands lie apart from the words written at `t` keep
/// what they hold.
pub(crate) proof fn lemma_triples_apart(
    m0: Memory,
    m1: Memory,
    s: nat,
    t: Relocatable,
    vp: Relocatable,
    opp: Relocatable,
    n: nat,
    ty: ModBuiltinType,
    p: nat,
    skip: int,
)
    requires
        Memory::extends(m0, m1),
        forall|x: Relocatable| !in_words(x, t) ==> #[trigger] m1.value_at(x) == m0.value_at(x),
        operands_known(m0, vp, opp, n),
        known_triples_hold(m0, s, vp, opp, n, ty, p),
        forall|j: nat, k: nat|
            j < n && k < 3 && j != skip ==> ranges_disjoint(
                (#[trigger] operand_addr(m0, vp, opp, j, k))->Some_0,
                t,
            ),
    ensures
        forall|j: nat| j < n && j != skip ==> #[trigger] known_triple_holds(m1, s, vp, opp, j, ty, p),
{
    assert forall|j: nat| j < n && j != skip implies #[trigger] known_triple_holds(m1, s, vp, opp, j, ty, p) by {
        assert(known_triple_holds(m0, s, vp, opp, j, ty, p));
        assert(operand_addr(m0, vp, opp, j, 0) is Some);
        assert(operand_addr(m0, vp, opp, j, 1) is Some);
        assert(operand_addr(m0, vp, opp, j, 2) is Some);
        lemma_operand_apart(m0, m1, s, t, vp, opp, j, 0);
        lemma_operand_apart(m0, m1, s, t, vp, opp, j, 1);
        lemma_operand_apart(m0, m1, s, t, vp, opp, j, 2);
    }
}

/// What one successful `fill_value` on triple `i` of `w` leaves: at most one
/// value was missing; none, and nothing changed; one, and only its words were
/// written and the triple holds.
pub open spec fn step_done(m0: Memory, m1: Memory, s: nat, w: Inputs, i: nat, ty: ModBuiltinType) -> bool {
    let (vp, opp) = (w.values_ptr, w.offsets_ptr);
    let (x, y, z) = (
        operand_value(m0, s, vp, opp, i, 0),
        operand_value(m0, s, vp, opp, i, 1),
        operand_value(m0, s, vp, opp, i, 2),
    );
    &&& n_missing(x, y, z) <= 1
    &&& n_missing(x, y, z) == 0 ==> m1 == m0
    &&& n_missing(x, y, z) == 1 ==> {
        &&& forall|c: Relocatable|
            !in_words(c, operand_addr(m0, vp, opp, i, missing_index(x, y, z))->Some_0)
                ==> #[trigger] m1.value_at(c) == m0.value_at(c)
        &&& known_triple_holds(m1, s, vp, opp, i, ty, w.p@)
    }
}

/// One step of the deduction keeps both builtins sound and apart.
pub(crate) proof fn lemma_deduce_step(
    m0: Memory,
    m1: Memory,
    s: nat,
    a: Option<Inputs>,
    an: nat,
    b: Option<Inputs>,
    bn: nat,
    write_a: bool,
    i: nat,
)
    requires
        inputs_sound(m0, s, a, an, ModBuiltinType::Add),
        inputs_sound(m0, s, b, bn, ModBuiltinType::Mul),
        inputs_apart(m0, a, an, b, bn),
        Memory::extends(m0, m1),
        write_a ==> a is Some && i < an && step_done(m0, m1, s, a->Some_0, i, ModBuiltinType::Add),
        !write_a ==> b is Some && i < bn && step_done(m0, m1, s, b->Some_0, i, ModBuiltinType::Mul),
    ensures
        inputs_sound(m1, s, a, an, ModBuiltinType::Add),
        inputs_sound(m1, s, b, bn, ModBuiltinType::Mul),
        inputs_apart(m1, a, an, b, bn),
{
    let w = if write_a { a->Some_0 } else { b->Some_0 };
    let (vp, opp) = (w.values_ptr, w.offsets_ptr);
    let (x, y, z) = (
        operand_value(m0, s, vp, opp, i, 0),
        operand_value(m0, s, vp, opp, i, 1),
        operand_value(m0, s, vp, opp, i, 2),
    );
    if n_missing(x, y, z) == 0 {
        assert(m1 == m0);
    } else {
        lemma_deduce_write(m0, m1, s, a, an, b, bn, write_a, i);
    }
}

pub(crate) proof fn lemma_deduce_write(
    m0: Memory,
    m1: Memory,
    s: nat,
    a: Option<Inputs>,
    an: nat,
    b: Option<Inputs>,
    bn: nat,
    write_a: bool,
    i: nat,
)
    requires
        inputs_sound(m0, s, a, an, ModBuiltinType::Add),
        inputs_sound(m0, s, b, bn, ModBuiltinType::Mul),
        inputs_apart(m0, a, an, b, bn),
        Memory::extends(m0, m1),
        write_a ==> a is Some && i < an && step_done(m0, m1, s, a->Some_0, i, ModBuiltinType::Add),
        !write_a ==> b is Some && i < bn && step_done(m0, m1, s, b->Some_0, i, ModBuiltinType::Mul),
        ({
            let w = if write_a { a->Some_0 } else { b->Some_0 };
            n_missing(
                operand_value(m0, s, w.values_ptr, w.offsets_ptr, i, 0),
                operand_value(m0, s, w.values_ptr, w.offsets_ptr, i, 1),
                operand_value(m0, s, w.values_ptr, w.offsets_ptr, i, 2),
            ) == 1
        }),
    ensures
        inputs_sound(m1, s, a, an, ModBuiltinType::Add),
        inputs_sound(m1, s, b, bn, ModBuiltinType::Mul),
        inputs_apart(m1, a, an, b, bn),
{
    let w = if write_a { a->Some_0 } else { b->Some_0 };
    let (vp, opp) = (w.values_ptr, w.offsets_ptr);
    let (x, y, z) = (
        operand_value(m0, s, vp, opp, i, 0),
        operand_value(m0, s, vp, opp, i, 1),
        operand_value(m0, s, vp, opp, i, 2),
    );
    let km = missing_index(x, y, z);
    let t = operand_addr(m0, vp, opp, i, km)->Some_0;
    if let Some(ai) = a {
        lemma_addrs_extend(m0, m1, ai.values_ptr, ai.offsets_ptr, an);
        lemma_apart_extends(m0, m1, ai.values_ptr, ai.offsets_ptr, an, ai.values_ptr, ai.offsets_ptr, an, true);
        if write_a {
            assert forall|j: nat, k: nat| j < an && k < 3 && j != i implies ranges_disjoint(
                (#[trigger] operand_addr(m0, ai.values_ptr, ai.offsets_ptr, j, k))->Some_0,
                t,
            ) by {
                assert(operand_addr(m0, ai.values_ptr, ai.offsets_ptr, i, km) is Some);
            }
            lemma_triples_apart(m0, m1, s, t, ai.values_ptr, ai.offsets_ptr, an, ModBuiltinType::Add, ai.p@, i as int);
            assert forall|j: nat| j < an implies #[trigger] known_triple_holds(
                m1,
                s,
                ai.values_ptr,
                ai.offsets_ptr,
                j,
                ModBuiltinType::Add,
                ai.p@,
            ) by {
                if j != i {
                    assert(known_triple_holds(m1, s, ai.values_ptr, ai.offsets_ptr, j, ModBuiltinType::Add, ai.p@));
                }
            }
        } else {
            let bi = b->Some_0;
            assert forall|j: nat, k: nat| j < an && k < 3 && j != -1 implies ranges_disjoint(
                (#[trigger] operand_addr(m0, ai.values_ptr, ai.offsets_ptr, j, k))->Some_0,
                t,
            ) by {
                assert(operand_addr(m0, bi.values_ptr, bi.offsets_ptr, i, km) is Some);
            }
            lemma_triples_apart(m0, m1, s, t, ai.values_ptr, ai.offsets_ptr, an, ModBuiltinType::Add, ai.p@, -1);
        }
    }
    if let Some(bi) = b {
        lemma_addrs_extend(m0, m1, bi.values_ptr, bi.offsets_ptr, bn);
        lemma_apart_extends(m0, m1, bi.values_ptr, bi.offsets_ptr, bn, bi.values_ptr, bi.offsets_ptr, bn, true);
        if !write_a {
            assert forall|j: nat, k: nat| j < bn && k < 3 && j != i implies ranges_disjoint(
                (#[trigger] operand_addr(m0, bi.values_ptr, bi.offsets_ptr, j, k))->Some_0,
                t,
            ) by {
                assert(operand_addr(m0, bi.values_ptr, bi.offsets_ptr, i, km) is Some);
            }
            lemma_triples_apart(m0, m1, s, t, bi.values_ptr, bi.offsets_ptr, bn, ModBuiltinType::Mul, bi.p@, i as int);
            assert forall|j: nat| j < bn implies #[trigger] known_triple_holds(
                m1,
                s,
                bi.values_ptr,
                bi.offsets_ptr,
                j,
                ModBuiltinType::Mul,
                bi.p@,
            ) by {
                if j != i {
                    assert(known_triple_holds(m1, s, bi.values_ptr, bi.offsets_ptr, j, ModBuiltinType::Mul, bi.p@));
                }
            }
        } else {
            let ai = a->Some_0;
            assert forall|j: nat, k: nat| j < bn && k < 3 && j != -1 implies ranges_disjoint(
                (#[trigger] operand_addr(m0, bi.values_ptr, bi.offsets_ptr, j, k))->Some_0,
                t,
            ) by {
                assert(operand_addr(m0, ai.values_ptr, ai.offsets_ptr, i, km) is Some);
            }
            lemma_triples_apart(m0, m1, s, t, bi.values_ptr, bi.offsets_ptr, bn, ModBuiltinType::Mul, bi.p@, -1);
        }
    }
    if let (Some(ai), Some(bi)) = (a, b) {
        lemma_apart_extends(m0, m1, ai.values_ptr, ai.offsets_ptr, an, bi.values_ptr, bi.offsets_ptr, bn, false);
    }
}

/// A builtin with its first header at `ptr` and `n` triples written, on
/// which the deduction is sound: the header is valid; the values lie in a
/// segment apart from the header's and the offsets table's; the operands of
/// the first `n` triples have addresses whose words do not meet from triple
/// to triple; and those triples that are already complete hold.
pub open spec fn sound_side(m: Memory, ptr: Relocatable, s: nat, n: nat, t: ModBuiltinType) -> bool {
    let vp = rel_at(m, ptr.plus(VALUES_PTR_OFFSET as int));
    let opp = rel_at(m, ptr.plus(OFFSETS_PTR_OFFSET as int));
    &&& header_ok(m, ptr, s)
    &&& vp.segment_index != ptr.segment_index && vp.segment_index != opp.segment_index
    &&& operands_known(m, vp, opp, n)
    &&& operands_apart(m, vp, opp, n, vp, opp, n, true)
    &&& known_triples_hold(m, s, vp, opp, n, t, header_p(m, ptr, s))
}

/// The two builtins' operands never meet, and the values of each lie apart
/// from the other's header and offsets table.
pub open spec fn sides_apart(m: Memory, p1: Relocatable, n1: nat, p2: Relocatable, n2: nat) -> bool {
    let vp1 = rel_at(m, p1.plus(VALUES_PTR_OFFSET as int));
    let opp1 = rel_at(m, p1.plus(OFFSETS_PTR_OFFSET as int));
    let vp2 = rel_at(m, p2.plus(VALUES_PTR_OFFSET as int));
    let opp2 = rel_at(m, p2.plus(OFFSETS_PTR_OFFSET as int));
    &&& vp1.segment_index != p2.segment_index && vp1.segment_index != opp2.segment_index
    &&& vp2.segment_index != p1.segment_index && vp2.segment_index != opp1.segment_index
    &&& operands_apart(m, vp1, opp1, n1, vp2, opp2, n2, false)
}

/// In `m1`, the first `n` triples of the builtin whose header is at `ptr` in
/// `m0` are complete and satisfy `a op b == c (mod p)`, and each of their
/// values is the one it had in `m0` or, deduced, is below `p`.
pub open spec fn triples_hold(m0: Memory, m1: Memory, ptr: Relocatable, s: nat, n: nat, t: ModBuiltinType) -> bool {
    let vp = rel_at(m0, ptr.plus(VALUES_PTR_OFFSET as int));
    let opp = rel_at(m0, ptr.plus(OFFSETS_PTR_OFFSET as int));
    &&& triples_filled(m1, s, vp, opp, n)
    &&& known_triples_hold(m1, s, vp, opp, n, t, header_p(m0, ptr, s))
    &&& forall|j: nat, k: nat|
        j < n && k < 3 ==> {
            let v = #[trigger] operand_value(m1, s, vp, opp, j, k);
            v == operand_value(m0, s, vp, opp, j, k) || (v is Some && v->Some_0 < header_p(m0, ptr, s))
        }
}

/// Writes outside the values' segment leave the triples as they were.
pub(crate) proof fn lemma_values_untouched(
    m0: Memory,
    m1: Memory,
    s: nat,
    vp: Relocatable,
    opp: Relocatable,
    n: nat,
    t: ModBuiltinType,
    p: nat,
    seg1: isize,
    seg2: isize,
)
    requires
        Memory::extends(m0, m1),
        Memory::same_outside(m0, m1, seg1, seg2),
        vp.segment_index != seg1,
        vp.segment_index != seg2,
        operands_known(m0, vp, opp, n),
        known_triples_hold(m0, s, vp, opp, n, t, p),
    ensures
        known_triples_hold(m1, s, vp, opp, n, t, p),
        forall|j: nat, k: nat|
            j < n && k < 3 ==> #[trigger] operand_value(m1, s, vp, opp, j, k) == operand_value(
                m0,
                s,
                vp,
                opp,
                j,
                k,
            ),
{
    lemma_addrs_extend(m0, m1, vp, opp, n);
    assert forall|j: nat, k: nat| j < n && k < 3 implies #[trigger] operand_value(m1, s, vp, opp, j, k)
        == operand_value(m0, s, vp, opp, j, k) by {
        let u = operand_addr(m0, vp, opp, j, k)->Some_0;
        assert(operand_addr(m1, vp, opp, j, k) == operand_addr(m0, vp, opp, j, k));
        assert(u.segment_index == vp.segment_index);
        assert forall|i: nat| i < N_WORDS implies #[trigger] m1.value_at(u.plus(i as int)) == m0.value_at(
            u.plus(i as int),
        ) by {
            assert(u.plus(i as int).segment_index == vp.segment_index);
        }
        lemma_same_words_from(m1, u, m0, u, s, 0);
        lemma_same_words_value(m1, u, m0, u, s, N_WORDS as nat);
    }
    assert forall|j: nat| j < n implies #[trigger] known_triple_holds(m1, s, vp, opp, j, t, p) by {
        assert(known_triple_holds(m0, s, vp, opp, j, t, p));
        assert(operand_value(m1, s, vp, opp, j, 0) == operand_value(m0, s, vp, opp, j, 0));
        assert(operand_value(m1, s, vp, opp, j, 1) == operand_value(m0, s, vp, opp, j, 1));
        assert(operand_value(m1, s, vp, opp, j, 2) == operand_value(m0, s, vp, opp, j, 2));
    }
}

/// The soundness conditions stated over the memory before the fill carry
/// over to the memory that the deduction starts from, for the headers as
/// read there.
pub(crate) proof fn lemma_sound_setup(
    m0: Memory,
    m_add: Memory,
    m_mul: Memory,
    s: nat,
    add_mod: Option<(Relocatable, &ModBuiltinRunner, usize)>,
    add_inputs: Option<Inputs>,
    mul_mod: Option<(Relocatable, &ModBuiltinRunner, usize)>,
    mul_inputs: Option<Inputs>,
)
    requires
        Memory::extends(m0, m_add),
        Memory::extends(m_add, m_mul),
        add_mod is None ==> add_inputs is None && m_add == m0,
        mul_mod is None ==> mul_inputs is None && m_mul == m_add,
        add_mod matches Some((ptr, run, n)) ==> run.shift@ == s && add_inputs is Some && inputs_at(
            m0,
            ptr,
            s,
            add_inputs->Some_0,
        ) && Memory::same_outside(
            m0,
            m_add,
            ptr.segment_index,
            add_inputs->Some_0.offsets_ptr.segment_index,
        ),
        mul_mod matches Some((ptr, run, n)) ==> run.shift@ == s && mul_inputs is Some && inputs_at(
            m_add,
            ptr,
            s,
            mul_inputs->Some_0,
        ) && Memory::same_outside(
            m_add,
            m_mul,
            ptr.segment_index,
            mul_inputs->Some_0.offsets_ptr.segment_index,
        ),
        add_mod matches Some((ptr, run, n)) ==> sound_side(m0, ptr, s, n as nat, ModBuiltinType::Add),
        mul_mod matches Some((ptr, run, n)) ==> sound_side(m0, ptr, s, n as nat, ModBuiltinType::Mul),
        add_mod is Some && mul_mod is Some ==> sides_apart(
            m0,
            add_mod->Some_0.0,
            add_mod->Some_0.2 as nat,
            mul_mod->Some_0.0,
            mul_mod->Some_0.2 as nat,
        ),
    ensures
        add_mod matches Some((ptr, run, n)) ==> inputs_sound(m_mul, s, add_inputs, n as nat, ModBuiltinType::Add),
        add_mod is None ==> inputs_sound(m_mul, s, add_inputs, 0, ModBuiltinType::Add),
        mul_mod matches Some((ptr, run, n)) ==> inputs_sound(m_mul, s, mul_inputs, n as nat, ModBuiltinType::Mul),
        mul_mod is None ==> inputs_sound(m_mul, s, mul_inputs, 0, ModBuiltinType::Mul),
        add_mod is Some && mul_mod is Some ==> inputs_apart(
            m_mul,
            add_inputs,
            add_mod->Some_0.2 as nat,
            mul_inputs,
            mul_mod->Some_0.2 as nat,
        ),
        add_mod matches Some((ptr, run, n)) ==> add_inputs->Some_0.values_ptr == rel_at(
            m0,
            ptr.plus(VALUES_PTR_OFFSET as int),
        ) && add_inputs->Some_0.offsets_ptr == rel_at(m0, ptr.plus(OFFSETS_PTR_OFFSET as int))
            && add_inputs->Some_0.p@ == header_p(m0, ptr, s),
        mul_mod matches Some((ptr, run, n)) ==> mul_inputs->Some_0.values_ptr == rel_at(
            m0,
            ptr.plus(VALUES_PTR_OFFSET as int),
        ) && mul_inputs->Some_0.offsets_ptr == rel_at(m0, ptr.plus(OFFSETS_PTR_OFFSET as int))
            && mul_inputs->Some_0.p@ == header_p(m0, ptr, s),
        add_mod matches Some((ptr, run, n)) ==> forall|j: nat, k: nat|
            j < n && k < 3 ==> #[trigger] operand_value(
                m_mul,
                s,
                add_inputs->Some_0.values_ptr,
                add_inputs->Some_0.offsets_ptr,
                j,
                k,
            ) == operand_value(m0, s, add_inputs->Some_0.values_ptr, add_inputs->Some_0.offsets_ptr, j, k),
        mul_mod matches Some((ptr, run, n)) ==> forall|j: nat, k: nat|
            j < n && k < 3 ==> #[trigger] operand_value(
                m_mul,
                s,
                mul_inputs->Some_0.values_ptr,
                mul_inputs->Some_0.offsets_ptr,
                j,
                k,
            ) == operand_value(m0, s, mul_inputs->Some_0.values_ptr, mul_inputs->Some_0.offsets_ptr, j, k),
{
    if let Some((p2, run2, n2)) = mul_mod {
        let inp = mul_inputs->Some_0;
        lemma_header_some(m0, p2, s);
        assert(m0.value_at(p2.plus(VALUES_PTR_OFFSET as int)) is Some);
        assert(m0.value_at(p2.plus(OFFSETS_PTR_OFFSET as int)) is Some);
        assert(rel_at(m_add, p2.plus(VALUES_PTR_OFFSET as int)) == rel_at(m0, p2.plus(VALUES_PTR_OFFSET as int)));
        assert(rel_at(m_add, p2.plus(OFFSETS_PTR_OFFSET as int)) == rel_at(m0, p2.plus(OFFSETS_PTR_OFFSET as int)));
        lemma_extends_stored(m0, m_add, p2, s);
        let (vp, opp, n) = (inp.values_ptr, inp.offsets_ptr, n2 as nat);
        let p = inp.p@;
        lemma_addrs_extend(m0, m_add, vp, opp, n);
        lemma_addrs_extend(m0, m_mul, vp, opp, n);
        lemma_apart_extends(m0, m_mul, vp, opp, n, vp, opp, n, true);
        if let Some((p1, run1, n1)) = add_mod {
            lemma_values_untouched(
                m0,
                m_add,
                s,
                vp,
                opp,
                n,
                ModBuiltinType::Mul,
                p,
                p1.segment_index,
                add_inputs->Some_0.offsets_ptr.segment_index,
            );
        }
        lemma_values_untouched(
            m_add,
            m_mul,
            s,
            vp,
            opp,
            n,
            ModBuiltinType::Mul,
            p,
            p2.segment_index,
            opp.segment_index,
        );
    }
    if let Some((p1, run1, n1)) = add_mod {
        let inp = add_inputs->Some_0;
        let (vp, opp, n) = (inp.values_ptr, inp.offsets_ptr, n1 as nat);
        let p = inp.p@;
        lemma_addrs_extend(m0, m_add, vp, opp, n);
        lemma_addrs_extend(m0, m_mul, vp, opp, n);
        lemma_apart_extends(m0, m_mul, vp, opp, n, vp, opp, n, true);
        lemma_values_untouched(
            m0,
            m_add,
            s,
            vp,
            opp,
            n,
            ModBuiltinType::Add,
            p,
            p1.segment_index,
            opp.segment_index,
        );
        if let Some((p2, run2, n2)) = mul_mod {
            lemma_values_untouched(
                m_add,
                m_mul,
                s,
                vp,
                opp,
                n,
                ModBuiltinType::Add,
                p,
                p2.segment_index,
                mul_inputs->Some_0.offsets_ptr.segment_index,
            );
            let mi = mul_inputs->Some_0;
            lemma_apart_extends(m0, m_mul, vp, opp, n, mi.values_ptr, mi.offsets_ptr, n2 as nat, false);
        }
    }
}

/// Triple `j` has exactly one value missing, all of whose cells are empty,
/// and the value can be deduced: a division that it needs has an answer, and
/// `p` is positive and fits in the words.
pub open spec fn deducible(
    m: Memory,
    s: nat,
    vp: Relocatable,
    opp: Relocatable,
    j: nat,
    t: ModBuiltinType,
    p: nat,
) -> bool {
    let (a, b, c) = (
        operand_value(m, s, vp, opp, j, 0),
        operand_value(m, s, vp, opp, j, 1),
        operand_value(m, s, vp, opp, j, 2),
    );
    let u = operand_addr(m, vp, opp, j, missing_index(a, b, c));
    &&& n_missing(a, b, c) == 1
    &&& u is Some
    &&& m.has_segment(u->Some_0.segment_index)
    &&& u->Some_0.offset + N_WORDS < usize::MAX
    &&& forall|i: nat| i < N_WORDS ==> (#[trigger] m.value_at(u->Some_0.plus(i as int))) is None
    &&& solvable(t, a, b, c, p)
    &&& 0 < p <= pow(s as int, N_WORDS as nat)
}

/// Triples `from .. n` of one builtin are all deducible.
pub open spec fn inputs_deducible(m: Memory, s: nat, inp: Option<Inputs>, from: nat, n: nat, t: ModBuiltinType) -> bool {
    match inp {
        Some(i) => forall|j: nat|
            from <= j < n ==> #[trigger] deducible(m, s, i.values_ptr, i.offsets_ptr, j, t, i.p@),
        None => true,
    }
}

/// A deducible triple reads without error, and its missing value can be
/// written whatever it is.
pub(crate) proof fn lemma_deducible_reads(
    m: Memory,
    s: nat,
    vp: Relocatable,
    opp: Relocatable,
    j: nat,
    t: ModBuiltinType,
    p: nat,
)
    requires
        deducible(m, s, vp, opp, j, t, p),
    ensures
        operand_readable(m, s, vp, opp, j, 0),
        operand_readable(m, s, vp, opp, j, 1),
        operand_readable(m, s, vp, opp, j, 2),
        ({
            let (a, b, c) = (
                operand_value(m, s, vp, opp, j, 0),
                operand_value(m, s, vp, opp, j, 1),
                operand_value(m, s, vp, opp, j, 2),
            );
            forall|x: nat| writable(m, operand_addr(m, vp, opp, j, missing_index(a, b, c))->Some_0, x, s)
        }),
{
    let (a, b, c) = (
        operand_value(m, s, vp, opp, j, 0),
        operand_value(m, s, vp, opp, j, 1),
        operand_value(m, s, vp, opp, j, 2),
    );
    let u = operand_addr(m, vp, opp, j, missing_index(a, b, c))->Some_0;
    assert(m.value_at(u.plus(0)) is None);
    assert(first_non_word(m, u, s) == 0);
}

/// A deducible triple whose operands lie apart from the words written at
/// `t` stays deducible.
pub(crate) proof fn lemma_deducible_apart(
    m0: Memory,
    m1: Memory,
    s: nat,
    t: Relocatable,
    vp: Relocatable,
    opp: Relocatable,
    j: nat,
    ty: ModBuiltinType,
    p: nat,
)
    requires
        Memory::extends(m0, m1),
        forall|x: Relocatable| !in_words(x, t) ==> #[trigger] m1.value_at(x) == m0.value_at(x),
        deducible(m0, s, vp, opp, j, ty, p),
        forall|k: nat|
            k < 3 ==> (#[trigger] operand_addr(m0, vp, opp, j, k)) is Some && ranges_disjoint(
                operand_addr(m0, vp, opp, j, k)->Some_0,
                t,
            ),
    ensures
        deducible(m1, s, vp, opp, j, ty, p),
{
    assert(operand_addr(m0, vp, opp, j, 0) is Some);
    assert(operand_addr(m0, vp, opp, j, 1) is Some);
    assert(operand_addr(m0, vp, opp, j, 2) is Some);
    lemma_operand_apart(m0, m1, s, t, vp, opp, j, 0);
    lemma_operand_apart(m0, m1, s, t, vp, opp, j, 1);
    lemma_operand_apart(m0, m1, s, t, vp, opp, j, 2);
    lemma_operand_addr_extends(m0, m1, vp, opp, j, 0);
    lemma_operand_addr_extends(m0, m1, vp, opp, j, 1);
    lemma_operand_addr_extends(m0, m1, vp, opp, j, 2);
    let (a, b, c) = (
        operand_value(m0, s, vp, opp, j, 0),
        operand_value(m0, s, vp, opp, j, 1),
        operand_value(m0, s, vp, opp, j, 2),
    );
    let km = missing_index(a, b, c);
    let u = operand_addr(m0, vp, opp, j, km)->Some_0;
    assert(ranges_disjoint(u, t));
    assert forall|i: nat| i < N_WORDS implies (#[trigger] m1.value_at(u.plus(i as int))) is None by {
        assert(!in_words(u.plus(i as int), t));
        assert(m0.value_at(u.plus(i as int)) is None);
    }
}

/// A step that fills triple `i = a_from` of `a` (or `i = b_from` of `b`)
/// keeps the remaining triples of both builtins deducible.
pub(crate) proof fn lemma_deducible_step(
    m0: Memory,
    m1: Memory,
    s: nat,
    a: Option<Inputs>,
    a_from: nat,
    an: nat,
    b: Option<Inputs>,
    b_from: nat,
    bn: nat,
    write_a: bool,
)
    requires
        inputs_sound(m0, s, a, an, ModBuiltinType::Add),
        inputs_sound(m0, s, b, bn, ModBuiltinType::Mul),
        inputs_apart(m0, a, an, b, bn),
        inputs_deducible(m0, s, a, a_from, an, ModBuiltinType::Add),
        inputs_deducible(m0, s, b, b_from, bn, ModBuiltinType::Mul),
        Memory::extends(m0, m1),
        write_a ==> a is Some && a_from < an,
        !write_a ==> b is Some && b_from < bn,
        ({
            let w = if write_a { a->Some_0 } else { b->Some_0 };
            let i = if write_a { a_from } else { b_from };
            let (x, y, z) = (
                operand_value(m0, s, w.values_ptr, w.offsets_ptr, i, 0),
                operand_value(m0, s, w.values_ptr, w.offsets_ptr, i, 1),
                operand_value(m0, s, w.values_ptr, w.offsets_ptr, i, 2),
            );
            forall|c: Relocatable|
                !in_words(c, operand_addr(m0, w.values_ptr, w.offsets_ptr, i, missing_index(x, y, z))->Some_0)
                    ==> #[trigger] m1.value_at(c) == m0.value_at(c)
        }),
    ensures
        inputs_deducible(
            m1,
            s,
            a,
            if write_a { a_from + 1 } else { a_from },
            an,
            ModBuiltinType::Add,
        ),
        inputs_deducible(
            m1,
            s,
            b,
            if write_a { b_from } else { b_from + 1 },
            bn,
            ModBuiltinType::Mul,
        ),
{
    let w = if write_a { a->Some_0 } else { b->Some_0 };
    let i = if write_a { a_from } else { b_from };
    let (x, y, z) = (
        operand_value(m0, s, w.values_ptr, w.offsets_ptr, i, 0),
        operand_value(m0, s, w.values_ptr, w.offsets_ptr, i, 1),
        operand_value(m0, s, w.values_ptr, w.offsets_ptr, i, 2),
    );
    let km = missing_index(x, y, z);
    let t = operand_addr(m0, w.values_ptr, w.offsets_ptr, i, km)->Some_0;
    assert(deducible(m0, s, w.values_ptr, w.offsets_ptr, i, if write_a { ModBuiltinType::Add } else { ModBuiltinType::Mul }, w.p@));
    assert(km < 3);
    assert(operand_addr(m0, w.values_ptr, w.offsets_ptr, i, km) is Some);
    if let Some(ai) = a {
        let from = if write_a { a_from + 1 } else { a_from };
        assert forall|j: nat| from <= j < an implies #[trigger] deducible(
            m1,
            s,
            ai.values_ptr,
            ai.offsets_ptr,
            j,
            ModBuiltinType::Add,
            ai.p@,
        ) by {
            assert(deducible(m0, s, ai.values_ptr, ai.offsets_ptr, j, ModBuiltinType::Add, ai.p@));
            assert forall|k: nat| k < 3 implies (#[trigger] operand_addr(m0, ai.values_ptr, ai.offsets_ptr, j, k)) is Some
                && ranges_disjoint(operand_addr(m0, ai.values_ptr, ai.offsets_ptr, j, k)->Some_0, t) by {
                assert(operand_addr(m0, ai.values_ptr, ai.offsets_ptr, j, k) is Some);
                if !write_a {
                    let bi = b->Some_0;
                    assert(operand_addr(m0, bi.values_ptr, bi.offsets_ptr, i, km) is Some);
                }
            }
            lemma_deducible_apart(m0, m1, s, t, ai.values_ptr, ai.offsets_ptr, j, ModBuiltinType::Add, ai.p@);
        }
    }
    if let Some(bi) = b {
        let from = if write_a { b_from } else { b_from + 1 };
        assert forall|j: nat| from <= j < bn implies #[trigger] deducible(
            m1,
            s,
            bi.values_ptr,
            bi.offsets_ptr,
            j,
            ModBuiltinType::Mul,
            bi.p@,
        ) by {
            assert(deducible(m0, s, bi.values_ptr, bi.offsets_ptr, j, ModBuiltinType::Mul, bi.p@));
            assert forall|k: nat| k < 3 implies (#[trigger] operand_addr(m0, bi.values_ptr, bi.offsets_ptr, j, k)) is Some
                && ranges_disjoint(operand_addr(m0, bi.values_ptr, bi.offsets_ptr, j, k)->Some_0, t) by {
                assert(operand_addr(m0, bi.values_ptr, bi.offsets_ptr, j, k) is Some);
                if write_a {
                    let ai = a->Some_0;
                    assert(operand_addr(m0, ai.values_ptr, ai.offsets_ptr, i, km) is Some);
                }
            }
            lemma_deducible_apart(m0, m1, s, t, bi.values_ptr, bi.offsets_ptr, j, ModBuiltinType::Mul, bi.p@);
        }
    }
}

/// Writes outside segments `seg1` and `seg2` keep a builtin whose header
/// and offsets table lie elsewhere ready to be prepared.
pub(crate) proof fn lemma_prepare_ok_untouched(
    m0: Memory,
    m1: Memory,
    ptr: Relocatable,
    s: nat,
    batch: nat,
    index: nat,
    seg1: isize,
    seg2: isize,
)
    requires
        prepare_ok(m0, ptr, s, batch, index),
        Memory::extends(m0, m1),
        Memory::same_outside(m0, m1, seg1, seg2),
        ptr.segment_index != seg1 && ptr.segment_index != seg2,
        rel_at(m0, ptr.plus(OFFSETS_PTR_OFFSET as int)).segment_index != seg1,
        rel_at(m0, ptr.plus(OFFSETS_PTR_OFFSET as int)).segment_index != seg2,
    ensures
        prepare_ok(m1, ptr, s, batch, index),
        header_n(m1, ptr) == header_n(m0, ptr),
        rel_at(m1, ptr.plus(OFFSETS_PTR_OFFSET as int)) == rel_at(m0, ptr.plus(OFFSETS_PTR_OFFSET as int)),
        rel_at(m1, ptr.plus(VALUES_PTR_OFFSET as int)) == rel_at(m0, ptr.plus(VALUES_PTR_OFFSET as int)),
        header_p(m1, ptr, s) == header_p(m0, ptr, s),
{
    let opp = rel_at(m0, ptr.plus(OFFSETS_PTR_OFFSET as int));
    let total = header_n(m0, ptr);
    assert forall|i: nat| i < N_WORDS implies #[trigger] m1.value_at(ptr.plus(i as int)) == m0.value_at(
        ptr.plus(i as int),
    ) by {
        assert(ptr.plus(i as int).segment_index == ptr.segment_index);
    }
    lemma_same_words_from(m1, ptr, m0, ptr, s, 0);
    lemma_same_words_value(m1, ptr, m0, ptr, s, N_WORDS as nat);
    assert(m1.value_at(ptr.plus(VALUES_PTR_OFFSET as int)) == m0.value_at(ptr.plus(VALUES_PTR_OFFSET as int)));
    assert(m1.value_at(ptr.plus(OFFSETS_PTR_OFFSET as int)) == m0.value_at(ptr.plus(OFFSETS_PTR_OFFSET as int)));
    assert(m1.value_at(ptr.plus(N_OFFSET as int)) == m0.value_at(ptr.plus(N_OFFSET as int)));
    let n_instances = total / batch;
    assert forall|k: nat, j: nat| 1 <= k < n_instances && j < INPUT_CELLS implies {
        let x = #[trigger] m1.value_at(ptr.plus((INPUT_CELLS * k + j) as int));
        x is None || x == implied_header_cell(m1, ptr, batch, k, j)
    } by {
        assert(ptr.plus((INPUT_CELLS * k + j) as int).segment_index == ptr.segment_index);
        assert(m1.value_at(ptr.plus((INPUT_CELLS * k + j) as int)) == m0.value_at(
            ptr.plus((INPUT_CELLS * k + j) as int),
        ));
        if j < N_WORDS {
            assert(m1.value_at(ptr.plus(j as int)) == m0.value_at(ptr.plus(j as int)));
        }
        assert(implied_header_cell(m1, ptr, batch, k, j) == implied_header_cell(m0, ptr, batch, k, j));
    }
    if total > index {
        let nc = (total - index) as nat;
        assert forall|i: nat| i < 3 implies (#[trigger] m1.value_at(opp.plus(i as int))) is Some by {
            assert(m0.value_at(opp.plus(i as int)) is Some);
        }
        assert forall|c: nat, i: nat| c < nc && i < 3 implies {
            let x = #[trigger] m1.value_at(opp.plus((3 * (index + c) + i) as int));
            x is None || x == m1.value_at(opp.plus(i as int))
        } by {
            assert(m1.value_at(opp.plus((3 * (index + c) + i) as int)) == m0.value_at(
                opp.plus((3 * (index + c) + i) as int),
            ));
            assert(m1.value_at(opp.plus(i as int)) == m0.value_at(opp.plus(i as int)));
        }
    }
}

/// Writes outside segments `seg1` and `seg2` keep a deducible triple whose
/// values lie elsewhere deducible.
pub(crate) proof fn lemma_deducible_untouched(
    m0: Memory,
    m1: Memory,
    s: nat,
    vp: Relocatable,
    opp: Relocatable,
    j: nat,
    t: ModBuiltinType,
    p: nat,
    seg1: isize,
    seg2: isize,
)
    requires
        deducible(m0, s, vp, opp, j, t, p),
        Memory::extends(m0, m1),
        Memory::same_outside(m0, m1, seg1, seg2),
        vp.segment_index != seg1 && vp.segment_index != seg2,
    ensures
        deducible(m1, s, vp, opp, j, t, p),
{
    let (a, b, c) = (
        operand_value(m0, s, vp, opp, j, 0),
        operand_value(m0, s, vp, opp, j, 1),
        operand_value(m0, s, vp, opp, j, 2),
    );
    let km = missing_index(a, b, c);
    assert(operand_addr(m0, vp, opp, j, km) is Some);
    assert forall|k: nat| k < 3 implies #[trigger] operand_value(m1, s, vp, opp, j, k) == operand_value(
        m0,
        s,
        vp,
        opp,
        j,
        k,
    ) && operand_addr(m1, vp, opp, j, k) == operand_addr(m0, vp, opp, j, k) by {
        assert(operand_addr(m0, vp, opp, j, k) is Some);
        lemma_operand_addr_extends(m0, m1, vp, opp, j, k);
        let u = operand_addr(m0, vp, opp, j, k)->Some_0;
        assert forall|i: nat| i < N_WORDS implies #[trigger] m1.value_at(u.plus(i as int)) == m0.value_at(
            u.plus(i as int),
        ) by {
            assert(u.plus(i as int).segment_index == vp.segment_index);
        }
        lemma_same_words_from(m1, u, m0, u, s, 0);
        lemma_same_words_value(m1, u, m0, u, s, N_WORDS as nat);
    }
    assert(operand_value(m1, s, vp, opp, j, 0) == a);
    assert(operand_value(m1, s, vp, opp, j, 1) == b);
    assert(operand_value(m1, s, vp, opp, j, 2) == c);
    let u = operand_addr(m0, vp, opp, j, km)->Some_0;
    assert(operand_addr(m1, vp, opp, j, km) == operand_addr(m0, vp, opp, j, km));
    assert forall|i: nat| i < N_WORDS implies (#[trigger] m1.value_at(u.plus(i as int))) is None by {
        assert(u.plus(i as int).segment_index == vp.segment_index);
        assert(m0.value_at(u.plus(i as int)) is None);
    }
}

/// Under soundness, a step that fills triple `i` of one builtin leaves every
/// other operand of both builtins as it was.
pub(crate) proof fn lemma_others_unchanged(
    m0: Memory,
    m1: Memory,
    s: nat,
    a: Option<Inputs>,
    an: nat,
    b: Option<Inputs>,
    bn: nat,
    write_a: bool,
    i: nat,
)
    requires
        inputs_sound(m0, s, a, an, ModBuiltinType::Add),
        inputs_sound(m0, s, b, bn, ModBuiltinType::Mul),
        inputs_apart(m0, a, an, b, bn),
        Memory::extends(m0, m1),
        write_a ==> a is Some && i < an && step_done(m0, m1, s, a->Some_0, i, ModBuiltinType::Add),
        !write_a ==> b is Some && i < bn && step_done(m0, m1, s, b->Some_0, i, ModBuiltinType::Mul),
    ensures
        a matches Some(ai) ==> forall|j: nat, k: nat|
            j < an && k < 3 && !(write_a && j == i) ==> #[trigger] operand_value(
                m1,
                s,
                ai.values_ptr,
                ai.offsets_ptr,
                j,
                k,
            ) == operand_value(m0, s, ai.values_ptr, ai.offsets_ptr, j, k),
        b matches Some(bi) ==> forall|j: nat, k: nat|
            j < bn && k < 3 && !(!write_a && j == i) ==> #[trigger] operand_value(
                m1,
                s,
                bi.values_ptr,
                bi.offsets_ptr,
                j,
                k,
            ) == operand_value(m0, s, bi.values_ptr, bi.offsets_ptr, j, k),
{
    let w = if write_a { a->Some_0 } else { b->Some_0 };
    let (vp, opp) = (w.values_ptr, w.offsets_ptr);
    let (x, y, z) = (
        operand_value(m0, s, vp, opp, i, 0),
        operand_value(m0, s, vp, opp, i, 1),
        operand_value(m0, s, vp, opp, i, 2),
    );
    if n_missing(x, y, z) == 1 {
        let km = missing_index(x, y, z);
        let t = operand_addr(m0, vp, opp, i, km)->Some_0;
        assert(operand_addr(m0, vp, opp, i, km) is Some);
        if let Some(ai) = a {
            assert forall|j: nat, k: nat| j < an && k < 3 && !(write_a && j == i) implies #[trigger] operand_value(
                m1,
                s,
                ai.values_ptr,
                ai.offsets_ptr,
                j,
                k,
            ) == operand_value(m0, s, ai.values_ptr, ai.offsets_ptr, j, k) by {
                assert(operand_addr(m0, ai.values_ptr, ai.offsets_ptr, j, k) is Some);
                if !write_a {
                    let bi = b->Some_0;
                    assert(operand_addr(m0, bi.values_ptr, bi.offsets_ptr, i, km) is Some);
                }
                assert(ranges_disjoint(operand_addr(m0, ai.values_ptr, ai.offsets_ptr, j, k)->Some_0, t));
                lemma_operand_apart(m0, m1, s, t, ai.values_ptr, ai.offsets_ptr, j, k);
            }
        }
        if let Some(bi) = b {
            assert forall|j: nat, k: nat| j < bn && k < 3 && !(!write_a && j == i) implies #[trigger] operand_value(
                m1,
                s,
                bi.values_ptr,
                bi.offsets_ptr,
                j,
                k,
            ) == operand_value(m0, s, bi.values_ptr, bi.offsets_ptr, j, k) by {
                assert(operand_addr(m0, bi.values_ptr, bi.offsets_ptr, j, k) is Some);
                if write_a {
                    let ai = a->Some_0;
                    assert(operand_addr(m0, ai.values_ptr, ai.offsets_ptr, i, km) is Some);
                }
                assert(ranges_disjoint(operand_addr(m0, bi.values_ptr, bi.offsets_ptr, j, k)->Some_0, t));
                lemma_operand_apart(m0, m1, s, t, bi.values_ptr, bi.offsets_ptr, j, k);
            }
        }
    }
}

/// Settled values stay settled when only triple `i` changes, and each of its
/// operands either keeps its value or is filled below `p`.
pub(crate) proof fn lemma_settled_step(
    m0: Memory,
    before: Memory,
    after: Memory,
    s: nat,
    inp: Inputs,
    n: nat,
    i: nat,
)
    requires
        values_settled(m0, before, s, Some(inp), n),
        forall|j: nat, k: nat|
            j < n && k < 3 && j != i ==> #[trigger] operand_value(after, s, inp.values_ptr, inp.offsets_ptr, j, k)
                == operand_value(before, s, inp.values_ptr, inp.offsets_ptr, j, k),
        i < n ==> forall|k: nat|
            k < 3 ==> {
                let b = operand_value(before, s, inp.values_ptr, inp.offsets_ptr, i, k);
                let a = #[trigger] operand_value(after, s, inp.values_ptr, inp.offsets_ptr, i, k);
                &&& b is Some ==> a == b
                &&& b is None ==> a is Some && a->Some_0 < inp.p@
            },
    ensures
        values_settled(m0, after, s, Some(inp), n),
{
    assert forall|j: nat, k: nat| j < n && k < 3 implies {
        let v = #[trigger] operand_value(after, s, inp.values_ptr, inp.offsets_ptr, j, k);
        v == operand_value(m0, s, inp.values_ptr, inp.offsets_ptr, j, k) || (v is Some && v->Some_0 < inp.p@)
    } by {
        assert(operand_value(before, s, inp.values_ptr, inp.offsets_ptr, j, k) == operand_value(
            m0,
            s,
            inp.values_ptr,
            inp.offsets_ptr,
            j,
            k,
        ) || (operand_value(before, s, inp.values_ptr, inp.offsets_ptr, j, k) is Some && operand_value(
            before,
            s,
            inp.values_ptr,
            inp.offsets_ptr,
            j,
            k,
        )->Some_0 < inp.p@));
    }
}

/// The deduction, started on `m0`, stays sound in `m`: both builtins are
/// sound and apart, and what it wrote is reduced.
pub closed spec fn sound_state(
    m0: Memory,
    m: Memory,
    s: nat,
    a: Option<Inputs>,
    an: nat,
    b: Option<Inputs>,
    bn: nat,
) -> bool {
    &&& inputs_sound(m, s, a, an, ModBuiltinType::Add)
    &&& inputs_sound(m, s, b, bn, ModBuiltinType::Mul)
    &&& inputs_apart(m, a, an, b, bn)
    &&& values_settled(m0, m, s, a, an)
    &&& values_settled(m0, m, s, b, bn)
}

pub(crate) proof fn lemma_sound_state_init(
    m0: Memory,
    s: nat,
    a: Option<Inputs>,
    an: nat,
    b: Option<Inputs>,
    bn: nat,
)
    requires
        inputs_sound(m0, s, a, an, ModBuiltinType::Add),
        inputs_sound(m0, s, b, bn, ModBuiltinType::Mul),
        inputs_apart(m0, a, an, b, bn),
    ensures
        sound_state(m0, m0, s, a, an, b, bn),
{
}

pub(crate) proof fn lemma_sound_state_open(
    m0: Memory,
    m: Memory,
    s: nat,
    a: Option<Inputs>,
    an: nat,
    b: Option<Inputs>,
    bn: nat,
)
    requires
        sound_state(m0, m, s, a, an, b, bn),
    ensures
        inputs_sound(m, s, a, an, ModBuiltinType::Add),
        inputs_sound(m, s, b, bn, ModBuiltinType::Mul),
        inputs_apart(m, a, an, b, bn),
        values_settled(m0, m, s, a, an),
        values_settled(m0, m, s, b, bn),
{
}

/// One successful `fill_value` on triple `i` keeps the deduction sound.
pub(crate) proof fn lemma_sound_state_step(
    m0: Memory,
    before: Memory,
    after: Memory,
    s: nat,
    a: Option<Inputs>,
    an: nat,
    b: Option<Inputs>,
    bn: nat,
    write_a: bool,
    i: nat,
)
    requires
        sound_state(m0, before, s, a, an, b, bn),
        Memory::extends(before, after),
        write_a ==> a is Some && i < an && step_done(before, after, s, a->Some_0, i, ModBuiltinType::Add),
        !write_a ==> b is Some && i < bn && step_done(before, after, s, b->Some_0, i, ModBuiltinType::Mul),
        ({
            let w = if write_a { a->Some_0 } else { b->Some_0 };
            let (vp, opp) = (w.values_ptr, w.offsets_ptr);
            let (x0, y0, z0) = (
                operand_value(before, s, vp, opp, i, 0),
                operand_value(before, s, vp, opp, i, 1),
                operand_value(before, s, vp, opp, i, 2),
            );
            let (x1, y1, z1) = (
                operand_value(after, s, vp, opp, i, 0),
                operand_value(after, s, vp, opp, i, 1),
                operand_value(after, s, vp, opp, i, 2),
            );
            &&& x1 is Some && y1 is Some && z1 is Some
            &&& x0 is Some ==> x1 == x0
            &&& y0 is Some ==> y1 == y0
            &&& z0 is Some ==> z1 == z0
            &&& x0 is None ==> x1->Some_0 < w.p@
            &&& y0 is None ==> y1->Some_0 < w.p@
            &&& z0 is None ==> z1->Some_0 < w.p@
        }),
    ensures
        sound_state(m0, after, s, a, an, b, bn),
{
    lemma_deduce_step(before, after, s, a, an, b, bn, write_a, i);
    lemma_others_unchanged(before, after, s, a, an, b, bn, write_a, i);
    let w = if write_a { a->Some_0 } else { b->Some_0 };
    if let Some(ai) = a {
        if write_a {
            assert forall|k: nat| k < 3 implies {
                let bv = operand_value(before, s, ai.values_ptr, ai.offsets_ptr, i, k);
                let av = #[trigger] operand_value(after, s, ai.values_ptr, ai.offsets_ptr, i, k);
                &&& bv is Some ==> av == bv
                &&& bv is None ==> av is Some && av->Some_0 < ai.p@
            } by {
                if k == 0 {
                } else if k == 1 {
                } else {
                }
            }
            lemma_settled_step(m0, before, after, s, ai, an, i);
        } else {
            lemma_settled_step(m0, before, after, s, ai, an, an);
        }
    }
    if let Some(bi) = b {
        if !write_a {
            assert forall|k: nat| k < 3 implies {
                let bv = operand_value(before, s, bi.values_ptr, bi.offsets_ptr, i, k);
                let av = #[trigger] operand_value(after, s, bi.values_ptr, bi.offsets_ptr, i, k);
                &&& bv is Some ==> av == bv
                &&& bv is None ==> av is Some && av->Some_0 < bi.p@
            } by {
                if k == 0 {
                } else if k == 1 {
                } else {
                }
            }
            lemma_settled_step(m0, before, after, s, bi, bn, i);
        } else {
            lemma_settled_step(m0, before, after, s, bi, bn, bn);
        }
    }
}

} // verus!
