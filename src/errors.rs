//! Errors of the memory, of the arithmetic and of the builtin runner.
use crate::bignum::BigNat;
use crate::memory::Relocatable;
use vstd::prelude::*;

verus! {

/// Failures of the arithmetic on addresses and big integers.
#[derive(Debug)]
pub enum MathError {
    /// `offset + n` does not fit in a `usize`.
    RelocatableAddUsizeOffsetExceeded(Relocatable, usize),
    /// An integer meant as a count or an offset does not fit in a `usize`.
    BigNatToUsizeConversion(BigNat),
    /// A modulus was zero.
    DivisionByZero,
    /// No quotient exists: the gcd of the divisor and the modulus does not
    /// divide the dividend. Holds the divisor and the modulus.
    DivModNoSolution(BigNat, BigNat),
    /// `n` is not a multiple of `batch_size`, or `batch_size` is zero.
    SafeDivFail(usize, usize),
}

/// Failures of a memory access.
#[derive(Debug)]
pub enum MemoryError {
    /// The segment of the address has not been allocated.
    UnallocatedSegment(Relocatable),
    /// The cell already holds another value.
    InconsistentMemory(Relocatable),
    /// The cell holds an address where an integer was expected.
    ExpectedInteger(Relocatable),
    /// The cell holds an integer where an address was expected.
    ExpectedRelocatable(Relocatable),
    /// The cell is empty.
    UnknownMemoryCell(Relocatable),
    /// The size of the builtin's segment is not known.
    MissingSegmentUsedSizes,
}

/// What a failed security check found.
#[derive(Debug)]
pub enum SecurityCheckFailure {
    /// Word `i` of `p` differs from the previous instance's.
    PValues { instance: usize, i: usize },
    /// `values_ptr` differs from the previous instance's.
    ValuesPtr { instance: usize },
    /// `offsets_ptr` is not the previous one plus `3 * batch_size`.
    OffsetsPtr { instance: usize },
    /// `n` is not the previous one minus `batch_size`.
    N { instance: usize, n: usize, prev_n: usize },
    /// A triple does not satisfy `a op b == c (mod p)`.
    Triple { instance: usize, index_in_batch: usize, p: BigNat, a: BigNat, b: BigNat, c: BigNat },
    /// The last instance does not have `n == batch_size`.
    LastN { prev_n: usize, batch_size: usize },
}

/// Failures of the builtin runner.
#[derive(Debug)]
pub enum RunnerError {
    Memory(MemoryError),
    Math(MathError),
    FillMemoryNoBuiltinSet,
    ModBuiltinsMismatchedInstanceDef,
    /// The builtin's name and the largest `n` accepted.
    FillMemoryMaxExceeded(&'static str, usize),
    /// The add and mul cursors where the deduction got stuck.
    FillMemoryCoudNotFillTable(usize, usize),
    ModBuiltinNLessThanOne(&'static str, usize),
    /// The address just past the value with a missing word.
    ModBuiltinMissingValue(&'static str, Relocatable),
    /// The address of the word, the word bit length, the word.
    WordExceedsModBuiltinWordBitLen(Relocatable, u32, BigNat),
    WriteNWordsValueNotZero(&'static str),
    ModBuiltinSecurityCheck(&'static str, SecurityCheckFailure),
}

} // verus!
