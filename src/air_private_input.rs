//! The private input that the prover takes from the builtin's memory: each
//! instance's header and, for each triple of its batch, the offsets and words
//! of `a`, `b` and `c`. Cells are read leniently: a missing or malformed cell
//! reads as zero, or as the address `(0, 0)`.
use crate::bignum::{nat_from_u64, BigNat};
use crate::memory::{CellVal, MaybeRelocatable, Memory, Relocatable};
use crate::model::{instance_addr, usize_at, word_of};
use crate::modulo::{
    get_usize, ModBuiltinRunner, INPUT_CELLS, N_OFFSET, N_WORDS, OFFSETS_PTR_OFFSET,
    VALUES_PTR_OFFSET,
};
use vstd::prelude::*;

verus! {

/// The offsets and words of the three values of one triple.
#[derive(Debug)]
pub struct ModInputMemoryVars {
    pub a_offset: usize,
    pub b_offset: usize,
    pub c_offset: usize,
    pub a_words: Vec<BigNat>,
    pub b_words: Vec<BigNat>,
    pub c_words: Vec<BigNat>,
}

/// One instance: its header and its batch, by index in the batch.
#[derive(Debug)]
pub struct ModInputInstance {
    pub index: usize,
    pub p_words: Vec<BigNat>,
    pub values_ptr: Relocatable,
    pub offsets_ptr: Relocatable,
    pub n: usize,
    pub batch: Vec<ModInputMemoryVars>,
}

/// The private input of a mod builtin.
#[derive(Debug)]
pub struct ModInput {
    pub instances: Vec<ModInputInstance>,
    /// The address of the zero segment once the segments are relocated.
    pub zero_value_address: usize,
}

#[derive(Debug)]
pub enum PrivateInput {
    Mod(ModInput),
}

pub open spec fn default_rel() -> Relocatable {
    Relocatable { segment_index: 0, offset: 0 }
}

pub open spec fn rel_or_default(mem: Memory, a: Relocatable) -> Relocatable {
    match mem.value_at(a) {
        Some(CellVal::Rel(r)) => r,
        _ => default_rel(),
    }
}

pub open spec fn usize_or_zero(mem: Memory, a: Relocatable) -> usize {
    match usize_at(mem, a) {
        Some(n) => n,
        None => 0,
    }
}

pub open spec fn add_or_default(r: Relocatable, n: int) -> Relocatable {
    if r.offset + n <= usize::MAX {
        r.plus(n)
    } else {
        default_rel()
    }
}

/// The offset of value `k` of triple `idx`.
pub open spec fn var_offset(mem: Memory, offsets_ptr: Relocatable, idx: nat, k: nat) -> usize {
    usize_or_zero(mem, add_or_default(offsets_ptr, (3 * idx + k) as int))
}

/// Word `i` of the value at `offset`.
pub open spec fn var_word(mem: Memory, values_ptr: Relocatable, offset: usize, i: nat) -> nat {
    word_of(mem.value_at(add_or_default(values_ptr, (offset + i) as int)))
}

pub open spec fn words_match(mem: Memory, values_ptr: Relocatable, offset: usize, w: Seq<BigNat>) -> bool {
    &&& w.len() == N_WORDS
    &&& forall|i: int| 0 <= i < N_WORDS ==> #[trigger] w[i]@ == var_word(mem, values_ptr, offset, i as nat)
}

pub open spec fn memory_vars_match(
    mem: Memory,
    values_ptr: Relocatable,
    offsets_ptr: Relocatable,
    idx: nat,
    v: ModInputMemoryVars,
) -> bool {
    &&& v.a_offset == var_offset(mem, offsets_ptr, idx, 0)
    &&& v.b_offset == var_offset(mem, offsets_ptr, idx, 1)
    &&& v.c_offset == var_offset(mem, offsets_ptr, idx, 2)
    &&& words_match(mem, values_ptr, v.a_offset, v.a_words@)
    &&& words_match(mem, values_ptr, v.b_offset, v.b_words@)
    &&& words_match(mem, values_ptr, v.c_offset, v.c_words@)
}

/// `inst` is what instance `k` of segment `base` holds.
pub open spec fn instance_matches(
    mem: Memory,
    base: usize,
    k: nat,
    batch: nat,
    inst: ModInputInstance,
) -> bool {
    let h = instance_addr(base, k);
    &&& inst.index == k
    &&& inst.p_words@.len() == N_WORDS
    &&& forall|i: int| 0 <= i < N_WORDS ==> #[trigger] inst.p_words@[i]@ == word_of(mem.value_at(h.plus(i)))
    &&& inst.values_ptr == rel_or_default(mem, h.plus(VALUES_PTR_OFFSET as int))
    &&& inst.offsets_ptr == rel_or_default(mem, h.plus(OFFSETS_PTR_OFFSET as int))
    &&& inst.n == usize_or_zero(mem, h.plus(N_OFFSET as int))
    &&& inst.batch@.len() == batch
    &&& forall|idx: int|
        0 <= idx < batch ==> memory_vars_match(
            mem,
            inst.values_ptr,
            inst.offsets_ptr,
            idx as nat,
            #[trigger] inst.batch@[idx],
        )
}

/// The integer at `a`, or zero.
pub fn int_or_zero(memory: &Memory, a: Relocatable) -> (r: BigNat)
    ensures
        r@ == word_of(memory.value_at(a)),
{
    match memory.get(a) {
        Some(MaybeRelocatable::Int(x)) => x,
        _ => nat_from_u64(0),
    }
}

fn get_rel_or_default(memory: &Memory, a: Relocatable) -> (r: Relocatable)
    ensures
        r == rel_or_default(*memory, a),
{
    match memory.get(a) {
        Some(MaybeRelocatable::RelocatableValue(x)) => x,
        _ => Relocatable { segment_index: 0, offset: 0 },
    }
}

fn get_usize_or_zero(memory: &Memory, a: Relocatable) -> (r: usize)
    ensures
        r == usize_or_zero(*memory, a),
{
    match get_usize(memory, a) {
        Ok(n) => n,
        Err(_) => 0,
    }
}

fn add_or_default_exec(r: Relocatable, n: usize) -> (a: Relocatable)
    ensures
        a == add_or_default(r, n as int),
{
    match r.add_usize(n) {
        Ok(x) => x,
        Err(_) => Relocatable { segment_index: 0, offset: 0 },
    }
}

/// The offset of value `var_index` of triple `index_in_batch`, and the
/// words of that value.
fn fetch_offset_and_words(
    memory: &Memory,
    values_ptr: Relocatable,
    offsets_ptr: Relocatable,
    var_index: usize,
    index_in_batch: usize,
) -> (r: (usize, Vec<BigNat>))
    requires
        3 * index_in_batch + var_index <= usize::MAX,
    ensures
        r.0 == var_offset(*memory, offsets_ptr, index_in_batch as nat, var_index as nat),
        words_match(*memory, values_ptr, r.0, r.1@),
{
    let offset = get_usize_or_zero(
        memory,
        add_or_default_exec(offsets_ptr, 3 * index_in_batch + var_index),
    );
    let mut words: Vec<BigNat> = Vec::new();
    let mut i: usize = 0;
    while i < N_WORDS
        invariant
            i <= N_WORDS,
            words@.len() == i,
            forall|j: int| 0 <= j < i ==> #[trigger] words@[j]@ == var_word(*memory, values_ptr, offset, j as nat),
        decreases N_WORDS - i,
    {
        let addr = if offset <= usize::MAX - i {
            add_or_default_exec(values_ptr, offset + i)
        } else {
            Relocatable { segment_index: 0, offset: 0 }
        };
        words.push(int_or_zero(memory, addr));
        i += 1;
    }
    (offset, words)
}

impl ModBuiltinRunner {
    /// The private input of this builtin: each whole instance of its
    /// segment, and the relocated address of the zero segment.
    pub fn air_private_input(&self, memory: &Memory) -> (r: Vec<PrivateInput>)
        requires
            self.wf(),
        ensures
            r@.len() == 1,
            r@[0] matches PrivateInput::Mod(mi) && {
                &&& mi.instances@.len() == (if self.base < memory.data@.len() {
                    memory.data@[self.base as int]@.len() / (INPUT_CELLS as nat)
                } else {
                    0
                })
                &&& forall|k: int|
                    0 <= k < mi.instances@.len() ==> instance_matches(
                        *memory,
                        self.base,
                        k as nat,
                        self.instance_def.batch_size as nat,
                        #[trigger] mi.instances@[k],
                    )
                &&& mi.zero_value_address == if self.zero_segment_index <= memory.data@.len()
                    && memory.relocation_base(memory.data@.len()) <= usize::MAX {
                    memory.relocation_base(self.zero_segment_index as nat)
                } else {
                    0
                }
            },
    {
        let segment_size = match memory.get_segment_used_size(self.base) {
            Some(n) => n,
            None => 0,
        };
        let n_instances = segment_size / INPUT_CELLS;
        let mut instances: Vec<ModInputInstance> = Vec::new();
        let mut instance: usize = 0;
        while instance < n_instances
            invariant
                self.wf(),
                n_instances == segment_size / INPUT_CELLS,
                self.base < memory.data@.len() ==> segment_size == memory.data@[self.base as int]@.len(),
                self.base >= memory.data@.len() ==> segment_size == 0,
                instance <= n_instances,
                instances@.len() == instance,
                forall|k: int|
                    0 <= k < instance ==> instance_matches(
                        *memory,
                        self.base,
                        k as nat,
                        self.instance_def.batch_size as nat,
                        #[trigger] instances@[k],
                    ),
            decreases n_instances - instance,
        {
            proof {
                assert(instance * INPUT_CELLS + INPUT_CELLS <= segment_size) by (nonlinear_arith)
                    requires
                        instance < n_instances,
                        n_instances == segment_size / INPUT_CELLS,
                ;
            }
            let h = Relocatable { segment_index: self.base as isize, offset: instance * INPUT_CELLS };
            assert(h == instance_addr(self.base, instance as nat));
            let values_ptr = get_rel_or_default(
                memory,
                Relocatable { segment_index: h.segment_index, offset: h.offset + VALUES_PTR_OFFSET },
            );
            let offsets_ptr = get_rel_or_default(
                memory,
                Relocatable { segment_index: h.segment_index, offset: h.offset + OFFSETS_PTR_OFFSET },
            );
            let n = get_usize_or_zero(
                memory,
                Relocatable { segment_index: h.segment_index, offset: h.offset + N_OFFSET },
            );
            let mut p_words: Vec<BigNat> = Vec::new();
            let mut i: usize = 0;
            while i < N_WORDS
                invariant
                    i <= N_WORDS,
                    h.offset + INPUT_CELLS <= usize::MAX,
                    h == instance_addr(self.base, instance as nat),
                    p_words@.len() == i,
                    forall|j: int| 0 <= j < i ==> #[trigger] p_words@[j]@ == word_of(memory.value_at(h.plus(j))),
                decreases N_WORDS - i,
            {
                p_words.push(
                    int_or_zero(memory, Relocatable { segment_index: h.segment_index, offset: h.offset + i }),
                );
                i += 1;
            }
            let mut batch: Vec<ModInputMemoryVars> = Vec::new();
            let mut index_in_batch: usize = 0;
            while index_in_batch < self.instance_def.batch_size
                invariant
                    self.wf(),
                    h == instance_addr(self.base, instance as nat),
                    p_words@.len() == N_WORDS,
                    forall|j: int| 0 <= j < N_WORDS ==> #[trigger] p_words@[j]@ == word_of(memory.value_at(h.plus(j))),
                    values_ptr == rel_or_default(*memory, h.plus(VALUES_PTR_OFFSET as int)),
                    offsets_ptr == rel_or_default(*memory, h.plus(OFFSETS_PTR_OFFSET as int)),
                    n == usize_or_zero(*memory, h.plus(N_OFFSET as int)),
                    index_in_batch <= self.instance_def.batch_size,
                    batch@.len() == index_in_batch,
                    forall|idx: int|
                        0 <= idx < index_in_batch ==> memory_vars_match(
                            *memory,
                            values_ptr,
                            offsets_ptr,
                            idx as nat,
                            #[trigger] batch@[idx],
                        ),
                decreases self.instance_def.batch_size - index_in_batch,
            {
                let (a_offset, a_words) = fetch_offset_and_words(memory, values_ptr, offsets_ptr, 0, index_in_batch);
                let (b_offset, b_words) = fetch_offset_and_words(memory, values_ptr, offsets_ptr, 1, index_in_batch);
                let (c_offset, c_words) = fetch_offset_and_words(memory, values_ptr, offsets_ptr, 2, index_in_batch);
                batch.push(ModInputMemoryVars { a_offset, b_offset, c_offset, a_words, b_words, c_words });
                index_in_batch += 1;
            }
            instances.push(ModInputInstance { index: instance, p_words, values_ptr, offsets_ptr, n, batch });
            instance += 1;
        }
        let zero_value_address = match memory.relocate_segments() {
            Some(table) => if self.zero_segment_index < table.len() {
                table[self.zero_segment_index]
            } else {
                0
            },
            None => 0,
        };
        let mut r: Vec<PrivateInput> = Vec::new();
        r.push(PrivateInput::Mod(ModInput { instances, zero_value_address }));
        r
    }
}

} // verus!
