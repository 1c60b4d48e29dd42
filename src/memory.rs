//! A model of the virtual machine's memory: segments of cells, each empty or
//! holding an integer or an address.
use crate::bignum::{nat_eq, BigNat};
use crate::errors::{MathError, MemoryError};
use vstd::prelude::*;

verus! {

/// An address: a segment and an offset in it.
#[derive(Clone, Copy, Debug, PartialEq, Eq, Structural)]
pub struct Relocatable {
    pub segment_index: isize,
    pub offset: usize,
}

impl Relocatable {
    /// The address `n` cells further in the same segment.
    pub open spec fn plus(self, n: int) -> Relocatable {
        Relocatable { segment_index: self.segment_index, offset: (self.offset + n) as usize }
    }

    /// `self + n`, or an error when the offset would leave `usize`.
    pub fn add_usize(&self, n: usize) -> (r: Result<Relocatable, MathError>)
        ensures
            self.offset + n <= usize::MAX ==> (r matches Ok(x) && x == self.plus(n as int)),
            self.offset + n > usize::MAX ==> r is Err,
    {
        if n <= usize::MAX - self.offset {
            Ok(Relocatable { segment_index: self.segment_index, offset: self.offset + n })
        } else {
            Err(MathError::RelocatableAddUsizeOffsetExceeded(*self, n))
        }
    }
}

/// What a cell holds, as the contracts see it.
pub enum CellVal {
    Int(nat),
    Rel(Relocatable),
}

/// The content of a memory cell.
#[derive(Debug)]
pub enum MaybeRelocatable {
    Int(BigNat),
    RelocatableValue(Relocatable),
}

impl MaybeRelocatable {
    pub open spec fn val(self) -> CellVal {
        match self {
            MaybeRelocatable::Int(x) => CellVal::Int(x@),
            MaybeRelocatable::RelocatableValue(r) => CellVal::Rel(r),
        }
    }

    /// Whether the two contents stand for the same value.
    pub fn same_value(&self, o: &MaybeRelocatable) -> (r: bool)
        ensures
            r == (self.val() == o.val()),
    {
        match (self, o) {
            (MaybeRelocatable::Int(x), MaybeRelocatable::Int(y)) => nat_eq(x, y),
            (MaybeRelocatable::RelocatableValue(x), MaybeRelocatable::RelocatableValue(y)) => *x
                == *y,
            _ => false,
        }
    }
}

impl Clone for BigNat {
    fn clone(&self) -> (r: Self)
        ensures
            r.bytes@ == self.bytes@,
    {
        let bytes = self.bytes.clone();
        assert(bytes@ =~= self.bytes@);
        BigNat { bytes }
    }
}

impl Clone for MaybeRelocatable {
    fn clone(&self) -> (r: Self)
        ensures
            r.val() == self.val(),
    {
        match self {
            MaybeRelocatable::Int(x) => MaybeRelocatable::Int(x.clone()),
            MaybeRelocatable::RelocatableValue(x) => MaybeRelocatable::RelocatableValue(*x),
        }
    }
}

/// The cell holds the integer zero.
pub open spec fn is_zero_cell(c: Option<MaybeRelocatable>) -> bool {
    match c {
        Some(v) => v.val() == CellVal::Int(0),
        None => false,
    }
}

/// Segments of cells; segment `i` is `data[i]`, and a cell past the end of its
/// segment is empty.
#[derive(Debug)]
pub struct Memory {
    pub data: Vec<Vec<Option<MaybeRelocatable>>>,
    /// The cells written so far, in order; the virtual machine counts them as
    /// touched.
    pub accessed: Vec<Relocatable>,
}

impl Memory {
    pub open spec fn has_segment(&self, i: isize) -> bool {
        0 <= i < self.data@.len()
    }

    /// The number of cells up to the last one written in segment `i`.
    pub open spec fn segment_len(&self, i: isize) -> nat {
        if self.has_segment(i) {
            self.data@[i as int]@.len()
        } else {
            0
        }
    }

    /// What the cell at `a` holds, if anything.
    pub open spec fn value_at(&self, a: Relocatable) -> Option<CellVal> {
        if self.has_segment(a.segment_index) && a.offset < self.segment_len(a.segment_index) {
            match self.data@[a.segment_index as int]@[a.offset as int] {
                Some(v) => Some(v.val()),
                None => None,
            }
        } else {
            None
        }
    }

    /// The cell at `a` was written, and so counts as touched.
    pub open spec fn is_accessed(&self, a: Relocatable) -> bool {
        self.accessed@.contains(a)
    }

    /// Every cell that holds a value in `a` holds the same value in `b`.
    pub open spec fn extends(a: Memory, b: Memory) -> bool {
        &&& forall|x: Relocatable| #[trigger]
            a.value_at(x) is Some ==> b.value_at(x) == a.value_at(x)
        &&& b.data@.len() == a.data@.len()
    }

    /// Outside segments `s1` and `s2`, `b` holds what `a` holds.
    pub open spec fn same_outside(a: Memory, b: Memory, s1: isize, s2: isize) -> bool {
        forall|x: Relocatable|
            x.segment_index != s1 && x.segment_index != s2 ==> #[trigger] b.value_at(x) == a.value_at(x)
    }

    /// `b` is `a` but for the cell at `at`, which holds `v`, and the length of
    /// its segment, which reaches past it.
    pub open spec fn written(a: Memory, b: Memory, at: Relocatable, v: CellVal) -> bool {
        &&& b.value_at(at) == Some(v)
        &&& forall|x: Relocatable| x != at ==> #[trigger] b.value_at(x) == a.value_at(x)
        &&& b.data@.len() == a.data@.len()
        &&& forall|i: isize|
            i != at.segment_index ==> #[trigger] b.segment_len(i) == a.segment_len(i)
        &&& b.segment_len(at.segment_index) == if at.offset + 1 > a.segment_len(at.segment_index) {
            (at.offset + 1) as nat
        } else {
            a.segment_len(at.segment_index)
        }
    }

    /// An empty memory, with no segment.
    pub fn new() -> (r: Memory)
        ensures
            r.data@.len() == 0,
    {
        Memory { data: Vec::new(), accessed: Vec::new() }
    }

    /// Adds an empty segment and returns its first address.
    pub fn add_segment(&mut self) -> (r: Relocatable)
        requires
            old(self).data@.len() < isize::MAX,
        ensures
            r == (Relocatable { segment_index: old(self).data@.len() as isize, offset: 0 }),
            final(self).data@.len() == old(self).data@.len() + 1,
            forall|i: int| 0 <= i < old(self).data@.len() ==> #[trigger] final(self).data@[i]
                == old(self).data@[i],
            final(self).data@.last()@.len() == 0,
    {
        let r = Relocatable { segment_index: self.data.len() as isize, offset: 0 };
        self.data.push(Vec::new());
        r
    }

    /// Adds a segment of `size` cells holding zero and returns its index.
    pub fn add_zero_segment(&mut self, size: usize) -> (r: usize)
        requires
            old(self).data@.len() < isize::MAX,
        ensures
            r == old(self).data@.len(),
            final(self).data@.len() == old(self).data@.len() + 1,
            forall|i: int| 0 <= i < old(self).data@.len() ==> #[trigger] final(self).data@[i]
                == old(self).data@[i],
            final(self).segment_len(r as isize) == size,
            forall|k: usize|
                k < size ==> #[trigger] final(self).value_at(
                    Relocatable { segment_index: r as isize, offset: k },
                ) == Some(CellVal::Int(0)),
    {
        let mut seg: Vec<Option<MaybeRelocatable>> = Vec::new();
        let mut i: usize = 0;
        while i < size
            invariant
                i <= size,
                seg@.len() == i,
                forall|k: int| 0 <= k < i ==> is_zero_cell(#[trigger] seg@[k]),
            decreases size - i,
        {
            let zero = crate::bignum::nat_from_u64(0);
            seg.push(Some(MaybeRelocatable::Int(zero)));
            i += 1;
        }
        let r = self.data.len();
        self.data.push(seg);
        proof {
            assert forall|k: usize| k < size implies #[trigger] self.value_at(
                Relocatable { segment_index: r as isize, offset: k },
            ) == Some(CellVal::Int(0)) by {
                assert(is_zero_cell(self.data@[r as int]@[k as int]));
            }
        }
        r
    }

    /// The address of segment `i` once all segments are laid out one after
    /// the other from address 1.
    pub open spec fn relocation_base(&self, i: nat) -> nat
        decreases i,
    {
        if i == 0 {
            1
        } else {
            self.relocation_base((i - 1) as nat) + self.data@[i - 1]@.len()
        }
    }

    /// The relocation table: the address of each segment, and after them
    /// the first free address; nothing when an address leaves `usize`.
    pub fn relocate_segments(&self) -> (r: Option<Vec<usize>>)
        ensures
            r matches Some(t) ==> t@.len() == self.data@.len() + 1 && forall|i: int|
                0 <= i < t@.len() ==> #[trigger] t@[i] == self.relocation_base(i as nat),
            r is None ==> self.relocation_base(self.data@.len()) > usize::MAX,
            r is Some ==> self.relocation_base(self.data@.len()) <= usize::MAX,
    {
        let mut table: Vec<usize> = Vec::new();
        table.push(1);
        let mut i: usize = 0;
        while i < self.data.len()
            invariant
                i <= self.data@.len(),
                table@.len() == i + 1,
                forall|j: int| 0 <= j < table@.len() ==> #[trigger] table@[j] == self.relocation_base(j as nat),
            decreases self.data@.len() - i,
        {
            let last = table[i];
            let size = self.data[i].len();
            if size > usize::MAX - last {
                proof {
                    self.lemma_relocation_base_grows(i as nat + 1, self.data@.len());
                }
                return None;
            }
            table.push(last + size);
            i += 1;
        }
        assert(table@[self.data@.len() as int] == self.relocation_base(self.data@.len()));
        Some(table)
    }

    proof fn lemma_relocation_base_grows(&self, i: nat, j: nat)
        requires
            i <= j <= self.data@.len(),
        ensures
            self.relocation_base(i) <= self.relocation_base(j),
        decreases j - i,
    {
        if i < j {
            self.lemma_relocation_base_grows(i, (j - 1) as nat);
        }
    }

    /// The number of cells used in segment `i`, if it exists.
    pub fn get_segment_used_size(&self, i: usize) -> (r: Option<usize>)
        ensures
            i < self.data@.len() ==> (r matches Some(n) && n == self.data@[i as int]@.len()),
            i >= self.data@.len() ==> r is None,
    {
        if i < self.data.len() {
            Some(self.data[i].len())
        } else {
            None
        }
    }

    /// A copy of the cell at `a`.
    pub fn get(&self, a: Relocatable) -> (r: Option<MaybeRelocatable>)
        ensures
            r matches Some(v) ==> self.value_at(a) == Some(v.val()),
            r is None ==> self.value_at(a) is None,
    {
        if a.segment_index < 0 || a.segment_index as usize >= self.data.len() {
            return None;
        }
        let si = a.segment_index as usize;
        if a.offset >= self.data[si].len() {
            return None;
        }
        match &self.data[si][a.offset] {
            Some(v) => Some(v.clone()),
            None => None,
        }
    }

    /// The integer at `a`.
    pub fn get_integer(&self, a: Relocatable) -> (r: Result<BigNat, MemoryError>)
        ensures
            match self.value_at(a) {
                Some(CellVal::Int(x)) => r matches Ok(v) && v@ == x,
                Some(CellVal::Rel(_)) => r matches Err(MemoryError::ExpectedInteger(b)) && b == a,
                None => r matches Err(MemoryError::UnknownMemoryCell(b)) && b == a,
            },
    {
        match self.get(a) {
            Some(MaybeRelocatable::Int(x)) => Ok(x),
            Some(MaybeRelocatable::RelocatableValue(_)) => Err(MemoryError::ExpectedInteger(a)),
            None => Err(MemoryError::UnknownMemoryCell(a)),
        }
    }

    /// The address at `a`.
    pub fn get_relocatable(&self, a: Relocatable) -> (r: Result<Relocatable, MemoryError>)
        ensures
            match self.value_at(a) {
                Some(CellVal::Rel(x)) => r == Ok::<Relocatable, MemoryError>(x),
                Some(CellVal::Int(_)) => r matches Err(MemoryError::ExpectedRelocatable(b))
                    && b == a,
                None => r matches Err(MemoryError::UnknownMemoryCell(b)) && b == a,
            },
    {
        match self.get(a) {
            Some(MaybeRelocatable::RelocatableValue(x)) => Ok(x),
            Some(MaybeRelocatable::Int(_)) => Err(MemoryError::ExpectedRelocatable(a)),
            None => Err(MemoryError::UnknownMemoryCell(a)),
        }
    }

    /// Writes `v` at `a`. A cell is written once: writing the value it already
    /// holds changes nothing, writing another one fails.
    pub fn insert(&mut self, a: Relocatable, v: MaybeRelocatable) -> (r: Result<(), MemoryError>)
        ensures
            r is Ok <==> old(self).has_segment(a.segment_index) && a.offset < usize::MAX && (
            old(self).value_at(a) is None || old(self).value_at(a) == Some(v.val())),
            r is Ok ==> Memory::written(*old(self), *final(self), a, v.val()),
            r is Ok ==> final(self).accessed@ == old(self).accessed@.push(a),
            r is Err ==> *final(self) == *old(self),
    {
        if a.segment_index < 0 || a.segment_index as usize >= self.data.len() {
            return Err(MemoryError::UnallocatedSegment(a));
        }
        if a.offset == usize::MAX {
            return Err(MemoryError::UnallocatedSegment(a));
        }
        let si = a.segment_index as usize;
        if a.offset < self.data[si].len() {
            if let Some(w) = &self.data[si][a.offset] {
                if w.same_value(&v) {
                    proof {
                        assert(self.value_at(a) == Some(v.val()));
                    }
                    self.accessed.push(a);
                    return Ok(());
                } else {
                    return Err(MemoryError::InconsistentMemory(a));
                }
            }
        }
        let ghost old_mem = *self;
        let mut seg = self.data.remove(si);
        while seg.len() <= a.offset
            invariant
                a.offset < usize::MAX,
                si < old_mem.data@.len(),
                seg@.len() >= old_mem.data@[si as int]@.len(),
                forall|j: int|
                    0 <= j < seg@.len() ==> #[trigger] seg@[j] == if j < old_mem.data@[si
                        as int]@.len() {
                        old_mem.data@[si as int]@[j]
                    } else {
                        None
                    },
                seg@.len() <= a.offset + 1 || seg@.len() == old_mem.data@[si as int]@.len(),
            decreases a.offset + 1 - seg@.len(),
        {
            seg.push(None);
        }
        seg.set(a.offset, Some(v));
        self.data.insert(si, seg);
        proof {
            assert forall|x: Relocatable| x != a implies #[trigger] self.value_at(x)
                == old_mem.value_at(x) by {
                if x.segment_index != a.segment_index && 0 <= x.segment_index < self.data@.len() {
                    assert(self.data@[x.segment_index as int] == old_mem.data@[x.segment_index
                        as int]);
                }
            }
            assert forall|i: isize| i != a.segment_index implies #[trigger] self.segment_len(i)
                == old_mem.segment_len(i) by {
                if 0 <= i < self.data@.len() {
                    assert(self.data@[i as int] == old_mem.data@[i as int]);
                }
            }
        }
        self.accessed.push(a);
        Ok(())
    }
}

} // verus!
