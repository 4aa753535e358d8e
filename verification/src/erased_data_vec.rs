use vstd::prelude::*;

use vstd::arithmetic::div_mod::{lemma_fundamental_div_mod, lemma_mod_multiples_basic};
use vstd::arithmetic::mul::{lemma_mul_is_associative, lemma_mul_is_commutative};

verus! {

/// The smallest multiple of `align` that is at least `size`.
pub open spec fn spec_round_up(size: int, align: int) -> int
    recommends
        align >= 1,
{
    ((size + align - 1) / align) * align
}

/// Computes the storage footprint of an array of `elements` elements whose
/// element layout is (`size`, `align`): the element size padded up to the
/// alignment, times the element count, paired with the alignment.
pub fn array_layout(size: usize, align: usize, elements: usize) -> (r: (usize, usize))
    requires
        align >= 1,
        size + align <= usize::MAX,
        spec_round_up(size as int, align as int) * elements <= usize::MAX,
    ensures
        r.0 == spec_round_up(size as int, align as int) * elements,
        r.1 == align,
{
    let x = size + align - 1;
    proof {
        lemma_fundamental_div_mod(x as int, align as int);
        lemma_mul_is_commutative(align as int, x as int / align as int);
        lemma_mul_bounds_nonneg(x as int / align as int, align as int);
        lemma_mul_bounds_nonneg(
            spec_round_up(size as int, align as int),
            elements as int,
        );
    }
    let padded_size = (x / align) * align;
    (padded_size * elements, align)
}

proof fn lemma_mul_bounds_nonneg(a: int, b: int)
    requires
        0 <= a,
        0 <= b,
    ensures
        0 <= a * b,
{
    assert(0 <= a * b) by (nonlinear_arith)
        requires
            0 <= a,
            0 <= b,
    ;
}

proof fn lemma_slot_bounds(i: int, n: int, size: int)
    requires
        0 <= i < n,
        0 <= size,
    ensures
        0 <= i * size,
        i * size + size <= n * size,
{
    assert(0 <= i * size && i * size + size <= n * size) by (nonlinear_arith)
        requires
            0 <= i < n,
            0 <= size,
    ;
}

proof fn lemma_slot_disjoint(i: int, j: int, size: int)
    requires
        0 <= i < j,
        0 <= size,
    ensures
        i * size + size <= j * size,
{
    assert(i * size + size <= j * size) by (nonlinear_arith)
        requires
            0 <= i < j,
            0 <= size,
    ;
}

proof fn lemma_mul_zero(i: int)
    ensures
        i * 0 == 0,
{
    assert(i * 0 == 0) by (nonlinear_arith);
}

proof fn lemma_mul_monotone(a: int, b: int, size: int)
    requires
        0 <= a <= b,
        0 <= size,
    ensures
        a * size <= b * size,
{
    assert(a * size <= b * size) by (nonlinear_arith)
        requires
            0 <= a <= b,
            0 <= size,
    ;
}

/// A growable column of values of one erased type, stored as raw bytes.
/// The column knows only the element size, the alignment and a flat byte
/// buffer; which slots hold initialized values is the caller's knowledge.
/// Elements are addressed by absolute slot index; removing or overwriting
/// one slot never moves another (except for the explicit shifting
/// [`ErasedVec::remove`]).
pub struct ErasedVec {
    elem_size: usize,
    align: usize,
    data: Vec<u8>,
    len: usize,
    capacity: usize,
}

impl ErasedVec {
    pub closed spec fn spec_elem_size(self) -> int {
        self.elem_size as int
    }

    pub closed spec fn spec_align(self) -> int {
        self.align as int
    }

    pub closed spec fn spec_len(self) -> int {
        self.len as int
    }

    pub closed spec fn spec_capacity(self) -> int {
        self.capacity as int
    }

    /// The raw bytes of the whole buffer.
    pub closed spec fn bytes(self) -> Seq<u8> {
        self.data@
    }

    /// The bytes of slot `i`.
    pub open spec fn slot(self, i: int) -> Seq<u8> {
        self.bytes().subrange(
            i * self.spec_elem_size(),
            i * self.spec_elem_size() + self.spec_elem_size(),
        )
    }

    /// Zero-sized element types allocate nothing; otherwise the buffer
    /// covers exactly the capacity. The element size respects the declared
    /// alignment, so every slot offset is a multiple of the alignment.
    pub closed spec fn wf(self) -> bool {
        &&& self.align >= 1
        &&& self.spec_elem_size() % self.spec_align() == 0
        &&& self.spec_len() <= self.spec_capacity()
        &&& if self.elem_size == 0 {
            self.bytes().len() == 0
        } else {
            &&& self.bytes().len() == self.spec_capacity() * self.spec_elem_size()
            &&& self.spec_capacity() * self.spec_elem_size() <= usize::MAX
        }
    }

    /// Slot offsets respect the declared alignment: the byte offset of any
    /// slot is a multiple of the alignment.
    pub proof fn lemma_slot_offsets_aligned(self, i: int)
        requires
            self.wf(),
        ensures
            (i * self.spec_elem_size()) % self.spec_align() == 0,
    {
        let size = self.spec_elem_size();
        let align = self.spec_align();
        let k = size / align;
        lemma_fundamental_div_mod(size, align);
        assert(size == align * k);
        lemma_mul_is_commutative(align, k);
        lemma_mul_is_associative(i, k, align);
        assert(i * size == (i * k) * align) by (nonlinear_arith)
            requires
                size == k * align,
        ;
        lemma_mod_multiples_basic(i * k, align);
    }

    /// A zero-sized element type consumes no per-element storage: the
    /// column's byte buffer stays empty however many elements are pushed.
    pub proof fn lemma_zero_sized_no_storage(self)
        requires
            self.wf(),
            self.spec_elem_size() == 0,
        ensures
            self.bytes().len() == 0,
    {
    }

    /// A well-formed column's capacity always covers its logical length.
    pub proof fn lemma_len_within_capacity(self)
        requires
            self.wf(),
        ensures
            self.spec_len() <= self.spec_capacity(),
    {
    }

    /// A well-formed column's element size respects its alignment.
    pub proof fn lemma_wf_layout(self)
        requires
            self.wf(),
        ensures
            self.spec_align() >= 1,
            self.spec_elem_size() % self.spec_align() == 0,
    {
    }

    /// A slot within the logical length spans exactly one element.
    pub proof fn lemma_slot_len(self, i: int)
        requires
            self.wf(),
            0 <= i < self.spec_len(),
        ensures
            self.slot(i).len() == self.spec_elem_size(),
    {
        if self.spec_elem_size() == 0 {
            lemma_mul_zero(i);
        } else {
            lemma_slot_bounds(i, self.spec_len(), self.spec_elem_size());
            lemma_mul_monotone(self.spec_len(), self.spec_capacity(), self.spec_elem_size());
        }
    }

    /// Constructs an empty column from an element size, an alignment and an
    /// initial capacity in elements.
    pub fn new(elem_size: usize, align: usize, capacity: usize) -> (r: Self)
        requires
            align >= 1,
            elem_size as int % align as int == 0,
            capacity * elem_size <= usize::MAX,
        ensures
            r.wf(),
            r.spec_elem_size() == elem_size,
            r.spec_align() == align,
            r.spec_len() == 0,
            elem_size == 0 && capacity > 0 ==> r.spec_capacity() == usize::MAX,
            elem_size == 0 && capacity == 0 ==> r.spec_capacity() == 0,
            elem_size > 0 ==> r.spec_capacity() == capacity,
    {
        let mut me = ErasedVec {
            elem_size,
            align,
            data: Vec::new(),
            len: 0,
            capacity: 0,
        };
        me.reserve_exact(capacity);
        me
    }

    /// The capacity, in elements. Unbounded for zero-sized element types
    /// once anything was reserved.
    pub fn capacity(&self) -> (r: usize)
        ensures
            r == self.spec_capacity(),
    {
        self.capacity
    }

    /// The element size, in bytes.
    pub fn elem_size_of(&self) -> (r: usize)
        ensures
            r == self.spec_elem_size(),
    {
        self.elem_size
    }

    /// The declared element alignment.
    pub fn align_of(&self) -> (r: usize)
        ensures
            r == self.spec_align(),
    {
        self.align
    }

    /// The logical length, in elements.
    pub fn len(&self) -> (r: usize)
        ensures
            r == self.spec_len(),
    {
        self.len
    }

    /// Grows the capacity by exactly `grow_elements` elements. For a
    /// zero-sized element type no memory is needed and the capacity becomes
    /// unbounded.
    pub fn grow_exact(&mut self, grow_elements: usize)
        requires
            old(self).wf(),
            old(self).spec_capacity() + grow_elements <= usize::MAX,
            (old(self).spec_capacity() + grow_elements) * old(self).spec_elem_size()
                <= usize::MAX,
        ensures
            final(self).wf(),
            final(self).spec_elem_size() == old(self).spec_elem_size(),
            final(self).spec_align() == old(self).spec_align(),
            final(self).spec_len() == old(self).spec_len(),
            grow_elements == 0 ==> *final(self) == *old(self),
            grow_elements > 0 && old(self).spec_elem_size() == 0
                ==> final(self).spec_capacity() == usize::MAX,
            old(self).spec_elem_size() > 0 ==> final(self).spec_capacity()
                == old(self).spec_capacity() + grow_elements,
            forall|i: int| 0 <= i < old(self).spec_len()
                ==> #[trigger] final(self).slot(i) =~= old(self).slot(i),
            forall|p: int| 0 <= p < old(self).bytes().len()
                ==> #[trigger] final(self).bytes()[p] == old(self).bytes()[p],
    {
        if grow_elements == 0 {
            return ;
        }
        if self.elem_size == 0 {
            self.capacity = usize::MAX;
            return ;
        }
        let new_capacity = self.capacity + grow_elements;
        proof {
            lemma_mul_monotone(
                self.spec_capacity(),
                new_capacity as int,
                self.spec_elem_size(),
            );
        }
        let target = new_capacity * self.elem_size;
        while self.data.len() < target
            invariant
                self.data@.len() <= target,
                target <= usize::MAX,
                forall|p: int| 0 <= p < old(self).bytes().len()
                    ==> #[trigger] self.data@[p] == old(self).bytes()[p],
                old(self).bytes().len() <= self.data@.len(),
                self.elem_size == old(self).elem_size,
                self.align == old(self).align,
                self.len == old(self).len,
                self.capacity == old(self).capacity,
            decreases target - self.data@.len(),
        {
            self.data.push(0);
        }
        self.capacity = new_capacity;
        proof {
            assert forall|i: int| 0 <= i < old(self).spec_len()
                implies #[trigger] self.slot(i) =~= old(self).slot(i) by {
                lemma_slot_bounds(i, old(self).spec_len(), old(self).spec_elem_size());
                lemma_mul_monotone(
                    old(self).spec_len(),
                    old(self).spec_capacity(),
                    old(self).spec_elem_size(),
                );
            }
        }
    }

    /// Makes room for `new_elements` more elements past the current length.
    pub fn reserve_exact(&mut self, new_elements: usize)
        requires
            old(self).wf(),
            old(self).spec_len() + new_elements <= usize::MAX,
            (old(self).spec_len() + new_elements) * old(self).spec_elem_size()
                <= usize::MAX,
        ensures
            final(self).wf(),
            final(self).spec_elem_size() == old(self).spec_elem_size(),
            final(self).spec_align() == old(self).spec_align(),
            final(self).spec_len() == old(self).spec_len(),
            final(self).spec_capacity() >= old(self).spec_len() + new_elements,
            final(self).spec_capacity() >= old(self).spec_capacity(),
            new_elements <= old(self).spec_capacity() - old(self).spec_len()
                ==> *final(self) == *old(self),
            old(self).spec_elem_size() > 0
                && new_elements > old(self).spec_capacity() - old(self).spec_len()
                ==> final(self).spec_capacity()
                    == old(self).spec_len() + new_elements,
            forall|i: int| 0 <= i < old(self).spec_len()
                ==> #[trigger] final(self).slot(i) =~= old(self).slot(i),
            forall|p: int| 0 <= p < old(self).bytes().len()
                ==> #[trigger] final(self).bytes()[p] == old(self).bytes()[p],
            old(self).spec_elem_size() == 0 && new_elements > old(self).spec_capacity()
                ==> final(self).spec_capacity() == usize::MAX,
    {
        let available = self.capacity - self.len;
        if available < new_elements {
            let increment = new_elements - available;
            proof {
                lemma_mul_monotone(
                    old(self).spec_capacity() + increment,
                    old(self).spec_len() + new_elements,
                    old(self).spec_elem_size(),
                );
            }
            self.grow_exact(increment);
        }
    }

    /// Extends the logical length to cover `new_len` elements, growing the
    /// buffer if needed; the newly covered slots are not initialized with
    /// any particular value.
    pub fn ensure_len(&mut self, new_len: usize)
        requires
            old(self).wf(),
            old(self).spec_len() <= new_len,
            new_len * old(self).spec_elem_size() <= usize::MAX,
        ensures
            final(self).wf(),
            final(self).spec_elem_size() == old(self).spec_elem_size(),
            final(self).spec_align() == old(self).spec_align(),
            final(self).spec_len() == new_len,
            final(self).spec_capacity() >= old(self).spec_capacity(),
            forall|i: int| 0 <= i < old(self).spec_len()
                ==> #[trigger] final(self).slot(i) =~= old(self).slot(i),
    {
        if new_len > self.capacity {
            let difference = new_len - self.capacity;
            proof {
                lemma_mul_monotone(
                    old(self).spec_capacity() + difference,
                    new_len as int,
                    old(self).spec_elem_size(),
                );
            }
            self.grow_exact(difference);
        }
        let ghost grown = *self;
        self.len = new_len;
        proof {
            assert forall|i: int| 0 <= i < old(self).spec_len()
                implies #[trigger] self.slot(i) =~= old(self).slot(i) by {
                assert(self.slot(i) =~= grown.slot(i));
                assert(grown.slot(i) =~= old(self).slot(i));
            }
        }
    }

    /// Overwrites the bytes of `self.data` starting at `base` with `value`.
    fn copy_bytes_in(&mut self, base: usize, value: &Vec<u8>)
        requires
            base + value@.len() <= old(self).bytes().len(),
        ensures
            final(self).elem_size == old(self).elem_size,
            final(self).align == old(self).align,
            final(self).len == old(self).len,
            final(self).capacity == old(self).capacity,
            final(self).bytes().len() == old(self).bytes().len(),
            forall|p: int| 0 <= p < old(self).bytes().len()
                ==> #[trigger] final(self).bytes()[p] == if base <= p < base + value@.len() {
                    value@[p - base]
                } else {
                    old(self).bytes()[p]
                },
    {
        let n = value.len();
        let total = self.data.len();
        let mut j: usize = 0;
        while j < n
            invariant
                n == value@.len(),
                j <= n,
                base + n <= total,
                total == self.data@.len(),
                self.elem_size == old(self).elem_size,
                self.align == old(self).align,
                self.len == old(self).len,
                self.capacity == old(self).capacity,
                self.data@.len() == old(self).bytes().len(),
                forall|p: int| 0 <= p < self.data@.len()
                    ==> #[trigger] self.data@[p] == if base <= p < base + j {
                        value@[p - base]
                    } else {
                        old(self).bytes()[p]
                    },
            decreases n - j,
        {
            self.data[base + j] = value[j];
            j = j + 1;
        }
    }

    /// Stores `value` at slot `index` without shifting any other element.
    /// If the slot held an initialized value, the caller must have disposed
    /// of it first.
    pub fn insert_at(&mut self, index: usize, value: &Vec<u8>)
        requires
            old(self).wf(),
            index < old(self).spec_len(),
            value@.len() == old(self).spec_elem_size(),
        ensures
            final(self).wf(),
            final(self).spec_elem_size() == old(self).spec_elem_size(),
            final(self).spec_align() == old(self).spec_align(),
            final(self).spec_len() == old(self).spec_len(),
            final(self).spec_capacity() == old(self).spec_capacity(),
            final(self).slot(index as int) =~= value@,
            forall|i: int| 0 <= i < old(self).spec_len() && i != index as int
                ==> #[trigger] final(self).slot(i) =~= old(self).slot(i),
    {
        if self.elem_size == 0 {
            proof {
                assert forall|i: int| true implies #[trigger] self.slot(i)
                    =~= old(self).slot(i) by {
                    lemma_mul_zero(i);
                }
                lemma_mul_zero(index as int);
            }
            return ;
        }
        proof {
            lemma_slot_bounds(index as int, self.spec_len(), self.spec_elem_size());
            lemma_mul_monotone(
                self.spec_len(),
                self.spec_capacity(),
                self.spec_elem_size(),
            );
        }
        let base = index * self.elem_size;
        self.copy_bytes_in(base, value);
        proof {
            self.lemma_slots_after_write(*old(self), index as int, value@);
        }
    }

    /// After a byte write covering exactly slot `index`, that slot holds the
    /// written bytes and every other slot is untouched.
    proof fn lemma_slots_after_write(self, pre: Self, index: int, value: Seq<u8>)
        requires
            pre.wf(),
            pre.spec_elem_size() > 0,
            0 <= index < pre.spec_len(),
            value.len() == pre.spec_elem_size(),
            self.spec_elem_size() == pre.spec_elem_size(),
            self.spec_len() == pre.spec_len(),
            self.spec_capacity() == pre.spec_capacity(),
            self.bytes().len() == pre.bytes().len(),
            forall|p: int| 0 <= p < pre.bytes().len()
                ==> #[trigger] self.bytes()[p]
                    == if index * pre.spec_elem_size() <= p
                        < index * pre.spec_elem_size() + pre.spec_elem_size() {
                        value[p - index * pre.spec_elem_size()]
                    } else {
                        pre.bytes()[p]
                    },
        ensures
            self.slot(index) =~= value,
            forall|i: int| 0 <= i < pre.spec_len() && i != index
                ==> #[trigger] self.slot(i) =~= pre.slot(i),
    {
        let size = pre.spec_elem_size();
        lemma_slot_bounds(index, pre.spec_len(), size);
        lemma_mul_monotone(pre.spec_len(), pre.spec_capacity(), size);
        assert forall|i: int| 0 <= i < pre.spec_len() && i != index
            implies #[trigger] self.slot(i) =~= pre.slot(i) by {
            lemma_slot_bounds(i, pre.spec_len(), size);
            if i < index {
                lemma_slot_disjoint(i, index, size);
            } else {
                lemma_slot_disjoint(index, i, size);
            }
        }
    }

    /// Appends one element's bytes at the end of the column, growing the
    /// capacity if it is exhausted. Returns the new element's slot index.
    pub fn push_back(&mut self, value: &Vec<u8>) -> (r: usize)
        requires
            old(self).wf(),
            value@.len() == old(self).spec_elem_size(),
            old(self).spec_len() < usize::MAX,
            (old(self).spec_len() + 1) * old(self).spec_elem_size() <= usize::MAX,
        ensures
            final(self).wf(),
            final(self).spec_elem_size() == old(self).spec_elem_size(),
            final(self).spec_align() == old(self).spec_align(),
            final(self).spec_len() == old(self).spec_len() + 1,
            r == old(self).spec_len(),
            final(self).slot(r as int) =~= value@,
            forall|i: int| 0 <= i < old(self).spec_len()
                ==> #[trigger] final(self).slot(i) =~= old(self).slot(i),
    {
        if self.len == self.capacity {
            proof {
                lemma_mul_monotone(
                    old(self).spec_capacity() + 1,
                    old(self).spec_len() + 1,
                    old(self).spec_elem_size(),
                );
            }
            self.grow_exact(1);
        }
        let ghost grown = *self;
        let index = self.len;
        self.len = self.len + 1;
        let ghost bumped = *self;
        self.insert_at(index, value);
        proof {
            assert forall|i: int| 0 <= i < old(self).spec_len()
                implies #[trigger] self.slot(i) =~= old(self).slot(i) by {
                assert(self.slot(i) =~= bumped.slot(i));
                assert(bumped.slot(i) =~= grown.slot(i));
                assert(grown.slot(i) =~= old(self).slot(i));
            }
        }
        index
    }

    /// Reads the bytes of the element at slot `index`. Whether those bytes
    /// are an initialized value is the caller's knowledge.
    pub fn get(&self, index: usize) -> (r: Vec<u8>)
        requires
            self.wf(),
            index < self.spec_len(),
        ensures
            r@ =~= self.slot(index as int),
    {
        let mut out: Vec<u8> = Vec::new();
        if self.elem_size == 0 {
            proof {
                lemma_mul_zero(index as int);
            }
            return out;
        }
        proof {
            lemma_slot_bounds(index as int, self.spec_len(), self.spec_elem_size());
            lemma_mul_monotone(
                self.spec_len(),
                self.spec_capacity(),
                self.spec_elem_size(),
            );
        }
        let base = index * self.elem_size;
        let mut j: usize = 0;
        while j < self.elem_size
            invariant
                self.wf(),
                index < self.spec_len(),
                j <= self.spec_elem_size(),
                base == index * self.spec_elem_size(),
                base + self.spec_elem_size() <= self.bytes().len(),
                out@.len() == j as int,
                forall|q: int| 0 <= q < j as int
                    ==> #[trigger] out@[q] == self.bytes()[base + q],
            decreases self.spec_elem_size() - j,
        {
            out.push(self.data[base + j]);
            j = j + 1;
        }
        out
    }

    /// Removes the element at slot `index`, shifting every later element
    /// one slot towards the front, and returns the removed bytes.
    pub fn remove(&mut self, index: usize) -> (r: Vec<u8>)
        requires
            old(self).wf(),
            index < old(self).spec_len(),
        ensures
            final(self).wf(),
            final(self).spec_elem_size() == old(self).spec_elem_size(),
            final(self).spec_align() == old(self).spec_align(),
            final(self).spec_capacity() == old(self).spec_capacity(),
            final(self).spec_len() == old(self).spec_len() - 1,
            r@ =~= old(self).slot(index as int),
            forall|i: int| 0 <= i < index as int
                ==> #[trigger] final(self).slot(i) =~= old(self).slot(i),
            forall|i: int| index as int <= i < old(self).spec_len() - 1
                ==> #[trigger] final(self).slot(i) =~= old(self).slot(i + 1),
    {
        let out = self.get(index);
        let ghost pre = *self;
        if self.elem_size == 0 {
            self.len = self.len - 1;
            proof {
                assert forall|i: int| true implies #[trigger] self.slot(i)
                    =~= old(self).slot(i + 1) by {
                    lemma_mul_zero(i);
                    lemma_mul_zero(i + 1);
                }
                lemma_mul_zero(index as int);
            }
            return out;
        }
        proof {
            lemma_slot_bounds(index as int, self.spec_len(), self.spec_elem_size());
            lemma_mul_monotone(
                self.spec_len(),
                self.spec_capacity(),
                self.spec_elem_size(),
            );
        }
        let base = index * self.elem_size;
        let end = self.len * self.elem_size;
        proof {
            lemma_mul_monotone(1, self.spec_len(), self.spec_elem_size());
            assert(1 * self.spec_elem_size() == self.spec_elem_size())
                by (nonlinear_arith);
        }
        let mut p: usize = base;
        while p < end - self.elem_size
            invariant
                pre.wf(),
                pre.spec_elem_size() > 0,
                index < pre.spec_len(),
                base == index as int * pre.spec_elem_size(),
                end == pre.spec_len() * pre.spec_elem_size(),
                end <= pre.bytes().len(),
                base <= p,
                p <= end,
                pre.spec_elem_size() <= end,
                self.elem_size == pre.elem_size,
                self.align == pre.align,
                self.len == pre.len,
                self.capacity == pre.capacity,
                self.data@.len() == pre.bytes().len(),
                forall|q: int| 0 <= q < self.data@.len() && !(base <= q < p)
                    ==> #[trigger] self.data@[q] == pre.bytes()[q],
                forall|q: int| base <= q < p as int
                    ==> #[trigger] self.data@[q] == pre.bytes()[q + pre.spec_elem_size()],
            decreases end - p,
        {
            self.data[p] = self.data[p + self.elem_size];
            p = p + 1;
        }
        self.len = self.len - 1;
        proof {
            let size = pre.spec_elem_size();
            let n = pre.spec_len();
            assert forall|i: int| 0 <= i < index as int
                implies #[trigger] self.slot(i) =~= pre.slot(i) by {
                lemma_slot_bounds(i, n, size);
                lemma_slot_disjoint(i, index as int, size);
            }
            assert forall|i: int| index as int <= i < n - 1
                implies #[trigger] self.slot(i) =~= pre.slot(i + 1) by {
                lemma_slot_bounds(i, n, size);
                lemma_slot_bounds(i + 1, n, size);
                lemma_mul_monotone(index as int, i, size);
                assert forall|q: int| 0 <= q < size
                    implies self.slot(i)[q] == pre.slot(i + 1)[q] by {
                    assert((i + 1) * size == i * size + size) by (nonlinear_arith);
                    assert(n * size == (n - 1) * size + size) by (nonlinear_arith);
                    lemma_mul_monotone(i + 1, n - 1, size);
                    assert(base <= i * size + q);
                    assert(i * size + q < (n - 1) * size);
                    assert(self.data@[i * size + q]
                        == pre.bytes()[i * size + q + size]);
                }
            }
        }
        out
    }

    /// Marks slot `index` vacant by scrubbing its bytes. Running an actual
    /// element destructor is the business of the typed layer that put the
    /// value in.
    pub fn drop_at(&mut self, index: usize)
        requires
            old(self).wf(),
            index < old(self).spec_len(),
        ensures
            final(self).wf(),
            final(self).spec_elem_size() == old(self).spec_elem_size(),
            final(self).spec_align() == old(self).spec_align(),
            final(self).spec_len() == old(self).spec_len(),
            final(self).spec_capacity() == old(self).spec_capacity(),
            final(self).slot(index as int)
                =~= Seq::new(old(self).spec_elem_size() as nat, |q: int| 0u8),
            forall|i: int| 0 <= i < old(self).spec_len() && i != index as int
                ==> #[trigger] final(self).slot(i) =~= old(self).slot(i),
    {
        let mut zeroes: Vec<u8> = Vec::new();
        let mut j: usize = 0;
        while j < self.elem_size
            invariant
                j <= self.elem_size,
                zeroes@.len() == j as int,
                forall|q: int| 0 <= q < j as int ==> #[trigger] zeroes@[q] == 0u8,
            decreases self.elem_size - j,
        {
            zeroes.push(0);
            j = j + 1;
        }
        self.insert_at(index, &zeroes);
    }

    /// Copies the bytes of one element from `source` into slot
    /// `dest_index`; the source element is semantically transferred, so the
    /// caller must not have the source's destructor run on it afterwards.
    pub fn copy_from(&mut self, dest_index: usize, source: &ErasedVec, source_index: usize)
        requires
            old(self).wf(),
            source.wf(),
            dest_index < old(self).spec_len(),
            source_index < source.spec_len(),
            old(self).spec_elem_size() == source.spec_elem_size(),
            old(self).spec_align() == source.spec_align(),
        ensures
            final(self).wf(),
            final(self).spec_elem_size() == old(self).spec_elem_size(),
            final(self).spec_align() == old(self).spec_align(),
            final(self).spec_len() == old(self).spec_len(),
            final(self).spec_capacity() == old(self).spec_capacity(),
            final(self).slot(dest_index as int) =~= source.slot(source_index as int),
            forall|i: int| 0 <= i < old(self).spec_len() && i != dest_index as int
                ==> #[trigger] final(self).slot(i) =~= old(self).slot(i),
    {
        let value = source.get(source_index);
        proof {
            if source.spec_elem_size() == 0 {
                lemma_mul_zero(source_index as int);
            } else {
                lemma_slot_bounds(
                    source_index as int,
                    source.spec_len(),
                    source.spec_elem_size(),
                );
                lemma_mul_monotone(
                    source.spec_len(),
                    source.spec_capacity(),
                    source.spec_elem_size(),
                );
            }
        }
        self.insert_at(dest_index, &value);
    }

    /// Resets the logical length to zero. Disposal of the elements that
    /// were logically present is the business of the typed layer.
    pub fn clear(&mut self)
        requires
            old(self).wf(),
        ensures
            final(self).wf(),
            final(self).spec_elem_size() == old(self).spec_elem_size(),
            final(self).spec_align() == old(self).spec_align(),
            final(self).spec_len() == 0,
            final(self).spec_capacity() == old(self).spec_capacity(),
    {
        self.len = 0;
    }
}

} // verus!
