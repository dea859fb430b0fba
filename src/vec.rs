use vstd::prelude::*;
use vstd::arithmetic::div_mod::{lemma_fundamental_div_mod, lemma_fundamental_div_mod_converse};

use crate::array_ops::{
    SimdArrayOps,
    binary_search,
    is_search_result,
    k_ary_search,
    lanes_cmp,
    lex_cmp,
    lanes_equal,
    lemma_next_multiple,
    lemma_blocks_hold_registers,
    sorted,
    spec_alignment,
    spec_block_size,
};
use crate::default_zero::DefaultZero;
use crate::simd_ops::{SimdOps, SimdRegister};

verus! {

/// A heap-allocated vector whose storage is a whole number of
/// register-sized blocks.
///
/// Equal elements always come with equal storage (see
/// `lemma_same_storage_iff_same_elements`), so the derived hash, taken
/// over the storage, agrees with element-wise equality.
#[derive(Hash)]
pub struct SimdVec<A> {
    size: usize,
    vec: Vec<A>,
}

impl<A: SimdOps> View for SimdVec<A> {
    type V = Seq<A>;

    /// The logical elements: the first `size` lanes of the storage.
    closed spec fn view(&self) -> Seq<A> {
        self.vec@.subrange(0, self.size as int)
    }
}

proof fn lemma_next_block(len: int, bs: int)
    requires
        bs > 0,
        len >= 0,
        len % bs == 0,
    ensures
        (len + bs) % bs == 0,
{
    lemma_fundamental_div_mod(len, bs);
    assert(len + bs == (len / bs + 1) * bs) by (nonlinear_arith)
        requires
            len == bs * (len / bs) + 0,
    ;
    lemma_fundamental_div_mod_converse(len + bs, bs, len / bs + 1, 0);
}

impl<A: SimdOps> SimdVec<A> {
    /// The storage is made of whole blocks, no more than the elements need,
    /// and every lane past the elements holds zero.
    pub closed spec fn wf(&self) -> bool {
        &&& self.size <= self.vec@.len()
        &&& self.vec@.len() % spec_block_size::<A>() == 0
        &&& self.vec@.len() < self.size + spec_block_size::<A>()
        &&& forall|i: int| self.size <= i < self.vec@.len() ==> self.vec@[i] == A::spec_zero()
    }

    /// The stored elements, read without relying on well-formedness.
    pub closed spec fn stored_elements(&self) -> Seq<A> {
        if self.size <= self.vec@.len() {
            self.vec@.subrange(0, self.size as int)
        } else {
            self.vec@
        }
    }

    pub proof fn lemma_stored_elements(&self)
        requires
            self.wf(),
        ensures
            self.stored_elements() == self@,
    {
    }

    /// Same number of elements and the same lanes in storage.
    pub closed spec fn same_storage(&self, other: &Self) -> bool {
        self.size == other.size && self.vec@ == other.vec@
    }

    /// For well-formed vectors, equal storage is the same as equal
    /// elements: the padding and the block count follow from the elements.
    pub proof fn lemma_same_storage_iff_same_elements(&self, other: &Self)
        requires
            self.wf(),
            other.wf(),
        ensures
            self.same_storage(other) <==> self@ == other@,
    {
        A::lemma_byte_size();
        if self@ == other@ {
            assert(self@.len() == other@.len());
            let a = self.vec@.len() as int;
            let b = other.vec@.len() as int;
            let bs = spec_block_size::<A>() as int;
            if a > b {
                lemma_next_multiple(a, b, bs);
            } else if b > a {
                lemma_next_multiple(b, a, bs);
            }
            assert forall|i: int| 0 <= i < a implies self.vec@[i] == other.vec@[i] by {
                if i < self.size {
                    assert(self@[i] == other@[i]);
                }
            }
            assert(self.vec@ =~= other.vec@);
        }
        if self.same_storage(other) {
            assert(self@ =~= other@);
        }
    }

    /// Number of storage blocks.
    pub closed spec fn spec_blocks(&self) -> nat {
        self.vec@.len() / spec_block_size::<A>()
    }

    proof fn lemma_wf_blocks(&self, reg: SimdRegister)
        requires
            self.wf(),
        ensures
            self.vec@.len() % spec_alignment::<A>(reg) == 0,
            spec_alignment::<A>(reg) > 0,
            spec_alignment::<A>(reg) * A::spec_byte_size() == reg.spec_byte_size(),
            self.spec_blocks() * spec_block_size::<A>() == self.vec@.len(),
            spec_block_size::<A>() > 0,
    {
        lemma_blocks_hold_registers::<A>(self.spec_blocks(), reg);
        lemma_fundamental_div_mod(self.vec@.len() as int, spec_block_size::<A>() as int);
        assert(self.spec_blocks() * spec_block_size::<A>() == self.vec@.len()) by (nonlinear_arith)
            requires
                self.vec@.len() == spec_block_size::<A>() * self.spec_blocks() + 0,
        ;
    }

    /// Construct an empty vector.
    pub fn new() -> (r: Self)
        ensures
            r.wf(),
            r@ == Seq::<A>::empty(),
            r.spec_blocks() == 0,
    {
        let r = SimdVec { size: 0, vec: Vec::new() };
        proof {
            A::lemma_byte_size();
            assert(r@ =~= Seq::<A>::empty());
        }
        r
    }

    /// Construct an empty vector with room for `capacity` elements,
    /// rounded up to whole blocks.
    pub fn with_capacity(capacity: usize) -> (r: Self)
        ensures
            r.wf(),
            r@ == Seq::<A>::empty(),
            r.spec_blocks() == 0,
    {
        let bs = Self::block_size();
        let lanes = if capacity % bs == 0 || capacity > usize::MAX - bs {
            capacity
        } else {
            (capacity / bs + 1) * bs
        };
        let r = SimdVec { size: 0, vec: Vec::with_capacity(lanes) };
        proof {
            assert(r@ =~= Seq::<A>::empty());
        }
        r
    }

    /// Number of elements the current blocks can hold.
    fn max_size(&self) -> (r: usize)
        ensures
            r == self.vec@.len(),
    {
        self.vec.len()
    }

    /// Number of elements in one block.
    fn block_size() -> (r: usize)
        ensures
            r == spec_block_size::<A>(),
            r == 4 || r == 8 || r == 16 || r == 32,
    {
        proof {
            A::lemma_byte_size();
        }
        32 / A::byte_size()
    }

    fn at_capacity(&self) -> (r: bool)
        ensures
            r == (self.size == self.vec@.len()),
    {
        self.size == self.max_size()
    }

    /// Append one zero-filled block.
    fn add_block(&mut self)
        requires
            old(self).vec@.len() + spec_block_size::<A>() <= usize::MAX,
        ensures
            final(self).size == old(self).size,
            final(self).vec@.len() == old(self).vec@.len() + spec_block_size::<A>(),
            final(self).vec@.subrange(0, old(self).vec@.len() as int) == old(self).vec@,
            forall|i: int|
                old(self).vec@.len() <= i < final(self).vec@.len() ==> final(self).vec@[i]
                    == A::spec_zero(),
    {
        let bs = Self::block_size();
        let mut k: usize = 0;
        while k < bs
            invariant
                bs == spec_block_size::<A>(),
                k <= bs,
                self.size == old(self).size,
                self.vec@.len() == old(self).vec@.len() + k,
                self.vec@.subrange(0, old(self).vec@.len() as int) == old(self).vec@,
                forall|i: int|
                    old(self).vec@.len() <= i < self.vec@.len() ==> self.vec@[i] == A::spec_zero(),
            decreases bs - k,
        {
            self.vec.push(A::default_zero());
            assert(self.vec@.subrange(0, old(self).vec@.len() as int) =~= old(self).vec@);
            k = k + 1;
        }
    }

    /// Drop the blocks that no element needs.
    fn trim_excess(&mut self)
        requires
            old(self).size <= old(self).vec@.len(),
            old(self).vec@.len() % spec_block_size::<A>() == 0,
            forall|i: int|
                old(self).size <= i < old(self).vec@.len() ==> old(self).vec@[i] == A::spec_zero(),
        ensures
            final(self).wf(),
            final(self)@ == old(self)@,
    {
        let bs = Self::block_size();
        while bs <= self.max_size() - self.size
            invariant
                bs == spec_block_size::<A>(),
                bs > 0,
                self.size == old(self).size,
                self.size <= self.vec@.len(),
                self.vec@.len() % spec_block_size::<A>() == 0,
                self.vec@.subrange(0, self.size as int) == old(self)@,
                forall|i: int| self.size <= i < self.vec@.len() ==> self.vec@[i] == A::spec_zero(),
            decreases self.vec@.len(),
        {
            let ghost before = self.vec@;
            let keep = self.vec.len() - bs;
            self.vec.truncate(keep);
            proof {
                assert((keep as int) % (bs as int) == 0) by {
                    lemma_fundamental_div_mod(before.len() as int, bs as int);
                    let q = (before.len() as int) / (bs as int);
                    assert(keep == (q - 1) * bs) by (nonlinear_arith)
                        requires
                            before.len() == bs * q + 0,
                            keep == before.len() - bs,
                    ;
                    lemma_fundamental_div_mod_converse(keep as int, bs as int, q - 1, 0);
                }
                assert(self.vec@.subrange(0, self.size as int) =~= before.subrange(0, self.size as int));
            }
        }
    }

    /// Push a value to the end of the vector, adding a block when the
    /// current ones are full.
    pub fn push(&mut self, value: A)
        requires
            old(self).wf(),
            old(self)@.len() + 32 <= usize::MAX,
        ensures
            final(self).wf(),
            final(self)@ == old(self)@.push(value),
    {
        proof {
            A::lemma_byte_size();
        }
        if self.at_capacity() {
            let ghost before = self.vec@.len();
            self.add_block();
            proof {
                lemma_next_block(before as int, spec_block_size::<A>() as int);
            }
        }
        let index = self.size;
        self.vec.set(index, value);
        self.size = self.size + 1;
        proof {
            assert(self@ =~= old(self)@.push(value));
        }
    }

    /// Pop a value off the end of the vector.
    ///
    /// Returns `None` if the vector was empty.
    pub fn pop(&mut self) -> (r: Option<A>)
        requires
            old(self).wf(),
        ensures
            final(self).wf(),
            old(self)@.len() == 0 ==> r == None::<A> && final(self)@ == old(self)@,
            old(self)@.len() > 0 ==> r == Some(old(self)@.last()) && final(self)@ == old(
                self,
            )@.drop_last(),
    {
        if self.size == 0 {
            return None;
        }
        let result = self.vec[self.size - 1];
        self.size = self.size - 1;
        let index = self.size;
        self.vec.set(index, A::default_zero());
        proof {
            assert(self@ =~= old(self)@.drop_last());
        }
        self.trim_excess();
        Some(result)
    }

    /// Construct a vector holding the elements of `slice`, in order.
    pub fn from_slice(slice: &[A]) -> (r: Self)
        requires
            slice@.len() + 32 <= usize::MAX,
        ensures
            r.wf(),
            r@ == slice@,
    {
        let mut out = Self::with_capacity(slice.len());
        out.extend(slice);
        proof {
            assert(slice@ =~= Seq::<A>::empty() + slice@);
        }
        out
    }

    /// Push every element of `items`, in order.
    pub fn extend(&mut self, items: &[A])
        requires
            old(self).wf(),
            old(self)@.len() + items@.len() + 32 <= usize::MAX,
        ensures
            final(self).wf(),
            final(self)@ == old(self)@ + items@,
    {
        let mut k: usize = 0;
        while k < items.len()
            invariant
                self.wf(),
                k <= items@.len(),
                old(self)@.len() + items@.len() + 32 <= usize::MAX,
                self@ == old(self)@ + items@.subrange(0, k as int),
            decreases items@.len() - k,
        {
            self.push(items[k]);
            proof {
                assert(items@.subrange(0, k + 1) =~= items@.subrange(0, k as int).push(items@[k as int]));
            }
            k = k + 1;
        }
        proof {
            assert(items@.subrange(0, items@.len() as int) =~= items@);
        }
    }

    /// Read the element at `index`.
    pub fn get(&self, index: usize) -> (r: A)
        requires
            self.wf(),
            index < self@.len(),
        ensures
            r == self@[index as int],
    {
        self.vec[index]
    }

    /// Overwrite the element at `index`.
    pub fn set(&mut self, index: usize, value: A)
        requires
            old(self).wf(),
            index < old(self)@.len(),
        ensures
            final(self).wf(),
            final(self)@ == old(self)@.update(index as int, value),
    {
        self.vec.set(index, value);
        proof {
            assert(self@ =~= old(self)@.update(index as int, value));
        }
    }
}

impl<A: SimdOps> Default for SimdVec<A> {
    fn default() -> (r: Self)
        ensures
            r.wf(),
            r@ == Seq::<A>::empty(),
    {
        Self::new()
    }
}

/// Two vectors are equal when they hold the same elements; see
/// `lemma_same_storage_iff_same_elements`.
impl<A: SimdOps> PartialEq for SimdVec<A> {
    fn eq(&self, other: &Self) -> (r: bool) {
        self.size == other.size && lanes_equal(&self.vec, &other.vec)
    }
}

impl<A: SimdOps> vstd::std_specs::cmp::PartialEqSpecImpl for SimdVec<A> {
    open spec fn obeys_eq_spec() -> bool {
        true
    }

    open spec fn eq_spec(&self, other: &Self) -> bool {
        self.same_storage(other)
    }
}

impl<A: SimdOps> Eq for SimdVec<A> {

}

/// Ordered lexicographically by the elements (see `lemma_stored_elements`).
impl<A: SimdOps> PartialOrd for SimdVec<A> {
    fn partial_cmp(&self, other: &Self) -> (r: Option<core::cmp::Ordering>) {
        let a = if self.size <= self.vec.len() {
            self.size
        } else {
            self.vec.len()
        };
        let b = if other.size <= other.vec.len() {
            other.size
        } else {
            other.vec.len()
        };
        let left = vstd::slice::slice_subrange(self.vec.as_slice(), 0, a);
        let right = vstd::slice::slice_subrange(other.vec.as_slice(), 0, b);
        proof {
            assert(left@ =~= self.stored_elements());
            assert(right@ =~= other.stored_elements());
        }
        Some(lanes_cmp(left, right))
    }
}

impl<A: SimdOps> vstd::std_specs::cmp::PartialOrdSpecImpl for SimdVec<A> {
    open spec fn obeys_partial_cmp_spec() -> bool {
        true
    }

    open spec fn partial_cmp_spec(&self, other: &Self) -> Option<core::cmp::Ordering> {
        Some(lex_cmp(self.stored_elements(), other.stored_elements()))
    }
}

impl<A: SimdOps> SimdArrayOps<A> for SimdVec<A> {
    open spec fn elements(&self) -> Seq<A> {
        self@
    }

    open spec fn well_formed(&self) -> bool {
        self.wf()
    }

    fn len(&self) -> (r: usize) {
        self.size
    }

    fn is_empty(&self) -> (r: bool) {
        self.size == 0
    }

    fn as_slice(&self) -> (r: &[A]) {
        vstd::slice::slice_subrange(self.vec.as_slice(), 0, self.size)
    }

    fn k_ary_search(&self, key: A, reg: SimdRegister) -> (r: Result<usize, usize>) {
        proof {
            self.lemma_wf_blocks(reg);
        }
        k_ary_search(&self.vec, self.size, key, reg)
    }

    fn search_on(&self, key: A, reg: Option<SimdRegister>) -> (r: Result<usize, usize>) {
        match reg {
            Some(reg) => self.k_ary_search(key, reg),
            None => binary_search(&self.vec, self.size, key),
        }
    }
}

} // verus!
