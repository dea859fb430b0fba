use vstd::prelude::*;

use crate::array_ops::{
    SimdArrayOps,
    binary_search,
    is_search_result,
    k_ary_search,
    lanes_cmp,
    lex_cmp,
    lanes_equal,
    lemma_blocks_hold_registers,
    sorted,
    spec_alignment,
    spec_block_size,
};
use crate::default_zero::DefaultZero;
use crate::simd_ops::{SimdOps, SimdRegister};

verus! {

/// A fixed-capacity vector whose storage is `N` register-sized blocks,
/// allocated once when it is made.
///
/// It holds at most `N * (32 / size_of::<A>())` elements; `max_size`
/// gives that number.
///
/// Equal elements always come with equal storage (see
/// `lemma_same_storage_iff_same_elements`), so the derived hash, taken
/// over the storage, agrees with element-wise equality.
#[derive(Hash)]
pub struct SimdArray<A, const N: usize> {
    size: usize,
    data: Vec<A>,
}

impl<A: SimdOps, const N: usize> View for SimdArray<A, N> {
    type V = Seq<A>;

    /// The logical elements: the first `size` lanes of the storage.
    closed spec fn view(&self) -> Seq<A> {
        self.data@.subrange(0, self.size as int)
    }
}

/// The number of elements that `blocks` blocks of `A` hold.
pub open spec fn spec_capacity<A: SimdOps>(blocks: nat) -> nat {
    blocks * spec_block_size::<A>()
}

impl<A: SimdOps, const N: usize> SimdArray<A, N> {
    /// The storage is exactly `N` blocks and every lane past the elements
    /// holds zero.
    pub closed spec fn wf(&self) -> bool {
        &&& self.data@.len() == spec_capacity::<A>(N as nat)
        &&& self.size <= self.data@.len()
        &&& forall|i: int| self.size <= i < self.data@.len() ==> self.data@[i] == A::spec_zero()
    }

    /// The stored elements, read without relying on well-formedness.
    pub closed spec fn stored_elements(&self) -> Seq<A> {
        if self.size <= self.data@.len() {
            self.data@.subrange(0, self.size as int)
        } else {
            self.data@
        }
    }

    pub proof fn lemma_stored_elements(&self)
        requires
            self.wf(),
        ensures
            self.stored_elements() == self@,
    {
    }

    /// Same number of elements and the same lanes in storage.
    pub closed spec fn same_storage(&self, other: &Self) -> bool {
        self.size == other.size && self.data@ == other.data@
    }

    /// For well-formed arrays, equal storage is the same as equal
    /// elements: the padding is all zero.
    pub proof fn lemma_same_storage_iff_same_elements(&self, other: &Self)
        requires
            self.wf(),
            other.wf(),
        ensures
            self.same_storage(other) <==> self@ == other@,
    {
        if self@ == other@ {
            assert(self@.len() == other@.len());
            assert forall|i: int| 0 <= i < self.data@.len() implies self.data@[i]
                == other.data@[i] by {
                if i < self.size {
                    assert(self@[i] == other@[i]);
                }
            }
            assert(self.data@ =~= other.data@);
        }
        if self.same_storage(other) {
            assert(self@ =~= other@);
        }
    }

    /// Construct an empty array: `N` zero-filled blocks.
    pub fn new() -> (r: Self)
        requires
            N * 32 <= usize::MAX,
        ensures
            r.wf(),
            r@ == Seq::<A>::empty(),
    {
        let cap = Self::max_size();
        let mut data: Vec<A> = Vec::with_capacity(cap);
        let mut k: usize = 0;
        while k < cap
            invariant
                k <= cap,
                data@.len() == k,
                forall|i: int| 0 <= i < k ==> data@[i] == A::spec_zero(),
            decreases cap - k,
        {
            data.push(A::default_zero());
            k = k + 1;
        }
        let r = SimdArray { size: 0, data };
        proof {
            assert(r@ =~= Seq::<A>::empty());
        }
        r
    }

    /// Get the maximum capacity of the array.
    pub fn max_size() -> (r: usize)
        requires
            N * 32 <= usize::MAX,
        ensures
            r == spec_capacity::<A>(N as nat),
    {
        proof {
            A::lemma_byte_size();
            assert(N * spec_block_size::<A>() <= N * 32) by (nonlinear_arith)
                requires
                    spec_block_size::<A>() <= 32,
            ;
        }
        N * (32 / A::byte_size())
    }

    fn at_capacity(&self) -> (r: bool)
        requires
            self.wf(),
        ensures
            r == (self@.len() == spec_capacity::<A>(N as nat)),
            self.data@.len() <= usize::MAX,
    {
        self.size == self.data.len()
    }

    /// Push a value to the end of the array.
    ///
    /// Returns `false`, and leaves the array as it was, if the array was
    /// at capacity.
    pub fn push(&mut self, value: A) -> (r: bool)
        requires
            old(self).wf(),
        ensures
            final(self).wf(),
            r == (old(self)@.len() < spec_capacity::<A>(N as nat)),
            r ==> final(self)@ == old(self)@.push(value),
            !r ==> final(self)@ == old(self)@,
    {
        if self.at_capacity() {
            false
        } else {
            let index = self.size;
            self.data.set(index, value);
            self.size = self.size + 1;
            proof {
                assert(self@ =~= old(self)@.push(value));
            }
            true
        }
    }

    /// Pop a value off the end of the array.
    ///
    /// Returns `None` if the array was empty.
    pub fn pop(&mut self) -> (r: Option<A>)
        requires
            old(self).wf(),
        ensures
            final(self).wf(),
            old(self)@.len() == 0 ==> r == None::<A> && final(self)@ == old(self)@,
            old(self)@.len() > 0 ==> r == Some(old(self)@.last()) && final(self)@ == old(
                self,
            )@.drop_last(),
    {
        if self.size == 0 {
            None
        } else {
            let result = self.data[self.size - 1];
            self.size = self.size - 1;
            let index = self.size;
            self.data.set(index, A::default_zero());
            proof {
                assert(self@ =~= old(self)@.drop_last());
            }
            Some(result)
        }
    }

    /// Push every element of `items`, in order.
    ///
    /// The elements must fit: going past the capacity is a caller error.
    pub fn extend(&mut self, items: &[A])
        requires
            old(self).wf(),
            old(self)@.len() + items@.len() <= spec_capacity::<A>(N as nat),
        ensures
            final(self).wf(),
            final(self)@ == old(self)@ + items@,
    {
        let mut k: usize = 0;
        while k < items.len()
            invariant
                self.wf(),
                k <= items@.len(),
                old(self)@.len() + items@.len() <= spec_capacity::<A>(N as nat),
                self@ == old(self)@ + items@.subrange(0, k as int),
            decreases items@.len() - k,
        {
            let pushed = self.push(items[k]);
            proof {
                assert(pushed);
                assert(items@.subrange(0, k + 1) =~= items@.subrange(0, k as int).push(
                    items@[k as int],
                ));
            }
            k = k + 1;
        }
        proof {
            assert(items@.subrange(0, items@.len() as int) =~= items@);
        }
    }

    /// Construct an array holding the elements of `slice`, in order.
    ///
    /// The slice must fit: a longer one is a caller error, never truncated.
    pub fn from_slice(slice: &[A]) -> (r: Self)
        requires
            N * 32 <= usize::MAX,
            slice@.len() <= spec_capacity::<A>(N as nat),
        ensures
            r.wf(),
            r@ == slice@,
    {
        let mut out = Self::new();
        out.extend(slice);
        proof {
            assert(slice@ =~= Seq::<A>::empty() + slice@);
        }
        out
    }

    /// Read the element at `index`.
    pub fn get(&self, index: usize) -> (r: A)
        requires
            self.wf(),
            index < self@.len(),
        ensures
            r == self@[index as int],
    {
        self.data[index]
    }

    /// Overwrite the element at `index`.
    pub fn set(&mut self, index: usize, value: A)
        requires
            old(self).wf(),
            index < old(self)@.len(),
        ensures
            final(self).wf(),
            final(self)@ == old(self)@.update(index as int, value),
    {
        self.data.set(index, value);
        proof {
            assert(self@ =~= old(self)@.update(index as int, value));
        }
    }
}

/// Two arrays are equal when they hold the same elements; see
/// `lemma_same_storage_iff_same_elements`.
impl<A: SimdOps, const N: usize> PartialEq for SimdArray<A, N> {
    fn eq(&self, other: &Self) -> (r: bool) {
        self.size == other.size && lanes_equal(&self.data, &other.data)
    }
}

impl<A: SimdOps, const N: usize> vstd::std_specs::cmp::PartialEqSpecImpl for SimdArray<A, N> {
    open spec fn obeys_eq_spec() -> bool {
        true
    }

    open spec fn eq_spec(&self, other: &Self) -> bool {
        self.same_storage(other)
    }
}

impl<A: SimdOps, const N: usize> Eq for SimdArray<A, N> {

}

/// Ordered lexicographically by the elements (see `lemma_stored_elements`).
impl<A: SimdOps, const N: usize> PartialOrd for SimdArray<A, N> {
    fn partial_cmp(&self, other: &Self) -> (r: Option<core::cmp::Ordering>) {
        let a = if self.size <= self.data.len() {
            self.size
        } else {
            self.data.len()
        };
        let b = if other.size <= other.data.len() {
            other.size
        } else {
            other.data.len()
        };
        let left = vstd::slice::slice_subrange(self.data.as_slice(), 0, a);
        let right = vstd::slice::slice_subrange(other.data.as_slice(), 0, b);
        proof {
            assert(left@ =~= self.stored_elements());
            assert(right@ =~= other.stored_elements());
        }
        Some(lanes_cmp(left, right))
    }
}

impl<A: SimdOps, const N: usize> vstd::std_specs::cmp::PartialOrdSpecImpl for SimdArray<A, N> {
    open spec fn obeys_partial_cmp_spec() -> bool {
        true
    }

    open spec fn partial_cmp_spec(&self, other: &Self) -> Option<core::cmp::Ordering> {
        Some(lex_cmp(self.stored_elements(), other.stored_elements()))
    }
}

impl<A: SimdOps, const N: usize> SimdArrayOps<A> for SimdArray<A, N> {
    open spec fn elements(&self) -> Seq<A> {
        self@
    }

    open spec fn well_formed(&self) -> bool {
        self.wf()
    }

    fn len(&self) -> (r: usize) {
        self.size
    }

    fn is_empty(&self) -> (r: bool) {
        self.size == 0
    }

    fn as_slice(&self) -> (r: &[A]) {
        vstd::slice::slice_subrange(self.data.as_slice(), 0, self.size)
    }

    fn k_ary_search(&self, key: A, reg: SimdRegister) -> (r: Result<usize, usize>) {
        proof {
            lemma_blocks_hold_registers::<A>(N as nat, reg);
        }
        k_ary_search(&self.data, self.size, key, reg)
    }

    fn search_on(&self, key: A, reg: Option<SimdRegister>) -> (r: Result<usize, usize>) {
        match reg {
            Some(reg) => self.k_ary_search(key, reg),
            None => binary_search(&self.data, self.size, key),
        }
    }
}

} // verus!
