use vstd::prelude::*;
use vstd::arithmetic::div_mod::lemma_fundamental_div_mod_converse;

use bitmaps::Bitmap;
use typenum::U32;

use crate::default_zero::DefaultZero;

verus! {

/// The register widths that a search can compare at once.
///
/// Lanes are evaluated by portable code, so every width is available on
/// every machine; each width still fixes how many elements one probe reads
/// and how wide its comparison mask is.
#[derive(Clone, Copy, Debug, PartialEq, Eq, Structural)]
pub enum SimdRegister {
    /// A 16-byte register.
    Narrow,
    /// A 32-byte register.
    Wide,
}

impl SimdRegister {
    pub open spec fn spec_byte_size(self) -> nat {
        match self {
            SimdRegister::Narrow => 16,
            SimdRegister::Wide => 32,
        }
    }

    /// Number of bytes in one register.
    pub fn byte_size(&self) -> (r: usize)
        ensures
            r == self.spec_byte_size(),
    {
        match self {
            SimdRegister::Narrow => 16,
            SimdRegister::Wide => 32,
        }
    }

    /// The mask with one bit set for every byte of the register.
    pub fn full_mask(&self) -> (r: u32)
        ensures
            forall|i: u32| i < 32 ==> #[trigger] bit(r, i) == (i < self.spec_byte_size()),
    {
        match self {
            SimdRegister::Narrow => {
                proof {
                    assert forall|i: u32| i < 32 implies #[trigger] bit(0xffffu32, i) == (i < 16)
                        by {
                        lemma_low_bits_16(i);
                    }
                }
                0xffffu32
            },
            SimdRegister::Wide => {
                proof {
                    assert forall|i: u32| i < 32 implies #[trigger] bit(0xffff_ffffu32, i) by {
                        lemma_all_bits(i);
                    }
                }
                0xffff_ffffu32
            },
        }
    }
}

/// Per-lane operations of an element type stored in registers.
pub trait SimdOps: DefaultZero + Copy + Sized {
    /// The integer that a lane holds.
    spec fn lane_value(&self) -> int;

    /// Width of one element in bytes.
    spec fn spec_byte_size() -> nat;

    proof fn lemma_byte_size()
        ensures
            Self::spec_byte_size() == 1 || Self::spec_byte_size() == 2 || Self::spec_byte_size()
                == 4 || Self::spec_byte_size() == 8,
    ;

    proof fn lemma_lane_value_injective(a: Self, b: Self)
        ensures
            a.lane_value() == b.lane_value() <==> a == b,
    ;

    fn byte_size() -> (r: usize)
        ensures
            r == Self::spec_byte_size(),
    ;

    /// Lane-wise equality.
    fn lane_eq(&self, other: &Self) -> (r: bool)
        ensures
            r == (self.lane_value() == other.lane_value()),
    ;

    /// Lane-wise signed greater-than.
    fn lane_gt(&self, other: &Self) -> (r: bool)
        ensures
            r == (self.lane_value() > other.lane_value()),
    ;
}

impl SimdOps for i8 {
    open spec fn lane_value(&self) -> int {
        *self as int
    }

    open spec fn spec_byte_size() -> nat {
        1
    }

    proof fn lemma_byte_size() {
    }

    proof fn lemma_lane_value_injective(a: i8, b: i8) {
    }

    fn byte_size() -> (r: usize) {
        1
    }

    fn lane_eq(&self, other: &i8) -> (r: bool) {
        *self == *other
    }

    fn lane_gt(&self, other: &i8) -> (r: bool) {
        *self > *other
    }
}

impl SimdOps for i16 {
    open spec fn lane_value(&self) -> int {
        *self as int
    }

    open spec fn spec_byte_size() -> nat {
        2
    }

    proof fn lemma_byte_size() {
    }

    proof fn lemma_lane_value_injective(a: i16, b: i16) {
    }

    fn byte_size() -> (r: usize) {
        2
    }

    fn lane_eq(&self, other: &i16) -> (r: bool) {
        *self == *other
    }

    fn lane_gt(&self, other: &i16) -> (r: bool) {
        *self > *other
    }
}

impl SimdOps for i32 {
    open spec fn lane_value(&self) -> int {
        *self as int
    }

    open spec fn spec_byte_size() -> nat {
        4
    }

    proof fn lemma_byte_size() {
    }

    proof fn lemma_lane_value_injective(a: i32, b: i32) {
    }

    fn byte_size() -> (r: usize) {
        4
    }

    fn lane_eq(&self, other: &i32) -> (r: bool) {
        *self == *other
    }

    fn lane_gt(&self, other: &i32) -> (r: bool) {
        *self > *other
    }
}

impl SimdOps for i64 {
    open spec fn lane_value(&self) -> int {
        *self as int
    }

    open spec fn spec_byte_size() -> nat {
        8
    }

    proof fn lemma_byte_size() {
    }

    proof fn lemma_lane_value_injective(a: i64, b: i64) {
    }

    fn byte_size() -> (r: usize) {
        8
    }

    fn lane_eq(&self, other: &i64) -> (r: bool) {
        *self == *other
    }

    fn lane_gt(&self, other: &i64) -> (r: bool) {
        *self > *other
    }
}

/// A lane as wide as the platform's pointer-sized integer.
impl SimdOps for isize {
    open spec fn lane_value(&self) -> int {
        *self as int
    }

    open spec fn spec_byte_size() -> nat {
        vstd::layout::size_of::<isize>()
    }

    proof fn lemma_byte_size() {
        broadcast use vstd::layout::layout_of_primitives;

        assert(usize::BITS == 32 || usize::BITS == 64);
    }

    proof fn lemma_lane_value_injective(a: isize, b: isize) {
    }

    fn byte_size() -> (r: usize) {
        core::mem::size_of::<isize>()
    }

    fn lane_eq(&self, other: &isize) -> (r: bool) {
        *self == *other
    }

    fn lane_gt(&self, other: &isize) -> (r: bool) {
        *self > *other
    }
}

/// Whether bit `i` of the mask `v` is set.
pub open spec fn bit(v: u32, i: u32) -> bool {
    (v >> i) & 1u32 == 1u32
}

/// `v` has, for each of the first `lanes` lanes of `width` bits, all bits
/// set where `pred` holds of the lane and clear where it does not; every bit
/// above those lanes is clear.
pub open spec fn lanes_mask(v: u32, lanes: int, width: int, pred: spec_fn(int) -> bool) -> bool {
    forall|i: u32|
        i < 32 ==> #[trigger] bit(v, i) == ((i as int) < lanes * width && pred((i as int) / width))
}

pub proof fn lemma_no_bits(i: u32)
    by (bit_vector)
    requires
        i < 32,
    ensures
        !bit(0u32, i),
{
}

proof fn lemma_all_bits(i: u32)
    by (bit_vector)
    requires
        i < 32,
    ensures
        bit(0xffff_ffffu32, i),
{
}

proof fn lemma_low_bits_16(i: u32)
    by (bit_vector)
    requires
        i < 32,
    ensures
        bit(0xffffu32, i) == (i < 16),
{
}

pub proof fn lemma_and_bit(a: u32, b: u32, i: u32)
    by (bit_vector)
    requires
        i < 32,
    ensures
        bit(a & b, i) == (bit(a, i) && bit(b, i)),
{
}

proof fn lemma_lane_or(old: u32, w: u32, s: u32, i: u32)
    by (bit_vector)
    requires
        1 <= w <= 8,
        s + w <= 32,
        i < 32,
    ensures
        bit(old | ((((1u32 << w) - 1u32) as u32) << s), i) == (bit(old, i) || (s <= i && i < s
            + w)),
{
}

proof fn lemma_lane_bits_no_underflow(w: u32)
    by (bit_vector)
    requires
        1 <= w <= 8,
    ensures
        (1u32 << w) >= 1u32,
{
}

/// Two masks that agree on every bit are equal.
pub proof fn lemma_bits_ext(a: u32, b: u32)
    requires
        forall|i: u32| i < 32 ==> #[trigger] bit(a, i) == bit(b, i),
    ensures
        a == b,
{
    assert(bit(a, 0) == bit(b, 0) && bit(a, 1) == bit(b, 1) && bit(a, 2) == bit(b, 2) && bit(a, 3)
        == bit(b, 3) && bit(a, 4) == bit(b, 4) && bit(a, 5) == bit(b, 5) && bit(a, 6) == bit(b, 6)
        && bit(a, 7) == bit(b, 7) && bit(a, 8) == bit(b, 8) && bit(a, 9) == bit(b, 9) && bit(a, 10)
        == bit(b, 10) && bit(a, 11) == bit(b, 11) && bit(a, 12) == bit(b, 12) && bit(a, 13) == bit(
        b,
        13,
    ) && bit(a, 14) == bit(b, 14) && bit(a, 15) == bit(b, 15) && bit(a, 16) == bit(b, 16) && bit(
        a,
        17,
    ) == bit(b, 17) && bit(a, 18) == bit(b, 18) && bit(a, 19) == bit(b, 19) && bit(a, 20) == bit(
        b,
        20,
    ) && bit(a, 21) == bit(b, 21) && bit(a, 22) == bit(b, 22) && bit(a, 23) == bit(b, 23) && bit(
        a,
        24,
    ) == bit(b, 24) && bit(a, 25) == bit(b, 25) && bit(a, 26) == bit(b, 26) && bit(a, 27) == bit(
        b,
        27,
    ) && bit(a, 28) == bit(b, 28) && bit(a, 29) == bit(b, 29) && bit(a, 30) == bit(b, 30) && bit(
        a,
        31,
    ) == bit(b, 31));
    lemma_bits_ext_32(a, b);
}

proof fn lemma_bits_ext_32(a: u32, b: u32)
    by (bit_vector)
    requires
        bit(a, 0) == bit(b, 0) && bit(a, 1) == bit(b, 1) && bit(a, 2) == bit(b, 2) && bit(a, 3)
            == bit(b, 3) && bit(a, 4) == bit(b, 4) && bit(a, 5) == bit(b, 5) && bit(a, 6) == bit(
            b,
            6,
        ) && bit(a, 7) == bit(b, 7) && bit(a, 8) == bit(b, 8) && bit(a, 9) == bit(b, 9) && bit(
            a,
            10,
        ) == bit(b, 10) && bit(a, 11) == bit(b, 11) && bit(a, 12) == bit(b, 12) && bit(a, 13)
            == bit(b, 13) && bit(a, 14) == bit(b, 14) && bit(a, 15) == bit(b, 15) && bit(a, 16)
            == bit(b, 16) && bit(a, 17) == bit(b, 17) && bit(a, 18) == bit(b, 18) && bit(a, 19)
            == bit(b, 19) && bit(a, 20) == bit(b, 20) && bit(a, 21) == bit(b, 21) && bit(a, 22)
            == bit(b, 22) && bit(a, 23) == bit(b, 23) && bit(a, 24) == bit(b, 24) && bit(a, 25)
            == bit(b, 25) && bit(a, 26) == bit(b, 26) && bit(a, 27) == bit(b, 27) && bit(a, 28)
            == bit(b, 28) && bit(a, 29) == bit(b, 29) && bit(a, 30) == bit(b, 30) && bit(a, 31)
            == bit(b, 31),
    ensures
        a == b,
{
}

/// Relies on bitmaps::Bitmap::mask: every bit with an index below `bits` is
/// set and every other bit is clear.
#[verifier::external_body]
pub(crate) fn low_mask(bits: usize) -> (r: u32)
    requires
        bits < 32,
    ensures
        forall|i: u32| i < 32 ==> #[trigger] bit(r, i) == (i < bits),
{
    Bitmap::<U32>::mask(bits).into_value()
}

/// Relies on bitmaps::Bitmap::first_index: the index of the lowest set bit,
/// or `None` when no bit is set.
#[verifier::external_body]
pub(crate) fn first_set(v: u32) -> (r: Option<usize>)
    ensures
        match r {
            None => v == 0,
            Some(i) => i < 32 && bit(v, i as u32) && forall|j: u32| j < i ==> !#[trigger] bit(v, j),
        },
{
    Bitmap::<U32>::from_value(v).first_index()
}

/// Compares `lanes` elements starting at `pos` with `key`, one lane per
/// element and `A::byte_size()` mask bits per lane, and builds the mask of
/// the lanes that satisfy `greater ? element > key : element == key`.
fn compare_lanes<A: SimdOps>(data: &Vec<A>, pos: usize, lanes: usize, key: A, greater: bool) -> (r:
    u32)
    requires
        pos + lanes <= data@.len(),
        lanes * A::spec_byte_size() <= 32,
    ensures
        lanes_mask(
            r,
            lanes as int,
            A::spec_byte_size() as int,
            |l: int|
                if greater {
                    data@[pos + l].lane_value() > key.lane_value()
                } else {
                    data@[pos + l].lane_value() == key.lane_value()
                },
        ),
{
    let ghost pred = |l: int|
        if greater {
            data@[pos + l].lane_value() > key.lane_value()
        } else {
            data@[pos + l].lane_value() == key.lane_value()
        };
    let w = A::byte_size();
    proof {
        A::lemma_byte_size();
        lemma_lane_bits_no_underflow(w as u32);
    }
    let lane_bits: u32 = (1u32 << (w as u32)) - 1;
    let n = data.len();
    let mut m: u32 = 0;
    let mut l: usize = 0;
    proof {
        assert forall|i: u32| i < 32 implies #[trigger] bit(m, i) == ((i as int) < (l as int) * (
        w as int) && pred((i as int) / (w as int))) by {
            lemma_no_bits(i);
        }
    }
    while l < lanes
        invariant
            l <= lanes,
            n == data@.len(),
            pos + lanes <= data@.len(),
            lanes * w <= 32,
            w == A::spec_byte_size(),
            1 <= w <= 8,
            lane_bits == ((1u32 << (w as u32)) - 1u32),
            lanes_mask(m, l as int, w as int, pred),
            pred == (|l: int|
                if greater {
                    data@[pos + l].lane_value() > key.lane_value()
                } else {
                    data@[pos + l].lane_value() == key.lane_value()
                }),
        decreases lanes - l,
    {
        let hit = if greater {
            data[pos + l].lane_gt(&key)
        } else {
            data[pos + l].lane_eq(&key)
        };
        assert(hit == pred(l as int));
        proof {
            assert((l + 1) * w <= lanes * w) by (nonlinear_arith)
                requires
                    l + 1 <= lanes,
            ;
            assert((l + 1) * w == l * w + w) by (nonlinear_arith);
        }
        let shift: u32 = (l * w) as u32;
        let old_m = m;
        if hit {
            m = m | (lane_bits << shift);
        }
        proof {
            assert forall|i: u32| i < 32 implies #[trigger] bit(m, i) == ((i as int) < (l as int
                + 1) * (w as int) && pred((i as int) / (w as int))) by {
                if hit {
                    lemma_lane_or(old_m, w as u32, shift, i);
                }
                if shift <= i && i < shift + w {
                    lemma_fundamental_div_mod_converse(
                        i as int,
                        w as int,
                        l as int,
                        i - shift,
                    );
                }
                assert(bit(old_m, i) == ((i as int) < (l as int) * (w as int) && pred(
                    (i as int) / (w as int),
                )));
            }
        }
        l = l + 1;
    }
    m
}

/// Mask of the lanes in `[pos, pos + lanes)` that equal `key`.
pub fn cmp_eq<A: SimdOps>(data: &Vec<A>, pos: usize, lanes: usize, key: A) -> (r: u32)
    requires
        pos + lanes <= data@.len(),
        lanes * A::spec_byte_size() <= 32,
    ensures
        lanes_mask(
            r,
            lanes as int,
            A::spec_byte_size() as int,
            |l: int| data@[pos + l].lane_value() == key.lane_value(),
        ),
{
    let r = compare_lanes(data, pos, lanes, key, false);
    proof {
        assert forall|i: u32| i < 32 implies #[trigger] bit(r, i) == ((i as int) < lanes
            * A::spec_byte_size() && data@[pos + (i as int) / (A::spec_byte_size() as int)].lane_value()
            == key.lane_value()) by {
        }
    }
    r
}

/// Mask of the lanes in `[pos, pos + lanes)` that are greater than `key`.
pub fn cmp_gt<A: SimdOps>(data: &Vec<A>, pos: usize, lanes: usize, key: A) -> (r: u32)
    requires
        pos + lanes <= data@.len(),
        lanes * A::spec_byte_size() <= 32,
    ensures
        lanes_mask(
            r,
            lanes as int,
            A::spec_byte_size() as int,
            |l: int| data@[pos + l].lane_value() > key.lane_value(),
        ),
{
    let r = compare_lanes(data, pos, lanes, key, true);
    proof {
        assert forall|i: u32| i < 32 implies #[trigger] bit(r, i) == ((i as int) < lanes
            * A::spec_byte_size() && data@[pos + (i as int) / (A::spec_byte_size() as int)].lane_value()
            > key.lane_value()) by {
        }
    }
    r
}

} // verus!
