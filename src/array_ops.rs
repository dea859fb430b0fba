use vstd::prelude::*;
use vstd::arithmetic::div_mod::{
    lemma_fundamental_div_mod,
    lemma_fundamental_div_mod_converse,
    lemma_mod_multiples_basic,
};

use crate::simd_ops::{
    SimdOps,
    SimdRegister,
    bit,
    cmp_eq,
    cmp_gt,
    first_set,
    lanes_mask,
    lemma_and_bit,
    lemma_bits_ext,
    lemma_no_bits,
    low_mask,
};

verus! {

/// The lanes hold a non-decreasing sequence.
pub open spec fn sorted<A: SimdOps>(s: Seq<A>) -> bool {
    forall|i: int, j: int| 0 <= i <= j < s.len() ==> s[i].lane_value() <= s[j].lane_value()
}

/// The lanes hold a strictly increasing sequence.
pub open spec fn strictly_sorted<A: SimdOps>(s: Seq<A>) -> bool {
    forall|i: int, j: int| 0 <= i < j < s.len() ==> s[i].lane_value() < s[j].lane_value()
}

/// `r` is a correct answer to searching `key` in the sorted sequence `s`:
/// `Ok(j)` names a position that holds `key`; `Err(p)` is the insertion
/// point, with every element before it below `key` and every element from
/// it on above `key`.
pub open spec fn is_search_result<A: SimdOps>(s: Seq<A>, key: A, r: Result<usize, usize>) -> bool {
    match r {
        Ok(j) => j < s.len() && s[j as int] == key,
        Err(p) => {
            &&& p <= s.len()
            &&& forall|i: int| 0 <= i < p ==> #[trigger] s[i].lane_value() < key.lane_value()
            &&& forall|i: int| p <= i < s.len() ==> #[trigger] s[i].lane_value() > key.lane_value()
        },
    }
}

/// Number of elements that one register holds.
pub open spec fn spec_alignment<A: SimdOps>(reg: SimdRegister) -> nat {
    reg.spec_byte_size() / A::spec_byte_size()
}

/// Number of elements that one storage block holds.
pub open spec fn spec_block_size<A: SimdOps>() -> nat {
    32nat / A::spec_byte_size()
}

/// Storage made of whole blocks can be read one register at a time.
pub proof fn lemma_blocks_hold_registers<A: SimdOps>(blocks: nat, reg: SimdRegister)
    ensures
        spec_alignment::<A>(reg) > 0,
        spec_block_size::<A>() > 0,
        (blocks * spec_block_size::<A>()) % spec_alignment::<A>(reg) == 0,
        spec_alignment::<A>(reg) * A::spec_byte_size() == reg.spec_byte_size(),
{
    A::lemma_byte_size();
    let bs = spec_block_size::<A>() as int;
    let al = spec_alignment::<A>(reg) as int;
    let k: int = if reg == SimdRegister::Wide { 1 } else { 2 };
    assert(bs == k * al);
    assert(blocks * bs == (blocks * k) * al) by (nonlinear_arith)
        requires
            bs == k * al,
    ;
    lemma_mod_multiples_basic(blocks * k, al);
}

pub(crate) proof fn lemma_next_multiple(a: int, b: int, d: int)
    requires
        d > 0,
        a >= 0,
        b >= 0,
        a % d == 0,
        b % d == 0,
        a > b,
    ensures
        a >= b + d,
{
    lemma_fundamental_div_mod(a, d);
    lemma_fundamental_div_mod(b, d);
    let qa = a / d;
    let qb = b / d;
    assert(qa > qb) by (nonlinear_arith)
        requires
            a == d * qa,
            b == d * qb,
            a > b,
            d > 0,
    ;
    assert(a >= b + d) by (nonlinear_arith)
        requires
            a == d * qa,
            b == d * qb,
            qa >= qb + 1,
            d > 0,
    ;
}

proof fn lemma_mod_sub_multiple(a: int, k: int, d: int)
    requires
        d > 0,
        a % d == 0,
        0 <= k * d <= a,
    ensures
        (a - k * d) % d == 0,
{
    lemma_fundamental_div_mod(a, d);
    assert(a - k * d == (a / d - k) * d) by (nonlinear_arith)
        requires
            a == d * (a / d) + 0,
    ;
    lemma_fundamental_div_mod_converse(a - k * d, d, a / d - k, 0);
}

proof fn lemma_lane_of_bit(i: int, w: int, lanes: int)
    requires
        0 <= i < lanes * w,
        w > 0,
    ensures
        0 <= i / w < lanes,
        (i / w) * w <= i,
{
    lemma_fundamental_div_mod(i, w);
    assert(0 <= i / w < lanes && (i / w) * w <= i) by (nonlinear_arith)
        requires
            i == w * (i / w) + i % w,
            0 <= i % w < w,
            0 <= i < lanes * w,
            w > 0,
    ;
}

proof fn lemma_first_bit_of_lane(l: int, w: int, lanes: int)
    requires
        0 <= l < lanes,
        w > 0,
        lanes * w <= 32,
    ensures
        0 <= l * w < lanes * w,
        (l * w) / w == l,
{
    assert(0 <= l * w < lanes * w) by (nonlinear_arith)
        requires
            0 <= l < lanes,
            w > 0,
    ;
    lemma_fundamental_div_mod_converse(l * w, w, l, 0);
}

/// Every lane below `lanes` is reported by the mask `v` exactly when
/// `pred` holds of it.
proof fn lemma_mask_lanes(v: u32, lanes: int, w: int, pred: spec_fn(int) -> bool)
    requires
        lanes_mask(v, lanes, w, pred),
        w > 0,
        lanes * w <= 32,
    ensures
        forall|l: int| 0 <= l < lanes ==> #[trigger] pred(l) == bit(v, (l * w) as u32),
        v == 0 ==> forall|l: int| 0 <= l < lanes ==> !#[trigger] pred(l),
{
    assert forall|l: int| 0 <= l < lanes implies #[trigger] pred(l) == bit(v, (l * w) as u32) by {
        lemma_first_bit_of_lane(l, w, lanes);
    }
    if v == 0 {
        assert forall|l: int| 0 <= l < lanes implies !#[trigger] pred(l) by {
            lemma_first_bit_of_lane(l, w, lanes);
            lemma_no_bits((l * w) as u32);
        }
    }
}

/// Restricting a lane mask to its first `valid` lanes.
proof fn lemma_mask_restrict(
    v: u32,
    m: u32,
    lanes: int,
    valid: int,
    w: int,
    pred: spec_fn(int) -> bool,
)
    requires
        lanes_mask(v, lanes, w, pred),
        forall|i: u32| i < 32 ==> #[trigger] bit(m, i) == (i < valid * w),
        0 <= valid <= lanes,
        w > 0,
    ensures
        lanes_mask(v & m, valid, w, pred),
{
    assert(valid * w <= lanes * w) by (nonlinear_arith)
        requires
            valid <= lanes,
            w > 0,
    ;
    assert forall|i: u32| i < 32 implies #[trigger] bit(v & m, i) == ((i as int) < valid * w && pred(
        (i as int) / w,
    )) by {
        lemma_and_bit(v, m, i);
    }
}

/// The lowest set bit of a lane mask falls on the first lane for which
/// `pred` holds.
proof fn lemma_first_lane(v: u32, i: u32, lanes: int, w: int, pred: spec_fn(int) -> bool)
    requires
        lanes_mask(v, lanes, w, pred),
        w > 0,
        lanes * w <= 32,
        i < 32,
        bit(v, i),
        forall|j: u32| j < i ==> !#[trigger] bit(v, j),
    ensures
        0 <= (i as int) / w < lanes,
        pred((i as int) / w),
        forall|l: int| 0 <= l < (i as int) / w ==> !#[trigger] pred(l),
{
    lemma_lane_of_bit(i as int, w, lanes);
    lemma_mask_lanes(v, lanes, w, pred);
    let lane = (i as int) / w;
    assert forall|l: int| 0 <= l < lane implies !#[trigger] pred(l) by {
        lemma_first_bit_of_lane(l, w, lanes);
        assert(l * w < lane * w) by (nonlinear_arith)
            requires
                l < lane,
                w > 0,
        ;
        assert(bit(v, (l * w) as u32) == pred(l));
    }
}

/// Searching a sorted sequence for one of its own elements finds it: the
/// answer is `Ok(j)` with `s[j] == s[i]`, though `j` may differ from `i`
/// where the element repeats.
pub proof fn lemma_search_finds_present<A: SimdOps>(s: Seq<A>, i: int, r: Result<usize, usize>)
    requires
        sorted(s),
        0 <= i < s.len(),
        is_search_result(s, s[i], r),
    ensures
        r is Ok,
        s[r->Ok_0 as int] == s[i],
{
    match r {
        Err(p) => {
            let key = s[i];
            let pi = p as int;
            assert(forall|k: int| 0 <= k < pi ==> #[trigger] s[k].lane_value() < key.lane_value());
            assert(forall|k: int|
                pi <= k < s.len() ==> #[trigger] s[k].lane_value() > key.lane_value());
            if i < pi {
                assert(s[i].lane_value() < key.lane_value());
            } else {
                assert(s[i].lane_value() > key.lane_value());
            }
        },
        Ok(_) => {},
    }
}

/// Searching a sorted sequence for a key it does not hold gives the
/// insertion point: every element before it is below the key and every
/// element from it on is above the key.
pub proof fn lemma_search_absent_gives_insertion_point<A: SimdOps>(
    s: Seq<A>,
    key: A,
    r: Result<usize, usize>,
)
    requires
        sorted(s),
        !s.contains(key),
        is_search_result(s, key, r),
    ensures
        r is Err,
        r->Err_0 <= s.len(),
        forall|i: int| 0 <= i < r->Err_0 ==> #[trigger] s[i].lane_value() < key.lane_value(),
        forall|i: int| r->Err_0 <= i < s.len() ==> #[trigger] s[i].lane_value() > key.lane_value(),
{
    if r is Ok {
        assert(s[r->Ok_0 as int] == key);
        assert(s.contains(key));
    }
}

/// On a strictly increasing sequence a search has one correct answer, so
/// the scalar search and the k-ary search through either register width
/// give the same `Ok` or `Err` for the same key.
pub proof fn lemma_search_paths_agree<A: SimdOps>(
    s: Seq<A>,
    key: A,
    r1: Result<usize, usize>,
    r2: Result<usize, usize>,
)
    requires
        strictly_sorted(s),
        is_search_result(s, key, r1),
        is_search_result(s, key, r2),
    ensures
        r1 == r2,
{
    match (r1, r2) {
        (Ok(a), Ok(b)) => {
            if a != b {
                if a < b {
                    assert(s[a as int].lane_value() < s[b as int].lane_value());
                } else {
                    assert(s[b as int].lane_value() < s[a as int].lane_value());
                }
            }
        },
        (Ok(a), Err(p)) => {
            if (a as int) < p {
                assert(s[a as int].lane_value() < key.lane_value());
            } else {
                assert(s[a as int].lane_value() > key.lane_value());
            }
        },
        (Err(p), Ok(a)) => {
            if (a as int) < p {
                assert(s[a as int].lane_value() < key.lane_value());
            } else {
                assert(s[a as int].lane_value() > key.lane_value());
            }
        },
        (Err(p), Err(q)) => {
            if p < q {
                assert(s[p as int].lane_value() > key.lane_value());
                assert(s[p as int].lane_value() < key.lane_value());
            } else if q < p {
                assert(s[q as int].lane_value() > key.lane_value());
                assert(s[q as int].lane_value() < key.lane_value());
            }
        },
    }
}

/// Pushing a value and then popping gives that value back and leaves the
/// elements as they were before the push.
pub proof fn lemma_push_then_pop<A>(s: Seq<A>, v: A)
    ensures
        s.push(v).len() == s.len() + 1,
        s.push(v).last() == v,
        s.push(v).drop_last() == s,
{
    assert(s.push(v).drop_last() =~= s);
}

/// A container of elements packed into register-sized blocks.
pub trait SimdArrayOps<A: SimdOps>: Sized {
    /// The logical elements, in order.
    spec fn elements(&self) -> Seq<A>;

    spec fn well_formed(&self) -> bool;

    /// Number of elements.
    fn len(&self) -> (r: usize)
        requires
            self.well_formed(),
        ensures
            r == self.elements().len(),
    ;

    fn is_empty(&self) -> (r: bool)
        requires
            self.well_formed(),
        ensures
            r == (self.elements().len() == 0),
    ;

    /// The logical elements as a slice; the padding lanes are not part of it.
    fn as_slice(&self) -> (r: &[A])
        requires
            self.well_formed(),
        ensures
            r@ == self.elements(),
    ;

    /// k-ary search with registers of the given width.
    fn k_ary_search(&self, key: A, reg: SimdRegister) -> (r: Result<usize, usize>)
        requires
            self.well_formed(),
            sorted(self.elements()),
        ensures
            is_search_result(self.elements(), key, r),
    ;

    /// Search through registers of the given width, or through the scalar
    /// search when none is given.
    fn search_on(&self, key: A, reg: Option<SimdRegister>) -> (r: Result<usize, usize>)
        requires
            self.well_formed(),
            sorted(self.elements()),
        ensures
            is_search_result(self.elements(), key, r),
    ;

    /// Search for `key` through the widest register.
    ///
    /// Returns `Ok` with a position holding `key`, or `Err` with the
    /// position where `key` would be inserted to keep the order.
    fn search(&self, key: A) -> (r: Result<usize, usize>)
        requires
            self.well_formed(),
            sorted(self.elements()),
        ensures
            is_search_result(self.elements(), key, r),
    {
        self.search_on(key, Some(SimdRegister::Wide))
    }
}

/// Whether two lane sequences hold the same values in the same order.
pub(crate) fn lanes_equal<A: SimdOps>(a: &Vec<A>, b: &Vec<A>) -> (r: bool)
    ensures
        r == (a@ == b@),
{
    if a.len() != b.len() {
        return false;
    }
    let mut i: usize = 0;
    while i < a.len()
        invariant
            a@.len() == b@.len(),
            i <= a@.len(),
            forall|k: int| 0 <= k < i ==> a@[k] == b@[k],
        decreases a@.len() - i,
    {
        if !a[i].lane_eq(&b[i]) {
            proof {
                A::lemma_lane_value_injective(a@[i as int], b@[i as int]);
            }
            return false;
        }
        proof {
            A::lemma_lane_value_injective(a@[i as int], b@[i as int]);
        }
        i = i + 1;
    }
    proof {
        assert(a@ =~= b@);
    }
    true
}

/// Lexicographic order of two lane sequences, element by element by lane
/// value; a proper prefix comes first.
pub open spec fn lex_cmp<A: SimdOps>(a: Seq<A>, b: Seq<A>) -> core::cmp::Ordering
    decreases a.len(),
{
    if a.len() == 0 {
        if b.len() == 0 {
            core::cmp::Ordering::Equal
        } else {
            core::cmp::Ordering::Less
        }
    } else if b.len() == 0 {
        core::cmp::Ordering::Greater
    } else if a[0].lane_value() < b[0].lane_value() {
        core::cmp::Ordering::Less
    } else if a[0].lane_value() > b[0].lane_value() {
        core::cmp::Ordering::Greater
    } else {
        lex_cmp(a.drop_first(), b.drop_first())
    }
}

/// Compares two lane sequences lexicographically.
pub(crate) fn lanes_cmp<A: SimdOps>(a: &[A], b: &[A]) -> (r: core::cmp::Ordering)
    ensures
        r == lex_cmp(a@, b@),
{
    let mut i: usize = 0;
    proof {
        assert(a@.skip(0) =~= a@);
        assert(b@.skip(0) =~= b@);
    }
    loop
        invariant
            i <= a@.len(),
            i <= b@.len(),
            lex_cmp(a@, b@) == lex_cmp(a@.skip(i as int), b@.skip(i as int)),
        decreases a@.len() - i,
    {
        if i == a.len() {
            if i == b.len() {
                return core::cmp::Ordering::Equal;
            } else {
                return core::cmp::Ordering::Less;
            }
        }
        if i == b.len() {
            return core::cmp::Ordering::Greater;
        }
        assert(a@.skip(i as int)[0] == a@[i as int]);
        assert(b@.skip(i as int)[0] == b@[i as int]);
        if a[i].lane_gt(&b[i]) {
            return core::cmp::Ordering::Greater;
        }
        if b[i].lane_gt(&a[i]) {
            return core::cmp::Ordering::Less;
        }
        proof {
            assert(a@.skip(i as int).drop_first() =~= a@.skip(i + 1));
            assert(b@.skip(i as int).drop_first() =~= b@.skip(i + 1));
        }
        i = i + 1;
    }
}

/// The scalar search over the first `size` elements of `data`.
pub fn binary_search<A: SimdOps>(data: &Vec<A>, size: usize, key: A) -> (r: Result<usize, usize>)
    requires
        size <= data@.len(),
        sorted(data@.subrange(0, size as int)),
    ensures
        is_search_result(data@.subrange(0, size as int), key, r),
{
    let ghost s = data@.subrange(0, size as int);
    let mut low: usize = 0;
    let mut high: usize = size;
    while low < high
        invariant
            size <= data@.len(),
            s == data@.subrange(0, size as int),
            sorted(s),
            low <= high <= size,
            forall|i: int| 0 <= i < low ==> #[trigger] s[i].lane_value() < key.lane_value(),
            forall|i: int| high <= i < size ==> #[trigger] s[i].lane_value() > key.lane_value(),
        decreases high - low,
    {
        let mid = low + (high - low) / 2;
        let item = data[mid];
        assert(item == s[mid as int]);
        if item.lane_eq(&key) {
            proof {
                A::lemma_lane_value_injective(item, key);
            }
            return Ok(mid);
        } else if item.lane_gt(&key) {
            high = mid;
        } else {
            low = mid + 1;
        }
    }
    Err(low)
}

/// k-ary search of `key` over the first `size` elements of `data`, reading
/// one register of `reg`'s width per probe.
///
/// The probe offset is always a whole number of registers. Lanes at or
/// past `size` are masked out of every comparison.
pub fn k_ary_search<A: SimdOps>(data: &Vec<A>, size: usize, key: A, reg: SimdRegister) -> (r:
    Result<usize, usize>)
    requires
        size <= data@.len(),
        spec_alignment::<A>(reg) > 0,
        spec_alignment::<A>(reg) * A::spec_byte_size() == reg.spec_byte_size(),
        data@.len() % spec_alignment::<A>(reg) == 0,
        sorted(data@.subrange(0, size as int)),
    ensures
        is_search_result(data@.subrange(0, size as int), key, r),
{
    if size == 0 {
        return Err(0);
    }
    let ghost s = data@.subrange(0, size as int);
    let n = data.len();
    let w = A::byte_size();
    let align = reg.byte_size() / w;
    proof {
        A::lemma_byte_size();
    }
    let mut middle: usize = size / (2 * align);
    proof {
        assert(middle * align <= size) by (nonlinear_arith)
            requires
                middle == (size as int) / (2 * align),
                align > 0,
        ;
        assert(middle >= 2 ==> middle * align + middle * align <= size) by (nonlinear_arith)
            requires
                middle == (size as int) / (2 * align),
                align > 0,
        ;
        assert(0 + (middle - 1) * align <= middle * align) by (nonlinear_arith)
            requires
                align > 0,
        ;
        assert((middle * align) % (align as int) == 0) by {
            lemma_mod_multiples_basic(middle as int, align as int);
        }
        assert(middle * align < size) by (nonlinear_arith)
            requires
                middle == (size as int) / (2 * align),
                align > 0,
                size > 0,
        ;
    }
    let mut pos: usize = middle * align;
    let mut low: usize = 0;
    let mut high: usize = size;
    loop
        invariant
            0 < size <= data@.len(),
            n == data@.len(),
            s == data@.subrange(0, size as int),
            sorted(s),
            w == A::spec_byte_size(),
            1 <= w <= 8,
            align == spec_alignment::<A>(reg),
            align > 0,
            align * w == reg.spec_byte_size(),
            reg.spec_byte_size() <= 32,
            (data@.len() as int) % (align as int) == 0,
            (pos as int) % (align as int) == 0,
            (low as int) % (align as int) == 0,
            low <= pos < high <= size,
            low + (middle - 1) * align <= pos,
            middle >= 2 ==> pos + middle * align <= high,
            forall|i: int| 0 <= i < low && i < size ==> #[trigger] s[i].lane_value() < key.lane_value(),
            forall|i: int| high <= i < size ==> #[trigger] s[i].lane_value() > key.lane_value(),
        decreases high - low,
    {
        proof {
            lemma_next_multiple(n as int, pos as int, align as int);
        }
        let ghost pred_eq = |l: int| data@[pos + l].lane_value() == key.lane_value();
        let ghost pred_gt = |l: int| data@[pos + l].lane_value() > key.lane_value();
        let mut eq = cmp_eq(data, pos, align, key);
        let mut gt = cmp_gt(data, pos, align, key);
        let all_greater: u32;
        let ghost valid: int;
        if pos + align > size {
            let valid_lanes = size - pos;
            proof {
                assert(valid_lanes * w < align * w) by (nonlinear_arith)
                    requires
                        valid_lanes < align,
                        w > 0,
                ;
            }
            let mask = low_mask(valid_lanes * w);
            proof {
                valid = valid_lanes as int;
                lemma_mask_restrict(eq, mask, align as int, valid, w as int, pred_eq);
                lemma_mask_restrict(gt, mask, align as int, valid, w as int, pred_gt);
            }
            eq = eq & mask;
            gt = gt & mask;
            all_greater = mask;
        } else {
            all_greater = reg.full_mask();
            proof {
                valid = align as int;
            }
        }
        proof {
            assert(valid * w <= 32) by (nonlinear_arith)
                requires
                    valid <= align,
                    align * w <= 32,
                    w > 0,
            ;
            assert(forall|i: u32| i < 32 ==> #[trigger] bit(all_greater, i) == (i < valid * w));
            assert(valid >= 1);
            assert(pos + valid <= size);
            assert(valid < align ==> pos + valid == size);
            lemma_mask_lanes(eq, valid, w as int, pred_eq);
            lemma_mask_lanes(gt, valid, w as int, pred_gt);
        }
        match first_set(eq) {
            Some(i) => {
                proof {
                    lemma_first_lane(eq, i as u32, valid, w as int, pred_eq);
                    A::lemma_lane_value_injective(s[pos + (i as int) / (w as int)], key);
                }
                return Ok(pos + i / w);
            },
            None => {},
        }
        // No lane equals the key; a lane that is not greater is smaller.
        assert(forall|l: int| 0 <= l < valid ==> !#[trigger] pred_eq(l));
        if gt == 0 {
            // Everything in this register is smaller: move up.
            proof {
                assert forall|i: int| 0 <= i < pos + align && i < size implies #[trigger] s[
                    i
                ].lane_value() < key.lane_value() by {
                    if i >= pos {
                        assert(pred_eq(i - pos) == false);
                        assert(pred_gt(i - pos) == false);
                    } else {
                        assert(pred_eq(0) == false);
                        assert(pred_gt(0) == false);
                        assert(s[i].lane_value() <= s[pos as int].lane_value());
                    }
                }
            }
            let old_middle = middle;
            middle = if middle / 2 > 1 {
                middle / 2
            } else {
                1
            };
            proof {
                assert(old_middle >= 2 ==> 2 * middle <= old_middle);
                assert(middle * align <= old_middle * align || old_middle == 0) by (
                nonlinear_arith)
                    requires
                        old_middle >= 2 ==> middle <= old_middle,
                        old_middle == 1 ==> middle == 1,
                        align > 0,
                ;
                assert(old_middle >= 1 ==> old_middle * align <= pos + align) by (nonlinear_arith)
                    requires
                        low + (old_middle - 1) * align <= pos,
                        low >= 0,
                ;
                assert(middle * align <= pos + align) by (nonlinear_arith)
                    requires
                        old_middle >= 1 ==> old_middle * align <= pos + align,
                        middle * align <= old_middle * align || old_middle == 0,
                        old_middle == 0 ==> middle == 1,
                        align > 0,
                ;
                assert(middle * align >= align) by (nonlinear_arith)
                    requires
                        middle >= 1,
                        align > 0,
                ;
            }
            let step = middle * align;
            low = pos + align;
            if step >= high - pos {
                // Nowhere to move up: the key belongs at the upper bound.
                proof {
                    if old_middle >= 4 {
                        assert(pos + old_middle * align <= high);
                        assert(step + step <= old_middle * align) by (nonlinear_arith)
                            requires
                                2 * middle <= old_middle,
                                step == middle * align,
                                align > 0,
                        ;
                        assert(false);
                    }
                    assert(middle == 1);
                }
                return Err(high);
            }
            proof {
                assert(low + (middle - 1) * align == pos + middle * align) by (nonlinear_arith)
                    requires
                        low == pos + align,
                ;
                if middle >= 2 {
                    assert(pos + old_middle * align <= high);
                    assert(step + step <= old_middle * align) by (nonlinear_arith)
                        requires
                            2 * middle <= old_middle,
                            step == middle * align,
                            align > 0,
                    ;
                }
                assert(((pos + step) as int) % (align as int) == 0) by {
                    lemma_mod_multiples_basic(middle as int, align as int);
                    vstd::arithmetic::div_mod::lemma_mod_adds(pos as int, step as int, align as int);
                }
                assert(((pos + align) as int) % (align as int) == 0) by {
                    vstd::arithmetic::div_mod::lemma_mod_adds(pos as int, align as int, align as int);
                    vstd::arithmetic::div_mod::lemma_mod_self_0(align as int);
                }
            }
            pos = pos + step;
            continue ;
        }
        let first_gt = first_set(gt);
        if gt == all_greater {
            // Everything in this register is greater: move down.
            proof {
                assert forall|i: int| pos <= i < size implies #[trigger] s[i].lane_value()
                    > key.lane_value() by {
                    if i < pos + valid {
                        assert(bit(all_greater, ((i - pos) * w) as u32)) by {
                            lemma_first_bit_of_lane(i - pos, w as int, valid);
                        }
                        assert(pred_gt(i - pos));
                    } else {
                        assert(bit(all_greater, ((valid - 1) * w) as u32)) by {
                            lemma_first_bit_of_lane(valid - 1, w as int, valid);
                        }
                        assert(pred_gt(valid - 1));
                        assert(s[pos + valid - 1].lane_value() <= s[i].lane_value());
                    }
                }
            }
            if pos <= low {
                // Nowhere to move down: the key belongs at the lower bound.
                return Err(low);
            }
            let old_middle = middle;
            middle = if middle / 2 > 1 {
                middle / 2
            } else {
                1
            };
            proof {
                lemma_next_multiple(pos as int, low as int, align as int);
                assert(low + (2 * middle - 1) * align <= pos) by (nonlinear_arith)
                    requires
                        old_middle >= 2 ==> 2 * middle <= old_middle,
                        old_middle < 2 ==> middle == 1,
                        low + (old_middle - 1) * align <= pos,
                        pos >= low + align,
                        align > 0,
                ;
                assert(middle * align <= pos) by (nonlinear_arith)
                    requires
                        low + (2 * middle - 1) * align <= pos,
                        middle >= 1,
                        low >= 0,
                        align > 0,
                ;
                assert(low + (middle - 1) * align <= pos - middle * align) by (nonlinear_arith)
                    requires
                        low + (2 * middle - 1) * align <= pos,
                ;
                assert(middle * align >= align) by (nonlinear_arith)
                    requires
                        middle >= 1,
                        align > 0,
                ;
            }
            let step = middle * align;
            high = pos;
            proof {
                lemma_mod_sub_multiple(pos as int, middle as int, align as int);
            }
            pos = pos - step;
            continue ;
        }
        // The register holds the step from smaller to greater elements.
        match first_gt {
            Some(i) => {
                proof {
                    lemma_first_lane(gt, i as u32, valid, w as int, pred_gt);
                    let lane = (i as int) / (w as int);
                    if lane == 0 {
                        assert forall|b: u32| b < 32 implies #[trigger] bit(gt, b) == bit(
                            all_greater,
                            b,
                        ) by {
                            if (b as int) < valid * (w as int) {
                                lemma_lane_of_bit(b as int, w as int, valid);
                                let bl = (b as int) / (w as int);
                                assert(s[pos as int].lane_value() <= s[pos + bl].lane_value());
                                assert(pred_gt(bl));
                            }
                        }
                        lemma_bits_ext(gt, all_greater);
                    }
                    assert(lane >= 1);
                    assert(!pred_gt(0) && !pred_eq(0));
                    assert forall|k: int| 0 <= k < pos + lane implies #[trigger] s[k].lane_value()
                        < key.lane_value() by {
                        if k >= pos {
                            assert(!pred_gt(k - pos) && !pred_eq(k - pos));
                        } else {
                            assert(s[k].lane_value() <= s[pos as int].lane_value());
                        }
                    }
                    assert forall|k: int| pos + lane <= k < size implies #[trigger] s[
                        k
                    ].lane_value() > key.lane_value() by {
                        assert(pred_gt(lane));
                        assert(s[pos + lane].lane_value() <= s[k].lane_value());
                    }
                }
                return Err(pos + i / w);
            },
            None => {
                proof {
                    assert(false);
                }
                return Err(pos);
            },
        }
    }
}

} // verus!
