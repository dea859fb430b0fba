use simdify::{SimdArray, SimdArrayOps, SimdRegister, SimdVec};
use std::cmp::Ordering;

const PATHS: [Option<SimdRegister>; 3] =
    [None, Some(SimdRegister::Narrow), Some(SimdRegister::Wide)];

/// A strictly increasing sequence of `len` values drawn from a fixed
/// linear congruential generator.
fn increasing(len: usize, seed: u64) -> Vec<i64> {
    let mut state = seed;
    let mut value: i64 = -1000;
    let mut out = Vec::with_capacity(len);
    for _ in 0..len {
        state = state.wrapping_mul(6364136223846793005).wrapping_add(1442695040888963407);
        value += 1 + ((state >> 33) % 4) as i64;
        out.push(value);
    }
    out
}

fn check_answer<T: Ord + Copy + std::fmt::Debug>(items: &[T], key: T, r: Result<usize, usize>) {
    match r {
        Ok(j) => assert_eq!(items[j], key),
        Err(p) => {
            assert!(p <= items.len());
            assert!(items[..p].iter().all(|x| *x < key));
            assert!(items[p..].iter().all(|x| *x > key));
        }
    }
}

#[test]
fn all_paths_agree_on_i8() {
    for len in 0..300usize {
        let items: Vec<i8> = increasing(len.min(250), len as u64)
            .into_iter()
            .map(|v| ((v % 250) - 125) as i8)
            .collect::<std::collections::BTreeSet<i8>>()
            .into_iter()
            .collect();
        let vector = SimdVec::from_slice(&items);
        for key in i8::MIN..=i8::MAX {
            let answers: Vec<_> = PATHS.iter().map(|p| vector.search_on(key, *p)).collect();
            check_answer(&items, key, answers[0]);
            assert_eq!(answers[0], answers[1]);
            assert_eq!(answers[0], answers[2]);
            assert_eq!(answers[0], items.binary_search(&key));
        }
    }
}

#[test]
fn all_paths_agree_on_i16() {
    for len in [0usize, 1, 7, 8, 9, 15, 16, 17, 31, 33, 100, 255, 256, 257] {
        let items: Vec<i16> = increasing(len, 7).into_iter().map(|v| v as i16).collect();
        let vector = SimdVec::from_slice(&items);
        for key in -1100i16..(items.last().copied().unwrap_or(0) + 10) {
            for p in PATHS {
                assert_eq!(vector.search_on(key, p), items.binary_search(&key));
            }
        }
    }
}

#[test]
fn all_paths_agree_on_i32() {
    for len in [0usize, 1, 3, 4, 5, 8, 9, 64, 65, 129] {
        let items: Vec<i32> = increasing(len, 11).into_iter().map(|v| v as i32).collect();
        let vector = SimdVec::from_slice(&items);
        for key in -1100i32..(items.last().copied().unwrap_or(0) + 10) {
            for p in PATHS {
                assert_eq!(vector.search_on(key, p), items.binary_search(&key));
            }
        }
    }
}

#[test]
fn all_paths_agree_on_i64() {
    for len in [0usize, 1, 2, 3, 4, 5, 6, 31, 32, 33, 127] {
        let items = increasing(len, 13);
        let vector = SimdVec::from_slice(&items);
        let array: SimdArray<i64, 32> = SimdArray::from_slice(&items);
        for key in -1100i64..(items.last().copied().unwrap_or(0) + 10) {
            for p in PATHS {
                assert_eq!(vector.search_on(key, p), items.binary_search(&key));
                assert_eq!(array.search_on(key, p), items.binary_search(&key));
            }
        }
    }
}

#[test]
fn duplicates_are_found() {
    let items: Vec<i32> = vec![1, 3, 3, 3, 3, 3, 3, 3, 3, 3, 3, 5, 5, 9];
    let vector = SimdVec::from_slice(&items);
    for key in 0..11 {
        for p in PATHS {
            check_answer(&items, key, vector.search_on(key, p));
        }
    }
}

#[test]
fn content_fidelity() {
    let items = increasing(77, 3);
    let vector = SimdVec::from_slice(&items);
    assert_eq!(vector.as_slice(), &items[..]);
    assert_eq!(vector.len(), 77);
    let small: Vec<i16> = items.iter().map(|v| *v as i16).collect();
    let array: SimdArray<i16, 8> = SimdArray::from_slice(&small);
    assert_eq!(array.as_slice(), &small[..]);
    for (i, v) in small.iter().enumerate() {
        assert_eq!(array.get(i), *v);
    }
}

#[test]
fn empty_containers() {
    let vector: SimdVec<i8> = SimdVec::new();
    assert!(vector.is_empty());
    let defaulted: SimdVec<i8> = SimdVec::default();
    assert!(defaulted == vector);
    assert_eq!(vector.search(5), Err(0));
    let array: SimdArray<i32, 4> = SimdArray::new();
    assert!(array.is_empty());
    assert_eq!(array.search(-5), Err(0));
    let mut growable: SimdVec<i64> = SimdVec::with_capacity(10);
    assert_eq!(growable.len(), 0);
    assert_eq!(growable.pop(), None);
    for p in PATHS {
        assert_eq!(growable.search_on(0, p), Err(0));
    }
}

#[test]
fn push_then_pop() {
    let mut vector: SimdVec<i16> = SimdVec::new();
    for v in 0..100i16 {
        let before = vector.len();
        vector.push(v * 3);
        assert_eq!(vector.pop(), Some(v * 3));
        assert_eq!(vector.len(), before);
        vector.push(v);
    }
    assert_eq!(vector.len(), 100);
    let mut array: SimdArray<i8, 1> = SimdArray::new();
    assert!(array.push(4));
    assert!(array.push(-9));
    assert_eq!(array.pop(), Some(-9));
    assert_eq!(array.as_slice(), &[4]);
    assert_eq!(array.pop(), Some(4));
    assert_eq!(array.pop(), None);
}

#[test]
fn push_across_block_boundaries() {
    let mut vector: SimdVec<i32> = SimdVec::new();
    for v in 0..20i32 {
        vector.push(v);
    }
    for v in (0..20i32).rev() {
        assert_eq!(vector.pop(), Some(v));
        assert_eq!(vector.search(v), Err(v as usize));
        if v > 0 {
            assert_eq!(vector.search(v - 1), Ok(v as usize - 1));
        }
    }
    assert!(vector.is_empty());
}

#[test]
fn full_array_refuses_push() {
    assert_eq!(SimdArray::<i8, 1>::max_size(), 32);
    assert_eq!(SimdArray::<i16, 2>::max_size(), 32);
    assert_eq!(SimdArray::<i64, 3>::max_size(), 12);
    let items: Vec<i8> = (0..32).collect();
    let mut array: SimdArray<i8, 1> = SimdArray::from_slice(&items);
    assert!(!array.push(100));
    assert_eq!(array.len(), 32);
    assert_eq!(array.as_slice(), &items[..]);
    assert_eq!(array.search(31), Ok(31));
    assert_eq!(array.search(32), Err(32));
}

#[test]
fn extend_and_set() {
    let mut vector: SimdVec<i8> = SimdVec::from_slice(&[1, 2, 3]);
    vector.extend(&[4, 5, 6, 7]);
    assert_eq!(vector.as_slice(), &[1, 2, 3, 4, 5, 6, 7]);
    vector.set(0, -3);
    assert_eq!(vector.get(0), -3);
    let mut array: SimdArray<i8, 1> = SimdArray::new();
    array.extend(&[9, 8]);
    array.set(1, 10);
    assert_eq!(array.as_slice(), &[9, 10]);
}

#[test]
fn partial_block_padding_is_never_matched() {
    // Zero-filled lanes past the end must not be reported as a match.
    let vector: SimdVec<i32> = SimdVec::from_slice(&[-7, -3]);
    for p in PATHS {
        assert_eq!(vector.search_on(0, p), Err(2));
        assert_eq!(vector.search_on(-5, p), Err(1));
        assert_eq!(vector.search_on(-8, p), Err(0));
        assert_eq!(vector.search_on(-3, p), Ok(1));
    }
}

#[test]
fn register_sizes() {
    assert_eq!(SimdRegister::Narrow.byte_size(), 16);
    assert_eq!(SimdRegister::Wide.byte_size(), 32);
    assert_eq!(SimdRegister::Narrow.full_mask(), 0xffff);
    assert_eq!(SimdRegister::Wide.full_mask(), 0xffff_ffff);
}

#[test]
fn equality_follows_elements() {
    let a: SimdVec<i16> = SimdVec::from_slice(&[1, 2, 3, 4, 5, 6, 7, 8, 9, 10, 11, 12, 13, 14, 15, 16, 17]);
    let mut b: SimdVec<i16> = SimdVec::from_slice(&[1, 2, 3]);
    b.extend(&[4, 5, 6, 7, 8, 9, 10, 11, 12, 13, 14, 15, 16, 17, 18]);
    assert!(a != b);
    assert_eq!(b.pop(), Some(18));
    assert!(a == b);
    let mut c: SimdArray<i8, 2> = SimdArray::from_slice(&[5, 6, 7]);
    let d: SimdArray<i8, 2> = SimdArray::from_slice(&[5, 6]);
    assert!(c != d);
    c.pop();
    assert!(c == d);
}

#[test]
fn ordering_follows_elements() {
    let a: SimdVec<i32> = SimdVec::from_slice(&[1, 2, 3]);
    let b: SimdVec<i32> = SimdVec::from_slice(&[1, 2, 4]);
    let c: SimdVec<i32> = SimdVec::from_slice(&[1, 2]);
    let d: SimdVec<i32> = SimdVec::from_slice(&[-5, 9, 9, 9, 9, 9, 9, 9, 9, 9]);
    assert_eq!(a.partial_cmp(&b), Some(Ordering::Less));
    assert_eq!(b.partial_cmp(&a), Some(Ordering::Greater));
    assert_eq!(c.partial_cmp(&a), Some(Ordering::Less));
    assert_eq!(a.partial_cmp(&a), Some(Ordering::Equal));
    assert!(d < c);
    let e: SimdArray<i8, 1> = SimdArray::from_slice(&[3, -1]);
    let f: SimdArray<i8, 1> = SimdArray::from_slice(&[3]);
    assert!(f < e);
    assert_eq!(e.partial_cmp(&e), Some(Ordering::Equal));
}

#[test]
fn all_paths_agree_on_isize() {
    for len in [0usize, 1, 2, 3, 4, 5, 17, 64, 65] {
        let items: Vec<isize> = increasing(len, 17).into_iter().map(|v| v as isize).collect();
        let vector = SimdVec::from_slice(&items);
        for key in -1100isize..(items.last().copied().unwrap_or(0) + 10) {
            for p in PATHS {
                assert_eq!(vector.search_on(key, p), items.binary_search(&key));
            }
        }
    }
}
