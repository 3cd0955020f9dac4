use fibonacci_heap::{FibonacciHeap, HeapError};

/// A small deterministic generator so that the "random" cases repeat.
struct Lcg(u64);

impl Lcg {
    fn next(&mut self) -> u64 {
        self.0 = self.0.wrapping_mul(6364136223846793005).wrapping_add(1442695040888963407);
        self.0 >> 33
    }
}

fn drain(h: &mut FibonacciHeap) -> Vec<(u64, u64)> {
    let mut out = Vec::new();
    while let Some(p) = h.extract_min() {
        out.push(p);
    }
    out
}

fn assert_sorted(out: &[(u64, u64)]) {
    for w in out.windows(2) {
        assert!(w[0].0 <= w[1].0, "keys out of order: {:?}", w);
    }
}

// Values stand for the names "a", "b", "c".
const A: u64 = 0;
const B: u64 = 1;
const C: u64 = 2;

#[test]
fn example_scenario() {
    let mut h = FibonacciHeap::new();
    h.insert(5, A);
    h.insert(3, B);
    h.insert(8, C);
    assert_eq!(h.minimum(), Some((3, B)));
    assert_eq!(h.extract_min(), Some((3, B)));
    assert_eq!(h.minimum(), Some((5, A)));
    assert_eq!(h.decrease_key(C, 1), Ok(()));
    assert_eq!(h.minimum(), Some((1, C)));
}

#[test]
fn empty_heap() {
    let mut h = FibonacciHeap::new();
    assert_eq!(h.size(), 0);
    assert_eq!(h.minimum(), None);
    assert_eq!(h.extract_min(), None);
    assert_eq!(h.size(), 0);
}

#[test]
fn minimum_tracks_smallest_inserted() {
    let mut h = FibonacciHeap::new();
    let mut smallest = u64::MAX;
    let mut smallest_value = 0;
    for v in 0..200u64 {
        // Distinct keys, in no particular order.
        let k = (v * 7919) % 1009;
        h.insert(k, v);
        if k < smallest {
            smallest = k;
            smallest_value = v;
        }
        assert_eq!(h.minimum(), Some((smallest, smallest_value)));
    }
}

#[test]
fn interleaved_inserts_and_extractions() {
    let mut rng = Lcg(99);
    let mut h = FibonacciHeap::new();
    let mut present: Vec<(u64, u64)> = Vec::new();
    let mut next_value = 0u64;
    for round in 0..2000u64 {
        if round % 3 == 2 {
            let got = h.extract_min();
            if present.is_empty() {
                assert_eq!(got, None);
            } else {
                let (k, v) = got.unwrap();
                let smallest = present.iter().map(|p| p.0).min().unwrap();
                assert_eq!(k, smallest);
                let at = present.iter().position(|p| *p == (k, v)).unwrap();
                present.swap_remove(at);
            }
        } else {
            let k = rng.next() % 500;
            h.insert(k, next_value);
            present.push((k, next_value));
            next_value += 1;
        }
        assert_eq!(h.size(), present.len());
    }
    let out = drain(&mut h);
    assert_sorted(&out);
    assert_eq!(out.len(), present.len());
}

#[test]
fn extraction_is_sorted() {
    let mut h = FibonacciHeap::new();
    for (v, k) in [9u64, 4, 7, 1, 8, 2, 6, 3, 5, 0].iter().enumerate() {
        h.insert(*k, v as u64);
    }
    let out = drain(&mut h);
    let keys: Vec<u64> = out.iter().map(|p| p.0).collect();
    assert_eq!(keys, vec![0, 1, 2, 3, 4, 5, 6, 7, 8, 9]);
}

#[test]
fn size_counts_inserts_and_extractions() {
    let mut h = FibonacciHeap::new();
    for v in 0..10u64 {
        h.insert(100 - v, v);
    }
    assert_eq!(h.size(), 10);
    for _ in 0..4 {
        assert!(h.extract_min().is_some());
    }
    assert_eq!(h.size(), 6);
    for _ in 0..6 {
        assert!(h.extract_min().is_some());
    }
    assert_eq!(h.size(), 0);
    assert_eq!(h.minimum(), None);
}

#[test]
fn decrease_key_absent_value() {
    let mut h = FibonacciHeap::new();
    h.insert(5, A);
    h.insert(3, B);
    assert_eq!(h.decrease_key(C, 1), Err(HeapError::NotFound));
    assert_eq!(h.size(), 2);
    assert_eq!(h.minimum(), Some((3, B)));
    assert_eq!(drain(&mut h), vec![(3, B), (5, A)]);
}

#[test]
fn decrease_key_extracted_value() {
    let mut h = FibonacciHeap::new();
    h.insert(5, A);
    h.insert(3, B);
    assert_eq!(h.extract_min(), Some((3, B)));
    assert_eq!(h.decrease_key(B, 1), Err(HeapError::NotFound));
    assert_eq!(h.minimum(), Some((5, A)));
}

#[test]
fn decrease_key_to_larger_key() {
    let mut h = FibonacciHeap::new();
    h.insert(5, A);
    h.insert(3, B);
    assert_eq!(h.decrease_key(A, 6), Err(HeapError::InvalidDecrease));
    assert_eq!(h.size(), 2);
    assert_eq!(drain(&mut h), vec![(3, B), (5, A)]);
}

#[test]
fn decrease_key_to_same_key() {
    let mut h = FibonacciHeap::new();
    h.insert(5, A);
    h.insert(3, B);
    assert_eq!(h.decrease_key(A, 5), Ok(()));
    assert_eq!(drain(&mut h), vec![(3, B), (5, A)]);
}

#[test]
fn decrease_key_inside_trees_cascades() {
    let mut h = FibonacciHeap::new();
    for v in 0..64u64 {
        h.insert(1000 + v, v);
    }
    h.insert(0, 1000);
    // Extracting the smallest consolidates the other 64 roots into one tree.
    assert_eq!(h.extract_min(), Some((0, 1000)));
    // Lower keys of nodes deep in that tree, one after another, so that
    // parents are marked and then cut.
    let mut k = 999u64;
    for v in (1..64u64).rev() {
        assert_eq!(h.decrease_key(v, k), Ok(()));
        assert_eq!(h.minimum(), Some((k, v)));
        k -= 1;
    }
    let out = drain(&mut h);
    assert_eq!(out.len(), 64);
    assert_sorted(&out);
    assert_eq!(out[0], (937, 1));
    assert_eq!(out[63], (1000, 0));
}

#[test]
fn equal_keys() {
    let mut h = FibonacciHeap::new();
    for v in 0..20u64 {
        h.insert(7, v);
    }
    let out = drain(&mut h);
    assert_eq!(out.len(), 20);
    let mut values: Vec<u64> = out.iter().map(|p| p.1).collect();
    values.sort();
    assert_eq!(values, (0..20u64).collect::<Vec<u64>>());
    assert!(out.iter().all(|p| p.0 == 7));
}

#[test]
fn extreme_keys() {
    let mut h = FibonacciHeap::new();
    h.insert(u64::MAX, A);
    h.insert(0, B);
    h.insert(u64::MAX, C);
    assert_eq!(h.extract_min(), Some((0, B)));
    assert_eq!(h.decrease_key(C, 0), Ok(()));
    assert_eq!(drain(&mut h), vec![(0, C), (u64::MAX, A)]);
}

#[test]
fn round_trip_is_sorted_permutation() {
    let mut rng = Lcg(42);
    let mut h = FibonacciHeap::new();
    let mut input = Vec::new();
    for v in 0..500u64 {
        let k = rng.next() % 10_000;
        h.insert(k, v * 3 + 1);
        input.push((k, v * 3 + 1));
    }
    let out = drain(&mut h);
    assert_sorted(&out);
    let mut a = out.clone();
    let mut b = input.clone();
    a.sort();
    b.sort();
    assert_eq!(a, b);
}

#[test]
fn stress_decrease_then_extract() {
    let mut rng = Lcg(2024);
    let mut h = FibonacciHeap::new();
    let mut keys = vec![0u64; 1000];
    for v in 0..1000u64 {
        let k = 1_000_000 + rng.next() % 1_000_000;
        keys[v as usize] = k;
        h.insert(k, v);
    }
    // Interleave a few extractions so that trees form.
    let mut removed = vec![false; 1000];
    for _ in 0..50 {
        let (k, v) = h.extract_min().unwrap();
        assert_eq!(keys[v as usize], k);
        removed[v as usize] = true;
    }
    for _ in 0..600 {
        let v = rng.next() % 1000;
        let r = h.decrease_key(v, keys[v as usize] / 2);
        if removed[v as usize] {
            assert_eq!(r, Err(HeapError::NotFound));
        } else {
            assert_eq!(r, Ok(()));
            keys[v as usize] /= 2;
        }
    }
    assert_eq!(h.size(), 950);
    let out = drain(&mut h);
    assert_eq!(out.len(), 950);
    assert_sorted(&out);
    for (k, v) in out {
        assert_eq!(keys[v as usize], k);
        assert!(!removed[v as usize]);
        removed[v as usize] = true;
    }
}

#[test]
fn equal_key_keeps_earlier_minimum() {
    let mut h = FibonacciHeap::new();
    h.insert(3, A);
    h.insert(3, B);
    assert_eq!(h.minimum(), Some((3, A)));
    assert_eq!(h.minimum(), Some((3, A)));
    assert_eq!(h.extract_min(), Some((3, A)));
    assert_eq!(h.minimum(), Some((3, B)));
}

#[test]
fn extract_returns_reported_minimum() {
    let mut rng = Lcg(5);
    let mut h = FibonacciHeap::new();
    for v in 0..300u64 {
        h.insert(rng.next() % 20, v);
    }
    while let Some(reported) = h.minimum() {
        assert_eq!(h.extract_min(), Some(reported));
    }
    assert_eq!(h.size(), 0);
}

#[test]
fn failed_decrease_keeps_minimum() {
    let mut h = FibonacciHeap::new();
    h.insert(4, A);
    h.insert(4, B);
    h.insert(9, C);
    let before = h.minimum();
    assert_eq!(h.decrease_key(C, 10), Err(HeapError::InvalidDecrease));
    assert_eq!(h.decrease_key(77, 1), Err(HeapError::NotFound));
    assert_eq!(h.minimum(), before);
    assert_eq!(h.size(), 3);
}

#[test]
fn decrease_to_equal_smallest_key_keeps_minimum() {
    let mut h = FibonacciHeap::new();
    h.insert(2, A);
    h.insert(6, B);
    assert_eq!(h.decrease_key(B, 2), Ok(()));
    assert_eq!(h.minimum(), Some((2, A)));
    assert_eq!(h.size(), 2);
}
