use std::cell::Cell;

use usize_match::{build_partition, quantize, usize_match, PartitionError, RangeIter, WIDE_CAP};

const WIDTHS: [usize; 4] = [8, 16, 32, 64];

fn collect(mut run: RangeIter) -> Vec<(usize, usize)> {
    let mut out = Vec::new();
    while let Some(pair) = run.next() {
        out.push(pair);
    }
    out
}

#[test]
fn range_iter_unit_steps() {
    let pairs = collect(RangeIter::new(0, 1, 3));
    assert_eq!(pairs, vec![(0, 1), (1, 2), (2, 3)]);
}

#[test]
fn range_iter_stops_before_exceeding_max() {
    let pairs = collect(RangeIter::new(32, 8, 60));
    assert_eq!(pairs, vec![(32, 40), (40, 48), (48, 56)]);
}

#[test]
fn range_iter_empty_cases() {
    assert!(collect(RangeIter::new(5, 1, 5)).is_empty());
    assert!(collect(RangeIter::new(10, 1, 5)).is_empty());
    assert!(collect(RangeIter::new(0, 0, 5)).is_empty());
    assert!(collect(RangeIter::new(usize::MAX - 1, 5, usize::MAX)).is_empty());
}

#[test]
fn range_iter_stays_done() {
    let mut run = RangeIter::new(0, 2, 2);
    assert_eq!(run.next(), Some((0, 2)));
    assert_eq!(run.next(), None);
    assert_eq!(run.next(), None);
}

#[test]
fn range_iter_restartable() {
    assert_eq!(collect(RangeIter::new(1024, 1024, 8192)), collect(RangeIter::new(1024, 1024, 8192)));
}

#[test]
fn partitions_are_contiguous_from_zero() {
    for w in WIDTHS {
        let p = build_partition(w).unwrap();
        let bs = p.buckets();
        assert_eq!(bs[0].0, 0);
        for pair in bs {
            assert!(pair.0 < pair.1);
        }
        for i in 0..bs.len() - 1 {
            assert_eq!(bs[i].1, bs[i + 1].0);
        }
        assert_eq!(bs[bs.len() - 1].1, p.ceiling());
        assert_eq!(p.width(), w);
    }
}

#[test]
fn ceilings_per_width() {
    assert_eq!(build_partition(8).unwrap().ceiling(), 128);
    assert_eq!(build_partition(16).unwrap().ceiling(), 32768);
    assert_eq!(build_partition(32).unwrap().ceiling(), 1048576);
    assert_eq!(build_partition(64).unwrap().ceiling(), WIDE_CAP);
}

#[test]
fn bucket_counts_per_width() {
    assert_eq!(build_partition(8).unwrap().buckets().len(), 32 + 12);
    assert_eq!(build_partition(16).unwrap().buckets().len(), 1024 + 31);
    assert_eq!(build_partition(32).unwrap().buckets().len(), 1024 + 1023);
    assert_eq!(build_partition(64).unwrap().buckets().len(), 1024 + 1023);
}

#[test]
fn unsupported_widths_are_refused() {
    for w in [0, 1, 7, 12, 24, 48, 63, 65, 128] {
        assert_eq!(build_partition(w), Err(PartitionError::UnsupportedWidth(w)));
    }
}

#[test]
fn quantize_is_least_sufficient_upper() {
    for w in [8, 16] {
        let p = build_partition(w).unwrap();
        let bs = p.buckets();
        for v in 1..=p.ceiling() {
            let r = quantize(&p, v, || panic!("fallback called in range"));
            assert!(r >= v);
            assert!(bs.iter().any(|b| b.1 == r && b.0 < v));
            assert!(bs.iter().all(|b| b.1 < v || b.1 >= r));
        }
    }
}

#[test]
fn quantize_zero_is_zero() {
    for w in WIDTHS {
        let p = build_partition(w).unwrap();
        assert_eq!(quantize(&p, 0, || 7), 0);
    }
}

#[test]
fn quantize_above_ceiling_returns_fallback_once() {
    for w in WIDTHS {
        let p = build_partition(w).unwrap();
        let calls = Cell::new(0usize);
        let r = quantize(&p, p.ceiling() + 5, || {
            calls.set(calls.get() + 1);
            4242
        });
        assert_eq!(r, 4242);
        assert_eq!(calls.get(), 1);
        assert_eq!(quantize(&p, usize::MAX, || 9), 9);
    }
}

#[test]
fn quantize_in_range_never_calls_fallback() {
    let p = build_partition(16).unwrap();
    let calls = Cell::new(0usize);
    for v in [0, 1, 1024, 1025, 32768] {
        quantize(&p, v, || {
            calls.set(calls.get() + 1);
            0
        });
    }
    assert_eq!(calls.get(), 0);
}

#[test]
fn build_is_deterministic() {
    for w in WIDTHS {
        let a = build_partition(w).unwrap();
        let b = build_partition(w).unwrap();
        assert_eq!(a.buckets(), b.buckets());
        assert_eq!(a, b);
    }
}

#[test]
fn ceiling_boundary() {
    for w in WIDTHS {
        let p = build_partition(w).unwrap();
        let c = p.ceiling();
        let last = p.buckets()[p.buckets().len() - 1].1;
        assert_eq!(quantize(&p, c, || 1), last);
        assert_eq!(quantize(&p, c + 1, || 1), 1);
    }
}

#[test]
fn width_eight_scenario() {
    let p = build_partition(8).unwrap();
    let got: Vec<usize> = [0, 1, 31, 32, 33, 40].iter().map(|&v| quantize(&p, v, || 999)).collect();
    assert_eq!(got, vec![0, 1, 31, 32, 40, 40]);
    assert_eq!(quantize(&p, 129, || 999), 999);
    assert_eq!(quantize(&p, 1000, || 999), 999);
}

#[test]
fn width_sixty_four_scenario() {
    let p = build_partition(64).unwrap();
    let got: Vec<usize> = [0, 1, 1024, 1025, 2048].iter().map(|&v| quantize(&p, v, || 999)).collect();
    assert_eq!(got, vec![0, 1, 1024, 2048, 2048]);
    assert_eq!(quantize(&p, 1048576, || 999), 1048576);
    assert_eq!(quantize(&p, 1048577, || 999), 999);
}

#[test]
fn width_sixteen_coarse_tier() {
    let p = build_partition(16).unwrap();
    assert_eq!(quantize(&p, 2000, || 0), 2048);
    assert_eq!(quantize(&p, 3073, || 0), 4096);
    assert_eq!(quantize(&p, 32767, || 0), 32768);
}

#[test]
fn usize_match_combines_build_and_lookup() {
    assert_eq!(usize_match(8, 33, || 0), Ok(40));
    assert_eq!(usize_match(32, 1025, || 0), Ok(2048));
    assert_eq!(usize_match(32, 1048577, || 77), Ok(77));
    assert_eq!(usize_match(16, 0, || 77), Ok(0));
    assert_eq!(usize_match(3, 5, || 77), Err(PartitionError::UnsupportedWidth(3)));
}
