use std::ops::Range;
use wgpu_remote::pool::freemap::FreeMap;
use wgpu_remote::pool::slice_utils::{ptr_subslice, ptr_subslice_range};
use wgpu_remote::transport::local::HandleCounter;
use wgpu_remote::SlicePtr;

fn overlaps(a: &Range<usize>, b: &Range<usize>) -> bool {
    a.start < b.end && b.start < a.end
}

#[test]
fn free_right_after_allocate_restores_the_map() {
    for pool_size in [16, 65, 127, 208, 1000, 4096] {
        for size in [1, 16, 17, 33, 64, 100, 500, 4096] {
            let mut freemap = FreeMap::new(pool_size);
            let before = freemap.free_ranges();
            if let Some(range) = freemap.allocate(size) {
                freemap.free(range);
            }
            assert_eq!(freemap.free_ranges(), before);
        }
    }
}

#[test]
fn allocations_are_big_enough_aligned_and_disjoint() {
    let mut freemap = FreeMap::new(1000);
    let mut live: Vec<Range<usize>> = Vec::new();
    for size in [20, 100, 16, 1, 200, 50, 64, 33] {
        if let Some(range) = freemap.allocate(size) {
            let len = range.end - range.start;
            assert!(len >= size && len >= 16);
            assert!(len.is_power_of_two());
            assert_eq!(range.start % len, 0);
            assert!(range.end <= 1000);
            for other in &live {
                assert!(!overlaps(&range, other));
            }
            for free in freemap.free_ranges() {
                assert!(!overlaps(&range, &free));
            }
            live.push(range);
        }
    }
    assert!(live.len() >= 6);
}

#[test]
fn freed_range_becomes_free_and_others_stay_in_use() {
    let mut freemap = FreeMap::new(256);
    let a = freemap.allocate(16).unwrap();
    let b = freemap.allocate(16).unwrap();
    let c = freemap.allocate(100).unwrap();
    freemap.free(a.clone());
    let free = freemap.free_ranges();
    assert!(free.iter().any(|f| f.start <= a.start && a.end <= f.end));
    for f in &free {
        assert!(!overlaps(f, &b));
        assert!(!overlaps(f, &c));
    }
}

#[test]
fn subslice_and_range_round_trip() {
    let outer = SlicePtr { addr: 4096, len: 100 };
    let sub = ptr_subslice(outer, 3..9);
    assert_eq!(sub, SlicePtr { addr: 4099, len: 6 });
    assert_eq!(ptr_subslice_range(outer, sub), 3..9);
}

#[test]
fn local_sides_number_handles_apart() {
    let (mut left, mut right) = HandleCounter::new_pair();
    let l: Vec<usize> = (0..3).map(|_| left.next_handle().0).collect();
    let r: Vec<usize> = (0..3).map(|_| right.next_handle().0).collect();
    assert_eq!(l, vec![0, 2, 4]);
    assert_eq!(r, vec![1, 3, 5]);
    assert_eq!(left.next_id(), 6);
    for x in &l {
        assert!(!r.contains(x));
    }
}
