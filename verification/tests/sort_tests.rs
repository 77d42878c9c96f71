use tsplat::depth_sort::{ScratchBuffers, sort_by_depth};
use tsplat::parallel::{PARALLEL_SORT_MIN, build_thread_pool, sort_by_depth_parallel};

#[test]
fn radix_sort_is_stable() {
    let mut items = vec![(5u32, 0u32), (3, 1), (5, 2), (1, 3), (3, 4)];
    let mut scratch = ScratchBuffers::new();
    sort_by_depth(&mut items, &mut scratch);
    assert_eq!(items, vec![(1, 3), (3, 1), (3, 4), (5, 0), (5, 2)]);
}

#[test]
fn radix_sort_uses_both_halves_of_the_key() {
    let mut items = vec![(0x0001_0000u32, 0u32), (0x0000_ffff, 1), (0x0001_0001, 2), (0, 3), (0xffff_ffff, 4)];
    let mut scratch = ScratchBuffers::new();
    sort_by_depth(&mut items, &mut scratch);
    assert_eq!(items, vec![(0, 3), (0xffff, 1), (0x1_0000, 0), (0x1_0001, 2), (0xffff_ffff, 4)]);
}

#[test]
fn radix_sort_trivial_inputs() {
    let mut scratch = ScratchBuffers::new();
    let mut empty: Vec<(u32, u32)> = Vec::new();
    sort_by_depth(&mut empty, &mut scratch);
    assert!(empty.is_empty());
    let mut one = vec![(9u32, 1u32)];
    sort_by_depth(&mut one, &mut scratch);
    assert_eq!(one, vec![(9, 1)]);
}

#[test]
fn positive_float_bits_sort_like_floats() {
    let depths = [3.5f32, 0.25, 100.0, 0.25, 1.0e-3, 7.0];
    let mut items: Vec<(u32, u32)> = depths.iter().enumerate().map(|(i, d)| (d.to_bits(), i as u32)).collect();
    let mut scratch = ScratchBuffers::new();
    sort_by_depth(&mut items, &mut scratch);
    let order: Vec<u32> = items.iter().map(|p| p.1).collect();
    assert_eq!(order, vec![4, 1, 3, 0, 5, 2]);
}

#[test]
fn no_pool_for_zero_threads() {
    assert!(matches!(build_thread_pool(0), Ok(None)));
    assert!(matches!(build_thread_pool(2), Ok(Some(_))));
    match build_thread_pool(3) {
        Ok(Some(p)) => assert_eq!(p.pool.current_num_threads(), 3),
        _ => panic!("expected a pool"),
    }
}

#[test]
fn parallel_sort_sorts_and_keeps_items() {
    let n = PARALLEL_SORT_MIN + 123;
    let mut items: Vec<(u32, u32)> = (0..n as u32).map(|i| ((i.wrapping_mul(2654435761)) % 1000, i)).collect();
    let mut expected = items.clone();
    expected.sort();
    let pool = build_thread_pool(2).unwrap();
    let mut scratch = ScratchBuffers::new();
    sort_by_depth_parallel(&mut items, &mut scratch, &pool);
    for w in items.windows(2) {
        assert!(w[0].0 <= w[1].0);
    }
    let mut got = items.clone();
    got.sort();
    assert_eq!(got, expected);
}

#[test]
fn small_batches_stay_stable_with_a_pool() {
    let pool = build_thread_pool(2).unwrap();
    let mut scratch = ScratchBuffers::new();
    let mut items = vec![(2u32, 0u32), (1, 1), (2, 2), (1, 3)];
    sort_by_depth_parallel(&mut items, &mut scratch, &pool);
    assert_eq!(items, vec![(1, 1), (1, 3), (2, 0), (2, 2)]);
    let mut items = vec![(2u32, 0u32), (1, 1), (2, 2), (1, 3)];
    sort_by_depth_parallel(&mut items, &mut scratch, &None);
    assert_eq!(items, vec![(1, 1), (1, 3), (2, 0), (2, 2)]);
}

#[test]
fn parallel_sort_matches_stable_sort_keys() {
    let n = PARALLEL_SORT_MIN + 777;
    let items: Vec<(u32, u32)> = (0..n as u32).map(|i| ((i.wrapping_mul(2246822519)) % 97, i)).collect();
    let mut stable = items.clone();
    let mut scratch = ScratchBuffers::new();
    sort_by_depth(&mut stable, &mut scratch);
    let pool = build_thread_pool(3).unwrap();
    let mut parallel = items.clone();
    sort_by_depth_parallel(&mut parallel, &mut scratch, &pool);
    let stable_keys: Vec<u32> = stable.iter().map(|p| p.0).collect();
    let parallel_keys: Vec<u32> = parallel.iter().map(|p| p.0).collect();
    assert_eq!(parallel_keys, stable_keys);
    let mut without_pool = items.clone();
    sort_by_depth_parallel(&mut without_pool, &mut scratch, &None);
    assert_eq!(without_pool, stable);
}
