use lindera_dictionary::builder::context_id_remap::{bump, build_perm, record_access};
use lindera_dictionary::dictionary::context_id_map::ContextIdMap;

#[test]
fn test_build_perm_orders_by_frequency() {
    let hist = [99u64, 5, 50, 50, 0];
    let perm = build_perm(&hist);
    assert_eq!(perm[0], 0);
    assert_eq!(perm[2], 1);
    assert_eq!(perm[3], 2);
    assert_eq!(perm[1], 3);
    assert_eq!(perm[4], 4);
    let mut seen = perm.clone();
    seen.sort_unstable();
    assert_eq!(seen, vec![0, 1, 2, 3, 4]);
}

#[test]
fn test_build_perm_empty() {
    assert!(build_perm(&[]).is_empty());
}

#[test]
fn test_build_perm_single() {
    assert_eq!(build_perm(&[7]), vec![0]);
}

#[test]
fn build_perm_is_a_bijection() {
    let hist = [3u64, 1, 4, 1, 5, 9, 2, 6];
    let perm = build_perm(&hist);
    let mut seen = perm.clone();
    seen.sort_unstable();
    assert_eq!(seen, (0..8).collect::<Vec<u16>>());
    assert_eq!(perm[5], 1);
}

#[test]
fn test_map_left_and_right() {
    let map = ContextIdMap { left: vec![0, 2, 1], right: vec![0, 5, 6, 7] };
    assert_eq!(map.map_left(0), 0);
    assert_eq!(map.map_left(1), 2);
    assert_eq!(map.map_left(2), 1);
    assert_eq!(map.map_right(3), 7);
    assert_eq!(map.map_left(9), 9);
    assert_eq!(map.map_right(9), 9);
}

#[test]
fn bump_grows_and_counts() {
    let mut hist = vec![1u64];
    bump(&mut hist, 3);
    assert_eq!(hist, vec![1, 0, 0, 1]);
    bump(&mut hist, 0);
    assert_eq!(hist, vec![2, 0, 0, 1]);
    let mut left = Vec::new();
    let mut right = Vec::new();
    record_access(&mut left, &mut right, 2, 1);
    assert_eq!(right, vec![0, 0, 1]);
    assert_eq!(left, vec![0, 1]);
}
