use port_strategy::range_walk::{
    permute_range, random_permutation, ring_size, walk_increment, RangeWalk,
};

#[test]
fn ring_size_is_next_power_of_two() {
    assert_eq!(1, ring_size(0));
    assert_eq!(1, ring_size(1));
    assert_eq!(2, ring_size(2));
    assert_eq!(4, ring_size(3));
    assert_eq!(128, ring_size(100));
    assert_eq!(128, ring_size(128));
    assert_eq!(65536, ring_size(65535));
    assert_eq!(65536, ring_size(65536));
}

#[test]
fn increment_is_odd_and_from_middle_of_ring() {
    assert_eq!(5, walk_increment(16, 0));
    assert_eq!(7, walk_increment(16, 3));
    assert_eq!(11, walk_increment(16, 7));
    assert_eq!(5, walk_increment(16, 8));
    assert_eq!(1, walk_increment(2, 9));
    assert_eq!(1, walk_increment(1, 4));
}

#[test]
fn walk_skips_residues_past_the_interval() {
    // ring of 16, increment 5 from residue 0: 0 5 10 15 4 9 14 3 8 13 2 7 12 1 6
    assert_eq!(vec![1, 6, 5, 10, 4, 9, 3, 8, 2, 7], permute_range(1, 10, 0, 0));
}

#[test]
fn walk_starts_at_seed_residue() {
    // ring of 8, increment 3 from residue 2: 2 5 0 3 6 1 4
    assert_eq!(vec![102, 105, 100, 103, 106, 101, 104], permute_range(100, 106, 2, 0));
    assert_eq!(permute_range(100, 106, 2, 0), permute_range(100, 106, 10, 4));
}

#[test]
fn walk_of_one_port() {
    assert_eq!(vec![7], permute_range(7, 7, 123, 456));
    assert_eq!(vec![65535], random_permutation(65535, 65535));
}

#[test]
fn walk_of_two_ports() {
    assert_eq!(vec![3, 4], permute_range(3, 4, 0, 0));
    assert_eq!(vec![4, 3], permute_range(3, 4, 1, 0));
}

#[test]
fn repeated_random_walks_cover_interval() {
    let expected: Vec<u16> = (1..=100).collect();
    for _ in 0..20 {
        let mut result = random_permutation(1, 100);
        assert_eq!(100, result.len());
        assert!(result.iter().all(|p| (1..=100).contains(p)));
        result.sort_unstable();
        result.dedup();
        assert_eq!(expected, result);
    }
}

#[test]
fn every_seed_and_stride_covers_interval() {
    let expected: Vec<u16> = (1..=100).collect();
    for seed in 0..128 {
        for stride in [0, 1, 17, 63, 1000] {
            let mut result = permute_range(1, 100, seed, stride);
            result.sort_unstable();
            assert_eq!(expected, result);
        }
    }
}

#[test]
fn stepping_the_walk_matches_collected_order() {
    let mut walk = RangeWalk::new(1, 10, 0, 0);
    let mut seen: Vec<u16> = Vec::new();
    while let Some(p) = walk.next() {
        seen.push(p);
    }
    assert_eq!(vec![1, 6, 5, 10, 4, 9, 3, 8, 2, 7], seen);
    assert_eq!(None, walk.next());
    assert_eq!(None, walk.next());
}

#[test]
fn stepping_a_one_port_walk() {
    let mut walk = RangeWalk::new(443, 443, 9, 9);
    assert_eq!(Some(443), walk.next());
    assert_eq!(None, walk.next());
}

#[test]
fn random_walks_differ_between_runs() {
    let first = random_permutation(0, 999);
    let differs = (0..10).any(|_| random_permutation(0, 999) != first);
    assert!(differs);
}
