use bit_set::BitSet;
use neonwhite_seed_finder::rules::{check_shuffle_matches_flattened, flatten_rules, seed_matches, Rule};
use neonwhite_seed_finder::search::{gpu_results, matching_seeds};
use neonwhite_seed_finder::shuffle::get_shuffled_idxs;

fn set(levels: &[usize]) -> BitSet {
    let mut s = BitSet::with_capacity(96);
    for &l in levels {
        s.insert(l);
    }
    s
}

#[test]
fn flat_encoding() {
    let rules = vec![Rule::Sequence(0, 3, vec![10, 11, 12]), Rule::Subset(13, 16, set(&[0, 13, 14]))];
    let (subset, sequence) = flatten_rules(&rules);
    assert_eq!(subset, vec![13, 16, 1, 96, 0, 0, 0, 0, 0, 0, 0, 0, 0, 0]);
    assert_eq!(sequence, vec![0, 3, 10, 11, 12]);
    // positions 0..3 hold 10, 11, 12; 13..16 must hold 0, 13 and 14
    let good: Vec<u8> = vec![10, 11, 12, 3, 4, 5, 6, 7, 8, 9, 1, 2, 15, 14, 0, 13];
    assert!(check_shuffle_matches_flattened(&good, &subset, &sequence));
    let bad: Vec<u8> = vec![10, 11, 12, 3, 4, 5, 6, 7, 8, 9, 1, 2, 0, 14, 15, 13];
    assert!(!check_shuffle_matches_flattened(&bad, &subset, &sequence));
    let bad: Vec<u8> = vec![10, 12, 11, 3, 4, 5, 6, 7, 8, 9, 1, 2, 15, 14, 0, 13];
    assert!(!check_shuffle_matches_flattened(&bad, &subset, &sequence));
}

#[test]
fn seed_check_against_the_order() {
    let rules = vec![Rule::Sequence(0, 1, vec![7]), Rule::Subset(2, 5, set(&[1, 2]))];
    let (subset, sequence) = flatten_rules(&rules);
    let mut buf = Vec::new();
    let mut order = Vec::new();
    for seed in 0..2000 {
        let got = seed_matches(8, seed, &rules, &subset, &sequence, &mut buf);
        get_shuffled_idxs(8, seed, &mut order);
        let expected = order[0] == 7 && order[2..5].contains(&1) && order[2..5].contains(&2);
        assert_eq!(got, expected, "seed {seed}");
        assert_eq!(buf, order);
    }
}

#[test]
fn first_matching_seeds_of_a_range() {
    assert_eq!(matching_seeds(8, &[], &[], &[], 5, 100, 3), vec![5, 6, 7]);
    // the range may end at 2^31, so the last seed is reached
    assert_eq!(matching_seeds(8, &[], &[], &[], i32::MAX - 1, 1 << 31, 5), vec![i32::MAX - 1, i32::MAX]);
    assert_eq!(matching_seeds(8, &[], &[], &[], 5, 7, 3), vec![5, 6]);
    assert_eq!(matching_seeds(8, &[], &[], &[], 5, 3, 3), Vec::<i32>::new());
    assert_eq!(matching_seeds(8, &[], &[], &[], 5, 100, 0), Vec::<i32>::new());
    let rules = vec![Rule::Sequence(0, 2, vec![7, 6])];
    let (subset, sequence) = flatten_rules(&rules);
    let found = matching_seeds(8, &rules, &subset, &sequence, 0, 20000, 4);
    let mut expected = Vec::new();
    let mut order = Vec::new();
    for seed in 0..20000 {
        get_shuffled_idxs(8, seed, &mut order);
        if order[0] == 7 && order[1] == 6 && expected.len() < 4 {
            expected.push(seed);
        }
    }
    assert_eq!(found, expected);
    assert!(!found.is_empty());
}

#[test]
fn reported_gpu_seeds() {
    assert_eq!(gpu_results(&[5, u32::MAX, 7, 9], 2), vec![5, 7]);
    assert_eq!(gpu_results(&[5, u32::MAX, 7, 9], 10), vec![5, 7, 9]);
    assert_eq!(gpu_results(&[u32::MAX, u32::MAX], 10), Vec::<i32>::new());
    assert_eq!(gpu_results(&[1, 2], 0), Vec::<i32>::new());
}
