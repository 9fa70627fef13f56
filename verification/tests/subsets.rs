use autoseg::similarity::all_substrings_present;
use autoseg::similarity::holds;
use autoseg::similarity::no_larger_candidate;
use autoseg::similarity::same_items;
use autoseg::similarity::similarity;
use autoseg::similarity::similarity_candidates;
use autoseg::subsets::get_bit_at;
use autoseg::subsets::subsets;

fn sorted(mut lists: Vec<Vec<u32>>) -> Vec<Vec<u32>> {
    lists.sort();
    lists
}

#[test]
fn get_bit_at_reads_low_bits() {
    assert!(get_bit_at(5, 0));
    assert!(!get_bit_at(5, 1));
    assert!(get_bit_at(5, 2));
    assert!(get_bit_at(1 << 31, 31));
    assert!(!get_bit_at(usize::MAX, 32));
    assert!(!get_bit_at(usize::MAX, 64));
}

#[test]
fn subsets_come_in_the_order_of_the_masks() {
    assert_eq!(subsets(&Vec::<u32>::new()), vec![Vec::<u32>::new()]);
    assert_eq!(subsets(&vec![7u32]), vec![vec![], vec![7]]);
    assert_eq!(
        subsets(&vec![1u32, 2, 3]),
        vec![vec![], vec![1], vec![2], vec![1, 2], vec![3], vec![1, 3], vec![2, 3], vec![1, 2, 3]]
    );
    assert_eq!(subsets(&vec![0u8; 10]).len(), 1024);
}

#[test]
fn same_items_and_holds() {
    assert!(same_items(&vec![1u32, 2], &vec![1, 2]));
    assert!(!same_items(&vec![1u32, 2], &vec![2, 1]));
    assert!(!same_items(&vec![1u32, 2], &vec![1]));
    let lists = vec![vec![1u32], vec![2, 3]];
    assert!(holds(&lists, &vec![2, 3]));
    assert!(!holds(&lists, &vec![3, 2]));
    assert!(!holds(&lists, &vec![]));
}

#[test]
fn all_substrings_present_keeps_closed_lists() {
    let vecs = vec![vec![], vec![1u32], vec![1, 2], vec![3], vec![1]];
    // [1, 2] lacks its sublist [2]; [1] is listed twice and comes out once
    assert_eq!(sorted(all_substrings_present(&vecs)), vec![vec![], vec![1], vec![3]]);
    // without the empty list nothing is closed
    assert!(all_substrings_present(&vec![vec![1u32]]).is_empty());
}

#[test]
fn no_larger_candidate_keeps_the_largest() {
    let vecs = vec![vec![], vec![1u32], vec![3], vec![1, 3], vec![2]];
    assert_eq!(sorted(no_larger_candidate(&vecs)), vec![vec![1, 3], vec![2]]);
}

#[test]
fn similarity_candidates_compose_the_two() {
    let vecs = vec![vec![], vec![1u32], vec![2], vec![1, 2], vec![3], vec![3, 4]];
    assert_eq!(sorted(similarity_candidates(&vecs)), vec![vec![1, 2], vec![3]]);
}

#[test]
fn similarity_gives_the_largest_common_sublists() {
    assert_eq!(similarity(&vec![1u32, 2, 3], &vec![2, 3, 4]), vec![vec![2, 3]]);
    assert_eq!(
        sorted(similarity(&vec![1u32, 2, 3, 4], &vec![3, 4, 1, 2])),
        vec![vec![1, 2], vec![3, 4]]
    );
    assert_eq!(similarity(&vec![1u32, 2], &vec![3]), vec![Vec::<u32>::new()]);
    assert_eq!(similarity(&vec![1u32, 1], &vec![1, 1, 1]), vec![vec![1, 1]]);
}
