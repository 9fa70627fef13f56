use autoseg::score::copy_rows;
use autoseg::score::holds_rows;
use autoseg::score::same_rows;
use autoseg::score::subvecs;
use autoseg::score::Score;

#[test]
fn subvecs_choose_in_every_place() {
    assert_eq!(subvecs(&Vec::<Vec<u32>>::new()), vec![Vec::<Vec<u32>>::new()]);
    assert_eq!(subvecs(&vec![vec![5u32]]), vec![vec![vec![5]]]);
    assert_eq!(
        subvecs(&vec![vec![0u32, 1], vec![2, 3]]),
        vec![
            vec![vec![0], vec![2]],
            vec![vec![1], vec![2]],
            vec![vec![0, 1], vec![2]],
            vec![vec![0], vec![3]],
            vec![vec![1], vec![3]],
            vec![vec![0, 1], vec![3]],
            vec![vec![0], vec![2, 3]],
            vec![vec![1], vec![2, 3]],
            vec![vec![0, 1], vec![2, 3]],
        ]
    );
    // a place with nothing to choose from leaves no way
    assert!(subvecs(&vec![vec![1u32], vec![]]).is_empty());
}

#[test]
fn rows_are_copied_compared_and_found() {
    let v = vec![vec![1u32, 2], vec![3]];
    assert_eq!(copy_rows(&v), v);
    assert!(same_rows(&v, &vec![vec![1, 2], vec![3]]));
    assert!(!same_rows(&v, &vec![vec![1, 2]]));
    assert!(!same_rows(&v, &vec![vec![1, 2], vec![4]]));
    let list = vec![vec![vec![1u32]], v.clone()];
    assert!(holds_rows(&list, &v));
    assert!(!holds_rows(&list, &vec![vec![3], vec![1, 2]]));
}

#[test]
fn substrings_of_one_realization() {
    let score = Score(vec![vec![vec![0u32, 1], vec![2, 3]]]);
    let mut parts = score.substrings();
    assert_eq!(parts.len(), 15);
    parts.sort();
    assert_eq!(
        parts,
        vec![
            vec![vec![0]],
            vec![vec![0], vec![2]],
            vec![vec![0], vec![2, 3]],
            vec![vec![0], vec![3]],
            vec![vec![0, 1]],
            vec![vec![0, 1], vec![2]],
            vec![vec![0, 1], vec![2, 3]],
            vec![vec![0, 1], vec![3]],
            vec![vec![1]],
            vec![vec![1], vec![2]],
            vec![vec![1], vec![2, 3]],
            vec![vec![1], vec![3]],
            vec![vec![2]],
            vec![vec![2, 3]],
            vec![vec![3]],
        ]
    );
}

#[test]
fn substrings_hold_each_part_once() {
    let score = Score(vec![vec![vec![1u32], vec![1]], vec![vec![1u32]]]);
    let mut parts = score.substrings();
    parts.sort();
    assert_eq!(parts, vec![vec![vec![1]], vec![vec![1], vec![1]]]);
    assert!(Score::<u32>(vec![]).substrings().is_empty());
    assert!(Score::<u32>(vec![vec![]]).substrings().is_empty());
}
