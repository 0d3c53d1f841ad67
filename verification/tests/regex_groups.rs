use sbnf::codegen::{count_duplicate_regexes, index_terminals};

#[test]
fn count_regexes_across_lookaheads() {
    let lookaheads = vec![vec![3, 5, 3], vec![5], vec![], vec![9, 3]];
    let counts = count_duplicate_regexes(&lookaheads);
    assert_eq!(counts.get(3), Some(3));
    assert_eq!(counts.get(5), Some(2));
    assert_eq!(counts.get(9), Some(1));
    assert_eq!(counts.get(4), None);
}

#[test]
fn count_regexes_of_nothing() {
    let counts = count_duplicate_regexes(&[]);
    assert_eq!(counts.get(0), None);
}

#[test]
fn index_terminals_groups_in_first_occurrence_order() {
    let map = index_terminals(&[7, 2, 7, 7, 4, 2]);
    let groups: Vec<(u64, Vec<usize>)> = map.into_iter().collect();
    assert_eq!(groups, vec![(7, vec![0, 2, 3]), (2, vec![1, 5]), (4, vec![4])]);
}

#[test]
fn index_terminals_of_empty_lookahead() {
    assert!(index_terminals(&[]).is_empty());
}
