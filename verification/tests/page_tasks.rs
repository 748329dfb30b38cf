use rune::pairing::{count_page_tasks, page_tasks};

#[test]
fn page_pairs_then_history() {
    let ids = [1, 2, 3];
    let history = vec![vec![], vec![7], vec![8, 9]];
    let tasks = page_tasks(&ids, &history);
    assert_eq!(tasks, vec![(1, 2), (1, 3), (2, 3), (2, 7), (3, 8), (3, 9)]);
}

#[test]
fn task_count_matches_tasks() {
    let ids = [4, 5, 6, 7];
    let history = vec![vec![1, 2], vec![], vec![3], vec![1, 2, 3]];
    let total: usize = count_page_tasks(&ids, &history);
    assert_eq!(total, 3 + 2 + 2 + 1 + 1 + 3);
    assert_eq!(page_tasks(&ids, &history).len(), total);
}

#[test]
fn empty_page_has_no_tasks() {
    assert_eq!(count_page_tasks(&[], &[]), 0);
    assert!(page_tasks(&[], &[]).is_empty());
}

#[test]
fn single_file_without_history_has_no_tasks() {
    assert_eq!(count_page_tasks(&[9], &[vec![]]), 0);
    assert!(page_tasks(&[9], &[vec![]]).is_empty());
}

#[test]
fn page_tasks_are_page_pairs_and_history_pairs_only() {
    let ids = [4, 5, 6];
    let history = vec![vec![1], vec![1, 2], vec![]];
    let tasks = page_tasks(&ids, &history);
    let mut expected = vec![(4, 5), (4, 6), (5, 6), (4, 1), (5, 1), (5, 2)];
    let mut got = tasks.clone();
    expected.sort();
    got.sort();
    assert_eq!(got, expected);
    assert_eq!(count_page_tasks(&ids, &history), tasks.len());
}
