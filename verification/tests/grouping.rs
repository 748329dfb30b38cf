use rune::similarity::group_similar_files;

fn normalized(mut groups: Vec<Vec<i32>>) -> Vec<Vec<i32>> {
    for g in groups.iter_mut() {
        g.sort();
    }
    groups.sort();
    groups
}

#[test]
fn groups_connected_components() {
    let pairs = [(1, 2), (2, 3), (4, 5)];
    let groups = normalized(group_similar_files(&pairs));
    assert_eq!(groups, vec![vec![1, 2, 3], vec![4, 5]]);
}

#[test]
fn no_pairs_no_groups() {
    assert!(group_similar_files(&[]).is_empty());
}

#[test]
fn file_similar_only_to_itself_forms_no_group() {
    let pairs = [(6, 6), (7, 8)];
    let groups = normalized(group_similar_files(&pairs));
    assert_eq!(groups, vec![vec![7, 8]]);
}

#[test]
fn repeated_and_reversed_pairs_do_not_repeat_files() {
    let pairs = [(1, 2), (2, 1), (1, 2), (3, 1), (3, 3)];
    let groups = normalized(group_similar_files(&pairs));
    assert_eq!(groups, vec![vec![1, 2, 3]]);
}

#[test]
fn linked_files_share_one_group() {
    let pairs = [(10, 20), (30, 40), (20, 50), (60, 30), (70, 80)];
    let groups = group_similar_files(&pairs);
    for &(a, b) in pairs.iter() {
        let holding: Vec<&Vec<i32>> = groups.iter().filter(|g| g.contains(&a)).collect();
        assert_eq!(holding.len(), 1);
        assert!(holding[0].contains(&b));
    }
    let total: usize = groups.iter().map(|g| g.len()).sum();
    assert_eq!(total, 8);
}

#[test]
fn chain_of_pairs_is_one_group() {
    let pairs: Vec<(i32, i32)> = (0..50).map(|i| (i, i + 1)).collect();
    let groups = normalized(group_similar_files(&pairs));
    assert_eq!(groups, vec![(0..=50).collect::<Vec<i32>>()]);
}

fn marks(groups: &[Vec<i32>]) -> usize {
    groups.iter().map(|g| g.len() - 1).sum()
}

#[test]
fn marks_number_linked_files_less_groups() {
    let pairs = [(1, 2), (2, 3), (4, 5), (6, 6), (3, 1)];
    let groups = group_similar_files(&pairs);
    // Linked files: 1, 2, 3, 4, 5; two groups.
    assert_eq!(groups.len(), 2);
    assert_eq!(marks(&groups), 5 - 2);
}

#[test]
fn dropping_pairs_never_adds_marks() {
    let all = [(1, 2), (2, 3), (3, 4), (5, 6), (6, 7)];
    let kept = [(1, 2), (3, 4), (6, 7)];
    let all_marks = marks(&group_similar_files(&all));
    let kept_marks = marks(&group_similar_files(&kept));
    assert_eq!(all_marks, 5);
    assert_eq!(kept_marks, 3);
    assert!(kept_marks <= all_marks);
}
