use rune::duplicates::select_duplicates;

#[test]
fn keeps_last_file_with_highest_sample_rate() {
    let files = [(10, 44100), (11, 48000), (12, 48000), (13, 22050)];
    let choice = select_duplicates(&files).unwrap();
    assert_eq!(choice.keep, 2);
    assert_eq!(choice.duplicates, vec![10, 11, 13]);
}

#[test]
fn no_files_no_choice() {
    assert!(select_duplicates(&[]).is_none());
}

#[test]
fn single_file_has_no_duplicates() {
    let choice = select_duplicates(&[(5, 96000)]).unwrap();
    assert_eq!(choice.keep, 0);
    assert!(choice.duplicates.is_empty());
}

#[test]
fn kept_id_is_never_marked() {
    let files = [(1, 10), (2, 30), (3, 20), (2, 5)];
    let choice = select_duplicates(&files).unwrap();
    assert_eq!(choice.keep, 1);
    assert_eq!(choice.duplicates, vec![1, 3]);
    assert!(!choice.duplicates.contains(&2));
}

#[test]
fn all_but_one_of_distinct_files_are_marked() {
    let files = [(7, 100), (8, 300), (9, 200), (10, 300), (11, 50)];
    let choice = select_duplicates(&files).unwrap();
    assert_eq!(choice.keep, 3);
    assert_eq!(choice.duplicates.len(), files.len() - 1);
    assert_eq!(choice.duplicates, vec![7, 8, 9, 11]);
}

#[test]
fn choices_over_groups_mark_all_but_one_per_group() {
    let groups = vec![
        vec![(1, 44100), (2, 48000), (3, 48000)],
        vec![(4, 22050), (5, 11025)],
    ];
    let total: usize = groups
        .iter()
        .map(|g| select_duplicates(g).unwrap().duplicates.len())
        .sum();
    assert_eq!(total, (3 - 1) + (2 - 1));
}

#[test]
fn marks_over_grouping_number_linked_files_less_groups() {
    let pairs = [(1, 2), (2, 3), (7, 8), (9, 9)];
    let groups = rune::similarity::group_similar_files(&pairs);
    let total: usize = groups
        .iter()
        .map(|g| {
            let files: Vec<(i32, i32)> = g.iter().map(|&id| (id, 44100 + id)).collect();
            select_duplicates(&files).unwrap().duplicates.len()
        })
        .sum();
    // Linked files 1, 2, 3, 7, 8 in two groups.
    assert_eq!(total, 5 - 2);
}
