use rune::listing::{layout_columns, name_widths};

#[test]
fn widths_count_terminal_columns() {
    let names = vec!["abc".to_string(), "日本".to_string(), "".to_string()];
    assert_eq!(name_widths(&names), vec![3, 4, 0]);
}

#[test]
fn names_fill_columns_then_wrap() {
    let layout = layout_columns(&[3, 4, 1, 2], 20);
    assert_eq!(layout.column_width, 6);
    assert_eq!(layout.columns, 3);
    assert_eq!(layout.padding, vec![3, 2, 5, 4]);
    assert_eq!(layout.line_breaks, vec![false, false, true, false]);
    assert!(layout.final_break);
}

#[test]
fn full_last_line_needs_no_extra_break() {
    let layout = layout_columns(&[1, 1], 6);
    assert_eq!(layout.column_width, 3);
    assert_eq!(layout.columns, 2);
    assert_eq!(layout.line_breaks, vec![false, true]);
    assert!(!layout.final_break);
}

#[test]
fn narrow_terminal_still_has_one_column() {
    let layout = layout_columns(&[10, 4], 5);
    assert_eq!(layout.column_width, 12);
    assert_eq!(layout.columns, 1);
    assert_eq!(layout.padding, vec![2, 8]);
    assert_eq!(layout.line_breaks, vec![true, true]);
    assert!(!layout.final_break);
}

#[test]
fn empty_listing() {
    let layout = layout_columns(&[], 80);
    assert_eq!(layout.column_width, 2);
    assert_eq!(layout.columns, 40);
    assert!(layout.padding.is_empty());
    assert!(!layout.final_break);
}

#[test]
fn names_sort_by_bytes_keeping_equal_names_in_order() {
    let names: Vec<String> = ["b", "a", "B", "a"].iter().map(|s| s.to_string()).collect();
    assert_eq!(rune::listing::name_order(&names), vec![2, 1, 3, 0]);
}

#[test]
fn non_ascii_names_sort_after_ascii() {
    let names: Vec<String> = ["é", "z", "ab", "a"].iter().map(|s| s.to_string()).collect();
    assert_eq!(rune::listing::name_order(&names), vec![3, 2, 1, 0]);
}

#[test]
fn empty_name_list_sorts_to_nothing() {
    assert!(rune::listing::name_order(&[]).is_empty());
}
