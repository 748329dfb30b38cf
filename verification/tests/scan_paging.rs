use rune::paging::{HistoryPager, PageCursor, HISTORY_CAP, HISTORY_PAGE_SIZE};

#[test]
fn history_reading_stops_at_cap() {
    let mut pager = HistoryPager::new();
    let mut offsets = Vec::new();
    while !pager.is_done() {
        offsets.push(pager.offset());
        let page: Vec<i32> = (0..pager.limit() as i32).collect();
        pager.accept(page);
    }
    assert_eq!(offsets, (0..10).map(|p| p * HISTORY_PAGE_SIZE).collect::<Vec<u64>>());
    assert_eq!(pager.into_ids().len() as u64, HISTORY_CAP);
}

#[test]
fn empty_history_page_ends_reading() {
    let mut pager = HistoryPager::new();
    pager.accept(vec![1, 2, 3]);
    assert!(!pager.is_done());
    assert_eq!(pager.offset(), 1000);
    pager.accept(Vec::new());
    assert!(pager.is_done());
    assert_eq!(pager.into_ids(), vec![1, 2, 3]);
}

#[test]
fn first_empty_page_gives_no_history() {
    let mut pager = HistoryPager::new();
    assert_eq!(pager.offset(), 0);
    pager.accept(Vec::new());
    assert!(pager.is_done());
    assert!(pager.into_ids().is_empty());
}

#[test]
fn cursor_moves_to_last_id_of_page() {
    let mut cursor = PageCursor::new();
    assert_eq!(cursor.last_id, 0);
    assert!(cursor.advance(&[3, 5, 9]));
    assert_eq!(cursor.last_id, 9);
    assert!(!cursor.advance(&[]));
    assert_eq!(cursor.last_id, 9);
}

#[test]
fn history_read_in_pages_is_the_list_prefix() {
    let all: Vec<i32> = (0..2500).collect();
    let mut pager = HistoryPager::new();
    while !pager.is_done() {
        let start: usize = (pager.offset() as usize).min(all.len());
        let end: usize = (start + pager.limit() as usize).min(all.len());
        pager.accept(all[start..end].to_vec());
    }
    assert_eq!(pager.into_ids(), all);
}

#[test]
fn long_history_is_cut_at_the_cap() {
    let all: Vec<i32> = (0..12345).collect();
    let mut pager = HistoryPager::new();
    while !pager.is_done() {
        let start: usize = (pager.offset() as usize).min(all.len());
        let end: usize = (start + pager.limit() as usize).min(all.len());
        pager.accept(all[start..end].to_vec());
    }
    assert_eq!(pager.into_ids(), all[..HISTORY_CAP as usize].to_vec());
}

#[test]
fn cursor_walk_visits_consecutive_runs() {
    let ids = vec![2, 3, 5, 8, 13, 21, 34];
    let mut cursor = PageCursor::new();
    let mut seen = Vec::new();
    loop {
        let page: Vec<i32> = ids.iter().copied().filter(|&x| x > cursor.last_id).take(3).collect();
        if !cursor.advance(&page) {
            break;
        }
        seen.extend(page);
    }
    assert_eq!(seen, ids);
}
