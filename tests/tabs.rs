use tabdock::buffers::{Buffers, TabKind};
use tabdock::cycle::next_active_tab;

fn two_tabs() -> Buffers {
    let mut b = Buffers::new();
    b.insert(String::from("Source"), TabKind::Listing(1600));
    b.insert(
        String::from("Disassembly"),
        TabKind::Source(String::from("line 1\nline 2\nline 3")),
    );
    b
}

#[test]
fn cycling_moves_to_next_tab() {
    assert_eq!(next_active_tab(0, 2), Some(1));
    assert_eq!(next_active_tab(1, 3), Some(2));
}

#[test]
fn cycling_wraps_after_last_tab() {
    assert_eq!(next_active_tab(1, 2), Some(0));
    assert_eq!(next_active_tab(0, 1), Some(0));
    assert_eq!(next_active_tab(usize::MAX - 1, usize::MAX), Some(0));
}

#[test]
fn cycling_every_index_is_successor_mod_count() {
    for n in 1usize..8 {
        for i in 0..n {
            assert_eq!(next_active_tab(i, n), Some((i + 1) % n));
        }
    }
}

#[test]
fn cycling_without_tabs_does_nothing() {
    assert_eq!(next_active_tab(0, 0), None);
    assert_eq!(next_active_tab(3, 0), None);
}

#[test]
fn cycling_from_index_past_end_starts_over() {
    assert_eq!(next_active_tab(5, 3), Some(0));
}

#[test]
fn new_buffers_are_empty() {
    let b = Buffers::new();
    assert_eq!(b.len(), 0);
    assert!(!b.contains(&String::from("Source")));
}

#[test]
fn multiple_tabs_reported_for_two() {
    assert!(two_tabs().has_multiple_tabs());
}

#[test]
fn single_tab_is_not_multiple() {
    let mut b = Buffers::new();
    b.insert(String::from("Only"), TabKind::Listing(1));
    assert!(!b.has_multiple_tabs());
}

#[test]
fn no_tabs_count_as_multiple() {
    assert!(Buffers::new().has_multiple_tabs());
}

#[test]
fn closing_one_of_two_removes_it() {
    let mut b = two_tabs();
    assert!(b.on_close(&String::from("Source")));
    assert_eq!(b.len(), 1);
    assert!(!b.contains(&String::from("Source")));
    assert!(b.contains(&String::from("Disassembly")));
    assert!(!b.has_multiple_tabs());
}

#[test]
fn closing_last_tab_is_refused() {
    let mut b = two_tabs();
    assert!(b.on_close(&String::from("Disassembly")));
    assert!(!b.on_close(&String::from("Source")));
    assert_eq!(b.len(), 1);
    assert!(b.contains(&String::from("Source")));
    assert_eq!(
        b.tab_label(&String::from("Source")),
        Some(String::from("1600"))
    );
}

#[test]
fn closing_unknown_title_keeps_tabs() {
    let mut b = two_tabs();
    assert!(b.on_close(&String::from("Missing")));
    assert_eq!(b.len(), 2);
}

#[test]
fn insert_same_title_replaces_content() {
    let mut b = two_tabs();
    b.insert(String::from("Source"), TabKind::Listing(7));
    assert_eq!(b.len(), 2);
    assert_eq!(b.tab_label(&String::from("Source")), Some(String::from("7")));
}

#[test]
fn labels_show_text_or_listing_number() {
    let b = two_tabs();
    assert_eq!(
        b.tab_label(&String::from("Disassembly")),
        Some(String::from("line 1\nline 2\nline 3"))
    );
    assert_eq!(
        b.tab_label(&String::from("Source")),
        Some(String::from("1600"))
    );
    assert_eq!(b.tab_label(&String::from("Missing")), None);
}

#[test]
fn listing_zero_reads_as_single_digit() {
    let mut b = Buffers::new();
    b.insert(String::from("Z"), TabKind::Listing(0));
    b.insert(String::from("M"), TabKind::Listing(usize::MAX));
    assert_eq!(b.tab_label(&String::from("Z")), Some(String::from("0")));
    assert_eq!(
        b.tab_label(&String::from("M")),
        Some(usize::MAX.to_string())
    );
}
