use bible_reader::navigation::{NavigationHistory, Navigator, ReadingPosition};

fn pos(version: &str, book: i32, chapter: &str) -> ReadingPosition {
    ReadingPosition::new(version.to_string(), book, chapter.to_string())
}

#[test]
fn record_same_position_twice_keeps_one_entry() {
    let mut h = NavigationHistory::new();
    h.record_current(pos("和合本.sqlite3", 1, "1"));
    h.record_current(pos("和合本.sqlite3", 1, "1"));
    assert_eq!(h.back_len(), 1);
    assert_eq!(h.forward_len(), 0);
}

#[test]
fn record_never_stacks_adjacent_repeats() {
    let mut h = NavigationHistory::new();
    let seq = [("a", 1, "1"), ("a", 1, "1"), ("a", 1, "2"), ("a", 1, "2"), ("b", 1, "2"), ("a", 1, "1")];
    for (v, b, c) in seq {
        h.record_current(pos(v, b, c));
    }
    assert_eq!(h.back_len(), 4);
    let mut popped = Vec::new();
    while let Some(p) = h.jump_back(None) {
        popped.push(p);
    }
    for w in popped.windows(2) {
        assert_ne!(w[0], w[1]);
    }
}

#[test]
fn record_clears_forward() {
    let mut h = NavigationHistory::new();
    h.record_current(pos("a", 1, "1"));
    let back = h.jump_back(Some(pos("a", 1, "2")));
    assert_eq!(back, Some(pos("a", 1, "1")));
    assert_eq!(h.forward_len(), 1);
    h.record_current(pos("a", 1, "1"));
    assert_eq!(h.forward_len(), 0);
}

#[test]
fn back_then_forward_restores_position_and_stacks() {
    let mut h = NavigationHistory::new();
    h.record_current(pos("a", 1, "1"));
    h.record_current(pos("a", 2, "3"));
    let current = pos("a", 5, "7");
    let (b0, f0) = (h.back_len(), h.forward_len());
    let prev = h.jump_back(Some(current.clone())).unwrap();
    assert_eq!(prev, pos("a", 2, "3"));
    let again = h.jump_forward(Some(prev)).unwrap();
    assert_eq!(again, current);
    assert_eq!((h.back_len(), h.forward_len()), (b0, f0));
}

#[test]
fn back_on_empty_history_is_a_no_op() {
    let mut h = NavigationHistory::new();
    assert_eq!(h.jump_back(Some(pos("a", 1, "1"))), None);
    assert_eq!(h.back_len(), 0);
    assert_eq!(h.forward_len(), 0);
}

#[test]
fn forward_on_empty_history_is_a_no_op() {
    let mut h = NavigationHistory::new();
    h.record_current(pos("a", 1, "1"));
    assert_eq!(h.jump_forward(Some(pos("a", 1, "2"))), None);
    assert_eq!(h.back_len(), 1);
}

#[test]
fn navigator_moves_and_steps() {
    let mut n = Navigator::new();
    n.go_to(pos("a", 1, "1"));
    assert_eq!(n.history.back_len(), 0);
    n.go_to(pos("a", 1, "2"));
    n.go_to(pos("b", 3, "4"));
    assert_eq!(n.history.back_len(), 2);
    assert!(n.back());
    assert_eq!(n.current, Some(pos("a", 1, "2")));
    assert!(n.back());
    assert_eq!(n.current, Some(pos("a", 1, "1")));
    assert!(!n.back());
    assert_eq!(n.current, Some(pos("a", 1, "1")));
    assert!(n.forward());
    assert!(n.forward());
    assert_eq!(n.current, Some(pos("b", 3, "4")));
    assert!(!n.forward());
}

#[test]
fn same_as_compares_all_three_fields() {
    assert!(pos("a", 1, "1").same_as(&pos("a", 1, "1")));
    assert!(!pos("a", 1, "1").same_as(&pos("b", 1, "1")));
    assert!(!pos("a", 1, "1").same_as(&pos("a", 2, "1")));
    assert!(!pos("a", 1, "1").same_as(&pos("a", 1, "2")));
}

#[test]
fn picking_a_book_shows_its_first_chapter() {
    let mut n = Navigator::new();
    n.go_to(pos("v", 1, "3"));
    let chapters: Vec<String> = vec!["0".to_string(), "1".to_string()];
    assert_eq!(n.pick_book("v", 2, &chapters), Some("0".to_string()));
    assert_eq!(n.current, Some(pos("v", 2, "0")));
    assert_eq!(n.history.back_len(), 1);
    assert_eq!(n.pick_book("v", 3, &Vec::new()), None);
    assert_eq!(n.current, None);
    assert_eq!(n.history.back_len(), 2);
}

#[test]
fn switching_version_keeps_the_chapter_where_it_can() {
    let mut n = Navigator::new();
    n.go_to(pos("a", 1, "3"));
    let chapters: Vec<String> = vec!["1".to_string(), "2".to_string(), "3".to_string()];
    assert_eq!(n.switch_version("b", Some(1), &chapters), Some("3".to_string()));
    assert_eq!(n.current, Some(pos("b", 1, "3")));
    let fewer: Vec<String> = vec!["1".to_string()];
    assert_eq!(n.switch_version("c", Some(1), &fewer), Some("1".to_string()));
    assert_eq!(n.current, Some(pos("c", 1, "1")));
    assert_eq!(n.switch_version("d", None, &fewer), None);
    assert_eq!(n.current, None);
    assert_eq!(n.history.back_len(), 3);
    assert!(n.back());
    assert_eq!(n.current, Some(pos("c", 1, "1")));
}
