use hourus::history::{HistoryList, StringHistoryList};

fn to_strs(h: &StringHistoryList) -> Vec<&str> {
    h.str_iter()
}

// --- Generic behaviour ---------------------------------------------------

#[test]
fn index_access() {
    let h: StringHistoryList = HistoryList::from_strs(&["a", "b", "c"]);
    // pushes a, b, c → order is c (0), b (1), a (2)
    assert_eq!(h.index(0), "c");
    assert_eq!(h.index(1), "b");
    assert_eq!(h.index(2), "a");
}

#[test]
fn index_after_move_to_front() {
    let mut h = StringHistoryList::new();
    h.push_str("a");
    h.push_str("b");
    h.push_str("c");
    h.push_str("a"); // moves "a" to front
    assert_eq!(h.index(0), "a");
    assert_eq!(h.index(1), "c");
    assert_eq!(h.index(2), "b");
}

#[test]
fn push_and_order() {
    let mut h = StringHistoryList::new();
    h.push_str("a");
    h.push_str("b");
    h.push_str("c");
    assert_eq!(to_strs(&h), vec!["c", "b", "a"]);
    assert_eq!(h.len(), 3);
}

#[test]
fn duplicate_moves_to_front() {
    let mut h = StringHistoryList::new();
    h.push_str("a");
    h.push_str("b");
    h.push_str("c");
    h.push_str("a");
    assert_eq!(to_strs(&h), vec!["a", "c", "b"]);
    assert_eq!(h.len(), 3);
}

#[test]
fn duplicate_of_head_is_noop() {
    let mut h = StringHistoryList::new();
    h.push_str("a");
    h.push_str("b");
    h.push_str("b");
    assert_eq!(to_strs(&h), vec!["b", "a"]);
    assert_eq!(h.len(), 2);
}

#[test]
fn remove_str() {
    let mut h = StringHistoryList::new();
    h.push_str("a");
    h.push_str("b");
    h.push_str("c");
    assert!(h.remove_str("b"));
    assert_eq!(to_strs(&h), vec!["c", "a"]);
    assert_eq!(h.len(), 2);
    assert!(!h.remove_str("b"));
}

#[test]
fn remove_head_and_tail() {
    let mut h = StringHistoryList::new();
    h.push_str("a");
    h.push_str("b");
    h.push_str("c");
    h.remove_str("c");
    assert_eq!(to_strs(&h), vec!["b", "a"]);
    h.remove_str("a");
    assert_eq!(to_strs(&h), vec!["b"]);
    h.remove_str("b");
    assert!(h.is_empty());
}

#[test]
fn contains_and_get_str() {
    let mut h = StringHistoryList::new();
    h.push_str("hello");
    assert!(h.contains_str("hello"));
    assert!(!h.contains_str("world"));
    assert_eq!(h.get_str("hello"), Some("hello"));
    assert_eq!(h.get_str("world"), None);
}

// --- Building from a sequence ---------------------------------------------

#[test]
fn from_iter_str_slices() {
    let h: StringHistoryList = HistoryList::from_strs(&["a", "b", "c"]);
    assert_eq!(to_strs(&h), vec!["c", "b", "a"]);
}

#[test]
fn from_iter_strings() {
    let input = vec!["x".to_string(), "y".to_string(), "z".to_string()];
    let h: StringHistoryList = HistoryList::from_strings(input);
    assert_eq!(to_strs(&h), vec!["z", "y", "x"]);
}

#[test]
fn from_iter_deduplicates() {
    let h: StringHistoryList = HistoryList::from_strs(&["a", "b", "c", "b"]);
    assert_eq!(to_strs(&h), vec!["b", "c", "a"]);
    assert_eq!(h.len(), 3);
}

#[test]
fn from_iter_empty() {
    let h: StringHistoryList = HistoryList::from_strs(&[]);
    assert!(h.is_empty());
}

#[test]
fn from_iter_all_duplicates() {
    let h: StringHistoryList = HistoryList::from_strs(&["x", "x", "x"]);
    assert_eq!(to_strs(&h), vec!["x"]);
    assert_eq!(h.len(), 1);
}

// --- Arena slot reuse ------------------------------------------------------

#[test]
fn slot_reuse() {
    let mut h = StringHistoryList::new();
    h.push_str("a");
    h.push_str("b");
    h.remove_str("a");
    h.push_str("c");
    assert_eq!(to_strs(&h), vec!["c", "b"]);
    assert_eq!(h.slot_count(), 2);
}

// --- Re-inserting keeps the stored entry ----------------------------------

#[test]
fn rc_reuse_on_move_to_front() {
    let mut h = StringHistoryList::new();
    h.push_str("shared");
    let before = h.iter().next().unwrap().clone();
    h.push_str("shared"); // move to front — must reuse the existing entry
    let after = h.iter().next().unwrap().clone();
    // Same stored entry: no new node was allocated for the string.
    assert_eq!(before, after);
    assert_eq!(h.slot_count(), 1);
    assert_eq!(h.len(), 1);
}

// --- Further cases ----------------------------------------------------------

#[test]
fn push_front_and_generic_lookups() {
    let mut h = StringHistoryList::new();
    h.push_front("one".to_string());
    h.push_front("two".to_string());
    assert!(h.contains(&"one".to_string()));
    assert_eq!(h.get(&"two".to_string()).map(|s| s.as_str()), Some("two"));
    assert!(h.remove(&"one".to_string()));
    assert!(!h.contains(&"one".to_string()));
    assert_eq!(h.len(), 1);
}

#[test]
fn iterator_walks_newest_to_oldest() {
    let h = HistoryList::from_strs(&["p", "q", "r"]);
    let mut it = h.iter();
    assert_eq!(it.next().map(|s| s.as_str()), Some("r"));
    assert_eq!(it.next().map(|s| s.as_str()), Some("q"));
    assert_eq!(it.next().map(|s| s.as_str()), Some("p"));
    assert_eq!(it.next(), None);
}

#[test]
fn push_after_remove_undoes_nothing_else() {
    // removing a pushed value leaves what removing it alone would leave
    let mut a = HistoryList::from_strs(&["a", "b", "c"]);
    a.push_str("b");
    a.remove_str("b");
    let mut b = HistoryList::from_strs(&["a", "b", "c"]);
    b.remove_str("b");
    assert_eq!(a.str_iter(), b.str_iter());
}

#[test]
fn default_is_empty() {
    let h: StringHistoryList = Default::default();
    assert!(h.is_empty());
    assert_eq!(h.slot_count(), 0);
}
