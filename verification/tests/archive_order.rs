use comic_reader::archive_order::{canonical_order, lex_less, same_bytes};

fn names(list: &[&str]) -> Vec<Vec<u8>> {
    list.iter().map(|n| n.as_bytes().to_vec()).collect()
}

#[test]
fn byte_order_compares_at_the_first_difference() {
    assert!(lex_less(b"a", b"b"));
    assert!(!lex_less(b"b", b"a"));
    assert!(lex_less(b"page1", b"page10"));
    assert!(lex_less(b"page10", b"page9"));
    assert!(lex_less(b"", b"a"));
    assert!(!lex_less(b"a", b""));
    assert!(!lex_less(b"same", b"same"));
    assert!(!lex_less(b"", b""));
    assert!(lex_less(b"A", b"a"));
}

#[test]
fn names_are_the_same_byte_by_byte() {
    assert!(same_bytes(b"page", b"page"));
    assert!(!same_bytes(b"page", b"pagf"));
    assert!(!same_bytes(b"page", b"pag"));
    assert!(same_bytes(b"", b""));
}

#[test]
fn without_a_manifest_pages_come_by_name() {
    assert_eq!(canonical_order(&names(&["10", "9", "1"]), &Vec::new()), vec![2, 0, 1]);
    assert_eq!(canonical_order(&names(&["c", "b", "a"]), &Vec::new()), vec![2, 1, 0]);
    assert!(canonical_order(&Vec::new(), &names(&["a"])).is_empty());
}

#[test]
fn entries_of_one_name_keep_their_places() {
    assert_eq!(canonical_order(&names(&["b", "a", "b", "a"]), &Vec::new()), vec![1, 3, 0, 2]);
}

#[test]
fn listed_pages_come_first_as_listed() {
    let entries = names(&["b.png", "a.png", "c.png", "a.png"]);
    let listed = names(&["c.png", "missing.png", "a.png"]);
    assert_eq!(canonical_order(&entries, &listed), vec![2, 1, 3, 0]);
}

#[test]
fn a_name_listed_again_takes_the_next_entry_of_that_name() {
    let entries = names(&["a", "x", "a"]);
    let listed = names(&["a", "a", "a"]);
    assert_eq!(canonical_order(&entries, &listed), vec![0, 2, 1]);
}

#[test]
fn every_entry_has_one_place() {
    let entries = names(&["p7", "p3", "p3", "cover", "p1", "back", "p2"]);
    let listed = names(&["cover", "p1", "nothing", "p3"]);
    let mut order = canonical_order(&entries, &listed);
    assert_eq!(&order[0..3], &[3, 4, 1]);
    assert_eq!(&order[3..], &[5, 6, 2, 0]);
    order.sort();
    assert_eq!(order, vec![0, 1, 2, 3, 4, 5, 6]);
}
