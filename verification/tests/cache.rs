use comic_reader::page::DecodedPage;
use comic_reader::page_cache::DecodedPageCache;

fn page_of(bytes: usize, value: u8) -> DecodedPage {
    // one row of `bytes / 4` pixels
    DecodedPage::from_rgba((bytes / 4) as u32, 1, vec![value; bytes]).unwrap()
}

#[test]
fn new_cache_is_empty() {
    let cache = DecodedPageCache::new(3, 1000);
    assert_eq!(cache.len(), 0);
    assert_eq!(cache.resident_bytes(), 0);
    assert_eq!(cache.max_entries(), 3);
    assert_eq!(cache.max_bytes(), 1000);
    assert!(!cache.contains(0));
    assert!(cache.keys().is_empty());
}

#[test]
fn insert_puts_the_page_in_front() {
    let mut cache = DecodedPageCache::new(3, 1000);
    cache.insert(5, page_of(40, 1));
    cache.insert(6, page_of(80, 2));
    assert_eq!(cache.keys(), vec![6, 5]);
    assert_eq!(cache.resident_bytes(), 120);
    assert_eq!(cache.peek(5).unwrap().pixels()[0], 1);
    assert_eq!(cache.peek(6).unwrap().pixels()[0], 2);
}

#[test]
fn get_moves_the_page_to_the_front_and_peek_does_not() {
    let mut cache = DecodedPageCache::new(3, 1000);
    cache.insert(1, page_of(4, 1));
    cache.insert(2, page_of(4, 2));
    cache.insert(3, page_of(4, 3));
    assert_eq!(cache.keys(), vec![3, 2, 1]);
    assert!(cache.peek(1).is_some());
    assert_eq!(cache.keys(), vec![3, 2, 1]);
    assert_eq!(cache.get(1).unwrap().pixels()[0], 1);
    assert_eq!(cache.keys(), vec![1, 3, 2]);
    assert!(cache.get(9).is_none());
    assert_eq!(cache.keys(), vec![1, 3, 2]);
}

#[test]
fn the_entry_budget_evicts_the_least_recently_used() {
    let mut cache = DecodedPageCache::new(2, 1000);
    cache.insert(1, page_of(4, 1));
    cache.insert(2, page_of(4, 2));
    assert!(cache.get(1).is_some());
    cache.insert(3, page_of(4, 3));
    assert_eq!(cache.keys(), vec![3, 1]);
    assert!(!cache.contains(2));
    assert_eq!(cache.resident_bytes(), 8);
}

#[test]
fn the_byte_budget_evicts_until_the_page_fits() {
    let mut cache = DecodedPageCache::new(10, 100);
    cache.insert(1, page_of(40, 1));
    cache.insert(2, page_of(40, 2));
    // 40 + 40 + 40 > 100: the oldest leaves
    cache.insert(3, page_of(40, 3));
    assert_eq!(cache.keys(), vec![3, 2]);
    assert_eq!(cache.resident_bytes(), 80);
    // 80 + 80 > 100, 40 + 80 > 100: both leave
    cache.insert(4, page_of(80, 4));
    assert_eq!(cache.keys(), vec![4]);
    assert_eq!(cache.resident_bytes(), 80);
}

#[test]
fn an_oversized_page_is_kept_alone() {
    let mut cache = DecodedPageCache::new(10, 100);
    cache.insert(1, page_of(40, 1));
    cache.insert(2, page_of(40, 2));
    cache.insert(3, page_of(400, 3));
    assert_eq!(cache.keys(), vec![3]);
    assert_eq!(cache.resident_bytes(), 400);
    assert_eq!(cache.get(3).unwrap().byte_size(), 400);
    // the next page that fits pushes it out
    cache.insert(4, page_of(40, 4));
    assert_eq!(cache.keys(), vec![4]);
    assert_eq!(cache.resident_bytes(), 40);
}

#[test]
fn inserting_again_replaces_the_page() {
    let mut cache = DecodedPageCache::new(3, 1000);
    cache.insert(1, page_of(40, 1));
    cache.insert(2, page_of(40, 2));
    cache.insert(1, page_of(80, 9));
    assert_eq!(cache.keys(), vec![1, 2]);
    assert_eq!(cache.len(), 2);
    assert_eq!(cache.resident_bytes(), 120);
    assert_eq!(cache.peek(1).unwrap().pixels()[0], 9);
}

#[test]
fn the_inserted_page_is_never_evicted() {
    let mut cache = DecodedPageCache::new(1, 10);
    for i in 0..20usize {
        cache.insert(i, page_of(40, i as u8));
        assert!(cache.contains(i));
        assert_eq!(cache.len(), 1);
    }
}

#[test]
fn many_gets_keep_both_budgets() {
    let mut cache = DecodedPageCache::new(4, 200);
    for i in 0..10usize {
        cache.insert(i, page_of(40 + 4 * (i % 3), i as u8));
    }
    let bytes = cache.resident_bytes();
    let len = cache.len();
    assert!(len <= 4);
    assert!(bytes <= 200);
    for round in 0..100usize {
        let _ = cache.get(round % 12);
        assert_eq!(cache.len(), len);
        assert_eq!(cache.resident_bytes(), bytes);
    }
}

#[test]
fn remove_and_clear_forget_pages() {
    let mut cache = DecodedPageCache::new(3, 1000);
    cache.insert(1, page_of(40, 1));
    cache.insert(2, page_of(80, 2));
    let gone = cache.remove(1).unwrap();
    assert_eq!(gone.byte_size(), 40);
    assert!(cache.remove(1).is_none());
    assert_eq!(cache.keys(), vec![2]);
    assert_eq!(cache.resident_bytes(), 80);
    cache.clear();
    assert_eq!(cache.len(), 0);
    assert_eq!(cache.resident_bytes(), 0);
    assert!(!cache.contains(2));
}
