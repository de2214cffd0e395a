use comic_reader::layout::{DualKey, Layout};
use comic_reader::page::DecodedPage;
use comic_reader::spread_cache::SpreadCache;
use comic_reader::texture::{Invalidation, Texture, TextureCache, TextureKey};

fn single(page: usize, bucket: u32) -> TextureKey {
    TextureKey::Single { page, bucket }
}

fn dual(left: usize, right: Option<usize>, bucket: u32) -> TextureKey {
    TextureKey::Dual { pages: DualKey { left, right }, bucket }
}

fn texture(id: u64) -> Texture {
    Texture { id, width: 10, height: 20 }
}

fn spread(value: u8) -> DecodedPage {
    DecodedPage::from_rgba(1, 1, vec![value; 4]).unwrap()
}

#[test]
fn spread_cache_keeps_the_most_recent_in_front() {
    let mut cache = SpreadCache::new(3);
    let a = DualKey { left: 0, right: Some(1) };
    let b = DualKey { left: 2, right: Some(3) };
    let c = DualKey { left: 4, right: None };
    cache.put(a, spread(10));
    cache.put(b, spread(20));
    cache.put(c, spread(30));
    assert_eq!(cache.len(), 3);
    assert_eq!(cache.keys(), vec![c, b, a]);
    assert!(cache.touch(a));
    assert_eq!(cache.keys(), vec![a, c, b]);
    assert_eq!(cache.peek(b).unwrap().pixels()[0], 20);
    assert_eq!(cache.keys(), vec![a, c, b]);
    assert!(!cache.touch(DualKey { left: 9, right: None }));
    assert_eq!(cache.keys(), vec![a, c, b]);
}

#[test]
fn spread_cache_pushes_out_the_least_recent() {
    let mut cache = SpreadCache::new(2);
    let a = DualKey { left: 0, right: Some(1) };
    let b = DualKey { left: 2, right: Some(3) };
    let c = DualKey { left: 4, right: None };
    cache.put(a, spread(10));
    cache.put(b, spread(20));
    cache.put(c, spread(30));
    assert_eq!(cache.keys(), vec![c, b]);
    assert!(cache.peek(a).is_none());
    // replacing pushes nothing out
    cache.put(b, spread(21));
    assert_eq!(cache.keys(), vec![b, c]);
    assert_eq!(cache.peek(b).unwrap().pixels()[0], 21);
    assert_eq!(cache.remove(c).unwrap().pixels()[0], 30);
    assert!(cache.remove(c).is_none());
    assert_eq!(cache.len(), 1);
    cache.clear();
    assert_eq!(cache.len(), 0);
    assert!(cache.keys().is_empty());
}

#[test]
fn texture_keys_compare_by_their_fields() {
    assert!(single(1, 4).same(&single(1, 4)));
    assert!(!single(1, 4).same(&single(1, 5)));
    assert!(!single(1, 4).same(&dual(1, None, 4)));
    assert!(dual(1, Some(2), 4).same(&dual(1, Some(2), 4)));
    assert!(!dual(1, Some(2), 4).same(&dual(2, Some(1), 4)));
}

#[test]
fn texture_keys_come_from_layout_and_pages() {
    let pages = DualKey { left: 4, right: Some(5) };
    assert_eq!(TextureKey::for_view(Layout::Single, pages, 4), single(4, 4));
    assert_eq!(TextureKey::for_view(Layout::Dual, pages, 4), dual(4, Some(5), 4));
}

#[test]
fn lookup_finds_what_was_stored() {
    let mut cache = TextureCache::new(4);
    assert!(cache.store(single(0, 4), texture(1)).is_empty());
    assert!(cache.store(dual(0, Some(1), 4), texture(2)).is_empty());
    assert_eq!(cache.len(), 2);
    assert_eq!(cache.lookup(single(0, 4)), Some(texture(1)));
    assert_eq!(cache.peek(dual(0, Some(1), 4)), Some(texture(2)));
    assert_eq!(cache.lookup(single(0, 5)), None);
    assert_eq!(cache.lookup(single(1, 4)), None);
    assert_eq!(cache.lookup(dual(0, None, 4)), None);
}

#[test]
fn a_full_texture_cache_releases_the_least_recently_used() {
    let mut cache = TextureCache::new(2);
    cache.store(single(0, 4), texture(1));
    cache.store(single(1, 4), texture(2));
    assert_eq!(cache.lookup(single(0, 4)), Some(texture(1)));
    assert_eq!(cache.store(single(2, 4), texture(3)), vec![2]);
    assert_eq!(cache.len(), 2);
    assert_eq!(cache.peek(single(1, 4)), None);
    assert_eq!(cache.peek(single(0, 4)), Some(texture(1)));
}

#[test]
fn storing_again_releases_the_old_texture() {
    let mut cache = TextureCache::new(2);
    cache.store(single(0, 4), texture(1));
    assert_eq!(cache.store(single(0, 4), texture(9)), vec![1]);
    assert_eq!(cache.len(), 1);
    assert_eq!(cache.peek(single(0, 4)), Some(texture(9)));
}

#[test]
fn texture_cache_never_grows_past_its_bound() {
    let mut cache = TextureCache::new(16);
    for i in 0..100usize {
        cache.store(single(i, (i % 3) as u32), texture(i as u64));
        assert!(cache.len() <= 16);
    }
    assert_eq!(cache.len(), 16);
}

#[test]
fn invalidation_by_layout_drops_that_layout() {
    let mut cache = TextureCache::new(8);
    cache.store(single(0, 4), texture(1));
    cache.store(dual(0, Some(1), 4), texture(2));
    cache.store(single(2, 4), texture(3));
    cache.store(dual(2, None, 4), texture(4));
    assert_eq!(cache.invalidate(Invalidation::OfLayout(Layout::Dual)), vec![4, 2]);
    assert_eq!(cache.len(), 2);
    assert_eq!(cache.peek(single(0, 4)), Some(texture(1)));
    assert_eq!(cache.peek(single(2, 4)), Some(texture(3)));
    assert_eq!(cache.invalidate(Invalidation::OfLayout(Layout::Single)), vec![3, 1]);
    assert_eq!(cache.len(), 0);
}

#[test]
fn invalidation_by_page_drops_what_shows_the_page() {
    let mut cache = TextureCache::new(8);
    cache.store(single(1, 4), texture(1));
    cache.store(dual(0, Some(1), 4), texture(2));
    cache.store(dual(1, Some(0), 4), texture(3));
    cache.store(single(2, 4), texture(4));
    cache.store(dual(2, Some(3), 4), texture(5));
    let mut released = cache.invalidate(Invalidation::OfPage(1));
    released.sort();
    assert_eq!(released, vec![1, 2, 3]);
    assert_eq!(cache.len(), 2);
}

#[test]
fn invalidation_by_bucket_keeps_the_current_rung() {
    let mut cache = TextureCache::new(8);
    cache.store(single(0, 4), texture(1));
    cache.store(single(0, 5), texture(2));
    cache.store(dual(0, Some(1), 3), texture(3));
    let mut released = cache.invalidate(Invalidation::NotOfBucket(4));
    released.sort();
    assert_eq!(released, vec![2, 3]);
    assert_eq!(cache.peek(single(0, 4)), Some(texture(1)));
    assert!(cache.invalidate(Invalidation::NotOfBucket(4)).is_empty());
}

#[test]
fn invalidating_all_and_clearing_release_everything() {
    let mut cache = TextureCache::new(8);
    cache.store(single(0, 4), texture(1));
    cache.store(single(1, 4), texture(2));
    assert_eq!(cache.invalidate(Invalidation::All), vec![2, 1]);
    assert_eq!(cache.len(), 0);
    cache.store(single(0, 4), texture(7));
    assert_eq!(cache.clear(), vec![7]);
    assert_eq!(cache.len(), 0);
}

#[test]
fn invalidation_says_what_it_hits() {
    assert!(Invalidation::All.matches(&single(0, 1)));
    assert!(Invalidation::OfLayout(Layout::Single).matches(&single(0, 1)));
    assert!(!Invalidation::OfLayout(Layout::Dual).matches(&single(0, 1)));
    assert!(Invalidation::OfPage(3).matches(&dual(2, Some(3), 1)));
    assert!(!Invalidation::OfPage(4).matches(&dual(2, Some(3), 1)));
    assert!(Invalidation::NotOfBucket(2).matches(&single(0, 1)));
    assert!(!Invalidation::NotOfBucket(1).matches(&single(0, 1)));
}

#[test]
fn a_change_of_marks_drops_what_shows_a_changed_page() {
    let mut cache = TextureCache::new(8);
    cache.store(single(1, 4), texture(1));
    cache.store(dual(0, Some(1), 4), texture(2));
    cache.store(dual(2, Some(3), 4), texture(3));
    cache.store(single(4, 4), texture(4));
    cache.store(dual(4, None, 4), texture(5));
    // the mark of page 1 is new, that of page 4 is gone, that of page 7 stays
    let mut released = cache.invalidate_remarked(&vec![4, 7], &vec![7, 1]);
    released.sort();
    assert_eq!(released, vec![1, 2, 4, 5]);
    assert_eq!(cache.len(), 1);
    assert_eq!(cache.peek(dual(2, Some(3), 4)), Some(texture(3)));
    assert!(cache.invalidate_remarked(&vec![7, 1], &vec![1, 7, 7]).is_empty());
    assert_eq!(cache.len(), 1);
}
