use comic_reader::layout::{pair_at, ReadingDirection};
use comic_reader::manifest::{reading_direction, usable_standalone};

#[test]
fn only_rtl_reads_right_to_left() {
    assert_eq!(reading_direction(b"rtl"), ReadingDirection::RightToLeft);
    assert_eq!(reading_direction(b"ltr"), ReadingDirection::LeftToRight);
    assert_eq!(reading_direction(b""), ReadingDirection::LeftToRight);
    assert_eq!(reading_direction(b"RTL"), ReadingDirection::LeftToRight);
    assert_eq!(reading_direction(b"rtl "), ReadingDirection::LeftToRight);
    assert_eq!(reading_direction(b"sideways"), ReadingDirection::LeftToRight);
}

#[test]
fn indices_beyond_the_archive_and_repeats_are_dropped() {
    assert_eq!(usable_standalone(&vec![3, 0, 3, 10, 9, 0, 4], 10), vec![3, 0, 9, 4]);
    assert!(usable_standalone(&vec![5, 6], 5).is_empty());
    assert!(usable_standalone(&Vec::new(), 5).is_empty());
}

#[test]
fn unusable_indices_change_no_pair() {
    let raw = vec![2, 40, 2, 7];
    let usable = usable_standalone(&raw, 8);
    for page in 0..10usize {
        assert_eq!(pair_at(page, 8, &raw), pair_at(page, 8, &usable));
    }
}
