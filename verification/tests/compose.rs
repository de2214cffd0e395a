use comic_reader::compose::{compose, fits};
use comic_reader::page::DecodedPage;

fn solid(width: u32, height: u32, colour: [u8; 4]) -> DecodedPage {
    let mut pixels = Vec::new();
    for _ in 0..(width as usize) * (height as usize) {
        pixels.extend_from_slice(&colour);
    }
    DecodedPage::from_rgba(width, height, pixels).unwrap()
}

fn pixel(page: &DecodedPage, x: u32, y: u32) -> [u8; 4] {
    let at = 4 * ((y as usize) * (page.width() as usize) + x as usize);
    let p = page.pixels();
    [p[at], p[at + 1], p[at + 2], p[at + 3]]
}

const RED: [u8; 4] = [255, 0, 0, 255];
const BLUE: [u8; 4] = [0, 0, 255, 255];
const CLEAR: [u8; 4] = [0, 0, 0, 0];

#[test]
fn spread_is_as_wide_as_both_and_as_high_as_the_higher() {
    let spread = compose(&solid(2, 3, RED), &solid(3, 5, BLUE)).unwrap();
    assert_eq!(spread.width(), 5);
    assert_eq!(spread.height(), 5);
    assert_eq!(spread.pixels().len(), 100);
    assert!(!spread.is_animated());
}

#[test]
fn pages_are_centred_on_a_transparent_canvas() {
    // the left page is 3 rows high on 5 rows: it starts at row 1
    let spread = compose(&solid(2, 3, RED), &solid(3, 5, BLUE)).unwrap();
    for x in 0..2 {
        assert_eq!(pixel(&spread, x, 0), CLEAR);
        assert_eq!(pixel(&spread, x, 1), RED);
        assert_eq!(pixel(&spread, x, 3), RED);
        assert_eq!(pixel(&spread, x, 4), CLEAR);
    }
    for x in 2..5 {
        for y in 0..5 {
            assert_eq!(pixel(&spread, x, y), BLUE);
        }
    }
}

#[test]
fn odd_padding_leaves_the_extra_row_below() {
    // 2 rows on 5 rows: (5 - 2) / 2 = 1 row above, 2 rows below
    let spread = compose(&solid(1, 5, RED), &solid(1, 2, BLUE)).unwrap();
    assert_eq!(pixel(&spread, 1, 0), CLEAR);
    assert_eq!(pixel(&spread, 1, 1), BLUE);
    assert_eq!(pixel(&spread, 1, 2), BLUE);
    assert_eq!(pixel(&spread, 1, 3), CLEAR);
    assert_eq!(pixel(&spread, 1, 4), CLEAR);
}

#[test]
fn each_pixel_comes_from_its_own_place() {
    let left = DecodedPage::from_rgba(2, 2, (0u8..16).collect()).unwrap();
    let right = DecodedPage::from_rgba(1, 2, (100u8..108).collect()).unwrap();
    let spread = compose(&left, &right).unwrap();
    assert_eq!(
        spread.pixels(),
        &vec![
            0, 1, 2, 3, 4, 5, 6, 7, 100, 101, 102, 103, //
            8, 9, 10, 11, 12, 13, 14, 15, 104, 105, 106, 107,
        ]
    );
}

#[test]
fn composing_twice_gives_the_same_bytes() {
    let left = solid(7, 4, RED);
    let right = solid(5, 9, BLUE);
    let once = compose(&left, &right).unwrap();
    let again = compose(&left, &right).unwrap();
    assert_eq!(once.pixels(), again.pixels());
    assert_eq!(once.width(), again.width());
    assert_eq!(once.height(), again.height());
}

#[test]
fn two_full_pages_make_a_double_wide_spread() {
    let a = solid(1000, 1500, RED);
    let b = solid(1000, 1500, BLUE);
    assert!(fits(&a, &b));
    let spread = compose(&a, &b).unwrap();
    assert_eq!(spread.width(), 2000);
    assert_eq!(spread.height(), 1500);
    assert_eq!(pixel(&spread, 0, 0), RED);
    assert_eq!(pixel(&spread, 999, 1499), RED);
    assert_eq!(pixel(&spread, 1000, 0), BLUE);
    assert_eq!(pixel(&spread, 1999, 1499), BLUE);
    // read from right to left, the second page lies on the left half
    let swapped = compose(&b, &a).unwrap();
    assert_eq!(pixel(&swapped, 0, 0), BLUE);
    assert_eq!(pixel(&swapped, 999, 750), BLUE);
    assert_eq!(pixel(&swapped, 1000, 750), RED);
}

#[test]
fn animated_pages_compose_by_their_still_image() {
    let frames = vec![
        comic_reader::page::Frame { pixels: RED.to_vec(), delay: (10, 1) },
        comic_reader::page::Frame { pixels: BLUE.to_vec(), delay: (10, 1) },
    ];
    let animated = DecodedPage::animated(1, 1, frames).unwrap();
    let spread = compose(&animated, &solid(1, 1, BLUE)).unwrap();
    assert_eq!(pixel(&spread, 0, 0), RED);
    assert_eq!(pixel(&spread, 1, 0), BLUE);
    assert!(!spread.is_animated());
}
