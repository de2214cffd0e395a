use comic_reader::page::{rgba_size, DecodedPage, Frame};

fn solid(width: u32, height: u32, value: u8) -> DecodedPage {
    let len = (width as usize) * (height as usize) * 4;
    DecodedPage::from_rgba(width, height, vec![value; len]).unwrap()
}

#[test]
fn rgba_size_is_four_bytes_per_pixel() {
    assert_eq!(rgba_size(3, 5), Some(60));
    assert_eq!(rgba_size(0, 5), Some(0));
    assert_eq!(rgba_size(1000, 1500), Some(6_000_000));
}

#[test]
fn rgba_size_refuses_what_no_usize_holds() {
    assert_eq!(rgba_size(u32::MAX, u32::MAX), None);
}

#[test]
fn still_page_keeps_its_buffer() {
    let page = DecodedPage::from_rgba(2, 1, vec![1, 2, 3, 4, 5, 6, 7, 8]).unwrap();
    assert_eq!(page.width(), 2);
    assert_eq!(page.height(), 1);
    assert_eq!(page.pixels(), &vec![1, 2, 3, 4, 5, 6, 7, 8]);
    assert!(!page.is_animated());
    assert_eq!(page.frame_count(), 0);
    assert_eq!(page.byte_size(), 8);
}

#[test]
fn still_page_needs_positive_dimensions() {
    assert!(DecodedPage::from_rgba(0, 1, vec![]).is_none());
    assert!(DecodedPage::from_rgba(1, 0, vec![]).is_none());
}

#[test]
fn still_page_needs_a_buffer_of_its_size() {
    assert!(DecodedPage::from_rgba(2, 2, vec![0; 15]).is_none());
    assert!(DecodedPage::from_rgba(2, 2, vec![0; 17]).is_none());
    assert!(DecodedPage::from_rgba(2, 2, vec![0; 16]).is_some());
}

#[test]
fn animated_page_shows_its_first_frame() {
    let frames = vec![
        Frame { pixels: vec![9; 4], delay: (100, 1) },
        Frame { pixels: vec![7; 4], delay: (50, 2) },
    ];
    let page = DecodedPage::animated(1, 1, frames).unwrap();
    assert!(page.is_animated());
    assert_eq!(page.frame_count(), 2);
    assert_eq!(page.pixels(), &vec![9; 4]);
    assert_eq!(page.frame(1).pixels, vec![7; 4]);
    assert_eq!(page.frame(0).delay_ms(), 100);
    assert_eq!(page.frame(1).delay_ms(), 25);
    assert_eq!(page.byte_size(), 12);
}

#[test]
fn animated_page_needs_frames_of_one_size() {
    let frames = vec![
        Frame { pixels: vec![9; 4], delay: (100, 1) },
        Frame { pixels: vec![7; 8], delay: (100, 1) },
    ];
    assert!(DecodedPage::animated(1, 1, frames).is_none());
    assert!(DecodedPage::animated(1, 1, Vec::new()).is_none());
}

#[test]
fn delay_without_denominator_is_none() {
    let frame = Frame { pixels: vec![0; 4], delay: (70, 0) };
    assert_eq!(frame.delay_ms(), 0);
}

#[test]
fn solid_pages_have_the_expected_size() {
    let page = solid(4, 3, 200);
    assert_eq!(page.byte_size(), 48);
    assert_eq!(page.pixels()[47], 200);
}

#[test]
fn animation_starts_over_after_its_last_frame() {
    let frames = vec![
        Frame { pixels: vec![1; 4], delay: (100, 1) },
        Frame { pixels: vec![2; 4], delay: (50, 1) },
        Frame { pixels: vec![3; 4], delay: (150, 1) },
    ];
    let page = DecodedPage::animated(1, 1, frames).unwrap();
    assert_eq!(page.frame_at(0), 0);
    assert_eq!(page.frame_at(99), 0);
    assert_eq!(page.frame_at(100), 1);
    assert_eq!(page.frame_at(149), 1);
    assert_eq!(page.frame_at(150), 2);
    assert_eq!(page.frame_at(299), 2);
    assert_eq!(page.frame_at(300), 0);
    assert_eq!(page.frame_at(3 * 300 + 120), 1);
}

#[test]
fn pages_without_playing_time_show_their_first_frame() {
    assert_eq!(solid(1, 1, 0).frame_at(12345), 0);
    let frames = vec![
        Frame { pixels: vec![1; 4], delay: (0, 1) },
        Frame { pixels: vec![2; 4], delay: (5, 0) },
    ];
    assert_eq!(DecodedPage::animated(1, 1, frames).unwrap().frame_at(77), 0);
}
