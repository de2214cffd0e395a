use comic_reader::decode::{
    animation_from_raw, decode_page, error_of_fault, is_gif, page_from_raw, scale_page,
    Decoded, RawAnimation, RawFault, RawImage,
};
use comic_reader::error::DecodeError;
use comic_reader::page::{DecodedPage, Frame};
use image::codecs::gif::GifEncoder;
use image::{Delay, ImageFormat, Rgba, RgbaImage};
use std::io::Cursor;

fn png_bytes(width: u32, height: u32, colour: [u8; 4]) -> Vec<u8> {
    let img = RgbaImage::from_pixel(width, height, Rgba(colour));
    let mut out = Cursor::new(Vec::new());
    img.write_to(&mut out, ImageFormat::Png).unwrap();
    out.into_inner()
}

fn gif_bytes(width: u32, height: u32, delays_ms: &[u32]) -> Vec<u8> {
    let mut out = Vec::new();
    {
        let mut encoder = GifEncoder::new(&mut out);
        for (i, ms) in delays_ms.iter().enumerate() {
            let shade = (40 * i) as u8;
            let buffer = RgbaImage::from_pixel(width, height, Rgba([shade, shade, shade, 255]));
            let frame =
                image::Frame::from_parts(buffer, 0, 0, Delay::from_numer_denom_ms(*ms, 1));
            encoder.encode_frame(frame).unwrap();
        }
    }
    out
}

fn frame(len: usize, ms: u32) -> Frame {
    Frame { pixels: vec![0; len], delay: (ms, 1) }
}

fn error_of<T>(r: Result<T, DecodeError>) -> DecodeError {
    match r {
        Ok(_) => panic!("decoded"),
        Err(e) => e,
    }
}

fn page_of(r: Result<Decoded, DecodeError>) -> DecodedPage {
    match r {
        Ok(d) => d.page,
        Err(e) => panic!("not decoded: {:?}", e),
    }
}

#[test]
fn gif_files_are_told_by_their_first_bytes() {
    assert!(is_gif(b"GIF89a...."));
    assert!(is_gif(b"GIF87a"));
    assert!(!is_gif(b"GIF88a"));
    assert!(!is_gif(b"GIF89"));
    assert!(!is_gif(b""));
    assert!(!is_gif(&png_bytes(1, 1, [0, 0, 0, 0])));
    assert!(is_gif(&gif_bytes(1, 1, &[10])));
}

#[test]
fn decoder_limits_mean_out_of_memory() {
    assert_eq!(error_of_fault(RawFault::Limits), DecodeError::OutOfMemory);
    assert_eq!(error_of_fault(RawFault::Decoding), DecodeError::FormatError);
    assert_eq!(error_of_fault(RawFault::Unsupported), DecodeError::FormatError);
    assert_eq!(error_of_fault(RawFault::Io), DecodeError::FormatError);
    assert_eq!(error_of_fault(RawFault::Parameter), DecodeError::FormatError);
    assert_eq!(error_of_fault(RawFault::Encoding), DecodeError::FormatError);
}

#[test]
fn a_raw_image_of_the_right_size_becomes_a_page() {
    let page = page_from_raw(RawImage { width: 2, height: 3, pixels: vec![5; 24] }).unwrap();
    assert_eq!((page.width(), page.height()), (2, 3));
    assert_eq!(page.pixels(), &vec![5; 24]);
}

#[test]
fn a_raw_image_of_the_wrong_size_is_a_format_error() {
    let short = page_from_raw(RawImage { width: 2, height: 3, pixels: vec![5; 23] });
    assert_eq!(error_of(short), DecodeError::FormatError);
    let empty = page_from_raw(RawImage { width: 0, height: 0, pixels: Vec::new() });
    assert_eq!(error_of(empty), DecodeError::FormatError);
}

#[test]
fn an_animation_is_cut_to_its_playing_time() {
    let raw = RawAnimation {
        frames: vec![frame(4, 100), frame(4, 100), frame(4, 100), frame(4, 100)],
        size: (1, 1),
    };
    let page = page_of(animation_from_raw(raw, 250));
    assert!(page.is_animated());
    assert_eq!(page.frame_count(), 2);
}

#[test]
fn an_animation_within_its_playing_time_keeps_all_frames() {
    let raw = RawAnimation {
        frames: vec![frame(4, 100), frame(4, 100), frame(4, 100)],
        size: (1, 1),
    };
    let page = page_of(animation_from_raw(raw, 300));
    assert_eq!(page.frame_count(), 3);
    assert_eq!(page.byte_size(), 16);
}

#[test]
fn an_animation_of_one_playing_frame_is_a_still_page() {
    let raw = RawAnimation { frames: vec![frame(4, 100), frame(4, 100)], size: (1, 1) };
    let page = page_of(animation_from_raw(raw, 50));
    assert!(!page.is_animated());
    assert_eq!(page.byte_size(), 4);
    let single = RawAnimation { frames: vec![frame(4, 100)], size: (1, 1) };
    assert!(!page_of(animation_from_raw(single, 10_000)).is_animated());
}

#[test]
fn frames_that_disagree_are_a_format_error() {
    let canvas_larger = RawAnimation { size: (1, 2), frames: vec![frame(4, 1), frame(4, 1)] };
    assert_eq!(error_of(animation_from_raw(canvas_larger, 100)), DecodeError::FormatError);
    let buffer_short = RawAnimation { size: (1, 1), frames: vec![frame(4, 1), frame(3, 1)] };
    assert_eq!(error_of(animation_from_raw(buffer_short, 100)), DecodeError::FormatError);
    let nothing = RawAnimation { size: (1, 1), frames: Vec::new() };
    assert_eq!(error_of(animation_from_raw(nothing, 100)), DecodeError::FormatError);
    let flat = RawAnimation { size: (0, 0), frames: vec![frame(0, 1)] };
    assert_eq!(error_of(animation_from_raw(flat, 100)), DecodeError::FormatError);
}

#[test]
fn a_png_decodes_to_its_pixels() {
    let page = page_of(decode_page(&png_bytes(3, 2, [10, 20, 30, 255]), 10_000));
    assert_eq!((page.width(), page.height()), (3, 2));
    assert_eq!(page.pixels().len(), 24);
    assert_eq!(&page.pixels()[0..4], &[10, 20, 30, 255]);
    assert_eq!(&page.pixels()[20..24], &[10, 20, 30, 255]);
    assert!(!page.is_animated());
}

#[test]
fn a_gif_decodes_to_its_frames() {
    let page = page_of(decode_page(&gif_bytes(4, 3, &[100, 200, 300]), 10_000));
    assert_eq!((page.width(), page.height()), (4, 3));
    assert!(page.is_animated());
    assert_eq!(page.frame_count(), 3);
    assert_eq!(page.frame(0).delay_ms(), 100);
    assert_eq!(page.frame(1).delay_ms(), 200);
    assert_eq!(page.frame(2).delay_ms(), 300);
    assert_eq!(page.frame(2).pixels.len(), 48);
}

#[test]
fn a_gif_is_cut_to_the_configured_time() {
    let page = page_of(decode_page(&gif_bytes(2, 2, &[100, 200, 300]), 300));
    assert_eq!(page.frame_count(), 2);
    let still = page_of(decode_page(&gif_bytes(2, 2, &[100, 200, 300]), 0));
    assert!(!still.is_animated());
    assert_eq!((still.width(), still.height()), (2, 2));
}

#[test]
fn corrupt_bytes_are_a_format_error() {
    assert_eq!(error_of(decode_page(b"not an image at all", 1000)), DecodeError::FormatError);
    assert_eq!(error_of(decode_page(b"", 1000)), DecodeError::FormatError);
    let mut png = png_bytes(8, 8, [1, 2, 3, 255]);
    png.truncate(30);
    assert_eq!(error_of(decode_page(&png, 1000)), DecodeError::FormatError);
    assert_eq!(error_of(decode_page(b"GIF89a\x01\x00", 1000)), DecodeError::FormatError);
}

#[test]
fn scaling_gives_a_page_of_the_scaled_size() {
    let page = DecodedPage::from_rgba(40, 20, vec![128; 3200]).unwrap();
    let half = scale_page(&page, 500).unwrap();
    assert_eq!((half.width(), half.height()), (20, 10));
    assert_eq!(half.pixels().len(), 800);
    let same = scale_page(&page, 1000).unwrap();
    assert_eq!((same.width(), same.height()), (40, 20));
    assert_eq!(same.pixels(), page.pixels());
    let larger = scale_page(&page, 1250).unwrap();
    assert_eq!((larger.width(), larger.height()), (50, 25));
    let tiny = scale_page(&page, 1).unwrap();
    assert_eq!((tiny.width(), tiny.height()), (1, 1));
}

#[test]
fn a_gif_too_large_for_the_decoder_is_out_of_memory() {
    let mut gif = gif_bytes(1, 1, &[10]);
    // a canvas of 65535 x 65535 pixels
    gif[6] = 0xff;
    gif[7] = 0xff;
    gif[8] = 0xff;
    gif[9] = 0xff;
    assert_eq!(error_of(decode_page(&gif, 1000)), DecodeError::OutOfMemory);
}

#[test]
fn the_result_says_how_many_frames_were_left_out() {
    let raw = RawAnimation {
        frames: vec![frame(4, 100), frame(4, 100), frame(4, 100), frame(4, 100)],
        size: (1, 1),
    };
    assert_eq!(animation_from_raw(raw, 250).unwrap().dropped_frames, 2);
    let all = RawAnimation { frames: vec![frame(4, 100), frame(4, 100)], size: (1, 1) };
    assert_eq!(animation_from_raw(all, 200).unwrap().dropped_frames, 0);
    let one = RawAnimation { frames: vec![frame(4, 100), frame(4, 100)], size: (1, 1) };
    assert_eq!(animation_from_raw(one, 0).unwrap().dropped_frames, 1);
    assert_eq!(decode_page(&gif_bytes(2, 2, &[100, 200, 300]), 300).unwrap().dropped_frames, 1);
    assert_eq!(decode_page(&gif_bytes(2, 2, &[100, 200, 300]), 600).unwrap().dropped_frames, 0);
    assert_eq!(decode_page(&png_bytes(2, 2, [0, 0, 0, 255]), 0).unwrap().dropped_frames, 0);
}

#[test]
fn decoding_the_same_bytes_gives_the_same_page() {
    let png = png_bytes(5, 4, [9, 8, 7, 255]);
    let once = page_of(decode_page(&png, 1000));
    let again = page_of(decode_page(&png, 1000));
    assert_eq!(once.pixels(), again.pixels());
    let gif = gif_bytes(3, 3, &[20, 30]);
    let first = page_of(decode_page(&gif, 1000));
    let second = page_of(decode_page(&gif, 1000));
    assert_eq!(first.frame_count(), second.frame_count());
    assert_eq!(first.frame(1).pixels, second.frame(1).pixels);
}
