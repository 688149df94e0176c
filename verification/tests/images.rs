use wayfinder_core::images::{frame_at, Decoded, Frames};

#[test]
fn frames_follow_their_delays_and_loop() {
    let f = Frames { cols: 2, rows: 2, count: 3, frame_w: 8, frame_h: 6, delays_ms: vec![100, 200, 100], total_ms: 400 };
    let at = |t| frame_at(&f, t);
    assert_eq!((at(0), at(99), at(100), at(299), at(300), at(400), at(450)), (0, 0, 1, 1, 2, 0, 0));
}

#[test]
fn an_animation_with_no_time_shows_its_first_frame() {
    let f = Frames { cols: 1, rows: 1, count: 1, frame_w: 4, frame_h: 4, delays_ms: vec![], total_ms: 0 };
    assert_eq!(frame_at(&f, 12345), 0);
}

#[test]
fn an_image_is_laid_out_at_one_frame_size() {
    let f = Frames { cols: 2, rows: 1, count: 2, frame_w: 8, frame_h: 6, delays_ms: vec![50, 50], total_ms: 100 };
    let d = Decoded { px: vec![], w: 16, h: 6, frames: Some(f) };
    assert_eq!(d.size(), (8, 6));
    let s = Decoded { px: vec![], w: 5, h: 4, frames: None };
    assert_eq!(s.size(), (5, 4));
}

use wayfinder_core::images::{frame_delay, grid_size};

#[test]
fn short_delays_play_at_a_tenth_of_a_second() {
    assert_eq!(frame_delay(0, 1), 100);
    assert_eq!(frame_delay(10, 1), 100);
    assert_eq!(frame_delay(20, 1), 20);
    assert_eq!(frame_delay(200, 1), 200);
    assert_eq!(frame_delay(1000, 3), 333);
    assert_eq!(frame_delay(5, 0), 100);
}

#[test]
fn frames_pack_in_a_near_square_grid() {
    assert_eq!(grid_size(1), (1, 1));
    assert_eq!(grid_size(3), (2, 2));
    assert_eq!(grid_size(4), (2, 2));
    assert_eq!(grid_size(5), (3, 2));
    assert_eq!(grid_size(300), (18, 17));
}

use wayfinder_core::images::{decode_bytes, Image};

fn png_bytes(w: u32, h: u32) -> Vec<u8> {
    let img = image::RgbaImage::from_fn(w, h, |x, y| image::Rgba([x as u8 * 40, y as u8 * 40, 7, 255]));
    let mut buf = Vec::new();
    image::DynamicImage::ImageRgba8(img).write_to(&mut std::io::Cursor::new(&mut buf), image::ImageFormat::Png).unwrap();
    buf
}

fn gif_bytes(delays_ms: &[u32]) -> Vec<u8> {
    let mut buf = Vec::new();
    {
        let mut enc = image::codecs::gif::GifEncoder::new(&mut buf);
        let frames = delays_ms.iter().enumerate().map(|(i, d)| {
            let img = image::RgbaImage::from_pixel(3, 2, image::Rgba([i as u8 * 60, 0, 0, 255]));
            image::Frame::from_parts(img, 0, 0, image::Delay::from_numer_denom_ms(*d, 1))
        });
        enc.encode_frames(frames).unwrap();
    }
    buf
}

#[test]
fn a_still_file_decodes_to_its_pixels() {
    let Some(Image::Still { px, w, h }) = decode_bytes(&png_bytes(2, 3)) else { panic!("a PNG is a still picture") };
    assert_eq!((w, h, px.len()), (2, 3, 24));
    assert_eq!(&px[4..8], &[40, 0, 7, 255], "pixel (1, 0)");
}

#[test]
fn an_animated_gif_keeps_its_frames_and_their_delays() {
    let Some(Image::Animation(frames)) = decode_bytes(&gif_bytes(&[50, 10, 200])) else { panic!("three frames are an animation") };
    assert_eq!(frames.len(), 3);
    assert_eq!(frames.iter().map(|f| (f.1, f.2, f.3)).collect::<Vec<_>>(), [(3, 2, 50), (3, 2, 100), (3, 2, 200)], "10 ms plays at 100");
    assert_eq!(frames[1].0.len(), 3 * 2 * 4);
}

#[test]
fn a_gif_of_one_frame_is_a_still_picture_and_noise_is_nothing() {
    let Some(Image::Still { w, h, .. }) = decode_bytes(&gif_bytes(&[40])) else { panic!("one frame is a still") };
    assert_eq!((w, h), (3, 2));
    assert!(decode_bytes(b"not an image at all").is_none());
    assert!(decode_bytes(&[0x89, b'P', b'N', b'G', 0x0d, 0x0a, 0x1a, 0x0a, 0, 0]).is_none(), "a PNG header with nothing after it");
}
