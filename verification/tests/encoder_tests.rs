//! Animation encoder: failure cases, determinism, and container framing.

use apng_paint::encode_apng;
use apng_paint::media_type;
use apng_paint::AnimationConfig;
use apng_paint::BitmapBuffer;
use apng_paint::EncodeError;
use apng_paint::Rgba;
use apng_paint::Session;

fn config(width: u32, height: u32) -> AnimationConfig {
    AnimationConfig { canvas_width: width, canvas_height: height, delay_num: 1, delay_den: 10 }
}

#[test]
fn exporting_zero_frames_fails_with_empty_animation() {
    let frames: Vec<BitmapBuffer> = Vec::new();
    let r = encode_apng(&frames, &config(4, 4));
    assert_eq!(r.unwrap_err(), EncodeError::EmptyAnimation);
}

#[test]
fn session_export_with_no_captures_fails_with_empty_animation() {
    let s = Session::new(4, 4);
    match s.export_animation(1, 2) {
        Ok(_) => panic!("export of zero captured frames must fail"),
        Err(e) => assert_eq!(e, EncodeError::EmptyAnimation),
    }
}

#[test]
fn mismatched_frame_reports_the_first_offending_index() {
    let good = BitmapBuffer::filled(4, 4, Rgba { red: 1, green: 2, blue: 3, alpha: 255 });
    let bad = BitmapBuffer::filled(4, 5, Rgba { red: 1, green: 2, blue: 3, alpha: 255 });
    let bad2 = BitmapBuffer::filled(3, 4, Rgba { red: 1, green: 2, blue: 3, alpha: 255 });
    let frames = vec![good, bad, bad2];
    let r = encode_apng(&frames, &config(4, 4));
    assert_eq!(r.unwrap_err(), EncodeError::DimensionMismatch { index: 1 });
}

#[test]
fn identical_inputs_produce_identical_bytes() {
    let a = BitmapBuffer::filled(6, 6, Rgba { red: 9, green: 8, blue: 7, alpha: 255 });
    let b = BitmapBuffer::filled(6, 6, Rgba { red: 0, green: 0, blue: 0, alpha: 0 });
    let frames = vec![a.duplicate(), b.duplicate()];
    let frames_again = vec![a.duplicate(), b.duplicate()];
    let first = encode_apng(&frames, &config(6, 6)).unwrap();
    let second = encode_apng(&frames_again, &config(6, 6)).unwrap();
    assert_eq!(first, second);
}

#[test]
fn container_starts_with_the_png_signature() {
    let a = BitmapBuffer::filled(2, 2, Rgba { red: 0, green: 0, blue: 0, alpha: 255 });
    let frames = vec![a];
    let bytes = encode_apng(&frames, &config(2, 2)).unwrap();
    assert_eq!(&bytes[0..8], &[137u8, 80, 78, 71, 13, 10, 26, 10]);
    // IHDR follows immediately: 13 data bytes, then the type tag.
    assert_eq!(&bytes[8..16], &[0u8, 0, 0, 13, 73, 72, 68, 82]);
}

#[test]
fn media_type_is_image_png() {
    assert_eq!(media_type(), "image/png");
    let mut s = Session::new(2, 2);
    s.capture_frame();
    let exported = s.export_animation(1, 2).unwrap();
    assert_eq!(exported.media_type, "image/png");
}

#[test]
fn failed_export_leaves_captures_and_history_intact() {
    let mut s = Session::new(4, 4);
    assert!(s.set_pen_color("#112233"));
    s.begin_stroke(0, 0);
    s.end_stroke(3, 3);
    let surface = s.surface.pixels.clone();
    assert!(s.export_animation(1, 2).is_err());
    assert_eq!(s.captures.frames.len(), 0);
    assert_eq!(s.history.entries.len(), 1);
    assert_eq!(s.surface.pixels, surface);
}
