//! Round trips through a real APNG decoder: frame order, frame delays, and
//! the full white-frame / red-stroke scenario.

use std::io::Cursor;

use apng_paint::encode_apng;
use apng_paint::AnimationConfig;
use apng_paint::BitmapBuffer;
use apng_paint::Rgba;
use apng_paint::Session;

struct DecodedAnimation {
    num_frames: u32,
    frames: Vec<Vec<u8>>,
    delays: Vec<(u16, u16)>,
    sequence_numbers: Vec<u32>,
}

fn decode(bytes: &[u8]) -> DecodedAnimation {
    let decoder = png::Decoder::new(Cursor::new(bytes.to_vec()));
    let mut reader = decoder.read_info().expect("container must parse");
    let num_frames = reader
        .info()
        .animation_control()
        .expect("container must declare an animation")
        .num_frames;
    let mut frames = Vec::new();
    let mut delays = Vec::new();
    let mut sequence_numbers = Vec::new();
    for _ in 0..num_frames {
        let mut buf = vec![0u8; reader.output_buffer_size().expect("frame size must be known")];
        let info = reader.next_frame(&mut buf).expect("frame must decode");
        buf.truncate(info.buffer_size());
        let fc = *reader.info().frame_control().expect("every frame carries an fcTL");
        frames.push(buf);
        delays.push((fc.delay_num, fc.delay_den));
        sequence_numbers.push(fc.sequence_number);
    }
    DecodedAnimation { num_frames, frames, delays, sequence_numbers }
}

fn solid(width: u32, height: u32, color: Rgba) -> BitmapBuffer {
    BitmapBuffer::filled(width, height, color)
}

#[test]
fn decoded_frame_order_matches_input_order() {
    let a = solid(5, 4, Rgba { red: 200, green: 0, blue: 0, alpha: 255 });
    let b = solid(5, 4, Rgba { red: 0, green: 200, blue: 0, alpha: 255 });
    let c = solid(5, 4, Rgba { red: 0, green: 0, blue: 200, alpha: 255 });
    let frames = vec![a.duplicate(), b.duplicate(), c.duplicate()];
    let config = AnimationConfig {
        canvas_width: 5,
        canvas_height: 4,
        delay_num: 1,
        delay_den: 10,
    };
    let bytes = encode_apng(&frames, &config).unwrap();

    let decoded = decode(&bytes);
    assert_eq!(decoded.num_frames, 3);
    assert_eq!(decoded.frames.len(), 3);
    assert_eq!(decoded.frames[0], a.pixels);
    assert_eq!(decoded.frames[1], b.pixels);
    assert_eq!(decoded.frames[2], c.pixels);
}

#[test]
fn every_frame_control_reports_the_exact_rational_delay() {
    let frame = solid(3, 3, Rgba { red: 7, green: 7, blue: 7, alpha: 255 });
    let frames = vec![frame.duplicate(), frame.duplicate(), frame.duplicate()];
    let config = AnimationConfig {
        canvas_width: 3,
        canvas_height: 3,
        delay_num: 33,
        delay_den: 100,
    };
    let bytes = encode_apng(&frames, &config).unwrap();

    let decoded = decode(&bytes);
    assert_eq!(decoded.num_frames, 3);
    assert_eq!(decoded.delays, vec![(33, 100), (33, 100), (33, 100)]);
    // Control and data units share one counter: 0, then 1 and 2, then 3 and 4.
    assert_eq!(decoded.sequence_numbers, vec![0, 1, 3]);
}

#[test]
fn white_frame_then_red_stroke_scenario() {
    let mut s = Session::new(200, 100);

    // Paint the whole surface white with one broad stroke, then capture.
    assert!(s.set_pen_color("#ffffff"));
    s.set_pen_width(400);
    s.begin_stroke(0, 50);
    s.extend_stroke(199, 50);
    s.end_stroke(199, 50);
    s.capture_frame();

    // Draw a red horizontal stroke across the middle, then capture again.
    assert!(s.set_pen_color("#ff0000"));
    s.set_pen_width(3);
    s.begin_stroke(0, 50);
    s.extend_stroke(199, 50);
    s.end_stroke(199, 50);
    s.capture_frame();

    let exported = s.export_animation(1, 2).unwrap();
    assert_eq!(exported.media_type, "image/png");

    let decoded = decode(&exported.bytes);
    assert_eq!(decoded.num_frames, 2);
    assert_eq!(decoded.delays, vec![(1, 2), (1, 2)]);

    // Frame 0 is all white.
    assert_eq!(decoded.frames[0].len(), 200 * 100 * 4);
    assert!(decoded.frames[0].iter().all(|b| *b == 255));

    // Frame 1 carries the red stroke across the middle row, on white.
    let frame1 = &decoded.frames[1];
    for x in 0..200usize {
        let p = (50 * 200 + x) * 4;
        assert_eq!(&frame1[p..p + 4], &[255, 0, 0, 255], "red at column {x}");
    }
    let top_left = &frame1[0..4];
    assert_eq!(top_left, &[255, 255, 255, 255]);
}
