//! Session state machine: strokes, undo round trips, captures, and pen
//! configuration.

use apng_paint::Rgba;
use apng_paint::Session;

fn surface_bytes(s: &Session) -> Vec<u8> {
    s.surface.pixels.clone()
}

#[test]
fn fresh_session_is_transparent() {
    let s = Session::new(8, 4);
    assert_eq!(s.get_width(), 8);
    assert_eq!(s.get_height(), 4);
    assert_eq!(s.surface.pixels.len(), 8 * 4 * 4);
    assert!(s.surface.pixels.iter().all(|b| *b == 0));
}

#[test]
fn preview_dimensions_are_a_fifth_of_the_canvas() {
    let s = Session::new(200, 100);
    assert_eq!(s.get_preview_width(), 40);
    assert_eq!(s.get_preview_height(), 20);
}

#[test]
fn stroke_draws_pen_color() {
    let mut s = Session::new(10, 10);
    assert!(s.set_pen_color("#ff0000"));
    s.set_pen_width(1);
    s.begin_stroke(2, 5);
    s.extend_stroke(7, 5);
    s.end_stroke(7, 5);
    for x in 2..=7 {
        let p = s.surface.pixel_at(x, 5);
        assert_eq!(
            p,
            Rgba { red: 255, green: 0, blue: 0, alpha: 255 },
            "pixel at ({x}, 5)"
        );
    }
    // A pixel far from the stroke is untouched.
    let q = s.surface.pixel_at(2, 8);
    assert_eq!(q, Rgba { red: 0, green: 0, blue: 0, alpha: 0 });
}

#[test]
fn strokes_then_undos_restore_the_surface_byte_for_byte() {
    let mut s = Session::new(16, 16);
    let before = surface_bytes(&s);

    assert!(s.set_pen_color("#12ab34"));
    s.set_pen_width(3);
    s.begin_stroke(0, 0);
    s.extend_stroke(10, 10);
    s.end_stroke(15, 3);

    s.set_pen_width(5);
    s.begin_stroke(8, 8);
    s.extend_stroke(1, 14);
    s.end_stroke(2, 2);

    assert_ne!(surface_bytes(&s), before);

    assert!(s.undo().is_ok());
    assert!(s.undo().is_ok());
    assert_eq!(surface_bytes(&s), before);
}

#[test]
fn undo_on_empty_history_reports_no_history_and_changes_nothing() {
    let mut s = Session::new(6, 6);
    assert!(s.set_pen_color("#0000ff"));
    s.begin_stroke(1, 1);
    s.end_stroke(4, 4);
    let after_stroke = surface_bytes(&s);

    assert!(s.undo().is_ok());
    let r = s.undo();
    assert_eq!(r, Err(apng_paint::NoHistory));
    // The surface stayed exactly as the successful undo left it.
    assert!(s.surface.pixels.iter().all(|b| *b == 0));

    // Redraw, undo once, then a second undo fails and leaves the stroke gone.
    s.begin_stroke(1, 1);
    s.end_stroke(4, 4);
    assert_eq!(surface_bytes(&s), after_stroke);
    assert!(s.undo().is_ok());
    assert_eq!(s.undo(), Err(apng_paint::NoHistory));
}

#[test]
fn clear_resets_to_transparent_and_is_undoable() {
    let mut s = Session::new(5, 5);
    assert!(s.set_pen_color("#ffffff"));
    s.begin_stroke(0, 0);
    s.end_stroke(4, 4);
    let drawn = surface_bytes(&s);
    assert_ne!(drawn, vec![0u8; 100]);

    s.clear();
    assert_eq!(surface_bytes(&s), vec![0u8; 100]);

    assert!(s.undo().is_ok());
    assert_eq!(surface_bytes(&s), drawn);
}

#[test]
fn capture_twice_gives_identical_pixels_and_distinct_indices() {
    let mut s = Session::new(7, 3);
    assert!(s.set_pen_color("#808080"));
    s.begin_stroke(0, 1);
    s.end_stroke(6, 1);

    let first = s.capture_frame();
    let second = s.capture_frame();
    assert_ne!(first, second);
    assert_eq!(first, 0);
    assert_eq!(second, 1);

    let frames = &s.captures.frames;
    assert_eq!(frames.len(), 2);
    assert_eq!(frames[0].bitmap.pixels, frames[1].bitmap.pixels);
    assert_ne!(frames[0].sequence_index, frames[1].sequence_index);
}

#[test]
fn captured_frame_is_a_deep_copy_unaffected_by_later_edits() {
    let mut s = Session::new(9, 9);
    s.capture_frame();
    let captured = s.captures.frames[0].bitmap.pixels.clone();
    assert!(captured.iter().all(|b| *b == 0));

    assert!(s.set_pen_color("#ff00ff"));
    s.set_pen_width(9);
    s.begin_stroke(4, 4);
    s.extend_stroke(8, 8);
    s.end_stroke(0, 0);
    assert_ne!(s.surface.pixels, captured);
    assert_eq!(s.captures.frames[0].bitmap.pixels, captured);
}

#[test]
fn undo_limit_evicts_the_oldest_snapshot() {
    let mut s = Session::with_undo_limit(4, 4, Some(2));
    assert!(s.set_pen_color("#010101"));

    s.begin_stroke(0, 0);
    s.end_stroke(3, 3);
    let after_first = surface_bytes(&s);

    assert!(s.set_pen_color("#020202"));
    s.begin_stroke(0, 3);
    s.end_stroke(3, 0);
    let after_second = surface_bytes(&s);

    assert!(s.set_pen_color("#030303"));
    s.begin_stroke(1, 1);
    s.end_stroke(2, 2);

    // Three strokes, but only the two most recent snapshots are kept.
    assert!(s.undo().is_ok());
    assert_eq!(surface_bytes(&s), after_second);
    assert!(s.undo().is_ok());
    assert_eq!(surface_bytes(&s), after_first);
    assert_eq!(s.undo(), Err(apng_paint::NoHistory));
}

#[test]
fn delete_all_frames_empties_the_list_and_keeps_counting() {
    let mut s = Session::new(4, 4);
    s.capture_frame();
    s.capture_frame();
    assert_eq!(s.capture_count(), 2);
    s.delete_all_frames();
    assert_eq!(s.capture_count(), 0);
    match s.export_animation(1, 2) {
        Ok(_) => panic!("export of an emptied capture list must fail"),
        Err(e) => assert_eq!(e, apng_paint::EncodeError::EmptyAnimation),
    }
    assert_eq!(s.capture_frame(), 2);
}

#[test]
fn invalid_pen_color_is_rejected_and_changes_nothing() {
    let mut s = Session::new(3, 3);
    assert!(s.set_pen_color("#abcdef"));
    let kept = s.get_pen_color();
    assert!(!s.set_pen_color("abcdef"));
    assert!(!s.set_pen_color("#abcde"));
    assert!(!s.set_pen_color("#abcdeg"));
    assert!(!s.set_pen_color(""));
    assert_eq!(s.get_pen_color(), kept);
}

#[test]
fn pen_configuration_is_bound_at_stroke_begin() {
    let mut s = Session::new(10, 1);
    assert!(s.set_pen_color("#ff0000"));
    s.begin_stroke(0, 0);
    // Re-configuring mid-stroke must not affect the stroke in progress.
    assert!(s.set_pen_color("#00ff00"));
    s.extend_stroke(9, 0);
    s.end_stroke(9, 0);
    let p = s.surface.pixel_at(5, 0);
    assert_eq!(p, Rgba { red: 255, green: 0, blue: 0, alpha: 255 });
}

#[test]
fn one_pixel_canvas_works_end_to_end() {
    let mut s = Session::new(1, 1);
    assert!(s.set_pen_color("#aabbcc"));
    s.begin_stroke(0, 0);
    s.end_stroke(0, 0);
    assert_eq!(
        s.surface.pixel_at(0, 0),
        Rgba { red: 0xaa, green: 0xbb, blue: 0xcc, alpha: 255 }
    );
    s.capture_frame();
    let exported = s.export_animation(1, 1).unwrap();
    assert!(!exported.bytes.is_empty());
}

#[test]
fn strokes_outside_the_canvas_are_clipped_away() {
    let mut s = Session::new(4, 4);
    assert!(s.set_pen_color("#ffffff"));
    s.begin_stroke(100, 100);
    s.extend_stroke(200, 150);
    s.end_stroke(300, 120);
    assert!(s.surface.pixels.iter().all(|b| *b == 0));
}

#[test]
fn vertical_and_diagonal_strokes_cover_their_paths() {
    let mut s = Session::new(8, 8);
    assert!(s.set_pen_color("#00ff00"));
    s.begin_stroke(3, 0);
    s.end_stroke(3, 7);
    for y in 0..8 {
        assert_eq!(s.surface.pixel_at(3, y).green, 255, "vertical at row {y}");
    }
    assert!(s.set_pen_color("#0000ff"));
    s.begin_stroke(0, 0);
    s.end_stroke(7, 7);
    for d in 0..8 {
        assert_eq!(s.surface.pixel_at(d, d).blue, 255, "diagonal at {d}");
    }
}

#[test]
fn eraser_is_a_transparent_pen() {
    let mut s = Session::new(6, 1);
    assert!(s.set_pen_color("#123456"));
    s.begin_stroke(0, 0);
    s.end_stroke(5, 0);
    assert_eq!(s.surface.pixel_at(3, 0).alpha, 255);

    s.set_pen_rgba(Rgba { red: 0, green: 0, blue: 0, alpha: 0 });
    s.begin_stroke(3, 0);
    s.end_stroke(3, 0);
    assert_eq!(s.surface.pixel_at(3, 0), Rgba { red: 0, green: 0, blue: 0, alpha: 0 });
    assert_eq!(s.surface.pixel_at(1, 0).alpha, 255);
}
