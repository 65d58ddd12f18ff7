//! Frame capture list: ordering, stable sequence indices, removal, and the
//! ordered read-only view.

use apng_paint::BitmapBuffer;
use apng_paint::FrameCaptureList;
use apng_paint::Rgba;

fn solid(width: u32, height: u32, level: u8) -> BitmapBuffer {
    BitmapBuffer::filled(
        width,
        height,
        Rgba { red: level, green: level, blue: level, alpha: 255 },
    )
}

#[test]
fn append_assigns_ascending_sequence_indices() {
    let mut list = FrameCaptureList::new();
    let a = solid(2, 2, 10);
    let b = solid(2, 2, 20);
    assert_eq!(list.append(&a), 0);
    assert_eq!(list.append(&b), 1);
    assert_eq!(list.append(&a), 2);
    assert_eq!(list.len(), 3);
    assert!(!list.is_empty());
}

#[test]
fn remove_at_keeps_order_and_indices_stable() {
    let mut list = FrameCaptureList::new();
    for level in 0..4u8 {
        let frame = solid(1, 1, level);
        list.append(&frame);
    }
    list.remove_at(1);
    assert_eq!(list.len(), 3);
    let indices: Vec<u32> = list.frames.iter().map(|f| f.sequence_index).collect();
    assert_eq!(indices, vec![0, 2, 3]);
    let levels: Vec<u8> = list.frames.iter().map(|f| f.bitmap.pixels[0]).collect();
    assert_eq!(levels, vec![0, 2, 3]);

    // Indices keep counting from where they were, even after a clear.
    list.clear();
    assert_eq!(list.len(), 0);
    assert!(list.is_empty());
    let frame = solid(1, 1, 9);
    assert_eq!(list.append(&frame), 4);
}

#[test]
fn to_ordered_sequence_preserves_capture_order_and_content() {
    let mut list = FrameCaptureList::new();
    let a = solid(3, 1, 1);
    let b = solid(3, 1, 2);
    let c = solid(3, 1, 3);
    list.append(&a);
    list.append(&b);
    list.append(&c);
    let ordered = list.to_ordered_sequence();
    assert_eq!(ordered.len(), 3);
    assert_eq!(ordered[0].pixels, a.pixels);
    assert_eq!(ordered[1].pixels, b.pixels);
    assert_eq!(ordered[2].pixels, c.pixels);
}

#[test]
fn append_stores_a_deep_copy() {
    let mut list = FrameCaptureList::new();
    let mut a = solid(2, 1, 5);
    list.append(&a);
    a.set_pixel(0, 0, Rgba { red: 200, green: 0, blue: 0, alpha: 255 });
    assert_eq!(list.frames[0].bitmap.pixels[0], 5);
}

#[test]
fn duplicates_of_the_same_surface_are_allowed() {
    let mut list = FrameCaptureList::new();
    let a = solid(2, 2, 7);
    list.append(&a);
    list.append(&a);
    assert_eq!(list.len(), 2);
    assert_eq!(list.frames[0].bitmap.pixels, list.frames[1].bitmap.pixels);
    assert_ne!(list.frames[0].sequence_index, list.frames[1].sequence_index);
}
