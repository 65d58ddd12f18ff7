//! Undo history: stack order, caps, and eviction.

use apng_paint::BitmapBuffer;
use apng_paint::Rgba;
use apng_paint::UndoHistory;

fn solid(level: u8) -> BitmapBuffer {
    BitmapBuffer::filled(2, 2, Rgba { red: level, green: level, blue: level, alpha: 255 })
}

#[test]
fn pop_returns_most_recent_first() {
    let mut h = UndoHistory::new(None);
    assert!(h.is_empty());
    h.push(solid(1));
    h.push(solid(2));
    h.push(solid(3));
    assert_eq!(h.len(), 3);
    assert_eq!(h.pop().unwrap().pixels[0], 3);
    assert_eq!(h.pop().unwrap().pixels[0], 2);
    assert_eq!(h.pop().unwrap().pixels[0], 1);
    assert!(h.pop().is_none());
}

#[test]
fn capped_history_evicts_the_oldest_entry() {
    let mut h = UndoHistory::new(Some(2));
    h.push(solid(1));
    h.push(solid(2));
    h.push(solid(3));
    assert_eq!(h.len(), 2);
    assert_eq!(h.pop().unwrap().pixels[0], 3);
    assert_eq!(h.pop().unwrap().pixels[0], 2);
    assert!(h.pop().is_none());
}

#[test]
fn unbounded_history_keeps_everything() {
    let mut h = UndoHistory::new(None);
    for level in 0..50u8 {
        h.push(solid(level));
    }
    assert_eq!(h.len(), 50);
    for level in (0..50u8).rev() {
        assert_eq!(h.pop().unwrap().pixels[0], level);
    }
}
