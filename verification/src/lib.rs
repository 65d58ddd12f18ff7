//! Frame-capture, undo-history, and multi-frame image encoding pipeline for a
//! raster drawing surface.
//!
//! The library owns the live bitmap of one drawing session, keeps an
//! undo-capable history of it, collects explicitly captured snapshots, and
//! serializes the captured snapshots into one animated PNG byte stream.

pub mod bitmap;
pub mod capture;
pub mod codec;
pub mod color;
pub mod encoder;
pub mod history;
pub mod session;

pub use bitmap::BitmapBuffer;
pub use bitmap::BitmapV;
pub use bitmap::Rgba;
pub use capture::CaptureFrame;
pub use capture::FrameCaptureList;
pub use encoder::encode_apng;
pub use encoder::media_type;
pub use encoder::AnimationConfig;
pub use encoder::EncodeError;
pub use history::UndoHistory;
pub use session::ExportedAnimation;
pub use session::NoHistory;
pub use session::Session;
