//! Drawing session: the orchestrator owning the live surface, the undo
//! history, the frame capture list, and the pen configuration.
//!
//! The session is a two-state machine: `Idle`, and `StrokeActive` between
//! `begin_stroke` and `end_stroke`. Undo, clear, and capture are `Idle`
//! operations; undo during an active stroke is disallowed. Pen configuration
//! is read at stroke begin and not rebound mid-stroke.

use vstd::prelude::*;

use crate::bitmap::bitmap_views;
use crate::bitmap::spec_draw_segment;
use crate::bitmap::BitmapBuffer;
use crate::bitmap::BitmapV;
use crate::bitmap::Rgba;
use crate::capture::FrameCaptureList;
use crate::capture::FrameCaptureListV;
use crate::color::color_of_string;
use crate::color::parse_color;
use crate::color::valid_color_string;
use crate::encoder::apng_bytes;
use crate::encoder::encode_apng;
use crate::encoder::media_type;
use crate::encoder::payload_fits;
use crate::encoder::AnimationConfig;
use crate::encoder::EncodeError;
use crate::history::UndoHistory;
use crate::history::UndoHistoryV;

verus! {

/// Undo was requested with an empty history; the surface is left unchanged.
#[derive(Clone, Copy, Debug, PartialEq, Eq, Structural)]
pub struct NoHistory;

/// Pen state bound at stroke begin, plus the last point of the in-progress
/// path.
#[derive(Clone, Copy, Debug, PartialEq, Eq, Structural)]
pub struct ActiveStroke {
    pub color: Rgba,
    pub width: u32,
    pub last_x: u32,
    pub last_y: u32,
}

/// One export result: the container bytes and the media type to label them
/// with.
pub struct ExportedAnimation {
    pub bytes: Vec<u8>,
    pub media_type: String,
}

/// The mathematical model of a session.
#[verifier::ext_equal]
pub struct SessionV {
    pub surface: BitmapV,
    pub history: UndoHistoryV,
    pub captures: FrameCaptureListV,
    pub pen_color: Rgba,
    pub pen_width: u32,
    pub stroke: Option<ActiveStroke>,
}

impl SessionV {
    /// No stroke is in progress.
    pub open spec fn idle(self) -> bool {
        self.stroke is None
    }

    /// Validity: the surface is well-formed, every stored snapshot and
    /// capture is well-formed with the surface's own dimensions, the history
    /// respects its cap, and pen widths are positive.
    pub open spec fn wf(self) -> bool {
        &&& self.surface.wf()
        &&& self.history.wf()
        &&& forall|i: int|
            0 <= i < self.history.entries.len() ==> {
                &&& (#[trigger] self.history.entries[i]).wf()
                &&& self.history.entries[i].width == self.surface.width
                &&& self.history.entries[i].height == self.surface.height
            }
        &&& forall|i: int|
            0 <= i < self.captures.frames.len() ==> {
                &&& (#[trigger] self.captures.frames[i]).bitmap.wf()
                &&& self.captures.frames[i].bitmap.width == self.surface.width
                &&& self.captures.frames[i].bitmap.height == self.surface.height
            }
        &&& 1 <= self.pen_width
        &&& match self.stroke {
            Some(st) => 1 <= st.width,
            None => true,
        }
    }

    /// Begin a stroke: snapshot the surface into the history, bind the
    /// current pen configuration, and start the path at `(x, y)`. Nothing is
    /// drawn yet.
    pub open spec fn begin_stroke_spec(self, x: u32, y: u32) -> SessionV {
        SessionV {
            history: self.history.push_spec(self.surface),
            stroke: Some(
                ActiveStroke {
                    color: self.pen_color,
                    width: self.pen_width,
                    last_x: x,
                    last_y: y,
                },
            ),
            ..self
        }
    }

    /// Extend the in-progress stroke to `(x, y)`, rasterizing the new segment
    /// immediately.
    pub open spec fn extend_stroke_spec(self, x: u32, y: u32) -> SessionV {
        let st = self.stroke->0;
        SessionV {
            surface: spec_draw_segment(
                self.surface,
                st.last_x as int,
                st.last_y as int,
                x as int,
                y as int,
                st.color,
                st.width as int,
            ),
            stroke: Some(ActiveStroke { last_x: x, last_y: y, ..st }),
            ..self
        }
    }

    /// Finish the stroke at `(x, y)`: rasterize the terminal segment and
    /// return to `Idle`.
    pub open spec fn end_stroke_spec(self, x: u32, y: u32) -> SessionV {
        let st = self.stroke->0;
        SessionV {
            surface: spec_draw_segment(
                self.surface,
                st.last_x as int,
                st.last_y as int,
                x as int,
                y as int,
                st.color,
                st.width as int,
            ),
            stroke: None,
            ..self
        }
    }

    /// Undo: replace the surface with the most recent snapshot and drop it
    /// from the history; a no-op on an empty history.
    pub open spec fn undo_spec(self) -> SessionV {
        if self.history.entries.len() == 0 {
            self
        } else {
            SessionV {
                surface: self.history.entries.last(),
                history: self.history.pop_spec(),
                ..self
            }
        }
    }

    /// Clear: snapshot the surface (so clear is itself undoable), then reset
    /// every pixel to transparent.
    pub open spec fn clear_spec(self) -> SessionV {
        SessionV {
            history: self.history.push_spec(self.surface),
            surface: BitmapV::filled_spec(
                self.surface.width,
                self.surface.height,
                Rgba { red: 0, green: 0, blue: 0, alpha: 0 },
            ),
            ..self
        }
    }

    /// Capture: append a deep copy of the surface to the capture list under
    /// the next sequence index.
    pub open spec fn capture_frame_spec(self) -> SessionV {
        SessionV { captures: self.captures.append_spec(self.surface), ..self }
    }

    /// The export configuration for this session at the given frame delay.
    pub open spec fn export_config(self, delay_num: u16, delay_den: u16) -> AnimationConfig {
        AnimationConfig {
            canvas_width: self.surface.width as u32,
            canvas_height: self.surface.height as u32,
            delay_num,
            delay_den,
        }
    }
}

/// A drawing session.
pub struct Session {
    pub surface: BitmapBuffer,
    pub history: UndoHistory,
    pub captures: FrameCaptureList,
    pub pen_color: Rgba,
    pub pen_width: u32,
    pub stroke: Option<ActiveStroke>,
}

impl View for Session {
    type V = SessionV;

    open spec fn view(&self) -> SessionV {
        SessionV {
            surface: self.surface@,
            history: self.history@,
            captures: self.captures@,
            pen_color: self.pen_color,
            pen_width: self.pen_width,
            stroke: self.stroke,
        }
    }
}

impl Session {
    /// A fresh session over a transparent surface of the given dimensions,
    /// with a black pen of width one and, if `undo_limit` is given, an undo
    /// history capped at that many snapshots.
    pub fn with_undo_limit(width: u32, height: u32, undo_limit: Option<usize>) -> (r: Session)
        requires
            1 <= width,
            1 <= height,
            width * height * 4 + height <= usize::MAX,
            undo_limit is Some ==> 1 <= undo_limit->0,
        ensures
            r@.wf(),
            r@.idle(),
            r@.surface == BitmapV::filled_spec(
                width as nat,
                height as nat,
                Rgba { red: 0, green: 0, blue: 0, alpha: 0 },
            ),
            r@.history == (UndoHistoryV { entries: Seq::<BitmapV>::empty(), limit: undo_limit }),
            r@.captures.frames == Seq::<crate::capture::CaptureFrameV>::empty(),
            r@.captures.next_index == 0,
            r@.pen_color == (Rgba { red: 0, green: 0, blue: 0, alpha: 255 }),
            r@.pen_width == 1,
    {
        Session {
            surface: BitmapBuffer::new(width, height),
            history: UndoHistory::new(undo_limit),
            captures: FrameCaptureList::new(),
            pen_color: Rgba { red: 0, green: 0, blue: 0, alpha: 255 },
            pen_width: 1,
            stroke: None,
        }
    }

    /// A fresh session with an unbounded undo history.
    pub fn new(width: u32, height: u32) -> (r: Session)
        requires
            1 <= width,
            1 <= height,
            width * height * 4 + height <= usize::MAX,
        ensures
            r@.wf(),
            r@.idle(),
            r@.surface == BitmapV::filled_spec(
                width as nat,
                height as nat,
                Rgba { red: 0, green: 0, blue: 0, alpha: 0 },
            ),
            r@.history == (UndoHistoryV { entries: Seq::<BitmapV>::empty(), limit: None }),
            r@.captures.frames == Seq::<crate::capture::CaptureFrameV>::empty(),
            r@.captures.next_index == 0,
            r@.pen_color == (Rgba { red: 0, green: 0, blue: 0, alpha: 255 }),
            r@.pen_width == 1,
    {
        Session::with_undo_limit(width, height, None)
    }

    pub fn get_width(&self) -> (r: u32)
        ensures
            r == self@.surface.width,
    {
        self.surface.width
    }

    pub fn get_height(&self) -> (r: u32)
        ensures
            r == self@.surface.height,
    {
        self.surface.height
    }

    /// Width of the preview thumbnail: a fifth of the canvas.
    pub fn get_preview_width(&self) -> (r: u32)
        ensures
            r == self@.surface.width as u32 / 5,
    {
        self.surface.width / 5
    }

    /// Height of the preview thumbnail: a fifth of the canvas.
    pub fn get_preview_height(&self) -> (r: u32)
        ensures
            r == self@.surface.height as u32 / 5,
    {
        self.surface.height / 5
    }

    pub fn get_pen_color(&self) -> (r: Rgba)
        ensures
            r == self@.pen_color,
    {
        self.pen_color
    }

    pub fn get_pen_width(&self) -> (r: u32)
        ensures
            r == self@.pen_width,
    {
        self.pen_width
    }

    /// Set the pen color from a `#rrggbb` string; takes effect on the next
    /// stroke. Returns `false` and changes nothing exactly when the string is
    /// not a well-formed color.
    pub fn set_pen_color(&mut self, color: &str) -> (r: bool)
        ensures
            r <==> valid_color_string(color@),
            r ==> final(self)@ == (SessionV { pen_color: color_of_string(color@), ..old(self)@ }),
            !r ==> final(self)@ == old(self)@,
    {
        match parse_color(color) {
            Some(c) => {
                self.pen_color = c;
                proof {
                    assert(self@ =~= (SessionV { pen_color: color_of_string(color@), ..old(self)@ }));
                }
                true
            },
            None => {
                proof {
                    assert(self@ =~= old(self)@);
                }
                false
            },
        }
    }

    /// Set the pen color directly; an alpha of zero turns the pen into an
    /// eraser, since strokes overwrite pixels.
    pub fn set_pen_rgba(&mut self, color: Rgba)
        ensures
            final(self)@ == (SessionV { pen_color: color, ..old(self)@ }),
    {
        self.pen_color = color;
        proof {
            assert(self@ =~= (SessionV { pen_color: color, ..old(self)@ }));
        }
    }

    /// Set the pen width; takes effect on the next stroke.
    pub fn set_pen_width(&mut self, width: u32)
        requires
            1 <= width,
        ensures
            final(self)@ == (SessionV { pen_width: width, ..old(self)@ }),
    {
        self.pen_width = width;
        proof {
            assert(self@ =~= (SessionV { pen_width: width, ..old(self)@ }));
        }
    }

    /// Begin a stroke at `(x, y)`: the surface is snapshot into the undo
    /// history and the pen configuration is bound for the whole stroke.
    pub fn begin_stroke(&mut self, x: u32, y: u32)
        requires
            old(self)@.wf(),
            old(self)@.idle(),
        ensures
            final(self)@ == old(self)@.begin_stroke_spec(x, y),
            final(self)@.wf(),
            final(self)@.stroke is Some,
    {
        let ghost prev = self@;
        let snapshot = self.surface.duplicate();
        self.history.push(snapshot);
        self.stroke = Some(
            ActiveStroke { color: self.pen_color, width: self.pen_width, last_x: x, last_y: y },
        );
        proof {
            assert(self@ =~= prev.begin_stroke_spec(x, y));
            lemma_push_spec_preserves_entries(prev.history, prev.surface);
        }
    }

    /// Extend the in-progress stroke to `(x, y)`; the new segment is
    /// rasterized immediately with the configuration bound at stroke begin.
    pub fn extend_stroke(&mut self, x: u32, y: u32)
        requires
            old(self)@.wf(),
            old(self)@.stroke is Some,
        ensures
            final(self)@ == old(self)@.extend_stroke_spec(x, y),
            final(self)@.wf(),
            final(self)@.stroke is Some,
    {
        let ghost prev = self@;
        let st = match self.stroke {
            Some(st) => st,
            None => vstd::pervasive::unreached(),
        };
        self.surface.draw_segment(st.last_x, st.last_y, x, y, st.color, st.width);
        self.stroke = Some(ActiveStroke { last_x: x, last_y: y, ..st });
        proof {
            assert(self@ =~= prev.extend_stroke_spec(x, y));
        }
    }

    /// Finish the stroke at `(x, y)`: the terminal segment (a dot, if the
    /// pointer never moved) is rasterized and the session returns to `Idle`.
    pub fn end_stroke(&mut self, x: u32, y: u32)
        requires
            old(self)@.wf(),
            old(self)@.stroke is Some,
        ensures
            final(self)@ == old(self)@.end_stroke_spec(x, y),
            final(self)@.wf(),
            final(self)@.idle(),
    {
        let ghost prev = self@;
        let st = match self.stroke {
            Some(st) => st,
            None => vstd::pervasive::unreached(),
        };
        self.surface.draw_segment(st.last_x, st.last_y, x, y, st.color, st.width);
        self.stroke = None;
        proof {
            assert(self@ =~= prev.end_stroke_spec(x, y));
        }
    }

    /// Undo the most recent stroke or clear: restore the latest snapshot.
    /// On an empty history the surface is left unchanged and `NoHistory` is
    /// reported.
    pub fn undo(&mut self) -> (r: Result<(), NoHistory>)
        requires
            old(self)@.wf(),
            old(self)@.idle(),
        ensures
            final(self)@ == old(self)@.undo_spec(),
            final(self)@.wf(),
            r is Ok <==> old(self)@.history.entries.len() > 0,
            r == Err::<(), NoHistory>(NoHistory) <==> old(self)@.history.entries.len() == 0,
    {
        let ghost prev = self@;
        match self.history.pop() {
            Some(snapshot) => {
                self.surface = snapshot;
                proof {
                    assert(self@ =~= prev.undo_spec());
                }
                Ok(())
            },
            None => {
                proof {
                    assert(self@ =~= prev);
                }
                Err(NoHistory)
            },
        }
    }

    /// Clear the surface to transparent; the cleared state is itself
    /// undoable.
    pub fn clear(&mut self)
        requires
            old(self)@.wf(),
            old(self)@.idle(),
        ensures
            final(self)@ == old(self)@.clear_spec(),
            final(self)@.wf(),
    {
        let ghost prev = self@;
        let snapshot = self.surface.duplicate();
        self.history.push(snapshot);
        let width = self.surface.width;
        let height = self.surface.height;
        proof {
            assert(width * height * 4 + height <= usize::MAX);
        }
        self.surface = BitmapBuffer::new(width, height);
        proof {
            assert(self@ =~= prev.clear_spec());
            lemma_push_spec_preserves_entries(prev.history, prev.surface);
        }
    }

    /// How many frames stand in the capture list.
    pub fn capture_count(&self) -> (r: usize)
        ensures
            r == self@.captures.frames.len(),
    {
        self.captures.len()
    }

    /// Drop every captured frame; sequence indices keep counting from where
    /// they were, and the surface and history stay as they are.
    pub fn delete_all_frames(&mut self)
        requires
            old(self)@.wf(),
        ensures
            final(self)@ == (SessionV {
                captures: FrameCaptureListV {
                    frames: Seq::<crate::capture::CaptureFrameV>::empty(),
                    next_index: old(self)@.captures.next_index,
                },
                ..old(self)@
            }),
            final(self)@.wf(),
    {
        let ghost prev = self@;
        self.captures.clear();
        proof {
            assert(self@ =~= (SessionV {
                captures: FrameCaptureListV {
                    frames: Seq::<crate::capture::CaptureFrameV>::empty(),
                    next_index: prev.captures.next_index,
                },
                ..prev
            }));
        }
    }

    /// Commit a deep copy of the current surface as the next captured frame;
    /// later edits of the surface leave the capture untouched. Returns the
    /// sequence index the capture was assigned.
    pub fn capture_frame(&mut self) -> (r: u32)
        requires
            old(self)@.wf(),
            old(self)@.idle(),
            old(self)@.captures.next_index < u32::MAX,
        ensures
            final(self)@ == old(self)@.capture_frame_spec(),
            final(self)@.wf(),
            r == old(self)@.captures.next_index,
    {
        let ghost prev = self@;
        let r = self.captures.append(&self.surface);
        proof {
            assert(self@ =~= prev.capture_frame_spec());
        }
        r
    }
}

impl Session {
    /// Export every captured frame, in capture order, as one animated PNG
    /// displayed at `delay_num / delay_den` seconds per frame. Fails with
    /// `EmptyAnimation` when nothing was captured; a failed export produces
    /// no bytes and leaves the session untouched (the session is not even
    /// mutated: export only reads it).
    pub fn export_animation(&self, delay_num: u16, delay_den: u16) -> (r: Result<
        ExportedAnimation,
        EncodeError,
    >)
        requires
            self@.wf(),
            self@.captures.frames.len() < 0x8000_0000,
        ensures
            match r {
                Ok(exported) => {
                    &&& 1 <= self@.captures.frames.len()
                    &&& exported.bytes@ == apng_bytes(
                        self@.captures.ordered_bitmaps(),
                        self@.export_config(delay_num, delay_den),
                    )
                    &&& exported.media_type@ == "image/png"@
                    &&& forall|i: int|
                        0 <= i < self@.captures.frames.len() ==> payload_fits(
                            #[trigger] self@.captures.ordered_bitmaps()[i],
                        )
                },
                Err(EncodeError::EmptyAnimation) => self@.captures.frames.len() == 0,
                Err(EncodeError::DimensionMismatch { .. }) => false,
                Err(EncodeError::FrameEncodeFailed { index }) => {
                    &&& 1 <= self@.captures.frames.len()
                    &&& index < self@.captures.frames.len()
                    &&& !payload_fits(self@.captures.ordered_bitmaps()[index as int])
                    &&& forall|j: int|
                        0 <= j < index ==> payload_fits(
                            #[trigger] self@.captures.ordered_bitmaps()[j],
                        )
                },
            },
    {
        let frames = self.captures.to_ordered_sequence();
        let config = AnimationConfig {
            canvas_width: self.surface.width,
            canvas_height: self.surface.height,
            delay_num,
            delay_den,
        };
        proof {
            assert(config == self@.export_config(delay_num, delay_den));
            assert(bitmap_views(frames@) == self@.captures.ordered_bitmaps());
            assert(self@.captures.ordered_bitmaps().len() == self@.captures.frames.len());
            assert forall|i: int| 0 <= i < frames@.len() implies (#[trigger] bitmap_views(
                frames@,
            )[i]).wf() by {
                assert(self@.captures.ordered_bitmaps()[i] == self@.captures.frames[i].bitmap);
            }
        }
        match encode_apng(&frames, &config) {
            Ok(bytes) => {
                let label = media_type();
                Ok(ExportedAnimation { bytes, media_type: label.to_owned() })
            },
            Err(e) => {
                proof {
                    if let EncodeError::DimensionMismatch { index } = e {
                        assert(self@.captures.ordered_bitmaps()[index as int]
                            == self@.captures.frames[index as int].bitmap);
                        assert(false);
                    }
                }
                Err(e)
            },
        }
    }
}

/// One whole stroke, as a value: where it begins, the points it is extended
/// through in order, and where it ends.
pub struct StrokeV {
    pub start_x: u32,
    pub start_y: u32,
    pub points: Seq<(u32, u32)>,
    pub end_x: u32,
    pub end_y: u32,
}

/// The session after extending the in-progress stroke through `points` in
/// order.
pub open spec fn do_extends(s: SessionV, points: Seq<(u32, u32)>) -> SessionV
    decreases points.len(),
{
    if points.len() == 0 {
        s
    } else {
        do_extends(s, points.drop_last()).extend_stroke_spec(points.last().0, points.last().1)
    }
}

/// The session after one whole stroke.
pub open spec fn do_stroke(s: SessionV, st: StrokeV) -> SessionV {
    do_extends(s.begin_stroke_spec(st.start_x, st.start_y), st.points).end_stroke_spec(
        st.end_x,
        st.end_y,
    )
}

/// The session after the given strokes, performed in order.
pub open spec fn do_strokes(s: SessionV, strokes: Seq<StrokeV>) -> SessionV
    decreases strokes.len(),
{
    if strokes.len() == 0 {
        s
    } else {
        do_stroke(do_strokes(s, strokes.drop_last()), strokes.last())
    }
}

/// The session after `n` undo requests.
pub open spec fn do_undos(s: SessionV, n: nat) -> SessionV
    decreases n,
{
    if n == 0 {
        s
    } else {
        do_undos(s.undo_spec(), (n - 1) as nat)
    }
}

/// Extending a stroke only repaints the surface: history, captures, pen
/// configuration, the bound stroke configuration, and the surface dimensions
/// all stay as they were, and the session stays well-formed.
pub proof fn lemma_extends_effect(s: SessionV, points: Seq<(u32, u32)>)
    requires
        s.wf(),
        s.stroke is Some,
    ensures
        ({
            let m = do_extends(s, points);
            &&& m.wf()
            &&& m.stroke is Some
            &&& m.stroke->0.color == s.stroke->0.color
            &&& m.stroke->0.width == s.stroke->0.width
            &&& m.history == s.history
            &&& m.captures == s.captures
            &&& m.pen_color == s.pen_color
            &&& m.pen_width == s.pen_width
            &&& m.surface.width == s.surface.width
            &&& m.surface.height == s.surface.height
        }),
    decreases points.len(),
{
    if points.len() == 0 {
    } else {
        lemma_extends_effect(s, points.drop_last());
        let m = do_extends(s, points.drop_last());
        crate::bitmap::lemma_paint_wf(
            m.surface,
            m.stroke->0.color,
            crate::bitmap::seg_cov(
                m.stroke->0.last_x as int,
                m.stroke->0.last_y as int,
                points.last().0 as int,
                points.last().1 as int,
                m.stroke->0.width as int,
            ),
        );
    }
}

/// One whole stroke pushes exactly one snapshot — the surface as it stood
/// before the stroke — and otherwise changes only the surface and returns to
/// `Idle`.
pub proof fn lemma_stroke_effect(s: SessionV, st: StrokeV)
    requires
        s.wf(),
        s.idle(),
    ensures
        ({
            let m = do_stroke(s, st);
            &&& m.wf()
            &&& m.idle()
            &&& m.history == s.history.push_spec(s.surface)
            &&& m.captures == s.captures
            &&& m.pen_color == s.pen_color
            &&& m.pen_width == s.pen_width
            &&& m.surface.width == s.surface.width
            &&& m.surface.height == s.surface.height
        }),
{
    let b = s.begin_stroke_spec(st.start_x, st.start_y);
    assert(b.wf()) by {
        lemma_push_spec_preserves_entries(s.history, s.surface);
    }
    lemma_extends_effect(b, st.points);
    let m = do_extends(b, st.points);
    crate::bitmap::lemma_paint_wf(
        m.surface,
        m.stroke->0.color,
        crate::bitmap::seg_cov(
            m.stroke->0.last_x as int,
            m.stroke->0.last_y as int,
            st.end_x as int,
            st.end_y as int,
            m.stroke->0.width as int,
        ),
    );
}

/// With an unbounded history, one undo takes back exactly one whole stroke:
/// the session returns to precisely the state it had before the stroke.
pub proof fn lemma_stroke_undo_cancels(s: SessionV, st: StrokeV)
    requires
        s.wf(),
        s.idle(),
        s.history.limit is None,
    ensures
        do_stroke(s, st).undo_spec() == s,
{
    lemma_stroke_effect(s, st);
    let m = do_stroke(s, st);
    assert(m.history.entries == s.history.entries.push(s.surface));
    assert(m.history.entries.len() > 0);
    let u = m.undo_spec();
    assert(u.surface == s.surface);
    assert(u.history.entries =~= s.history.entries);
    assert(u.history =~= s.history);
    assert(u =~= s);
}

/// Whole strokes keep the session well-formed, idle, and its history cap
/// unchanged.
pub proof fn lemma_strokes_wf(s: SessionV, strokes: Seq<StrokeV>)
    requires
        s.wf(),
        s.idle(),
    ensures
        do_strokes(s, strokes).wf(),
        do_strokes(s, strokes).idle(),
        do_strokes(s, strokes).history.limit == s.history.limit,
    decreases strokes.len(),
{
    if strokes.len() == 0 {
    } else {
        lemma_strokes_wf(s, strokes.drop_last());
        lemma_stroke_effect(do_strokes(s, strokes.drop_last()), strokes.last());
    }
}

/// Round trip: with an unbounded history, any sequence of `n` whole strokes
/// followed by `n` undo requests returns the session — the surface
/// byte for byte, and every other part of the state — to exactly what it was.
pub proof fn lemma_strokes_then_undos_round_trip(s: SessionV, strokes: Seq<StrokeV>)
    requires
        s.wf(),
        s.idle(),
        s.history.limit is None,
    ensures
        do_undos(do_strokes(s, strokes), strokes.len()) == s,
        do_undos(do_strokes(s, strokes), strokes.len()).surface == s.surface,
    decreases strokes.len(),
{
    if strokes.len() == 0 {
    } else {
        let prev = do_strokes(s, strokes.drop_last());
        lemma_strokes_wf(s, strokes.drop_last());
        lemma_stroke_undo_cancels(prev, strokes.last());
        lemma_strokes_then_undos_round_trip(s, strokes.drop_last());
        assert(do_strokes(s, strokes) == do_stroke(prev, strokes.last()));
        lemma_do_undos_step(do_stroke(prev, strokes.last()), strokes.len());
    }
}

/// Unfolding helper: `n` undos are one undo and then `n - 1` of them.
proof fn lemma_do_undos_step(s: SessionV, n: nat)
    requires
        1 <= n,
    ensures
        do_undos(s, n) == do_undos(s.undo_spec(), (n - 1) as nat),
{
}

/// Two captures with no edits between them store two frames with identical
/// pixel content — the surface itself, unchanged — under distinct, ascending
/// sequence indices.
pub proof fn lemma_capture_twice(s: SessionV)
    requires
        s.captures.next_index + 1 < u32::MAX,
    ensures
        ({
            let s2 = s.capture_frame_spec().capture_frame_spec();
            let n = s.captures.frames.len() as int;
            &&& s2.captures.frames.len() == n + 2
            &&& s2.captures.frames[n].bitmap == s.surface
            &&& s2.captures.frames[n + 1].bitmap == s.surface
            &&& s2.captures.frames[n].sequence_index == s.captures.next_index
            &&& s2.captures.frames[n + 1].sequence_index == s.captures.next_index + 1
            &&& s2.captures.frames[n].sequence_index != s2.captures.frames[n + 1].sequence_index
            &&& s2.surface == s.surface
        }),
{
}

/// Deep-copy invariant: no operation that mutates the live surface — a
/// stroke begun, extended or ended, an undo, or a clear — changes any
/// previously captured frame.
pub proof fn lemma_surface_ops_preserve_captures(s: SessionV, x: u32, y: u32)
    ensures
        s.begin_stroke_spec(x, y).captures == s.captures,
        s.extend_stroke_spec(x, y).captures == s.captures,
        s.end_stroke_spec(x, y).captures == s.captures,
        s.undo_spec().captures == s.captures,
        s.clear_spec().captures == s.captures,
{
}

/// Recording one more snapshot keeps every stored entry one of the entries
/// that were already stored, or the new snapshot itself.
pub proof fn lemma_push_spec_preserves_entries(h: UndoHistoryV, b: BitmapV)
    requires
        h.wf(),
    ensures
        forall|i: int|
            0 <= i < h.push_spec(b).entries.len() ==> (#[trigger] h.push_spec(b).entries[i]) == b
                || h.entries.contains(h.push_spec(b).entries[i]),
{
    let pushed = h.push_spec(b);
    assert forall|i: int| 0 <= i < pushed.entries.len() implies (#[trigger] pushed.entries[i]) == b
        || h.entries.contains(pushed.entries[i]) by {
        match h.limit {
            Some(l) => {
                if h.entries.len() < l {
                    if i < h.entries.len() {
                        assert(h.entries.contains(h.entries[i]));
                    }
                } else {
                    if i < pushed.entries.len() - 1 {
                        assert(pushed.entries[i] == h.entries[i + 1]);
                        assert(h.entries.contains(h.entries[i + 1]));
                    }
                }
            },
            None => {
                if i < h.entries.len() {
                    assert(h.entries.contains(h.entries[i]));
                }
            },
        }
    }
}

} // verus!
