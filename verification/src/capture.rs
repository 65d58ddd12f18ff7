//! Frame capture list: the ordered sequence of snapshots the user committed
//! for animation export. Insertion order is significant, duplicates are
//! allowed, and each capture keeps a stable capture-time sequence index.

use vstd::prelude::*;

use crate::bitmap::BitmapBuffer;
use crate::bitmap::BitmapV;

verus! {

/// The mathematical model of one captured frame.
#[verifier::ext_equal]
pub struct CaptureFrameV {
    pub bitmap: BitmapV,
    pub sequence_index: u32,
}

/// A still the user explicitly chose to add to the animation.
pub struct CaptureFrame {
    pub bitmap: BitmapBuffer,
    pub sequence_index: u32,
}

impl View for CaptureFrame {
    type V = CaptureFrameV;

    open spec fn view(&self) -> CaptureFrameV {
        CaptureFrameV { bitmap: self.bitmap@, sequence_index: self.sequence_index }
    }
}

/// The mathematical model of the capture list: the captured frames in capture
/// order and the next sequence index to assign.
#[verifier::ext_equal]
pub struct FrameCaptureListV {
    pub frames: Seq<CaptureFrameV>,
    pub next_index: u32,
}

impl FrameCaptureListV {
    /// The list after committing one more snapshot.
    pub open spec fn append_spec(self, b: BitmapV) -> FrameCaptureListV {
        FrameCaptureListV {
            frames: self.frames.push(CaptureFrameV { bitmap: b, sequence_index: self.next_index }),
            next_index: (self.next_index + 1) as u32,
        }
    }

    /// The bitmaps of the captured frames, in capture order.
    pub open spec fn ordered_bitmaps(self) -> Seq<BitmapV> {
        self.frames.map_values(|f: CaptureFrameV| f.bitmap)
    }
}

/// Ordered sequence of captured frames, insertion order significant.
pub struct FrameCaptureList {
    pub frames: Vec<CaptureFrame>,
    pub next_index: u32,
}

impl View for FrameCaptureList {
    type V = FrameCaptureListV;

    open spec fn view(&self) -> FrameCaptureListV {
        FrameCaptureListV {
            frames: self.frames@.map_values(|f: CaptureFrame| f@),
            next_index: self.next_index,
        }
    }
}

impl FrameCaptureList {
    /// An empty capture list; sequence indices start at zero.
    pub fn new() -> (r: FrameCaptureList)
        ensures
            r@ == (FrameCaptureListV { frames: Seq::<CaptureFrameV>::empty(), next_index: 0 }),
    {
        let r = FrameCaptureList { frames: Vec::new(), next_index: 0 };
        proof {
            assert(r@.frames =~= Seq::<CaptureFrameV>::empty());
            assert(r@ =~= (FrameCaptureListV {
                frames: Seq::<CaptureFrameV>::empty(),
                next_index: 0,
            }));
        }
        r
    }

    pub fn len(&self) -> (r: usize)
        ensures
            r == self@.frames.len(),
    {
        self.frames.len()
    }

    pub fn is_empty(&self) -> (r: bool)
        ensures
            r <==> self@.frames.len() == 0,
    {
        self.frames.len() == 0
    }

    /// Commit a deep copy of `bitmap` as the next captured frame and hand
    /// back the sequence index it was assigned.
    pub fn append(&mut self, bitmap: &BitmapBuffer) -> (r: u32)
        requires
            old(self)@.next_index < u32::MAX,
        ensures
            final(self)@ == old(self)@.append_spec(bitmap@),
            r == old(self)@.next_index,
    {
        let ghost prev = self@;
        let assigned = self.next_index;
        let frame = CaptureFrame { bitmap: bitmap.duplicate(), sequence_index: assigned };
        self.frames.push(frame);
        self.next_index = self.next_index + 1;
        proof {
            assert(self@.frames =~= prev.frames.push(
                CaptureFrameV { bitmap: bitmap@, sequence_index: prev.next_index },
            ));
            assert(self@ =~= prev.append_spec(bitmap@));
        }
        assigned
    }

    /// Remove the capture at position `index`; the sequence indices of the
    /// remaining captures do not change.
    pub fn remove_at(&mut self, index: usize)
        requires
            index < old(self)@.frames.len(),
        ensures
            final(self)@.frames == old(self)@.frames.remove(index as int),
            final(self)@.next_index == old(self)@.next_index,
    {
        let ghost prev = self@;
        self.frames.remove(index);
        proof {
            assert(self@.frames =~= prev.frames.remove(index as int));
        }
    }

    /// Drop every captured frame; sequence indices keep counting from where
    /// they were.
    pub fn clear(&mut self)
        ensures
            final(self)@.frames == Seq::<CaptureFrameV>::empty(),
            final(self)@.next_index == old(self)@.next_index,
    {
        self.frames.clear();
        proof {
            assert(self@.frames =~= Seq::<CaptureFrameV>::empty());
        }
    }

    /// Deep copies of the captured bitmaps, in capture order; the read-only
    /// view the animation encoder consumes.
    pub fn to_ordered_sequence(&self) -> (r: Vec<BitmapBuffer>)
        ensures
            crate::bitmap::bitmap_views(r@) == self@.ordered_bitmaps(),
    {
        let mut out: Vec<BitmapBuffer> = Vec::new();
        let mut i: usize = 0;
        while i < self.frames.len()
            invariant
                i <= self.frames.len(),
                crate::bitmap::bitmap_views(out@) =~= self@.ordered_bitmaps().subrange(
                    0,
                    i as int,
                ),
            decreases self.frames.len() - i,
        {
            let ghost out_prev = out@;
            out.push(self.frames[i].bitmap.duplicate());
            proof {
                assert(crate::bitmap::bitmap_views(out_prev).len() == out_prev.len());
                assert(out_prev.len() == i as int);
                assert(out@.len() == i as int + 1);
                assert(crate::bitmap::bitmap_views(out@).len() == i as int + 1);
                assert(self@.frames.len() == self.frames@.len());
                assert(self@.ordered_bitmaps().len() == self@.frames.len());
                assert forall|j: int|
                    0 <= j <= i as int implies crate::bitmap::bitmap_views(out@)[j]
                    == self@.ordered_bitmaps()[j] by {
                    if j < i as int {
                        assert(crate::bitmap::bitmap_views(out_prev)[j] == self@.ordered_bitmaps()
                            .subrange(0, i as int)[j]);
                    } else {
                        assert(out@[j]@ == self@.frames[i as int].bitmap);
                    }
                }
                assert(crate::bitmap::bitmap_views(out@) =~= self@.ordered_bitmaps().subrange(
                    0,
                    i as int + 1,
                ));
            }
            i = i + 1;
        }
        proof {
            assert(self@.ordered_bitmaps().subrange(0, self@.ordered_bitmaps().len() as int)
                =~= self@.ordered_bitmaps());
        }
        out
    }
}

} // verus!
