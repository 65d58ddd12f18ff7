//! Undo history for the live drawing surface: a stack of owned snapshots of
//! the bitmap, most recent last, optionally capped. On overflow the oldest
//! snapshot is evicted.

use vstd::prelude::*;

use crate::bitmap::BitmapBuffer;
use crate::bitmap::BitmapV;

verus! {

/// The mathematical model of the history: the stack of snapshots,
/// oldest first, and the optional cap.
#[verifier::ext_equal]
pub struct UndoHistoryV {
    pub entries: Seq<BitmapV>,
    pub limit: Option<usize>,
}

impl UndoHistoryV {
    /// Validity: a cap is at least one and is never exceeded.
    pub open spec fn wf(self) -> bool {
        match self.limit {
            Some(l) => 1 <= l && self.entries.len() <= l,
            None => true,
        }
    }

    /// The stack after recording one more snapshot: pushed at the end and, if
    /// the stack is at its cap, with the oldest entry evicted.
    pub open spec fn push_spec(self, b: BitmapV) -> UndoHistoryV {
        match self.limit {
            Some(l) => if self.entries.len() < l {
                UndoHistoryV { entries: self.entries.push(b), ..self }
            } else {
                UndoHistoryV { entries: self.entries.subrange(1, self.entries.len() as int).push(b), ..self }
            },
            None => UndoHistoryV { entries: self.entries.push(b), ..self },
        }
    }

    /// The stack after taking back the most recent snapshot.
    pub open spec fn pop_spec(self) -> UndoHistoryV {
        UndoHistoryV { entries: self.entries.drop_last(), ..self }
    }
}

/// Ordered stack of snapshots of the drawing surface, most recent last.
pub struct UndoHistory {
    pub entries: Vec<BitmapBuffer>,
    pub limit: Option<usize>,
}

impl View for UndoHistory {
    type V = UndoHistoryV;

    open spec fn view(&self) -> UndoHistoryV {
        UndoHistoryV {
            entries: self.entries@.map_values(|e: BitmapBuffer| e@),
            limit: self.limit,
        }
    }
}

impl UndoHistory {
    /// An empty history. `limit` of `None` leaves the stack unbounded;
    /// `Some(l)` caps it at `l` snapshots, evicting the oldest on overflow.
    pub fn new(limit: Option<usize>) -> (r: UndoHistory)
        requires
            limit is Some ==> 1 <= limit->0,
        ensures
            r@ == (UndoHistoryV { entries: Seq::<BitmapV>::empty(), limit }),
            r@.wf(),
    {
        let r = UndoHistory { entries: Vec::new(), limit };
        proof {
            assert(r@.entries =~= Seq::<BitmapV>::empty());
            assert(r@ =~= (UndoHistoryV { entries: Seq::<BitmapV>::empty(), limit }));
        }
        r
    }

    pub fn len(&self) -> (r: usize)
        ensures
            r == self@.entries.len(),
    {
        self.entries.len()
    }

    pub fn is_empty(&self) -> (r: bool)
        ensures
            r <==> self@.entries.len() == 0,
    {
        self.entries.len() == 0
    }

    /// Record one snapshot, evicting the oldest one if the stack is at its
    /// cap.
    pub fn push(&mut self, b: BitmapBuffer)
        requires
            old(self)@.wf(),
        ensures
            final(self)@ == old(self)@.push_spec(b@),
            final(self)@.wf(),
    {
        let ghost prev = self@;
        match self.limit {
            Some(l) => {
                if self.entries.len() >= l {
                    self.entries.remove(0);
                    proof {
                        assert(self@.entries =~= prev.entries.subrange(
                            1,
                            prev.entries.len() as int,
                        ));
                    }
                }
            },
            None => {},
        }
        let ghost mid = self@;
        self.entries.push(b);
        proof {
            assert(self@.entries =~= mid.entries.push(b@));
            assert(self@ =~= prev.push_spec(b@));
        }
    }

    /// Take back the most recent snapshot, newest first; `None` on an empty
    /// history.
    pub fn pop(&mut self) -> (r: Option<BitmapBuffer>)
        ensures
            old(self)@.entries.len() == 0 ==> r is None && final(self)@ == old(self)@,
            old(self)@.entries.len() > 0 ==> {
                &&& r is Some
                &&& r->0@ == old(self)@.entries.last()
                &&& final(self)@ == old(self)@.pop_spec()
            },
            final(self)@.limit == old(self)@.limit,
    {
        let ghost prev = self@;
        let r = self.entries.pop();
        proof {
            if prev.entries.len() == 0 {
                assert(self@.entries =~= prev.entries);
                assert(self@ =~= prev);
            } else {
                assert(self@.entries =~= prev.entries.drop_last());
                assert(self@ =~= prev.pop_spec());
            }
        }
        r
    }
}

} // verus!
