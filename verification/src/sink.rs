//! The delivery queue of one session: files waiting to be written to its
//! connection, first in, first out.

use std::collections::VecDeque;
use vstd::prelude::*;
use crate::protocol::{
    frames_view, lemma_wire_concat, unit_frames, units_view, wire_of, DeliveryUnit, Frame,
    FrameView, UnitView,
};

verus! {

/// An ordered queue of delivery units without a bound on its depth. Many
/// may put units in; one writer takes them out.
pub struct Sink {
    queue: VecDeque<DeliveryUnit>,
}

impl View for Sink {
    type V = Seq<UnitView>;

    closed spec fn view(&self) -> Seq<UnitView> {
        units_view(self.queue@)
    }
}

/// The wire of a run that is not empty starts with the two frames of its
/// first unit; the wire of the rest follows.
pub proof fn lemma_wire_first(units: Seq<UnitView>)
    requires
        units.len() > 0,
    ensures
        wire_of(units) == unit_frames(units[0]) + wire_of(units.drop_first()),
{
    let first = seq![units[0]];
    assert(first + units.drop_first() =~= units);
    lemma_wire_concat(first, units.drop_first());
    assert(wire_of(first) =~= unit_frames(units[0]));
}

impl Sink {
    /// An empty queue.
    pub fn new() -> (sink: Sink)
        ensures
            sink@ == Seq::<UnitView>::empty(),
    {
        let sink = Sink { queue: VecDeque::new() };
        proof {
            assert(sink@ =~= Seq::<UnitView>::empty());
        }
        sink
    }

    /// The number of units that wait.
    pub fn len(&self) -> (n: usize)
        ensures
            n == self@.len(),
    {
        self.queue.len()
    }

    /// Puts `unit` behind every unit that already waits. Never refuses and
    /// never waits.
    pub fn enqueue(&mut self, unit: DeliveryUnit)
        ensures
            final(self)@ == old(self)@.push(unit@),
    {
        self.queue.push_back(unit);
        proof {
            assert(final(self)@ =~= old(self)@.push(unit@));
        }
    }

    /// Takes out the unit that has waited longest, if any waits.
    pub fn dequeue(&mut self) -> (unit: Option<DeliveryUnit>)
        ensures
            match unit {
                Some(first) => {
                    &&& old(self)@.len() > 0
                    &&& first@ == old(self)@[0]
                    &&& final(self)@ == old(self)@.drop_first()
                },
                None => old(self)@.len() == 0 && final(self)@ == old(self)@,
            },
    {
        let unit = self.queue.pop_front();
        proof {
            if unit is Some {
                assert(final(self)@ =~= old(self)@.drop_first());
            }
        }
        unit
    }

    /// Empties the queue onto the wire: for each waiting unit, longest
    /// waiting first, its name frame directly followed by its content frame.
    pub fn drain(&mut self) -> (frames: Vec<Frame>)
        ensures
            frames_view(frames@) == wire_of(old(self)@),
            final(self)@.len() == 0,
    {
        let mut frames: Vec<Frame> = Vec::new();
        proof {
            assert(frames_view(frames@) + wire_of(self@) =~= wire_of(old(self)@));
        }
        loop
            invariant
                frames_view(frames@) + wire_of(self@) == wire_of(old(self)@),
            ensures
                frames_view(frames@) == wire_of(old(self)@),
                self@.len() == 0,
            decreases self@.len(),
        {
            let ghost waiting = self@;
            let ghost written = frames@;
            match self.dequeue() {
                Some(unit) => {
                    frames.push(Frame::Text(unit.filename));
                    frames.push(Frame::Binary(unit.payload));
                    proof {
                        lemma_wire_first(waiting);
                        assert(frames_view(frames@) =~= frames_view(written) + unit_frames(
                            unit@,
                        ));
                        assert(frames_view(frames@) + wire_of(self@) =~= frames_view(written)
                            + wire_of(waiting));
                    }
                },
                None => {
                    proof {
                        assert(wire_of(self@) =~= Seq::<FrameView>::empty());
                        assert(frames_view(frames@) =~= frames_view(frames@) + wire_of(self@));
                    }
                    break ;
                },
            }
        }
        frames
    }
}

} // verus!
