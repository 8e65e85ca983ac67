//! The receiving end of a delivery: pairing each content frame with the
//! name frame that announced it.

use vstd::prelude::*;
use crate::protocol::{wire_of, DeliveryUnit, Frame, FrameView, UnitView};

verus! {

/// A frame that arrived out of sequence.
#[derive(Debug, Clone, Copy, PartialEq, Eq, Structural)]
pub enum ProtocolViolation {
    /// A name frame arrived while an earlier name was still waiting for its
    /// content. The earlier name is dropped.
    RepeatedHeader,
    /// A content frame arrived with no name waiting for it. The content is
    /// dropped.
    MissingHeader,
}

/// What the receiver makes of one frame.
#[derive(Debug, Clone, PartialEq, Eq)]
pub enum Received {
    /// A name was noted; its content is expected next.
    Announced,
    /// A content arrived for the waiting name: one whole file.
    File(DeliveryUnit),
    /// The frame broke the sequence; nothing was delivered.
    Violation(ProtocolViolation),
}

/// What a [`Received`] holds, as mathematical values.
pub enum ReceivedView {
    Announced,
    File(UnitView),
    Violation(ProtocolViolation),
}

impl View for Received {
    type V = ReceivedView;

    open spec fn view(&self) -> ReceivedView {
        match self {
            Received::Announced => ReceivedView::Announced,
            Received::File(unit) => ReceivedView::File(unit@),
            Received::Violation(violation) => ReceivedView::Violation(*violation),
        }
    }
}

/// The name that waits for its content after `frame` arrived while `pending`
/// was waiting: the newest name frame, until a content frame uses it up.
pub open spec fn pending_after(pending: Option<Seq<char>>, frame: FrameView) -> Option<Seq<char>> {
    match frame {
        FrameView::Text(name) => Some(name),
        FrameView::Binary(_) => None,
    }
}

/// What the receiver reports for `frame` when `pending` is waiting.
pub open spec fn outcome_of(pending: Option<Seq<char>>, frame: FrameView) -> ReceivedView {
    match frame {
        FrameView::Text(_) => match pending {
            None => ReceivedView::Announced,
            Some(_) => ReceivedView::Violation(ProtocolViolation::RepeatedHeader),
        },
        FrameView::Binary(payload) => match pending {
            Some(filename) => ReceivedView::File(UnitView { filename, payload }),
            None => ReceivedView::Violation(ProtocolViolation::MissingHeader),
        },
    }
}

/// The name that waits after a whole run of frames.
pub open spec fn pending_after_all(pending: Option<Seq<char>>, frames: Seq<FrameView>) -> Option<
    Seq<char>,
>
    decreases frames.len(),
{
    if frames.len() == 0 {
        pending
    } else {
        pending_after(pending_after_all(pending, frames.drop_last()), frames.last())
    }
}

/// The files that a run of frames delivers, in order of arrival.
pub open spec fn files_of(pending: Option<Seq<char>>, frames: Seq<FrameView>) -> Seq<UnitView>
    decreases frames.len(),
{
    if frames.len() == 0 {
        Seq::empty()
    } else {
        let earlier = files_of(pending, frames.drop_last());
        match outcome_of(pending_after_all(pending, frames.drop_last()), frames.last()) {
            ReceivedView::File(unit) => earlier.push(unit),
            _ => earlier,
        }
    }
}

/// The number of frames in a run that break the sequence.
pub open spec fn violations_in(pending: Option<Seq<char>>, frames: Seq<FrameView>) -> nat
    decreases frames.len(),
{
    if frames.len() == 0 {
        0
    } else {
        let earlier = violations_in(pending, frames.drop_last());
        match outcome_of(pending_after_all(pending, frames.drop_last()), frames.last()) {
            ReceivedView::Violation(_) => earlier + 1,
            _ => earlier,
        }
    }
}

/// The receiver's memory between frames: the name that still waits for its
/// content, if any.
#[derive(Debug)]
pub struct Inbox {
    pending: Option<String>,
}

impl View for Inbox {
    type V = Option<Seq<char>>;

    closed spec fn view(&self) -> Option<Seq<char>> {
        match self.pending {
            Some(name) => Some(name@),
            None => None,
        }
    }
}

impl Inbox {
    /// A receiver that has seen no frame yet.
    pub fn new() -> (inbox: Inbox)
        ensures
            inbox@ is None,
    {
        Inbox { pending: None }
    }

    /// Whether a name is waiting for its content.
    pub fn is_waiting(&self) -> (waiting: bool)
        ensures
            waiting == (self@ is Some),
    {
        self.pending.is_some()
    }

    /// Takes the next frame off the connection. A name frame becomes the
    /// waiting name; a content frame is paired with the waiting name and
    /// handed out as a file. Two names in a row, and a content with no name
    /// waiting, are reported and deliver nothing; the receiver goes on.
    pub fn accept(&mut self, frame: Frame) -> (received: Received)
        ensures
            final(self)@ == pending_after(old(self)@, frame@),
            received@ == outcome_of(old(self)@, frame@),
    {
        match frame {
            Frame::Text(name) => {
                let repeated = self.pending.is_some();
                self.pending = Some(name);
                if repeated {
                    Received::Violation(ProtocolViolation::RepeatedHeader)
                } else {
                    Received::Announced
                }
            },
            Frame::Binary(payload) => {
                let waiting = self.pending.take();
                match waiting {
                    Some(filename) => Received::File(DeliveryUnit { filename, payload }),
                    None => Received::Violation(ProtocolViolation::MissingHeader),
                }
            },
        }
    }
}

/// A receiver with nothing waiting that reads the wire of a run of units
/// delivers exactly those units, in order, reports no violation and ends
/// with nothing waiting.
pub proof fn lemma_wire_round_trip(units: Seq<UnitView>)
    ensures
        files_of(None, wire_of(units)) == units,
        violations_in(None, wire_of(units)) == 0,
        pending_after_all(None, wire_of(units)) is None,
    decreases units.len(),
{
    let wire = wire_of(units);
    if units.len() == 0 {
        assert(wire.len() == 0);
        assert(files_of(None, wire) =~= units);
    } else {
        let head = units.drop_last();
        let unit = units.last();
        lemma_wire_round_trip(head);
        let without_payload = wire.drop_last();
        assert(without_payload.drop_last() =~= wire_of(head));
        assert(without_payload.last() == FrameView::Text(unit.filename));
        assert(wire.last() == FrameView::Binary(unit.payload));
        assert(pending_after_all(None, without_payload) == Some(unit.filename));
        assert(files_of(None, without_payload) == head);
        assert(violations_in(None, without_payload) == 0);
        assert(files_of(None, wire) == head.push(unit));
        assert(head.push(unit) =~= units);
    }
}

/// Where a received file is kept: under its own name in the directory
/// `files`.
pub fn storage_path(filename: &str) -> (path: String)
    ensures
        path@ == "files/"@ + filename@,
{
    String::from_str("files/").concat(filename)
}

} // verus!
