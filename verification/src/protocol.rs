//! The frames that travel between hub and client, and the unit of delivery.

use vstd::prelude::*;

verus! {

/// One application frame, as a message-oriented transport hands it over.
#[derive(Debug, Clone, PartialEq, Eq)]
pub enum Frame {
    /// A text frame: an identity declaration or the name of a file.
    Text(String),
    /// A binary frame: the content of a file.
    Binary(Vec<u8>),
}

/// What a [`Frame`] holds, as mathematical sequences.
pub enum FrameView {
    Text(Seq<char>),
    Binary(Seq<u8>),
}

impl View for Frame {
    type V = FrameView;

    open spec fn view(&self) -> FrameView {
        match self {
            Frame::Text(text) => FrameView::Text(text@),
            Frame::Binary(bytes) => FrameView::Binary(bytes@),
        }
    }
}

/// The views of a sequence of frames, in order.
pub open spec fn frames_view(frames: Seq<Frame>) -> Seq<FrameView> {
    frames.map_values(|frame: Frame| frame@)
}

/// The marker that opens an identity declaration.
pub open spec fn identity_prefix() -> Seq<char> {
    seq!['I', 'D', ':']
}

/// The identity that a frame declares: the text behind the marker, when the
/// frame is a text frame that starts with it.
pub open spec fn declared_identity(frame: FrameView) -> Option<Seq<char>> {
    match frame {
        FrameView::Text(text) => if identity_prefix().is_prefix_of(text) {
            Some(text.skip(3))
        } else {
            None
        },
        FrameView::Binary(_) => None,
    }
}

/// Builds the frame by which a client announces itself under `identity`.
pub fn declare_identity(identity: &str) -> (frame: Frame)
    ensures
        frame@ == FrameView::Text(identity_prefix() + identity@),
        declared_identity(frame@) == Some(identity@),
{
    proof {
        reveal_strlit("ID:");
        assert("ID:"@ =~= identity_prefix());
        assert((identity_prefix() + identity@).skip(3) =~= identity@);
    }
    let text = String::from_str("ID:").concat(identity);
    Frame::Text(text)
}

/// Reads an identity declaration. Returns the declared identity, or `None`
/// for a binary frame and for text that does not start with the marker.
pub fn parse_identity(frame: &Frame) -> (identity: Option<String>)
    ensures
        match identity {
            Some(id) => declared_identity(frame@) == Some(id@),
            None => declared_identity(frame@) is None,
        },
{
    match frame {
        Frame::Text(text) => {
            let s = text.as_str();
            let n = s.unicode_len();
            if n >= 3 && s.get_char(0) == 'I' && s.get_char(1) == 'D' && s.get_char(2) == ':' {
                let rest = s.substring_char(3, n);
                proof {
                    assert(s@.subrange(3, n as int) =~= s@.skip(3));
                }
                Some(String::from_str(rest))
            } else {
                None
            }
        },
        Frame::Binary(_) => None,
    }
}

/// A file on its way to one client: its name and its content, kept together
/// from the moment it is accepted until both frames are on the wire.
#[derive(Debug, Clone, PartialEq, Eq)]
pub struct DeliveryUnit {
    pub filename: String,
    pub payload: Vec<u8>,
}

/// What a [`DeliveryUnit`] holds, as mathematical sequences.
pub struct UnitView {
    pub filename: Seq<char>,
    pub payload: Seq<u8>,
}

impl View for DeliveryUnit {
    type V = UnitView;

    open spec fn view(&self) -> UnitView {
        UnitView { filename: self.filename@, payload: self.payload@ }
    }
}

/// The views of a sequence of units, in order.
pub open spec fn units_view(units: Seq<DeliveryUnit>) -> Seq<UnitView> {
    units.map_values(|unit: DeliveryUnit| unit@)
}

/// The two frames of one unit: the name as text, then the content as binary.
pub open spec fn unit_frames(unit: UnitView) -> Seq<FrameView> {
    seq![FrameView::Text(unit.filename), FrameView::Binary(unit.payload)]
}

/// The frames that a run of units puts on the wire: frame `2 * i` carries the
/// name of unit `i` and frame `2 * i + 1` its content.
pub open spec fn wire_of(units: Seq<UnitView>) -> Seq<FrameView> {
    Seq::new(
        2 * units.len(),
        |j: int|
            if j % 2 == 0 {
                FrameView::Text(units[j / 2].filename)
            } else {
                FrameView::Binary(units[j / 2].payload)
            },
    )
}

/// The name under which an upload travels when its sender gave none.
pub open spec fn fallback_filename() -> Seq<char> {
    "unknown.bin"@
}

impl DeliveryUnit {
    /// Pairs a name with a content.
    pub fn new(filename: String, payload: Vec<u8>) -> (unit: DeliveryUnit)
        ensures
            unit@ == (UnitView { filename: filename@, payload: payload@ }),
    {
        DeliveryUnit { filename, payload }
    }

    /// Pairs a content with the name its sender declared, or with
    /// `unknown.bin` when the sender declared none.
    pub fn from_upload(declared: Option<String>, payload: Vec<u8>) -> (unit: DeliveryUnit)
        ensures
            unit@.payload == payload@,
            unit@.filename == match declared {
                Some(name) => name@,
                None => fallback_filename(),
            },
    {
        let filename = match declared {
            Some(name) => name,
            None => String::from_str("unknown.bin"),
        };
        DeliveryUnit { filename, payload }
    }

    /// Splits the unit into its two frames, in wire order.
    pub fn into_frames(self) -> (frames: Vec<Frame>)
        ensures
            frames_view(frames@) == unit_frames(self@),
    {
        let mut frames: Vec<Frame> = Vec::new();
        frames.push(Frame::Text(self.filename));
        frames.push(Frame::Binary(self.payload));
        proof {
            assert(frames_view(frames@) =~= unit_frames(self@));
        }
        frames
    }
}

/// Appending a unit to a run appends exactly its two frames, side by side,
/// behind everything that was already there.
pub proof fn lemma_wire_push(units: Seq<UnitView>, unit: UnitView)
    ensures
        wire_of(units.push(unit)) == wire_of(units) + unit_frames(unit),
{
    assert(wire_of(units.push(unit)) =~= wire_of(units) + unit_frames(unit));
}

/// The wire of two runs, one after the other, is the wire of the first
/// followed by the wire of the second: no frame of one run stands between
/// two frames of the other.
pub proof fn lemma_wire_concat(first: Seq<UnitView>, second: Seq<UnitView>)
    ensures
        wire_of(first + second) == wire_of(first) + wire_of(second),
{
    assert(wire_of(first + second) =~= wire_of(first) + wire_of(second));
}

/// Puts a run of units on the wire: for each unit, in order, its name frame
/// directly followed by its content frame.
pub fn encode_units(units: Vec<DeliveryUnit>) -> (frames: Vec<Frame>)
    ensures
        frames_view(frames@) == wire_of(units_view(units@)),
{
    let ghost all = units_view(units@);
    let mut frames: Vec<Frame> = Vec::new();
    for unit in it: units
        invariant
            frames_view(frames@) == wire_of(all.take(it.index() as int)),
            all == units_view(it.seq()),
    {
        let ghost before = frames@;
        let ghost k = it.index() as int;
        frames.push(Frame::Text(unit.filename));
        frames.push(Frame::Binary(unit.payload));
        proof {
            assert(all[k] == unit@);
            assert(all.take(k + 1) =~= all.take(k).push(unit@));
            lemma_wire_push(all.take(k), unit@);
            assert(frames_view(frames@) =~= frames_view(before) + unit_frames(unit@));
        }
    }
    proof {
        assert(all.take(all.len() as int) =~= all);
    }
    frames
}

} // verus!
