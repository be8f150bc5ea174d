//! The communication matrix: frames, their signals and the value labels.

use vstd::prelude::*;
use vstd::string::StringExecFns;

verus! {

/// A label declared for one raw value of a signal.
#[derive(Debug, Clone, PartialEq, Eq)]
pub struct SignalValueNames {
    pub name: String,
    pub value: i32,
}

/// Where a signal sits in a frame's payload, and the labels of its values.
///
/// `start_byte` counts from 1 and names the byte holding the signal's least
/// significant bit; `start_bit` is the position of that bit in the byte, with
/// 0 the least significant bit.
#[derive(Debug, Clone, PartialEq, Eq)]
pub struct CanSignal {
    pub name: String,
    pub description: String,
    pub start_byte: i32,
    pub start_bit: i32,
    pub bit_length: i32,
    pub signal_value_names: Vec<SignalValueNames>,
}

/// One frame of the matrix: its identifier, payload length and signals.
#[derive(Debug, Clone, PartialEq, Eq)]
pub struct CanFrame {
    pub id: String,
    pub protocol: String,
    pub length: i32,
    pub signals: Vec<CanSignal>,
}

/// The whole matrix, frames in declaration order.
#[derive(Debug, Clone, PartialEq, Eq)]
pub struct CanCommunicationMatrix {
    pub can_frames: Vec<CanFrame>,
}

impl CanSignal {
    /// The layout is usable: a 1-based start byte, a start bit inside a byte,
    /// and at least one bit.
    pub open spec fn well_formed(&self) -> bool {
        &&& self.start_byte >= 1
        &&& 0 <= self.start_bit <= 7
        &&& self.bit_length >= 1
    }

    /// Number of payload bytes the signal touches, counted from its start byte.
    pub open spec fn span_bytes(&self) -> int {
        (self.start_bit + self.bit_length + 7) / 8
    }

    /// 1-based index of the last payload byte the signal touches.
    pub open spec fn last_byte(&self) -> int {
        self.start_byte - 1 + self.span_bytes()
    }

    /// A signal with the given layout and labels, if the layout is usable.
    pub fn new(
        name: String,
        description: String,
        start_byte: i32,
        start_bit: i32,
        bit_length: i32,
        signal_value_names: Vec<SignalValueNames>,
    ) -> (made: Option<CanSignal>)
        ensures
            made is Some <==> start_byte >= 1 && 0 <= start_bit <= 7 && bit_length >= 1,
            made matches Some(s) ==> s == (CanSignal {
                name,
                description,
                start_byte,
                start_bit,
                bit_length,
                signal_value_names,
            }),
    {
        let s: CanSignal = CanSignal {
            name,
            description,
            start_byte,
            start_bit,
            bit_length,
            signal_value_names,
        };
        if s.is_well_formed() {
            Some(s)
        } else {
            None
        }
    }

    /// Checks the layout.
    pub fn is_well_formed(&self) -> (ok: bool)
        ensures
            ok == self.well_formed(),
    {
        self.start_byte >= 1 && 0 <= self.start_bit && self.start_bit <= 7 && self.bit_length >= 1
    }
}

impl CanFrame {
    /// The declared length is not negative and every signal is well formed.
    pub open spec fn well_formed(&self) -> bool {
        &&& self.length >= 0
        &&& forall|i: int| 0 <= i < self.signals@.len() ==> (#[trigger] self.signals@[i]).well_formed()
    }

    /// No signal is wider than 32 bits and none reaches past the declared
    /// length: what a carefully written matrix has of each frame.
    pub open spec fn signals_fit(&self) -> bool {
        forall|i: int|
            0 <= i < self.signals@.len() ==> {
                &&& (#[trigger] self.signals@[i]).bit_length <= 32
                &&& self.signals@[i].last_byte() <= self.length
            }
    }

    /// A frame with the given fields, if it is well formed.
    pub fn new(id: String, protocol: String, length: i32, signals: Vec<CanSignal>) -> (made: Option<
        CanFrame,
    >)
        ensures
            made is Some <==> (CanFrame { id, protocol, length, signals }).well_formed(),
            made matches Some(f) ==> f == (CanFrame { id, protocol, length, signals }),
    {
        let f: CanFrame = CanFrame { id, protocol, length, signals };
        if f.is_well_formed() {
            Some(f)
        } else {
            None
        }
    }

    /// Checks the declared length and every signal's layout.
    pub fn is_well_formed(&self) -> (ok: bool)
        ensures
            ok == self.well_formed(),
    {
        if self.length < 0 {
            return false;
        }
        let mut i: usize = 0;
        while i < self.signals.len()
            invariant
                i <= self.signals@.len(),
                forall|j: int| 0 <= j < i ==> (#[trigger] self.signals@[j]).well_formed(),
            decreases self.signals@.len() - i,
        {
            if !self.signals[i].is_well_formed() {
                return false;
            }
            i += 1;
        }
        true
    }
}

impl CanFrame {
    /// Checks that every signal fits the frame.
    pub fn all_signals_fit(&self) -> (ok: bool)
        requires
            self.well_formed(),
        ensures
            ok == self.signals_fit(),
    {
        let mut i: usize = 0;
        while i < self.signals.len()
            invariant
                i <= self.signals@.len(),
                self.well_formed(),
                forall|j: int|
                    0 <= j < i ==> {
                        &&& (#[trigger] self.signals@[j]).bit_length <= 32
                        &&& self.signals@[j].last_byte() <= self.length
                    },
            decreases self.signals@.len() - i,
        {
            let s: &CanSignal = &self.signals[i];
            if s.bit_length > 32 {
                return false;
            }
            let span: i32 = (s.start_bit + s.bit_length + 7) / 8;
            if s.start_byte - 1 > self.length - span {
                return false;
            }
            i += 1;
        }
        true
    }
}

impl CanCommunicationMatrix {
    /// Every frame is well formed.
    pub open spec fn well_formed(&self) -> bool {
        forall|i: int| 0 <= i < self.can_frames@.len() ==> (#[trigger] self.can_frames@[i]).well_formed()
    }

    /// Position of the first frame named `id`, or the number of frames if
    /// there is none.
    pub open spec fn position_of(&self, id: Seq<char>) -> int {
        first_named(self.can_frames@, id)
    }

    /// A matrix of the given frames, if each of them is well formed.
    pub fn new(can_frames: Vec<CanFrame>) -> (made: Option<CanCommunicationMatrix>)
        ensures
            made is Some <==> (CanCommunicationMatrix { can_frames }).well_formed(),
            made matches Some(m) ==> m == (CanCommunicationMatrix { can_frames }),
    {
        let m: CanCommunicationMatrix = CanCommunicationMatrix { can_frames };
        if m.is_well_formed() {
            Some(m)
        } else {
            None
        }
    }

    /// Checks every frame.
    pub fn is_well_formed(&self) -> (ok: bool)
        ensures
            ok == self.well_formed(),
    {
        let mut i: usize = 0;
        while i < self.can_frames.len()
            invariant
                i <= self.can_frames@.len(),
                forall|j: int| 0 <= j < i ==> (#[trigger] self.can_frames@[j]).well_formed(),
            decreases self.can_frames@.len() - i,
        {
            if !self.can_frames[i].is_well_formed() {
                return false;
            }
            i += 1;
        }
        true
    }

    /// Looks a frame up by its identifier. Of several frames with one
    /// identifier the first declared is returned.
    pub fn find_frame(&self, id: &str) -> (found: Option<&CanFrame>)
        ensures
            match found {
                Some(frame) => {
                    &&& self.position_of(id@) < self.can_frames@.len()
                    &&& *frame == self.can_frames@[self.position_of(id@)]
                    &&& frame.id@ == id@
                },
                None => self.position_of(id@) == self.can_frames@.len(),
            },
            found is None <==> forall|j: int|
                0 <= j < self.can_frames@.len() ==> (#[trigger] self.can_frames@[j]).id@ != id@,
            forall|j: int|
                0 <= j < self.position_of(id@) ==> (#[trigger] self.can_frames@[j]).id@ != id@,
    {
        let wanted: String = String::from_str(id);
        let mut i: usize = 0;
        assert(self.can_frames@.skip(0) =~= self.can_frames@);
        while i < self.can_frames.len()
            invariant
                i <= self.can_frames@.len(),
                wanted@ == id@,
                first_named(self.can_frames@, id@) == i + first_named(
                    self.can_frames@.skip(i as int),
                    id@,
                ),
            decreases self.can_frames@.len() - i,
        {
            let frame: &CanFrame = &self.can_frames[i];
            proof {
                let rest = self.can_frames@.skip(i as int);
                assert(rest[0] == self.can_frames@[i as int]);
                assert(rest.skip(1) =~= self.can_frames@.skip(i + 1));
            }
            if frame.id == wanted {
                proof {
                    lemma_first_named(self.can_frames@, id@);
                }
                return Some(frame);
            }
            i += 1;
        }
        proof {
            lemma_first_named(self.can_frames@, id@);
        }
        None
    }
}

/// Position of the first frame of `frames` named `id`, or `frames.len()`.
pub open spec fn first_named(frames: Seq<CanFrame>, id: Seq<char>) -> int
    decreases frames.len(),
{
    if frames.len() == 0 {
        0
    } else if frames[0].id@ == id {
        0
    } else {
        1 + first_named(frames.skip(1), id)
    }
}

/// `first_named` points at a frame with the wanted name, and no earlier frame
/// has it; if it points past the end, no frame has it.
pub proof fn lemma_first_named(frames: Seq<CanFrame>, id: Seq<char>)
    ensures
        0 <= first_named(frames, id) <= frames.len(),
        first_named(frames, id) < frames.len() ==> frames[first_named(frames, id)].id@ == id,
        forall|j: int| 0 <= j < first_named(frames, id) ==> (#[trigger] frames[j]).id@ != id,
    decreases frames.len(),
{
    if frames.len() > 0 && frames[0].id@ != id {
        let rest = frames.skip(1);
        lemma_first_named(rest, id);
        assert(forall|j: int| 0 <= j < rest.len() ==> rest[j] == frames[j + 1]);
        assert forall|j: int| 0 <= j < first_named(frames, id) implies (#[trigger] frames[j]).id@
            != id by {
            if j > 0 {
                assert(rest[j - 1] == frames[j]);
            }
        }
    }
}

} // verus!
