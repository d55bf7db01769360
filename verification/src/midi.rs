use vstd::prelude::*;

verus! {

/// A user-facing MIDI channel number in the conventional one-based range 1 through 16.
///
/// MIDI status bytes encode that same channel in the zero-based low nibble, which is handled by
/// `status_nibble` rather than exposing that wire-format detail to callers.
#[derive(Clone, Copy, Debug, PartialEq, Eq, Structural)]
pub struct MidiChannel(u8);

impl View for MidiChannel {
    type V = u8;

    closed spec fn view(&self) -> u8 {
        self.0
    }
}

impl MidiChannel {
    /// Two values with the same number are the same value.
    pub proof fn lemma_view_eq(a: Self, b: Self)
        requires
            a@ == b@,
        ensures
            a == b,
    {
    }

    pub const MIN: u8 = 1;
    pub const MAX: u8 = 16;

    #[verifier::type_invariant]
    spec fn in_range(self) -> bool {
        1 <= self.0 <= 16
    }

    pub fn new(channel: u8) -> (r: Option<Self>)
        ensures
            r is Some <==> 1 <= channel <= 16,
            r matches Some(c) ==> c@ == channel,
    {
        if channel >= Self::MIN && channel <= Self::MAX {
            Some(MidiChannel(channel))
        } else {
            None
        }
    }

    pub fn get(self) -> (r: u8)
        ensures
            r == self@,
            1 <= r <= 16,
    {
        proof {
            use_type_invariant(&self);
        }
        self.0
    }

    /// Converts the public channel number into the zero-based MIDI status-byte field.
    pub fn status_nibble(self) -> (r: u8)
        ensures
            r == self@ - 1,
            r < 16,
    {
        proof {
            use_type_invariant(&self);
        }
        self.0 - 1
    }
}

/// A validated MIDI note number, including the General MIDI drum-note range used by the MVP.
#[derive(Clone, Copy, Debug, PartialEq, Eq, Structural)]
pub struct MidiNote(u8);

impl View for MidiNote {
    type V = u8;

    closed spec fn view(&self) -> u8 {
        self.0
    }
}

impl MidiNote {
    /// Two values with the same number are the same value.
    pub proof fn lemma_view_eq(a: Self, b: Self)
        requires
            a@ == b@,
        ensures
            a == b,
    {
    }

    pub const MIN: u8 = 0;
    pub const MAX: u8 = 127;

    #[verifier::type_invariant]
    spec fn in_range(self) -> bool {
        self.0 <= 127
    }

    pub fn new(note: u8) -> (r: Option<Self>)
        ensures
            r is Some <==> note <= 127,
            r matches Some(n) ==> n@ == note,
    {
        if note <= Self::MAX {
            Some(MidiNote(note))
        } else {
            None
        }
    }

    pub fn get(self) -> (r: u8)
        ensures
            r == self@,
            r <= 127,
    {
        proof {
            use_type_invariant(&self);
        }
        self.0
    }
}

/// A validated MIDI note-on velocity.
#[derive(Clone, Copy, Debug, PartialEq, Eq, Structural)]
pub struct MidiVelocity(u8);

impl View for MidiVelocity {
    type V = u8;

    closed spec fn view(&self) -> u8 {
        self.0
    }
}

impl MidiVelocity {
    /// Two values with the same number are the same value.
    pub proof fn lemma_view_eq(a: Self, b: Self)
        requires
            a@ == b@,
        ensures
            a == b,
    {
    }

    pub const MIN: u8 = 0;
    pub const MAX: u8 = 127;

    #[verifier::type_invariant]
    spec fn in_range(self) -> bool {
        self.0 <= 127
    }

    pub fn new(velocity: u8) -> (r: Option<Self>)
        ensures
            r is Some <==> velocity <= 127,
            r matches Some(v) ==> v@ == velocity,
    {
        if velocity <= Self::MAX {
            Some(MidiVelocity(velocity))
        } else {
            None
        }
    }

    pub fn get(self) -> (r: u8)
        ensures
            r == self@,
            r <= 127,
    {
        proof {
            use_type_invariant(&self);
        }
        self.0
    }
}

/// The MIDI messages currently emitted by the sequencer.
#[derive(Clone, Copy, Debug, PartialEq, Eq, Structural)]
pub enum MidiMessage {
    NoteOn { channel: MidiChannel, note: MidiNote, velocity: MidiVelocity },
    NoteOff { channel: MidiChannel, note: MidiNote },
}

impl MidiMessage {
    pub open spec fn channel_of(self) -> MidiChannel {
        match self {
            MidiMessage::NoteOn { channel, .. } => channel,
            MidiMessage::NoteOff { channel, .. } => channel,
        }
    }

    pub open spec fn note_of(self) -> MidiNote {
        match self {
            MidiMessage::NoteOn { note, .. } => note,
            MidiMessage::NoteOff { note, .. } => note,
        }
    }

    /// The three bytes of this message in the MIDI 1.0 wire format: status byte (kind in the high
    /// nibble, zero-based channel in the low nibble), note number, then velocity (zero for a
    /// note-off).
    pub open spec fn wire_bytes(self) -> Seq<u8> {
        match self {
            MidiMessage::NoteOn { channel, note, velocity } => seq![
                (0x90 + channel@ - 1) as u8,
                note@,
                velocity@,
            ],
            MidiMessage::NoteOff { channel, note } => seq![(0x80 + channel@ - 1) as u8, note@, 0u8],
        }
    }

    /// The rank of a message among messages at the same sample: note-offs first.
    pub open spec fn priority(self) -> u8 {
        match self {
            MidiMessage::NoteOff { .. } => 0,
            MidiMessage::NoteOn { .. } => 1,
        }
    }

    /// Encodes this high-level message as its three-byte MIDI 1.0 representation.
    pub fn bytes(self) -> (r: [u8; 3])
        ensures
            r@ == self.wire_bytes(),
            r[0] >> 4 == (if self is NoteOn { 9u8 } else { 8u8 }),
            r[0] & 0x0f == self.channel_of()@ - 1,
    {
        match self {
            MidiMessage::NoteOn { channel, note, velocity } => {
                let nibble = channel.status_nibble();
                let status = 0x90u8 | nibble;
                assert(status == 0x90 + nibble && status >> 4 == 9u8 && status & 0x0f == nibble)
                    by (bit_vector)
                    requires
                        status == 0x90u8 | nibble,
                        nibble < 16,
                ;
                let r = [status, note.get(), velocity.get()];
                assert(r@ =~= self.wire_bytes());
                r
            },
            MidiMessage::NoteOff { channel, note } => {
                let nibble = channel.status_nibble();
                let status = 0x80u8 | nibble;
                assert(status == 0x80 + nibble && status >> 4 == 8u8 && status & 0x0f == nibble)
                    by (bit_vector)
                    requires
                        status == 0x80u8 | nibble,
                        nibble < 16,
                ;
                let r = [status, note.get(), 0];
                assert(r@ =~= self.wire_bytes());
                r
            },
        }
    }

    /// Ensures a note-off is emitted before a same-sample note-on for the same note.
    pub fn sort_priority(self) -> (r: u8)
        ensures
            r == self.priority(),
    {
        match self {
            MidiMessage::NoteOff { .. } => 0,
            MidiMessage::NoteOn { .. } => 1,
        }
    }
}

} // verus!
