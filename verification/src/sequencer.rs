use vstd::prelude::*;

use crate::midi::{MidiChannel, MidiNote, MidiVelocity};

verus! {

pub const DEFAULT_STEP_COUNT: usize = 16;
pub const DEFAULT_BEATS_PER_BAR: u8 = 4;
pub const DEFAULT_STEPS_PER_BEAT: u8 = 4;

/// The drum sounds of the MVP grid.
#[derive(Clone, Copy, Debug, PartialEq, Eq, Structural)]
pub enum DrumSound {
    Tom,
    Kick,
    Snare,
    HiHat,
    Cymbal,
    Clap,
}

impl DrumSound {
    /// The display name of the sound.
    pub open spec fn label_text(self) -> Seq<char> {
        match self {
            DrumSound::Tom => "Tom"@,
            DrumSound::Kick => "Kick"@,
            DrumSound::Snare => "Snare"@,
            DrumSound::HiHat => "Hi-hat"@,
            DrumSound::Cymbal => "Cymbal"@,
            DrumSound::Clap => "Clap"@,
        }
    }

    /// The General MIDI drum note of the sound.
    pub open spec fn general_midi_note(self) -> u8 {
        match self {
            DrumSound::Tom => 45,
            DrumSound::Kick => 36,
            DrumSound::Snare => 38,
            DrumSound::HiHat => 42,
            DrumSound::Cymbal => 49,
            DrumSound::Clap => 39,
        }
    }

    pub fn label(self) -> (r: &'static str)
        ensures
            r@ == self.label_text(),
    {
        match self {
            DrumSound::Tom => "Tom",
            DrumSound::Kick => "Kick",
            DrumSound::Snare => "Snare",
            DrumSound::HiHat => "Hi-hat",
            DrumSound::Cymbal => "Cymbal",
            DrumSound::Clap => "Clap",
        }
    }

    pub fn default_note(self) -> (r: MidiNote)
        ensures
            r@ == self.general_midi_note(),
    {
        let note = match self {
            DrumSound::Tom => 45,
            DrumSound::Kick => 36,
            DrumSound::Snare => 38,
            DrumSound::HiHat => 42,
            DrumSound::Cymbal => 49,
            DrumSound::Clap => 39,
        };
        MidiNote::new(note).unwrap()
    }
}

/// How long a note sounds, as a percentage of one step.
#[derive(Clone, Copy, Debug, PartialEq, Eq, Structural)]
pub struct GateLength {
    percent: u8,
}

impl View for GateLength {
    type V = u8;

    closed spec fn view(&self) -> u8 {
        self.percent
    }
}

impl GateLength {
    /// Two gate lengths with the same percentage are the same value.
    pub proof fn lemma_view_eq(a: Self, b: Self)
        requires
            a@ == b@,
        ensures
            a == b,
    {
    }

    pub const MIN_PERCENT: u8 = 1;
    pub const MAX_PERCENT: u8 = 100;

    #[verifier::type_invariant]
    spec fn in_range(self) -> bool {
        1 <= self.percent <= 100
    }

    pub fn new(percent: u8) -> (r: Option<Self>)
        ensures
            r is Some <==> 1 <= percent <= 100,
            r matches Some(g) ==> g@ == percent,
    {
        if percent >= Self::MIN_PERCENT && percent <= Self::MAX_PERCENT {
            Some(GateLength { percent })
        } else {
            None
        }
    }

    pub fn half_step() -> (r: Self)
        ensures
            r@ == 50,
    {
        GateLength { percent: 50 }
    }

    pub fn percent(self) -> (r: u8)
        ensures
            r == self@,
            1 <= r <= 100,
    {
        proof {
            use_type_invariant(&self);
        }
        self.percent
    }
}

/// One cell of a track: whether it plays, and the note it plays.
#[derive(Clone, Copy, Debug, PartialEq, Eq, Structural)]
pub struct Step {
    pub enabled: bool,
    pub note: MidiNote,
    pub velocity: MidiVelocity,
    pub gate: GateLength,
}

impl Step {
    /// A step that is off, keeps `note`, and would play at velocity 100 for half a step.
    pub open spec fn is_default_off(self, note: u8) -> bool {
        &&& !self.enabled
        &&& self.note@ == note
        &&& self.velocity@ == 100
        &&& self.gate@ == 50
    }

    pub fn disabled(note: MidiNote) -> (r: Self)
        ensures
            r.is_default_off(note@),
            r.note == note,
    {
        Step {
            enabled: false,
            note,
            velocity: MidiVelocity::new(100).unwrap(),
            gate: GateLength::half_step(),
        }
    }

    pub fn enabled(note: MidiNote, velocity: MidiVelocity, gate: GateLength) -> (r: Self)
        ensures
            r == (Step { enabled: true, note, velocity, gate }),
    {
        Step { enabled: true, note, velocity, gate }
    }
}

/// One drum sound's row of steps.
#[derive(Clone, Debug, PartialEq, Eq)]
pub struct Track {
    pub sound: DrumSound,
    pub channel: MidiChannel,
    pub steps: Vec<Step>,
}

impl Track {
    pub fn new(sound: DrumSound, channel: MidiChannel, step_count: usize) -> (r: Self)
        ensures
            r.sound == sound,
            r.channel == channel,
            r.steps@.len() == step_count,
            forall|i: int|
                0 <= i < step_count ==> #[trigger] r.steps@[i].is_default_off(
                    sound.general_midi_note(),
                ),
    {
        let default_step = Step::disabled(sound.default_note());
        let mut steps: Vec<Step> = Vec::new();
        while steps.len() < step_count
            invariant
                steps@.len() <= step_count,
                default_step.is_default_off(sound.general_midi_note()),
                forall|i: int| 0 <= i < steps@.len() ==> #[trigger] steps@[i] == default_step,
            decreases step_count - steps@.len(),
        {
            steps.push(default_step);
        }
        Track { sound, channel, steps }
    }

    /// Turns on the step at `step_index`; an index past the end changes nothing.
    pub fn enable_step(&mut self, step_index: usize)
        ensures
            final(self).sound == old(self).sound,
            final(self).channel == old(self).channel,
            step_index < old(self).steps@.len() ==> final(self).steps@ == old(self).steps@.update(
                step_index as int,
                Step { enabled: true, ..old(self).steps@[step_index as int] },
            ),
            step_index >= old(self).steps@.len() ==> final(self).steps@ == old(self).steps@,
    {
        if step_index < self.steps.len() {
            let mut step = self.steps[step_index];
            step.enabled = true;
            self.steps.set(step_index, step);
        }
    }
}

/// A looping grid of tracks that share one step count.
#[derive(Clone, Debug, PartialEq, Eq)]
pub struct Pattern {
    pub beats_per_bar: u8,
    pub steps_per_beat: u8,
    pub tracks: Vec<Track>,
}

/// The sound of each track of the default grid, in order.
pub open spec fn default_grid_sound(index: int) -> DrumSound {
    if index == 0 {
        DrumSound::Tom
    } else if index == 1 {
        DrumSound::Kick
    } else if index == 2 {
        DrumSound::Snare
    } else if index == 3 {
        DrumSound::HiHat
    } else if index == 4 {
        DrumSound::Cymbal
    } else {
        DrumSound::Clap
    }
}

impl Pattern {
    /// The loop length in steps: that of the first track, or zero without tracks.
    pub open spec fn spec_step_count(self) -> nat {
        if self.tracks@.len() == 0 {
            0
        } else {
            self.tracks@[0].steps@.len()
        }
    }

    /// The six-track drum grid (Tom, Kick, Snare, Hi-hat, Cymbal, Clap) on channel 10, one 4/4 bar
    /// of sixteen steps, every step off.
    pub fn default_drum_grid() -> (r: Self)
        ensures
            r.beats_per_bar == DEFAULT_BEATS_PER_BAR,
            r.steps_per_beat == DEFAULT_STEPS_PER_BEAT,
            r.tracks@.len() == 6,
            forall|t: int|
                #![trigger r.tracks@[t]]
                0 <= t < 6 ==> {
                    &&& r.tracks@[t].sound == default_grid_sound(t)
                    &&& r.tracks@[t].channel@ == 10
                    &&& r.tracks@[t].steps@.len() == DEFAULT_STEP_COUNT
                    &&& forall|i: int|
                        0 <= i < DEFAULT_STEP_COUNT ==> #[trigger] r.tracks@[t].steps@[i].is_default_off(
                            default_grid_sound(t).general_midi_note(),
                        )
                },
    {
        let channel = MidiChannel::new(10).unwrap();
        let sounds = [
            DrumSound::Tom,
            DrumSound::Kick,
            DrumSound::Snare,
            DrumSound::HiHat,
            DrumSound::Cymbal,
            DrumSound::Clap,
        ];
        let mut tracks: Vec<Track> = Vec::new();
        let mut index: usize = 0;
        while index < 6
            invariant
                index <= 6,
                tracks@.len() == index,
                channel@ == 10,
                forall|k: int| 0 <= k < 6 ==> #[trigger] sounds@[k] == default_grid_sound(k),
                forall|t: int|
                    #![trigger tracks@[t]]
                    0 <= t < index ==> {
                        &&& tracks@[t].sound == default_grid_sound(t)
                        &&& tracks@[t].channel@ == 10
                        &&& tracks@[t].steps@.len() == DEFAULT_STEP_COUNT
                        &&& forall|i: int|
                            0 <= i < DEFAULT_STEP_COUNT ==> #[trigger] tracks@[t].steps@[i].is_default_off(
                                default_grid_sound(t).general_midi_note(),
                            )
                    },
            decreases 6 - index,
        {
            let track = Track::new(sounds[index], channel, DEFAULT_STEP_COUNT);
            tracks.push(track);
            index = index + 1;
        }
        Pattern {
            beats_per_bar: DEFAULT_BEATS_PER_BAR,
            steps_per_beat: DEFAULT_STEPS_PER_BEAT,
            tracks,
        }
    }

    pub fn step_count(&self) -> (r: usize)
        ensures
            r == self.spec_step_count(),
    {
        if self.tracks.len() == 0 {
            0
        } else {
            self.tracks[0].steps.len()
        }
    }
}

} // verus!
