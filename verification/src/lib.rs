//! Purewave's backend-independent step sequencer: the drum-grid model, MIDI note messages, a
//! sample-position MIDI scheduler, and the bounded queues and note bookkeeping that the
//! standalone bridge uses around it.

pub mod midi;
pub mod sequencer;
pub mod scheduler;
pub mod ring;
pub mod standalone;
pub mod text;
pub mod debug_log;

pub use midi::{MidiChannel, MidiMessage, MidiNote, MidiVelocity};
pub use sequencer::{DrumSound, GateLength, Pattern, Step, Track};
pub use scheduler::{BlockPosition, DroppedEventCount, Scheduler, StepClock, StepGrid, TimedMidiEvent};
