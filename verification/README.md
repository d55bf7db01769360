# Purewave

Purewave is a step sequencer: a looping grid of drum tracks that is turned into sample-accurate
MIDI note events for each audio block. This crate is its timing core, written in Verus with its
behaviour stated as contracts and proved.

- `src/midi.rs`: validated MIDI channels, notes and velocities, and the three-byte wire encoding
  of note-on and note-off messages.
- `src/sequencer.rs`: steps, tracks and patterns, and the six-track default drum grid.
- `src/scheduler.rs`: the scheduler. Given a pattern and the step grid of the transport clock
  around a block, it produces exactly the note events that fall inside the block, in delivery
  order (by sample, note-offs before note-ons), either into a growing vector or into fixed
  storage that drops, and counts, what does not fit.
- `src/ring.rs`: a bounded first-in first-out ring of slots.
- `src/standalone.rs`: the pieces of the JACK standalone app that decide things: the seeded
  rhythm, the queue towards the ALSA compatibility output, and the bridge's state machine: a lost
  or refused message requests a cleanup, the cleanup sends a note-off for every sounding note and
  keeps the request while one fails, delivery failures are reported once, and the shutdown
  cleanup is retried a bounded number of times.
- `src/debug_log.rs` and `src/text.rs`: the diagnostic queue with its reserved error slot, and
  the exact text of each diagnostic line.
- `app/`: the JACK and ALSA program around the library: device I/O, threads, and the conversion
  of the floating-point transport clock (sample rate, tempo) into the library's step grid.

`purewave ready` prints `Purewave engine ready: 6 tracks, 16 steps`; without arguments the
program opens a `purewave:midi_out` JACK MIDI port and a `Purewave MIDI` ALSA sequencer output
and follows JACK transport.
