use purewave::{
    DrumSound, MidiChannel, MidiMessage, MidiNote, Pattern, Scheduler, StepClock, StepGrid,
    TimedMidiEvent,
};

/// A transport clock (sample rate, tempo, position) converted to the library's step clock the way a
/// backend does it: samples per step from the sample rate and tempo, the steps around the block
/// (one step before it, for note-offs of notes that began earlier), and one gate length per percent.
fn clock(
    pattern: &Pattern,
    sample_rate_hz: f64,
    tempo_bpm: f64,
    position_samples: u64,
    playing: bool,
    frame_count: u32,
) -> StepClock {
    let positive_finite = |value: f64| value.is_finite() && value > 0.0;
    let grid = if positive_finite(sample_rate_hz)
        && positive_finite(tempo_bpm)
        && pattern.steps_per_beat != 0
    {
        let samples_per_step =
            sample_rate_hz * 60.0 / tempo_bpm / f64::from(pattern.steps_per_beat);
        let block_end = position_samples + u64::from(frame_count);
        let earliest = position_samples.saturating_sub(samples_per_step.ceil() as u64);
        let scan_start = (earliest as f64 / samples_per_step).floor() as i64;
        let scan_end = ((block_end as f64 / samples_per_step).ceil() as i64) + 1;
        let first = scan_start.max(0);
        let starts: Vec<u64> = (first..=scan_end)
            .map(|step| (step as f64 * samples_per_step).round() as u64)
            .collect();
        let gates: Vec<u64> = (0..=100u32)
            .map(|percent| ((samples_per_step * f64::from(percent)) / 100.0).round() as u64)
            .collect();
        StepGrid::new(first as u64, starts, gates)
    } else {
        None
    };
    StepClock { position_samples, playing, grid }
}

fn enable(pattern: &mut Pattern, sound: DrumSound, step: usize) {
    let track = pattern.tracks.iter_mut().find(|track| track.sound == sound).unwrap();
    track.enable_step(step);
}

fn note_off(note: u8) -> MidiMessage {
    MidiMessage::NoteOff {
        channel: MidiChannel::new(10).unwrap(),
        note: MidiNote::new(note).unwrap(),
    }
}

#[test]
fn scheduler_places_note_events_at_sample_offsets() {
    let mut pattern = Pattern::default_drum_grid();
    enable(&mut pattern, DrumSound::Kick, 0);

    let clock = clock(&pattern, 48_000.0, 120.0, 0, true, 6_001);
    let events = Scheduler.schedule_midi_block(&pattern, &clock, 6_001);

    assert_eq!(events.len(), 2);
    assert_eq!(events[0].frame_offset, 0);
    assert_eq!(events[0].message.bytes(), [0x99, 36, 100]);
    assert_eq!(events[1].frame_offset, 3_000);
    assert_eq!(events[1].message, note_off(36));
}

#[test]
fn scheduler_includes_note_off_when_note_started_before_block() {
    let mut pattern = Pattern::default_drum_grid();
    enable(&mut pattern, DrumSound::Kick, 0);

    let clock = clock(&pattern, 48_000.0, 120.0, 2_999, true, 4);
    let events = Scheduler.schedule_midi_block(&pattern, &clock, 4);

    assert_eq!(events.len(), 1);
    assert_eq!(events[0].frame_offset, 1);
    assert_eq!(events[0].message, note_off(36));
}

#[test]
fn scheduler_wraps_pattern_at_loop_boundary() {
    let mut pattern = Pattern::default_drum_grid();
    enable(&mut pattern, DrumSound::Clap, 15);

    let step_samples = 6_000;
    let frame_count = (step_samples + 1) as u32;
    let clock = clock(&pattern, 48_000.0, 120.0, 15 * step_samples, true, frame_count);
    let events = Scheduler.schedule_midi_block(&pattern, &clock, frame_count);

    assert_eq!(events.len(), 2);
    assert_eq!(events[0].frame_offset, 0);
    assert_eq!(events[0].message.bytes(), [0x99, 39, 100]);
    assert_eq!(events[1].frame_offset, 3_000);
    assert_eq!(events[1].message, note_off(39));
}

#[test]
fn scheduler_restarts_at_step_zero_after_loop_boundary() {
    let mut pattern = Pattern::default_drum_grid();
    enable(&mut pattern, DrumSound::Kick, 0);

    let clock = clock(&pattern, 48_000.0, 120.0, 95_999, true, 4);
    let events = Scheduler.schedule_midi_block(&pattern, &clock, 4);

    assert_eq!(events.len(), 1);
    assert_eq!(events[0].frame_offset, 1);
    assert_eq!(events[0].message.bytes(), [0x99, 36, 100]);
}

#[test]
fn scheduler_returns_no_events_when_stopped() {
    let mut pattern = Pattern::default_drum_grid();
    pattern.tracks[0].enable_step(0);

    let clock = clock(&pattern, 48_000.0, 120.0, 0, false, 512);
    let events = Scheduler.schedule_midi_block(&pattern, &clock, 512);

    assert!(events.is_empty());
}

#[test]
fn scheduler_returns_no_events_for_invalid_clock_values() {
    let mut pattern = Pattern::default_drum_grid();
    pattern.tracks[0].enable_step(0);

    let zero_tempo = clock(&pattern, 48_000.0, 0.0, 0, true, 512);
    let zero_sample_rate = clock(&pattern, 0.0, 120.0, 0, true, 512);

    assert!(Scheduler.schedule_midi_block(&pattern, &zero_tempo, 512).is_empty());
    assert!(Scheduler.schedule_midi_block(&pattern, &zero_sample_rate, 512).is_empty());
}

#[test]
fn scheduler_can_reuse_existing_event_storage() {
    let mut pattern = Pattern::default_drum_grid();
    pattern.tracks[0].enable_step(0);
    let clock = clock(&pattern, 48_000.0, 120.0, 0, true, 6_001);
    let mut events = Vec::with_capacity(32);
    let initial_capacity = events.capacity();

    Scheduler.schedule_midi_block_into(&pattern, &clock, 6_001, &mut events);

    assert_eq!(events.len(), 2);
    assert_eq!(events.capacity(), initial_capacity);
}

#[test]
fn bounded_scheduler_drops_events_instead_of_growing_storage() {
    let mut pattern = Pattern::default_drum_grid();
    for track in &mut pattern.tracks {
        track.enable_step(0);
    }
    let clock = clock(&pattern, 48_000.0, 120.0, 0, true, 6_001);
    let mut events = Vec::with_capacity(4);
    let initial_capacity = events.capacity();

    let dropped = Scheduler.schedule_midi_block_into_existing_capacity(
        &pattern,
        &clock,
        6_001,
        &mut events,
    );

    assert_eq!(events.capacity(), initial_capacity);
    assert_eq!(events.len(), initial_capacity);
    assert_eq!(dropped.0, 8);
}

#[test]
fn kept_and_dropped_events_add_up_to_the_full_schedule() {
    let mut pattern = Pattern::default_drum_grid();
    for track in &mut pattern.tracks {
        track.enable_step(0);
        track.enable_step(1);
    }
    let clock = clock(&pattern, 48_000.0, 120.0, 0, true, 12_001);
    let full = Scheduler.schedule_midi_block(&pattern, &clock, 12_001);
    let mut events = Vec::with_capacity(5);
    let dropped = Scheduler.schedule_midi_block_into_existing_capacity(
        &pattern,
        &clock,
        12_001,
        &mut events,
    );

    assert_eq!(full.len(), 24);
    assert_eq!(events.len() + dropped.0, full.len());
    for event in &events {
        assert!(full.contains(event));
    }
}

#[test]
fn coincident_note_off_precedes_note_on() {
    let mut pattern = Pattern::default_drum_grid();
    // A full-length gate ends exactly where the next step starts.
    let kick = pattern.tracks.iter_mut().find(|track| track.sound == DrumSound::Kick).unwrap();
    kick.steps[0] = purewave::Step::enabled(
        MidiNote::new(36).unwrap(),
        purewave::MidiVelocity::new(100).unwrap(),
        purewave::GateLength::new(100).unwrap(),
    );
    kick.enable_step(1);
    let clock = clock(&pattern, 48_000.0, 120.0, 0, true, 6_001);
    let events = Scheduler.schedule_midi_block(&pattern, &clock, 6_001);

    let offsets: Vec<u32> = events.iter().map(|event: &TimedMidiEvent| event.frame_offset).collect();
    assert_eq!(offsets, vec![0, 6_000, 6_000]);
    assert_eq!(events[1].message, note_off(36));
    assert_eq!(events[2].message.bytes(), [0x99, 36, 100]);
}

#[test]
fn events_stay_inside_the_block_and_in_delivery_order() {
    let mut pattern = Pattern::default_drum_grid();
    for track in &mut pattern.tracks {
        for step in 0..16 {
            track.enable_step(step);
        }
    }
    let clock = clock(&pattern, 44_100.0, 133.0, 123_456, true, 1_024);
    let events = Scheduler.schedule_midi_block(&pattern, &clock, 1_024);

    for pair in events.windows(2) {
        let first = (pair[0].frame_offset, pair[0].message.sort_priority());
        let second = (pair[1].frame_offset, pair[1].message.sort_priority());
        assert!(first <= second);
    }
    assert!(events.iter().all(|event| event.frame_offset < 1_024));
}

#[test]
fn grid_rejects_a_gate_table_without_one_entry_per_percent() {
    assert!(StepGrid::new(0, vec![0, 6_000], vec![0; 100]).is_none());
    assert!(StepGrid::new(0, vec![u64::MAX], vec![1; 101]).is_none());
    assert!(StepGrid::new(u64::MAX, vec![0], vec![0; 101]).is_none());
    let grid = StepGrid::new(3, vec![0, 6_000], vec![0; 101]).unwrap();
    assert_eq!(grid.len(), 2);
}

#[test]
fn limited_scheduler_keeps_the_first_events_up_to_the_limit() {
    let mut pattern = Pattern::default_drum_grid();
    for track in &mut pattern.tracks {
        track.enable_step(0);
    }
    let clock = clock(&pattern, 48_000.0, 120.0, 0, true, 6_001);
    let full = Scheduler.schedule_midi_block(&pattern, &clock, 6_001);
    let mut events = Vec::new();

    let dropped = Scheduler.schedule_midi_block_into_limited(&pattern, &clock, 6_001, &mut events, 5);
    assert_eq!(events.len(), 5);
    assert_eq!(dropped.0, full.len() - 5);

    let dropped = Scheduler.schedule_midi_block_into_limited(&pattern, &clock, 6_001, &mut events, 100);
    assert_eq!(dropped.0, 0);
    assert_eq!(events, full);

    let dropped = Scheduler.schedule_midi_block_into_limited(&pattern, &clock, 6_001, &mut events, 0);
    assert!(events.is_empty());
    assert_eq!(dropped.0, full.len());
}

#[test]
fn growing_and_reused_forms_give_the_same_sequence() {
    let mut pattern = Pattern::default_drum_grid();
    for track in &mut pattern.tracks {
        for step in [0, 3, 5, 6, 9] {
            track.enable_step(step);
        }
    }
    let clock = clock(&pattern, 44_100.0, 97.0, 30_000, true, 20_000);
    let full = Scheduler.schedule_midi_block(&pattern, &clock, 20_000);
    let mut events = vec![full[0]; 3];
    Scheduler.schedule_midi_block_into(&pattern, &clock, 20_000, &mut events);

    assert!(!full.is_empty());
    assert_eq!(events, full);
}

#[test]
fn moving_the_transport_by_one_loop_schedules_the_same_events() {
    let pattern = purewave::standalone::default_pattern();
    let loop_samples = 16 * 6_000;
    let first = clock(&pattern, 48_000.0, 120.0, 10_000, true, 30_000);
    let later = clock(&pattern, 48_000.0, 120.0, 10_000 + loop_samples, true, 30_000);

    let first_events = Scheduler.schedule_midi_block(&pattern, &first, 30_000);
    let later_events = Scheduler.schedule_midi_block(&pattern, &later, 30_000);
    assert!(!first_events.is_empty());
    assert_eq!(first_events, later_events);
}
