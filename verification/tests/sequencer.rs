use purewave::sequencer::DEFAULT_STEP_COUNT;
use purewave::{DrumSound, GateLength, MidiChannel, MidiNote, MidiVelocity, Pattern, Step, Track};

#[test]
fn default_grid_uses_requested_drum_tracks_and_notes() {
    let pattern = Pattern::default_drum_grid();
    let sounds_and_notes: Vec<_> = pattern
        .tracks
        .iter()
        .map(|track| (track.sound, track.steps[0].note.get(), track.channel.get()))
        .collect();

    assert_eq!(
        sounds_and_notes,
        vec![
            (DrumSound::Tom, 45, 10),
            (DrumSound::Kick, 36, 10),
            (DrumSound::Snare, 38, 10),
            (DrumSound::HiHat, 42, 10),
            (DrumSound::Cymbal, 49, 10),
            (DrumSound::Clap, 39, 10),
        ]
    );
    assert_eq!(pattern.step_count(), 16);
}

#[test]
fn default_grid_starts_silent_with_half_step_gates() {
    let pattern = Pattern::default_drum_grid();

    assert_eq!(pattern.beats_per_bar, 4);
    assert_eq!(pattern.steps_per_beat, 4);
    for track in &pattern.tracks {
        assert_eq!(track.steps.len(), DEFAULT_STEP_COUNT);
        for step in &track.steps {
            assert!(!step.enabled);
            assert_eq!(step.velocity.get(), 100);
            assert_eq!(step.gate.percent(), 50);
        }
    }
}

#[test]
fn labels_name_each_sound() {
    assert_eq!(DrumSound::Tom.label(), "Tom");
    assert_eq!(DrumSound::Kick.label(), "Kick");
    assert_eq!(DrumSound::Snare.label(), "Snare");
    assert_eq!(DrumSound::HiHat.label(), "Hi-hat");
    assert_eq!(DrumSound::Cymbal.label(), "Cymbal");
    assert_eq!(DrumSound::Clap.label(), "Clap");
}

#[test]
fn gate_lengths_run_from_one_to_one_hundred_percent() {
    assert!(GateLength::new(0).is_none());
    assert_eq!(GateLength::new(1).unwrap().percent(), 1);
    assert_eq!(GateLength::new(100).unwrap().percent(), 100);
    assert!(GateLength::new(101).is_none());
    assert_eq!(GateLength::half_step().percent(), 50);
}

#[test]
fn enable_step_ignores_indices_past_the_end() {
    let mut track = Track::new(DrumSound::Snare, MidiChannel::new(2).unwrap(), 4);
    track.enable_step(2);
    track.enable_step(4);

    let enabled: Vec<bool> = track.steps.iter().map(|step| step.enabled).collect();
    assert_eq!(enabled, vec![false, false, true, false]);
    assert_eq!(track.steps[2].note.get(), 38);
}

#[test]
fn enabled_step_keeps_its_note_velocity_and_gate() {
    let step = Step::enabled(
        MidiNote::new(60).unwrap(),
        MidiVelocity::new(90).unwrap(),
        GateLength::new(25).unwrap(),
    );

    assert!(step.enabled);
    assert_eq!(step.note.get(), 60);
    assert_eq!(step.velocity.get(), 90);
    assert_eq!(step.gate.percent(), 25);
    assert!(!Step::disabled(MidiNote::new(60).unwrap()).enabled);
}

#[test]
fn empty_pattern_has_no_steps() {
    let pattern = Pattern { beats_per_bar: 4, steps_per_beat: 4, tracks: Vec::new() };
    assert_eq!(pattern.step_count(), 0);
}
