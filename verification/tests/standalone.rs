use purewave::standalone::{
    default_pattern, enable_steps, is_would_block, output_error_action, ActiveNotes,
    AlsaEventQueue, OutputErrorAction, ALSA_EVENT_QUEUE_CAPACITY,
};
use purewave::{DrumSound, MidiChannel, MidiMessage, MidiNote, MidiVelocity, Pattern, Track};

fn track(tracks: &[Track], sound: DrumSound) -> &Track {
    tracks.iter().find(|track| track.sound == sound).unwrap()
}

fn enabled_steps(track: &Track) -> Vec<usize> {
    track
        .steps
        .iter()
        .enumerate()
        .filter_map(|(index, step)| step.enabled.then_some(index))
        .collect()
}

fn note_on(note: u8) -> MidiMessage {
    MidiMessage::NoteOn {
        channel: MidiChannel::new(10).unwrap(),
        note: MidiNote::new(note).unwrap(),
        velocity: MidiVelocity::new(100).unwrap(),
    }
}

fn message_on(channel: u8, note: u8, velocity: u8) -> MidiMessage {
    MidiMessage::NoteOn {
        channel: MidiChannel::new(channel).unwrap(),
        note: MidiNote::new(note).unwrap(),
        velocity: MidiVelocity::new(velocity).unwrap(),
    }
}

fn message_off(channel: u8, note: u8) -> MidiMessage {
    MidiMessage::NoteOff {
        channel: MidiChannel::new(channel).unwrap(),
        note: MidiNote::new(note).unwrap(),
    }
}

#[test]
fn default_pattern_uses_the_initial_playable_rhythm() {
    let pattern = default_pattern();

    assert_eq!(enabled_steps(track(&pattern.tracks, DrumSound::Kick)), vec![0, 4, 8, 12]);
    assert_eq!(enabled_steps(track(&pattern.tracks, DrumSound::Snare)), vec![4, 12]);
    assert_eq!(enabled_steps(track(&pattern.tracks, DrumSound::Clap)), vec![4, 12]);
    assert_eq!(
        enabled_steps(track(&pattern.tracks, DrumSound::HiHat)),
        vec![0, 2, 4, 6, 8, 10, 12, 14]
    );
    assert_eq!(enabled_steps(track(&pattern.tracks, DrumSound::Cymbal)), vec![0]);
}

#[test]
fn default_pattern_leaves_the_tom_silent() {
    let pattern = default_pattern();
    assert!(enabled_steps(track(&pattern.tracks, DrumSound::Tom)).is_empty());
}

#[test]
fn enable_steps_changes_only_the_first_track_of_the_sound() {
    let mut pattern = Pattern::default_drum_grid();
    pattern.tracks.push(Track::new(DrumSound::Kick, MidiChannel::new(10).unwrap(), 16));
    enable_steps(&mut pattern, DrumSound::Kick, &[1, 3, 99]);

    assert_eq!(enabled_steps(&pattern.tracks[1]), vec![1, 3]);
    assert!(enabled_steps(&pattern.tracks[6]).is_empty());
}

#[test]
fn enable_steps_without_a_matching_track_changes_nothing() {
    let mut pattern = Pattern::default_drum_grid();
    pattern.tracks.retain(|track| track.sound != DrumSound::Clap);
    let before = pattern.clone();
    enable_steps(&mut pattern, DrumSound::Clap, &[0]);
    assert_eq!(pattern, before);
}

#[test]
fn alsa_event_queue_preserves_messages_in_order() {
    let mut queue = AlsaEventQueue::new();
    let first_message = note_on(36);
    let second_message = note_on(38);

    assert!(queue.try_push(first_message));
    assert!(queue.try_push(second_message));

    assert_eq!(queue.try_pop(), Some(first_message));
    assert_eq!(queue.try_pop(), Some(second_message));
    assert_eq!(queue.try_pop(), None);
}

#[test]
fn alsa_event_queue_rejects_events_when_full() {
    let mut queue = AlsaEventQueue::new();

    for note in 0..(ALSA_EVENT_QUEUE_CAPACITY - 1) {
        assert!(queue.try_push(note_on((note % 128) as u8)));
    }

    assert!(!queue.try_push(note_on(0)));
}

#[test]
fn alsa_event_queue_keeps_order_across_wraparound() {
    let mut queue = AlsaEventQueue::new();
    let mut next_expected = 0usize;

    for index in 0..(ALSA_EVENT_QUEUE_CAPACITY * 3) {
        assert!(queue.try_push(note_on((index % 128) as u8)));
        if index % 2 == 1 {
            for _ in 0..2 {
                assert_eq!(queue.try_pop(), Some(note_on((next_expected % 128) as u8)));
                next_expected += 1;
            }
        }
    }
    assert_eq!(queue.try_pop(), None);
}

#[test]
fn active_notes_follow_note_ons_and_note_offs() {
    let mut notes = ActiveNotes::new();
    notes.record(message_on(10, 36, 100));
    notes.record(message_on(1, 60, 90));
    notes.record(message_on(2, 61, 0));

    assert!(notes.is_sounding(9, 36));
    assert!(notes.is_sounding(0, 60));
    assert!(!notes.is_sounding(1, 61));

    notes.record(message_off(10, 36));
    assert!(!notes.is_sounding(9, 36));
    assert!(notes.is_sounding(0, 60));
}

#[test]
fn note_offs_silence_every_sounding_note_by_channel_then_note() {
    let mut notes = ActiveNotes::new();
    notes.record(message_on(10, 36, 100));
    notes.record(message_on(1, 60, 90));
    notes.record(message_on(10, 12, 5));

    let offs = notes.note_offs();
    assert_eq!(offs, vec![message_off(1, 60), message_off(10, 12), message_off(10, 36)]);

    for off in offs {
        notes.record(off);
    }
    assert!(notes.note_offs().is_empty());
}

#[test]
fn would_block_is_recognized_from_alsa_error_codes() {
    // EAGAIN is 11 on Linux; ALSA returns negated error numbers.
    assert!(is_would_block(-11));
    assert!(!is_would_block(-5));
}

#[test]
fn output_errors_request_cleanup_or_are_reported_once() {
    assert_eq!(output_error_action(true, false), OutputErrorAction::RequestNoteCleanup);
    assert_eq!(output_error_action(true, true), OutputErrorAction::RequestNoteCleanup);
    assert_eq!(output_error_action(false, false), OutputErrorAction::Report);
    assert_eq!(output_error_action(false, true), OutputErrorAction::Ignore);
}

use purewave::standalone::{
    begin_cleanup, bridge_step, errno_of, shutdown_retry, BridgeEvent, BridgeState,
    SHUTDOWN_CLEANUP_ATTEMPTS,
};

#[test]
fn alsa_error_codes_are_negated_error_numbers() {
    assert_eq!(errno_of(-11), 11);
    assert_eq!(errno_of(-5), 5);
}

#[test]
fn a_lost_message_leads_to_a_cleanup_that_silences_every_note() {
    let mut state = BridgeState::new();
    bridge_step(&mut state, BridgeEvent::Delivered(message_on(10, 36, 100)));
    bridge_step(&mut state, BridgeEvent::Delivered(message_on(3, 50, 64)));
    assert!(!state.cleanup_requested);

    assert!(!bridge_step(&mut state, BridgeEvent::QueueOverflowed));
    assert!(state.cleanup_requested);

    assert!(begin_cleanup(&mut state));
    assert!(!state.cleanup_requested);
    let offs = state.active.note_offs();
    assert_eq!(offs, vec![message_off(3, 50), message_off(10, 36)]);
    for off in offs {
        bridge_step(&mut state, BridgeEvent::NoteOffDelivered(off));
    }
    assert!(state.active.note_offs().is_empty());
    assert!(!begin_cleanup(&mut state));
}

#[test]
fn a_failed_cleanup_note_off_keeps_the_request() {
    let mut state = BridgeState::new();
    bridge_step(&mut state, BridgeEvent::Delivered(message_on(10, 36, 100)));
    bridge_step(&mut state, BridgeEvent::QueueOverflowed);
    assert!(begin_cleanup(&mut state));

    bridge_step(&mut state, BridgeEvent::NoteOffFailed);
    assert!(state.cleanup_requested);
    assert!(state.active.is_sounding(9, 36));
}

#[test]
fn delivery_failures_request_cleanup_or_are_reported_once() {
    let mut state = BridgeState::new();
    assert!(!bridge_step(&mut state, BridgeEvent::DeliveryFailed { would_block: true }));
    assert!(state.cleanup_requested);
    assert!(!state.reported_output_error);

    assert!(bridge_step(&mut state, BridgeEvent::DeliveryFailed { would_block: false }));
    assert!(state.reported_output_error);
    assert!(!bridge_step(&mut state, BridgeEvent::DeliveryFailed { would_block: false }));
}

#[test]
fn shutdown_cleanup_is_tried_at_most_ten_times() {
    assert_eq!(SHUTDOWN_CLEANUP_ATTEMPTS, 10);
    assert!(shutdown_retry(0, false));
    assert!(shutdown_retry(8, false));
    assert!(!shutdown_retry(9, false));
    assert!(!shutdown_retry(0, true));
    assert!(!shutdown_retry(255, false));
}
