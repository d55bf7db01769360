use purewave::debug_log::{
    drain_debug_midi_events, format_debug_midi_event, DebugMidiEvent, DebugMidiEventKind,
    DebugMidiLogProducer, DebugMidiLogQueue, DEBUG_LOG_QUEUE_CAPACITY,
};
use purewave::{MidiChannel, MidiMessage, MidiNote, MidiVelocity};

fn event(note: u8) -> MidiMessage {
    MidiMessage::NoteOn {
        channel: MidiChannel::new(10).unwrap(),
        note: MidiNote::new(note).unwrap(),
        velocity: MidiVelocity::new(100).unwrap(),
    }
}

#[test]
fn formats_scheduled_note_on_for_routing_diagnostics() {
    let event = DebugMidiEvent::Midi {
        kind: DebugMidiEventKind::Scheduled,
        message: MidiMessage::NoteOn {
            channel: MidiChannel::new(10).unwrap(),
            note: MidiNote::new(36).unwrap(),
            velocity: MidiVelocity::new(100).unwrap(),
        },
    };

    assert_eq!(
        format_debug_midi_event(event),
        "DEBUG purewave: ALSA bridge sent scheduled note-on channel=10 note=36 velocity=100 bytes=[99, 24, 64]"
    );
}

#[test]
fn formats_cleanup_note_off_for_recovery_diagnostics() {
    let event = DebugMidiEvent::Midi {
        kind: DebugMidiEventKind::Cleanup,
        message: MidiMessage::NoteOff {
            channel: MidiChannel::new(10).unwrap(),
            note: MidiNote::new(36).unwrap(),
        },
    };

    assert_eq!(
        format_debug_midi_event(event),
        "DEBUG purewave: ALSA bridge sent cleanup note-off channel=10 note=36 bytes=[89, 24, 00]"
    );
}

#[test]
fn formats_alsa_output_errors_for_routing_diagnostics() {
    assert_eq!(
        format_debug_midi_event(DebugMidiEvent::AlsaOutputError(-5)),
        "Purewave ALSA bridge encountered an output error: -5"
    );
}

#[test]
fn formats_extreme_error_codes_and_hex_digits() {
    assert_eq!(
        format_debug_midi_event(DebugMidiEvent::AlsaOutputError(i32::MIN)),
        "Purewave ALSA bridge encountered an output error: -2147483648"
    );
    assert_eq!(
        format_debug_midi_event(DebugMidiEvent::AlsaOutputError(1234)),
        "Purewave ALSA bridge encountered an output error: 1234"
    );
    let message = MidiMessage::NoteOn {
        channel: MidiChannel::new(16).unwrap(),
        note: MidiNote::new(127).unwrap(),
        velocity: MidiVelocity::new(0).unwrap(),
    };
    assert_eq!(
        format_debug_midi_event(DebugMidiEvent::Midi { message, kind: DebugMidiEventKind::Scheduled }),
        "DEBUG purewave: ALSA bridge sent scheduled note-on channel=16 note=127 velocity=0 bytes=[9F, 7F, 00]"
    );
}

#[test]
fn debug_queue_drops_events_when_full() {
    let mut queue = DebugMidiLogQueue::new();
    let producer = DebugMidiLogProducer::new(true);

    for note in 0..(DEBUG_LOG_QUEUE_CAPACITY - 1) {
        producer.log(&mut queue, event((note % 128) as u8), DebugMidiEventKind::Scheduled);
    }
    producer.log(&mut queue, event(0), DebugMidiEventKind::Scheduled);

    assert_eq!(queue.dropped_event_count(), 1);
}

#[test]
fn disabled_event_logging_keeps_cleanup_messages_out_of_the_queue() {
    let mut queue = DebugMidiLogQueue::new();
    let producer = DebugMidiLogProducer::new(false);

    producer.log(&mut queue, event(36), DebugMidiEventKind::Cleanup);

    assert!(queue.is_empty());
}

#[test]
fn output_error_has_reserved_storage_when_event_queue_is_full() {
    let mut queue = DebugMidiLogQueue::new();
    let producer = DebugMidiLogProducer::new(true);

    for note in 0..(DEBUG_LOG_QUEUE_CAPACITY - 1) {
        producer.log(&mut queue, event((note % 128) as u8), DebugMidiEventKind::Scheduled);
    }
    producer.log_alsa_output_error(&mut queue, -5);

    let (wrote_event, lines) = drain_debug_midi_events(&mut queue);
    assert!(wrote_event);

    assert_eq!(
        lines.first().map(String::as_str),
        Some("Purewave ALSA bridge encountered an output error: -5")
    );
}

#[test]
fn reserved_output_error_keeps_an_empty_event_queue_pending() {
    let mut queue = DebugMidiLogQueue::new();
    let producer = DebugMidiLogProducer::new(false);

    producer.log_alsa_output_error(&mut queue, -5);

    assert!(queue.is_empty());
    assert!(queue.has_output_error());
}

#[test]
fn debug_queue_drains_events_pending_at_shutdown() {
    let mut queue = DebugMidiLogQueue::new();
    assert!(queue.try_push(DebugMidiEvent::Midi {
        message: event(36),
        kind: DebugMidiEventKind::Cleanup,
    }));

    let (wrote_event, lines) = drain_debug_midi_events(&mut queue);
    assert!(wrote_event);

    assert!(queue.is_empty());
    assert_eq!(lines.len(), 1);
    assert!(lines[0].contains("cleanup note-on"));
}

#[test]
fn first_output_error_is_kept_until_drained() {
    let mut queue = DebugMidiLogQueue::new();
    let producer = DebugMidiLogProducer::new(false);

    producer.log_alsa_output_error(&mut queue, -5);
    producer.log_alsa_output_error(&mut queue, -32);
    let (_, lines) = drain_debug_midi_events(&mut queue);
    assert_eq!(lines, vec!["Purewave ALSA bridge encountered an output error: -5".to_string()]);
    assert!(!queue.has_output_error());

    producer.log_alsa_output_error(&mut queue, -32);
    let (_, lines) = drain_debug_midi_events(&mut queue);
    assert_eq!(lines, vec!["Purewave ALSA bridge encountered an output error: -32".to_string()]);
}

#[test]
fn drain_reports_error_then_events_then_dropped_count() {
    let mut queue = DebugMidiLogQueue::new();
    let producer = DebugMidiLogProducer::new(true);

    for note in 0..DEBUG_LOG_QUEUE_CAPACITY + 2 {
        producer.log(&mut queue, event((note % 128) as u8), DebugMidiEventKind::Scheduled);
    }
    producer.log_alsa_output_error(&mut queue, -12);

    let (wrote_event, lines) = drain_debug_midi_events(&mut queue);
    assert!(wrote_event);
    assert_eq!(lines.len(), 1 + (DEBUG_LOG_QUEUE_CAPACITY - 1) + 1);
    assert_eq!(lines[0], "Purewave ALSA bridge encountered an output error: -12");
    assert_eq!(
        lines[1],
        "DEBUG purewave: ALSA bridge sent scheduled note-on channel=10 note=0 velocity=100 bytes=[99, 00, 64]"
    );
    assert_eq!(
        lines[lines.len() - 1],
        "DEBUG purewave: dropped 3 MIDI diagnostic events because the debug logger was busy"
    );
    assert_eq!(queue.dropped_event_count(), 0);

    let (wrote_event, lines) = drain_debug_midi_events(&mut queue);
    assert!(!wrote_event);
    assert!(lines.is_empty());
}

#[test]
fn debug_queue_preserves_events_across_wraparound() {
    let mut queue = DebugMidiLogQueue::new();
    let mut next_expected = 0usize;

    for index in 0..(DEBUG_LOG_QUEUE_CAPACITY * 3) {
        assert!(queue.try_push(DebugMidiEvent::Midi {
            message: event((index % 128) as u8),
            kind: DebugMidiEventKind::Scheduled,
        }));
        if index % 2 == 1 {
            for _ in 0..2 {
                let expected = DebugMidiEvent::Midi {
                    message: event((next_expected % 128) as u8),
                    kind: DebugMidiEventKind::Scheduled,
                };
                assert_eq!(queue.try_pop(), Some(expected));
                next_expected += 1;
            }
        }
    }
    assert!(queue.is_empty());
    assert_eq!(queue.try_pop(), None);
}
