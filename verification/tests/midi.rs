use purewave::{MidiChannel, MidiMessage, MidiNote, MidiVelocity};

#[test]
fn note_on_bytes_use_one_based_public_channels() {
    let message = MidiMessage::NoteOn {
        channel: MidiChannel::new(10).unwrap(),
        note: MidiNote::new(36).unwrap(),
        velocity: MidiVelocity::new(100).unwrap(),
    };

    assert_eq!(message.bytes(), [0x99, 36, 100]);
}

#[test]
fn note_off_bytes_carry_zero_velocity() {
    let message = MidiMessage::NoteOff {
        channel: MidiChannel::new(1).unwrap(),
        note: MidiNote::new(127).unwrap(),
    };

    assert_eq!(message.bytes(), [0x80, 127, 0]);
}

#[test]
fn channel_sixteen_uses_the_top_status_nibble() {
    let message = MidiMessage::NoteOn {
        channel: MidiChannel::new(16).unwrap(),
        note: MidiNote::new(0).unwrap(),
        velocity: MidiVelocity::new(0).unwrap(),
    };

    assert_eq!(message.bytes(), [0x9F, 0, 0]);
}

#[test]
fn channels_outside_one_through_sixteen_are_rejected() {
    assert!(MidiChannel::new(0).is_none());
    assert!(MidiChannel::new(17).is_none());
    assert_eq!(MidiChannel::new(1).unwrap().get(), 1);
    assert_eq!(MidiChannel::new(16).unwrap().status_nibble(), 15);
}

#[test]
fn notes_and_velocities_stop_at_127() {
    assert_eq!(MidiNote::new(127).unwrap().get(), 127);
    assert!(MidiNote::new(128).is_none());
    assert_eq!(MidiVelocity::new(0).unwrap().get(), 0);
    assert!(MidiVelocity::new(200).is_none());
}

#[test]
fn note_off_sorts_before_note_on() {
    let channel = MidiChannel::new(10).unwrap();
    let note = MidiNote::new(36).unwrap();
    let on = MidiMessage::NoteOn { channel, note, velocity: MidiVelocity::new(100).unwrap() };
    let off = MidiMessage::NoteOff { channel, note };

    assert_eq!(off.sort_priority(), 0);
    assert_eq!(on.sort_priority(), 1);
}
