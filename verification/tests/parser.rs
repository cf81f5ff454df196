//! Tests for note numbers and the transport-byte parser.

use xiv_midi::error::Error;
use xiv_midi::midi::{MidiEventType, MidiMessage, MidiNote};

#[test]
fn test_midi_note() {
    let c4 = MidiNote::new(60).unwrap();
    assert_eq!(c4.octave(), 4);
    assert_eq!(c4.name(), "C");
    assert_eq!(c4.full_name(), "C4");
}

#[test]
fn test_midi_message_parse() {
    // Note On C4 with velocity 64
    let msg = MidiMessage::parse(&[0x90, 60, 64]).unwrap();
    assert_eq!(msg.event_type, MidiEventType::NoteOn);
    assert_eq!(msg.channel, 0);
    assert_eq!(msg.note.value(), 60);
    assert_eq!(msg.velocity, 64);

    // Note Off C4
    let msg = MidiMessage::parse(&[0x80, 60, 0]).unwrap();
    assert_eq!(msg.event_type, MidiEventType::NoteOff);

    // Note On with velocity 0 (treated as Note Off)
    let msg = MidiMessage::parse(&[0x90, 60, 0]).unwrap();
    assert_eq!(msg.event_type, MidiEventType::NoteOff);
}

#[test]
fn note_on_carries_channel_note_velocity() {
    for ch in 0u8..16 {
        for &(note, vel) in &[(0u8, 1u8), (60, 64), (127, 127), (5, 10)] {
            let msg = MidiMessage::parse(&[0x90 | ch, note, vel]).unwrap();
            assert_eq!(msg.event_type, MidiEventType::NoteOn);
            assert_eq!(msg.channel, ch);
            assert_eq!(msg.note.value(), note);
            assert_eq!(msg.velocity, vel);
        }
        // velocity 0 normalizes to note-off, keeping the note
        let msg = MidiMessage::parse(&[0x90 | ch, 42, 0]).unwrap();
        assert_eq!(msg.event_type, MidiEventType::NoteOff);
        assert_eq!(msg.note.value(), 42);
    }
}

#[test]
fn short_input_fails_with_too_short() {
    assert_eq!(MidiMessage::parse(&[]), Err(Error::TooShort));
    assert_eq!(MidiMessage::parse(&[0x90]), Err(Error::TooShort));
    assert_eq!(MidiMessage::parse(&[0x90, 60]), Err(Error::TooShort));
}

#[test]
fn unsupported_status_is_rejected() {
    assert_eq!(
        MidiMessage::parse(&[0xA0, 60, 64]),
        Err(Error::UnsupportedMessageType(0xA0))
    );
    assert_eq!(
        MidiMessage::parse(&[0xB3, 1, 2]),
        Err(Error::UnsupportedMessageType(0xB0))
    );
}

#[test]
fn out_of_range_note_is_rejected() {
    assert_eq!(
        MidiMessage::parse(&[0x90, 200, 64]),
        Err(Error::NoteOutOfRange(200))
    );
    assert_eq!(
        MidiMessage::parse(&[0x80, 128, 0]),
        Err(Error::NoteOutOfRange(128))
    );
    assert_eq!(MidiNote::new(128), Err(Error::NoteOutOfRange(128)));
}

#[test]
fn note_names_and_octaves() {
    let a_sharp_3 = MidiNote::new(58).unwrap();
    assert_eq!(a_sharp_3.name(), "A#");
    assert_eq!(a_sharp_3.octave(), 3);
    assert_eq!(a_sharp_3.full_name(), "A#3");

    let lowest = MidiNote::new(0).unwrap();
    assert_eq!(lowest.full_name(), "C-1");

    let highest = MidiNote::new(127).unwrap();
    assert_eq!(highest.full_name(), "G9");
}
