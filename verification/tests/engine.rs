//! Tests for the per-event decisions of the processing loop.

use xiv_midi::engine::{find_device, process_event, released_key_of};
use xiv_midi::keyboard::{Effect, Key, RecordingKeyboard};
use xiv_midi::mapping::{Action, MappingConfig, NoteMapping};
use xiv_midi::midi::{MidiMessage, MidiNote};
use xiv_midi::scheduler::NoteScheduler;

fn demo_config() -> MappingConfig {
    let mut config = MappingConfig::new();
    config.add_mapping(
        MidiNote::new(60).unwrap(),
        NoteMapping {
            on_press: vec![Action::Press(Key::Q)],
            on_release: vec![Action::Release(Key::Q)],
        },
    );
    config
}

#[test]
fn note_on_and_off_drive_the_keyboard() {
    let config = demo_config();
    let mut sched = NoteScheduler::new();
    let mut kb = RecordingKeyboard::new();

    let on = MidiMessage::parse(&[0x90, 60, 100]).unwrap();
    process_event(&config, &mut sched, &on, 1000, &mut kb).unwrap();
    assert_eq!(*kb.log(), vec![Effect::KeyDown(Key::Q)]);

    let off = MidiMessage::parse(&[0x80, 60, 0]).unwrap();
    process_event(&config, &mut sched, &off, 2000, &mut kb).unwrap();
    assert_eq!(
        *kb.log(),
        vec![Effect::KeyDown(Key::Q), Effect::KeyUp(Key::Q)]
    );
}

#[test]
fn channel_filter_drops_other_channels() {
    let config = demo_config();  // listens on channel 0
    let mut sched = NoteScheduler::new();
    let mut kb = RecordingKeyboard::new();

    // same note, channel 1: filtered out, nothing reaches the keyboard
    let on = MidiMessage::parse(&[0x91, 60, 100]).unwrap();
    process_event(&config, &mut sched, &on, 1000, &mut kb).unwrap();
    assert!(kb.log().is_empty());
}

#[test]
fn no_filter_accepts_all_channels() {
    let mut config = demo_config();
    config.channel = None;
    let mut sched = NoteScheduler::new();
    let mut kb = RecordingKeyboard::new();

    let on = MidiMessage::parse(&[0x95, 60, 100]).unwrap();
    process_event(&config, &mut sched, &on, 1000, &mut kb).unwrap();
    assert_eq!(*kb.log(), vec![Effect::KeyDown(Key::Q)]);
}

#[test]
fn unmapped_note_does_nothing() {
    let config = demo_config();
    let mut sched = NoteScheduler::new();
    let mut kb = RecordingKeyboard::new();

    let on = MidiMessage::parse(&[0x90, 61, 100]).unwrap();
    process_event(&config, &mut sched, &on, 1000, &mut kb).unwrap();
    assert!(kb.log().is_empty());
}

#[test]
fn transposed_note_plays_its_resolved_mapping() {
    let mut config = demo_config();
    config.octave_transpose = true;
    let mut sched = NoteScheduler::new();
    let mut kb = RecordingKeyboard::new();

    // 48 is an octave below the only mapped note, 60
    let on = MidiMessage::parse(&[0x90, 48, 100]).unwrap();
    process_event(&config, &mut sched, &on, 1000, &mut kb).unwrap();
    assert_eq!(*kb.log(), vec![Effect::KeyDown(Key::Q)]);
}

#[test]
fn released_key_is_the_first_press() {
    assert_eq!(
        released_key_of(&vec![
            Action::SetModifiers { shift: false, ctrl: true, alt: false },
            Action::Press(Key::Q),
            Action::Press(Key::W),
        ]),
        Some(Key::Q)
    );
    assert_eq!(
        released_key_of(&vec![Action::Delay(5), Action::Release(Key::Q)]),
        None
    );
    assert_eq!(released_key_of(&vec![]), None);
}

#[test]
fn find_device_matches_exact_names() {
    let names = vec![
        String::from("Through Port"),
        String::from("Stage Piano"),
        String::from("Stage Piano 2"),
    ];
    assert_eq!(find_device(&names, &String::from("Stage Piano")), Some(1));
    assert_eq!(find_device(&names, &String::from("stage piano")), None);
    assert_eq!(find_device(&names, &String::from("Missing")), None);
}
