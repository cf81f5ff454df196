//! Tests for the mapping table and the octave-transposition fallback.

use xiv_midi::keyboard::Key;
use xiv_midi::mapping::{create_ffxiv_default_mapping, Action, MappingConfig, NoteMapping};
use xiv_midi::midi::MidiNote;

fn press_only(key: Key) -> NoteMapping {
    NoteMapping {
        on_press: vec![Action::Press(key)],
        on_release: vec![Action::Release(key)],
    }
}

fn note(n: u8) -> MidiNote {
    MidiNote::new(n).unwrap()
}

#[test]
fn test_default_mapping() {
    let config = create_ffxiv_default_mapping();

    // Check C4 (middle C, note 60) maps to Q
    let mapping = config.get_mapping(note(60)).unwrap();
    assert_eq!(mapping.on_press.len(), 1);

    // Check C3 (note 48) has Ctrl modifier
    let mapping = config.get_mapping(note(48)).unwrap();
    assert!(mapping.on_press.len() >= 2);
}

#[test]
fn default_mapping_layout() {
    let config = create_ffxiv_default_mapping();

    assert_eq!(config.channel, Some(0));
    assert!(!config.octave_transpose);

    // span is exactly 48..=84
    assert!(config.get_mapping(note(47)).is_none());
    assert!(config.get_mapping(note(85)).is_none());
    for n in 48..=84u8 {
        assert!(config.get_mapping(note(n)).is_some());
    }

    // middle octave is bare keys
    assert_eq!(
        config.get_mapping(note(60)).unwrap().on_press,
        vec![Action::Press(Key::Q)]
    );
    assert_eq!(
        config.get_mapping(note(62)).unwrap().on_press,
        vec![Action::Press(Key::W)]
    );

    // lowest octave holds Ctrl
    assert_eq!(
        config.get_mapping(note(48)).unwrap().on_press,
        vec![
            Action::SetModifiers { shift: false, ctrl: true, alt: false },
            Action::Press(Key::Q),
        ]
    );

    // highest octave holds Shift, and 84 is the octave key
    assert_eq!(
        config.get_mapping(note(84)).unwrap().on_press,
        vec![
            Action::SetModifiers { shift: true, ctrl: false, alt: false },
            Action::Press(Key::I),
        ]
    );
}

#[test]
fn no_transpose_means_no_fallback() {
    let mut config = MappingConfig::new();
    config.add_mapping(note(48), press_only(Key::Q));
    config.add_mapping(note(60), press_only(Key::W));
    assert!(!config.octave_transpose);

    // unmapped notes resolve to nothing, wherever they lie
    assert!(config.get_mapping_transposed(note(36)).is_none());
    assert!(config.get_mapping_transposed(note(54)).is_none());
    assert!(config.get_mapping_transposed(note(96)).is_none());

    // a mapped note still resolves to itself
    let (rn, _) = config.get_mapping_transposed(note(48)).unwrap();
    assert_eq!(rn.value(), 48);
}

#[test]
fn below_range_transposes_up() {
    let mut config = MappingConfig::new();
    config.add_mapping(note(48), press_only(Key::Q));
    config.add_mapping(note(60), press_only(Key::W));
    config.add_mapping(note(72), press_only(Key::E));
    config.octave_transpose = true;

    // 36 is one octave below 48: resolves to the mapping at 48
    let (rn, m) = config.get_mapping_transposed(note(36)).unwrap();
    assert_eq!(rn.value(), 48);
    assert_eq!(m.on_press, vec![Action::Press(Key::Q)]);
}

#[test]
fn pitch_class_mismatch_finds_nothing() {
    let mut config = MappingConfig::new();
    config.add_mapping(note(60), press_only(Key::Q));
    config.octave_transpose = true;

    // 54 < 60, so only the shift-up branch runs: 66, 78, 90, ... never hit 60
    assert!(config.get_mapping_transposed(note(54)).is_none());
}

#[test]
fn above_range_transposes_down() {
    let mut config = MappingConfig::new();
    config.add_mapping(note(48), press_only(Key::Q));
    config.add_mapping(note(60), press_only(Key::W));
    config.octave_transpose = true;

    let (rn, m) = config.get_mapping_transposed(note(84)).unwrap();
    assert_eq!(rn.value(), 60);
    assert_eq!(m.on_press, vec![Action::Press(Key::W)]);
}

#[test]
fn in_span_search_prefers_down() {
    let mut config = MappingConfig::new();
    config.add_mapping(note(48), press_only(Key::Q));
    config.add_mapping(note(72), press_only(Key::E));
    config.octave_transpose = true;

    // 60 sits exactly between 48 and 72: the down direction wins the tie
    let (rn, m) = config.get_mapping_transposed(note(60)).unwrap();
    assert_eq!(rn.value(), 48);
    assert_eq!(m.on_press, vec![Action::Press(Key::Q)]);
}

#[test]
fn empty_table_resolves_nothing() {
    let mut config = MappingConfig::new();
    config.octave_transpose = true;
    assert!(config.get_mapping_transposed(note(60)).is_none());
}

#[test]
fn add_mapping_overwrites() {
    let mut config = MappingConfig::new();
    config.add_mapping(note(60), press_only(Key::Q));
    config.add_mapping(note(60), press_only(Key::W));
    assert_eq!(
        config.get_mapping(note(60)).unwrap().on_press,
        vec![Action::Press(Key::W)]
    );
}
