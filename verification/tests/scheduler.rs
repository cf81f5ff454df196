//! Tests for the note scheduler, observed through the recording keyboard.

use std::time::{Duration, Instant};
use xiv_midi::error::Error;
use xiv_midi::keyboard::{
    Effect, ExternalKeyboard, Key, KeyboardController, RawKeyboard, RecordingKeyboard,
};
use xiv_midi::mapping::Action;
use xiv_midi::scheduler::{
    NoteScheduler, SchedulerState, DEFAULT_MIN_NOTE_GAP_MS, MODIFIER_SETTLE_MS,
};

/// A raw injector that fails once a set number of requests have succeeded.
struct CountdownKeyboard {
    remaining: u32,
}

impl RawKeyboard for CountdownKeyboard {
    fn press(&mut self, key: Key) -> Result<(), Error> {
        if self.remaining == 0 {
            return Err(Error::KeyInjection(key));
        }
        self.remaining -= 1;
        Ok(())
    }

    fn release(&mut self, key: Key) -> Result<(), Error> {
        if self.remaining == 0 {
            return Err(Error::KeyInjection(key));
        }
        self.remaining -= 1;
        Ok(())
    }

    fn release_all(&mut self) -> Result<(), Error> {
        if self.remaining == 0 {
            return Err(Error::KeyInjection(Key::Escape));
        }
        self.remaining -= 1;
        Ok(())
    }
}

#[test]
fn release_all_releases_every_pressed_key() {
    let mut kb = RecordingKeyboard::new();
    let mut sched = NoteScheduler::new();

    sched
        .play_note(
            &vec![
                Action::SetModifiers { shift: true, ctrl: false, alt: false },
                Action::Press(Key::Q),
            ],
            0,
            &mut kb,
        )
        .unwrap();
    kb.release_all().unwrap();

    // one key-up for every key-down request, in order
    assert_eq!(
        *kb.log(),
        vec![
            Effect::KeyDown(Key::Shift),
            Effect::KeyDown(Key::Q),
            Effect::KeyUp(Key::Shift),
            Effect::KeyUp(Key::Q),
        ]
    );
}

#[test]
fn failed_modifier_diff_keeps_partial_record() {
    // enough budget for the note-on press and the shift edge; the ctrl
    // edge then fails
    let mut kb = ExternalKeyboard::new(CountdownKeyboard { remaining: 2 });
    let mut sched = NoteScheduler::new();

    sched
        .play_note(&vec![Action::Press(Key::Q)], 0, &mut kb)
        .unwrap();
    let r = sched.handle_note_off(
        &vec![Action::SetModifiers { shift: true, ctrl: true, alt: false }],
        None,
        &mut kb,
    );

    assert_eq!(r, Err(Error::KeyInjection(Key::Control)));
    match sched.state {
        SchedulerState::Holding { key, modifiers, .. } => {
            assert_eq!(key, Key::Q);
            assert!(modifiers.shift); // asserted before the failure
            assert!(!modifiers.ctrl); // never asserted
            assert!(!modifiers.alt);
        }
        SchedulerState::Idle => panic!("the held key must survive the failed replay"),
    }
}

#[test]
fn raw_modifier_edges_update_the_record() {
    let mut kb = RecordingKeyboard::new();
    let mut sched = NoteScheduler::new();

    sched
        .play_note(&vec![Action::Press(Key::Q)], 0, &mut kb)
        .unwrap();
    // a raw replay that presses Control directly: the record follows the edge
    sched
        .handle_note_off(&vec![Action::Press(Key::Control)], None, &mut kb)
        .unwrap();
    // a later diff asking for ctrl finds it already asserted: no reissue
    sched
        .play_note(
            &vec![
                Action::SetModifiers { shift: false, ctrl: true, alt: false },
                Action::Press(Key::W),
            ],
            1000,
            &mut kb,
        )
        .unwrap();

    assert_eq!(
        *kb.log(),
        vec![
            Effect::KeyDown(Key::Q),
            Effect::KeyDown(Key::Control),
            Effect::KeyUp(Key::Q),
            Effect::KeyDown(Key::W),
        ]
    );
}

/// A raw injector whose every request fails, for exercising error paths.
struct FailingKeyboard;

impl RawKeyboard for FailingKeyboard {
    fn press(&mut self, key: Key) -> Result<(), Error> {
        Err(Error::KeyInjection(key))
    }

    fn release(&mut self, key: Key) -> Result<(), Error> {
        Err(Error::KeyInjection(key))
    }

    fn release_all(&mut self) -> Result<(), Error> {
        Err(Error::KeyInjection(Key::Escape))
    }
}

#[test]
fn no_edges_means_success_even_on_a_failing_injector() {
    let mut kb = ExternalKeyboard::new(FailingKeyboard);
    let mut sched = NoteScheduler::new();

    // an empty sequence and a delay-only sequence ask nothing of the
    // capability, so they succeed no matter how broken it is
    assert!(sched.play_note(&vec![], 0, &mut kb).is_ok());
    assert!(sched
        .handle_note_off(&vec![Action::Delay(1)], None, &mut kb)
        .is_ok());
}

#[test]
fn injection_failure_is_returned_not_retried() {
    let mut kb = ExternalKeyboard::new(FailingKeyboard);
    let mut sched = NoteScheduler::new();

    let r = sched.play_note(&vec![Action::Press(Key::Q)], 1000, &mut kb);
    assert_eq!(r, Err(Error::KeyInjection(Key::Q)));
}

#[test]
fn press_then_release_in_order() {
    let mut kb = RecordingKeyboard::new();
    let mut sched = NoteScheduler::new();

    sched
        .play_note(&vec![Action::Press(Key::Q)], 1000, &mut kb)
        .unwrap();
    sched
        .handle_note_off(&vec![Action::Release(Key::Q)], Some(Key::Q), &mut kb)
        .unwrap();

    assert_eq!(
        *kb.log(),
        vec![Effect::KeyDown(Key::Q), Effect::KeyUp(Key::Q)]
    );
    assert_eq!(sched.state, SchedulerState::Idle);
}

#[test]
fn overlapping_note_releases_previous_and_ignores_stale_off() {
    let mut kb = RecordingKeyboard::new();
    let mut sched = NoteScheduler::new();

    sched
        .play_note(&vec![Action::Press(Key::Q)], 1000, &mut kb)
        .unwrap();
    // W arrives before Q's release: Q must be released before W is pressed
    sched
        .play_note(&vec![Action::Press(Key::W)], 2000, &mut kb)
        .unwrap();
    // Q's note-off is now stale: the current key is W, so nothing happens
    sched
        .handle_note_off(&vec![Action::Release(Key::Q)], Some(Key::Q), &mut kb)
        .unwrap();

    assert_eq!(
        *kb.log(),
        vec![
            Effect::KeyDown(Key::Q),
            Effect::KeyUp(Key::Q),
            Effect::KeyDown(Key::W),
        ]
    );
    match sched.state {
        SchedulerState::Holding { key, .. } => assert_eq!(key, Key::W),
        SchedulerState::Idle => panic!("scheduler should still hold W"),
    }
}

#[test]
fn onset_gap_delays_second_note() {
    let mut kb = RecordingKeyboard::new();
    let mut sched = NoteScheduler::new();

    let start = Instant::now();
    // both notes claim the same timestamp, so the elapsed time is zero and
    // the full minimum gap must be waited out before the second press
    sched
        .play_note(&vec![Action::Press(Key::Q)], 5000, &mut kb)
        .unwrap();
    sched
        .play_note(&vec![Action::Press(Key::W)], 5000, &mut kb)
        .unwrap();
    let elapsed = start.elapsed();

    assert!(elapsed >= Duration::from_millis(DEFAULT_MIN_NOTE_GAP_MS));
    // the release of Q comes before the wait, the press of W after it
    assert_eq!(
        *kb.log(),
        vec![
            Effect::KeyDown(Key::Q),
            Effect::KeyUp(Key::Q),
            Effect::KeyDown(Key::W),
        ]
    );
}

#[test]
fn elapsed_gap_means_no_wait_needed() {
    let mut kb = RecordingKeyboard::new();
    let mut sched = NoteScheduler::new();

    sched
        .play_note(&vec![Action::Press(Key::Q)], 1000, &mut kb)
        .unwrap();
    // far past the gap: no pause, straight to release-then-press
    sched
        .play_note(&vec![Action::Press(Key::W)], 1000 + 1000, &mut kb)
        .unwrap();
    assert_eq!(
        *kb.log(),
        vec![
            Effect::KeyDown(Key::Q),
            Effect::KeyUp(Key::Q),
            Effect::KeyDown(Key::W),
        ]
    );
}

#[test]
fn settled_diff_moves_the_recorded_onset() {
    let mut kb = RecordingKeyboard::new();
    let mut sched = NoteScheduler::new();

    // the diff asserts Ctrl and settles, so the key-down edge lands a
    // settle later than the end of the (absent) gap wait — and the onset
    // records the edge, not the wait
    sched
        .play_note(
            &vec![
                Action::SetModifiers { shift: false, ctrl: true, alt: false },
                Action::Press(Key::Q),
            ],
            100,
            &mut kb,
        )
        .unwrap();
    match sched.state {
        SchedulerState::Holding { t_onset, .. } => {
            assert_eq!(t_onset, 100 + MODIFIER_SETTLE_MS);
        }
        SchedulerState::Idle => panic!("scheduler should hold Q"),
    }

    // no modifier change this time: no settle, and the gap is measured
    // from the previous press instant
    sched
        .play_note(
            &vec![
                Action::SetModifiers { shift: false, ctrl: true, alt: false },
                Action::Press(Key::W),
            ],
            100 + MODIFIER_SETTLE_MS,
            &mut kb,
        )
        .unwrap();
    match sched.state {
        SchedulerState::Holding { t_onset, .. } => {
            assert_eq!(t_onset, 100 + MODIFIER_SETTLE_MS + DEFAULT_MIN_NOTE_GAP_MS);
        }
        SchedulerState::Idle => panic!("scheduler should hold W"),
    }
}

#[test]
fn modifier_diff_not_reissued_when_unchanged() {
    let mut kb = RecordingKeyboard::new();
    let mut sched = NoteScheduler::new();

    let ctrl = Action::SetModifiers { shift: false, ctrl: true, alt: false };
    sched
        .play_note(&vec![ctrl, Action::Press(Key::Q)], 1000, &mut kb)
        .unwrap();
    // Ctrl is already asserted: the second note must not press it again
    sched
        .play_note(&vec![ctrl, Action::Press(Key::W)], 2000, &mut kb)
        .unwrap();

    assert_eq!(
        *kb.log(),
        vec![
            Effect::KeyDown(Key::Control),
            Effect::KeyDown(Key::Q),
            Effect::KeyUp(Key::Q),
            Effect::KeyDown(Key::W),
        ]
    );
}

#[test]
fn modifier_change_issues_only_the_difference() {
    let mut kb = RecordingKeyboard::new();
    let mut sched = NoteScheduler::new();

    sched
        .play_note(
            &vec![
                Action::SetModifiers { shift: true, ctrl: true, alt: false },
                Action::Press(Key::Q),
            ],
            1000,
            &mut kb,
        )
        .unwrap();
    // shift stays, ctrl drops, alt rises: exactly two edges, no shift edge
    sched
        .play_note(
            &vec![
                Action::SetModifiers { shift: true, ctrl: false, alt: true },
                Action::Press(Key::W),
            ],
            2000,
            &mut kb,
        )
        .unwrap();

    assert_eq!(
        *kb.log(),
        vec![
            Effect::KeyDown(Key::Shift),
            Effect::KeyDown(Key::Control),
            Effect::KeyDown(Key::Q),
            Effect::KeyUp(Key::Q),
            Effect::KeyUp(Key::Control),
            Effect::KeyDown(Key::Alt),
            Effect::KeyDown(Key::W),
        ]
    );
}

#[test]
fn note_off_clears_modifiers_it_names() {
    let mut kb = RecordingKeyboard::new();
    let mut sched = NoteScheduler::new();

    sched
        .play_note(
            &vec![
                Action::SetModifiers { shift: false, ctrl: true, alt: false },
                Action::Press(Key::Q),
            ],
            1000,
            &mut kb,
        )
        .unwrap();
    sched
        .handle_note_off(
            &vec![
                Action::Release(Key::Q),
                Action::SetModifiers { shift: false, ctrl: false, alt: false },
            ],
            Some(Key::Q),
            &mut kb,
        )
        .unwrap();

    assert_eq!(
        *kb.log(),
        vec![
            Effect::KeyDown(Key::Control),
            Effect::KeyDown(Key::Q),
            Effect::KeyUp(Key::Q),
            Effect::KeyUp(Key::Control),
        ]
    );
    assert_eq!(sched.state, SchedulerState::Idle);
}

#[test]
fn sequence_without_press_replays_raw() {
    let mut kb = RecordingKeyboard::new();
    let mut sched = NoteScheduler::new();

    // no Press action: not a true note-on, replayed as it stands
    sched
        .play_note(
            &vec![Action::Delay(1), Action::Release(Key::Z)],
            1000,
            &mut kb,
        )
        .unwrap();

    assert_eq!(*kb.log(), vec![Effect::KeyUp(Key::Z)]);
    assert_eq!(sched.state, SchedulerState::Idle);
}

#[test]
fn note_off_without_known_key_replays_unconditionally() {
    let mut kb = RecordingKeyboard::new();
    let mut sched = NoteScheduler::new();

    sched
        .play_note(&vec![Action::Press(Key::Q)], 1000, &mut kb)
        .unwrap();
    // the note-off's on-press sequence had no Press, so no key was
    // identified: its actions run regardless of what is held
    sched
        .handle_note_off(&vec![Action::Release(Key::M)], None, &mut kb)
        .unwrap();

    assert_eq!(
        *kb.log(),
        vec![Effect::KeyDown(Key::Q), Effect::KeyUp(Key::M)]
    );
    match sched.state {
        SchedulerState::Holding { key, .. } => assert_eq!(key, Key::Q),
        SchedulerState::Idle => panic!("the held key must survive an anonymous note-off"),
    }
}

#[test]
fn last_press_wins_as_target() {
    let mut kb = RecordingKeyboard::new();
    let mut sched = NoteScheduler::new();

    sched
        .play_note(
            &vec![Action::Press(Key::Q), Action::Press(Key::W)],
            1000,
            &mut kb,
        )
        .unwrap();

    // the scan takes the last press as the note's key
    match sched.state {
        SchedulerState::Holding { key, .. } => assert_eq!(key, Key::W),
        SchedulerState::Idle => panic!("scheduler should hold the last pressed key"),
    }
    assert_eq!(*kb.log(), vec![Effect::KeyDown(Key::W)]);
}
