//! The per-event decisions of the processing loop.
//!
//! The engine proper — the transport connection, the bounded channel and
//! the processing thread — lives outside the library; what is verified
//! here is everything that loop decides: the channel filter, the mapping
//! resolution, and the dispatch to the scheduler.

use vstd::prelude::*;
use crate::error::Error;
use crate::keyboard::{key_edges, Effect, Key, KeyboardController};
use crate::mapping::{transpose_lookup, Action, MappingConfig};
use crate::midi::{MidiEventType, MidiMessage};
use crate::scheduler::{
    appended_effects, edges_prefix, first_press, last_press, mods_after, play_note_state,
    play_note_trace, raw_state, raw_trace, state_mods, state_with_mods, NoteScheduler,
    SchedulerState,
};

verus! {

/// Whether the channel filter lets an event through: always when there is
/// no filter, otherwise only on an exact channel match.
pub open spec fn channel_accepts(filter: Option<u8>, ch: u8) -> bool {
    match filter {
        None => true,
        Some(c) => ch == c,
    }
}

/// The trace a note-off produces: the release actions replayed raw when
/// the note-off applies, nothing when it is stale.
pub open spec fn note_off_trace(s: SchedulerState, rk: Option<Key>, actions: Seq<Action>) -> Seq<
    Effect,
> {
    if NoteScheduler::note_off_replays(s, rk) {
        raw_trace(state_mods(s), actions)
    } else {
        Seq::empty()
    }
}

/// The scheduler state after a note-off: idle once the identified key is
/// released, unchanged when the note-off is stale.
pub open spec fn note_off_state(s: SchedulerState, rk: Option<Key>, actions: Seq<Action>) -> SchedulerState {
    if NoteScheduler::note_off_replays(s, rk) {
        if rk is Some {
            SchedulerState::Idle
        } else {
            raw_state(s, actions)
        }
    } else {
        s
    }
}

/// The whole trace one event produces: nothing when the channel filter
/// rejects it or no mapping resolves (with transposition); otherwise the
/// scheduled note-on trace or the note-off trace of the resolved mapping.
pub open spec fn event_trace(
    config: MappingConfig,
    s: SchedulerState,
    msg: MidiMessage,
    now: u64,
    gap: u64,
) -> Seq<Effect> {
    if !channel_accepts(config.channel, msg.channel) {
        Seq::empty()
    } else {
        match transpose_lookup(config, msg.note@) {
            None => Seq::empty(),
            Some(rn) => {
                let m = config.table()[rn];
                match msg.event_type {
                    MidiEventType::NoteOn => play_note_trace(s, m.on_press@, now, gap),
                    MidiEventType::NoteOff => note_off_trace(
                        s,
                        first_press(m.on_press@),
                        m.on_release@,
                    ),
                }
            },
        }
    }
}

/// The scheduler state after one event.
pub open spec fn event_state(
    config: MappingConfig,
    s: SchedulerState,
    msg: MidiMessage,
    now: u64,
    gap: u64,
) -> SchedulerState {
    if !channel_accepts(config.channel, msg.channel) {
        s
    } else {
        match transpose_lookup(config, msg.note@) {
            None => s,
            Some(rn) => {
                let m = config.table()[rn];
                match msg.event_type {
                    MidiEventType::NoteOn => play_note_state(s, m.on_press@, now, gap),
                    MidiEventType::NoteOff => note_off_state(
                        s,
                        first_press(m.on_press@),
                        m.on_release@,
                    ),
                }
            },
        }
    }
}

/// The scheduler state after an event whose dispatch failed part-way,
/// given what the failed dispatch appended to the capability log: idle
/// when a true note-on was being scheduled (its held key was released
/// first), otherwise the old state with its modifier record folded over
/// the issued edges.
pub open spec fn event_err_state(
    config: MappingConfig,
    s: SchedulerState,
    msg: MidiMessage,
    appended: Seq<Effect>,
) -> SchedulerState {
    if !channel_accepts(config.channel, msg.channel) {
        s
    } else {
        match transpose_lookup(config, msg.note@) {
            None => s,
            Some(rn) => {
                let m = config.table()[rn];
                match msg.event_type {
                    MidiEventType::NoteOn => if last_press(m.on_press@) is Some {
                        SchedulerState::Idle
                    } else {
                        state_with_mods(s, mods_after(state_mods(s), appended))
                    },
                    MidiEventType::NoteOff => state_with_mods(
                        s,
                        mods_after(state_mods(s), appended),
                    ),
                }
            },
        }
    }
}

/// The key the note-on sequence pressed, for matching a later note-off:
/// the first press the sequence contains.
pub fn released_key_of(actions: &Vec<Action>) -> (r: Option<Key>)
    ensures
        r == first_press(actions@),
{
    let n = actions.len();
    let mut i: usize = 0;
    proof {
        assert(actions@.skip(0) =~= actions@);
    }
    while i < n
        invariant
            i <= n,
            n == actions@.len(),
            first_press(actions@) == first_press(actions@.skip(i as int)),
        decreases n - i,
    {
        let ghost rest = actions@.skip(i as int);
        if let Action::Press(k) = actions[i] {
            proof {
                assert(rest[0] == actions@[i as int]);
            }
            return Some(k);
        }
        proof {
            assert(rest[0] == actions@[i as int]);
            assert(rest.drop_first() =~= actions@.skip(i + 1));
        }
        i += 1;
    }
    proof {
        assert(actions@.skip(n as int) =~= Seq::<Action>::empty());
    }
    None
}

/// Handles one decoded event end to end: applies the channel filter,
/// resolves the mapping with transposition, and dispatches a note-on to
/// the scheduled play path and a note-off to the release path, deriving
/// the released key from the on-press sequence.
pub fn process_event<K: KeyboardController>(
    config: &MappingConfig,
    scheduler: &mut NoteScheduler,
    msg: &MidiMessage,
    now_ms: u64,
    kb: &mut K,
) -> (r: Result<(), Error>)
    requires
        config.wf(),
    ensures
        final(scheduler).min_note_gap == old(scheduler).min_note_gap,
        r is Ok ==> final(kb).effects() == old(kb).effects() + key_edges(
            event_trace(*config, old(scheduler).state, *msg, now_ms, old(scheduler).min_note_gap),
        ) && final(scheduler).state == event_state(
            *config,
            old(scheduler).state,
            *msg,
            now_ms,
            old(scheduler).min_note_gap,
        ),
        r is Err ==> edges_prefix(
            old(kb).effects(),
            final(kb).effects(),
            event_trace(*config, old(scheduler).state, *msg, now_ms, old(scheduler).min_note_gap),
        ) && final(scheduler).state == event_err_state(
            *config,
            old(scheduler).state,
            *msg,
            appended_effects(old(kb).effects(), final(kb).effects()),
        ),
        key_edges(
            event_trace(*config, old(scheduler).state, *msg, now_ms, old(scheduler).min_note_gap),
        ).len() == 0 ==> r is Ok,
{
    let ghost full = event_trace(
        *config,
        old(scheduler).state,
        *msg,
        now_ms,
        old(scheduler).min_note_gap,
    );

    if let Some(c) = config.channel {
        if msg.channel != c {
            proof {
                crate::keyboard::lemma_key_edges_empty();
                assert(kb.effects() =~= kb.effects() + key_edges(full));
            }
            return Ok(());
        }
    }

    let mapping = match config.get_mapping_transposed(msg.note) {
        Some(p) => p.1,
        None => {
            proof {
                crate::keyboard::lemma_key_edges_empty();
                assert(kb.effects() =~= kb.effects() + key_edges(full));
            }
            return Ok(());
        },
    };

    match msg.event_type {
        MidiEventType::NoteOn => scheduler.play_note(&mapping.on_press, now_ms, kb),
        MidiEventType::NoteOff => {
            let released = released_key_of(&mapping.on_press);
            scheduler.handle_note_off(&mapping.on_release, released, kb)
        },
    }
}

/// The index of the input source whose name matches `target` exactly, or
/// nothing — a connect with that name then fails with `DeviceNotFound`.
pub fn find_device(names: &Vec<String>, target: &String) -> (r: Option<usize>)
    ensures
        match r {
            Some(i) => i < names@.len() && names@[i as int]@ == target@ && forall|j: int|
                0 <= j < i ==> names@[j]@ != target@,
            None => forall|j: int| 0 <= j < names@.len() ==> names@[j]@ != target@,
        },
{
    let n = names.len();
    let mut i: usize = 0;
    while i < n
        invariant
            i <= n,
            n == names@.len(),
            forall|j: int| 0 <= j < i ==> names@[j]@ != target@,
        decreases n - i,
    {
        if names[i].eq(target) {
            return Some(i);
        }
        i += 1;
    }
    None
}

} // verus!
