//! The monophonic note scheduler.
//!
//! The scheduler turns resolved action sequences into safely-timed requests
//! against the injection capability: it releases the previous key before a
//! new one, enforces a minimum gap between consecutive onsets, and brings
//! the modifier keys to the desired state with the fewest possible edges.
//! Every observable behaviour is pinned by a trace: a sequence of
//! [`Effect`] values saying which key edges are issued and where execution
//! pauses, in order.

use vstd::prelude::*;
use crate::error::Error;
use crate::keyboard::{
    key_edges, lemma_key_edges_add, lemma_key_edges_empty, lemma_key_edges_one, Effect, Key,
    KeyboardController,
};
use crate::mapping::Action;

verus! {

/// Minimum time between two consecutive note-on key-down edges, so the
/// downstream consumer registers them as separate presses.
pub const DEFAULT_MIN_NOTE_GAP_MS: u64 = 3;

/// Pause after a modifier change before the dependent key event, so the
/// consumer does not swallow or merge it.
pub const MODIFIER_SETTLE_MS: u64 = 3;

/// Which modifier keys are asserted at the injection capability.
#[derive(Debug, Clone, Copy, PartialEq, Eq, Structural)]
pub struct ModifierState {
    pub shift: bool,
    pub ctrl: bool,
    pub alt: bool,
}

impl Default for ModifierState {
    /// No modifiers asserted.
    fn default() -> (r: Self)
        ensures
            r == all_off(),
    {
        ModifierState { shift: false, ctrl: false, alt: false }
    }
}

/// No modifiers asserted.
pub open spec fn all_off() -> ModifierState {
    ModifierState { shift: false, ctrl: false, alt: false }
}

/// The scheduler either holds no key, or exactly one key together with the
/// modifiers asserted for it and the time of its onset. Holding at most one
/// key at a time is the monophonic guarantee; modifiers without a held key
/// are unrepresentable by construction.
#[derive(Debug, Clone, Copy, PartialEq, Eq, Structural)]
pub enum SchedulerState {
    Idle,
    Holding { key: Key, modifiers: ModifierState, t_onset: u64 },
}

/// The modifiers currently asserted: those of the held key, none when idle.
pub open spec fn state_mods(s: SchedulerState) -> ModifierState {
    match s {
        SchedulerState::Idle => all_off(),
        SchedulerState::Holding { modifiers, .. } => modifiers,
    }
}

/// The edges that bring one modifier key from `cur` to `des`.
pub open spec fn mod_key_trace(cur: bool, des: bool, key: Key) -> Seq<Effect> {
    if des == cur {
        Seq::empty()
    } else if des {
        seq![Effect::KeyDown(key)]
    } else {
        seq![Effect::KeyUp(key)]
    }
}

/// Whether a modifier diff ends in a settle pause: something changed and
/// some modifier is now active.
pub open spec fn diff_settles(cur: ModifierState, des: ModifierState) -> bool {
    cur != des && (des.shift || des.ctrl || des.alt)
}

/// The trace of a modifier diff: an edge for each modifier whose desired
/// state differs from the asserted one — and for no other — followed by a
/// settle pause if anything changed and some modifier is now active.
pub open spec fn modifier_trace(cur: ModifierState, des: ModifierState) -> Seq<Effect> {
    mod_key_trace(cur.shift, des.shift, Key::Shift) + mod_key_trace(cur.ctrl, des.ctrl, Key::Control)
        + mod_key_trace(cur.alt, des.alt, Key::Alt) + (if diff_settles(cur, des) {
        seq![Effect::Sleep(MODIFIER_SETTLE_MS)]
    } else {
        Seq::empty()
    })
}

/// The trace of one action during raw replay, given the modifiers asserted
/// when it runs.
pub open spec fn action_trace(mods: ModifierState, a: Action) -> Seq<Effect> {
    match a {
        Action::Press(k) => seq![Effect::KeyDown(k)],
        Action::Release(k) => seq![Effect::KeyUp(k)],
        Action::Delay(ms) => seq![Effect::Sleep(ms)],
        Action::SetModifiers { shift, ctrl, alt } => modifier_trace(
            mods,
            ModifierState { shift, ctrl, alt },
        ),
    }
}

/// The asserted modifiers after one key edge for `k`: pressing or
/// releasing a modifier key changes its asserted state, any other key
/// leaves the record alone.
pub open spec fn press_mod(m: ModifierState, k: Key, down: bool) -> ModifierState {
    match k {
        Key::Shift => ModifierState { shift: down, ctrl: m.ctrl, alt: m.alt },
        Key::Control => ModifierState { shift: m.shift, ctrl: down, alt: m.alt },
        Key::Alt => ModifierState { shift: m.shift, ctrl: m.ctrl, alt: down },
        _ => m,
    }
}

/// The asserted modifiers after one effect.
pub open spec fn mod_edge(m: ModifierState, e: Effect) -> ModifierState {
    match e {
        Effect::KeyDown(k) => press_mod(m, k, true),
        Effect::KeyUp(k) => press_mod(m, k, false),
        Effect::Sleep(_) => m,
    }
}

/// The asserted modifiers after a sequence of effects: the record always
/// reflects what was actually asserted at the capability, edge by edge.
pub open spec fn mods_after(m: ModifierState, t: Seq<Effect>) -> ModifierState
    decreases t.len(),
{
    if t.len() == 0 {
        m
    } else {
        mods_after(mod_edge(m, t[0]), t.drop_first())
    }
}

/// Folding modifiers over concatenated effects folds them in two steps.
pub proof fn lemma_mods_after_add(m: ModifierState, a: Seq<Effect>, b: Seq<Effect>)
    ensures
        mods_after(m, a + b) == mods_after(mods_after(m, a), b),
    decreases a.len(),
{
    if a.len() == 0 {
        assert(a + b =~= b);
    } else {
        assert((a + b)[0] == a[0]);
        assert((a + b).drop_first() =~= a.drop_first() + b);
        lemma_mods_after_add(mod_edge(m, a[0]), a.drop_first(), b);
    }
}

/// One effect folds as its single edge.
pub proof fn lemma_mods_after_one(m: ModifierState, e: Effect)
    ensures
        mods_after(m, seq![e]) == mod_edge(m, e),
{
    assert(seq![e].drop_first() =~= Seq::<Effect>::empty());
    assert(mods_after(mod_edge(m, e), Seq::<Effect>::empty()) == mod_edge(m, e));
}

/// The edges of a modifier diff, folded over the record, land exactly on
/// the desired state.
pub proof fn lemma_mods_after_diff(m: ModifierState, des: ModifierState)
    ensures
        mods_after(m, key_edges(modifier_trace(m, des))) == des,
{
    let p_shift = mod_key_trace(m.shift, des.shift, Key::Shift);
    let p_ctrl = mod_key_trace(m.ctrl, des.ctrl, Key::Control);
    let p_alt = mod_key_trace(m.alt, des.alt, Key::Alt);
    let p_settle = if diff_settles(m, des) {
        seq![Effect::Sleep(MODIFIER_SETTLE_MS)]
    } else {
        Seq::<Effect>::empty()
    };
    lemma_key_edges_empty();
    lemma_key_edges_one(Effect::KeyDown(Key::Shift));
    lemma_key_edges_one(Effect::KeyUp(Key::Shift));
    lemma_key_edges_one(Effect::KeyDown(Key::Control));
    lemma_key_edges_one(Effect::KeyUp(Key::Control));
    lemma_key_edges_one(Effect::KeyDown(Key::Alt));
    lemma_key_edges_one(Effect::KeyUp(Key::Alt));
    lemma_key_edges_one(Effect::Sleep(MODIFIER_SETTLE_MS));
    lemma_key_edges_add(p_shift, p_ctrl);
    lemma_key_edges_add(p_shift + p_ctrl, p_alt);
    lemma_key_edges_add(p_shift + p_ctrl + p_alt, p_settle);
    lemma_mods_after_add(m, key_edges(p_shift), key_edges(p_ctrl));
    lemma_mods_after_add(m, key_edges(p_shift) + key_edges(p_ctrl), key_edges(p_alt));
    lemma_mods_after_add(
        m,
        key_edges(p_shift) + key_edges(p_ctrl) + key_edges(p_alt),
        key_edges(p_settle),
    );
    if m.shift != des.shift {
        lemma_mods_after_one(m, p_shift[0]);
    }
    let m1 = mods_after(m, key_edges(p_shift));
    if m.ctrl != des.ctrl {
        lemma_mods_after_one(m1, p_ctrl[0]);
    }
    let m2 = mods_after(m1, key_edges(p_ctrl));
    if m.alt != des.alt {
        lemma_mods_after_one(m2, p_alt[0]);
    }
    assert(key_edges(modifier_trace(m, des)) == key_edges(p_shift) + key_edges(p_ctrl) + key_edges(
        p_alt,
    ) + key_edges(p_settle));
}

/// The modifiers asserted after one action.
pub open spec fn action_mods(mods: ModifierState, a: Action) -> ModifierState {
    match a {
        Action::SetModifiers { shift, ctrl, alt } => ModifierState { shift, ctrl, alt },
        Action::Press(k) => press_mod(mods, k, true),
        Action::Release(k) => press_mod(mods, k, false),
        Action::Delay(_) => mods,
    }
}

/// Folding the modifiers over a raw replay's key edges agrees with the
/// action-level account of the replay.
pub proof fn lemma_mods_after_raw(m: ModifierState, actions: Seq<Action>)
    ensures
        mods_after(m, key_edges(raw_trace(m, actions))) == raw_final_mods(m, actions),
    decreases actions.len(),
{
    if actions.len() == 0 {
        lemma_key_edges_empty();
    } else {
        let a = actions[0];
        let m1 = action_mods(m, a);
        let head = action_trace(m, a);
        let rest = raw_trace(m1, actions.drop_first());
        lemma_key_edges_add(head, rest);
        lemma_mods_after_add(m, key_edges(head), key_edges(rest));
        match a {
            Action::Press(k) => {
                lemma_key_edges_one(Effect::KeyDown(k));
                lemma_mods_after_one(m, Effect::KeyDown(k));
            },
            Action::Release(k) => {
                lemma_key_edges_one(Effect::KeyUp(k));
                lemma_mods_after_one(m, Effect::KeyUp(k));
            },
            Action::Delay(ms) => {
                lemma_key_edges_one(Effect::Sleep(ms));
                lemma_key_edges_empty();
            },
            Action::SetModifiers { shift, ctrl, alt } => {
                lemma_mods_after_diff(m, ModifierState { shift, ctrl, alt });
            },
        }
        assert(mods_after(m, key_edges(head)) == m1);
        lemma_mods_after_raw(m1, actions.drop_first());
    }
}

/// A state with its recorded modifiers replaced; idle stays idle.
pub open spec fn state_with_mods(s: SchedulerState, m: ModifierState) -> SchedulerState {
    match s {
        SchedulerState::Idle => SchedulerState::Idle,
        SchedulerState::Holding { key, modifiers: _, t_onset } => SchedulerState::Holding {
            key,
            modifiers: m,
            t_onset,
        },
    }
}

/// What a call appended to the capability log.
pub open spec fn appended_effects(pre: Seq<Effect>, post: Seq<Effect>) -> Seq<Effect> {
    post.skip(pre.len() as int)
}

/// The trace of a whole action sequence replayed raw, in order.
pub open spec fn raw_trace(mods: ModifierState, actions: Seq<Action>) -> Seq<Effect>
    decreases actions.len(),
{
    if actions.len() == 0 {
        Seq::empty()
    } else {
        action_trace(mods, actions[0]) + raw_trace(action_mods(mods, actions[0]), actions.drop_first())
    }
}

/// The modifiers asserted after a whole action sequence replayed raw.
pub open spec fn raw_final_mods(mods: ModifierState, actions: Seq<Action>) -> ModifierState
    decreases actions.len(),
{
    if actions.len() == 0 {
        mods
    } else {
        raw_final_mods(action_mods(mods, actions[0]), actions.drop_first())
    }
}

/// Raw replay of one more action appends that action's trace.
pub proof fn lemma_raw_trace_snoc(mods: ModifierState, actions: Seq<Action>, a: Action)
    ensures
        raw_trace(mods, actions.push(a)) == raw_trace(mods, actions) + action_trace(
            raw_final_mods(mods, actions),
            a,
        ),
        raw_final_mods(mods, actions.push(a)) == action_mods(raw_final_mods(mods, actions), a),
    decreases actions.len(),
{
    let s = actions.push(a);
    if actions.len() == 0 {
        let e = Seq::<Action>::empty();
        assert(s[0] == a);
        assert(s.drop_first() =~= e);
        assert(raw_trace(action_mods(mods, a), e) == Seq::<Effect>::empty());
        assert(raw_final_mods(action_mods(mods, a), e) == action_mods(mods, a));
        assert(raw_trace(mods, s) == action_trace(mods, a) + raw_trace(action_mods(mods, a), e));
        assert(raw_trace(mods, actions) == Seq::<Effect>::empty());
        assert(raw_final_mods(mods, actions) == mods);
        assert(action_trace(mods, a) + Seq::<Effect>::empty() =~= Seq::<Effect>::empty()
            + action_trace(mods, a));
    } else {
        assert(s[0] == actions[0]);
        assert(s.drop_first() =~= actions.drop_first().push(a));
        let m1 = action_mods(mods, actions[0]);
        lemma_raw_trace_snoc(m1, actions.drop_first(), a);
        assert(raw_trace(mods, s) == action_trace(mods, actions[0]) + raw_trace(
            m1,
            actions.drop_first().push(a),
        ));
        assert(raw_trace(mods, s) =~= raw_trace(mods, actions) + action_trace(
            raw_final_mods(mods, actions),
            a,
        ));
    }
}

/// A replayed prefix of an action sequence contributes a prefix of the
/// full trace.
pub proof fn lemma_raw_trace_take(mods: ModifierState, actions: Seq<Action>, i: int)
    requires
        0 <= i <= actions.len(),
    ensures
        raw_trace(mods, actions).take(raw_trace(mods, actions.take(i)).len() as int) == raw_trace(
            mods,
            actions.take(i),
        ),
        raw_trace(mods, actions.take(i)).len() <= raw_trace(mods, actions).len(),
    decreases actions.len() - i,
{
    if i == actions.len() {
        assert(actions.take(i) =~= actions);
        assert(raw_trace(mods, actions).take(raw_trace(mods, actions).len() as int) =~= raw_trace(
            mods,
            actions,
        ));
    } else {
        assert(actions.take(i + 1) =~= actions.take(i).push(actions[i]));
        lemma_raw_trace_snoc(mods, actions.take(i), actions[i]);
        lemma_raw_trace_take(mods, actions, i + 1);
        let pre = raw_trace(mods, actions.take(i));
        let mid = raw_trace(mods, actions.take(i + 1));
        let full = raw_trace(mods, actions);
        assert(mid.take(pre.len() as int) =~= pre);
        assert(full.take(pre.len() as int) =~= mid.take(pre.len() as int)) by {
            assert(full.take(mid.len() as int) == mid);
        }
    }
}

/// A raw replay that stopped inside action `i`, with `m` effects of that
/// action's trace already issued: what was issued is a prefix of the full
/// trace, its edges split cleanly, and the modifier record folded over the
/// issued edges agrees with the action-level account.
proof fn lemma_raw_partial(mods0: ModifierState, actions: Seq<Action>, i: int, m: int)
    requires
        0 <= i < actions.len(),
        0 <= m <= action_trace(raw_final_mods(mods0, actions.take(i)), actions[i]).len(),
    ensures
        ({
            let pre = raw_trace(mods0, actions.take(i));
            let at = action_trace(raw_final_mods(mods0, actions.take(i)), actions[i]);
            let full = raw_trace(mods0, actions);
            &&& full.take(pre.len() + m) == pre + at.take(m)
            &&& key_edges(full.take(pre.len() + m)) == key_edges(pre) + key_edges(at.take(m))
            &&& mods_after(mods0, key_edges(pre)) == raw_final_mods(mods0, actions.take(i))
            &&& key_edges(full).len() >= key_edges(at).len()
            &&& pre.len() + m <= full.len()
        }),
{
    let pre = raw_trace(mods0, actions.take(i));
    let at = action_trace(raw_final_mods(mods0, actions.take(i)), actions[i]);
    let full = raw_trace(mods0, actions);
    lemma_raw_trace_take(mods0, actions, i + 1);
    lemma_raw_trace_snoc(mods0, actions.take(i), actions[i]);
    assert(actions.take(i + 1) =~= actions.take(i).push(actions[i]));
    let mid = raw_trace(mods0, actions.take(i + 1));
    assert(mid == pre + at);
    assert(full.take(mid.len() as int) == mid);
    assert(full.take(pre.len() + m) =~= mid.take(pre.len() + m));
    assert(mid.take(pre.len() + m) =~= pre + at.take(m));
    lemma_key_edges_add(pre, at.take(m));
    lemma_mods_after_raw(mods0, actions.take(i));
    lemma_key_edges_add(pre, at);
    assert(full =~= mid + full.skip(mid.len() as int));
    lemma_key_edges_add(mid, full.skip(mid.len() as int));
}

/// The key the sequence presses, taking the last press if there are
/// several: the note-on's target key.
pub open spec fn last_press(actions: Seq<Action>) -> Option<Key>
    decreases actions.len(),
{
    if actions.len() == 0 {
        None
    } else {
        match actions.last() {
            Action::Press(k) => Some(k),
            _ => last_press(actions.drop_last()),
        }
    }
}

/// The desired modifier target: the last `SetModifiers` of the sequence.
pub open spec fn last_set_modifiers(actions: Seq<Action>) -> Option<ModifierState>
    decreases actions.len(),
{
    if actions.len() == 0 {
        None
    } else {
        match actions.last() {
            Action::SetModifiers { shift, ctrl, alt } => Some(ModifierState { shift, ctrl, alt }),
            _ => last_set_modifiers(actions.drop_last()),
        }
    }
}

/// The first key a sequence presses: which key a note-off must match to
/// release the note its note-on pressed.
pub open spec fn first_press(actions: Seq<Action>) -> Option<Key>
    decreases actions.len(),
{
    if actions.len() == 0 {
        None
    } else {
        match actions[0] {
            Action::Press(k) => Some(k),
            _ => first_press(actions.drop_first()),
        }
    }
}

/// Releasing whatever key is held: one edge, or nothing when idle.
pub open spec fn release_trace(s: SchedulerState) -> Seq<Effect> {
    match s {
        SchedulerState::Idle => Seq::empty(),
        SchedulerState::Holding { key, .. } => seq![Effect::KeyUp(key)],
    }
}

/// The pause that brings the time since the previous onset up to the
/// minimum gap; nothing when idle or when the gap has already passed.
pub open spec fn gap_trace(s: SchedulerState, now: u64, gap: u64) -> Seq<Effect> {
    match s {
        SchedulerState::Idle => Seq::empty(),
        SchedulerState::Holding { t_onset, .. } => {
            let elapsed: int = if now >= t_onset {
                now - t_onset
            } else {
                0
            };
            if elapsed < gap {
                seq![Effect::Sleep((gap - elapsed) as u64)]
            } else {
                Seq::empty()
            }
        },
    }
}

/// The onset time recorded for a new note: when its key-down edge is
/// actually issued — after the gap pause if one was needed, and after the
/// settle pause if the sequence's modifier diff ends in one. The next
/// note's gap is measured from here, so it spaces the key-down edges
/// themselves.
pub open spec fn onset_time(s: SchedulerState, actions: Seq<Action>, now: u64, gap: u64) -> u64 {
    let base: int = match s {
        SchedulerState::Idle => now as int,
        SchedulerState::Holding { t_onset, .. } => {
            let elapsed: int = if now >= t_onset {
                now - t_onset
            } else {
                0
            };
            if elapsed < gap {
                t_onset + gap
            } else {
                now as int
            }
        },
    };
    let settled: int = match last_set_modifiers(actions) {
        Some(des) => if diff_settles(state_mods(s), des) {
            MODIFIER_SETTLE_MS as int
        } else {
            0
        },
        None => 0,
    };
    if base + settled <= u64::MAX {
        (base + settled) as u64
    } else {
        u64::MAX
    }
}

/// The modifiers a note-on sequence asks for, keeping the current ones
/// when it asks for nothing.
pub open spec fn play_target_mods(s: SchedulerState, actions: Seq<Action>) -> ModifierState {
    match last_set_modifiers(actions) {
        Some(m) => m,
        None => state_mods(s),
    }
}

/// The whole trace of `play_note`: when the sequence presses a key, the
/// held key's release, then the gap pause, then the modifier diff, then
/// the new key's press; otherwise a raw replay of the sequence.
pub open spec fn play_note_trace(s: SchedulerState, actions: Seq<Action>, now: u64, gap: u64) -> Seq<
    Effect,
> {
    match last_press(actions) {
        Some(k) => release_trace(s) + gap_trace(s, now, gap) + (match last_set_modifiers(actions) {
            Some(des) => modifier_trace(state_mods(s), des),
            None => Seq::empty(),
        }) + seq![Effect::KeyDown(k)],
        None => raw_trace(state_mods(s), actions),
    }
}

/// The scheduler state after a raw replay: the held key and onset stay,
/// the recorded modifiers follow the replayed `SetModifiers` actions.
pub open spec fn raw_state(s: SchedulerState, actions: Seq<Action>) -> SchedulerState {
    match s {
        SchedulerState::Idle => SchedulerState::Idle,
        SchedulerState::Holding { key, modifiers, t_onset } => SchedulerState::Holding {
            key,
            modifiers: raw_final_mods(modifiers, actions),
            t_onset,
        },
    }
}

/// The scheduler state after `play_note`.
pub open spec fn play_note_state(s: SchedulerState, actions: Seq<Action>, now: u64, gap: u64) -> SchedulerState {
    match last_press(actions) {
        Some(k) => SchedulerState::Holding {
            key: k,
            modifiers: play_target_mods(s, actions),
            t_onset: onset_time(s, actions, now, gap),
        },
        None => raw_state(s, actions),
    }
}

/// Some prefix of the prescribed trace's key edges was performed: what a
/// replay that failed part-way leaves behind.
pub open spec fn edges_prefix(pre: Seq<Effect>, post: Seq<Effect>, full: Seq<Effect>) -> bool {
    exists|n: int| 0 <= n <= full.len() && post == pre + key_edges(#[trigger] full.take(n))
}

/// The modifier diff never issues an edge for a modifier whose desired
/// state already equals the asserted one.
pub proof fn lemma_modifier_diff_minimal(cur: ModifierState, des: ModifierState)
    ensures
        des.shift == cur.shift ==> forall|i: int|
            0 <= i < modifier_trace(cur, des).len() ==> (#[trigger] modifier_trace(cur, des)[i])
                != Effect::KeyDown(Key::Shift) && modifier_trace(cur, des)[i] != Effect::KeyUp(
                Key::Shift,
            ),
        des.ctrl == cur.ctrl ==> forall|i: int|
            0 <= i < modifier_trace(cur, des).len() ==> (#[trigger] modifier_trace(cur, des)[i])
                != Effect::KeyDown(Key::Control) && modifier_trace(cur, des)[i] != Effect::KeyUp(
                Key::Control,
            ),
        des.alt == cur.alt ==> forall|i: int|
            0 <= i < modifier_trace(cur, des).len() ==> (#[trigger] modifier_trace(cur, des)[i])
                != Effect::KeyDown(Key::Alt) && modifier_trace(cur, des)[i] != Effect::KeyUp(
                Key::Alt,
            ),
{
}

/// When a new note-on arrives while a key is held and the minimum onset
/// gap has not elapsed, the trace is exactly: release the held key, pause
/// for the remaining gap, diff the modifiers, press the new key — in that
/// order. The release comes before the pause, never after it.
pub proof fn lemma_gap_enforced(
    held: Key,
    mods: ModifierState,
    t: u64,
    actions: Seq<Action>,
    now: u64,
    gap: u64,
    k: Key,
)
    requires
        last_press(actions) == Some(k),
        now >= t,
        now - t < gap,
    ensures
        ({
            let s = SchedulerState::Holding { key: held, modifiers: mods, t_onset: t };
            play_note_trace(s, actions, now, gap) == seq![
                Effect::KeyUp(held),
                Effect::Sleep((gap - (now - t)) as u64),
            ] + (match last_set_modifiers(actions) {
                Some(des) => modifier_trace(mods, des),
                None => Seq::empty(),
            }) + seq![Effect::KeyDown(k)]
        }),
{
    let s = SchedulerState::Holding { key: held, modifiers: mods, t_onset: t };
    let mid = match last_set_modifiers(actions) {
        Some(des) => modifier_trace(mods, des),
        None => Seq::empty(),
    };
    assert(release_trace(s) + gap_trace(s, now, gap) + mid + seq![Effect::KeyDown(k)] =~= seq![
        Effect::KeyUp(held),
        Effect::Sleep((gap - (now - t)) as u64),
    ] + mid + seq![Effect::KeyDown(k)]);
}

/// Relies on `crossbeam_channel::after` and `Receiver::recv`: the timer
/// channel delivers its single message only once the duration has elapsed,
/// so the `recv` blocks until then.
#[verifier::external_body]
fn sleep_ms(ms: u64) {
    let _ = crossbeam_channel::after(core::time::Duration::from_millis(ms)).recv();
}

/// Issues the edges of one modifier diff, in shift-control-alt order, then
/// settles if anything changed and a modifier is now active. The record
/// behind `mods` tracks every edge actually issued, so after a failure it
/// reflects exactly what was asserted before it.
#[verifier::rlimit(100)]
#[verifier::spinoff_prover]
fn apply_modifier_diff<K: KeyboardController>(
    mods: &mut ModifierState,
    desired: ModifierState,
    kb: &mut K,
) -> (r: Result<(), Error>)
    ensures
        r is Ok ==> final(kb).effects() == old(kb).effects() + key_edges(
            modifier_trace(*old(mods), desired),
        ) && *final(mods) == desired,
        r is Err ==> exists|n: int|
            0 <= n <= modifier_trace(*old(mods), desired).len() && final(kb).effects() == old(
                kb,
            ).effects() + key_edges(#[trigger] modifier_trace(*old(mods), desired).take(n))
                && *final(mods) == mods_after(
                *old(mods),
                key_edges(modifier_trace(*old(mods), desired).take(n)),
            ),
        key_edges(modifier_trace(*old(mods), desired)).len() == 0 ==> r is Ok,
{
    let cur = *mods;
    let ghost full = modifier_trace(cur, desired);
    let ghost p_shift = mod_key_trace(cur.shift, desired.shift, Key::Shift);
    let ghost p_ctrl = mod_key_trace(cur.ctrl, desired.ctrl, Key::Control);
    let ghost p_alt = mod_key_trace(cur.alt, desired.alt, Key::Alt);
    let ghost p_settle = if diff_settles(cur, desired) {
        seq![Effect::Sleep(MODIFIER_SETTLE_MS)]
    } else {
        Seq::<Effect>::empty()
    };
    let ghost kb0 = kb.effects();
    proof {
        assert(full == p_shift + p_ctrl + p_alt + p_settle);
        lemma_key_edges_empty();
        lemma_key_edges_one(Effect::KeyDown(Key::Shift));
        lemma_key_edges_one(Effect::KeyUp(Key::Shift));
        lemma_key_edges_one(Effect::KeyDown(Key::Control));
        lemma_key_edges_one(Effect::KeyUp(Key::Control));
        lemma_key_edges_one(Effect::KeyDown(Key::Alt));
        lemma_key_edges_one(Effect::KeyUp(Key::Alt));
        lemma_key_edges_add(p_shift, p_ctrl);
        lemma_key_edges_add(p_shift + p_ctrl, p_alt);
        lemma_key_edges_add(p_shift + p_ctrl + p_alt, p_settle);
        assert(key_edges(p_settle) =~= Seq::<Effect>::empty()) by {
            if p_settle.len() > 0 {
                lemma_key_edges_one(Effect::Sleep(MODIFIER_SETTLE_MS));
            }
        }
    }

    let mut changed = false;

    if desired.shift != cur.shift {
        let step = if desired.shift {
            kb.press(Key::Shift)
        } else {
            kb.release(Key::Shift)
        };
        if let Err(e) = step {
            proof {
                assert(full.take(0) =~= Seq::<Effect>::empty());
                assert(kb.effects() == kb0 + key_edges(full.take(0)));
                assert(*mods == mods_after(cur, key_edges(full.take(0))));
                assert(key_edges(full).len() > 0);
            }
            return Err(e);
        }
        changed = true;
    }
    mods.shift = desired.shift;
    proof {
        assert(kb.effects() =~= kb0 + key_edges(p_shift));
        assert(*mods == mods_after(cur, key_edges(p_shift))) by {
            if cur.shift != desired.shift {
                lemma_mods_after_one(cur, p_shift[0]);
            }
        }
    }

    if desired.ctrl != cur.ctrl {
        let step = if desired.ctrl {
            kb.press(Key::Control)
        } else {
            kb.release(Key::Control)
        };
        if let Err(e) = step {
            proof {
                assert(full.take(p_shift.len() as int) =~= p_shift);
                assert(kb.effects() == kb0 + key_edges(full.take(p_shift.len() as int)));
                assert(key_edges(full).len() > 0);
            }
            return Err(e);
        }
        changed = true;
    }
    mods.ctrl = desired.ctrl;
    proof {
        assert(kb.effects() =~= kb0 + key_edges(p_shift + p_ctrl));
        lemma_mods_after_add(cur, key_edges(p_shift), key_edges(p_ctrl));
        assert(*mods == mods_after(cur, key_edges(p_shift + p_ctrl))) by {
            if cur.ctrl != desired.ctrl {
                lemma_mods_after_one(mods_after(cur, key_edges(p_shift)), p_ctrl[0]);
            }
        }
    }

    if desired.alt != cur.alt {
        let step = if desired.alt {
            kb.press(Key::Alt)
        } else {
            kb.release(Key::Alt)
        };
        if let Err(e) = step {
            proof {
                assert(full.take((p_shift + p_ctrl).len() as int) =~= p_shift + p_ctrl);
                assert(kb.effects() == kb0 + key_edges(full.take((p_shift + p_ctrl).len() as int)));
                assert(key_edges(full).len() > 0);
            }
            return Err(e);
        }
        changed = true;
    }
    mods.alt = desired.alt;
    proof {
        assert(kb.effects() =~= kb0 + key_edges(p_shift + p_ctrl + p_alt));
    }

    if changed && (desired.shift || desired.ctrl || desired.alt) {
        sleep_ms(MODIFIER_SETTLE_MS);
    }
    proof {
        assert(changed == (cur != desired));
        assert(kb.effects() =~= kb0 + key_edges(full));
        assert(*mods == desired);
    }
    Ok(())
}

/// One step of a raw replay: performs `action` against the capability and
/// keeps the modifier record in lock-step with the edges actually issued.
#[verifier::rlimit(100)]
#[verifier::spinoff_prover]
fn raw_step<K: KeyboardController>(
    cur_mods: &mut ModifierState,
    action: Action,
    kb: &mut K,
    Ghost(mods0): Ghost<ModifierState>,
    Ghost(actions): Ghost<Seq<Action>>,
    Ghost(i): Ghost<int>,
    Ghost(kb0): Ghost<Seq<Effect>>,
) -> (r: Result<(), Error>)
    requires
        0 <= i < actions.len(),
        action == actions[i],
        *old(cur_mods) == raw_final_mods(mods0, actions.take(i)),
        old(kb).effects() == kb0 + key_edges(raw_trace(mods0, actions.take(i))),
    ensures
        r is Ok ==> final(kb).effects() == kb0 + key_edges(raw_trace(mods0, actions.take(i + 1)))
            && *final(cur_mods) == raw_final_mods(mods0, actions.take(i + 1)),
        r is Err ==> edges_prefix(kb0, final(kb).effects(), raw_trace(mods0, actions))
            && *final(cur_mods) == mods_after(
            mods0,
            appended_effects(kb0, final(kb).effects()),
        ) && key_edges(raw_trace(mods0, actions)).len() > 0,
{
    let ghost prefix_actions = actions.take(i);
    let ghost pre = raw_trace(mods0, prefix_actions);
    let ghost full = raw_trace(mods0, actions);
    proof {
        lemma_raw_trace_snoc(mods0, prefix_actions, action);
        assert(actions.take(i + 1) =~= prefix_actions.push(action));
        lemma_key_edges_add(pre, action_trace(*cur_mods, action));
        lemma_raw_trace_take(mods0, actions, i);
    }
    match action {
        Action::Press(k) => {
            if let Err(e) = kb.press(k) {
                proof {
                    lemma_raw_partial(mods0, actions, i, 0);
                    lemma_key_edges_one(Effect::KeyDown(k));
                    assert(action_trace(*cur_mods, action).take(0) =~= Seq::<Effect>::empty());
                    assert(kb.effects() == kb0 + key_edges(full.take(pre.len() as int)));
                    assert(appended_effects(kb0, kb.effects()) =~= key_edges(pre));
                }
                return Err(e);
            }
            *cur_mods = apply_press_mod(*cur_mods, k, true);
            proof {
                lemma_key_edges_one(Effect::KeyDown(k));
                assert((kb0 + key_edges(pre)).push(Effect::KeyDown(k)) =~= kb0 + (key_edges(pre)
                    + key_edges(action_trace(raw_final_mods(mods0, prefix_actions), action))));
            }
            Ok(())
        },
        Action::Release(k) => {
            if let Err(e) = kb.release(k) {
                proof {
                    lemma_raw_partial(mods0, actions, i, 0);
                    lemma_key_edges_one(Effect::KeyUp(k));
                    assert(action_trace(*cur_mods, action).take(0) =~= Seq::<Effect>::empty());
                    assert(kb.effects() == kb0 + key_edges(full.take(pre.len() as int)));
                    assert(appended_effects(kb0, kb.effects()) =~= key_edges(pre));
                }
                return Err(e);
            }
            *cur_mods = apply_press_mod(*cur_mods, k, false);
            proof {
                lemma_key_edges_one(Effect::KeyUp(k));
                assert((kb0 + key_edges(pre)).push(Effect::KeyUp(k)) =~= kb0 + (key_edges(pre)
                    + key_edges(action_trace(raw_final_mods(mods0, prefix_actions), action))));
            }
            Ok(())
        },
        Action::Delay(ms) => {
            sleep_ms(ms);
            proof {
                lemma_key_edges_one(Effect::Sleep(ms));
                assert(kb0 + key_edges(pre) =~= kb0 + (key_edges(pre) + key_edges(
                    action_trace(*cur_mods, action),
                )));
            }
            Ok(())
        },
        Action::SetModifiers { shift, ctrl, alt } => {
            let des = ModifierState { shift, ctrl, alt };
            let ghost cur_old = *cur_mods;
            let ghost mt = modifier_trace(*cur_mods, des);
            if let Err(e) = apply_modifier_diff(cur_mods, des, kb) {
                proof {
                    let m = choose|m: int|
                        0 <= m <= mt.len() && kb.effects() == (kb0 + key_edges(pre)) + key_edges(
                            #[trigger] mt.take(m),
                        ) && *cur_mods == mods_after(cur_old, key_edges(mt.take(m)));
                    lemma_raw_partial(mods0, actions, i, m);
                    assert(kb.effects() == kb0 + key_edges(full.take(pre.len() + m)));
                    assert(appended_effects(kb0, kb.effects()) =~= key_edges(pre) + key_edges(
                        mt.take(m),
                    ));
                    lemma_mods_after_add(mods0, key_edges(pre), key_edges(mt.take(m)));
                }
                return Err(e);
            }
            proof {
                assert(kb.effects() =~= kb0 + (key_edges(pre) + key_edges(
                    action_trace(raw_final_mods(mods0, prefix_actions), actions[i]),
                )));
            }
            Ok(())
        },
    }
}

/// The executable counterpart of [`press_mod`].
fn apply_press_mod(m: ModifierState, k: Key, down: bool) -> (r: ModifierState)
    ensures
        r == press_mod(m, k, down),
{
    match k {
        Key::Shift => ModifierState { shift: down, ctrl: m.ctrl, alt: m.alt },
        Key::Control => ModifierState { shift: m.shift, ctrl: down, alt: m.alt },
        Key::Alt => ModifierState { shift: m.shift, ctrl: m.ctrl, alt: down },
        _ => m,
    }
}

/// The desired modifier target and key of a note-on sequence: the last
/// `SetModifiers` and the last `Press` it contains.
fn scan_targets(actions: &Vec<Action>) -> (r: (Option<ModifierState>, Option<Key>))
    ensures
        r.0 == last_set_modifiers(actions@),
        r.1 == last_press(actions@),
{
    let mut target_mods: Option<ModifierState> = None;
    let mut target_key: Option<Key> = None;
    let n = actions.len();
    let mut i: usize = 0;
    while i < n
        invariant
            i <= n,
            n == actions@.len(),
            target_mods == last_set_modifiers(actions@.take(i as int)),
            target_key == last_press(actions@.take(i as int)),
        decreases n - i,
    {
        let ghost prefix = actions@.take(i as int);
        match actions[i] {
            Action::SetModifiers { shift, ctrl, alt } => {
                target_mods = Some(ModifierState { shift, ctrl, alt });
            },
            Action::Press(k) => {
                target_key = Some(k);
            },
            _ => {},
        }
        proof {
            assert(actions@.take(i + 1) =~= prefix.push(actions@[i as int]));
            assert(actions@.take(i + 1).drop_last() =~= prefix);
        }
        i += 1;
    }
    proof {
        assert(actions@.take(n as int) =~= actions@);
    }
    (target_mods, target_key)
}

/// The monophonic scheduler: tracks which key is held, which modifiers are
/// asserted for it, and when its onset was, so consecutive notes never
/// overlap and never arrive too close together.
#[derive(Debug)]
pub struct NoteScheduler {
    /// What is held right now.
    pub state: SchedulerState,
    /// Minimum time between consecutive note-on key-down edges.
    pub min_note_gap: u64,
}

impl NoteScheduler {
    /// A fresh scheduler: idle, with the default onset gap.
    pub fn new() -> (r: Self)
        ensures
            r.state == SchedulerState::Idle,
            r.min_note_gap == DEFAULT_MIN_NOTE_GAP_MS,
    {
        NoteScheduler { state: SchedulerState::Idle, min_note_gap: DEFAULT_MIN_NOTE_GAP_MS }
    }

    /// The modifiers currently asserted.
    fn current_mods(&self) -> (r: ModifierState)
        ensures
            r == state_mods(self.state),
    {
        match self.state {
            SchedulerState::Idle => ModifierState { shift: false, ctrl: false, alt: false },
            SchedulerState::Holding { modifiers, .. } => modifiers,
        }
    }

    /// Stores `m` as the recorded modifiers; idle stays idle.
    fn store_mods(&mut self, m: ModifierState)
        ensures
            final(self).state == state_with_mods(old(self).state, m),
            final(self).min_note_gap == old(self).min_note_gap,
    {
        match self.state {
            SchedulerState::Idle => {},
            SchedulerState::Holding { key, modifiers: _, t_onset } => {
                self.state = SchedulerState::Holding { key, modifiers: m, t_onset };
            },
        }
    }

    /// Replays an action sequence as it stands: each press, release, pause
    /// and modifier diff in order, with no scheduling added.
    ///
    /// On failure the replay stops at the failed request and its error is
    /// returned; nothing is rolled back, and the recorded modifiers are the
    /// fold of the edges that were actually issued.
    pub fn execute_actions_raw<K: KeyboardController>(
        &mut self,
        actions: &Vec<Action>,
        kb: &mut K,
    ) -> (r: Result<(), Error>)
        ensures
            final(self).min_note_gap == old(self).min_note_gap,
            r is Ok ==> final(kb).effects() == old(kb).effects() + key_edges(
                raw_trace(state_mods(old(self).state), actions@),
            ) && final(self).state == raw_state(old(self).state, actions@),
            r is Err ==> edges_prefix(
                old(kb).effects(),
                final(kb).effects(),
                raw_trace(state_mods(old(self).state), actions@),
            ) && final(self).state == state_with_mods(
                old(self).state,
                mods_after(
                    state_mods(old(self).state),
                    appended_effects(old(kb).effects(), final(kb).effects()),
                ),
            ),
            key_edges(raw_trace(state_mods(old(self).state), actions@)).len() == 0 ==> r is Ok,
    {
        let ghost mods0 = state_mods(self.state);
        let mut cur_mods = self.current_mods();
        let n = actions.len();
        let mut i: usize = 0;
        proof {
            assert(actions@.take(0) =~= Seq::<Action>::empty());
        }
        while i < n
            invariant
                i <= n,
                n == actions@.len(),
                *self == *old(self),
                mods0 == state_mods(old(self).state),
                cur_mods == raw_final_mods(mods0, actions@.take(i as int)),
                kb.effects() == old(kb).effects() + key_edges(
                    raw_trace(mods0, actions@.take(i as int)),
                ),
            decreases n - i,
        {
            let step = raw_step(
                &mut cur_mods,
                actions[i],
                kb,
                Ghost(mods0),
                Ghost(actions@),
                Ghost(i as int),
                Ghost(old(kb).effects()),
            );
            if let Err(e) = step {
                self.store_mods(cur_mods);
                return Err(e);
            }
            i += 1;
        }
        proof {
            assert(actions@.take(n as int) =~= actions@);
        }
        self.store_mods(cur_mods);
        Ok(())
    }

    /// Plays a note-on action sequence with the scheduling discipline.
    ///
    /// When the sequence presses a key: any held key is released first,
    /// the minimum onset gap since the previous onset is waited out, the
    /// modifier diff is applied and settled, and only then is the new key
    /// pressed and recorded as held. A sequence with no press is replayed
    /// raw instead.
    #[verifier::rlimit(100)]
    #[verifier::spinoff_prover]
    pub fn play_note<K: KeyboardController>(
        &mut self,
        actions: &Vec<Action>,
        now_ms: u64,
        kb: &mut K,
    ) -> (r: Result<(), Error>)
        ensures
            final(self).min_note_gap == old(self).min_note_gap,
            r is Ok ==> final(kb).effects() == old(kb).effects() + key_edges(
                play_note_trace(old(self).state, actions@, now_ms, old(self).min_note_gap),
            ) && final(self).state == play_note_state(
                old(self).state,
                actions@,
                now_ms,
                old(self).min_note_gap,
            ),
            r is Err ==> edges_prefix(
                old(kb).effects(),
                final(kb).effects(),
                play_note_trace(old(self).state, actions@, now_ms, old(self).min_note_gap),
            ),
            r is Err && last_press(actions@) is Some ==> final(self).state
                == SchedulerState::Idle,
            r is Err && last_press(actions@) is None ==> final(self).state == state_with_mods(
                old(self).state,
                mods_after(
                    state_mods(old(self).state),
                    appended_effects(old(kb).effects(), final(kb).effects()),
                ),
            ),
            key_edges(play_note_trace(old(self).state, actions@, now_ms, old(self).min_note_gap)).len()
                == 0 ==> r is Ok,
    {
        let (target_mods, target_key) = scan_targets(actions);

        let key = match target_key {
            Some(key) => key,
            None => {
                // Not a true note-on: no key to press, so replay as-is.
                return self.execute_actions_raw(actions, kb);
            },
        };

        let ghost s0 = self.state;
        let ghost gap0 = self.min_note_gap;
        let ghost p_rel = release_trace(s0);
        let ghost p_gap = gap_trace(s0, now_ms, gap0);
        let ghost p_mod = match last_set_modifiers(actions@) {
            Some(des) => modifier_trace(state_mods(s0), des),
            None => Seq::<Effect>::empty(),
        };
        let ghost full = play_note_trace(s0, actions@, now_ms, gap0);
        proof {
            assert(full == p_rel + p_gap + p_mod + seq![Effect::KeyDown(key)]);
            lemma_key_edges_empty();
            lemma_key_edges_one(Effect::KeyDown(key));
            lemma_key_edges_add(p_rel, p_gap);
            lemma_key_edges_add(p_rel + p_gap, p_mod);
            lemma_key_edges_add(p_rel + p_gap + p_mod, seq![Effect::KeyDown(key)]);
            assert(key_edges(full).len() > 0) by {
                assert(full == (p_rel + p_gap + p_mod) + seq![Effect::KeyDown(key)]);
            }
        }

        let mut cur_mods = self.current_mods();
        let mut onset = now_ms;

        // Release the previous note and wait out the onset gap.
        match self.state {
            SchedulerState::Holding { key: held, modifiers: _, t_onset } => {
                self.state = SchedulerState::Idle;
                if let Err(e) = kb.release(held) {
                    proof {
                        assert(full.take(0) =~= Seq::<Effect>::empty());
                        assert(kb.effects() == old(kb).effects() + key_edges(full.take(0)));
                    }
                    return Err(e);
                }
                let elapsed = if now_ms >= t_onset {
                    now_ms - t_onset
                } else {
                    0
                };
                if elapsed < self.min_note_gap {
                    sleep_ms(self.min_note_gap - elapsed);
                    onset = if t_onset <= u64::MAX - self.min_note_gap {
                        t_onset + self.min_note_gap
                    } else {
                        u64::MAX
                    };
                } else {
                    onset = now_ms;
                }
                proof {
                    lemma_key_edges_one(Effect::KeyUp(held));
                    assert(old(kb).effects().push(Effect::KeyUp(held)) =~= old(kb).effects()
                        + key_edges(p_rel));
                }
            },
            SchedulerState::Idle => {},
        }
        proof {
            assert(key_edges(p_gap) =~= Seq::<Effect>::empty()) by {
                if p_gap.len() > 0 {
                    lemma_key_edges_one(p_gap[0]);
                    assert(p_gap =~= seq![p_gap[0]]);
                }
            }
            assert(kb.effects() =~= old(kb).effects() + key_edges(p_rel + p_gap));
        }

        // Bring the modifiers to the desired state. A settled diff shifts
        // the actual key-down edge, so the recorded onset moves with it.
        match target_mods {
            Some(des) => {
                let changed = des.shift != cur_mods.shift || des.ctrl != cur_mods.ctrl
                    || des.alt != cur_mods.alt;
                if changed && (des.shift || des.ctrl || des.alt) {
                    onset = if onset <= u64::MAX - MODIFIER_SETTLE_MS {
                        onset + MODIFIER_SETTLE_MS
                    } else {
                        u64::MAX
                    };
                }
                let ghost cur_old = cur_mods;
                if let Err(e) = apply_modifier_diff(&mut cur_mods, des, kb) {
                    proof {
                        let m = choose|m: int|
                            0 <= m <= p_mod.len() && kb.effects() == (old(kb).effects() + key_edges(
                                p_rel + p_gap,
                            )) + key_edges(#[trigger] p_mod.take(m)) && cur_mods == mods_after(
                                cur_old,
                                key_edges(p_mod.take(m)),
                            );
                        assert(full.take((p_rel + p_gap).len() + m) =~= (p_rel + p_gap) + p_mod.take(
                            m,
                        ));
                        lemma_key_edges_add(p_rel + p_gap, p_mod.take(m));
                        assert(kb.effects() == old(kb).effects() + key_edges(
                            full.take((p_rel + p_gap).len() + m),
                        ));
                        assert(self.state is Idle);
                    }
                    return Err(e);
                }
            },
            None => {},
        }
        proof {
            assert(kb.effects() =~= old(kb).effects() + key_edges(p_rel + p_gap + p_mod));
            assert(cur_mods == play_target_mods(s0, actions@));
        }

        // Press the new key and record it as held.
        if let Err(e) = kb.press(key) {
            proof {
                assert(full.take((p_rel + p_gap + p_mod).len() as int) =~= p_rel + p_gap + p_mod);
                assert(kb.effects() == old(kb).effects() + key_edges(
                    full.take((p_rel + p_gap + p_mod).len() as int),
                ));
            }
            return Err(e);
        }
        self.state = SchedulerState::Holding { key, modifiers: cur_mods, t_onset: onset };
        proof {
            assert(kb.effects() =~= old(kb).effects() + key_edges(full)) by {
                assert(full =~= (p_rel + p_gap + p_mod) + seq![Effect::KeyDown(key)]);
                assert((old(kb).effects() + key_edges(p_rel + p_gap + p_mod)).push(
                    Effect::KeyDown(key),
                ) =~= old(kb).effects() + (key_edges(p_rel + p_gap + p_mod) + seq![
                    Effect::KeyDown(key),
                ]));
            }
        }
        Ok(())
    }

    /// Whether a note-off leads to a replay: always when no key was
    /// identified, and when the identified key is the one held; a note-off
    /// for any other key is stale and does nothing.
    pub open spec fn note_off_replays(s: SchedulerState, released_key: Option<Key>) -> bool {
        match released_key {
            None => true,
            Some(rk) => match s {
                SchedulerState::Holding { key, .. } => key == rk,
                SchedulerState::Idle => false,
            },
        }
    }

    /// Handles a note-off whose on-press sequence pressed `released_key`.
    ///
    /// The release actions are replayed only if that key is still the held
    /// one (or none was identified); a stale note-off — a newer note has
    /// already replaced the key — does nothing at all, so it cannot cut
    /// the newer note short.
    pub fn handle_note_off<K: KeyboardController>(
        &mut self,
        actions: &Vec<Action>,
        released_key: Option<Key>,
        kb: &mut K,
    ) -> (r: Result<(), Error>)
        ensures
            final(self).min_note_gap == old(self).min_note_gap,
            !Self::note_off_replays(old(self).state, released_key) ==> r is Ok
                && final(kb).effects() == old(kb).effects() && final(self).state == old(
                self,
            ).state,
            Self::note_off_replays(old(self).state, released_key) ==> {
                &&& r is Ok ==> final(kb).effects() == old(kb).effects() + key_edges(
                    raw_trace(state_mods(old(self).state), actions@),
                ) && final(self).state == (if released_key is Some {
                    SchedulerState::Idle
                } else {
                    raw_state(old(self).state, actions@)
                })
                &&& r is Err ==> edges_prefix(
                    old(kb).effects(),
                    final(kb).effects(),
                    raw_trace(state_mods(old(self).state), actions@),
                ) && final(self).state == state_with_mods(
                    old(self).state,
                    mods_after(
                        state_mods(old(self).state),
                        appended_effects(old(kb).effects(), final(kb).effects()),
                    ),
                )
                &&& key_edges(raw_trace(state_mods(old(self).state), actions@)).len() == 0
                    ==> r is Ok
            },
    {
        match released_key {
            Some(rk) => {
                let replay = match self.state {
                    SchedulerState::Holding { key, .. } => key == rk,
                    SchedulerState::Idle => false,
                };
                if replay {
                    match self.execute_actions_raw(actions, kb) {
                        Ok(_) => {
                            self.state = SchedulerState::Idle;
                            Ok(())
                        },
                        Err(e) => Err(e),
                    }
                } else {
                    // Stale: a different note is playing now; leave it be.
                    Ok(())
                }
            },
            None => self.execute_actions_raw(actions, kb),
        }
    }
}

} // verus!
