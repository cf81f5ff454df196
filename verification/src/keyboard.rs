//! The key vocabulary and the injection-capability contract.

use vstd::prelude::*;
use crate::error::Error;

verus! {

/// A keyboard key that an action sequence can press or release.
#[derive(Debug, Clone, Copy, PartialEq, Eq, Hash, Structural)]
pub enum Key {
    // Letter keys
    A, B, C, D, E, F, G, H, I, J, K, L, M,
    N, O, P, Q, R, S, T, U, V, W, X, Y, Z,
    // Number keys
    Num0, Num1, Num2, Num3, Num4,
    Num5, Num6, Num7, Num8, Num9,
    // Function keys
    F1, F2, F3, F4, F5, F6,
    F7, F8, F9, F10, F11, F12,
    // Modifier keys
    Shift,
    Control,
    Alt,
    Meta,
    // Special keys
    Space,
    Enter,
    Escape,
    Tab,
    Backspace,
    // Arrow keys
    Up,
    Down,
    Left,
    Right,
}

/// One observable step of a replayed action sequence: a key edge handed to
/// the injection capability, or a deliberate pause between edges.
#[derive(Debug, Clone, Copy, PartialEq, Eq, Structural)]
pub enum Effect {
    /// The capability was asked to press this key.
    KeyDown(Key),
    /// The capability was asked to release this key.
    KeyUp(Key),
    /// Execution paused for this many milliseconds.
    Sleep(u64),
}

/// The key edges of a trace, with the pauses dropped: exactly what the
/// injection capability is asked to do, in order.
pub open spec fn key_edges(t: Seq<Effect>) -> Seq<Effect>
    decreases t.len(),
{
    if t.len() == 0 {
        Seq::empty()
    } else {
        let rest = key_edges(t.drop_first());
        if t[0] is Sleep {
            rest
        } else {
            seq![t[0]] + rest
        }
    }
}

/// An empty trace has no key edges.
pub proof fn lemma_key_edges_empty()
    ensures
        key_edges(Seq::<Effect>::empty()) == Seq::<Effect>::empty(),
{
}

/// A single pause has no key edges; a single edge is its own key edges.
pub proof fn lemma_key_edges_one(e: Effect)
    ensures
        key_edges(seq![e]) == if e is Sleep {
            Seq::<Effect>::empty()
        } else {
            seq![e]
        },
{
    lemma_key_edges_empty();
    assert(seq![e].drop_first() =~= Seq::<Effect>::empty());
    if !(e is Sleep) {
        assert(seq![e] + Seq::<Effect>::empty() =~= seq![e]);
    }
}

/// Whether, after the requests in `log`, the capability believes `k` is
/// pressed: the most recent edge for `k` is a key-down.
pub open spec fn key_is_down(log: Seq<Effect>, k: Key) -> bool
    decreases log.len(),
{
    if log.len() == 0 {
        false
    } else if log.last() == Effect::KeyDown(k) {
        true
    } else if log.last() == Effect::KeyUp(k) {
        false
    } else {
        key_is_down(log.drop_last(), k)
    }
}

/// One key-up for every key-down request in `log`, in order: what a
/// release-all renders in the request log. The capability is idempotent,
/// so a key-up for an already-released key is a no-op.
pub open spec fn release_edges(log: Seq<Effect>) -> Seq<Effect>
    decreases log.len(),
{
    if log.len() == 0 {
        Seq::empty()
    } else {
        release_edges(log.drop_last()) + (match log.last() {
            Effect::KeyDown(k) => seq![Effect::KeyUp(k)],
            _ => Seq::<Effect>::empty(),
        })
    }
}

/// The release edges are all key-ups, and every key still down in the log
/// gets one.
pub proof fn lemma_release_edges_up(log: Seq<Effect>)
    ensures
        forall|i: int| 0 <= i < release_edges(log).len() ==> release_edges(log)[i] is KeyUp,
        forall|k: Key| key_is_down(log, k) ==> release_edges(log).contains(Effect::KeyUp(k)),
    decreases log.len(),
{
    if log.len() > 0 {
        lemma_release_edges_up(log.drop_last());
        let pre = release_edges(log.drop_last());
        let tail = (match log.last() {
            Effect::KeyDown(k) => seq![Effect::KeyUp(k)],
            _ => Seq::<Effect>::empty(),
        });
        assert(release_edges(log) == pre + tail);
        assert forall|k: Key| key_is_down(log, k) implies release_edges(log).contains(
            Effect::KeyUp(k),
        ) by {
            if log.last() == Effect::KeyDown(k) {
                assert(release_edges(log)[pre.len() as int] == Effect::KeyUp(k));
            } else {
                assert(key_is_down(log.drop_last(), k));
                let i = choose|i: int| 0 <= i < pre.len() && pre[i] == Effect::KeyUp(k);
                assert(release_edges(log)[i] == Effect::KeyUp(k));
            }
        }
    }
}

/// Appending only key-ups never puts a key down; a key with a key-up among
/// them is up afterwards.
pub proof fn lemma_all_up_none_down(pre: Seq<Effect>, rel: Seq<Effect>)
    requires
        forall|i: int| 0 <= i < rel.len() ==> rel[i] is KeyUp,
    ensures
        forall|k: Key|
            #[trigger] key_is_down(pre + rel, k) ==> key_is_down(pre, k) && !rel.contains(
                Effect::KeyUp(k),
            ),
    decreases rel.len(),
{
    if rel.len() == 0 {
        assert(pre + rel =~= pre);
    } else {
        let rest = rel.drop_last();
        lemma_all_up_none_down(pre, rest);
        assert((pre + rel).drop_last() =~= pre + rest);
        assert forall|k: Key| #[trigger] key_is_down(pre + rel, k) implies key_is_down(pre, k)
            && !rel.contains(Effect::KeyUp(k)) by {
            assert(rel[rel.len() - 1] is KeyUp);
            if (pre + rel).last() == Effect::KeyUp(k) {
                assert(!key_is_down(pre + rel, k));
            } else {
                assert(key_is_down(pre + rest, k));
                assert(!rest.contains(Effect::KeyUp(k)));
                assert forall|i: int| 0 <= i < rel.len() implies rel[i] != Effect::KeyUp(k) by {
                    if i < rel.len() - 1 {
                        assert(rest[i] == rel[i]);
                    }
                }
            }
        }
    }
}

/// After a release-all's edges, no key remains down.
pub proof fn lemma_release_edges_clear(log: Seq<Effect>)
    ensures
        forall|i: int| 0 <= i < release_edges(log).len() ==> release_edges(log)[i] is KeyUp,
        forall|k: Key| !key_is_down(log + release_edges(log), k),
{
    lemma_release_edges_up(log);
    lemma_all_up_none_down(log, release_edges(log));
}

/// Concatenating traces concatenates their key edges.
pub proof fn lemma_key_edges_add(a: Seq<Effect>, b: Seq<Effect>)
    ensures
        key_edges(a + b) == key_edges(a) + key_edges(b),
    decreases a.len(),
{
    if a.len() == 0 {
        assert(a + b =~= b);
        assert(key_edges(a) + key_edges(b) =~= key_edges(b));
    } else {
        assert((a + b).drop_first() =~= a.drop_first() + b);
        lemma_key_edges_add(a.drop_first(), b);
        if a[0] is Sleep {
        } else {
            assert(seq![a[0]] + (key_edges(a.drop_first()) + key_edges(b)) =~= (seq![a[0]]
                + key_edges(a.drop_first())) + key_edges(b));
        }
    }
}

/// The injection capability: presses and releases keys on the platform.
///
/// Its model is the ordered log of the requests it has received. A
/// successful `press` or `release` appends exactly one edge; a failed one
/// appends nothing; `release_all` appends only releases. The scheduler is
/// verified against this contract alone, so its guarantees hold for any
/// implementation that honours it.
pub trait KeyboardController: Sized + Send {
    /// The ordered log of key edges this capability has been asked for.
    spec fn effects(&self) -> Seq<Effect>;

    /// Ask the platform to press `key`.
    fn press(&mut self, key: Key) -> (r: Result<(), Error>)
        ensures
            r is Ok ==> final(self).effects() == old(self).effects().push(Effect::KeyDown(key)),
            r is Err ==> final(self).effects() == old(self).effects(),
    ;

    /// Ask the platform to release `key`.
    fn release(&mut self, key: Key) -> (r: Result<(), Error>)
        ensures
            r is Ok ==> final(self).effects() == old(self).effects().push(Effect::KeyUp(key)),
            r is Err ==> final(self).effects() == old(self).effects(),
    ;

    /// Ask the platform to release every key it believes is pressed. On
    /// success the log gains one key-up for each key-down request it held,
    /// so no key remains down ([`lemma_release_edges_clear`]); on failure
    /// only some key-ups may have been appended.
    fn release_all(&mut self) -> (r: Result<(), Error>)
        ensures
            r is Ok ==> final(self).effects() == old(self).effects() + release_edges(
                old(self).effects(),
            ),
            r is Err ==> exists|rel: Seq<Effect>|
                #![auto]
                final(self).effects() == old(self).effects() + rel && (forall|i: int|
                    0 <= i < rel.len() ==> rel[i] is KeyUp),
    ;
}

/// A raw platform injector, as unverified code provides it: the three
/// capability calls with no model attached. [`ExternalKeyboard`] wraps an
/// implementation and carries the verified request log for it.
pub trait RawKeyboard: Sized + Send {
    /// Press `key` on the platform.
    fn press(&mut self, key: Key) -> Result<(), Error>;

    /// Release `key` on the platform.
    fn release(&mut self, key: Key) -> Result<(), Error>;

    /// Release every key the platform believes is pressed.
    fn release_all(&mut self) -> Result<(), Error>;
}

/// Wraps a raw injector in the modeled capability. The effect log records
/// each successful request by construction, so the capability contract is
/// proved here once, for every injector.
pub struct ExternalKeyboard<R: RawKeyboard> {
    raw: R,
    log: Ghost<Seq<Effect>>,
}

impl<R: RawKeyboard> ExternalKeyboard<R> {
    /// Wraps `raw` with an empty request log.
    pub fn new(raw: R) -> (r: Self)
        ensures
            r.effects() == Seq::<Effect>::empty(),
    {
        ExternalKeyboard { raw, log: Ghost(Seq::empty()) }
    }
}

impl<R: RawKeyboard> KeyboardController for ExternalKeyboard<R> {
    closed spec fn effects(&self) -> Seq<Effect> {
        self.log@
    }

    fn press(&mut self, key: Key) -> (r: Result<(), Error>)
    {
        match self.raw.press(key) {
            Ok(_) => {
                proof {
                    self.log@ = self.log@.push(Effect::KeyDown(key));
                }
                Ok(())
            },
            Err(e) => Err(e),
        }
    }

    fn release(&mut self, key: Key) -> (r: Result<(), Error>)
    {
        match self.raw.release(key) {
            Ok(_) => {
                proof {
                    self.log@ = self.log@.push(Effect::KeyUp(key));
                }
                Ok(())
            },
            Err(e) => Err(e),
        }
    }

    fn release_all(&mut self) -> (r: Result<(), Error>)
    {
        let ghost log0 = self.log@;
        match self.raw.release_all() {
            Ok(_) => {
                proof {
                    self.log@ = self.log@ + release_edges(self.log@);
                }
                Ok(())
            },
            Err(e) => {
                proof {
                    let rel = Seq::<Effect>::empty();
                    assert(old(self).effects() == log0);
                    assert(self.effects() == old(self).effects() + rel && (forall|i: int|
                        0 <= i < rel.len() ==> rel[i] is KeyUp)) by {
                        assert(log0 + rel =~= log0);
                    }
                }
                Err(e)
            },
        }
    }
}

/// A deterministic in-memory double of the injection capability: it records
/// every request and never fails. Scheduler behaviour can be checked against
/// its log without a real device.
pub struct RecordingKeyboard {
    log: Vec<Effect>,
}

impl RecordingKeyboard {
    /// An empty recorder.
    pub fn new() -> (r: Self)
        ensures
            r.effects() == Seq::<Effect>::empty(),
    {
        RecordingKeyboard { log: Vec::new() }
    }

    /// The requests received so far, oldest first.
    pub fn log(&self) -> (r: &Vec<Effect>)
        ensures
            r@ == self.effects(),
    {
        &self.log
    }
}

impl KeyboardController for RecordingKeyboard {
    closed spec fn effects(&self) -> Seq<Effect> {
        self.log@
    }

    fn press(&mut self, key: Key) -> (r: Result<(), Error>)
        ensures
            r is Ok,
    {
        self.log.push(Effect::KeyDown(key));
        Ok(())
    }

    fn release(&mut self, key: Key) -> (r: Result<(), Error>)
        ensures
            r is Ok,
    {
        self.log.push(Effect::KeyUp(key));
        Ok(())
    }

    fn release_all(&mut self) -> (r: Result<(), Error>)
        ensures
            r is Ok,
    {
        let n = self.log.len();
        let mut rel: Vec<Effect> = Vec::new();
        let mut i: usize = 0;
        proof {
            assert(self.log@.take(0) =~= Seq::<Effect>::empty());
        }
        while i < n
            invariant
                i <= n,
                n == self.log@.len(),
                rel@ == release_edges(self.log@.take(i as int)),
            decreases n - i,
        {
            proof {
                assert(self.log@.take(i + 1).drop_last() =~= self.log@.take(i as int));
                assert(self.log@.take(i + 1).last() == self.log@[i as int]);
            }
            match self.log[i] {
                Effect::KeyDown(k) => {
                    rel.push(Effect::KeyUp(k));
                    proof {
                        assert(rel@ =~= release_edges(self.log@.take(i + 1)));
                    }
                },
                _ => {
                    proof {
                        assert(rel@ =~= release_edges(self.log@.take(i + 1)));
                    }
                },
            }
            i += 1;
        }
        proof {
            assert(self.log@.take(n as int) =~= self.log@);
        }
        self.log.append(&mut rel);
        Ok(())
    }
}

} // verus!
