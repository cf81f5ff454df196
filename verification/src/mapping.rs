//! The declarative table from note numbers to keyboard action sequences.

use vstd::prelude::*;
use crate::keyboard::Key;
use crate::midi::MidiNote;

verus! {

/// One step of a replayable action sequence.
#[derive(Debug, Clone, Copy, PartialEq, Eq, Structural)]
pub enum Action {
    /// Press a key.
    Press(Key),
    /// Release a key.
    Release(Key),
    /// Wait for this many milliseconds.
    Delay(u64),
    /// Bring the modifier keys to exactly this state.
    SetModifiers { shift: bool, ctrl: bool, alt: bool },
}

/// What to replay when a mapped note starts and when it ends.
#[derive(Debug, Clone)]
pub struct NoteMapping {
    /// Actions replayed, in order, on note-on.
    pub on_press: Vec<Action>,
    /// Actions replayed, in order, on note-off.
    pub on_release: Vec<Action>,
}

impl Default for NoteMapping {
    fn default() -> (r: Self)
        ensures
            r.on_press@ == Seq::<Action>::empty(),
            r.on_release@ == Seq::<Action>::empty(),
    {
        NoteMapping { on_press: Vec::new(), on_release: Vec::new() }
    }
}

/// The note table as a mathematical map; a later entry for the same key
/// would win, though well-formed tables keep their keys unique.
pub open spec fn entries_map(s: Seq<(u8, NoteMapping)>) -> Map<u8, NoteMapping>
    decreases s.len(),
{
    if s.len() == 0 {
        Map::empty()
    } else {
        entries_map(s.drop_last()).insert(s.last().0, s.last().1)
    }
}

/// A key is in the map exactly when some entry carries it.
proof fn lemma_entries_map_dom(s: Seq<(u8, NoteMapping)>, key: u8)
    ensures
        entries_map(s).dom().contains(key) <==> exists|i: int|
            0 <= i < s.len() && s[i].0 == key,
    decreases s.len(),
{
    if s.len() > 0 {
        lemma_entries_map_dom(s.drop_last(), key);
        if s.last().0 == key {
            assert(s[s.len() - 1].0 == key);
        } else if exists|i: int| 0 <= i < s.len() && s[i].0 == key {
            let i = choose|i: int| 0 <= i < s.len() && s[i].0 == key;
            assert(s.drop_last()[i] == s[i]);
        }
    }
}

/// With unique keys, the map sends each entry's key to that entry's value.
proof fn lemma_entries_map_at(s: Seq<(u8, NoteMapping)>, i: int)
    requires
        forall|p: int, q: int| 0 <= p < q < s.len() ==> s[p].0 != s[q].0,
        0 <= i < s.len(),
    ensures
        entries_map(s).dom().contains(s[i].0),
        entries_map(s)[s[i].0] == s[i].1,
    decreases s.len(),
{
    if i == s.len() - 1 {
    } else {
        assert(s.drop_last()[i] == s[i]);
        lemma_entries_map_at(s.drop_last(), i);
    }
}

/// The full mapping configuration: an optional channel filter, the note
/// table, and whether unmapped notes fall back to other octaves.
#[derive(Debug, Clone)]
pub struct MappingConfig {
    /// Only events on this channel are handled; `None` listens on all.
    pub channel: Option<u8>,
    /// The note table, keyed by note number.
    pub entries: Vec<(u8, NoteMapping)>,
    /// Whether to shift unmapped notes by octaves into the mapped range.
    pub octave_transpose: bool,
}

impl MappingConfig {
    /// The table as a mathematical map from note number to mapping.
    pub open spec fn table(&self) -> Map<u8, NoteMapping> {
        entries_map(self.entries@)
    }

    /// Well-formed: keys are unique and are valid note numbers.
    pub open spec fn wf(&self) -> bool {
        &&& forall|i: int, j: int|
            0 <= i < j < self.entries@.len() ==> self.entries@[i].0 != self.entries@[j].0
        &&& forall|i: int| 0 <= i < self.entries@.len() ==> self.entries@[i].0 <= 127
    }

    /// An empty table that listens on channel 0 and does not transpose.
    pub fn new() -> (r: Self)
        ensures
            r.wf(),
            r.channel == Some(0u8),
            r.table() == Map::<u8, NoteMapping>::empty(),
            !r.octave_transpose,
    {
        MappingConfig { channel: Some(0), entries: Vec::new(), octave_transpose: false }
    }

    /// The index holding `key`, if the table has it.
    fn find_key(&self, key: u8) -> (r: Option<usize>)
        ensures
            match r {
                Some(i) => i < self.entries@.len() && self.entries@[i as int].0 == key,
                None => forall|i: int|
                    0 <= i < self.entries@.len() ==> self.entries@[i].0 != key,
            },
    {
        let n = self.entries.len();
        let mut i: usize = 0;
        while i < n
            invariant
                i <= n,
                n == self.entries@.len(),
                forall|j: int| 0 <= j < i ==> self.entries@[j].0 != key,
            decreases n - i,
        {
            if self.entries[i].0 == key {
                return Some(i);
            }
            i += 1;
        }
        None
    }

    /// The mapping for a note, or nothing if the note is unmapped. No
    /// fallback of any kind.
    pub fn get_mapping(&self, note: MidiNote) -> (r: Option<&NoteMapping>)
        requires
            self.wf(),
        ensures
            match r {
                Some(m) => self.table().dom().contains(note@) && *m == self.table()[note@],
                None => !self.table().dom().contains(note@),
            },
    {
        let key = note.value();
        proof {
            lemma_entries_map_dom(self.entries@, key);
        }
        match self.find_key(key) {
            Some(i) => {
                proof {
                    lemma_entries_map_at(self.entries@, i as int);
                }
                Some(&self.entries[i].1)
            },
            None => None,
        }
    }

    /// Inserts a mapping for a note, replacing any previous one.
    pub fn add_mapping(&mut self, note: MidiNote, mapping: NoteMapping)
        requires
            old(self).wf(),
        ensures
            final(self).wf(),
            final(self).table() == old(self).table().insert(note@, mapping),
            final(self).channel == old(self).channel,
            final(self).octave_transpose == old(self).octave_transpose,
    {
        let key = note.value();
        match self.find_key(key) {
            Some(i) => {
                let ghost s_old = self.entries@;
                self.entries[i] = (key, mapping);
                proof {
                    lemma_entries_map_update(s_old, i as int, mapping);
                    assert(self.entries@ =~= s_old.update(i as int, (s_old[i as int].0, mapping)));
                }
            },
            None => {
                let ghost s_old = self.entries@;
                self.entries.push((key, mapping));
                proof {
                    assert(self.entries@.drop_last() =~= s_old);
                    assert(self.entries@.last() == (key, mapping));
                }
            },
        }
    }
}

impl Default for MappingConfig {
    /// The same as [`MappingConfig::new`].
    fn default() -> (r: Self)
        ensures
            r.wf(),
            r.channel == Some(0u8),
            r.table() == Map::<u8, NoteMapping>::empty(),
            !r.octave_transpose,
    {
        MappingConfig::new()
    }
}

/// A least key of the table.
pub open spec fn is_min_key(dom: Set<u8>, m: u8) -> bool {
    dom.contains(m) && forall|k: u8| dom.contains(k) ==> m <= k
}

/// A greatest key of the table.
pub open spec fn is_max_key(dom: Set<u8>, m: u8) -> bool {
    dom.contains(m) && forall|k: u8| dom.contains(k) ==> m >= k
}

/// The least key (meaningful only when the table is not empty).
pub open spec fn min_key(dom: Set<u8>) -> u8 {
    choose|m: u8| is_min_key(dom, m)
}

/// The greatest key (meaningful only when the table is not empty).
pub open spec fn max_key(dom: Set<u8>) -> u8 {
    choose|m: u8| is_max_key(dom, m)
}

/// Shifting up by octaves: the first mapped candidate among
/// `from + 12, from + 24, ...` that stays at most 127, if any.
pub open spec fn search_up(dom: Set<u8>, from: int) -> Option<u8>
    decreases 128 - from,
    when from <= 127
{
    if from + 12 > 127 {
        None
    } else if dom.contains((from + 12) as u8) {
        Some((from + 12) as u8)
    } else {
        search_up(dom, from + 12)
    }
}

/// Shifting down by octaves: the first mapped candidate among
/// `from - 12, from - 24, ...` that stays at least 0, if any.
pub open spec fn search_down(dom: Set<u8>, from: int) -> Option<u8>
    decreases from,
    when from >= 0
{
    if from < 12 {
        None
    } else if dom.contains((from - 12) as u8) {
        Some((from - 12) as u8)
    } else {
        search_down(dom, from - 12)
    }
}

/// The alternating search for a note inside the mapped span but itself
/// unmapped: one octave down is tried first, then one octave up, then two
/// down, two up, and so on until both directions run off the note range.
/// The down-before-up order at each step is deliberate and load-bearing.
pub open spec fn search_alternate(dom: Set<u8>, down: int, up: int) -> Option<u8>
    decreases down + 127 - up,
    when 0 <= down && up <= 127
{
    let can_down = down >= 12;
    let can_up = up <= 115;
    if !can_down && !can_up {
        None
    } else if can_down && dom.contains((down - 12) as u8) {
        Some((down - 12) as u8)
    } else if can_up && dom.contains((up + 12) as u8) {
        Some((up + 12) as u8)
    } else {
        search_alternate(
            dom,
            if can_down { down - 12 } else { down },
            if can_up { up + 12 } else { up },
        )
    }
}

/// Which note, if any, a lookup with octave transposition resolves to.
///
/// A mapped note resolves to itself. An unmapped note resolves to nothing
/// unless transposition is enabled and the table is non-empty; then a note
/// below the mapped range searches upward, one above it searches downward,
/// and one inside the range alternates down-then-up.
pub open spec fn transpose_lookup(c: MappingConfig, n: u8) -> Option<u8> {
    let dom = c.table().dom();
    if dom.contains(n) {
        Some(n)
    } else if !c.octave_transpose {
        None
    } else if c.entries@.len() == 0 {
        None
    } else if n < min_key(dom) {
        search_up(dom, n as int)
    } else if n > max_key(dom) {
        search_down(dom, n as int)
    } else {
        search_alternate(dom, n as int, n as int)
    }
}

/// With transposition disabled, an unmapped note resolves to nothing, no
/// matter what the table holds.
pub proof fn lemma_no_transpose_no_fallback(c: MappingConfig, n: u8)
    requires
        !c.octave_transpose,
        !c.table().dom().contains(n),
    ensures
        transpose_lookup(c, n) is None,
{
}

impl MappingConfig {
    /// The mapping for a note, transposing by octaves when enabled.
    ///
    /// Returns the note the lookup actually resolved to together with its
    /// mapping, exactly as [`transpose_lookup`] describes.
    pub fn get_mapping_transposed(&self, note: MidiNote) -> (r: Option<(MidiNote, &NoteMapping)>)
        requires
            self.wf(),
        ensures
            match r {
                Some(p) => {
                    &&& transpose_lookup(*self, note@) == Some(p.0@)
                    &&& self.table().dom().contains(p.0@)
                    &&& *p.1 == self.table()[p.0@]
                },
                None => transpose_lookup(*self, note@) is None,
            },
    {
        let ghost dom = self.table().dom();
        let n = note.value();

        // Direct lookup first.
        proof {
            lemma_entries_map_dom(self.entries@, n);
        }
        if let Some(i) = self.find_key(n) {
            proof {
                lemma_entries_map_at(self.entries@, i as int);
            }
            return Some((note, &self.entries[i].1));
        }

        if !self.octave_transpose {
            return None;
        }
        if self.entries.len() == 0 {
            return None;
        }

        // The bounds of the mapped range.
        let (minv, maxv) = self.key_bounds();

        if n < minv {
            // Shift up by octaves.
            let mut cand = n;
            proof {
                assert(transpose_lookup(*self, note@) == search_up(dom, n as int));
            }
            while cand <= 115
                invariant
                    self.wf(),
                    dom == self.table().dom(),
                    n <= 127,
                    cand <= 127,
                    transpose_lookup(*self, note@) == search_up(dom, cand as int),
                decreases 127 - cand,
            {
                let ghost cand_old = cand;
                cand = cand + 12;
                proof {
                    lemma_entries_map_dom(self.entries@, cand);
                }
                if let Some(i) = self.find_key(cand) {
                    proof {
                        lemma_entries_map_at(self.entries@, i as int);
                        assert(search_up(dom, cand_old as int) == Some(cand));
                    }
                    let rn = match MidiNote::new(cand) {
                        Ok(rn) => rn,
                        Err(_) => { return None; },
                    };
                    return Some((rn, &self.entries[i].1));
                }
                proof {
                    assert(search_up(dom, cand_old as int) == search_up(dom, cand as int));
                }
            }
            proof {
                assert(search_up(dom, cand as int) is None);
            }
            None
        } else if n > maxv {
            // Shift down by octaves.
            let mut cand = n;
            proof {
                assert(transpose_lookup(*self, note@) == search_down(dom, n as int));
            }
            while cand >= 12
                invariant
                    self.wf(),
                    dom == self.table().dom(),
                    transpose_lookup(*self, note@) == search_down(dom, cand as int),
                decreases cand,
            {
                let ghost cand_old = cand;
                cand = cand - 12;
                proof {
                    lemma_entries_map_dom(self.entries@, cand);
                }
                if let Some(i) = self.find_key(cand) {
                    proof {
                        lemma_entries_map_at(self.entries@, i as int);
                        assert(search_down(dom, cand_old as int) == Some(cand));
                    }
                    let rn = match MidiNote::new(cand) {
                        Ok(rn) => rn,
                        Err(_) => { return None; },
                    };
                    return Some((rn, &self.entries[i].1));
                }
                proof {
                    assert(search_down(dom, cand_old as int) == search_down(dom, cand as int));
                }
            }
            proof {
                assert(search_down(dom, cand as int) is None);
            }
            None
        } else {
            // Inside the mapped span but unmapped: alternate down, then up.
            let mut down = n;
            let mut up = n;
            proof {
                assert(transpose_lookup(*self, note@) == search_alternate(dom, n as int, n as int));
            }
            while down >= 12 || up <= 115
                invariant
                    self.wf(),
                    dom == self.table().dom(),
                    up <= 127,
                    transpose_lookup(*self, note@) == search_alternate(
                        dom,
                        down as int,
                        up as int,
                    ),
                decreases down + 127 - up,
            {
                let ghost down_old = down;
                let ghost up_old = up;
                let can_down = down >= 12;
                let can_up = up <= 115;
                if can_down {
                    down = down - 12;
                    proof {
                        lemma_entries_map_dom(self.entries@, down);
                    }
                    if let Some(i) = self.find_key(down) {
                        proof {
                            lemma_entries_map_at(self.entries@, i as int);
                            assert(search_alternate(dom, down_old as int, up_old as int)
                                == Some(down));
                        }
                        let rn = match MidiNote::new(down) {
                            Ok(rn) => rn,
                            Err(_) => { return None; },
                        };
                        return Some((rn, &self.entries[i].1));
                    }
                }
                if can_up {
                    up = up + 12;
                    proof {
                        lemma_entries_map_dom(self.entries@, up);
                    }
                    if let Some(i) = self.find_key(up) {
                        proof {
                            lemma_entries_map_at(self.entries@, i as int);
                            assert(search_alternate(dom, down_old as int, up_old as int)
                                == Some(up));
                        }
                        let rn = match MidiNote::new(up) {
                            Ok(rn) => rn,
                            Err(_) => { return None; },
                        };
                        return Some((rn, &self.entries[i].1));
                    }
                }
                proof {
                    assert(search_alternate(dom, down_old as int, up_old as int)
                        == search_alternate(dom, down as int, up as int));
                }
            }
            proof {
                assert(search_alternate(dom, down as int, up as int) is None);
            }
            None
        }
    }

    /// The least and greatest keys of a non-empty table.
    fn key_bounds(&self) -> (r: (u8, u8))
        requires
            self.wf(),
            self.entries@.len() > 0,
        ensures
            is_min_key(self.table().dom(), r.0),
            is_max_key(self.table().dom(), r.1),
            min_key(self.table().dom()) == r.0,
            max_key(self.table().dom()) == r.1,
    {
        let ghost dom = self.table().dom();
        let n = self.entries.len();
        let mut minv = self.entries[0].0;
        let mut maxv = self.entries[0].0;
        let mut i: usize = 1;
        while i < n
            invariant
                1 <= i <= n,
                n == self.entries@.len(),
                exists|j: int| 0 <= j < i && self.entries@[j].0 == minv,
                exists|j: int| 0 <= j < i && self.entries@[j].0 == maxv,
                forall|j: int| 0 <= j < i ==> minv <= self.entries@[j].0,
                forall|j: int| 0 <= j < i ==> maxv >= self.entries@[j].0,
            decreases n - i,
        {
            let k = self.entries[i].0;
            if k < minv {
                minv = k;
            }
            if k > maxv {
                maxv = k;
            }
            i += 1;
        }
        proof {
            assert(is_min_key(dom, minv)) by {
                lemma_entries_map_dom(self.entries@, minv);
                assert forall|k: u8| dom.contains(k) implies minv <= k by {
                    lemma_entries_map_dom(self.entries@, k);
                }
            }
            assert(is_max_key(dom, maxv)) by {
                lemma_entries_map_dom(self.entries@, maxv);
                assert forall|k: u8| dom.contains(k) implies maxv >= k by {
                    lemma_entries_map_dom(self.entries@, k);
                }
            }
            // a least key is unique, so `choose` must pick this one
            assert(min_key(dom) == minv) by {
                assert(is_min_key(dom, min_key(dom)));
            }
            assert(max_key(dom) == maxv) by {
                assert(is_max_key(dom, max_key(dom)));
            }
        }
        (minv, maxv)
    }
}

/// The performance keyboard row, one key per semitone of an octave plus the
/// octave note: Q 2 W 3 E R 5 T 6 Y 7 U I.
pub open spec fn perf_key(i: int) -> Key {
    if i == 0 {
        Key::Q
    } else if i == 1 {
        Key::Num2
    } else if i == 2 {
        Key::W
    } else if i == 3 {
        Key::Num3
    } else if i == 4 {
        Key::E
    } else if i == 5 {
        Key::R
    } else if i == 6 {
        Key::Num5
    } else if i == 7 {
        Key::T
    } else if i == 8 {
        Key::Num6
    } else if i == 9 {
        Key::Y
    } else if i == 10 {
        Key::Num7
    } else if i == 11 {
        Key::U
    } else {
        Key::I
    }
}

/// A mapping that presses the bare key and releases it again.
pub open spec fn is_plain_mapping(m: NoteMapping, k: Key) -> bool {
    &&& m.on_press@ == seq![Action::Press(k)]
    &&& m.on_release@ == seq![Action::Release(k)]
}

/// A mapping that holds Ctrl around the key and clears it on release.
pub open spec fn is_ctrl_mapping(m: NoteMapping, k: Key) -> bool {
    &&& m.on_press@ == seq![
        Action::SetModifiers { shift: false, ctrl: true, alt: false },
        Action::Press(k),
    ]
    &&& m.on_release@ == seq![
        Action::Release(k),
        Action::SetModifiers { shift: false, ctrl: false, alt: false },
    ]
}

/// A mapping that holds Shift around the key and clears it on release.
pub open spec fn is_shift_mapping(m: NoteMapping, k: Key) -> bool {
    &&& m.on_press@ == seq![
        Action::SetModifiers { shift: true, ctrl: false, alt: false },
        Action::Press(k),
    ]
    &&& m.on_release@ == seq![
        Action::Release(k),
        Action::SetModifiers { shift: false, ctrl: false, alt: false },
    ]
}

fn perf_key_at(i: usize) -> (k: Key)
    requires
        i < 13,
    ensures
        k == perf_key(i as int),
{
    match i {
        0 => Key::Q,
        1 => Key::Num2,
        2 => Key::W,
        3 => Key::Num3,
        4 => Key::E,
        5 => Key::R,
        6 => Key::Num5,
        7 => Key::T,
        8 => Key::Num6,
        9 => Key::Y,
        10 => Key::Num7,
        11 => Key::U,
        _ => Key::I,
    }
}

/// The default performance layout: three octaves around middle C mapped to
/// the performance row, the lowest held under Ctrl, the middle bare, and
/// the highest under Shift. Channel 0, no octave transposition.
pub fn create_ffxiv_default_mapping() -> (r: MappingConfig)
    ensures
        r.wf(),
        r.channel == Some(0u8),
        !r.octave_transpose,
        forall|n: u8| r.table().dom().contains(n) <==> 48 <= n <= 84,
        forall|n: u8| 48 <= n <= 59 ==> is_ctrl_mapping(#[trigger] r.table()[n], perf_key(n - 48)),
        forall|n: u8| 60 <= n <= 71 ==> is_plain_mapping(#[trigger] r.table()[n], perf_key(n - 60)),
        forall|n: u8| 72 <= n <= 84 ==> is_shift_mapping(#[trigger] r.table()[n], perf_key(n - 72)),
{
    let mut config = MappingConfig::new();

    // Lowest octave: held under Ctrl.
    let mut i: usize = 0;
    while i < 13
        invariant
            i <= 13,
            config.wf(),
            config.channel == Some(0u8),
            !config.octave_transpose,
            forall|n: u8| config.table().dom().contains(n) <==> 48 <= n < 48 + i,
            forall|n: u8|
                48 <= n < 48 + i ==> is_ctrl_mapping(
                    #[trigger] config.table()[n],
                    perf_key(n - 48),
                ),
        decreases 13 - i,
    {
        let key = perf_key_at(i);
        let note = match MidiNote::new(48 + i as u8) {
            Ok(n) => n,
            Err(_) => { return config; },
        };
        let mapping = NoteMapping {
            on_press: vec![
                Action::SetModifiers { shift: false, ctrl: true, alt: false },
                Action::Press(key),
            ],
            on_release: vec![
                Action::Release(key),
                Action::SetModifiers { shift: false, ctrl: false, alt: false },
            ],
        };
        proof {
            assert(is_ctrl_mapping(mapping, perf_key(i as int)));
        }
        config.add_mapping(note, mapping);
        i += 1;
    }

    // Middle octave: bare keys.
    let mut i: usize = 0;
    while i < 13
        invariant
            i <= 13,
            config.wf(),
            config.channel == Some(0u8),
            !config.octave_transpose,
            forall|n: u8|
                config.table().dom().contains(n) <==> (48 <= n <= 60 || 60 <= n < 60 + i),
            forall|n: u8|
                48 <= n <= 59 ==> is_ctrl_mapping(#[trigger] config.table()[n], perf_key(n - 48)),
            forall|n: u8|
                60 <= n < 60 + i ==> is_plain_mapping(
                    #[trigger] config.table()[n],
                    perf_key(n - 60),
                ),
        decreases 13 - i,
    {
        let key = perf_key_at(i);
        let note = match MidiNote::new(60 + i as u8) {
            Ok(n) => n,
            Err(_) => { return config; },
        };
        let mapping = NoteMapping {
            on_press: vec![Action::Press(key)],
            on_release: vec![Action::Release(key)],
        };
        proof {
            assert(mapping.on_press@ =~= seq![Action::Press(key)]);
            assert(mapping.on_release@ =~= seq![Action::Release(key)]);
            assert(is_plain_mapping(mapping, perf_key(i as int)));
        }
        config.add_mapping(note, mapping);
        i += 1;
    }

    // Highest octave: held under Shift.
    let mut i: usize = 0;
    while i < 13
        invariant
            i <= 13,
            config.wf(),
            config.channel == Some(0u8),
            !config.octave_transpose,
            forall|n: u8|
                config.table().dom().contains(n) <==> (48 <= n <= 72 || 72 <= n < 72 + i),
            forall|n: u8|
                48 <= n <= 59 ==> is_ctrl_mapping(#[trigger] config.table()[n], perf_key(n - 48)),
            forall|n: u8|
                60 <= n <= 71 ==> is_plain_mapping(#[trigger] config.table()[n], perf_key(n - 60)),
            forall|n: u8|
                72 <= n < 72 + i ==> is_shift_mapping(
                    #[trigger] config.table()[n],
                    perf_key(n - 72),
                ),
        decreases 13 - i,
    {
        let key = perf_key_at(i);
        let note = match MidiNote::new(72 + i as u8) {
            Ok(n) => n,
            Err(_) => { return config; },
        };
        let mapping = NoteMapping {
            on_press: vec![
                Action::SetModifiers { shift: true, ctrl: false, alt: false },
                Action::Press(key),
            ],
            on_release: vec![
                Action::Release(key),
                Action::SetModifiers { shift: false, ctrl: false, alt: false },
            ],
        };
        proof {
            assert(is_shift_mapping(mapping, perf_key(i as int)));
        }
        config.add_mapping(note, mapping);
        i += 1;
    }

    config
}

/// Replacing the value at an existing key updates the map at that key.
proof fn lemma_entries_map_update(s: Seq<(u8, NoteMapping)>, i: int, v: NoteMapping)
    requires
        forall|p: int, q: int| 0 <= p < q < s.len() ==> s[p].0 != s[q].0,
        0 <= i < s.len(),
    ensures
        entries_map(s.update(i, (s[i].0, v))) == entries_map(s).insert(s[i].0, v),
    decreases s.len(),
{
    let key = s[i].0;
    let s2 = s.update(i, (key, v));
    if i == s.len() - 1 {
        assert(s2.drop_last() =~= s.drop_last());
        assert(entries_map(s2) =~= entries_map(s).insert(key, v));
    } else {
        assert(s2.drop_last() =~= s.drop_last().update(i, (key, v)));
        lemma_entries_map_update(s.drop_last(), i, v);
        assert(s.drop_last()[i] == s[i]);
        // the last entry's key differs from `key`, so the two inserts commute
        assert(s2.last() == s.last());
        assert(s.last().0 != key);
        assert(entries_map(s2) =~= entries_map(s).insert(key, v));
    }
}

} // verus!
