//! Note numbers and the transport-byte message parser.

use vstd::prelude::*;
use vstd::string::*;
use crate::error::Error;

verus! {

/// A note number, always in `[0, 127]`.
///
/// Values are only constructible through [`MidiNote::new`], which rejects
/// anything above 127, so every `MidiNote` in the program is valid.
#[derive(Debug, Clone, Copy, PartialEq, Eq, Hash, PartialOrd, Ord, Structural)]
pub struct MidiNote(u8);

impl View for MidiNote {
    type V = u8;

    closed spec fn view(&self) -> u8 {
        self.0
    }
}

impl MidiNote {
    #[verifier::type_invariant]
    spec fn in_range(self) -> bool {
        self.0 <= 127
    }

    /// Validates and wraps a raw note number.
    pub fn new(note: u8) -> (r: Result<Self, Error>)
        ensures
            note <= 127 <==> r is Ok,
            r matches Ok(n) ==> n@ == note,
            r matches Err(e) ==> e == Error::NoteOutOfRange(note),
    {
        if note > 127 {
            return Err(Error::NoteOutOfRange(note));
        }
        Ok(Self(note))
    }

    /// The raw note number.
    pub fn value(&self) -> (r: u8)
        ensures
            r == self@,
            r <= 127,
    {
        proof {
            use_type_invariant(self);
        }
        self.0
    }

    /// The octave number, from -1 (notes 0..=11) up to 9.
    pub fn octave(&self) -> (r: i8)
        ensures
            r as int == self@ as int / 12 - 1,
    {
        proof {
            use_type_invariant(self);
        }
        (self.0 as i8) / 12 - 1
    }

    /// The pitch-class name (C, C#, D, ...).
    pub fn name(&self) -> (r: &'static str)
        ensures
            r@ == spec_note_name(self@ as int % 12),
    {
        match self.0 % 12 {
            0 => "C",
            1 => "C#",
            2 => "D",
            3 => "D#",
            4 => "E",
            5 => "F",
            6 => "F#",
            7 => "G",
            8 => "G#",
            9 => "A",
            10 => "A#",
            _ => "B",
        }
    }

    /// The pitch-class name together with the octave, e.g. `C4`.
    pub fn full_name(&self) -> (r: String)
        ensures
            r@ == spec_note_name(self@ as int % 12) + spec_octave_text(
                self@ as int / 12 - 1,
            ),
    {
        String::from_str(self.name()).concat(self.octave_text())
    }

    fn octave_text(&self) -> (r: &'static str)
        ensures
            r@ == spec_octave_text(self@ as int / 12 - 1),
    {
        proof {
            use_type_invariant(self);
        }
        match self.0 / 12 {
            0 => "-1",
            1 => "0",
            2 => "1",
            3 => "2",
            4 => "3",
            5 => "4",
            6 => "5",
            7 => "6",
            8 => "7",
            9 => "8",
            _ => "9",
        }
    }
}

/// What a pitch class is called.
pub open spec fn spec_note_name(pc: int) -> Seq<char> {
    if pc == 0 {
        "C"@
    } else if pc == 1 {
        "C#"@
    } else if pc == 2 {
        "D"@
    } else if pc == 3 {
        "D#"@
    } else if pc == 4 {
        "E"@
    } else if pc == 5 {
        "F"@
    } else if pc == 6 {
        "F#"@
    } else if pc == 7 {
        "G"@
    } else if pc == 8 {
        "G#"@
    } else if pc == 9 {
        "A"@
    } else if pc == 10 {
        "A#"@
    } else {
        "B"@
    }
}

/// How an octave number is written.
pub open spec fn spec_octave_text(o: int) -> Seq<char> {
    if o == -1 {
        "-1"@
    } else if o == 0 {
        "0"@
    } else if o == 1 {
        "1"@
    } else if o == 2 {
        "2"@
    } else if o == 3 {
        "3"@
    } else if o == 4 {
        "4"@
    } else if o == 5 {
        "5"@
    } else if o == 6 {
        "6"@
    } else if o == 7 {
        "7"@
    } else if o == 8 {
        "8"@
    } else {
        "9"@
    }
}

/// Whether a message starts or ends a note.
#[derive(Debug, Clone, Copy, PartialEq, Eq, Structural)]
pub enum MidiEventType {
    NoteOn,
    NoteOff,
}

/// A decoded note message.
#[derive(Debug, Clone, PartialEq, Eq, Structural)]
pub struct MidiMessage {
    pub event_type: MidiEventType,
    pub channel: u8,
    pub note: MidiNote,
    pub velocity: u8,
}

impl MidiMessage {
    /// Decodes a raw transport message.
    ///
    /// The first byte's high nibble selects the message type (`0x80`
    /// note-off, `0x90` note-on) and its low nibble is the channel; the
    /// second byte is the note number and the third the velocity. A note-on
    /// with velocity 0 is normalized to a note-off. Everything else is
    /// rejected, and fewer than 3 bytes always is.
    pub fn parse(data: &[u8]) -> (r: Result<Self, Error>)
        ensures
            data@.len() < 3 <==> r == Err::<Self, Error>(Error::TooShort),
            data@.len() >= 3 ==> {
                let status = data@[0];
                let kind = status & 0xF0;
                let channel = status & 0x0F;
                let note = data@[1];
                let velocity = data@[2];
                &&& (r is Ok <==> (kind == 0x80 || kind == 0x90) && note <= 127)
                &&& r matches Ok(m) ==> {
                    &&& m.channel == channel
                    &&& m.note@ == note
                    &&& m.velocity == velocity
                    &&& m.event_type == (if kind == 0x80 || velocity == 0 {
                        MidiEventType::NoteOff
                    } else {
                        MidiEventType::NoteOn
                    })
                }
                &&& !(kind == 0x80 || kind == 0x90) ==> r == Err::<Self, Error>(
                    Error::UnsupportedMessageType(kind),
                )
                &&& (kind == 0x80 || kind == 0x90) && note > 127 ==> r == Err::<
                    Self,
                    Error,
                >(Error::NoteOutOfRange(note))
            },
    {
        if data.len() < 3 {
            return Err(Error::TooShort);
        }

        let status = data[0];
        let kind = status & 0xF0;
        let channel = status & 0x0F;

        if kind == 0x80 {
            let note = MidiNote::new(data[1])?;
            Ok(Self { event_type: MidiEventType::NoteOff, channel, note, velocity: data[2] })
        } else if kind == 0x90 {
            let note = MidiNote::new(data[1])?;
            let velocity = data[2];
            let event_type = if velocity == 0 {
                MidiEventType::NoteOff
            } else {
                MidiEventType::NoteOn
            };
            Ok(Self { event_type, channel, note, velocity })
        } else {
            Err(Error::UnsupportedMessageType(kind))
        }
    }
}

} // verus!
