//! Error values surfaced by the library.

use vstd::prelude::*;
use crate::keyboard::Key;

verus! {

/// Everything that can go wrong inside the library proper.
///
/// Transport-byte parsing distinguishes the three ways a raw message can be
/// malformed; key injection and device lookup each carry what the caller
/// needs to report the failure.
#[derive(Debug, Clone, Copy, PartialEq, Eq, Structural)]
pub enum Error {
    /// Fewer than 3 transport bytes were supplied.
    TooShort,
    /// The status byte's high nibble is neither note-on nor note-off.
    UnsupportedMessageType(u8),
    /// A note number above 127 arrived (defensive; unreachable from
    /// well-formed transport data).
    NoteOutOfRange(u8),
    /// The platform key-injection call failed for this key; the platform
    /// detail behind the failure stays with the injector.
    KeyInjection(Key),
    /// No input device with the requested name exists.
    DeviceNotFound,
    /// Loading or saving the mapping file failed.
    Config,
}

} // verus!
