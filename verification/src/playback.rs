//! The order and the bytes of the MIDI messages that play a piano roll.

use vstd::prelude::*;
use crate::roll::{Note, NoteMessage, note_messages, sort_by_time, timed_messages};

verus! {

/// The messages that play `notes`: for each note a note-on at its start with its velocity
/// and a note-off at its end with velocity 0, all in chronological order (messages at the
/// same tick keep the order of the notes). Keys are sent as they are.
pub fn playback_schedule(notes: &Vec<Note>) -> (r: Vec<NoteMessage>)
    ensures
        r@ == sort_by_time(note_messages(notes@, false)),
{
    timed_messages(notes, false)
}

/// The status byte of a note-on (`0x90`) or note-off (`0x80`) on channel 0.
pub open spec fn status_byte(on: bool) -> u8 {
    if on { 0x90 } else { 0x80 }
}

/// The three bytes of a channel-0 message: status, key, velocity.
pub fn message_bytes(m: &NoteMessage) -> (r: Vec<u8>)
    ensures
        r@ == seq![status_byte(m.on), m.key, m.vel],
{
    let status: u8 = if m.on { 0x90 } else { 0x80 };
    let r = vec![status, m.key, m.vel];
    assert(r@ =~= seq![status_byte(m.on), m.key, m.vel]);
    r
}

} // verus!
