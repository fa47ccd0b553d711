//! A piano-roll MIDI editor core: reading Standard MIDI Files into a piano roll,
//! editing the roll, exporting it back to SMF bytes, and scheduling playback.

pub mod layout;
pub mod smf;
pub mod roll;
pub mod playback;
pub mod session;
pub mod round_trip;
pub mod laws;
