# midi_roll

A piano-roll MIDI editor core, verified with Verus.

- `src/layout.rs` — where the chunks of a plain or RMID file lie, to refuse a file with a
  header chunk, first or later, that `midly` cannot decode without overflowing.
- `src/smf.rs` — the events read from and written to Standard MIDI Files, and the calls
  into `midly` that decode and encode them.
- `src/roll.rs` — notes, the piano roll, reading notes from tracks, exporting a roll as a
  chronologically sorted track, and editing the roll by clicks.
- `src/playback.rs` — the order and bytes of the messages that play a roll.
- `src/session.rs` — the editor's state and what each user action does to it.
- `src/round_trip.rs` — exporting a roll and reading it back gives its notes; export does
  not depend on note order where all ticks differ.
- `app/` — the egui front end, file dialogs, and the MIDI/WebAudio players.
- `tests/` — tests of the library on concrete files and rolls.
