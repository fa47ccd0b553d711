//! The state of the editor and what each user action does to it.

use vstd::prelude::*;
use crate::roll::{Note, PianoRoll, lemma_read_ranges, notes_in_range, capped_roll_length, initial_read_state, read_notes, read_tracks, readable_tracks, length_of, lemma_track_time_prefix, track_time};
use crate::smf::{EventKind, MidiFile, ParseError, decoded_smf, tracks_in_range};
use crate::layout::timecode_overflows;

verus! {

/// The editor: a label kept between sessions, the loaded file and where it came from, a
/// status line, whether the editing screen and playback are on, the piano roll, and the
/// tempo in BPM.
#[derive(Clone, Debug)]
pub struct MidiApp {
    pub label: String,
    pub midi_data: Option<MidiFile>,
    pub midi_path: Option<String>,
    pub status: String,
    pub game_running: bool,
    pub playback_running: bool,
    pub piano_roll: PianoRoll,
    pub tempo: u32,
}

/// What to hand to a player: the notes, the ticks per quarter note, and the tempo in BPM.
#[derive(Clone, Debug)]
pub struct PlaybackRequest {
    pub notes: Vec<Note>,
    pub ticks_per_quarter: u32,
    pub tempo: u32,
}

/// Where a loaded file came from: picked from disk at a path, or dropped on the window.
#[derive(Clone, Debug)]
pub enum LoadSource {
    Picked(String),
    Dropped,
}

impl Default for MidiApp {
    fn default() -> (r: MidiApp)
        ensures
            r.label@ == "Hello World!"@,
            r.midi_data is None,
            r.midi_path is None,
            r.status@ == "No file loaded"@,
            !r.game_running,
            !r.playback_running,
            r.piano_roll.tempo == 120,
            r.piano_roll.notes@.len() == 0,
            r.piano_roll.length == 64,
            r.piano_roll.ticks_per_quarter == 480,
            r.tempo == 120,
            r.editing_has_file(),
    {
        MidiApp {
            label: "Hello World!".to_owned(),
            midi_data: None,
            midi_path: None,
            status: "No file loaded".to_owned(),
            game_running: false,
            playback_running: false,
            piano_roll: PianoRoll { tempo: 120, notes: Vec::new(), length: 64, ticks_per_quarter: 480 },
            tempo: 120,
        }
    }
}

impl MidiFile {
    /// Whether the file can be read into a piano roll: the ticks of every track fit in `u32`
    /// and no tempo event is 0.
    pub fn is_readable(&self) -> (r: bool)
        ensures
            r == readable_tracks(self@.tracks),
    {
        let ghost tv = self@.tracks;
        let mut t: usize = 0;
        while t < self.tracks.len()
            invariant
                tv == self@.tracks,
                tv.len() == self.tracks@.len(),
                t <= self.tracks.len(),
                forall|k: int| 0 <= k < t ==> track_time(#[trigger] tv[k]) <= u32::MAX,
                forall|k: int, i: int|
                    0 <= k < t && 0 <= i < tv[k].len() ==> (#[trigger] tv[k][i]).kind != EventKind::Tempo(0),
            decreases self.tracks.len() - t,
        {
            let track = &self.tracks[t];
            assert(track@ == tv[t as int]);
            let mut total: u64 = 0;
            let mut i: usize = 0;
            while i < track.len()
                invariant
                    tv == self@.tracks,
                    tv.len() == self.tracks@.len(),
                    t < self.tracks.len(),
                    track@ == tv[t as int],
                    i <= track.len(),
                    total == track_time(track@.take(i as int)),
                    total <= u32::MAX,
                    forall|j: int| 0 <= j < i ==> (#[trigger] track@[j]).kind != EventKind::Tempo(0),
                decreases track.len() - i,
            {
                let e = track[i];
                assert(track@.take(i + 1).drop_last() =~= track@.take(i as int));
                assert(tv[t as int][i as int] == e);
                if e.kind == EventKind::Tempo(0) {
                    return false;
                }
                total = total + e.delta as u64;
                if total > u32::MAX as u64 {
                    proof {
                        assert(track@.take(i + 1).last() == e);
                        lemma_track_time_prefix(track@, i + 1);
                    }
                    return false;
                }
                i += 1;
            }
            assert(track@.take(track@.len() as int) =~= track@);
            t += 1;
        }
        true
    }
}

impl MidiApp {
    /// Reads the loaded file, if any, into the piano roll: its notes, tempo, length, and
    /// ticks per quarter note where the file gives metrical timing. The app's tempo becomes
    /// the file's (120 BPM where it sets none).
    pub fn parse_midi_to_pianoroll(&mut self)
        requires
            old(self).midi_data matches Some(f) ==> readable_tracks(f@.tracks),
        ensures
            old(self).editing_has_file() ==> final(self).editing_has_file(),
            old(self).midi_data is None ==> *final(self) == *old(self),
            old(self).midi_data is Some ==> final(self).parsed(),
            old(self).parsed() ==> final(self).same_state(*old(self)),
            old(self).midi_data matches Some(f) ==> {
                let s = read_tracks(initial_read_state(), f@.tracks);
                &&& final(self).tempo == s.tempo
                &&& final(self).piano_roll.tempo == s.tempo
                &&& final(self).piano_roll.notes@ == s.notes
                &&& final(self).piano_roll.length == capped_roll_length(s.notes)
                &&& final(self).piano_roll.ticks_per_quarter == match f@.ticks {
                    Some(t) => t as usize,
                    None => old(self).piano_roll.ticks_per_quarter,
                }
                &&& final(self).label == old(self).label
                &&& final(self).midi_data == old(self).midi_data
                &&& final(self).midi_path == old(self).midi_path
                &&& final(self).status == old(self).status
                &&& final(self).game_running == old(self).game_running
                &&& final(self).playback_running == old(self).playback_running
            },
    {
        match &self.midi_data {
            Some(smf) => {
                let ticks = smf.ticks_per_quarter;
                let (tempo, notes) = read_notes(&smf.tracks);
                self.tempo = tempo;
                match ticks {
                    Some(t) => {
                        self.piano_roll.ticks_per_quarter = t as usize;
                    },
                    None => {},
                }
                self.piano_roll.tempo = tempo;
                let length = length_of(&notes);
                self.piano_roll.notes = notes;
                self.piano_roll.length = length;
            },
            None => {},
        }
    }
}

/// The status after a file is read: whether it came from disk or was dropped, and whether
/// reading succeeded.
pub open spec fn loaded_status(source: LoadSource) -> Seq<char> {
    match source {
        LoadSource::Picked(_) => "MIDI loaded successfully!"@,
        LoadSource::Dropped => "Loaded dropped MIDI file"@,
    }
}

/// What the status starts with when a file could not be read.
pub open spec fn load_failed_prefix(source: LoadSource) -> Seq<char> {
    match source {
        LoadSource::Picked(_) => "Failed to parse MIDI: "@,
        LoadSource::Dropped => "Failed to parse dropped file: "@,
    }
}

/// The reason given where a file decodes but its times overflow or a tempo is 0.
pub open spec fn unreadable_reason() -> Seq<char> {
    "track times exceed 32 bits or a tempo is zero"@
}

impl MidiApp {
    /// The editing screen is on only where a file is loaded.
    pub open spec fn editing_has_file(self) -> bool {
        self.game_running ==> self.midi_data is Some
    }

    /// The piano roll and tempo are what reading the loaded file gives, if one is loaded.
    pub open spec fn parsed(self) -> bool {
        match self.midi_data {
            Some(f) => {
                let s = read_tracks(initial_read_state(), f@.tracks);
                &&& self.tempo == s.tempo
                &&& self.piano_roll.tempo == s.tempo
                &&& self.piano_roll.notes@ == s.notes
                &&& self.piano_roll.length == capped_roll_length(s.notes)
                &&& (f@.ticks matches Some(t) ==> self.piano_roll.ticks_per_quarter == t as usize)
            },
            None => true,
        }
    }

    /// Every field as in `other`, the notes compared by their values.
    pub open spec fn same_state(self, other: MidiApp) -> bool {
        &&& self.label == other.label
        &&& self.midi_data == other.midi_data
        &&& self.midi_path == other.midi_path
        &&& self.status == other.status
        &&& self.game_running == other.game_running
        &&& self.playback_running == other.playback_running
        &&& self.tempo == other.tempo
        &&& self.piano_roll.tempo == other.piano_roll.tempo
        &&& self.piano_roll.notes@ == other.piano_roll.notes@
        &&& self.piano_roll.length == other.piano_roll.length
        &&& self.piano_roll.ticks_per_quarter == other.piano_roll.ticks_per_quarter
    }

    /// Everything but the status as it was.
    pub open spec fn same_but_status(self, other: MidiApp) -> bool {
        &&& self.label == other.label
        &&& self.midi_data == other.midi_data
        &&& self.midi_path == other.midi_path
        &&& self.game_running == other.game_running
        &&& self.playback_running == other.playback_running
        &&& self.piano_roll == other.piano_roll
        &&& self.tempo == other.tempo
    }

    /// The state after `file` is loaded from `source` into `before`: the file is kept, its
    /// path where it was picked from disk, and its notes read into the piano roll; the label
    /// and the screens stay as they were.
    pub open spec fn after_load(self, before: MidiApp, file: MidiFile, source: LoadSource, status: Seq<char>) -> bool {
        let s = read_tracks(initial_read_state(), file@.tracks);
        &&& self.midi_data == Some(file)
        &&& match source {
            LoadSource::Picked(p) => self.midi_path == Some(p),
            LoadSource::Dropped => self.midi_path == before.midi_path,
        }
        &&& self.label == before.label
        &&& self.game_running == before.game_running
        &&& self.playback_running == before.playback_running
        &&& self.piano_roll.ticks_per_quarter == match file@.ticks {
            Some(t) => t as usize,
            None => before.piano_roll.ticks_per_quarter,
        }
        &&& self.tempo == s.tempo
        &&& self.piano_roll.tempo == s.tempo
        &&& self.piano_roll.notes@ == s.notes
        &&& self.piano_roll.length == capped_roll_length(s.notes)
        &&& self.status@ == status
    }

    /// Takes the outcome of reading a file from `source`. A file that decoded and can be
    /// read is kept and read into the piano roll; otherwise only the status changes, to
    /// say why.
    pub fn finish_load(&mut self, parsed: Result<MidiFile, ParseError>, source: LoadSource)
        ensures
            old(self).editing_has_file() ==> final(self).editing_has_file(),
            match parsed {
                Ok(f) => if readable_tracks(f@.tracks) {
                    &&& final(self).after_load(*old(self), f, source, loaded_status(source))
                    &&& (tracks_in_range(f@.tracks) ==> notes_in_range(final(self).piano_roll.notes@))
                } else {
                    &&& final(self).same_but_status(*old(self))
                    &&& final(self).status@ == load_failed_prefix(source) + unreadable_reason()
                },
                Err(e) => {
                    &&& final(self).same_but_status(*old(self))
                    &&& final(self).status@ == load_failed_prefix(source) + e.message@
                },
            },
    {
        match parsed {
            Ok(f) => {
                if f.is_readable() {
                    proof {
                        if tracks_in_range(f@.tracks) {
                            lemma_read_ranges(f@.tracks);
                        }
                    }
                    self.midi_data = Some(f);
                    let status = match source {
                        LoadSource::Picked(p) => {
                            self.midi_path = Some(p);
                            "MIDI loaded successfully!".to_owned()
                        },
                        LoadSource::Dropped => "Loaded dropped MIDI file".to_owned(),
                    };
                    self.parse_midi_to_pianoroll();
                    self.status = status;
                } else {
                    let mut status = match source {
                        LoadSource::Picked(_) => "Failed to parse MIDI: ".to_owned(),
                        LoadSource::Dropped => "Failed to parse dropped file: ".to_owned(),
                    };
                    status.append("track times exceed 32 bits or a tempo is zero");
                    self.status = status;
                }
            },
            Err(e) => {
                let mut status = match source {
                    LoadSource::Picked(_) => "Failed to parse MIDI: ".to_owned(),
                    LoadSource::Dropped => "Failed to parse dropped file: ".to_owned(),
                };
                status.append(e.message.as_str());
                self.status = status;
            },
        }
    }

    /// Loads the bytes of a file picked from disk at `path`.
    pub fn load_midi_file(&mut self, bytes: &[u8], path: String)
        ensures
            old(self).editing_has_file() ==> final(self).editing_has_file(),
            timecode_overflows(bytes@) ==> final(self).same_but_status(*old(self))
                && final(self).status@ == "Failed to parse MIDI: "@ + "invalid midi: invalid midi header"@,
            !timecode_overflows(bytes@) ==> match decoded_smf(bytes@) {
                Ok(v) => if readable_tracks(v.tracks) {
                    &&& exists|f: MidiFile| f@ == v && #[trigger] final(self).after_load(*old(self), f, LoadSource::Picked(path), "MIDI loaded successfully!"@)
                    &&& tracks_in_range(v.tracks)
                    &&& notes_in_range(final(self).piano_roll.notes@)
                } else {
                    &&& final(self).same_but_status(*old(self))
                    &&& final(self).status@ == "Failed to parse MIDI: "@ + unreadable_reason()
                },
                Err(m) => {
                    &&& final(self).same_but_status(*old(self))
                    &&& final(self).status@ == "Failed to parse MIDI: "@ + m
                },
            },
    {
        let parsed = MidiFile::parse(bytes);
        self.finish_load(parsed, LoadSource::Picked(path));
    }

    /// Loads the bytes of a file dropped on the window.
    pub fn load_dropped_file(&mut self, bytes: &[u8])
        ensures
            old(self).editing_has_file() ==> final(self).editing_has_file(),
            timecode_overflows(bytes@) ==> final(self).same_but_status(*old(self))
                && final(self).status@ == "Failed to parse dropped file: "@ + "invalid midi: invalid midi header"@,
            !timecode_overflows(bytes@) ==> match decoded_smf(bytes@) {
                Ok(v) => if readable_tracks(v.tracks) {
                    &&& exists|f: MidiFile| f@ == v && #[trigger] final(self).after_load(*old(self), f, LoadSource::Dropped, "Loaded dropped MIDI file"@)
                    &&& tracks_in_range(v.tracks)
                    &&& notes_in_range(final(self).piano_roll.notes@)
                } else {
                    &&& final(self).same_but_status(*old(self))
                    &&& final(self).status@ == "Failed to parse dropped file: "@ + unreadable_reason()
                },
                Err(m) => {
                    &&& final(self).same_but_status(*old(self))
                    &&& final(self).status@ == "Failed to parse dropped file: "@ + m
                },
            },
    {
        let parsed = MidiFile::parse(bytes);
        self.finish_load(parsed, LoadSource::Dropped);
    }

    /// The file picked from disk could not be read.
    pub fn read_failed(&mut self)
        ensures
            old(self).editing_has_file() ==> final(self).editing_has_file(),
            final(self).same_but_status(*old(self)),
            final(self).status@ == "Failed to read file"@,
    {
        self.status = "Failed to read file".to_owned();
    }

    /// The "Playback" button of the menu: opens the editing screen where a file is loaded.
    pub fn open_playback(&mut self)
        ensures
            old(self).editing_has_file() ==> final(self).editing_has_file(),
            old(self).midi_data is Some ==> final(self).game_running && final(self).status@ == "Playback started!"@,
            old(self).midi_data is None ==> final(self).game_running == old(self).game_running
                && final(self).status@ == "Load a MIDI file first!"@,
            final(self).label == old(self).label,
            final(self).midi_data == old(self).midi_data,
            final(self).midi_path == old(self).midi_path,
            final(self).playback_running == old(self).playback_running,
            final(self).piano_roll == old(self).piano_roll,
            final(self).tempo == old(self).tempo,
    {
        if self.midi_data.is_some() {
            self.game_running = true;
            self.status = "Playback started!".to_owned();
        } else {
            self.status = "Load a MIDI file first!".to_owned();
        }
    }

    /// The "Exit Game" button: leaves the editing screen and drops the player.
    pub fn exit_game(&mut self)
        ensures
            old(self).editing_has_file() ==> final(self).editing_has_file(),
            !final(self).game_running,
            !final(self).playback_running,
            final(self).label == old(self).label,
            final(self).midi_data == old(self).midi_data,
            final(self).midi_path == old(self).midi_path,
            final(self).status == old(self).status,
            final(self).piano_roll == old(self).piano_roll,
            final(self).tempo == old(self).tempo,
    {
        self.playback_running = false;
        self.game_running = false;
    }

    /// The "Play" button: playback starts with the roll's notes, its ticks per quarter note
    /// (cut to 32 bits) and the app's tempo.
    pub fn start_playback(&mut self) -> (r: PlaybackRequest)
        ensures
            old(self).editing_has_file() ==> final(self).editing_has_file(),
            r.notes@ == old(self).piano_roll.notes@,
            r.ticks_per_quarter == old(self).piano_roll.ticks_per_quarter as u32,
            r.tempo == old(self).tempo,
            final(self).playback_running,
            final(self).status@ == "Playback started"@,
            final(self).label == old(self).label,
            final(self).midi_data == old(self).midi_data,
            final(self).midi_path == old(self).midi_path,
            final(self).game_running == old(self).game_running,
            final(self).piano_roll == old(self).piano_roll,
            final(self).tempo == old(self).tempo,
    {
        let mut notes: Vec<Note> = Vec::new();
        let mut i: usize = 0;
        while i < self.piano_roll.notes.len()
            invariant
                i <= self.piano_roll.notes.len(),
                notes@ == self.piano_roll.notes@.take(i as int),
            decreases self.piano_roll.notes.len() - i,
        {
            notes.push(self.piano_roll.notes[i]);
            assert(notes@ =~= self.piano_roll.notes@.take(i + 1));
            i += 1;
        }
        assert(notes@ =~= self.piano_roll.notes@);
        #[verifier::truncate]
        let ticks_per_quarter = self.piano_roll.ticks_per_quarter as u32;
        self.playback_running = true;
        self.status = "Playback started".to_owned();
        PlaybackRequest { notes, ticks_per_quarter, tempo: self.tempo }
    }

    /// The "Stop" button: playback stops.
    pub fn stop_playback(&mut self)
        ensures
            old(self).editing_has_file() ==> final(self).editing_has_file(),
            !final(self).playback_running,
            final(self).status@ == "Playback stopped"@,
            final(self).label == old(self).label,
            final(self).midi_data == old(self).midi_data,
            final(self).midi_path == old(self).midi_path,
            final(self).game_running == old(self).game_running,
            final(self).piano_roll == old(self).piano_roll,
            final(self).tempo == old(self).tempo,
    {
        self.playback_running = false;
        self.status = "Playback stopped".to_owned();
    }

    /// The roll was saved to disk at `path`.
    pub fn export_saved(&mut self, path: &str)
        ensures
            old(self).editing_has_file() ==> final(self).editing_has_file(),
            final(self).same_but_status(*old(self)),
            final(self).status@ == "MIDI exported to "@ + path@,
    {
        let mut status = "MIDI exported to ".to_owned();
        status.append(path);
        self.status = status;
    }

    /// The roll was handed to the browser as a download.
    pub fn export_downloaded(&mut self)
        ensures
            old(self).editing_has_file() ==> final(self).editing_has_file(),
            final(self).same_but_status(*old(self)),
            final(self).status@ == "MIDI exported (download started)"@,
    {
        self.status = "MIDI exported (download started)".to_owned();
    }

    /// Exporting the roll failed, for the reason given.
    pub fn export_failed(&mut self, reason: &str)
        ensures
            old(self).editing_has_file() ==> final(self).editing_has_file(),
            final(self).same_but_status(*old(self)),
            final(self).status@ == "Failed to export MIDI: "@ + reason@,
    {
        let mut status = "Failed to export MIDI: ".to_owned();
        status.append(reason);
        self.status = status;
    }
}

} // verus!
