use midi_roll::roll::{read_notes, Note, PianoRoll};
use midi_roll::session::{LoadSource, MidiApp};
use midi_roll::smf::{EventKind, MidiEvent, MidiFile, ParseError, SmfFormat};

fn smf_bytes(division: u16, tracks: &[Vec<u8>]) -> Vec<u8> {
    let mut b = Vec::new();
    b.extend_from_slice(b"MThd");
    b.extend_from_slice(&6u32.to_be_bytes());
    b.extend_from_slice(&1u16.to_be_bytes());
    b.extend_from_slice(&(tracks.len() as u16).to_be_bytes());
    b.extend_from_slice(&division.to_be_bytes());
    for t in tracks {
        b.extend_from_slice(b"MTrk");
        b.extend_from_slice(&(t.len() as u32).to_be_bytes());
        b.extend_from_slice(t);
    }
    b
}

fn ev(delta: u32, kind: EventKind) -> MidiEvent {
    MidiEvent { delta, kind }
}

fn on(key: u8, vel: u8) -> EventKind {
    EventKind::NoteOn { channel: 0, key, vel }
}

fn off(key: u8, vel: u8) -> EventKind {
    EventKind::NoteOff { channel: 0, key, vel }
}

fn note(pitch: u8, velocity: u8, start_time: u32, end_time: u32) -> Note {
    Note { pitch, velocity, start_time, end_time }
}

#[test]
fn parse_reads_header_and_events() {
    let track = vec![
        0x00, 0xFF, 0x51, 0x03, 0x07, 0xA1, 0x20, // tempo 500000
        0x00, 0x90, 0x3C, 0x64, // note on 60
        0x60, 0x80, 0x3C, 0x00, // note off after 96
        0x00, 0xFF, 0x2F, 0x00,
    ];
    let f = MidiFile::parse(&smf_bytes(96, &[track])).unwrap();
    assert_eq!(f.ticks_per_quarter, Some(96));
    assert_eq!(f.tracks.len(), 1);
    assert_eq!(
        f.tracks[0],
        vec![
            ev(0, EventKind::Tempo(500_000)),
            ev(0, on(60, 100)),
            ev(96, off(60, 0)),
            ev(0, EventKind::EndOfTrack),
        ]
    );
}

#[test]
fn parse_reads_timecode_as_no_ticks() {
    // SMPTE: -25 fps, 40 subframes
    let division = ((-25i8 as u8 as u16) << 8) | 40;
    let track = vec![0x00, 0xFF, 0x2F, 0x00];
    let f = MidiFile::parse(&smf_bytes(division, &[track])).unwrap();
    assert_eq!(f.ticks_per_quarter, None);
}

#[test]
fn parse_reads_other_events_and_channels() {
    let track = vec![
        0x00, 0xC3, 0x05, // program change: other
        0x05, 0x93, 0x40, 0x10, // note on, channel 3
        0x00, 0xFF, 0x2F, 0x00,
    ];
    let f = MidiFile::parse(&smf_bytes(480, &[track])).unwrap();
    assert_eq!(
        f.tracks[0],
        vec![
            ev(0, EventKind::Other),
            ev(5, EventKind::NoteOn { channel: 3, key: 64, vel: 16 }),
            ev(0, EventKind::EndOfTrack),
        ]
    );
}

#[test]
fn parse_rejects_garbage() {
    let r: Result<MidiFile, ParseError> = MidiFile::parse(b"not a midi file");
    assert!(r.is_err());
    assert!(!r.unwrap_err().message.is_empty());
}

#[test]
fn read_pairs_note_on_and_note_off() {
    let tracks = vec![vec![
        ev(0, on(60, 100)),
        ev(10, on(64, 80)),
        ev(10, off(60, 0)),
        ev(5, on(64, 0)),
    ]];
    let (tempo, notes) = read_notes(&tracks);
    assert_eq!(tempo, 120);
    assert_eq!(notes, vec![note(60, 100, 0, 20), note(64, 80, 10, 25)]);
}

#[test]
fn read_ignores_note_off_with_velocity() {
    let tracks = vec![vec![ev(0, on(60, 100)), ev(10, off(60, 64)), ev(10, off(60, 0))]];
    let (_, notes) = read_notes(&tracks);
    assert_eq!(notes, vec![note(60, 100, 0, 20)]);
}

#[test]
fn read_restarts_a_sounding_key() {
    let tracks = vec![vec![ev(0, on(60, 100)), ev(10, on(60, 50)), ev(10, off(60, 0))]];
    let (_, notes) = read_notes(&tracks);
    assert_eq!(notes, vec![note(60, 50, 10, 20)]);
}

#[test]
fn read_sets_tempo_from_last_tempo_event() {
    let tracks = vec![
        vec![ev(0, EventKind::Tempo(500_000))],
        vec![ev(0, EventKind::Tempo(1_000_000)), ev(5, EventKind::Other)],
    ];
    let (tempo, notes) = read_notes(&tracks);
    assert_eq!(tempo, 60);
    assert!(notes.is_empty());
}

#[test]
fn read_carries_sounding_notes_across_tracks() {
    let tracks = vec![vec![ev(100, on(60, 90))], vec![ev(30, off(60, 0))]];
    let (_, notes) = read_notes(&tracks);
    assert_eq!(notes, vec![note(60, 90, 100, 30)]);
}

#[test]
fn read_drops_unmatched_note_off() {
    let tracks = vec![vec![ev(3, off(61, 0)), ev(3, on(62, 0))]];
    let (_, notes) = read_notes(&tracks);
    assert!(notes.is_empty());
}

#[test]
fn every_read_note_has_a_velocity() {
    let tracks = vec![vec![ev(0, on(60, 0)), ev(1, on(61, 1)), ev(1, off(61, 0)), ev(1, off(60, 0))]];
    let (_, notes) = read_notes(&tracks);
    assert!(notes.iter().all(|n| n.velocity > 0));
    assert_eq!(notes, vec![note(61, 1, 1, 2)]);
}

#[test]
fn readability_check() {
    let ok = MidiFile { format: SmfFormat::Parallel, ticks_per_quarter: None, tracks: vec![vec![ev(u32::MAX, EventKind::Other)]] };
    assert!(ok.is_readable());
    let overflow = MidiFile {
        format: SmfFormat::Parallel,
        ticks_per_quarter: None,
        tracks: vec![vec![ev(u32::MAX, EventKind::Other), ev(1, EventKind::Other)]],
    };
    assert!(!overflow.is_readable());
    let zero_tempo = MidiFile { format: SmfFormat::Parallel, ticks_per_quarter: None, tracks: vec![vec![ev(0, EventKind::Tempo(0))]] };
    assert!(!zero_tempo.is_readable());
}

#[test]
fn parse_midi_to_pianoroll_fills_the_roll() {
    let mut app = MidiApp::default();
    app.midi_data = Some(MidiFile {
        format: SmfFormat::Parallel,
        ticks_per_quarter: Some(96),
        tracks: vec![vec![
            ev(0, EventKind::Tempo(400_000)),
            ev(0, on(60, 100)),
            ev(96, off(60, 0)),
        ]],
    });
    app.parse_midi_to_pianoroll();
    assert_eq!(app.tempo, 150);
    assert_eq!(app.piano_roll.tempo, 150);
    assert_eq!(app.piano_roll.ticks_per_quarter, 96);
    assert_eq!(app.piano_roll.notes, vec![note(60, 100, 0, 96)]);
    assert_eq!(app.piano_roll.length, 97);
}

#[test]
fn parse_midi_to_pianoroll_without_notes_gives_length_65() {
    let mut app = MidiApp::default();
    app.midi_data = Some(MidiFile { format: SmfFormat::Parallel, ticks_per_quarter: None, tracks: vec![vec![ev(7, EventKind::Other)]] });
    app.parse_midi_to_pianoroll();
    assert_eq!(app.piano_roll.length, 65);
    assert_eq!(app.piano_roll.ticks_per_quarter, 480);
    assert_eq!(app.tempo, 120);
}

#[test]
fn parse_midi_to_pianoroll_without_file_changes_nothing() {
    let mut app = MidiApp::default();
    app.tempo = 99;
    app.parse_midi_to_pianoroll();
    assert_eq!(app.tempo, 99);
    assert_eq!(app.piano_roll.length, 64);
}

#[test]
fn load_midi_file_reads_bytes_into_the_roll() {
    let track = vec![
        0x00, 0xFF, 0x51, 0x03, 0x07, 0xA1, 0x20,
        0x00, 0x90, 0x3C, 0x64,
        0x60, 0x90, 0x3C, 0x00,
        0x00, 0xFF, 0x2F, 0x00,
    ];
    let mut app = MidiApp::default();
    app.load_midi_file(&smf_bytes(96, &[track]), "/tmp/song.mid".to_string());
    assert_eq!(app.status, "MIDI loaded successfully!");
    assert_eq!(app.midi_path.as_deref(), Some("/tmp/song.mid"));
    assert!(app.midi_data.is_some());
    assert_eq!(app.piano_roll.notes, vec![note(60, 100, 0, 96)]);
    assert_eq!(app.piano_roll.ticks_per_quarter, 96);
    assert_eq!(app.tempo, 120);
}

#[test]
fn load_midi_file_reports_parse_errors() {
    let mut app = MidiApp::default();
    app.load_midi_file(b"garbage", "/tmp/x.mid".to_string());
    assert!(app.status.starts_with("Failed to parse MIDI: "));
    assert!(app.midi_data.is_none());
    assert!(app.midi_path.is_none());
}

#[test]
fn load_dropped_file_keeps_the_path() {
    let track = vec![0x00, 0x90, 0x40, 0x50, 0x10, 0x80, 0x40, 0x00, 0x00, 0xFF, 0x2F, 0x00];
    let mut app = MidiApp::default();
    app.midi_path = Some("old.mid".to_string());
    app.load_dropped_file(&smf_bytes(480, &[track]));
    assert_eq!(app.status, "Loaded dropped MIDI file");
    assert_eq!(app.midi_path.as_deref(), Some("old.mid"));
    assert_eq!(app.piano_roll.notes, vec![note(64, 80, 0, 16)]);

    app.load_dropped_file(b"MThd");
    assert!(app.status.starts_with("Failed to parse dropped file: "));
}

#[test]
fn finish_load_refuses_zero_tempo() {
    let mut app = MidiApp::default();
    let f = MidiFile { format: SmfFormat::Parallel, ticks_per_quarter: Some(1), tracks: vec![vec![ev(0, EventKind::Tempo(0))]] };
    app.finish_load(Ok(f), LoadSource::Picked("a.mid".to_string()));
    assert_eq!(app.status, "Failed to parse MIDI: track times exceed 32 bits or a tempo is zero");
    assert!(app.midi_data.is_none());
    assert_eq!(app.piano_roll.ticks_per_quarter, 480);
}

#[test]
fn finish_load_reports_the_parse_error() {
    let mut app = MidiApp::default();
    app.finish_load(Err(ParseError { message: "bad".to_string() }), LoadSource::Dropped);
    assert_eq!(app.status, "Failed to parse dropped file: bad");
}

#[test]
fn default_app() {
    let app = MidiApp::default();
    assert_eq!(app.label, "Hello World!");
    assert_eq!(app.status, "No file loaded");
    assert!(!app.game_running && !app.playback_running);
    let PianoRoll { tempo, notes, length, ticks_per_quarter } = app.piano_roll;
    assert_eq!((tempo, notes.len(), length, ticks_per_quarter), (120, 0, 64, 480));
    assert_eq!(app.tempo, 120);
}

#[test]
fn timecode_frame_byte_0x80_is_refused() {
    let mut b = Vec::new();
    b.extend_from_slice(b"MThd");
    b.extend_from_slice(&6u32.to_be_bytes());
    b.extend_from_slice(&[0x00, 0x00, 0x00, 0x01, 0x80, 0x00]);
    let r = MidiFile::parse(&b);
    assert_eq!(r.unwrap_err().message, "invalid midi: invalid midi header");
    let mut app = MidiApp::default();
    app.load_midi_file(&b, "bad.mid".to_string());
    assert_eq!(app.status, "Failed to parse MIDI: invalid midi: invalid midi header");
}

#[test]
fn timecode_frame_byte_0x80_inside_rmid_is_refused() {
    let smf = {
        let mut b = Vec::new();
        b.extend_from_slice(b"XYZW");
        b.extend_from_slice(&1u32.to_be_bytes());
        b.push(0);
        b.extend_from_slice(b"MThd");
        b.extend_from_slice(&6u32.to_be_bytes());
        b.extend_from_slice(&[0x00, 0x01, 0x00, 0x01, 0x80, 0x10]);
        b
    };
    let mut riff = Vec::new();
    riff.extend_from_slice(b"RIFF");
    riff.extend_from_slice(&((4 + 8 + 4 + 8 + smf.len()) as u32).to_le_bytes());
    riff.extend_from_slice(b"RMID");
    riff.extend_from_slice(b"junk");
    riff.extend_from_slice(&3u32.to_le_bytes());
    riff.extend_from_slice(&[1, 2, 3, 0]);
    riff.extend_from_slice(b"data");
    riff.extend_from_slice(&(smf.len() as u32).to_le_bytes());
    riff.extend_from_slice(&smf);
    let mut app = MidiApp::default();
    app.load_dropped_file(&riff);
    assert_eq!(app.status, "Failed to parse dropped file: invalid midi: invalid midi header");
}

#[test]
fn rmid_files_are_read() {
    let track = vec![0x00, 0x90, 0x3C, 0x64, 0x10, 0x80, 0x3C, 0x00, 0x00, 0xFF, 0x2F, 0x00];
    let smf = smf_bytes(96, &[track]);
    let mut riff = Vec::new();
    riff.extend_from_slice(b"RIFF");
    riff.extend_from_slice(&((4 + 8 + smf.len()) as u32).to_le_bytes());
    riff.extend_from_slice(b"RMID");
    riff.extend_from_slice(b"data");
    riff.extend_from_slice(&(smf.len() as u32).to_le_bytes());
    riff.extend_from_slice(&smf);
    let f = MidiFile::parse(&riff).unwrap();
    assert_eq!(f.ticks_per_quarter, Some(96));
    assert_eq!(f.tracks[0].len(), 3);
}

#[test]
fn loaded_notes_fit_seven_bits() {
    let track = vec![0x00, 0x90, 0x7F, 0x7F, 0x10, 0x90, 0x7F, 0x00, 0x00, 0xFF, 0x2F, 0x00];
    let mut app = MidiApp::default();
    app.load_midi_file(&smf_bytes(96, &[track]), "n.mid".to_string());
    assert_eq!(app.piano_roll.notes, vec![note(127, 127, 0, 16)]);
    assert!(app.piano_roll.notes.iter().all(|n| n.pitch <= 127 && n.velocity >= 1 && n.velocity <= 127));
}

#[test]
fn parsing_twice_changes_nothing() {
    let mut app = MidiApp::default();
    app.midi_data = Some(MidiFile {
        format: SmfFormat::SingleTrack,
        ticks_per_quarter: Some(240),
        tracks: vec![vec![ev(0, on(61, 9)), ev(30, off(61, 0))]],
    });
    app.parse_midi_to_pianoroll();
    let once = (app.tempo, app.piano_roll.notes.clone(), app.piano_roll.length, app.piano_roll.ticks_per_quarter);
    app.parse_midi_to_pianoroll();
    assert_eq!(once, (app.tempo, app.piano_roll.notes.clone(), app.piano_roll.length, app.piano_roll.ticks_per_quarter));
}

#[test]
fn editing_screen_needs_a_loaded_file() {
    let mut app = MidiApp::default();
    app.open_playback();
    app.load_midi_file(b"junk", "j.mid".to_string());
    app.open_playback();
    assert!(!app.game_running || app.midi_data.is_some());
    assert!(!app.game_running);
}

fn header_chunk(data: [u8; 6]) -> Vec<u8> {
    let mut b = Vec::new();
    b.extend_from_slice(b"MThd");
    b.extend_from_slice(&6u32.to_be_bytes());
    b.extend_from_slice(&data);
    b
}

#[test]
fn later_header_with_frame_byte_0x80_is_refused() {
    let track = vec![0x00, 0x90, 0x3C, 0x64, 0x10, 0x80, 0x3C, 0x00, 0x00, 0xFF, 0x2F, 0x00];
    let mut b = smf_bytes(96, &[track]);
    b.extend_from_slice(&header_chunk([0x00, 0x01, 0x00, 0x01, 0x80, 0x28]));
    let r = MidiFile::parse(&b);
    assert_eq!(r.unwrap_err().message, "invalid midi: invalid midi header");
    let mut app = MidiApp::default();
    app.load_midi_file(&b, "late.mid".to_string());
    assert_eq!(app.status, "Failed to parse MIDI: invalid midi: invalid midi header");
    assert!(app.midi_data.is_none());
}

#[test]
fn later_header_with_a_valid_timecode_is_skipped() {
    let track = vec![0x00, 0x90, 0x3C, 0x64, 0x10, 0x80, 0x3C, 0x00, 0x00, 0xFF, 0x2F, 0x00];
    let mut b = smf_bytes(96, &[track.clone()]);
    b.extend_from_slice(&header_chunk([0x00, 0x01, 0x00, 0x01, 0xE8, 0x28]));
    b.extend_from_slice(b"MTrk");
    b.extend_from_slice(&(track.len() as u32).to_be_bytes());
    b.extend_from_slice(&track);
    let f = MidiFile::parse(&b).unwrap();
    assert_eq!(f.ticks_per_quarter, Some(96));
    assert_eq!(f.tracks.len(), 2);
}

#[test]
fn track_before_any_header_gives_midlys_error() {
    let mut smf = Vec::new();
    smf.extend_from_slice(b"MTrk");
    smf.extend_from_slice(&0u32.to_be_bytes());
    smf.extend_from_slice(&header_chunk([0x00, 0x00, 0x00, 0x01, 0x80, 0x00]));
    let mut riff = Vec::new();
    riff.extend_from_slice(b"RIFF");
    riff.extend_from_slice(&((4 + 8 + smf.len()) as u32).to_le_bytes());
    riff.extend_from_slice(b"RMID");
    riff.extend_from_slice(b"data");
    riff.extend_from_slice(&(smf.len() as u32).to_le_bytes());
    riff.extend_from_slice(&smf);
    let r = MidiFile::parse(&riff);
    assert_eq!(r.unwrap_err().message, "invalid midi: expected header, found track");
}

#[test]
fn parse_errors_show_midlys_text() {
    let mut app = MidiApp::default();
    app.load_midi_file(b"garbage", "/tmp/x.mid".to_string());
    assert_eq!(app.status, "Failed to parse MIDI: invalid midi: not a midi file");
    app.load_dropped_file(b"MThd");
    assert_eq!(app.status, "Failed to parse dropped file: invalid midi: invalid midi header");
}
