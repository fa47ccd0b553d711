use midi_roll::playback::{message_bytes, playback_schedule};
use midi_roll::roll::{grid_ticks, length_of, note_color, note_in_view, sort_messages, timed_messages, Note, NoteMessage, PianoRoll};
use midi_roll::session::MidiApp;
use midi_roll::smf::{write_smf, EventKind, MidiEvent, MidiFile, SmfFormat};

fn note(pitch: u8, velocity: u8, start_time: u32, end_time: u32) -> Note {
    Note { pitch, velocity, start_time, end_time }
}

fn roll(notes: Vec<Note>) -> PianoRoll {
    PianoRoll { tempo: 120, notes, length: 64, ticks_per_quarter: 480 }
}

fn msg(time: u32, on: bool, key: u8, vel: u8) -> NoteMessage {
    NoteMessage { time, on, key, vel }
}

#[test]
fn export_events_are_sorted_with_deltas() {
    let r = roll(vec![note(64, 100, 10, 30), note(60, 90, 0, 20)]);
    let events = r.export_events();
    let on = |key, vel| EventKind::NoteOn { channel: 0, key, vel };
    let off = |key| EventKind::NoteOff { channel: 0, key, vel: 0 };
    assert_eq!(
        events,
        vec![
            MidiEvent { delta: 0, kind: on(60, 90) },
            MidiEvent { delta: 10, kind: on(64, 100) },
            MidiEvent { delta: 10, kind: off(60) },
            MidiEvent { delta: 10, kind: off(64) },
            MidiEvent { delta: 0, kind: EventKind::EndOfTrack },
        ]
    );
}

#[test]
fn export_caps_keys_at_127() {
    let r = roll(vec![note(200, 100, 0, 5)]);
    let events = r.export_events();
    assert_eq!(events[0].kind, EventKind::NoteOn { channel: 0, key: 127, vel: 100 });
    assert_eq!(events[1].kind, EventKind::NoteOff { channel: 0, key: 127, vel: 0 });
}

#[test]
fn export_deltas_add_up_to_times() {
    let r = roll(vec![note(60, 1, 7, 9), note(61, 1, 3, 50), note(62, 1, 9, 9)]);
    let events = r.export_events();
    let msgs = timed_messages(&r.notes, true);
    let mut t = 0u32;
    for (i, m) in msgs.iter().enumerate() {
        t += events[i].delta;
        assert_eq!(t, m.time);
    }
}

#[test]
fn export_to_vec_round_trips_through_the_file() {
    let mut r = roll(vec![note(60, 100, 0, 96), note(67, 80, 48, 144)]);
    r.ticks_per_quarter = 96;
    let bytes = r.export_to_vec().unwrap();
    assert_eq!(&bytes[0..4], b"MThd");
    let f = MidiFile::parse(&bytes).unwrap();
    assert_eq!(f.ticks_per_quarter, Some(96));
    assert_eq!(f.tracks.len(), 1);
    assert_eq!(f.tracks[0], r.export_events());
    let mut app = MidiApp::default();
    app.finish_load(Ok(f), midi_roll::session::LoadSource::Dropped);
    assert_eq!(app.piano_roll.notes, vec![note(60, 100, 0, 96), note(67, 80, 48, 144)]);
    assert_eq!(app.piano_roll.length, 145);
}

#[test]
fn export_masks_velocity_and_ticks() {
    let mut r = roll(vec![note(60, 200, 0, 10)]);
    r.ticks_per_quarter = 0x1_8060; // cut to u16 0x8060, then to 15 bits 0x0060
    let f = MidiFile::parse(&r.export_to_vec().unwrap()).unwrap();
    assert_eq!(f.ticks_per_quarter, Some(0x60));
    assert_eq!(f.tracks[0][0].kind, EventKind::NoteOn { channel: 0, key: 60, vel: 200 & 0x7f });
}

#[test]
fn write_smf_writes_the_tracks() {
    let events = vec![
        MidiEvent { delta: 5, kind: EventKind::NoteOn { channel: 3, key: 1, vel: 2 } },
        MidiEvent { delta: 0, kind: EventKind::EndOfTrack },
    ];
    let second = vec![MidiEvent { delta: 7, kind: EventKind::NoteOff { channel: 0x1f, key: 0xff, vel: 0x80 } }];
    let bytes = write_smf(SmfFormat::Parallel, 480, &vec![events.clone(), second]).unwrap();
    let f = MidiFile::parse(&bytes).unwrap();
    assert_eq!(f.format, SmfFormat::Parallel);
    assert_eq!(f.ticks_per_quarter, Some(480));
    assert_eq!(
        f.tracks,
        vec![events, vec![MidiEvent { delta: 7, kind: EventKind::NoteOff { channel: 0x0f, key: 0x7f, vel: 0 } }]]
    );
}

#[test]
fn export_to_vec_writes_a_single_track_file() {
    let r = PianoRoll {
        tempo: 120,
        notes: vec![note(60, 100, 0, 480), note(64, 100, 240, 720)],
        length: 721,
        ticks_per_quarter: 480,
    };
    let f = MidiFile::parse(&r.export_to_vec().unwrap()).unwrap();
    assert_eq!(f.format, SmfFormat::SingleTrack);
    assert_eq!(f.ticks_per_quarter, Some(480));
    let on = |key| EventKind::NoteOn { channel: 0, key, vel: 100 };
    let off = |key| EventKind::NoteOff { channel: 0, key, vel: 0 };
    assert_eq!(
        f.tracks,
        vec![vec![
            MidiEvent { delta: 0, kind: on(60) },
            MidiEvent { delta: 240, kind: on(64) },
            MidiEvent { delta: 240, kind: off(60) },
            MidiEvent { delta: 240, kind: off(64) },
            MidiEvent { delta: 0, kind: EventKind::EndOfTrack },
        ]]
    );
}

#[test]
fn empty_roll_exports() {
    let f = MidiFile::parse(&roll(vec![]).export_to_vec().unwrap()).unwrap();
    assert_eq!(f.tracks, vec![vec![MidiEvent { delta: 0, kind: EventKind::EndOfTrack }]]);
}

#[test]
fn export_ignores_note_order_when_times_differ() {
    let a = roll(vec![note(60, 1, 0, 10), note(62, 2, 3, 7), note(64, 3, 5, 20)]);
    let b = roll(vec![note(64, 3, 5, 20), note(60, 1, 0, 10), note(62, 2, 3, 7)]);
    assert_eq!(a.export_to_vec().unwrap(), b.export_to_vec().unwrap());
}

#[test]
fn sort_is_stable() {
    let v = vec![msg(5, true, 1, 1), msg(3, false, 2, 0), msg(5, false, 3, 0), msg(3, true, 4, 4), msg(0, true, 5, 5)];
    let s = sort_messages(&v);
    assert_eq!(
        s,
        vec![msg(0, true, 5, 5), msg(3, false, 2, 0), msg(3, true, 4, 4), msg(5, true, 1, 1), msg(5, false, 3, 0)]
    );
}

#[test]
fn zero_length_note_keeps_on_before_off() {
    let s = timed_messages(&vec![note(60, 10, 4, 4)], true);
    assert_eq!(s, vec![msg(4, true, 60, 10), msg(4, false, 60, 0)]);
}

#[test]
fn length_of_notes() {
    assert_eq!(length_of(&vec![]), 65);
    assert_eq!(length_of(&vec![note(1, 1, 0, 10), note(1, 1, 0, 300), note(1, 1, 0, 7)]), 301);
    assert!(vec![note(1, 1, 0, 10)].iter().all(|n| (n.end_time as usize) < length_of(&vec![note(1, 1, 0, 10)])));
}

#[test]
fn click_on_empty_cell_adds_a_note() {
    let mut r = roll(vec![note(61, 100, 0, 20)]);
    r.toggle_note_at(5, 3);
    assert_eq!(r.notes, vec![note(61, 100, 0, 20), note(63, 100, 5, 25)]);
}

#[test]
fn click_on_a_note_removes_the_first_covering_one() {
    let mut r = roll(vec![note(48, 1, 0, 10), note(73, 2, 5, 30), note(61, 3, 0, 30)]);
    r.toggle_note_at(6, 1);
    assert_eq!(r.notes, vec![note(48, 1, 0, 10), note(61, 3, 0, 30)]);
}

#[test]
fn click_past_the_end_of_a_note_adds() {
    let mut r = roll(vec![note(60, 1, 0, 10)]);
    r.toggle_note_at(10, 0);
    assert_eq!(r.notes.len(), 2);
    assert_eq!(r.notes[1], note(60, 100, 10, 30));
}

#[test]
fn click_below_the_last_row_clamps_the_pitch() {
    let mut r = roll(vec![]);
    r.toggle_note_at(0, 12);
    assert_eq!(r.notes, vec![note(71, 100, 0, 20)]);
}

#[test]
fn clicking_twice_restores_the_roll() {
    let original = vec![note(60, 1, 0, 10), note(65, 9, 40, 50)];
    let mut r = roll(original.clone());
    r.toggle_note_at(20, 7);
    assert_eq!(r.notes.len(), 3);
    r.toggle_note_at(20, 7);
    assert_eq!(r.notes, original);
}

#[test]
fn colors_by_pitch_class() {
    assert_eq!(note_color(60), (139, 0, 0));
    assert_eq!(note_color(61), (220, 20, 60));
    assert_eq!(note_color(71), (173, 216, 230));
    assert_eq!(note_color(255), (255, 255, 224));
}

#[test]
fn notes_in_view() {
    let n = note(60, 1, 10, 20);
    assert!(note_in_view(&n, 0, 10));
    assert!(note_in_view(&n, 20, 30));
    assert!(!note_in_view(&n, 21, 30));
    assert!(!note_in_view(&n, 0, 9));
}

#[test]
fn grid_lines() {
    assert_eq!(grid_ticks(25, 61, 1000), vec![20, 40, 60, 80]);
    assert_eq!(grid_ticks(0, 64, 65), vec![0, 20, 40, 60]);
    assert_eq!(grid_ticks(0, 0, 0), vec![0]);
    assert_eq!(grid_ticks(50, 60, 30), Vec::<usize>::new());
}

#[test]
fn playback_schedule_keeps_keys_and_sorts() {
    let s = playback_schedule(&vec![note(200, 90, 10, 20), note(60, 80, 0, 30)]);
    assert_eq!(s, vec![msg(0, true, 60, 80), msg(10, true, 200, 90), msg(20, false, 200, 0), msg(30, false, 60, 0)]);
}

#[test]
fn message_bytes_of_note_on_and_off() {
    assert_eq!(message_bytes(&msg(0, true, 60, 100)), vec![0x90, 60, 100]);
    assert_eq!(message_bytes(&msg(9, false, 61, 0)), vec![0x80, 61, 0]);
}

#[test]
fn menu_playback_needs_a_file() {
    let mut app = MidiApp::default();
    app.open_playback();
    assert!(!app.game_running);
    assert_eq!(app.status, "Load a MIDI file first!");
    app.midi_data = Some(MidiFile { format: SmfFormat::Parallel, ticks_per_quarter: None, tracks: vec![] });
    app.open_playback();
    assert!(app.game_running);
    assert_eq!(app.status, "Playback started!");
}

#[test]
fn play_stop_and_exit() {
    let mut app = MidiApp::default();
    app.piano_roll.notes = vec![note(60, 1, 0, 5)];
    app.piano_roll.ticks_per_quarter = 96;
    app.tempo = 90;
    app.game_running = true;
    let req = app.start_playback();
    assert_eq!(req.notes, vec![note(60, 1, 0, 5)]);
    assert_eq!((req.ticks_per_quarter, req.tempo), (96, 90));
    assert!(app.playback_running);
    assert_eq!(app.status, "Playback started");
    app.stop_playback();
    assert!(!app.playback_running);
    assert_eq!(app.status, "Playback stopped");
    app.start_playback();
    app.exit_game();
    assert!(!app.playback_running && !app.game_running);
    assert_eq!(app.status, "Playback started");
}

#[test]
fn export_and_read_statuses() {
    let mut app = MidiApp::default();
    app.export_saved("/tmp/exported.mid");
    assert_eq!(app.status, "MIDI exported to /tmp/exported.mid");
    app.export_failed("disk full");
    assert_eq!(app.status, "Failed to export MIDI: disk full");
    app.export_downloaded();
    assert_eq!(app.status, "MIDI exported (download started)");
    app.read_failed();
    assert_eq!(app.status, "Failed to read file");
}

#[test]
fn sequential_notes_come_back_in_order() {
    let notes = vec![note(60, 100, 0, 10), note(60, 90, 10, 20), note(62, 5, 20, 20), note(59, 127, 25, 40)];
    let mut r = roll(notes.clone());
    r.ticks_per_quarter = 120;
    let bytes = r.export_to_vec().unwrap();
    let mut app = MidiApp::default();
    app.load_midi_file(&bytes, "x.mid".to_string());
    assert_eq!(app.piano_roll.notes, notes);
    assert_eq!(app.piano_roll.tempo, 120);
    assert_eq!(app.piano_roll.ticks_per_quarter, 120);
}

#[test]
fn overlapping_notes_come_back_once_each() {
    let notes = vec![note(60, 100, 0, 100), note(64, 70, 10, 20), note(60, 30, 101, 110), note(67, 1, 5, 5)];
    let mut r = roll(notes.clone());
    r.ticks_per_quarter = 480;
    let f = MidiFile::parse(&r.export_to_vec().unwrap()).unwrap();
    let mut app = MidiApp::default();
    app.finish_load(Ok(f), midi_roll::session::LoadSource::Dropped);
    let back = app.piano_roll.notes.clone();
    assert_eq!(back, vec![note(67, 1, 5, 5), note(64, 70, 10, 20), note(60, 100, 0, 100), note(60, 30, 101, 110)]);
    let mut a = back;
    let mut b = notes;
    a.sort_by_key(|n| (n.start_time, n.pitch));
    b.sort_by_key(|n| (n.start_time, n.pitch));
    assert_eq!(a, b);
}
