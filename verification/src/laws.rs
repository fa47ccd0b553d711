//! What reading, clicking, playing, drawing and loading promise over all inputs.

use vstd::prelude::*;
use crate::roll::{
    Note, NoteMessage, ReadState, first_covering, lemma_first_covering, lemma_note_message_at,
    lemma_sort_permutes, note_messages, pitch_class_color, read_event_at, read_track, read_tracks,
    readable_tracks, sort_by_time, toggled, track_time,
};
use crate::smf::{EventKind, MidiEvent};

verus! {

/// Two events that differ at most in the channel of a note-on or a note-off.
pub open spec fn same_but_channel(a: MidiEvent, b: MidiEvent) -> bool {
    &&& a.delta == b.delta
    &&& match (a.kind, b.kind) {
        (EventKind::NoteOn { key: k1, vel: v1, .. }, EventKind::NoteOn { key: k2, vel: v2, .. }) => k1 == k2 && v1 == v2,
        (EventKind::NoteOff { key: k1, vel: v1, .. }, EventKind::NoteOff { key: k2, vel: v2, .. }) => k1 == k2 && v1 == v2,
        _ => a.kind == b.kind,
    }
}

/// Two tracks that differ at most in the channels of their note events.
pub open spec fn track_same_but_channels(a: Seq<MidiEvent>, b: Seq<MidiEvent>) -> bool {
    &&& a.len() == b.len()
    &&& forall|i: int| 0 <= i < a.len() ==> same_but_channel(#[trigger] a[i], b[i])
}

/// Two lists of tracks that differ at most in the channels of their note events.
pub open spec fn tracks_same_but_channels(a: Seq<Seq<MidiEvent>>, b: Seq<Seq<MidiEvent>>) -> bool {
    &&& a.len() == b.len()
    &&& forall|t: int| 0 <= t < a.len() ==> track_same_but_channels(#[trigger] a[t], b[t])
}

proof fn lemma_track_time_channel_blind(a: Seq<MidiEvent>, b: Seq<MidiEvent>)
    requires
        track_same_but_channels(a, b),
    ensures
        track_time(a) == track_time(b),
    decreases a.len(),
{
    if a.len() > 0 {
        assert(same_but_channel(a[a.len() - 1], b[b.len() - 1]));
        assert(track_same_but_channels(a.drop_last(), b.drop_last())) by {
            assert forall|i: int| 0 <= i < a.drop_last().len() implies same_but_channel(
                #[trigger] a.drop_last()[i],
                b.drop_last()[i],
            ) by {
                assert(same_but_channel(a[i], b[i]));
            }
        }
        lemma_track_time_channel_blind(a.drop_last(), b.drop_last());
    }
}

proof fn lemma_read_track_channel_blind(s: ReadState, a: Seq<MidiEvent>, b: Seq<MidiEvent>)
    requires
        track_same_but_channels(a, b),
    ensures
        read_track(s, a) == read_track(s, b),
    decreases a.len(),
{
    if a.len() > 0 {
        assert(same_but_channel(a[a.len() - 1], b[b.len() - 1]));
        assert(track_same_but_channels(a.drop_last(), b.drop_last())) by {
            assert forall|i: int| 0 <= i < a.drop_last().len() implies same_but_channel(
                #[trigger] a.drop_last()[i],
                b.drop_last()[i],
            ) by {
                assert(same_but_channel(a[i], b[i]));
            }
        }
        lemma_read_track_channel_blind(s, a.drop_last(), b.drop_last());
        lemma_track_time_channel_blind(a, b);
        let r = read_track(s, a.drop_last());
        let time = track_time(a) as u32;
        assert(read_event_at(r, time, a.last().kind) == read_event_at(r, time, b.last().kind));
    }
}

/// Reading is channel-blind: tracks that differ only in the channels of their note-on and
/// note-off events give the same notes and the same tempo, and are readable alike. A note
/// played on channel 9 is read as the same note as on channel 0.
pub proof fn lemma_reading_is_channel_blind(s: ReadState, a: Seq<Seq<MidiEvent>>, b: Seq<Seq<MidiEvent>>)
    requires
        tracks_same_but_channels(a, b),
    ensures
        read_tracks(s, a) == read_tracks(s, b),
        readable_tracks(a) <==> readable_tracks(b),
    decreases a.len(),
{
    if a.len() > 0 {
        assert(tracks_same_but_channels(a.drop_last(), b.drop_last())) by {
            assert forall|t: int| 0 <= t < a.drop_last().len() implies track_same_but_channels(
                #[trigger] a.drop_last()[t],
                b.drop_last()[t],
            ) by {
                assert(track_same_but_channels(a[t], b[t]));
            }
        }
        lemma_reading_is_channel_blind(s, a.drop_last(), b.drop_last());
        assert(track_same_but_channels(a[a.len() - 1], b[b.len() - 1]));
        lemma_read_track_channel_blind(read_tracks(s, a.drop_last()), a.last(), b.last());
    }
    assert forall|t: int| 0 <= t < a.len() implies track_time(#[trigger] a[t]) == track_time(b[t]) by {
        assert(track_same_but_channels(a[t], b[t]));
        lemma_track_time_channel_blind(a[t], b[t]);
    }
    assert forall|t: int, i: int| 0 <= t < a.len() && 0 <= i < a[t].len() implies ((#[trigger] a[t][i]).kind
        == EventKind::Tempo(0) <==> b[t][i].kind == EventKind::Tempo(0)) by {
        assert(track_same_but_channels(a[t], b[t]));
        assert(same_but_channel(a[t][i], b[t][i]));
    }
    if readable_tracks(a) {
        assert forall|t: int, i: int| 0 <= t < b.len() && 0 <= i < b[t].len() implies (#[trigger] b[t][i]).kind
            != EventKind::Tempo(0) by {
            assert(a[t][i].kind != EventKind::Tempo(0));
        }
        assert forall|t: int| 0 <= t < b.len() implies track_time(#[trigger] b[t]) <= u32::MAX by {
            assert(track_time(a[t]) == track_time(b[t]));
        }
    }
    if readable_tracks(b) {
        assert forall|t: int, i: int| 0 <= t < a.len() && 0 <= i < a[t].len() implies (#[trigger] a[t][i]).kind
            != EventKind::Tempo(0) by {
            assert(b[t][i].kind != EventKind::Tempo(0));
        }
        assert forall|t: int| 0 <= t < a.len() implies track_time(#[trigger] a[t]) <= u32::MAX by {
            assert(track_time(a[t]) == track_time(b[t]));
        }
    }
}

/// A click on a cell strictly inside a note, at any distance from its start, removes that
/// note: the first note (in the roll's order) that sounds at the clicked tick and whose pitch
/// class is the clicked row, and nothing else.
pub proof fn lemma_click_inside_a_note_removes_it(notes: Seq<Note>, col: u32, row: u32, i: int)
    requires
        0 <= i < notes.len(),
        notes[i].start_time <= col < notes[i].end_time,
        notes[i].pitch % 12 == row,
        forall|k: int| 0 <= k < i ==> !(#[trigger] notes[k].start_time <= col && col < notes[k].end_time
            && notes[k].pitch % 12 == row),
    ensures
        toggled(notes, col, row) == notes.remove(i),
        toggled(notes, col, row).len() == notes.len() - 1,
{
    lemma_first_covering(notes, col, row);
    match first_covering(notes, col, row) {
        Some(j) => {
            if j < i {
                assert(notes[j].start_time <= col);
            }
            if i < j {
                assert(notes[i].start_time <= col);
            }
        },
        None => {
            assert(notes[i].start_time <= col);
        },
    }
}

/// A click on a cell that no note sounds in adds, at the end of the roll, a note of
/// velocity 100 from the clicked tick to 20 ticks later, an octave above middle C's row.
pub proof fn lemma_click_on_empty_cell_adds_a_note(notes: Seq<Note>, col: u32, row: u32)
    requires
        forall|k: int| 0 <= k < notes.len() ==> !(#[trigger] notes[k].start_time <= col && col < notes[k].end_time
            && notes[k].pitch % 12 == row),
        col + 20 <= u32::MAX,
    ensures
        toggled(notes, col, row).len() == notes.len() + 1,
        toggled(notes, col, row).take(notes.len() as int) == notes,
        toggled(notes, col, row).last() == (Note {
            pitch: (60 + if row > 11 { 11 } else { row }) as u8,
            velocity: 100,
            start_time: col,
            end_time: (col + 20) as u32,
        }),
        toggled(notes, col, row).last().end_time == col + 20,
{
    lemma_first_covering(notes, col, row);
    match first_covering(notes, col, row) {
        Some(j) => {
            assert(notes[j].start_time <= col);
        },
        None => {
            assert(toggled(notes, col, row).take(notes.len() as int) =~= notes);
        },
    }
}

/// The note-on and note-off that play the `j`-th note carry its key unchanged: the note-on
/// at its start with its velocity, the note-off at its end with velocity 0.
pub proof fn lemma_playback_keeps_keys(notes: Seq<Note>, j: int)
    requires
        0 <= j < notes.len(),
    ensures
        note_messages(notes, false).len() == 2 * notes.len(),
        note_messages(notes, false)[2 * j] == (NoteMessage {
            time: notes[j].start_time, on: true, key: notes[j].pitch, vel: notes[j].velocity,
        }),
        note_messages(notes, false)[2 * j + 1] == (NoteMessage {
            time: notes[j].end_time, on: false, key: notes[j].pitch, vel: 0,
        }),
{
    lemma_note_message_at(notes, false, j);
}

/// Every message of the playback schedule is the note-on or the note-off of some note of the
/// roll, with that note's own key, tick and velocity.
pub proof fn lemma_schedule_plays_the_notes(notes: Seq<Note>, k: int)
    requires
        0 <= k < sort_by_time(note_messages(notes, false)).len(),
    ensures
        exists|j: int| 0 <= j < notes.len() && (
            sort_by_time(note_messages(notes, false))[k] == (NoteMessage {
                time: notes[j].start_time, on: true, key: notes[j].pitch, vel: notes[j].velocity,
            })
            || sort_by_time(note_messages(notes, false))[k] == (NoteMessage {
                time: notes[j].end_time, on: false, key: notes[j].pitch, vel: 0,
            })),
{
    broadcast use vstd::seq_lib::group_seq_properties;
    let nm = note_messages(notes, false);
    let s = sort_by_time(nm);
    lemma_sort_permutes(nm);
    assert(s.contains(s[k]));
    assert(s.to_multiset().count(s[k]) > 0);
    assert(nm.contains(s[k]));
    let m = choose|m: int| 0 <= m < nm.len() && nm[m] == s[k];
    if notes.len() == 0 {
        lemma_sort_permutes(nm);
        assert(nm.len() == 0);
    } else {
        lemma_note_message_at(notes, false, 0);
        let j = m / 2;
        assert(0 <= j < notes.len());
        lemma_playback_keeps_keys(notes, j);
        assert(m == 2 * j || m == 2 * j + 1);
    }
}

/// Notes of two pitches are drawn in the same color exactly when the pitches are of the same
/// pitch class: the twelve classes get twelve different colors, and octaves share theirs.
/// From C up: dark red, crimson, tomato, light yellow, yellow, light green, green, dark
/// green, midnight blue, dark blue, blue, light blue.
pub proof fn lemma_colors_tell_pitch_classes_apart(p: u8, q: u8)
    ensures
        pitch_class_color(p % 12) == pitch_class_color(q % 12) <==> p % 12 == q % 12,
        pitch_class_color(p % 12) == seq![
            (139u8, 0u8, 0u8), (220u8, 20u8, 60u8), (255u8, 99u8, 71u8), (255u8, 255u8, 224u8),
            (255u8, 255u8, 0u8), (144u8, 238u8, 144u8), (0u8, 128u8, 0u8), (0u8, 100u8, 0u8),
            (25u8, 25u8, 112u8), (0u8, 0u8, 139u8), (0u8, 0u8, 255u8), (173u8, 216u8, 230u8),
        ][(p % 12) as int],
{
}

/// Readability is decided track by track: two lists of tracks together are readable exactly
/// when each is, whatever the number of tracks.
pub proof fn lemma_readability_is_per_track(a: Seq<Seq<MidiEvent>>, b: Seq<Seq<MidiEvent>>)
    ensures
        readable_tracks(a + b) <==> readable_tracks(a) && readable_tracks(b),
{
    let c = a + b;
    assert forall|t: int| 0 <= t < a.len() implies #[trigger] c[t] == a[t] by {}
    assert forall|t: int| 0 <= t < b.len() implies #[trigger] c[a.len() + t] == b[t] by {}
    if readable_tracks(c) {
        assert forall|t: int| 0 <= t < b.len() implies track_time(#[trigger] b[t]) <= u32::MAX by {
            assert(c[a.len() + t] == b[t]);
        }
        assert forall|t: int, i: int| 0 <= t < b.len() && 0 <= i < b[t].len() implies (#[trigger] b[t][i]).kind
            != EventKind::Tempo(0) by {
            assert(c[a.len() + t] == b[t]);
            assert(c[a.len() + t][i].kind != EventKind::Tempo(0));
        }
        assert forall|t: int| 0 <= t < a.len() implies track_time(#[trigger] a[t]) <= u32::MAX by {
            assert(c[t] == a[t]);
        }
        assert forall|t: int, i: int| 0 <= t < a.len() && 0 <= i < a[t].len() implies (#[trigger] a[t][i]).kind
            != EventKind::Tempo(0) by {
            assert(c[t] == a[t]);
            assert(c[t][i].kind != EventKind::Tempo(0));
        }
    }
    if readable_tracks(a) && readable_tracks(b) {
        assert forall|t: int| 0 <= t < c.len() implies track_time(#[trigger] c[t]) <= u32::MAX by {
            if t < a.len() {
                assert(c[t] == a[t]);
            } else {
                assert(c[t] == b[t - a.len()]);
            }
        }
        assert forall|t: int, i: int| 0 <= t < c.len() && 0 <= i < c[t].len() implies (#[trigger] c[t][i]).kind
            != EventKind::Tempo(0) by {
            if t < a.len() {
                assert(c[t] == a[t]);
            } else {
                assert(c[t] == b[t - a.len()]);
                assert(b[t - a.len()][i].kind != EventKind::Tempo(0));
            }
        }
    }
}

/// Tracks whose ticks each fit in 32 bits and that set no tempo of 0 are readable, however
/// many tracks there are.
pub proof fn lemma_readable_when_ticks_fit(tracks: Seq<Seq<MidiEvent>>)
    requires
        forall|t: int| 0 <= t < tracks.len() ==> track_time(#[trigger] tracks[t]) < 0x1_0000_0000,
        forall|t: int, i: int| 0 <= t < tracks.len() && 0 <= i < tracks[t].len()
            ==> !((#[trigger] tracks[t][i]).kind matches EventKind::Tempo(0)),
    ensures
        readable_tracks(tracks),
{
}

} // verus!
