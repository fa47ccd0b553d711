//! The piano roll: notes read from the tracks of a MIDI file, and edited by clicks.

use std::collections::HashMap;
use vstd::prelude::*;
use crate::smf::{DATA_MASK, DELTA_MASK, EventKind, event_in_range, tracks_in_range, ExportError, MidiEvent, SmfFormat, SmfView, TICKS_MASK, decodes_as, encoded_smf, encodes_as, encoding_fails_with, masked_event, masked_tracks, tracks_view, write_smf};
use crate::layout::timecode_overflows;

verus! {

broadcast use vstd::std_specs::hash::group_hash_axioms;

/// A note of the roll: its MIDI key, its velocity, and the ticks at which it starts and ends.
#[derive(Clone, Copy, Debug, PartialEq, Eq, Structural)]
pub struct Note {
    pub pitch: u8,
    pub velocity: u8,
    pub start_time: u32,
    pub end_time: u32,
}

/// What reading the events of a file has gathered so far: the finished notes, the notes
/// still sounding (key to start tick and velocity), and the current tempo in BPM.
pub struct ReadState {
    pub notes: Seq<Note>,
    pub active: Map<u8, (u32, u8)>,
    pub tempo: u32,
}

/// Where reading starts: no notes, none sounding, 120 BPM.
pub open spec fn initial_read_state() -> ReadState {
    ReadState { notes: Seq::empty(), active: Map::empty(), tempo: 120 }
}

/// Ends the note sounding on `key`, if one is, at tick `time`.
pub open spec fn finish_note(s: ReadState, key: u8, time: u32) -> ReadState {
    if s.active.contains_key(key) {
        ReadState {
            notes: s.notes.push(
                Note { pitch: key, velocity: s.active[key].1, start_time: s.active[key].0, end_time: time },
            ),
            active: s.active.remove(key),
            tempo: s.tempo,
        }
    } else {
        s
    }
}

/// One event at absolute tick `time`. A note-on with a velocity starts (or restarts) the
/// note on its key; a note-on or note-off with velocity 0 ends it; a note-off with a
/// velocity is ignored; a tempo event sets the tempo to 60,000,000 / (microseconds per beat).
pub open spec fn read_event_at(s: ReadState, time: u32, kind: EventKind) -> ReadState {
    match kind {
        EventKind::Tempo(us) => ReadState { notes: s.notes, active: s.active, tempo: 60_000_000u32 / us },
        EventKind::NoteOn { channel, key, vel } =>
            if vel > 0 {
                ReadState { notes: s.notes, active: s.active.insert(key, (time, vel)), tempo: s.tempo }
            } else {
                finish_note(s, key, time)
            },
        EventKind::NoteOff { channel, key, vel } => if vel == 0 { finish_note(s, key, time) } else { s },
        _ => s,
    }
}

/// The absolute tick of the last of `events`: the sum of their deltas.
pub open spec fn track_time(events: Seq<MidiEvent>) -> nat
    decreases events.len(),
{
    if events.len() == 0 {
        0
    } else {
        track_time(events.drop_last()) + events.last().delta as nat
    }
}

/// Reads the events of one track, whose time starts at tick 0.
pub open spec fn read_track(s: ReadState, events: Seq<MidiEvent>) -> ReadState
    decreases events.len(),
{
    if events.len() == 0 {
        s
    } else {
        read_event_at(read_track(s, events.drop_last()), track_time(events) as u32, events.last().kind)
    }
}

/// Reads the tracks one after the other; notes still sounding carry over from one track
/// to the next.
pub open spec fn read_tracks(s: ReadState, tracks: Seq<Seq<MidiEvent>>) -> ReadState
    decreases tracks.len(),
{
    if tracks.len() == 0 {
        s
    } else {
        read_track(read_tracks(s, tracks.drop_last()), tracks.last())
    }
}

/// The tracks can be read without overflow or division by zero: the ticks of every track
/// fit in `u32`, and no tempo event gives 0 microseconds per beat.
pub open spec fn readable_tracks(tracks: Seq<Seq<MidiEvent>>) -> bool {
    &&& forall|t: int| 0 <= t < tracks.len() ==> track_time(#[trigger] tracks[t]) <= u32::MAX
    &&& forall|t: int, i: int|
        0 <= t < tracks.len() && 0 <= i < tracks[t].len() ==> (#[trigger] tracks[t][i]).kind
            != EventKind::Tempo(0)
}

/// The tick of an event is at most the tick of the last event of its track.
pub proof fn lemma_track_time_prefix(events: Seq<MidiEvent>, j: int)
    requires
        0 <= j <= events.len(),
    ensures
        track_time(events.take(j)) <= track_time(events),
    decreases events.len(),
{
    if j < events.len() {
        assert(events.take(j) =~= events.drop_last().take(j));
        lemma_track_time_prefix(events.drop_last(), j);
    } else {
        assert(events.take(j) =~= events);
    }
}

/// Every note gathered, and every note still sounding, has a velocity above 0.
pub open spec fn sounding_velocities(s: ReadState) -> bool {
    &&& forall|i: int| 0 <= i < s.notes.len() ==> (#[trigger] s.notes[i]).velocity > 0
    &&& forall|k: u8| #[trigger] s.active.contains_key(k) ==> s.active[k].1 > 0
}

proof fn lemma_read_track_velocities(s: ReadState, events: Seq<MidiEvent>)
    requires
        sounding_velocities(s),
    ensures
        sounding_velocities(read_track(s, events)),
    decreases events.len(),
{
    if events.len() > 0 {
        lemma_read_track_velocities(s, events.drop_last());
        let p = read_track(s, events.drop_last());
        let q = read_track(s, events);
        assert forall|i: int| 0 <= i < q.notes.len() implies (#[trigger] q.notes[i]).velocity > 0 by {
            if i < p.notes.len() {
                assert(q.notes[i] == p.notes[i]);
            }
        }
    }
}

/// Every note read from a file has a velocity above 0: a note-on with velocity 0 ends a
/// note rather than starting one.
pub proof fn lemma_read_velocities(tracks: Seq<Seq<MidiEvent>>)
    ensures
        forall|i: int| 0 <= i < read_tracks(initial_read_state(), tracks).notes.len() ==>
            (#[trigger] read_tracks(initial_read_state(), tracks).notes[i]).velocity > 0,
{
    lemma_read_tracks_velocities(initial_read_state(), tracks);
}

proof fn lemma_read_tracks_velocities(s: ReadState, tracks: Seq<Seq<MidiEvent>>)
    requires
        sounding_velocities(s),
    ensures
        sounding_velocities(read_tracks(s, tracks)),
    decreases tracks.len(),
{
    if tracks.len() > 0 {
        lemma_read_tracks_velocities(s, tracks.drop_last());
        lemma_read_track_velocities(read_tracks(s, tracks.drop_last()), tracks.last());
    }
}

/// Notes with keys and velocities of at most 127 and a velocity above 0.
pub open spec fn notes_in_range(notes: Seq<Note>) -> bool {
    forall|i: int| 0 <= i < notes.len() ==> (#[trigger] notes[i]).pitch <= 127 && 0 < notes[i].velocity <= 127
}

spec fn read_state_in_range(s: ReadState) -> bool {
    &&& notes_in_range(s.notes)
    &&& forall|k: u8| #[trigger] s.active.contains_key(k) ==> k <= 127 && 0 < s.active[k].1 <= 127
}

proof fn lemma_read_track_ranges(s: ReadState, events: Seq<MidiEvent>)
    requires
        read_state_in_range(s),
        forall|i: int| 0 <= i < events.len() ==> event_in_range(#[trigger] events[i]),
    ensures
        read_state_in_range(read_track(s, events)),
    decreases events.len(),
{
    if events.len() > 0 {
        let d = events.drop_last();
        assert forall|i: int| 0 <= i < d.len() implies event_in_range(#[trigger] d[i]) by {
            assert(d[i] == events[i]);
        }
        lemma_read_track_ranges(s, d);
        let p = read_track(s, d);
        let q = read_track(s, events);
        assert(event_in_range(events[events.len() - 1]));
        assert forall|i: int| 0 <= i < q.notes.len() implies (#[trigger] q.notes[i]).pitch <= 127 && 0 < q.notes[i].velocity <= 127 by {
            if i < p.notes.len() {
                assert(q.notes[i] == p.notes[i]);
            }
        }
    }
}

/// Every note read from tracks whose events fit their SMF widths has a key and a velocity
/// of at most 127, and a velocity above 0.
pub proof fn lemma_read_ranges(tracks: Seq<Seq<MidiEvent>>)
    requires
        tracks_in_range(tracks),
    ensures
        notes_in_range(read_tracks(initial_read_state(), tracks).notes),
{
    lemma_read_tracks_ranges(initial_read_state(), tracks);
}

proof fn lemma_read_tracks_ranges(s: ReadState, tracks: Seq<Seq<MidiEvent>>)
    requires
        read_state_in_range(s),
        tracks_in_range(tracks),
    ensures
        read_state_in_range(read_tracks(s, tracks)),
    decreases tracks.len(),
{
    if tracks.len() > 0 {
        let d = tracks.drop_last();
        assert forall|t: int, i: int| 0 <= t < d.len() && 0 <= i < d[t].len() implies event_in_range(#[trigger] d[t][i]) by {
            assert(d[t] == tracks[t]);
        }
        lemma_read_tracks_ranges(s, d);
        let last = tracks[tracks.len() - 1];
        assert forall|i: int| 0 <= i < last.len() implies event_in_range(#[trigger] last[i]) by {
            assert(event_in_range(tracks[tracks.len() - 1][i]));
        }
        lemma_read_track_ranges(read_tracks(s, d), last);
    }
}

/// Reads the notes of the given tracks, and the tempo that the last tempo event sets.
pub fn read_notes(tracks: &Vec<Vec<MidiEvent>>) -> (r: (u32, Vec<Note>))
    requires
        readable_tracks(tracks_view(tracks@)),
    ensures
        r.0 == read_tracks(initial_read_state(), tracks_view(tracks@)).tempo,
        r.1@ == read_tracks(initial_read_state(), tracks_view(tracks@)).notes,
{
    let ghost tv = tracks_view(tracks@);
    let mut notes: Vec<Note> = Vec::new();
    let mut active: HashMap<u8, (u32, u8)> = HashMap::new();
    let mut tempo: u32 = 120;
    let mut t: usize = 0;
    assert(tv.take(0) =~= Seq::<Seq<MidiEvent>>::empty());
    while t < tracks.len()
        invariant
            tv == tracks_view(tracks@),
            tv.len() == tracks@.len(),
            readable_tracks(tv),
            t <= tracks.len(),
            notes@ == read_tracks(initial_read_state(), tv.take(t as int)).notes,
            active@ == read_tracks(initial_read_state(), tv.take(t as int)).active,
            tempo == read_tracks(initial_read_state(), tv.take(t as int)).tempo,
        decreases tracks.len() - t,
    {
        let track = &tracks[t];
        let ghost before = read_tracks(initial_read_state(), tv.take(t as int));
        assert(tv[t as int] == track@);
        let mut time: u32 = 0;
        let mut i: usize = 0;
        assert(track@.take(0) =~= Seq::<MidiEvent>::empty());
        while i < track.len()
            invariant
                tv == tracks_view(tracks@),
                tv.len() == tracks@.len(),
                readable_tracks(tv),
                t < tracks.len(),
                track@ == tv[t as int],
                i <= track.len(),
                time == track_time(track@.take(i as int)),
                notes@ == read_track(before, track@.take(i as int)).notes,
                active@ == read_track(before, track@.take(i as int)).active,
                tempo == read_track(before, track@.take(i as int)).tempo,
            decreases track.len() - i,
        {
            let e = track[i];
            let ghost prefix = track@.take(i + 1);
            assert(prefix.drop_last() =~= track@.take(i as int));
            proof {
                lemma_track_time_prefix(track@, i + 1);
            }
            time = time + e.delta;
            match e.kind {
                EventKind::Tempo(us) => {
                    assert(tv[t as int][i as int] == e);
                    tempo = 60_000_000 / us;
                },
                EventKind::NoteOn { channel, key, vel } => {
                    if vel > 0 {
                        active.insert(key, (time, vel));
                    } else {
                        match active.remove(&key) {
                            Some((start_time, velocity)) => {
                                notes.push(Note { pitch: key, velocity, start_time, end_time: time });
                            },
                            None => {},
                        }
                    }
                },
                EventKind::NoteOff { channel, key, vel } => {
                    if vel == 0 {
                        match active.remove(&key) {
                            Some((start_time, velocity)) => {
                                notes.push(Note { pitch: key, velocity, start_time, end_time: time });
                            },
                            None => {},
                        }
                    }
                },
                _ => {},
            }
            i += 1;
        }
        assert(track@.take(track@.len() as int) =~= track@);
        assert(tv.take(t + 1).drop_last() =~= tv.take(t as int));
        t += 1;
    }
    assert(tv.take(tv.len() as int) =~= tv);
    (tempo, notes)
}

/// A piano roll: tempo in BPM, notes, length in ticks (columns), and ticks per quarter note.
#[derive(Clone, Debug)]
pub struct PianoRoll {
    pub tempo: u32,
    pub notes: Vec<Note>,
    pub length: usize,
    pub ticks_per_quarter: usize,
}

/// The latest end tick among `notes` (0 for none).
pub open spec fn max_end(notes: Seq<Note>) -> nat
    decreases notes.len(),
{
    if notes.len() == 0 {
        0
    } else if max_end(notes.drop_last()) >= notes.last().end_time {
        max_end(notes.drop_last())
    } else {
        notes.last().end_time as nat
    }
}

/// The length of a roll holding `notes`: one past the latest end tick, or 65 for no notes.
pub open spec fn roll_length(notes: Seq<Note>) -> nat {
    if notes.len() == 0 {
        65
    } else {
        max_end(notes) + 1
    }
}

/// `roll_length`, where it fits in `usize` (always, where `usize` has 64 bits).
pub open spec fn capped_roll_length(notes: Seq<Note>) -> nat {
    if roll_length(notes) <= usize::MAX { roll_length(notes) } else { usize::MAX as nat }
}

/// The latest end tick bounds every note's end, and some note ends there.
pub proof fn lemma_max_end_attained(notes: Seq<Note>)
    ensures
        forall|i: int| 0 <= i < notes.len() ==> (#[trigger] notes[i]).end_time <= max_end(notes),
        notes.len() > 0 ==> exists|i: int| 0 <= i < notes.len() && notes[i].end_time == max_end(notes),
    decreases notes.len(),
{
    if notes.len() > 0 {
        let d = notes.drop_last();
        lemma_max_end_attained(d);
        assert forall|i: int| 0 <= i < notes.len() implies (#[trigger] notes[i]).end_time <= max_end(notes) by {
            if i < d.len() {
                assert(notes[i] == d[i]);
            }
        }
        if max_end(d) >= notes.last().end_time && d.len() > 0 {
            let w = choose|i: int| 0 <= i < d.len() && d[i].end_time == max_end(d);
            assert(notes[w] == d[w]);
        } else {
            assert(notes[notes.len() - 1].end_time == max_end(notes));
        }
    }
}

/// Every note of a roll ends before the roll's length.
pub proof fn lemma_length_covers_notes(notes: Seq<Note>)
    ensures
        forall|i: int| 0 <= i < notes.len() ==> (#[trigger] notes[i]).end_time < roll_length(notes),
    decreases notes.len(),
{
    if notes.len() > 0 {
        lemma_length_covers_notes(notes.drop_last());
        assert forall|i: int| 0 <= i < notes.len() implies (#[trigger] notes[i]).end_time < roll_length(notes) by {
            if i < notes.len() - 1 {
                assert(notes[i] == notes.drop_last()[i]);
            }
        }
    }
}

/// One past the latest end tick of the notes, or 65 where there are none.
pub fn length_of(notes: &Vec<Note>) -> (r: usize)
    ensures
        r == capped_roll_length(notes@),
{
    if notes.len() == 0 {
        return 65;
    }
    let mut max: u32 = 0;
    let mut i: usize = 0;
    while i < notes.len()
        invariant
            i <= notes.len(),
            max == max_end(notes@.take(i as int)),
        decreases notes.len() - i,
    {
        assert(notes@.take(i + 1).drop_last() =~= notes@.take(i as int));
        if notes[i].end_time > max {
            max = notes[i].end_time;
        }
        i += 1;
    }
    assert(notes@.take(notes@.len() as int) =~= notes@);
    (max as usize).saturating_add(1)
}

/// A note-on (`on`) or note-off message for `key` with velocity `vel`, at absolute tick `time`.
#[derive(Clone, Copy, Debug, PartialEq, Eq, Structural)]
pub struct NoteMessage {
    pub time: u32,
    pub on: bool,
    pub key: u8,
    pub vel: u8,
}

/// The key that a note is sent with: its pitch, capped at 127 where `cap` is set.
pub open spec fn message_key(n: Note, cap: bool) -> u8 {
    if cap && n.pitch > 127 { 127 } else { n.pitch }
}

/// For each note in turn, a note-on at its start with its velocity, then a note-off at its
/// end with velocity 0.
pub open spec fn note_messages(notes: Seq<Note>, cap: bool) -> Seq<NoteMessage>
    decreases notes.len(),
{
    if notes.len() == 0 {
        Seq::empty()
    } else {
        let n = notes.last();
        note_messages(notes.drop_last(), cap)
            + seq![
            NoteMessage { time: n.start_time, on: true, key: message_key(n, cap), vel: n.velocity },
            NoteMessage { time: n.end_time, on: false, key: message_key(n, cap), vel: 0 },
        ]
    }
}

/// Inserts `m` after every message of `s` that is not later than it.
pub open spec fn insert_by_time(s: Seq<NoteMessage>, m: NoteMessage) -> Seq<NoteMessage>
    decreases s.len(),
{
    if s.len() == 0 {
        seq![m]
    } else if s.last().time <= m.time {
        s.push(m)
    } else {
        insert_by_time(s.drop_last(), m).push(s.last())
    }
}

/// The messages in chronological order; messages at the same tick keep their order.
pub open spec fn sort_by_time(s: Seq<NoteMessage>) -> Seq<NoteMessage>
    decreases s.len(),
{
    if s.len() == 0 {
        s
    } else {
        insert_by_time(sort_by_time(s.drop_last()), s.last())
    }
}

/// Messages in chronological order.
pub open spec fn sorted_by_time(s: Seq<NoteMessage>) -> bool {
    forall|i: int, j: int| 0 <= i < j < s.len() ==> s[i].time <= s[j].time
}

proof fn lemma_insert_at(s: Seq<NoteMessage>, m: NoteMessage, j: int)
    requires
        0 <= j <= s.len(),
        j == 0 || s[j - 1].time <= m.time,
        forall|k: int| j <= k < s.len() ==> s[k].time > m.time,
    ensures
        insert_by_time(s, m) == s.take(j) + seq![m] + s.skip(j),
    decreases s.len(),
{
    if s.len() == 0 {
        assert(s.take(j) + seq![m] + s.skip(j) =~= seq![m]);
    } else if s.last().time <= m.time {
        assert(j == s.len());
        assert(s.take(j) + seq![m] + s.skip(j) =~= s.push(m));
    } else {
        lemma_insert_at(s.drop_last(), m, j);
        assert(s.take(j) + seq![m] + s.skip(j) =~= (s.drop_last().take(j) + seq![m] + s.drop_last().skip(j)).push(s.last()));
    }
}

/// Sorts messages by time, keeping the order of messages at the same tick.
pub fn sort_messages(v: &Vec<NoteMessage>) -> (r: Vec<NoteMessage>)
    ensures
        r@ == sort_by_time(v@),
{
    let mut res: Vec<NoteMessage> = Vec::new();
    let mut i: usize = 0;
    assert(v@.take(0) =~= Seq::<NoteMessage>::empty());
    while i < v.len()
        invariant
            i <= v.len(),
            res@ == sort_by_time(v@.take(i as int)),
        decreases v.len() - i,
    {
        let m = v[i];
        let mut j: usize = res.len();
        while j > 0 && res[j - 1].time > m.time
            invariant
                j <= res.len(),
                forall|k: int| j <= k < res@.len() ==> res@[k].time > m.time,
            decreases j,
        {
            j -= 1;
        }
        proof {
            lemma_insert_at(res@, m, j as int);
            assert(v@.take(i + 1).drop_last() =~= v@.take(i as int));
        }
        res.insert(j, m);
        assert(res@ =~= sort_by_time(v@.take(i + 1)));
        i += 1;
    }
    assert(v@.take(v@.len() as int) =~= v@);
    res
}

/// The messages of `notes`, one note-on and one note-off each, in chronological order.
pub fn timed_messages(notes: &Vec<Note>, cap: bool) -> (r: Vec<NoteMessage>)
    ensures
        r@ == sort_by_time(note_messages(notes@, cap)),
{
    let mut msgs: Vec<NoteMessage> = Vec::new();
    let mut i: usize = 0;
    assert(notes@.take(0) =~= Seq::<Note>::empty());
    while i < notes.len()
        invariant
            i <= notes.len(),
            msgs@ == note_messages(notes@.take(i as int), cap),
        decreases notes.len() - i,
    {
        let n = notes[i];
        let key = if cap && n.pitch > 127 { 127 } else { n.pitch };
        msgs.push(NoteMessage { time: n.start_time, on: true, key, vel: n.velocity });
        msgs.push(NoteMessage { time: n.end_time, on: false, key, vel: 0 });
        assert(notes@.take(i + 1).drop_last() =~= notes@.take(i as int));
        assert(msgs@ =~= note_messages(notes@.take(i + 1), cap));
        i += 1;
    }
    assert(notes@.take(notes@.len() as int) =~= notes@);
    sort_messages(&msgs)
}

proof fn lemma_insert_props(s: Seq<NoteMessage>, m: NoteMessage, bound: u32)
    ensures
        insert_by_time(s, m).len() == s.len() + 1,
        insert_by_time(s, m).to_multiset() == s.to_multiset().insert(m),
        sorted_by_time(s) ==> sorted_by_time(insert_by_time(s, m)),
        (forall|k: int| 0 <= k < s.len() ==> s[k].time <= bound) && m.time <= bound ==> (forall|k: int|
            0 <= k < insert_by_time(s, m).len() ==> insert_by_time(s, m)[k].time <= bound),
    decreases s.len(),
{
    broadcast use vstd::seq_lib::group_seq_properties;
    broadcast use vstd::multiset::group_multiset_axioms;
    if s.len() == 0 {
        assert(seq![m] =~= Seq::<NoteMessage>::empty().push(m));
    } else if s.last().time <= m.time {
    } else {
        let d = s.drop_last();
        lemma_insert_props(d, m, bound);
        lemma_insert_props(d, m, s.last().time);
        assert(s =~= d.push(s.last()));
        assert(d.to_multiset().insert(s.last()).insert(m) =~= d.to_multiset().insert(m).insert(s.last()));
    }
}

/// Sorting keeps exactly the messages it was given.
pub proof fn lemma_sort_permutes(s: Seq<NoteMessage>)
    ensures
        sort_by_time(s).len() == s.len(),
        sort_by_time(s).to_multiset() == s.to_multiset(),
    decreases s.len(),
{
    broadcast use vstd::seq_lib::group_seq_properties;
    if s.len() > 0 {
        lemma_sort_permutes(s.drop_last());
        lemma_insert_props(sort_by_time(s.drop_last()), s.last(), 0);
        assert(s =~= s.drop_last().push(s.last()));
    }
}

/// Sorting puts the messages in chronological order.
pub proof fn lemma_sort_sorted(s: Seq<NoteMessage>)
    ensures
        sorted_by_time(sort_by_time(s)),
    decreases s.len(),
{
    if s.len() > 0 {
        lemma_sort_sorted(s.drop_last());
        lemma_insert_props(sort_by_time(s.drop_last()), s.last(), 0);
    }
}

/// Whether a message is at tick `t`.
pub open spec fn at_tick(t: u32) -> spec_fn(NoteMessage) -> bool {
    |m: NoteMessage| m.time == t
}

proof fn lemma_insert_keeps_tick_order(s: Seq<NoteMessage>, m: NoteMessage, t: u32)
    ensures
        insert_by_time(s, m).filter(at_tick(t)) == if m.time == t {
            s.filter(at_tick(t)).push(m)
        } else {
            s.filter(at_tick(t))
        },
    decreases s.len(),
{
    broadcast use Seq::lemma_filter_push;
    if s.len() == 0 {
        assert(seq![m] =~= Seq::<NoteMessage>::empty().push(m));
        assert(Seq::<NoteMessage>::empty().filter(at_tick(t)) =~= Seq::<NoteMessage>::empty()) by {
            reveal(Seq::filter);
        }
    } else if s.last().time <= m.time {
    } else {
        let d = s.drop_last();
        lemma_insert_keeps_tick_order(d, m, t);
        assert(s =~= d.push(s.last()));
    }
}

/// Sorting keeps the order of the messages at each tick.
pub proof fn lemma_sort_stable(s: Seq<NoteMessage>, t: u32)
    ensures
        sort_by_time(s).filter(at_tick(t)) == s.filter(at_tick(t)),
    decreases s.len(),
{
    broadcast use Seq::lemma_filter_push;
    if s.len() > 0 {
        lemma_sort_stable(s.drop_last(), t);
        lemma_insert_keeps_tick_order(sort_by_time(s.drop_last()), s.last(), t);
        assert(s =~= s.drop_last().push(s.last()));
    }
}

/// The delta time before message `i`: the ticks since the message before it (or since 0),
/// and 0 where that would be negative.
pub open spec fn delta_before(s: Seq<NoteMessage>, i: int) -> u32 {
    let prev: u32 = if i == 0 { 0 } else { s[i - 1].time };
    if s[i].time >= prev { (s[i].time - prev) as u32 } else { 0 }
}

/// A message as a track event on channel 0.
pub open spec fn message_event(m: NoteMessage, delta: u32) -> MidiEvent {
    MidiEvent {
        delta,
        kind: if m.on {
            EventKind::NoteOn { channel: 0, key: m.key, vel: m.vel }
        } else {
            EventKind::NoteOff { channel: 0, key: m.key, vel: m.vel }
        },
    }
}

/// The track that holds the messages, with delta times, then the end of the track.
pub open spec fn track_events(s: Seq<NoteMessage>) -> Seq<MidiEvent> {
    Seq::new(s.len(), |i: int| message_event(s[i], delta_before(s, i))).push(
        MidiEvent { delta: 0, kind: EventKind::EndOfTrack },
    )
}

/// The track that exports `notes`: their messages in chronological order, keys capped at
/// 127, with delta times, then the end of the track.
pub open spec fn export_events(notes: Seq<Note>) -> Seq<MidiEvent> {
    track_events(sort_by_time(note_messages(notes, true)))
}

/// For messages in chronological order, the delta times of the track add up to each
/// message's own tick: no delta is cut off at 0.
pub proof fn lemma_track_deltas_add_up(s: Seq<NoteMessage>, i: int)
    requires
        sorted_by_time(s),
        0 <= i < s.len(),
    ensures
        track_time(track_events(s).take(i + 1)) == s[i].time,
    decreases i,
{
    let t = track_events(s);
    assert(t.take(i + 1).drop_last() =~= t.take(i));
    assert(t.take(i + 1).last() == t[i]);
    assert(t[i] == message_event(s[i], delta_before(s, i)));
    assert(track_time(t.take(i + 1)) == track_time(t.take(i)) + delta_before(s, i));
    if i == 0 {
        assert(t.take(0) =~= Seq::<MidiEvent>::empty());
    } else {
        lemma_track_deltas_add_up(s, i - 1);
        assert(s[i - 1].time <= s[i].time);
    }
}

impl PianoRoll {
    /// The events of the exported track: note messages in chronological order (stable for
    /// equal ticks), keys capped at 127, delta times from the previous message, then the end
    /// of the track.
    pub fn export_events(&self) -> (r: Vec<MidiEvent>)
        ensures
            r@ == export_events(self.notes@),
    {
        let msgs = timed_messages(&self.notes, true);
        let ghost s = msgs@;
        let mut events: Vec<MidiEvent> = Vec::new();
        let mut last_time: u32 = 0;
        let mut i: usize = 0;
        while i < msgs.len()
            invariant
                s == msgs@,
                i <= msgs.len(),
                events@ =~= Seq::new(i as nat, |k: int| message_event(s[k], delta_before(s, k))),
                last_time == (if i == 0 { 0 } else { s[i - 1].time }),
            decreases msgs.len() - i,
        {
            let m = msgs[i];
            let delta = m.time.saturating_sub(last_time);
            let kind = if m.on {
                EventKind::NoteOn { channel: 0, key: m.key, vel: m.vel }
            } else {
                EventKind::NoteOff { channel: 0, key: m.key, vel: m.vel }
            };
            events.push(MidiEvent { delta, kind });
            last_time = m.time;
            i += 1;
        }
        events.push(MidiEvent { delta: 0, kind: EventKind::EndOfTrack });
        events
    }

    /// Encodes the roll as a single-track Standard MIDI File, with ticks per quarter note
    /// cut to 16 bits, and the exported track. Succeeds for any roll of at most 306,783,377
    /// notes (whose track then stays under 2^32 bytes), and what it writes reads back.
    pub fn export_to_vec(&self) -> (r: Result<Vec<u8>, ExportError>)
        ensures
            r is Ok <==> encoded_smf(SmfFormat::SingleTrack, self.ticks_per_quarter as u16, masked_tracks(seq![export_events(self.notes@)])) is Ok,
            match r {
                Ok(b) => encodes_as(SmfFormat::SingleTrack, self.ticks_per_quarter as u16, masked_tracks(seq![export_events(self.notes@)]), b@),
                Err(e) => encoding_fails_with(SmfFormat::SingleTrack, self.ticks_per_quarter as u16, masked_tracks(seq![export_events(self.notes@)]), e.message@),
            },
            self.notes@.len() <= 306_783_377 ==> r is Ok,
            r matches Ok(b) ==> !timecode_overflows(b@),
            r matches Ok(b) ==> decodes_as(b@, SmfView {
                format: SmfFormat::SingleTrack,
                ticks: Some((self.ticks_per_quarter as u16) & TICKS_MASK),
                tracks: masked_tracks(seq![export_events(self.notes@)]),
            }),
    {
        let events = self.export_events();
        proof {
            lemma_note_messages_len(self.notes@, true);
            lemma_sort_permutes(note_messages(self.notes@, true));
        }
        #[verifier::truncate]
        let tpq = self.ticks_per_quarter as u16;
        let tracks = vec![events];
        assert(tracks_view(tracks@) =~= seq![export_events(self.notes@)]);
        write_smf(SmfFormat::SingleTrack, tpq, &tracks)
    }
}

/// A note covers the cell at tick column `col` and row `row` of the one-octave grid:
/// it sounds at that tick, and its pitch class is that row.
pub open spec fn covers(n: Note, col: u32, row: u32) -> bool {
    n.start_time <= col && col < n.end_time && (n.pitch % 12) as u32 == row
}

/// The index of the first note that covers the cell, if any.
pub open spec fn first_covering(notes: Seq<Note>, col: u32, row: u32) -> Option<int>
    decreases notes.len(),
{
    if notes.len() == 0 {
        None
    } else if covers(notes[0], col, row) {
        Some(0)
    } else {
        match first_covering(notes.drop_first(), col, row) {
            Some(i) => Some(i + 1),
            None => None,
        }
    }
}

/// The note that a click on an empty cell adds: pitch 60 plus the row (rows past 11 count
/// as 11), velocity 100, 20 ticks long from the clicked column.
pub open spec fn added_note(col: u32, row: u32) -> Note {
    Note {
        pitch: (60 + if row > 11 { 11 } else { row }) as u8,
        velocity: 100,
        start_time: col,
        end_time: (col + 20) as u32,
    }
}

/// The notes after a click on a cell: the first note covering it is removed, or where none
/// does, a new note is added at the end.
pub open spec fn toggled(notes: Seq<Note>, col: u32, row: u32) -> Seq<Note> {
    match first_covering(notes, col, row) {
        Some(i) => notes.remove(i),
        None => notes.push(added_note(col, row)),
    }
}

/// `first_covering` finds the first covering note, and finds none only where no note covers.
pub proof fn lemma_first_covering(notes: Seq<Note>, col: u32, row: u32)
    ensures
        first_covering(notes, col, row) matches Some(i) ==> 0 <= i < notes.len() && covers(notes[i], col, row)
            && forall|k: int| 0 <= k < i ==> !covers(#[trigger] notes[k], col, row),
        first_covering(notes, col, row) is None ==> forall|k: int|
            0 <= k < notes.len() ==> !covers(#[trigger] notes[k], col, row),
    decreases notes.len(),
{
    if notes.len() > 0 && !covers(notes[0], col, row) {
        lemma_first_covering(notes.drop_first(), col, row);
        assert forall|k: int| 0 < k < notes.len() implies notes[k] == notes.drop_first()[k - 1] by {}
    }
}

impl PianoRoll {
    /// A click on the cell at tick column `col` and row `row`: removes the first note that
    /// covers the cell, or adds a note there where none does.
    pub fn toggle_note_at(&mut self, col: u32, row: u32)
        requires
            first_covering(old(self).notes@, col, row) is Some || col + 20 <= u32::MAX,
        ensures
            final(self).notes@ == toggled(old(self).notes@, col, row),
            final(self).tempo == old(self).tempo,
            final(self).length == old(self).length,
            final(self).ticks_per_quarter == old(self).ticks_per_quarter,
    {
        proof {
            lemma_first_covering(self.notes@, col, row);
        }
        let mut i: usize = 0;
        let mut found = false;
        while i < self.notes.len()
            invariant_except_break
                !found,
                forall|k: int| 0 <= k < i ==> !covers(#[trigger] self.notes@[k], col, row),
            invariant
                i <= self.notes.len(),
            ensures
                found ==> i < self.notes.len() && covers(self.notes@[i as int], col, row)
                    && forall|k: int| 0 <= k < i ==> !covers(#[trigger] self.notes@[k], col, row),
                !found ==> forall|k: int| 0 <= k < self.notes@.len() ==> !covers(#[trigger] self.notes@[k], col, row),
            decreases self.notes.len() - i,
        {
            let n = self.notes[i];
            if n.start_time <= col && col < n.end_time && (n.pitch % 12) as u32 == row {
                found = true;
                break;
            }
            i += 1;
        }
        if found {
            assert(first_covering(self.notes@, col, row) == Some(i as int));
            self.notes.remove(i);
        } else {
            let visual: u8 = if row > 11 { 11 } else { row as u8 };
            self.notes.push(Note { pitch: 60u8.saturating_add(visual), velocity: 100, start_time: col, end_time: col + 20 });
        }
    }
}

/// A click on an empty cell adds a note there, and a second click on the same cell removes
/// it again.
pub proof fn lemma_toggle_twice(notes: Seq<Note>, col: u32, row: u32)
    requires
        first_covering(notes, col, row) is None,
        row <= 11,
        col + 20 <= u32::MAX,
    ensures
        first_covering(toggled(notes, col, row), col, row) is Some,
        toggled(toggled(notes, col, row), col, row) == notes,
{
    lemma_first_covering(notes, col, row);
    let once = notes.push(added_note(col, row));
    lemma_first_covering(once, col, row);
    assert(covers(once[notes.len() as int], col, row));
    assert(first_covering(once, col, row) == Some(notes.len() as int));
    assert(once.remove(notes.len() as int) =~= notes);
}

/// The color of a pitch class, as red, green and blue.
pub open spec fn pitch_class_color(class: u8) -> (u8, u8, u8) {
    if class == 0 {
        (139, 0, 0)
    } else if class == 1 {
        (220, 20, 60)
    } else if class == 2 {
        (255, 99, 71)
    } else if class == 3 {
        (255, 255, 224)
    } else if class == 4 {
        (255, 255, 0)
    } else if class == 5 {
        (144, 238, 144)
    } else if class == 6 {
        (0, 128, 0)
    } else if class == 7 {
        (0, 100, 0)
    } else if class == 8 {
        (25, 25, 112)
    } else if class == 9 {
        (0, 0, 139)
    } else if class == 10 {
        (0, 0, 255)
    } else if class == 11 {
        (173, 216, 230)
    } else {
        (255, 215, 0)
    }
}

/// The color that a note of this pitch is drawn in: one color per pitch class.
pub fn note_color(pitch: u8) -> (r: (u8, u8, u8))
    ensures
        r == pitch_class_color(pitch % 12),
{
    match pitch % 12 {
        0 => (139, 0, 0),
        1 => (220, 20, 60),
        2 => (255, 99, 71),
        3 => (255, 255, 224),
        4 => (255, 255, 0),
        5 => (144, 238, 144),
        6 => (0, 128, 0),
        7 => (0, 100, 0),
        8 => (25, 25, 112),
        9 => (0, 0, 139),
        10 => (0, 0, 255),
        11 => (173, 216, 230),
        _ => (255, 215, 0),
    }
}

/// Whether a note reaches into the visible columns `start_col..=end_col`.
pub fn note_in_view(note: &Note, start_col: u32, end_col: u32) -> (r: bool)
    ensures
        r == !(note.end_time < start_col || note.start_time > end_col),
{
    !(note.end_time < start_col || note.start_time > end_col)
}

/// The first grid line at or before the visible columns: a multiple of 20.
pub open spec fn grid_start(visible_start: usize) -> int {
    (visible_start / 20) * 20
}

/// The last grid line at or after the visible columns: a multiple of 20.
pub open spec fn grid_end(visible_start: usize, visible_end: usize) -> int {
    ((visible_end + 19) / 20) * 20
}

/// The ticks of the vertical grid lines to draw: every 20 ticks from `grid_start` to
/// `grid_end`, stopping past the length of the roll.
pub fn grid_ticks(visible_start: usize, visible_end: usize, length: usize) -> (r: Vec<usize>)
    requires
        visible_end + 19 <= usize::MAX,
    ensures
        forall|k: int| 0 <= k < r@.len() ==> #[trigger] r@[k] == grid_start(visible_start) + 20 * k,
        forall|k: int| 0 <= k < r@.len() ==> #[trigger] r@[k] <= grid_end(visible_start, visible_end) && r@[k] <= length,
        ({
            let next = grid_start(visible_start) + 20 * r@.len();
            next > grid_end(visible_start, visible_end) || next > length
        }),
{
    let start = (visible_start / 20) * 20;
    let end = ((visible_end + 19) / 20) * 20;
    let mut r: Vec<usize> = Vec::new();
    let mut t: usize = start;
    loop
        invariant_except_break
            t == start + 20 * r@.len(),
        invariant
            start == grid_start(visible_start),
            end == grid_end(visible_start, visible_end),
            forall|k: int| 0 <= k < r@.len() ==> #[trigger] r@[k] == start + 20 * k,
            forall|k: int| 0 <= k < r@.len() ==> #[trigger] r@[k] <= end && r@[k] <= length,
        ensures
            forall|k: int| 0 <= k < r@.len() ==> #[trigger] r@[k] == start + 20 * k,
            forall|k: int| 0 <= k < r@.len() ==> #[trigger] r@[k] <= end && r@[k] <= length,
            start + 20 * r@.len() > end || start + 20 * r@.len() > length,
        decreases end + 20 - t,
    {
        if t > end || t > length {
            break;
        }
        r.push(t);
        if end - t < 20 {
            break;
        }
        t = t + 20;
    }
    r
}

/// Notes that follow one another: each within the widths an SMF event stores (key and
/// velocity up to 127, ticks up to 28 bits), sounding with a velocity, not ending before it
/// starts, and ending no later than any later note of the list starts.
pub open spec fn sequential_notes(notes: Seq<Note>) -> bool {
    &&& forall|i: int| 0 <= i < notes.len() ==> {
        let n = #[trigger] notes[i];
        &&& 0 < n.velocity <= 127
        &&& n.pitch <= 127
        &&& n.start_time <= n.end_time
        &&& n.end_time <= DELTA_MASK
    }
    &&& forall|i: int, j: int| 0 <= i < j < notes.len() ==> #[trigger] notes[i].end_time <= #[trigger] notes[j].start_time
}

pub(crate) proof fn lemma_note_message_at(notes: Seq<Note>, cap: bool, j: int)
    requires
        0 <= j < notes.len(),
    ensures
        note_messages(notes, cap).len() == 2 * notes.len(),
        note_messages(notes, cap)[2 * j] == (NoteMessage {
            time: notes[j].start_time, on: true, key: message_key(notes[j], cap), vel: notes[j].velocity,
        }),
        note_messages(notes, cap)[2 * j + 1] == (NoteMessage {
            time: notes[j].end_time, on: false, key: message_key(notes[j], cap), vel: 0,
        }),
    decreases notes.len(),
{
    let d = notes.drop_last();
    lemma_note_messages_len(d, cap);
    if j < d.len() {
        lemma_note_message_at(d, cap, j);
        assert(notes[j] == d[j]);
    }
}

pub(crate) proof fn lemma_note_messages_len(notes: Seq<Note>, cap: bool)
    ensures
        note_messages(notes, cap).len() == 2 * notes.len(),
    decreases notes.len(),
{
    if notes.len() > 0 {
        lemma_note_messages_len(notes.drop_last(), cap);
    }
}

/// Messages already in chronological order are left as they are by sorting.
pub proof fn lemma_sort_sorted_is_identity(s: Seq<NoteMessage>)
    requires
        sorted_by_time(s),
    ensures
        sort_by_time(s) == s,
    decreases s.len(),
{
    if s.len() > 0 {
        let d = s.drop_last();
        lemma_sort_sorted_is_identity(d);
        if d.len() == 0 {
            assert(seq![s.last()] =~= s);
        } else {
            assert(d.last() == s[s.len() - 2]);
            assert(d.push(s.last()) =~= s);
        }
    }
}

proof fn lemma_sequential_messages_sorted(notes: Seq<Note>)
    requires
        sequential_notes(notes),
    ensures
        sorted_by_time(note_messages(notes, true)),
{
    let m = note_messages(notes, true);
    lemma_note_messages_len(notes, true);
    assert forall|a: int, b: int| 0 <= a < b < m.len() implies m[a].time <= m[b].time by {
        let ja = a / 2;
        let jb = b / 2;
        assert(a == 2 * ja || a == 2 * ja + 1);
        assert(b == 2 * jb || b == 2 * jb + 1);
        assert(0 <= ja <= jb < notes.len());
        lemma_note_message_at(notes, true, ja);
        lemma_note_message_at(notes, true, jb);
        assert(m[2 * ja].time == notes[ja].start_time && m[2 * ja + 1].time == notes[ja].end_time);
        assert(m[2 * jb].time == notes[jb].start_time && m[2 * jb + 1].time == notes[jb].end_time);
        assert(notes[ja].start_time <= notes[ja].end_time);
        assert(notes[jb].start_time <= notes[jb].end_time);
        if ja < jb {
            assert(notes[ja].end_time <= notes[jb].start_time);
        }
    }
}

/// A roll whose notes follow one another, exported and read back as the events stored in
/// the file, gives back the same notes in the same order, at the default tempo.
pub proof fn lemma_sequential_round_trip(notes: Seq<Note>)
    requires
        sequential_notes(notes),
    ensures
        ({
            let back = read_tracks(initial_read_state(), masked_tracks(seq![export_events(notes)]));
            back.notes == notes && back.tempo == 120
        }),
{
    let m = note_messages(notes, true);
    lemma_note_messages_len(notes, true);
    lemma_sequential_messages_sorted(notes);
    lemma_sort_sorted_is_identity(m);
    let t = track_events(m);
    assert(export_events(notes) == t);
    let stored = t.map_values(|e: MidiEvent| masked_event(e));
    // Every stored value is within the widths of its field, so masking keeps it.
    assert forall|i: int| 0 <= i < t.len() implies #[trigger] stored[i] == t[i] by {
        if i < m.len() {
            let j = i / 2;
            assert(i == 2 * j || i == 2 * j + 1);
            lemma_note_message_at(notes, true, j);
            let n = notes[j];
            let d = delta_before(m, i);
            assert(d <= m[i].time);
            assert(m[i].time <= n.end_time);
            let key = m[i].key;
            let vel = m[i].vel;
            assert(key == n.pitch);
            assert(d & 0x0fff_ffffu32 == d) by (bit_vector)
                requires d <= 0x0fff_ffffu32;
            assert(key & 0x7fu8 == key) by (bit_vector)
                requires key <= 127u8;
            assert(vel & 0x7fu8 == vel) by (bit_vector)
                requires vel <= 127u8;
            assert(0u8 & 0x0fu8 == 0u8) by (bit_vector);
        } else {
            assert(0u32 & 0x0fff_ffffu32 == 0u32) by (bit_vector);
        }
    }
    assert(stored =~= t);
    assert(masked_tracks(seq![export_events(notes)]) =~= seq![stored]);
    let s0 = initial_read_state();
    assert(seq![t].drop_last() =~= Seq::<Seq<MidiEvent>>::empty());
    assert(seq![t].last() == t);
    assert(read_tracks(s0, Seq::<Seq<MidiEvent>>::empty()) == s0);
    assert(read_tracks(s0, seq![t]) == read_track(s0, t));
    lemma_read_sequential(notes, notes.len() as int);
    assert(notes.take(notes.len() as int) =~= notes);
    let n2 = 2 * notes.len();
    assert(t.take(n2 as int) =~= t.drop_last());
    assert(t.last() == (MidiEvent { delta: 0, kind: EventKind::EndOfTrack }));
    assert(read_track(s0, t) == read_event_at(read_track(s0, t.drop_last()), track_time(t) as u32, t.last().kind));
}

proof fn lemma_read_sequential(notes: Seq<Note>, j: int)
    requires
        sequential_notes(notes),
        0 <= j <= notes.len(),
    ensures
        ({
            let t = track_events(note_messages(notes, true));
            let r = read_track(initial_read_state(), t.take(2 * j));
            &&& r.notes == notes.take(j)
            &&& r.active == Map::<u8, (u32, u8)>::empty()
            &&& r.tempo == 120
        }),
    decreases j,
{
    let m = note_messages(notes, true);
    let t = track_events(m);
    let s0 = initial_read_state();
    lemma_note_messages_len(notes, true);
    if j == 0 {
        assert(t.take(0) =~= Seq::<MidiEvent>::empty());
        assert(notes.take(0) =~= Seq::<Note>::empty());
    } else {
        let k = j - 1;
        lemma_read_sequential(notes, k);
        lemma_sequential_messages_sorted(notes);
        lemma_note_message_at(notes, true, k);
        let n = notes[k];
        let r0 = read_track(s0, t.take(2 * k));
        // the note-on of note k
        assert(t.take(2 * k + 1).drop_last() =~= t.take(2 * k));
        assert(t.take(2 * k + 1).last() == t[2 * k]);
        lemma_track_deltas_add_up(m, 2 * k);
        assert(m[2 * k].time == n.start_time);
        assert(m[2 * k].key == n.pitch);
        let r1 = read_track(s0, t.take(2 * k + 1));
        assert(r1 == read_event_at(r0, n.start_time, EventKind::NoteOn { channel: 0, key: n.pitch, vel: n.velocity }));
        assert(r1.active =~= Map::<u8, (u32, u8)>::empty().insert(n.pitch, (n.start_time, n.velocity)));
        // the note-off of note k
        assert(t.take(2 * k + 2).drop_last() =~= t.take(2 * k + 1));
        assert(t.take(2 * k + 2).last() == t[2 * k + 1]);
        lemma_track_deltas_add_up(m, 2 * k + 1);
        assert(m[2 * k + 1].time == n.end_time);
        let r2 = read_track(s0, t.take(2 * k + 2));
        assert(r2 == read_event_at(r1, n.end_time, EventKind::NoteOff { channel: 0, key: n.pitch, vel: 0 }));
        assert(r2 == finish_note(r1, n.pitch, n.end_time));
        assert(r1.active.contains_key(n.pitch));
        assert(r2.active =~= Map::<u8, (u32, u8)>::empty());
        assert(notes.take(j) =~= notes.take(k).push(n));
        assert(r2.notes =~= notes.take(j));
        assert(2 * j == 2 * k + 2);
    }
}

} // verus!
