//! Exporting a piano roll and reading the exported track back gives the roll's notes.

use vstd::prelude::*;
use crate::roll::{Note, message_key, lemma_max_end_attained, roll_length, NoteMessage, ReadState, export_events, finish_note, initial_read_state, insert_by_time, lemma_note_message_at, lemma_note_messages_len, lemma_sort_permutes, lemma_sort_sorted, lemma_track_deltas_add_up, message_event, delta_before, note_messages, read_event_at, read_track, read_tracks, sort_by_time, sorted_by_time, track_events, track_time};
use crate::smf::{DELTA_MASK, EventKind, MidiEvent, masked_event, masked_tracks};

verus! {

/// A note that an SMF track stores as it is: key and velocity up to 127, a velocity above
/// 0, ticks up to 28 bits, and not ending before it starts.
pub open spec fn exportable_note(n: Note) -> bool {
    &&& 0 < n.velocity <= 127
    &&& n.pitch <= 127
    &&& n.start_time <= n.end_time
    &&& n.end_time <= DELTA_MASK
}

/// Notes that each can be stored as they are, where two notes of the same pitch never
/// meet: one ends strictly before the other starts.
pub open spec fn separated_notes(notes: Seq<Note>) -> bool {
    &&& forall|i: int| 0 <= i < notes.len() ==> exportable_note(#[trigger] notes[i])
    &&& forall|i: int, j: int|
        0 <= i < notes.len() && 0 <= j < notes.len() && i != j && #[trigger] notes[i].pitch
            == #[trigger] notes[j].pitch ==> notes[i].end_time < notes[j].start_time
            || notes[j].end_time < notes[i].start_time
}

/// The note-on that exports a note.
pub open spec fn on_message(n: Note) -> NoteMessage {
    NoteMessage { time: n.start_time, on: true, key: n.pitch, vel: n.velocity }
}

/// The note-off that exports a note.
pub open spec fn off_message(n: Note) -> NoteMessage {
    NoteMessage { time: n.end_time, on: false, key: n.pitch, vel: 0 }
}

/// Two separated notes of the same pitch that both sound at some tick are the same note.
proof fn lemma_same_pitch_overlap(notes: Seq<Note>, a: int, b: int, t: int)
    requires
        separated_notes(notes),
        0 <= a < notes.len(),
        0 <= b < notes.len(),
        notes[a].pitch == notes[b].pitch,
        notes[a].start_time <= t <= notes[a].end_time,
        notes[b].start_time <= t <= notes[b].end_time,
    ensures
        notes[a] == notes[b],
{
    if a != b {
        assert(notes[a].end_time < notes[b].start_time || notes[b].end_time < notes[a].start_time);
    }
}

/// The messages of separated notes are all different.
proof fn lemma_messages_distinct(notes: Seq<Note>)
    requires
        separated_notes(notes),
    ensures
        note_messages(notes, true).no_duplicates(),
{
    let m = note_messages(notes, true);
    lemma_note_messages_len(notes, true);
    assert forall|a: int, b: int| 0 <= a < m.len() && 0 <= b < m.len() && a != b implies m[a] != m[b] by {
        let ja = a / 2;
        let jb = b / 2;
        lemma_note_message_at(notes, true, ja);
        lemma_note_message_at(notes, true, jb);
        assert(exportable_note(notes[ja]));
        assert(exportable_note(notes[jb]));
        if m[a] == m[b] {
            if ja == jb {
                assert(a == 2 * ja || a == 2 * ja + 1);
                assert(b == 2 * jb || b == 2 * jb + 1);
            } else if a == 2 * ja {
                lemma_same_pitch_overlap(notes, ja, jb, notes[ja].start_time as int);
            } else {
                lemma_same_pitch_overlap(notes, ja, jb, notes[ja].end_time as int);
            }
        }
    }
}

/// Where `insert_by_time` puts the message: after every message not later than it, going
/// back from the end.
pub open spec fn insert_position(s: Seq<NoteMessage>, m: NoteMessage) -> int
    decreases s.len(),
{
    if s.len() == 0 {
        0
    } else if s.last().time <= m.time {
        s.len() as int
    } else {
        insert_position(s.drop_last(), m)
    }
}

proof fn lemma_insert_position(s: Seq<NoteMessage>, m: NoteMessage)
    ensures
        0 <= insert_position(s, m) <= s.len(),
        forall|k: int| insert_position(s, m) <= k < s.len() ==> s[k].time > m.time,
        insert_by_time(s, m) == s.take(insert_position(s, m)) + seq![m] + s.skip(insert_position(s, m)),
    decreases s.len(),
{
    if s.len() == 0 {
        assert(s.take(0) + seq![m] + s.skip(0) =~= seq![m]);
    } else if s.last().time <= m.time {
        assert(s.take(s.len() as int) + seq![m] + s.skip(s.len() as int) =~= s.push(m));
    } else {
        let d = s.drop_last();
        lemma_insert_position(d, m);
        let j = insert_position(d, m);
        assert(s.take(j) + seq![m] + s.skip(j) =~= (d.take(j) + seq![m] + d.skip(j)).push(s.last()));
        assert forall|k: int| j <= k < s.len() implies s[k].time > m.time by {
            if k < d.len() {
                assert(s[k] == d[k]);
            }
        }
    }
}

/// Sorting keeps a message before another that it came before and that is not earlier
/// than it.
proof fn lemma_sort_keeps_order(s: Seq<NoteMessage>, a: int, b: int)
    requires
        0 <= a < b < s.len(),
        s[a].time <= s[b].time,
    ensures
        exists|x: int, y: int|
            0 <= x < y < sort_by_time(s).len() && #[trigger] sort_by_time(s)[x] == s[a] && #[trigger] sort_by_time(s)[y] == s[b],
    decreases s.len(),
{
    broadcast use vstd::seq_lib::group_seq_properties;
    let d = s.drop_last();
    let sd = sort_by_time(d);
    lemma_sort_permutes(d);
    lemma_insert_position(sd, s.last());
    let j = insert_position(sd, s.last());
    let r = sort_by_time(s);
    assert(r == insert_by_time(sd, s.last()));
    assert(r.len() == sd.len() + 1);
    if b == s.len() - 1 {
        assert(d.contains(s[a])) by {
            assert(d[a] == s[a]);
        }
        assert(sd.to_multiset().count(s[a]) > 0);
        assert(sd.contains(s[a]));
        let x = choose|x: int| 0 <= x < sd.len() && sd[x] == s[a];
        assert(x < j);
        assert(r[x] == s[a]);
        assert(r[j] == s[b]);
    } else {
        assert(d[a] == s[a] && d[b] == s[b]);
        lemma_sort_keeps_order(d, a, b);
        let (x, y) = choose|x: int, y: int|
            0 <= x < y < sd.len() && #[trigger] sd[x] == d[a] && #[trigger] sd[y] == d[b];
        let x2 = if x < j { x } else { x + 1 };
        let y2 = if y < j { y } else { y + 1 };
        assert(r[x2] == s[a]);
        assert(r[y2] == s[b]);
    }
}

/// The index of a message in a sequence that holds it.
spec fn pos(s: Seq<NoteMessage>, x: NoteMessage) -> int {
    choose|k: int| 0 <= k < s.len() && s[k] == x
}

proof fn lemma_pos(s: Seq<NoteMessage>, x: NoteMessage)
    requires
        s.no_duplicates(),
        s.contains(x),
    ensures
        0 <= pos(s, x) < s.len(),
        s[pos(s, x)] == x,
        forall|k: int| 0 <= k < s.len() && s[k] == x ==> k == pos(s, x),
{
}

/// The exported messages of the notes, in chronological order.
spec fn exported_messages(notes: Seq<Note>) -> Seq<NoteMessage> {
    sort_by_time(note_messages(notes, true))
}

proof fn lemma_exported_messages(notes: Seq<Note>)
    requires
        separated_notes(notes),
    ensures
        exported_messages(notes).len() == 2 * notes.len(),
        sorted_by_time(exported_messages(notes)),
        exported_messages(notes).no_duplicates(),
        forall|k: int| 0 <= k < exported_messages(notes).len() ==> exists|j: int|
            0 <= j < notes.len() && (#[trigger] exported_messages(notes)[k] == on_message(notes[j])
                || exported_messages(notes)[k] == off_message(notes[j])),
        forall|j: int| 0 <= j < notes.len() ==> {
            &&& exported_messages(notes).contains(on_message(#[trigger] notes[j]))
            &&& exported_messages(notes).contains(off_message(notes[j]))
            &&& pos(exported_messages(notes), on_message(notes[j])) < pos(exported_messages(notes), off_message(notes[j]))
            &&& 0 <= pos(exported_messages(notes), on_message(notes[j]))
            &&& pos(exported_messages(notes), off_message(notes[j])) < exported_messages(notes).len()
            &&& exported_messages(notes)[pos(exported_messages(notes), on_message(notes[j]))] == on_message(notes[j])
            &&& exported_messages(notes)[pos(exported_messages(notes), off_message(notes[j]))] == off_message(notes[j])
        },
{
    broadcast use vstd::seq_lib::group_seq_properties;
    let m = note_messages(notes, true);
    let s = exported_messages(notes);
    lemma_note_messages_len(notes, true);
    lemma_messages_distinct(notes);
    lemma_sort_permutes(m);
    lemma_sort_sorted(m);
    m.lemma_multiset_has_no_duplicates();
    assert forall|x: NoteMessage| s.to_multiset().contains(x) implies s.to_multiset().count(x) == 1 by {}
    s.lemma_multiset_has_no_duplicates_conv();
    assert forall|k: int| 0 <= k < s.len() implies exists|j: int|
        0 <= j < notes.len() && (#[trigger] s[k] == on_message(notes[j]) || s[k] == off_message(notes[j])) by {
        assert(s.contains(s[k]));
        assert(s.to_multiset().count(s[k]) > 0);
        assert(m.contains(s[k]));
        let c = choose|c: int| 0 <= c < m.len() && m[c] == s[k];
        let j = c / 2;
        lemma_note_message_at(notes, true, j);
        assert(exportable_note(notes[j]));
        assert(c == 2 * j || c == 2 * j + 1);
    }
    assert forall|j: int| 0 <= j < notes.len() implies {
        &&& s.contains(on_message(#[trigger] notes[j]))
        &&& s.contains(off_message(notes[j]))
        &&& pos(s, on_message(notes[j])) < pos(s, off_message(notes[j]))
        &&& 0 <= pos(s, on_message(notes[j]))
        &&& pos(s, off_message(notes[j])) < s.len()
        &&& s[pos(s, on_message(notes[j]))] == on_message(notes[j])
        &&& s[pos(s, off_message(notes[j]))] == off_message(notes[j])
    } by {
        lemma_note_message_at(notes, true, j);
        assert(exportable_note(notes[j]));
        assert(m[2 * j] == on_message(notes[j]));
        assert(m[2 * j + 1] == off_message(notes[j]));
        assert(m.contains(on_message(notes[j])));
        assert(m.contains(off_message(notes[j])));
        assert(m.to_multiset().count(on_message(notes[j])) > 0);
        assert(m.to_multiset().count(off_message(notes[j])) > 0);
        lemma_sort_keeps_order(m, 2 * j, 2 * j + 1);
        let (x, y) = choose|x: int, y: int|
            0 <= x < y < s.len() && #[trigger] s[x] == m[2 * j] && #[trigger] s[y] == m[2 * j + 1];
        lemma_pos(s, on_message(notes[j]));
        lemma_pos(s, off_message(notes[j]));
    }
}

/// What reading the first `i` exported messages has gathered: the tempo is untouched; the
/// notes read are those whose note-off is among the first `i`, each once; the key of every
/// note whose note-on is read and note-off is not sounds with that note's start and
/// velocity; and only such keys sound.
spec fn read_invariant(notes: Seq<Note>, i: int, r: ReadState) -> bool {
    let s = exported_messages(notes);
    &&& r.tempo == 120
    &&& r.notes.no_duplicates()
    &&& forall|x: Note| #[trigger] r.notes.contains(x) <==> (notes.contains(x) && pos(s, off_message(x)) < i)
    &&& forall|j: int| 0 <= j < notes.len() && pos(s, on_message(#[trigger] notes[j])) < i && pos(s, off_message(notes[j])) >= i
        ==> r.active.contains_key(notes[j].pitch) && r.active[notes[j].pitch] == (notes[j].start_time, notes[j].velocity)
    &&& forall|k: u8| #[trigger] r.active.contains_key(k) ==> exists|j: int|
        0 <= j < notes.len() && notes[j].pitch == k && pos(s, on_message(notes[j])) < i && pos(s, off_message(notes[j])) >= i
}

/// The event read at index `c` of the exported track: the message there, at its own tick.
proof fn lemma_event_at(notes: Seq<Note>, c: int)
    requires
        separated_notes(notes),
        0 <= c < 2 * notes.len(),
    ensures
        ({
            let s = exported_messages(notes);
            let t = track_events(s);
            let s0 = initial_read_state();
            read_track(s0, t.take(c + 1)) == read_event_at(read_track(s0, t.take(c)), s[c].time, t[c].kind)
                && t[c] == message_event(s[c], delta_before(s, c))
        }),
{
    let s = exported_messages(notes);
    let t = track_events(s);
    lemma_exported_messages(notes);
    assert(t.take(c + 1).drop_last() =~= t.take(c));
    assert(t.take(c + 1).last() == t[c]);
    lemma_track_deltas_add_up(s, c);
}

proof fn lemma_read_step_on(notes: Seq<Note>, c: int, j: int, r: ReadState, r2: ReadState)
    requires
        separated_notes(notes),
        0 <= c < 2 * notes.len(),
        0 <= j < notes.len(),
        exported_messages(notes)[c] == on_message(notes[j]),
        read_invariant(notes, c, r),
        r2 == read_event_at(r, notes[j].start_time, EventKind::NoteOn { channel: 0, key: notes[j].pitch, vel: notes[j].velocity }),
    ensures
        read_invariant(notes, c + 1, r2),
{
    let s = exported_messages(notes);
    lemma_exported_messages(notes);
    let n = notes[j];
    assert(exportable_note(n));
    lemma_pos(s, on_message(n));
    assert(pos(s, on_message(n)) == c);
    assert(r2.notes == r.notes);
    assert(r2.active == r.active.insert(n.pitch, (n.start_time, n.velocity)));
    assert forall|x: Note| #[trigger] r2.notes.contains(x) <==> (notes.contains(x) && pos(s, off_message(x)) < c + 1) by {
        if notes.contains(x) {
            let q = choose|q: int| 0 <= q < notes.len() && notes[q] == x;
            assert(s[pos(s, off_message(notes[q]))] == off_message(notes[q]));
        }
    }
    assert forall|q: int| 0 <= q < notes.len() && pos(s, on_message(#[trigger] notes[q])) < c + 1 && pos(s, off_message(notes[q])) >= c + 1
        implies r2.active.contains_key(notes[q].pitch) && r2.active[notes[q].pitch] == (notes[q].start_time, notes[q].velocity) by {
        if notes[q] != n {
            if pos(s, on_message(notes[q])) == c {
                lemma_same_pitch_overlap(notes, q, j, n.start_time as int);
            }
            if notes[q].pitch == n.pitch {
                assert(s[pos(s, on_message(notes[q]))].time <= s[c].time);
                assert(s[c].time <= s[pos(s, off_message(notes[q]))].time);
                lemma_same_pitch_overlap(notes, q, j, n.start_time as int);
            }
        }
    }
    assert forall|k: u8| #[trigger] r2.active.contains_key(k) implies exists|q: int|
        0 <= q < notes.len() && notes[q].pitch == k && pos(s, on_message(notes[q])) < c + 1 && pos(s, off_message(notes[q])) >= c + 1 by {
        if k == n.pitch {
            assert(notes[j].pitch == k && pos(s, on_message(notes[j])) < c + 1 && pos(s, off_message(notes[j])) >= c + 1);
        } else {
            assert(r.active.contains_key(k));
            let q = choose|q: int|
                0 <= q < notes.len() && notes[q].pitch == k && pos(s, on_message(notes[q])) < c && pos(s, off_message(notes[q])) >= c;
            assert(s[pos(s, off_message(notes[q]))] == off_message(notes[q]));
        }
    }
}

proof fn lemma_read_step_off(notes: Seq<Note>, c: int, j: int, r: ReadState, r2: ReadState)
    requires
        separated_notes(notes),
        0 <= c < 2 * notes.len(),
        0 <= j < notes.len(),
        exported_messages(notes)[c] == off_message(notes[j]),
        read_invariant(notes, c, r),
        r2 == read_event_at(r, notes[j].end_time, EventKind::NoteOff { channel: 0, key: notes[j].pitch, vel: 0 }),
    ensures
        read_invariant(notes, c + 1, r2),
{
    let s = exported_messages(notes);
    lemma_exported_messages(notes);
    let n = notes[j];
    assert(exportable_note(n));
    lemma_pos(s, off_message(n));
    assert(pos(s, off_message(n)) == c);
    assert(pos(s, on_message(n)) < c);
    assert(r.active.contains_key(n.pitch) && r.active[n.pitch] == (n.start_time, n.velocity));
    assert(r2 == finish_note(r, n.pitch, n.end_time));
    assert(r2.notes == r.notes.push(n));
    assert(r2.active == r.active.remove(n.pitch));
    assert(!r.notes.contains(n));
    assert forall|x: Note| #[trigger] r2.notes.contains(x) <==> (notes.contains(x) && pos(s, off_message(x)) < c + 1) by {
        if r2.notes.contains(x) {
            let w = choose|w: int| 0 <= w < r2.notes.len() && r2.notes[w] == x;
            if w < r.notes.len() {
                assert(r.notes[w] == x);
                assert(r.notes.contains(x));
            }
        }
        if notes.contains(x) && pos(s, off_message(x)) < c + 1 {
            let q = choose|q: int| 0 <= q < notes.len() && notes[q] == x;
            if pos(s, off_message(x)) == c {
                assert(s[pos(s, off_message(notes[q]))] == off_message(notes[q]));
                assert(off_message(x) == off_message(n));
                lemma_same_pitch_overlap(notes, q, j, n.end_time as int);
                assert(r2.notes[r.notes.len() as int] == x);
            } else {
                assert(r.notes.contains(x));
                let w = choose|w: int| 0 <= w < r.notes.len() && r.notes[w] == x;
                assert(r2.notes[w] == x);
            }
        }
    }
    assert(r2.notes.no_duplicates()) by {
        assert forall|a: int, b: int| 0 <= a < r2.notes.len() && 0 <= b < r2.notes.len() && a != b implies r2.notes[a] != r2.notes[b] by {
            if a < r.notes.len() && b < r.notes.len() {
            } else if a < r.notes.len() {
                assert(r.notes.contains(r.notes[a]));
            } else {
                assert(r.notes.contains(r.notes[b]));
            }
        }
    }
    assert forall|q: int| 0 <= q < notes.len() && pos(s, on_message(#[trigger] notes[q])) < c + 1 && pos(s, off_message(notes[q])) >= c + 1
        implies r2.active.contains_key(notes[q].pitch) && r2.active[notes[q].pitch] == (notes[q].start_time, notes[q].velocity) by {
        assert(notes[q] != n);
        assert(pos(s, on_message(notes[q])) != c);
        if notes[q].pitch == n.pitch {
            assert(s[pos(s, on_message(notes[q]))].time <= s[c].time);
            assert(s[c].time <= s[pos(s, off_message(notes[q]))].time);
            lemma_same_pitch_overlap(notes, q, j, n.end_time as int);
        }
    }
    assert forall|k: u8| #[trigger] r2.active.contains_key(k) implies exists|q: int|
        0 <= q < notes.len() && notes[q].pitch == k && pos(s, on_message(notes[q])) < c + 1 && pos(s, off_message(notes[q])) >= c + 1 by {
        assert(r.active.contains_key(k) && k != n.pitch);
        let q = choose|q: int|
            0 <= q < notes.len() && notes[q].pitch == k && pos(s, on_message(notes[q])) < c && pos(s, off_message(notes[q])) >= c;
        assert(s[pos(s, off_message(notes[q]))] == off_message(notes[q]));
    }
}

proof fn lemma_read_prefix(notes: Seq<Note>, i: int)
    requires
        separated_notes(notes),
        0 <= i <= 2 * notes.len(),
    ensures
        read_invariant(notes, i, read_track(initial_read_state(), track_events(exported_messages(notes)).take(i))),
    decreases i,
{
    let s = exported_messages(notes);
    let t = track_events(s);
    let s0 = initial_read_state();
    lemma_exported_messages(notes);
    if i == 0 {
        assert(t.take(0) =~= Seq::<MidiEvent>::empty());
        let r = read_track(s0, t.take(0));
        assert(r == s0);
        assert forall|j: int| 0 <= j < notes.len() implies pos(s, on_message(#[trigger] notes[j])) >= 0 by {}
    } else {
        let c = i - 1;
        lemma_read_prefix(notes, c);
        lemma_event_at(notes, c);
        let r = read_track(s0, t.take(c));
        let j = choose|j: int| 0 <= j < notes.len() && (s[c] == on_message(notes[j]) || s[c] == off_message(notes[j]));
        if s[c] == on_message(notes[j]) {
            lemma_read_step_on(notes, c, j, r, read_track(s0, t.take(c + 1)));
        } else {
            lemma_read_step_off(notes, c, j, r, read_track(s0, t.take(c + 1)));
        }
    }
}

/// A roll whose notes of the same pitch never meet, exported and read back as the events
/// stored in the file, gives back exactly its notes (each once, in the order their notes end),
/// at the default tempo.
pub proof fn lemma_round_trip(notes: Seq<Note>)
    requires
        separated_notes(notes),
    ensures
        ({
            let back = read_tracks(initial_read_state(), masked_tracks(seq![export_events(notes)]));
            &&& back.notes.len() == notes.len()
            &&& back.notes.no_duplicates()
            &&& forall|x: Note| back.notes.contains(x) <==> notes.contains(x)
            &&& back.tempo == 120
            &&& roll_length(back.notes) == roll_length(notes)
        }),
{
    let s = exported_messages(notes);
    let t = track_events(s);
    let s0 = initial_read_state();
    lemma_exported_messages(notes);
    assert(export_events(notes) == t);
    let stored = t.map_values(|e: MidiEvent| masked_event(e));
    assert forall|i: int| 0 <= i < t.len() implies #[trigger] stored[i] == t[i] by {
        if i < s.len() {
            let j = choose|j: int| 0 <= j < notes.len() && (s[i] == on_message(notes[j]) || s[i] == off_message(notes[j]));
            assert(exportable_note(notes[j]));
            let d = delta_before(s, i);
            lemma_track_deltas_add_up(s, i);
            let key = s[i].key;
            let vel = s[i].vel;
            assert(d <= s[i].time <= notes[j].end_time);
            assert(d & 0x0fff_ffffu32 == d) by (bit_vector)
                requires d <= 0x0fff_ffffu32;
            assert(key & 0x7fu8 == key) by (bit_vector)
                requires key <= 127u8;
            assert(vel & 0x7fu8 == vel) by (bit_vector)
                requires vel <= 127u8;
            assert(0u8 & 0x0fu8 == 0u8) by (bit_vector);
        } else {
            assert(0u32 & 0x0fff_ffffu32 == 0u32) by (bit_vector);
        }
    }
    assert(stored =~= t);
    assert(masked_tracks(seq![export_events(notes)]) =~= seq![stored]);
    assert(seq![t].drop_last() =~= Seq::<Seq<MidiEvent>>::empty());
    assert(seq![t].last() == t);
    assert(read_tracks(s0, Seq::<Seq<MidiEvent>>::empty()) == s0);
    assert(read_tracks(s0, seq![t]) == read_track(s0, t));
    let n2 = 2 * notes.len();
    lemma_read_prefix(notes, n2 as int);
    assert(t.take(n2 as int) =~= t.drop_last());
    let back = read_track(s0, t);
    assert(back == read_event_at(read_track(s0, t.drop_last()), track_time(t) as u32, t.last().kind));
    assert(back == read_track(s0, t.take(n2 as int)));
    assert forall|x: Note| back.notes.contains(x) <==> notes.contains(x) by {
        if notes.contains(x) {
            let q = choose|q: int| 0 <= q < notes.len() && notes[q] == x;
            assert(pos(s, off_message(notes[q])) < s.len());
        }
    }
    assert(notes.no_duplicates()) by {
        assert forall|a: int, b: int| 0 <= a < notes.len() && 0 <= b < notes.len() && a != b implies notes[a] != notes[b] by {
            if notes[a] == notes[b] {
                assert(exportable_note(notes[a]));
                assert(notes[a].end_time < notes[b].start_time || notes[b].end_time < notes[a].start_time);
            }
        }
    }
    assert(back.notes.to_set() =~= notes.to_set());
    back.notes.unique_seq_to_set();
    notes.unique_seq_to_set();
    lemma_max_end_attained(back.notes);
    lemma_max_end_attained(notes);
    if notes.len() > 0 {
        let a = choose|i: int| 0 <= i < back.notes.len() && back.notes[i].end_time == crate::roll::max_end(back.notes);
        let b = choose|i: int| 0 <= i < notes.len() && notes[i].end_time == crate::roll::max_end(notes);
        assert(notes.contains(back.notes[a]));
        assert(back.notes.contains(notes[b]));
    }
}

/// No two messages lie at the same tick.
pub open spec fn distinct_message_times(m: Seq<NoteMessage>) -> bool {
    forall|i: int, j: int| 0 <= i < m.len() && 0 <= j < m.len() && i != j ==> #[trigger] m[i].time != #[trigger] m[j].time
}

/// The note-on that the export of a note holds, key capped at 127.
pub open spec fn capped_on(n: Note) -> NoteMessage {
    NoteMessage { time: n.start_time, on: true, key: message_key(n, true), vel: n.velocity }
}

/// The note-off that the export of a note holds, key capped at 127.
pub open spec fn capped_off(n: Note) -> NoteMessage {
    NoteMessage { time: n.end_time, on: false, key: message_key(n, true), vel: 0 }
}

proof fn lemma_note_messages_contains(notes: Seq<Note>, x: NoteMessage)
    ensures
        note_messages(notes, true).contains(x) <==> exists|j: int|
            0 <= j < notes.len() && (x == capped_on(#[trigger] notes[j]) || x == capped_off(notes[j])),
{
    let m = note_messages(notes, true);
    lemma_note_messages_len(notes, true);
    if m.contains(x) {
        let c = choose|c: int| 0 <= c < m.len() && m[c] == x;
        let j = c / 2;
        lemma_note_message_at(notes, true, j);
        assert(c == 2 * j || c == 2 * j + 1);
        assert(x == capped_on(notes[j]) || x == capped_off(notes[j]));
    }
    if exists|j: int| 0 <= j < notes.len() && (x == capped_on(#[trigger] notes[j]) || x == capped_off(notes[j])) {
        let j = choose|j: int| 0 <= j < notes.len() && (x == capped_on(#[trigger] notes[j]) || x == capped_off(notes[j]));
        lemma_note_message_at(notes, true, j);
        if x == capped_on(notes[j]) {
            assert(m[2 * j] == x);
        } else {
            assert(m[2 * j + 1] == x);
        }
    }
}

proof fn lemma_distinct_transfer(p: Seq<NoteMessage>, q: Seq<NoteMessage>)
    requires
        distinct_message_times(p),
        p.len() == q.len(),
        forall|x: NoteMessage| p.contains(x) <==> q.contains(x),
    ensures
        distinct_message_times(q),
{
    assert forall|i: int, j: int| 0 <= i < p.len() && 0 <= j < p.len() && i != j implies p[i] != p[j] by {
        assert(p[i].time != p[j].time);
    }
    assert(p.no_duplicates());
    p.unique_seq_to_set();
    assert(p.to_set() =~= q.to_set());
    q.lemma_no_dup_set_cardinality();
    assert forall|i: int, j: int| 0 <= i < q.len() && 0 <= j < q.len() && i != j implies #[trigger] q[i].time != #[trigger] q[j].time by {
        assert(p.contains(q[i]) && p.contains(q[j]));
        let a = choose|a: int| 0 <= a < p.len() && p[a] == q[i];
        let b = choose|b: int| 0 <= b < p.len() && p[b] == q[j];
    }
}

proof fn lemma_sorted_distinct_unique(a: Seq<NoteMessage>, b: Seq<NoteMessage>)
    requires
        sorted_by_time(a),
        sorted_by_time(b),
        distinct_message_times(a),
        distinct_message_times(b),
        a.len() == b.len(),
        forall|x: NoteMessage| a.contains(x) <==> b.contains(x),
    ensures
        a == b,
    decreases a.len(),
{
    if a.len() > 0 {
        let n = a.len() - 1;
        assert(b.contains(a[n]));
        assert(a.contains(b[n]));
        let k = choose|k: int| 0 <= k < b.len() && b[k] == a[n];
        let k2 = choose|k: int| 0 <= k < a.len() && a[k] == b[n];
        assert(a[k2].time <= a[n].time);
        assert(b[k].time <= b[n].time);
        assert(k == n);
        let a2 = a.drop_last();
        let b2 = b.drop_last();
        assert forall|x: NoteMessage| a2.contains(x) <==> b2.contains(x) by {
            if a2.contains(x) {
                let i = choose|i: int| 0 <= i < a2.len() && a2[i] == x;
                assert(a.contains(x));
                let j = choose|j: int| 0 <= j < b.len() && b[j] == x;
                assert(j != n);
                assert(b2[j] == x);
            }
            if b2.contains(x) {
                let i = choose|i: int| 0 <= i < b2.len() && b2[i] == x;
                assert(b.contains(x));
                let j = choose|j: int| 0 <= j < a.len() && a[j] == x;
                assert(j != n);
                assert(a2[j] == x);
            }
        }
        lemma_sorted_distinct_unique(a2, b2);
        assert(a =~= a2.push(a[n]));
        assert(b =~= b2.push(b[n]));
    }
}

/// Where all the exported messages of a roll lie at different ticks, the export does not
/// depend on the order of the roll's notes.
pub proof fn lemma_export_order_independent(n1: Seq<Note>, n2: Seq<Note>)
    requires
        n1.to_multiset() == n2.to_multiset(),
        distinct_message_times(note_messages(n1, true)),
    ensures
        export_events(n1) == export_events(n2),
{
    broadcast use vstd::seq_lib::group_seq_properties;
    let m1 = note_messages(n1, true);
    let m2 = note_messages(n2, true);
    lemma_note_messages_len(n1, true);
    lemma_note_messages_len(n2, true);
    assert(n1.len() == n2.len()) by {
        n1.to_multiset_ensures();
        n2.to_multiset_ensures();
    }
    assert forall|x: NoteMessage| m1.contains(x) <==> m2.contains(x) by {
        lemma_note_messages_contains(n1, x);
        lemma_note_messages_contains(n2, x);
        if exists|j: int| 0 <= j < n1.len() && (x == capped_on(#[trigger] n1[j]) || x == capped_off(n1[j])) {
            let j = choose|j: int| 0 <= j < n1.len() && (x == capped_on(#[trigger] n1[j]) || x == capped_off(n1[j]));
            assert(n1.contains(n1[j]));
            assert(n1.to_multiset().count(n1[j]) > 0);
            assert(n2.contains(n1[j]));
            let k = choose|k: int| 0 <= k < n2.len() && n2[k] == n1[j];
            assert(x == capped_on(n2[k]) || x == capped_off(n2[k]));
        }
        if exists|j: int| 0 <= j < n2.len() && (x == capped_on(#[trigger] n2[j]) || x == capped_off(n2[j])) {
            let j = choose|j: int| 0 <= j < n2.len() && (x == capped_on(#[trigger] n2[j]) || x == capped_off(n2[j]));
            assert(n2.contains(n2[j]));
            assert(n2.to_multiset().count(n2[j]) > 0);
            assert(n1.contains(n2[j]));
            let k = choose|k: int| 0 <= k < n1.len() && n1[k] == n2[j];
            assert(x == capped_on(n1[k]) || x == capped_off(n1[k]));
        }
    }
    lemma_distinct_transfer(m1, m2);
    let s1 = sort_by_time(m1);
    let s2 = sort_by_time(m2);
    lemma_sort_permutes(m1);
    lemma_sort_permutes(m2);
    lemma_sort_sorted(m1);
    lemma_sort_sorted(m2);
    assert forall|x: NoteMessage| m1.contains(x) <==> s1.contains(x) by {
        assert(m1.to_multiset().count(x) == s1.to_multiset().count(x));
    }
    assert forall|x: NoteMessage| m2.contains(x) <==> s2.contains(x) by {
        assert(m2.to_multiset().count(x) == s2.to_multiset().count(x));
    }
    lemma_distinct_transfer(m1, s1);
    lemma_distinct_transfer(m2, s2);
    lemma_sorted_distinct_unique(s1, s2);
}

} // verus!
