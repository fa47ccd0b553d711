//! The MIDI events this library reads and writes, and the calls into `midly`
//! that decode and encode Standard MIDI Files.

use vstd::prelude::*;
use crate::layout::{has_timecode_overflow, timecode_overflows};

verus! {

/// Mask of the 28-bit delta-time field of an SMF event.
pub const DELTA_MASK: u32 = 0x0fff_ffff;

/// Mask of a 7-bit MIDI data byte (key, velocity).
pub const DATA_MASK: u8 = 0x7f;

/// Mask of a 4-bit MIDI channel number.
pub const CHANNEL_MASK: u8 = 0x0f;

/// Mask of the 15-bit ticks per quarter note of a metrical header.
pub const TICKS_MASK: u16 = 0x7fff;

/// What a track event does, as far as this library reads it.
#[derive(Clone, Copy, Debug, PartialEq, Eq, Structural)]
pub enum EventKind {
    /// A channel note-on message.
    NoteOn { channel: u8, key: u8, vel: u8 },
    /// A channel note-off message.
    NoteOff { channel: u8, key: u8, vel: u8 },
    /// A tempo meta event, in microseconds per quarter note.
    Tempo(u32),
    /// The end-of-track meta event.
    EndOfTrack,
    /// Any other event.
    Other,
}

/// One event of a track: a delta time in ticks and what happens.
#[derive(Clone, Copy, Debug, PartialEq, Eq, Structural)]
pub struct MidiEvent {
    pub delta: u32,
    pub kind: EventKind,
}

/// How the tracks of a file are laid out: one track, tracks played together, or tracks
/// played one after the other.
#[derive(Clone, Copy, Debug, PartialEq, Eq, Structural)]
pub enum SmfFormat {
    SingleTrack,
    Parallel,
    Sequential,
}

/// A decoded Standard MIDI File, as plain values.
pub struct SmfView {
    /// The layout of the tracks that the header declares.
    pub format: SmfFormat,
    /// Ticks per quarter note, where the header gives metrical timing.
    pub ticks: Option<u16>,
    /// The events of each track, in file order.
    pub tracks: Seq<Seq<MidiEvent>>,
}

/// A decoded Standard MIDI File: its format, its metrical timing, if any, and its tracks.
#[derive(Clone, Debug)]
pub struct MidiFile {
    pub format: SmfFormat,
    pub ticks_per_quarter: Option<u16>,
    pub tracks: Vec<Vec<MidiEvent>>,
}

/// The events of each track of a vector of tracks.
pub open spec fn tracks_view(tracks: Seq<Vec<MidiEvent>>) -> Seq<Seq<MidiEvent>> {
    tracks.map_values(|t: Vec<MidiEvent>| t@)
}

impl View for MidiFile {
    type V = SmfView;

    open spec fn view(&self) -> SmfView {
        SmfView { format: self.format, ticks: self.ticks_per_quarter, tracks: tracks_view(self.tracks@) }
    }
}

/// An event whose fields fit the widths an SMF event holds them in: a 28-bit delta, a
/// 4-bit channel, 7-bit keys and velocities, a 24-bit tempo.
pub open spec fn event_in_range(e: MidiEvent) -> bool {
    &&& e.delta <= DELTA_MASK
    &&& match e.kind {
        EventKind::NoteOn { channel, key, vel } => channel <= CHANNEL_MASK && key <= DATA_MASK && vel <= DATA_MASK,
        EventKind::NoteOff { channel, key, vel } => channel <= CHANNEL_MASK && key <= DATA_MASK && vel <= DATA_MASK,
        EventKind::Tempo(us) => us <= 0xff_ffff,
        _ => true,
    }
}

/// Every event of every track fits its SMF widths.
pub open spec fn tracks_in_range(tracks: Seq<Seq<MidiEvent>>) -> bool {
    forall|t: int, i: int| 0 <= t < tracks.len() && 0 <= i < tracks[t].len() ==> event_in_range(#[trigger] tracks[t][i])
}

/// Why bytes could not be read as a Standard MIDI File.
#[derive(Clone, Debug)]
pub struct ParseError {
    pub message: String,
}

/// Why a piano roll could not be encoded as a Standard MIDI File.
#[derive(Clone, Debug)]
pub struct ExportError {
    pub message: String,
}

#[verifier::external_type_specification]
#[verifier::external_body]
pub struct ExSmf<'a>(midly::Smf<'a>);

#[verifier::external_type_specification]
#[verifier::external_body]
pub struct ExTrackEvent<'a>(midly::TrackEvent<'a>);

/// What `midly` reads an event as.
pub uninterp spec fn event_value(e: midly::TrackEvent<'_>) -> MidiEvent;

/// What `midly` holds in a parsed file.
pub uninterp spec fn smf_value(s: midly::Smf<'_>) -> SmfView;

/// What `midly::Smf::parse` gives for `bytes`: the file it decodes, or the text that its
/// error displays.
pub uninterp spec fn decoded_smf(bytes: Seq<u8>) -> Result<SmfView, Seq<char>>;

/// What `midly::Smf::write_std` gives for a file of the given format, metrical timing `ticks`
/// (before `u15::from` masks it) and tracks of events: the bytes it writes, or the text that
/// its error displays.
pub uninterp spec fn encoded_smf(format: SmfFormat, ticks: u16, tracks: Seq<Seq<MidiEvent>>) -> Result<Seq<u8>, Seq<char>>;

/// `midly::Smf::write_std` writes the file as the bytes `b`.
pub open spec fn encodes_as(format: SmfFormat, ticks: u16, tracks: Seq<Seq<MidiEvent>>, b: Seq<u8>) -> bool {
    encoded_smf(format, ticks, tracks) == Ok::<Seq<u8>, Seq<char>>(b)
}

/// `midly::Smf::write_std` fails on the file with an error that displays as `m`.
pub open spec fn encoding_fails_with(format: SmfFormat, ticks: u16, tracks: Seq<Seq<MidiEvent>>, m: Seq<char>) -> bool {
    encoded_smf(format, ticks, tracks) == Err::<Seq<u8>, Seq<char>>(m)
}

/// `midly::Smf::parse` decodes `bytes` as the file `v`.
pub open spec fn decodes_as(bytes: Seq<u8>, v: SmfView) -> bool {
    decoded_smf(bytes) == Ok::<SmfView, Seq<char>>(v)
}

/// `midly::Smf::parse` fails on `bytes` with an error that displays as `m`.
pub open spec fn fails_with(bytes: Seq<u8>, m: Seq<char>) -> bool {
    decoded_smf(bytes) == Err::<SmfView, Seq<char>>(m)
}

/// What a vector of `midly` tracks holds, track by track and event by event.
pub open spec fn midly_tracks_value(tracks: Seq<Vec<midly::TrackEvent<'static>>>) -> Seq<Seq<MidiEvent>> {
    tracks.map_values(|t: Vec<midly::TrackEvent<'static>>| t@.map_values(|e: midly::TrackEvent<'static>| event_value(e)))
}

/// Calls `midly::Smf::parse`, and shows its error with `Display`. Claims that what it gives,
/// the file or the error's text, is a function of the bytes alone (`decoded_smf`): with the
/// `strict` feature off, as here, `midly` drops what it cannot decode inside a track instead
/// of failing, so every error comes from finding and reading the first header, and `Display` shows the
/// error's outermost message, a constant string. `requires` refuses the bytes on which
/// `midly` overflows an `i8` and panics: a header chunk it reads, the first or a later one,
/// with a timecode frame byte `0x80` (`timecode_overflows`).
#[verifier::external_body]
fn parse_smf<'a>(bytes: &'a [u8]) -> (r: Result<midly::Smf<'a>, String>)
    requires
        !timecode_overflows(bytes@),
    ensures
        r is Ok <==> decoded_smf(bytes@) is Ok,
        match r {
            Ok(s) => decodes_as(bytes@, smf_value(s)),
            Err(m) => fails_with(bytes@, m@),
        },
{
    match midly::Smf::parse(bytes) {
        Ok(s) => Ok(s),
        Err(e) => Err(format!("{}", e)),
    }
}

/// Reads `header.format` of a `midly::Smf`, told apart by its variants.
#[verifier::external_body]
fn smf_format(s: &midly::Smf<'_>) -> (r: SmfFormat)
    ensures
        r == smf_value(*s).format,
{
    match s.header.format {
        midly::Format::SingleTrack => SmfFormat::SingleTrack,
        midly::Format::Parallel => SmfFormat::Parallel,
        midly::Format::Sequential => SmfFormat::Sequential,
    }
}

/// Reads `header.timing` of a `midly::Smf`: `Metrical(t)` gives `t.as_int()`,
/// `Timecode` gives nothing.
#[verifier::external_body]
fn smf_ticks(s: &midly::Smf<'_>) -> (r: Option<u16>)
    ensures
        r == smf_value(*s).ticks,
{
    match s.header.timing {
        midly::Timing::Metrical(t) => Some(t.as_int()),
        midly::Timing::Timecode(..) => None,
    }
}

/// Borrows the `tracks` field of a `midly::Smf`: claims that it holds, track by track and
/// event by event, the events that the file's value lists.
#[verifier::external_body]
fn smf_tracks<'b, 'a>(s: &'b midly::Smf<'a>) -> (r: &'b Vec<Vec<midly::TrackEvent<'a>>>)
    ensures
        r@.len() == smf_value(*s).tracks.len(),
        forall|t: int|
            0 <= t < r@.len() ==> #[trigger] r@[t]@.len() == smf_value(*s).tracks[t].len(),
        forall|t: int, i: int|
            0 <= t < r@.len() && 0 <= i < r@[t]@.len() ==> event_value(#[trigger] r@[t]@[i])
                == smf_value(*s).tracks[t][i],
{
    &s.tracks
}

/// Reads a `midly::TrackEvent` field by field: `delta.as_int()`, and the kind told apart
/// by its variants, each field read with `as_int()`. Claims that each field is within the
/// width of its `midly` type (`u28`, `u4`, `u7`, `u24`), which `as_int` guarantees.
#[verifier::external_body]
fn read_event(e: &midly::TrackEvent<'_>) -> (r: MidiEvent)
    ensures
        r == event_value(*e),
        event_in_range(r),
{
    let kind = match e.kind {
        midly::TrackEventKind::Midi { channel, message: midly::MidiMessage::NoteOn { key, vel } } =>
            EventKind::NoteOn { channel: channel.as_int(), key: key.as_int(), vel: vel.as_int() },
        midly::TrackEventKind::Midi { channel, message: midly::MidiMessage::NoteOff { key, vel } } =>
            EventKind::NoteOff { channel: channel.as_int(), key: key.as_int(), vel: vel.as_int() },
        midly::TrackEventKind::Meta(midly::MetaMessage::Tempo(t)) => EventKind::Tempo(t.as_int()),
        midly::TrackEventKind::Meta(midly::MetaMessage::EndOfTrack) => EventKind::EndOfTrack,
        _ => EventKind::Other,
    };
    MidiEvent { delta: e.delta.as_int(), kind }
}

/// Builds a `midly::TrackEvent` holding a note-on. `u28::from`, `u4::from` and `u7::from`
/// mask off the bits above 28, 4 and 7, as their source shows.
#[verifier::external_body]
fn note_on_event(delta: u32, channel: u8, key: u8, vel: u8) -> (r: midly::TrackEvent<'static>)
    ensures
        event_value(r) == (MidiEvent {
            delta: delta & DELTA_MASK,
            kind: EventKind::NoteOn { channel: channel & CHANNEL_MASK, key: key & DATA_MASK, vel: vel & DATA_MASK },
        }),
{
    let message = midly::MidiMessage::NoteOn { key: key.into(), vel: vel.into() };
    midly::TrackEvent {
        delta: delta.into(),
        kind: midly::TrackEventKind::Midi { channel: channel.into(), message },
    }
}

/// Builds a `midly::TrackEvent` holding a note-off, masked as for a note-on.
#[verifier::external_body]
fn note_off_event(delta: u32, channel: u8, key: u8, vel: u8) -> (r: midly::TrackEvent<'static>)
    ensures
        event_value(r) == (MidiEvent {
            delta: delta & DELTA_MASK,
            kind: EventKind::NoteOff { channel: channel & CHANNEL_MASK, key: key & DATA_MASK, vel: vel & DATA_MASK },
        }),
{
    let message = midly::MidiMessage::NoteOff { key: key.into(), vel: vel.into() };
    midly::TrackEvent {
        delta: delta.into(),
        kind: midly::TrackEventKind::Midi { channel: channel.into(), message },
    }
}

/// Builds the `midly::TrackEvent` that ends a track, its delta masked by `u28::from`.
#[verifier::external_body]
fn end_of_track_event(delta: u32) -> (r: midly::TrackEvent<'static>)
    ensures
        event_value(r) == (MidiEvent { delta: delta & DELTA_MASK, kind: EventKind::EndOfTrack }),
{
    midly::TrackEvent {
        delta: delta.into(),
        kind: midly::TrackEventKind::Meta(midly::MetaMessage::EndOfTrack),
    }
}

/// Writes a `midly::Smf` of the given format, with timing `Metrical(u15::from(ticks))` and
/// the given tracks, into a `Vec<u8>` with `write_std`. `requires` admits notes and ends of
/// tracks only: such an event is fully given by its value, so the bytes are a function of
/// the format, `ticks` and the values. Writing into a `Vec` fails only where there are more
/// than 65535 tracks or a track's chunk would reach 2^32 bytes; each of these events takes at
/// most 7 bytes (a delta of up to 4, a status byte and two data bytes, or `FF 2F 00`), so
/// 613,566,756 of them fit. The bytes are a header chunk `MThd` of length 6 with that
/// metrical timing, whose frame byte is below `0x80`, followed by `MTrk` chunks only, so no
/// header in them has a timecode. An error is shown with `Display`: it is the constant
/// message of the first check that fails, the track count first and then the tracks in
/// order, so it too is a function of the arguments (`encoded_smf`). Also claims that
/// `midly::Smf::parse` reads the written bytes back as the same file, which midly's own
/// tests assert of every file they rewrite.
#[verifier::external_body]
fn encode_smf(format: SmfFormat, ticks: u16, tracks: Vec<Vec<midly::TrackEvent<'static>>>) -> (r: Result<Vec<u8>, String>)
    requires
        forall|t: int, i: int| 0 <= t < tracks@.len() && 0 <= i < tracks@[t]@.len()
            ==> writable_event(event_value(#[trigger] tracks@[t]@[i])),
    ensures
        r is Ok <==> encoded_smf(format, ticks, midly_tracks_value(tracks@)) is Ok,
        match r {
            Ok(b) => encodes_as(format, ticks, midly_tracks_value(tracks@), b@),
            Err(m) => encoding_fails_with(format, ticks, midly_tracks_value(tracks@), m@),
        },
        tracks@.len() <= 65535 && (forall|t: int| 0 <= t < tracks@.len() ==> #[trigger] tracks@[t]@.len() <= 613_566_756)
            ==> r is Ok,
        r matches Ok(b) ==> !timecode_overflows(b@),
        r matches Ok(b) ==> decodes_as(b@, SmfView {
            format,
            ticks: Some(ticks & TICKS_MASK),
            tracks: midly_tracks_value(tracks@),
        }),
{
    let format = match format {
        SmfFormat::SingleTrack => midly::Format::SingleTrack,
        SmfFormat::Parallel => midly::Format::Parallel,
        SmfFormat::Sequential => midly::Format::Sequential,
    };
    let timing = midly::Timing::Metrical(midly::num::u15::from(ticks));
    let smf = midly::Smf { header: midly::Header::new(format, timing), tracks };
    let mut buf: Vec<u8> = Vec::new();
    match smf.write_std(&mut buf) {
        Ok(()) => Ok(buf),
        Err(e) => Err(format!("{}", e)),
    }
}

/// An event with its delta time, channel and data bytes cut to the widths that an SMF event
/// holds them in.
pub open spec fn masked_event(e: MidiEvent) -> MidiEvent {
    MidiEvent {
        delta: e.delta & DELTA_MASK,
        kind: match e.kind {
            EventKind::NoteOn { channel, key, vel } =>
                EventKind::NoteOn { channel: channel & CHANNEL_MASK, key: key & DATA_MASK, vel: vel & DATA_MASK },
            EventKind::NoteOff { channel, key, vel } =>
                EventKind::NoteOff { channel: channel & CHANNEL_MASK, key: key & DATA_MASK, vel: vel & DATA_MASK },
            other => other,
        },
    }
}

/// The events that `write_smf` can write: notes and ends of tracks.
pub open spec fn writable_event(e: MidiEvent) -> bool {
    e.kind is NoteOn || e.kind is NoteOff || e.kind is EndOfTrack
}

/// The tracks as stored: every event masked to its SMF widths.
pub open spec fn masked_tracks(tracks: Seq<Seq<MidiEvent>>) -> Seq<Seq<MidiEvent>> {
    tracks.map_values(|t: Seq<MidiEvent>| t.map_values(|e: MidiEvent| masked_event(e)))
}

impl MidiFile {
    /// Decodes a Standard MIDI File from its bytes. A file with a header chunk that `midly`
    /// reads, the first or a later one, whose timecode frame byte is `0x80` is refused with
    /// the text `midly` gives a first header it cannot read; otherwise the file decodes where
    /// `midly` decodes it, with every event within its SMF widths.
    pub fn parse(bytes: &[u8]) -> (r: Result<MidiFile, ParseError>)
        ensures
            r is Ok <==> !timecode_overflows(bytes@) && decoded_smf(bytes@) is Ok,
            r matches Ok(f) ==> decodes_as(bytes@, f@) && tracks_in_range(f@.tracks),
            r matches Err(e) ==> (!timecode_overflows(bytes@) ==> fails_with(bytes@, e.message@)),
            timecode_overflows(bytes@) ==> (r matches Err(e) && e.message@ == "invalid midi: invalid midi header"@),
    {
        if has_timecode_overflow(bytes) {
            return Err(ParseError { message: "invalid midi: invalid midi header".to_owned() });
        }
        let smf = match parse_smf(bytes) {
            Ok(smf) => smf,
            Err(m) => {
                return Err(ParseError { message: m });
            },
        };
        let ghost v = smf_value(smf);
        let format = smf_format(&smf);
        let ticks = smf_ticks(&smf);
        let src = smf_tracks(&smf);
        let mut tracks: Vec<Vec<MidiEvent>> = Vec::new();
        let mut t: usize = 0;
        while t < src.len()
            invariant
                v == smf_value(smf),
                src@.len() == v.tracks.len(),
                forall|k: int| 0 <= k < src@.len() ==> #[trigger] src@[k]@.len() == v.tracks[k].len(),
                forall|k: int, i: int|
                    0 <= k < src@.len() && 0 <= i < src@[k]@.len() ==> event_value(#[trigger] src@[k]@[i])
                        == v.tracks[k][i],
                t <= src.len(),
                tracks@.len() == t,
                forall|k: int| 0 <= k < t ==> #[trigger] tracks@[k]@ == v.tracks[k],
                forall|k: int, i: int| 0 <= k < t && 0 <= i < v.tracks[k].len() ==> event_in_range(#[trigger] v.tracks[k][i]),
            decreases src.len() - t,
        {
            let events = &src[t];
            let mut out: Vec<MidiEvent> = Vec::new();
            let mut i: usize = 0;
            while i < events.len()
                invariant
                    events@ == src@[t as int]@,
                    events@.len() == v.tracks[t as int].len(),
                    forall|j: int| 0 <= j < events@.len() ==> event_value(#[trigger] events@[j]) == v.tracks[t as int][j],
                    i <= events.len(),
                    out@ == v.tracks[t as int].take(i as int),
                    forall|j: int| 0 <= j < i ==> event_in_range(#[trigger] v.tracks[t as int][j]),
                decreases events.len() - i,
            {
                out.push(read_event(&events[i]));
                assert(out@ =~= v.tracks[t as int].take(i + 1));
                i += 1;
            }
            assert(out@ =~= v.tracks[t as int]);
            tracks.push(out);
            t += 1;
        }
        let f = MidiFile { format, ticks_per_quarter: ticks, tracks };
        assert(f@.tracks =~= v.tracks);
        Ok(f)
    }
}

/// Encodes a Standard MIDI File of the given format, metrical timing `ticks`, and tracks,
/// each event stored with its delta time, channel and data bytes masked to their SMF widths.
/// Writing succeeds where there are at most 65535 tracks of at most 613,566,756 events each,
/// and what is written has no header with a timecode.
pub fn write_smf(format: SmfFormat, ticks: u16, tracks: &Vec<Vec<MidiEvent>>) -> (r: Result<Vec<u8>, ExportError>)
    requires
        forall|t: int, i: int| 0 <= t < tracks@.len() && 0 <= i < tracks@[t]@.len() ==> writable_event(#[trigger] tracks@[t]@[i]),
    ensures
        r is Ok <==> encoded_smf(format, ticks, masked_tracks(tracks_view(tracks@))) is Ok,
        match r {
            Ok(b) => encodes_as(format, ticks, masked_tracks(tracks_view(tracks@)), b@),
            Err(e) => encoding_fails_with(format, ticks, masked_tracks(tracks_view(tracks@)), e.message@),
        },
        tracks@.len() <= 65535 && (forall|t: int| 0 <= t < tracks@.len() ==> #[trigger] tracks@[t]@.len() <= 613_566_756)
            ==> r is Ok,
        r matches Ok(b) ==> !timecode_overflows(b@),
        r matches Ok(b) ==> decodes_as(b@, SmfView {
            format,
            ticks: Some(ticks & TICKS_MASK),
            tracks: masked_tracks(tracks_view(tracks@)),
        }),
{
    let mut out: Vec<Vec<midly::TrackEvent<'static>>> = Vec::new();
    let mut t: usize = 0;
    while t < tracks.len()
        invariant
            forall|k: int, i: int| 0 <= k < tracks@.len() && 0 <= i < tracks@[k]@.len() ==> writable_event(#[trigger] tracks@[k]@[i]),
            t <= tracks.len(),
            out@.len() == t,
            forall|k: int| 0 <= k < t ==> #[trigger] out@[k]@.len() == tracks@[k]@.len(),
            forall|k: int, i: int| 0 <= k < t && 0 <= i < tracks@[k]@.len()
                ==> event_value(#[trigger] out@[k]@[i]) == masked_event(tracks@[k]@[i]),
        decreases tracks.len() - t,
    {
        let events = &tracks[t];
        let mut track: Vec<midly::TrackEvent<'static>> = Vec::new();
        let mut i: usize = 0;
        while i < events.len()
            invariant
                events@ == tracks@[t as int]@,
                forall|j: int| 0 <= j < events@.len() ==> writable_event(#[trigger] events@[j]),
                i <= events.len(),
                track@.len() == i,
                forall|j: int| 0 <= j < i ==> event_value(#[trigger] track@[j]) == masked_event(events@[j]),
            decreases events.len() - i,
        {
            let e = events[i];
            assert(writable_event(events@[i as int]));
            let m = match e.kind {
                EventKind::NoteOn { channel, key, vel } => note_on_event(e.delta, channel, key, vel),
                EventKind::NoteOff { channel, key, vel } => note_off_event(e.delta, channel, key, vel),
                _ => end_of_track_event(e.delta),
            };
            track.push(m);
            i += 1;
        }
        out.push(track);
        t += 1;
    }
    let ghost values = midly_tracks_value(out@);
    assert(values =~= masked_tracks(tracks_view(tracks@))) by {
        assert forall|k: int| 0 <= k < values.len() implies #[trigger] values[k] =~= masked_tracks(tracks_view(tracks@))[k] by {
            assert(tracks_view(tracks@)[k] == tracks@[k]@);
        }
    }
    match encode_smf(format, ticks, out) {
        Ok(b) => Ok(b),
        Err(m) => Err(ExportError { message: m }),
    }
}

} // verus!
