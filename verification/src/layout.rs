//! Where the chunks of a Standard MIDI File lie in its bytes, as far as finding its header
//! chunks: a plain file starts with its header chunk; an RMID file wraps the SMF bytes in the
//! `data` chunk of a RIFF `RMID` form. `midly` reads every chunk in turn, the first header
//! and any later one.

use vstd::prelude::*;

verus! {

/// The big-endian 32-bit integer at `s[i..i + 4]`.
pub open spec fn be32(s: Seq<u8>, i: int) -> int {
    s[i] as int * 0x1000000 + s[i + 1] as int * 0x10000 + s[i + 2] as int * 0x100 + s[i + 3] as int
}

/// The little-endian 32-bit integer at `s[i..i + 4]`.
pub open spec fn le32(s: Seq<u8>, i: int) -> int {
    s[i] as int + s[i + 1] as int * 0x100 + s[i + 2] as int * 0x10000 + s[i + 3] as int * 0x1000000
}

/// The four bytes at `s[i..i + 4]` are `a b c d`.
pub open spec fn id_at(s: Seq<u8>, i: int, a: u8, b: u8, c: u8, d: u8) -> bool {
    s[i] == a && s[i + 1] == b && s[i + 2] == c && s[i + 3] == d
}

/// Where the data of a chunk that starts at `pos` and declares `len` bytes ends, within
/// `s[..end]`: after `len` bytes, or at `end` where fewer are left.
pub open spec fn chunk_end(pos: int, end: int, len: int) -> int {
    if len <= end - (pos + 8) { pos + 8 + len } else { end }
}

/// The data of the first RIFF chunk named `data` from `pos` on, within `s[..end]`. RIFF
/// chunk lengths are little-endian, and a chunk of odd length is followed by a pad byte.
pub open spec fn riff_data_chunk(s: Seq<u8>, pos: int, end: int) -> Option<(int, int)>
    decreases end - pos,
{
    if end - pos < 8 || pos < 0 {
        None
    } else {
        let de = chunk_end(pos, end, le32(s, pos + 4));
        let next = if le32(s, pos + 4) % 2 == 1 && de < end { de + 1 } else { de };
        if id_at(s, pos, 0x64, 0x61, 0x74, 0x61) {
            Some((pos + 8, de))
        } else {
            riff_data_chunk(s, next, end)
        }
    }
}

/// Where the SMF bytes of a file lie: the whole of a plain file (starting `MThd`), or the
/// `data` chunk of an RMID file (starting `RIFF`, form type `RMID`).
pub open spec fn smf_body(s: Seq<u8>) -> Option<(int, int)> {
    if s.len() >= 4 && id_at(s, 0, 0x4d, 0x54, 0x68, 0x64) {
        Some((0, s.len() as int))
    } else if s.len() >= 8 && id_at(s, 0, 0x52, 0x49, 0x46, 0x46) {
        let de = chunk_end(0, s.len() as int, le32(s, 4));
        if de - 8 >= 4 && id_at(s, 8, 0x52, 0x4d, 0x49, 0x44) {
            riff_data_chunk(s, 12, de)
        } else {
            None
        }
    } else {
        None
    }
}

/// A header chunk's data, in `s[ds..de]`, declares a format (0, 1 or 2) and a timecode
/// division whose frame byte is `0x80`: the one header on which `midly` negates `-128` as an
/// `i8`.
pub open spec fn header_overflows(s: Seq<u8>, ds: int, de: int) -> bool {
    de - ds >= 6 && s[ds] == 0 && s[ds + 1] <= 2 && s[ds + 4] == 0x80
}

/// A header chunk's data, in `s[ds..de]`, that `midly` reads without error: at least six
/// bytes, a format of 0, 1 or 2, and metrical timing or a timecode of -24, -25, -29 or -30
/// frames per second.
pub open spec fn header_reads(s: Seq<u8>, ds: int, de: int) -> bool {
    &&& de - ds >= 6
    &&& s[ds] == 0
    &&& s[ds + 1] <= 2
    &&& (s[ds + 4] < 0x80 || s[ds + 4] == 0xe8 || s[ds + 4] == 0xe7 || s[ds + 4] == 0xe3 || s[ds + 4] == 0xe2)
}

/// Among the chunks from `pos` on, within `s[..end]`, that `midly` reads one after the other
/// (big-endian lengths), some header chunk overflows. `midly` skips chunks of other names,
/// stops where fewer than 8 bytes are left, after a header chunk it cannot read, and at a
/// track chunk met before any header (`after_header` says whether one was read).
pub open spec fn overflowing_header_from(s: Seq<u8>, pos: int, end: int, after_header: bool) -> bool
    decreases end - pos,
{
    if end - pos < 8 || pos < 0 {
        false
    } else {
        let de = chunk_end(pos, end, be32(s, pos + 4));
        if id_at(s, pos, 0x4d, 0x54, 0x68, 0x64) {
            if header_overflows(s, pos + 8, de) {
                true
            } else if !header_reads(s, pos + 8, de) {
                false
            } else {
                overflowing_header_from(s, de, end, true)
            }
        } else if id_at(s, pos, 0x4d, 0x54, 0x72, 0x6b) && !after_header {
            false
        } else {
            overflowing_header_from(s, de, end, after_header)
        }
    }
}

/// Some header chunk that `midly` reads, the first one or a later one, would make it negate
/// `-128`.
pub open spec fn timecode_overflows(s: Seq<u8>) -> bool {
    match smf_body(s) {
        Some((a, e)) => overflowing_header_from(s, a, e, false),
        None => false,
    }
}

fn be32_at(b: &[u8], i: usize) -> (r: u64)
    requires
        i + 4 <= b@.len(),
    ensures
        r == be32(b@, i as int),
{
    (b[i] as u64) * 0x1000000 + (b[i + 1] as u64) * 0x10000 + (b[i + 2] as u64) * 0x100 + (b[i + 3] as u64)
}

fn le32_at(b: &[u8], i: usize) -> (r: u64)
    requires
        i + 4 <= b@.len(),
    ensures
        r == le32(b@, i as int),
{
    (b[i] as u64) + (b[i + 1] as u64) * 0x100 + (b[i + 2] as u64) * 0x10000 + (b[i + 3] as u64) * 0x1000000
}

fn id_is(b: &[u8], i: usize, a: u8, c1: u8, c2: u8, c3: u8) -> (r: bool)
    requires
        i + 4 <= b@.len(),
    ensures
        r == id_at(b@, i as int, a, c1, c2, c3),
{
    b[i] == a && b[i + 1] == c1 && b[i + 2] == c2 && b[i + 3] == c3
}

fn chunk_end_at(pos: usize, end: usize, len: u64) -> (r: usize)
    requires
        pos + 8 <= end,
    ensures
        r == chunk_end(pos as int, end as int, len as int),
        pos + 8 <= r <= end,
{
    if len <= (end - (pos + 8)) as u64 {
        pos + 8 + len as usize
    } else {
        end
    }
}

fn find_riff_data(b: &[u8], start: usize, end: usize) -> (r: Option<(usize, usize)>)
    requires
        start <= end <= b@.len(),
    ensures
        match r {
            Some((x, y)) => riff_data_chunk(b@, start as int, end as int) == Some((x as int, y as int)) && x <= y <= end,
            None => riff_data_chunk(b@, start as int, end as int) is None,
        },
{
    let mut pos = start;
    loop
        invariant
            start <= pos <= end <= b@.len(),
            riff_data_chunk(b@, pos as int, end as int) == riff_data_chunk(b@, start as int, end as int),
        decreases end - pos,
    {
        if end - pos < 8 {
            return None;
        }
        let len = le32_at(b, pos + 4);
        let de = chunk_end_at(pos, end, len);
        if id_is(b, pos, 0x64, 0x61, 0x74, 0x61) {
            return Some((pos + 8, de));
        }
        pos = if len % 2 == 1 && de < end { de + 1 } else { de };
    }
}

fn find_overflowing_header(b: &[u8], start: usize, end: usize) -> (r: bool)
    requires
        start <= end <= b@.len(),
    ensures
        r == overflowing_header_from(b@, start as int, end as int, false),
{
    let mut pos = start;
    let mut after_header = false;
    loop
        invariant
            start <= pos <= end <= b@.len(),
            overflowing_header_from(b@, pos as int, end as int, after_header)
                == overflowing_header_from(b@, start as int, end as int, false),
        decreases end - pos,
    {
        if end - pos < 8 {
            return false;
        }
        let len = be32_at(b, pos + 4);
        let de = chunk_end_at(pos, end, len);
        if id_is(b, pos, 0x4d, 0x54, 0x68, 0x64) {
            let ds = pos + 8;
            if de - ds >= 6 && b[ds] == 0 && b[ds + 1] <= 2 {
                let frame = b[ds + 4];
                if frame == 0x80 {
                    return true;
                }
                if !(frame < 0x80 || frame == 0xe8 || frame == 0xe7 || frame == 0xe3 || frame == 0xe2) {
                    return false;
                }
                after_header = true;
            } else {
                return false;
            }
        } else if id_is(b, pos, 0x4d, 0x54, 0x72, 0x6b) && !after_header {
            return false;
        }
        pos = de;
    }
}

/// Whether a header of the file would make `midly` negate `-128` (see `timecode_overflows`).
pub fn has_timecode_overflow(b: &[u8]) -> (r: bool)
    ensures
        r == timecode_overflows(b@),
{
    let n = b.len();
    let body = if n >= 4 && id_is(b, 0, 0x4d, 0x54, 0x68, 0x64) {
        Some((0usize, n))
    } else if n >= 8 && id_is(b, 0, 0x52, 0x49, 0x46, 0x46) {
        let de = chunk_end_at(0, n, le32_at(b, 4));
        if de - 8 >= 4 && id_is(b, 8, 0x52, 0x4d, 0x49, 0x44) {
            find_riff_data(b, 12, de)
        } else {
            None
        }
    } else {
        None
    };
    assert(match body {
        Some((x, y)) => smf_body(b@) == Some((x as int, y as int)) && x <= y <= n,
        None => smf_body(b@) is None,
    });
    match body {
        Some((a, e)) => find_overflowing_header(b, a, e),
        None => false,
    }
}

} // verus!
