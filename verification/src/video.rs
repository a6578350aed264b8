//! MP4 header inspection and the planning of chunk segmentation.
use vstd::prelude::*;
use crate::edl::{ChunkHash, Position};
use crate::store::ChunkEntry;

verus! {

/// What a probe learns of a video file.
#[derive(Clone, Debug, PartialEq, Eq)]
pub struct VideoMetadata {
    pub duration_ms: u64,
    pub codec: String,
    pub file_size: u64,
    pub timescale: u32,
}

pub open spec fn be32(data: Seq<u8>, i: int) -> int {
    data[i] * 16777216 + data[i + 1] * 65536 + data[i + 2] * 256 + data[i + 3]
}

pub open spec fn be64(data: Seq<u8>, i: int) -> int {
    be32(data, i) * 4294967296 + be32(data, i + 4)
}

/// The four bytes at `i` spell `tag`.
pub open spec fn tag_at(data: Seq<u8>, i: int, tag: Seq<u8>) -> bool {
    0 <= i && i + 4 <= data.len() && data[i] == tag[0] && data[i + 1] == tag[1] && data[i + 2] == tag[2]
        && data[i + 3] == tag[3]
}

/// Start of the first occurrence of `tag`, or -1.
#[verifier::opaque]
pub open spec fn first_tag(data: Seq<u8>, tag: Seq<u8>) -> int {
    if exists|i: int| tag_at(data, i, tag) {
        choose|i: int| tag_at(data, i, tag) && forall|j: int| 0 <= j < i ==> !tag_at(data, j, tag)
    } else {
        -1
    }
}

pub open spec fn has_tag(data: Seq<u8>, tag: Seq<u8>) -> bool {
    exists|i: int| tag_at(data, i, tag)
}

pub open spec fn mvhd_tag() -> Seq<u8> {
    seq![0x6du8, 0x76u8, 0x68u8, 0x64u8]
}

/// Offset of the version byte of the first `mvhd` box, or -1 when there is no such tag.
pub open spec fn mvhd_start(data: Seq<u8>) -> int {
    let p = first_tag(data, mvhd_tag());
    if p < 0 {
        -1
    } else {
        p + 4
    }
}

/// A duration in timescale units, converted to milliseconds (rounded down).
#[verifier::opaque]
pub open spec fn millis(dur: int, ts: int) -> int {
    (dur * 1000) / ts
}

/// The duration in milliseconds and the timescale of an `mvhd` box whose version byte is at `s`.
pub open spec fn mvhd_body_spec(data: Seq<u8>, s: int) -> Option<(int, int)> {
    if s + 20 > data.len() {
        None
    } else if data[s] == 0 {
        let ts = be32(data, s + 12);
        if ts > 0 {
            Some((millis(be32(data, s + 16), ts), ts))
        } else {
            None
        }
    } else if data[s] == 1 && s + 32 <= data.len() {
        let ts = be32(data, s + 20);
        if ts > 0 {
            Some((millis(be64(data, s + 24), ts), ts))
        } else {
            None
        }
    } else {
        None
    }
}

/// The movie duration in milliseconds and the timescale of the first `mvhd` box.
pub open spec fn mvhd_spec(data: Seq<u8>) -> Option<(int, int)> {
    let s = mvhd_start(data);
    if s < 0 {
        None
    } else {
        mvhd_body_spec(data, s)
    }
}

/// A version 1 `mvhd` duration, scaled to milliseconds, fits in 64 bits.
pub open spec fn mvhd_fits(data: Seq<u8>) -> bool {
    let s = mvhd_start(data);
    (s >= 0 && s + 32 <= data.len() && data[s] == 1 && be32(data, s + 20) > 0) ==> be64(data, s + 24)
        * 1000 <= u64::MAX
}

proof fn lemma_first_tag(data: Seq<u8>, tag: Seq<u8>, i: int)
    requires
        tag_at(data, i, tag),
        forall|j: int| 0 <= j < i ==> !tag_at(data, j, tag),
    ensures
        first_tag(data, tag) == i,
{
    reveal(first_tag);
    let w = first_tag(data, tag);
    assert(tag_at(data, w, tag) && forall|j: int| 0 <= j < w ==> !tag_at(data, j, tag));
    if w < i {
        assert(!tag_at(data, w, tag));
    }
    if i < w {
        assert(!tag_at(data, i, tag));
    }
}

fn find_tag(data: &[u8], tag: &[u8; 4]) -> (r: Option<usize>)
    ensures
        match r {
            Some(i) => i == first_tag(data@, tag@) && i + 4 <= data.len() && tag_at(data@, i as int, tag@),
            None => !has_tag(data@, tag@) && first_tag(data@, tag@) == -1,
        },
{
    if data.len() < 4 {
        assert forall|j: int| !tag_at(data@, j, tag@) by {}
        reveal(first_tag);
        return None;
    }
    let mut i: usize = 0;
    while i <= data.len() - 4
        invariant
            data.len() >= 4,
            forall|j: int| 0 <= j < i ==> !tag_at(data@, j, tag@),
        decreases data.len() - i,
    {
        if data[i] == tag[0] && data[i + 1] == tag[1] && data[i + 2] == tag[2] && data[i + 3] == tag[3] {
            proof {
                lemma_first_tag(data@, tag@, i as int);
            }
            return Some(i);
        }
        i = i + 1;
    }
    assert forall|j: int| !tag_at(data@, j, tag@) by {
        if j >= i && tag_at(data@, j, tag@) {
            assert(j + 4 <= data.len());
        }
    }
    reveal(first_tag);
    None
}

fn read_be32(data: &[u8], i: usize) -> (r: u64)
    requires
        i + 4 <= data.len(),
    ensures
        r == be32(data@, i as int),
        r <= u32::MAX,
{
    (data[i] as u64) * 16777216 + (data[i + 1] as u64) * 65536 + (data[i + 2] as u64) * 256 + (data[i + 3] as u64)
}

fn read_be64(data: &[u8], i: usize) -> (r: u64)
    requires
        i + 8 <= data.len(),
    ensures
        r == be64(data@, i as int),
{
    let hi = read_be32(data, i);
    let lo = read_be32(data, i + 4);
    hi * 4294967296 + lo
}

fn scaled_duration(dur: u64, ts: u64) -> (r: u64)
    requires
        ts > 0,
        dur * 1000 <= u64::MAX,
    ensures
        r == millis(dur as int, ts as int),
{
    reveal(millis);
    (dur * 1000) / ts
}

fn parse_mvhd_body(data: &[u8], start: usize) -> (r: Option<(u64, u32)>)
    requires
        (start + 32 <= data.len() && data[start as int] == 1 && be32(data@, start + 20) > 0) ==> be64(
            data@,
            start + 24,
        ) * 1000 <= u64::MAX,
    ensures
        match mvhd_body_spec(data@, start as int) {
            Some((d, ts)) => r matches Some((rd, rt)) && rd == d && rt == ts,
            None => r is None,
        },
{
    if start > data.len() || data.len() - start < 20 {
        return None;
    }
    let version = data[start];
    if version == 0 {
        let ts = read_be32(data, start + 12);
        let dur = read_be32(data, start + 16);
        if ts > 0 {
            let d = scaled_duration(dur, ts);
            return Some((d, ts as u32));
        }
    } else if version == 1 && data.len() - start >= 32 {
        let ts = read_be32(data, start + 20);
        let dur = read_be64(data, start + 24);
        if ts > 0 {
            let d = scaled_duration(dur, ts);
            return Some((d, ts as u32));
        }
    }
    None
}

/// Reads the duration (in milliseconds) and the timescale of the first `mvhd` box.
pub fn parse_mvhd(data: &[u8]) -> (r: Option<(u64, u32)>)
    requires
        mvhd_fits(data@),
    ensures
        match mvhd_spec(data@) {
            Some((d, ts)) => r matches Some((rd, rt)) && rd == d && rt == ts,
            None => r is None,
        },
{
    let tag: [u8; 4] = [0x6d, 0x76, 0x68, 0x64];
    assert(tag@ =~= mvhd_tag());
    let pos = match find_tag(data, &tag) {
        Some(p) => p,
        None => return None,
    };
    parse_mvhd_body(data, pos + 4)
}

pub open spec fn codec_tag(a: u8, b: u8, c: u8, d: u8) -> Seq<u8> {
    seq![a, b, c, d]
}

/// The codec named by the sample entries of a `moov` box.
pub open spec fn codec_spec(data: Seq<u8>) -> Option<Seq<char>> {
    if has_tag(data, codec_tag(0x61, 0x76, 0x63, 0x31)) || has_tag(data, codec_tag(0x61, 0x76, 0x63, 0x33)) {
        Some("h264"@)
    } else if has_tag(data, codec_tag(0x68, 0x76, 0x63, 0x31)) || has_tag(data, codec_tag(0x68, 0x65, 0x76, 0x31)) {
        Some("hevc"@)
    } else if has_tag(data, codec_tag(0x61, 0x76, 0x30, 0x31)) {
        Some("av1"@)
    } else if has_tag(data, codec_tag(0x76, 0x70, 0x30, 0x39)) {
        Some("vp9"@)
    } else {
        None
    }
}

fn contains_tag(data: &[u8], a: u8, b: u8, c: u8, d: u8) -> (r: bool)
    ensures
        r == has_tag(data@, codec_tag(a, b, c, d)),
{
    let tag: [u8; 4] = [a, b, c, d];
    assert(tag@ =~= codec_tag(a, b, c, d));
    find_tag(data, &tag).is_some()
}

/// Names the codec of a `moov` box: h264 (avc1, avc3), hevc (hvc1, hev1), av1 (av01), vp9 (vp09).
pub fn find_codec_in_moov(data: &[u8]) -> (r: Option<String>)
    ensures
        match codec_spec(data@) {
            Some(c) => r matches Some(s) && s@ == c,
            None => r is None,
        },
{
    if contains_tag(data, 0x61, 0x76, 0x63, 0x31) || contains_tag(data, 0x61, 0x76, 0x63, 0x33) {
        Some("h264".to_string())
    } else if contains_tag(data, 0x68, 0x76, 0x63, 0x31) || contains_tag(data, 0x68, 0x65, 0x76, 0x31) {
        Some("hevc".to_string())
    } else if contains_tag(data, 0x61, 0x76, 0x30, 0x31) {
        Some("av1".to_string())
    } else if contains_tag(data, 0x76, 0x70, 0x30, 0x39) {
        Some("vp9".to_string())
    } else {
        None
    }
}

pub open spec fn moov_tag() -> Seq<u8> {
    seq![0x6du8, 0x6fu8, 0x6fu8, 0x76u8]
}

/// The most of a `moov` payload that a probe reads (2 MiB).
pub const MAX_MOOV_READ: u64 = 2097152;

/// What to do after reading the 8-byte header of a top-level box.
#[derive(Clone, Copy, Debug, PartialEq, Eq, Structural)]
pub enum BoxAction {
    /// Read this many bytes of the `moov` payload, inspect them, and stop.
    ReadMoov(u64),
    /// Skip this many bytes to the next box.
    Skip(u64),
    /// Stop scanning.
    Stop,
}

pub open spec fn box_action_spec(header: Seq<u8>) -> BoxAction {
    let size = be32(header, 0);
    if tag_at(header, 4, moov_tag()) {
        let payload = if size >= 8 { size - 8 } else { 0 };
        BoxAction::ReadMoov(if payload < MAX_MOOV_READ { payload as u64 } else { MAX_MOOV_READ })
    } else if size > 8 {
        BoxAction::Skip((size - 8) as u64)
    } else {
        BoxAction::Stop
    }
}

/// Decides, from a box header (size, then four-character code), how the scan goes on.
pub fn next_box_action(header: &[u8; 8]) -> (r: BoxAction)
    ensures
        r == box_action_spec(header@),
{
    let size = read_be32(header.as_slice(), 0);
    if header[4] == 0x6d && header[5] == 0x6f && header[6] == 0x6f && header[7] == 0x76 {
        let payload: u64 = if size >= 8 { size - 8 } else { 0 };
        let n: u64 = if payload < MAX_MOOV_READ { payload } else { MAX_MOOV_READ };
        BoxAction::ReadMoov(n)
    } else if size > 8 {
        BoxAction::Skip(size - 8)
    } else {
        BoxAction::Stop
    }
}

/// Whether `parse_mvhd` can scale the duration of these bytes without overflow.
pub fn mvhd_duration_fits(data: &[u8]) -> (r: bool)
    ensures
        r == mvhd_fits(data@),
{
    let tag: [u8; 4] = [0x6d, 0x76, 0x68, 0x64];
    assert(tag@ =~= mvhd_tag());
    match find_tag(data, &tag) {
        None => true,
        Some(pos) => {
            let s = pos + 4;
            if s > data.len() || data.len() - s < 32 || data[s] != 1 {
                return true;
            }
            let ts = read_be32(data, s + 20);
            if ts == 0 {
                return true;
            }
            let dur = read_be64(data, s + 24);
            assert(dur <= 18446744073709551 <==> dur * 1000 <= 18446744073709551615) by (nonlinear_arith);
            dur <= 18446744073709551
        },
    }
}

/// Duration given to a file whose header names none: one second per 200 KiB, at least one second.
pub open spec fn estimated_duration(file_size: u64) -> int {
    let blocks = file_size / 204800;
    (if blocks >= 1 { blocks as int } else { 1 }) * 1000
}

/// Assembles what a probe learnt: from the `moov` payload if one was read, else defaults
/// (timescale 1000, codec h264, duration estimated from the size).
pub fn metadata_from_probe(moov: Option<&[u8]>, file_size: u64) -> (m: VideoMetadata)
    requires
        moov matches Some(d) ==> mvhd_fits(d@),
    ensures
        ({
            let parsed = match moov {
                Some(d) => mvhd_spec(d@),
                None => None,
            };
            let dur: int = match parsed {
                Some((d, _)) => d,
                None => 0,
            };
            &&& m.duration_ms == (if dur == 0 { estimated_duration(file_size) } else { dur })
            &&& m.timescale == (match parsed {
                Some((_, ts)) => ts,
                None => 1000,
            })
            &&& m.codec@ == (match moov {
                Some(d) => match codec_spec(d@) {
                    Some(c) => c,
                    None => "h264"@,
                },
                None => "h264"@,
            })
            &&& m.file_size == file_size
        }),
{
    let mut duration_ms: u64 = 0;
    let mut timescale: u32 = 1000;
    let mut codec = "h264".to_string();
    match moov {
        Some(data) => {
            match parse_mvhd(data) {
                Some((d, ts)) => {
                    duration_ms = d;
                    timescale = ts;
                },
                None => {},
            }
            match find_codec_in_moov(data) {
                Some(c) => {
                    codec = c;
                },
                None => {},
            }
        },
        None => {},
    }
    if duration_ms == 0 {
        let blocks = file_size / 204800;
        let at_least_one: u64 = if blocks >= 1 { blocks } else { 1 };
        duration_ms = at_least_one * 1000;
    }
    VideoMetadata { duration_ms, codec, file_size, timescale }
}

/// The description used when a file cannot be probed.
pub fn fallback_metadata() -> (m: VideoMetadata)
    ensures
        m.duration_ms == 10000,
        m.codec@ == "h264"@,
        m.file_size == 0,
        m.timescale == 1000,
{
    VideoMetadata { duration_ms: 10000, codec: "h264".to_string(), file_size: 0, timescale: 1000 }
}

/// The entry for a file stored as a single chunk at position 0.
pub fn whole_file_entry(hash: ChunkHash, meta: VideoMetadata) -> (e: ChunkEntry)
    ensures
        e == (ChunkEntry {
            hash,
            duration_ms: meta.duration_ms,
            codec: meta.codec,
            source_offset: 0,
            is_keyframe: true,
            keyframe_offset_ms: 0,
            byte_size: meta.file_size,
        }),
{
    ChunkEntry::new(hash, meta.duration_ms, meta.codec, 0, true, 0, meta.file_size)
}

pub open spec fn ceil_div(a: int, b: int) -> int {
    if a % b == 0 { a / b } else { a / b + 1 }
}

/// Number of chunks and duration of each when cutting a file into chunks of
/// `chunk_size_bytes`: at least one chunk, each at least 1 ms long.
pub fn segment_plan(total_len: u64, chunk_size_bytes: usize, duration_ms: u64) -> (r: (usize, u64))
    requires
        chunk_size_bytes > 0,
    ensures
        ({
            let n = ceil_div(total_len as usize as int, chunk_size_bytes as int);
            let count: int = if n >= 1 { n } else { 1 };
            let per = duration_ms / (count as u64);
            &&& r.0 == count
            &&& r.1 == (if per >= 1 { per } else { 1 })
        }),
{
    let len = total_len as usize;
    let q = len / chunk_size_bytes;
    if len % chunk_size_bytes != 0 {
        assert(q < len) by (nonlinear_arith)
            requires
                q == len / chunk_size_bytes,
                len % chunk_size_bytes != 0,
                chunk_size_bytes > 0,
        ;
    }
    let n = if len % chunk_size_bytes == 0 { q } else { q + 1 };
    let count: usize = if n >= 1 { n } else { 1 };
    let per = duration_ms / (count as u64);
    (count, if per >= 1 { per } else { 1 })
}

/// The position and entry of the `chunk_idx`-th chunk of a segmented file.
pub fn segment_entry(
    chunk_idx: u64,
    duration_per_chunk_ms: u64,
    hash: ChunkHash,
    codec: String,
    offset: u64,
    byte_size: u64,
) -> (r: (Position, ChunkEntry))
    requires
        chunk_idx * duration_per_chunk_ms <= u64::MAX,
    ensures
        r.0 == chunk_idx * duration_per_chunk_ms,
        r.1 == (ChunkEntry {
            hash,
            duration_ms: duration_per_chunk_ms,
            codec,
            source_offset: offset,
            is_keyframe: chunk_idx == 0,
            keyframe_offset_ms: 0,
            byte_size,
        }),
{
    let pos = chunk_idx * duration_per_chunk_ms;
    (pos, ChunkEntry::new(hash, duration_per_chunk_ms, codec, offset, chunk_idx == 0, 0, byte_size))
}

} // verus!
