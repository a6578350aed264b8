//! Byte framing of the peer protocol: length-prefixed TCP frames, the
//! operation gossip prefix and the classification of incoming messages.
use vstd::prelude::*;
use crate::error::PeerError;
use crate::video::be32;

verus! {

/// Largest payload a TCP frame may carry (50 MiB).
pub const MAX_TCP_MESSAGE_SIZE: usize = 52428800;

/// The 4-byte big-endian length header of a frame carrying `len` bytes.
pub fn frame_header(len: usize) -> (r: Result<[u8; 4], PeerError>)
    ensures
        len > MAX_TCP_MESSAGE_SIZE ==> (r matches Err(PeerError::PayloadTooLarge { size, max })
            && size == len && max == MAX_TCP_MESSAGE_SIZE),
        len <= MAX_TCP_MESSAGE_SIZE ==> (r matches Ok(h) && be32(h@, 0) == len),
{
    if len > MAX_TCP_MESSAGE_SIZE {
        return Err(PeerError::PayloadTooLarge { size: len, max: MAX_TCP_MESSAGE_SIZE });
    }
    let n = len as u32;
    let b0 = (n / 16777216) as u8;
    let b1 = ((n / 65536) % 256) as u8;
    let b2 = ((n / 256) % 256) as u8;
    let b3 = (n % 256) as u8;
    let h: [u8; 4] = [b0, b1, b2, b3];
    assert(be32(h@, 0) == len);
    Ok(h)
}

/// The payload length announced by a frame header.
pub fn frame_length(header: &[u8; 4]) -> (r: Result<usize, PeerError>)
    ensures
        be32(header@, 0) > MAX_TCP_MESSAGE_SIZE ==> (r matches Err(PeerError::PayloadTooLarge {
            size,
            max,
        }) && size == be32(header@, 0) && max == MAX_TCP_MESSAGE_SIZE),
        be32(header@, 0) <= MAX_TCP_MESSAGE_SIZE ==> r == Ok::<usize, PeerError>(be32(header@, 0) as usize),
{
    let len: u64 = (header[0] as u64) * 16777216 + (header[1] as u64) * 65536 + (header[2] as u64) * 256
        + (header[3] as u64);
    if len > MAX_TCP_MESSAGE_SIZE as u64 {
        return Err(PeerError::PayloadTooLarge { size: len as usize, max: MAX_TCP_MESSAGE_SIZE });
    }
    Ok(len as usize)
}

/// A frame header read back gives the length it was made for.
pub proof fn lemma_frame_roundtrip(len: usize, h: [u8; 4])
    requires
        len <= MAX_TCP_MESSAGE_SIZE,
        be32(h@, 0) == len,
    ensures
        be32(h@, 0) <= MAX_TCP_MESSAGE_SIZE,
        be32(h@, 0) as usize == len,
{
}

/// `prefix` opens `bytes`.
pub open spec fn starts_with(bytes: Seq<u8>, prefix: Seq<u8>) -> bool {
    prefix.len() <= bytes.len() && bytes.subrange(0, prefix.len() as int) == prefix
}

fn has_prefix(bytes: &[u8], prefix: &[u8]) -> (r: bool)
    ensures
        r == starts_with(bytes@, prefix@),
{
    if prefix.len() > bytes.len() {
        return false;
    }
    let mut i: usize = 0;
    while i < prefix.len()
        invariant
            prefix.len() <= bytes.len(),
            i <= prefix.len(),
            forall|k: int| 0 <= k < i ==> bytes@[k] == prefix@[k],
        decreases prefix.len() - i,
    {
        if bytes[i] != prefix[i] {
            assert(bytes@.subrange(0, prefix.len() as int)[i as int] != prefix@[i as int]);
            return false;
        }
        i = i + 1;
    }
    assert(bytes@.subrange(0, prefix.len() as int) =~= prefix@);
    true
}

fn tail_from(bytes: &[u8], start: usize) -> (r: Vec<u8>)
    requires
        start <= bytes.len(),
    ensures
        r@ == bytes@.subrange(start as int, bytes.len() as int),
{
    let mut r: Vec<u8> = Vec::new();
    let mut i: usize = start;
    while i < bytes.len()
        invariant
            start <= i <= bytes.len(),
            r@ == bytes@.subrange(start as int, i as int),
        decreases bytes.len() - i,
    {
        r.push(bytes[i]);
        i = i + 1;
        assert(r@ =~= bytes@.subrange(start as int, i as int));
    }
    r
}

/// The prefix that marks a gossiped edit operation: `SKEIN_OP:`.
pub open spec fn op_magic() -> Seq<u8> {
    seq![0x53u8, 0x4bu8, 0x45u8, 0x49u8, 0x4eu8, 0x5fu8, 0x4fu8, 0x50u8, 0x3au8]
}

fn op_magic_bytes() -> (r: [u8; 9])
    ensures
        r@ == op_magic(),
{
    let r: [u8; 9] = [0x53, 0x4b, 0x45, 0x49, 0x4e, 0x5f, 0x4f, 0x50, 0x3a];
    assert(r@ =~= op_magic());
    r
}

/// The gossip payload of an encoded operation: the marker, then the encoding.
pub fn frame_op(serialized: &[u8]) -> (r: Vec<u8>)
    ensures
        r@ == op_magic() + serialized@,
{
    let magic = op_magic_bytes();
    let mut r: Vec<u8> = Vec::new();
    let mut i: usize = 0;
    while i < 9
        invariant
            i <= 9,
            magic@ == op_magic(),
            r@ == op_magic().take(i as int),
        decreases 9 - i,
    {
        r.push(magic[i]);
        i = i + 1;
        assert(r@ =~= op_magic().take(i as int));
    }
    let mut j: usize = 0;
    while j < serialized.len()
        invariant
            j <= serialized.len(),
            r@ == op_magic() + serialized@.take(j as int),
        decreases serialized.len() - j,
    {
        r.push(serialized[j]);
        j = j + 1;
        assert(r@ =~= op_magic() + serialized@.take(j as int));
    }
    assert(serialized@.take(serialized.len() as int) =~= serialized@);
    r
}

/// The encoded operation inside a gossip payload, if the payload carries the marker.
pub fn unframe_op(bytes: &[u8]) -> (r: Option<Vec<u8>>)
    ensures
        starts_with(bytes@, op_magic()) ==> (r matches Some(v) && v@ == bytes@.subrange(9, bytes.len() as int)),
        !starts_with(bytes@, op_magic()) ==> r is None,
{
    let magic = op_magic_bytes();
    if has_prefix(bytes, magic.as_slice()) {
        Some(tail_from(bytes, 9))
    } else {
        None
    }
}

/// Unframing a framed operation gives the encoding back.
pub proof fn lemma_op_frame_roundtrip(serialized: Seq<u8>)
    ensures
        starts_with(op_magic() + serialized, op_magic()),
        (op_magic() + serialized).subrange(9, (op_magic() + serialized).len() as int) == serialized,
{
    assert((op_magic() + serialized).subrange(0, 9) =~= op_magic());
    assert((op_magic() + serialized).subrange(9, (op_magic() + serialized).len() as int) =~= serialized);
}

/// Kinds of message a peer sends over an open connection.
#[derive(Clone, Debug, PartialEq, Eq)]
pub enum PeerMessage {
    /// `SKEIN_CHUNK_REQ:` followed by the hash of the wanted chunk.
    ChunkRequest(Vec<u8>),
    /// `SKEIN_OP_SYNC:` followed by the sender's unmerged operations.
    OpSync(Vec<u8>),
    /// `SKEIN_OP_REPLY:` followed by the answering peer's operations.
    OpReply(Vec<u8>),
    /// `SKEIN_FILE:` followed by `hash:filename:size`.
    File(Vec<u8>),
    /// Anything else: a chat line.
    Text(Vec<u8>),
}

/// The bytes of `SKEIN_CHUNK_REQ:`.
pub open spec fn chunk_request_prefix() -> Seq<u8> {
    seq![0x53u8, 0x4bu8, 0x45u8, 0x49u8, 0x4eu8, 0x5fu8, 0x43u8, 0x48u8, 0x55u8, 0x4eu8, 0x4bu8, 0x5fu8, 0x52u8, 0x45u8, 0x51u8, 0x3au8]
}

fn chunk_request_prefix_bytes() -> (r: [u8; 16])
    ensures
        r@ == chunk_request_prefix(),
{
    let r: [u8; 16] = [0x53, 0x4b, 0x45, 0x49, 0x4e, 0x5f, 0x43, 0x48, 0x55, 0x4e, 0x4b, 0x5f, 0x52, 0x45, 0x51, 0x3a];
    assert(r@ =~= chunk_request_prefix());
    r
}

/// The bytes of `SKEIN_OP_SYNC:`.
pub open spec fn op_sync_prefix() -> Seq<u8> {
    seq![0x53u8, 0x4bu8, 0x45u8, 0x49u8, 0x4eu8, 0x5fu8, 0x4fu8, 0x50u8, 0x5fu8, 0x53u8, 0x59u8, 0x4eu8, 0x43u8, 0x3au8]
}

fn op_sync_prefix_bytes() -> (r: [u8; 14])
    ensures
        r@ == op_sync_prefix(),
{
    let r: [u8; 14] = [0x53, 0x4b, 0x45, 0x49, 0x4e, 0x5f, 0x4f, 0x50, 0x5f, 0x53, 0x59, 0x4e, 0x43, 0x3a];
    assert(r@ =~= op_sync_prefix());
    r
}

/// The bytes of `SKEIN_OP_REPLY:`.
pub open spec fn op_reply_prefix() -> Seq<u8> {
    seq![0x53u8, 0x4bu8, 0x45u8, 0x49u8, 0x4eu8, 0x5fu8, 0x4fu8, 0x50u8, 0x5fu8, 0x52u8, 0x45u8, 0x50u8, 0x4cu8, 0x59u8, 0x3au8]
}

fn op_reply_prefix_bytes() -> (r: [u8; 15])
    ensures
        r@ == op_reply_prefix(),
{
    let r: [u8; 15] = [0x53, 0x4b, 0x45, 0x49, 0x4e, 0x5f, 0x4f, 0x50, 0x5f, 0x52, 0x45, 0x50, 0x4c, 0x59, 0x3a];
    assert(r@ =~= op_reply_prefix());
    r
}

/// The bytes of `SKEIN_FILE:`.
pub open spec fn file_prefix() -> Seq<u8> {
    seq![0x53u8, 0x4bu8, 0x45u8, 0x49u8, 0x4eu8, 0x5fu8, 0x46u8, 0x49u8, 0x4cu8, 0x45u8, 0x3au8]
}

fn file_prefix_bytes() -> (r: [u8; 11])
    ensures
        r@ == file_prefix(),
{
    let r: [u8; 11] = [0x53, 0x4b, 0x45, 0x49, 0x4e, 0x5f, 0x46, 0x49, 0x4c, 0x45, 0x3a];
    assert(r@ =~= file_prefix());
    r
}

/// Classification by prefix, the payload being what follows the prefix.
pub open spec fn classify_spec(bytes: Seq<u8>) -> PeerMessageView {
    if starts_with(bytes, chunk_request_prefix()) {
        PeerMessageView::ChunkRequest(bytes.subrange(16, bytes.len() as int))
    } else if starts_with(bytes, op_sync_prefix()) {
        PeerMessageView::OpSync(bytes.subrange(14, bytes.len() as int))
    } else if starts_with(bytes, op_reply_prefix()) {
        PeerMessageView::OpReply(bytes.subrange(15, bytes.len() as int))
    } else if starts_with(bytes, file_prefix()) {
        PeerMessageView::File(bytes.subrange(11, bytes.len() as int))
    } else {
        PeerMessageView::Text(bytes)
    }
}

/// A message as seen by the specifications.
pub enum PeerMessageView {
    ChunkRequest(Seq<u8>),
    OpSync(Seq<u8>),
    OpReply(Seq<u8>),
    File(Seq<u8>),
    Text(Seq<u8>),
}

impl View for PeerMessage {
    type V = PeerMessageView;

    open spec fn view(&self) -> PeerMessageView {
        match self {
            PeerMessage::ChunkRequest(p) => PeerMessageView::ChunkRequest(p@),
            PeerMessage::OpSync(p) => PeerMessageView::OpSync(p@),
            PeerMessage::OpReply(p) => PeerMessageView::OpReply(p@),
            PeerMessage::File(p) => PeerMessageView::File(p@),
            PeerMessage::Text(p) => PeerMessageView::Text(p@),
        }
    }
}

/// Sorts an incoming message by its prefix.
pub fn classify_message(bytes: &[u8]) -> (r: PeerMessage)
    ensures
        r@ == classify_spec(bytes@),
{
    let p = chunk_request_prefix_bytes();
    if has_prefix(bytes, p.as_slice()) {
        return PeerMessage::ChunkRequest(tail_from(bytes, 16));
    }
    let p = op_sync_prefix_bytes();
    if has_prefix(bytes, p.as_slice()) {
        return PeerMessage::OpSync(tail_from(bytes, 14));
    }
    let p = op_reply_prefix_bytes();
    if has_prefix(bytes, p.as_slice()) {
        return PeerMessage::OpReply(tail_from(bytes, 15));
    }
    let p = file_prefix_bytes();
    if has_prefix(bytes, p.as_slice()) {
        return PeerMessage::File(tail_from(bytes, 11));
    }
    let whole = tail_from(bytes, 0);
    assert(bytes@.subrange(0, bytes.len() as int) =~= bytes@);
    PeerMessage::Text(whole)
}

/// The `k`-th field of `bytes` split at `:` (fields counted from 0), if there are that many.
pub open spec fn field_bounds_ok(bytes: Seq<u8>, start: int, end: int) -> bool {
    0 <= start <= end <= bytes.len() && (end == bytes.len() || bytes[end] == 0x3a) && forall|i: int|
        start <= i < end ==> bytes[i] != 0x3a
}

/// Splits `bytes` at every `:`.
pub open spec fn split_colon(bytes: Seq<u8>) -> Seq<Seq<u8>>
    decreases bytes.len(),
{
    if bytes.len() == 0 {
        seq![Seq::empty()]
    } else {
        let rest = split_colon(bytes.drop_last());
        if bytes.last() == 0x3a {
            rest.push(Seq::empty())
        } else {
            rest.update(rest.len() - 1, rest.last().push(bytes.last()))
        }
    }
}

proof fn lemma_split_colon_nonempty(bytes: Seq<u8>)
    ensures
        split_colon(bytes).len() >= 1,
    decreases bytes.len(),
{
    if bytes.len() > 0 {
        lemma_split_colon_nonempty(bytes.drop_last());
    }
}

/// The fields of `bytes` separated by `:`, as `str::split(':')` gives them.
pub fn split_fields(bytes: &[u8]) -> (r: Vec<Vec<u8>>)
    ensures
        r@.len() == split_colon(bytes@).len(),
        forall|k: int| 0 <= k < r@.len() ==> (#[trigger] r@[k])@ == split_colon(bytes@)[k],
{
    let mut done: Vec<Vec<u8>> = Vec::new();
    let mut cur: Vec<u8> = Vec::new();
    let mut i: usize = 0;
    while i < bytes.len()
        invariant
            i <= bytes.len(),
            split_colon(bytes@.take(i as int)).len() == done@.len() + 1,
            forall|k: int| 0 <= k < done@.len() ==> (#[trigger] done@[k])@ == split_colon(bytes@.take(i as int))[k],
            cur@ == split_colon(bytes@.take(i as int)).last(),
        decreases bytes.len() - i,
    {
        proof {
            assert(bytes@.take(i + 1).drop_last() =~= bytes@.take(i as int));
            lemma_split_colon_nonempty(bytes@.take(i as int));
        }
        if bytes[i] == 0x3a {
            let finished = cur;
            done.push(finished);
            cur = Vec::new();
        } else {
            cur.push(bytes[i]);
        }
        i = i + 1;
    }
    assert(bytes@.take(bytes.len() as int) =~= bytes@);
    done.push(cur);
    done
}

/// The value of a string of decimal digits.
pub open spec fn decimal_value(digits: Seq<u8>) -> int
    decreases digits.len(),
{
    if digits.len() == 0 {
        0
    } else {
        decimal_value(digits.drop_last()) * 10 + (digits.last() - 0x30)
    }
}

pub open spec fn all_digits(s: Seq<u8>) -> bool {
    forall|i: int| 0 <= i < s.len() ==> 0x30 <= #[trigger] s[i] <= 0x39
}

/// What `u64::from_str` accepts: an optional `+`, then at least one digit, the value fitting in 64 bits.
pub open spec fn parse_u64_spec(s: Seq<u8>) -> Option<u64> {
    let digits = if s.len() > 0 && s[0] == 0x2b { s.drop_first() } else { s };
    if digits.len() > 0 && all_digits(digits) && decimal_value(digits) <= u64::MAX {
        Some(decimal_value(digits) as u64)
    } else {
        None
    }
}

proof fn lemma_decimal_monotone(d: Seq<u8>)
    requires
        all_digits(d),
        d.len() > 0,
    ensures
        decimal_value(d) >= decimal_value(d.drop_last()) * 10,
        decimal_value(d) >= 0,
    decreases d.len(),
{
    if d.len() > 1 {
        lemma_decimal_monotone(d.drop_last());
    }
}

proof fn lemma_decimal_prefix_bound(d: Seq<u8>, i: int)
    requires
        all_digits(d),
        0 <= i <= d.len(),
    ensures
        0 <= decimal_value(d.take(i)) <= decimal_value(d),
    decreases d.len() - i,
{
    if i < d.len() {
        lemma_decimal_prefix_bound(d, i + 1);
        assert(d.take(i + 1).drop_last() =~= d.take(i));
        assert(all_digits(d.take(i + 1)));
        lemma_decimal_monotone(d.take(i + 1));
        if i + 1 <= d.len() {
            lemma_decimal_nonneg(d.take(i));
        }
    } else {
        assert(d.take(i) =~= d);
        lemma_decimal_nonneg(d);
    }
}

proof fn lemma_decimal_nonneg(d: Seq<u8>)
    requires
        all_digits(d),
    ensures
        decimal_value(d) >= 0,
    decreases d.len(),
{
    if d.len() > 0 {
        lemma_decimal_nonneg(d.drop_last());
    }
}

/// Reads a decimal number the way `str::parse::<u64>` does.
pub fn parse_u64(s: &[u8]) -> (r: Option<u64>)
    ensures
        r == parse_u64_spec(s@),
{
    let start: usize = if s.len() > 0 && s[0] == 0x2b { 1 } else { 0 };
    let ghost digits = if s@.len() > 0 && s@[0] == 0x2b { s@.drop_first() } else { s@ };
    assert(digits =~= s@.subrange(start as int, s.len() as int));
    if start >= s.len() {
        return None;
    }
    let mut value: u64 = 0;
    let mut i: usize = start;
    while i < s.len()
        invariant
            start <= i <= s.len(),
            digits =~= s@.subrange(start as int, s.len() as int),
            digits == (if s@.len() > 0 && s@[0] == 0x2b { s@.drop_first() } else { s@ }),
            digits.len() > 0,
            all_digits(digits.take(i - start)),
            value == decimal_value(digits.take(i - start)),
        decreases s.len() - i,
    {
        let c = s[i];
        if c < 0x30 || c > 0x39 {
            assert(digits[i - start] == c);
            assert(!(0x30 <= digits[i - start] <= 0x39));
            return None;
        }
        let d = (c - 0x30) as u64;
        proof {
            assert(digits.take(i - start + 1).drop_last() =~= digits.take(i - start));
            assert(all_digits(digits.take(i - start + 1)));
        }
        if value > 1844674407370955161 || (value == 1844674407370955161 && d > 5) {
            proof {
                assert(decimal_value(digits.take(i - start + 1)) > u64::MAX);
                if all_digits(digits) {
                    lemma_decimal_prefix_bound(digits, i - start + 1);
                }
            }
            return None;
        }
        value = value * 10 + d;
        i = i + 1;
    }
    assert(digits.take(i - start) =~= digits);
    Some(value)
}

} // verus!
