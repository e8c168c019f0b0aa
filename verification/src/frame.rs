use vstd::prelude::*;
use crate::buf::{append_bytes, push_le16, push_le32, le16_bytes, le32_bytes, lemma_le16_read, lemma_le32_read};
use crate::checksum::{crc16_ccitt, crc16_spec, crc32_iso, crc32_spec};
use crate::cursor::{ByteCursor, Cur, rd_magic, rd_u8, rd_u16, rd_u32, rd_slice};
use crate::error::{ErrorKind, ParseError, ParseResult, mk_err};

verus! {

/// What a frame carries.
#[derive(Debug, Clone, Copy, PartialEq, Eq, Structural)]
pub enum FrameKind {
    Dictionary,
    Template,
    Records,
    Ledger,
    Segment,
    Manifest,
    Heartbeat,
    Unknown(u8),
}

/// The kind that byte `b` names: 0x01 to 0x07 in declaration order, anything else unknown.
pub open spec fn kind_of(b: u8) -> FrameKind {
    if b == 0x01 { FrameKind::Dictionary }
    else if b == 0x02 { FrameKind::Template }
    else if b == 0x03 { FrameKind::Records }
    else if b == 0x04 { FrameKind::Ledger }
    else if b == 0x05 { FrameKind::Segment }
    else if b == 0x06 { FrameKind::Manifest }
    else if b == 0x07 { FrameKind::Heartbeat }
    else { FrameKind::Unknown(b) }
}

/// The lowercase name of a frame kind.
pub open spec fn kind_name(k: FrameKind) -> &'static str {
    match k {
        FrameKind::Dictionary => "dictionary",
        FrameKind::Template => "template",
        FrameKind::Records => "records",
        FrameKind::Ledger => "ledger",
        FrameKind::Segment => "segment",
        FrameKind::Manifest => "manifest",
        FrameKind::Heartbeat => "heartbeat",
        FrameKind::Unknown(_) => "unknown",
    }
}

impl FrameKind {
    pub fn from_byte(byte: u8) -> (k: Self)
        ensures k == kind_of(byte),
    {
        match byte {
            0x01 => FrameKind::Dictionary,
            0x02 => FrameKind::Template,
            0x03 => FrameKind::Records,
            0x04 => FrameKind::Ledger,
            0x05 => FrameKind::Segment,
            0x06 => FrameKind::Manifest,
            0x07 => FrameKind::Heartbeat,
            other => FrameKind::Unknown(other),
        }
    }

    pub fn name(self) -> (s: &'static str)
        ensures s == kind_name(self),
    {
        match self {
            FrameKind::Dictionary => "dictionary",
            FrameKind::Template => "template",
            FrameKind::Records => "records",
            FrameKind::Ledger => "ledger",
            FrameKind::Segment => "segment",
            FrameKind::Manifest => "manifest",
            FrameKind::Heartbeat => "heartbeat",
            FrameKind::Unknown(_) => "unknown",
        }
    }
}

/// The fixed header of a stream.
#[derive(Debug, Clone, Copy, PartialEq, Eq, Structural)]
pub struct StreamHeader {
    pub version: u8,
    pub flags: u8,
    pub stream_id: u16,
    pub declared_frames: u16,
}

/// A frame: kind, flags, sequence number, payload checksum and payload; `offset` is the
/// absolute offset of the kind byte.
#[derive(Debug, Clone)]
pub struct Frame<'a> {
    pub kind: FrameKind,
    pub raw_kind: u8,
    pub flags: u8,
    pub sequence: u32,
    pub checksum: u32,
    pub payload: &'a [u8],
    pub offset: usize,
}

/// A frame as values.
pub struct FrameView {
    pub kind: FrameKind,
    pub raw_kind: u8,
    pub flags: u8,
    pub sequence: u32,
    pub checksum: u32,
    pub payload: Seq<u8>,
    pub offset: usize,
}

/// Frames as values.
pub open spec fn frame_views<'a>(s: Seq<Frame<'a>>) -> Seq<FrameView> {
    s.map_values(|f: Frame<'a>| f.view())
}

impl<'a> Frame<'a> {
    pub open spec fn view(&self) -> FrameView {
        FrameView {
            kind: self.kind,
            raw_kind: self.raw_kind,
            flags: self.flags,
            sequence: self.sequence,
            checksum: self.checksum,
            payload: self.payload@,
            offset: self.offset,
        }
    }

    /// Bit 0x01 of the flags.
    pub fn is_compressed(&self) -> (b: bool)
        ensures b == (self.flags % 2 == 1),
    {
        let f = self.flags;
        proof { assert((f & 0x01 != 0) == (f % 2 == 1)) by (bit_vector); }
        f & 0x01 != 0
    }

    /// Bit 0x80 of the flags.
    pub fn has_checksum(&self) -> (b: bool)
        ensures b == (self.flags >= 0x80),
    {
        let f = self.flags;
        proof { assert((f & 0x80 != 0) == (f >= 0x80)) by (bit_vector); }
        f & 0x80 != 0
    }

    /// Bits 1 and 2 of the flags, as a number below 4.
    pub fn codec_flags(&self) -> (c: u8)
        ensures c == (self.flags / 2) % 4,
    {
        let f = self.flags;
        proof { assert((f >> 1) & 0x03 == (f / 2) % 4) by (bit_vector); }
        (f >> 1) & 0x03
    }
}

/// Largest payload a frame may announce.
pub const MAX_FRAME_PAYLOAD: u32 = 0x40_0000;

/// Reading one frame: kind, flags, sequence, length, checksum and payload; a length over
/// `MAX_FRAME_PAYLOAD` is refused, and with flag 0x80 the payload's CRC-32 must match.
pub open spec fn rd_frame(c: Cur) -> (Result<FrameView, ParseError>, Cur) {
    let offset = c.abs_at(0);
    match rd_u8(c) {
        (Err(e), c1) => (Err(e), c1),
        (Ok(raw), c1) => match rd_u8(c1) {
            (Err(e), c2) => (Err(e), c2),
            (Ok(flags), c2) => match rd_u32(c2) {
                (Err(e), c3) => (Err(e), c3),
                (Ok(sequence), c3) => match rd_u32(c3) {
                    (Err(e), c4) => (Err(e), c4),
                    (Ok(len), c4) => match rd_u32(c4) {
                        (Err(e), c5) => (Err(e), c5),
                        (Ok(checksum), c5) => if len > MAX_FRAME_PAYLOAD {
                            (Err(mk_err(ErrorKind::LimitExceeded, offset, "frame payload")), c5)
                        } else {
                            match rd_slice(c5, len as int, "frame payload") {
                                (Err(e), c6) => (Err(e), c6),
                                (Ok(payload), c6) => if flags >= 0x80 && crc32_spec(payload) != checksum {
                                    (Err(mk_err(ErrorKind::InvalidChecksum, offset, "frame payload")), c6)
                                } else {
                                    (Ok(FrameView { kind: kind_of(raw), raw_kind: raw, flags, sequence, checksum, payload, offset }), c6)
                                },
                            }
                        },
                    },
                },
            },
        },
    }
}

/// Reads one frame.
pub fn read_frame<'a>(cursor: &mut ByteCursor<'a>) -> (r: ParseResult<Frame<'a>>)
    ensures
        ({
            let (sr, c) = rd_frame(old(cursor).view());
            &&& final(cursor).view() == c
            &&& final(cursor).wf()
            &&& match sr {
                Ok(f) => r matches Ok(x) && x.view() == f,
                Err(e) => r is Err && r->Err_0 == e,
            }
        }),
{
    let offset = cursor.absolute_position();
    let raw_kind = cursor.read_u8()?;
    let flags = cursor.read_u8()?;
    let sequence = cursor.read_u32()?;
    let len32 = cursor.read_u32()?;
    let checksum = cursor.read_u32()?;
    if len32 > MAX_FRAME_PAYLOAD {
        return Err(ParseError::limit(offset, "frame payload"));
    }
    let len = len32 as usize;
    let payload = cursor.read_slice(len, "frame payload")?;
    let frame = Frame { kind: FrameKind::from_byte(raw_kind), raw_kind, flags, sequence, checksum, payload, offset };
    if frame.has_checksum() && crc32_iso(payload) != checksum {
        return Err(ParseError::invalid_checksum(offset, "frame payload"));
    }
    Ok(frame)
}

/// The stream magic, "PWX1".
pub open spec fn stream_magic() -> Seq<u8> {
    seq![0x50u8, 0x57u8, 0x58u8, 0x31u8]
}

/// Frames read one after another until the input is used up or, when `declared` is not
/// zero, `declared` frames have been read.
pub open spec fn frames_from(c: Cur, declared: u16, acc: Seq<FrameView>) -> Result<Seq<FrameView>, ParseError>
    decreases c.data.len() - c.pos,
{
    if c.pos < 0 || c.pos >= c.data.len() {
        Ok(acc)
    } else {
        match rd_frame(c) {
            (Err(e), _) => Err(e),
            (Ok(f), c1) => {
                let acc1 = acc.push(f);
                if declared != 0 && acc1.len() >= declared {
                    Ok(acc1)
                } else {
                    frames_from(c1, declared, acc1)
                }
            },
        }
    }
}

/// Parsing a stream: magic, version 1, flags, stream id, declared frame count, header CRC
/// (checked against the first eight bytes when flag 0x80 is set), then the frames.
pub open spec fn stream_spec(data: Seq<u8>) -> Result<(StreamHeader, Seq<FrameView>), ParseError> {
    let c0 = Cur { data, pos: 0, base: 0 };
    match rd_magic(c0, stream_magic(), "stream magic") {
        (Err(e), _) => Err(e),
        (Ok(_), c1) => match rd_u8(c1) {
            (Err(e), _) => Err(e),
            (Ok(version), c2) => if version != 1 {
                Err(mk_err(ErrorKind::UnsupportedVersion, (if c2.abs_at(0) == 0 { 0 } else { c2.abs_at(0) - 1 }) as usize,
                    "stream version"))
            } else {
                match rd_u8(c2) {
                    (Err(e), _) => Err(e),
                    (Ok(flags), c3) => match rd_u16(c3) {
                        (Err(e), _) => Err(e),
                        (Ok(stream_id), c4) => match rd_u16(c4) {
                            (Err(e), _) => Err(e),
                            (Ok(declared), c5) => match rd_u16(c5) {
                                (Err(e), _) => Err(e),
                                (Ok(header_crc), c6) => if flags >= 0x80 && crc16_spec(data.take(8)) != header_crc {
                                    Err(mk_err(ErrorKind::InvalidChecksum, 8, "stream header"))
                                } else {
                                    match frames_from(c6, declared, Seq::empty()) {
                                        Err(e) => Err(e),
                                        Ok(fs) => Ok((StreamHeader { version, flags, stream_id, declared_frames: declared }, fs)),
                                    }
                                },
                            },
                        },
                    },
                }
            },
        },
    }
}

/// Parses a stream: its header and its frames.
pub fn parse_stream_frames(data: &[u8]) -> (r: ParseResult<(StreamHeader, Vec<Frame<'_>>)>)
    ensures
        match stream_spec(data@) {
            Ok((h, fs)) => r matches Ok((h2, v)) && h2 == h && frame_views(v@) == fs,
            Err(e) => r is Err && r->Err_0 == e,
        },
{
    let mut cursor = ByteCursor::new(data);
    let magic: [u8; 4] = [0x50, 0x57, 0x58, 0x31];
    proof { assert(magic@ =~= stream_magic()); }
    cursor.expect_magic(&magic, "stream magic")?;
    let version = cursor.read_u8()?;
    if version != 1 {
        return Err(ParseError::unsupported_version(cursor.absolute_position().saturating_sub(1), "stream version"));
    }
    let flags = cursor.read_u8()?;
    let stream_id = cursor.read_u16()?;
    let declared_frames = cursor.read_u16()?;
    let header_crc = cursor.read_u16()?;
    proof { assert((flags & 0x80 != 0) == (flags >= 0x80)) by (bit_vector); }
    if flags & 0x80 != 0 {
        let head = &data[0..8];
        proof { assert(head@ =~= data@.take(8)); }
        if crc16_ccitt(head) != header_crc {
            return Err(ParseError::invalid_checksum(8, "stream header"));
        }
    }
    let header = StreamHeader { version, flags, stream_id, declared_frames };
    let mut frames: Vec<Frame> = Vec::new();
    let ghost c6 = cursor.view();
    proof { assert(frame_views(frames@) =~= Seq::<FrameView>::empty()); }
    while !cursor.is_empty()
        invariant
            cursor.wf(),
            cursor.data() == data@,
            cursor.base() == 0,
            frames_from(cursor.view(), declared_frames, frame_views(frames@)) == frames_from(c6, declared_frames, Seq::empty()),
            declared_frames != 0 ==> frames@.len() < declared_frames,
            stream_spec(data@) == match frames_from(c6, declared_frames, Seq::empty()) {
                Err(e) => Err(e),
                Ok(fs) => Ok((header, fs)),
            },
        decreases cursor.avail(),
    {
        let f = read_frame(&mut cursor)?;
        proof { assert(frame_views(frames@.push(f)) =~= frame_views(frames@).push(f.view())); }
        frames.push(f);
        if declared_frames != 0 && frames.len() >= declared_frames as usize {
            return Ok((header, frames));
        }
    }
    Ok((header, frames))
}

/// The bytes of a frame as `build_frame` lays it out: flag 0x80 set, the payload's length
/// (as a `u32`) and CRC-32.
pub open spec fn frame_bytes(kind: u8, flags: u8, sequence: u32, payload: Seq<u8>) -> Seq<u8> {
    seq![kind, flags | 0x80] + le32_bytes(sequence) + le32_bytes(payload.len() as u32)
        + le32_bytes(crc32_spec(payload)) + payload
}

/// Lays out a frame with a checksum.
pub fn build_frame(kind: u8, flags: u8, sequence: u32, payload: &[u8]) -> (out: Vec<u8>)
    ensures out@ == frame_bytes(kind, flags, sequence, payload@),
{
    let mut out: Vec<u8> = Vec::new();
    out.push(kind);
    out.push(flags | 0x80);
    push_le32(&mut out, sequence);
    push_le32(&mut out, payload.len() as u32);
    push_le32(&mut out, crc32_iso(payload));
    append_bytes(&mut out, payload);
    proof { assert(out@ =~= frame_bytes(kind, flags, sequence, payload@)); }
    out
}

/// A frame laid out by `build_frame` reads back as the frame written: its kind, its flags
/// with the checksum bit set, its sequence number, the payload's CRC-32 and the payload.
pub proof fn lemma_frame_round_trip(data: Seq<u8>, pos: int, base: usize, kind: u8, flags: u8, sequence: u32, payload: Seq<u8>)
    requires
        0 <= pos,
        payload.len() <= MAX_FRAME_PAYLOAD,
        pos + 14 + payload.len() <= data.len(),
        data.subrange(pos, pos + 14 + payload.len()) == frame_bytes(kind, flags, sequence, payload),
    ensures
        rd_frame(Cur { data, pos, base }) == (
            Ok::<FrameView, ParseError>(FrameView {
                kind: kind_of(kind),
                raw_kind: kind,
                flags: flags | 0x80,
                sequence,
                checksum: crc32_spec(payload),
                payload,
                offset: Cur { data, pos, base }.abs_at(0),
            }),
            Cur { data, pos: pos + 14 + payload.len(), base },
        ),
{
    let fb = frame_bytes(kind, flags, sequence, payload);
    let n = payload.len();
    assert(fb.len() == 14 + n);
    assert(data[pos] == fb[0]);
    assert(data[pos + 1] == fb[1]);
    assert(data.subrange(pos + 2, pos + 6) =~= le32_bytes(sequence)) by {
        assert forall|k: int| 0 <= k < 4 implies data[pos + 2 + k] == #[trigger] le32_bytes(sequence)[k] by {
            assert(data[pos + 2 + k] == fb[2 + k]);
        }
    }
    assert(data.subrange(pos + 6, pos + 10) =~= le32_bytes(n as u32)) by {
        assert forall|k: int| 0 <= k < 4 implies data[pos + 6 + k] == #[trigger] le32_bytes(n as u32)[k] by {
            assert(data[pos + 6 + k] == fb[6 + k]);
        }
    }
    assert(data.subrange(pos + 10, pos + 14) =~= le32_bytes(crc32_spec(payload))) by {
        assert forall|k: int| 0 <= k < 4 implies data[pos + 10 + k] == #[trigger] le32_bytes(crc32_spec(payload))[k] by {
            assert(data[pos + 10 + k] == fb[10 + k]);
        }
    }
    assert(data.subrange(pos + 14, pos + 14 + n) =~= payload) by {
        assert forall|k: int| 0 <= k < n implies data[pos + 14 + k] == #[trigger] payload[k] by {
            assert(data[pos + 14 + k] == fb[14 + k]);
        }
    }
    lemma_le32_read(data, pos + 2, sequence);
    lemma_le32_read(data, pos + 6, n as u32);
    lemma_le32_read(data, pos + 10, crc32_spec(payload));
    assert((flags | 0x80u8) >= 0x80u8) by (bit_vector);
}

/// The byte sequences of `fs` one after another.
pub open spec fn concat(fs: Seq<Seq<u8>>) -> Seq<u8>
    decreases fs.len(),
{
    if fs.len() == 0 { Seq::empty() } else { concat(fs.drop_last()) + fs.last() }
}

/// Byte vectors as values.
pub open spec fn byte_views(fs: Seq<Vec<u8>>) -> Seq<Seq<u8>> {
    fs.map_values(|v: Vec<u8>| v@)
}

/// The bytes of a stream as `build_stream` lays it out: version 1, no flags, stream id 1,
/// the frame count (as a `u16`), a zero header CRC, then the frames.
pub open spec fn stream_bytes(frames: Seq<Seq<u8>>) -> Seq<u8> {
    stream_magic() + seq![1u8, 0u8] + le16_bytes(1) + le16_bytes(frames.len() as u16) + le16_bytes(0) + concat(frames)
}

/// The bytes of frames given by kind, flags, sequence number and payload.
pub open spec fn frame_parts_bytes(parts: Seq<(u8, u8, u32, Seq<u8>)>) -> Seq<Seq<u8>> {
    parts.map_values(|p: (u8, u8, u32, Seq<u8>)| frame_bytes(p.0, p.1, p.2, p.3))
}

/// The first `k` frames read are those of `parts`: kind, flags with the checksum bit,
/// sequence number, the payload's CRC-32 and the payload.
pub open spec fn frames_match(fs: Seq<FrameView>, parts: Seq<(u8, u8, u32, Seq<u8>)>, k: int) -> bool {
    &&& fs.len() == k
    &&& forall|i: int| 0 <= i < k ==> {
        &&& (#[trigger] fs[i]).raw_kind == parts[i].0
        &&& fs[i].kind == kind_of(parts[i].0)
        &&& fs[i].flags == parts[i].1 | 0x80
        &&& fs[i].sequence == parts[i].2
        &&& fs[i].checksum == crc32_spec(parts[i].3)
        &&& fs[i].payload == parts[i].3
    }
}

/// The bytes of a concatenation are those of each part in turn.
proof fn lemma_concat_add(a: Seq<Seq<u8>>, b: Seq<Seq<u8>>)
    ensures concat(a + b) == concat(a) + concat(b),
    decreases b.len(),
{
    if b.len() == 0 {
        assert(a + b =~= a);
        assert(concat(a) + concat(b) =~= concat(a));
    } else {
        assert((a + b).drop_last() =~= a + b.drop_last());
        lemma_concat_add(a, b.drop_last());
        assert(concat(a + b) =~= concat(a) + concat(b));
    }
}

/// Frame `k` of a concatenation starts where the frames before it end.
proof fn lemma_concat_at(fbs: Seq<Seq<u8>>, k: int)
    requires 0 <= k < fbs.len(),
    ensures
        concat(fbs.take(k + 1)).len() == concat(fbs.take(k)).len() + fbs[k].len(),
        concat(fbs.take(k + 1)).len() <= concat(fbs).len(),
        concat(fbs).subrange(concat(fbs.take(k)).len() as int, concat(fbs.take(k + 1)).len() as int) == fbs[k],
{
    let a = fbs.take(k);
    let fb = fbs[k];
    assert(fbs.take(k + 1) =~= a + seq![fb]);
    lemma_concat_add(a, seq![fb]);
    assert(seq![fb].drop_last() =~= Seq::<Seq<u8>>::empty());
    assert(concat(Seq::<Seq<u8>>::empty()) =~= Seq::<u8>::empty());
    assert(concat(seq![fb]) =~= fb);
    assert(fbs =~= fbs.take(k + 1) + fbs.skip(k + 1));
    lemma_concat_add(fbs.take(k + 1), fbs.skip(k + 1));
    assert(concat(fbs).subrange(concat(a).len() as int, concat(fbs.take(k + 1)).len() as int) =~= fb);
}

/// The frame read at `pos` is the one of `p`, and the ones before stay matched.
proof fn lemma_frames_push(acc: Seq<FrameView>, parts: Seq<(u8, u8, u32, Seq<u8>)>, k: int, f: FrameView)
    requires
        0 <= k < parts.len(),
        frames_match(acc, parts, k),
        f.raw_kind == parts[k].0, f.kind == kind_of(parts[k].0), f.flags == parts[k].1 | 0x80,
        f.sequence == parts[k].2, f.checksum == crc32_spec(parts[k].3), f.payload == parts[k].3,
    ensures frames_match(acc.push(f), parts, k + 1),
{
    let acc1 = acc.push(f);
    assert forall|i: int| 0 <= i < k + 1 implies ({
        &&& (#[trigger] acc1[i]).raw_kind == parts[i].0
        &&& acc1[i].kind == kind_of(parts[i].0)
        &&& acc1[i].flags == parts[i].1 | 0x80
        &&& acc1[i].sequence == parts[i].2
        &&& acc1[i].checksum == crc32_spec(parts[i].3)
        &&& acc1[i].payload == parts[i].3
    }) by {
        if i < k { assert(acc1[i] == acc[i]); }
    }
}

/// Reading on from frame `k` of a stream laid out by `build_stream` gives the remaining
/// frames written.
proof fn lemma_frames_read(data: Seq<u8>, parts: Seq<(u8, u8, u32, Seq<u8>)>, k: int, acc: Seq<FrameView>)
    requires
        parts.len() < 0x10000,
        forall|i: int| 0 <= i < parts.len() ==> (#[trigger] parts[i]).3.len() <= MAX_FRAME_PAYLOAD,
        data.len() == 12 + concat(frame_parts_bytes(parts)).len(),
        data.subrange(12, data.len() as int) == concat(frame_parts_bytes(parts)),
        0 <= k <= parts.len(),
        k == parts.len() ==> k == 0,
        frames_match(acc, parts, k),
    ensures
        frames_from(Cur { data, pos: 12 + concat(frame_parts_bytes(parts).take(k)).len() as int, base: 0 }, parts.len() as u16, acc)
            matches Ok(fs) && frames_match(fs, parts, parts.len() as int),
    decreases parts.len() - k,
{
    let fbs = frame_parts_bytes(parts);
    let n = parts.len() as int;
    let pos: int = 12 + concat(fbs.take(k)).len() as int;
    if k == n {
        assert(fbs =~= Seq::<Seq<u8>>::empty());
        assert(fbs.take(0) =~= Seq::<Seq<u8>>::empty());
    } else {
        let p = parts[k];
        lemma_concat_at(fbs, k);
        let fb = fbs[k];
        assert(fb == frame_bytes(p.0, p.1, p.2, p.3));
        let end: int = 12 + concat(fbs.take(k + 1)).len() as int;
        assert(data.subrange(pos, end) =~= concat(fbs).subrange(pos - 12, end - 12));
        lemma_frame_round_trip(data, pos, 0, p.0, p.1, p.2, p.3);
        let f = FrameView {
            kind: kind_of(p.0),
            raw_kind: p.0,
            flags: p.1 | 0x80,
            sequence: p.2,
            checksum: crc32_spec(p.3),
            payload: p.3,
            offset: Cur { data, pos, base: 0 }.abs_at(0),
        };
        lemma_frames_push(acc, parts, k, f);
        if k + 1 < n {
            lemma_frames_read(data, parts, k + 1, acc.push(f));
        }
    }
}

/// A stream laid out by `build_stream` from frames laid out by `build_frame` reads back as
/// version 1, flags 0, stream id 1, the frame count, and the frames written, in order.
pub proof fn lemma_stream_round_trip(parts: Seq<(u8, u8, u32, Seq<u8>)>)
    requires
        parts.len() < 0x10000,
        forall|i: int| 0 <= i < parts.len() ==> (#[trigger] parts[i]).3.len() <= MAX_FRAME_PAYLOAD,
    ensures
        stream_spec(stream_bytes(frame_parts_bytes(parts))) matches Ok((h, fs))
            && h.version == 1 && h.flags == 0 && h.stream_id == 1 && h.declared_frames == parts.len()
            && frames_match(fs, parts, parts.len() as int),
{
    let fbs = frame_parts_bytes(parts);
    let data = stream_bytes(fbs);
    let n16 = parts.len() as u16;
    let head = stream_magic() + seq![1u8, 0u8] + le16_bytes(1) + le16_bytes(n16) + le16_bytes(0);
    assert(head.len() == 12);
    assert(data == head + concat(fbs));
    assert(data.subrange(0, 12) =~= head);
    lemma_stream_header(data, n16);
    assert(data.subrange(12, data.len() as int) =~= concat(fbs));
    assert(fbs.take(0) =~= Seq::<Seq<u8>>::empty());
    assert(concat(Seq::<Seq<u8>>::empty()) =~= Seq::<u8>::empty());
    assert(frames_match(Seq::empty(), parts, 0));
    lemma_frames_read(data, parts, 0, Seq::empty());
}

/// A header as `build_stream` lays it out reads as version 1, flags 0, stream id 1 and the
/// declared count, with the frames read after it.
#[verifier::rlimit(40)]
proof fn lemma_stream_header(data: Seq<u8>, n16: u16)
    requires
        data.len() >= 12,
        data.subrange(0, 12) == stream_magic() + seq![1u8, 0u8] + le16_bytes(1) + le16_bytes(n16) + le16_bytes(0),
    ensures
        stream_spec(data) == match frames_from(Cur { data, pos: 12, base: 0 }, n16, Seq::empty()) {
            Ok(fs) => Ok((StreamHeader { version: 1, flags: 0, stream_id: 1, declared_frames: n16 }, fs)),
            Err(e) => Err(e),
        },
{
    let b = le16_bytes(n16);
    let hs = seq![0x50u8, 0x57u8, 0x58u8, 0x31u8, 1u8, 0u8, 1u8, 0u8, b[0], b[1], 0u8, 0u8];
    assert(le16_bytes(1) =~= seq![1u8, 0u8]);
    assert(le16_bytes(0) =~= seq![0u8, 0u8]);
    assert(data.subrange(0, 12) =~= hs);
    assert forall|i: int| 0 <= i < 12 implies data[i] == #[trigger] hs[i] by {
        assert(data[i] == data.subrange(0, 12)[i]);
    }
    assert(data.subrange(0, 4) =~= stream_magic());
    assert(data.subrange(6, 8) =~= le16_bytes(1));
    assert(data.subrange(8, 10) =~= le16_bytes(n16));
    assert(data.subrange(10, 12) =~= le16_bytes(0));
    lemma_le16_read(data, 6, 1);
    lemma_le16_read(data, 8, n16);
    lemma_le16_read(data, 10, 0);
}

/// Lays out a stream of already built frames.
pub fn build_stream(frames: &[Vec<u8>]) -> (out: Vec<u8>)
    ensures out@ == stream_bytes(byte_views(frames@)),
{
    let mut out: Vec<u8> = Vec::new();
    out.push(0x50);
    out.push(0x57);
    out.push(0x58);
    out.push(0x31);
    out.push(1);
    out.push(0);
    push_le16(&mut out, 1);
    push_le16(&mut out, frames.len() as u16);
    push_le16(&mut out, 0);
    let ghost head = out@;
    proof { assert(head =~= stream_magic() + seq![1u8, 0u8] + le16_bytes(1) + le16_bytes(frames@.len() as u16) + le16_bytes(0)); }
    let mut i: usize = 0;
    while i < frames.len()
        invariant
            0 <= i <= frames@.len(),
            out@ == head + concat(byte_views(frames@.take(i as int))),
        decreases frames@.len() - i,
    {
        append_bytes(&mut out, frames[i].as_slice());
        proof {
            assert(byte_views(frames@.take(i + 1)).drop_last() =~= byte_views(frames@.take(i as int)));
            assert(out@ =~= head + concat(byte_views(frames@.take(i + 1))));
        }
        i = i + 1;
    }
    proof {
        assert(frames@.take(i as int) =~= frames@);
        assert(byte_views(frames@).len() == frames@.len());
    }
    out
}

} // verus!
