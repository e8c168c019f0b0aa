use vstd::prelude::*;
use vstd::utf8::encode_utf8;
use crate::buf::{append_bytes, copy_bytes, push_le32, le32_bytes};
use crate::checksum::{crc32_iso, crc32_spec, rolling_tag, rolling_tag_spec};
use crate::cursor::{ByteCursor, Cur, le16, le32, rd_u8, rd_u16, rd_u32, rd_slice, sat_add};
use crate::dictionary::{StringDictionary, DictView, dict_text};
use crate::error::{ErrorKind, ParseError, ParseResult, mk_err};

verus! {

/// How a payload is compressed.
#[derive(Debug, Clone, Copy, PartialEq, Eq, Structural)]
pub enum CodecMode {
    Raw,
    Rle,
    Window,
    Dictionary,
}

/// The mode named by the low two bits of `flags`.
pub open spec fn mode_of(flags: u8) -> CodecMode {
    let m = flags % 4;
    if m == 0 { CodecMode::Raw } else if m == 1 { CodecMode::Rle } else if m == 2 { CodecMode::Window } else { CodecMode::Dictionary }
}

impl CodecMode {
    pub fn from_flags(flags: u8) -> (m: Self)
        ensures m == mode_of(flags),
    {
        let bits = flags & 0x03;
        proof { assert(flags & 0x03 == flags % 4) by (bit_vector); }
        if bits == 0 {
            CodecMode::Raw
        } else if bits == 1 {
            CodecMode::Rle
        } else if bits == 2 {
            CodecMode::Window
        } else {
            CodecMode::Dictionary
        }
    }
}

/// Counts kept while decoding.
#[derive(Debug, Clone, Copy, PartialEq, Eq, Structural)]
pub struct DecodeStats {
    pub literals: usize,
    pub repeats: usize,
    pub backrefs: usize,
    pub dict_refs: usize,
    pub output_bytes: usize,
}

/// All counts zero.
pub open spec fn zero_stats() -> DecodeStats {
    DecodeStats { literals: 0, repeats: 0, backrefs: 0, dict_refs: 0, output_bytes: 0 }
}

impl Default for DecodeStats {
    fn default() -> (s: Self)
        ensures s == zero_stats(),
    {
        DecodeStats { literals: 0, repeats: 0, backrefs: 0, dict_refs: 0, output_bytes: 0 }
    }
}

/// Largest output a decoder accepts.
pub const MAX_OUTPUT: usize = 0x10_0000;

/// `n` copies of `v`.
pub open spec fn repeat_byte(v: u8, n: nat) -> Seq<u8> {
    Seq::new(n, |_i: int| v)
}

/// `n` copies of `b`, one after another.
pub open spec fn repeat_seq(b: Seq<u8>, n: nat) -> Seq<u8>
    decreases n,
{
    if n == 0 { Seq::empty() } else { repeat_seq(b, (n - 1) as nat) + b }
}

/// `out` extended by `n` bytes, each a copy of the byte `d` places before the end.
pub open spec fn backref(out: Seq<u8>, d: int, n: nat) -> Seq<u8>
    decreases n,
{
    if n == 0 {
        out
    } else {
        let o = backref(out, d, (n - 1) as nat);
        o.push(o[o.len() - d])
    }
}

/// One decoding step's outcome: the output, the cursor and the counts, or the error.
pub type StepResult = Result<(Seq<u8>, Cur, DecodeStats), ParseError>;

/// A step's outcome with the output limit applied: output over `MAX_OUTPUT` bytes is an error
/// at the cursor's position.
pub open spec fn limited(r: StepResult, context: &'static str) -> StepResult {
    match r {
        Ok((o, c, s)) => if o.len() > MAX_OUTPUT {
            Err(mk_err(ErrorKind::LimitExceeded, c.abs_at(0), context))
        } else {
            Ok((o, c, s))
        },
        Err(e) => Err(e),
    }
}

/// A finished decode: the output and the counts with `output_bytes` filled in.
pub open spec fn finished(out: Seq<u8>, s: DecodeStats) -> Result<(Seq<u8>, DecodeStats), ParseError> {
    Ok((out, DecodeStats { output_bytes: out.len() as usize, ..s }))
}

/// A decoder result as values.
pub open spec fn decoded(r: ParseResult<(Vec<u8>, DecodeStats)>) -> Result<(Seq<u8>, DecodeStats), ParseError> {
    match r {
        Ok((v, s)) => Ok((v@, s)),
        Err(e) => Err(e),
    }
}

// ---------------------------------------------------------------- run-length

/// One run-length operation: a control byte below 0x80 is followed by `control + 1` literal
/// bytes; otherwise one byte follows, repeated `(control & 0x7f) + 3` times.
pub open spec fn rle_op(out: Seq<u8>, c: Cur, st: DecodeStats) -> StepResult {
    match rd_u8(c) {
        (Err(e), _) => Err(e),
        (Ok(ctl), c1) => if ctl < 0x80 {
            let len = ctl as int + 1;
            match rd_slice(c1, len, "rle literal") {
                (Err(e), _) => Err(e),
                (Ok(b), c2) => Ok((out + b, c2, DecodeStats { literals: (st.literals + len) as usize, ..st })),
            }
        } else {
            let len = (ctl % 128) as nat + 3;
            match rd_u8(c1) {
                (Err(e), _) => Err(e),
                (Ok(v), c2) => Ok((out + repeat_byte(v, len), c2, DecodeStats { repeats: (st.repeats + 1) as usize, ..st })),
            }
        },
    }
}

/// Run-length decoding from the given state until the input is used up.
pub open spec fn rle_run(out: Seq<u8>, c: Cur, st: DecodeStats) -> Result<(Seq<u8>, DecodeStats), ParseError>
    decreases c.data.len() - c.pos,
{
    if c.pos < 0 || c.pos >= c.data.len() {
        finished(out, st)
    } else {
        match limited(rle_op(out, c, st), "rle output") {
            Err(e) => Err(e),
            Ok((o, c2, s)) => rle_run(o, c2, s),
        }
    }
}

/// Run-length decoding of `data`.
pub open spec fn rle_spec(data: Seq<u8>) -> Result<(Seq<u8>, DecodeStats), ParseError> {
    rle_run(Seq::empty(), Cur { data, pos: 0, base: 0 }, zero_stats())
}

// ---------------------------------------------------------------- window

/// One window operation, chosen by the top two bits of the op byte `op`:
/// 0: `(op & 0x3f) + 1` literal bytes; 1: a `u16` distance less one, then `(op & 0x3f) + 3`
/// bytes copied from that far back; 2: one byte repeated `(op & 0x3f) + 4` times; 3: a `u32`
/// that must equal the CRC-32 of the output so far.
pub open spec fn window_op(out: Seq<u8>, c: Cur, st: DecodeStats) -> StepResult {
    match rd_u8(c) {
        (Err(e), _) => Err(e),
        (Ok(op), c1) => {
            let kind = op / 64;
            let low = (op % 64) as int;
            if kind == 0 {
                match rd_slice(c1, low + 1, "window literal") {
                    (Err(e), _) => Err(e),
                    (Ok(b), c2) => Ok((out + b, c2, DecodeStats { literals: (st.literals + low + 1) as usize, ..st })),
                }
            } else if kind == 1 {
                match rd_u16(c1) {
                    (Err(e), _) => Err(e),
                    (Ok(d), c2) => if d as int + 1 > out.len() {
                        Err(mk_err(ErrorKind::CompressionError, c2.abs_at(0), "window backref distance"))
                    } else {
                        Ok((backref(out, d as int + 1, (low + 3) as nat), c2,
                            DecodeStats { backrefs: (st.backrefs + 1) as usize, ..st }))
                    },
                }
            } else if kind == 2 {
                match rd_u8(c1) {
                    (Err(e), _) => Err(e),
                    (Ok(v), c2) => Ok((out + repeat_byte(v, (low + 4) as nat), c2,
                        DecodeStats { repeats: (st.repeats + 1) as usize, ..st })),
                }
            } else {
                match rd_u32(c1) {
                    (Err(e), _) => Err(e),
                    (Ok(ck), c2) => if crc32_spec(out) != ck {
                        Err(mk_err(ErrorKind::InvalidChecksum, c2.abs_at(0), "window checkpoint"))
                    } else {
                        Ok((out, c2, st))
                    },
                }
            }
        },
    }
}

/// Window decoding from the given state until the input is used up.
pub open spec fn window_run(out: Seq<u8>, c: Cur, st: DecodeStats) -> Result<(Seq<u8>, DecodeStats), ParseError>
    decreases c.data.len() - c.pos,
{
    if c.pos < 0 || c.pos >= c.data.len() {
        finished(out, st)
    } else {
        match limited(window_op(out, c, st), "window output") {
            Err(e) => Err(e),
            Ok((o, c2, s)) => window_run(o, c2, s),
        }
    }
}

/// Window decoding of `data`.
pub open spec fn window_spec(data: Seq<u8>) -> Result<(Seq<u8>, DecodeStats), ParseError> {
    window_run(Seq::empty(), Cur { data, pos: 0, base: 0 }, zero_stats())
}

// ---------------------------------------------------------------- dictionary stream

/// One dictionary-stream operation: 0x00–0x3f: `op + 1` literal bytes; 0x40–0x7f: a `u16`
/// code whose text (UTF-8) is written `(op & 0x3f) + 2` times, nothing if the code is
/// unknown; 0x80–0xbf: a `u16` distance less one, then `(op & 0x3f) + 3` bytes copied from that
/// far back; 0xc0–0xff: a `u32` salt, and the rolling tag of the output so far under that salt
/// is written little-endian.
pub open spec fn dict_op(d: DictView, out: Seq<u8>, c: Cur, st: DecodeStats) -> StepResult {
    match rd_u8(c) {
        (Err(e), _) => Err(e),
        (Ok(op), c1) => {
            let low = (op % 64) as int;
            if op < 0x40 {
                match rd_slice(c1, low + 1, "dict literal") {
                    (Err(e), _) => Err(e),
                    (Ok(b), c2) => Ok((out + b, c2, DecodeStats { literals: (st.literals + low + 1) as usize, ..st })),
                }
            } else if op < 0x80 {
                match rd_u16(c1) {
                    (Err(e), _) => Err(e),
                    (Ok(code), c2) => match dict_text(d, code) {
                        Some(t) => Ok((out + repeat_seq(encode_utf8(t), (low + 2) as nat), c2,
                            DecodeStats { dict_refs: (st.dict_refs + 1) as usize, ..st })),
                        None => Ok((out, c2, st)),
                    },
                }
            } else if op < 0xc0 {
                match rd_u16(c1) {
                    (Err(e), _) => Err(e),
                    (Ok(dist), c2) => if dist as int + 1 > out.len() {
                        Err(mk_err(ErrorKind::CompressionError, c2.abs_at(0), "dict backref distance"))
                    } else {
                        Ok((backref(out, dist as int + 1, (low + 3) as nat), c2,
                            DecodeStats { backrefs: (st.backrefs + 1) as usize, ..st }))
                    },
                }
            } else {
                match rd_u32(c1) {
                    (Err(e), _) => Err(e),
                    (Ok(salt), c2) => Ok((out + le32_bytes(rolling_tag_spec(salt, out)), c2, st)),
                }
            }
        },
    }
}

/// Dictionary-stream decoding from the given state until the input is used up.
pub open spec fn dict_run(d: DictView, out: Seq<u8>, c: Cur, st: DecodeStats) -> Result<(Seq<u8>, DecodeStats), ParseError>
    decreases c.data.len() - c.pos,
{
    if c.pos < 0 || c.pos >= c.data.len() {
        finished(out, st)
    } else {
        match limited(dict_op(d, out, c, st), "dictionary output") {
            Err(e) => Err(e),
            Ok((o, c2, s)) => dict_run(d, o, c2, s),
        }
    }
}

/// Dictionary-stream decoding of `data` against `d`.
pub open spec fn dict_stream_spec(d: DictView, data: Seq<u8>) -> Result<(Seq<u8>, DecodeStats), ParseError> {
    dict_run(d, Seq::empty(), Cur { data, pos: 0, base: 0 }, zero_stats())
}

/// Decoding `data` in the mode that `flags` names.
pub open spec fn payload_spec(data: Seq<u8>, flags: u8, d: DictView) -> Result<(Seq<u8>, DecodeStats), ParseError> {
    match mode_of(flags) {
        CodecMode::Raw => Ok((data, DecodeStats { literals: data.len() as usize, output_bytes: data.len() as usize, ..zero_stats() })),
        CodecMode::Rle => rle_spec(data),
        CodecMode::Window => window_spec(data),
        CodecMode::Dictionary => dict_stream_spec(d, data),
    }
}


// ---------------------------------------------------------------- executable decoders

/// The counts fit the state: literal bytes within the output, operations within the input read.
pub open spec fn stats_fit(out: Seq<u8>, c: Cur, st: DecodeStats) -> bool {
    &&& st.literals <= out.len()
    &&& st.repeats + st.backrefs + st.dict_refs <= c.pos
}

/// The outcome of a step as it stands after an executable step returned `r`.
pub open spec fn step_matches(
    spec: StepResult,
    r: ParseResult<()>,
    out: Seq<u8>,
    c: Cur,
    st: DecodeStats,
) -> bool {
    match spec {
        Ok((o, c2, s2)) => r is Ok && out == o && c == c2 && st == s2,
        Err(e) => r == Err::<(), ParseError>(e),
    }
}

/// Appends `n` copies of `v`.
fn push_repeat(out: &mut Vec<u8>, v: u8, n: usize)
    ensures final(out)@ == old(out)@ + repeat_byte(v, n as nat),
{
    let mut k: usize = 0;
    proof { assert(out@ =~= old(out)@ + repeat_byte(v, 0)); }
    while k < n
        invariant
            k <= n,
            out@ == old(out)@ + repeat_byte(v, k as nat),
        decreases n - k,
    {
        out.push(v);
        k = k + 1;
        proof { assert(out@ =~= old(out)@ + repeat_byte(v, k as nat)); }
    }
}

/// Appends `n` copies of `b`.
fn push_repeat_bytes(out: &mut Vec<u8>, b: &[u8], n: usize)
    ensures final(out)@ == old(out)@ + repeat_seq(b@, n as nat),
{
    let mut k: usize = 0;
    proof { assert(out@ =~= old(out)@ + repeat_seq(b@, 0)); }
    while k < n
        invariant
            k <= n,
            out@ == old(out)@ + repeat_seq(b@, k as nat),
        decreases n - k,
    {
        append_bytes(out, b);
        k = k + 1;
        proof { assert(out@ =~= old(out)@ + repeat_seq(b@, k as nat)); }
    }
}

/// Appends `n` bytes, each copied from `d` places before the end.
fn push_backref(out: &mut Vec<u8>, d: usize, n: usize)
    requires 1 <= d <= old(out)@.len(),
    ensures
        final(out)@ == backref(old(out)@, d as int, n as nat),
        final(out)@.len() == old(out)@.len() + n,
{
    let ghost o0 = out@;
    let mut k: usize = 0;
    while k < n
        invariant
            k <= n,
            1 <= d <= o0.len(),
            out@ == backref(o0, d as int, k as nat),
            out@.len() == o0.len() + k,
        decreases n - k,
    {
        let idx = out.len() - d;
        let byte = out[idx];
        out.push(byte);
        k = k + 1;
    }
}

/// One run-length operation.
fn rle_step(cursor: &mut ByteCursor, out: &mut Vec<u8>, stats: &mut DecodeStats) -> (r: ParseResult<()>)
    requires
        stats_fit(old(out)@, old(cursor).view(), *old(stats)),
    ensures
        step_matches(rle_op(old(out)@, old(cursor).view(), *old(stats)), r, final(out)@, final(cursor).view(), *final(stats)),
        r is Ok ==> final(cursor).pos() > old(cursor).pos() && final(cursor).wf()
            && final(cursor).data() == old(cursor).data() && final(cursor).base() == old(cursor).base()
            && stats_fit(final(out)@, final(cursor).view(), *final(stats)),
{
    let control = cursor.read_u8()?;
    proof {
        assert((control & 0x80 == 0) == (control < 0x80)) by (bit_vector);
        assert(control & 0x7f == control % 128) by (bit_vector);
    }
    if control & 0x80 == 0 {
        let len = (control as usize) + 1;
        let bytes = cursor.read_slice(len, "rle literal")?;
        append_bytes(out, bytes);
        let total = out.len();
        proof { assert(stats.literals + len <= total); }
        stats.literals = stats.literals + len;
    } else {
        let len = ((control & 0x7f) as usize) + 3;
        let value = cursor.read_u8()?;
        push_repeat(out, value, len);
        stats.repeats = stats.repeats + 1;
    }
    Ok(())
}

/// Decodes run-length data: control bytes below 0x80 introduce `control + 1` literal bytes,
/// others one byte repeated `(control & 0x7f) + 3` times; output is limited to 1 MiB.
pub fn decode_rle(data: &[u8]) -> (r: ParseResult<(Vec<u8>, DecodeStats)>)
    ensures decoded(r) == rle_spec(data@),
{
    let mut cursor = ByteCursor::new(data);
    let mut out: Vec<u8> = Vec::new();
    let mut stats = DecodeStats::default();
    proof { assert(out@ =~= Seq::<u8>::empty()); }
    while !cursor.is_empty()
        invariant
            cursor.data() == data@,
            cursor.base() == 0,
            cursor.wf(),
            stats_fit(out@, cursor.view(), stats),
            rle_run(out@, cursor.view(), stats) == rle_spec(data@),
        decreases cursor.avail(),
    {
        rle_step(&mut cursor, &mut out, &mut stats)?;
        if out.len() > MAX_OUTPUT {
            return Err(ParseError::limit(cursor.absolute_position(), "rle output"));
        }
    }
    stats.output_bytes = out.len();
    Ok((out, stats))
}

/// One window operation.
fn window_step(cursor: &mut ByteCursor, out: &mut Vec<u8>, stats: &mut DecodeStats) -> (r: ParseResult<()>)
    requires
        stats_fit(old(out)@, old(cursor).view(), *old(stats)),
    ensures
        step_matches(window_op(old(out)@, old(cursor).view(), *old(stats)), r, final(out)@, final(cursor).view(), *final(stats)),
        r is Ok ==> final(cursor).pos() > old(cursor).pos() && final(cursor).wf()
            && final(cursor).data() == old(cursor).data() && final(cursor).base() == old(cursor).base()
            && stats_fit(final(out)@, final(cursor).view(), *final(stats)),
{
    let op = cursor.read_u8()?;
    proof {
        assert(op >> 6 == op / 64) by (bit_vector);
        assert(op & 0x3f == op % 64) by (bit_vector);
    }
    let kind = op >> 6;
    let low = (op & 0x3f) as usize;
    if kind == 0 {
        let len = low + 1;
        let bytes = cursor.read_slice(len, "window literal")?;
        append_bytes(out, bytes);
        let total = out.len();
        proof { assert(stats.literals + len <= total); }
        stats.literals = stats.literals + len;
    } else if kind == 1 {
        let len = low + 3;
        let distance = cursor.read_u16()? as usize + 1;
        if distance > out.len() {
            return Err(ParseError::compression(cursor.absolute_position(), "window backref distance"));
        }
        push_backref(out, distance, len);
        stats.backrefs = stats.backrefs + 1;
    } else if kind == 2 {
        let len = low + 4;
        let value = cursor.read_u8()?;
        push_repeat(out, value, len);
        stats.repeats = stats.repeats + 1;
    } else {
        let checksum = cursor.read_u32()?;
        if crc32_iso(out.as_slice()) != checksum {
            return Err(ParseError::invalid_checksum(cursor.absolute_position(), "window checkpoint"));
        }
    }
    Ok(())
}

/// Decodes window-compressed data (literals, back-references, runs and CRC-32 checkpoints);
/// output is limited to 1 MiB.
pub fn decode_window(data: &[u8]) -> (r: ParseResult<(Vec<u8>, DecodeStats)>)
    ensures decoded(r) == window_spec(data@),
{
    let mut cursor = ByteCursor::new(data);
    let mut out: Vec<u8> = Vec::new();
    let mut stats = DecodeStats::default();
    proof { assert(out@ =~= Seq::<u8>::empty()); }
    while !cursor.is_empty()
        invariant
            cursor.data() == data@,
            cursor.base() == 0,
            cursor.wf(),
            stats_fit(out@, cursor.view(), stats),
            window_run(out@, cursor.view(), stats) == window_spec(data@),
        decreases cursor.avail(),
    {
        window_step(&mut cursor, &mut out, &mut stats)?;
        if out.len() > MAX_OUTPUT {
            return Err(ParseError::limit(cursor.absolute_position(), "window output"));
        }
    }
    stats.output_bytes = out.len();
    Ok((out, stats))
}

/// One dictionary-stream operation.
fn dict_step(
    dictionary: &StringDictionary,
    cursor: &mut ByteCursor,
    out: &mut Vec<u8>,
    stats: &mut DecodeStats,
) -> (r: ParseResult<()>)
    requires
        stats_fit(old(out)@, old(cursor).view(), *old(stats)),
    ensures
        step_matches(dict_op(dictionary.view(), old(out)@, old(cursor).view(), *old(stats)), r, final(out)@,
            final(cursor).view(), *final(stats)),
        r is Ok ==> final(cursor).pos() > old(cursor).pos() && final(cursor).wf()
            && final(cursor).data() == old(cursor).data() && final(cursor).base() == old(cursor).base()
            && stats_fit(final(out)@, final(cursor).view(), *final(stats)),
{
    let op = cursor.read_u8()?;
    proof { assert(op & 0x3f == op % 64) by (bit_vector); }
    let low = (op & 0x3f) as usize;
    if op < 0x40 {
        let len = low + 1;
        let bytes = cursor.read_slice(len, "dict literal")?;
        append_bytes(out, bytes);
        let total = out.len();
        proof { assert(stats.literals + len <= total); }
        stats.literals = stats.literals + len;
    } else if op < 0x80 {
        let repeat = low + 2;
        let code = cursor.read_u16()?;
        match dictionary.get(code) {
            Some(text) => {
                push_repeat_bytes(out, text.as_bytes(), repeat);
                stats.dict_refs = stats.dict_refs + 1;
            },
            None => {},
        }
    } else if op < 0xc0 {
        let len = low + 3;
        let distance = cursor.read_u16()? as usize + 1;
        if distance > out.len() {
            return Err(ParseError::compression(cursor.absolute_position(), "dict backref distance"));
        }
        push_backref(out, distance, len);
        stats.backrefs = stats.backrefs + 1;
    } else {
        let salt = cursor.read_u32()?;
        let tag = rolling_tag(salt, out.as_slice());
        push_le32(out, tag);
    }
    Ok(())
}

/// Decodes a dictionary stream against `dictionary`; output is limited to 1 MiB.
pub fn decode_dictionary_stream(data: &[u8], dictionary: &StringDictionary) -> (r: ParseResult<(Vec<u8>, DecodeStats)>)
    ensures decoded(r) == dict_stream_spec(dictionary.view(), data@),
{
    let mut cursor = ByteCursor::new(data);
    let mut out: Vec<u8> = Vec::new();
    let mut stats = DecodeStats::default();
    proof { assert(out@ =~= Seq::<u8>::empty()); }
    while !cursor.is_empty()
        invariant
            cursor.data() == data@,
            cursor.base() == 0,
            cursor.wf(),
            stats_fit(out@, cursor.view(), stats),
            dict_run(dictionary.view(), out@, cursor.view(), stats) == dict_stream_spec(dictionary.view(), data@),
        decreases cursor.avail(),
    {
        dict_step(dictionary, &mut cursor, &mut out, &mut stats)?;
        if out.len() > MAX_OUTPUT {
            return Err(ParseError::limit(cursor.absolute_position(), "dictionary output"));
        }
    }
    stats.output_bytes = out.len();
    Ok((out, stats))
}

/// Decodes `data` in the mode named by the low two bits of `flags`.
pub fn decode_payload(data: &[u8], flags: u8, dictionary: &StringDictionary) -> (r: ParseResult<(Vec<u8>, DecodeStats)>)
    ensures decoded(r) == payload_spec(data@, flags, dictionary.view()),
{
    match CodecMode::from_flags(flags) {
        CodecMode::Raw => Ok((
            copy_bytes(data),
            DecodeStats { literals: data.len(), repeats: 0, backrefs: 0, dict_refs: 0, output_bytes: data.len() },
        )),
        CodecMode::Rle => decode_rle(data),
        CodecMode::Window => decode_window(data),
        CodecMode::Dictionary => decode_dictionary_stream(data, dictionary),
    }
}


// ---------------------------------------------------------------- encoding

/// `data` as run-length literals: chunks of 32 bytes (the last one shorter), each preceded by
/// its length less one.
pub open spec fn seed_literal(data: Seq<u8>) -> Seq<u8>
    decreases data.len(),
{
    if data.len() == 0 {
        Seq::empty()
    } else if data.len() <= 32 {
        seq![(data.len() - 1) as u8] + data
    } else {
        seq![31u8] + data.take(32) + seed_literal(data.skip(32))
    }
}

/// Run-length decoding a tail of literal chunks appends the bytes they hold and counts
/// them as literals.
proof fn lemma_rle_seed_run(enc: Seq<u8>, pos: int, d: Seq<u8>, out: Seq<u8>, st: DecodeStats)
    requires
        0 <= pos <= enc.len(),
        enc.subrange(pos, enc.len() as int) == seed_literal(d),
        out.len() + d.len() <= MAX_OUTPUT,
        st.literals + d.len() <= MAX_OUTPUT,
    ensures
        rle_run(out, Cur { data: enc, pos, base: 0 }, st)
            == finished(out + d, DecodeStats { literals: (st.literals + d.len()) as usize, ..st }),
    decreases d.len(),
{
    let c = Cur { data: enc, pos, base: 0 };
    if d.len() == 0 {
        assert(enc.subrange(pos, enc.len() as int).len() == 0);
        assert(out + d =~= out);
    } else {
        let n: int = if d.len() <= 32 { d.len() as int } else { 32 };
        let chunk = d.take(n);
        let rest = d.skip(n);
        let tail = enc.subrange(pos, enc.len() as int);
        if d.len() <= 32 {
            assert(tail =~= seq![(d.len() - 1) as u8] + d);
            assert(chunk =~= d);
            assert(rest =~= Seq::<u8>::empty());
        } else {
            assert(tail =~= seq![31u8] + d.take(32) + seed_literal(d.skip(32)));
        }
        assert(enc[pos] == tail[0]);
        assert(enc[pos] == (n - 1) as u8);
        let c1 = c.adv(1);
        assert(tail.len() == enc.len() - pos);
        assert(tail.len() >= 1 + n);
        assert(chunk.len() == n);
        assert forall|k: int| 0 <= k < n implies enc[pos + 1 + k] == #[trigger] chunk[k] by {
            assert(enc[pos + 1 + k] == tail[1 + k]);
        }
        assert(enc.subrange(pos + 1, pos + 1 + n) =~= chunk);
        let c2 = c1.adv(n);
        assert(enc.subrange(pos + 1 + n, enc.len() as int) =~= seed_literal(rest)) by {
            if d.len() > 32 {
                assert(enc.subrange(pos + 1 + n, enc.len() as int) =~= tail.subrange(1 + n, tail.len() as int));
            } else {
                assert(enc.subrange(pos + 1 + n, enc.len() as int).len() == 0);
            }
        }
        let st1 = DecodeStats { literals: (st.literals + n) as usize, ..st };
        assert(rle_op(out, c, st) == Ok::<(Seq<u8>, Cur, DecodeStats), ParseError>((out + chunk, c2, st1)));
        lemma_rle_seed_run(enc, pos + 1 + n, rest, out + chunk, st1);
        assert(out + chunk + rest =~= out + d);
    }
}

/// Run-length decoding gives back the data that `encode_seed_literal` encoded, for data no
/// longer than the decoder's output limit, all of it counted as literals and nothing else
/// counted.
pub proof fn lemma_rle_round_trip(d: Seq<u8>)
    requires d.len() <= MAX_OUTPUT,
    ensures
        rle_spec(seed_literal(d)) == Ok::<(Seq<u8>, DecodeStats), ParseError>((d, DecodeStats {
            literals: d.len() as usize, repeats: 0, backrefs: 0, dict_refs: 0, output_bytes: d.len() as usize })),
{
    let enc = seed_literal(d);
    assert(enc.subrange(0, enc.len() as int) =~= enc);
    lemma_rle_seed_run(enc, 0, d, Seq::empty(), zero_stats());
    assert(Seq::<u8>::empty() + d =~= d);
}

/// Window decoding from an output within the limit ends, when it succeeds, with an output
/// within the limit whose length the counts record.
proof fn lemma_window_run_bounded(out: Seq<u8>, c: Cur, st: DecodeStats)
    requires out.len() <= MAX_OUTPUT,
    ensures window_run(out, c, st) matches Ok((o, s)) ==> o.len() <= MAX_OUTPUT && s.output_bytes == o.len(),
    decreases c.data.len() - c.pos,
{
    if !(c.pos < 0 || c.pos >= c.data.len()) {
        if let Ok((o, c2, s)) = limited(window_op(out, c, st), "window output") {
            lemma_window_step_advances(out, c, st);
            lemma_window_run_bounded(o, c2, s);
        }
    }
}

/// A window operation that succeeds moves the cursor forward.
proof fn lemma_window_step_advances(out: Seq<u8>, c: Cur, st: DecodeStats)
    ensures window_op(out, c, st) matches Ok((_, c2, _)) ==> c2.data == c.data && c2.pos > c.pos,
{
}

/// A successful window decode gives at most `MAX_OUTPUT` bytes, and its counts record the
/// output's length.
pub proof fn lemma_window_output_bounded(data: Seq<u8>)
    ensures window_spec(data) matches Ok((o, s)) ==> o.len() <= MAX_OUTPUT && s.output_bytes == o.len(),
{
    lemma_window_run_bounded(Seq::empty(), Cur { data, pos: 0, base: 0 }, zero_stats());
}

/// A back-reference reaching further back than the output so far stops window decoding with
/// a compression error just after its distance.
pub proof fn lemma_window_backref_rejected(out: Seq<u8>, c: Cur, st: DecodeStats)
    requires
        0 <= c.pos,
        c.pos + 3 <= c.data.len(),
        c.data[c.pos] / 64 == 1,
        le16(c.data, c.pos + 1) + 1 > out.len(),
    ensures window_run(out, c, st) == Err::<(Seq<u8>, DecodeStats), ParseError>(
        mk_err(ErrorKind::CompressionError, c.abs_at(3), "window backref distance")),
{
    assert(window_op(out, c, st) == Err::<(Seq<u8>, Cur, DecodeStats), ParseError>(
        mk_err(ErrorKind::CompressionError, c.adv(3).abs_at(0), "window backref distance")));
}

/// A checkpoint whose value differs from the CRC-32 of the output so far stops window
/// decoding with a checksum error just after the value.
pub proof fn lemma_window_checkpoint_rejected(out: Seq<u8>, c: Cur, st: DecodeStats)
    requires
        0 <= c.pos,
        c.pos + 5 <= c.data.len(),
        c.data[c.pos] / 64 == 3,
        le32(c.data, c.pos + 1) != crc32_spec(out),
    ensures window_run(out, c, st) == Err::<(Seq<u8>, DecodeStats), ParseError>(
        mk_err(ErrorKind::InvalidChecksum, c.abs_at(5), "window checkpoint")),
{
    assert(0 <= le32(c.data, c.pos + 1) < 0x1_0000_0000);
    assert(window_op(out, c, st) == Err::<(Seq<u8>, Cur, DecodeStats), ParseError>(
        mk_err(ErrorKind::InvalidChecksum, c.adv(5).abs_at(0), "window checkpoint")));
}

/// Dictionary-stream decoding a tail of literal chunks appends the bytes they hold and counts
/// them as literals.
proof fn lemma_dict_seed_run(dv: DictView, enc: Seq<u8>, pos: int, d: Seq<u8>, out: Seq<u8>, st: DecodeStats)
    requires
        0 <= pos <= enc.len(),
        enc.subrange(pos, enc.len() as int) == seed_literal(d),
        out.len() + d.len() <= MAX_OUTPUT,
        st.literals + d.len() <= MAX_OUTPUT,
    ensures
        dict_run(dv, out, Cur { data: enc, pos, base: 0 }, st)
            == finished(out + d, DecodeStats { literals: (st.literals + d.len()) as usize, ..st }),
    decreases d.len(),
{
    let c = Cur { data: enc, pos, base: 0 };
    if d.len() == 0 {
        assert(enc.subrange(pos, enc.len() as int).len() == 0);
        assert(out + d =~= out);
    } else {
        let n: int = if d.len() <= 32 { d.len() as int } else { 32 };
        let chunk = d.take(n);
        let rest = d.skip(n);
        let tail = enc.subrange(pos, enc.len() as int);
        if d.len() <= 32 {
            assert(tail =~= seq![(d.len() - 1) as u8] + d);
            assert(chunk =~= d);
            assert(rest =~= Seq::<u8>::empty());
        } else {
            assert(tail =~= seq![31u8] + d.take(32) + seed_literal(d.skip(32)));
        }
        assert(enc[pos] == tail[0]);
        assert(enc[pos] == (n - 1) as u8);
        let c1 = c.adv(1);
        assert(tail.len() == enc.len() - pos);
        assert(tail.len() >= 1 + n);
        assert(chunk.len() == n);
        assert forall|k: int| 0 <= k < n implies enc[pos + 1 + k] == #[trigger] chunk[k] by {
            assert(enc[pos + 1 + k] == tail[1 + k]);
        }
        assert(enc.subrange(pos + 1, pos + 1 + n) =~= chunk);
        let c2 = c1.adv(n);
        assert(enc.subrange(pos + 1 + n, enc.len() as int) =~= seed_literal(rest)) by {
            if d.len() > 32 {
                assert(enc.subrange(pos + 1 + n, enc.len() as int) =~= tail.subrange(1 + n, tail.len() as int));
            } else {
                assert(enc.subrange(pos + 1 + n, enc.len() as int).len() == 0);
            }
        }
        let st1 = DecodeStats { literals: (st.literals + n) as usize, ..st };
        assert(dict_op(dv, out, c, st) == Ok::<(Seq<u8>, Cur, DecodeStats), ParseError>((out + chunk, c2, st1)));
        lemma_dict_seed_run(dv, enc, pos + 1 + n, rest, out + chunk, st1);
        assert(out + chunk + rest =~= out + d);
    }
}

/// Decoding the output of `encode_seed_literal` as a dictionary stream, against any
/// dictionary, gives back the data, all of it counted as literals and nothing else counted.
pub proof fn lemma_dict_stream_round_trip(dv: DictView, d: Seq<u8>)
    requires d.len() <= MAX_OUTPUT,
    ensures
        dict_stream_spec(dv, seed_literal(d)) == Ok::<(Seq<u8>, DecodeStats), ParseError>((d, DecodeStats {
            literals: d.len() as usize, repeats: 0, backrefs: 0, dict_refs: 0, output_bytes: d.len() as usize })),
{
    let enc = seed_literal(d);
    assert(enc.subrange(0, enc.len() as int) =~= enc);
    lemma_dict_seed_run(dv, enc, 0, d, Seq::empty(), zero_stats());
    assert(Seq::<u8>::empty() + d =~= d);
}

/// Encodes `data` as run-length literals of at most 32 bytes each.
pub fn encode_seed_literal(data: &[u8]) -> (out: Vec<u8>)
    ensures out@ == seed_literal(data@),
{
    let mut out: Vec<u8> = Vec::new();
    let mut i: usize = 0;
    proof { assert(data@.skip(0) =~= data@); }
    while i < data.len()
        invariant
            0 <= i <= data@.len(),
            seed_literal(data@) == out@ + seed_literal(data@.skip(i as int)),
        decreases data@.len() - i,
    {
        let rest = data.len() - i;
        let n = if rest < 32 { rest } else { 32 };
        let chunk = &data[i..i + n];
        let ghost r = data@.skip(i as int);
        let ghost before = out@;
        out.push((n - 1) as u8);
        append_bytes(&mut out, chunk);
        proof {
            if r.len() <= 32 {
                assert(chunk@ =~= r);
                assert(data@.skip(i + n) =~= Seq::<u8>::empty());
                assert(seed_literal(Seq::<u8>::empty()) == Seq::<u8>::empty());
                assert(out@ =~= before + seed_literal(r));
                assert(out@ + seed_literal(data@.skip(i + n)) =~= out@);
            } else {
                assert(chunk@ =~= r.take(32));
                assert(r.skip(32) =~= data@.skip(i + n));
                assert(out@ =~= before + seq![31u8] + r.take(32));
                assert(before + seed_literal(r) =~= out@ + seed_literal(data@.skip(i + n)));
            }
        }
        i = i + n;
    }
    proof { assert(data@.skip(i as int) =~= Seq::<u8>::empty()); assert(out@ + Seq::<u8>::empty() =~= out@); }
    out
}

// ---------------------------------------------------------------- reassembly

/// Segments of a message arriving in any order, by index.
#[derive(Debug, Clone)]
pub struct ReassemblyBuffer {
    chunks: Vec<Option<Vec<u8>>>,
    total_bytes: usize,
}

/// A segment slot's contents.
pub open spec fn slot_view(o: Option<Vec<u8>>) -> Option<Seq<u8>> {
    match o {
        Some(v) => Some(v@),
        None => None,
    }
}

/// The segments in order joined, or `None` if one is missing.
pub open spec fn joined(cs: Seq<Option<Seq<u8>>>) -> Option<Seq<u8>>
    decreases cs.len(),
{
    if cs.len() == 0 {
        Some(Seq::empty())
    } else {
        match (joined(cs.drop_last()), cs.last()) {
            (Some(a), Some(b)) => Some(a + b),
            _ => None,
        }
    }
}

impl ReassemblyBuffer {
    /// The segment slots.
    pub closed spec fn slots(&self) -> Seq<Option<Seq<u8>>> {
        self.chunks@.map_values(|o: Option<Vec<u8>>| slot_view(o))
    }

    /// Bytes received, counting each slot once, at its first filling (saturated).
    pub closed spec fn total(&self) -> usize {
        self.total_bytes
    }

    /// A buffer for `parts` segments, none received.
    pub fn new(parts: usize) -> (b: Self)
        ensures
            b.slots() == Seq::new(parts as nat, |_i: int| None::<Seq<u8>>),
            b.total() == 0,
    {
        let mut chunks: Vec<Option<Vec<u8>>> = Vec::new();
        let mut k: usize = 0;
        while k < parts
            invariant
                k <= parts,
                chunks@.len() == k,
                forall|j: int| 0 <= j < k ==> chunks@[j] is None,
            decreases parts - k,
        {
            chunks.push(None);
            k = k + 1;
        }
        let b = ReassemblyBuffer { chunks, total_bytes: 0 };
        proof { assert(b.slots() =~= Seq::new(parts as nat, |_i: int| None::<Seq<u8>>)); }
        b
    }

    /// Stores segment `index`, replacing an earlier copy; an index past the slots is an error.
    pub fn insert(&mut self, index: usize, data: Vec<u8>) -> (r: ParseResult<()>)
        ensures
            index >= old(self).slots().len() ==> r == Err::<(), ParseError>(mk_err(ErrorKind::InvalidValue, index, "segment index"))
                && *final(self) == *old(self),
            index < old(self).slots().len() ==> r is Ok
                && final(self).slots() == old(self).slots().update(index as int, Some(data@))
                && final(self).total() == (if old(self).slots()[index as int] is None {
                    sat_add(old(self).total() as int, data@.len() as int)
                } else {
                    old(self).total()
                }),
    {
        if index >= self.chunks.len() {
            return Err(ParseError::invalid_value(index, "segment index"));
        }
        if self.chunks[index].is_none() {
            self.total_bytes = self.total_bytes.saturating_add(data.len());
        }
        self.chunks.set(index, Some(data));
        proof { assert(self.slots() =~= old(self).slots().update(index as int, Some(data@))); }
        Ok(())
    }

    /// Every segment has arrived.
    pub fn complete(&self) -> (b: bool)
        ensures b == (forall|i: int| 0 <= i < self.slots().len() ==> #[trigger] self.slots()[i] is Some),
    {
        let mut i: usize = 0;
        while i < self.chunks.len()
            invariant
                0 <= i <= self.chunks@.len(),
                forall|j: int| 0 <= j < i ==> #[trigger] self.slots()[j] is Some,
            decreases self.chunks@.len() - i,
        {
            if self.chunks[i].is_none() {
                proof { assert(self.slots()[i as int] is None); }
                return false;
            }
            i = i + 1;
        }
        true
    }

    /// The segments joined in order; a missing segment is an error.
    pub fn assemble(self) -> (r: ParseResult<Vec<u8>>)
        ensures
            match joined(self.slots()) {
                Some(all) => r matches Ok(v) && v@ == all,
                None => r == Err::<Vec<u8>, ParseError>(mk_err(ErrorKind::MissingSection, 0, "segment")),
            },
    {
        let mut out: Vec<u8> = Vec::new();
        let mut i: usize = 0;
        proof { assert(self.slots().take(0) =~= Seq::<Option<Seq<u8>>>::empty()); }
        while i < self.chunks.len()
            invariant
                0 <= i <= self.chunks@.len(),
                joined(self.slots().take(i as int)) == Some(out@),
            decreases self.chunks@.len() - i,
        {
            proof { assert(self.slots().take(i + 1).drop_last() =~= self.slots().take(i as int)); }
            match &self.chunks[i] {
                Some(chunk) => {
                    append_bytes(&mut out, chunk.as_slice());
                },
                None => {
                    proof { lemma_joined_missing(self.slots(), i as int); }
                    return Err(ParseError::missing_section(0, "segment"));
                },
            }
            i = i + 1;
        }
        proof { assert(self.slots().take(i as int) =~= self.slots()); }
        Ok(out)
    }
}

/// A missing slot makes every longer join missing.
proof fn lemma_joined_missing(cs: Seq<Option<Seq<u8>>>, i: int)
    requires 0 <= i < cs.len(), cs[i] is None,
    ensures joined(cs) is None,
    decreases cs.len(),
{
    if i < cs.len() - 1 {
        lemma_joined_missing(cs.drop_last(), i);
    }
}

impl Default for ReassemblyBuffer {
    fn default() -> (b: Self)
        ensures b.slots().len() == 0, b.total() == 0,
    {
        ReassemblyBuffer::new(0)
    }
}

} // verus!
