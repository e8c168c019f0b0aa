use vstd::prelude::*;
use vstd::utf8::{valid_utf8, decode_utf8};
use crate::error::{ErrorKind, ParseError, ParseResult, mk_err};
use crate::text::{utf8_str, slice_to_array};

verus! {

/// `a + b`, saturated at `usize::MAX`.
pub open spec fn sat_add(a: int, b: int) -> usize {
    if a + b > usize::MAX { usize::MAX } else if a + b < 0 { 0 } else { (a + b) as usize }
}

/// Little-endian value of the two bytes of `s` at `i`.
pub open spec fn le16(s: Seq<u8>, i: int) -> int { s[i] + 0x100 * s[i + 1] }

/// Big-endian value of the two bytes of `s` at `i`.
pub open spec fn be16(s: Seq<u8>, i: int) -> int { 0x100 * s[i] + s[i + 1] }

/// Little-endian value of the three bytes of `s` at `i`.
pub open spec fn le24(s: Seq<u8>, i: int) -> int { le16(s, i) + 0x10000 * s[i + 2] }

/// Little-endian value of the four bytes of `s` at `i`.
pub open spec fn le32(s: Seq<u8>, i: int) -> int { le16(s, i) + 0x10000 * le16(s, i + 2) }

/// Big-endian value of the four bytes of `s` at `i`.
pub open spec fn be32(s: Seq<u8>, i: int) -> int { 0x10000 * be16(s, i) + be16(s, i + 2) }

/// Little-endian value of the eight bytes of `s` at `i`.
pub open spec fn le64(s: Seq<u8>, i: int) -> int { le32(s, i) + 0x1_0000_0000 * le32(s, i + 4) }

/// Two's-complement readings of unsigned values.
pub open spec fn as_i8(u: int) -> int { if u >= 0x80 { u - 0x100 } else { u as int } }

pub open spec fn as_i16(u: int) -> int { if u >= 0x8000 { u - 0x1_0000 } else { u as int } }

pub open spec fn as_i32(u: int) -> int { if u >= 0x8000_0000 { u - 0x1_0000_0000 } else { u as int } }

pub open spec fn as_i64(u: int) -> int {
    if u >= 0x8000_0000_0000_0000 { u - 0x1_0000_0000_0000_0000 } else { u as int }
}

/// Zigzag decoding: even values are non-negative, odd values negative.
pub open spec fn zigzag(v: u64) -> int {
    if v % 2 == 0 { (v / 2) as int } else { -((v / 2) as int) - 1 }
}

/// The value accumulated from the first `k` bytes of a varint: seven payload bits per byte,
/// least significant group first, truncated to 64 bits.
pub open spec fn varint_acc(s: Seq<u8>, k: nat) -> u64
    decreases k,
{
    if k == 0 { 0 } else {
        varint_acc(s, (k - 1) as nat) | (((s[k - 1] & 0x7f) as u64) << ((7 * (k - 1)) as u32))
    }
}

/// Index of the first byte at or after `j` (and before 10 and the end of `s`) whose high bit
/// is clear; `min(10, s.len())` when there is none.
pub open spec fn varint_stop(s: Seq<u8>, j: int) -> int
    decreases 10 - j,
{
    if j >= 10 || j >= s.len() { j } else if s[j] & 0x80 == 0 { j } else { varint_stop(s, j + 1) }
}


/// The abstract state of a cursor: its bytes, position and base offset.
pub struct Cur {
    pub data: Seq<u8>,
    pub pos: int,
    pub base: usize,
}

impl Cur {
    pub open spec fn avail(self) -> int { self.data.len() - self.pos }

    pub open spec fn abs_at(self, k: int) -> usize { sat_add(self.base as int, self.pos + k) }

    pub open spec fn adv(self, k: int) -> Cur { Cur { data: self.data, pos: self.pos + k, base: self.base } }

    pub open spec fn rest(self) -> Seq<u8> { self.data.subrange(self.pos, self.data.len() as int) }

    /// The error of a read of `n` bytes that starts `k` bytes on and runs short.
    pub open spec fn short_err_at(self, k: int, n: int, context: &'static str) -> ParseError {
        if self.pos + k + n > usize::MAX {
            mk_err(ErrorKind::InvalidLength, self.abs_at(k), context)
        } else {
            mk_err(ErrorKind::UnexpectedEof, self.abs_at(k), context)
        }
    }
}

/// Reading a byte.
pub open spec fn rd_u8(c: Cur) -> (Result<u8, ParseError>, Cur) {
    if c.avail() >= 1 { (Ok(c.data[c.pos]), c.adv(1)) }
    else { (Err(mk_err(ErrorKind::UnexpectedEof, c.abs_at(0), "u8")), c) }
}

/// Reading a little-endian `u16`.
pub open spec fn rd_u16(c: Cur) -> (Result<u16, ParseError>, Cur) {
    if c.avail() >= 2 { (Ok(le16(c.data, c.pos) as u16), c.adv(2)) }
    else { (Err(c.short_err_at(0, 2, "u16")), c) }
}

/// Reading a little-endian `u32`.
pub open spec fn rd_u32(c: Cur) -> (Result<u32, ParseError>, Cur) {
    if c.avail() >= 4 { (Ok(le32(c.data, c.pos) as u32), c.adv(4)) }
    else { (Err(c.short_err_at(0, 4, "u32")), c) }
}

/// Reading a little-endian `u64`.
pub open spec fn rd_u64(c: Cur) -> (Result<u64, ParseError>, Cur) {
    if c.avail() >= 8 { (Ok(le64(c.data, c.pos) as u64), c.adv(8)) }
    else { (Err(c.short_err_at(0, 8, "u64")), c) }
}

/// Reading a little-endian `i16`.
pub open spec fn rd_i16(c: Cur) -> (Result<i16, ParseError>, Cur) {
    if c.avail() >= 2 { (Ok(as_i16(le16(c.data, c.pos)) as i16), c.adv(2)) }
    else { (Err(c.short_err_at(0, 2, "i16")), c) }
}

/// Reading a little-endian `i32`.
pub open spec fn rd_i32(c: Cur) -> (Result<i32, ParseError>, Cur) {
    if c.avail() >= 4 { (Ok(as_i32(le32(c.data, c.pos)) as i32), c.adv(4)) }
    else { (Err(c.short_err_at(0, 4, "i32")), c) }
}

/// Reading `n` bytes.
pub open spec fn rd_slice(c: Cur, n: int, context: &'static str) -> (Result<Seq<u8>, ParseError>, Cur) {
    if c.avail() >= n { (Ok(c.data.subrange(c.pos, c.pos + n)), c.adv(n)) }
    else { (Err(c.short_err_at(0, n, context)), c) }
}

/// Reading `magic.len()` bytes that must equal `magic`.
pub open spec fn rd_magic(c: Cur, magic: Seq<u8>, context: &'static str) -> (Result<(), ParseError>, Cur) {
    match rd_slice(c, magic.len() as int, context) {
        (Err(e), c1) => (Err(e), c1),
        (Ok(b), c1) => if b == magic {
            (Ok(()), c1)
        } else {
            (Err(mk_err(ErrorKind::InvalidMagic, c.abs_at(0), context)), c1)
        },
    }
}

/// A reader of one record.
pub type Reader<T> = spec_fn(Cur) -> (Result<T, ParseError>, Cur);

/// `n` records read by `rd`, one after another.
pub open spec fn records_from<T>(c: Cur, n: nat, rd: Reader<T>) -> Result<Seq<T>, ParseError>
    decreases n,
{
    if n == 0 {
        Ok(Seq::empty())
    } else {
        match rd(c) {
            (Err(e), _) => Err(e),
            (Ok(x), c1) => match records_from(c1, (n - 1) as nat, rd) {
                Err(e) => Err(e),
                Ok(rest) => Ok(seq![x] + rest),
            },
        }
    }
}

/// A counted list in `data` (absolute offset `base`): a `u16` count, at most `limit`, and
/// that many records read by `rd`.
pub open spec fn counted_list<T>(data: Seq<u8>, base: usize, limit: int, context: &'static str, rd: Reader<T>)
    -> Result<Seq<T>, ParseError>
{
    match rd_u16(Cur { data, pos: 0, base }) {
        (Err(e), _) => Err(e),
        (Ok(n), c1) => if n > limit {
            Err(mk_err(ErrorKind::LimitExceeded, c1.abs_at(0), context))
        } else {
            records_from(c1, n as nat, rd)
        },
    }
}

/// The loop state of reading `n` records by `rd` from `c0`: `done` read so far, and the
/// remaining `left` records from `c` give the rest.
pub open spec fn records_progress<T>(c0: Cur, n: nat, rd: Reader<T>, done: Seq<T>, c: Cur, left: nat) -> bool {
    match records_from(c0, n, rd) {
        Ok(all) => records_from(c, left, rd) matches Ok(rest) && all == done + rest,
        Err(e) => records_from(c, left, rd) == Err::<Seq<T>, ParseError>(e),
    }
}

/// One more record read keeps the loop state.
pub proof fn lemma_records_step<T>(c0: Cur, n: nat, rd: Reader<T>, done: Seq<T>, c: Cur, left: nat)
    requires
        left > 0,
        records_progress(c0, n, rd, done, c, left),
        rd(c).0 is Ok,
    ensures
        records_progress(c0, n, rd, done.push(rd(c).0->Ok_0), rd(c).1, (left - 1) as nat),
{
    let x = rd(c).0->Ok_0;
    let c1 = rd(c).1;
    if let Ok(rest) = records_from(c1, (left - 1) as nat, rd) {
        assert(done.push(x) + rest =~= done + (seq![x] + rest));
    }
}

/// A failed read ends the list with its error.
pub proof fn lemma_records_fail<T>(c0: Cur, n: nat, rd: Reader<T>, done: Seq<T>, c: Cur, left: nat)
    requires
        left > 0,
        records_progress(c0, n, rd, done, c, left),
        rd(c).0 is Err,
    ensures
        records_from(c0, n, rd) == Err::<Seq<T>, ParseError>(rd(c).0->Err_0),
{
}

/// After the last record the list is what was read.
pub proof fn lemma_records_done<T>(c0: Cur, n: nat, rd: Reader<T>, done: Seq<T>, c: Cur)
    requires records_progress(c0, n, rd, done, c, 0),
    ensures records_from(c0, n, rd) == Ok::<Seq<T>, ParseError>(done),
{
    if let Ok(all) = records_from(c0, n, rd) {
        assert(all =~= done);
    }
}

/// `done` put in front of the records a read gives.
pub open spec fn prefixed<T>(done: Seq<T>, r: (Result<Seq<T>, ParseError>, Cur)) -> (Result<Seq<T>, ParseError>, Cur) {
    match r.0 {
        Ok(rest) => (Ok(done + rest), r.1),
        Err(e) => (Err(e), r.1),
    }
}

/// `n` records read by `rd`, one after another, with the cursor where reading stopped.
pub open spec fn read_n<T>(c: Cur, n: nat, rd: Reader<T>) -> (Result<Seq<T>, ParseError>, Cur)
    decreases n,
{
    if n == 0 {
        (Ok(Seq::empty()), c)
    } else {
        match rd(c) {
            (Err(e), c1) => (Err(e), c1),
            (Ok(x), c1) => prefixed(seq![x], read_n(c1, (n - 1) as nat, rd)),
        }
    }
}

/// One more record read keeps the state of a `read_n` loop.
pub proof fn lemma_read_n_step<T>(c0: Cur, n: nat, rd: Reader<T>, done: Seq<T>, c: Cur, left: nat)
    requires
        left > 0,
        read_n(c0, n, rd) == prefixed(done, read_n(c, left, rd)),
        rd(c).0 is Ok,
    ensures
        read_n(c0, n, rd) == prefixed(done.push(rd(c).0->Ok_0), read_n(rd(c).1, (left - 1) as nat, rd)),
{
    let x = rd(c).0->Ok_0;
    let r = read_n(rd(c).1, (left - 1) as nat, rd);
    if let Ok(rest) = r.0 {
        assert(done + (seq![x] + rest) =~= done.push(x) + rest);
    }
}

/// A failed read ends a `read_n` loop with its error where it stopped.
pub proof fn lemma_read_n_fail<T>(c0: Cur, n: nat, rd: Reader<T>, done: Seq<T>, c: Cur, left: nat)
    requires
        left > 0,
        read_n(c0, n, rd) == prefixed(done, read_n(c, left, rd)),
        rd(c).0 is Err,
    ensures
        read_n(c0, n, rd) == (Err::<Seq<T>, ParseError>(rd(c).0->Err_0), rd(c).1),
{
}

/// At the start of a `read_n` loop nothing is read yet.
pub proof fn lemma_read_n_start<T>(c0: Cur, n: nat, rd: Reader<T>)
    ensures read_n(c0, n, rd) == prefixed(Seq::<T>::empty(), read_n(c0, n, rd)),
{
    if let Ok(rest) = read_n(c0, n, rd).0 {
        assert(Seq::<T>::empty() + rest =~= rest);
    }
}

/// At the end of a `read_n` loop the records are what was read.
pub proof fn lemma_read_n_done<T>(c0: Cur, n: nat, rd: Reader<T>, done: Seq<T>, c: Cur)
    requires read_n(c0, n, rd) == prefixed(done, read_n(c, 0, rd)),
    ensures read_n(c0, n, rd) == (Ok::<Seq<T>, ParseError>(done), c),
{
    assert(done + Seq::<T>::empty() =~= done);
}

/// Reading a `u16` length and then that many bytes.
pub open spec fn rd_prefixed(c: Cur, context: &'static str) -> (Result<Seq<u8>, ParseError>, Cur) {
    let (r, c1) = rd_u16(c);
    match r {
        Err(e) => (Err(e), c1),
        Ok(n) => rd_slice(c1, n as int, context),
    }
}

/// Reading a varint.
pub open spec fn rd_varint(c: Cur, context: &'static str) -> (Result<u64, ParseError>, Cur) {
    let s = c.rest();
    let j = varint_stop(s, 0);
    if j >= 10 {
        (Err(mk_err(ErrorKind::InvalidLength, c.abs_at(10), context)), c.adv(10))
    } else if j >= s.len() {
        (Err(mk_err(ErrorKind::UnexpectedEof, c.abs_at(s.len() as int), "u8")), c.adv(s.len() as int))
    } else {
        (Ok(varint_acc(s, (j + 1) as nat)), c.adv(j + 1))
    }
}

/// Reading a zigzag-encoded varint.
pub open spec fn rd_zigzag(c: Cur, context: &'static str) -> (Result<i64, ParseError>, Cur) {
    let (r, c1) = rd_varint(c, context);
    match r {
        Err(e) => (Err(e), c1),
        Ok(v) => (Ok(zigzag(v) as i64), c1),
    }
}

/// The bytes of a slice result.
pub open spec fn slice_res(r: Result<&[u8], ParseError>) -> Result<Seq<u8>, ParseError> {
    match r {
        Ok(s) => Ok(s@),
        Err(e) => Err(e),
    }
}

/// A forward-only reader over a byte slice that reports absolute offsets (`base` plus the
/// position within the slice).
#[derive(Clone, Copy, Debug)]
pub struct ByteCursor<'a> {
    data: &'a [u8],
    pos: usize,
    base: usize,
}

impl<'a> ByteCursor<'a> {
    /// The bytes read over.
    pub closed spec fn data(&self) -> Seq<u8> { self.data@ }

    /// The current position within `data`.
    pub closed spec fn pos(&self) -> int { self.pos as int }

    /// The absolute offset of `data[0]`.
    pub closed spec fn base(&self) -> usize { self.base }

    #[verifier::type_invariant]
    closed spec fn inv(&self) -> bool { self.pos <= self.data@.len() }

    /// The abstract state of the cursor.
    pub open spec fn view(&self) -> Cur { Cur { data: self.data(), pos: self.pos(), base: self.base() } }

    /// Bytes left to read.
    pub open spec fn avail(&self) -> int { self.data().len() - self.pos() }

    /// The unread bytes.
    pub open spec fn rest(&self) -> Seq<u8> { self.data().subrange(self.pos(), self.data().len() as int) }

    /// The byte `k` places after the current position.
    pub open spec fn at(&self, k: int) -> u8 { self.data()[self.pos() + k] }

    /// The absolute offset `k` bytes after the current position (saturated).
    pub open spec fn abs_at(&self, k: int) -> usize { sat_add(self.base() as int, self.pos() + k) }

    /// The cursor is well formed: its position lies within its data.
    pub open spec fn wf(&self) -> bool { 0 <= self.pos() <= self.data().len() && self.pos() <= usize::MAX }

    /// `next` reads the same data as `self`, `k` bytes further on.
    pub open spec fn advanced(&self, next: &Self, k: int) -> bool {
        &&& next.data() == self.data()
        &&& next.base() == self.base()
        &&& next.pos() == self.pos() + k
    }

    /// The error reported when fewer than `n` bytes are left (a read that would run past the
    /// end of the address space reports an invalid length instead).
    pub open spec fn short_err(&self, n: int, context: &'static str) -> ParseError {
        if self.pos() + n > usize::MAX {
            mk_err(ErrorKind::InvalidLength, self.abs_at(0), context)
        } else {
            mk_err(ErrorKind::UnexpectedEof, self.abs_at(0), context)
        }
    }

    /// The error reported when, `k` bytes on, fewer than `n` bytes are left.
    pub open spec fn short_err_at(&self, k: int, n: int, context: &'static str) -> ParseError {
        if self.pos() + k + n > usize::MAX {
            mk_err(ErrorKind::InvalidLength, self.abs_at(k), context)
        } else {
            mk_err(ErrorKind::UnexpectedEof, self.abs_at(k), context)
        }
    }

    /// The length announced by the little-endian `u16` at the current position.
    pub open spec fn prefix_len(&self) -> int { le16(self.data(), self.pos()) }

    pub fn new(data: &'a [u8]) -> (c: Self)
        ensures c.data() == data@, c.pos() == 0, c.base() == 0, c.wf(),
    {
        ByteCursor { data, pos: 0, base: 0 }
    }

    pub fn with_base(data: &'a [u8], base: usize) -> (c: Self)
        ensures c.data() == data@, c.pos() == 0, c.base() == base, c.wf(),
    {
        ByteCursor { data, pos: 0, base }
    }

    pub fn len(&self) -> (n: usize)
        ensures n == self.data().len(), self.wf(),
    {
        proof { use_type_invariant(self); }
        self.data.len()
    }

    pub fn is_empty(&self) -> (b: bool)
        ensures b == (self.avail() == 0), self.wf(),
    {
        proof { use_type_invariant(self); }
        self.pos == self.data.len()
    }

    pub fn position(&self) -> (p: usize)
        ensures p == self.pos(), self.wf(),
    {
        proof { use_type_invariant(self); }
        self.pos
    }

    pub fn absolute_position(&self) -> (p: usize)
        ensures p == self.abs_at(0), self.wf(),
    {
        proof { use_type_invariant(self); }
        self.base.saturating_add(self.pos)
    }

    pub fn remaining(&self) -> (n: usize)
        ensures n == self.avail(), self.wf(),
    {
        proof { use_type_invariant(self); }
        self.data.len() - self.pos
    }

    pub fn as_slice(&self) -> (s: &'a [u8])
        ensures s@ == self.data(), self.wf(),
    {
        proof { use_type_invariant(self); }
        self.data
    }

    pub fn tail(&self) -> (s: &'a [u8])
        ensures s@ == self.rest(), self.wf(),
    {
        proof { use_type_invariant(self); }
        &self.data[self.pos..self.data.len()]
    }

    pub fn peek_u8(&self) -> (r: ParseResult<u8>)
        ensures
            self.wf(),
            self.avail() > 0 ==> r == Ok::<u8, ParseError>(self.at(0)),
            self.avail() == 0 ==> r == Err::<u8, ParseError>(mk_err(ErrorKind::UnexpectedEof, self.abs_at(0), "u8")),
    {
        proof { use_type_invariant(self); }
        if self.pos < self.data.len() {
            Ok(self.data[self.pos])
        } else {
            Err(ParseError::eof(self.absolute_position(), "u8"))
        }
    }

    pub fn read_u8(&mut self) -> (r: ParseResult<u8>)
        ensures
            (r, final(self).view()) == rd_u8(old(self).view()),
            old(self).wf(), final(self).wf(),
            old(self).avail() > 0 ==> r == Ok::<u8, ParseError>(old(self).at(0)) && old(self).advanced(&*final(self), 1),
            old(self).avail() == 0 ==> r == Err::<u8, ParseError>(mk_err(ErrorKind::UnexpectedEof, old(self).abs_at(0), "u8"))
                && *final(self) == *old(self),
    {
        proof { use_type_invariant(&*self); }
        if self.pos < self.data.len() {
            let value = self.data[self.pos];
            self.pos = self.pos + 1;
            Ok(value)
        } else {
            Err(ParseError::eof(self.absolute_position(), "u8"))
        }
    }

    pub fn read_i8(&mut self) -> (r: ParseResult<i8>)
        ensures
            old(self).wf(), final(self).wf(),
            old(self).avail() > 0 ==> (r matches Ok(v) && v == as_i8(old(self).at(0) as int)
                && old(self).advanced(&*final(self), 1)),
            old(self).avail() == 0 ==> r == Err::<i8, ParseError>(mk_err(ErrorKind::UnexpectedEof, old(self).abs_at(0), "u8"))
                && *final(self) == *old(self),
    {
        let b = self.read_u8()?;
        if b < 128 { Ok(b as i8) } else { Ok(((b - 128) as i8) - 127 - 1) }
    }

    pub fn read_bool(&mut self) -> (r: ParseResult<bool>)
        ensures
            old(self).wf(), final(self).wf(),
            old(self).avail() > 0 && old(self).at(0) <= 1 ==> r == Ok::<bool, ParseError>(old(self).at(0) == 1)
                && old(self).advanced(&*final(self), 1),
            old(self).avail() > 0 && old(self).at(0) > 1 ==> r == Err::<bool, ParseError>(mk_err(
                ErrorKind::InvalidValue, sat_add(old(self).abs_at(1) as int, -1), "bool"))
                && old(self).advanced(&*final(self), 1),
            old(self).avail() == 0 ==> r == Err::<bool, ParseError>(mk_err(ErrorKind::UnexpectedEof, old(self).abs_at(0), "u8"))
                && *final(self) == *old(self),
    {
        let b = self.read_u8()?;
        if b == 0 {
            Ok(false)
        } else if b == 1 {
            Ok(true)
        } else {
            Err(ParseError::invalid_value(self.absolute_position().saturating_sub(1), "bool"))
        }
    }

    pub fn read_slice(&mut self, len: usize, context: &'static str) -> (r: ParseResult<&'a [u8]>)
        ensures
            (slice_res(r), final(self).view()) == rd_slice(old(self).view(), len as int, context),
            old(self).wf(), final(self).wf(),
            old(self).avail() >= len ==> (r matches Ok(s) && s@ == old(self).rest().take(len as int)
                && old(self).advanced(&*final(self), len as int)),
            old(self).avail() < len ==> r == Err::<&[u8], ParseError>(old(self).short_err(len as int, context))
                && *final(self) == *old(self),
    {
        proof { use_type_invariant(&*self); }
        let dlen = self.data.len();
        let end = match self.pos.checked_add(len) {
            Some(end) => end,
            None => { return Err(ParseError::invalid_length(self.absolute_position(), context)); },
        };
        if end > self.data.len() {
            return Err(ParseError::eof(self.absolute_position(), context));
        }
        let out = &self.data[self.pos..end];
        proof { assert(out@ =~= old(self).rest().take(len as int)); }
        self.pos = end;
        Ok(out)
    }

    pub fn read_array<const N: usize>(&mut self, context: &'static str) -> (r: ParseResult<[u8; N]>)
        ensures
            old(self).wf(), final(self).wf(),
            old(self).avail() >= N ==> (r matches Ok(a) && a@ == old(self).rest().take(N as int)
                && old(self).advanced(&*final(self), N as int)),
            old(self).avail() < N ==> r == Err::<[u8; N], ParseError>(old(self).short_err(N as int, context))
                && *final(self) == *old(self),
    {
        let slice = self.read_slice(N, context)?;
        Ok(slice_to_array::<N>(slice))
    }


    pub fn read_u16(&mut self) -> (r: ParseResult<u16>)
        ensures
            (r, final(self).view()) == rd_u16(old(self).view()),
            old(self).wf(), final(self).wf(),
            old(self).avail() >= 2 ==> (r matches Ok(v) && v == le16(old(self).data(), old(self).pos())
                && old(self).advanced(&*final(self), 2)),
            old(self).avail() < 2 ==> r == Err::<u16, ParseError>(old(self).short_err(2, "u16"))
                && *final(self) == *old(self),
    {
        let b = self.read_slice(2, "u16")?;
        Ok(b[0] as u16 + (b[1] as u16) * 0x100)
    }

    pub fn read_be_u16(&mut self) -> (r: ParseResult<u16>)
        ensures
            old(self).wf(), final(self).wf(),
            old(self).avail() >= 2 ==> (r matches Ok(v) && v == be16(old(self).data(), old(self).pos())
                && old(self).advanced(&*final(self), 2)),
            old(self).avail() < 2 ==> r == Err::<u16, ParseError>(old(self).short_err(2, "be_u16"))
                && *final(self) == *old(self),
    {
        let b = self.read_slice(2, "be_u16")?;
        Ok((b[0] as u16) * 0x100 + b[1] as u16)
    }

    pub fn read_u32(&mut self) -> (r: ParseResult<u32>)
        ensures
            (r, final(self).view()) == rd_u32(old(self).view()),
            old(self).wf(), final(self).wf(),
            old(self).avail() >= 4 ==> (r matches Ok(v) && v == le32(old(self).data(), old(self).pos())
                && old(self).advanced(&*final(self), 4)),
            old(self).avail() < 4 ==> r == Err::<u32, ParseError>(old(self).short_err(4, "u32"))
                && *final(self) == *old(self),
    {
        let b = self.read_slice(4, "u32")?;
        Ok(b[0] as u32 + (b[1] as u32) * 0x100 + (b[2] as u32) * 0x1_0000 + (b[3] as u32) * 0x100_0000)
    }

    pub fn read_be_u32(&mut self) -> (r: ParseResult<u32>)
        ensures
            old(self).wf(), final(self).wf(),
            old(self).avail() >= 4 ==> (r matches Ok(v) && v == be32(old(self).data(), old(self).pos())
                && old(self).advanced(&*final(self), 4)),
            old(self).avail() < 4 ==> r == Err::<u32, ParseError>(old(self).short_err(4, "be_u32"))
                && *final(self) == *old(self),
    {
        let b = self.read_slice(4, "be_u32")?;
        Ok((b[0] as u32) * 0x100_0000 + (b[1] as u32) * 0x1_0000 + (b[2] as u32) * 0x100 + b[3] as u32)
    }

    pub fn read_u64(&mut self) -> (r: ParseResult<u64>)
        ensures
            (r, final(self).view()) == rd_u64(old(self).view()),
            old(self).wf(), final(self).wf(),
            old(self).avail() >= 8 ==> (r matches Ok(v) && v == le64(old(self).data(), old(self).pos())
                && old(self).advanced(&*final(self), 8)),
            old(self).avail() < 8 ==> r == Err::<u64, ParseError>(old(self).short_err(8, "u64"))
                && *final(self) == *old(self),
    {
        let b = self.read_slice(8, "u64")?;
        Ok(b[0] as u64 + (b[1] as u64) * 0x100 + (b[2] as u64) * 0x1_0000 + (b[3] as u64) * 0x100_0000
            + (b[4] as u64) * 0x1_0000_0000 + (b[5] as u64) * 0x100_0000_0000
            + (b[6] as u64) * 0x1_0000_0000_0000 + (b[7] as u64) * 0x100_0000_0000_0000)
    }

    pub fn read_i16(&mut self) -> (r: ParseResult<i16>)
        ensures
            (r, final(self).view()) == rd_i16(old(self).view()),
            old(self).wf(), final(self).wf(),
            old(self).avail() >= 2 ==> (r matches Ok(v) && v == as_i16(le16(old(self).data(), old(self).pos()))
                && old(self).advanced(&*final(self), 2)),
            old(self).avail() < 2 ==> r == Err::<i16, ParseError>(old(self).short_err(2, "i16"))
                && *final(self) == *old(self),
    {
        let u = self.read_slice_le16("i16")?;
        if u < 0x8000 { Ok(u as i16) } else { Ok(((u - 0x8000) as i16) - 0x7fff - 1) }
    }

    pub fn read_i32(&mut self) -> (r: ParseResult<i32>)
        ensures
            (r, final(self).view()) == rd_i32(old(self).view()),
            old(self).wf(), final(self).wf(),
            old(self).avail() >= 4 ==> (r matches Ok(v) && v == as_i32(le32(old(self).data(), old(self).pos()))
                && old(self).advanced(&*final(self), 4)),
            old(self).avail() < 4 ==> r == Err::<i32, ParseError>(old(self).short_err(4, "i32"))
                && *final(self) == *old(self),
    {
        let u = self.read_slice_le32("i32")?;
        if u < 0x8000_0000 { Ok(u as i32) } else { Ok(((u - 0x8000_0000) as i32) - 0x7fff_ffff - 1) }
    }

    pub fn read_i64(&mut self) -> (r: ParseResult<i64>)
        ensures
            old(self).wf(), final(self).wf(),
            old(self).avail() >= 8 ==> (r matches Ok(v) && v == as_i64(le64(old(self).data(), old(self).pos()))
                && old(self).advanced(&*final(self), 8)),
            old(self).avail() < 8 ==> r == Err::<i64, ParseError>(old(self).short_err(8, "i64"))
                && *final(self) == *old(self),
    {
        let u = self.read_slice_le64("i64")?;
        if u < 0x8000_0000_0000_0000 { Ok(u as i64) } else { Ok(((u - 0x8000_0000_0000_0000) as i64) - 0x7fff_ffff_ffff_ffff - 1) }
    }

    fn read_slice_le16(&mut self, context: &'static str) -> (r: ParseResult<u16>)
        ensures
            old(self).wf(), final(self).wf(),
            old(self).avail() >= 2 ==> (r matches Ok(v) && v == le16(old(self).data(), old(self).pos())
                && old(self).advanced(&*final(self), 2)),
            old(self).avail() < 2 ==> r == Err::<u16, ParseError>(old(self).short_err(2, context))
                && *final(self) == *old(self),
    {
        let b = self.read_slice(2, context)?;
        Ok(b[0] as u16 + (b[1] as u16) * 0x100)
    }

    fn read_slice_le32(&mut self, context: &'static str) -> (r: ParseResult<u32>)
        ensures
            old(self).wf(), final(self).wf(),
            old(self).avail() >= 4 ==> (r matches Ok(v) && v == le32(old(self).data(), old(self).pos())
                && old(self).advanced(&*final(self), 4)),
            old(self).avail() < 4 ==> r == Err::<u32, ParseError>(old(self).short_err(4, context))
                && *final(self) == *old(self),
    {
        let b = self.read_slice(4, context)?;
        Ok(b[0] as u32 + (b[1] as u32) * 0x100 + (b[2] as u32) * 0x1_0000 + (b[3] as u32) * 0x100_0000)
    }

    fn read_slice_le64(&mut self, context: &'static str) -> (r: ParseResult<u64>)
        ensures
            old(self).wf(), final(self).wf(),
            old(self).avail() >= 8 ==> (r matches Ok(v) && v == le64(old(self).data(), old(self).pos())
                && old(self).advanced(&*final(self), 8)),
            old(self).avail() < 8 ==> r == Err::<u64, ParseError>(old(self).short_err(8, context))
                && *final(self) == *old(self),
    {
        let b = self.read_slice(8, context)?;
        Ok(b[0] as u64 + (b[1] as u64) * 0x100 + (b[2] as u64) * 0x1_0000 + (b[3] as u64) * 0x100_0000
            + (b[4] as u64) * 0x1_0000_0000 + (b[5] as u64) * 0x100_0000_0000
            + (b[6] as u64) * 0x1_0000_0000_0000 + (b[7] as u64) * 0x100_0000_0000_0000)
    }

    pub fn read_u24(&mut self) -> (r: ParseResult<u32>)
        ensures
            old(self).wf(), final(self).wf(),
            old(self).avail() >= 3 ==> (r matches Ok(v) && v == le24(old(self).data(), old(self).pos())
                && old(self).advanced(&*final(self), 3)),
            old(self).avail() < 3 ==> r == Err::<u32, ParseError>(mk_err(ErrorKind::UnexpectedEof, old(self).abs_at(old(self).avail()), "u8"))
                && old(self).advanced(&*final(self), old(self).avail()),
    {
        let b0 = self.read_u8()? as u32;
        let b1 = self.read_u8()? as u32;
        let b2 = self.read_u8()? as u32;
        Ok(b0 + b1 * 0x100 + b2 * 0x1_0000)
    }

    pub fn read_length_prefixed(&mut self, context: &'static str) -> (r: ParseResult<&'a [u8]>)
        ensures
            (slice_res(r), final(self).view()) == rd_prefixed(old(self).view(), context),
            old(self).wf(), final(self).wf(),
            old(self).avail() < 2 ==> r == Err::<&[u8], ParseError>(old(self).short_err(2, "u16"))
                && *final(self) == *old(self),
            old(self).avail() >= 2 && old(self).avail() - 2 < old(self).prefix_len() ==>
                r == Err::<&[u8], ParseError>(old(self).short_err_at(2, old(self).prefix_len(), context))
                && old(self).advanced(&*final(self), 2),
            old(self).avail() >= 2 && old(self).avail() - 2 >= old(self).prefix_len() ==>
                (r matches Ok(s) && s@ == old(self).rest().subrange(2, 2 + old(self).prefix_len())
                && old(self).advanced(&*final(self), 2 + old(self).prefix_len())),
    {
        let len = self.read_u16()? as usize;
        let r = self.read_slice(len, context);
        proof {
            if r is Ok {
                assert(r->Ok_0@ =~= old(self).rest().subrange(2, 2 + old(self).prefix_len()));
            }
        }
        r
    }

    pub fn read_varint(&mut self, context: &'static str) -> (r: ParseResult<u64>)
        ensures
            (r, final(self).view()) == rd_varint(old(self).view(), context),
            old(self).wf(), final(self).wf(),
            ({
                let s = old(self).rest();
                let j = varint_stop(s, 0);
                &&& j < 10 && j < s.len() ==> r == Ok::<u64, ParseError>(varint_acc(s, (j + 1) as nat))
                    && old(self).advanced(&*final(self), j + 1)
                &&& j >= 10 ==> r == Err::<u64, ParseError>(mk_err(ErrorKind::InvalidLength, old(self).abs_at(10), context))
                    && old(self).advanced(&*final(self), 10)
                &&& j < 10 && j >= s.len() ==> r == Err::<u64, ParseError>(mk_err(ErrorKind::UnexpectedEof, old(self).abs_at(s.len() as int), "u8"))
                    && old(self).advanced(&*final(self), s.len() as int)
            }),
    {
        let ghost s = old(self).rest();
        let ghost start = *old(self);
        proof { use_type_invariant(&*self); }
        let mut result = 0u64;
        let mut shift = 0u32;
        let mut i: usize = 0;
        while i < 10
            invariant
                0 <= i <= 10,
                start == *old(self),
                start.wf(), self.wf(),
                s == start.rest(),
                start.advanced(&*self, i as int),
                i <= s.len(),
                shift == 7 * i,
                result == varint_acc(s, i as nat),
                forall|k: int| 0 <= k < i ==> s[k] & 0x80 != 0,
            decreases 10 - i,
        {
            proof { lemma_varint_stop_skip(s, i as int); }
            let byte = self.read_u8()?;
            proof { assert(byte == s[i as int]); }
            result = result | (((byte & 0x7f) as u64) << shift);
            if byte & 0x80 == 0 {
                return Ok(result);
            }
            shift = shift + 7;
            i = i + 1;
        }
        proof { lemma_varint_stop_skip(s, 10); }
        Err(ParseError::invalid_length(self.absolute_position(), context))
    }

    pub fn read_zigzag_i64(&mut self, context: &'static str) -> (r: ParseResult<i64>)
        ensures
            (r, final(self).view()) == rd_zigzag(old(self).view(), context),
            old(self).wf(), final(self).wf(),
            ({
                let s = old(self).rest();
                let j = varint_stop(s, 0);
                &&& j < 10 && j < s.len() ==> r == Ok::<i64, ParseError>(zigzag(varint_acc(s, (j + 1) as nat)) as i64)
                    && old(self).advanced(&*final(self), j + 1)
                &&& j >= 10 ==> r == Err::<i64, ParseError>(mk_err(ErrorKind::InvalidLength, old(self).abs_at(10), context))
                    && old(self).advanced(&*final(self), 10)
                &&& j < 10 && j >= s.len() ==> r == Err::<i64, ParseError>(mk_err(ErrorKind::UnexpectedEof, old(self).abs_at(s.len() as int), "u8"))
                    && old(self).advanced(&*final(self), s.len() as int)
            }),
    {
        let value = self.read_varint(context)?;
        let half = value / 2;
        if value % 2 == 0 {
            Ok(half as i64)
        } else {
            Ok(-(half as i64) - 1)
        }
    }

    pub fn read_utf8(&mut self, context: &'static str) -> (r: ParseResult<&'a str>)
        ensures
            old(self).wf(), final(self).wf(),
            old(self).avail() < 2 ==> r == Err::<&str, ParseError>(old(self).short_err(2, "u16"))
                && *final(self) == *old(self),
            old(self).avail() >= 2 && old(self).avail() - 2 < old(self).prefix_len() ==>
                r == Err::<&str, ParseError>(old(self).short_err_at(2, old(self).prefix_len(), context))
                && old(self).advanced(&*final(self), 2),
            old(self).avail() >= 2 && old(self).avail() - 2 >= old(self).prefix_len() ==> ({
                let bytes = old(self).rest().subrange(2, 2 + old(self).prefix_len());
                &&& old(self).advanced(&*final(self), 2 + old(self).prefix_len())
                &&& valid_utf8(bytes) ==> (r matches Ok(t) && t@ == decode_utf8(bytes))
                &&& !valid_utf8(bytes) ==> r == Err::<&str, ParseError>(mk_err(ErrorKind::InvalidUtf8, old(self).abs_at(0), context))
            }),
    {
        let start = self.absolute_position();
        let bytes = self.read_length_prefixed(context)?;
        match utf8_str(bytes) {
            Some(text) => Ok(text),
            None => Err(ParseError::invalid_utf8(start, context)),
        }
    }

    pub fn skip(&mut self, len: usize, context: &'static str) -> (r: ParseResult<()>)
        ensures
            old(self).wf(), final(self).wf(),
            old(self).avail() >= len ==> r is Ok && old(self).advanced(&*final(self), len as int),
            old(self).avail() < len ==> r == Err::<(), ParseError>(old(self).short_err(len as int, context))
                && *final(self) == *old(self),
    {
        self.read_slice(len, context)?;
        Ok(())
    }

    pub fn subcursor(&mut self, len: usize, context: &'static str) -> (r: ParseResult<ByteCursor<'a>>)
        ensures
            old(self).wf(), final(self).wf(),
            old(self).avail() >= len ==> (r matches Ok(c) && c.data() == old(self).rest().take(len as int)
                && c.pos() == 0 && c.base() == old(self).abs_at(0) && c.wf()
                && old(self).advanced(&*final(self), len as int)),
            old(self).avail() < len ==> r == Err::<ByteCursor, ParseError>(old(self).short_err(len as int, context))
                && *final(self) == *old(self),
    {
        let start = self.absolute_position();
        let slice = self.read_slice(len, context)?;
        Ok(ByteCursor::with_base(slice, start))
    }

    pub fn take_remaining(&mut self) -> (s: &'a [u8])
        ensures
            old(self).wf(), final(self).wf(),
            s@ == old(self).rest(),
            old(self).advanced(&*final(self), old(self).avail()),
    {
        proof { use_type_invariant(&*self); }
        let out = &self.data[self.pos..self.data.len()];
        self.pos = self.data.len();
        out
    }

    pub fn expect_magic(&mut self, magic: &[u8], context: &'static str) -> (r: ParseResult<()>)
        ensures
            (r, final(self).view()) == rd_magic(old(self).view(), magic@, context),
            old(self).wf(), final(self).wf(),
            old(self).avail() < magic@.len() ==> r == Err::<(), ParseError>(old(self).short_err(magic@.len() as int, context))
                && *final(self) == *old(self),
            old(self).avail() >= magic@.len() ==> old(self).advanced(&*final(self), magic@.len() as int)
                && (old(self).rest().take(magic@.len() as int) == magic@ ==> r is Ok)
                && (old(self).rest().take(magic@.len() as int) != magic@ ==>
                    r == Err::<(), ParseError>(mk_err(ErrorKind::InvalidMagic, old(self).abs_at(0), context))),
    {
        let start = self.absolute_position();
        let bytes = self.read_slice(magic.len(), context)?;
        if bytes_eq(bytes, magic) {
            Ok(())
        } else {
            Err(ParseError::invalid_magic(start, context))
        }
    }

    pub fn seek(&mut self, pos: usize, context: &'static str) -> (r: ParseResult<()>)
        ensures
            old(self).wf(), final(self).wf(),
            pos <= old(self).data().len() ==> r is Ok && final(self).data() == old(self).data()
                && final(self).base() == old(self).base() && final(self).pos() == pos,
            pos > old(self).data().len() ==> r == Err::<(), ParseError>(mk_err(ErrorKind::InvalidLength,
                sat_add(old(self).base() as int, pos as int), context)) && *final(self) == *old(self),
    {
        proof { use_type_invariant(&*self); }
        if pos <= self.data.len() {
            self.pos = pos;
            Ok(())
        } else {
            Err(ParseError::invalid_length(self.base.saturating_add(pos), context))
        }
    }

    pub fn align(&mut self, modulus: usize, context: &'static str) -> (r: ParseResult<()>)
        ensures
            old(self).wf(), final(self).wf(),
            modulus == 0 ==> r == Err::<(), ParseError>(mk_err(ErrorKind::InvalidValue, old(self).abs_at(0), context))
                && *final(self) == *old(self),
            modulus > 0 && old(self).pos() % (modulus as int) == 0 ==> r is Ok && *final(self) == *old(self),
            modulus > 0 && old(self).pos() % (modulus as int) != 0 ==> ({
                let gap = modulus - old(self).pos() % (modulus as int);
                &&& old(self).avail() >= gap ==> r is Ok && old(self).advanced(&*final(self), gap)
                &&& old(self).avail() < gap ==> r == Err::<(), ParseError>(old(self).short_err(gap, context))
                    && *final(self) == *old(self)
            }),
    {
        proof { use_type_invariant(&*self); }
        if modulus == 0 {
            return Err(ParseError::invalid_value(self.absolute_position(), context));
        }
        let rem = self.pos % modulus;
        if rem == 0 {
            return Ok(());
        }
        self.skip(modulus - rem, context)
    }

    pub fn fork(&self) -> (c: Self)
        ensures c == *self, self.wf(),
    {
        proof { use_type_invariant(self); }
        *self
    }
}

/// Whether two byte slices hold the same bytes.
pub fn bytes_eq(a: &[u8], b: &[u8]) -> (r: bool)
    ensures r == (a@ == b@),
{
    if a.len() != b.len() {
        return false;
    }
    let mut i: usize = 0;
    while i < a.len()
        invariant
            a@.len() == b@.len(),
            0 <= i <= a@.len(),
            forall|k: int| 0 <= k < i ==> a@[k] == b@[k],
        decreases a@.len() - i,
    {
        if a[i] != b[i] {
            return false;
        }
        i = i + 1;
    }
    proof { assert(a@ =~= b@); }
    true
}

pub proof fn lemma_varint_stop_skip(s: Seq<u8>, i: int)
    requires
        0 <= i <= 10, i <= s.len(),
        forall|k: int| 0 <= k < i ==> s[k] & 0x80 != 0,
    ensures varint_stop(s, 0) == varint_stop(s, i),
    decreases i,
{
    if i > 0 {
        lemma_varint_stop_skip(s, i - 1);
        assert(varint_stop(s, i - 1) == varint_stop(s, i));
    }
}

} // verus!
