use vstd::prelude::*;
use crate::cursor::{ByteCursor, Cur, rd_u8, rd_u16, rd_u32, rd_slice};
use crate::error::{ErrorKind, ParseError, ParseResult, mk_err};

verus! {

/// The section a TLV entry holds.
#[derive(Debug, Clone, Copy, PartialEq, Eq, Hash, Structural)]
pub enum Tag {
    Vessel,
    Berth,
    Cargo,
    Tide,
    Route,
    Pilot,
    Notice,
    Dictionary,
    Template,
    Ledger,
    Segment,
    Signature,
    Unknown,
}

/// The tag that byte `b` names: 0x01 to 0x0c in declaration order, anything else unknown.
pub open spec fn tag_of(b: u8) -> Tag {
    if b == 0x01 { Tag::Vessel }
    else if b == 0x02 { Tag::Berth }
    else if b == 0x03 { Tag::Cargo }
    else if b == 0x04 { Tag::Tide }
    else if b == 0x05 { Tag::Route }
    else if b == 0x06 { Tag::Pilot }
    else if b == 0x07 { Tag::Notice }
    else if b == 0x08 { Tag::Dictionary }
    else if b == 0x09 { Tag::Template }
    else if b == 0x0a { Tag::Ledger }
    else if b == 0x0b { Tag::Segment }
    else if b == 0x0c { Tag::Signature }
    else { Tag::Unknown }
}

/// The lowercase name of a tag.
pub open spec fn tag_name(t: Tag) -> &'static str {
    match t {
        Tag::Vessel => "vessel",
        Tag::Berth => "berth",
        Tag::Cargo => "cargo",
        Tag::Tide => "tide",
        Tag::Route => "route",
        Tag::Pilot => "pilot",
        Tag::Notice => "notice",
        Tag::Dictionary => "dictionary",
        Tag::Template => "template",
        Tag::Ledger => "ledger",
        Tag::Segment => "segment",
        Tag::Signature => "signature",
        Tag::Unknown => "unknown",
    }
}

impl Tag {
    pub fn from_byte(byte: u8) -> (t: Self)
        ensures t == tag_of(byte),
    {
        match byte {
            0x01 => Tag::Vessel,
            0x02 => Tag::Berth,
            0x03 => Tag::Cargo,
            0x04 => Tag::Tide,
            0x05 => Tag::Route,
            0x06 => Tag::Pilot,
            0x07 => Tag::Notice,
            0x08 => Tag::Dictionary,
            0x09 => Tag::Template,
            0x0a => Tag::Ledger,
            0x0b => Tag::Segment,
            0x0c => Tag::Signature,
            _ => Tag::Unknown,
        }
    }

    /// The tags whose values are lists of events.
    pub fn is_event(self) -> (b: bool)
        ensures b == (self is Vessel || self is Berth || self is Cargo || self is Tide || self is Route
            || self is Pilot || self is Notice),
    {
        match self {
            Tag::Vessel | Tag::Berth | Tag::Cargo | Tag::Tide | Tag::Route | Tag::Pilot | Tag::Notice => true,
            _ => false,
        }
    }

    pub fn name(self) -> (s: &'static str)
        ensures s == tag_name(self),
    {
        match self {
            Tag::Vessel => "vessel",
            Tag::Berth => "berth",
            Tag::Cargo => "cargo",
            Tag::Tide => "tide",
            Tag::Route => "route",
            Tag::Pilot => "pilot",
            Tag::Notice => "notice",
            Tag::Dictionary => "dictionary",
            Tag::Template => "template",
            Tag::Ledger => "ledger",
            Tag::Segment => "segment",
            Tag::Signature => "signature",
            Tag::Unknown => "unknown",
        }
    }
}

/// A tag byte, a flags byte, a length and that many value bytes; `offset` is the absolute
/// offset of the tag byte.
#[derive(Debug, Clone, Copy)]
pub struct Tlv<'a> {
    pub tag: Tag,
    pub raw_tag: u8,
    pub flags: u8,
    pub value: &'a [u8],
    pub offset: usize,
}

/// A TLV entry as values.
pub struct TlvView {
    pub tag: Tag,
    pub raw_tag: u8,
    pub flags: u8,
    pub value: Seq<u8>,
    pub offset: usize,
}

/// The entry read from raw tag, flags, value and offset.
pub open spec fn tlv_view_of(raw_tag: u8, flags: u8, value: Seq<u8>, offset: usize) -> TlvView {
    TlvView { tag: tag_of(raw_tag), raw_tag, flags, value, offset }
}

/// Entries as values.
pub open spec fn tlv_views<'a>(s: Seq<Tlv<'a>>) -> Seq<TlvView> {
    s.map_values(|t: Tlv<'a>| t.view())
}

/// The entry's critical bit (0x80 of the flags).
pub open spec fn flag_critical(flags: u8) -> bool { flags >= 0x80 }

/// The entry's compressed bit (0x40 of the flags).
pub open spec fn flag_compressed(flags: u8) -> bool { (flags / 0x40) % 2 == 1 }

/// The entry's fragmented bit (0x20 of the flags).
pub open spec fn flag_fragmented(flags: u8) -> bool { (flags / 0x20) % 2 == 1 }

impl<'a> Tlv<'a> {
    pub open spec fn view(&self) -> TlvView {
        TlvView { tag: self.tag, raw_tag: self.raw_tag, flags: self.flags, value: self.value@, offset: self.offset }
    }

    /// A cursor over the value, whose offsets count from four bytes after the tag byte.
    pub fn cursor(&self) -> (c: ByteCursor<'a>)
        requires self.offset + 4 <= usize::MAX,
        ensures c.data() == self.value@, c.pos() == 0, c.base() == self.offset + 4, c.wf(),
    {
        ByteCursor::with_base(self.value, self.offset + 4)
    }

    pub fn is_critical(&self) -> (b: bool)
        ensures b == flag_critical(self.flags),
    {
        let f = self.flags;
        proof { assert((f & 0x80 != 0) == (f >= 0x80)) by (bit_vector); }
        f & 0x80 != 0
    }

    pub fn is_compressed(&self) -> (b: bool)
        ensures b == flag_compressed(self.flags),
    {
        let f = self.flags;
        proof { assert((f & 0x40 != 0) == ((f / 0x40) % 2 == 1)) by (bit_vector); }
        f & 0x40 != 0
    }

    pub fn is_fragmented(&self) -> (b: bool)
        ensures b == flag_fragmented(self.flags),
    {
        let f = self.flags;
        proof { assert((f & 0x20 != 0) == ((f / 0x20) % 2 == 1)) by (bit_vector); }
        f & 0x20 != 0
    }
}

/// Reading one entry whose length field is read by `wide` (a `u32`) or not (a `u16`).
pub open spec fn rd_tlv_with(c: Cur, wide: bool) -> (Result<TlvView, ParseError>, Cur) {
    let offset = c.abs_at(0);
    match rd_u8(c) {
        (Err(e), c1) => (Err(e), c1),
        (Ok(raw), c1) => match rd_u8(c1) {
            (Err(e), c2) => (Err(e), c2),
            (Ok(flags), c2) => {
                let (rl, c3) = if wide {
                    match rd_u32(c2) { (Ok(v), cc) => (Ok(v as int), cc), (Err(e), cc) => (Err(e), cc) }
                } else {
                    match rd_u16(c2) { (Ok(v), cc) => (Ok(v as int), cc), (Err(e), cc) => (Err(e), cc) }
                };
                match rl {
                    Err(e) => (Err(e), c3),
                    Ok(len) => match rd_slice(c3, len, if wide { "tlv32 value" } else { "tlv value" }) {
                        (Err(e), c4) => (Err(e), c4),
                        (Ok(value), c4) => (Ok(tlv_view_of(raw, flags, value, offset)), c4),
                    },
                }
            },
        },
    }
}

/// The entries read one after another until the input is used up.
pub open spec fn tlvs_from(c: Cur) -> Result<Seq<TlvView>, ParseError>
    decreases c.data.len() - c.pos,
{
    if c.pos < 0 || c.pos >= c.data.len() {
        Ok(Seq::empty())
    } else {
        match rd_tlv_with(c, false) {
            (Err(e), _) => Err(e),
            (Ok(t), c1) => match tlvs_from(c1) {
                Err(e) => Err(e),
                Ok(rest) => Ok(seq![t] + rest),
            },
        }
    }
}

/// The entries of `data` (absolute offset `base`).
pub open spec fn tlvs_spec(data: Seq<u8>, base: usize) -> Result<Seq<TlvView>, ParseError> {
    tlvs_from(Cur { data, pos: 0, base })
}

/// Reads a TLV entry with a `u16` length.
pub fn read_tlv<'a>(cursor: &mut ByteCursor<'a>) -> (r: ParseResult<Tlv<'a>>)
    ensures
        ({
            let (sr, c) = rd_tlv_with(old(cursor).view(), false);
            &&& final(cursor).view() == c
            &&& final(cursor).wf()
            &&& match sr {
                Ok(t) => r matches Ok(x) && x.view() == t,
                Err(e) => r == Err::<Tlv, ParseError>(e),
            }
        }),
{
    let offset = cursor.absolute_position();
    let raw_tag = cursor.read_u8()?;
    let flags = cursor.read_u8()?;
    let len = cursor.read_u16()? as usize;
    let value = cursor.read_slice(len, "tlv value")?;
    Ok(Tlv { tag: Tag::from_byte(raw_tag), raw_tag, flags, value, offset })
}

/// Reads a TLV entry with a `u32` length.
pub fn read_tlv32<'a>(cursor: &mut ByteCursor<'a>) -> (r: ParseResult<Tlv<'a>>)
    ensures
        ({
            let (sr, c) = rd_tlv_with(old(cursor).view(), true);
            &&& final(cursor).view() == c
            &&& final(cursor).wf()
            &&& match sr {
                Ok(t) => r matches Ok(x) && x.view() == t,
                Err(e) => r == Err::<Tlv, ParseError>(e),
            }
        }),
{
    let offset = cursor.absolute_position();
    let raw_tag = cursor.read_u8()?;
    let flags = cursor.read_u8()?;
    let len = cursor.read_u32()? as usize;
    let value = cursor.read_slice(len, "tlv32 value")?;
    Ok(Tlv { tag: Tag::from_byte(raw_tag), raw_tag, flags, value, offset })
}

/// Reads entries until `data` is used up.
pub fn parse_all(data: &[u8], base: usize) -> (r: ParseResult<Vec<Tlv<'_>>>)
    ensures
        match tlvs_spec(data@, base) {
            Ok(ts) => r matches Ok(v) && tlv_views(v@) == ts,
            Err(e) => r == Err::<Vec<Tlv>, ParseError>(e),
        },
{
    let mut cursor = ByteCursor::with_base(data, base);
    let mut out: Vec<Tlv> = Vec::new();
    proof { assert(tlv_views(out@) =~= Seq::<TlvView>::empty()); }
    while !cursor.is_empty()
        invariant
            cursor.wf(),
            cursor.data() == data@,
            cursor.base() == base,
            match tlvs_spec(data@, base) {
                Ok(ts) => tlvs_from(cursor.view()) matches Ok(rest) && ts == tlv_views(out@) + rest,
                Err(e) => tlvs_from(cursor.view()) == Err::<Seq<TlvView>, ParseError>(e),
            },
        decreases cursor.avail(),
    {
        let ghost c0 = cursor.view();
        let t = read_tlv(&mut cursor)?;
        proof {
            assert(cursor.pos() >= c0.pos + 4);
            let rest1 = tlvs_from(cursor.view());
            if let Ok(r1) = rest1 {
                assert(tlv_views(out@.push(t)) =~= tlv_views(out@).push(t.view()));
                assert(tlv_views(out@) + (seq![t.view()] + r1) =~= tlv_views(out@).push(t.view()) + r1);
            }
        }
        out.push(t);
    }
    proof {
        if let Ok(ts) = tlvs_spec(data@, base) {
            assert(ts =~= tlv_views(out@));
        }
    }
    Ok(out)
}

/// The index of the first unknown entry marked critical, if any.
pub open spec fn first_unknown_critical(s: Seq<TlvView>) -> Option<int>
    decreases s.len(),
{
    if s.len() == 0 {
        None
    } else {
        match first_unknown_critical(s.drop_last()) {
            Some(i) => Some(i),
            None => if s.last().tag == Tag::Unknown && flag_critical(s.last().flags) { Some(s.len() - 1) } else { None },
        }
    }
}

/// Fails on the first entry with an unknown tag that is marked critical.
pub fn expect_only_known(entries: &[Tlv<'_>]) -> (r: ParseResult<()>)
    ensures
        match first_unknown_critical(tlv_views(entries@)) {
            None => r is Ok,
            Some(i) => r == Err::<(), ParseError>(mk_err(ErrorKind::UnknownSection, entries@[i].offset, "critical tlv")),
        },
{
    let mut i: usize = 0;
    while i < entries.len()
        invariant
            0 <= i <= entries@.len(),
            first_unknown_critical(tlv_views(entries@.take(i as int))) is None,
        decreases entries@.len() - i,
    {
        proof {
            assert(tlv_views(entries@.take(i + 1)).drop_last() =~= tlv_views(entries@.take(i as int)));
        }
        if entries[i].tag == Tag::Unknown && entries[i].is_critical() {
            proof {
                let pre = tlv_views(entries@.take(i + 1));
                assert(pre.last() == entries@[i as int].view());
                assert(first_unknown_critical(pre) == Some(i as int));
                assert(tlv_views(entries@).take(i + 1) =~= pre);
                lemma_first_unknown_prefix(tlv_views(entries@), (i + 1) as int);
            }
            return Err(ParseError::unknown_section(entries[i].offset, "critical tlv"));
        }
        i = i + 1;
    }
    proof { assert(entries@.take(i as int) =~= entries@); }
    Ok(())
}

/// The first unknown critical entry lies within the entries, and is unknown and critical.
pub proof fn lemma_first_unknown_in_range(s: Seq<TlvView>)
    ensures
        first_unknown_critical(s) matches Some(i) ==> 0 <= i < s.len() && s[i].tag == Tag::Unknown
            && flag_critical(s[i].flags),
    decreases s.len(),
{
    if s.len() > 0 {
        lemma_first_unknown_in_range(s.drop_last());
    }
}

/// A hit within a prefix is the hit of the whole.
proof fn lemma_first_unknown_prefix(s: Seq<TlvView>, n: int)
    requires 0 <= n <= s.len(), first_unknown_critical(s.take(n)) is Some,
    ensures first_unknown_critical(s) == first_unknown_critical(s.take(n)),
    decreases s.len() - n,
{
    if n < s.len() {
        assert(s.take(n + 1).drop_last() =~= s.take(n));
        lemma_first_unknown_prefix(s, n + 1);
    } else {
        assert(s.take(n) =~= s);
    }
}

/// Entries with tag `tag`.
pub open spec fn has_tag(tag: Tag) -> spec_fn(TlvView) -> bool {
    |t: TlvView| t.tag == tag
}

/// The entries with tag `tag`, in order.
pub open spec fn with_tag(s: Seq<TlvView>, tag: Tag) -> Seq<TlvView> {
    s.filter(has_tag(tag))
}

/// The first entry with tag `tag`.
pub fn first<'a>(entries: &'a [Tlv<'a>], tag: Tag) -> (r: Option<Tlv<'a>>)
    ensures
        with_tag(tlv_views(entries@), tag).len() == 0 ==> r is None,
        with_tag(tlv_views(entries@), tag).len() > 0 ==>
            (r matches Some(t) && t.view() == with_tag(tlv_views(entries@), tag)[0]),
{
    let ghost all = tlv_views(entries@);
    let mut i: usize = 0;
    while i < entries.len()
        invariant
            0 <= i <= entries@.len(),
            all == tlv_views(entries@),
            with_tag(all.take(i as int), tag).len() == 0,
        decreases entries@.len() - i,
    {
        proof {
            reveal_with_fuel(Seq::<TlvView>::filter, 1);
            assert(all.take(i + 1).drop_last() =~= all.take(i as int));
        }
        if entries[i].tag == tag {
            proof { lemma_with_tag_split(all, i as int, tag); }
            return Some(entries[i]);
        }
        i = i + 1;
    }
    proof { assert(all.take(i as int) =~= all); }
    None
}

/// When no entry before `i` has the tag and entry `i` does, it is the first with the tag.
proof fn lemma_with_tag_split(s: Seq<TlvView>, i: int, tag: Tag)
    requires 0 <= i < s.len(), with_tag(s.take(i), tag).len() == 0, s[i].tag == tag,
    ensures with_tag(s, tag).len() > 0, with_tag(s, tag)[0] == s[i],
{
    let pred = has_tag(tag);
    assert(s =~= s.take(i) + s.skip(i));
    Seq::<TlvView>::filter_distributes_over_add(s.take(i), s.skip(i), pred);
    reveal_with_fuel(Seq::<TlvView>::filter, 1);
    let rest = s.skip(i);
    assert(rest =~= seq![s[i]] + rest.skip(1));
    Seq::<TlvView>::filter_distributes_over_add(seq![s[i]], rest.skip(1), pred);
    assert(seq![s[i]].filter(pred) =~= seq![s[i]]) by {
        assert(seq![s[i]].drop_last() =~= Seq::<TlvView>::empty());
    }
}

/// All entries with tag `tag`, in order.
pub fn values_for<'a>(entries: &'a [Tlv<'a>], tag: Tag) -> (r: Vec<Tlv<'a>>)
    ensures tlv_views(r@) == with_tag(tlv_views(entries@), tag),
{
    let ghost all = tlv_views(entries@);
    let mut out: Vec<Tlv<'a>> = Vec::new();
    let mut i: usize = 0;
    while i < entries.len()
        invariant
            0 <= i <= entries@.len(),
            all == tlv_views(entries@),
            tlv_views(out@) == with_tag(all.take(i as int), tag),
        decreases entries@.len() - i,
    {
        proof {
            reveal_with_fuel(Seq::<TlvView>::filter, 1);
            assert(all.take(i + 1).drop_last() =~= all.take(i as int));
        }
        if entries[i].tag == tag {
            out.push(entries[i]);
            proof { assert(tlv_views(out@) =~= with_tag(all.take(i as int), tag).push(all[i as int])); }
        }
        i = i + 1;
    }
    proof { assert(all.take(i as int) =~= all); }
    out
}

} // verus!
