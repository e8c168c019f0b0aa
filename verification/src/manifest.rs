use vstd::prelude::*;
use crate::checksum::{crc32_iso, crc32_spec};
use crate::cursor::{ByteCursor, Cur, le16, rd_magic, rd_u8, rd_u16, rd_u32, rd_u64};
use crate::error::{ErrorKind, ParseError, ParseResult, mk_err};
use crate::tlv::{self, Tag, TlvView, tlv_views, tlvs_from, tlvs_spec, first_unknown_critical};

verus! {

/// What a manifest section holds.
#[derive(Debug, Clone, Copy, PartialEq, Eq, Structural)]
pub enum ManifestSectionKind {
    Stream,
    Dictionary,
    Cargo,
    Route,
    Attachment,
    Signature,
    Unknown(u8),
}

/// The section kind that byte `b` names: 0x01 to 0x06 in declaration order, anything else
/// unknown.
pub open spec fn section_kind_of(b: u8) -> ManifestSectionKind {
    if b == 0x01 { ManifestSectionKind::Stream }
    else if b == 0x02 { ManifestSectionKind::Dictionary }
    else if b == 0x03 { ManifestSectionKind::Cargo }
    else if b == 0x04 { ManifestSectionKind::Route }
    else if b == 0x05 { ManifestSectionKind::Attachment }
    else if b == 0x06 { ManifestSectionKind::Signature }
    else { ManifestSectionKind::Unknown(b) }
}

impl ManifestSectionKind {
    pub fn from_byte(byte: u8) -> (k: Self)
        ensures k == section_kind_of(byte),
    {
        match byte {
            0x01 => ManifestSectionKind::Stream,
            0x02 => ManifestSectionKind::Dictionary,
            0x03 => ManifestSectionKind::Cargo,
            0x04 => ManifestSectionKind::Route,
            0x05 => ManifestSectionKind::Attachment,
            0x06 => ManifestSectionKind::Signature,
            other => ManifestSectionKind::Unknown(other),
        }
    }
}

/// A section of the manifested file: kind, flags, span and CRC-32.
#[derive(Debug, Clone, Copy, PartialEq, Eq, Structural)]
pub struct ManifestSection {
    pub kind: ManifestSectionKind,
    pub flags: u16,
    pub offset: u32,
    pub len: u32,
    pub checksum: u32,
}

/// A decoded manifest.
#[derive(Debug, Clone)]
pub struct HarborManifest {
    pub version: u8,
    pub flags: u8,
    pub created_at: u64,
    pub sections: Vec<ManifestSection>,
    pub tlv_count: usize,
    pub declared_size: u32,
}

/// A manifest as values.
pub struct ManifestView {
    pub version: u8,
    pub flags: u8,
    pub created_at: u64,
    pub sections: Seq<ManifestSection>,
    pub tlv_count: usize,
    pub declared_size: u32,
}

/// The binary manifest magic, "PWMF".
pub open spec fn manifest_magic() -> Seq<u8> {
    seq![0x50u8, 0x57u8, 0x4du8, 0x46u8]
}

/// The section's checksum is to be verified (flag 0x8000).
pub open spec fn section_verified(s: ManifestSection) -> bool {
    s.flags >= 0x8000
}

/// Checking that a section's span lies within `data` and, when it is to be verified, that its
/// CRC-32 matches.
pub open spec fn section_check(data: Seq<u8>, s: ManifestSection) -> Result<(), ParseError> {
    let start = s.offset as int;
    let end = start + s.len as int;
    if end > usize::MAX {
        Err(mk_err(ErrorKind::InvalidLength, start as usize, "manifest section span"))
    } else if end > data.len() {
        Err(mk_err(ErrorKind::UnexpectedEof, start as usize, "manifest section"))
    } else if section_verified(s) && crc32_spec(data.subrange(start, end)) != s.checksum {
        Err(mk_err(ErrorKind::InvalidChecksum, start as usize, "manifest section"))
    } else {
        Ok(())
    }
}

/// Reading one binary section record.
pub open spec fn rd_section(c: Cur) -> (Result<ManifestSection, ParseError>, Cur) {
    match rd_u8(c) {
        (Err(e), c1) => (Err(e), c1),
        (Ok(raw), c1) => match rd_u16(c1) {
            (Err(e), c2) => (Err(e), c2),
            (Ok(flags), c2) => match rd_u32(c2) {
                (Err(e), c3) => (Err(e), c3),
                (Ok(offset), c3) => match rd_u32(c3) {
                    (Err(e), c4) => (Err(e), c4),
                    (Ok(len), c4) => match rd_u32(c4) {
                        (Err(e), c5) => (Err(e), c5),
                        (Ok(checksum), c5) => (Ok(ManifestSection { kind: section_kind_of(raw), flags, offset, len, checksum }), c5),
                    },
                },
            },
        },
    }
}

/// `n` section records read and checked against `data`, one after another.
pub open spec fn sections_from(data: Seq<u8>, c: Cur, n: nat) -> Result<Seq<ManifestSection>, ParseError>
    decreases n,
{
    if n == 0 {
        Ok(Seq::empty())
    } else {
        match rd_section(c) {
            (Err(e), _) => Err(e),
            (Ok(s), c1) => match section_check(data, s) {
                Err(e) => Err(e),
                Ok(_) => match sections_from(data, c1, (n - 1) as nat) {
                    Err(e) => Err(e),
                    Ok(rest) => Ok(seq![s] + rest),
                },
            },
        }
    }
}

/// Decoding a binary manifest: magic, version 1, flags, section count (at most 4096),
/// creation time, declared size and the sections.
pub open spec fn binary_manifest_spec(data: Seq<u8>) -> Result<ManifestView, ParseError> {
    let c0 = Cur { data, pos: 0, base: 0 };
    match rd_magic(c0, manifest_magic(), "manifest magic") {
        (Err(e), _) => Err(e),
        (Ok(_), c1) => match rd_u8(c1) {
            (Err(e), _) => Err(e),
            (Ok(version), c2) => if version != 1 {
                Err(mk_err(ErrorKind::UnsupportedVersion, (if c2.abs_at(0) == 0 { 0 } else { c2.abs_at(0) - 1 }) as usize,
                    "manifest version"))
            } else {
                match rd_u8(c2) {
                    (Err(e), _) => Err(e),
                    (Ok(flags), c3) => match rd_u16(c3) {
                        (Err(e), _) => Err(e),
                        (Ok(count), c4) => if count > 4096 {
                            Err(mk_err(ErrorKind::LimitExceeded, c4.abs_at(0), "manifest sections"))
                        } else {
                            match rd_u64(c4) {
                                (Err(e), _) => Err(e),
                                (Ok(created_at), c5) => match rd_u32(c5) {
                                    (Err(e), _) => Err(e),
                                    (Ok(declared_size), c6) => match sections_from(data, c6, count as nat) {
                                        Err(e) => Err(e),
                                        Ok(sections) => Ok(ManifestView {
                                            version, flags, created_at, sections, tlv_count: 0, declared_size,
                                        }),
                                    },
                                },
                            }
                        },
                    },
                }
            },
        },
    }
}

/// A section's span lies within `data`, and a section to be verified has the CRC-32 of
/// its span.
pub open spec fn section_holds(data: Seq<u8>, s: ManifestSection) -> bool {
    &&& s.offset as int + s.len as int <= data.len()
    &&& section_verified(s) ==> crc32_spec(data.subrange(s.offset as int, s.offset as int + s.len as int)) == s.checksum
}

/// Sections read and checked against `data` are as many as asked for, and each one holds.
proof fn lemma_sections_hold(data: Seq<u8>, c: Cur, n: nat)
    ensures
        sections_from(data, c, n) matches Ok(ss) ==> ss.len() == n
            && forall|i: int| 0 <= i < ss.len() ==> section_holds(data, #[trigger] ss[i]),
    decreases n,
{
    if n > 0 {
        if let (Ok(sec), c1) = rd_section(c) {
            lemma_sections_hold(data, c1, (n - 1) as nat);
            if let Ok(ss) = sections_from(data, c, n) {
                let rest = sections_from(data, c1, (n - 1) as nat)->Ok_0;
                assert(ss == seq![sec] + rest);
                assert forall|i: int| 0 <= i < ss.len() implies section_holds(data, #[trigger] ss[i]) by {
                    if i > 0 { assert(ss[i] == rest[i - 1]); }
                }
            }
        }
    }
}

/// A binary manifest that decodes holds as many sections as its header counts (at most
/// 4096), and every section lies within the file and, when it is to be verified, carries
/// the CRC-32 of its span.
pub proof fn lemma_manifest_sections_hold(data: Seq<u8>)
    ensures
        binary_manifest_spec(data) matches Ok(m) ==> data.len() >= 8 && m.sections.len() == le16(data, 6)
            && m.sections.len() <= 4096
            && forall|i: int| 0 <= i < m.sections.len() ==> section_holds(data, #[trigger] m.sections[i]),
{
    let c6 = Cur { data, pos: 20, base: 0 };
    if let Ok(m) = binary_manifest_spec(data) {
        lemma_sections_hold(data, c6, le16(data, 6) as u16 as nat);
    }
}

/// The section kind a TLV tag stands for in a TLV manifest.
pub open spec fn tlv_section_kind(t: TlvView) -> ManifestSectionKind {
    match t.tag {
        Tag::Segment => ManifestSectionKind::Attachment,
        Tag::Dictionary => ManifestSectionKind::Dictionary,
        Tag::Cargo => ManifestSectionKind::Cargo,
        Tag::Route => ManifestSectionKind::Route,
        Tag::Signature => ManifestSectionKind::Signature,
        _ => ManifestSectionKind::Unknown(t.raw_tag),
    }
}

/// The section a TLV entry describes: its flags, offset and value length (as 32-bit numbers)
/// and the CRC-32 of its value.
pub open spec fn tlv_section(t: TlvView) -> ManifestSection {
    ManifestSection {
        kind: tlv_section_kind(t),
        flags: t.flags as u16,
        offset: t.offset as u32,
        len: t.value.len() as u32,
        checksum: crc32_spec(t.value),
    }
}

/// Decoding a TLV manifest: every entry a section; an unknown critical entry is an error.
pub open spec fn tlv_manifest_spec(data: Seq<u8>) -> Result<ManifestView, ParseError> {
    match tlvs_spec(data, 0) {
        Err(e) => Err(e),
        Ok(ts) => match first_unknown_critical(ts) {
            Some(i) => Err(mk_err(ErrorKind::UnknownSection, ts[i].offset, "critical tlv")),
            None => Ok(ManifestView {
                version: 1,
                flags: 0,
                created_at: 0,
                sections: ts.map_values(|t: TlvView| tlv_section(t)),
                tlv_count: ts.len() as usize,
                declared_size: data.len() as u32,
            }),
        },
    }
}

/// A TLV manifest that decodes has one section per entry, in order, each with the entry's
/// offset, value length and the CRC-32 of its value; it reads as version 1 with the file's
/// length as declared size, and no entry is an unknown critical one.
pub proof fn lemma_tlv_manifest_sections(data: Seq<u8>)
    ensures
        tlv_manifest_spec(data) matches Ok(m) ==> tlvs_spec(data, 0) matches Ok(ts) && {
            &&& m.sections.len() == ts.len()
            &&& m.tlv_count == ts.len() as usize
            &&& m.version == 1
            &&& m.declared_size == data.len() as u32
            &&& first_unknown_critical(ts) is None
            &&& forall|i: int| 0 <= i < ts.len() ==> {
                &&& (#[trigger] m.sections[i]).offset == ts[i].offset as u32
                &&& m.sections[i].len == ts[i].value.len() as u32
                &&& m.sections[i].checksum == crc32_spec(ts[i].value)
            }
        },
{
}

/// Entries read one after another carry the tag their raw tag byte names.
proof fn lemma_tlv_tags(c: Cur)
    ensures tlvs_from(c) matches Ok(ts) ==> forall|i: int| 0 <= i < ts.len() ==> (#[trigger] ts[i]).tag == tlv::tag_of(ts[i].raw_tag),
    decreases c.data.len() - c.pos,
{
    if !(c.pos < 0 || c.pos >= c.data.len()) {
        if let (Ok(t), c1) = tlv::rd_tlv_with(c, false) {
            assert(c1.pos > c.pos);
            lemma_tlv_tags(c1);
            if let Ok(ts) = tlvs_from(c) {
                let rest = tlvs_from(c1)->Ok_0;
                assert(ts == seq![t] + rest);
                assert forall|i: int| 0 <= i < ts.len() implies (#[trigger] ts[i]).tag == tlv::tag_of(ts[i].raw_tag) by {
                    if i > 0 { assert(ts[i] == rest[i - 1]); }
                }
            }
        }
    }
}

/// In a decoded TLV manifest the kind of section `i` follows the raw tag of entry `i`: a
/// segment entry (0x0b) is an attachment, and only a segment entry is; dictionary (0x08),
/// cargo (0x03), route (0x05) and signature (0x0c) entries keep their own kind; every other
/// entry is unknown with its raw tag.
pub proof fn lemma_tlv_manifest_kinds(data: Seq<u8>)
    ensures
        tlv_manifest_spec(data) matches Ok(m) ==> tlvs_spec(data, 0) matches Ok(ts) && m.sections.len() == ts.len()
            && forall|i: int| 0 <= i < ts.len() ==> {
                let k = (#[trigger] m.sections[i]).kind;
                let raw = ts[i].raw_tag;
                &&& (k == ManifestSectionKind::Attachment <==> raw == 0x0b)
                &&& raw == 0x08 ==> k == ManifestSectionKind::Dictionary
                &&& raw == 0x03 ==> k == ManifestSectionKind::Cargo
                &&& raw == 0x05 ==> k == ManifestSectionKind::Route
                &&& raw == 0x0c ==> k == ManifestSectionKind::Signature
                &&& (raw != 0x03 && raw != 0x05 && raw != 0x08 && raw != 0x0b && raw != 0x0c)
                    ==> k == ManifestSectionKind::Unknown(raw)
            },
{
    lemma_tlv_tags(Cur { data, pos: 0, base: 0 });
}

/// Decoding a manifest: binary when it starts with "PWMF", TLV otherwise.
pub open spec fn manifest_spec(data: Seq<u8>) -> Result<ManifestView, ParseError> {
    if data.len() >= 4 && data.take(4) == manifest_magic() {
        binary_manifest_spec(data)
    } else {
        tlv_manifest_spec(data)
    }
}

/// A manifest result as values.
pub open spec fn manifest_res(r: ParseResult<HarborManifest>) -> Result<ManifestView, ParseError> {
    match r {
        Ok(m) => Ok(m.view()),
        Err(e) => Err(e),
    }
}

/// Decodes a manifest in either layout.
pub fn decode_manifest(data: &[u8]) -> (r: ParseResult<HarborManifest>)
    ensures manifest_res(r) == manifest_spec(data@),
{
    if data.len() >= 4 && data[0] == 0x50 && data[1] == 0x57 && data[2] == 0x4d && data[3] == 0x46 {
        proof { assert(data@.take(4) =~= manifest_magic()); }
        decode_binary_manifest(data)
    } else {
        proof {
            if data@.len() >= 4 && data@.take(4) == manifest_magic() {
                assert(data@.take(4)[0] == data@[0] && data@.take(4)[3] == data@[3]);
                assert(data@.take(4)[1] == data@[1] && data@.take(4)[2] == data@[2]);
            }
        }
        decode_tlv_manifest(data)
    }
}

/// Checks a section against the file.
fn verify_section(data: &[u8], section: &ManifestSection) -> (r: ParseResult<()>)
    ensures r == section_check(data@, *section),
{
    let start = section.offset as usize;
    let end = match start.checked_add(section.len as usize) {
        Some(end) => end,
        None => { return Err(ParseError::invalid_length(start, "manifest section span")); },
    };
    if end > data.len() {
        return Err(ParseError::eof(start, "manifest section"));
    }
    let f = section.flags;
    proof { assert((f & 0x8000 != 0) == (f >= 0x8000)) by (bit_vector); }
    if f & 0x8000 != 0 {
        let span = &data[start..end];
        let actual = crc32_iso(span);
        if actual != section.checksum {
            return Err(ParseError::invalid_checksum(start, "manifest section"));
        }
    }
    Ok(())
}

/// Decodes a binary manifest.
pub fn decode_binary_manifest(data: &[u8]) -> (r: ParseResult<HarborManifest>)
    ensures manifest_res(r) == binary_manifest_spec(data@),
{
    let mut cursor = ByteCursor::new(data);
    let magic: [u8; 4] = [0x50, 0x57, 0x4d, 0x46];
    proof { assert(magic@ =~= manifest_magic()); }
    cursor.expect_magic(&magic, "manifest magic")?;
    let version = cursor.read_u8()?;
    if version != 1 {
        return Err(ParseError::unsupported_version(cursor.absolute_position().saturating_sub(1), "manifest version"));
    }
    let flags = cursor.read_u8()?;
    let section_count = cursor.read_u16()? as usize;
    if section_count > 4096 {
        return Err(ParseError::limit(cursor.absolute_position(), "manifest sections"));
    }
    let created_at = cursor.read_u64()?;
    let declared_size = cursor.read_u32()?;
    let ghost c6 = cursor.view();
    let mut sections: Vec<ManifestSection> = Vec::new();
    let mut k: usize = 0;
    while k < section_count
        invariant
            0 <= k <= section_count,
            cursor.wf(),
            cursor.data() == data@,
            binary_manifest_spec(data@) == match sections_from(data@, c6, section_count as nat) {
                Err(e) => Err(e),
                Ok(s) => Ok(ManifestView { version, flags, created_at, sections: s, tlv_count: 0, declared_size }),
            },
            match sections_from(data@, c6, section_count as nat) {
                Ok(all) => sections_from(data@, cursor.view(), (section_count - k) as nat) matches Ok(rest)
                    && all == sections@ + rest,
                Err(e) => sections_from(data@, cursor.view(), (section_count - k) as nat) == Err::<Seq<ManifestSection>, ParseError>(e),
            },
        decreases section_count - k,
    {
        let raw_kind = cursor.read_u8()?;
        let sflags = cursor.read_u16()?;
        let offset = cursor.read_u32()?;
        let len = cursor.read_u32()?;
        let checksum = cursor.read_u32()?;
        let section = ManifestSection { kind: ManifestSectionKind::from_byte(raw_kind), flags: sflags, offset, len, checksum };
        verify_section(data, &section)?;
        proof {
            if let Ok(rest) = sections_from(data@, cursor.view(), (section_count - k - 1) as nat) {
                assert(sections@.push(section) + rest =~= sections@ + (seq![section] + rest));
            }
        }
        sections.push(section);
        k = k + 1;
    }
    proof {
        if let Ok(all) = sections_from(data@, c6, section_count as nat) {
            assert(all =~= sections@);
        }
    }
    Ok(HarborManifest { version, flags, created_at, sections, tlv_count: 0, declared_size })
}

/// Decodes a TLV manifest.
pub fn decode_tlv_manifest(data: &[u8]) -> (r: ParseResult<HarborManifest>)
    ensures manifest_res(r) == tlv_manifest_spec(data@),
{
    let entries = tlv::parse_all(data, 0)?;
    proof {
        assert forall|i: int| 0 <= i < entries@.len() implies #[trigger] tlv_views(entries@)[i].offset == entries@[i].offset by {}
        tlv::lemma_first_unknown_in_range(tlv_views(entries@));
    }
    tlv::expect_only_known(entries.as_slice())?;
    let ghost ts = tlv_views(entries@);
    let mut sections: Vec<ManifestSection> = Vec::new();
    let mut i: usize = 0;
    while i < entries.len()
        invariant
            0 <= i <= entries@.len(),
            ts == tlv_views(entries@),
            sections@ =~= ts.take(i as int).map_values(|t: TlvView| tlv_section(t)),
        decreases entries@.len() - i,
    {
        let entry = &entries[i];
        let kind = match entry.tag {
            Tag::Segment => ManifestSectionKind::Attachment,
            Tag::Dictionary => ManifestSectionKind::Dictionary,
            Tag::Cargo => ManifestSectionKind::Cargo,
            Tag::Route => ManifestSectionKind::Route,
            Tag::Signature => ManifestSectionKind::Signature,
            _ => ManifestSectionKind::Unknown(entry.raw_tag),
        };
        sections.push(ManifestSection {
            kind,
            flags: entry.flags as u16,
            offset: entry.offset as u32,
            len: entry.value.len() as u32,
            checksum: crc32_iso(entry.value),
        });
        i = i + 1;
        proof { assert(sections@ =~= ts.take(i as int).map_values(|t: TlvView| tlv_section(t))); }
    }
    proof { assert(ts.take(i as int) =~= ts); }
    Ok(HarborManifest {
        version: 1,
        flags: 0,
        created_at: 0,
        sections,
        tlv_count: entries.len(),
        declared_size: data.len() as u32,
    })
}

/// Sum of the section lengths.
pub open spec fn declared_total(s: Seq<ManifestSection>) -> int
    decreases s.len(),
{
    if s.len() == 0 { 0 } else { declared_total(s.drop_last()) + s.last().len }
}

/// Sections of kind `Attachment`.
pub open spec fn is_attachment() -> spec_fn(ManifestSection) -> bool {
    |s: ManifestSection| s.kind == ManifestSectionKind::Attachment
}

/// Sections whose checksum is to be verified.
pub open spec fn is_verified() -> spec_fn(ManifestSection) -> bool {
    |s: ManifestSection| section_verified(s)
}

impl HarborManifest {
    pub open spec fn view(&self) -> ManifestView {
        ManifestView {
            version: self.version,
            flags: self.flags,
            created_at: self.created_at,
            sections: self.sections@,
            tlv_count: self.tlv_count,
            declared_size: self.declared_size,
        }
    }

    pub fn section_count(&self) -> (n: usize)
        ensures n == self.sections@.len(),
    {
        self.sections.len()
    }

    /// The attachment sections, in order.
    pub fn attachments(&self) -> (v: Vec<ManifestSection>)
        ensures v@ == self.sections@.filter(is_attachment()),
    {
        let mut out: Vec<ManifestSection> = Vec::new();
        let mut i: usize = 0;
        while i < self.sections.len()
            invariant
                0 <= i <= self.sections@.len(),
                out@ == self.sections@.take(i as int).filter(is_attachment()),
            decreases self.sections@.len() - i,
        {
            proof {
                reveal_with_fuel(Seq::<ManifestSection>::filter, 1);
                assert(self.sections@.take(i + 1).drop_last() =~= self.sections@.take(i as int));
            }
            if self.sections[i].kind == ManifestSectionKind::Attachment {
                out.push(self.sections[i]);
            }
            i = i + 1;
        }
        proof { assert(self.sections@.take(i as int) =~= self.sections@); }
        out
    }

    /// How many sections are to be verified.
    pub fn verified_sections(&self) -> (n: usize)
        ensures n == self.sections@.filter(is_verified()).len(),
    {
        let mut n: usize = 0;
        let mut i: usize = 0;
        while i < self.sections.len()
            invariant
                0 <= i <= self.sections@.len(),
                n == self.sections@.take(i as int).filter(is_verified()).len(),
                n <= i,
            decreases self.sections@.len() - i,
        {
            proof {
                reveal_with_fuel(Seq::<ManifestSection>::filter, 1);
                assert(self.sections@.take(i + 1).drop_last() =~= self.sections@.take(i as int));
            }
            let f = self.sections[i].flags;
            proof { assert((f & 0x8000 != 0) == (f >= 0x8000)) by (bit_vector); }
            if f & 0x8000 != 0 {
                n = n + 1;
            }
            i = i + 1;
        }
        proof { assert(self.sections@.take(i as int) =~= self.sections@); }
        n
    }

    /// Sum of the section lengths.
    pub fn total_declared_bytes(&self) -> (t: u64)
        requires declared_total(self.sections@) <= u64::MAX,
        ensures t == declared_total(self.sections@),
    {
        let mut t: u64 = 0;
        let mut i: usize = 0;
        while i < self.sections.len()
            invariant
                0 <= i <= self.sections@.len(),
                t == declared_total(self.sections@.take(i as int)),
                declared_total(self.sections@) <= u64::MAX,
            decreases self.sections@.len() - i,
        {
            proof {
                assert(self.sections@.take(i + 1).drop_last() =~= self.sections@.take(i as int));
                lemma_declared_total_prefix(self.sections@, i + 1);
            }
            t = t + self.sections[i].len as u64;
            i = i + 1;
        }
        proof { assert(self.sections@.take(i as int) =~= self.sections@); }
        t
    }
}

/// A prefix's total is at most the whole's.
proof fn lemma_declared_total_prefix(s: Seq<ManifestSection>, n: int)
    requires 0 <= n <= s.len(),
    ensures declared_total(s.take(n)) <= declared_total(s),
    decreases s.len() - n,
{
    if n < s.len() {
        assert(s.take(n + 1).drop_last() =~= s.take(n));
        lemma_declared_total_prefix(s, n + 1);
    } else {
        assert(s.take(n) =~= s);
    }
}

} // verus!
