use vstd::prelude::*;
use crate::cursor::{ByteCursor, Cur, Reader, read_n, prefixed, lemma_read_n_step, lemma_read_n_fail,
    lemma_read_n_start, lemma_read_n_done, rd_u8, rd_u16, rd_u32, rd_u64, rd_i16, rd_i32, rd_varint};
use crate::error::{ErrorKind, ParseError, ParseResult, mk_err};
use crate::keyed::{key_sorted, key_split, upsert_by, find_by, lemma_upsert_sorted, lemma_find_sorted, lemma_find_none,
    lemma_find_after_upsert};
use crate::model::{CargoLot, Coordinates, HazardClass, HarborEvent, VesselId, hazard_class};

verus! {

/// How a template field is encoded.
#[derive(Debug, Clone, Copy, PartialEq, Eq, Structural)]
pub enum FieldKind {
    U8,
    U16,
    U32,
    U64,
    I16,
    I32,
    Var,
    StringCode,
    Coordinates,
}

/// The field kind that byte `b` names (0 to 8 in declaration order), if any.
pub open spec fn field_kind_of(b: u8) -> Option<FieldKind> {
    if b == 0 { Some(FieldKind::U8) }
    else if b == 1 { Some(FieldKind::U16) }
    else if b == 2 { Some(FieldKind::U32) }
    else if b == 3 { Some(FieldKind::U64) }
    else if b == 4 { Some(FieldKind::I16) }
    else if b == 5 { Some(FieldKind::I32) }
    else if b == 6 { Some(FieldKind::Var) }
    else if b == 7 { Some(FieldKind::StringCode) }
    else if b == 8 { Some(FieldKind::Coordinates) }
    else { None }
}

/// The encoded width of a field kind; none for the variable-length kind.
pub open spec fn kind_width(k: FieldKind) -> Option<usize> {
    match k {
        FieldKind::U8 => Some(1),
        FieldKind::U16 | FieldKind::I16 | FieldKind::StringCode => Some(2),
        FieldKind::U32 | FieldKind::I32 => Some(4),
        FieldKind::U64 => Some(8),
        FieldKind::Coordinates => Some(8),
        FieldKind::Var => None,
    }
}

/// The error for a byte that names no field kind.
pub open spec fn bad_kind() -> ParseError {
    mk_err(ErrorKind::InvalidValue, 0, "template field kind")
}

impl FieldKind {
    pub fn from_byte(byte: u8) -> (r: ParseResult<Self>)
        ensures
            match field_kind_of(byte) {
                Some(k) => r == Ok::<FieldKind, ParseError>(k),
                None => r == Err::<FieldKind, ParseError>(bad_kind()),
            },
    {
        match byte {
            0 => Ok(FieldKind::U8),
            1 => Ok(FieldKind::U16),
            2 => Ok(FieldKind::U32),
            3 => Ok(FieldKind::U64),
            4 => Ok(FieldKind::I16),
            5 => Ok(FieldKind::I32),
            6 => Ok(FieldKind::Var),
            7 => Ok(FieldKind::StringCode),
            8 => Ok(FieldKind::Coordinates),
            _ => Err(ParseError::invalid_value(0, "template field kind")),
        }
    }

    pub fn fixed_width(self) -> (w: Option<usize>)
        ensures w == kind_width(self),
    {
        match self {
            FieldKind::U8 => Some(1),
            FieldKind::U16 | FieldKind::I16 | FieldKind::StringCode => Some(2),
            FieldKind::U32 | FieldKind::I32 => Some(4),
            FieldKind::U64 => Some(8),
            FieldKind::Coordinates => Some(8),
            FieldKind::Var => None,
        }
    }
}

/// A field of a record template.
#[derive(Debug, Clone, Copy, PartialEq, Eq, Structural)]
pub struct TemplateField {
    pub id: u8,
    pub kind: FieldKind,
    pub scale: i16,
    pub flags: u16,
}

/// A record template: its id, the kind of event it describes, and its fields.
#[derive(Debug)]
pub struct RecordTemplate {
    pub id: u16,
    pub event_kind: u8,
    pub fields: Vec<TemplateField>,
}

/// A record template as values.
pub struct TemplateView {
    pub id: u16,
    pub event_kind: u8,
    pub fields: Seq<TemplateField>,
}

/// A template as values.
pub open spec fn template_view(t: RecordTemplate) -> TemplateView {
    TemplateView { id: t.id, event_kind: t.event_kind, fields: t.fields@ }
}

/// Reading one field description: id, kind byte, scale and flags.
pub open spec fn rd_field(c: Cur) -> (Result<TemplateField, ParseError>, Cur) {
    match rd_u8(c) {
        (Err(e), c1) => (Err(e), c1),
        (Ok(id), c1) => match rd_u8(c1) {
            (Err(e), c2) => (Err(e), c2),
            (Ok(kb), c2) => match field_kind_of(kb) {
                None => (Err(bad_kind()), c2),
                Some(kind) => match rd_i16(c2) {
                    (Err(e), c3) => (Err(e), c3),
                    (Ok(scale), c3) => match rd_u16(c3) {
                        (Err(e), c4) => (Err(e), c4),
                        (Ok(flags), c4) => (Ok(TemplateField { id, kind, scale, flags }), c4),
                    },
                },
            },
        },
    }
}

/// The field description reader.
pub open spec fn field_reader() -> Reader<TemplateField> {
    |c: Cur| rd_field(c)
}

/// Reading one template: id, event kind, a field count (at most 64) and the fields.
pub open spec fn rd_template(c: Cur) -> (Result<TemplateView, ParseError>, Cur) {
    match rd_u16(c) {
        (Err(e), c1) => (Err(e), c1),
        (Ok(id), c1) => match rd_u8(c1) {
            (Err(e), c2) => (Err(e), c2),
            (Ok(event_kind), c2) => match rd_u8(c2) {
                (Err(e), c3) => (Err(e), c3),
                (Ok(count), c3) => if count > 64 {
                    (Err(mk_err(ErrorKind::LimitExceeded, c3.abs_at(0), "template field count")), c3)
                } else {
                    match read_n(c3, count as nat, field_reader()) {
                        (Err(e), c4) => (Err(e), c4),
                        (Ok(fields), c4) => (Ok(TemplateView { id, event_kind, fields }), c4),
                    }
                },
            },
        },
    }
}

/// Sum of the field widths, a variable-length field counting one.
pub open spec fn width_total(fs: Seq<TemplateField>) -> int
    decreases fs.len(),
{
    if fs.len() == 0 {
        0
    } else {
        width_total(fs.drop_last()) + match kind_width(fs.last().kind) { Some(w) => w as int, None => 1 }
    }
}

impl RecordTemplate {
    /// Reads one template.
    pub fn parse(cursor: &mut ByteCursor<'_>) -> (r: ParseResult<Self>)
        ensures
            ({
                let (sr, c) = rd_template(old(cursor).view());
                &&& final(cursor).view() == c
                &&& final(cursor).wf()
                &&& match sr {
                    Ok(t) => r matches Ok(x) && template_view(x) == t,
                    Err(e) => r is Err && r->Err_0 == e,
                }
            }),
    {
        let id = cursor.read_u16()?;
        let event_kind = cursor.read_u8()?;
        let count = cursor.read_u8()? as usize;
        if count > 64 {
            return Err(ParseError::limit(cursor.absolute_position(), "template field count"));
        }
        let ghost c3 = cursor.view();
        let mut fields: Vec<TemplateField> = Vec::new();
        let mut k: usize = 0;
        proof { lemma_read_n_start(c3, count as nat, field_reader()); }
        while k < count
            invariant
                0 <= k <= count,
                cursor.wf(),
                rd_template(old(cursor).view()) == match read_n(c3, count as nat, field_reader()) {
                    (Err(e), c4) => (Err(e), c4),
                    (Ok(fs), c4) => (Ok(TemplateView { id, event_kind, fields: fs }), c4),
                },
                read_n(c3, count as nat, field_reader()) == prefixed(fields@, read_n(cursor.view(), (count - k) as nat, field_reader())),
            decreases count - k,
        {
            let ghost before = cursor.view();
            let fid = match cursor.read_u8() {
                Ok(v) => v,
                Err(e) => {
                    proof { lemma_read_n_fail(c3, count as nat, field_reader(), fields@, before, (count - k) as nat); }
                    return Err(e);
                },
            };
            let kb = match cursor.read_u8() {
                Ok(v) => v,
                Err(e) => {
                    proof { lemma_read_n_fail(c3, count as nat, field_reader(), fields@, before, (count - k) as nat); }
                    return Err(e);
                },
            };
            let kind = match FieldKind::from_byte(kb) {
                Ok(v) => v,
                Err(e) => {
                    proof { lemma_read_n_fail(c3, count as nat, field_reader(), fields@, before, (count - k) as nat); }
                    return Err(e);
                },
            };
            let scale = match cursor.read_i16() {
                Ok(v) => v,
                Err(e) => {
                    proof { lemma_read_n_fail(c3, count as nat, field_reader(), fields@, before, (count - k) as nat); }
                    return Err(e);
                },
            };
            let flags = match cursor.read_u16() {
                Ok(v) => v,
                Err(e) => {
                    proof { lemma_read_n_fail(c3, count as nat, field_reader(), fields@, before, (count - k) as nat); }
                    return Err(e);
                },
            };
            let f = TemplateField { id: fid, kind, scale, flags };
            proof { lemma_read_n_step(c3, count as nat, field_reader(), fields@, before, (count - k) as nat); }
            fields.push(f);
            k = k + 1;
        }
        proof { lemma_read_n_done(c3, count as nat, field_reader(), fields@, cursor.view()); }
        Ok(RecordTemplate { id, event_kind, fields })
    }

    /// Sum of the field widths, a variable-length field counting one.
    pub fn minimum_width(&self) -> (w: usize)
        requires width_total(self.fields@) <= usize::MAX,
        ensures w == width_total(self.fields@),
    {
        let mut w: usize = 0;
        let mut i: usize = 0;
        while i < self.fields.len()
            invariant
                0 <= i <= self.fields@.len(),
                w == width_total(self.fields@.take(i as int)),
                width_total(self.fields@) <= usize::MAX,
            decreases self.fields@.len() - i,
        {
            proof {
                assert(self.fields@.take(i + 1).drop_last() =~= self.fields@.take(i as int));
                lemma_width_prefix(self.fields@, i + 1);
            }
            let add = match self.fields[i].kind.fixed_width() {
                Some(x) => x,
                None => 1,
            };
            w = w + add;
            i = i + 1;
        }
        proof { assert(self.fields@.take(i as int) =~= self.fields@); }
        w
    }
}

/// A prefix's width is at most the whole's.
proof fn lemma_width_prefix(s: Seq<TemplateField>, n: int)
    requires 0 <= n <= s.len(),
    ensures width_total(s.take(n)) <= width_total(s),
    decreases s.len() - n,
{
    if n < s.len() {
        assert(s.take(n + 1).drop_last() =~= s.take(n));
        lemma_width_prefix(s, n + 1);
    } else {
        assert(s.take(n) =~= s);
    }
}

/// Templates are keyed by id.
pub open spec fn template_key() -> spec_fn(TemplateView) -> int {
    |t: TemplateView| t.id as int
}

/// Reading back after a write: once a template is inserted, looking up its id gives it, and
/// every other id gives what it gave before; the registry stays in id order.
pub proof fn lemma_insert_then_get(reg: Seq<TemplateView>, t: TemplateView, id: u16)
    requires key_sorted(reg, template_key()),
    ensures
        key_sorted(upsert_by(reg, t, template_key()), template_key()),
        find_by(upsert_by(reg, t, template_key()), id as int, template_key())
            == if id == t.id { Some(t) } else { find_by(reg, id as int, template_key()) },
{
    lemma_find_after_upsert(reg, t, template_key(), id as int);
}

/// Templates as values.
pub open spec fn template_views(s: Seq<RecordTemplate>) -> Seq<TemplateView> {
    s.map_values(|t: RecordTemplate| template_view(t))
}

/// Templates by id.
#[derive(Debug)]
pub struct TemplateRegistry {
    templates: Vec<RecordTemplate>,
}

/// The templates of a section read one after another into `reg`, stopping at the first error.
pub open spec fn section_run(reg: Seq<TemplateView>, c: Cur, n: nat) -> (Seq<TemplateView>, Result<(), ParseError>)
    decreases n,
{
    if n == 0 {
        (reg, Ok(()))
    } else {
        match rd_template(c) {
            (Err(e), _) => (reg, Err(e)),
            (Ok(t), c1) => section_run(upsert_by(reg, t, template_key()), c1, (n - 1) as nat),
        }
    }
}

/// A template section read into `reg`: a `u16` count (at most 1024) and the templates, each
/// replacing any of the same id; the templates before an error stay.
pub open spec fn section_spec(reg: Seq<TemplateView>, data: Seq<u8>, base: usize) -> (Seq<TemplateView>, Result<(), ParseError>) {
    match rd_u16(Cur { data, pos: 0, base }) {
        (Err(e), _) => (reg, Err(e)),
        (Ok(count), c1) => if count > 1024 {
            (reg, Err(mk_err(ErrorKind::LimitExceeded, c1.abs_at(0), "template count")))
        } else {
            section_run(reg, c1, count as nat)
        },
    }
}

/// A value read for a field.
#[derive(Debug, Clone, Copy, PartialEq, Eq, Structural)]
pub enum FieldValue {
    U8(u8),
    U16(u16),
    U32(u32),
    U64(u64),
    I16(i16),
    I32(i32),
    Var(u64),
    Coordinates(Coordinates),
}

/// Reading one value of the given kind.
pub open spec fn rd_value(c: Cur, kind: FieldKind) -> (Result<FieldValue, ParseError>, Cur) {
    match kind {
        FieldKind::U8 => match rd_u8(c) { (Ok(v), c1) => (Ok(FieldValue::U8(v)), c1), (Err(e), c1) => (Err(e), c1) },
        FieldKind::U16 | FieldKind::StringCode =>
            match rd_u16(c) { (Ok(v), c1) => (Ok(FieldValue::U16(v)), c1), (Err(e), c1) => (Err(e), c1) },
        FieldKind::U32 => match rd_u32(c) { (Ok(v), c1) => (Ok(FieldValue::U32(v)), c1), (Err(e), c1) => (Err(e), c1) },
        FieldKind::U64 => match rd_u64(c) { (Ok(v), c1) => (Ok(FieldValue::U64(v)), c1), (Err(e), c1) => (Err(e), c1) },
        FieldKind::I16 => match rd_i16(c) { (Ok(v), c1) => (Ok(FieldValue::I16(v)), c1), (Err(e), c1) => (Err(e), c1) },
        FieldKind::I32 => match rd_i32(c) { (Ok(v), c1) => (Ok(FieldValue::I32(v)), c1), (Err(e), c1) => (Err(e), c1) },
        FieldKind::Var => match rd_varint(c, "template var") {
            (Ok(v), c1) => (Ok(FieldValue::Var(v)), c1),
            (Err(e), c1) => (Err(e), c1),
        },
        FieldKind::Coordinates => match rd_i32(c) {
            (Err(e), c1) => (Err(e), c1),
            (Ok(lat), c1) => match rd_i32(c1) {
                (Err(e), c2) => (Err(e), c2),
                (Ok(lon), c2) => (Ok(FieldValue::Coordinates(Coordinates { lat_e7: lat, lon_e7: lon })), c2),
            },
        },
    }
}

/// Values are keyed by field id.
pub open spec fn value_key() -> spec_fn((u8, FieldValue)) -> int {
    |p: (u8, FieldValue)| p.0 as int
}

/// Reading the values of `fields` in order into `acc`, a later value replacing an earlier
/// one of the same field id.
pub open spec fn rd_values(c: Cur, fields: Seq<TemplateField>, acc: Seq<(u8, FieldValue)>) -> (Result<Seq<(u8, FieldValue)>, ParseError>, Cur)
    decreases fields.len(),
{
    if fields.len() == 0 {
        (Ok(acc), c)
    } else {
        match rd_value(c, fields[0].kind) {
            (Err(e), c1) => (Err(e), c1),
            (Ok(v), c1) => rd_values(c1, fields.drop_first(), upsert_by(acc, (fields[0].id, v), value_key())),
        }
    }
}

/// Reads one value of the given kind.
fn read_value(cursor: &mut ByteCursor<'_>, kind: FieldKind) -> (r: ParseResult<FieldValue>)
    ensures
        ({
            let (sr, c) = rd_value(old(cursor).view(), kind);
            &&& final(cursor).view() == c
            &&& sr == r
        }),
{
    match kind {
        FieldKind::U8 => Ok(FieldValue::U8(cursor.read_u8()?)),
        FieldKind::U16 | FieldKind::StringCode => Ok(FieldValue::U16(cursor.read_u16()?)),
        FieldKind::U32 => Ok(FieldValue::U32(cursor.read_u32()?)),
        FieldKind::U64 => Ok(FieldValue::U64(cursor.read_u64()?)),
        FieldKind::I16 => Ok(FieldValue::I16(cursor.read_i16()?)),
        FieldKind::I32 => Ok(FieldValue::I32(cursor.read_i32()?)),
        FieldKind::Var => Ok(FieldValue::Var(cursor.read_varint("template var")?)),
        FieldKind::Coordinates => {
            let lat = cursor.read_i32()?;
            let lon = cursor.read_i32()?;
            Ok(FieldValue::Coordinates(Coordinates::new(lat, lon)))
        },
    }
}

/// Reads the values of a template's fields, by field id in ascending order.
pub fn parse_values(template: &RecordTemplate, cursor: &mut ByteCursor<'_>) -> (r: ParseResult<Vec<(u8, FieldValue)>>)
    ensures
        ({
            let (sr, c) = rd_values(old(cursor).view(), template.fields@, Seq::empty());
            &&& final(cursor).view() == c
            &&& match sr {
                Ok(vs) => r matches Ok(v) && v@ == vs && key_sorted(vs, value_key()),
                Err(e) => r is Err && r->Err_0 == e,
            }
        }),
{
    let ghost c0 = cursor.view();
    let mut values: Vec<(u8, FieldValue)> = Vec::new();
    let mut i: usize = 0;
    proof { assert(template.fields@.skip(0) =~= template.fields@); }
    while i < template.fields.len()
        invariant
            0 <= i <= template.fields@.len(),
            c0 == old(cursor).view(),
            key_sorted(values@, value_key()),
            rd_values(c0, template.fields@, Seq::empty()) == rd_values(cursor.view(), template.fields@.skip(i as int), values@),
        decreases template.fields@.len() - i,
    {
        let field = template.fields[i];
        let ghost rest = template.fields@.skip(i as int);
        proof {
            assert(rest[0] == field);
            assert(rest.drop_first() =~= template.fields@.skip(i + 1));
        }
        let value = read_value(cursor, field.kind)?;
        insert_value(&mut values, field.id, value);
        i = i + 1;
    }
    Ok(values)
}

/// Puts `(id, value)` into the id-sorted `values`, replacing a value of the same id.
fn insert_value(values: &mut Vec<(u8, FieldValue)>, id: u8, value: FieldValue)
    requires key_sorted(old(values)@, value_key()),
    ensures
        final(values)@ == upsert_by(old(values)@, (id, value), value_key()),
        key_sorted(final(values)@, value_key()),
{
    let ghost s = values@;
    let mut p: usize = 0;
    while p < values.len() && values[p].0 < id
        invariant
            0 <= p <= values@.len(),
            values@ == s,
            key_sorted(s, value_key()),
            forall|j: int| 0 <= j < p ==> (#[trigger] s[j]).0 < id,
        decreases values@.len() - p,
    {
        p = p + 1;
    }
    proof {
        assert forall|j: int| p <= j < s.len() implies (#[trigger] s[j]).0 >= id by {
            if j > p { assert(value_key()(s[p as int]) < value_key()(s[j])); }
        }
        assert(key_split(s, id as int, p as int, value_key()));
        lemma_upsert_sorted(s, (id, value), value_key(), p as int);
    }
    if p < values.len() && values[p].0 == id {
        values.set(p, (id, value));
    } else {
        values.insert(p, (id, value));
    }
}

/// The value of field `id`, if any.
pub open spec fn value_of(vals: Seq<(u8, FieldValue)>, id: u8) -> Option<FieldValue> {
    match find_by(vals, id as int, value_key()) {
        Some(p) => Some(p.1),
        None => None,
    }
}

/// A field read as a `u16`: 16-bit values as they are, 8-bit ones widened, 32-bit ones
/// truncated, anything else zero.
pub open spec fn u16_of(vals: Seq<(u8, FieldValue)>, id: u8) -> u16 {
    match value_of(vals, id) {
        Some(FieldValue::U16(v)) => v,
        Some(FieldValue::U8(v)) => v as u16,
        Some(FieldValue::U32(v)) => v as u16,
        _ => 0,
    }
}

/// A field read as a `u32`: 32-bit values as they are, narrower ones widened, variable-length
/// ones truncated, anything else zero.
pub open spec fn u32_of(vals: Seq<(u8, FieldValue)>, id: u8) -> u32 {
    match value_of(vals, id) {
        Some(FieldValue::U32(v)) => v,
        Some(FieldValue::U16(v)) => v as u32,
        Some(FieldValue::U8(v)) => v as u32,
        Some(FieldValue::Var(v)) => v as u32,
        _ => 0,
    }
}

/// A field read as an `i16`: signed 16-bit values as they are, unsigned ones reinterpreted,
/// anything else zero.
pub open spec fn i16_of(vals: Seq<(u8, FieldValue)>, id: u8) -> i16 {
    match value_of(vals, id) {
        Some(FieldValue::I16(v)) => v,
        Some(FieldValue::U16(v)) => v as i16,
        _ => 0,
    }
}

/// The value of field `id` in the id-sorted `values`.
fn lookup_value(values: &Vec<(u8, FieldValue)>, id: u8) -> (r: Option<FieldValue>)
    requires key_sorted(values@, value_key()),
    ensures r == value_of(values@, id),
{
    let mut i: usize = 0;
    while i < values.len()
        invariant
            0 <= i <= values@.len(),
            key_sorted(values@, value_key()),
            forall|j: int| 0 <= j < i ==> (#[trigger] values@[j]).0 != id,
        decreases values@.len() - i,
    {
        if values[i].0 == id {
            proof { lemma_find_sorted(values@, id as int, value_key(), i as int); }
            return Some(values[i].1);
        }
        i = i + 1;
    }
    proof { lemma_find_none(values@, id as int, value_key()); }
    None
}

fn u16_field(values: &Vec<(u8, FieldValue)>, id: u8) -> (v: u16)
    requires key_sorted(values@, value_key()),
    ensures v == u16_of(values@, id),
{
    match lookup_value(values, id) {
        Some(FieldValue::U16(value)) => value,
        Some(FieldValue::U8(value)) => value as u16,
        Some(FieldValue::U32(value)) => value as u16,
        _ => 0,
    }
}

fn u32_field(values: &Vec<(u8, FieldValue)>, id: u8) -> (v: u32)
    requires key_sorted(values@, value_key()),
    ensures v == u32_of(values@, id),
{
    match lookup_value(values, id) {
        Some(FieldValue::U32(value)) => value,
        Some(FieldValue::U16(value)) => value as u32,
        Some(FieldValue::U8(value)) => value as u32,
        Some(FieldValue::Var(value)) => value as u32,
        _ => 0,
    }
}

fn i16_field(values: &Vec<(u8, FieldValue)>, id: u8) -> (v: i16)
    requires key_sorted(values@, value_key()),
    ensures v == i16_of(values@, id),
{
    match lookup_value(values, id) {
        Some(FieldValue::I16(value)) => value,
        Some(FieldValue::U16(value)) => value as i16,
        _ => 0,
    }
}

/// The event a template of event kind 3 makes of its values: a cargo lot from fields 1 to
/// 8 (vessel, UN number, hazard class, tonnes, package code, stowage zone, temperature,
/// flags); other event kinds make none.
pub open spec fn event_of(t: TemplateView, vals: Seq<(u8, FieldValue)>) -> Option<HarborEvent> {
    if t.event_kind == 3 {
        Some(HarborEvent::Cargo(CargoLot {
            vessel: VesselId(u32_of(vals, 1)),
            un_number: u16_of(vals, 2),
            hazard: hazard_class(u16_of(vals, 3) as u8),
            tonnes: u32_of(vals, 4),
            package_code: u16_of(vals, 5),
            stowage_zone: u16_of(vals, 6) as u8,
            temperature_tenths: i16_of(vals, 7),
            flags: u16_of(vals, 8),
        }))
    } else {
        None
    }
}

/// Reading a record of template `t`: its values, then the event they make.
pub open spec fn rd_event(t: TemplateView, c: Cur) -> (Result<Option<HarborEvent>, ParseError>, Cur) {
    match rd_values(c, t.fields, Seq::empty()) {
        (Err(e), c1) => (Err(e), c1),
        (Ok(vals), c1) => (Ok(event_of(t, vals)), c1),
    }
}

/// Reads a record laid out by `template` and makes its event, if the template makes one.
pub fn parse_event_from_template(template: &RecordTemplate, cursor: &mut ByteCursor<'_>) -> (r: ParseResult<Option<HarborEvent>>)
    ensures
        ({
            let (sr, c) = rd_event(template_view(*template), old(cursor).view());
            &&& final(cursor).view() == c
            &&& sr == r
        }),
{
    let values = parse_values(template, cursor)?;
    if template.event_kind == 3 {
        let lot = CargoLot {
            vessel: VesselId(u32_field(&values, 1)),
            un_number: u16_field(&values, 2),
            hazard: HazardClass::from_byte(u16_field(&values, 3) as u8),
            tonnes: u32_field(&values, 4),
            package_code: u16_field(&values, 5),
            stowage_zone: u16_field(&values, 6) as u8,
            temperature_tenths: i16_field(&values, 7),
            flags: u16_field(&values, 8),
        };
        Ok(Some(HarborEvent::Cargo(lot)))
    } else {
        Ok(None)
    }
}

/// Reading one templated record: a `u16` template id, then the record laid out by that
/// template of `reg`; an unknown id is an error.
pub open spec fn rd_record(reg: Seq<TemplateView>, c: Cur) -> (Result<Option<HarborEvent>, ParseError>, Cur) {
    match rd_u16(c) {
        (Err(e), c1) => (Err(e), c1),
        (Ok(id), c1) => match find_by(reg, id as int, template_key()) {
            None => (Err(mk_err(ErrorKind::TemplateError, c1.abs_at(0), "template id")), c1),
            Some(t) => rd_event(t, c1),
        },
    }
}

/// The templated record reader of a registry.
pub open spec fn record_reader(reg: Seq<TemplateView>) -> Reader<Option<HarborEvent>> {
    |c: Cur| rd_record(reg, c)
}

/// The events among `s`, in order.
pub open spec fn present(s: Seq<Option<HarborEvent>>) -> Seq<HarborEvent>
    decreases s.len(),
{
    if s.len() == 0 {
        Seq::empty()
    } else {
        match s.last() {
            Some(e) => present(s.drop_last()).push(e),
            None => present(s.drop_last()),
        }
    }
}

/// Templated records: a `u16` count (at most 16384) and the records; the events they make.
pub open spec fn records_spec(reg: Seq<TemplateView>, data: Seq<u8>, base: usize) -> Result<Seq<HarborEvent>, ParseError> {
    match rd_u16(Cur { data, pos: 0, base }) {
        (Err(e), _) => Err(e),
        (Ok(count), c1) => if count > 16_384 {
            Err(mk_err(ErrorKind::LimitExceeded, c1.abs_at(0), "template record count"))
        } else {
            match read_n(c1, count as nat, record_reader(reg)).0 {
                Err(e) => Err(e),
                Ok(rs) => Ok(present(rs)),
            }
        },
    }
}

impl TemplateRegistry {
    /// The templates, by ascending id.
    pub closed spec fn view(&self) -> Seq<TemplateView> {
        template_views(self.templates@)
    }

    #[verifier::type_invariant]
    closed spec fn inv(&self) -> bool {
        key_sorted(self.view(), template_key())
    }

    pub fn new() -> (r: Self)
        ensures r.view().len() == 0,
    {
        let r = TemplateRegistry { templates: Vec::new() };
        proof { assert(r.view() =~= Seq::<TemplateView>::empty()); }
        r
    }

    /// Adds a template, replacing any of the same id.
    pub fn insert(&mut self, template: RecordTemplate)
        ensures final(self).view() == upsert_by(old(self).view(), template_view(template), template_key()),
    {
        proof { use_type_invariant(&*self); }
        let ghost s = self.view();
        let ghost tv = template_view(template);
        let id = template.id;
        let mut p: usize = 0;
        while p < self.templates.len() && self.templates[p].id < id
            invariant
                0 <= p <= self.templates@.len(),
                s == template_views(self.templates@),
                key_sorted(s, template_key()),
                forall|j: int| 0 <= j < p ==> (#[trigger] s[j]).id < id,
            decreases self.templates@.len() - p,
        {
            p = p + 1;
        }
        proof {
            assert forall|j: int| p <= j < s.len() implies (#[trigger] s[j]).id >= id by {
                if j > p { assert(template_key()(s[p as int]) < template_key()(s[j])); }
            }
            assert(key_split(s, id as int, p as int, template_key()));
            lemma_upsert_sorted(s, tv, template_key(), p as int);
        }
        let replace = p < self.templates.len() && self.templates[p].id == id;
        let mut templates: Vec<RecordTemplate> = Vec::new();
        core::mem::swap(&mut templates, &mut self.templates);
        if replace {
            templates.set(p, template);
            proof { assert(template_views(templates@) =~= s.update(p as int, tv)); }
        } else {
            templates.insert(p, template);
            proof { assert(template_views(templates@) =~= s.insert(p as int, tv)); }
        }
        self.templates = templates;
    }

    /// The template with id `id`.
    pub fn get(&self, id: u16) -> (r: Option<&RecordTemplate>)
        ensures
            match find_by(self.view(), id as int, template_key()) {
                Some(t) => r matches Some(x) && template_view(*x) == t,
                None => r is None,
            },
    {
        proof { use_type_invariant(self); }
        let ghost s = self.view();
        let mut i: usize = 0;
        while i < self.templates.len()
            invariant
                0 <= i <= self.templates@.len(),
                s == template_views(self.templates@),
                key_sorted(s, template_key()),
                forall|j: int| 0 <= j < i ==> (#[trigger] s[j]).id != id,
            decreases self.templates@.len() - i,
        {
            if self.templates[i].id == id {
                proof { lemma_find_sorted(s, id as int, template_key(), i as int); }
                return Some(&self.templates[i]);
            }
            i = i + 1;
        }
        proof { lemma_find_none(s, id as int, template_key()); }
        None
    }

    pub fn len(&self) -> (n: usize)
        ensures n == self.view().len(),
    {
        self.templates.len()
    }

    /// Reads a template section into the registry.
    pub fn parse_section(&mut self, data: &[u8], base: usize) -> (r: ParseResult<()>)
        ensures (final(self).view(), r) == section_spec(old(self).view(), data@, base),
    {
        let mut cursor = ByteCursor::with_base(data, base);
        let count = cursor.read_u16()? as usize;
        if count > 1024 {
            return Err(ParseError::limit(cursor.absolute_position(), "template count"));
        }
        let ghost c1 = cursor.view();
        let ghost r0 = self.view();
        let mut k: usize = 0;
        while k < count
            invariant
                0 <= k <= count,
                count <= 1024,
                cursor.wf(),
                r0 == old(self).view(),
                rd_u16(Cur { data: data@, pos: 0, base }) == (Ok::<u16, ParseError>(count as u16), c1),
                section_run(r0, c1, count as nat) == section_run(self.view(), cursor.view(), (count - k) as nat),
            decreases count - k,
        {
            let template = RecordTemplate::parse(&mut cursor)?;
            self.insert(template);
            k = k + 1;
        }
        Ok(())
    }

    /// Reads templated records and makes their events.
    pub fn parse_records(&self, data: &[u8], base: usize) -> (r: ParseResult<Vec<HarborEvent>>)
        ensures
            match records_spec(self.view(), data@, base) {
                Ok(es) => r matches Ok(v) && v@ == es,
                Err(e) => r is Err && r->Err_0 == e,
            },
    {
        let mut cursor = ByteCursor::with_base(data, base);
        let count = cursor.read_u16()? as usize;
        if count > 16_384 {
            return Err(ParseError::limit(cursor.absolute_position(), "template record count"));
        }
        let ghost c1 = cursor.view();
        let ghost reg = self.view();
        let ghost mut done: Seq<Option<HarborEvent>> = Seq::empty();
        let mut events: Vec<HarborEvent> = Vec::new();
        let mut k: usize = 0;
        proof { lemma_read_n_start(c1, count as nat, record_reader(reg)); }
        while k < count
            invariant
                0 <= k <= count,
                reg == self.view(),
                records_spec(reg, data@, base) == match read_n(c1, count as nat, record_reader(reg)).0 {
                    Err(e) => Err(e),
                    Ok(rs) => Ok(present(rs)),
                },
                read_n(c1, count as nat, record_reader(reg)) == prefixed(done, read_n(cursor.view(), (count - k) as nat, record_reader(reg))),
                events@ == present(done),
            decreases count - k,
        {
            let ghost before = cursor.view();
            let template_id = match cursor.read_u16() {
                Ok(v) => v,
                Err(e) => {
                    proof { lemma_read_n_fail(c1, count as nat, record_reader(reg), done, before, (count - k) as nat); }
                    return Err(e);
                },
            };
            let template = match self.get(template_id) {
                Some(t) => t,
                None => {
                    let e = ParseError::template(cursor.absolute_position(), "template id");
                    proof { lemma_read_n_fail(c1, count as nat, record_reader(reg), done, before, (count - k) as nat); }
                    return Err(e);
                },
            };
            let event = match parse_event_from_template(template, &mut cursor) {
                Ok(ev) => ev,
                Err(e) => {
                    proof { lemma_read_n_fail(c1, count as nat, record_reader(reg), done, before, (count - k) as nat); }
                    return Err(e);
                },
            };
            proof { lemma_read_n_step(c1, count as nat, record_reader(reg), done, before, (count - k) as nat); }
            let ghost d1 = done.push(event);
            match event {
                Some(ev) => {
                    events.push(ev);
                },
                None => {},
            }
            proof {
                assert(d1.drop_last() =~= done);
                done = d1;
            }
            k = k + 1;
        }
        proof { lemma_read_n_done(c1, count as nat, record_reader(reg), done, cursor.view()); }
        Ok(events)
    }
}

impl Default for TemplateRegistry {
    fn default() -> (r: Self)
        ensures r.view().len() == 0,
    {
        TemplateRegistry::new()
    }
}


/// A copy of a field list.
fn copy_fields(v: &Vec<TemplateField>) -> (r: Vec<TemplateField>)
    ensures r@ == v@,
{
    let mut out: Vec<TemplateField> = Vec::new();
    let mut i: usize = 0;
    while i < v.len()
        invariant
            0 <= i <= v@.len(),
            out@ =~= v@.take(i as int),
        decreases v@.len() - i,
    {
        out.push(v[i]);
        i = i + 1;
        proof { assert(out@ =~= v@.take(i as int)); }
    }
    proof { assert(v@.take(i as int) =~= v@); }
    out
}

impl Clone for RecordTemplate {
    fn clone(&self) -> (r: Self)
        ensures template_view(r) == template_view(*self),
    {
        RecordTemplate { id: self.id, event_kind: self.event_kind, fields: copy_fields(&self.fields) }
    }
}

impl Clone for TemplateRegistry {
    fn clone(&self) -> (r: Self)
        ensures r.view() == self.view(),
    {
        proof { use_type_invariant(self); }
        let mut templates: Vec<RecordTemplate> = Vec::new();
        let mut i: usize = 0;
        while i < self.templates.len()
            invariant
                0 <= i <= self.templates@.len(),
                template_views(templates@) =~= template_views(self.templates@).take(i as int),
            decreases self.templates@.len() - i,
        {
            let t = self.templates[i].clone();
            let ghost before = templates@;
            templates.push(t);
            proof {
                assert(template_view(t) == template_views(self.templates@)[i as int]);
                assert(template_views(before.push(t)) =~= template_views(before).push(template_view(t)));
                assert(template_views(self.templates@).take(i + 1) =~= template_views(self.templates@).take(i as int).push(template_view(t)));
            }
            i = i + 1;
        }
        proof { assert(template_views(self.templates@).take(i as int) =~= template_views(self.templates@)); }
        TemplateRegistry { templates }
    }
}

} // verus!
