use vstd::prelude::*;
use vstd::utf8::{decode_utf8, encode_utf8, valid_utf8};
use crate::checksum::rolling_tag_spec;
use crate::cursor::{ByteCursor, Cur, le16, le32, rd_u8, rd_u16, rd_u32, rd_slice};
use crate::dictionary::{DictView, NameLease, StringDictionary, delta_spec, dict_compact, dict_text, empty_dict,
    err_of, find_entry, resolve_code_spec, name_similarity, similarity_spec, occurs_in, chars_occur};
use crate::error::{ErrorKind, ParseError, ParseResult, mk_err};
use crate::model::{Finding, FindingSeverity, FindingView, VesselId, finding_view, finding_views, sat_add32};
use crate::text::{dec_text, push_dec, push_str, str_chars, string_from_chars, utf8_lossy};

verus! {

/// A vessel entry of the ledger: vessel, name and berth codes, flags, and the index of the
/// name lease it retained, if any.
#[derive(Debug, Clone, Copy, PartialEq, Eq, Structural)]
pub struct LedgerRecord {
    pub vessel: VesselId,
    pub name_code: u16,
    pub berth_code: u16,
    pub flags: u16,
    pub retained_index: Option<usize>,
}

/// A name lease as values.
pub struct LeaseView {
    pub bytes: Seq<u8>,
    pub code: u16,
    pub generation: u32,
    pub checksum: u32,
}

/// A lease as values.
pub open spec fn lease_view(l: NameLease) -> LeaseView {
    LeaseView { bytes: l.bytes_view(), code: l.code_view(), generation: l.generation_view(), checksum: l.checksum_view() }
}

/// Leases as values.
pub open spec fn lease_views(s: Seq<NameLease>) -> Seq<LeaseView> {
    s.map_values(|l: NameLease| lease_view(l))
}

/// Strings as values.
pub open spec fn string_views(s: Seq<String>) -> Seq<Seq<char>> {
    s.map_values(|t: String| t@)
}

/// The lease a ledger retains for a name code: the entry's text (UTF-8), code, generation
/// and checksum when the code resolves to an entry, else an empty lease of the dictionary's
/// generation.
pub open spec fn lease_spec(d: DictView, code: u16) -> LeaseView {
    let k = resolve_code_spec(d, code);
    match find_entry(d.entries, k) {
        Some(e) => LeaseView {
            bytes: encode_utf8(e.text),
            code: k,
            generation: e.generation,
            checksum: rolling_tag_spec(k as u32, encode_utf8(e.text)),
        },
        None => LeaseView { bytes: Seq::empty(), code, generation: d.generation, checksum: 0 },
    }
}

/// The ledger's state as values.
pub struct LedgerView {
    pub dict: DictView,
    pub records: Seq<LedgerRecord>,
    pub retained: Seq<LeaseView>,
    pub materialized: Seq<Seq<char>>,
    pub audit_score: u32,
}

/// The text a lease's bytes hold: decoded when they are UTF-8, else decoded with ill-formed
/// sequences replaced.
pub open spec fn lease_text(bytes: Seq<u8>) -> Seq<char> {
    if valid_utf8(bytes) { decode_utf8(bytes) } else { utf8_lossy(bytes) }
}

/// The name a record materializes to: its retained lease's text when it holds a valid lease
/// index, else its name code's dictionary text, if any.
pub open spec fn record_text(d: DictView, retained: Seq<LeaseView>, r: LedgerRecord) -> Option<Seq<char>> {
    match r.retained_index {
        Some(i) if i < retained.len() => Some(lease_text(retained[i as int].bytes)),
        _ => dict_text(d, r.name_code),
    }
}

/// A lease taken of a name code that has an entry holds that entry's text: materializing a
/// record through its retained lease gives the text the dictionary had when the lease was
/// taken, whatever the dictionary holds since.
pub proof fn lemma_lease_text(d: DictView, code: u16)
    ensures
        find_entry(d.entries, resolve_code_spec(d, code)) matches Some(e)
            ==> lease_text(lease_spec(d, code).bytes) == e.text,
{
    broadcast use vstd::utf8::encode_utf8_valid_utf8, vstd::utf8::encode_utf8_decode_utf8;
}

/// The names the records materialize to, in order.
pub open spec fn materialized_texts(d: DictView, retained: Seq<LeaseView>, rs: Seq<LedgerRecord>) -> Seq<Seq<char>>
    decreases rs.len(),
{
    if rs.len() == 0 {
        Seq::empty()
    } else {
        let prev = materialized_texts(d, retained, rs.drop_last());
        match record_text(d, retained, rs.last()) {
            Some(t) => prev.push(t),
            None => prev,
        }
    }
}

/// The audit score of names: their UTF-8 lengths (truncated to 32 bits), plus 12 for each
/// name containing "HAZ" or "TANK"; each step saturating.
pub open spec fn score_spec(ts: Seq<Seq<char>>) -> u32
    decreases ts.len(),
{
    if ts.len() == 0 {
        0
    } else {
        let t = ts.last();
        let s1 = sat_add32(score_spec(ts.drop_last()) as int, ((encode_utf8(t).len() as usize) as u32) as int);
        if occurs_in(t, "HAZ"@) || occurs_in(t, "TANK"@) { sat_add32(s1 as int, 12) } else { s1 }
    }
}

/// The detail of a similar-name finding.
pub open spec fn similar_detail(code: u16, target: u16) -> Seq<char> {
    "name code "@ + dec_text(code as nat) + " resembles "@ + dec_text(target as nat)
}

/// Findings for the records whose name is similar (above 640) to the name of `target` (the
/// empty name when `target` has none) without being that code.
pub open spec fn similar_findings(d: DictView, rs: Seq<LedgerRecord>, target: u16) -> Seq<FindingView>
    decreases rs.len(),
{
    if rs.len() == 0 {
        Seq::empty()
    } else {
        let prev = similar_findings(d, rs.drop_last(), target);
        let r = rs.last();
        let tt = match dict_text(d, target) { Some(t) => t, None => Seq::empty() };
        match dict_text(d, r.name_code) {
            Some(name) => if similarity_spec(tt, name) > 640 && target != r.name_code {
                prev.push(FindingView {
                    severity: FindingSeverity::Low,
                    code: "similar-name",
                    vessel: Some(r.vessel),
                    detail: similar_detail(r.name_code, target),
                })
            } else {
                prev
            },
            None => prev,
        }
    }
}

/// One ledger operation, read from `c`: the state, cursor and findings after it, and the error
/// that stopped the program, if any.
///
/// 0x01 and 0x02 carry a `u16`-prefixed dictionary section (absolute offset where it starts)
/// that updates or replaces the dictionary; 0x03 adds a record (vessel, name code, berth code,
/// flags), retaining a lease of the name when flag 0x0002 is set; 0x04 compacts the
/// dictionary; 0x05 materializes the records' names and adds their score to the audit score;
/// 0x06 reports names similar to a code's; 0x07 drops the first records.
#[verifier::opaque]
pub open spec fn ledger_op(st: LedgerView, c: Cur, fs: Seq<FindingView>) -> (LedgerView, Cur, Seq<FindingView>, Option<ParseError>) {
    let off = c.abs_at(0);
    match rd_u8(c) {
        (Err(e), c1) => (st, c1, fs, Some(e)),
        (Ok(op), c1) => if op == 1 || op == 2 {
            match rd_u16(c1) {
                (Err(e), c2) => (st, c2, fs, Some(e)),
                (Ok(len), c2) => {
                    let sb = c2.abs_at(0);
                    match rd_slice(c2, len as int, if op == 1 { "ledger dictionary delta" } else { "ledger dictionary replace" }) {
                        (Err(e), c3) => (st, c3, fs, Some(e)),
                        (Ok(sec), c3) => {
                            let start = if op == 1 { st.dict } else {
                                empty_dict(st.dict.generation.wrapping_add(1), st.dict.revision_tag)
                            };
                            let (d2, r) = delta_spec(start, sec, sb);
                            (LedgerView { dict: d2, ..st }, c3, fs, err_of(r))
                        },
                    }
                },
            }
        } else if op == 3 {
            match rd_u32(c1) {
                (Err(e), c2) => (st, c2, fs, Some(e)),
                (Ok(vessel), c2) => match rd_u16(c2) {
                    (Err(e), c3) => (st, c3, fs, Some(e)),
                    (Ok(name_code), c3) => match rd_u16(c3) {
                        (Err(e), c4) => (st, c4, fs, Some(e)),
                        (Ok(berth_code), c4) => match rd_u16(c4) {
                            (Err(e), c5) => (st, c5, fs, Some(e)),
                            (Ok(flags), c5) => {
                                let retain = (flags / 2) % 2 == 1;
                                let retained = if retain { st.retained.push(lease_spec(st.dict, name_code)) } else { st.retained };
                                let idx = if retain { Some(st.retained.len() as usize) } else { None };
                                let rec = LedgerRecord { vessel: VesselId(vessel), name_code, berth_code, flags, retained_index: idx };
                                (LedgerView { records: st.records.push(rec), retained, ..st }, c5, fs, None)
                            },
                        },
                    },
                },
            }
        } else if op == 4 {
            match rd_u16(c1) {
                (Err(e), c2) => (st, c2, fs, Some(e)),
                (Ok(keep), c2) => (LedgerView { dict: dict_compact(st.dict, keep), ..st }, c2, fs, None),
            }
        } else if op == 5 {
            let texts = st.materialized + materialized_texts(st.dict, st.retained, st.records);
            (LedgerView { materialized: texts, audit_score: sat_add32(st.audit_score as int, score_spec(texts) as int), ..st },
                c1, fs, None)
        } else if op == 6 {
            match rd_u16(c1) {
                (Err(e), c2) => (st, c2, fs, Some(e)),
                (Ok(target), c2) => (st, c2, fs + similar_findings(st.dict, st.records, target), None),
            }
        } else if op == 7 {
            match rd_u16(c1) {
                (Err(e), c2) => (st, c2, fs, Some(e)),
                (Ok(trim), c2) => {
                    let rs = if trim >= st.records.len() { Seq::empty() } else { st.records.skip(trim as int) };
                    (LedgerView { records: rs, ..st }, c2, fs, None)
                },
            }
        } else {
            (st, c1, fs, Some(mk_err(ErrorKind::InvalidTag, off, "ledger op")))
        },
    }
}

/// Adding a record (op 0x03: vessel `u32`, name code, berth code and flags `u16`) appends one
/// record with those fields and keeps the records before it; with flag 0x0002 it also retains
/// one lease, of the name code, and the record points at it. The operation takes eleven bytes
/// and cannot fail.
pub proof fn lemma_add_record_op(st: LedgerView, c: Cur, fs: Seq<FindingView>)
    requires
        0 <= c.pos,
        c.pos + 11 <= c.data.len(),
        c.data[c.pos] == 3,
    ensures ({
        let (st1, c1, fs1, e) = ledger_op(st, c, fs);
        let p = c.pos;
        let flags = le16(c.data, p + 9);
        &&& e is None && fs1 == fs && c1 == c.adv(11)
        &&& st1.dict == st.dict && st1.materialized == st.materialized && st1.audit_score == st.audit_score
        &&& st1.records.len() == st.records.len() + 1
        &&& st1.records.take(st.records.len() as int) == st.records
        &&& st1.records.last().vessel.0 == le32(c.data, p + 1)
        &&& st1.records.last().name_code == le16(c.data, p + 5)
        &&& st1.records.last().berth_code == le16(c.data, p + 7)
        &&& st1.records.last().flags == flags
        &&& (flags / 2) % 2 == 1 ==> st1.retained == st.retained.push(lease_spec(st.dict, le16(c.data, p + 5) as u16))
            && st1.records.last().retained_index == Some(st.retained.len() as usize)
        &&& (flags / 2) % 2 == 0 ==> st1.retained == st.retained && st1.records.last().retained_index is None
    }),
{
    reveal(ledger_op);
    assert(le16(c.data, c.pos + 5) < 0x10000 && le16(c.data, c.pos + 7) < 0x10000 && le16(c.data, c.pos + 9) < 0x10000);
    assert(le32(c.data, c.pos + 1) < 0x1_0000_0000);
    let st1 = ledger_op(st, c, fs).0;
    assert(st1.records.take(st.records.len() as int) =~= st.records);
}

/// Trimming (op 0x07 with a `u16` count `t`) drops the first `t` records and keeps the rest in
/// order, so the last record stays last; a count of at least the number of records drops them
/// all. Nothing else changes, and the operation takes three bytes and cannot fail.
pub proof fn lemma_trim_op(st: LedgerView, c: Cur, fs: Seq<FindingView>)
    requires
        0 <= c.pos,
        c.pos + 3 <= c.data.len(),
        c.data[c.pos] == 7,
    ensures ({
        let (st1, c1, fs1, e) = ledger_op(st, c, fs);
        let t = le16(c.data, c.pos + 1);
        let n = st.records.len();
        &&& e is None && fs1 == fs && c1 == c.adv(3)
        &&& st1.dict == st.dict && st1.retained == st.retained
        &&& st1.materialized == st.materialized && st1.audit_score == st.audit_score
        &&& t >= n ==> st1.records.len() == 0
        &&& t < n ==> st1.records.len() == n - t
            && (forall|i: int| 0 <= i < n - t ==> #[trigger] st1.records[i] == st.records[i + t])
            && st1.records.last() == st.records.last()
    }),
{
    reveal(ledger_op);
    assert(le16(c.data, c.pos + 1) < 0x10000);
}

/// The first `n` operations of a program, stopping at the first error.
pub open spec fn ledger_run(st: LedgerView, c: Cur, fs: Seq<FindingView>, n: nat) -> (LedgerView, Cur, Seq<FindingView>, Option<ParseError>)
    decreases n,
{
    if n == 0 {
        (st, c, fs, None)
    } else {
        let (st1, c1, fs1, e) = ledger_run(st, c, fs, (n - 1) as nat);
        if e is Some { (st1, c1, fs1, e) } else { ledger_op(st1, c1, fs1) }
    }
}

proof fn lemma_ledger_run_stop(st: LedgerView, c: Cur, fs: Seq<FindingView>, m: nat, n: nat)
    requires m <= n, ledger_run(st, c, fs, m).3 is Some,
    ensures ledger_run(st, c, fs, n) == ledger_run(st, c, fs, m),
    decreases n - m,
{
    if m < n {
        lemma_ledger_run_stop(st, c, fs, m, (n - 1) as nat);
    }
}

/// Running a ledger program on `st`: a `u16` operation count (at most 32768) and the
/// operations; the state after it (partly updated when an operation failed) and the findings
/// or the error.
pub open spec fn program_spec(st: LedgerView, data: Seq<u8>, base: usize) -> (LedgerView, Result<Seq<FindingView>, ParseError>) {
    match rd_u16(Cur { data, pos: 0, base }) {
        (Err(e), _) => (st, Err(e)),
        (Ok(count), c1) => if count > 32_768 {
            (st, Err(mk_err(ErrorKind::LimitExceeded, c1.abs_at(0), "ledger op count")))
        } else {
            let (st2, _c, fs, e) = ledger_run(st, c1, Seq::empty(), count as nat);
            match e {
                Some(err) => (st2, Err(err)),
                None => (st2, Ok(fs)),
            }
        },
    }
}

/// A dictionary of names and the vessel records that refer to it.
#[derive(Debug, Clone)]
pub struct VesselLedger {
    dictionary: StringDictionary,
    records: Vec<LedgerRecord>,
    retained: Vec<NameLease>,
    materialized: Vec<String>,
    audit_score: u32,
}

/// The empty ledger.
pub open spec fn empty_ledger() -> LedgerView {
    LedgerView {
        dict: empty_dict(0, 0),
        records: Seq::empty(),
        retained: Seq::empty(),
        materialized: Seq::empty(),
        audit_score: 0,
    }
}

/// `s` from index `from` on.
fn records_from_index(s: &Vec<LedgerRecord>, from: usize) -> (r: Vec<LedgerRecord>)
    requires from <= s@.len(),
    ensures r@ == s@.skip(from as int),
{
    let mut out: Vec<LedgerRecord> = Vec::new();
    let mut i: usize = from;
    while i < s.len()
        invariant
            from <= i <= s@.len(),
            out@ =~= s@.subrange(from as int, i as int),
        decreases s@.len() - i,
    {
        out.push(s[i]);
        i = i + 1;
        proof { assert(out@ =~= s@.subrange(from as int, i as int)); }
    }
    out
}

impl VesselLedger {
    /// The ledger's state.
    pub closed spec fn view(&self) -> LedgerView {
        LedgerView {
            dict: self.dictionary.view(),
            records: self.records@,
            retained: lease_views(self.retained@),
            materialized: string_views(self.materialized@),
            audit_score: self.audit_score,
        }
    }

    pub fn new() -> (l: Self)
        ensures l.view() == empty_ledger(),
    {
        let l = VesselLedger {
            dictionary: StringDictionary::new(),
            records: Vec::new(),
            retained: Vec::new(),
            materialized: Vec::new(),
            audit_score: 0,
        };
        proof {
            assert(l.view().records =~= Seq::<LedgerRecord>::empty());
            assert(l.view().retained =~= Seq::<LeaseView>::empty());
            assert(l.view().materialized =~= Seq::<Seq<char>>::empty());
        }
        l
    }

    pub fn dictionary(&self) -> (d: &StringDictionary)
        ensures d.view() == self.view().dict,
    {
        &self.dictionary
    }

    pub fn records(&self) -> (r: &[LedgerRecord])
        ensures r@ == self.view().records,
    {
        self.records.as_slice()
    }

    pub fn materialized(&self) -> (m: &[String])
        ensures string_views(m@) == self.view().materialized,
    {
        self.materialized.as_slice()
    }

    pub fn audit_score(&self) -> (s: u32)
        ensures s == self.view().audit_score,
    {
        self.audit_score
    }

    /// Appends the names the records materialize to.
    pub fn materialize(&mut self)
        ensures
            final(self).view() == (LedgerView {
                materialized: old(self).view().materialized
                    + materialized_texts(old(self).view().dict, old(self).view().retained, old(self).view().records),
                ..old(self).view()
            }),
    {
        let ghost d = self.view().dict;
        let ghost ret = self.view().retained;
        let ghost m0 = self.view().materialized;
        let mut i: usize = 0;
        proof { assert(m0 + materialized_texts(d, ret, self.records@.take(0)) =~= m0); }
        while i < self.records.len()
            invariant
                0 <= i <= self.records@.len(),
                d == self.dictionary.view(),
                d == old(self).view().dict,
                ret == lease_views(self.retained@),
                ret == old(self).view().retained,
                self.records@ == old(self).view().records,
                self.audit_score == old(self).view().audit_score,
                m0 == old(self).view().materialized,
                string_views(self.materialized@) == m0 + materialized_texts(d, ret, self.records@.take(i as int)),
            decreases self.records@.len() - i,
        {
            proof { assert(self.records@.take(i + 1).drop_last() =~= self.records@.take(i as int)); }
            let record = self.records[i];
            let ghost before = self.materialized@;
            let mut done = false;
            match record.retained_index {
                Some(index) => {
                    if index < self.retained.len() {
                        let text = self.retained[index].text_lossy();
                        self.materialized.push(text);
                        done = true;
                    }
                },
                None => {},
            }
            if !done {
                match self.dictionary.get(record.name_code) {
                    Some(text) => {
                        self.materialized.push(text.to_owned());
                    },
                    None => {},
                }
            }
            proof {
                let t = materialized_texts(d, ret, self.records@.take(i as int));
                if self.materialized@.len() > before.len() {
                    assert(string_views(self.materialized@) =~= string_views(before).push(self.materialized@.last()@));
                    assert((m0 + t).push(self.materialized@.last()@) =~= m0 + t.push(self.materialized@.last()@));
                }
            }
            i = i + 1;
        }
        proof { assert(self.records@.take(i as int) =~= self.records@); }
    }

    /// The audit score of the materialized names.
    pub fn score_materialized(&self) -> (s: u32)
        ensures s == score_spec(self.view().materialized),
    {
        let ghost ts = self.view().materialized;
        let haz = str_chars("HAZ");
        let tank = str_chars("TANK");
        let mut score: u32 = 0;
        let mut i: usize = 0;
        while i < self.materialized.len()
            invariant
                0 <= i <= self.materialized@.len(),
                ts == string_views(self.materialized@),
                haz@ == "HAZ"@,
                tank@ == "TANK"@,
                score == score_spec(ts.take(i as int)),
            decreases self.materialized@.len() - i,
        {
            proof { assert(ts.take(i + 1).drop_last() =~= ts.take(i as int)); }
            let text = self.materialized[i].as_str();
            score = score.saturating_add(text.len() as u32);
            let chars = str_chars(text);
            if chars_occur(&chars, &haz) || chars_occur(&chars, &tank) {
                score = score.saturating_add(12);
            }
            i = i + 1;
        }
        proof { assert(ts.take(i as int) =~= ts); }
        score
    }

    /// Findings for the records whose name resembles the name of `target_code`.
    fn find_similar_names(&self, target_code: u16) -> (r: Vec<Finding>)
        ensures finding_views(r@) == similar_findings(self.view().dict, self.view().records, target_code),
    {
        let ghost d = self.view().dict;
        proof { reveal_strlit(""); }
        let target = match self.dictionary.get(target_code) {
            Some(t) => t,
            None => "",
        };
        let mut findings: Vec<Finding> = Vec::new();
        let mut i: usize = 0;
        while i < self.records.len()
            invariant
                0 <= i <= self.records@.len(),
                d == self.dictionary.view(),
                target@ == match dict_text(d, target_code) { Some(t) => t, None => Seq::empty() },
                finding_views(findings@) == similar_findings(d, self.records@.take(i as int), target_code),
            decreases self.records@.len() - i,
        {
            proof { assert(self.records@.take(i + 1).drop_last() =~= self.records@.take(i as int)); }
            let record = self.records[i];
            match self.dictionary.get(record.name_code) {
                Some(name) => {
                    let similarity = name_similarity(target, name);
                    if similarity > 640 && target_code != record.name_code {
                        let mut t: Vec<char> = Vec::new();
                        push_str(&mut t, "name code ");
                        push_dec(&mut t, record.name_code as u64);
                        push_str(&mut t, " resembles ");
                        push_dec(&mut t, target_code as u64);
                        let f = Finding::new(FindingSeverity::Low, "similar-name", Some(record.vessel), string_from_chars(t));
                        let ghost before = findings@;
                        findings.push(f);
                        proof {
                            assert(t@ =~= similar_detail(record.name_code, target_code));
                            assert(finding_views(findings@) =~= finding_views(before).push(finding_view(f)));
                        }
                    }
                },
                None => {},
            }
            i = i + 1;
        }
        proof { assert(self.records@.take(i as int) =~= self.records@); }
        findings
    }

    /// Runs one operation read from `cursor`.
    fn apply_one(&mut self, cursor: &mut ByteCursor, findings: &mut Vec<Finding>) -> (r: ParseResult<()>)
        ensures
            (final(self).view(), final(cursor).view(), finding_views(final(findings)@), err_of(r))
                == ledger_op(old(self).view(), old(cursor).view(), finding_views(old(findings)@)),
    {
        proof { reveal(ledger_op); }
        let op_offset = cursor.absolute_position();
        let op = cursor.read_u8()?;
        if op == 0x01 || op == 0x02 {
            let len = cursor.read_u16()? as usize;
            let section_base = cursor.absolute_position();
            let section = if op == 0x01 {
                cursor.read_slice(len, "ledger dictionary delta")?
            } else {
                cursor.read_slice(len, "ledger dictionary replace")?
            };
            if op == 0x01 {
                self.dictionary.apply_delta(section, section_base)
            } else {
                self.dictionary.replace_from(section, section_base)
            }
        } else if op == 0x03 {
            let vessel = VesselId(cursor.read_u32()?);
            let name_code = cursor.read_u16()?;
            let berth_code = cursor.read_u16()?;
            let flags = cursor.read_u16()?;
            proof { assert((flags & 0x0002 != 0) == ((flags / 2) % 2 == 1)) by (bit_vector); }
            let ghost r0 = self.retained@;
            let retained_index = if flags & 0x0002 != 0 {
                let lease = match self.dictionary.lease(name_code) {
                    Some(l) => l,
                    None => NameLease::empty(name_code, self.dictionary.generation()),
                };
                self.retained.push(lease);
                proof { assert(lease_views(self.retained@) =~= lease_views(r0).push(lease_view(lease))); }
                Some(self.retained.len() - 1)
            } else {
                None
            };
            self.records.push(LedgerRecord { vessel, name_code, berth_code, flags, retained_index });
            Ok(())
        } else if op == 0x04 {
            let keep_flags = cursor.read_u16()?;
            self.dictionary.compact(keep_flags);
            Ok(())
        } else if op == 0x05 {
            self.materialize();
            let s = self.score_materialized();
            self.audit_score = self.audit_score.saturating_add(s);
            Ok(())
        } else if op == 0x06 {
            let target = cursor.read_u16()?;
            let mut more = self.find_similar_names(target);
            let ghost f0 = findings@;
            let ghost m = more@;
            findings.append(&mut more);
            proof { assert(finding_views(f0 + m) =~= finding_views(f0) + finding_views(m)); }
            Ok(())
        } else if op == 0x07 {
            let trim = cursor.read_u16()? as usize;
            if trim >= self.records.len() {
                self.records = Vec::new();
                proof { assert(self.records@ =~= Seq::<LedgerRecord>::empty()); }
            } else {
                self.records = records_from_index(&self.records, trim);
            }
            Ok(())
        } else {
            Err(ParseError::invalid_tag(op_offset, "ledger op"))
        }
    }

    /// Runs a ledger program; the findings of its similar-name operations, or the error of the
    /// operation that failed (the operations before it keep their effect).
    pub fn apply_program(&mut self, data: &[u8], base: usize) -> (r: ParseResult<Vec<Finding>>)
        ensures
            ({
                let (st, res) = program_spec(old(self).view(), data@, base);
                &&& final(self).view() == st
                &&& match res {
                    Ok(fs) => r matches Ok(v) && finding_views(v@) == fs,
                    Err(e) => r is Err && r->Err_0 == e,
                }
            }),
    {
        let mut cursor = ByteCursor::with_base(data, base);
        let mut findings: Vec<Finding> = Vec::new();
        let count = cursor.read_u16()? as usize;
        if count > 32_768 {
            return Err(ParseError::limit(cursor.absolute_position(), "ledger op count"));
        }
        let ghost st0 = self.view();
        let ghost c1 = cursor.view();
        proof { assert(finding_views(findings@) =~= Seq::<FindingView>::empty()); }
        let mut n: usize = 0;
        while n < count
            invariant
                0 <= n <= count,
                count <= 32_768,
                st0 == old(self).view(),
                rd_u16(Cur { data: data@, pos: 0, base }) == (Ok::<u16, ParseError>(count as u16), c1),
                ledger_run(st0, c1, Seq::empty(), n as nat) == (self.view(), cursor.view(), finding_views(findings@), None::<ParseError>),
            decreases count - n,
        {
            let r = self.apply_one(&mut cursor, &mut findings);
            if r.is_err() {
                proof { lemma_ledger_run_stop(st0, c1, Seq::empty(), (n + 1) as nat, count as nat); }
                return Err(r.unwrap_err());
            }
            n = n + 1;
        }
        Ok(findings)
    }
}

impl Default for VesselLedger {
    fn default() -> (l: Self)
        ensures l.view() == empty_ledger(),
    {
        VesselLedger::new()
    }
}

/// Runs a ledger program on an empty ledger.
pub fn decode_ledger_program(data: &[u8]) -> (r: ParseResult<Vec<Finding>>)
    ensures
        match program_spec(empty_ledger(), data@, 0).1 {
            Ok(fs) => r matches Ok(v) && finding_views(v@) == fs,
            Err(e) => r is Err && r->Err_0 == e,
        },
{
    let mut ledger = VesselLedger::new();
    ledger.apply_program(data, 0)
}

} // verus!
