use vstd::prelude::*;
use vstd::utf8::{valid_utf8, decode_utf8, encode_utf8};
use crate::checksum::{rolling_tag, rolling_tag_spec, rotl32, rotate_left32};
use crate::cursor::{ByteCursor, Cur, le16, rd_u8, rd_u16, rd_u32, rd_prefixed, sat_add};
use crate::error::{ErrorKind, ParseError, ParseResult, mk_err};
use crate::text::{str_chars, string_from_chars, utf8_str, lossy_text, utf8_lossy};

verus! {

/// One dictionary entry: its code, text, the generation it was written in, and its flags.
pub struct EntryView {
    pub code: u16,
    pub text: Seq<char>,
    pub generation: u32,
    pub flags: u16,
}

/// The whole dictionary: entries by ascending code, aliases by ascending alias code, the
/// generation counter and the revision tag.
#[verifier::ext_equal]
pub struct DictView {
    pub entries: Seq<EntryView>,
    pub aliases: Seq<(u16, u16)>,
    pub generation: u32,
    pub revision_tag: u32,
}

/// Codes strictly ascending.
pub open spec fn entries_sorted(es: Seq<EntryView>) -> bool {
    forall|i: int, j: int| 0 <= i < j < es.len() ==> #[trigger] es[i].code < #[trigger] es[j].code
}

/// Alias codes strictly ascending.
pub open spec fn aliases_sorted(al: Seq<(u16, u16)>) -> bool {
    forall|i: int, j: int| 0 <= i < j < al.len() ==> #[trigger] al[i].0 < #[trigger] al[j].0
}

pub open spec fn dict_wf(d: DictView) -> bool {
    entries_sorted(d.entries) && aliases_sorted(d.aliases)
}

/// `p` splits `es` into the entries with code below `k` and those at or above it.
pub open spec fn entry_split(es: Seq<EntryView>, k: u16, p: int) -> bool {
    &&& 0 <= p <= es.len()
    &&& forall|i: int| 0 <= i < p ==> #[trigger] es[i].code < k
    &&& forall|i: int| p <= i < es.len() ==> #[trigger] es[i].code >= k
}

/// Where code `k` belongs in `es`.
pub open spec fn entry_pos(es: Seq<EntryView>, k: u16) -> int {
    choose|p: int| entry_split(es, k, p)
}

/// `p` splits `al` into the aliases below `k` and those at or above it.
pub open spec fn alias_split(al: Seq<(u16, u16)>, k: u16, p: int) -> bool {
    &&& 0 <= p <= al.len()
    &&& forall|i: int| 0 <= i < p ==> #[trigger] al[i].0 < k
    &&& forall|i: int| p <= i < al.len() ==> #[trigger] al[i].0 >= k
}

/// Where alias `k` belongs in `al`.
pub open spec fn alias_pos(al: Seq<(u16, u16)>, k: u16) -> int {
    choose|p: int| alias_split(al, k, p)
}

/// `es` with `e` put in its place: replacing the entry of the same code, or inserted in order.
pub open spec fn upsert_entry(es: Seq<EntryView>, e: EntryView) -> Seq<EntryView> {
    let p = entry_pos(es, e.code);
    if p < es.len() && es[p].code == e.code { es.update(p, e) } else { es.insert(p, e) }
}

/// `al` with alias `a` pointing at `t`.
pub open spec fn upsert_alias(al: Seq<(u16, u16)>, a: u16, t: u16) -> Seq<(u16, u16)> {
    let p = alias_pos(al, a);
    if p < al.len() && al[p].0 == a { al.update(p, (a, t)) } else { al.insert(p, (a, t)) }
}

/// The entry with code `k`, if any.
pub open spec fn find_entry(es: Seq<EntryView>, k: u16) -> Option<EntryView>
    decreases es.len(),
{
    if es.len() == 0 { None } else if es.last().code == k { Some(es.last()) } else { find_entry(es.drop_last(), k) }
}

/// The target of alias `a`, if any.
pub open spec fn find_alias(al: Seq<(u16, u16)>, a: u16) -> Option<u16>
    decreases al.len(),
{
    if al.len() == 0 { None } else if al.last().0 == a { Some(al.last().1) } else { find_alias(al.drop_last(), a) }
}

/// Follows aliases from `code` at most `n` times, stopping at a code without an alias or
/// with an alias to itself.
pub open spec fn resolve(al: Seq<(u16, u16)>, code: u16, n: nat) -> u16
    decreases n,
{
    if n == 0 {
        code
    } else {
        match find_alias(al, code) {
            Some(next) => if next != code { resolve(al, next, (n - 1) as nat) } else { code },
            None => code,
        }
    }
}

/// The code that `code` stands for: aliases followed at most eight times.
pub open spec fn resolve_code_spec(d: DictView, code: u16) -> u16 {
    resolve(d.aliases, code, 8)
}

/// The text that `code` stands for in `d`, if any: aliases followed, then the entry.
pub open spec fn dict_text(d: DictView, code: u16) -> Option<Seq<char>> {
    match find_entry(d.entries, resolve_code_spec(d, code)) {
        Some(e) => Some(e.text),
        None => None,
    }
}

/// `c` is a control character (Unicode category Cc: U+0000–U+001F and U+007F–U+009F).
pub open spec fn is_control(c: char) -> bool {
    (c as u32) <= 0x1f || (0x7f <= (c as u32) && (c as u32) <= 0x9f)
}

/// `s` without its control characters.
pub open spec fn strip_controls(s: Seq<char>) -> Seq<char> {
    s.filter(|c: char| !is_control(c))
}

/// Inserting an entry: the revision tag is rolled over the text's UTF-8 bytes and the entry
/// is written under the current generation.
pub open spec fn dict_insert(d: DictView, code: u16, text: Seq<char>, flags: u16) -> DictView {
    DictView {
        entries: upsert_entry(d.entries, EntryView { code, text, generation: d.generation, flags }),
        revision_tag: rolling_tag_spec(d.revision_tag ^ (code as u32), encode_utf8(text)),
        ..d
    }
}

/// Alias pairs that neither start nor end at `k`.
pub open spec fn alias_unrelated(k: u16) -> spec_fn((u16, u16)) -> bool {
    |p: (u16, u16)| p.0 != k && p.1 != k
}

/// Entries whose code is not `k`.
pub open spec fn entry_other(k: u16) -> spec_fn(EntryView) -> bool {
    |e: EntryView| e.code != k
}

/// Removing code `k`: its entry and every alias from or to it.
pub open spec fn dict_remove(d: DictView, k: u16) -> DictView {
    DictView {
        entries: d.entries.filter(entry_other(k)),
        aliases: d.aliases.filter(alias_unrelated(k)),
        ..d
    }
}

/// An entry as rewritten by compaction in generation `g`.
pub open spec fn compacted_entry(e: EntryView, g: u32) -> EntryView {
    EntryView { code: e.code, text: strip_controls(e.text), generation: g, flags: e.flags }
}

/// Entries sharing a flag bit with `keep`.
pub open spec fn shares_flag(keep: u16) -> spec_fn(EntryView) -> bool {
    |e: EntryView| e.flags & keep != 0
}

/// Rewriting entries for generation `g`.
pub open spec fn compact_with(g: u32) -> spec_fn(EntryView) -> EntryView {
    |e: EntryView| compacted_entry(e, g)
}

/// Aliases whose target has an entry in `es`.
pub open spec fn alias_live(es: Seq<EntryView>) -> spec_fn((u16, u16)) -> bool {
    |p: (u16, u16)| find_entry(es, p.1) is Some
}

/// Compaction: a new generation; only entries sharing a flag with `keep` stay, stripped of
/// control characters and stamped with the new generation; aliases to dropped codes go.
pub open spec fn dict_compact(d: DictView, keep: u16) -> DictView {
    let g = d.generation.wrapping_add(1);
    let es = d.entries.filter(shares_flag(keep)).map_values(compact_with(g));
    DictView {
        entries: es,
        aliases: d.aliases.filter(alias_live(es)),
        generation: g,
        revision_tag: d.revision_tag,
    }
}

/// Outcome of one delta operation: the dictionary, the cursor, and the error that stopped
/// the delta, if any.
#[verifier::opaque]
pub open spec fn apply_op(d: DictView, c: Cur) -> (DictView, Cur, Option<ParseError>) {
    let (r, c1) = rd_u8(c);
    match r {
        Err(e) => (d, c1, Some(e)),
        Ok(op) => if op == 1 {
            let (r2, c2) = rd_u16(c1);
            match r2 {
                Err(e) => (d, c2, Some(e)),
                Ok(code) => {
                    let (r3, c3) = rd_u16(c2);
                    match r3 {
                        Err(e) => (d, c3, Some(e)),
                        Ok(flags) => {
                            let (r4, c4) = rd_prefixed(c3, "dictionary text");
                            match r4 {
                                Err(e) => (d, c4, Some(e)),
                                Ok(bytes) => if valid_utf8(bytes) {
                                    (dict_insert(d, code, decode_utf8(bytes), flags), c4, None)
                                } else {
                                    (d, c4, Some(mk_err(ErrorKind::InvalidUtf8, c4.abs_at(0), "dict")))
                                },
                            }
                        },
                    }
                },
            }
        } else if op == 2 {
            let (r2, c2) = rd_u16(c1);
            match r2 {
                Err(e) => (d, c2, Some(e)),
                Ok(a) => {
                    let (r3, c3) = rd_u16(c2);
                    match r3 {
                        Err(e) => (d, c3, Some(e)),
                        Ok(t) => (DictView { aliases: upsert_alias(d.aliases, a, t), ..d }, c3, None),
                    }
                },
            }
        } else if op == 3 {
            let (r2, c2) = rd_u16(c1);
            match r2 {
                Err(e) => (d, c2, Some(e)),
                Ok(k) => (dict_remove(d, k), c2, None),
            }
        } else if op == 4 {
            let (r2, c2) = rd_u16(c1);
            match r2 {
                Err(e) => (d, c2, Some(e)),
                Ok(keep) => (dict_compact(d, keep), c2, None),
            }
        } else if op == 5 {
            let (r2, c2) = rd_u32(c1);
            match r2 {
                Err(e) => (d, c2, Some(e)),
                Ok(salt) => (DictView {
                    revision_tag: d.revision_tag ^ rotl32(salt, (d.generation % 31 + 1) as u32), ..d }, c2, None),
            }
        } else {
            (d, c1, Some(mk_err(ErrorKind::InvalidTag, sat_add(c1.abs_at(0) as int, -1), "dictionary op")))
        },
    }
}

/// Outcome of the first `n` operations of a delta (stopping at the first error).
pub open spec fn run_ops(d: DictView, c: Cur, n: nat) -> (DictView, Cur, Option<ParseError>)
    decreases n,
{
    if n == 0 {
        (d, c, None)
    } else {
        let (d1, c1, e) = run_ops(d, c, (n - 1) as nat);
        if e is Some { (d1, c1, e) } else { apply_op(d1, c1) }
    }
}

/// The error of a result, if any.
pub open spec fn err_of<T>(r: Result<T, ParseError>) -> Option<ParseError> {
    match r {
        Ok(_) => None,
        Err(e) => Some(e),
    }
}

pub proof fn lemma_run_ops_stop(d: DictView, c: Cur, m: nat, n: nat)
    requires m <= n, run_ops(d, c, m).2 is Some,
    ensures run_ops(d, c, n) == run_ops(d, c, m),
    decreases n - m,
{
    if m < n {
        lemma_run_ops_stop(d, c, m, (n - 1) as nat);
    }
}

/// Outcome of applying the delta `data` (absolute offset `base`) to `d`: a `u16` operation
/// count (at most 16384) and the operations.
pub open spec fn delta_spec(d: DictView, data: Seq<u8>, base: usize) -> (DictView, Result<(), ParseError>) {
    let c0 = Cur { data, pos: 0, base };
    let (r, c1) = rd_u16(c0);
    match r {
        Err(e) => (d, Err(e)),
        Ok(count) => if count > 16_384 {
            (d, Err(mk_err(ErrorKind::LimitExceeded, c1.abs_at(0), "dictionary op count")))
        } else {
            let (d1, _c, e) = run_ops(d, c1, count as nat);
            match e {
                Some(err) => (d1, Err(err)),
                None => (d1, Ok(())),
            }
        },
    }
}

/// The empty dictionary of generation `g` and revision tag `t`.
pub open spec fn empty_dict(g: u32, t: u32) -> DictView {
    DictView { entries: Seq::empty(), aliases: Seq::empty(), generation: g, revision_tag: t }
}

#[derive(Debug)]
struct DictEntry {
    code: u16,
    text: String,
    generation: u32,
    flags: u16,
}

impl DictEntry {
    spec fn view(&self) -> EntryView {
        EntryView { code: self.code, text: self.text@, generation: self.generation, flags: self.flags }
    }
}

spec fn entry_views(es: Seq<DictEntry>) -> Seq<EntryView> {
    es.map_values(|e: DictEntry| e.view())
}

/// A string table keyed by `u16` codes, with aliases between codes.
#[derive(Debug)]
pub struct StringDictionary {
    entries: Vec<DictEntry>,
    aliases: Vec<(u16, u16)>,
    generation: u32,
    revision_tag: u32,
}

/// A copy of a dictionary entry's text taken at lease time, with the code it was found
/// under, the entry's generation and a checksum of the text.
#[derive(Debug, Clone)]
pub struct NameLease {
    bytes: Vec<u8>,
    code: u16,
    generation: u32,
    checksum: u32,
}

impl NameLease {
    pub closed spec fn bytes_view(&self) -> Seq<u8> { self.bytes@ }
    pub closed spec fn code_view(&self) -> u16 { self.code }
    pub closed spec fn generation_view(&self) -> u32 { self.generation }
    pub closed spec fn checksum_view(&self) -> u32 { self.checksum }

    pub fn empty(code: u16, generation: u32) -> (l: Self)
        ensures l.bytes_view() == Seq::<u8>::empty(), l.code_view() == code, l.generation_view() == generation,
            l.checksum_view() == 0,
    {
        let l = NameLease { bytes: Vec::new(), code, generation, checksum: 0 };
        proof { assert(l.bytes_view() =~= Seq::<u8>::empty()); }
        l
    }

    pub fn code(&self) -> (c: u16)
        ensures c == self.code_view(),
    {
        self.code
    }

    pub fn generation(&self) -> (g: u32)
        ensures g == self.generation_view(),
    {
        self.generation
    }

    pub fn checksum(&self) -> (c: u32)
        ensures c == self.checksum_view(),
    {
        self.checksum
    }

    pub fn len(&self) -> (n: usize)
        ensures n == self.bytes_view().len(),
    {
        self.bytes.len()
    }

    pub fn is_empty(&self) -> (b: bool)
        ensures b == (self.bytes_view().len() == 0),
    {
        self.bytes.len() == 0
    }

    pub fn bytes(&self) -> (v: Vec<u8>)
        ensures v@ == self.bytes_view(),
    {
        crate::buf::copy_bytes(self.bytes.as_slice())
    }

    pub fn text_lossy(&self) -> (s: String)
        ensures
            s@ == utf8_lossy(self.bytes_view()),
            valid_utf8(self.bytes_view()) ==> s@ == decode_utf8(self.bytes_view()),
    {
        lossy_text(self.bytes.as_slice())
    }
}


pub proof fn lemma_upsert_sorted(es: Seq<EntryView>, e: EntryView, p: int)
    requires entries_sorted(es), entry_split(es, e.code, p),
    ensures
        entries_sorted(if p < es.len() && es[p].code == e.code { es.update(p, e) } else { es.insert(p, e) }),
{
    if p < es.len() && es[p].code == e.code {
        let ne = es.update(p, e);
        assert forall|i: int, j: int| 0 <= i < j < ne.len() implies #[trigger] ne[i].code < #[trigger] ne[j].code by {
            assert(es[i].code < es[j].code);
        }
    } else {
        let ne = es.insert(p, e);
        assert forall|i: int, j: int| 0 <= i < j < ne.len() implies #[trigger] ne[i].code < #[trigger] ne[j].code by {
            if i < p && j > p { assert(ne[j] == es[j - 1]); assert(es[i].code < es[j - 1].code || i == j - 1); }
            if i > p { assert(ne[i] == es[i - 1] && ne[j] == es[j - 1]); assert(es[i - 1].code < es[j - 1].code); }
            if j < p { assert(ne[i] == es[i] && ne[j] == es[j]); assert(es[i].code < es[j].code); }
            if i == p && j > p { assert(ne[j] == es[j - 1]); if j - 1 > p { assert(es[p].code < es[j - 1].code); } }
            if j == p && i < p { assert(ne[i] == es[i]); }
        }
    }
}

/// In sorted entries, the entry with code `k` is the one `find_entry` finds.
proof fn lemma_find_entry_at(es: Seq<EntryView>, k: u16, i: int)
    requires entries_sorted(es), 0 <= i < es.len(), es[i].code == k,
    ensures find_entry(es, k) == Some(es[i]),
    decreases es.len(),
{
    if i < es.len() - 1 {
        assert(es[i].code < es[es.len() - 1].code);
        assert(es.drop_last()[i] == es[i]);
        assert(entries_sorted(es.drop_last())) by {
            assert forall|a: int, b: int| 0 <= a < b < es.drop_last().len() implies
                #[trigger] es.drop_last()[a].code < #[trigger] es.drop_last()[b].code by {
                assert(es[a].code < es[b].code);
            }
        }
        lemma_find_entry_at(es.drop_last(), k, i);
    }
}

/// `find_entry` finds nothing where no entry has the code.
proof fn lemma_find_entry_none(es: Seq<EntryView>, k: u16)
    requires forall|i: int| 0 <= i < es.len() ==> #[trigger] es[i].code != k,
    ensures find_entry(es, k) is None,
    decreases es.len(),
{
    if es.len() > 0 {
        assert(es[es.len() - 1].code != k);
        assert forall|i: int| 0 <= i < es.drop_last().len() implies #[trigger] es.drop_last()[i].code != k by {
            assert(es.drop_last()[i] == es[i]);
        }
        lemma_find_entry_none(es.drop_last(), k);
    }
}

/// Every code has a place in sorted entries.
proof fn lemma_entry_split_exists(es: Seq<EntryView>, k: u16)
    requires entries_sorted(es),
    ensures entry_split(es, k, entry_pos(es, k)),
    decreases es.len(),
{
    if es.len() == 0 {
        assert(entry_split(es, k, 0));
    } else {
        let t = es.drop_last();
        assert(entries_sorted(t)) by {
            assert forall|a: int, b: int| 0 <= a < b < t.len() implies #[trigger] t[a].code < #[trigger] t[b].code by {
                assert(es[a].code < es[b].code);
            }
        }
        lemma_entry_split_exists(t, k);
        let q = entry_pos(t, k);
        if es.last().code < k {
            assert(q == t.len()) by {
                if q < t.len() {
                    assert(t[q].code >= k);
                    assert(es[q].code < es[es.len() - 1].code);
                }
            }
            assert(entry_split(es, k, es.len() as int));
        } else {
            assert forall|i: int| q <= i < es.len() implies #[trigger] es[i].code >= k by {
                if i < es.len() - 1 { assert(es[i] == t[i]); }
            }
            assert forall|i: int| 0 <= i < q implies #[trigger] es[i].code < k by {
                assert(es[i] == t[i]);
            }
            assert(entry_split(es, k, q));
        }
    }
}

/// Reading back after a write: after inserting `text` under `code`, the entry for `code`
/// holds `text` (with the dictionary's generation and the flags given), and every other code
/// reads as before.
#[verifier::spinoff_prover]
#[verifier::rlimit(40)]
pub proof fn lemma_insert_then_find(d: DictView, code: u16, text: Seq<char>, flags: u16, k: u16)
    requires dict_wf(d),
    ensures
        dict_wf(dict_insert(d, code, text, flags)),
        find_entry(dict_insert(d, code, text, flags).entries, k) == if k == code {
            Some(EntryView { code, text, generation: d.generation, flags })
        } else {
            find_entry(d.entries, k)
        },
{
    let es = d.entries;
    let e = EntryView { code, text, generation: d.generation, flags };
    lemma_entry_split_exists(es, code);
    let p = entry_pos(es, code);
    lemma_upsert_sorted(es, e, p);
    let n = upsert_entry(es, e);
    if k == code {
        assert(n[p] == e);
        lemma_find_entry_at(n, k, p);
    } else {
        if exists|i: int| 0 <= i < es.len() && es[i].code == k {
            let i = choose|i: int| 0 <= i < es.len() && es[i].code == k;
            lemma_find_entry_at(es, k, i);
            let j = if p < es.len() && es[p].code == code { i } else if i < p { i } else { i + 1 };
            assert(n[j] == es[i]);
            lemma_find_entry_at(n, k, j);
        } else {
            lemma_find_entry_none(es, k);
            assert forall|j: int| 0 <= j < n.len() implies #[trigger] n[j].code != k by {
                if p < es.len() && es[p].code == code {
                    if j != p { assert(n[j] == es[j]); }
                } else {
                    if j < p { assert(n[j] == es[j]); }
                    if j > p { assert(n[j] == es[j - 1]); }
                }
            }
            lemma_find_entry_none(n, k);
        }
    }
}

/// Filtering out code `k`'s entry leaves `k` without an entry and every other code with the
/// entry it had.
proof fn lemma_find_without(es: Seq<EntryView>, k: u16, j: u16)
    ensures find_entry(es.filter(entry_other(k)), j) == if j == k { None } else { find_entry(es, j) },
    decreases es.len(),
{
    reveal_with_fuel(Seq::<EntryView>::filter, 1);
    if es.len() > 0 {
        assert(es.filter(entry_other(k)) == {
            let f = es.drop_last().filter(entry_other(k));
            if entry_other(k)(es.last()) { f.push(es.last()) } else { f }
        });
        lemma_find_without(es.drop_last(), k, j);
        let f = es.drop_last().filter(entry_other(k));
        if es.last().code != k {
            assert(f.push(es.last()).drop_last() =~= f);
        }
    }
}

/// The bytes of a delta holding one operation that removes code `k`.
pub open spec fn remove_delta(k: u16) -> Seq<u8> {
    seq![1u8, 0u8, 3u8, (k % 0x100) as u8, (k / 0x100) as u8]
}

/// The remove delta's one operation is read and applied.
#[verifier::spinoff_prover]
proof fn lemma_remove_delta_applies(d: DictView, k: u16, base: usize)
    ensures delta_spec(d, remove_delta(k), base) == (dict_remove(d, k), Ok::<(), ParseError>(())),
{
    let data = remove_delta(k);
    let c0 = Cur { data, pos: 0, base };
    let c1 = c0.adv(2);
    assert(rd_u16(c0) == (Ok::<u16, ParseError>(1u16), c1));
    assert(le16(data, 3) == k) by {
        assert(data[3] == (k % 0x100) as u8 && data[4] == (k / 0x100) as u8);
    }
    assert(rd_u8(c1) == (Ok::<u8, ParseError>(3u8), c1.adv(1)));
    assert(rd_u16(c1.adv(1)) == (Ok::<u16, ParseError>(k), c1.adv(3)));
    assert(apply_op(d, c1) == (dict_remove(d, k), c1.adv(3), None::<ParseError>)) by {
        reveal(apply_op);
    }
    assert(run_ops(d, c1, 1) == apply_op(d, c1)) by { reveal_with_fuel(run_ops, 2); }
}

/// A delta that announces more than 16384 operations is refused whole, with a limit error
/// just after the count.
pub proof fn lemma_delta_count_limit(d: DictView, data: Seq<u8>, base: usize)
    requires data.len() >= 2, le16(data, 0) > 16_384,
    ensures delta_spec(d, data, base) == (d, Err::<(), ParseError>(
        mk_err(ErrorKind::LimitExceeded, sat_add(base as int, 2), "dictionary op count"))),
{
}

/// An operation byte outside 1 to 5 stops a delta with an invalid-tag error at that byte
/// (below the top of the offset range), leaving the dictionary as the operations before it
/// left it.
pub proof fn lemma_delta_bad_op(d: DictView, c: Cur)
    requires
        0 <= c.pos < c.data.len(),
        c.data[c.pos] == 0 || c.data[c.pos] > 5,
        c.base + c.pos < usize::MAX,
    ensures apply_op(d, c) == (d, c.adv(1), Some(mk_err(ErrorKind::InvalidTag, c.abs_at(0), "dictionary op"))),
{
    reveal(apply_op);
}

/// A delta that removes code `k` succeeds on any well-formed dictionary: afterwards `k` has no
/// entry, no alias starts or ends at `k`, every other code has the entry it had, and the
/// dictionary is still well formed.
pub proof fn lemma_remove_delta(d: DictView, k: u16, base: usize)
    requires dict_wf(d),
    ensures
        delta_spec(d, remove_delta(k), base) == (dict_remove(d, k), Ok::<(), ParseError>(())),
        dict_wf(dict_remove(d, k)),
        find_entry(dict_remove(d, k).entries, k) is None,
        forall|j: u16| j != k ==> find_entry(dict_remove(d, k).entries, j) == find_entry(d.entries, j),
        forall|i: int| 0 <= i < dict_remove(d, k).aliases.len()
            ==> (#[trigger] dict_remove(d, k).aliases[i]).0 != k && dict_remove(d, k).aliases[i].1 != k,
{
    lemma_remove_delta_applies(d, k, base);
    lemma_filter_entries_sorted(d.entries, entry_other(k));
    lemma_filter_aliases_sorted(d.aliases, alias_unrelated(k));
    lemma_find_without(d.entries, k, k);
    assert forall|j: u16| j != k implies find_entry(dict_remove(d, k).entries, j) == find_entry(d.entries, j) by {
        lemma_find_without(d.entries, k, j);
    }
    assert forall|i: int| 0 <= i < dict_remove(d, k).aliases.len()
        implies (#[trigger] dict_remove(d, k).aliases[i]).0 != k && dict_remove(d, k).aliases[i].1 != k by {
        d.aliases.lemma_filter_pred(alias_unrelated(k), i);
    }
}

pub proof fn lemma_filter_entries_sorted(es: Seq<EntryView>, pred: spec_fn(EntryView) -> bool)
    requires entries_sorted(es),
    ensures entries_sorted(es.filter(pred)),
    decreases es.len(),
{
    reveal(Seq::filter);
    if es.len() > 0 {
        let f = es.drop_last().filter(pred);
        lemma_filter_entries_sorted(es.drop_last(), pred);
        if pred(es.last()) {
            assert forall|i: int| 0 <= i < f.len() implies #[trigger] f[i].code < es.last().code by {
                assert(f.contains(f[i]));
                es.drop_last().lemma_filter_contains_rev(pred, f[i]);
            }
            assert(es.filter(pred) == f.push(es.last()));
        }
    }
}

pub proof fn lemma_filter_aliases_sorted(al: Seq<(u16, u16)>, pred: spec_fn((u16, u16)) -> bool)
    requires aliases_sorted(al),
    ensures aliases_sorted(al.filter(pred)),
    decreases al.len(),
{
    reveal(Seq::filter);
    if al.len() > 0 {
        let f = al.drop_last().filter(pred);
        lemma_filter_aliases_sorted(al.drop_last(), pred);
        if pred(al.last()) {
            assert forall|i: int| 0 <= i < f.len() implies #[trigger] f[i].0 < al.last().0 by {
                assert(f.contains(f[i]));
                al.drop_last().lemma_filter_contains_rev(pred, f[i]);
            }
            assert(al.filter(pred) == f.push(al.last()));
        }
    }
}

fn char_is_control(c: char) -> (b: bool)
    ensures b == is_control(c),
{
    let u = c as u32;
    u <= 0x1f || (0x7f <= u && u <= 0x9f)
}

/// `text` without its control characters.
fn strip_control_chars(text: &String) -> (s: String)
    ensures s@ == strip_controls(text@),
{
    let chars = str_chars(text.as_str());
    let mut out: Vec<char> = Vec::new();
    let mut i: usize = 0;
    while i < chars.len()
        invariant
            0 <= i <= chars@.len(),
            chars@ == text@,
            out@ == strip_controls(chars@.take(i as int)),
        decreases chars@.len() - i,
    {
        proof {
            reveal_with_fuel(Seq::<char>::filter, 1);
            assert(chars@.take(i + 1).drop_last() =~= chars@.take(i as int));
        }
        if !char_is_control(chars[i]) {
            out.push(chars[i]);
        }
        i = i + 1;
    }
    proof { assert(chars@.take(i as int) =~= chars@); }
    string_from_chars(out)
}

impl StringDictionary {
    /// The dictionary's contents.
    pub closed spec fn view(&self) -> DictView {
        DictView {
            entries: entry_views(self.entries@),
            aliases: self.aliases@,
            generation: self.generation,
            revision_tag: self.revision_tag,
        }
    }

    #[verifier::type_invariant]
    closed spec fn inv(&self) -> bool {
        dict_wf(self.view())
    }

    pub fn new() -> (d: Self)
        ensures d.view() == empty_dict(0, 0),
    {
        let d = StringDictionary { entries: Vec::new(), aliases: Vec::new(), generation: 0, revision_tag: 0 };
        proof { assert(d.view().entries =~= Seq::<EntryView>::empty()); }
        d
    }

    pub fn generation(&self) -> (g: u32)
        ensures g == self.view().generation,
    {
        self.generation
    }

    pub fn len(&self) -> (n: usize)
        ensures n == self.view().entries.len(),
    {
        self.entries.len()
    }

    pub fn is_empty(&self) -> (b: bool)
        ensures b == (self.view().entries.len() == 0),
    {
        self.entries.len() == 0
    }

    pub fn revision_tag(&self) -> (t: u32)
        ensures t == self.view().revision_tag,
    {
        self.revision_tag
    }

    pub fn insert(&mut self, code: u16, text: String, flags: u16)
        ensures
            final(self).view() == dict_insert(old(self).view(), code, text@, flags),
            dict_wf(final(self).view()),
    {
        proof { use_type_invariant(&*self); }
        let tag = rolling_tag(self.revision_tag ^ (code as u32), text.as_str().as_bytes());
        let ghost es = self.view().entries;
        let mut p: usize = 0;
        while p < self.entries.len() && self.entries[p].code < code
            invariant
                0 <= p <= self.entries@.len(),
                es == entry_views(self.entries@),
                entries_sorted(es),
                forall|i: int| 0 <= i < p ==> #[trigger] es[i].code < code,
            decreases self.entries@.len() - p,
        {
            p = p + 1;
        }
        proof {
            assert forall|i: int| p <= i < es.len() implies #[trigger] es[i].code >= code by {
                if i > p { assert(es[p as int].code < es[i].code); }
            }
        }
        let entry = DictEntry { code, text, generation: self.generation, flags };
        let ghost ev = entry.view();
        proof {
            assert(entry_split(es, code, p as int));
            assert(entry_split(es, code, entry_pos(es, code)));
            let q = entry_pos(es, code);
            if q < p { assert(es[q].code >= code); }
            if q > p { assert(es[p as int].code < code); }
            assert(q == p);
        }
        let replace = p < self.entries.len() && self.entries[p].code == code;
        let ghost d0 = self.view();
        let mut entries: Vec<DictEntry> = Vec::new();
        core::mem::swap(&mut entries, &mut self.entries);
        if replace {
            entries.set(p, entry);
            proof { assert(entry_views(entries@) =~= es.update(p as int, ev)); }
        } else {
            entries.insert(p, entry);
            proof { assert(entry_views(entries@) =~= es.insert(p as int, ev)); }
        }
        proof { lemma_upsert_sorted(es, ev, p as int); }
        self.entries = entries;
        self.revision_tag = tag;
        proof {
            assert(self.view() =~= dict_insert(d0, code, text@, flags));
        }
    }

    pub fn alias(&mut self, alias: u16, target: u16)
        ensures
            final(self).view() == (DictView { aliases: upsert_alias(old(self).view().aliases, alias, target), ..old(self).view() }),
            dict_wf(final(self).view()),
    {
        proof { use_type_invariant(&*self); }
        let ghost al = self.aliases@;
        let mut p: usize = 0;
        while p < self.aliases.len() && self.aliases[p].0 < alias
            invariant
                0 <= p <= self.aliases@.len(),
                al == self.aliases@,
                aliases_sorted(al),
                forall|i: int| 0 <= i < p ==> #[trigger] al[i].0 < alias,
            decreases self.aliases@.len() - p,
        {
            p = p + 1;
        }
        proof {
            assert forall|i: int| p <= i < al.len() implies #[trigger] al[i].0 >= alias by {
                if i > p { assert(al[p as int].0 < al[i].0); }
            }
            assert(alias_split(al, alias, p as int));
            let q = alias_pos(al, alias);
            if q < p { assert(al[q].0 >= alias); }
            if q > p { assert(al[p as int].0 < alias); }
            assert(q == p);
        }
        let replace = p < self.aliases.len() && self.aliases[p].0 == alias;
        let ghost d0 = self.view();
        let mut aliases: Vec<(u16, u16)> = Vec::new();
        core::mem::swap(&mut aliases, &mut self.aliases);
        if replace {
            aliases.set(p, (alias, target));
        } else {
            aliases.insert(p, (alias, target));
        }
        proof {
            let na = aliases@;
            assert forall|i: int, j: int| 0 <= i < j < na.len() implies #[trigger] na[i].0 < #[trigger] na[j].0 by {
                if !replace {
                    if i < p && j > p { assert(na[j].0 == al[j - 1].0); }
                    if i > p { assert(na[i].0 == al[i - 1].0 && na[j].0 == al[j - 1].0); }
                    if j < p { assert(na[i].0 == al[i].0); }
                    if i == p && j > p { assert(na[j].0 == al[j - 1].0); }
                    if j == p && i < p { assert(na[i].0 == al[i].0); }
                }
            }
        }
        self.aliases = aliases;
        proof { assert(self.view() =~= (DictView { aliases: upsert_alias(d0.aliases, alias, target), ..d0 })); }
    }

    /// The target of alias `a`, searched from the back.
    fn alias_target(&self, a: u16) -> (r: Option<u16>)
        ensures r == find_alias(self.view().aliases, a),
    {
        let mut i = self.aliases.len();
        proof { assert(self.aliases@.take(i as int) =~= self.aliases@); }
        while i > 0
            invariant
                0 <= i <= self.aliases@.len(),
                find_alias(self.aliases@, a) == find_alias(self.aliases@.take(i as int), a),
            decreases i,
        {
            proof { assert(self.aliases@.take(i as int).drop_last() =~= self.aliases@.take(i - 1)); }
            if self.aliases[i - 1].0 == a {
                return Some(self.aliases[i - 1].1);
            }
            i = i - 1;
        }
        proof { assert(self.aliases@.take(0) =~= Seq::<(u16, u16)>::empty()); }
        None
    }

    /// Index of the entry with code `k`, searched from the back.
    fn entry_index(&self, k: u16) -> (r: Option<usize>)
        ensures
            r is None ==> find_entry(self.view().entries, k) is None,
            r matches Some(i) ==> i < self.entries@.len()
                && find_entry(self.view().entries, k) == Some(self.view().entries[i as int]),
    {
        let ghost es = self.view().entries;
        let mut i = self.entries.len();
        proof { assert(es.take(i as int) =~= es); }
        while i > 0
            invariant
                0 <= i <= self.entries@.len(),
                es == entry_views(self.entries@),
                find_entry(es, k) == find_entry(es.take(i as int), k),
            decreases i,
        {
            proof { assert(es.take(i as int).drop_last() =~= es.take(i - 1)); }
            if self.entries[i - 1].code == k {
                return Some(i - 1);
            }
            i = i - 1;
        }
        proof { assert(es.take(0) =~= Seq::<EntryView>::empty()); }
        None
    }

    pub fn resolve_code(&self, code: u16) -> (r: u16)
        ensures r == resolve_code_spec(self.view(), code),
    {
        let ghost al = self.view().aliases;
        let mut current = code;
        let mut n: usize = 0;
        while n < 8
            invariant
                0 <= n <= 8,
                al == self.view().aliases,
                resolve(al, code, 8) == resolve(al, current, (8 - n) as nat),
            decreases 8 - n,
        {
            match self.alias_target(current) {
                Some(next) => {
                    if next != current {
                        current = next;
                    } else {
                        return current;
                    }
                },
                None => {
                    return current;
                },
            }
            n = n + 1;
        }
        current
    }

    pub fn get(&self, code: u16) -> (r: Option<&str>)
        ensures
            ({
                let e = find_entry(self.view().entries, resolve_code_spec(self.view(), code));
                &&& e is None ==> r is None
                &&& e matches Some(ent) ==> (r matches Some(t) && t@ == ent.text)
            }),
    {
        let resolved = self.resolve_code(code);
        match self.entry_index(resolved) {
            Some(i) => Some(self.entries[i].text.as_str()),
            None => None,
        }
    }

    pub fn flags(&self, code: u16) -> (f: u16)
        ensures
            f == (match find_entry(self.view().entries, resolve_code_spec(self.view(), code)) {
                Some(e) => e.flags,
                None => 0,
            }),
    {
        let resolved = self.resolve_code(code);
        match self.entry_index(resolved) {
            Some(i) => self.entries[i].flags,
            None => 0,
        }
    }

    pub fn lease(&self, code: u16) -> (r: Option<NameLease>)
        ensures
            ({
                let k = resolve_code_spec(self.view(), code);
                let e = find_entry(self.view().entries, k);
                &&& e is None ==> r is None
                &&& e matches Some(ent) ==> (r matches Some(l) && l.bytes_view() == encode_utf8(ent.text)
                    && l.code_view() == k && l.generation_view() == ent.generation
                    && l.checksum_view() == rolling_tag_spec(k as u32, encode_utf8(ent.text)))
            }),
    {
        let resolved = self.resolve_code(code);
        match self.entry_index(resolved) {
            Some(i) => {
                let bytes = self.entries[i].text.as_str().as_bytes();
                let checksum = rolling_tag(resolved as u32, bytes);
                Some(NameLease {
                    bytes: crate::buf::copy_bytes(bytes),
                    code: resolved,
                    generation: self.entries[i].generation,
                    checksum,
                })
            },
            None => None,
        }
    }

    /// Removes code `k`: its entry and every alias from or to it.
    fn remove_code(&mut self, k: u16)
        ensures final(self).view() == dict_remove(old(self).view(), k),
    {
        proof { use_type_invariant(&*self); }
        let ghost d0 = self.view();
        let mut rest: Vec<DictEntry> = Vec::new();
        core::mem::swap(&mut rest, &mut self.entries);
        let ghost orig = rest@;
        proof { assert(entry_views(orig) == d0.entries); }
        let mut kept: Vec<DictEntry> = Vec::new();
        let ghost mut i: int = 0;
        while rest.len() > 0
            invariant
                0 <= i,
                orig.len() == i + rest@.len(),
                forall|j: int| 0 <= j < rest@.len() ==> #[trigger] rest@[j] == orig[j + i],
                entry_views(kept@) == entry_views(orig.take(i as int)).filter(entry_other(k)),
            decreases rest@.len(),
        {
            let e = rest.remove(0);
            proof {
                reveal_with_fuel(Seq::<EntryView>::filter, 1);
                assert(entry_views(orig.take(i + 1)).drop_last() =~= entry_views(orig.take(i as int)));
                assert(e == orig[i as int]);
            }
            let keep = e.code != k;
            let ghost before = kept@;
            if keep {
                kept.push(e);
                proof { assert(entry_views(kept@) =~= entry_views(before).push(orig[i as int].view())); }
            }
            proof { i = i + 1; }
        }
        proof {
            assert(orig.take(i as int) =~= orig);
            lemma_filter_entries_sorted(d0.entries, entry_other(k));
        }
        self.entries = kept;
        let mut al_rest: Vec<(u16, u16)> = Vec::new();
        core::mem::swap(&mut al_rest, &mut self.aliases);
        let ghost aorig = al_rest@;
        proof { assert(aorig == d0.aliases); }
        let mut akept: Vec<(u16, u16)> = Vec::new();
        let mut i: usize = 0;
        while i < al_rest.len()
            invariant
                0 <= i <= al_rest@.len(),
                aorig == al_rest@,
                akept@ == aorig.take(i as int).filter(alias_unrelated(k)),
            decreases al_rest@.len() - i,
        {
            proof {
                reveal_with_fuel(Seq::<(u16, u16)>::filter, 1);
                assert(aorig.take(i + 1).drop_last() =~= aorig.take(i as int));
            }
            proof { assert(alias_unrelated(k)(al_rest@[i as int]) == (al_rest@[i as int].0 != k && al_rest@[i as int].1 != k)); }
            if al_rest[i].0 != k && al_rest[i].1 != k {
                akept.push(al_rest[i]);
            }
            i = i + 1;
        }
        proof {
            assert(aorig.take(i as int) =~= aorig);
            lemma_filter_aliases_sorted(d0.aliases, alias_unrelated(k));
        }
        self.aliases = akept;
        proof {
            assert(self.view().entries == dict_remove(d0, k).entries);
            assert(akept@ == aorig.filter(alias_unrelated(k)));
            assert(self.aliases@ == akept@);
            assert(self.view().aliases == self.aliases@);
            assert(self.view().aliases == dict_remove(d0, k).aliases);
            assert(self.view() =~= dict_remove(d0, k));
        }
    }

    pub fn compact(&mut self, keep_flags: u16)
        ensures final(self).view() == dict_compact(old(self).view(), keep_flags),
    {
        proof { use_type_invariant(&*self); }
        let ghost d0 = self.view();
        let g = self.generation.wrapping_add(1);
        let mut rest: Vec<DictEntry> = Vec::new();
        core::mem::swap(&mut rest, &mut self.entries);
        let ghost orig = rest@;
        proof { assert(entry_views(orig) == d0.entries); }
        let mut kept: Vec<DictEntry> = Vec::new();
        let ghost mut i: int = 0;
        while rest.len() > 0
            invariant
                0 <= i,
                orig.len() == i + rest@.len(),
                forall|j: int| 0 <= j < rest@.len() ==> #[trigger] rest@[j] == orig[j + i],
                entry_views(kept@) == entry_views(orig.take(i)).filter(shares_flag(keep_flags)).map_values(compact_with(g)),
            decreases rest@.len(),
        {
            let e = rest.remove(0);
            proof {
                reveal_with_fuel(Seq::<EntryView>::filter, 1);
                assert(entry_views(orig.take(i + 1)).drop_last() =~= entry_views(orig.take(i)));
                assert(e == orig[i]);
                assert(shares_flag(keep_flags)(e.view()) == (e.flags & keep_flags != 0));
            }
            let ghost before = kept@;
            if e.flags & keep_flags != 0 {
                let text = strip_control_chars(&e.text);
                kept.push(DictEntry { code: e.code, text, generation: g, flags: e.flags });
                proof {
                    let f = entry_views(orig.take(i)).filter(shares_flag(keep_flags));
                    assert(entry_views(orig.take(i + 1)).filter(shares_flag(keep_flags)) == f.push(e.view()));
                    assert(f.push(e.view()).map_values(compact_with(g)) =~= f.map_values(compact_with(g)).push(compacted_entry(e.view(), g)));
                    assert(entry_views(kept@) =~= entry_views(before).push(compacted_entry(e.view(), g)));
                }
            }
            proof { i = i + 1; }
        }
        let ghost es = entry_views(kept@);
        proof {
            assert(orig.take(i) =~= orig);
            lemma_filter_entries_sorted(d0.entries, shares_flag(keep_flags));
            let f = d0.entries.filter(shares_flag(keep_flags));
            assert forall|a: int, b: int| 0 <= a < b < es.len() implies #[trigger] es[a].code < #[trigger] es[b].code by {
                assert(es[a].code == f[a].code && es[b].code == f[b].code);
            }
        }
        self.entries = kept;
        self.generation = g;
        let mut al_rest: Vec<(u16, u16)> = Vec::new();
        core::mem::swap(&mut al_rest, &mut self.aliases);
        let ghost aorig = al_rest@;
        proof { assert(aorig == d0.aliases); }
        let mut akept: Vec<(u16, u16)> = Vec::new();
        let mut i: usize = 0;
        while i < al_rest.len()
            invariant
                0 <= i <= al_rest@.len(),
                aorig == al_rest@,
                es == self.view().entries,
                akept@ == aorig.take(i as int).filter(alias_live(es)),
            decreases al_rest@.len() - i,
        {
            proof {
                reveal_with_fuel(Seq::<(u16, u16)>::filter, 1);
                assert(aorig.take(i + 1).drop_last() =~= aorig.take(i as int));
            }
            let live = self.entry_index(al_rest[i].1).is_some();
            if live {
                akept.push(al_rest[i]);
            }
            i = i + 1;
        }
        proof {
            assert(aorig.take(i as int) =~= aorig);
            lemma_filter_aliases_sorted(d0.aliases, alias_live(es));
        }
        self.aliases = akept;
        proof {
            assert(self.view().entries == dict_compact(d0, keep_flags).entries);
            assert(self.view().aliases == dict_compact(d0, keep_flags).aliases);
            assert(self.view() =~= dict_compact(d0, keep_flags));
        }
    }

    /// Applies one delta operation read from `cursor`.
    fn apply_one(&mut self, cursor: &mut ByteCursor) -> (r: ParseResult<()>)
        ensures
            (final(self).view(), final(cursor).view(), err_of(r)) == apply_op(old(self).view(), old(cursor).view()),
    {
        proof {
            use_type_invariant(&*self);
            reveal(apply_op);
        }
        let op = cursor.read_u8()?;
        if op == 0x01 {
            let code = cursor.read_u16()?;
            let flags = cursor.read_u16()?;
            let bytes = cursor.read_length_prefixed("dictionary text")?;
            let text = match utf8_str(bytes) {
                Some(t) => t.to_owned(),
                None => { return Err(ParseError::invalid_utf8(cursor.absolute_position(), "dict")); },
            };
            self.insert(code, text, flags);
            Ok(())
        } else if op == 0x02 {
            let alias = cursor.read_u16()?;
            let target = cursor.read_u16()?;
            self.alias(alias, target);
            Ok(())
        } else if op == 0x03 {
            let code = cursor.read_u16()?;
            self.remove_code(code);
            Ok(())
        } else if op == 0x04 {
            let threshold = cursor.read_u16()?;
            self.compact(threshold);
            Ok(())
        } else if op == 0x05 {
            let salt = cursor.read_u32()?;
            let tag = self.revision_tag ^ rotate_left32(salt, (self.generation % 31) + 1);
            let ghost d0 = self.view();
            self.revision_tag = tag;
            proof { assert(self.view() =~= (DictView { revision_tag: d0.revision_tag ^ rotl32(salt, (d0.generation % 31 + 1) as u32), ..d0 })); }
            Ok(())
        } else {
            Err(ParseError::invalid_tag(cursor.absolute_position().saturating_sub(1), "dictionary op"))
        }
    }

    pub fn apply_delta(&mut self, data: &[u8], base: usize) -> (r: ParseResult<()>)
        ensures
            (final(self).view(), r) == delta_spec(old(self).view(), data@, base),
    {
        let mut cursor = ByteCursor::with_base(data, base);
        let op_count = cursor.read_u16()? as usize;
        if op_count > 16_384 {
            return Err(ParseError::limit(cursor.absolute_position(), "dictionary op count"));
        }
        let ghost d0 = self.view();
        let ghost c1 = cursor.view();
        let mut n: usize = 0;
        while n < op_count
            invariant
                0 <= n <= op_count,
                op_count <= 16_384,
                d0 == old(self).view(),
                rd_u16(Cur { data: data@, pos: 0, base }) == (Ok::<u16, ParseError>(op_count as u16), c1),
                run_ops(d0, c1, n as nat) == (self.view(), cursor.view(), None::<ParseError>),
            decreases op_count - n,
        {
            let ghost before = (self.view(), cursor.view());
            let r = self.apply_one(&mut cursor);
            proof {
                assert(run_ops(d0, c1, (n + 1) as nat) == apply_op(before.0, before.1));
            }
            if r.is_err() {
                proof {
                    assert(run_ops(d0, c1, (n + 1) as nat).2 is Some);
                    lemma_run_ops_stop(d0, c1, (n + 1) as nat, op_count as nat);
                    assert(run_ops(d0, c1, op_count as nat) == (self.view(), cursor.view(), err_of(r)));
                    assert(r == Err::<(), ParseError>(run_ops(d0, c1, op_count as nat).2.unwrap()));
                }
                return r;
            }
            n = n + 1;
        }
        Ok(())
    }

    pub fn replace_from(&mut self, data: &[u8], base: usize) -> (r: ParseResult<()>)
        ensures
            (final(self).view(), r) == delta_spec(
                empty_dict(old(self).view().generation.wrapping_add(1), old(self).view().revision_tag), data@, base),
    {
        proof { use_type_invariant(&*self); }
        self.entries = Vec::new();
        self.aliases = Vec::new();
        self.generation = self.generation.wrapping_add(1);
        proof { assert(self.view().entries =~= Seq::<EntryView>::empty()); }
        self.apply_delta(data, base)
    }

    pub fn parse_full(data: &[u8], base: usize) -> (r: ParseResult<Self>)
        ensures
            ({
                let (d, res) = delta_spec(empty_dict(0, 0), data@, base);
                &&& res is Err ==> r is Err && r->Err_0 == res->Err_0
                &&& res is Ok ==> (r matches Ok(dict) && dict.view() == d)
            }),
    {
        let mut dictionary = StringDictionary::new();
        dictionary.apply_delta(data, base)?;
        Ok(dictionary)
    }

    pub fn snapshot_codes(&self) -> (codes: Vec<u16>)
        ensures codes@ == self.view().entries.map_values(|e: EntryView| e.code),
    {
        let mut out: Vec<u16> = Vec::new();
        let mut i: usize = 0;
        while i < self.entries.len()
            invariant
                0 <= i <= self.entries@.len(),
                out@ =~= self.view().entries.take(i as int).map_values(|e: EntryView| e.code),
            decreases self.entries@.len() - i,
        {
            out.push(self.entries[i].code);
            i = i + 1;
            proof { assert(out@ =~= self.view().entries.take(i as int).map_values(|e: EntryView| e.code)); }
        }
        out
    }

    pub fn normalized_texts(&self) -> (r: Vec<(u16, String)>)
        ensures
            r@.len() == self.view().entries.len(),
            forall|i: int| 0 <= i < r@.len() ==> #[trigger] r@[i].0 == self.view().entries[i].code
                && r@[i].1@ == normalize_spec(self.view().entries[i].text),
    {
        let mut out: Vec<(u16, String)> = Vec::new();
        let mut i: usize = 0;
        while i < self.entries.len()
            invariant
                0 <= i <= self.entries@.len(),
                out@.len() == i,
                forall|j: int| 0 <= j < i ==> #[trigger] out@[j].0 == self.view().entries[j].code
                    && out@[j].1@ == normalize_spec(self.view().entries[j].text),
            decreases self.entries@.len() - i,
        {
            let t = normalize_name(self.entries[i].text.as_str());
            out.push((self.entries[i].code, t));
            i = i + 1;
        }
        out
    }
}


/// Reads a whole dictionary from `data` (absolute offset `base`) into an empty dictionary.
pub fn parse_dictionary(data: &[u8], base: usize) -> (r: ParseResult<StringDictionary>)
    ensures
        ({
            let (d, res) = delta_spec(empty_dict(0, 0), data@, base);
            &&& res is Err ==> r is Err && r->Err_0 == res->Err_0
            &&& res is Ok ==> (r matches Ok(dict) && dict.view() == d)
        }),
{
    StringDictionary::parse_full(data, base)
}

/// `c` is white space in Unicode's sense (the White_Space property).
pub open spec fn is_white(c: char) -> bool {
    let u = c as u32;
    ||| 0x09 <= u <= 0x0d
    ||| u == 0x20 || u == 0x85 || u == 0xa0 || u == 0x1680
    ||| 0x2000 <= u <= 0x200a
    ||| u == 0x2028 || u == 0x2029 || u == 0x202f || u == 0x205f || u == 0x3000
}

/// `c` is an ASCII letter or digit.
pub open spec fn is_ascii_alnum(c: char) -> bool {
    let u = c as u32;
    (0x30 <= u <= 0x39) || (0x41 <= u <= 0x5a) || (0x61 <= u <= 0x7a)
}

/// `c` with an ASCII lowercase letter made uppercase.
pub open spec fn upper_ascii(c: char) -> char {
    let u = c as u32;
    if 0x61 <= u <= 0x7a { (u - 32) as char } else { c }
}

/// Normalizing `s` from the left: the text so far, and whether the last character that
/// counted was a separator (white space, `-` or `_`).
pub open spec fn norm_state(s: Seq<char>) -> (Seq<char>, bool)
    decreases s.len(),
{
    if s.len() == 0 {
        (Seq::empty(), false)
    } else {
        let (out, last) = norm_state(s.drop_last());
        let c = s.last();
        if is_ascii_alnum(c) {
            (out.push(upper_ascii(c)), false)
        } else if is_white(c) || c == '-' || c == '_' {
            (if !last && out.len() > 0 { out.push(' ') } else { out }, true)
        } else {
            (out, last)
        }
    }
}

/// A name normalized: ASCII letters and digits kept and uppercased, each run of separators
/// made one space (none at the start or the end), every other character dropped.
pub open spec fn normalize_spec(s: Seq<char>) -> Seq<char> {
    let out = norm_state(s).0;
    if out.len() > 0 && out.last() == ' ' { out.drop_last() } else { out }
}

/// An uppercase ASCII letter, an ASCII digit or a space.
pub open spec fn name_char(c: char) -> bool {
    let u = c as u32;
    (0x30 <= u <= 0x39) || (0x41 <= u <= 0x5a) || c == ' '
}

/// Text made of uppercase letters, digits and spaces, not starting with a space and with no
/// two spaces in a row.
pub open spec fn spaced(t: Seq<char>) -> bool {
    &&& forall|i: int| 0 <= i < t.len() ==> name_char(#[trigger] t[i])
    &&& t.len() > 0 ==> t[0] != ' '
    &&& forall|i: int, j: int| 0 <= i && j == i + 1 && j < t.len() ==> !(#[trigger] t[i] == ' ' && #[trigger] t[j] == ' ')
}

/// A normalized name: spaced, and not ending with a space.
pub open spec fn normal_name(t: Seq<char>) -> bool {
    spaced(t) && (t.len() > 0 ==> t.last() != ' ')
}

/// Normalizing from the left keeps the text spaced, and the separator flag says whether the
/// text ends with a space.
proof fn lemma_norm_state_spaced(s: Seq<char>)
    ensures
        spaced(norm_state(s).0),
        norm_state(s).0.len() > 0 ==> (norm_state(s).1 <==> norm_state(s).0.last() == ' '),
    decreases s.len(),
{
    if s.len() > 0 {
        lemma_norm_state_spaced(s.drop_last());
        let (out, last) = norm_state(s.drop_last());
        let c = s.last();
        if is_ascii_alnum(c) {
            let u = c as u32;
            let d = upper_ascii(c);
            if 0x61 <= u <= 0x7a {
                assert(d as u32 == u - 32);
            }
            assert(name_char(d) && d != ' ');
            let n = out.push(d);
            assert forall|i: int| 0 <= i < n.len() implies name_char(#[trigger] n[i]) by {
                if i < out.len() { assert(n[i] == out[i]); }
            }
            assert forall|i: int, j: int| 0 <= i && j == i + 1 && j < n.len() implies !(#[trigger] n[i] == ' ' && #[trigger] n[j] == ' ') by {
                if j < out.len() { assert(n[i] == out[i] && n[j] == out[j]); }
            }
        } else if is_white(c) || c == '-' || c == '_' {
            if !last && out.len() > 0 {
                let n = out.push(' ');
                assert(out.last() != ' ');
                assert forall|i: int| 0 <= i < n.len() implies name_char(#[trigger] n[i]) by {
                    if i < out.len() { assert(n[i] == out[i]); }
                }
                assert forall|i: int, j: int| 0 <= i && j == i + 1 && j < n.len() implies !(#[trigger] n[i] == ' ' && #[trigger] n[j] == ' ') by {
                    if j < out.len() { assert(n[i] == out[i] && n[j] == out[j]); } else { assert(n[i] == out[out.len() - 1]); }
                }
            }
        }
    }
}

/// A spaced text reads back unchanged when normalized from the left, and the separator flag
/// says whether it ends with a space.
proof fn lemma_spaced_fixed(t: Seq<char>)
    requires spaced(t),
    ensures norm_state(t) == (t, t.len() > 0 && t.last() == ' '),
    decreases t.len(),
{
    if t.len() > 0 {
        let p = t.drop_last();
        assert forall|i: int| 0 <= i < p.len() implies name_char(#[trigger] p[i]) by { assert(p[i] == t[i]); }
        assert forall|i: int, j: int| 0 <= i && j == i + 1 && j < p.len() implies !(#[trigger] p[i] == ' ' && #[trigger] p[j] == ' ') by {
            assert(p[i] == t[i] && p[j] == t[j]);
        }
        if p.len() > 0 { assert(p[0] == t[0]); }
        lemma_spaced_fixed(p);
        let c = t.last();
        assert(name_char(t[t.len() - 1]));
        if c == ' ' {
            assert(t.len() >= 2);
            assert(t[t.len() - 2] != ' ');
            assert(p.last() == t[t.len() - 2]);
            assert(is_white(c));
            assert(p.push(' ') =~= t);
        } else {
            assert(is_ascii_alnum(c));
            assert(upper_ascii(c) == c);
            assert(p.push(c) =~= t);
        }
    } else {
        assert(t =~= Seq::<char>::empty());
    }
}

/// A normalized name uses only uppercase ASCII letters, digits and single inner spaces, and
/// normalizing it again changes nothing.
pub proof fn lemma_normalize_idempotent(s: Seq<char>)
    ensures
        normal_name(normalize_spec(s)),
        normalize_spec(normalize_spec(s)) == normalize_spec(s),
{
    lemma_norm_state_spaced(s);
    let out = norm_state(s).0;
    let r = normalize_spec(s);
    if out.len() > 0 && out.last() == ' ' {
        assert(r == out.drop_last());
        assert forall|i: int| 0 <= i < r.len() implies name_char(#[trigger] r[i]) by { assert(r[i] == out[i]); }
        assert forall|i: int, j: int| 0 <= i && j == i + 1 && j < r.len() implies !(#[trigger] r[i] == ' ' && #[trigger] r[j] == ' ') by {
            assert(r[i] == out[i] && r[j] == out[j]);
        }
        if r.len() > 0 {
            assert(r[0] == out[0]);
            assert(r.last() == out[out.len() - 2]);
            assert(out[out.len() - 1] == ' ');
        } else {
            assert(out.len() == 1);
            assert(out[0] != ' ');
        }
    }
    assert(normal_name(r));
    lemma_spaced_fixed(r);
}

/// The pieces of `s` between single spaces, as splitting on `' '` yields them.
pub open spec fn split_spaces(s: Seq<char>) -> Seq<Seq<char>>
    decreases s.len(),
{
    if s.len() == 0 {
        seq![Seq::empty()]
    } else {
        let t = split_spaces(s.drop_last());
        if s.last() == ' ' { t.push(Seq::empty()) } else { t.update(t.len() - 1, t.last().push(s.last())) }
    }
}

/// `needle` occurs in `hay` as a contiguous run.
pub open spec fn occurs_in(hay: Seq<char>, needle: Seq<char>) -> bool {
    exists|i: int| 0 <= i && i + needle.len() <= hay.len() && #[trigger] hay.subrange(i, i + needle.len()) == needle
}

/// How many of the nonempty pieces `ts` occur in `hay`.
pub open spec fn count_found(ts: Seq<Seq<char>>, hay: Seq<char>) -> nat
    decreases ts.len(),
{
    if ts.len() == 0 {
        0
    } else {
        count_found(ts.drop_last(), hay) + if ts.last().len() > 0 && occurs_in(hay, ts.last()) { 1nat } else { 0nat }
    }
}

/// Similarity of two names on a scale to 1000: 1000 when they normalize alike, else 80 for
/// each word of the first that occurs in the second, at most 1000.
pub open spec fn similarity_spec(a: Seq<char>, b: Seq<char>) -> u16 {
    let l = normalize_spec(a);
    let r = normalize_spec(b);
    if l == r {
        1000
    } else {
        let n = 80 * count_found(split_spaces(l), r);
        if n >= 1000 { 1000 } else { n as u16 }
    }
}

proof fn lemma_split_nonempty(s: Seq<char>)
    ensures split_spaces(s).len() >= 1,
    decreases s.len(),
{
    if s.len() > 0 {
        lemma_split_nonempty(s.drop_last());
    }
}

fn char_is_white(c: char) -> (b: bool)
    ensures b == is_white(c),
{
    let u = c as u32;
    (0x09 <= u && u <= 0x0d) || u == 0x20 || u == 0x85 || u == 0xa0 || u == 0x1680
        || (0x2000 <= u && u <= 0x200a) || u == 0x2028 || u == 0x2029 || u == 0x202f
        || u == 0x205f || u == 0x3000
}

fn char_is_ascii_alnum(c: char) -> (b: bool)
    ensures b == is_ascii_alnum(c),
{
    let u = c as u32;
    (0x30 <= u && u <= 0x39) || (0x41 <= u && u <= 0x5a) || (0x61 <= u && u <= 0x7a)
}

fn char_upper_ascii(c: char) -> (r: char)
    ensures r == upper_ascii(c),
{
    let u = c as u32;
    if 0x61 <= u && u <= 0x7a {
        ((u - 32) as u8) as char
    } else {
        c
    }
}

/// The characters of `text` normalized.
fn normalize_chars(text: &str) -> (v: Vec<char>)
    ensures v@ == normalize_spec(text@),
{
    let chars = str_chars(text);
    let mut out: Vec<char> = Vec::new();
    let mut last_space = false;
    let mut i: usize = 0;
    while i < chars.len()
        invariant
            0 <= i <= chars@.len(),
            chars@ == text@,
            (out@, last_space) == norm_state(chars@.take(i as int)),
        decreases chars@.len() - i,
    {
        proof { assert(chars@.take(i + 1).drop_last() =~= chars@.take(i as int)); }
        let ch = chars[i];
        if char_is_ascii_alnum(ch) {
            out.push(char_upper_ascii(ch));
            last_space = false;
        } else if char_is_white(ch) || ch == '-' || ch == '_' {
            if !last_space && out.len() > 0 {
                out.push(' ');
            }
            last_space = true;
        }
        i = i + 1;
    }
    proof { assert(chars@.take(i as int) =~= chars@); }
    if out.len() > 0 && out[out.len() - 1] == ' ' {
        out.pop();
    }
    out
}

/// `text` normalized for comparison.
pub fn normalize_name(text: &str) -> (s: String)
    ensures s@ == normalize_spec(text@),
{
    let v = normalize_chars(text);
    string_from_chars(v)
}

fn chars_equal(a: &Vec<char>, b: &Vec<char>) -> (r: bool)
    ensures r == (a@ == b@),
{
    if a.len() != b.len() {
        return false;
    }
    let mut i: usize = 0;
    while i < a.len()
        invariant
            0 <= i <= a@.len(),
            a@.len() == b@.len(),
            forall|j: int| 0 <= j < i ==> a@[j] == b@[j],
        decreases a@.len() - i,
    {
        if a[i] != b[i] {
            return false;
        }
        i = i + 1;
    }
    proof { assert(a@ =~= b@); }
    true
}

/// Whether `needle` occurs in `hay`.
pub(crate) fn chars_occur(hay: &Vec<char>, needle: &Vec<char>) -> (r: bool)
    ensures r == occurs_in(hay@, needle@),
{
    let n = needle.len();
    if n > hay.len() {
        return false;
    }
    if n == 0 {
        proof { assert(hay@.subrange(0, 0 + needle@.len() as int) =~= needle@); }
        return true;
    }
    let last = hay.len() - n;
    let mut i: usize = 0;
    while i <= last
        invariant
            n == needle@.len(),
            n > 0,
            last + n == hay.len(),
            0 <= i <= last + 1,
            forall|k: int| 0 <= k < i ==> #[trigger] hay@.subrange(k, k + n) != needle@,
        decreases last + 1 - i,
    {
        let mut j: usize = 0;
        let mut same = true;
        while j < n
            invariant
                n == needle@.len(),
                i <= last,
                last + n == hay.len(),
                0 <= j <= n,
                same ==> forall|m: int| 0 <= m < j ==> hay@[i + m] == needle@[m],
                !same ==> hay@.subrange(i as int, i + n) != needle@,
            decreases n - j,
        {
            if same && hay[i + j] != needle[j] {
                same = false;
                proof { assert(hay@.subrange(i as int, i + n)[j as int] == hay@[i + j]); }
            }
            j = j + 1;
        }
        if same {
            proof { assert(hay@.subrange(i as int, i + n) =~= needle@); }
            return true;
        }
        i = i + 1;
    }
    false
}

/// Similarity of two names on a scale to 1000.
pub fn name_similarity(left: &str, right: &str) -> (s: u16)
    ensures s == similarity_spec(left@, right@),
{
    let l = normalize_chars(left);
    let r = normalize_chars(right);
    if chars_equal(&l, &r) {
        return 1000;
    }
    let mut score: u16 = 0;
    let ghost mut count: nat = 0;
    let mut cur: Vec<char> = Vec::new();
    let mut i: usize = 0;
    while i < l.len()
        invariant
            0 <= i <= l@.len(),
            split_spaces(l@.take(i as int)).len() >= 1,
            cur@ == split_spaces(l@.take(i as int)).last(),
            count == count_found(split_spaces(l@.take(i as int)).drop_last(), r@),
            score as int == (if 80 * count >= 65535 { 65535 } else { 80 * count }),
        decreases l@.len() - i,
    {
        let ghost t = split_spaces(l@.take(i as int));
        proof { assert(l@.take(i + 1).drop_last() =~= l@.take(i as int)); }
        if l[i] == ' ' {
            proof {
                assert(split_spaces(l@.take(i + 1)) == t.push(Seq::<char>::empty()));
                assert(t.push(Seq::<char>::empty()).drop_last() =~= t);
            }
            if cur.len() > 0 && chars_occur(&r, &cur) {
                score = score.saturating_add(80);
                proof { count = count + 1; }
            }
            cur = Vec::new();
        } else {
            proof {
                let u = t.update(t.len() - 1, t.last().push(l@[i as int]));
                assert(split_spaces(l@.take(i + 1)) == u);
                assert(u.drop_last() =~= t.drop_last());
            }
            cur.push(l[i]);
        }
        i = i + 1;
        proof { lemma_split_nonempty(l@.take(i as int)); }
    }
    proof {
        assert(l@.take(i as int) =~= l@);
        lemma_split_nonempty(l@);
    }
    if cur.len() > 0 && chars_occur(&r, &cur) {
        score = score.saturating_add(80);
        proof { count = count + 1; }
    }
    if score > 1000 { 1000 } else { score }
}

impl Clone for StringDictionary {
    fn clone(&self) -> (r: Self)
        ensures r.view() == self.view(),
    {
        proof { use_type_invariant(self); }
        let mut entries: Vec<DictEntry> = Vec::new();
        let mut i: usize = 0;
        while i < self.entries.len()
            invariant
                0 <= i <= self.entries@.len(),
                entry_views(entries@) =~= entry_views(self.entries@).take(i as int),
            decreases self.entries@.len() - i,
        {
            let e = &self.entries[i];
            let copy = DictEntry { code: e.code, text: e.text.clone(), generation: e.generation, flags: e.flags };
            let ghost before = entries@;
            entries.push(copy);
            proof {
                assert(entry_views(before.push(copy)) =~= entry_views(before).push(copy.view()));
                assert(entry_views(self.entries@).take(i + 1) =~= entry_views(self.entries@).take(i as int).push(copy.view()));
            }
            i = i + 1;
        }
        let mut aliases: Vec<(u16, u16)> = Vec::new();
        let mut k: usize = 0;
        while k < self.aliases.len()
            invariant
                0 <= k <= self.aliases@.len(),
                aliases@ =~= self.aliases@.take(k as int),
            decreases self.aliases@.len() - k,
        {
            aliases.push(self.aliases[k]);
            proof { assert(self.aliases@.take(k + 1) =~= self.aliases@.take(k as int).push(self.aliases@[k as int])); }
            k = k + 1;
        }
        proof {
            assert(entry_views(self.entries@).take(i as int) =~= entry_views(self.entries@));
            assert(self.aliases@.take(k as int) =~= self.aliases@);
        }
        StringDictionary { entries, aliases, generation: self.generation, revision_tag: self.revision_tag }
    }
}

impl Default for StringDictionary {
    fn default() -> (d: Self)
        ensures d.view() == empty_dict(0, 0),
    {
        StringDictionary::new()
    }
}

} // verus!
