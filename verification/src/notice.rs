use vstd::prelude::*;
use crate::cursor::{ByteCursor, Cur, Reader, counted_list, records_from, records_progress, lemma_records_step,
    lemma_records_fail, lemma_records_done, rd_u8, rd_u16, rd_u32, rd_u64};
use crate::error::{ParseError, ParseResult};
use crate::model::{ChannelNotice, Timestamp, notice_active, notice_closure, sat_add32, sat_add64};
use crate::sort::{SortKey, lemma_sorted_with_by, sort_with_keys, sorted_with};

verus! {

/// Reading one channel notice: id, basin, start, duration (the expiry is the start plus the
/// duration, saturated), severity, subject code, message code and flags.
pub open spec fn rd_notice(c: Cur) -> (Result<ChannelNotice, ParseError>, Cur) {
    match rd_u32(c) {
        (Err(e), c1) => (Err(e), c1),
        (Ok(notice_id), c1) => match rd_u16(c1) {
            (Err(e), c2) => (Err(e), c2),
            (Ok(basin_code), c2) => match rd_u64(c2) {
                (Err(e), c3) => (Err(e), c3),
                (Ok(starts), c3) => match rd_u32(c3) {
                    (Err(e), c4) => (Err(e), c4),
                    (Ok(duration), c4) => match rd_u8(c4) {
                        (Err(e), c5) => (Err(e), c5),
                        (Ok(severity), c5) => match rd_u16(c5) {
                            (Err(e), c6) => (Err(e), c6),
                            (Ok(subject_code), c6) => match rd_u16(c6) {
                                (Err(e), c7) => (Err(e), c7),
                                (Ok(message_code), c7) => match rd_u16(c7) {
                                    (Err(e), c8) => (Err(e), c8),
                                    (Ok(flags), c8) => (Ok(ChannelNotice {
                                        notice_id,
                                        basin_code,
                                        starts_at: Timestamp(starts),
                                        expires_at: Timestamp(sat_add64(starts, duration as u64)),
                                        severity,
                                        subject_code,
                                        message_code,
                                        flags,
                                    }), c8),
                                },
                            },
                        },
                    },
                },
            },
        },
    }
}

/// The channel notice reader.
pub open spec fn notice_reader() -> Reader<ChannelNotice> {
    |c: Cur| rd_notice(c)
}

/// A list of notices: a `u16` count (at most 8192) and the notices.
pub open spec fn notices_spec(data: Seq<u8>, base: usize) -> Result<Seq<ChannelNotice>, ParseError> {
    counted_list(data, base, 8192, "notice count", notice_reader())
}

/// Reads a list of notices.
pub fn parse_notices(data: &[u8], base: usize) -> (r: ParseResult<Vec<ChannelNotice>>)
    ensures
        match notices_spec(data@, base) {
            Ok(ns) => r matches Ok(v) && v@ == ns,
            Err(e) => r == Err::<Vec<ChannelNotice>, ParseError>(e),
        },
{
    let mut cursor = ByteCursor::with_base(data, base);
    let count = cursor.read_u16()? as usize;
    if count > 8192 {
        return Err(ParseError::limit(cursor.absolute_position(), "notice count"));
    }
    let ghost c1 = cursor.view();
    let mut notices: Vec<ChannelNotice> = Vec::new();
    let mut k: usize = 0;
    while k < count
        invariant
            0 <= k <= count,
            cursor.wf(),
            notices_spec(data@, base) == records_from(c1, count as nat, notice_reader()),
            records_progress(c1, count as nat, notice_reader(), notices@, cursor.view(), (count - k) as nat),
        decreases count - k,
    {
        let ghost before = cursor.view();
        let n = match parse_notice(&mut cursor) {
            Ok(n) => n,
            Err(e) => {
                proof { lemma_records_fail(c1, count as nat, notice_reader(), notices@, before, (count - k) as nat); }
                return Err(e);
            },
        };
        proof { lemma_records_step(c1, count as nat, notice_reader(), notices@, before, (count - k) as nat); }
        notices.push(n);
        k = k + 1;
    }
    proof { lemma_records_done(c1, count as nat, notice_reader(), notices@, cursor.view()); }
    Ok(notices)
}

/// Reads one notice.
pub fn parse_notice(cursor: &mut ByteCursor<'_>) -> (r: ParseResult<ChannelNotice>)
    ensures
        ({
            let (sr, c) = rd_notice(old(cursor).view());
            &&& final(cursor).view() == c
            &&& final(cursor).wf()
            &&& sr == r
        }),
{
    let notice_id = cursor.read_u32()?;
    let basin_code = cursor.read_u16()?;
    let starts_at = Timestamp(cursor.read_u64()?);
    let duration = cursor.read_u32()? as u64;
    let severity = cursor.read_u8()?;
    let subject_code = cursor.read_u16()?;
    let message_code = cursor.read_u16()?;
    let flags = cursor.read_u16()?;
    Ok(ChannelNotice {
        notice_id,
        basin_code,
        starts_at,
        expires_at: starts_at.saturating_add(duration),
        severity,
        subject_code,
        message_code,
        flags,
    })
}

/// Index order: basin, start, id.
pub open spec fn index_keys(s: Seq<ChannelNotice>) -> Seq<SortKey> {
    s.map_values(|n: ChannelNotice| (n.basin_code as u64, n.starts_at.0, n.notice_id as u64))
}

/// Notices of a basin in force at a time.
pub open spec fn active_in(basin_code: u16, time: Timestamp) -> spec_fn(ChannelNotice) -> bool {
    |n: ChannelNotice| n.basin_code == basin_code && notice_active(n, time)
}

/// Closures of a basin.
pub open spec fn closing(basin_code: u16) -> spec_fn(ChannelNotice) -> bool {
    |n: ChannelNotice| n.basin_code == basin_code && notice_closure(n)
}

/// Notices expired before a time.
pub open spec fn expired_by(time: Timestamp) -> spec_fn(ChannelNotice) -> bool {
    |n: ChannelNotice| n.expires_at.0 < time.0
}

/// Notices of severity 7 and up.
pub open spec fn severe() -> spec_fn(ChannelNotice) -> bool {
    |n: ChannelNotice| n.severity >= 7
}

/// Notices ordered by basin, start and id.
#[derive(Debug, Clone)]
pub struct NoticeIndex {
    notices: Vec<ChannelNotice>,
}

impl Default for NoticeIndex {
    fn default() -> (i: Self)
        ensures i.notices().len() == 0,
    {
        NoticeIndex { notices: Vec::new() }
    }
}

/// The notices of `v` of the basin that are in force at `time` (`which` 0) or that are
/// closures (`which` 1), in order.
fn select_notices(v: &Vec<ChannelNotice>, basin_code: u16, time: Timestamp, which: u8) -> (out: Vec<ChannelNotice>)
    requires which <= 1,
    ensures
        which == 0 ==> out@ == v@.filter(active_in(basin_code, time)),
        which == 1 ==> out@ == v@.filter(closing(basin_code)),
{
    let ghost keep = if which == 0 { active_in(basin_code, time) } else { closing(basin_code) };
    let mut out: Vec<ChannelNotice> = Vec::new();
    let mut i: usize = 0;
    while i < v.len()
        invariant
            0 <= i <= v@.len(),
            which <= 1,
            keep == if which == 0 { active_in(basin_code, time) } else { closing(basin_code) },
            out@ == v@.take(i as int).filter(keep),
        decreases v@.len() - i,
    {
        proof {
            reveal_with_fuel(Seq::<ChannelNotice>::filter, 1);
            assert(v@.take(i + 1).drop_last() =~= v@.take(i as int));
        }
        let n = v[i];
        let take = if which == 0 {
            n.basin_code == basin_code && n.active_at(time)
        } else {
            n.basin_code == basin_code && n.is_closure()
        };
        if take {
            out.push(n);
        }
        i = i + 1;
    }
    proof { assert(v@.take(i as int) =~= v@); }
    out
}

impl NoticeIndex {
    /// The notices, in index order.
    pub closed spec fn notices(&self) -> Seq<ChannelNotice> {
        self.notices@
    }

    /// Indexes notices, stably sorted by basin, start and id.
    pub fn new(notices: Vec<ChannelNotice>) -> (i: Self)
        ensures i.notices() == sorted_with(index_keys(notices@), notices@),
    {
        let mut keys: Vec<SortKey> = Vec::new();
        let mut k: usize = 0;
        while k < notices.len()
            invariant
                0 <= k <= notices@.len(),
                keys@ =~= index_keys(notices@).take(k as int),
            decreases notices@.len() - k,
        {
            keys.push((notices[k].basin_code as u64, notices[k].starts_at.0, notices[k].notice_id as u64));
            k = k + 1;
            proof { assert(keys@ =~= index_keys(notices@).take(k as int)); }
        }
        proof { assert(index_keys(notices@).take(k as int) =~= index_keys(notices@)); }
        NoticeIndex { notices: sort_with_keys(notices, keys) }
    }

    /// The notices of a basin in force at `time`, in index order.
    pub fn active_for_basin(&self, basin_code: u16, time: Timestamp) -> (v: Vec<ChannelNotice>)
        ensures v@ == self.notices().filter(active_in(basin_code, time)),
    {
        select_notices(&self.notices, basin_code, time, 0)
    }

    /// The closures of a basin, in index order.
    pub fn closures_for_basin(&self, basin_code: u16) -> (v: Vec<ChannelNotice>)
        ensures v@ == self.notices().filter(closing(basin_code)),
    {
        select_notices(&self.notices, basin_code, Timestamp(0), 1)
    }

    /// The ids of the notices that expired before `time`, in index order.
    pub fn expired_before(&self, time: Timestamp) -> (v: Vec<u32>)
        ensures v@ == self.notices().filter(expired_by(time)).map_values(|n: ChannelNotice| n.notice_id),
    {
        let mut out: Vec<u32> = Vec::new();
        let mut i: usize = 0;
        while i < self.notices.len()
            invariant
                0 <= i <= self.notices@.len(),
                out@ == self.notices@.take(i as int).filter(expired_by(time)).map_values(|n: ChannelNotice| n.notice_id),
            decreases self.notices@.len() - i,
        {
            proof {
                reveal_with_fuel(Seq::<ChannelNotice>::filter, 1);
                assert(self.notices@.take(i + 1).drop_last() =~= self.notices@.take(i as int));
            }
            let n = self.notices[i];
            if n.expires_at.0 < time.0 {
                out.push(n.notice_id);
            }
            proof {
                let f = self.notices@.take(i as int).filter(expired_by(time));
                assert(f.push(n).map_values(|m: ChannelNotice| m.notice_id) =~= f.map_values(|m: ChannelNotice| m.notice_id).push(n.notice_id));
            }
            i = i + 1;
        }
        proof { assert(self.notices@.take(i as int) =~= self.notices@); }
        out
    }

    /// How many notices have severity 7 and up.
    pub fn severe_count(&self) -> (n: usize)
        ensures n == self.notices().filter(severe()).len(),
    {
        let mut n: usize = 0;
        let mut i: usize = 0;
        while i < self.notices.len()
            invariant
                0 <= i <= self.notices@.len(),
                n == self.notices@.take(i as int).filter(severe()).len(),
                n <= i,
            decreases self.notices@.len() - i,
        {
            proof {
                reveal_with_fuel(Seq::<ChannelNotice>::filter, 1);
                assert(self.notices@.take(i + 1).drop_last() =~= self.notices@.take(i as int));
            }
            if self.notices[i].severity >= 7 {
                n = n + 1;
            }
            i = i + 1;
        }
        proof { assert(self.notices@.take(i as int) =~= self.notices@); }
        n
    }

    pub fn len(&self) -> (n: usize)
        ensures n == self.notices().len(),
    {
        self.notices.len()
    }

    pub fn is_empty(&self) -> (b: bool)
        ensures b == (self.notices().len() == 0),
    {
        self.notices.len() == 0
    }
}

/// Coalescing order: basin, subject and message (packed into one key), then start.
pub open spec fn coalesce_keys(s: Seq<ChannelNotice>) -> Seq<SortKey> {
    s.map_values(coalesce_key())
}

/// A notice's place in coalescing order.
pub open spec fn coalesce_key() -> spec_fn(ChannelNotice) -> SortKey {
    |n: ChannelNotice| (
        (n.basin_code as int * 0x1_0000_0000 + n.subject_code as int * 0x1_0000 + n.message_code as int) as u64,
        n.starts_at.0,
        0u64,
    )
}

/// `n` continues `last`: same basin, subject and message, starting no later than `last` expires.
pub open spec fn notice_continues(last: ChannelNotice, n: ChannelNotice) -> bool {
    last.basin_code == n.basin_code && last.subject_code == n.subject_code
        && last.message_code == n.message_code && last.expires_at.0 >= n.starts_at.0
}

/// `last` extended by `n`: the later expiry, the higher severity and the union of the flags.
pub open spec fn notice_joined(last: ChannelNotice, n: ChannelNotice) -> ChannelNotice {
    ChannelNotice {
        expires_at: Timestamp(if last.expires_at.0 >= n.expires_at.0 { last.expires_at.0 } else { n.expires_at.0 }),
        severity: if last.severity >= n.severity { last.severity } else { n.severity },
        flags: last.flags | n.flags,
        ..last
    }
}

/// `s` with each notice that continues the one kept before it joined into that one.
pub open spec fn join_notices(s: Seq<ChannelNotice>) -> Seq<ChannelNotice>
    decreases s.len(),
{
    if s.len() == 0 {
        s
    } else {
        let d = join_notices(s.drop_last());
        if d.len() > 0 && notice_continues(d.last(), s.last()) {
            d.update(d.len() - 1, notice_joined(d.last(), s.last()))
        } else {
            d.push(s.last())
        }
    }
}

/// The group of a notice (basin, subject and message) as one number.
pub open spec fn notice_group(n: ChannelNotice) -> int {
    n.basin_code as int * 0x1_0000_0000 + n.subject_code as int * 0x1_0000 + n.message_code as int
}

/// `a` comes no later than `b` by group and then start.
pub open spec fn group_start_le(a: ChannelNotice, b: ChannelNotice) -> bool {
    notice_group(a) < notice_group(b) || (notice_group(a) == notice_group(b) && a.starts_at.0 <= b.starts_at.0)
}

/// `o` covers `w`: same basin, subject and message, starting no later and expiring no earlier.
pub open spec fn covers_notice(o: ChannelNotice, w: ChannelNotice) -> bool {
    o.basin_code == w.basin_code && o.subject_code == w.subject_code && o.message_code == w.message_code
        && o.starts_at.0 <= w.starts_at.0 && w.expires_at.0 <= o.expires_at.0
}

/// Joining notices in group and start order keeps that order, none after the last notice;
/// joining never changes a notice's group or start.
proof fn lemma_join_notices_sorted(r: Seq<ChannelNotice>)
    requires forall|i: int, j: int| 0 <= i < j < r.len() ==> group_start_le(#[trigger] r[i], #[trigger] r[j]),
    ensures
        join_notices(r).len() <= r.len(),
        r.len() > 0 ==> join_notices(r).len() > 0,
        forall|i: int, j: int| 0 <= i < j < join_notices(r).len() ==> group_start_le(#[trigger] join_notices(r)[i], #[trigger] join_notices(r)[j]),
        r.len() > 0 ==> forall|i: int| 0 <= i < join_notices(r).len() ==> group_start_le(#[trigger] join_notices(r)[i], r.last()),
    decreases r.len(),
{
    if r.len() > 0 {
        let p = r.drop_last();
        let t = r.last();
        assert forall|i: int, j: int| 0 <= i < j < p.len() implies group_start_le(#[trigger] p[i], #[trigger] p[j]) by {
            assert(p[i] == r[i] && p[j] == r[j]);
        }
        lemma_join_notices_sorted(p);
        let d = join_notices(p);
        let n = join_notices(r);
        if p.len() > 0 {
            assert(p.last() == r[r.len() - 2]);
            assert(group_start_le(r[r.len() - 2], r[r.len() - 1]));
        }
        if d.len() > 0 && notice_continues(d.last(), t) {
            let m = d.len() - 1;
            assert(n == d.update(m, notice_joined(d.last(), t)));
            assert forall|i: int, j: int| 0 <= i < j < n.len() implies group_start_le(#[trigger] n[i], #[trigger] n[j]) by {
                assert(n[i].basin_code == d[i].basin_code && n[i].subject_code == d[i].subject_code && n[i].message_code == d[i].message_code && n[i].starts_at == d[i].starts_at);
                assert(n[j].basin_code == d[j].basin_code && n[j].subject_code == d[j].subject_code && n[j].message_code == d[j].message_code && n[j].starts_at == d[j].starts_at);
            }
            assert forall|i: int| 0 <= i < n.len() implies group_start_le(#[trigger] n[i], t) by {
                assert(n[i].basin_code == d[i].basin_code && n[i].subject_code == d[i].subject_code && n[i].message_code == d[i].message_code && n[i].starts_at == d[i].starts_at);
            }
        } else {
            assert(n == d.push(t));
            assert forall|i: int, j: int| 0 <= i < j < n.len() implies group_start_le(#[trigger] n[i], #[trigger] n[j]) by {
                assert(n[i] == d[i]);
                if j < d.len() { assert(n[j] == d[j]); }
            }
            assert forall|i: int| 0 <= i < n.len() implies group_start_le(#[trigger] n[i], t) by {
                if i < d.len() { assert(n[i] == d[i]); }
            }
        }
    }
}

/// Joining notices in group and start order covers every notice.
proof fn lemma_join_notices_covers(r: Seq<ChannelNotice>)
    requires forall|i: int, j: int| 0 <= i < j < r.len() ==> group_start_le(#[trigger] r[i], #[trigger] r[j]),
    ensures forall|k: int| 0 <= k < r.len() ==> exists|i: int| 0 <= i < join_notices(r).len()
        && covers_notice(#[trigger] join_notices(r)[i], #[trigger] r[k]),
    decreases r.len(),
{
    if r.len() > 0 {
        let p = r.drop_last();
        let t = r.last();
        assert forall|i: int, j: int| 0 <= i < j < p.len() implies group_start_le(#[trigger] p[i], #[trigger] p[j]) by {
            assert(p[i] == r[i] && p[j] == r[j]);
        }
        lemma_join_notices_covers(p);
        lemma_join_notices_sorted(p);
        let d = join_notices(p);
        let n = join_notices(r);
        if p.len() > 0 {
            assert(p.last() == r[r.len() - 2]);
            assert(group_start_le(r[r.len() - 2], r[r.len() - 1]));
        }
        if d.len() > 0 && notice_continues(d.last(), t) {
            let m = d.len() - 1;
            assert(n == d.update(m, notice_joined(d.last(), t)));
            assert(group_start_le(d[m], p.last()));
            assert(covers_notice(n[m], t));
            assert forall|k: int| 0 <= k < r.len() implies exists|i: int| 0 <= i < n.len() && covers_notice(#[trigger] n[i], #[trigger] r[k]) by {
                if k < p.len() {
                    assert(r[k] == p[k]);
                    let i = choose|i: int| 0 <= i < d.len() && covers_notice(#[trigger] d[i], #[trigger] p[k]);
                    if i == m { assert(covers_notice(n[m], p[k])); } else { assert(n[i] == d[i]); }
                } else {
                    assert(r[k] == t);
                }
            }
        } else {
            assert(n == d.push(t));
            assert forall|k: int| 0 <= k < r.len() implies exists|i: int| 0 <= i < n.len() && covers_notice(#[trigger] n[i], #[trigger] r[k]) by {
                if k < p.len() {
                    assert(r[k] == p[k]);
                    let i = choose|i: int| 0 <= i < d.len() && covers_notice(#[trigger] d[i], #[trigger] p[k]);
                    assert(n[i] == d[i]);
                } else {
                    assert(covers_notice(n[n.len() - 1], r[k]));
                }
            }
        }
    }
}

/// After joining, no notice continues the one before it.
proof fn lemma_join_notices_apart(r: Seq<ChannelNotice>)
    ensures forall|i: int, j: int| 0 <= i && j == i + 1 && j < join_notices(r).len()
        ==> !notice_continues(#[trigger] join_notices(r)[i], #[trigger] join_notices(r)[j]),
    decreases r.len(),
{
    if r.len() > 0 {
        let p = r.drop_last();
        let t = r.last();
        lemma_join_notices_apart(p);
        let d = join_notices(p);
        let n = join_notices(r);
        if d.len() > 0 && notice_continues(d.last(), t) {
            let m = d.len() - 1;
            assert(n == d.update(m, notice_joined(d.last(), t)));
            assert forall|i: int, j: int| 0 <= i && j == i + 1 && j < n.len()
                implies !notice_continues(#[trigger] n[i], #[trigger] n[j]) by {
                assert(n[i] == d[i]);
                assert(n[j].basin_code == d[j].basin_code && n[j].subject_code == d[j].subject_code && n[j].message_code == d[j].message_code && n[j].starts_at == d[j].starts_at);
                assert(!notice_continues(d[i], d[j]));
            }
        } else {
            assert(n == d.push(t));
            assert forall|i: int, j: int| 0 <= i && j == i + 1 && j < n.len()
                implies !notice_continues(#[trigger] n[i], #[trigger] n[j]) by {
                assert(n[i] == d[i]);
                if j < d.len() { assert(n[j] == d[j]); assert(!notice_continues(d[i], d[j])); }
            }
        }
    }
}

/// Coalescing notices gives notices in group (basin, subject, message) and start order, no
/// more of them than were given, no notice continuing the one before it, and for every notice
/// given one that covers it (same group, starting no later, expiring no earlier).
pub proof fn lemma_coalesce_notices(notices: Seq<ChannelNotice>)
    ensures ({
        let out = join_notices(sorted_with(coalesce_keys(notices), notices));
        &&& out.len() <= notices.len()
        &&& forall|i: int, j: int| 0 <= i < j < out.len() ==> group_start_le(#[trigger] out[i], #[trigger] out[j])
        &&& forall|i: int, j: int| 0 <= i && j == i + 1 && j < out.len() ==> !notice_continues(#[trigger] out[i], #[trigger] out[j])
        &&& forall|k: int| 0 <= k < notices.len() ==> exists|i: int| 0 <= i < out.len()
            && covers_notice(#[trigger] out[i], #[trigger] notices[k])
    }),
{
    let r = sorted_with(coalesce_keys(notices), notices);
    lemma_sorted_with_by(notices, coalesce_key());
    assert forall|i: int, j: int| 0 <= i < j < r.len() implies group_start_le(#[trigger] r[i], #[trigger] r[j]) by {
        assert(crate::sort::key_le(coalesce_key()(r[i]), coalesce_key()(r[j])));
    }
    lemma_join_notices_sorted(r);
    lemma_join_notices_covers(r);
    lemma_join_notices_apart(r);
    let out = join_notices(r);
    assert forall|k: int| 0 <= k < notices.len() implies exists|i: int| 0 <= i < out.len()
        && covers_notice(#[trigger] out[i], #[trigger] notices[k]) by {
        assert(r.contains(notices[k]));
        let m = choose|m: int| 0 <= m < r.len() && r[m] == notices[k];
        let i = choose|i: int| 0 <= i < out.len() && covers_notice(#[trigger] out[i], #[trigger] r[m]);
    }
}

/// Sorts notices by basin, subject, message and start (stably) and joins notices that
/// continue each other.
pub fn coalesce_notices(notices: Vec<ChannelNotice>) -> (r: Vec<ChannelNotice>)
    ensures r@ == join_notices(sorted_with(coalesce_keys(notices@), notices@)),
{
    let mut keys: Vec<SortKey> = Vec::new();
    let mut i: usize = 0;
    while i < notices.len()
        invariant
            0 <= i <= notices@.len(),
            keys@ =~= coalesce_keys(notices@).take(i as int),
        decreases notices@.len() - i,
    {
        let n = notices[i];
        let packed: u64 = (n.basin_code as u64) * 0x1_0000_0000 + (n.subject_code as u64) * 0x1_0000 + n.message_code as u64;
        keys.push((packed, n.starts_at.0, 0u64));
        i = i + 1;
        proof { assert(keys@ =~= coalesce_keys(notices@).take(i as int)); }
    }
    proof { assert(coalesce_keys(notices@).take(i as int) =~= coalesce_keys(notices@)); }
    let sorted = sort_with_keys(notices, keys);
    let mut out: Vec<ChannelNotice> = Vec::new();
    let mut j: usize = 0;
    while j < sorted.len()
        invariant
            0 <= j <= sorted@.len(),
            out@ == join_notices(sorted@.take(j as int)),
        decreases sorted@.len() - j,
    {
        proof { assert(sorted@.take(j + 1).drop_last() =~= sorted@.take(j as int)); }
        let notice = sorted[j];
        let n = out.len();
        if n > 0 && out[n - 1].basin_code == notice.basin_code && out[n - 1].subject_code == notice.subject_code
            && out[n - 1].message_code == notice.message_code && out[n - 1].expires_at.0 >= notice.starts_at.0 {
            let mut last = out[n - 1];
            if notice.expires_at.0 > last.expires_at.0 {
                last.expires_at = Timestamp(notice.expires_at.0);
            }
            if notice.severity > last.severity {
                last.severity = notice.severity;
            }
            last.flags = last.flags | notice.flags;
            out.set(n - 1, last);
        } else {
            out.push(notice);
        }
        j = j + 1;
    }
    proof { assert(sorted@.take(j as int) =~= sorted@); }
    out
}

/// The pressure a notice of the basin in force at `time` adds: its severity, plus 20 for a
/// closure, plus 5 with flag 0x0004; each step saturating.
pub open spec fn pressure_step(p: u32, n: ChannelNotice, basin_code: u16, time: Timestamp) -> u32 {
    if n.basin_code != basin_code || !notice_active(n, time) {
        p
    } else {
        let p1 = sat_add32(p as int, n.severity as int);
        let p2 = if notice_closure(n) { sat_add32(p1 as int, 20) } else { p1 };
        if (n.flags / 4) % 2 == 1 { sat_add32(p2 as int, 5) } else { p2 }
    }
}

/// The total pressure of the notices, in order.
pub open spec fn pressure_spec(s: Seq<ChannelNotice>, basin_code: u16, time: Timestamp) -> u32
    decreases s.len(),
{
    if s.len() == 0 { 0 } else { pressure_step(pressure_spec(s.drop_last(), basin_code, time), s.last(), basin_code, time) }
}

/// How much the notices of a basin in force at `time` weigh on traffic.
pub fn notice_pressure(notices: &[ChannelNotice], basin_code: u16, time: Timestamp) -> (p: u32)
    ensures p == pressure_spec(notices@, basin_code, time),
{
    let mut pressure: u32 = 0;
    let mut i: usize = 0;
    while i < notices.len()
        invariant
            0 <= i <= notices@.len(),
            pressure == pressure_spec(notices@.take(i as int), basin_code, time),
        decreases notices@.len() - i,
    {
        proof { assert(notices@.take(i + 1).drop_last() =~= notices@.take(i as int)); }
        let notice = notices[i];
        if notice.basin_code == basin_code && notice.active_at(time) {
            pressure = pressure.saturating_add(notice.severity as u32);
            if notice.is_closure() {
                pressure = pressure.saturating_add(20);
            }
            let f = notice.flags;
            proof { assert((f & 0x0004 != 0) == ((f / 4) % 2 == 1)) by (bit_vector); }
            if f & 0x0004 != 0 {
                pressure = pressure.saturating_add(5);
            }
        }
        i = i + 1;
    }
    proof { assert(notices@.take(i as int) =~= notices@); }
    pressure
}

} // verus!
