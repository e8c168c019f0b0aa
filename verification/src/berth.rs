use vstd::prelude::*;
use crate::cursor::{ByteCursor, Cur, Reader, counted_list, records_progress, lemma_records_step,
    lemma_records_fail, lemma_records_done, rd_u8, rd_u16, rd_u32, rd_u64};
use crate::error::{ParseError, ParseResult};
use crate::model::{BerthId, BerthPlan, Timestamp, VesselId, plans_overlap, sat_add64, sat_sub64};
use crate::sort::{SortKey, key_le, lemma_sorted_with_by, pair_row, pair_rows, sort_with_keys, sorted_with};

verus! {

/// Reading one berth plan: berth, vessel, start, duration (the end is the start plus the
/// duration, saturated), priority, maximum draught, required tugs and flags.
pub open spec fn rd_berth(c: Cur) -> (Result<BerthPlan, ParseError>, Cur) {
    match rd_u16(c) {
        (Err(e), c1) => (Err(e), c1),
        (Ok(berth), c1) => match rd_u32(c1) {
            (Err(e), c2) => (Err(e), c2),
            (Ok(vessel), c2) => match rd_u64(c2) {
                (Err(e), c3) => (Err(e), c3),
                (Ok(start), c3) => match rd_u32(c3) {
                    (Err(e), c4) => (Err(e), c4),
                    (Ok(duration), c4) => match rd_u8(c4) {
                        (Err(e), c5) => (Err(e), c5),
                        (Ok(priority), c5) => match rd_u16(c5) {
                            (Err(e), c6) => (Err(e), c6),
                            (Ok(max_draught_cm), c6) => match rd_u8(c6) {
                                (Err(e), c7) => (Err(e), c7),
                                (Ok(required_tugs), c7) => match rd_u16(c7) {
                                    (Err(e), c8) => (Err(e), c8),
                                    (Ok(flags), c8) => (Ok(BerthPlan {
                                        berth: BerthId(berth),
                                        vessel: VesselId(vessel),
                                        start: Timestamp(start),
                                        end: Timestamp(sat_add64(start, duration as u64)),
                                        priority,
                                        max_draught_cm,
                                        required_tugs,
                                        flags,
                                    }), c8),
                                },
                            },
                        },
                    },
                },
            },
        },
    }
}

/// The berth plan reader.
pub open spec fn berth_reader() -> Reader<BerthPlan> {
    |c: Cur| rd_berth(c)
}

/// A list of berth plans: a `u16` count (at most 8192) and the plans.
pub open spec fn berths_spec(data: Seq<u8>, base: usize) -> Result<Seq<BerthPlan>, ParseError> {
    counted_list(data, base, 8192, "berth plan count", berth_reader())
}

/// Reads a list of berth plans.
pub fn parse_berths(data: &[u8], base: usize) -> (r: ParseResult<Vec<BerthPlan>>)
    ensures
        match berths_spec(data@, base) {
            Ok(ps) => r matches Ok(v) && v@ == ps,
            Err(e) => r == Err::<Vec<BerthPlan>, ParseError>(e),
        },
{
    let mut cursor = ByteCursor::with_base(data, base);
    let count = cursor.read_u16()? as usize;
    if count > 8192 {
        return Err(ParseError::limit(cursor.absolute_position(), "berth plan count"));
    }
    let ghost c1 = cursor.view();
    let mut plans: Vec<BerthPlan> = Vec::new();
    let mut k: usize = 0;
    while k < count
        invariant
            0 <= k <= count,
            cursor.wf(),
            berths_spec(data@, base) == crate::cursor::records_from(c1, count as nat, berth_reader()),
            records_progress(c1, count as nat, berth_reader(), plans@, cursor.view(), (count - k) as nat),
        decreases count - k,
    {
        let ghost before = cursor.view();
        let p = match parse_berth(&mut cursor) {
            Ok(p) => p,
            Err(e) => {
                proof { lemma_records_fail(c1, count as nat, berth_reader(), plans@, before, (count - k) as nat); }
                return Err(e);
            },
        };
        proof { lemma_records_step(c1, count as nat, berth_reader(), plans@, before, (count - k) as nat); }
        plans.push(p);
        k = k + 1;
    }
    proof { lemma_records_done(c1, count as nat, berth_reader(), plans@, cursor.view()); }
    Ok(plans)
}

/// Reads one berth plan.
pub fn parse_berth(cursor: &mut ByteCursor<'_>) -> (r: ParseResult<BerthPlan>)
    ensures
        ({
            let (sr, c) = rd_berth(old(cursor).view());
            &&& final(cursor).view() == c
            &&& final(cursor).wf()
            &&& sr == r
        }),
{
    let berth = BerthId(cursor.read_u16()?);
    let vessel = VesselId(cursor.read_u32()?);
    let start = Timestamp(cursor.read_u64()?);
    let duration = cursor.read_u32()? as u64;
    let end = start.saturating_add(duration);
    let priority = cursor.read_u8()?;
    let max_draught_cm = cursor.read_u16()?;
    let required_tugs = cursor.read_u8()?;
    let flags = cursor.read_u16()?;
    Ok(BerthPlan { berth, vessel, start, end, priority, max_draught_cm, required_tugs, flags })
}

/// Plans `l` and `r` of `plans` overlap.
pub open spec fn overlap_at(plans: Seq<BerthPlan>) -> spec_fn(int, int) -> bool {
    |l: int, r: int| plans_overlap(plans[l], plans[r])
}

/// Every pair of overlapping plans `(left, right)` with `left < right`, by `left` and then
/// `right`.
pub fn find_conflicts(plans: &[BerthPlan]) -> (r: Vec<(usize, usize)>)
    ensures r@ == pair_rows(plans@.len() as int, plans@.len() as int, overlap_at(plans@)),
{
    let n = plans.len();
    let ghost p = overlap_at(plans@);
    let mut conflicts: Vec<(usize, usize)> = Vec::new();
    let mut left: usize = 0;
    while left < n
        invariant
            0 <= left <= n,
            n == plans@.len(),
            p == overlap_at(plans@),
            conflicts@ == pair_rows(left as int, n as int, p),
        decreases n - left,
    {
        let mut right: usize = left + 1;
        let ghost start = conflicts@;
        proof { assert(start + pair_row(left as int, right as int, p) =~= start); }
        while right < n
            invariant
                left < n,
                left + 1 <= right <= n,
                n == plans@.len(),
                p == overlap_at(plans@),
                start == pair_rows(left as int, n as int, p),
                conflicts@ == start + pair_row(left as int, right as int, p),
            decreases n - right,
        {
            if plans[left].overlaps(&plans[right]) {
                conflicts.push((left, right));
            }
            right = right + 1;
            proof { assert(conflicts@ =~= start + pair_row(left as int, right as int, p)); }
        }
        left = left + 1;
    }
    conflicts
}

/// A plan's place in schedule order: berth, start, priority.
pub open spec fn schedule_key() -> spec_fn(BerthPlan) -> SortKey {
    |p: BerthPlan| (p.berth.0 as u64, p.start.0, p.priority as u64)
}

/// Schedule order as sort keys.
pub open spec fn schedule_keys(s: Seq<BerthPlan>) -> Seq<SortKey> {
    s.map_values(schedule_key())
}

/// Two plans that book the same vessel onto the same berth for the same span with the same
/// flags.
pub open spec fn same_booking(a: BerthPlan, b: BerthPlan) -> bool {
    a.berth == b.berth && a.vessel == b.vessel && a.start == b.start && a.end == b.end && a.flags == b.flags
}

/// `s` without the elements that repeat, by `same_booking`, the element kept just before them.
pub open spec fn dedup_bookings(s: Seq<BerthPlan>) -> Seq<BerthPlan>
    decreases s.len(),
{
    if s.len() == 0 {
        s
    } else {
        let d = dedup_bookings(s.drop_last());
        if d.len() > 0 && same_booking(d.last(), s.last()) { d } else { d.push(s.last()) }
    }
}

/// Plans `a` then `b` are in schedule order.
pub open spec fn schedule_le(a: BerthPlan, b: BerthPlan) -> bool {
    key_le(schedule_key()(a), schedule_key()(b))
}

/// Dropping repeated bookings keeps only plans that were there, and no more of them.
proof fn lemma_dedup_from(r: Seq<BerthPlan>)
    ensures
        dedup_bookings(r).len() <= r.len(),
        forall|i: int| 0 <= i < dedup_bookings(r).len() ==> r.contains(#[trigger] dedup_bookings(r)[i]),
    decreases r.len(),
{
    if r.len() > 0 {
        let p = r.drop_last();
        lemma_dedup_from(p);
        let d = dedup_bookings(p);
        let n = dedup_bookings(r);
        assert forall|i: int| 0 <= i < n.len() implies r.contains(#[trigger] n[i]) by {
            if i < d.len() {
                assert(n[i] == d[i]);
                let m = choose|m: int| 0 <= m < p.len() && p[m] == d[i];
                assert(r[m] == d[i]);
            } else {
                assert(r[r.len() - 1] == n[i]);
            }
        }
    }
}

/// Dropping repeated bookings keeps a sub-multiset of the plans.
proof fn lemma_dedup_sub(r: Seq<BerthPlan>)
    ensures dedup_bookings(r).to_multiset().subset_of(r.to_multiset()),
    decreases r.len(),
{
    broadcast use vstd::multiset::group_multiset_axioms, vstd::seq_lib::to_multiset_build;
    if r.len() == 0 {
        assert(dedup_bookings(r) =~= r);
    } else {
        let p = r.drop_last();
        lemma_dedup_sub(p);
        assert(p.push(r.last()) =~= r);
        let d = dedup_bookings(p);
        if d.len() > 0 && same_booking(d.last(), r.last()) {
        } else {
            assert(dedup_bookings(r) == d.push(r.last()));
        }
    }
}

/// Dropping repeated bookings keeps a plan for every booking.
proof fn lemma_dedup_covers(r: Seq<BerthPlan>)
    ensures
        forall|k: int| 0 <= k < r.len() ==> exists|i: int| 0 <= i < dedup_bookings(r).len()
            && same_booking(#[trigger] dedup_bookings(r)[i], #[trigger] r[k]),
    decreases r.len(),
{
    if r.len() > 0 {
        let p = r.drop_last();
        lemma_dedup_covers(p);
        let d = dedup_bookings(p);
        let n = dedup_bookings(r);
        assert forall|k: int| 0 <= k < r.len() implies exists|i: int| 0 <= i < n.len() && same_booking(#[trigger] n[i], #[trigger] r[k]) by {
            if k < p.len() {
                assert(r[k] == p[k]);
                let i = choose|i: int| 0 <= i < d.len() && same_booking(#[trigger] d[i], #[trigger] p[k]);
                assert(n[i] == d[i]);
            } else {
                assert(same_booking(n[n.len() - 1], r[k]));
            }
        }
    }
}

/// Dropping repeated bookings from plans in schedule order keeps them in schedule order, none
/// after the last plan.
proof fn lemma_dedup_sorted(r: Seq<BerthPlan>)
    requires
        forall|i: int, j: int| 0 <= i < j < r.len() ==> schedule_le(#[trigger] r[i], #[trigger] r[j]),
    ensures
        forall|i: int, j: int| 0 <= i < j < dedup_bookings(r).len()
            ==> schedule_le(#[trigger] dedup_bookings(r)[i], #[trigger] dedup_bookings(r)[j]),
        r.len() > 0 ==> forall|i: int| 0 <= i < dedup_bookings(r).len() ==> schedule_le(#[trigger] dedup_bookings(r)[i], r.last()),
    decreases r.len(),
{
    if r.len() > 0 {
        let p = r.drop_last();
        let t = r.last();
        assert forall|i: int, j: int| 0 <= i < j < p.len() implies schedule_le(#[trigger] p[i], #[trigger] p[j]) by {
            assert(p[i] == r[i] && p[j] == r[j]);
        }
        lemma_dedup_sorted(p);
        let d = dedup_bookings(p);
        let n = dedup_bookings(r);
        if p.len() > 0 {
            assert(p.last() == r[r.len() - 2]);
            assert(schedule_le(r[r.len() - 2], r[r.len() - 1]));
        }
        assert forall|i: int, j: int| 0 <= i < j < n.len() implies schedule_le(#[trigger] n[i], #[trigger] n[j]) by {
            assert(n[i] == d[i]);
            if j < d.len() { assert(n[j] == d[j]); }
        }
        assert forall|i: int| 0 <= i < n.len() implies schedule_le(#[trigger] n[i], t) by {
            if i < d.len() { assert(n[i] == d[i]); }
        }
    }
}

/// Compacting a schedule gives plans in schedule order (berth, start, priority), a
/// sub-multiset of the input, and for every input plan one with the same booking.
pub proof fn lemma_compact_schedule(plans: Seq<BerthPlan>)
    ensures ({
        let out = dedup_bookings(sorted_with(schedule_keys(plans), plans));
        &&& out.len() <= plans.len()
        &&& out.to_multiset().subset_of(plans.to_multiset())
        &&& forall|i: int, j: int| 0 <= i < j < out.len() ==> schedule_le(#[trigger] out[i], #[trigger] out[j])
        &&& forall|i: int| 0 <= i < out.len() ==> plans.contains(#[trigger] out[i])
        &&& forall|k: int| 0 <= k < plans.len() ==> exists|i: int| 0 <= i < out.len()
            && same_booking(#[trigger] out[i], #[trigger] plans[k])
    }),
{
    let r = sorted_with(schedule_keys(plans), plans);
    lemma_sorted_with_by(plans, schedule_key());
    assert forall|i: int, j: int| 0 <= i < j < r.len() implies schedule_le(#[trigger] r[i], #[trigger] r[j]) by {}
    lemma_dedup_from(r);
    lemma_dedup_covers(r);
    lemma_dedup_sorted(r);
    lemma_dedup_sub(r);
    let out = dedup_bookings(r);
    assert forall|i: int| 0 <= i < out.len() implies plans.contains(#[trigger] out[i]) by {
        let m = choose|m: int| 0 <= m < r.len() && r[m] == out[i];
    }
    assert forall|k: int| 0 <= k < plans.len() implies exists|i: int| 0 <= i < out.len()
        && same_booking(#[trigger] out[i], #[trigger] plans[k]) by {
        assert(r.contains(plans[k]));
        let m = choose|m: int| 0 <= m < r.len() && r[m] == plans[k];
        let i = choose|i: int| 0 <= i < out.len() && same_booking(#[trigger] out[i], #[trigger] r[m]);
    }
}

/// The plans in schedule order (stably) without repeated bookings.
pub fn compact_schedule(plans: &[BerthPlan]) -> (r: Vec<BerthPlan>)
    ensures r@ == dedup_bookings(sorted_with(schedule_keys(plans@), plans@)),
{
    let mut items: Vec<BerthPlan> = Vec::new();
    let mut keys: Vec<SortKey> = Vec::new();
    let mut i: usize = 0;
    while i < plans.len()
        invariant
            0 <= i <= plans@.len(),
            items@ =~= plans@.take(i as int),
            keys@ =~= schedule_keys(plans@).take(i as int),
        decreases plans@.len() - i,
    {
        items.push(plans[i]);
        keys.push((plans[i].berth.0 as u64, plans[i].start.0, plans[i].priority as u64));
        i = i + 1;
        proof {
            assert(items@ =~= plans@.take(i as int));
            assert(keys@ =~= schedule_keys(plans@).take(i as int));
        }
    }
    proof {
        assert(plans@.take(i as int) =~= plans@);
        assert(schedule_keys(plans@).take(i as int) =~= schedule_keys(plans@));
    }
    let sorted = sort_with_keys(items, keys);
    let mut out: Vec<BerthPlan> = Vec::new();
    let mut j: usize = 0;
    while j < sorted.len()
        invariant
            0 <= j <= sorted@.len(),
            out@ == dedup_bookings(sorted@.take(j as int)),
        decreases sorted@.len() - j,
    {
        proof { assert(sorted@.take(j + 1).drop_last() =~= sorted@.take(j as int)); }
        let b = sorted[j];
        let n = out.len();
        let repeated = n > 0 && out[n - 1].berth.0 == b.berth.0 && out[n - 1].vessel.0 == b.vessel.0
            && out[n - 1].start.0 == b.start.0 && out[n - 1].end.0 == b.end.0 && out[n - 1].flags == b.flags;
        if !repeated {
            out.push(b);
        }
        j = j + 1;
    }
    proof { assert(sorted@.take(j as int) =~= sorted@); }
    out
}

/// A berth's bookings: start, end and vessel, by start.
#[derive(Debug, Clone)]
pub struct BerthOccupancy {
    pub berth: BerthId,
    pub windows: Vec<(Timestamp, Timestamp, VesselId)>,
}

impl Default for BerthOccupancy {
    fn default() -> (o: Self)
        ensures o.berth == BerthId(0), o.windows@.len() == 0,
    {
        BerthOccupancy { berth: BerthId(0), windows: Vec::new() }
    }
}

/// The window a plan books.
pub open spec fn window_of(p: BerthPlan) -> (Timestamp, Timestamp, VesselId) {
    (p.start, p.end, p.vessel)
}

/// Plans of berth `b`.
pub open spec fn of_berth(b: BerthId) -> spec_fn(BerthPlan) -> bool {
    |p: BerthPlan| p.berth == b
}

/// Windows ordered by start.
pub open spec fn start_keys(w: Seq<(Timestamp, Timestamp, VesselId)>) -> Seq<SortKey> {
    w.map_values(|x: (Timestamp, Timestamp, VesselId)| (x.0.0, 0u64, 0u64))
}

/// The first window, in order, whose bounds include `time`.
pub open spec fn first_occupant(w: Seq<(Timestamp, Timestamp, VesselId)>, time: Timestamp) -> Option<VesselId>
    decreases w.len(),
{
    if w.len() == 0 {
        None
    } else if w[0].0.0 <= time.0 <= w[0].1.0 {
        Some(w[0].2)
    } else {
        first_occupant(w.drop_first(), time)
    }
}

/// Sum of the windows' lengths (each saturated at zero).
pub open spec fn occupied_total(w: Seq<(Timestamp, Timestamp, VesselId)>) -> int
    decreases w.len(),
{
    if w.len() == 0 { 0 } else { occupied_total(w.drop_last()) + sat_sub64(w.last().1.0, w.last().0.0) }
}

impl BerthOccupancy {
    /// The windows of berth `berth` among `plans`, stably sorted by start.
    pub fn from_plans(berth: BerthId, plans: &[BerthPlan]) -> (o: Self)
        ensures
            o.berth == berth,
            ({
                let w = plans@.filter(of_berth(berth)).map_values(|p: BerthPlan| window_of(p));
                o.windows@ == sorted_with(start_keys(w), w)
            }),
    {
        let ghost w = plans@.filter(of_berth(berth)).map_values(|p: BerthPlan| window_of(p));
        let mut windows: Vec<(Timestamp, Timestamp, VesselId)> = Vec::new();
        let mut keys: Vec<SortKey> = Vec::new();
        let mut i: usize = 0;
        while i < plans.len()
            invariant
                0 <= i <= plans@.len(),
                windows@ == plans@.take(i as int).filter(of_berth(berth)).map_values(|p: BerthPlan| window_of(p)),
                keys@ == start_keys(windows@),
            decreases plans@.len() - i,
        {
            proof {
                reveal_with_fuel(Seq::<BerthPlan>::filter, 1);
                assert(plans@.take(i + 1).drop_last() =~= plans@.take(i as int));
            }
            let p = plans[i];
            if p.berth.0 == berth.0 {
                windows.push((p.start, p.end, p.vessel));
                keys.push((p.start.0, 0u64, 0u64));
                proof {
                    let f = plans@.take(i as int).filter(of_berth(berth));
                    assert(f.push(p).map_values(|q: BerthPlan| window_of(q)) =~= f.map_values(|q: BerthPlan| window_of(q)).push(window_of(p)));
                    assert(keys@ =~= start_keys(windows@));
                }
            }
            i = i + 1;
        }
        proof { assert(plans@.take(i as int) =~= plans@); }
        let sorted = sort_with_keys(windows, keys);
        BerthOccupancy { berth, windows: sorted }
    }

    /// The vessel of the first window whose bounds include `time`.
    pub fn occupied_at(&self, time: Timestamp) -> (r: Option<VesselId>)
        ensures r == first_occupant(self.windows@, time),
    {
        let mut i: usize = 0;
        proof { assert(self.windows@.skip(0) =~= self.windows@); }
        while i < self.windows.len()
            invariant
                0 <= i <= self.windows@.len(),
                first_occupant(self.windows@, time) == first_occupant(self.windows@.skip(i as int), time),
            decreases self.windows@.len() - i,
        {
            let w = self.windows[i];
            proof {
                assert(self.windows@.skip(i as int)[0] == w);
                assert(self.windows@.skip(i as int).drop_first() =~= self.windows@.skip(i + 1));
            }
            if time.0 >= w.0.0 && time.0 <= w.1.0 {
                return Some(w.2);
            }
            i = i + 1;
        }
        None
    }

    /// Total booked seconds.
    pub fn utilization_seconds(&self) -> (t: u64)
        requires occupied_total(self.windows@) <= u64::MAX,
        ensures t == occupied_total(self.windows@),
    {
        let mut t: u64 = 0;
        let mut i: usize = 0;
        while i < self.windows.len()
            invariant
                0 <= i <= self.windows@.len(),
                t == occupied_total(self.windows@.take(i as int)),
                occupied_total(self.windows@) <= u64::MAX,
            decreases self.windows@.len() - i,
        {
            proof {
                assert(self.windows@.take(i + 1).drop_last() =~= self.windows@.take(i as int));
                lemma_occupied_prefix(self.windows@, i + 1);
            }
            let w = self.windows[i];
            t = t + w.1.0.saturating_sub(w.0.0);
            i = i + 1;
        }
        proof { assert(self.windows@.take(i as int) =~= self.windows@); }
        t
    }
}

/// A prefix's total is at most the whole's.
proof fn lemma_occupied_prefix(w: Seq<(Timestamp, Timestamp, VesselId)>, n: int)
    requires 0 <= n <= w.len(),
    ensures occupied_total(w.take(n)) <= occupied_total(w),
    decreases w.len() - n,
{
    if n < w.len() {
        assert(w.take(n + 1).drop_last() =~= w.take(n));
        lemma_occupied_prefix(w, n + 1);
    } else {
        assert(w.take(n) =~= w);
    }
}

} // verus!
