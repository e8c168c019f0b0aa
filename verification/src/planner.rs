use vstd::prelude::*;
use crate::keyed::{key_sorted, key_split, upsert_by, find_by, lemma_upsert_sorted, lemma_find_sorted, lemma_find_none,
    lemma_find_after_upsert, lemma_upsert_elems};
use crate::model::{BerthId, BerthPlan, PilotOrder, Timestamp, VesselId, VesselSnapshot, risk_hint_spec, sat_add64, sat_sub64};

verus! {

/// What a tug is built for.
#[derive(Debug, Clone, Copy, PartialEq, Eq, Structural)]
pub enum TugClass {
    Harbor,
    Escort,
    Firefighting,
    Salvage,
}

/// A tug of the fleet.
#[derive(Debug, Clone, Copy, PartialEq, Eq, Structural)]
pub struct TugAsset {
    pub code: u16,
    pub class: TugClass,
    pub bollard_pull_tonnes: u16,
    pub home_berth: BerthId,
    pub available_from: Timestamp,
}

/// A tug booked for a vessel over a span of time, and why.
#[derive(Debug, Clone, Copy, PartialEq, Eq)]
pub struct TugAssignment {
    pub vessel: VesselId,
    pub tug_code: u16,
    pub starts_at: Timestamp,
    pub ends_at: Timestamp,
    pub reason: &'static str,
}

/// A fleet of tugs and the assignments made so far.
#[derive(Debug, Clone)]
pub struct TugPlanner {
    assets: Vec<TugAsset>,
    assignments: Vec<TugAssignment>,
}

/// The larger of two counts.
pub open spec fn max_n(a: int, b: int) -> int {
    if a >= b { a } else { b }
}

/// How many tugs a vessel needs: the berth plan's count (none without a plan), at least two
/// for a draught over 13.5 m, at least one above 12 knots, at least three for a risk hint
/// over 70; at most six.
pub open spec fn required_spec(v: VesselSnapshot, berth: Option<BerthPlan>) -> int {
    let n0: int = match berth { Some(p) => p.required_tugs as int, None => 0 };
    let n1 = if v.draught_cm > 1350 { max_n(n0, 2) } else { n0 };
    let n2 = if v.speed_tenths > 120 { max_n(n1, 1) } else { n1 };
    let n3 = if risk_hint_spec(v) > 70 { max_n(n2, 3) } else { n2 };
    if n3 <= 6 { n3 } else { 6 }
}

/// The tugs a vessel needs are never more than six, at least the berth plan's count (up to
/// six), at least two for a draught over 13.5 m, one above 12 knots and three for a risk hint
/// over 70, and no more than the largest of those.
pub proof fn lemma_required_bounds(v: VesselSnapshot, berth: Option<BerthPlan>)
    ensures
        0 <= required_spec(v, berth) <= 6,
        berth matches Some(p) ==> required_spec(v, berth) >= if p.required_tugs <= 6 { p.required_tugs as int } else { 6 },
        v.draught_cm > 1350 ==> required_spec(v, berth) >= 2,
        v.speed_tenths > 120 ==> required_spec(v, berth) >= 1,
        risk_hint_spec(v) > 70 ==> required_spec(v, berth) >= 3,
        ({
            let b: int = match berth { Some(p) => p.required_tugs as int, None => 0 };
            let n = required_spec(v, berth);
            n == b || (v.draught_cm > 1350 && n == 2) || (v.speed_tenths > 120 && n == 1)
                || (risk_hint_spec(v) > 70 && n == 3) || n == 6
        }),
{
}

/// How many tugs a vessel needs.
pub fn required_tugs(vessel: &VesselSnapshot, berth: Option<&BerthPlan>) -> (n: usize)
    ensures
        n == required_spec(*vessel, match berth { Some(p) => Some(*p), None => None }),
{
    let mut needed: usize = match berth {
        Some(plan) => plan.required_tugs as usize,
        None => 0,
    };
    if vessel.draught_cm > 1350 && needed < 2 {
        needed = 2;
    }
    if vessel.speed_tenths > 120 && needed < 1 {
        needed = 1;
    }
    if vessel.risk_hint() > 70 && needed < 3 {
        needed = 3;
    }
    if needed > 6 { 6 } else { needed }
}

/// Why tugs are assigned: risk, the berth plan, draught, or plain movement.
pub open spec fn reason_spec(v: VesselSnapshot, berth: Option<BerthPlan>) -> &'static str {
    if risk_hint_spec(v) > 70 {
        "risk"
    } else if (match berth { Some(p) => p.required_tugs > 0, None => false }) {
        "berth"
    } else if v.draught_cm > 1350 {
        "draught"
    } else {
        "movement"
    }
}

/// Why tugs are assigned to a vessel.
pub fn assignment_reason(vessel: &VesselSnapshot, berth: Option<&BerthPlan>) -> (r: &'static str)
    ensures r == reason_spec(*vessel, match berth { Some(p) => Some(*p), None => None }),
{
    if vessel.risk_hint() > 70 {
        "risk"
    } else if match berth { Some(plan) => plan.required_tugs > 0, None => false } {
        "berth"
    } else if vessel.draught_cm > 1350 {
        "draught"
    } else {
        "movement"
    }
}

/// The standard fleet.
pub open spec fn default_fleet() -> Seq<TugAsset> {
    seq![
        TugAsset { code: 101, class: TugClass::Harbor, bollard_pull_tonnes: 42, home_berth: BerthId(0x0601), available_from: Timestamp(0) },
        TugAsset { code: 102, class: TugClass::Harbor, bollard_pull_tonnes: 44, home_berth: BerthId(0x0601), available_from: Timestamp(0) },
        TugAsset { code: 201, class: TugClass::Escort, bollard_pull_tonnes: 78, home_berth: BerthId(0x0602), available_from: Timestamp(0) },
        TugAsset { code: 202, class: TugClass::Escort, bollard_pull_tonnes: 82, home_berth: BerthId(0x0602), available_from: Timestamp(0) },
        TugAsset { code: 301, class: TugClass::Firefighting, bollard_pull_tonnes: 64, home_berth: BerthId(0x0801), available_from: Timestamp(0) },
        TugAsset { code: 401, class: TugClass::Salvage, bollard_pull_tonnes: 120, home_berth: BerthId(0x0802), available_from: Timestamp(0) },
    ]
}

/// The standard fleet.
pub fn default_assets() -> (v: Vec<TugAsset>)
    ensures v@ == default_fleet(),
{
    let mut v: Vec<TugAsset> = Vec::new();
    v.push(TugAsset { code: 101, class: TugClass::Harbor, bollard_pull_tonnes: 42, home_berth: BerthId(0x0601), available_from: Timestamp(0) });
    v.push(TugAsset { code: 102, class: TugClass::Harbor, bollard_pull_tonnes: 44, home_berth: BerthId(0x0601), available_from: Timestamp(0) });
    v.push(TugAsset { code: 201, class: TugClass::Escort, bollard_pull_tonnes: 78, home_berth: BerthId(0x0602), available_from: Timestamp(0) });
    v.push(TugAsset { code: 202, class: TugClass::Escort, bollard_pull_tonnes: 82, home_berth: BerthId(0x0602), available_from: Timestamp(0) });
    v.push(TugAsset { code: 301, class: TugClass::Firefighting, bollard_pull_tonnes: 64, home_berth: BerthId(0x0801), available_from: Timestamp(0) });
    v.push(TugAsset { code: 401, class: TugClass::Salvage, bollard_pull_tonnes: 120, home_berth: BerthId(0x0802), available_from: Timestamp(0) });
    proof { assert(v@ =~= default_fleet()); }
    v
}

/// Tug `code` has no assignment overlapping `[start, end)`.
pub open spec fn tug_free(asgs: Seq<TugAssignment>, code: u16, start: Timestamp, end: Timestamp) -> bool {
    forall|i: int| 0 <= i < asgs.len() ==> (#[trigger] asgs[i]).tug_code != code
        || asgs[i].ends_at.0 <= start.0 || asgs[i].starts_at.0 >= end.0
}

/// Assigning tugs in fleet order until `needed` are assigned: each tug that is free over
/// `[start, end)` and available from `start` on is booked.
pub open spec fn plan_run(
    asgs: Seq<TugAssignment>,
    assets: Seq<TugAsset>,
    needed: int,
    done: int,
    vessel: VesselId,
    start: Timestamp,
    end: Timestamp,
    reason: &'static str,
) -> (Seq<TugAssignment>, int)
    decreases assets.len(),
{
    if assets.len() == 0 || done >= needed {
        (asgs, done)
    } else {
        let a = assets[0];
        if tug_free(asgs, a.code, start, end) && a.available_from.0 <= start.0 {
            let t = TugAssignment { vessel, tug_code: a.code, starts_at: start, ends_at: end, reason };
            plan_run(asgs.push(t), assets.drop_first(), needed, done + 1, vessel, start, end, reason)
        } else {
            plan_run(asgs, assets.drop_first(), needed, done, vessel, start, end, reason)
        }
    }
}

/// No two assignments of the same tug overlap in time.
pub open spec fn bookings_apart(asgs: Seq<TugAssignment>) -> bool {
    forall|i: int, j: int| 0 <= i < j < asgs.len() && (#[trigger] asgs[i]).tug_code == (#[trigger] asgs[j]).tug_code ==>
        asgs[i].ends_at.0 <= asgs[j].starts_at.0 || asgs[j].ends_at.0 <= asgs[i].starts_at.0
}

/// Planning never double-books a tug: if no tug's assignments overlapped before, none do
/// after.
pub proof fn lemma_plan_keeps_bookings_apart(
    asgs: Seq<TugAssignment>,
    assets: Seq<TugAsset>,
    needed: int,
    done: int,
    vessel: VesselId,
    start: Timestamp,
    end: Timestamp,
    reason: &'static str,
)
    requires bookings_apart(asgs),
    ensures bookings_apart(plan_run(asgs, assets, needed, done, vessel, start, end, reason).0),
    decreases assets.len(),
{
    if !(assets.len() == 0 || done >= needed) {
        let a = assets[0];
        if tug_free(asgs, a.code, start, end) && a.available_from.0 <= start.0 {
            let t = TugAssignment { vessel, tug_code: a.code, starts_at: start, ends_at: end, reason };
            let n = asgs.push(t);
            assert forall|i: int, j: int| 0 <= i < j < n.len() && (#[trigger] n[i]).tug_code == (#[trigger] n[j]).tug_code implies
                n[i].ends_at.0 <= n[j].starts_at.0 || n[j].ends_at.0 <= n[i].starts_at.0 by {
                if j == asgs.len() {
                    assert(n[i] == asgs[i]);
                } else {
                    assert(n[i] == asgs[i] && n[j] == asgs[j]);
                }
            }
            lemma_plan_keeps_bookings_apart(n, assets.drop_first(), needed, done + 1, vessel, start, end, reason);
        } else {
            lemma_plan_keeps_bookings_apart(asgs, assets.drop_first(), needed, done, vessel, start, end, reason);
        }
    }
}

/// Planning books at most the tugs still needed, appends one assignment per tug booked and
/// leaves the assignments before alone; each new assignment is of the vessel over the span,
/// with a tug of the fleet that is available from the span's start.
pub proof fn lemma_plan_shape(
    asgs: Seq<TugAssignment>,
    assets: Seq<TugAsset>,
    needed: int,
    done: int,
    vessel: VesselId,
    start: Timestamp,
    end: Timestamp,
    reason: &'static str,
)
    requires done <= needed,
    ensures ({
        let (out, d2) = plan_run(asgs, assets, needed, done, vessel, start, end, reason);
        &&& done <= d2 <= needed
        &&& out.len() == asgs.len() + (d2 - done)
        &&& out.take(asgs.len() as int) == asgs
        &&& forall|k: int| asgs.len() <= k < out.len() ==> {
            &&& (#[trigger] out[k]).vessel == vessel
            &&& out[k].starts_at == start && out[k].ends_at == end
            &&& exists|m: int| 0 <= m < assets.len() && assets[m].code == out[k].tug_code && assets[m].available_from.0 <= start.0
        }
    }),
    decreases assets.len(),
{
    if assets.len() == 0 || done >= needed {
        assert(asgs.take(asgs.len() as int) =~= asgs);
    } else {
        let a = assets[0];
        let rest = assets.drop_first();
        if tug_free(asgs, a.code, start, end) && a.available_from.0 <= start.0 {
            let t = TugAssignment { vessel, tug_code: a.code, starts_at: start, ends_at: end, reason };
            let n = asgs.push(t);
            lemma_plan_shape(n, rest, needed, done + 1, vessel, start, end, reason);
            let (out, d2) = plan_run(n, rest, needed, done + 1, vessel, start, end, reason);
            assert(out.take(asgs.len() as int) =~= out.take(n.len() as int).take(asgs.len() as int));
            assert(n.take(asgs.len() as int) =~= asgs);
            assert forall|k: int| asgs.len() <= k < out.len() implies {
                &&& (#[trigger] out[k]).vessel == vessel
                &&& out[k].starts_at == start && out[k].ends_at == end
                &&& exists|m: int| 0 <= m < assets.len() && assets[m].code == out[k].tug_code && assets[m].available_from.0 <= start.0
            } by {
                if k == asgs.len() {
                    assert(out[k] == out.take(n.len() as int)[k]);
                    assert(out[k] == t);
                    assert(assets[0].code == out[k].tug_code);
                } else {
                    let m = choose|m: int| 0 <= m < rest.len() && rest[m].code == out[k].tug_code && rest[m].available_from.0 <= start.0;
                    assert(assets[m + 1] == rest[m]);
                }
            }
        } else {
            lemma_plan_shape(asgs, rest, needed, done, vessel, start, end, reason);
            let (out, d2) = plan_run(asgs, rest, needed, done, vessel, start, end, reason);
            assert forall|k: int| asgs.len() <= k < out.len() implies {
                &&& (#[trigger] out[k]).vessel == vessel
                &&& out[k].starts_at == start && out[k].ends_at == end
                &&& exists|m: int| 0 <= m < assets.len() && assets[m].code == out[k].tug_code && assets[m].available_from.0 <= start.0
            } by {
                let m = choose|m: int| 0 <= m < rest.len() && rest[m].code == out[k].tug_code && rest[m].available_from.0 <= start.0;
                assert(assets[m + 1] == rest[m]);
            }
        }
    }
}

/// Planning that books fewer tugs than needed has booked every tug of the fleet that was free
/// over the span and available from its start: each tug it left out was busy with an
/// assignment there before, or not yet available, or was booked.
pub proof fn lemma_plan_books_what_it_can(
    asgs: Seq<TugAssignment>,
    assets: Seq<TugAsset>,
    needed: int,
    done: int,
    vessel: VesselId,
    start: Timestamp,
    end: Timestamp,
    reason: &'static str,
)
    requires done <= needed,
    ensures ({
        let (out, d2) = plan_run(asgs, assets, needed, done, vessel, start, end, reason);
        d2 < needed ==> forall|m: int| 0 <= m < assets.len() ==> {
            ||| exists|k: int| asgs.len() <= k < out.len() && (#[trigger] out[k]).tug_code == assets[m].code
            ||| !tug_free(asgs, (#[trigger] assets[m]).code, start, end)
            ||| assets[m].available_from.0 > start.0
        }
    }),
    decreases assets.len(),
{
    if !(assets.len() == 0 || done >= needed) {
        let a = assets[0];
        let rest = assets.drop_first();
        if tug_free(asgs, a.code, start, end) && a.available_from.0 <= start.0 {
            let t = TugAssignment { vessel, tug_code: a.code, starts_at: start, ends_at: end, reason };
            let n = asgs.push(t);
            lemma_plan_books_what_it_can(n, rest, needed, done + 1, vessel, start, end, reason);
            lemma_plan_shape(n, rest, needed, done + 1, vessel, start, end, reason);
            let (out, d2) = plan_run(n, rest, needed, done + 1, vessel, start, end, reason);
            assert(out[asgs.len() as int] == out.take(n.len() as int)[asgs.len() as int]);
            assert(out[asgs.len() as int] == t);
            if d2 < needed {
                assert forall|m: int| 0 <= m < assets.len() implies {
                    ||| exists|k: int| asgs.len() <= k < out.len() && (#[trigger] out[k]).tug_code == assets[m].code
                    ||| !tug_free(asgs, (#[trigger] assets[m]).code, start, end)
                    ||| assets[m].available_from.0 > start.0
                } by {
                    if m == 0 {
                        assert(out[asgs.len() as int].tug_code == assets[0].code);
                    } else {
                        assert(assets[m] == rest[m - 1]);
                        let c = rest[m - 1].code;
                        if !tug_free(n, c, start, end) {
                            let i = choose|i: int| 0 <= i < n.len() && !((#[trigger] n[i]).tug_code != c
                                || n[i].ends_at.0 <= start.0 || n[i].starts_at.0 >= end.0);
                            if i < asgs.len() {
                                assert(n[i] == asgs[i]);
                                assert(!tug_free(asgs, c, start, end));
                            } else {
                                assert(out[asgs.len() as int].tug_code == c);
                            }
                        }
                    }
                }
            }
        } else {
            lemma_plan_books_what_it_can(asgs, rest, needed, done, vessel, start, end, reason);
            let (out, d2) = plan_run(asgs, rest, needed, done, vessel, start, end, reason);
            if d2 < needed {
                assert forall|m: int| 0 <= m < assets.len() implies {
                    ||| exists|k: int| asgs.len() <= k < out.len() && (#[trigger] out[k]).tug_code == assets[m].code
                    ||| !tug_free(asgs, (#[trigger] assets[m]).code, start, end)
                    ||| assets[m].available_from.0 > start.0
                } by {
                    if m > 0 { assert(assets[m] == rest[m - 1]); }
                }
            }
        }
    }
}

/// When tugs are needed from: pilot boarding, else half an hour before the berth plan starts,
/// else the vessel's report time.
pub open spec fn plan_start(v: VesselSnapshot, berth: Option<BerthPlan>, pilot: Option<PilotOrder>) -> Timestamp {
    match pilot {
        Some(p) => p.boarding_time,
        None => match berth {
            Some(b) => Timestamp(sat_sub64(b.start.0, 1800)),
            None => v.timestamp,
        },
    }
}

/// Until when tugs are needed: the berth plan's end, else two hours after the start.
pub open spec fn plan_end(start: Timestamp, berth: Option<BerthPlan>) -> Timestamp {
    match berth {
        Some(b) => b.end,
        None => Timestamp(sat_add64(start.0, 7200)),
    }
}

/// Sum of the assignments' lengths.
pub open spec fn booked_total(s: Seq<TugAssignment>) -> int
    decreases s.len(),
{
    if s.len() == 0 { 0 } else { booked_total(s.drop_last()) + sat_sub64(s.last().ends_at.0, s.last().starts_at.0) }
}

/// Per-tug totals are keyed by tug code.
pub open spec fn tug_key() -> spec_fn((u16, u64)) -> int {
    |p: (u16, u64)| p.0 as int
}

/// Booked seconds per tug, by ascending tug code.
pub open spec fn utilization_spec(s: Seq<TugAssignment>) -> Seq<(u16, u64)>
    decreases s.len(),
{
    if s.len() == 0 {
        Seq::empty()
    } else {
        let prev = utilization_spec(s.drop_last());
        let a = s.last();
        let before = match find_by(prev, a.tug_code as int, tug_key()) { Some(p) => p.1 as int, None => 0 };
        upsert_by(prev, (a.tug_code, (before + sat_sub64(a.ends_at.0, a.starts_at.0)) as u64), tug_key())
    }
}

impl TugPlanner {
    /// The fleet.
    pub closed spec fn fleet(&self) -> Seq<TugAsset> {
        self.assets@
    }

    /// The assignments made, in order.
    pub closed spec fn booked(&self) -> Seq<TugAssignment> {
        self.assignments@
    }

    pub fn new(assets: Vec<TugAsset>) -> (p: Self)
        ensures p.fleet() == assets@, p.booked().len() == 0,
    {
        TugPlanner { assets, assignments: Vec::new() }
    }

    pub fn assignments(&self) -> (a: &[TugAssignment])
        ensures a@ == self.booked(),
    {
        self.assignments.as_slice()
    }

    /// Books tugs for a vessel: as many as it needs, in fleet order, among those free over the
    /// time it needs them; the number booked.
    pub fn plan_for(&mut self, vessel: &VesselSnapshot, berth: Option<&BerthPlan>, pilot: Option<&PilotOrder>) -> (n: usize)
        ensures
            ({
                let b = match berth { Some(p) => Some(*p), None => None };
                let pl = match pilot { Some(p) => Some(*p), None => None };
                let needed = required_spec(*vessel, b);
                let start = plan_start(*vessel, b, pl);
                let end = plan_end(start, b);
                let (asgs, done) = plan_run(old(self).booked(), old(self).fleet(), needed, 0, vessel.id, start, end,
                    reason_spec(*vessel, b));
                &&& final(self).fleet() == old(self).fleet()
                &&& needed == 0 ==> n == 0 && final(self).booked() == old(self).booked()
                &&& needed > 0 ==> n == done && final(self).booked() == asgs
            }),
    {
        let ghost b = match berth { Some(p) => Some(*p), None => None };
        let ghost pl = match pilot { Some(p) => Some(*p), None => None };
        let needed = required_tugs(vessel, berth);
        if needed == 0 {
            return 0;
        }
        let start = match pilot {
            Some(order) => order.boarding_time,
            None => match berth {
                Some(plan) => plan.start.saturating_sub(1800),
                None => vessel.timestamp,
            },
        };
        let end = match berth {
            Some(plan) => plan.end,
            None => start.saturating_add(7200),
        };
        let reason = assignment_reason(vessel, berth);
        let mut assigned: usize = 0;
        let mut i: usize = 0;
        let ghost total = plan_run(self.assignments@, self.assets@, needed as int, 0, vessel.id, start, end, reason);
        proof { assert(self.assets@.skip(0) =~= self.assets@); }
        while i < self.assets.len() && assigned < needed
            invariant
                0 <= i <= self.assets@.len(),
                self.assets@ == old(self).fleet(),
                assigned <= i,
                needed > 0,
                needed as int == required_spec(*vessel, b),
                start == plan_start(*vessel, b, pl),
                end == plan_end(start, b),
                reason == reason_spec(*vessel, b),
                total == plan_run(old(self).booked(), old(self).fleet(), needed as int, 0, vessel.id, start, end, reason),
                plan_run(self.assignments@, self.assets@.skip(i as int), needed as int, assigned as int, vessel.id, start, end, reason) == total,
            decreases self.assets@.len() - i,
        {
            let asset = self.assets[i];
            proof {
                assert(self.assets@.skip(i as int)[0] == asset);
                assert(self.assets@.skip(i as int).drop_first() =~= self.assets@.skip(i + 1));
            }
            if self.is_available(asset.code, start, end) && asset.available_from.0 <= start.0 {
                self.assignments.push(TugAssignment { vessel: vessel.id, tug_code: asset.code, starts_at: start, ends_at: end, reason });
                assigned = assigned + 1;
            }
            i = i + 1;
        }
        proof {
            if assigned < needed {
                assert(self.assets@.skip(i as int) =~= Seq::<TugAsset>::empty());
            }
        }
        assigned
    }

    /// Tug `tug_code` has no assignment overlapping `[start, end)`.
    pub fn is_available(&self, tug_code: u16, start: Timestamp, end: Timestamp) -> (b: bool)
        ensures b == tug_free(self.booked(), tug_code, start, end),
    {
        let mut i: usize = 0;
        while i < self.assignments.len()
            invariant
                0 <= i <= self.assignments@.len(),
                forall|j: int| 0 <= j < i ==> (#[trigger] self.assignments@[j]).tug_code != tug_code
                    || self.assignments@[j].ends_at.0 <= start.0 || self.assignments@[j].starts_at.0 >= end.0,
            decreases self.assignments@.len() - i,
        {
            let a = self.assignments[i];
            if !(a.tug_code != tug_code || a.ends_at.0 <= start.0 || a.starts_at.0 >= end.0) {
                return false;
            }
            i = i + 1;
        }
        true
    }

    /// Booked seconds per tug, by ascending tug code.
    pub fn utilization_by_tug(&self) -> (r: Vec<(u16, u64)>)
        requires booked_total(self.booked()) <= u64::MAX,
        ensures r@ == utilization_spec(self.booked()), key_sorted(r@, tug_key()),
    {
        let mut out: Vec<(u16, u64)> = Vec::new();
        let mut i: usize = 0;
        while i < self.assignments.len()
            invariant
                0 <= i <= self.assignments@.len(),
                booked_total(self.assignments@) <= u64::MAX,
                out@ == utilization_spec(self.assignments@.take(i as int)),
            decreases self.assignments@.len() - i,
        {
            let ghost pre = self.assignments@.take(i as int);
            proof {
                assert(self.assignments@.take(i + 1).drop_last() =~= pre);
                assert(self.assignments@.take(i + 1).last() == self.assignments@[i as int]);
                lemma_booked_prefix(self.assignments@, i + 1);
                lemma_utilization_bounded(pre);
                lemma_find_none(out@, self.assignments@[i as int].tug_code as int, tug_key());
            }
            let a = self.assignments[i];
            let span = a.ends_at.0.saturating_sub(a.starts_at.0);
            add_tug_span(&mut out, a.tug_code, span);
            i = i + 1;
        }
        proof {
            assert(self.assignments@.take(i as int) =~= self.assignments@);
            lemma_utilization_bounded(self.assignments@);
        }
        out
    }
}

/// Adds `span` seconds to tug `code`'s total, inserting it in code order if it has none yet.
fn add_tug_span(out: &mut Vec<(u16, u64)>, code: u16, span: u64)
    requires
        key_sorted(old(out)@, tug_key()),
        (match find_by(old(out)@, code as int, tug_key()) { Some(p) => p.1 as int, None => 0 }) + span <= u64::MAX,
    ensures
        final(out)@ == upsert_by(old(out)@, (code,
            ((match find_by(old(out)@, code as int, tug_key()) { Some(p) => p.1 as int, None => 0 }) + span) as u64), tug_key()),
{
    let ghost s = out@;
    let mut p: usize = 0;
    while p < out.len() && out[p].0 < code
        invariant
            0 <= p <= out@.len(),
            out@ == s,
            key_sorted(s, tug_key()),
            forall|j: int| 0 <= j < p ==> (#[trigger] s[j]).0 < code,
        decreases out@.len() - p,
    {
        p = p + 1;
    }
    proof {
        assert forall|j: int| p <= j < s.len() implies (#[trigger] s[j]).0 >= code by {
            if j > p { assert(tug_key()(s[p as int]) < tug_key()(s[j])); }
        }
        assert(key_split(s, code as int, p as int, tug_key()));
    }
    if p < out.len() && out[p].0 == code {
        proof { lemma_find_sorted(s, code as int, tug_key(), p as int); }
        let total = out[p].1 + span;
        proof { lemma_upsert_sorted(s, (code, total), tug_key(), p as int); }
        out.set(p, (code, total));
    } else {
        proof {
            lemma_find_none(s, code as int, tug_key());
            if find_by(s, code as int, tug_key()) is Some {
                let j = choose|j: int| 0 <= j < s.len() && tug_key()(#[trigger] s[j]) == code as int;
                if j < p { assert(s[j].0 < code); } else if j > p { assert(tug_key()(s[p as int]) < tug_key()(s[j])); }
            }
            lemma_upsert_sorted(s, (code, span), tug_key(), p as int);
        }
        out.insert(p, (code, span));
    }
}

/// The per-tug totals are in tug-code order and none exceeds the total booked.
proof fn lemma_utilization_bounded(s: Seq<TugAssignment>)
    requires booked_total(s) <= u64::MAX,
    ensures
        0 <= booked_total(s),
        key_sorted(utilization_spec(s), tug_key()),
        forall|j: int| 0 <= j < utilization_spec(s).len() ==> (#[trigger] utilization_spec(s)[j]).1 <= booked_total(s),
    decreases s.len(),
{
    if s.len() > 0 {
        let prev = utilization_spec(s.drop_last());
        lemma_utilization_bounded(s.drop_last());
        let a = s.last();
        lemma_find_none(prev, a.tug_code as int, tug_key());
        let before = match find_by(prev, a.tug_code as int, tug_key()) { Some(p) => p.1 as int, None => 0 };
        let x = (a.tug_code, (before + sat_sub64(a.ends_at.0, a.starts_at.0)) as u64);
        lemma_find_after_upsert(prev, x, tug_key(), 0);
        lemma_upsert_elems(prev, x, tug_key());
        let span = sat_sub64(a.ends_at.0, a.starts_at.0);
        assert(booked_total(s) == booked_total(s.drop_last()) + span);
        assert(before <= booked_total(s.drop_last())) by {
            match find_by(prev, a.tug_code as int, tug_key()) {
                Some(q) => {
                    assert(prev.contains(q));
                    let k = choose|k: int| 0 <= k < prev.len() && prev[k] == q;
                    assert(prev[k].1 <= booked_total(s.drop_last()));
                    assert(before == q.1);
                },
                None => {},
            }
        }
        let n = utilization_spec(s);
        assert(n == upsert_by(prev, x, tug_key()));
        assert forall|j: int| 0 <= j < n.len() implies (#[trigger] n[j]).1 <= booked_total(s) by {
            if n[j] != x {
                let k = choose|k: int| 0 <= k < prev.len() && prev[k] == n[j];
                assert(prev[k].1 <= booked_total(s.drop_last()));
            }
        }
    }
}

proof fn lemma_booked_prefix(s: Seq<TugAssignment>, n: int)
    requires 0 <= n <= s.len(),
    ensures booked_total(s.take(n)) <= booked_total(s),
    decreases s.len() - n,
{
    if n < s.len() {
        assert(s.take(n + 1).drop_last() =~= s.take(n));
        lemma_booked_prefix(s, n + 1);
    } else {
        assert(s.take(n) =~= s);
    }
}

impl Default for TugPlanner {
    fn default() -> (p: Self)
        ensures p.fleet().len() == 0, p.booked().len() == 0,
    {
        TugPlanner { assets: Vec::new(), assignments: Vec::new() }
    }
}

} // verus!
