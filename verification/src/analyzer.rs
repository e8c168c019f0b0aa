use vstd::prelude::*;
use crate::berth::{compact_schedule, find_conflicts, overlap_at, dedup_bookings, schedule_keys};
use crate::cargo::{conflict_pairs, incompatible_at};
use crate::catalog::berths::{berth_rows, find_berth, lookup_berth};
use crate::catalog::hazmat::{hazmat_rows, find_un, lookup_un_number};
use crate::error::ParseResult;
use crate::model::{BerthPlan, CargoLot, ExchangeStats, Finding, FindingSeverity, FindingView, HarborEvent, PilotOrder,
    PortSnapshot, RouteLeg, RouteLegKind, TideWindow, VesselId, VesselSnapshot, berth_text, vessel_text,
    event_total, event_vessel, finding_view, finding_views, first_vessel, first_berth, hazard_weight, hazard_score_spec,
    leg_of, lot_of, low_water, risk_hint_spec, risk_score_spec, sat_add32};
use crate::route::{density_spec, route_density};
use crate::session::StreamSummary;
use crate::sort::{pair_rows, sorted_with, lemma_pair_rows_contains};
use crate::text::{dec_text, push_dec, push_str, string_from_chars};
use crate::tide::{best_spec, best_window};
use crate::validate::{fv, weight_total, only_if};

verus! {

/// What an exchange comes to: stream id, counters, event count, risk score, findings and the
/// number of materialized names.
#[derive(Debug, Clone)]
pub struct HarborReport {
    pub stream_id: u16,
    pub stats: ExchangeStats,
    pub event_count: usize,
    pub risk_score: u32,
    pub findings: Vec<Finding>,
    pub materialized_names: usize,
}

/// The berth plans in schedule order without repeated bookings.
pub open spec fn compacted(berths: Seq<BerthPlan>) -> Seq<BerthPlan> {
    dedup_bookings(sorted_with(schedule_keys(berths), berths))
}

/// The finding for a pair of overlapping plans of `c`.
pub open spec fn overlap_finding(c: Seq<BerthPlan>) -> spec_fn((usize, usize)) -> FindingView {
    |p: (usize, usize)| fv(FindingSeverity::High, "berth-overlap", Some(c[p.0 as int].vessel),
        vessel_text(c[p.0 as int].vessel) + " overlaps "@ + vessel_text(c[p.1 as int].vessel) + " at "@
            + berth_text(c[p.0 as int].berth))
}

/// A finding for each pair of overlapping plans of the compacted schedule.
pub open spec fn berth_conflict_findings(berths: Seq<BerthPlan>) -> Seq<FindingView> {
    let c = compacted(berths);
    pair_rows(c.len() as int, c.len() as int, overlap_at(c)).map_values(overlap_finding(c))
}

/// The finding for a pair of incompatible lots of `s`.
pub open spec fn cargo_finding(s: Seq<CargoLot>) -> spec_fn((usize, usize)) -> FindingView {
    |p: (usize, usize)| fv(FindingSeverity::Medium, "cargo-separation", Some(s[p.0 as int].vessel),
        "UN"@ + dec_text(s[p.0 as int].un_number as nat) + " conflicts with UN"@ + dec_text(s[p.1 as int].un_number as nat))
}

/// A finding for each pair of incompatible lots.
pub open spec fn cargo_conflict_findings(cargo: Seq<CargoLot>) -> Seq<FindingView> {
    pair_rows(cargo.len() as int, cargo.len() as int, incompatible_at(cargo)).map_values(cargo_finding(cargo))
}

/// Findings for the plans of `berths` booked for `v` whose basin (the berth's zone) has no
/// suitable tide window within the plan's span.
pub open spec fn tide_row(v: VesselSnapshot, berths: Seq<BerthPlan>, tides: Seq<TideWindow>) -> Seq<FindingView>
    decreases berths.len(),
{
    if berths.len() == 0 {
        Seq::empty()
    } else {
        let b = berths.last();
        tide_row(v, berths.drop_last(), tides)
            + only_if(b.vessel == v.id && best_spec(tides, (b.berth.0 / 0x100) as u16, b.start, b.end, v.draught_cm) is None,
                fv(FindingSeverity::Medium, "missing-tide-window", Some(v.id),
                    vessel_text(v.id) + " lacks tide support for berth "@ + berth_text(b.berth)))
    }
}

/// Tide findings, vessel by vessel.
pub open spec fn tide_findings(vs: Seq<VesselSnapshot>, berths: Seq<BerthPlan>, tides: Seq<TideWindow>) -> Seq<FindingView>
    decreases vs.len(),
{
    if vs.len() == 0 { Seq::empty() } else { tide_findings(vs.drop_last(), berths, tides) + tide_row(vs.last(), berths, tides) }
}

/// Findings for the legs of `v`: a low-water point, and a berth entry without a berth plan.
pub open spec fn leg_row(v: VesselSnapshot, legs: Seq<RouteLeg>, has_berth: bool) -> Seq<FindingView>
    decreases legs.len(),
{
    if legs.len() == 0 {
        Seq::empty()
    } else {
        let l = legs.last();
        leg_row(v, legs.drop_last(), has_berth)
            + only_if(low_water(l.points@, v.draught_cm), fv(FindingSeverity::High, "route-low-water", Some(v.id),
                "route "@ + dec_text(l.sequence as nat) + " has low-water point"@))
            + only_if(l.kind == RouteLegKind::BerthEntry && !has_berth, fv(FindingSeverity::Low, "entry-without-berth", Some(v.id),
                "route enters berth without berth plan"@))
    }
}

/// Leg findings, vessel by vessel.
pub open spec fn leg_findings(vs: Seq<VesselSnapshot>, routes: Seq<RouteLeg>, berths: Seq<BerthPlan>) -> Seq<FindingView>
    decreases vs.len(),
{
    if vs.len() == 0 {
        Seq::empty()
    } else {
        let v = vs.last();
        leg_findings(vs.drop_last(), routes, berths) + leg_row(v, routes.filter(leg_of(v.id)), first_berth(berths, v.id) is Some)
    }
}

/// Route findings: a density over 20,000, then the leg findings.
pub open spec fn route_analysis(vs: Seq<VesselSnapshot>, routes: Seq<RouteLeg>, berths: Seq<BerthPlan>) -> Seq<FindingView> {
    only_if(density_spec(routes) > 20_000, fv(FindingSeverity::Low, "route-density", None,
        "route density "@ + dec_text(density_spec(routes) as nat)))
        + leg_findings(vs, routes, berths)
}

/// The finding that a leg of vessel `id` enters a berth while the vessel has no berth plan.
pub open spec fn entry_finding(id: VesselId) -> FindingView {
    fv(FindingSeverity::Low, "entry-without-berth", Some(id), "route enters berth without berth plan"@)
}

/// An element of a concatenation is an element of one of its parts.
proof fn lemma_concat_contains<T>(a: Seq<T>, b: Seq<T>, x: T)
    ensures (a + b).contains(x) <==> a.contains(x) || b.contains(x),
{
    if (a + b).contains(x) {
        let i = choose|i: int| 0 <= i < (a + b).len() && (a + b)[i] == x;
        if i >= a.len() { assert(b[i - a.len()] == x); }
    }
    if a.contains(x) {
        let i = choose|i: int| 0 <= i < a.len() && a[i] == x;
        assert((a + b)[i] == x);
    }
    if b.contains(x) {
        let i = choose|i: int| 0 <= i < b.len() && b[i] == x;
        assert((a + b)[a.len() + i] == x);
    }
}

/// A filter keeps only elements of the sequence filtered.
proof fn lemma_filter_from<T>(s: Seq<T>, pred: spec_fn(T) -> bool, i: int)
    requires 0 <= i < s.filter(pred).len(),
    ensures s.contains(s.filter(pred)[i]),
    decreases s.len(),
{
    reveal_with_fuel(Seq::<_>::filter, 1);
    let d = s.drop_last();
    if pred(s.last()) && i == d.filter(pred).len() {
        assert(s.filter(pred)[i] == s[s.len() - 1]);
    } else {
        assert(s.filter(pred)[i] == d.filter(pred)[i]);
        lemma_filter_from(d, pred, i);
        let j = choose|j: int| 0 <= j < d.len() && d[j] == d.filter(pred)[i];
        assert(s[j] == d[j]);
    }
}

/// A vessel has no berth plan in `s` exactly when no plan of `s` is for it.
proof fn lemma_no_berth(s: Seq<BerthPlan>, id: VesselId)
    ensures first_berth(s, id) is None <==> forall|i: int| 0 <= i < s.len() ==> (#[trigger] s[i]).vessel != id,
    decreases s.len(),
{
    if s.len() > 0 {
        lemma_no_berth(s.drop_first(), id);
        assert forall|i: int| 1 <= i < s.len() implies #[trigger] s[i] == s.drop_first()[i - 1] by {}
        if first_berth(s, id) is None {
            assert forall|i: int| 0 <= i < s.len() implies (#[trigger] s[i]).vessel != id by {
                if i > 0 { assert(s.drop_first()[i - 1].vessel != id); }
            }
        }
        if forall|i: int| 0 <= i < s.len() ==> (#[trigger] s[i]).vessel != id {
            assert(s[0].vessel != id);
            assert forall|i: int| 0 <= i < s.drop_first().len() implies (#[trigger] s.drop_first()[i]).vessel != id by {
                assert(s.drop_first()[i] == s[i + 1]);
            }
        }
    }
}

/// The leg findings of vessel `v` hold the entry finding for `id` exactly when `id` is `v`'s,
/// `v` has no berth plan, and some leg is a berth entry; all of them are about `v`.
proof fn lemma_leg_row_entry(v: VesselSnapshot, legs: Seq<RouteLeg>, hb: bool, id: VesselId)
    ensures
        leg_row(v, legs, hb).contains(entry_finding(id))
            <==> id == v.id && !hb && exists|j: int| 0 <= j < legs.len() && (#[trigger] legs[j]).kind == RouteLegKind::BerthEntry,
    decreases legs.len(),
{
    if legs.len() > 0 {
        let d = legs.drop_last();
        let l = legs.last();
        lemma_leg_row_entry(v, d, hb, id);
        let a = leg_row(v, d, hb);
        let w1 = only_if(low_water(l.points@, v.draught_cm), fv(FindingSeverity::High, "route-low-water", Some(v.id),
            "route "@ + dec_text(l.sequence as nat) + " has low-water point"@));
        let w2 = only_if(l.kind == RouteLegKind::BerthEntry && !hb, entry_finding(v.id));
        lemma_concat_contains(a + w1, w2, entry_finding(id));
        lemma_concat_contains(a, w1, entry_finding(id));
        assert(!w1.contains(entry_finding(id)));
        if exists|j: int| 0 <= j < legs.len() && (#[trigger] legs[j]).kind == RouteLegKind::BerthEntry {
            let j = choose|j: int| 0 <= j < legs.len() && (#[trigger] legs[j]).kind == RouteLegKind::BerthEntry;
            if j < d.len() { assert(d[j] == legs[j]); }
        }
        if exists|j: int| 0 <= j < d.len() && (#[trigger] d[j]).kind == RouteLegKind::BerthEntry {
            let j = choose|j: int| 0 <= j < d.len() && (#[trigger] d[j]).kind == RouteLegKind::BerthEntry;
            assert(legs[j] == d[j]);
        }
        if w2.contains(entry_finding(id)) {
            assert(w2[0] == entry_finding(id));
            assert(legs[legs.len() - 1].kind == RouteLegKind::BerthEntry);
        }
    }
}

/// Vessel `id` has a leg that is a berth entry.
pub open spec fn has_entry_leg(routes: Seq<RouteLeg>, id: VesselId) -> bool {
    exists|j: int| 0 <= j < routes.len() && (#[trigger] routes[j]).vessel == id && routes[j].kind == RouteLegKind::BerthEntry
}

/// The leg findings hold the entry finding for `id` exactly when `id` is a vessel's, that
/// vessel has a leg entering a berth, and no berth plan is for it.
proof fn lemma_leg_findings_entry(vs: Seq<VesselSnapshot>, routes: Seq<RouteLeg>, berths: Seq<BerthPlan>, id: VesselId)
    ensures
        leg_findings(vs, routes, berths).contains(entry_finding(id))
            <==> (exists|k: int| 0 <= k < vs.len() && (#[trigger] vs[k]).id == id) && has_entry_leg(routes, id)
                && first_berth(berths, id) is None,
    decreases vs.len(),
{
    if vs.len() > 0 {
        let d = vs.drop_last();
        let v = vs.last();
        lemma_leg_findings_entry(d, routes, berths, id);
        let legs = routes.filter(leg_of(v.id));
        let hb = first_berth(berths, v.id) is Some;
        lemma_leg_row_entry(v, legs, hb, id);
        lemma_concat_contains(leg_findings(d, routes, berths), leg_row(v, legs, hb), entry_finding(id));
        if exists|j: int| 0 <= j < legs.len() && (#[trigger] legs[j]).kind == RouteLegKind::BerthEntry {
            let j = choose|j: int| 0 <= j < legs.len() && (#[trigger] legs[j]).kind == RouteLegKind::BerthEntry;
            routes.lemma_filter_pred(leg_of(v.id), j);
            lemma_filter_from(routes, leg_of(v.id), j);
            let q = choose|q: int| 0 <= q < routes.len() && routes[q] == legs[j];
            assert(routes[q].vessel == v.id && routes[q].kind == RouteLegKind::BerthEntry);
        }
        if id == v.id && has_entry_leg(routes, id) {
            let q = choose|q: int| 0 <= q < routes.len() && (#[trigger] routes[q]).vessel == id && routes[q].kind == RouteLegKind::BerthEntry;
            routes.lemma_filter_contains(leg_of(v.id), q);
            let j = choose|j: int| 0 <= j < legs.len() && legs[j] == routes[q];
            assert(legs[j].kind == RouteLegKind::BerthEntry);
        }
        if exists|k: int| 0 <= k < vs.len() && (#[trigger] vs[k]).id == id {
            let k = choose|k: int| 0 <= k < vs.len() && (#[trigger] vs[k]).id == id;
            if k < d.len() { assert(d[k] == vs[k]); }
        }
        if exists|k: int| 0 <= k < d.len() && (#[trigger] d[k]).id == id {
            let k = choose|k: int| 0 <= k < d.len() && (#[trigger] d[k]).id == id;
            assert(vs[k] == d[k]);
        }
        assert(vs[vs.len() - 1] == v);
    }
}

/// Route analysis reports that vessel `id` enters a berth without a berth plan exactly when
/// `id` is one of the vessels, some leg of that vessel is a berth entry, and no berth plan is
/// for that vessel; the report of a snapshot then holds that finding.
pub proof fn lemma_entry_without_berth(vs: Seq<VesselSnapshot>, routes: Seq<RouteLeg>, berths: Seq<BerthPlan>, id: VesselId)
    ensures
        route_analysis(vs, routes, berths).contains(entry_finding(id))
            <==> (exists|k: int| 0 <= k < vs.len() && (#[trigger] vs[k]).id == id) && has_entry_leg(routes, id)
                && forall|b: int| 0 <= b < berths.len() ==> (#[trigger] berths[b]).vessel != id,
{
    lemma_leg_findings_entry(vs, routes, berths, id);
    lemma_no_berth(berths, id);
    let dens = only_if(density_spec(routes) > 20_000, fv(FindingSeverity::Low, "route-density", None,
        "route density "@ + dec_text(density_spec(routes) as nat)));
    lemma_concat_contains(dens, leg_findings(vs, routes, berths), entry_finding(id));
    assert(!dens.contains(entry_finding(id)));
}

/// A snapshot's analysis holds the finding that vessel `id` enters a berth without a berth
/// plan whenever `id` is one of its vessels, some leg of that vessel is a berth entry, and no
/// berth plan is for that vessel.
pub proof fn lemma_analysis_reports_entry(s: PortSnapshot, id: VesselId)
    requires
        exists|k: int| 0 <= k < s.vessels@.len() && (#[trigger] s.vessels@[k]).id == id,
        has_entry_leg(s.routes@, id),
        forall|b: int| 0 <= b < s.berths@.len() ==> (#[trigger] s.berths@[b]).vessel != id,
    ensures analysis_findings(s).contains(entry_finding(id)),
{
    lemma_entry_without_berth(s.vessels@, s.routes@, s.berths@, id);
    let a = berth_conflict_findings(s.berths@) + cargo_conflict_findings(s.cargo@) + tide_findings(s.vessels@, s.berths@, s.tides@);
    let r = route_analysis(s.vessels@, s.routes@, s.berths@);
    let rest = pilot_findings(s.vessels@, s.pilots@) + un_findings(s.cargo@) + unknown_berth_findings(s.berths@);
    lemma_concat_contains(a, r, entry_finding(id));
    assert(analysis_findings(s) =~= (a + r) + rest);
    lemma_concat_contains(a + r, rest, entry_finding(id));
}

/// Some order of `pilots` is for vessel `id`.
pub open spec fn has_pilot(pilots: Seq<PilotOrder>, id: VesselId) -> bool {
    exists|i: int| 0 <= i < pilots.len() && #[trigger] pilots[i].vessel == id
}

/// Findings for vessels with a risk hint over 40 and no pilot order.
pub open spec fn pilot_findings(vs: Seq<VesselSnapshot>, pilots: Seq<PilotOrder>) -> Seq<FindingView>
    decreases vs.len(),
{
    if vs.len() == 0 {
        Seq::empty()
    } else {
        let v = vs.last();
        pilot_findings(vs.drop_last(), pilots) + only_if(risk_hint_spec(v) > 40 && !has_pilot(pilots, v.id),
            fv(FindingSeverity::Medium, "pilotage-missing", Some(v.id), "high-risk vessel has no pilot order"@))
    }
}

/// Findings for hazardous lots whose UN number the catalog lacks.
pub open spec fn un_findings(cargo: Seq<CargoLot>) -> Seq<FindingView>
    decreases cargo.len(),
{
    if cargo.len() == 0 {
        Seq::empty()
    } else {
        let l = cargo.last();
        un_findings(cargo.drop_last()) + only_if(find_un(hazmat_rows(), l.un_number) is None && hazard_weight(l.hazard) > 0,
            fv(FindingSeverity::Info, "unknown-un-number", Some(l.vessel), "UN"@ + dec_text(l.un_number as nat) + " not in local catalog"@))
    }
}

/// Findings for berth plans whose berth the catalog lacks.
pub open spec fn unknown_berth_findings(berths: Seq<BerthPlan>) -> Seq<FindingView>
    decreases berths.len(),
{
    if berths.len() == 0 {
        Seq::empty()
    } else {
        let b = berths.last();
        unknown_berth_findings(berths.drop_last()) + only_if(find_berth(berth_rows(), b.berth) is None,
            fv(FindingSeverity::Info, "unknown-berth", Some(b.vessel), berth_text(b.berth) + " not in local berth catalog"@))
    }
}

/// All findings about a snapshot: berth conflicts, cargo conflicts, tide windows, routes,
/// pilotage, then catalog consistency.
pub open spec fn analysis_findings(s: PortSnapshot) -> Seq<FindingView> {
    berth_conflict_findings(s.berths@) + cargo_conflict_findings(s.cargo@)
        + tide_findings(s.vessels@, s.berths@, s.tides@) + route_analysis(s.vessels@, s.routes@, s.berths@)
        + pilot_findings(s.vessels@, s.pilots@) + un_findings(s.cargo@) + unknown_berth_findings(s.berths@)
}

/// Appends a finding built from its parts.
fn note(findings: &mut Vec<Finding>, severity: FindingSeverity, code: &'static str, vessel: Option<VesselId>, detail: Vec<char>)
    ensures finding_views(final(findings)@) == finding_views(old(findings)@).push(fv(severity, code, vessel, detail@)),
{
    let f = Finding::new(severity, code, vessel, string_from_chars(detail));
    findings.push(f);
    proof { assert(finding_views(findings@) =~= finding_views(old(findings)@).push(finding_view(f))); }
}

fn analyze_berth_conflicts(snapshot: &PortSnapshot, findings: &mut Vec<Finding>)
    ensures finding_views(final(findings)@) == finding_views(old(findings)@) + berth_conflict_findings(snapshot.berths@),
{
    let compact = compact_schedule(snapshot.berths.as_slice());
    let pairs = find_conflicts(compact.as_slice());
    let ghost c = compact@;
    let n = compact.len();
    let ghost f0 = finding_views(findings@);
    let mut k: usize = 0;
    proof { assert(f0 + pairs@.take(0).map_values(overlap_finding(c)) =~= f0); }
    while k < pairs.len()
        invariant
            0 <= k <= pairs@.len(),
            c == compact@,
            n == c.len(),
            c == compacted(snapshot.berths@),
            pairs@ == pair_rows(c.len() as int, c.len() as int, overlap_at(c)),
            f0 == finding_views(old(findings)@),
            finding_views(findings@) == f0 + pairs@.take(k as int).map_values(overlap_finding(c)),
        decreases pairs@.len() - k,
    {
        let (left, right) = pairs[k];
        proof {
            assert(pairs@.contains((left, right)));
            lemma_pair_rows_contains(c.len() as int, c.len() as int, overlap_at(c), left, right);
        }
        let a = compact[left];
        let b = compact[right];
        let mut t: Vec<char> = Vec::new();
        let av = a.vessel.to_text();
        let bv = b.vessel.to_text();
        let ab = a.berth.to_text();
        push_str(&mut t, av.as_str());
        push_str(&mut t, " overlaps ");
        push_str(&mut t, bv.as_str());
        push_str(&mut t, " at ");
        push_str(&mut t, ab.as_str());
        note(findings, FindingSeverity::High, "berth-overlap", Some(a.vessel), t);
        proof {
            assert(pairs@.take(k + 1).map_values(overlap_finding(c))
                =~= pairs@.take(k as int).map_values(overlap_finding(c)).push(overlap_finding(c)(pairs@[k as int])));
        }
        k = k + 1;
    }
    proof { assert(pairs@.take(k as int) =~= pairs@); }
}

fn analyze_cargo_conflicts(snapshot: &PortSnapshot, findings: &mut Vec<Finding>)
    ensures finding_views(final(findings)@) == finding_views(old(findings)@) + cargo_conflict_findings(snapshot.cargo@),
{
    let pairs = conflict_pairs(snapshot.cargo.as_slice());
    let ghost s = snapshot.cargo@;
    let n = snapshot.cargo.len();
    let ghost f0 = finding_views(findings@);
    let mut k: usize = 0;
    proof { assert(f0 + pairs@.take(0).map_values(cargo_finding(s)) =~= f0); }
    while k < pairs.len()
        invariant
            0 <= k <= pairs@.len(),
            s == snapshot.cargo@,
            n == s.len(),
            pairs@ == pair_rows(s.len() as int, s.len() as int, incompatible_at(s)),
            f0 == finding_views(old(findings)@),
            finding_views(findings@) == f0 + pairs@.take(k as int).map_values(cargo_finding(s)),
        decreases pairs@.len() - k,
    {
        let (left, right) = pairs[k];
        proof {
            assert(pairs@.contains((left, right)));
            lemma_pair_rows_contains(s.len() as int, s.len() as int, incompatible_at(s), left, right);
        }
        let a = snapshot.cargo[left];
        let b = snapshot.cargo[right];
        let mut t: Vec<char> = Vec::new();
        push_str(&mut t, "UN");
        push_dec(&mut t, a.un_number as u64);
        push_str(&mut t, " conflicts with UN");
        push_dec(&mut t, b.un_number as u64);
        note(findings, FindingSeverity::Medium, "cargo-separation", Some(a.vessel), t);
        proof {
            assert(pairs@.take(k + 1).map_values(cargo_finding(s))
                =~= pairs@.take(k as int).map_values(cargo_finding(s)).push(cargo_finding(s)(pairs@[k as int])));
        }
        k = k + 1;
    }
    proof { assert(pairs@.take(k as int) =~= pairs@); }
}

fn analyze_tide_windows(snapshot: &PortSnapshot, findings: &mut Vec<Finding>)
    ensures
        finding_views(final(findings)@) == finding_views(old(findings)@)
            + tide_findings(snapshot.vessels@, snapshot.berths@, snapshot.tides@),
{
    let ghost f0 = finding_views(findings@);
    let mut i: usize = 0;
    proof { assert(f0 + tide_findings(snapshot.vessels@.take(0), snapshot.berths@, snapshot.tides@) =~= f0); }
    while i < snapshot.vessels.len()
        invariant
            0 <= i <= snapshot.vessels@.len(),
            f0 == finding_views(old(findings)@),
            finding_views(findings@) == f0 + tide_findings(snapshot.vessels@.take(i as int), snapshot.berths@, snapshot.tides@),
        decreases snapshot.vessels@.len() - i,
    {
        proof { assert(snapshot.vessels@.take(i + 1).drop_last() =~= snapshot.vessels@.take(i as int)); }
        let vessel = snapshot.vessels[i];
        let ghost g0 = finding_views(findings@);
        let mut j: usize = 0;
        proof { assert(g0 + tide_row(vessel, snapshot.berths@.take(0), snapshot.tides@) =~= g0); }
        while j < snapshot.berths.len()
            invariant
                0 <= j <= snapshot.berths@.len(),
                finding_views(findings@) == g0 + tide_row(vessel, snapshot.berths@.take(j as int), snapshot.tides@),
            decreases snapshot.berths@.len() - j,
        {
            proof { assert(snapshot.berths@.take(j + 1).drop_last() =~= snapshot.berths@.take(j as int)); }
            let berth = snapshot.berths[j];
            let ghost before = finding_views(findings@);
            if berth.vessel.0 == vessel.id.0 {
                let basin = berth.berth.zone() as u16;
                if best_window(snapshot.tides.as_slice(), basin, berth.start, berth.end, vessel.draught_cm).is_none() {
                    let mut t: Vec<char> = Vec::new();
                    let vt = vessel.id.to_text();
                    let bt = berth.berth.to_text();
                    push_str(&mut t, vt.as_str());
                    push_str(&mut t, " lacks tide support for berth ");
                    push_str(&mut t, bt.as_str());
                    note(findings, FindingSeverity::Medium, "missing-tide-window", Some(vessel.id), t);
                }
            }
            proof {
                let pre = tide_row(vessel, snapshot.berths@.take(j as int), snapshot.tides@);
                let w = only_if(berth.vessel == vessel.id
                    && best_spec(snapshot.tides@, (berth.berth.0 / 0x100) as u16, berth.start, berth.end, vessel.draught_cm) is None,
                    fv(FindingSeverity::Medium, "missing-tide-window", Some(vessel.id),
                        vessel_text(vessel.id) + " lacks tide support for berth "@ + berth_text(berth.berth)));
                assert(finding_views(findings@) =~= before + w);
                assert(g0 + pre + w =~= g0 + (pre + w));
            }
            j = j + 1;
        }
        proof {
            assert(snapshot.berths@.take(j as int) =~= snapshot.berths@);
            let pre = tide_findings(snapshot.vessels@.take(i as int), snapshot.berths@, snapshot.tides@);
            assert(f0 + pre + tide_row(vessel, snapshot.berths@, snapshot.tides@)
                =~= f0 + (pre + tide_row(vessel, snapshot.berths@, snapshot.tides@)));
        }
        i = i + 1;
    }
    proof { assert(snapshot.vessels@.take(i as int) =~= snapshot.vessels@); }
}

fn analyze_routes(snapshot: &PortSnapshot, findings: &mut Vec<Finding>)
    ensures
        finding_views(final(findings)@) == finding_views(old(findings)@)
            + route_analysis(snapshot.vessels@, snapshot.routes@, snapshot.berths@),
{
    let ghost f0 = finding_views(findings@);
    let density = route_density(snapshot.routes.as_slice());
    if density > 20_000 {
        let mut t: Vec<char> = Vec::new();
        push_str(&mut t, "route density ");
        push_dec(&mut t, density as u64);
        note(findings, FindingSeverity::Low, "route-density", None, t);
    }
    let ghost f1 = finding_views(findings@);
    let mut i: usize = 0;
    proof { assert(f1 + leg_findings(snapshot.vessels@.take(0), snapshot.routes@, snapshot.berths@) =~= f1); }
    while i < snapshot.vessels.len()
        invariant
            0 <= i <= snapshot.vessels@.len(),
            finding_views(findings@) == f1 + leg_findings(snapshot.vessels@.take(i as int), snapshot.routes@, snapshot.berths@),
        decreases snapshot.vessels@.len() - i,
    {
        proof { assert(snapshot.vessels@.take(i + 1).drop_last() =~= snapshot.vessels@.take(i as int)); }
        let vessel = snapshot.vessels[i];
        let legs = snapshot.routes_for(vessel.id);
        let ghost ls = legs@.map_values(|x: &RouteLeg| *x);
        let has_berth = snapshot.berth_for(vessel.id).is_some();
        let ghost g0 = finding_views(findings@);
        let mut j: usize = 0;
        proof { assert(g0 + leg_row(vessel, ls.take(0), has_berth) =~= g0); }
        while j < legs.len()
            invariant
                0 <= j <= legs@.len(),
                ls == legs@.map_values(|x: &RouteLeg| *x),
                finding_views(findings@) == g0 + leg_row(vessel, ls.take(j as int), has_berth),
            decreases legs@.len() - j,
        {
            proof { assert(ls.take(j + 1).drop_last() =~= ls.take(j as int)); }
            let leg = legs[j];
            let ghost before = finding_views(findings@);
            if leg.has_low_water(vessel.draught_cm) {
                let mut t: Vec<char> = Vec::new();
                push_str(&mut t, "route ");
                push_dec(&mut t, leg.sequence as u64);
                push_str(&mut t, " has low-water point");
                note(findings, FindingSeverity::High, "route-low-water", Some(vessel.id), t);
            }
            let ghost mid = finding_views(findings@);
            let entry = match leg.kind {
                RouteLegKind::BerthEntry => true,
                _ => false,
            };
            if entry && !has_berth {
                let mut t: Vec<char> = Vec::new();
                push_str(&mut t, "route enters berth without berth plan");
                note(findings, FindingSeverity::Low, "entry-without-berth", Some(vessel.id), t);
            }
            proof {
                let l = ls[j as int];
                assert(l == *leg);
                let w1 = only_if(low_water(l.points@, vessel.draught_cm), fv(FindingSeverity::High, "route-low-water", Some(vessel.id),
                    "route "@ + dec_text(l.sequence as nat) + " has low-water point"@));
                let w2 = only_if(l.kind == RouteLegKind::BerthEntry && !has_berth, fv(FindingSeverity::Low, "entry-without-berth",
                    Some(vessel.id), "route enters berth without berth plan"@));
                assert(mid =~= before + w1);
                assert(finding_views(findings@) =~= mid + w2);
                let pre = leg_row(vessel, ls.take(j as int), has_berth);
                assert(g0 + pre + w1 + w2 =~= g0 + (pre + w1 + w2));
            }
            j = j + 1;
        }
        proof {
            assert(ls.take(j as int) =~= ls);
            let pre = leg_findings(snapshot.vessels@.take(i as int), snapshot.routes@, snapshot.berths@);
            assert(f1 + pre + leg_row(vessel, ls, has_berth) =~= f1 + (pre + leg_row(vessel, ls, has_berth)));
        }
        i = i + 1;
    }
    proof {
        assert(snapshot.vessels@.take(i as int) =~= snapshot.vessels@);
        let w = only_if(density_spec(snapshot.routes@) > 20_000, fv(FindingSeverity::Low, "route-density", None,
            "route density "@ + dec_text(density_spec(snapshot.routes@) as nat)));
        assert(f1 =~= f0 + w);
    }
}

fn analyze_pilotage(snapshot: &PortSnapshot, findings: &mut Vec<Finding>)
    ensures
        finding_views(final(findings)@) == finding_views(old(findings)@) + pilot_findings(snapshot.vessels@, snapshot.pilots@),
{
    let ghost f0 = finding_views(findings@);
    let mut i: usize = 0;
    proof { assert(f0 + pilot_findings(snapshot.vessels@.take(0), snapshot.pilots@) =~= f0); }
    while i < snapshot.vessels.len()
        invariant
            0 <= i <= snapshot.vessels@.len(),
            f0 == finding_views(old(findings)@),
            finding_views(findings@) == f0 + pilot_findings(snapshot.vessels@.take(i as int), snapshot.pilots@),
        decreases snapshot.vessels@.len() - i,
    {
        proof { assert(snapshot.vessels@.take(i + 1).drop_last() =~= snapshot.vessels@.take(i as int)); }
        let vessel = snapshot.vessels[i];
        let high_risk = vessel.risk_hint() > 40;
        let mut has_order = false;
        let mut k: usize = 0;
        while k < snapshot.pilots.len()
            invariant
                0 <= k <= snapshot.pilots@.len(),
                has_order <==> exists|m: int| 0 <= m < k && #[trigger] snapshot.pilots@[m].vessel == vessel.id,
            decreases snapshot.pilots@.len() - k,
        {
            if snapshot.pilots[k].vessel.0 == vessel.id.0 {
                has_order = true;
            }
            k = k + 1;
        }
        let ghost before = finding_views(findings@);
        if high_risk && !has_order {
            let mut t: Vec<char> = Vec::new();
            push_str(&mut t, "high-risk vessel has no pilot order");
            note(findings, FindingSeverity::Medium, "pilotage-missing", Some(vessel.id), t);
        }
        proof {
            let pre = pilot_findings(snapshot.vessels@.take(i as int), snapshot.pilots@);
            let w = only_if(risk_hint_spec(vessel) > 40 && !has_pilot(snapshot.pilots@, vessel.id),
                fv(FindingSeverity::Medium, "pilotage-missing", Some(vessel.id), "high-risk vessel has no pilot order"@));
            assert(finding_views(findings@) =~= before + w);
            assert(f0 + pre + w =~= f0 + (pre + w));
        }
        i = i + 1;
    }
    proof { assert(snapshot.vessels@.take(i as int) =~= snapshot.vessels@); }
}

fn analyze_catalog_consistency(snapshot: &PortSnapshot, findings: &mut Vec<Finding>)
    ensures
        finding_views(final(findings)@) == finding_views(old(findings)@) + un_findings(snapshot.cargo@)
            + unknown_berth_findings(snapshot.berths@),
{
    let ghost f0 = finding_views(findings@);
    let mut i: usize = 0;
    proof { assert(f0 + un_findings(snapshot.cargo@.take(0)) =~= f0); }
    while i < snapshot.cargo.len()
        invariant
            0 <= i <= snapshot.cargo@.len(),
            f0 == finding_views(old(findings)@),
            finding_views(findings@) == f0 + un_findings(snapshot.cargo@.take(i as int)),
        decreases snapshot.cargo@.len() - i,
    {
        proof { assert(snapshot.cargo@.take(i + 1).drop_last() =~= snapshot.cargo@.take(i as int)); }
        let lot = snapshot.cargo[i];
        let ghost before = finding_views(findings@);
        if lookup_un_number(lot.un_number).is_none() && lot.hazard.risk_weight() > 0 {
            let mut t: Vec<char> = Vec::new();
            push_str(&mut t, "UN");
            push_dec(&mut t, lot.un_number as u64);
            push_str(&mut t, " not in local catalog");
            note(findings, FindingSeverity::Info, "unknown-un-number", Some(lot.vessel), t);
        }
        proof {
            let pre = un_findings(snapshot.cargo@.take(i as int));
            let w = only_if(find_un(hazmat_rows(), lot.un_number) is None && hazard_weight(lot.hazard) > 0,
                fv(FindingSeverity::Info, "unknown-un-number", Some(lot.vessel), "UN"@ + dec_text(lot.un_number as nat) + " not in local catalog"@));
            assert(finding_views(findings@) =~= before + w);
            assert(f0 + pre + w =~= f0 + (pre + w));
        }
        i = i + 1;
    }
    proof { assert(snapshot.cargo@.take(i as int) =~= snapshot.cargo@); }
    let ghost f1 = finding_views(findings@);
    let mut j: usize = 0;
    proof { assert(f1 + unknown_berth_findings(snapshot.berths@.take(0)) =~= f1); }
    while j < snapshot.berths.len()
        invariant
            0 <= j <= snapshot.berths@.len(),
            finding_views(findings@) == f1 + unknown_berth_findings(snapshot.berths@.take(j as int)),
        decreases snapshot.berths@.len() - j,
    {
        proof { assert(snapshot.berths@.take(j + 1).drop_last() =~= snapshot.berths@.take(j as int)); }
        let berth = snapshot.berths[j];
        let ghost before = finding_views(findings@);
        if lookup_berth(berth.berth).is_none() {
            let mut t: Vec<char> = Vec::new();
            let bt = berth.berth.to_text();
            push_str(&mut t, bt.as_str());
            push_str(&mut t, " not in local berth catalog");
            note(findings, FindingSeverity::Info, "unknown-berth", Some(berth.vessel), t);
        }
        proof {
            let pre = unknown_berth_findings(snapshot.berths@.take(j as int));
            let w = only_if(find_berth(berth_rows(), berth.berth) is None,
                fv(FindingSeverity::Info, "unknown-berth", Some(berth.vessel), berth_text(berth.berth) + " not in local berth catalog"@));
            assert(finding_views(findings@) =~= before + w);
            assert(f1 + pre + w =~= f1 + (pre + w));
        }
        j = j + 1;
    }
    proof { assert(snapshot.berths@.take(j as int) =~= snapshot.berths@); }
}

/// `rep` reports on `s`: its id and counters, its event count, the analysis findings, the
/// snapshot's risk score plus the findings' weights (saturating) and the number of
/// materialized names.
pub open spec fn report_of(rep: HarborReport, s: StreamSummary) -> bool {
    &&& rep.stream_id == s.stream_id
    &&& rep.stats == s.stats
    &&& rep.event_count == event_total(s.snapshot)
    &&& finding_views(rep.findings@) == analysis_findings(s.snapshot)
    &&& rep.risk_score == sat_add32(risk_score_spec(s.snapshot) as int, weight_total(analysis_findings(s.snapshot)))
    &&& rep.materialized_names == s.ledger_materialized@.len()
}

/// Analyzes a decoded stream: the findings, and the snapshot's risk score plus the findings'
/// weights (saturating).
pub fn analyze_exchange(summary: StreamSummary) -> (r: ParseResult<HarborReport>)
    requires event_total(summary.snapshot) <= usize::MAX,
    ensures r matches Ok(rep) && report_of(rep, summary),
{
    let mut findings: Vec<Finding> = Vec::new();
    let ghost s = summary.snapshot;
    proof { assert(finding_views(findings@) =~= Seq::<FindingView>::empty()); }
    analyze_berth_conflicts(&summary.snapshot, &mut findings);
    analyze_cargo_conflicts(&summary.snapshot, &mut findings);
    analyze_tide_windows(&summary.snapshot, &mut findings);
    analyze_routes(&summary.snapshot, &mut findings);
    analyze_pilotage(&summary.snapshot, &mut findings);
    analyze_catalog_consistency(&summary.snapshot, &mut findings);
    let ghost fs = finding_views(findings@);
    proof {
        assert(fs =~= analysis_findings(s));
    }
    let mut weights: u32 = 0;
    let mut i: usize = 0;
    while i < findings.len()
        invariant
            0 <= i <= findings@.len(),
            fs == finding_views(findings@),
            weight_total(fs.take(i as int)) >= 0,
            weights == sat_add32(weight_total(fs.take(i as int)), 0),
        decreases findings@.len() - i,
    {
        proof { assert(fs.take(i + 1).drop_last() =~= fs.take(i as int)); }
        weights = weights.saturating_add(findings[i].severity.weight());
        i = i + 1;
    }
    proof { assert(fs.take(i as int) =~= fs); }
    let risk_score = summary.snapshot.risk_score().saturating_add(weights);
    let event_count = summary.snapshot.event_count();
    let materialized_names = summary.ledger_materialized.len();
    Ok(HarborReport {
        stream_id: summary.stream_id,
        stats: summary.stats,
        event_count,
        risk_score,
        findings,
        materialized_names,
    })
}

/// How many events of `s` are about a vessel.
pub open spec fn vessel_event_count(s: Seq<HarborEvent>) -> nat
    decreases s.len(),
{
    if s.len() == 0 { 0 } else { vessel_event_count(s.drop_last()) + if event_vessel(s.last()) is Some { 1nat } else { 0nat } }
}

/// The events about a vessel, and the others.
pub fn summarize_events(events: &[HarborEvent]) -> (r: (usize, usize))
    ensures r.0 == vessel_event_count(events@), r.0 + r.1 == events@.len(),
{
    let mut vessel_events: usize = 0;
    let mut port_events: usize = 0;
    let mut i: usize = 0;
    while i < events.len()
        invariant
            0 <= i <= events@.len(),
            vessel_events == vessel_event_count(events@.take(i as int)),
            vessel_events + port_events == i,
        decreases events@.len() - i,
    {
        proof { assert(events@.take(i + 1).drop_last() =~= events@.take(i as int)); }
        if events[i].vessel_id().is_some() {
            vessel_events = vessel_events + 1;
        } else {
            port_events = port_events + 1;
        }
        i = i + 1;
    }
    proof { assert(events@.take(i as int) =~= events@); }
    (vessel_events, port_events)
}

/// Sum of the hazard scores of `s`.
pub open spec fn hazard_total(s: Seq<CargoLot>) -> int
    decreases s.len(),
{
    if s.len() == 0 { 0 } else { hazard_total(s.drop_last()) + hazard_score_spec(s.last()) }
}

/// The risk of a vessel: its risk hint (zero when unknown) plus its cargo's hazard scores.
pub open spec fn vessel_risk(s: PortSnapshot, vessel: VesselId) -> u32 {
    let v = match first_vessel(s.vessels@, vessel) { Some(x) => risk_hint_spec(x) as u32, None => 0 };
    sat_add32(v as int, hazard_total(s.cargo@.filter(lot_of(vessel))))
}

/// The risk bucket of a score: 0 below 50, 1 below 150, 2 below 300, 3 from 300.
pub open spec fn bucket_of(score: u32) -> u8 {
    if score <= 49 { 0 } else if score <= 149 { 1 } else if score <= 299 { 2 } else { 3 }
}

/// The risk bucket of a vessel.
pub fn vessel_risk_bucket(snapshot: &PortSnapshot, vessel: VesselId) -> (b: u8)
    ensures b == bucket_of(vessel_risk(*snapshot, vessel)),
{
    let vessel_score: u32 = match snapshot.vessel(vessel) {
        Some(v) => v.risk_hint() as u32,
        None => 0,
    };
    let lots = snapshot.cargo_for(vessel);
    let mut cargo_score: u32 = 0;
    let mut i: usize = 0;
    while i < lots.len()
        invariant
            0 <= i <= lots@.len(),
            hazard_total(lots@.take(i as int)) >= 0,
            cargo_score == sat_add32(hazard_total(lots@.take(i as int)), 0),
        decreases lots@.len() - i,
    {
        proof { assert(lots@.take(i + 1).drop_last() =~= lots@.take(i as int)); }
        cargo_score = cargo_score.saturating_add(lots[i].hazard_score());
        i = i + 1;
    }
    proof { assert(lots@.take(i as int) =~= lots@); }
    let total = vessel_score.saturating_add(cargo_score);
    if total <= 49 {
        0
    } else if total <= 149 {
        1
    } else if total <= 299 {
        2
    } else {
        3
    }
}

} // verus!
