use vstd::prelude::*;
use crate::catalog::berths::{berth_rows, find_berth, lookup_berth};
use crate::catalog::hazmat::{hazmat_rows, find_un, lookup_un_number};
use crate::model::{BerthPlan, CargoLot, Finding, FindingSeverity, FindingView, PortSnapshot, RouteLeg, RoutePoint,
    VesselId, VesselSnapshot, berth_text, vessel_text, finding_view, finding_views, hazard_weight, plausible,
    sat_add16, severity_weight};
use crate::text::{dec_text, push_dec, push_str, string_from_chars};

verus! {

/// Findings of a consistency check, and how many items of each kind were checked.
#[derive(Debug, Clone)]
pub struct ValidationReport {
    pub findings: Vec<Finding>,
    pub checked_vessels: usize,
    pub checked_berths: usize,
    pub checked_cargo: usize,
    pub checked_routes: usize,
}

impl Default for ValidationReport {
    fn default() -> (r: Self)
        ensures
            r.findings@.len() == 0,
            r.checked_vessels == 0, r.checked_berths == 0, r.checked_cargo == 0, r.checked_routes == 0,
    {
        ValidationReport { findings: Vec::new(), checked_vessels: 0, checked_berths: 0, checked_cargo: 0, checked_routes: 0 }
    }
}

/// Sum of the severity weights of findings.
pub open spec fn weight_total(s: Seq<FindingView>) -> int
    decreases s.len(),
{
    if s.len() == 0 { 0 } else { weight_total(s.drop_last()) + severity_weight(s.last().severity) }
}

/// A prefix's weight is at most the whole's.
proof fn lemma_weight_prefix(s: Seq<FindingView>, n: int)
    requires 0 <= n <= s.len(),
    ensures weight_total(s.take(n)) <= weight_total(s),
    decreases s.len() - n,
{
    if n < s.len() {
        assert(s.take(n + 1).drop_last() =~= s.take(n));
        lemma_weight_prefix(s, n + 1);
    } else {
        assert(s.take(n) =~= s);
    }
}

impl ValidationReport {
    pub fn push(&mut self, finding: Finding)
        ensures
            final(self).findings@ == old(self).findings@.push(finding),
            final(self).checked_vessels == old(self).checked_vessels,
            final(self).checked_berths == old(self).checked_berths,
            final(self).checked_cargo == old(self).checked_cargo,
            final(self).checked_routes == old(self).checked_routes,
    {
        self.findings.push(finding);
    }

    /// Sum of the findings' severity weights.
    pub fn score(&self) -> (s: u32)
        requires weight_total(finding_views(self.findings@)) <= u32::MAX,
        ensures s == weight_total(finding_views(self.findings@)),
    {
        let ghost fs = finding_views(self.findings@);
        let mut s: u32 = 0;
        let mut i: usize = 0;
        while i < self.findings.len()
            invariant
                0 <= i <= self.findings@.len(),
                fs == finding_views(self.findings@),
                weight_total(fs) <= u32::MAX,
                s == weight_total(fs.take(i as int)),
            decreases self.findings@.len() - i,
        {
            proof {
                assert(fs.take(i + 1).drop_last() =~= fs.take(i as int));
                lemma_weight_prefix(fs, i + 1);
            }
            s = s + self.findings[i].severity.weight();
            i = i + 1;
        }
        proof { assert(fs.take(i as int) =~= fs); }
        s
    }

    /// Some finding is critical.
    pub fn has_critical(&self) -> (b: bool)
        ensures b == exists|i: int| 0 <= i < self.findings@.len() && #[trigger] self.findings@[i].severity == FindingSeverity::Critical,
    {
        let mut i: usize = 0;
        while i < self.findings.len()
            invariant
                0 <= i <= self.findings@.len(),
                forall|j: int| 0 <= j < i ==> #[trigger] self.findings@[j].severity != FindingSeverity::Critical,
            decreases self.findings@.len() - i,
        {
            match self.findings[i].severity {
                FindingSeverity::Critical => { return true; },
                _ => {},
            }
            i = i + 1;
        }
        false
    }
}

/// A finding of `severity` and `code` about `vessel` with the given detail.
pub open spec fn fv(severity: FindingSeverity, code: &'static str, vessel: Option<VesselId>, detail: Seq<char>) -> FindingView {
    FindingView { severity, code, vessel, detail }
}

/// `x` when `b` holds, else nothing.
pub open spec fn only_if(b: bool, x: FindingView) -> Seq<FindingView> {
    if b { seq![x] } else { Seq::empty() }
}

/// The findings about one vessel: an MMSI outside nine digits, an implausible position, a
/// heading of 360 and up other than 511 (unavailable), a speed over 45 knots.
pub open spec fn vessel_checks(v: VesselSnapshot) -> Seq<FindingView> {
    let id = vessel_text(v.id);
    only_if(v.mmsi < 100_000_000 || v.mmsi > 999_999_999,
        fv(FindingSeverity::Low, "mmsi-range", Some(v.id), id + " has nonstandard MMSI "@ + dec_text(v.mmsi as nat)))
    + only_if(!plausible(v.position),
        fv(FindingSeverity::High, "position-range", Some(v.id), id + " has implausible coordinates"@))
    + only_if(v.heading_degrees >= 360 && v.heading_degrees != 511,
        fv(FindingSeverity::Info, "heading-range", Some(v.id), id + " has heading "@ + dec_text(v.heading_degrees as nat)))
    + only_if(v.speed_tenths > 450,
        fv(FindingSeverity::Medium, "speed-range", Some(v.id), id + " speed "@ + dec_text(v.speed_tenths as nat) + " tenths"@))
}

/// The findings about a berth plan: an empty window, and a draught more than 2 m over the
/// catalog berth's.
pub open spec fn berth_checks(b: BerthPlan) -> Seq<FindingView> {
    let name = berth_text(b.berth);
    only_if(b.end.0 <= b.start.0,
        fv(FindingSeverity::Medium, "berth-duration", Some(b.vessel), name + " has empty berth window"@))
    + match find_berth(berth_rows(), b.berth) {
        Some(info) => only_if(b.max_draught_cm > sat_add16(info.max_draught_cm as int, 200),
            fv(FindingSeverity::Low, "berth-draught-override", Some(b.vessel), name + " exceeds catalog draught"@)),
        None => Seq::empty(),
    }
}

/// The findings about a cargo lot: over 500,000 tonnes, and a hazard of weight 50 and up whose
/// UN number the catalog lacks.
pub open spec fn cargo_checks(l: CargoLot) -> Seq<FindingView> {
    let un = "UN"@ + dec_text(l.un_number as nat);
    only_if(l.tonnes > 500_000,
        fv(FindingSeverity::High, "cargo-tonnage", Some(l.vessel), un + " has large tonnage "@ + dec_text(l.tonnes as nat)))
    + only_if(find_un(hazmat_rows(), l.un_number) is None && hazard_weight(l.hazard) >= 50,
        fv(FindingSeverity::Medium, "hazmat-catalog-miss", Some(l.vessel), un + " missing from catalog"@))
}

/// Some point of `pts` has an implausible position.
pub open spec fn has_implausible(pts: Seq<RoutePoint>) -> bool {
    exists|i: int| 0 <= i < pts.len() && !plausible(#[trigger] pts[i].position)
}

/// The findings about a leg: an empty ETA span, and (once) an implausible point.
pub open spec fn route_checks(r: RouteLeg) -> Seq<FindingView> {
    let name = "route "@ + dec_text(r.sequence as nat);
    only_if(r.eta_end.0 <= r.eta_start.0,
        fv(FindingSeverity::Low, "route-duration", Some(r.vessel), name + " has empty ETA span"@))
    + only_if(has_implausible(r.points@),
        fv(FindingSeverity::Medium, "route-position", Some(r.vessel), name + " has implausible point"@))
}

/// The findings about the vessels, in order.
pub open spec fn vessel_findings(s: Seq<VesselSnapshot>) -> Seq<FindingView>
    decreases s.len(),
{
    if s.len() == 0 { Seq::empty() } else { vessel_findings(s.drop_last()) + vessel_checks(s.last()) }
}

/// The findings about the berth plans, in order.
pub open spec fn berth_findings(s: Seq<BerthPlan>) -> Seq<FindingView>
    decreases s.len(),
{
    if s.len() == 0 { Seq::empty() } else { berth_findings(s.drop_last()) + berth_checks(s.last()) }
}

/// The findings about the cargo lots, in order.
pub open spec fn cargo_findings(s: Seq<CargoLot>) -> Seq<FindingView>
    decreases s.len(),
{
    if s.len() == 0 { Seq::empty() } else { cargo_findings(s.drop_last()) + cargo_checks(s.last()) }
}

/// The findings about the legs, in order.
pub open spec fn route_findings(s: Seq<RouteLeg>) -> Seq<FindingView>
    decreases s.len(),
{
    if s.len() == 0 { Seq::empty() } else { route_findings(s.drop_last()) + route_checks(s.last()) }
}

/// Appends a finding built from its parts to `report`.
fn add_finding(report: &mut ValidationReport, severity: FindingSeverity, code: &'static str, vessel: Option<VesselId>, detail: Vec<char>)
    ensures
        finding_views(final(report).findings@) == finding_views(old(report).findings@).push(fv(severity, code, vessel, detail@)),
        final(report).checked_vessels == old(report).checked_vessels,
        final(report).checked_berths == old(report).checked_berths,
        final(report).checked_cargo == old(report).checked_cargo,
        final(report).checked_routes == old(report).checked_routes,
{
    let f = Finding::new(severity, code, vessel, string_from_chars(detail));
    report.push(f);
    proof { assert(finding_views(report.findings@) =~= finding_views(old(report).findings@).push(finding_view(f))); }
}

#[verifier::rlimit(30)]
fn validate_vessels(snapshot: &PortSnapshot, report: &mut ValidationReport)
    requires old(report).checked_vessels + snapshot.vessels@.len() <= usize::MAX,
    ensures
        finding_views(final(report).findings@) == finding_views(old(report).findings@) + vessel_findings(snapshot.vessels@),
        final(report).checked_vessels == old(report).checked_vessels + snapshot.vessels@.len(),
        final(report).checked_berths == old(report).checked_berths,
        final(report).checked_cargo == old(report).checked_cargo,
        final(report).checked_routes == old(report).checked_routes,
{
    let ghost f0 = finding_views(report.findings@);
    let mut i: usize = 0;
    proof { assert(f0 + vessel_findings(snapshot.vessels@.take(0)) =~= f0); }
    while i < snapshot.vessels.len()
        invariant
            0 <= i <= snapshot.vessels@.len(),
            report.checked_vessels == old(report).checked_vessels + i,
            old(report).checked_vessels + snapshot.vessels@.len() <= usize::MAX,
            f0 == finding_views(old(report).findings@),
            report.checked_berths == old(report).checked_berths,
            report.checked_cargo == old(report).checked_cargo,
            report.checked_routes == old(report).checked_routes,
            finding_views(report.findings@) == f0 + vessel_findings(snapshot.vessels@.take(i as int)),
        decreases snapshot.vessels@.len() - i,
    {
        proof { assert(snapshot.vessels@.take(i + 1).drop_last() =~= snapshot.vessels@.take(i as int)); }
        let vessel = snapshot.vessels[i];
        let ghost before = finding_views(report.findings@);
        report.checked_vessels = report.checked_vessels + 1;
        let id = vessel.id.to_text();
        if vessel.mmsi < 100_000_000 || vessel.mmsi > 999_999_999 {
            let mut t: Vec<char> = Vec::new();
            push_str(&mut t, id.as_str());
            push_str(&mut t, " has nonstandard MMSI ");
            push_dec(&mut t, vessel.mmsi as u64);
            add_finding(report, FindingSeverity::Low, "mmsi-range", Some(vessel.id), t);
        }
        let ghost a1 = finding_views(report.findings@);
        if !vessel.position.is_plausible() {
            let mut t: Vec<char> = Vec::new();
            push_str(&mut t, id.as_str());
            push_str(&mut t, " has implausible coordinates");
            add_finding(report, FindingSeverity::High, "position-range", Some(vessel.id), t);
        }
        let ghost a2 = finding_views(report.findings@);
        if vessel.heading_degrees >= 360 && vessel.heading_degrees != 511 {
            let mut t: Vec<char> = Vec::new();
            push_str(&mut t, id.as_str());
            push_str(&mut t, " has heading ");
            push_dec(&mut t, vessel.heading_degrees as u64);
            add_finding(report, FindingSeverity::Info, "heading-range", Some(vessel.id), t);
        }
        let ghost a3 = finding_views(report.findings@);
        if vessel.speed_tenths > 450 {
            let mut t: Vec<char> = Vec::new();
            push_str(&mut t, id.as_str());
            push_str(&mut t, " speed ");
            push_dec(&mut t, vessel.speed_tenths as u64);
            push_str(&mut t, " tenths");
            add_finding(report, FindingSeverity::Medium, "speed-range", Some(vessel.id), t);
        }
        proof {
            let c = vessel_checks(vessel);
            let id_t = vessel_text(vessel.id);
            let w1 = only_if(vessel.mmsi < 100_000_000 || vessel.mmsi > 999_999_999,
                fv(FindingSeverity::Low, "mmsi-range", Some(vessel.id), id_t + " has nonstandard MMSI "@ + dec_text(vessel.mmsi as nat)));
            let w2 = only_if(!plausible(vessel.position),
                fv(FindingSeverity::High, "position-range", Some(vessel.id), id_t + " has implausible coordinates"@));
            let w3 = only_if(vessel.heading_degrees >= 360 && vessel.heading_degrees != 511,
                fv(FindingSeverity::Info, "heading-range", Some(vessel.id), id_t + " has heading "@ + dec_text(vessel.heading_degrees as nat)));
            let w4 = only_if(vessel.speed_tenths > 450,
                fv(FindingSeverity::Medium, "speed-range", Some(vessel.id), id_t + " speed "@ + dec_text(vessel.speed_tenths as nat) + " tenths"@));
            assert(a1 =~= before + w1);
            assert(a2 =~= a1 + w2);
            assert(a3 =~= a2 + w3);
            assert(finding_views(report.findings@) =~= a3 + w4);
            assert(c =~= w1 + w2 + w3 + w4);
            assert(finding_views(report.findings@) =~= before + c);
        }
        i = i + 1;
    }
    proof { assert(snapshot.vessels@.take(i as int) =~= snapshot.vessels@); }
}

fn validate_berths(snapshot: &PortSnapshot, report: &mut ValidationReport)
    requires old(report).checked_berths + snapshot.berths@.len() <= usize::MAX,
    ensures
        finding_views(final(report).findings@) == finding_views(old(report).findings@) + berth_findings(snapshot.berths@),
        final(report).checked_berths == old(report).checked_berths + snapshot.berths@.len(),
        final(report).checked_vessels == old(report).checked_vessels,
        final(report).checked_cargo == old(report).checked_cargo,
        final(report).checked_routes == old(report).checked_routes,
{
    let ghost f0 = finding_views(report.findings@);
    let mut i: usize = 0;
    proof { assert(f0 + berth_findings(snapshot.berths@.take(0)) =~= f0); }
    while i < snapshot.berths.len()
        invariant
            0 <= i <= snapshot.berths@.len(),
            report.checked_berths == old(report).checked_berths + i,
            old(report).checked_berths + snapshot.berths@.len() <= usize::MAX,
            f0 == finding_views(old(report).findings@),
            report.checked_vessels == old(report).checked_vessels,
            report.checked_cargo == old(report).checked_cargo,
            report.checked_routes == old(report).checked_routes,
            finding_views(report.findings@) == f0 + berth_findings(snapshot.berths@.take(i as int)),
        decreases snapshot.berths@.len() - i,
    {
        proof { assert(snapshot.berths@.take(i + 1).drop_last() =~= snapshot.berths@.take(i as int)); }
        let berth = snapshot.berths[i];
        let ghost before = finding_views(report.findings@);
        report.checked_berths = report.checked_berths + 1;
        let name = berth.berth.to_text();
        if berth.end.0 <= berth.start.0 {
            let mut t: Vec<char> = Vec::new();
            push_str(&mut t, name.as_str());
            push_str(&mut t, " has empty berth window");
            add_finding(report, FindingSeverity::Medium, "berth-duration", Some(berth.vessel), t);
        }
        let ghost a1 = finding_views(report.findings@);
        match lookup_berth(berth.berth) {
            Some(info) => {
                if berth.max_draught_cm > info.max_draught_cm.saturating_add(200) {
                    let mut t: Vec<char> = Vec::new();
                    push_str(&mut t, name.as_str());
                    push_str(&mut t, " exceeds catalog draught");
                    add_finding(report, FindingSeverity::Low, "berth-draught-override", Some(berth.vessel), t);
                }
            },
            None => {},
        }
        proof {
            let n_t = berth_text(berth.berth);
            let w1 = only_if(berth.end.0 <= berth.start.0,
                fv(FindingSeverity::Medium, "berth-duration", Some(berth.vessel), n_t + " has empty berth window"@));
            let w2: Seq<FindingView> = match find_berth(berth_rows(), berth.berth) {
                Some(info) => only_if(berth.max_draught_cm > sat_add16(info.max_draught_cm as int, 200),
                    fv(FindingSeverity::Low, "berth-draught-override", Some(berth.vessel), n_t + " exceeds catalog draught"@)),
                None => Seq::empty(),
            };
            assert(a1 =~= before + w1);
            assert(finding_views(report.findings@) =~= a1 + w2);
            assert(berth_checks(berth) =~= w1 + w2);
            assert(finding_views(report.findings@) =~= before + berth_checks(berth));
        }
        i = i + 1;
    }
    proof { assert(snapshot.berths@.take(i as int) =~= snapshot.berths@); }
}

fn validate_cargo(snapshot: &PortSnapshot, report: &mut ValidationReport)
    requires old(report).checked_cargo + snapshot.cargo@.len() <= usize::MAX,
    ensures
        finding_views(final(report).findings@) == finding_views(old(report).findings@) + cargo_findings(snapshot.cargo@),
        final(report).checked_cargo == old(report).checked_cargo + snapshot.cargo@.len(),
        final(report).checked_vessels == old(report).checked_vessels,
        final(report).checked_berths == old(report).checked_berths,
        final(report).checked_routes == old(report).checked_routes,
{
    let ghost f0 = finding_views(report.findings@);
    let mut i: usize = 0;
    proof { assert(f0 + cargo_findings(snapshot.cargo@.take(0)) =~= f0); }
    while i < snapshot.cargo.len()
        invariant
            0 <= i <= snapshot.cargo@.len(),
            report.checked_cargo == old(report).checked_cargo + i,
            old(report).checked_cargo + snapshot.cargo@.len() <= usize::MAX,
            f0 == finding_views(old(report).findings@),
            report.checked_vessels == old(report).checked_vessels,
            report.checked_berths == old(report).checked_berths,
            report.checked_routes == old(report).checked_routes,
            finding_views(report.findings@) == f0 + cargo_findings(snapshot.cargo@.take(i as int)),
        decreases snapshot.cargo@.len() - i,
    {
        proof { assert(snapshot.cargo@.take(i + 1).drop_last() =~= snapshot.cargo@.take(i as int)); }
        let lot = snapshot.cargo[i];
        let ghost before = finding_views(report.findings@);
        report.checked_cargo = report.checked_cargo + 1;
        if lot.tonnes > 500_000 {
            let mut t: Vec<char> = Vec::new();
            push_str(&mut t, "UN");
            push_dec(&mut t, lot.un_number as u64);
            push_str(&mut t, " has large tonnage ");
            push_dec(&mut t, lot.tonnes as u64);
            add_finding(report, FindingSeverity::High, "cargo-tonnage", Some(lot.vessel), t);
        }
        let ghost a1 = finding_views(report.findings@);
        if lookup_un_number(lot.un_number).is_none() && lot.hazard.risk_weight() >= 50 {
            let mut t: Vec<char> = Vec::new();
            push_str(&mut t, "UN");
            push_dec(&mut t, lot.un_number as u64);
            push_str(&mut t, " missing from catalog");
            add_finding(report, FindingSeverity::Medium, "hazmat-catalog-miss", Some(lot.vessel), t);
        }
        proof {
            let un = "UN"@ + dec_text(lot.un_number as nat);
            let w1 = only_if(lot.tonnes > 500_000,
                fv(FindingSeverity::High, "cargo-tonnage", Some(lot.vessel), un + " has large tonnage "@ + dec_text(lot.tonnes as nat)));
            let w2 = only_if(find_un(hazmat_rows(), lot.un_number) is None && hazard_weight(lot.hazard) >= 50,
                fv(FindingSeverity::Medium, "hazmat-catalog-miss", Some(lot.vessel), un + " missing from catalog"@));
            assert(a1 =~= before + w1);
            assert(finding_views(report.findings@) =~= a1 + w2);
            assert(cargo_checks(lot) =~= w1 + w2);
            assert(finding_views(report.findings@) =~= before + cargo_checks(lot));
        }
        i = i + 1;
    }
    proof { assert(snapshot.cargo@.take(i as int) =~= snapshot.cargo@); }
}

/// Whether some point of the leg has an implausible position.
fn any_implausible(route: &RouteLeg) -> (b: bool)
    ensures b == has_implausible(route.points@),
{
    let mut i: usize = 0;
    while i < route.points.len()
        invariant
            0 <= i <= route.points@.len(),
            forall|j: int| 0 <= j < i ==> plausible(#[trigger] route.points@[j].position),
        decreases route.points@.len() - i,
    {
        if !route.points[i].position.is_plausible() {
            return true;
        }
        i = i + 1;
    }
    false
}

fn validate_routes(snapshot: &PortSnapshot, report: &mut ValidationReport)
    requires old(report).checked_routes + snapshot.routes@.len() <= usize::MAX,
    ensures
        finding_views(final(report).findings@) == finding_views(old(report).findings@) + route_findings(snapshot.routes@),
        final(report).checked_routes == old(report).checked_routes + snapshot.routes@.len(),
        final(report).checked_vessels == old(report).checked_vessels,
        final(report).checked_berths == old(report).checked_berths,
        final(report).checked_cargo == old(report).checked_cargo,
{
    let ghost f0 = finding_views(report.findings@);
    let mut i: usize = 0;
    proof { assert(f0 + route_findings(snapshot.routes@.take(0)) =~= f0); }
    while i < snapshot.routes.len()
        invariant
            0 <= i <= snapshot.routes@.len(),
            report.checked_routes == old(report).checked_routes + i,
            old(report).checked_routes + snapshot.routes@.len() <= usize::MAX,
            f0 == finding_views(old(report).findings@),
            report.checked_vessels == old(report).checked_vessels,
            report.checked_berths == old(report).checked_berths,
            report.checked_cargo == old(report).checked_cargo,
            finding_views(report.findings@) == f0 + route_findings(snapshot.routes@.take(i as int)),
        decreases snapshot.routes@.len() - i,
    {
        proof { assert(snapshot.routes@.take(i + 1).drop_last() =~= snapshot.routes@.take(i as int)); }
        let route = &snapshot.routes[i];
        let ghost before = finding_views(report.findings@);
        report.checked_routes = report.checked_routes + 1;
        if route.eta_end.0 <= route.eta_start.0 {
            let mut t: Vec<char> = Vec::new();
            push_str(&mut t, "route ");
            push_dec(&mut t, route.sequence as u64);
            push_str(&mut t, " has empty ETA span");
            add_finding(report, FindingSeverity::Low, "route-duration", Some(route.vessel), t);
        }
        let ghost a1 = finding_views(report.findings@);
        if any_implausible(route) {
            let mut t: Vec<char> = Vec::new();
            push_str(&mut t, "route ");
            push_dec(&mut t, route.sequence as u64);
            push_str(&mut t, " has implausible point");
            add_finding(report, FindingSeverity::Medium, "route-position", Some(route.vessel), t);
        }
        proof {
            let name = "route "@ + dec_text(route.sequence as nat);
            let w1 = only_if(route.eta_end.0 <= route.eta_start.0,
                fv(FindingSeverity::Low, "route-duration", Some(route.vessel), name + " has empty ETA span"@));
            let w2 = only_if(has_implausible(route.points@),
                fv(FindingSeverity::Medium, "route-position", Some(route.vessel), name + " has implausible point"@));
            assert(a1 =~= before + w1);
            assert(finding_views(report.findings@) =~= a1 + w2);
            assert(route_checks(*route) =~= w1 + w2);
            assert(finding_views(report.findings@) =~= before + route_checks(*route));
        }
        i = i + 1;
    }
    proof { assert(snapshot.routes@.take(i as int) =~= snapshot.routes@); }
}

/// Checks a snapshot: vessels, berth plans, cargo lots and legs, in that order.
pub fn validate_snapshot(snapshot: &PortSnapshot) -> (r: ValidationReport)
    ensures
        finding_views(r.findings@) == vessel_findings(snapshot.vessels@) + berth_findings(snapshot.berths@)
            + cargo_findings(snapshot.cargo@) + route_findings(snapshot.routes@),
        r.checked_vessels == snapshot.vessels@.len(),
        r.checked_berths == snapshot.berths@.len(),
        r.checked_cargo == snapshot.cargo@.len(),
        r.checked_routes == snapshot.routes@.len(),
{
    let mut report = ValidationReport::default();
    proof {
        assert(finding_views(report.findings@) =~= Seq::<FindingView>::empty());
        assert(snapshot.vessels.len() == snapshot.vessels@.len() && snapshot.berths.len() == snapshot.berths@.len());
        assert(snapshot.cargo.len() == snapshot.cargo@.len() && snapshot.routes.len() == snapshot.routes@.len());
    }
    validate_vessels(snapshot, &mut report);
    validate_berths(snapshot, &mut report);
    validate_cargo(snapshot, &mut report);
    validate_routes(snapshot, &mut report);
    proof {
        assert(Seq::<FindingView>::empty() + vessel_findings(snapshot.vessels@) =~= vessel_findings(snapshot.vessels@));
    }
    report
}

/// The ids of the vessels of `s` whose id occurred earlier in `s`, in order.
pub open spec fn duplicates_spec(s: Seq<VesselSnapshot>) -> Seq<VesselId>
    decreases s.len(),
{
    if s.len() == 0 {
        Seq::empty()
    } else {
        let prev = duplicates_spec(s.drop_last());
        if exists|j: int| 0 <= j < s.len() - 1 && #[trigger] s[j].id == s.last().id { prev.push(s.last().id) } else { prev }
    }
}

/// The vessel ids that repeat an earlier vessel's id, once per repetition.
pub fn find_duplicate_vessels(snapshot: &PortSnapshot) -> (r: Vec<VesselId>)
    ensures r@ == duplicates_spec(snapshot.vessels@),
{
    let mut seen: Vec<u32> = Vec::new();
    let mut duplicates: Vec<VesselId> = Vec::new();
    let mut i: usize = 0;
    while i < snapshot.vessels.len()
        invariant
            0 <= i <= snapshot.vessels@.len(),
            duplicates@ == duplicates_spec(snapshot.vessels@.take(i as int)),
            forall|x: u32| seen@.contains(x) <==> exists|j: int| 0 <= j < i && #[trigger] snapshot.vessels@[j].id.0 == x,
        decreases snapshot.vessels@.len() - i,
    {
        let id = snapshot.vessels[i].id;
        let mut found = false;
        let mut k: usize = 0;
        while k < seen.len()
            invariant
                0 <= k <= seen@.len(),
                found <==> exists|m: int| 0 <= m < k && seen@[m] == id.0,
            decreases seen@.len() - k,
        {
            if seen[k] == id.0 {
                found = true;
            }
            k = k + 1;
        }
        proof {
            let s = snapshot.vessels@.take(i + 1);
            assert(s.drop_last() =~= snapshot.vessels@.take(i as int));
            assert(s.last() == snapshot.vessels@[i as int]);
            if found {
                assert(seen@.contains(id.0));
                let j = choose|j: int| 0 <= j < i && #[trigger] snapshot.vessels@[j].id.0 == id.0;
                assert(s[j].id == s.last().id);
            } else {
                assert forall|j: int| 0 <= j < s.len() - 1 implies #[trigger] s[j].id != s.last().id by {
                    assert(s[j] == snapshot.vessels@[j]);
                    if s[j].id == s.last().id {
                        assert(seen@.contains(id.0));
                    }
                }
            }
        }
        let ghost old_seen = seen@;
        if found {
            duplicates.push(id);
        } else {
            seen.push(id.0);
        }
        proof {
            assert forall|x: u32| seen@.contains(x) <==> exists|j: int| 0 <= j < i + 1 && #[trigger] snapshot.vessels@[j].id.0 == x by {
                let here = snapshot.vessels@[i as int].id.0 == x;
                let before = exists|j: int| 0 <= j < i && #[trigger] snapshot.vessels@[j].id.0 == x;
                assert(old_seen.contains(x) <==> before);
                if !found {
                    if seen@.contains(x) {
                        let m = choose|m: int| 0 <= m < seen@.len() && seen@[m] == x;
                        if m < old_seen.len() { assert(old_seen[m] == x); assert(old_seen.contains(x)); }
                    }
                    if old_seen.contains(x) {
                        let m = choose|m: int| 0 <= m < old_seen.len() && old_seen[m] == x;
                        assert(seen@[m] == x);
                    }
                    if here { assert(seen@[old_seen.len() as int] == x); }
                } else {
                    if here {
                        assert(old_seen.contains(x));
                    }
                }
                if exists|j: int| 0 <= j < i + 1 && #[trigger] snapshot.vessels@[j].id.0 == x {
                    let j = choose|j: int| 0 <= j < i + 1 && #[trigger] snapshot.vessels@[j].id.0 == x;
                    if j < i { assert(before); } else { assert(here); }
                }
                if before {
                    let j = choose|j: int| 0 <= j < i && #[trigger] snapshot.vessels@[j].id.0 == x;
                    assert(0 <= j < i + 1);
                }
                if here { assert(snapshot.vessels@[i as int].id.0 == x); }
            }
        }
        i = i + 1;
    }
    proof { assert(snapshot.vessels@.take(i as int) =~= snapshot.vessels@); }
    duplicates
}

} // verus!
