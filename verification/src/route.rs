use vstd::prelude::*;
use crate::cursor::{ByteCursor, Cur, Reader, counted_list, records_from, records_progress, lemma_records_step,
    lemma_records_fail, lemma_records_done, rd_u8, rd_u16, rd_u32, rd_u64, rd_i32, rd_varint, rd_zigzag};
use crate::error::{ErrorKind, ParseError, ParseResult, mk_err};
use crate::model::{leg_of, Coordinates, RouteLeg, RouteLegKind, RoutePoint, Timestamp, VesselId, leg_kind, sat_add64,
    sat_add16, sat_add32, sat_sub64, low_water, leg_distance};
use crate::sort::{SortKey, sort_with_keys, sorted_with, lemma_sorted_with_map};

verus! {

/// A route leg as values.
pub struct RouteLegView {
    pub vessel: VesselId,
    pub sequence: u16,
    pub kind: RouteLegKind,
    pub from: Coordinates,
    pub to: Coordinates,
    pub eta_start: Timestamp,
    pub eta_end: Timestamp,
    pub channel_code: u16,
    pub points: Seq<RoutePoint>,
}

/// A leg as values.
pub open spec fn leg_view(r: RouteLeg) -> RouteLegView {
    RouteLegView {
        vessel: r.vessel,
        sequence: r.sequence,
        kind: r.kind,
        from: r.from,
        to: r.to,
        eta_start: r.eta_start,
        eta_end: r.eta_end,
        channel_code: r.channel_code,
        points: r.points@,
    }
}

/// Legs as values.
pub open spec fn leg_views(s: Seq<RouteLeg>) -> Seq<RouteLegView> {
    s.map_values(|r: RouteLeg| leg_view(r))
}

/// The running position and time of a leg's points.
pub type PointState = (i32, i32, u64);

/// Reading one point: zigzag latitude and longitude deltas (truncated to 32 bits and added
/// with wrapping), a varint time delta (added with saturation), speed limit and depth.
pub open spec fn rd_point(c: Cur, st: PointState) -> (Result<(RoutePoint, PointState), ParseError>, Cur) {
    match rd_zigzag(c, "route lat delta") {
        (Err(e), c1) => (Err(e), c1),
        (Ok(dlat), c1) => match rd_zigzag(c1, "route lon delta") {
            (Err(e), c2) => (Err(e), c2),
            (Ok(dlon), c2) => match rd_varint(c2, "route eta delta") {
                (Err(e), c3) => (Err(e), c3),
                (Ok(dt), c3) => match rd_u16(c3) {
                    (Err(e), c4) => (Err(e), c4),
                    (Ok(speed), c4) => match rd_u16(c4) {
                        (Err(e), c5) => (Err(e), c5),
                        (Ok(depth), c5) => {
                            let lat = vstd::wrapping::i32_specs::wrapping_add(st.0, dlat as i32);
                            let lon = vstd::wrapping::i32_specs::wrapping_add(st.1, dlon as i32);
                            let eta = sat_add64(st.2, dt);
                            (Ok((RoutePoint {
                                position: Coordinates { lat_e7: lat, lon_e7: lon },
                                eta: Timestamp(eta),
                                speed_limit_tenths: speed,
                                depth_cm: depth,
                            }, (lat, lon, eta))), c5)
                        },
                    },
                },
            },
        },
    }
}

/// `done` put in front of the points a read gives.
pub open spec fn after(done: Seq<RoutePoint>, r: (Result<Seq<RoutePoint>, ParseError>, Cur)) -> (Result<Seq<RoutePoint>, ParseError>, Cur) {
    match r.0 {
        Ok(rest) => (Ok(done + rest), r.1),
        Err(e) => (Err(e), r.1),
    }
}

/// `n` points, one after another, from state `st`.
pub open spec fn rd_points(c: Cur, n: nat, st: PointState) -> (Result<Seq<RoutePoint>, ParseError>, Cur)
    decreases n,
{
    if n == 0 {
        (Ok(Seq::empty()), c)
    } else {
        match rd_point(c, st) {
            (Err(e), c1) => (Err(e), c1),
            (Ok((p, st1)), c1) => after(seq![p], rd_points(c1, (n - 1) as nat, st1)),
        }
    }
}

/// Reading one leg: vessel, sequence, kind, channel, start and end positions, start time,
/// duration (the end time is the start plus the duration, saturated), a `u16` point count (at
/// most 2048) and the points, which run from the start position and time.
#[verifier::opaque]
pub open spec fn rd_route(c: Cur) -> (Result<RouteLegView, ParseError>, Cur) {
    match rd_u32(c) {
        (Err(e), c1) => (Err(e), c1),
        (Ok(vessel), c1) => match rd_u16(c1) {
            (Err(e), c2) => (Err(e), c2),
            (Ok(sequence), c2) => match rd_u8(c2) {
                (Err(e), c3) => (Err(e), c3),
                (Ok(kind), c3) => match rd_u16(c3) {
                    (Err(e), c4) => (Err(e), c4),
                    (Ok(channel_code), c4) => match rd_i32(c4) {
                        (Err(e), c5) => (Err(e), c5),
                        (Ok(flat), c5) => match rd_i32(c5) {
                            (Err(e), c6) => (Err(e), c6),
                            (Ok(flon), c6) => match rd_i32(c6) {
                                (Err(e), c7) => (Err(e), c7),
                                (Ok(tlat), c7) => match rd_i32(c7) {
                                    (Err(e), c8) => (Err(e), c8),
                                    (Ok(tlon), c8) => rd_route_rest(c8, vessel, sequence, kind, channel_code,
                                        Coordinates { lat_e7: flat, lon_e7: flon }, Coordinates { lat_e7: tlat, lon_e7: tlon }),
                                },
                            },
                        },
                    },
                },
            },
        },
    }
}

/// A leg from its fields and the outcome of reading its points.
pub open spec fn finish_leg(
    pts: (Result<Seq<RoutePoint>, ParseError>, Cur),
    vessel: VesselId,
    sequence: u16,
    kind: RouteLegKind,
    channel_code: u16,
    from: Coordinates,
    to: Coordinates,
    eta_start: u64,
    duration: u32,
) -> (Result<RouteLegView, ParseError>, Cur) {
    match pts {
        (Err(e), c) => (Err(e), c),
        (Ok(points), c) => (Ok(RouteLegView {
            vessel,
            sequence,
            kind,
            from,
            to,
            eta_start: Timestamp(eta_start),
            eta_end: Timestamp(sat_add64(eta_start, duration as u64)),
            channel_code,
            points,
        }), c),
    }
}

/// The part of a leg after its positions.
pub open spec fn rd_route_rest(c: Cur, vessel: u32, sequence: u16, kind: u8, channel_code: u16, from: Coordinates, to: Coordinates)
    -> (Result<RouteLegView, ParseError>, Cur)
{
    match rd_u64(c) {
        (Err(e), c1) => (Err(e), c1),
        (Ok(eta_start), c1) => match rd_u32(c1) {
            (Err(e), c2) => (Err(e), c2),
            (Ok(duration), c2) => match rd_u16(c2) {
                (Err(e), c3) => (Err(e), c3),
                (Ok(count), c3) => if count > 2048 {
                    (Err(mk_err(ErrorKind::LimitExceeded, c3.abs_at(0), "route point count")), c3)
                } else {
                    finish_leg(rd_points(c3, count as nat, (from.lat_e7, from.lon_e7, eta_start)),
                        VesselId(vessel), sequence, leg_kind(kind), channel_code, from, to, eta_start, duration)
                },
            },
        },
    }
}

/// A leg's times run in order: at most 2048 points, the end no earlier than the start, and
/// the points' arrival times from the start on, never decreasing.
pub open spec fn leg_times_ordered(l: RouteLegView) -> bool {
    &&& l.points.len() <= 2048
    &&& l.eta_start.0 <= l.eta_end.0
    &&& forall|i: int| 0 <= i < l.points.len() ==> l.eta_start.0 <= (#[trigger] l.points[i]).eta.0
    &&& forall|i: int, j: int| 0 <= i <= j < l.points.len()
        ==> (#[trigger] l.points[i]).eta.0 <= (#[trigger] l.points[j]).eta.0
}

/// Points read from state `st` are as many as asked for, arrive no earlier than the state's
/// time, and arrive in order.
proof fn lemma_points_ordered(c: Cur, n: nat, st: PointState)
    ensures
        rd_points(c, n, st).0 matches Ok(ps) ==> ps.len() == n
            && (forall|i: int| 0 <= i < ps.len() ==> st.2 <= (#[trigger] ps[i]).eta.0)
            && (forall|i: int, j: int| 0 <= i <= j < ps.len() ==> (#[trigger] ps[i]).eta.0 <= (#[trigger] ps[j]).eta.0),
    decreases n,
{
    if n > 0 {
        if let (Ok((p, st1)), c1) = rd_point(c, st) {
            lemma_points_ordered(c1, (n - 1) as nat, st1);
            if let Ok(ps) = rd_points(c, n, st).0 {
                let rest = rd_points(c1, (n - 1) as nat, st1).0->Ok_0;
                assert(ps == seq![p] + rest);
                assert(p.eta.0 == st1.2 && st.2 <= st1.2);
                assert forall|i: int| 0 <= i < ps.len() implies st1.2 <= (#[trigger] ps[i]).eta.0 by {
                    if i > 0 { assert(ps[i] == rest[i - 1]); }
                }
                assert forall|i: int, j: int| 0 <= i <= j < ps.len()
                    implies (#[trigger] ps[i]).eta.0 <= (#[trigger] ps[j]).eta.0 by {
                    if i > 0 { assert(ps[i] == rest[i - 1]); }
                    if j > 0 { assert(ps[j] == rest[j - 1]); }
                }
            }
        }
    }
}

/// The part of a leg after its positions reads, when it succeeds, a leg whose times run in
/// order.
proof fn lemma_rest_ordered(c: Cur, vessel: u32, sequence: u16, kind: u8, channel_code: u16, from: Coordinates, to: Coordinates)
    ensures rd_route_rest(c, vessel, sequence, kind, channel_code, from, to).0 matches Ok(l) ==> leg_times_ordered(l),
{
    if let (Ok(eta_start), c1) = rd_u64(c) {
        if let (Ok(duration), c2) = rd_u32(c1) {
            if let (Ok(count), c3) = rd_u16(c2) {
                if count <= 2048 {
                    lemma_points_ordered(c3, count as nat, (from.lat_e7, from.lon_e7, eta_start));
                }
            }
        }
    }
}

/// A leg that reads has its times in order: its arrival times never decrease from the start
/// time on, and its end time is the start plus the duration, saturated, so never before the
/// start.
pub proof fn lemma_route_times_ordered(c: Cur)
    ensures rd_route(c).0 matches Ok(l) ==> leg_times_ordered(l),
{
    assert forall|c8: Cur, v: u32, q: u16, k: u8, ch: u16, f: Coordinates, t: Coordinates|
        (#[trigger] rd_route_rest(c8, v, q, k, ch, f, t)).0 matches Ok(l) ==> leg_times_ordered(l) by {
        lemma_rest_ordered(c8, v, q, k, ch, f, t);
    }
    reveal(rd_route);
}

/// The route leg reader.
pub open spec fn route_reader() -> Reader<RouteLegView> {
    |c: Cur| rd_route(c)
}

/// A list of legs: a `u16` count (at most 4096) and the legs.
pub open spec fn routes_spec(data: Seq<u8>, base: usize) -> Result<Seq<RouteLegView>, ParseError> {
    counted_list(data, base, 4096, "route count", route_reader())
}

/// Reads one point.
fn read_point(cursor: &mut ByteCursor, lat: i32, lon: i32, eta: u64) -> (r: ParseResult<(RoutePoint, PointState)>)
    ensures
        ({
            let (sr, c) = rd_point(old(cursor).view(), (lat, lon, eta));
            &&& final(cursor).view() == c
            &&& final(cursor).wf()
            &&& sr == r
        }),
{
    let lat = lat.wrapping_add(cursor.read_zigzag_i64("route lat delta")? as i32);
    let lon = lon.wrapping_add(cursor.read_zigzag_i64("route lon delta")? as i32);
    let eta = eta.saturating_add(cursor.read_varint("route eta delta")?);
    let speed_limit_tenths = cursor.read_u16()?;
    let depth_cm = cursor.read_u16()?;
    Ok((RoutePoint { position: Coordinates::new(lat, lon), eta: Timestamp(eta), speed_limit_tenths, depth_cm }, (lat, lon, eta)))
}

/// Reads one leg.
pub fn parse_route(cursor: &mut ByteCursor<'_>) -> (r: ParseResult<RouteLeg>)
    ensures
        ({
            let (sr, c) = rd_route(old(cursor).view());
            &&& final(cursor).view() == c
            &&& final(cursor).wf()
            &&& match sr {
                Ok(v) => r matches Ok(x) && leg_view(x) == v,
                Err(e) => r == Err::<RouteLeg, ParseError>(e),
            }
        }),
{
    proof { reveal(rd_route); }
    let vessel = VesselId(cursor.read_u32()?);
    let sequence = cursor.read_u16()?;
    let kind = RouteLegKind::from_byte(cursor.read_u8()?);
    let channel_code = cursor.read_u16()?;
    let flat = cursor.read_i32()?;
    let flon = cursor.read_i32()?;
    let from = Coordinates::new(flat, flon);
    let tlat = cursor.read_i32()?;
    let tlon = cursor.read_i32()?;
    let to = Coordinates::new(tlat, tlon);
    let eta_start = Timestamp(cursor.read_u64()?);
    let duration = cursor.read_u32()? as u64;
    let point_count = cursor.read_u16()? as usize;
    if point_count > 2048 {
        return Err(ParseError::limit(cursor.absolute_position(), "route point count"));
    }
    let ghost cp = cursor.view();
    let ghost st0: PointState = (from.lat_e7, from.lon_e7, eta_start.0);
    let mut points: Vec<RoutePoint> = Vec::new();
    let mut lat = from.lat_e7;
    let mut lon = from.lon_e7;
    let mut eta = eta_start.0;
    let mut k: usize = 0;
    proof { assert(points@ + Seq::<RoutePoint>::empty() =~= points@); }
    while k < point_count
        invariant
            0 <= k <= point_count,
            cursor.wf(),
            rd_route(old(cursor).view()) == finish_leg(rd_points(cp, point_count as nat, st0), vessel, sequence, kind,
                channel_code, from, to, eta_start.0, duration as u32),
            duration == duration as u32 as u64,
            rd_points(cp, point_count as nat, st0) == after(points@, rd_points(cursor.view(), (point_count - k) as nat, (lat, lon, eta))),
        decreases point_count - k,
    {
        let ghost before = cursor.view();
        let (p, st) = read_point(cursor, lat, lon, eta)?;
        proof {
            let inner = rd_points(cursor.view(), (point_count - k - 1) as nat, st);
            if let Ok(rest) = inner.0 {
                assert(points@ + (seq![p] + rest) =~= points@.push(p) + rest);
            }
        }
        points.push(p);
        lat = st.0;
        lon = st.1;
        eta = st.2;
        k = k + 1;
    }
    proof { assert(points@ + Seq::<RoutePoint>::empty() =~= points@); }
    Ok(RouteLeg {
        vessel,
        sequence,
        kind,
        from,
        to,
        eta_start,
        eta_end: eta_start.saturating_add(duration),
        channel_code,
        points,
    })
}

/// Reads a list of legs.
pub fn parse_routes(data: &[u8], base: usize) -> (r: ParseResult<Vec<RouteLeg>>)
    ensures
        match routes_spec(data@, base) {
            Ok(rs) => r matches Ok(v) && leg_views(v@) == rs,
            Err(e) => r is Err && r->Err_0 == e,
        },
{
    let mut cursor = ByteCursor::with_base(data, base);
    let count = cursor.read_u16()? as usize;
    if count > 4096 {
        return Err(ParseError::limit(cursor.absolute_position(), "route count"));
    }
    let ghost c1 = cursor.view();
    let mut routes: Vec<RouteLeg> = Vec::new();
    let mut k: usize = 0;
    proof { assert(leg_views(routes@) =~= Seq::<RouteLegView>::empty()); }
    while k < count
        invariant
            0 <= k <= count,
            cursor.wf(),
            routes_spec(data@, base) == records_from(c1, count as nat, route_reader()),
            records_progress(c1, count as nat, route_reader(), leg_views(routes@), cursor.view(), (count - k) as nat),
        decreases count - k,
    {
        let ghost before = cursor.view();
        let leg = match parse_route(&mut cursor) {
            Ok(l) => l,
            Err(e) => {
                proof { lemma_records_fail(c1, count as nat, route_reader(), leg_views(routes@), before, (count - k) as nat); }
                return Err(e);
            },
        };
        proof {
            lemma_records_step(c1, count as nat, route_reader(), leg_views(routes@), before, (count - k) as nat);
            assert(leg_views(routes@.push(leg)) =~= leg_views(routes@).push(leg_view(leg)));
        }
        routes.push(leg);
        k = k + 1;
    }
    proof { lemma_records_done(c1, count as nat, route_reader(), leg_views(routes@), cursor.view()); }
    Ok(routes)
}

/// The legs of a message, ordered by vessel and sequence.
#[derive(Debug, Clone)]
pub struct RouteBundle {
    pub routes: Vec<RouteLeg>,
}

impl Default for RouteBundle {
    fn default() -> (b: Self)
        ensures b.routes@.len() == 0,
    {
        RouteBundle { routes: Vec::new() }
    }
}

/// Bundle order: vessel, then sequence.
pub open spec fn bundle_keys(s: Seq<RouteLegView>) -> Seq<SortKey> {
    s.map_values(|r: RouteLegView| (r.vessel.0 as u64, r.sequence as u64, 0u64))
}

/// Reads a list of legs and orders them by vessel and sequence (stably).
pub fn parse_route_bundle(data: &[u8], base: usize) -> (r: ParseResult<RouteBundle>)
    ensures
        match routes_spec(data@, base) {
            Ok(rs) => r matches Ok(b) && leg_views(b.routes@) == sorted_with(bundle_keys(rs), rs),
            Err(e) => r is Err && r->Err_0 == e,
        },
{
    let routes = parse_routes(data, base)?;
    let mut keys: Vec<SortKey> = Vec::new();
    let mut i: usize = 0;
    while i < routes.len()
        invariant
            0 <= i <= routes@.len(),
            keys@ =~= bundle_keys(leg_views(routes@)).take(i as int),
        decreases routes@.len() - i,
    {
        keys.push((routes[i].vessel.0 as u64, routes[i].sequence as u64, 0u64));
        i = i + 1;
        proof { assert(keys@ =~= bundle_keys(leg_views(routes@)).take(i as int)); }
    }
    proof { assert(bundle_keys(leg_views(routes@)).take(i as int) =~= bundle_keys(leg_views(routes@))); }
    let ghost legs = routes@;
    let sorted = sort_with_keys(routes, keys);
    proof {
        lemma_sorted_with_map(bundle_keys(leg_views(legs)), legs, |r: RouteLeg| leg_view(r));
        assert(leg_views(legs) == legs.map_values(|r: RouteLeg| leg_view(r)));
    }
    Ok(RouteBundle { routes: sorted })
}

/// Legs of a vessel with low water for the draught.
pub open spec fn shallow_for(vessel: VesselId, draught_cm: u16) -> spec_fn(RouteLeg) -> bool {
    |r: RouteLeg| r.vessel == vessel && low_water(r.points@, draught_cm)
}

/// Total number of points.
pub open spec fn point_total(s: Seq<RouteLeg>) -> int
    decreases s.len(),
{
    if s.len() == 0 { 0 } else { point_total(s.drop_last()) + s.last().points@.len() }
}

/// Missing sequence numbers: for each consecutive pair of `s` whose second is not one past
/// the first (saturated), the number expected.
pub open spec fn gaps_of(s: Seq<u16>) -> Seq<u16>
    decreases s.len(),
{
    if s.len() < 2 {
        Seq::empty()
    } else {
        let expected = sat_add16(s[s.len() - 2] as int, 1);
        gaps_of(s.drop_last()) + if s.last() != expected { seq![expected] } else { Seq::empty() }
    }
}

/// The sequence numbers of legs.
pub open spec fn sequences_of(s: Seq<RouteLeg>) -> Seq<u16> {
    s.map_values(|r: RouteLeg| r.sequence)
}

/// Sequence numbers as sort keys.
pub open spec fn number_keys(s: Seq<u16>) -> Seq<SortKey> {
    s.map_values(|q: u16| (q as u64, 0u64, 0u64))
}

/// The sequence numbers of a vessel's legs, in sequence order (stable).
pub open spec fn vessel_sequences(s: Seq<RouteLeg>, vessel: VesselId) -> Seq<u16> {
    let mine = sequences_of(s.filter(leg_of(vessel)));
    sorted_with(number_keys(mine), mine)
}

impl RouteBundle {
    /// The legs of `vessel`, in bundle order.
    pub fn by_vessel(&self, vessel: VesselId) -> (r: Vec<&RouteLeg>)
        ensures r@.map_values(|x: &RouteLeg| *x) == self.routes@.filter(leg_of(vessel)),
    {
        let mut out: Vec<&RouteLeg> = Vec::new();
        let mut i: usize = 0;
        while i < self.routes.len()
            invariant
                0 <= i <= self.routes@.len(),
                out@.map_values(|x: &RouteLeg| *x) == self.routes@.take(i as int).filter(leg_of(vessel)),
            decreases self.routes@.len() - i,
        {
            proof {
                reveal_with_fuel(Seq::<RouteLeg>::filter, 1);
                assert(self.routes@.take(i + 1).drop_last() =~= self.routes@.take(i as int));
            }
            if self.routes[i].vessel.0 == vessel.0 {
                let ghost before = out@;
                out.push(&self.routes[i]);
                proof { assert(out@.map_values(|x: &RouteLeg| *x) =~= before.map_values(|x: &RouteLeg| *x).push(self.routes@[i as int])); }
            }
            i = i + 1;
        }
        proof { assert(self.routes@.take(i as int) =~= self.routes@); }
        out
    }

    /// Total number of points over all legs.
    pub fn total_points(&self) -> (n: usize)
        requires point_total(self.routes@) <= usize::MAX,
        ensures n == point_total(self.routes@),
    {
        let mut n: usize = 0;
        let mut i: usize = 0;
        while i < self.routes.len()
            invariant
                0 <= i <= self.routes@.len(),
                n == point_total(self.routes@.take(i as int)),
                point_total(self.routes@) <= usize::MAX,
            decreases self.routes@.len() - i,
        {
            proof {
                assert(self.routes@.take(i + 1).drop_last() =~= self.routes@.take(i as int));
                lemma_point_total_prefix(self.routes@, i + 1);
            }
            n = n + self.routes[i].points.len();
            i = i + 1;
        }
        proof { assert(self.routes@.take(i as int) =~= self.routes@); }
        n
    }

    /// The legs of `vessel` with low water for the draught, in bundle order.
    pub fn low_water_legs(&self, vessel: VesselId, draught_cm: u16) -> (r: Vec<&RouteLeg>)
        ensures r@.map_values(|x: &RouteLeg| *x) == self.routes@.filter(shallow_for(vessel, draught_cm)),
    {
        let mut out: Vec<&RouteLeg> = Vec::new();
        let mut i: usize = 0;
        while i < self.routes.len()
            invariant
                0 <= i <= self.routes@.len(),
                out@.map_values(|x: &RouteLeg| *x) == self.routes@.take(i as int).filter(shallow_for(vessel, draught_cm)),
            decreases self.routes@.len() - i,
        {
            proof {
                reveal_with_fuel(Seq::<RouteLeg>::filter, 1);
                assert(self.routes@.take(i + 1).drop_last() =~= self.routes@.take(i as int));
            }
            if self.routes[i].vessel.0 == vessel.0 && self.routes[i].has_low_water(draught_cm) {
                let ghost before = out@;
                out.push(&self.routes[i]);
                proof { assert(out@.map_values(|x: &RouteLeg| *x) =~= before.map_values(|x: &RouteLeg| *x).push(self.routes@[i as int])); }
            }
            i = i + 1;
        }
        proof { assert(self.routes@.take(i as int) =~= self.routes@); }
        out
    }

    /// The sequence numbers missing between consecutive legs of `vessel`.
    pub fn sequence_gaps(&self, vessel: VesselId) -> (g: Vec<u16>)
        ensures g@ == gaps_of(vessel_sequences(self.routes@, vessel)),
    {
        let mut seqs: Vec<u16> = Vec::new();
        let mut keys: Vec<SortKey> = Vec::new();
        let mut i: usize = 0;
        while i < self.routes.len()
            invariant
                0 <= i <= self.routes@.len(),
                seqs@ == sequences_of(self.routes@.take(i as int).filter(leg_of(vessel))),
                keys@ == number_keys(seqs@),
            decreases self.routes@.len() - i,
        {
            proof {
                reveal_with_fuel(Seq::<RouteLeg>::filter, 1);
                assert(self.routes@.take(i + 1).drop_last() =~= self.routes@.take(i as int));
            }
            if self.routes[i].vessel.0 == vessel.0 {
                let q = self.routes[i].sequence;
                let ghost f = self.routes@.take(i as int).filter(leg_of(vessel));
                seqs.push(q);
                keys.push((q as u64, 0u64, 0u64));
                proof {
                    assert(sequences_of(f.push(self.routes@[i as int])) =~= sequences_of(f).push(q));
                    assert(keys@ =~= number_keys(seqs@));
                }
            }
            i = i + 1;
        }
        proof { assert(self.routes@.take(i as int) =~= self.routes@); }
        let sorted = sort_with_keys(seqs, keys);
        let mut gaps: Vec<u16> = Vec::new();
        if sorted.len() == 0 {
            return gaps;
        }
        let mut j: usize = 1;
        proof { assert(gaps@ =~= gaps_of(sorted@.take(1))); }
        while j < sorted.len()
            invariant
                1 <= j <= sorted@.len(),
                gaps@ == gaps_of(sorted@.take(j as int)),
            decreases sorted@.len() - j,
        {
            proof { assert(sorted@.take(j + 1).drop_last() =~= sorted@.take(j as int)); }
            let expected = sorted[j - 1].saturating_add(1);
            if sorted[j] != expected {
                gaps.push(expected);
            }
            j = j + 1;
            proof { assert(gaps@ =~= gaps_of(sorted@.take(j as int))); }
        }
        proof { assert(sorted@.take(j as int) =~= sorted@); }
        gaps
    }
}

/// A prefix's point total is at most the whole's.
proof fn lemma_point_total_prefix(s: Seq<RouteLeg>, n: int)
    requires 0 <= n <= s.len(),
    ensures point_total(s.take(n)) <= point_total(s),
    decreases s.len() - n,
{
    if n < s.len() {
        assert(s.take(n + 1).drop_last() =~= s.take(n));
        lemma_point_total_prefix(s, n + 1);
    } else {
        assert(s.take(n) =~= s);
    }
}

/// `samples` points picked evenly from `pts`: sample `i` is point `i * len / samples`.
pub open spec fn picked(pts: Seq<RoutePoint>, samples: nat) -> Seq<RoutePoint> {
    Seq::new(samples, |i: int| pts[i * pts.len() / samples as int])
}

/// The leg's ends as points with no speed limit or depth.
pub open spec fn ends_of(r: RouteLeg) -> Seq<RoutePoint> {
    seq![
        RoutePoint { position: r.from, eta: r.eta_start, speed_limit_tenths: 0, depth_cm: 0 },
        RoutePoint { position: r.to, eta: r.eta_end, speed_limit_tenths: 0, depth_cm: 0 },
    ]
}

/// `samples` points along a leg: none for no samples, the two ends for a leg without points,
/// else points picked evenly from the leg's points.
pub fn interpolate_leg(route: &RouteLeg, samples: usize) -> (r: Vec<RoutePoint>)
    requires samples * route.points@.len() <= usize::MAX,
    ensures
        samples == 0 ==> r@.len() == 0,
        samples > 0 && route.points@.len() == 0 ==> r@ == ends_of(*route),
        samples > 0 && route.points@.len() > 0 ==> r@ == picked(route.points@, samples as nat),
{
    if samples == 0 {
        return Vec::new();
    }
    if route.points.len() == 0 {
        let mut ends: Vec<RoutePoint> = Vec::new();
        ends.push(RoutePoint { position: route.from, eta: route.eta_start, speed_limit_tenths: 0, depth_cm: 0 });
        ends.push(RoutePoint { position: route.to, eta: route.eta_end, speed_limit_tenths: 0, depth_cm: 0 });
        proof { assert(ends@ =~= ends_of(*route)); }
        return ends;
    }
    let len = route.points.len();
    let mut out: Vec<RoutePoint> = Vec::new();
    let mut index: usize = 0;
    while index < samples
        invariant
            0 <= index <= samples,
            len == route.points@.len(),
            len > 0,
            samples * len <= usize::MAX,
            out@ =~= picked(route.points@, samples as nat).take(index as int),
        decreases samples - index,
    {
        proof {
            assert(index * len <= samples * len) by (nonlinear_arith) requires index < samples;
            assert((index as int * len as int) / (samples as int) < len as int) by (nonlinear_arith)
                requires index < samples, samples > 0, len > 0;
        }
        let scaled = index * len / samples;
        let at = if scaled < len - 1 { scaled } else { len - 1 };
        out.push(route.points[at]);
        index = index + 1;
        proof { assert(out@ =~= picked(route.points@, samples as nat).take(index as int)); }
    }
    out
}

/// The density a leg adds: its point count (truncated to 32 bits), plus 5 when it lasts
/// under 15 minutes, plus 8 when its rough distance exceeds 5,000,000; each step saturating.
pub open spec fn density_step(d: u32, r: RouteLeg) -> u32 {
    let d1 = sat_add32(d as int, (r.points@.len() as u32) as int);
    let d2 = if sat_sub64(r.eta_end.0, r.eta_start.0) < 900 { sat_add32(d1 as int, 5) } else { d1 };
    if leg_distance(r.from, r.to, r.points@, r.points@.len()) > 5_000_000 { sat_add32(d2 as int, 8) } else { d2 }
}

/// Density of the legs, in order.
pub open spec fn density_spec(s: Seq<RouteLeg>) -> u32
    decreases s.len(),
{
    if s.len() == 0 { 0 } else { density_step(density_spec(s.drop_last()), s.last()) }
}

/// How crowded a set of legs is.
pub fn route_density(routes: &[RouteLeg]) -> (d: u32)
    ensures d == density_spec(routes@),
{
    let mut density: u32 = 0;
    let mut i: usize = 0;
    while i < routes.len()
        invariant
            0 <= i <= routes@.len(),
            density == density_spec(routes@.take(i as int)),
        decreases routes@.len() - i,
    {
        proof { assert(routes@.take(i + 1).drop_last() =~= routes@.take(i as int)); }
        let route = &routes[i];
        density = density.saturating_add(route.points.len() as u32);
        if route.duration() < 900 {
            density = density.saturating_add(5);
        }
        if route.rough_distance() > 5_000_000 {
            density = density.saturating_add(8);
        }
        i = i + 1;
    }
    proof { assert(routes@.take(i as int) =~= routes@); }
    density
}

} // verus!
