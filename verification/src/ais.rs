use vstd::prelude::*;
use crate::cursor::{ByteCursor, Cur, le16, rd_u8, rd_u16, rd_u32, rd_u64, rd_i32, rd_varint};
use crate::error::{ErrorKind, ParseError, ParseResult, mk_err};
use crate::model::{Coordinates, MovementStatus, Timestamp, VesselClass, VesselId, VesselSnapshot,
    movement_status, vessel_class, plausible, stationary, sat_add64};
use crate::sort::{SortKey, lemma_sorted_with_by, lemma_sorted_with_first, sort_with_keys, sorted_with};

verus! {

/// The fields every vessel record starts with: id, MMSI, name code, callsign code, class and
/// movement status.
pub type VesselHead = (VesselId, u32, u16, u16, VesselClass, MovementStatus);

/// Reading the fields every vessel record starts with.
pub open spec fn rd_head(c: Cur) -> (Result<VesselHead, ParseError>, Cur) {
    match rd_u32(c) {
        (Err(e), c1) => (Err(e), c1),
        (Ok(id), c1) => match rd_u32(c1) {
            (Err(e), c2) => (Err(e), c2),
            (Ok(mmsi), c2) => match rd_u16(c2) {
                (Err(e), c3) => (Err(e), c3),
                (Ok(name), c3) => match rd_u16(c3) {
                    (Err(e), c4) => (Err(e), c4),
                    (Ok(call), c4) => match rd_u8(c4) {
                        (Err(e), c5) => (Err(e), c5),
                        (Ok(class), c5) => match rd_u8(c5) {
                            (Err(e), c6) => (Err(e), c6),
                            (Ok(status), c6) => (Ok((VesselId(id), mmsi, name, call, vessel_class(class), movement_status(status))), c6),
                        },
                    },
                },
            },
        },
    }
}

/// The tail of a vessel record after its position: speed, heading, (timestamp,) draught
/// and destination code.
pub type VesselTail = (u16, u16, u16, u16);

/// Reading speed, heading, draught and destination code.
pub open spec fn rd_tail4(c: Cur) -> (Result<VesselTail, ParseError>, Cur) {
    match rd_u16(c) {
        (Err(e), c1) => (Err(e), c1),
        (Ok(a), c1) => match rd_u16(c1) {
            (Err(e), c2) => (Err(e), c2),
            (Ok(b), c2) => match rd_u16(c2) {
                (Err(e), c3) => (Err(e), c3),
                (Ok(d), c3) => match rd_u16(c3) {
                    (Err(e), c4) => (Err(e), c4),
                    (Ok(g), c4) => (Ok((a, b, d, g)), c4),
                },
            },
        },
    }
}

/// A snapshot from its parts.
pub open spec fn snapshot_of(h: VesselHead, lat: i32, lon: i32, speed: u16, heading: u16, time: u64, draught: u16, dest: u16) -> VesselSnapshot {
    VesselSnapshot {
        id: h.0,
        mmsi: h.1,
        name_code: h.2,
        callsign_code: h.3,
        class: h.4,
        status: h.5,
        position: Coordinates { lat_e7: lat, lon_e7: lon },
        speed_tenths: speed,
        heading_degrees: heading,
        timestamp: Timestamp(time),
        draught_cm: draught,
        destination_code: dest,
    }
}

/// Reading one full vessel record: the head, latitude and longitude (1e-7 degree), speed,
/// heading, timestamp, draught and destination code.
pub open spec fn rd_vessel(c: Cur) -> (Result<VesselSnapshot, ParseError>, Cur) {
    match rd_head(c) {
        (Err(e), c1) => (Err(e), c1),
        (Ok(h), c1) => match rd_i32(c1) {
            (Err(e), c2) => (Err(e), c2),
            (Ok(lat), c2) => match rd_i32(c2) {
                (Err(e), c3) => (Err(e), c3),
                (Ok(lon), c3) => match rd_u16(c3) {
                    (Err(e), c4) => (Err(e), c4),
                    (Ok(speed), c4) => match rd_u16(c4) {
                        (Err(e), c5) => (Err(e), c5),
                        (Ok(heading), c5) => match rd_u64(c5) {
                            (Err(e), c6) => (Err(e), c6),
                            (Ok(time), c6) => match rd_u16(c6) {
                                (Err(e), c7) => (Err(e), c7),
                                (Ok(draught), c7) => match rd_u16(c7) {
                                    (Err(e), c8) => (Err(e), c8),
                                    (Ok(dest), c8) => (Ok(snapshot_of(h, lat, lon, speed, heading, time, draught, dest)), c8),
                                },
                            },
                        },
                    },
                },
            },
        },
    }
}

/// `n` full vessel records, one after another.
pub open spec fn vessels_from(c: Cur, n: nat) -> Result<Seq<VesselSnapshot>, ParseError>
    decreases n,
{
    if n == 0 {
        Ok(Seq::empty())
    } else {
        match rd_vessel(c) {
            (Err(e), _) => Err(e),
            (Ok(v), c1) => match vessels_from(c1, (n - 1) as nat) {
                Err(e) => Err(e),
                Ok(rest) => Ok(seq![v] + rest),
            },
        }
    }
}

/// A list of vessel records: a `u16` count (at most 4096) and the records.
pub open spec fn vessels_spec(data: Seq<u8>, base: usize) -> Result<Seq<VesselSnapshot>, ParseError> {
    let c0 = Cur { data, pos: 0, base };
    match rd_u16(c0) {
        (Err(e), _) => Err(e),
        (Ok(count), c1) => if count > 4096 {
            Err(mk_err(ErrorKind::LimitExceeded, c1.abs_at(0), "vessel count"))
        } else {
            vessels_from(c1, count as nat)
        },
    }
}

/// Reads the fields every vessel record starts with.
fn read_head(cursor: &mut ByteCursor) -> (r: ParseResult<VesselHead>)
    ensures
        ({
            let (sr, c) = rd_head(old(cursor).view());
            &&& final(cursor).view() == c
            &&& final(cursor).wf()
            &&& sr == r
        }),
{
    let id = VesselId(cursor.read_u32()?);
    let mmsi = cursor.read_u32()?;
    let name_code = cursor.read_u16()?;
    let callsign_code = cursor.read_u16()?;
    let class = VesselClass::from_byte(cursor.read_u8()?);
    let status = MovementStatus::from_byte(cursor.read_u8()?);
    Ok((id, mmsi, name_code, callsign_code, class, status))
}

/// Reads one full vessel record.
pub fn parse_vessel(cursor: &mut ByteCursor<'_>) -> (r: ParseResult<VesselSnapshot>)
    ensures
        ({
            let (sr, c) = rd_vessel(old(cursor).view());
            &&& final(cursor).view() == c
            &&& final(cursor).wf()
            &&& sr == r
        }),
{
    let h = read_head(cursor)?;
    let lat_e7 = cursor.read_i32()?;
    let lon_e7 = cursor.read_i32()?;
    let speed_tenths = cursor.read_u16()?;
    let heading_degrees = cursor.read_u16()?;
    let timestamp = Timestamp(cursor.read_u64()?);
    let draught_cm = cursor.read_u16()?;
    let destination_code = cursor.read_u16()?;
    Ok(VesselSnapshot {
        id: h.0,
        mmsi: h.1,
        name_code: h.2,
        callsign_code: h.3,
        class: h.4,
        status: h.5,
        position: Coordinates::new(lat_e7, lon_e7),
        speed_tenths,
        heading_degrees,
        timestamp,
        draught_cm,
        destination_code,
    })
}

/// Reads a list of vessel records.
pub fn parse_vessels(data: &[u8], base: usize) -> (r: ParseResult<Vec<VesselSnapshot>>)
    ensures
        match vessels_spec(data@, base) {
            Ok(vs) => r matches Ok(v) && v@ == vs,
            Err(e) => r == Err::<Vec<VesselSnapshot>, ParseError>(e),
        },
{
    let mut cursor = ByteCursor::with_base(data, base);
    let count = cursor.read_u16()? as usize;
    if count > 4096 {
        return Err(ParseError::limit(cursor.absolute_position(), "vessel count"));
    }
    let ghost c1 = cursor.view();
    let mut vessels: Vec<VesselSnapshot> = Vec::new();
    let mut k: usize = 0;
    while k < count
        invariant
            0 <= k <= count,
            cursor.wf(),
            vessels_spec(data@, base) == vessels_from(c1, count as nat),
            match vessels_from(c1, count as nat) {
                Ok(all) => vessels_from(cursor.view(), (count - k) as nat) matches Ok(rest) && all == vessels@ + rest,
                Err(e) => vessels_from(cursor.view(), (count - k) as nat) == Err::<Seq<VesselSnapshot>, ParseError>(e),
            },
        decreases count - k,
    {
        let v = parse_vessel(&mut cursor)?;
        proof {
            if let Ok(rest) = vessels_from(cursor.view(), (count - k - 1) as nat) {
                assert(vessels@.push(v) + rest =~= vessels@ + (seq![v] + rest));
            }
        }
        vessels.push(v);
        k = k + 1;
    }
    proof {
        if let Ok(all) = vessels_from(c1, count as nat) {
            assert(all =~= vessels@);
        }
    }
    Ok(vessels)
}

/// The running position and time of a delta list.
pub type DeltaState = (i32, i32, u64);

/// Reading one delta record: the head, latitude and longitude deltas (added with wrapping),
/// a varint time delta (added with saturation), speed, heading, draught and destination code.
pub open spec fn rd_delta(c: Cur, st: DeltaState) -> (Result<(VesselSnapshot, DeltaState), ParseError>, Cur) {
    match rd_head(c) {
        (Err(e), c1) => (Err(e), c1),
        (Ok(h), c1) => match rd_i32(c1) {
            (Err(e), c2) => (Err(e), c2),
            (Ok(dlat), c2) => match rd_i32(c2) {
                (Err(e), c3) => (Err(e), c3),
                (Ok(dlon), c3) => match rd_varint(c3, "vessel delta time") {
                    (Err(e), c4) => (Err(e), c4),
                    (Ok(dt), c4) => match rd_tail4(c4) {
                        (Err(e), c5) => (Err(e), c5),
                        (Ok(t), c5) => {
                            let lat = vstd::wrapping::i32_specs::wrapping_add(st.0, dlat);
                            let lon = vstd::wrapping::i32_specs::wrapping_add(st.1, dlon);
                            let time = sat_add64(st.2, dt);
                            (Ok((snapshot_of(h, lat, lon, t.0, t.1, time, t.2, t.3), (lat, lon, time))), c5)
                        },
                    },
                },
            },
        },
    }
}

/// `n` delta records, one after another, from state `st`.
pub open spec fn deltas_from(c: Cur, n: nat, st: DeltaState) -> Result<Seq<VesselSnapshot>, ParseError>
    decreases n,
{
    if n == 0 {
        Ok(Seq::empty())
    } else {
        match rd_delta(c, st) {
            (Err(e), _) => Err(e),
            (Ok((v, st1)), c1) => match deltas_from(c1, (n - 1) as nat, st1) {
                Err(e) => Err(e),
                Ok(rest) => Ok(seq![v] + rest),
            },
        }
    }
}

/// A delta-encoded vessel list: a `u16` count (at most 4096) and the records, positions and
/// times running from zero.
pub open spec fn deltas_spec(data: Seq<u8>, base: usize) -> Result<Seq<VesselSnapshot>, ParseError> {
    let c0 = Cur { data, pos: 0, base };
    match rd_u16(c0) {
        (Err(e), _) => Err(e),
        (Ok(count), c1) => if count > 4096 {
            Err(mk_err(ErrorKind::LimitExceeded, c1.abs_at(0), "vessel delta count"))
        } else {
            deltas_from(c1, count as nat, (0, 0, 0))
        },
    }
}

/// Delta records read from state `st` are as many as asked for; each one's time is at least
/// the state's and at least the time of every record before it.
proof fn lemma_deltas_ordered(c: Cur, n: nat, st: DeltaState)
    ensures
        deltas_from(c, n, st) matches Ok(vs) ==> vs.len() == n
            && (forall|i: int| 0 <= i < vs.len() ==> st.2 <= (#[trigger] vs[i]).timestamp.0)
            && (forall|i: int, j: int| 0 <= i <= j < vs.len() ==> (#[trigger] vs[i]).timestamp.0 <= (#[trigger] vs[j]).timestamp.0),
    decreases n,
{
    if n > 0 {
        if let (Ok((v, st1)), c1) = rd_delta(c, st) {
            lemma_deltas_ordered(c1, (n - 1) as nat, st1);
            if let Ok(vs) = deltas_from(c, n, st) {
                let rest = deltas_from(c1, (n - 1) as nat, st1)->Ok_0;
                assert(vs == seq![v] + rest);
                assert(v.timestamp.0 == st1.2 && st.2 <= st1.2);
                assert forall|i: int| 0 <= i < vs.len() implies st1.2 <= (#[trigger] vs[i]).timestamp.0 by {
                    if i > 0 { assert(vs[i] == rest[i - 1]); }
                }
                assert forall|i: int, j: int| 0 <= i <= j < vs.len()
                    implies (#[trigger] vs[i]).timestamp.0 <= (#[trigger] vs[j]).timestamp.0 by {
                    if i > 0 { assert(vs[i] == rest[i - 1]); }
                    if j > 0 { assert(vs[j] == rest[j - 1]); }
                }
            }
        }
    }
}

/// A delta-encoded vessel list that decodes holds as many records as its count says (at most
/// 4096), in non-decreasing time order: each time is the saturated sum of the deltas so far.
pub proof fn lemma_delta_times_ordered(data: Seq<u8>, base: usize)
    ensures
        deltas_spec(data, base) matches Ok(vs) ==> data.len() >= 2 && vs.len() == le16(data, 0) && vs.len() <= 4096
            && forall|i: int, j: int| 0 <= i <= j < vs.len() ==> (#[trigger] vs[i]).timestamp.0 <= (#[trigger] vs[j]).timestamp.0,
{
    let c1 = Cur { data, pos: 2, base };
    if let Ok(vs) = deltas_spec(data, base) {
        lemma_deltas_ordered(c1, le16(data, 0) as u16 as nat, (0, 0, 0));
    }
}

/// Reads one delta record.
fn read_delta(cursor: &mut ByteCursor, last_lat: i32, last_lon: i32, last_time: u64) -> (r: ParseResult<(VesselSnapshot, DeltaState)>)
    ensures
        ({
            let (sr, c) = rd_delta(old(cursor).view(), (last_lat, last_lon, last_time));
            &&& final(cursor).view() == c
            &&& final(cursor).wf()
            &&& sr == r
        }),
{
    let h = read_head(cursor)?;
    let lat = last_lat.wrapping_add(cursor.read_i32()?);
    let lon = last_lon.wrapping_add(cursor.read_i32()?);
    let delta_time = cursor.read_varint("vessel delta time")?;
    let time = last_time.saturating_add(delta_time);
    let speed_tenths = cursor.read_u16()?;
    let heading_degrees = cursor.read_u16()?;
    let draught_cm = cursor.read_u16()?;
    let destination_code = cursor.read_u16()?;
    let v = VesselSnapshot {
        id: h.0,
        mmsi: h.1,
        name_code: h.2,
        callsign_code: h.3,
        class: h.4,
        status: h.5,
        position: Coordinates::new(lat, lon),
        speed_tenths,
        heading_degrees,
        timestamp: Timestamp(time),
        draught_cm,
        destination_code,
    };
    Ok((v, (lat, lon, time)))
}

/// Reads a delta-encoded vessel list.
pub fn parse_delta_vessels(data: &[u8], base: usize) -> (r: ParseResult<Vec<VesselSnapshot>>)
    ensures
        match deltas_spec(data@, base) {
            Ok(vs) => r matches Ok(v) && v@ == vs,
            Err(e) => r == Err::<Vec<VesselSnapshot>, ParseError>(e),
        },
{
    let mut cursor = ByteCursor::with_base(data, base);
    let count = cursor.read_u16()? as usize;
    if count > 4096 {
        return Err(ParseError::limit(cursor.absolute_position(), "vessel delta count"));
    }
    let ghost c1 = cursor.view();
    let mut last_lat: i32 = 0;
    let mut last_lon: i32 = 0;
    let mut last_time: u64 = 0;
    let mut out: Vec<VesselSnapshot> = Vec::new();
    let mut k: usize = 0;
    while k < count
        invariant
            0 <= k <= count,
            cursor.wf(),
            deltas_spec(data@, base) == deltas_from(c1, count as nat, (0, 0, 0)),
            match deltas_from(c1, count as nat, (0, 0, 0)) {
                Ok(all) => deltas_from(cursor.view(), (count - k) as nat, (last_lat, last_lon, last_time)) matches Ok(rest)
                    && all == out@ + rest,
                Err(e) => deltas_from(cursor.view(), (count - k) as nat, (last_lat, last_lon, last_time))
                    == Err::<Seq<VesselSnapshot>, ParseError>(e),
            },
        decreases count - k,
    {
        let (v, st) = read_delta(&mut cursor, last_lat, last_lon, last_time)?;
        proof {
            if let Ok(rest) = deltas_from(cursor.view(), (count - k - 1) as nat, st) {
                assert(out@.push(v) + rest =~= out@ + (seq![v] + rest));
            }
        }
        out.push(v);
        last_lat = st.0;
        last_lon = st.1;
        last_time = st.2;
        k = k + 1;
    }
    proof {
        if let Ok(all) = deltas_from(c1, count as nat, (0, 0, 0)) {
            assert(all =~= out@);
        }
    }
    Ok(out)
}

/// Counts over a list of vessels.
#[derive(Debug, Clone, PartialEq, Eq, Structural)]
pub struct TrackSummary {
    pub count: usize,
    pub stationary: usize,
    pub implausible_positions: usize,
    pub max_speed: u16,
    pub max_draught: u16,
}

impl Default for TrackSummary {
    fn default() -> (s: Self)
        ensures s == (TrackSummary { count: 0, stationary: 0, implausible_positions: 0, max_speed: 0, max_draught: 0 }),
    {
        TrackSummary { count: 0, stationary: 0, implausible_positions: 0, max_speed: 0, max_draught: 0 }
    }
}

/// The larger of two `u16` values.
pub open spec fn max16(a: u16, b: u16) -> u16 {
    if a >= b { a } else { b }
}

/// The summary of `s`: how many vessels, how many stationary, how many with an implausible
/// position, and the highest speed and draught (zero for none).
pub open spec fn summary_spec(s: Seq<VesselSnapshot>) -> TrackSummary
    decreases s.len(),
{
    if s.len() == 0 {
        TrackSummary { count: 0, stationary: 0, implausible_positions: 0, max_speed: 0, max_draught: 0 }
    } else {
        let t = summary_spec(s.drop_last());
        let v = s.last();
        TrackSummary {
            count: (t.count + 1) as usize,
            stationary: (t.stationary + if stationary(v) { 1int } else { 0 }) as usize,
            implausible_positions: (t.implausible_positions + if !plausible(v.position) { 1int } else { 0 }) as usize,
            max_speed: max16(t.max_speed, v.speed_tenths),
            max_draught: max16(t.max_draught, v.draught_cm),
        }
    }
}

/// Summarizes a list of vessels.
pub fn summarize_tracks(vessels: &[VesselSnapshot]) -> (s: TrackSummary)
    ensures s == summary_spec(vessels@),
{
    let mut summary = TrackSummary::default();
    let mut i: usize = 0;
    while i < vessels.len()
        invariant
            0 <= i <= vessels@.len(),
            summary == summary_spec(vessels@.take(i as int)),
            summary.count == i,
            summary.stationary <= i,
            summary.implausible_positions <= i,
        decreases vessels@.len() - i,
    {
        proof { assert(vessels@.take(i + 1).drop_last() =~= vessels@.take(i as int)); }
        let vessel = &vessels[i];
        summary.count = summary.count + 1;
        if vessel.speed_tenths > summary.max_speed {
            summary.max_speed = vessel.speed_tenths;
        }
        if vessel.draught_cm > summary.max_draught {
            summary.max_draught = vessel.draught_cm;
        }
        if !vessel.position.is_plausible() {
            summary.implausible_positions = summary.implausible_positions + 1;
        }
        if vessel.is_stationary() {
            summary.stationary = summary.stationary + 1;
        }
        i = i + 1;
    }
    proof { assert(vessels@.take(i as int) =~= vessels@); }
    summary
}

/// A heading brought into `0..360`.
pub fn normalize_heading(value: u16) -> (h: u16)
    ensures h == value % 360,
{
    if value >= 360 { value % 360 } else { value }
}

/// A vessel's track order: by timestamp, then by id.
pub fn track_sort_key(vessel: &VesselSnapshot) -> (k: (u64, u32))
    ensures k == (vessel.timestamp.0, vessel.id.0),
{
    (vessel.timestamp.0, vessel.id.0)
}

/// Track order as a sort key.
pub open spec fn track_keys(s: Seq<VesselSnapshot>) -> Seq<SortKey> {
    s.map_values(track_key())
}

/// A snapshot's place in track order: time, then vessel.
pub open spec fn track_key() -> spec_fn(VesselSnapshot) -> SortKey {
    |v: VesselSnapshot| (v.timestamp.0, v.id.0 as u64, 0u64)
}

/// Two snapshots of the same vessel at the same time.
pub open spec fn same_fix(a: VesselSnapshot, b: VesselSnapshot) -> bool {
    a.id == b.id && a.timestamp == b.timestamp
}

/// `s` without the elements that repeat, by `same_fix`, the element kept just before them.
pub open spec fn dedup_fixes(s: Seq<VesselSnapshot>) -> Seq<VesselSnapshot>
    decreases s.len(),
{
    if s.len() == 0 {
        s
    } else {
        let d = dedup_fixes(s.drop_last());
        if d.len() > 0 && same_fix(d.last(), s.last()) { d } else { d.push(s.last()) }
    }
}

/// `a` comes no later than `b` in track order.
pub open spec fn track_le(a: VesselSnapshot, b: VesselSnapshot) -> bool {
    a.timestamp.0 < b.timestamp.0 || (a.timestamp.0 == b.timestamp.0 && a.id.0 <= b.id.0)
}

/// `a` comes strictly before `b` in track order.
pub open spec fn track_lt(a: VesselSnapshot, b: VesselSnapshot) -> bool {
    a.timestamp.0 < b.timestamp.0 || (a.timestamp.0 == b.timestamp.0 && a.id.0 < b.id.0)
}

/// Dropping repeated fixes keeps only snapshots that were there, no more of them, and one for
/// every fix.
proof fn lemma_fixes_kept(r: Seq<VesselSnapshot>)
    ensures
        dedup_fixes(r).len() <= r.len(),
        forall|i: int| 0 <= i < dedup_fixes(r).len() ==> r.contains(#[trigger] dedup_fixes(r)[i]),
        forall|k: int| 0 <= k < r.len() ==> exists|i: int| 0 <= i < dedup_fixes(r).len()
            && same_fix(#[trigger] dedup_fixes(r)[i], #[trigger] r[k]),
    decreases r.len(),
{
    if r.len() > 0 {
        let p = r.drop_last();
        lemma_fixes_kept(p);
        let d = dedup_fixes(p);
        let n = dedup_fixes(r);
        assert forall|i: int| 0 <= i < n.len() implies r.contains(#[trigger] n[i]) by {
            if i < d.len() {
                assert(n[i] == d[i]);
                let m = choose|m: int| 0 <= m < p.len() && p[m] == d[i];
                assert(r[m] == d[i]);
            } else {
                assert(r[r.len() - 1] == n[i]);
            }
        }
        assert forall|k: int| 0 <= k < r.len() implies exists|i: int| 0 <= i < n.len() && same_fix(#[trigger] n[i], #[trigger] r[k]) by {
            if k < p.len() {
                assert(r[k] == p[k]);
                let i = choose|i: int| 0 <= i < d.len() && same_fix(#[trigger] d[i], #[trigger] p[k]);
                assert(n[i] == d[i]);
            } else {
                assert(same_fix(n[n.len() - 1], r[k]));
            }
        }
    }
}

/// Dropping repeated fixes keeps a sub-multiset of the snapshots.
proof fn lemma_fixes_sub(r: Seq<VesselSnapshot>)
    ensures dedup_fixes(r).to_multiset().subset_of(r.to_multiset()),
    decreases r.len(),
{
    broadcast use vstd::multiset::group_multiset_axioms, vstd::seq_lib::to_multiset_build;
    if r.len() == 0 {
        assert(dedup_fixes(r) =~= r);
    } else {
        let p = r.drop_last();
        lemma_fixes_sub(p);
        assert(p.push(r.last()) =~= r);
        let d = dedup_fixes(p);
        if !(d.len() > 0 && same_fix(d.last(), r.last())) {
            assert(dedup_fixes(r) == d.push(r.last()));
        }
    }
}

/// Dropping repeated fixes from snapshots in track order leaves them strictly in track order
/// (so no two share a fix), none after the last snapshot.
proof fn lemma_fixes_strict(r: Seq<VesselSnapshot>)
    requires forall|i: int, j: int| 0 <= i < j < r.len() ==> track_le(#[trigger] r[i], #[trigger] r[j]),
    ensures
        forall|i: int, j: int| 0 <= i < j < dedup_fixes(r).len() ==> track_lt(#[trigger] dedup_fixes(r)[i], #[trigger] dedup_fixes(r)[j]),
        r.len() > 0 ==> forall|i: int| 0 <= i < dedup_fixes(r).len() ==> track_le(#[trigger] dedup_fixes(r)[i], r.last()),
        r.len() > 0 ==> dedup_fixes(r).len() > 0 && same_fix(dedup_fixes(r).last(), r.last()),
    decreases r.len(),
{
    if r.len() > 0 {
        let p = r.drop_last();
        let t = r.last();
        assert forall|i: int, j: int| 0 <= i < j < p.len() implies track_le(#[trigger] p[i], #[trigger] p[j]) by {
            assert(p[i] == r[i] && p[j] == r[j]);
        }
        lemma_fixes_strict(p);
        let d = dedup_fixes(p);
        let n = dedup_fixes(r);
        if p.len() > 0 {
            assert(p.last() == r[r.len() - 2]);
            assert(track_le(r[r.len() - 2], r[r.len() - 1]));
        }
        if d.len() > 0 && same_fix(d.last(), t) {
            assert(n == d);
            assert forall|i: int| 0 <= i < n.len() implies track_le(#[trigger] n[i], t) by {}
        } else {
            assert(n == d.push(t));
            if d.len() > 0 {
                assert(track_lt(d.last(), t));
            }
            assert forall|i: int, j: int| 0 <= i < j < n.len() implies track_lt(#[trigger] n[i], #[trigger] n[j]) by {
                assert(n[i] == d[i]);
                if j < d.len() {
                    assert(n[j] == d[j]);
                } else if i < d.len() - 1 {
                    assert(track_lt(d[i], d[d.len() - 1]));
                }
            }
            assert forall|i: int| 0 <= i < n.len() implies track_le(#[trigger] n[i], t) by {
                if i < d.len() { assert(n[i] == d[i]); }
            }
        }
    }
}

/// Dropping repeated fixes from snapshots in track order keeps, for each fix, the first
/// snapshot with that fix.
proof fn lemma_fixes_first(r: Seq<VesselSnapshot>)
    requires forall|i: int, j: int| 0 <= i < j < r.len() ==> track_le(#[trigger] r[i], #[trigger] r[j]),
    ensures
        forall|i: int| 0 <= i < dedup_fixes(r).len() ==> exists|m: int| 0 <= m < r.len()
            && r[m] == #[trigger] dedup_fixes(r)[i] && forall|j: int| 0 <= j < m ==> !same_fix(#[trigger] r[j], dedup_fixes(r)[i]),
    decreases r.len(),
{
    if r.len() > 0 {
        let p = r.drop_last();
        let t = r.last();
        assert forall|i: int, j: int| 0 <= i < j < p.len() implies track_le(#[trigger] p[i], #[trigger] p[j]) by {
            assert(p[i] == r[i] && p[j] == r[j]);
        }
        lemma_fixes_first(p);
        lemma_fixes_strict(p);
        let d = dedup_fixes(p);
        let n = dedup_fixes(r);
        if d.len() > 0 && same_fix(d.last(), t) {
            assert forall|i: int| 0 <= i < n.len() implies exists|m: int| 0 <= m < r.len()
                && r[m] == #[trigger] n[i] && forall|j: int| 0 <= j < m ==> !same_fix(#[trigger] r[j], n[i]) by {
                let m = choose|m: int| 0 <= m < p.len() && p[m] == d[i] && forall|j: int| 0 <= j < m ==> !same_fix(#[trigger] p[j], d[i]);
                assert forall|j: int| 0 <= j < m implies !same_fix(#[trigger] r[j], n[i]) by { assert(r[j] == p[j]); }
                assert(r[m] == p[m]);
            }
        } else {
            assert(n == d.push(t));
            assert forall|i: int| 0 <= i < n.len() implies exists|m: int| 0 <= m < r.len()
                && r[m] == #[trigger] n[i] && forall|j: int| 0 <= j < m ==> !same_fix(#[trigger] r[j], n[i]) by {
                if i < d.len() {
                    assert(n[i] == d[i]);
                    let m = choose|m: int| 0 <= m < p.len() && p[m] == d[i] && forall|j: int| 0 <= j < m ==> !same_fix(#[trigger] p[j], d[i]);
                    assert forall|j: int| 0 <= j < m implies !same_fix(#[trigger] r[j], n[i]) by { assert(r[j] == p[j]); }
                    assert(r[m] == p[m]);
                } else {
                    let m = r.len() - 1;
                    assert(r[m] == n[i]);
                    assert forall|j: int| 0 <= j < m implies !same_fix(#[trigger] r[j], n[i]) by {
                        if same_fix(r[j], t) {
                            if j < m - 1 {
                                assert(track_le(r[j], r[m - 1]));
                                assert(track_le(r[m - 1], r[m]));
                            }
                            assert(same_fix(p.last(), t));
                            assert(same_fix(d.last(), t));
                        }
                    }
                }
            }
        }
    }
}

/// Of each fix, deduplicating tracks keeps the first snapshot given: every snapshot kept is
/// one given, and no snapshot given before it has its fix.
#[verifier::spinoff_prover]
pub proof fn lemma_tracks_keep_first(vessels: Seq<VesselSnapshot>)
    ensures ({
        let out = dedup_fixes(sorted_with(track_keys(vessels), vessels));
        forall|i: int| 0 <= i < out.len() ==> exists|m: int| 0 <= m < vessels.len()
            && vessels[m] == #[trigger] out[i] && forall|j: int| 0 <= j < m ==> !same_fix(#[trigger] vessels[j], out[i])
    }),
{
    let r = sorted_with(track_keys(vessels), vessels);
    lemma_sorted_with_by(vessels, track_key());
    assert forall|i: int, j: int| 0 <= i < j < r.len() implies track_le(#[trigger] r[i], #[trigger] r[j]) by {
        assert(crate::sort::key_le(track_key()(r[i]), track_key()(r[j])));
    }
    lemma_fixes_first(r);
    let out = dedup_fixes(r);
    assert forall|i: int| 0 <= i < out.len() implies exists|m: int| 0 <= m < vessels.len()
        && vessels[m] == #[trigger] out[i] && forall|j: int| 0 <= j < m ==> !same_fix(#[trigger] vessels[j], out[i]) by {
        let m = choose|m: int| 0 <= m < r.len() && r[m] == out[i] && forall|j: int| 0 <= j < m ==> !same_fix(#[trigger] r[j], out[i]);
        assert forall|j: int| 0 <= j < m implies track_key()(#[trigger] r[j]) != track_key()(r[m]) by {
            if track_key()(r[j]) == track_key()(r[m]) {
                assert(r[j].id.0 == r[m].id.0);
                assert(same_fix(r[j], out[i]));
            }
        }
        lemma_sorted_with_first(vessels, track_key(), m);
        let m0 = choose|m0: int| 0 <= m0 < vessels.len() && vessels[m0] == r[m]
            && forall|j: int| 0 <= j < m0 ==> track_key()(#[trigger] vessels[j]) != track_key()(r[m]);
        assert forall|j: int| 0 <= j < m0 implies !same_fix(#[trigger] vessels[j], out[i]) by {
            assert(track_key()(vessels[j]) != track_key()(r[m]));
        }
    }
}

/// Deduplicating tracks gives snapshots strictly in track order (time, then vessel), so no
/// two of the same vessel at the same time, a sub-multiset of the snapshots given, and for
/// every snapshot given one of the same vessel at the same time: the set of fixes is kept.
pub proof fn lemma_deduplicate_tracks(vessels: Seq<VesselSnapshot>)
    ensures ({
        let out = dedup_fixes(sorted_with(track_keys(vessels), vessels));
        &&& out.len() <= vessels.len()
        &&& out.to_multiset().subset_of(vessels.to_multiset())
        &&& forall|i: int, j: int| 0 <= i < j < out.len() ==> track_lt(#[trigger] out[i], #[trigger] out[j])
        &&& forall|i: int| 0 <= i < out.len() ==> vessels.contains(#[trigger] out[i])
        &&& forall|k: int| 0 <= k < vessels.len() ==> exists|i: int| 0 <= i < out.len()
            && same_fix(#[trigger] out[i], #[trigger] vessels[k])
    }),
{
    let r = sorted_with(track_keys(vessels), vessels);
    lemma_sorted_with_by(vessels, track_key());
    assert forall|i: int, j: int| 0 <= i < j < r.len() implies track_le(#[trigger] r[i], #[trigger] r[j]) by {
        assert(crate::sort::key_le(track_key()(r[i]), track_key()(r[j])));
    }
    lemma_fixes_kept(r);
    lemma_fixes_strict(r);
    lemma_fixes_sub(r);
    let out = dedup_fixes(r);
    assert forall|i: int| 0 <= i < out.len() implies vessels.contains(#[trigger] out[i]) by {
        let m = choose|m: int| 0 <= m < r.len() && r[m] == out[i];
    }
    assert forall|k: int| 0 <= k < vessels.len() implies exists|i: int| 0 <= i < out.len()
        && same_fix(#[trigger] out[i], #[trigger] vessels[k]) by {
        assert(r.contains(vessels[k]));
        let m = choose|m: int| 0 <= m < r.len() && r[m] == vessels[k];
        let i = choose|i: int| 0 <= i < out.len() && same_fix(#[trigger] out[i], #[trigger] r[m]);
    }
}

/// Sorts vessels into track order (stably) and drops repeated fixes of a vessel.
pub fn deduplicate_tracks(vessels: Vec<VesselSnapshot>) -> (r: Vec<VesselSnapshot>)
    ensures r@ == dedup_fixes(sorted_with(track_keys(vessels@), vessels@)),
{
    let mut keys: Vec<SortKey> = Vec::new();
    let mut i: usize = 0;
    while i < vessels.len()
        invariant
            0 <= i <= vessels@.len(),
            keys@ =~= track_keys(vessels@).take(i as int),
        decreases vessels@.len() - i,
    {
        keys.push((vessels[i].timestamp.0, vessels[i].id.0 as u64, 0u64));
        i = i + 1;
        proof { assert(keys@ =~= track_keys(vessels@).take(i as int)); }
    }
    proof { assert(track_keys(vessels@).take(i as int) =~= track_keys(vessels@)); }
    let sorted = sort_with_keys(vessels, keys);
    let mut out: Vec<VesselSnapshot> = Vec::new();
    let mut j: usize = 0;
    while j < sorted.len()
        invariant
            0 <= j <= sorted@.len(),
            out@ == dedup_fixes(sorted@.take(j as int)),
        decreases sorted@.len() - j,
    {
        proof { assert(sorted@.take(j + 1).drop_last() =~= sorted@.take(j as int)); }
        let v = sorted[j];
        let n = out.len();
        let repeated = n > 0 && out[n - 1].id.0 == v.id.0 && out[n - 1].timestamp.0 == v.timestamp.0;
        if !repeated {
            out.push(v);
        }
        j = j + 1;
    }
    proof { assert(sorted@.take(j as int) =~= sorted@); }
    out
}

} // verus!
