use vstd::prelude::*;
use core::cmp::Ordering;
use crate::text::{hex_fixed, push_hex_fixed, string_from_chars};
use crate::sort::{SortKey, sort_with_keys, sorted_with};

verus! {

#[derive(Debug, Clone, Copy, PartialEq, Eq, PartialOrd, Ord, Hash, Default, Structural)]
pub struct VesselId(pub u32);

impl VesselId {
    pub fn new(value: u32) -> (id: Self)
        ensures id.0 == value,
    {
        VesselId(value)
    }

    pub fn is_temporary(self) -> (b: bool)
        ensures b == (self.0 >= 0x8000_0000),
    {
        self.0 >= 0x8000_0000
    }

    pub fn low_bits(self) -> (v: u16)
        ensures v == self.0 % 0x1_0000,
    {
        (self.0 % 0x1_0000) as u16
    }

    /// The display form: `V` and eight lowercase hexadecimal digits.
    pub fn to_text(self) -> (s: String)
        ensures s@ == vessel_text(self),
    {
        let mut out: Vec<char> = Vec::new();
        out.push('V');
        push_hex_fixed(&mut out, self.0 as u64, 8);
        string_from_chars(out)
    }
}

/// `V` followed by the identifier in eight lowercase hexadecimal digits.
pub open spec fn vessel_text(id: VesselId) -> Seq<char> {
    seq!['V'] + hex_fixed(id.0 as nat, 8)
}

#[derive(Debug, Clone, Copy, PartialEq, Eq, PartialOrd, Ord, Hash, Default, Structural)]
pub struct BerthId(pub u16);

impl BerthId {
    pub fn new(value: u16) -> (id: Self)
        ensures id.0 == value,
    {
        BerthId(value)
    }

    pub fn zone(self) -> (z: u8)
        ensures z == self.0 / 0x100,
    {
        (self.0 / 0x100) as u8
    }

    pub fn slot(self) -> (s: u8)
        ensures s == self.0 % 0x100,
    {
        (self.0 % 0x100) as u8
    }

    /// The display form: `B`, the zone in two hexadecimal digits, `-`, the slot likewise.
    pub fn to_text(self) -> (s: String)
        ensures s@ == berth_text(self),
    {
        let mut out: Vec<char> = Vec::new();
        out.push('B');
        push_hex_fixed(&mut out, (self.0 / 0x100) as u64, 2);
        out.push('-');
        push_hex_fixed(&mut out, (self.0 % 0x100) as u64, 2);
        string_from_chars(out)
    }
}

/// `B`, zone and slot of a berth in two lowercase hexadecimal digits each, joined by `-`.
pub open spec fn berth_text(id: BerthId) -> Seq<char> {
    seq!['B'] + hex_fixed((id.0 / 0x100) as nat, 2) + seq!['-'] + hex_fixed((id.0 % 0x100) as nat, 2)
}

#[derive(Debug, Clone, Copy, PartialEq, Eq, PartialOrd, Ord, Default, Structural)]
pub struct Timestamp(pub u64);

/// `a + b` saturated at `u64::MAX`.
pub open spec fn sat_add64(a: u64, b: u64) -> u64 {
    if a + b > u64::MAX { u64::MAX } else { (a + b) as u64 }
}

/// `a - b` saturated at zero.
pub open spec fn sat_sub64(a: u64, b: u64) -> u64 {
    if a < b { 0 } else { (a - b) as u64 }
}

impl Timestamp {
    pub fn seconds(self) -> (s: u64)
        ensures s == self.0,
    {
        self.0
    }

    pub fn saturating_add(self, seconds: u64) -> (t: Self)
        ensures t.0 == sat_add64(self.0, seconds),
    {
        Timestamp(self.0.saturating_add(seconds))
    }

    pub fn saturating_sub(self, seconds: u64) -> (t: Self)
        ensures t.0 == sat_sub64(self.0, seconds),
    {
        Timestamp(self.0.saturating_sub(seconds))
    }

    pub fn within(self, start: Timestamp, end: Timestamp) -> (b: bool)
        ensures b == (start.0 <= self.0 <= end.0),
    {
        self.0 >= start.0 && self.0 <= end.0
    }
}

#[derive(Debug, Clone, Copy, PartialEq, Eq, Default, Structural)]
pub struct Coordinates {
    pub lat_e7: i32,
    pub lon_e7: i32,
}

/// `|a - b|`.
pub open spec fn abs_diff(a: int, b: int) -> nat {
    if a >= b { (a - b) as nat } else { (b - a) as nat }
}

/// `a + b` saturated at `u32::MAX`.
pub open spec fn sat_add32(a: int, b: int) -> u32 {
    if a + b > u32::MAX { u32::MAX } else { (a + b) as u32 }
}

/// Latitude within ±90° and longitude within ±180° (in units of 1e-7 degree).
pub open spec fn plausible(c: Coordinates) -> bool {
    -900_000_000 <= c.lat_e7 <= 900_000_000 && -1_800_000_000 <= c.lon_e7 <= 1_800_000_000
}

/// The Manhattan distance between two positions, saturated at `u32::MAX`.
pub open spec fn manhattan(a: Coordinates, b: Coordinates) -> u32 {
    sat_add32(abs_diff(a.lat_e7 as int, b.lat_e7 as int) as int, abs_diff(a.lon_e7 as int, b.lon_e7 as int) as int)
}

/// `|a - b|` of two `i32` values (`i32::abs_diff`).
pub fn abs_diff_i32(a: i32, b: i32) -> (d: u32)
    ensures d == abs_diff(a as int, b as int),
{
    if a >= b { ((a as i64) - (b as i64)) as u32 } else { ((b as i64) - (a as i64)) as u32 }
}

impl Coordinates {
    pub fn new(lat_e7: i32, lon_e7: i32) -> (c: Self)
        ensures c.lat_e7 == lat_e7, c.lon_e7 == lon_e7,
    {
        Coordinates { lat_e7, lon_e7 }
    }

    pub fn is_plausible(self) -> (b: bool)
        ensures b == plausible(self),
    {
        -900_000_000 <= self.lat_e7 && self.lat_e7 <= 900_000_000
            && -1_800_000_000 <= self.lon_e7 && self.lon_e7 <= 1_800_000_000
    }

    pub fn manhattan_to(self, other: Coordinates) -> (d: u32)
        ensures d == manhattan(self, other),
    {
        abs_diff_i32(self.lat_e7, other.lat_e7).saturating_add(abs_diff_i32(self.lon_e7, other.lon_e7))
    }
}

#[derive(Debug, Clone, Copy, PartialEq, Eq, Structural)]
pub enum VesselClass {
    Cargo,
    Tanker,
    Passenger,
    Tug,
    Pilot,
    Service,
    Fishing,
    Military,
    Unknown(u8),
}

/// The vessel class encoded by a byte.
pub open spec fn vessel_class(byte: u8) -> VesselClass {
    if byte == 0 { VesselClass::Cargo }
    else if byte == 1 { VesselClass::Tanker }
    else if byte == 2 { VesselClass::Passenger }
    else if byte == 3 { VesselClass::Tug }
    else if byte == 4 { VesselClass::Pilot }
    else if byte == 5 { VesselClass::Service }
    else if byte == 6 { VesselClass::Fishing }
    else if byte == 7 { VesselClass::Military }
    else { VesselClass::Unknown(byte) }
}

/// The risk weight of a vessel class.
pub open spec fn class_weight(c: VesselClass) -> u16 {
    match c {
        VesselClass::Cargo => 20,
        VesselClass::Tanker => 45,
        VesselClass::Passenger => 35,
        VesselClass::Tug => 12,
        VesselClass::Pilot => 6,
        VesselClass::Service => 8,
        VesselClass::Fishing => 14,
        VesselClass::Military => 50,
        VesselClass::Unknown(_) => 25,
    }
}

impl VesselClass {
    pub fn from_byte(byte: u8) -> (c: Self)
        ensures c == vessel_class(byte),
    {
        match byte {
            0 => VesselClass::Cargo,
            1 => VesselClass::Tanker,
            2 => VesselClass::Passenger,
            3 => VesselClass::Tug,
            4 => VesselClass::Pilot,
            5 => VesselClass::Service,
            6 => VesselClass::Fishing,
            7 => VesselClass::Military,
            other => VesselClass::Unknown(other),
        }
    }

    pub fn risk_weight(self) -> (w: u16)
        ensures w == class_weight(self),
    {
        match self {
            VesselClass::Cargo => 20,
            VesselClass::Tanker => 45,
            VesselClass::Passenger => 35,
            VesselClass::Tug => 12,
            VesselClass::Pilot => 6,
            VesselClass::Service => 8,
            VesselClass::Fishing => 14,
            VesselClass::Military => 50,
            VesselClass::Unknown(_) => 25,
        }
    }
}

#[derive(Debug, Clone, Copy, PartialEq, Eq, Structural)]
pub enum MovementStatus {
    Moored,
    Underway,
    Anchored,
    Restricted,
    Aground,
    Unknown(u8),
}

/// The movement status encoded by a byte.
pub open spec fn movement_status(byte: u8) -> MovementStatus {
    if byte == 0 { MovementStatus::Moored }
    else if byte == 1 { MovementStatus::Underway }
    else if byte == 2 { MovementStatus::Anchored }
    else if byte == 3 { MovementStatus::Restricted }
    else if byte == 4 { MovementStatus::Aground }
    else { MovementStatus::Unknown(byte) }
}

impl MovementStatus {
    pub fn from_byte(byte: u8) -> (s: Self)
        ensures s == movement_status(byte),
    {
        match byte {
            0 => MovementStatus::Moored,
            1 => MovementStatus::Underway,
            2 => MovementStatus::Anchored,
            3 => MovementStatus::Restricted,
            4 => MovementStatus::Aground,
            other => MovementStatus::Unknown(other),
        }
    }
}

#[derive(Debug, Clone, Copy, PartialEq, Eq, Structural)]
pub enum HazardClass {
    NoHazard,
    Explosive,
    Gas,
    FlammableLiquid,
    FlammableSolid,
    Oxidizer,
    Toxic,
    Radioactive,
    Corrosive,
    Miscellaneous,
    Unknown(u8),
}

/// The hazard class encoded by a byte.
pub open spec fn hazard_class(byte: u8) -> HazardClass {
    if byte == 0 { HazardClass::NoHazard }
    else if byte == 1 { HazardClass::Explosive }
    else if byte == 2 { HazardClass::Gas }
    else if byte == 3 { HazardClass::FlammableLiquid }
    else if byte == 4 { HazardClass::FlammableSolid }
    else if byte == 5 { HazardClass::Oxidizer }
    else if byte == 6 { HazardClass::Toxic }
    else if byte == 7 { HazardClass::Radioactive }
    else if byte == 8 { HazardClass::Corrosive }
    else if byte == 9 { HazardClass::Miscellaneous }
    else { HazardClass::Unknown(byte) }
}

/// The risk weight of a hazard class.
pub open spec fn hazard_weight(h: HazardClass) -> u16 {
    match h {
        HazardClass::NoHazard => 0,
        HazardClass::Explosive => 80,
        HazardClass::Gas => 55,
        HazardClass::FlammableLiquid => 65,
        HazardClass::FlammableSolid => 50,
        HazardClass::Oxidizer => 60,
        HazardClass::Toxic => 70,
        HazardClass::Radioactive => 90,
        HazardClass::Corrosive => 45,
        HazardClass::Miscellaneous => 20,
        HazardClass::Unknown(_) => 30,
    }
}

impl HazardClass {
    pub fn from_byte(byte: u8) -> (h: Self)
        ensures h == hazard_class(byte),
    {
        match byte {
            0 => HazardClass::NoHazard,
            1 => HazardClass::Explosive,
            2 => HazardClass::Gas,
            3 => HazardClass::FlammableLiquid,
            4 => HazardClass::FlammableSolid,
            5 => HazardClass::Oxidizer,
            6 => HazardClass::Toxic,
            7 => HazardClass::Radioactive,
            8 => HazardClass::Corrosive,
            9 => HazardClass::Miscellaneous,
            other => HazardClass::Unknown(other),
        }
    }

    pub fn risk_weight(self) -> (w: u16)
        ensures w == hazard_weight(self),
    {
        match self {
            HazardClass::NoHazard => 0,
            HazardClass::Explosive => 80,
            HazardClass::Gas => 55,
            HazardClass::FlammableLiquid => 65,
            HazardClass::FlammableSolid => 50,
            HazardClass::Oxidizer => 60,
            HazardClass::Toxic => 70,
            HazardClass::Radioactive => 90,
            HazardClass::Corrosive => 45,
            HazardClass::Miscellaneous => 20,
            HazardClass::Unknown(_) => 30,
        }
    }
}

#[derive(Debug, Clone, Copy, PartialEq, Eq, Structural)]
pub struct VesselSnapshot {
    pub id: VesselId,
    pub mmsi: u32,
    pub name_code: u16,
    pub callsign_code: u16,
    pub class: VesselClass,
    pub status: MovementStatus,
    pub position: Coordinates,
    pub speed_tenths: u16,
    pub heading_degrees: u16,
    pub timestamp: Timestamp,
    pub draught_cm: u16,
    pub destination_code: u16,
}

/// The risk hint of a vessel: its class weight, plus 10 when faster than 18 knots, plus 8
/// when its draught exceeds 14.5 m, plus 60 when its position is implausible.
pub open spec fn risk_hint_spec(v: VesselSnapshot) -> u16 {
    (class_weight(v.class)
        + (if v.speed_tenths > 180 { 10int } else { 0 })
        + (if v.draught_cm > 1450 { 8int } else { 0 })
        + (if !plausible(v.position) { 60int } else { 0 })) as u16
}

/// A vessel is stationary when it makes at most 0.3 knots or is moored or anchored.
pub open spec fn stationary(v: VesselSnapshot) -> bool {
    v.speed_tenths <= 3 || v.status == MovementStatus::Moored || v.status == MovementStatus::Anchored
}

impl VesselSnapshot {
    pub fn risk_hint(&self) -> (r: u16)
        ensures r == risk_hint_spec(*self), r <= 133,
    {
        let mut risk = self.class.risk_weight();
        if self.speed_tenths > 180 {
            risk = risk + 10;
        }
        if self.draught_cm > 1450 {
            risk = risk + 8;
        }
        if !self.position.is_plausible() {
            risk = risk + 60;
        }
        risk
    }

    pub fn is_stationary(&self) -> (b: bool)
        ensures b == stationary(*self),
    {
        self.speed_tenths <= 3 || match self.status {
            MovementStatus::Moored | MovementStatus::Anchored => true,
            _ => false,
        }
    }
}

#[derive(Debug, Clone, Copy, PartialEq, Eq, Structural)]
pub struct BerthPlan {
    pub berth: BerthId,
    pub vessel: VesselId,
    pub start: Timestamp,
    pub end: Timestamp,
    pub priority: u8,
    pub max_draught_cm: u16,
    pub required_tugs: u8,
    pub flags: u16,
}

/// Two plans of the same berth whose half-open time spans intersect.
pub open spec fn plans_overlap(a: BerthPlan, b: BerthPlan) -> bool {
    a.berth == b.berth && a.start.0 < b.end.0 && b.start.0 < a.end.0
}

impl BerthPlan {
    pub fn overlaps(&self, other: &BerthPlan) -> (b: bool)
        ensures b == plans_overlap(*self, *other),
    {
        self.berth.0 == other.berth.0 && self.start.0 < other.end.0 && other.start.0 < self.end.0
    }

    pub fn contains(&self, time: Timestamp) -> (b: bool)
        ensures b == (self.start.0 <= time.0 <= self.end.0),
    {
        time.within(self.start, self.end)
    }

    pub fn duration_seconds(&self) -> (d: u64)
        ensures d == sat_sub64(self.end.0, self.start.0),
    {
        self.end.0.saturating_sub(self.start.0)
    }

    pub fn is_reserved(&self) -> (b: bool)
        ensures b == (self.flags % 2 == 1),
    {
        self.flags % 2 == 1
    }
}

#[derive(Debug, Clone, Copy, PartialEq, Eq, Structural)]
pub struct CargoLot {
    pub vessel: VesselId,
    pub un_number: u16,
    pub hazard: HazardClass,
    pub tonnes: u32,
    pub package_code: u16,
    pub stowage_zone: u8,
    pub temperature_tenths: i16,
    pub flags: u16,
}

/// Flag bit `bit` (a power of two) is set in `flags`.
pub open spec fn has_flag(flags: u16, bit: u16) -> bool {
    (flags / bit) % 2 == 1
}

/// The hazard score of a lot: hazard weight, plus a twentieth of its tonnage, plus 25 when
/// flag 0x04 is set.
pub open spec fn hazard_score_spec(l: CargoLot) -> u32 {
    (hazard_weight(l.hazard) + l.tonnes / 20 + (if has_flag(l.flags, 4) { 25int } else { 0 })) as u32
}

/// The hazard classes that call for separation.
pub open spec fn needs_separation(h: HazardClass) -> bool {
    h == HazardClass::Explosive || h == HazardClass::FlammableLiquid || h == HazardClass::Oxidizer
        || h == HazardClass::Toxic || h == HazardClass::Radioactive
}

impl CargoLot {
    pub fn hazard_score(&self) -> (s: u32)
        ensures s == hazard_score_spec(*self),
    {
        self.hazard.risk_weight() as u32 + self.tonnes / 20 + if (self.flags / 4) % 2 == 1 { 25 } else { 0 }
    }

    pub fn requires_separation(&self) -> (b: bool)
        ensures b == needs_separation(self.hazard),
    {
        match self.hazard {
            HazardClass::Explosive | HazardClass::FlammableLiquid | HazardClass::Oxidizer
            | HazardClass::Toxic | HazardClass::Radioactive => true,
            _ => false,
        }
    }

    pub fn is_refrigerated(&self) -> (b: bool)
        ensures b == (has_flag(self.flags, 8) || self.temperature_tenths < 50),
    {
        (self.flags / 8) % 2 == 1 || self.temperature_tenths < 50
    }
}

#[derive(Debug, Clone, Copy, PartialEq, Eq, Structural)]
pub struct TideWindow {
    pub basin_code: u16,
    pub start: Timestamp,
    pub end: Timestamp,
    pub min_depth_cm: u16,
    pub max_current_cms: u16,
    pub direction_degrees: u16,
    pub confidence: u8,
}

/// A tide window with at least 1.2 m of water under a keel of the given draught.
pub open spec fn supports_draught_spec(t: TideWindow, draught_cm: u16) -> bool {
    t.min_depth_cm >= sat_add16(draught_cm as int, 120)
}

/// A tide window meets the half-open span `[start, end)`.
pub open spec fn tide_overlaps(t: TideWindow, start: Timestamp, end: Timestamp) -> bool {
    t.start.0 < end.0 && start.0 < t.end.0
}

impl TideWindow {
    pub fn supports_draught(&self, draught_cm: u16) -> (b: bool)
        ensures b == supports_draught_spec(*self, draught_cm),
    {
        self.min_depth_cm >= draught_cm.saturating_add(120)
    }

    pub fn overlaps(&self, start: Timestamp, end: Timestamp) -> (b: bool)
        ensures b == tide_overlaps(*self, start, end),
    {
        self.start.0 < end.0 && start.0 < self.end.0
    }
}

#[derive(Debug, Clone, Copy, PartialEq, Eq, Structural)]
pub struct PilotOrder {
    pub vessel: VesselId,
    pub pilot_code: u16,
    pub boarding_time: Timestamp,
    pub boarding_position: Coordinates,
    pub disembark_position: Coordinates,
    pub language_mask: u16,
    pub flags: u16,
}

/// Boarding before 06:00 or after 20:00 (time of day of the timestamp).
pub open spec fn night_boarding(p: PilotOrder) -> bool {
    p.boarding_time.0 % 86_400 < 21_600 || p.boarding_time.0 % 86_400 > 72_000
}

impl PilotOrder {
    pub fn is_night_boarding(&self) -> (b: bool)
        ensures b == night_boarding(*self),
    {
        let seconds_in_day = self.boarding_time.0 % 86_400;
        seconds_in_day < 21_600 || seconds_in_day > 72_000
    }
}

#[derive(Debug, Clone, Copy, PartialEq, Eq, Structural)]
pub struct ChannelNotice {
    pub notice_id: u32,
    pub basin_code: u16,
    pub starts_at: Timestamp,
    pub expires_at: Timestamp,
    pub severity: u8,
    pub subject_code: u16,
    pub message_code: u16,
    pub flags: u16,
}

/// A notice is in force at `time` (bounds included).
pub open spec fn notice_active(n: ChannelNotice, time: Timestamp) -> bool {
    n.starts_at.0 <= time.0 <= n.expires_at.0
}

/// A notice closes the channel: flag 0x0001 or severity 7 and up.
pub open spec fn notice_closure(n: ChannelNotice) -> bool {
    n.flags % 2 == 1 || n.severity >= 7
}

impl ChannelNotice {
    pub fn active_at(&self, time: Timestamp) -> (b: bool)
        ensures b == notice_active(*self, time),
    {
        time.within(self.starts_at, self.expires_at)
    }

    pub fn is_closure(&self) -> (b: bool)
        ensures b == notice_closure(*self),
    {
        self.flags % 2 == 1 || self.severity >= 7
    }
}

#[derive(Debug, Clone, Copy, PartialEq, Eq, Structural)]
pub enum RouteLegKind {
    Approach,
    Turn,
    Anchorage,
    BerthEntry,
    Departure,
    Holding,
    Unknown(u8),
}

/// The leg kind encoded by a byte.
pub open spec fn leg_kind(byte: u8) -> RouteLegKind {
    if byte == 0 { RouteLegKind::Approach }
    else if byte == 1 { RouteLegKind::Turn }
    else if byte == 2 { RouteLegKind::Anchorage }
    else if byte == 3 { RouteLegKind::BerthEntry }
    else if byte == 4 { RouteLegKind::Departure }
    else if byte == 5 { RouteLegKind::Holding }
    else { RouteLegKind::Unknown(byte) }
}

impl RouteLegKind {
    pub fn from_byte(byte: u8) -> (k: Self)
        ensures k == leg_kind(byte),
    {
        match byte {
            0 => RouteLegKind::Approach,
            1 => RouteLegKind::Turn,
            2 => RouteLegKind::Anchorage,
            3 => RouteLegKind::BerthEntry,
            4 => RouteLegKind::Departure,
            5 => RouteLegKind::Holding,
            other => RouteLegKind::Unknown(other),
        }
    }
}

#[derive(Debug, Clone, Copy, PartialEq, Eq, Structural)]
pub struct RoutePoint {
    pub position: Coordinates,
    pub eta: Timestamp,
    pub speed_limit_tenths: u16,
    pub depth_cm: u16,
}

#[derive(Debug, Clone, PartialEq)]
pub struct RouteLeg {
    pub vessel: VesselId,
    pub sequence: u16,
    pub kind: RouteLegKind,
    pub from: Coordinates,
    pub to: Coordinates,
    pub eta_start: Timestamp,
    pub eta_end: Timestamp,
    pub channel_code: u16,
    pub points: Vec<RoutePoint>,
}

/// The distance from `from` to `to` plus the distances between consecutive points among the
/// first `n` points, each addition saturating at `u32::MAX`.
pub open spec fn leg_distance(from: Coordinates, to: Coordinates, pts: Seq<RoutePoint>, n: nat) -> u32
    decreases n,
{
    if n <= 1 {
        manhattan(from, to)
    } else {
        sat_add32(leg_distance(from, to, pts, (n - 1) as nat) as int,
            manhattan(pts[n - 2].position, pts[n - 1].position) as int)
    }
}

/// `a + b` saturated at `u16::MAX`.
pub open spec fn sat_add16(a: int, b: int) -> u16 {
    if a + b > u16::MAX { u16::MAX } else { (a + b) as u16 }
}

/// Some point of the leg is shallower than the draught plus 1 m (saturated at `u16::MAX`).
pub open spec fn low_water(pts: Seq<RoutePoint>, draught_cm: u16) -> bool {
    exists|i: int| 0 <= i < pts.len() && pts[i].depth_cm < sat_add16(draught_cm as int, 100)
}

impl RouteLeg {
    pub fn duration(&self) -> (d: u64)
        ensures d == sat_sub64(self.eta_end.0, self.eta_start.0),
    {
        self.eta_end.0.saturating_sub(self.eta_start.0)
    }

    pub fn rough_distance(&self) -> (d: u32)
        ensures d == leg_distance(self.from, self.to, self.points@, self.points@.len()),
    {
        let mut distance = self.from.manhattan_to(self.to);
        let mut i: usize = 1;
        while i < self.points.len()
            invariant
                1 <= i,
                i <= self.points@.len() || i == 1,
                distance == leg_distance(self.from, self.to, self.points@, i as nat),
            decreases self.points@.len() - i,
        {
            distance = distance.saturating_add(self.points[i - 1].position.manhattan_to(self.points[i].position));
            i = i + 1;
        }
        proof {
            if self.points@.len() == 0 {
                assert(leg_distance(self.from, self.to, self.points@, 0) == leg_distance(self.from, self.to, self.points@, 1));
            }
        }
        distance
    }

    pub fn has_low_water(&self, draught_cm: u16) -> (b: bool)
        ensures b == low_water(self.points@, draught_cm),
    {
        let limit = draught_cm.saturating_add(100);
        let mut i: usize = 0;
        while i < self.points.len()
            invariant
                0 <= i <= self.points@.len(),
                limit == sat_add16(draught_cm as int, 100),
                forall|k: int| 0 <= k < i ==> self.points@[k].depth_cm >= limit,
            decreases self.points@.len() - i,
        {
            if self.points[i].depth_cm < limit {
                return true;
            }
            i = i + 1;
        }
        false
    }
}


#[derive(Debug, Clone, PartialEq)]
pub enum HarborEvent {
    Vessel(VesselSnapshot),
    Berth(BerthPlan),
    Cargo(CargoLot),
    Tide(TideWindow),
    Route(RouteLeg),
    Pilot(PilotOrder),
    Notice(ChannelNotice),
    Unknown { tag: u8, len: usize },
}

/// The vessel an event concerns, if any.
pub open spec fn event_vessel(e: HarborEvent) -> Option<VesselId> {
    match e {
        HarborEvent::Vessel(v) => Some(v.id),
        HarborEvent::Berth(b) => Some(b.vessel),
        HarborEvent::Cargo(c) => Some(c.vessel),
        HarborEvent::Route(r) => Some(r.vessel),
        HarborEvent::Pilot(p) => Some(p.vessel),
        _ => None,
    }
}

/// The name of an event's kind.
pub open spec fn event_tag_name(e: HarborEvent) -> &'static str {
    match e {
        HarborEvent::Vessel(_) => "vessel",
        HarborEvent::Berth(_) => "berth",
        HarborEvent::Cargo(_) => "cargo",
        HarborEvent::Tide(_) => "tide",
        HarborEvent::Route(_) => "route",
        HarborEvent::Pilot(_) => "pilot",
        HarborEvent::Notice(_) => "notice",
        HarborEvent::Unknown { .. } => "unknown",
    }
}

impl HarborEvent {
    pub fn vessel_id(&self) -> (v: Option<VesselId>)
        ensures v == event_vessel(*self),
    {
        match self {
            HarborEvent::Vessel(v) => Some(v.id),
            HarborEvent::Berth(b) => Some(b.vessel),
            HarborEvent::Cargo(c) => Some(c.vessel),
            HarborEvent::Route(r) => Some(r.vessel),
            HarborEvent::Pilot(p) => Some(p.vessel),
            HarborEvent::Tide(_) | HarborEvent::Notice(_) | HarborEvent::Unknown { .. } => None,
        }
    }

    pub fn tag_name(&self) -> (t: &'static str)
        ensures t == event_tag_name(*self),
    {
        match self {
            HarborEvent::Vessel(_) => "vessel",
            HarborEvent::Berth(_) => "berth",
            HarborEvent::Cargo(_) => "cargo",
            HarborEvent::Tide(_) => "tide",
            HarborEvent::Route(_) => "route",
            HarborEvent::Pilot(_) => "pilot",
            HarborEvent::Notice(_) => "notice",
            HarborEvent::Unknown { .. } => "unknown",
        }
    }
}

#[derive(Debug, Clone)]
pub struct PortSnapshot {
    pub vessels: Vec<VesselSnapshot>,
    pub berths: Vec<BerthPlan>,
    pub cargo: Vec<CargoLot>,
    pub tides: Vec<TideWindow>,
    pub routes: Vec<RouteLeg>,
    pub pilots: Vec<PilotOrder>,
    pub notices: Vec<ChannelNotice>,
}

/// The first vessel of `s` with id `id`.
pub open spec fn first_vessel(s: Seq<VesselSnapshot>, id: VesselId) -> Option<VesselSnapshot>
    decreases s.len(),
{
    if s.len() == 0 { None } else if s[0].id == id { Some(s[0]) } else { first_vessel(s.drop_first(), id) }
}

/// The first berth plan of `s` for vessel `id`.
pub open spec fn first_berth(s: Seq<BerthPlan>, id: VesselId) -> Option<BerthPlan>
    decreases s.len(),
{
    if s.len() == 0 { None } else if s[0].vessel == id { Some(s[0]) } else { first_berth(s.drop_first(), id) }
}

/// Cargo lots of a vessel.
pub open spec fn lot_of(id: VesselId) -> spec_fn(CargoLot) -> bool {
    |l: CargoLot| l.vessel == id
}

/// Legs of a vessel.
pub open spec fn leg_of(id: VesselId) -> spec_fn(RouteLeg) -> bool {
    |l: RouteLeg| l.vessel == id
}

/// Sum of the risk hints of `s`.
pub open spec fn vessel_risk_total(s: Seq<VesselSnapshot>) -> nat
    decreases s.len(),
{
    if s.len() == 0 { 0 } else { vessel_risk_total(s.drop_last()) + risk_hint_spec(s.last()) as nat }
}

/// Sum of the hazard scores of `s`.
pub open spec fn cargo_score_total(s: Seq<CargoLot>) -> nat
    decreases s.len(),
{
    if s.len() == 0 { 0 } else { cargo_score_total(s.drop_last()) + hazard_score_spec(s.last()) as nat }
}

/// Number of closure notices in `s`.
pub open spec fn closure_count(s: Seq<ChannelNotice>) -> nat
    decreases s.len(),
{
    if s.len() == 0 { 0 } else { closure_count(s.drop_last()) + (if notice_closure(s.last()) { 1nat } else { 0 }) }
}

/// The snapshot's risk score: the vessel risk hints, the cargo hazard scores and 20 per
/// closure notice, summed and capped at `u32::MAX`.
pub open spec fn risk_score_spec(s: PortSnapshot) -> u32 {
    sat_add32((vessel_risk_total(s.vessels@) + cargo_score_total(s.cargo@)) as int, (closure_count(s.notices@) * 20) as int)
}

/// Number of events held by the snapshot.
pub open spec fn event_total(s: PortSnapshot) -> nat {
    s.vessels@.len() + s.berths@.len() + s.cargo@.len() + s.tides@.len() + s.routes@.len()
        + s.pilots@.len() + s.notices@.len()
}

/// Sort keys: vessels by time.
pub open spec fn vessel_keys(s: Seq<VesselSnapshot>) -> Seq<SortKey> {
    s.map_values(|v: VesselSnapshot| (v.timestamp.0, 0u64, 0u64))
}

/// Sort keys: berth plans by start.
pub open spec fn berth_keys(s: Seq<BerthPlan>) -> Seq<SortKey> {
    s.map_values(|b: BerthPlan| (b.start.0, 0u64, 0u64))
}

/// Sort keys: tide windows by start.
pub open spec fn tide_keys(s: Seq<TideWindow>) -> Seq<SortKey> {
    s.map_values(|t: TideWindow| (t.start.0, 0u64, 0u64))
}

/// Sort keys: route legs by start then sequence.
pub open spec fn route_keys(s: Seq<RouteLeg>) -> Seq<SortKey> {
    s.map_values(|r: RouteLeg| (r.eta_start.0, r.sequence as u64, 0u64))
}

/// Sort keys: pilot orders by boarding time.
pub open spec fn pilot_keys(s: Seq<PilotOrder>) -> Seq<SortKey> {
    s.map_values(|p: PilotOrder| (p.boarding_time.0, 0u64, 0u64))
}

/// Sort keys: notices by start.
pub open spec fn notice_keys(s: Seq<ChannelNotice>) -> Seq<SortKey> {
    s.map_values(|n: ChannelNotice| (n.starts_at.0, 0u64, 0u64))
}

/// The snapshot with `e` added to the list of its kind (unknown events are dropped).
pub open spec fn snapshot_push(s: PortSnapshot, e: HarborEvent) -> (Seq<VesselSnapshot>, Seq<BerthPlan>,
    Seq<CargoLot>, Seq<TideWindow>, Seq<RouteLeg>, Seq<PilotOrder>, Seq<ChannelNotice>) {
    let (v, b, c, t, r, p, n) = (s.vessels@, s.berths@, s.cargo@, s.tides@, s.routes@, s.pilots@, s.notices@);
    match e {
        HarborEvent::Vessel(x) => (v.push(x), b, c, t, r, p, n),
        HarborEvent::Berth(x) => (v, b.push(x), c, t, r, p, n),
        HarborEvent::Cargo(x) => (v, b, c.push(x), t, r, p, n),
        HarborEvent::Tide(x) => (v, b, c, t.push(x), r, p, n),
        HarborEvent::Route(x) => (v, b, c, t, r.push(x), p, n),
        HarborEvent::Pilot(x) => (v, b, c, t, r, p.push(x), n),
        HarborEvent::Notice(x) => (v, b, c, t, r, p, n.push(x)),
        HarborEvent::Unknown { .. } => (v, b, c, t, r, p, n),
    }
}

/// The lists of a snapshot as a tuple of sequences.
pub open spec fn snapshot_lists(s: PortSnapshot) -> (Seq<VesselSnapshot>, Seq<BerthPlan>,
    Seq<CargoLot>, Seq<TideWindow>, Seq<RouteLeg>, Seq<PilotOrder>, Seq<ChannelNotice>) {
    (s.vessels@, s.berths@, s.cargo@, s.tides@, s.routes@, s.pilots@, s.notices@)
}

fn time_keys_vessels(s: &Vec<VesselSnapshot>) -> (k: Vec<SortKey>)
    ensures k@ == vessel_keys(s@),
{
    let mut k: Vec<SortKey> = Vec::new();
    let mut i: usize = 0;
    while i < s.len()
        invariant 0 <= i <= s@.len(), k@ =~= vessel_keys(s@.take(i as int)),
        decreases s@.len() - i,
    {
        k.push((s[i].timestamp.0, 0, 0));
        i = i + 1;
        proof { assert(k@ =~= vessel_keys(s@.take(i as int))); }
    }
    proof { assert(s@.take(i as int) =~= s@); }
    k
}

fn time_keys_berths(s: &Vec<BerthPlan>) -> (k: Vec<SortKey>)
    ensures k@ == berth_keys(s@),
{
    let mut k: Vec<SortKey> = Vec::new();
    let mut i: usize = 0;
    while i < s.len()
        invariant 0 <= i <= s@.len(), k@ =~= berth_keys(s@.take(i as int)),
        decreases s@.len() - i,
    {
        k.push((s[i].start.0, 0, 0));
        i = i + 1;
        proof { assert(k@ =~= berth_keys(s@.take(i as int))); }
    }
    proof { assert(s@.take(i as int) =~= s@); }
    k
}

fn time_keys_tides(s: &Vec<TideWindow>) -> (k: Vec<SortKey>)
    ensures k@ == tide_keys(s@),
{
    let mut k: Vec<SortKey> = Vec::new();
    let mut i: usize = 0;
    while i < s.len()
        invariant 0 <= i <= s@.len(), k@ =~= tide_keys(s@.take(i as int)),
        decreases s@.len() - i,
    {
        k.push((s[i].start.0, 0, 0));
        i = i + 1;
        proof { assert(k@ =~= tide_keys(s@.take(i as int))); }
    }
    proof { assert(s@.take(i as int) =~= s@); }
    k
}

fn time_keys_routes(s: &Vec<RouteLeg>) -> (k: Vec<SortKey>)
    ensures k@ == route_keys(s@),
{
    let mut k: Vec<SortKey> = Vec::new();
    let mut i: usize = 0;
    while i < s.len()
        invariant 0 <= i <= s@.len(), k@ =~= route_keys(s@.take(i as int)),
        decreases s@.len() - i,
    {
        k.push((s[i].eta_start.0, s[i].sequence as u64, 0));
        i = i + 1;
        proof { assert(k@ =~= route_keys(s@.take(i as int))); }
    }
    proof { assert(s@.take(i as int) =~= s@); }
    k
}

fn time_keys_pilots(s: &Vec<PilotOrder>) -> (k: Vec<SortKey>)
    ensures k@ == pilot_keys(s@),
{
    let mut k: Vec<SortKey> = Vec::new();
    let mut i: usize = 0;
    while i < s.len()
        invariant 0 <= i <= s@.len(), k@ =~= pilot_keys(s@.take(i as int)),
        decreases s@.len() - i,
    {
        k.push((s[i].boarding_time.0, 0, 0));
        i = i + 1;
        proof { assert(k@ =~= pilot_keys(s@.take(i as int))); }
    }
    proof { assert(s@.take(i as int) =~= s@); }
    k
}

fn time_keys_notices(s: &Vec<ChannelNotice>) -> (k: Vec<SortKey>)
    ensures k@ == notice_keys(s@),
{
    let mut k: Vec<SortKey> = Vec::new();
    let mut i: usize = 0;
    while i < s.len()
        invariant 0 <= i <= s@.len(), k@ =~= notice_keys(s@.take(i as int)),
        decreases s@.len() - i,
    {
        k.push((s[i].starts_at.0, 0, 0));
        i = i + 1;
        proof { assert(k@ =~= notice_keys(s@.take(i as int))); }
    }
    proof { assert(s@.take(i as int) =~= s@); }
    k
}

impl PortSnapshot {
    pub fn new() -> (s: Self)
        ensures
            s.vessels@.len() == 0, s.berths@.len() == 0, s.cargo@.len() == 0, s.tides@.len() == 0,
            s.routes@.len() == 0, s.pilots@.len() == 0, s.notices@.len() == 0,
    {
        PortSnapshot {
            vessels: Vec::new(),
            berths: Vec::new(),
            cargo: Vec::new(),
            tides: Vec::new(),
            routes: Vec::new(),
            pilots: Vec::new(),
            notices: Vec::new(),
        }
    }

    pub fn push(&mut self, event: HarborEvent)
        ensures snapshot_lists(*final(self)) == snapshot_push(*old(self), event),
    {
        match event {
            HarborEvent::Vessel(v) => self.vessels.push(v),
            HarborEvent::Berth(b) => self.berths.push(b),
            HarborEvent::Cargo(c) => self.cargo.push(c),
            HarborEvent::Tide(t) => self.tides.push(t),
            HarborEvent::Route(r) => self.routes.push(r),
            HarborEvent::Pilot(p) => self.pilots.push(p),
            HarborEvent::Notice(n) => self.notices.push(n),
            HarborEvent::Unknown { .. } => {},
        }
    }

    pub fn event_count(&self) -> (n: usize)
        requires event_total(*self) <= usize::MAX,
        ensures n == event_total(*self),
    {
        self.vessels.len() + self.berths.len() + self.cargo.len() + self.tides.len() + self.routes.len()
            + self.pilots.len() + self.notices.len()
    }

    pub fn vessel(&self, id: VesselId) -> (r: Option<&VesselSnapshot>)
        ensures
            match first_vessel(self.vessels@, id) {
                Some(v) => r matches Some(x) && *x == v,
                None => r is None,
            },
    {
        let mut i: usize = 0;
        proof { assert(self.vessels@.skip(0) =~= self.vessels@); }
        while i < self.vessels.len()
            invariant
                0 <= i <= self.vessels@.len(),
                first_vessel(self.vessels@, id) == first_vessel(self.vessels@.skip(i as int), id),
            decreases self.vessels@.len() - i,
        {
            proof {
                assert(self.vessels@.skip(i as int)[0] == self.vessels@[i as int]);
                assert(self.vessels@.skip(i as int).drop_first() =~= self.vessels@.skip(i + 1));
            }
            if self.vessels[i].id.0 == id.0 {
                return Some(&self.vessels[i]);
            }
            i = i + 1;
        }
        None
    }

    pub fn cargo_for(&self, id: VesselId) -> (r: Vec<CargoLot>)
        ensures r@ == self.cargo@.filter(lot_of(id)),
    {
        let mut out: Vec<CargoLot> = Vec::new();
        let mut i: usize = 0;
        while i < self.cargo.len()
            invariant
                0 <= i <= self.cargo@.len(),
                out@ == self.cargo@.take(i as int).filter(lot_of(id)),
            decreases self.cargo@.len() - i,
        {
            proof {
                reveal_with_fuel(Seq::<CargoLot>::filter, 1);
                assert(self.cargo@.take(i + 1).drop_last() =~= self.cargo@.take(i as int));
            }
            if self.cargo[i].vessel.0 == id.0 {
                out.push(self.cargo[i]);
            }
            i = i + 1;
        }
        proof { assert(self.cargo@.take(i as int) =~= self.cargo@); }
        out
    }

    pub fn berth_for(&self, id: VesselId) -> (r: Option<&BerthPlan>)
        ensures
            match first_berth(self.berths@, id) {
                Some(b) => r matches Some(x) && *x == b,
                None => r is None,
            },
    {
        let mut i: usize = 0;
        proof { assert(self.berths@.skip(0) =~= self.berths@); }
        while i < self.berths.len()
            invariant
                0 <= i <= self.berths@.len(),
                first_berth(self.berths@, id) == first_berth(self.berths@.skip(i as int), id),
            decreases self.berths@.len() - i,
        {
            proof {
                assert(self.berths@.skip(i as int)[0] == self.berths@[i as int]);
                assert(self.berths@.skip(i as int).drop_first() =~= self.berths@.skip(i + 1));
            }
            if self.berths[i].vessel.0 == id.0 {
                return Some(&self.berths[i]);
            }
            i = i + 1;
        }
        None
    }

    pub fn routes_for(&self, id: VesselId) -> (r: Vec<&RouteLeg>)
        ensures
            r@.map_values(|x: &RouteLeg| *x) == self.routes@.filter(leg_of(id)),
    {
        let mut out: Vec<&RouteLeg> = Vec::new();
        let mut i: usize = 0;
        while i < self.routes.len()
            invariant
                0 <= i <= self.routes@.len(),
                out@.map_values(|x: &RouteLeg| *x) == self.routes@.take(i as int).filter(leg_of(id)),
            decreases self.routes@.len() - i,
        {
            proof {
                reveal_with_fuel(Seq::<RouteLeg>::filter, 1);
                assert(self.routes@.take(i + 1).drop_last() =~= self.routes@.take(i as int));
            }
            if self.routes[i].vessel.0 == id.0 {
                let ghost before = out@;
                out.push(&self.routes[i]);
                proof { assert(out@.map_values(|x: &RouteLeg| *x) =~= before.map_values(|x: &RouteLeg| *x).push(self.routes@[i as int])); }
            }
            i = i + 1;
        }
        proof { assert(self.routes@.take(i as int) =~= self.routes@); }
        out
    }

    pub fn sort_by_time(&mut self)
        ensures
            final(self).vessels@ == sorted_with(vessel_keys(old(self).vessels@), old(self).vessels@),
            final(self).berths@ == sorted_with(berth_keys(old(self).berths@), old(self).berths@),
            final(self).cargo@ == old(self).cargo@,
            final(self).tides@ == sorted_with(tide_keys(old(self).tides@), old(self).tides@),
            final(self).routes@ == sorted_with(route_keys(old(self).routes@), old(self).routes@),
            final(self).pilots@ == sorted_with(pilot_keys(old(self).pilots@), old(self).pilots@),
            final(self).notices@ == sorted_with(notice_keys(old(self).notices@), old(self).notices@),
    {
        let mut vessels: Vec<VesselSnapshot> = Vec::new();
        core::mem::swap(&mut vessels, &mut self.vessels);
        let keys = time_keys_vessels(&vessels);
        self.vessels = sort_with_keys(vessels, keys);

        let mut berths: Vec<BerthPlan> = Vec::new();
        core::mem::swap(&mut berths, &mut self.berths);
        let keys = time_keys_berths(&berths);
        self.berths = sort_with_keys(berths, keys);

        let mut tides: Vec<TideWindow> = Vec::new();
        core::mem::swap(&mut tides, &mut self.tides);
        let keys = time_keys_tides(&tides);
        self.tides = sort_with_keys(tides, keys);

        let mut routes: Vec<RouteLeg> = Vec::new();
        core::mem::swap(&mut routes, &mut self.routes);
        let keys = time_keys_routes(&routes);
        self.routes = sort_with_keys(routes, keys);

        let mut pilots: Vec<PilotOrder> = Vec::new();
        core::mem::swap(&mut pilots, &mut self.pilots);
        let keys = time_keys_pilots(&pilots);
        self.pilots = sort_with_keys(pilots, keys);

        let mut notices: Vec<ChannelNotice> = Vec::new();
        core::mem::swap(&mut notices, &mut self.notices);
        let keys = time_keys_notices(&notices);
        self.notices = sort_with_keys(notices, keys);
    }

    pub fn risk_score(&self) -> (r: u32)
        ensures r == risk_score_spec(*self),
    {
        let mut vessel_score = 0u32;
        let mut i: usize = 0;
        while i < self.vessels.len()
            invariant
                0 <= i <= self.vessels@.len(),
                vessel_score == sat_add32(vessel_risk_total(self.vessels@.take(i as int)) as int, 0),
            decreases self.vessels@.len() - i,
        {
            proof { assert(self.vessels@.take(i + 1).drop_last() =~= self.vessels@.take(i as int)); }
            vessel_score = vessel_score.saturating_add(self.vessels[i].risk_hint() as u32);
            i = i + 1;
        }
        proof { assert(self.vessels@.take(i as int) =~= self.vessels@); }
        let mut cargo_score = 0u32;
        let mut i: usize = 0;
        while i < self.cargo.len()
            invariant
                0 <= i <= self.cargo@.len(),
                cargo_score == sat_add32(cargo_score_total(self.cargo@.take(i as int)) as int, 0),
            decreases self.cargo@.len() - i,
        {
            proof { assert(self.cargo@.take(i + 1).drop_last() =~= self.cargo@.take(i as int)); }
            cargo_score = cargo_score.saturating_add(self.cargo[i].hazard_score());
            i = i + 1;
        }
        proof { assert(self.cargo@.take(i as int) =~= self.cargo@); }
        let mut closure_score = 0u32;
        let mut i: usize = 0;
        while i < self.notices.len()
            invariant
                0 <= i <= self.notices@.len(),
                closure_score == sat_add32((closure_count(self.notices@.take(i as int)) * 20) as int, 0),
            decreases self.notices@.len() - i,
        {
            proof { assert(self.notices@.take(i + 1).drop_last() =~= self.notices@.take(i as int)); }
            if self.notices[i].is_closure() {
                closure_score = closure_score.saturating_add(20);
            }
            i = i + 1;
        }
        proof { assert(self.notices@.take(i as int) =~= self.notices@); }
        vessel_score.saturating_add(cargo_score).saturating_add(closure_score)
    }
}

#[derive(Debug, Clone, Copy, PartialEq, Eq, Structural)]
pub enum FindingSeverity {
    Info,
    Low,
    Medium,
    High,
    Critical,
}

/// The weight of a severity.
pub open spec fn severity_weight(s: FindingSeverity) -> u32 {
    match s {
        FindingSeverity::Info => 1,
        FindingSeverity::Low => 5,
        FindingSeverity::Medium => 15,
        FindingSeverity::High => 35,
        FindingSeverity::Critical => 80,
    }
}

impl FindingSeverity {
    pub fn weight(&self) -> (w: u32)
        ensures w == severity_weight(*self),
    {
        match self {
            FindingSeverity::Info => 1,
            FindingSeverity::Low => 5,
            FindingSeverity::Medium => 15,
            FindingSeverity::High => 35,
            FindingSeverity::Critical => 80,
        }
    }
}

#[derive(Debug, Clone, PartialEq, Eq)]
pub struct Finding {
    pub severity: FindingSeverity,
    pub code: &'static str,
    pub vessel: Option<VesselId>,
    pub detail: String,
}

impl Finding {
    pub fn new(severity: FindingSeverity, code: &'static str, vessel: Option<VesselId>, detail: String) -> (f: Self)
        ensures f.severity == severity, f.code == code, f.vessel == vessel, f.detail@ == detail@,
    {
        Finding { severity, code, vessel, detail }
    }
}

/// A finding as values.
pub struct FindingView {
    pub severity: FindingSeverity,
    pub code: &'static str,
    pub vessel: Option<VesselId>,
    pub detail: Seq<char>,
}

/// A finding as values.
pub open spec fn finding_view(f: Finding) -> FindingView {
    FindingView { severity: f.severity, code: f.code, vessel: f.vessel, detail: f.detail@ }
}

/// Findings as values.
pub open spec fn finding_views(s: Seq<Finding>) -> Seq<FindingView> {
    s.map_values(|f: Finding| finding_view(f))
}

#[derive(Debug, Clone, Copy, Default)]
pub struct ExchangeStats {
    pub frames: usize,
    pub sections: usize,
    pub compressed_sections: usize,
    pub dictionary_entries: usize,
    pub templates: usize,
    pub bytes_in: usize,
    pub bytes_decoded: usize,
}

impl ExchangeStats {
    /// All counters zero.
    pub fn zero() -> (s: Self)
        ensures s == (ExchangeStats { frames: 0, sections: 0, compressed_sections: 0, dictionary_entries: 0,
            templates: 0, bytes_in: 0, bytes_decoded: 0 }),
    {
        ExchangeStats { frames: 0, sections: 0, compressed_sections: 0, dictionary_entries: 0,
            templates: 0, bytes_in: 0, bytes_decoded: 0 }
    }

    pub fn merge(&mut self, other: &ExchangeStats)
        requires
            old(self).frames + other.frames <= usize::MAX,
            old(self).sections + other.sections <= usize::MAX,
            old(self).compressed_sections + other.compressed_sections <= usize::MAX,
            old(self).dictionary_entries + other.dictionary_entries <= usize::MAX,
            old(self).templates + other.templates <= usize::MAX,
            old(self).bytes_in + other.bytes_in <= usize::MAX,
            old(self).bytes_decoded + other.bytes_decoded <= usize::MAX,
        ensures
            final(self).frames == old(self).frames + other.frames,
            final(self).sections == old(self).sections + other.sections,
            final(self).compressed_sections == old(self).compressed_sections + other.compressed_sections,
            final(self).dictionary_entries == old(self).dictionary_entries + other.dictionary_entries,
            final(self).templates == old(self).templates + other.templates,
            final(self).bytes_in == old(self).bytes_in + other.bytes_in,
            final(self).bytes_decoded == old(self).bytes_decoded + other.bytes_decoded,
    {
        self.frames = self.frames + other.frames;
        self.sections = self.sections + other.sections;
        self.compressed_sections = self.compressed_sections + other.compressed_sections;
        self.dictionary_entries = self.dictionary_entries + other.dictionary_entries;
        self.templates = self.templates + other.templates;
        self.bytes_in = self.bytes_in + other.bytes_in;
        self.bytes_decoded = self.bytes_decoded + other.bytes_decoded;
    }
}

#[derive(Debug, Clone, Copy)]
pub struct TimeRange {
    pub start: Timestamp,
    pub end: Timestamp,
}

impl TimeRange {
    pub fn new(start: Timestamp, end: Timestamp) -> (r: Self)
        ensures r.start == start, r.end == end,
    {
        TimeRange { start, end }
    }

    pub fn contains(&self, time: Timestamp) -> (b: bool)
        ensures b == (self.start.0 <= time.0 <= self.end.0),
    {
        time.within(self.start, self.end)
    }

    pub fn overlaps(&self, other: &TimeRange) -> (b: bool)
        ensures b == (self.start.0 < other.end.0 && other.start.0 < self.end.0),
    {
        self.start.0 < other.end.0 && other.start.0 < self.end.0
    }

    pub fn duration(&self) -> (d: u64)
        ensures d == sat_sub64(self.end.0, self.start.0),
    {
        self.end.0.saturating_sub(self.start.0)
    }
}

/// Present times order before absent ones; present times order by value.
pub fn compare_optional_time(a: Option<Timestamp>, b: Option<Timestamp>) -> (o: Ordering)
    ensures
        o == (match (a, b) {
            (Some(x), Some(y)) => if x.0 < y.0 { Ordering::Less } else if x.0 == y.0 { Ordering::Equal } else { Ordering::Greater },
            (Some(_), None) => Ordering::Less,
            (None, Some(_)) => Ordering::Greater,
            (None, None) => Ordering::Equal,
        }),
{
    match (a, b) {
        (Some(x), Some(y)) => if x.0 < y.0 { Ordering::Less } else if x.0 == y.0 { Ordering::Equal } else { Ordering::Greater },
        (Some(_), None) => Ordering::Less,
        (None, Some(_)) => Ordering::Greater,
        (None, None) => Ordering::Equal,
    }
}

impl Default for PortSnapshot {
    fn default() -> (s: Self)
        ensures
            s.vessels@.len() == 0, s.berths@.len() == 0, s.cargo@.len() == 0, s.tides@.len() == 0,
            s.routes@.len() == 0, s.pilots@.len() == 0, s.notices@.len() == 0,
    {
        PortSnapshot::new()
    }
}

} // verus!
