use portwatch::analyzer::vessel_risk_bucket;
use portwatch::checksum::{fletcher32, rolling_tag, weighted_sum, ChecksumWindow};
use portwatch::model::{
    BerthId, BerthPlan, CargoLot, ChannelNotice, Coordinates, HazardClass, MovementStatus, PilotOrder, PortSnapshot,
    RouteLeg, RouteLegKind, RoutePoint, TideWindow, Timestamp, VesselClass, VesselId, VesselSnapshot,
};

fn vessel(id: u32, class: VesselClass, speed: u16, draught: u16, lat: i32) -> VesselSnapshot {
    VesselSnapshot {
        id: VesselId(id),
        mmsi: 1,
        name_code: 0,
        callsign_code: 0,
        class,
        status: MovementStatus::Moored,
        position: Coordinates { lat_e7: lat, lon_e7: 0 },
        speed_tenths: speed,
        heading_degrees: 0,
        timestamp: Timestamp(0),
        draught_cm: draught,
        destination_code: 0,
    }
}

fn lot(vessel: u32, hazard: HazardClass, tonnes: u32, flags: u16) -> CargoLot {
    CargoLot {
        vessel: VesselId(vessel),
        un_number: 1203,
        hazard,
        tonnes,
        package_code: 0,
        stowage_zone: 0,
        temperature_tenths: 0,
        flags,
    }
}

#[test]
fn checksums_exact_values() {
    assert_eq!(fletcher32(b"harbor"), 0x5b8d_364a);
    assert_eq!(fletcher32(b"abc"), 0xc525_62c4);
    assert_eq!(rolling_tag(7, b"harbor"), 0x29ee_8aee);
    assert_eq!(weighted_sum(b"harbor"), 2271);
}

#[test]
fn checksum_window_keeps_the_tail() {
    let mut window = ChecksumWindow::new(7);
    window.push(&vec![1u8; 4000]);
    window.push(b"harbor");
    window.push(&vec![2u8; 200]);
    assert_eq!(window.len(), 4096);
    window.reset(7);
    assert!(window.is_empty());
    window.push(b"harbor");
    assert_eq!(window.tag(), rolling_tag(7, b"harbor"));
}

#[test]
fn risk_hints() {
    assert_eq!(vessel(1, VesselClass::Cargo, 100, 800, 0).risk_hint(), 20);
    assert_eq!(vessel(1, VesselClass::Tanker, 190, 1500, 0).risk_hint(), 45 + 10 + 8);
    assert_eq!(vessel(1, VesselClass::Unknown(77), 0, 0, 950_000_000).risk_hint(), 25 + 60);
}

#[test]
fn hazard_scores_and_buckets() {
    let toxic = lot(1, HazardClass::Toxic, 400, 0x04);
    assert_eq!(toxic.hazard_score(), 70 + 20 + 25);
    assert!(toxic.requires_separation());
    assert_eq!(HazardClass::from_byte(0), HazardClass::NoHazard);
    let mut snapshot = PortSnapshot::new();
    snapshot.vessels.push(vessel(1, VesselClass::Tanker, 100, 800, 0));
    snapshot.cargo.push(toxic);
    snapshot.cargo.push(lot(2, HazardClass::Explosive, 0, 0));
    // 45 + 115 = 160
    assert_eq!(vessel_risk_bucket(&snapshot, VesselId(1)), 2);
    assert_eq!(vessel_risk_bucket(&snapshot, VesselId(2)), 1);
    assert_eq!(vessel_risk_bucket(&snapshot, VesselId(3)), 0);
    assert_eq!(snapshot.risk_score(), 45 + 115 + 80);
    assert_eq!(snapshot.event_count(), 3);
}

#[test]
fn berth_tide_pilot_notice_rules() {
    let plan = BerthPlan {
        berth: BerthId(0x0601),
        vessel: VesselId(1),
        start: Timestamp(100),
        end: Timestamp(200),
        priority: 1,
        max_draught_cm: 1200,
        required_tugs: 2,
        flags: 1,
    };
    let later = BerthPlan { start: Timestamp(200), end: Timestamp(300), ..plan };
    let overlapping = BerthPlan { start: Timestamp(199), ..later };
    assert!(!plan.overlaps(&later));
    assert!(plan.overlaps(&overlapping));
    assert!(plan.contains(Timestamp(200)));
    assert_eq!(plan.duration_seconds(), 100);
    assert!(plan.is_reserved());
    let tide = TideWindow {
        basin_code: 6,
        start: Timestamp(0),
        end: Timestamp(50),
        min_depth_cm: 1320,
        max_current_cms: 0,
        direction_degrees: 0,
        confidence: 9,
    };
    assert!(tide.supports_draught(1200));
    assert!(!tide.supports_draught(1201));
    assert!(!tide.overlaps(Timestamp(50), Timestamp(60)));
    let pilot = PilotOrder {
        vessel: VesselId(1),
        pilot_code: 3,
        boarding_time: Timestamp(86_400 + 21_599),
        boarding_position: Coordinates { lat_e7: 0, lon_e7: 0 },
        disembark_position: Coordinates { lat_e7: 0, lon_e7: 0 },
        language_mask: 1,
        flags: 0,
    };
    assert!(pilot.is_night_boarding());
    assert!(!PilotOrder { boarding_time: Timestamp(21_600), ..pilot }.is_night_boarding());
    let notice = ChannelNotice {
        notice_id: 1,
        basin_code: 6,
        starts_at: Timestamp(10),
        expires_at: Timestamp(20),
        severity: 7,
        subject_code: 0,
        message_code: 0,
        flags: 0,
    };
    assert!(notice.active_at(Timestamp(20)));
    assert!(!notice.active_at(Timestamp(21)));
    assert!(notice.is_closure());
}

#[test]
fn route_distance_and_low_water() {
    let point = |lat: i32, depth: u16| RoutePoint {
        position: Coordinates { lat_e7: lat, lon_e7: 0 },
        eta: Timestamp(0),
        speed_limit_tenths: 0,
        depth_cm: depth,
    };
    let leg = RouteLeg {
        vessel: VesselId(1),
        sequence: 1,
        kind: RouteLegKind::Approach,
        from: Coordinates { lat_e7: 0, lon_e7: 0 },
        to: Coordinates { lat_e7: 1000, lon_e7: 500 },
        eta_start: Timestamp(100),
        eta_end: Timestamp(50),
        channel_code: 0,
        points: vec![point(0, 2000), point(300, 1000), point(100, 900)],
    };
    assert_eq!(leg.rough_distance(), 1500 + 300 + 200);
    assert_eq!(leg.duration(), 0);
    assert!(leg.has_low_water(850));
    assert!(!leg.has_low_water(700));
}
