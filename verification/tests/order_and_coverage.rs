use portwatch::ais::deduplicate_tracks;
use portwatch::cargo::{hazard_histogram, incompatible};
use portwatch::dictionary::normalize_name;
use portwatch::graph::{quantized_node, RouteGraph};
use portwatch::model::{
    CargoLot, Coordinates, HazardClass, MovementStatus, RouteLeg, RouteLegKind, RoutePoint, Timestamp, VesselClass,
    VesselId, VesselSnapshot,
};
use portwatch::report::escape;

fn lot(vessel: u32, hazard: HazardClass, zone: u8) -> CargoLot {
    CargoLot {
        vessel: VesselId(vessel),
        un_number: 1,
        hazard,
        tonnes: 10,
        package_code: 0,
        stowage_zone: zone,
        temperature_tenths: 100,
        flags: 0,
    }
}

fn fix(id: u32, time: u64, speed: u16) -> VesselSnapshot {
    VesselSnapshot {
        id: VesselId(id),
        mmsi: 200_000_000,
        name_code: 0,
        callsign_code: 0,
        class: VesselClass::Cargo,
        status: MovementStatus::Underway,
        position: Coordinates { lat_e7: 0, lon_e7: 0 },
        speed_tenths: speed,
        heading_degrees: 0,
        timestamp: Timestamp(time),
        draught_cm: 500,
        destination_code: 0,
    }
}

#[test]
fn normalizing_twice_changes_nothing() {
    let once = normalize_name("  north-quay__7  berth ");
    assert_eq!(once, "NORTH QUAY 7 BERTH");
    assert_eq!(normalize_name(&once), once);
    assert!(once.chars().all(|c| c.is_ascii_uppercase() || c.is_ascii_digit() || c == ' '));
}

#[test]
fn escaped_text_has_no_control_characters() {
    let out = escape("a\u{1}b\n\"c\u{85}");
    assert_eq!(out, "a b\\n\\\"c ");
    assert!(!out.chars().any(|c| c.is_control()));
}

#[test]
fn incompatibility_is_symmetric() {
    let kinds = [HazardClass::Explosive, HazardClass::Oxidizer, HazardClass::FlammableLiquid, HazardClass::Toxic,
        HazardClass::Miscellaneous, HazardClass::Gas, HazardClass::NoHazard];
    for a in kinds {
        for b in kinds {
            let x = lot(1, a, 2);
            let y = lot(2, b, 2);
            assert_eq!(incompatible(&x, &y), incompatible(&y, &x));
        }
    }
}

#[test]
fn histogram_counts_every_lot_once() {
    let lots = vec![lot(1, HazardClass::Gas, 0), lot(2, HazardClass::Unknown(77), 0), lot(3, HazardClass::Toxic, 0)];
    let h = hazard_histogram(&lots);
    assert_eq!(h.iter().sum::<u32>(), 3);
}

#[test]
fn deduplicated_tracks_are_strictly_ordered() {
    let out = deduplicate_tracks(vec![fix(2, 10, 1), fix(1, 10, 2), fix(2, 10, 3), fix(1, 5, 4)]);
    let keys: Vec<(u64, u32)> = out.iter().map(|v| (v.timestamp.0, v.id.0)).collect();
    assert_eq!(keys, vec![(5, 1), (10, 1), (10, 2)]);
    assert_eq!(out[2].speed_tenths, 1);
}

#[test]
fn added_route_is_a_path() {
    let from = Coordinates { lat_e7: 535_000_000, lon_e7: 99_000_000 };
    let mid = Coordinates { lat_e7: 535_100_000, lon_e7: 99_100_000 };
    let to = Coordinates { lat_e7: 535_200_000, lon_e7: 99_200_000 };
    let route = RouteLeg {
        vessel: VesselId(9),
        sequence: 4,
        kind: RouteLegKind::Approach,
        from,
        to,
        eta_start: Timestamp(0),
        eta_end: Timestamp(100),
        channel_code: 3,
        points: vec![RoutePoint { position: mid, eta: Timestamp(50), speed_limit_tenths: 80, depth_cm: 1200 }],
    };
    let mut graph = RouteGraph::new();
    graph.add_route(&route);
    assert_eq!(graph.edges.len(), 2);
    assert_eq!(graph.edges[0].from, quantized_node(from, 3));
    assert_eq!(graph.edges[0].to, graph.edges[1].from);
    assert_eq!(graph.edges[1].to, quantized_node(to, 3));
    assert!(graph.edges.iter().all(|e| e.vessel == VesselId(9) && e.sequence == 4));
}
