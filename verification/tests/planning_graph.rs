use portwatch::dictionary::{name_similarity, normalize_name, StringDictionary};
use portwatch::graph::{quantized_node, NodeId, RouteGraph};
use portwatch::model::{
    BerthId, Coordinates, MovementStatus, RouteLeg, RouteLegKind, Timestamp, VesselClass, VesselId, VesselSnapshot,
};
use portwatch::planner::{assignment_reason, default_assets, required_tugs, TugPlanner};
use portwatch::report::escape;

fn vessel(id: u32, class: VesselClass, speed: u16, draught: u16, time: u64) -> VesselSnapshot {
    VesselSnapshot {
        id: VesselId(id),
        mmsi: 1,
        name_code: 0,
        callsign_code: 0,
        class,
        status: MovementStatus::Underway,
        position: Coordinates { lat_e7: 535_000_000, lon_e7: 99_000_000 },
        speed_tenths: speed,
        heading_degrees: 0,
        timestamp: Timestamp(time),
        draught_cm: draught,
        destination_code: 0,
    }
}

fn leg(vessel: u32, from: Coordinates, to: Coordinates, start: u64, end: u64) -> RouteLeg {
    RouteLeg {
        vessel: VesselId(vessel),
        sequence: 1,
        kind: RouteLegKind::Approach,
        from,
        to,
        eta_start: Timestamp(start),
        eta_end: Timestamp(end),
        channel_code: 3,
        points: Vec::new(),
    }
}

#[test]
fn dictionary_insert_alias_get() {
    let mut dict = StringDictionary::new();
    dict.insert(10, "MAIN".to_string(), 0);
    assert_eq!(dict.get(10), Some("MAIN"));
    dict.alias(11, 10);
    assert_eq!(dict.resolve_code(11), 10);
    assert_eq!(dict.get(11), Some("MAIN"));
    assert_eq!(dict.get(12), None);
    dict.insert(10, "QUAY".to_string(), 3);
    assert_eq!(dict.get(10), Some("QUAY"));
    assert_eq!(dict.flags(11), 3);
    assert_eq!(dict.len(), 1);
}

#[test]
fn dictionary_delta_insert_and_bad_op() {
    let mut dict = StringDictionary::new();
    let mut delta = 1u16.to_le_bytes().to_vec();
    delta.push(0x01);
    delta.extend_from_slice(&20u16.to_le_bytes());
    delta.extend_from_slice(&1u16.to_le_bytes());
    delta.extend_from_slice(&3u16.to_le_bytes());
    delta.extend_from_slice(b"ELB");
    dict.apply_delta(&delta, 0).unwrap();
    assert_eq!(dict.get(20), Some("ELB"));
    let err = dict.apply_delta(&[1, 0, 0x09], 100).unwrap_err();
    assert_eq!(err.kind, portwatch::error::ErrorKind::InvalidTag);
    assert_eq!(err.offset, 102);
}

#[test]
fn names_normalize_and_compare() {
    assert_eq!(normalize_name("  mv  sea-star_2 "), "MV SEA STAR 2");
    assert_eq!(name_similarity("Sea Star", "sea-star"), 1000);
    assert_eq!(name_similarity("Sea Star", "North Star"), 80);
    assert_eq!(name_similarity("", "x"), 0);
}

#[test]
fn tug_requirements() {
    let deep = vessel(1, VesselClass::Cargo, 130, 1400, 0);
    assert_eq!(required_tugs(&deep, None), 2);
    assert_eq!(assignment_reason(&deep, None), "draught");
    let tanker = vessel(2, VesselClass::Tanker, 200, 1500, 0);
    // 45 + 10 + 8 = 63: not over 70
    assert_eq!(required_tugs(&tanker, None), 2);
    let small = vessel(3, VesselClass::Pilot, 10, 100, 0);
    assert_eq!(required_tugs(&small, None), 0);
    assert_eq!(assignment_reason(&small, None), "movement");
}

#[test]
fn planning_books_free_tugs_in_fleet_order() {
    let mut planner = TugPlanner::new(default_assets());
    let a = vessel(1, VesselClass::Cargo, 130, 1400, 1000);
    let b = vessel(2, VesselClass::Cargo, 130, 1400, 1000);
    assert_eq!(planner.plan_for(&a, None, None), 2);
    assert_eq!(planner.plan_for(&b, None, None), 2);
    let booked = planner.assignments();
    assert_eq!(booked.len(), 4);
    assert_eq!(booked[0].tug_code, 101);
    assert_eq!(booked[1].tug_code, 102);
    assert_eq!(booked[2].tug_code, 201);
    assert_eq!(booked[3].tug_code, 202);
    assert_eq!(booked[0].starts_at, Timestamp(1000));
    assert_eq!(booked[0].ends_at, Timestamp(8200));
    assert!(!planner.is_available(101, Timestamp(2000), Timestamp(3000)));
    assert!(planner.is_available(101, Timestamp(8200), Timestamp(9000)));
    let totals = planner.utilization_by_tug();
    assert_eq!(totals, vec![(101, 7200), (102, 7200), (201, 7200), (202, 7200)]);
}

#[test]
fn planning_never_double_books() {
    let mut planner = TugPlanner::new(default_assets());
    for id in 0..5u32 {
        let v = vessel(id, VesselClass::Cargo, 130, 1400, 1000);
        planner.plan_for(&v, None, None);
    }
    let booked = planner.assignments();
    assert_eq!(booked.len(), 6);
    for i in 0..booked.len() {
        for j in i + 1..booked.len() {
            assert_ne!(booked[i].tug_code, booked[j].tug_code);
        }
    }
}

#[test]
fn node_quantization() {
    let id = quantized_node(Coordinates { lat_e7: 123_456_789, lon_e7: -5_000_000 }, 7);
    assert_eq!(id, NodeId(117_677_580));
}

#[test]
fn graph_of_crossing_routes() {
    let p1 = Coordinates { lat_e7: 10_000_000, lon_e7: 20_000_000 };
    let p2 = Coordinates { lat_e7: 10_100_000, lon_e7: 20_000_000 };
    let graph = RouteGraph::from_routes(&[leg(1, p1, p2, 0, 100), leg(2, p2, p1, 50, 150)]);
    assert_eq!(graph.nodes.len(), 2);
    assert_eq!(graph.edges.len(), 2);
    let n1 = quantized_node(p1, 3);
    let n2 = quantized_node(p2, 3);
    assert_eq!(graph.nodes[0].id, n1);
    assert_eq!(graph.nodes[1].id, n2);
    assert_eq!(graph.edges[0].distance_hint, 100_000);
    assert_eq!(graph.distance(n1, n2), 100_000);
    assert_eq!(graph.distance(n1, NodeId(0)), 0);
    assert_eq!(graph.crossing_edges(), vec![(0, 1)]);
    assert_eq!(graph.vessels_through(n1), vec![VesselId(1), VesselId(2)]);
    assert_eq!(graph.choke_points(2), vec![n1, n2]);
    assert_eq!(graph.choke_points(3), Vec::<NodeId>::new());
    assert!(graph.low_depth_nodes(100).is_empty());
}

#[test]
fn identifiers_as_text() {
    assert_eq!(VesselId(0x2a).to_text(), "V0000002a");
    assert_eq!(BerthId(0x0601).to_text(), "B06-01");
    assert_eq!(Timestamp(u64::MAX - 1).saturating_add(5), Timestamp(u64::MAX));
    assert_eq!(Timestamp(3).saturating_sub(5), Timestamp(0));
}

#[test]
fn escaping_text() {
    assert_eq!(escape("a\"b\\c\nd\te\u{1}"), "a\\\"b\\\\c\\nd\\te ");
}
