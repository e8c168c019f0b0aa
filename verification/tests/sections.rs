use portwatch::berth::{compact_schedule, find_conflicts, parse_berths, BerthOccupancy};
use portwatch::cargo::{conflict_pairs, hazard_histogram, incompatible, parse_cargo, total_tonnage};
use portwatch::error::ErrorKind;
use portwatch::model::{BerthId, BerthPlan, CargoLot, ChannelNotice, HazardClass, Timestamp, TideWindow, VesselId};
use portwatch::notice::{coalesce_notices, notice_pressure, NoticeIndex};
use portwatch::tide::{best_window, merge_adjacent, parse_tides};

fn plan(berth: u16, vessel: u32, start: u64, end: u64, priority: u8, flags: u16) -> BerthPlan {
    BerthPlan {
        berth: BerthId(berth),
        vessel: VesselId(vessel),
        start: Timestamp(start),
        end: Timestamp(end),
        priority,
        max_draught_cm: 900,
        required_tugs: 1,
        flags,
    }
}

fn lot(vessel: u32, hazard: HazardClass, tonnes: u32, zone: u8) -> CargoLot {
    CargoLot {
        vessel: VesselId(vessel),
        un_number: 1203,
        hazard,
        tonnes,
        package_code: 1,
        stowage_zone: zone,
        temperature_tenths: 150,
        flags: 0,
    }
}

fn tide(basin: u16, start: u64, end: u64, depth: u16, confidence: u8) -> TideWindow {
    TideWindow {
        basin_code: basin,
        start: Timestamp(start),
        end: Timestamp(end),
        min_depth_cm: depth,
        max_current_cms: 40,
        direction_degrees: 90,
        confidence,
    }
}

fn notice(id: u32, basin: u16, starts: u64, expires: u64, severity: u8, flags: u16) -> ChannelNotice {
    ChannelNotice {
        notice_id: id,
        basin_code: basin,
        starts_at: Timestamp(starts),
        expires_at: Timestamp(expires),
        severity,
        subject_code: 3,
        message_code: 9,
        flags,
    }
}

fn push_berth_record(out: &mut Vec<u8>, berth: u16, vessel: u32, start: u64, duration: u32) {
    out.extend_from_slice(&berth.to_le_bytes());
    out.extend_from_slice(&vessel.to_le_bytes());
    out.extend_from_slice(&start.to_le_bytes());
    out.extend_from_slice(&duration.to_le_bytes());
    out.push(2);
    out.extend_from_slice(&850u16.to_le_bytes());
    out.push(3);
    out.extend_from_slice(&1u16.to_le_bytes());
}

#[test]
fn berth_list_reads_plans_with_end_from_duration() {
    let mut data = Vec::new();
    data.extend_from_slice(&2u16.to_le_bytes());
    push_berth_record(&mut data, 0x0102, 7, 1000, 600);
    push_berth_record(&mut data, 0x0103, 8, u64::MAX - 10, 600);
    let plans = parse_berths(&data, 0).unwrap();
    assert_eq!(plans.len(), 2);
    assert_eq!(plans[0].berth, BerthId(0x0102));
    assert_eq!(plans[0].vessel, VesselId(7));
    assert_eq!(plans[0].start, Timestamp(1000));
    assert_eq!(plans[0].end, Timestamp(1600));
    assert_eq!(plans[0].priority, 2);
    assert_eq!(plans[0].max_draught_cm, 850);
    assert_eq!(plans[0].required_tugs, 3);
    assert_eq!(plans[0].flags, 1);
    assert_eq!(plans[1].end, Timestamp(u64::MAX));
}

#[test]
fn berth_list_truncated_is_eof_at_absolute_offset() {
    let mut data = Vec::new();
    data.extend_from_slice(&1u16.to_le_bytes());
    push_berth_record(&mut data, 1, 7, 1000, 600);
    data.truncate(data.len() - 1);
    let err = parse_berths(&data, 100).unwrap_err();
    assert_eq!(err.kind, ErrorKind::UnexpectedEof);
    assert_eq!(err.offset, 100 + 2 + 22);
}

#[test]
fn berth_list_count_over_limit_is_refused() {
    let data = 8193u16.to_le_bytes();
    let err = parse_berths(&data, 0).unwrap_err();
    assert_eq!(err.kind, ErrorKind::LimitExceeded);
    assert_eq!(err.offset, 2);
}

#[test]
fn berth_conflicts_are_same_berth_overlaps_in_order() {
    let plans = vec![
        plan(1, 10, 0, 100, 0, 0),
        plan(1, 11, 50, 150, 0, 0),
        plan(2, 12, 0, 100, 0, 0),
        plan(1, 13, 100, 200, 0, 0),
    ];
    assert_eq!(find_conflicts(&plans), vec![(0, 1), (1, 3)]);
}

#[test]
fn compact_schedule_sorts_and_drops_repeats() {
    let plans = vec![
        plan(2, 10, 0, 100, 0, 0),
        plan(1, 11, 50, 150, 0, 0),
        plan(1, 11, 50, 150, 3, 0),
        plan(1, 12, 10, 20, 0, 0),
    ];
    let compact = compact_schedule(&plans);
    assert_eq!(compact, vec![plan(1, 12, 10, 20, 0, 0), plan(1, 11, 50, 150, 0, 0), plan(2, 10, 0, 100, 0, 0)]);
}

#[test]
fn occupancy_windows_by_start() {
    let plans = vec![
        plan(1, 10, 500, 700, 0, 0),
        plan(2, 11, 0, 100, 0, 0),
        plan(1, 12, 100, 300, 0, 0),
    ];
    let occupancy = BerthOccupancy::from_plans(BerthId(1), &plans);
    assert_eq!(occupancy.berth, BerthId(1));
    assert_eq!(occupancy.windows.len(), 2);
    assert_eq!(occupancy.windows[0].2, VesselId(12));
    assert_eq!(occupancy.occupied_at(Timestamp(300)), Some(VesselId(12)));
    assert_eq!(occupancy.occupied_at(Timestamp(600)), Some(VesselId(10)));
    assert_eq!(occupancy.occupied_at(Timestamp(400)), None);
    assert_eq!(occupancy.utilization_seconds(), 400);
}

#[test]
fn cargo_list_reads_lots() {
    let mut data = Vec::new();
    data.extend_from_slice(&1u16.to_le_bytes());
    data.extend_from_slice(&42u32.to_le_bytes());
    data.extend_from_slice(&1203u16.to_le_bytes());
    data.push(3);
    data.extend_from_slice(&500u32.to_le_bytes());
    data.extend_from_slice(&7u16.to_le_bytes());
    data.push(4);
    data.extend_from_slice(&(-25i16).to_le_bytes());
    data.extend_from_slice(&0x0008u16.to_le_bytes());
    let lots = parse_cargo(&data, 0).unwrap();
    assert_eq!(lots.len(), 1);
    let l = lots[0];
    assert_eq!(l.vessel, VesselId(42));
    assert_eq!(l.un_number, 1203);
    assert_eq!(l.hazard, HazardClass::FlammableLiquid);
    assert_eq!(l.tonnes, 500);
    assert_eq!(l.package_code, 7);
    assert_eq!(l.stowage_zone, 4);
    assert_eq!(l.temperature_tenths, -25);
    assert_eq!(l.flags, 8);
    assert!(l.is_refrigerated());
    assert_eq!(l.hazard_score(), 65 + 25);
}

#[test]
fn cargo_incompatibility_rules() {
    let ox = lot(1, HazardClass::Oxidizer, 10, 3);
    let fl = lot(2, HazardClass::FlammableLiquid, 10, 3);
    let gas = lot(3, HazardClass::Gas, 10, 3);
    let toxic = lot(4, HazardClass::Toxic, 10, 3);
    let misc = lot(5, HazardClass::Miscellaneous, 10, 3);
    let expl = lot(6, HazardClass::Explosive, 10, 3);
    assert!(incompatible(&ox, &fl));
    assert!(incompatible(&fl, &ox));
    assert!(incompatible(&toxic, &misc));
    assert!(incompatible(&gas, &expl));
    assert!(incompatible(&toxic, &fl));
    assert!(!incompatible(&gas, &misc));
    let same_vessel = lot(1, HazardClass::Explosive, 10, 3);
    assert!(!incompatible(&ox, &same_vessel));
    let other_zone = lot(9, HazardClass::Explosive, 10, 4);
    assert!(!incompatible(&ox, &other_zone));
    assert_eq!(conflict_pairs(&[ox, gas, fl]), vec![(0, 2)]);
}

#[test]
fn cargo_tonnage_and_histogram() {
    let lots = vec![
        lot(1, HazardClass::Gas, 100, 1),
        lot(2, HazardClass::Gas, 250, 1),
        lot(3, HazardClass::Unknown(42), 5, 1),
        lot(4, HazardClass::NoHazard, 1, 1),
    ];
    assert_eq!(total_tonnage(&lots), 356);
    assert_eq!(hazard_histogram(&lots), [1, 0, 2, 0, 0, 0, 0, 0, 0, 1]);
}

#[test]
fn tide_list_reads_windows() {
    let mut data = Vec::new();
    data.extend_from_slice(&1u16.to_le_bytes());
    data.extend_from_slice(&5u16.to_le_bytes());
    data.extend_from_slice(&3600u64.to_le_bytes());
    data.extend_from_slice(&1800u32.to_le_bytes());
    data.extend_from_slice(&1400u16.to_le_bytes());
    data.extend_from_slice(&30u16.to_le_bytes());
    data.extend_from_slice(&270u16.to_le_bytes());
    data.push(80);
    let tides = parse_tides(&data, 0).unwrap();
    assert_eq!(tides, vec![TideWindow {
        basin_code: 5,
        start: Timestamp(3600),
        end: Timestamp(5400),
        min_depth_cm: 1400,
        max_current_cms: 30,
        direction_degrees: 270,
        confidence: 80,
    }]);
}

#[test]
fn best_tide_window_ranks_confidence_then_depth() {
    let tides = vec![
        tide(1, 0, 100, 1200, 50),
        tide(1, 0, 100, 1500, 70),
        tide(1, 0, 100, 1600, 70),
        tide(2, 0, 100, 3000, 99),
        tide(1, 0, 100, 1000, 99),
    ];
    let best = best_window(&tides, 1, Timestamp(10), Timestamp(20), 900).unwrap();
    assert_eq!(*best, tide(1, 0, 100, 1600, 70));
    assert!(best_window(&tides, 1, Timestamp(100), Timestamp(200), 900).is_none());
}

#[test]
fn merge_adjacent_joins_continuing_windows() {
    let tides = vec![
        tide(1, 100, 200, 1200, 50),
        tide(1, 0, 100, 1200, 60),
        tide(1, 300, 400, 1200, 60),
        tide(2, 0, 50, 1200, 10),
    ];
    let merged = merge_adjacent(tides);
    assert_eq!(merged, vec![tide(1, 0, 200, 1200, 60), tide(1, 300, 400, 1200, 60), tide(2, 0, 50, 1200, 10)]);
}

#[test]
fn notice_index_queries() {
    let index = NoticeIndex::new(vec![
        notice(3, 2, 50, 60, 8, 0),
        notice(1, 1, 100, 200, 3, 0),
        notice(2, 1, 0, 40, 7, 0),
    ]);
    assert_eq!(index.len(), 3);
    assert!(!index.is_empty());
    let active = index.active_for_basin(1, Timestamp(150));
    assert_eq!(active, vec![notice(1, 1, 100, 200, 3, 0)]);
    let closures = index.closures_for_basin(1);
    assert_eq!(closures, vec![notice(2, 1, 0, 40, 7, 0)]);
    assert_eq!(index.expired_before(Timestamp(55)), vec![2]);
    assert_eq!(index.severe_count(), 2);
}

#[test]
fn coalesce_and_pressure() {
    let merged = coalesce_notices(vec![
        notice(2, 1, 50, 300, 4, 0x0004),
        notice(1, 1, 0, 100, 2, 0x0001),
    ]);
    assert_eq!(merged.len(), 1);
    assert_eq!(merged[0].notice_id, 1);
    assert_eq!(merged[0].expires_at, Timestamp(300));
    assert_eq!(merged[0].severity, 4);
    assert_eq!(merged[0].flags, 0x0005);
    let notices = vec![notice(1, 1, 0, 100, 2, 0x0001), notice(2, 1, 0, 100, 4, 0x0004), notice(3, 2, 0, 100, 9, 0)];
    assert_eq!(notice_pressure(&notices, 1, Timestamp(50)), 2 + 20 + 4 + 5);
    assert_eq!(notice_pressure(&notices, 1, Timestamp(500)), 0);
}
