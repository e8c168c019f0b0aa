use portwatch::error::ErrorKind;
use portwatch::model::{Coordinates, PilotOrder, RouteLegKind, Timestamp, VesselId};
use portwatch::pilot::{parse_pilots, PilotRoster};
use portwatch::route::parse_routes;

fn order(vessel: u32, boarding: u64, languages: u16) -> PilotOrder {
    PilotOrder {
        vessel: VesselId(vessel),
        pilot_code: 11,
        boarding_time: Timestamp(boarding),
        boarding_position: Coordinates { lat_e7: 1, lon_e7: 2 },
        disembark_position: Coordinates { lat_e7: 3, lon_e7: 4 },
        language_mask: languages,
        flags: 0,
    }
}

#[test]
fn pilot_list_reads_orders() {
    let mut data = Vec::new();
    data.extend_from_slice(&1u16.to_le_bytes());
    data.extend_from_slice(&77u32.to_le_bytes());
    data.extend_from_slice(&12u16.to_le_bytes());
    data.extend_from_slice(&3600u64.to_le_bytes());
    data.extend_from_slice(&(-10i32).to_le_bytes());
    data.extend_from_slice(&20i32.to_le_bytes());
    data.extend_from_slice(&30i32.to_le_bytes());
    data.extend_from_slice(&(-40i32).to_le_bytes());
    data.extend_from_slice(&0x0003u16.to_le_bytes());
    data.extend_from_slice(&0x0100u16.to_le_bytes());
    let orders = parse_pilots(&data, 0).unwrap();
    assert_eq!(orders, vec![PilotOrder {
        vessel: VesselId(77),
        pilot_code: 12,
        boarding_time: Timestamp(3600),
        boarding_position: Coordinates { lat_e7: -10, lon_e7: 20 },
        disembark_position: Coordinates { lat_e7: 30, lon_e7: -40 },
        language_mask: 3,
        flags: 0x0100,
    }]);
    assert!(orders[0].is_night_boarding());
}

#[test]
fn pilot_list_count_over_limit_is_refused() {
    let data = 4097u16.to_le_bytes();
    let err = parse_pilots(&data, 10).unwrap_err();
    assert_eq!(err.kind, ErrorKind::LimitExceeded);
    assert_eq!(err.offset, 12);
}

#[test]
fn pilot_roster_queries() {
    let roster = PilotRoster::new(vec![
        order(1, 12 * 3600, 0x0001),
        order(2, 2 * 3600, 0x0002),
        order(1, 23 * 3600, 0x0004),
        order(3, 86_400 + 21 * 3600, 0x0003),
    ]);
    assert_eq!(roster.by_vessel(VesselId(1)).unwrap().boarding_time, Timestamp(12 * 3600));
    assert!(roster.by_vessel(VesselId(9)).is_none());
    assert_eq!(roster.night_boardings(), 3);
    assert_eq!(roster.language_gaps(0x0002), vec![VesselId(1), VesselId(1)]);
}

fn push_varint(out: &mut Vec<u8>, mut v: u64) {
    while v >= 0x80 {
        out.push((v as u8) | 0x80);
        v >>= 7;
    }
    out.push(v as u8);
}

fn push_zigzag(out: &mut Vec<u8>, v: i64) {
    push_varint(out, ((v << 1) ^ (v >> 63)) as u64);
}

#[test]
fn route_leg_points_accumulate_deltas() {
    let mut data = Vec::new();
    data.extend_from_slice(&1u16.to_le_bytes());
    data.extend_from_slice(&5u32.to_le_bytes());
    data.extend_from_slice(&2u16.to_le_bytes());
    data.push(3);
    data.extend_from_slice(&44u16.to_le_bytes());
    data.extend_from_slice(&100i32.to_le_bytes());
    data.extend_from_slice(&200i32.to_le_bytes());
    data.extend_from_slice(&160i32.to_le_bytes());
    data.extend_from_slice(&190i32.to_le_bytes());
    data.extend_from_slice(&1000u64.to_le_bytes());
    data.extend_from_slice(&500u32.to_le_bytes());
    data.extend_from_slice(&2u16.to_le_bytes());
    push_zigzag(&mut data, 50);
    push_zigzag(&mut data, -5);
    push_varint(&mut data, 300);
    data.extend_from_slice(&80u16.to_le_bytes());
    data.extend_from_slice(&1500u16.to_le_bytes());
    push_zigzag(&mut data, 10);
    push_zigzag(&mut data, -5);
    push_varint(&mut data, 30);
    data.extend_from_slice(&60u16.to_le_bytes());
    data.extend_from_slice(&900u16.to_le_bytes());
    let legs = parse_routes(&data, 0).unwrap();
    assert_eq!(legs.len(), 1);
    let leg = &legs[0];
    assert_eq!(leg.vessel, VesselId(5));
    assert_eq!(leg.sequence, 2);
    assert_eq!(leg.kind, RouteLegKind::BerthEntry);
    assert_eq!(leg.channel_code, 44);
    assert_eq!(leg.from, Coordinates { lat_e7: 100, lon_e7: 200 });
    assert_eq!(leg.to, Coordinates { lat_e7: 160, lon_e7: 190 });
    assert_eq!(leg.eta_start, Timestamp(1000));
    assert_eq!(leg.eta_end, Timestamp(1500));
    assert_eq!(leg.duration(), 500);
    assert_eq!(leg.points.len(), 2);
    assert_eq!(leg.points[0].position, Coordinates { lat_e7: 150, lon_e7: 195 });
    assert_eq!(leg.points[0].eta, Timestamp(1300));
    assert_eq!(leg.points[0].speed_limit_tenths, 80);
    assert_eq!(leg.points[0].depth_cm, 1500);
    assert_eq!(leg.points[1].position, Coordinates { lat_e7: 160, lon_e7: 190 });
    assert_eq!(leg.points[1].eta, Timestamp(1330));
    assert_eq!(leg.rough_distance(), 60 + 10 + 10 + 5);
    assert!(leg.has_low_water(850));
    assert!(!leg.has_low_water(700));
}

#[test]
fn route_leg_truncated_point_is_eof() {
    let mut data = Vec::new();
    data.extend_from_slice(&1u16.to_le_bytes());
    data.extend_from_slice(&5u32.to_le_bytes());
    data.extend_from_slice(&2u16.to_le_bytes());
    data.push(0);
    data.extend_from_slice(&44u16.to_le_bytes());
    for v in [0i32, 0, 0, 0] {
        data.extend_from_slice(&v.to_le_bytes());
    }
    data.extend_from_slice(&1000u64.to_le_bytes());
    data.extend_from_slice(&500u32.to_le_bytes());
    data.extend_from_slice(&1u16.to_le_bytes());
    push_zigzag(&mut data, 1);
    let err = parse_routes(&data, 0).unwrap_err();
    assert_eq!(err.kind, ErrorKind::UnexpectedEof);
}
