use portwatch::analyzer::{analyze_exchange, vessel_risk_bucket};
use portwatch::codec::{decode_dictionary_stream, decode_window, encode_seed_literal};
use portwatch::dictionary::StringDictionary;
use portwatch::error::ErrorKind;
use portwatch::model::{
    CargoLot, ChannelNotice, ExchangeStats, HazardClass, PortSnapshot, Timestamp, VesselId,
};
use portwatch::session::StreamSummary;
use portwatch::validate::validate_snapshot;

fn heavy_lot(vessel: u32) -> CargoLot {
    CargoLot {
        vessel: VesselId(vessel),
        un_number: 1203,
        hazard: HazardClass::Explosive,
        tonnes: u32::MAX,
        package_code: 0,
        stowage_zone: 0,
        temperature_tenths: 200,
        flags: 0,
    }
}

fn heavy_snapshot() -> PortSnapshot {
    let mut snapshot = PortSnapshot::new();
    for _ in 0..21 {
        snapshot.cargo.push(heavy_lot(7));
    }
    snapshot
}

#[test]
fn risk_score_saturates_on_heavy_cargo() {
    let snapshot = heavy_snapshot();
    assert_eq!(snapshot.risk_score(), u32::MAX);
}

#[test]
fn risk_score_counts_closures() {
    let mut snapshot = PortSnapshot::new();
    snapshot.notices.push(ChannelNotice {
        notice_id: 1,
        basin_code: 1,
        starts_at: Timestamp(0),
        expires_at: Timestamp(10),
        severity: 8,
        subject_code: 0,
        message_code: 0,
        flags: 0,
    });
    assert_eq!(snapshot.risk_score(), 20);
}

#[test]
fn risk_bucket_saturates_and_defaults_to_zero() {
    let snapshot = heavy_snapshot();
    assert_eq!(vessel_risk_bucket(&snapshot, VesselId(7)), 3);
    assert_eq!(vessel_risk_bucket(&snapshot, VesselId(8)), 0);
    assert_eq!(vessel_risk_bucket(&PortSnapshot::new(), VesselId(1)), 0);
}

#[test]
fn analysis_of_heavy_cargo_is_ok_and_saturated() {
    let summary = StreamSummary {
        stream_id: 4,
        snapshot: heavy_snapshot(),
        stats: ExchangeStats::zero(),
        ledger_materialized: Vec::new(),
        frame_sequences: Vec::new(),
    };
    let report = analyze_exchange(summary).unwrap();
    assert_eq!(report.stream_id, 4);
    assert_eq!(report.event_count, 21);
    assert_eq!(report.risk_score, u32::MAX);
}

#[test]
fn validation_counts_every_item() {
    let snapshot = heavy_snapshot();
    let report = validate_snapshot(&snapshot);
    assert_eq!(report.checked_vessels, 0);
    assert_eq!(report.checked_cargo, 21);
    assert_eq!(report.checked_berths, 0);
    assert_eq!(report.checked_routes, 0);
}

#[test]
fn window_backref_past_start_is_rejected() {
    let err = decode_window(&[0x40, 0, 0]).unwrap_err();
    assert_eq!(err.kind, ErrorKind::CompressionError);
    assert_eq!(err.offset, 3);
}

#[test]
fn window_checkpoint_of_empty_output() {
    let (out, stats) = decode_window(&[0xc0, 0, 0, 0, 0]).unwrap();
    assert!(out.is_empty());
    assert_eq!(stats.output_bytes, 0);
    let err = decode_window(&[0xc0, 1, 0, 0, 0]).unwrap_err();
    assert_eq!(err.kind, ErrorKind::InvalidChecksum);
    assert_eq!(err.offset, 5);
}

#[test]
fn dictionary_stream_reads_back_seed_literals() {
    let data: Vec<u8> = (0..100u8).collect();
    let encoded = encode_seed_literal(&data);
    let (out, stats) = decode_dictionary_stream(&encoded, &StringDictionary::new()).unwrap();
    assert_eq!(out, data);
    assert_eq!(stats.literals, 100);
    assert_eq!(stats.output_bytes, 100);
    assert_eq!(stats.dict_refs, 0);
    assert_eq!(stats.backrefs, 0);
    assert_eq!(stats.repeats, 0);
}

#[test]
fn dictionary_remove_delta_drops_entry_and_aliases() {
    let mut dict = StringDictionary::new();
    dict.insert(3, String::from("North Quay"), 0);
    dict.insert(4, String::from("South Quay"), 0);
    let mut alias = 2u16.to_le_bytes().to_vec();
    alias.push(0x02);
    alias.extend_from_slice(&9u16.to_le_bytes());
    alias.extend_from_slice(&3u16.to_le_bytes());
    alias.push(0x02);
    alias.extend_from_slice(&10u16.to_le_bytes());
    alias.extend_from_slice(&4u16.to_le_bytes());
    dict.apply_delta(&alias, 0).unwrap();
    assert_eq!(dict.get(9), Some("North Quay"));
    let remove = [0x01, 0x00, 0x03, 0x03, 0x00];
    dict.apply_delta(&remove, 0).unwrap();
    assert_eq!(dict.get(3), None);
    assert_eq!(dict.get(9), None);
    assert_eq!(dict.get(4), Some("South Quay"));
    assert_eq!(dict.get(10), Some("South Quay"));
}
