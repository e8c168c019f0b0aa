use portwatch::analyzer::analyze_exchange;
use portwatch::error::ErrorKind;
use portwatch::frame::{build_frame, build_stream};
use portwatch::model::{MovementStatus, VesselClass, VesselId};
use portwatch::report::{render_finding, render_text_with_ratio, severity_label};
use portwatch::session::{decode_and_analyze, decode_stream, StreamSession};
use portwatch::{fuzz_ledger, fuzz_manifest, parse, parse_manifest};

fn vessel_bytes(id: u32, class: u8, lat: i32, lon: i32, time: u64, draught: u16) -> Vec<u8> {
    let mut v = Vec::new();
    v.extend_from_slice(&id.to_le_bytes());
    v.extend_from_slice(&211_000_000u32.to_le_bytes());
    v.extend_from_slice(&5u16.to_le_bytes());
    v.extend_from_slice(&6u16.to_le_bytes());
    v.push(class);
    v.push(0);
    v.extend_from_slice(&lat.to_le_bytes());
    v.extend_from_slice(&lon.to_le_bytes());
    v.extend_from_slice(&100u16.to_le_bytes());
    v.extend_from_slice(&90u16.to_le_bytes());
    v.extend_from_slice(&time.to_le_bytes());
    v.extend_from_slice(&draught.to_le_bytes());
    v.extend_from_slice(&9u16.to_le_bytes());
    v
}

fn tlv(tag: u8, flags: u8, value: &[u8]) -> Vec<u8> {
    let mut v = vec![tag, flags];
    v.extend_from_slice(&(value.len() as u16).to_le_bytes());
    v.extend_from_slice(value);
    v
}

fn vessel_list(vessels: &[Vec<u8>]) -> Vec<u8> {
    let mut v = (vessels.len() as u16).to_le_bytes().to_vec();
    for x in vessels {
        v.extend_from_slice(x);
    }
    v
}

#[test]
fn plain_records_decode() {
    let list = vessel_list(&[
        vessel_bytes(0x2a, 0, 535_000_000, 99_000_000, 500, 800),
        vessel_bytes(0x2b, 3, 535_100_000, 99_100_000, 100, 400),
    ]);
    let data = tlv(0x01, 0, &list);
    let summary = decode_stream(&data).unwrap();
    assert_eq!(summary.stream_id, 0);
    assert_eq!(summary.stats.sections, 1);
    assert_eq!(summary.stats.frames, 0);
    assert_eq!(summary.snapshot.vessels.len(), 2);
    // sorted by time
    assert_eq!(summary.snapshot.vessels[0].id, VesselId(0x2b));
    assert_eq!(summary.snapshot.vessels[0].class, VesselClass::Tug);
    assert_eq!(summary.snapshot.vessels[1].status, MovementStatus::Moored);
    assert_eq!(summary.snapshot.vessels[1].position.lat_e7, 535_000_000);
}

#[test]
fn empty_input_decodes_to_nothing() {
    let summary = decode_stream(&[]).unwrap();
    assert_eq!(summary.snapshot.vessels.len(), 0);
    assert_eq!(summary.stats.sections, 0);
    assert!(summary.frame_sequences.is_empty());
}

#[test]
fn framed_records_decode() {
    let list = vessel_list(&[vessel_bytes(7, 0, 1, 2, 3, 4)]);
    let records = tlv(0x01, 0, &list);
    let stream = build_stream(&[build_frame(0x03, 0, 5, &records), build_frame(0x07, 0, 6, &[])]);
    let summary = decode_stream(&stream).unwrap();
    assert_eq!(summary.stream_id, 1);
    assert_eq!(summary.stats.frames, 2);
    assert_eq!(summary.stats.bytes_in, records.len());
    assert_eq!(summary.stats.bytes_decoded, records.len());
    assert_eq!(summary.frame_sequences, vec![5, 6]);
    assert_eq!(summary.snapshot.vessels.len(), 1);
    assert_eq!(summary.snapshot.vessels[0].id, VesselId(7));
}

#[test]
fn compressed_frame_is_decoded() {
    let list = vessel_list(&[vessel_bytes(8, 0, 1, 2, 3, 4)]);
    let records = tlv(0x01, 0, &list);
    let packed = portwatch::codec::encode_seed_literal(&records);
    // flag bit 0: compressed; bits 1-2: codec 1 (run-length)
    let stream = build_stream(&[build_frame(0x03, 0x03, 1, &packed)]);
    let summary = decode_stream(&stream).unwrap();
    assert_eq!(summary.stats.compressed_sections, 1);
    assert_eq!(summary.stats.bytes_in, packed.len());
    assert_eq!(summary.stats.bytes_decoded, records.len());
    assert_eq!(summary.snapshot.vessels[0].id, VesselId(8));
}

#[test]
fn segments_reassemble_across_frames() {
    let list = vessel_list(&[vessel_bytes(9, 0, 1, 2, 3, 4)]);
    let records = tlv(0x01, 0, &list);
    let (first, second) = records.split_at(10);
    let segment = |part: u16, chunk: &[u8]| {
        let mut v = 77u32.to_le_bytes().to_vec();
        v.extend_from_slice(&part.to_le_bytes());
        v.extend_from_slice(&2u16.to_le_bytes());
        v.extend_from_slice(chunk);
        v
    };
    let stream = build_stream(&[
        build_frame(0x05, 0, 1, &segment(1, second)),
        build_frame(0x05, 0, 2, &segment(0, first)),
    ]);
    let summary = decode_stream(&stream).unwrap();
    assert_eq!(summary.snapshot.vessels.len(), 1);
    assert_eq!(summary.snapshot.vessels[0].id, VesselId(9));
    assert_eq!(summary.stats.sections, 1);
}

#[test]
fn incomplete_segment_is_kept_pending() {
    let mut seg = 1u32.to_le_bytes().to_vec();
    seg.extend_from_slice(&0u16.to_le_bytes());
    seg.extend_from_slice(&2u16.to_le_bytes());
    seg.extend_from_slice(&[1, 2, 3]);
    let mut session = StreamSession::new(4);
    session.apply_records(&tlv(0x0b, 0, &seg), 0).unwrap();
    let summary = session.finish().unwrap();
    assert_eq!(summary.stream_id, 4);
    assert_eq!(summary.stats.sections, 1);
    assert_eq!(summary.snapshot.vessels.len(), 0);
}

#[test]
fn segment_with_zero_parts_is_refused() {
    let mut seg = 1u32.to_le_bytes().to_vec();
    seg.extend_from_slice(&0u16.to_le_bytes());
    seg.extend_from_slice(&0u16.to_le_bytes());
    let err = decode_stream(&tlv(0x0b, 0, &seg)).unwrap_err();
    assert_eq!(err.kind, ErrorKind::LimitExceeded);
    assert_eq!(err.context, "segment total");
    assert_eq!(err.offset, 0);
}

#[test]
fn critical_unknown_entry_is_an_error() {
    let mut data = tlv(0x01, 0, &vessel_list(&[]));
    data.extend_from_slice(&tlv(0x0c, 0x80, &[1, 2]));
    let err = decode_stream(&data).unwrap_err();
    assert_eq!(err.kind, ErrorKind::UnknownSection);
    assert_eq!(err.offset, 6);
    assert_eq!(err.context, "signature");
}

#[test]
fn non_critical_unknown_entry_is_skipped() {
    let data = tlv(0x33, 0x00, &[1, 2, 3]);
    let summary = decode_stream(&data).unwrap();
    assert_eq!(summary.stats.sections, 1);
}

#[test]
fn truncated_entry_is_eof() {
    let err = decode_stream(&[0x01, 0x00, 0x05]).unwrap_err();
    assert_eq!(err.kind, ErrorKind::UnexpectedEof);
}

#[test]
fn unknown_frame_kind_with_flag_is_an_error() {
    let stream = build_stream(&[build_frame(0x42, 0x40, 1, &[])]);
    let err = decode_stream(&stream).unwrap_err();
    assert_eq!(err.kind, ErrorKind::UnknownSection);
    assert_eq!(err.offset, 12);
    assert_eq!(err.context, "frame");
}

#[test]
fn dictionary_frame_updates_counts() {
    let mut delta = 1u16.to_le_bytes().to_vec();
    delta.push(0x01);
    delta.extend_from_slice(&10u16.to_le_bytes());
    delta.extend_from_slice(&0u16.to_le_bytes());
    delta.extend_from_slice(&4u16.to_le_bytes());
    delta.extend_from_slice(b"MAIN");
    let stream = build_stream(&[build_frame(0x01, 0, 1, &delta)]);
    let summary = decode_stream(&stream).unwrap();
    assert_eq!(summary.stats.dictionary_entries, 1);
}

#[test]
fn parse_reports_missing_pilotage() {
    let data = tlv(0x01, 0, &vessel_list(&[vessel_bytes(0x2a, 1, 535_000_000, 99_000_000, 5, 800)]));
    let report = parse(&data).unwrap();
    assert_eq!(report.event_count, 1);
    assert_eq!(report.findings.len(), 1);
    assert_eq!(report.findings[0].code, "pilotage-missing");
    assert_eq!(report.risk_score, 45 + 15);
    assert_eq!(severity_label(&report.findings[0].severity), "medium");
    assert_eq!(
        render_finding(&report.findings[0]),
        "[medium] pilotage-missing vessel=V0000002a high-risk vessel has no pilot order"
    );
    let same = decode_and_analyze(&data).unwrap();
    assert_eq!(same.risk_score, report.risk_score);
    let summary = decode_stream(&data).unwrap();
    let again = analyze_exchange(summary).unwrap();
    assert_eq!(again.findings.len(), 1);
}

#[test]
fn report_text_layout() {
    let data = tlv(0x01, 0, &vessel_list(&[vessel_bytes(0x2a, 1, 535_000_000, 99_000_000, 5, 800)]));
    let report = parse(&data).unwrap();
    let text = render_text_with_ratio(&report, "1.00");
    assert_eq!(
        text,
        "PortWatch report\n================\nstream: 0\nevents: 1\nrisk: 60\nframes: 0\nsections: 1\ncompression ratio: 1.00\n\nfindings\n[medium] pilotage-missing vessel=V0000002a high-risk vessel has no pilot order\n"
    );
}

#[test]
fn fuzz_entry_points_accept_anything() {
    fuzz_manifest(&[0xff, 0x00, 0x13]);
    fuzz_ledger(&[0x05, 0x00, 0xff]);
    portwatch::fuzz_stream(&[0x01]);
    let manifest = parse_manifest(&[]).unwrap();
    assert_eq!(manifest.sections.len(), 0);
    assert_eq!(manifest.tlv_count, 0);
}
