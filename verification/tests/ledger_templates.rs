use portwatch::cursor::ByteCursor;
use portwatch::dictionary::StringDictionary;
use portwatch::error::ErrorKind;
use portwatch::frame::parse_stream_frames;
use portwatch::ledger::{decode_ledger_program, VesselLedger};
use portwatch::template::{FieldKind, RecordTemplate, TemplateRegistry};

fn dict_insert_delta(code: u16, text: &[u8]) -> Vec<u8> {
    let mut delta = 1u16.to_le_bytes().to_vec();
    delta.push(0x01);
    delta.extend_from_slice(&code.to_le_bytes());
    delta.extend_from_slice(&0u16.to_le_bytes());
    delta.extend_from_slice(&(text.len() as u16).to_le_bytes());
    delta.extend_from_slice(text);
    delta
}

#[test]
fn ledger_materializes_and_scores_names() {
    let delta = dict_insert_delta(5, b"TANKER A");
    let mut program = 3u16.to_le_bytes().to_vec();
    program.push(0x01);
    program.extend_from_slice(&(delta.len() as u16).to_le_bytes());
    program.extend_from_slice(&delta);
    program.push(0x03);
    program.extend_from_slice(&42u32.to_le_bytes());
    program.extend_from_slice(&5u16.to_le_bytes());
    program.extend_from_slice(&0u16.to_le_bytes());
    program.extend_from_slice(&0u16.to_le_bytes());
    program.push(0x05);
    let mut ledger = VesselLedger::new();
    let findings = ledger.apply_program(&program, 0).unwrap();
    assert!(findings.is_empty());
    assert_eq!(ledger.records().len(), 1);
    assert_eq!(ledger.materialized().len(), 1);
    assert_eq!(ledger.materialized()[0], "TANKER A");
    // eight characters plus twelve for the tank marker
    assert_eq!(ledger.audit_score(), 20);
}

#[test]
fn ledger_unknown_op_is_an_error() {
    let err = decode_ledger_program(&[1, 0, 0x09]).unwrap_err();
    assert_eq!(err.kind, ErrorKind::InvalidTag);
    assert_eq!(err.offset, 2);
    assert_eq!(err.context, "ledger op");
    assert!(decode_ledger_program(&[0, 0]).unwrap().is_empty());
}

#[test]
fn dictionary_rejects_bad_utf8() {
    let mut dict = StringDictionary::new();
    let err = dict.apply_delta(&dict_insert_delta(3, &[0xff]), 40).unwrap_err();
    assert_eq!(err.kind, ErrorKind::InvalidUtf8);
    assert_eq!(err.offset, 50);
    dict.apply_delta(&dict_insert_delta(3, "Kai Süd".as_bytes()), 0).unwrap();
    assert_eq!(dict.get(3), Some("Kai Süd"));
    let lease = dict.lease(3).unwrap();
    assert_eq!(lease.text_lossy(), "Kai Süd");
    assert_eq!(lease.len(), "Kai Süd".len());
}

#[test]
fn templates_parse_and_replace() {
    let mut section = 1u16.to_le_bytes().to_vec();
    section.extend_from_slice(&7u16.to_le_bytes());
    section.push(1);
    section.push(2);
    section.extend_from_slice(&[1, 1, 0, 0, 0, 0]);
    section.extend_from_slice(&[2, 6, 0, 0, 0, 0]);
    let mut registry = TemplateRegistry::new();
    registry.parse_section(&section, 0).unwrap();
    assert_eq!(registry.len(), 1);
    let t = registry.get(7).unwrap();
    assert_eq!(t.event_kind, 1);
    assert_eq!(t.fields.len(), 2);
    assert_eq!(t.fields[1].kind, FieldKind::Var);
    assert_eq!(t.minimum_width(), 3);
    registry.insert(RecordTemplate { id: 7, event_kind: 2, fields: Vec::new() });
    assert_eq!(registry.len(), 1);
    assert_eq!(registry.get(7).unwrap().event_kind, 2);
    assert!(registry.get(8).is_none());
}

#[test]
fn template_bad_field_kind() {
    let mut section = 1u16.to_le_bytes().to_vec();
    section.extend_from_slice(&7u16.to_le_bytes());
    section.push(1);
    section.push(1);
    section.extend_from_slice(&[1, 9, 0, 0, 0, 0]);
    let mut registry = TemplateRegistry::new();
    let err = registry.parse_section(&section, 100).unwrap_err();
    assert_eq!(err.kind, ErrorKind::InvalidValue);
    assert_eq!(err.offset, 0);
    assert_eq!(err.context, "template field kind");
}

#[test]
fn cursor_reads() {
    let data = [1u8, 2, 3, 4, 5];
    let mut cursor = ByteCursor::new(&data);
    assert_eq!(cursor.read_array::<4>("head").unwrap(), [1, 2, 3, 4]);
    assert_eq!(cursor.read_u8().unwrap(), 5);
    assert_eq!(cursor.read_u8().unwrap_err().kind, ErrorKind::UnexpectedEof);
    let long = [0x80u8; 10];
    let mut c2 = ByteCursor::with_base(&long, 7);
    let err = c2.read_varint("len").unwrap_err();
    assert_eq!(err.kind, ErrorKind::InvalidLength);
    assert_eq!(err.offset, 17);
    let mut c3 = ByteCursor::new(&[0xac, 0x02]);
    assert_eq!(c3.read_varint("n").unwrap(), 300);
}

#[test]
fn stream_version_must_be_one() {
    let err = parse_stream_frames(b"PWX1\x02\x00\x01\x00\x00\x00\x00\x00").unwrap_err();
    assert_eq!(err.kind, ErrorKind::UnsupportedVersion);
    assert_eq!(err.offset, 4);
}
