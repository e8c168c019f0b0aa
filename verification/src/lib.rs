//! Decoding of harbor-operations exchange files: framed streams of compressed sections,
//! string dictionaries, record templates, segmented payloads and a vessel ledger, into a
//! snapshot of vessels, berth plans, cargo, tides, routes, pilot orders and channel notices,
//! with the analyses and plans built on it.

pub mod error;
pub mod text;
pub mod buf;
pub mod cursor;
pub mod checksum;
pub mod sort;
pub mod model;
pub mod dictionary;
pub mod codec;
pub mod tlv;
pub mod frame;
pub mod manifest;
pub mod ais;
pub mod berth;
pub mod cargo;
pub mod tide;
pub mod pilot;
pub mod notice;
pub mod route;
pub mod catalog;
pub mod keyed;
pub mod tally;
pub mod template;
pub mod ledger;
pub mod validate;
pub mod session;
pub mod analyzer;
pub mod report;
pub mod planner;
pub mod graph;

pub use analyzer::{analyze_exchange, HarborReport};
pub use error::{ParseError, ParseResult};
pub use manifest::{decode_manifest, HarborManifest};
pub use session::{decode_stream, StreamSummary};

use vstd::prelude::*;
use crate::manifest::{manifest_res, manifest_spec};
use crate::session::{event_count_fits, analyzed, decode_and_analyze, decode_fits};

verus! {

/// Decodes and analyses an exchange: the report, or the first error.
pub fn parse(data: &[u8]) -> (r: ParseResult<HarborReport>)
    requires decode_fits(data@), event_count_fits(data@),
    ensures analyzed(data@, r),
{
    decode_and_analyze(data)
}

/// Decodes a manifest.
pub fn parse_manifest(data: &[u8]) -> (r: ParseResult<HarborManifest>)
    ensures manifest_res(r) == manifest_spec(data@),
{
    decode_manifest(data)
}

/// Decodes and analyses an exchange, dropping the result.
pub fn fuzz_stream(data: &[u8])
    requires decode_fits(data@), event_count_fits(data@),
{
    let _ = parse(data);
}

/// Decodes a manifest, dropping the result.
pub fn fuzz_manifest(data: &[u8]) {
    let _ = parse_manifest(data);
}

/// Runs a ledger program on a fresh ledger, dropping the result.
pub fn fuzz_ledger(data: &[u8]) {
    let _ = crate::ledger::decode_ledger_program(data);
}

} // verus!
