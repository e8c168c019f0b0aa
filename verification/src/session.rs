use vstd::prelude::*;
use crate::ais::{parse_vessels, vessels_spec};
use crate::analyzer::{analyze_exchange, report_of, HarborReport};
use crate::berth::{berths_spec, parse_berths};
use crate::buf::copy_bytes;
use crate::cargo::{cargo_spec, parse_cargo};
use crate::codec::{decode_payload, joined, payload_spec, ReassemblyBuffer};
use crate::cursor::{sat_add, rd_u16, rd_u32, ByteCursor, Cur};
use crate::dictionary::{delta_spec, empty_dict, DictView, StringDictionary};
use crate::error::{ErrorKind, ParseError, ParseResult, mk_err};
use crate::frame::{parse_stream_frames, stream_magic, stream_spec, Frame, FrameKind, FrameView};
use crate::keyed::{find_by, key_pos, key_sorted, key_split, remove_by, upsert_by, lemma_find_none, lemma_find_sorted, lemma_key_pos,
    lemma_key_split_exists, lemma_upsert_sorted};
use crate::ledger::{empty_ledger, program_spec, string_views, LedgerView, VesselLedger};
use crate::manifest::{decode_manifest, manifest_spec};
use crate::model::{berth_keys, notice_keys, pilot_keys, route_keys, tide_keys, vessel_keys, event_total, BerthPlan, CargoLot, ChannelNotice, ExchangeStats, PilotOrder, PortSnapshot, RouteLeg, TideWindow, VesselSnapshot};
use crate::notice::{notices_spec, parse_notices};
use crate::pilot::{parse_pilots, pilots_spec};
use crate::route::{leg_view, leg_views, parse_routes, routes_spec, RouteLegView};
use crate::sort::{sorted_with, lemma_sorted_with_map, SortKey};
use crate::tally::{sum_of, lemma_sum_add, lemma_sum_insert, lemma_sum_nonneg, lemma_sum_remove, lemma_sum_update, lemma_sum_zero};
use crate::template::{section_spec, TemplateRegistry, TemplateView};
use crate::tide::{parse_tides, tides_spec};
use crate::tlv::{flag_critical, parse_all, tag_name, tlv_views, tlvs_from, tlvs_spec, rd_tlv_with, Tag, Tlv, TlvView};

verus! {

/// What decoding a stream yields: its id, the events, the counters, the ledger's
/// materialized names and the frame sequence numbers.
#[derive(Debug, Clone)]
pub struct StreamSummary {
    pub stream_id: u16,
    pub snapshot: PortSnapshot,
    pub stats: ExchangeStats,
    pub ledger_materialized: Vec<String>,
    pub frame_sequences: Vec<u32>,
}

/// A reassembly buffer as values: its slots and the bytes counted so far.
pub struct SegView {
    pub slots: Seq<Option<Seq<u8>>>,
    pub total: usize,
}

/// The events received so far, as values.
pub struct EventsView {
    pub vessels: Seq<VesselSnapshot>,
    pub berths: Seq<BerthPlan>,
    pub cargo: Seq<CargoLot>,
    pub tides: Seq<TideWindow>,
    pub routes: Seq<RouteLegView>,
    pub pilots: Seq<PilotOrder>,
    pub notices: Seq<ChannelNotice>,
}

/// A session as values: the stream id, the dictionary, the templates, the ledger, the events,
/// the counters, the pending segment groups (by ascending group id) and the frame sequence
/// numbers seen.
pub struct SessionView {
    pub stream_id: u16,
    pub dict: DictView,
    pub templates: Seq<TemplateView>,
    pub ledger: LedgerView,
    pub events: EventsView,
    pub stats: ExchangeStats,
    pub segments: Seq<(u32, SegView)>,
    pub sequences: Seq<u32>,
}

/// The result of a step: the state after it, whether it succeeded, and whether every counter
/// and offset it computed stayed within `usize` (where not, the step overflows and is not
/// defined).
pub struct Outcome {
    pub state: SessionView,
    pub result: Result<(), ParseError>,
    pub fits: bool,
}

/// A step's outcome.
pub open spec fn outcome(state: SessionView, result: Result<(), ParseError>, fits: bool) -> Outcome {
    Outcome { state, result, fits }
}

/// Pending groups are found and ordered by group id.
pub open spec fn seg_key() -> spec_fn((u32, SegView)) -> int {
    |p: (u32, SegView)| p.0 as int
}

/// The bytes a slot holds.
pub open spec fn slot_len() -> spec_fn(Option<Seq<u8>>) -> int {
    |o: Option<Seq<u8>>| match o { Some(c) => c.len() as int, None => 0 }
}

/// The bytes a group holds.
pub open spec fn group_bytes() -> spec_fn((u32, SegView)) -> int {
    |p: (u32, SegView)| sum_of(p.1.slots, slot_len())
}

/// The bytes held by all pending groups.
pub open spec fn stored(segs: Seq<(u32, SegView)>) -> int {
    sum_of(segs, group_bytes())
}

/// The state with other events.
pub open spec fn with_events(st: SessionView, events: EventsView) -> SessionView {
    SessionView { events, ..st }
}

/// The state with other counters.
pub open spec fn with_stats(st: SessionView, stats: ExchangeStats) -> SessionView {
    SessionView { stats, ..st }
}

/// The state with other pending groups.
pub open spec fn with_segments(st: SessionView, segments: Seq<(u32, SegView)>) -> SessionView {
    SessionView { segments, ..st }
}

/// Applying a dictionary delta: the dictionary after it, and on success the entry count.
#[verifier::opaque]
pub open spec fn dict_step(st: SessionView, data: Seq<u8>, base: usize) -> (SessionView, Result<(), ParseError>) {
    let (d, r) = delta_spec(st.dict, data, base);
    let st1 = SessionView { dict: d, ..st };
    match r {
        Ok(()) => (with_stats(st1, ExchangeStats { dictionary_entries: d.entries.len() as usize, ..st.stats }), Ok(())),
        Err(e) => (st1, Err(e)),
    }
}

/// Reading a template section: the templates after it, and on success their count.
#[verifier::opaque]
pub open spec fn template_step(st: SessionView, data: Seq<u8>, base: usize) -> (SessionView, Result<(), ParseError>) {
    let (t, r) = section_spec(st.templates, data, base);
    let st1 = SessionView { templates: t, ..st };
    match r {
        Ok(()) => (with_stats(st1, ExchangeStats { templates: t.len() as usize, ..st.stats }), Ok(())),
        Err(e) => (st1, Err(e)),
    }
}

/// Running a ledger program; its findings are not kept.
#[verifier::opaque]
pub open spec fn ledger_step(st: SessionView, data: Seq<u8>, base: usize) -> (SessionView, Result<(), ParseError>) {
    let (l, r) = program_spec(st.ledger, data, base);
    let st1 = SessionView { ledger: l, ..st };
    match r {
        Ok(_) => (st1, Ok(())),
        Err(e) => (st1, Err(e)),
    }
}

/// Appending the events that parsing an entry's value gives, or its error.
#[verifier::opaque]
pub open spec fn event_step(st: SessionView, tag: Tag, data: Seq<u8>, base: usize) -> (SessionView, Result<(), ParseError>) {
    let ev = st.events;
    match tag {
        Tag::Vessel => match vessels_spec(data, base) {
            Ok(s) => (with_events(st, EventsView { vessels: ev.vessels + s, ..ev }), Ok(())),
            Err(e) => (st, Err(e)),
        },
        Tag::Berth => match berths_spec(data, base) {
            Ok(s) => (with_events(st, EventsView { berths: ev.berths + s, ..ev }), Ok(())),
            Err(e) => (st, Err(e)),
        },
        Tag::Cargo => match cargo_spec(data, base) {
            Ok(s) => (with_events(st, EventsView { cargo: ev.cargo + s, ..ev }), Ok(())),
            Err(e) => (st, Err(e)),
        },
        Tag::Tide => match tides_spec(data, base) {
            Ok(s) => (with_events(st, EventsView { tides: ev.tides + s, ..ev }), Ok(())),
            Err(e) => (st, Err(e)),
        },
        Tag::Route => match routes_spec(data, base) {
            Ok(s) => (with_events(st, EventsView { routes: ev.routes + s, ..ev }), Ok(())),
            Err(e) => (st, Err(e)),
        },
        Tag::Pilot => match pilots_spec(data, base) {
            Ok(s) => (with_events(st, EventsView { pilots: ev.pilots + s, ..ev }), Ok(())),
            Err(e) => (st, Err(e)),
        },
        _ => match notices_spec(data, base) {
            Ok(s) => (with_events(st, EventsView { notices: ev.notices + s, ..ev }), Ok(())),
            Err(e) => (st, Err(e)),
        },
    }
}

/// The tags whose values are lists of events.
pub open spec fn event_tag(tag: Tag) -> bool {
    tag is Vessel || tag is Berth || tag is Cargo || tag is Tide || tag is Route || tag is Pilot || tag is Notice
}

/// The fuel that records nested through segments never use up: three steps per byte held or
/// to be read, and three more.
pub open spec fn rec_fuel(st: SessionView, data: Seq<u8>) -> nat {
    (3 * (stored(st.segments) + data.len()) + 3) as nat
}

/// Applying a records payload: its entries are read (an error stops everything), counted,
/// and applied in order until one fails.
pub open spec fn records_spec(st: SessionView, data: Seq<u8>, base: usize, fuel: nat) -> Outcome
    decreases fuel, 0int,
{
    if fuel == 0 {
        outcome(st, Ok(()), true)
    } else {
        match tlvs_spec(data, base) {
            Err(e) => outcome(st, Err(e), true),
            Ok(entries) => {
                let sections = st.stats.sections + entries.len();
                let st1 = with_stats(st, ExchangeStats { sections: sections as usize, ..st.stats });
                let o = entries_run(st1, entries, 0, (fuel - 1) as nat);
                outcome(o.state, o.result, sections <= usize::MAX && o.fits)
            },
        }
    }
}

/// Applying entries `i..` in order until one fails.
pub open spec fn entries_run(st: SessionView, entries: Seq<TlvView>, i: int, fuel: nat) -> Outcome
    decreases fuel, entries.len() - i,
{
    if i < 0 || i >= entries.len() {
        outcome(st, Ok(()), true)
    } else {
        let o = entry_spec(st, entries[i], fuel);
        match o.result {
            Err(e) => o,
            Ok(()) => {
                let rest = entries_run(o.state, entries, i + 1, fuel);
                outcome(rest.state, rest.result, o.fits && rest.fits)
            },
        }
    }
}

/// Applying one entry: lists of events are appended, a dictionary delta, a template section
/// or a ledger program is applied (values start four bytes after the tag byte), a segment is
/// stored (its group defaulting to the entry's offset), and an unknown or signature entry is
/// an error only when marked critical.
pub open spec fn entry_spec(st: SessionView, e: TlvView, fuel: nat) -> Outcome
    decreases fuel, 0int,
{
    let at = (e.offset + 4) as usize;
    let at_fits = e.offset + 4 <= usize::MAX;
    if event_tag(e.tag) {
        let (s, r) = event_step(st, e.tag, e.value, at);
        outcome(s, r, at_fits)
    } else if e.tag is Dictionary {
        let (s, r) = dict_step(st, e.value, at);
        outcome(s, r, at_fits)
    } else if e.tag is Template {
        let (s, r) = template_step(st, e.value, at);
        outcome(s, r, at_fits)
    } else if e.tag is Ledger {
        let (s, r) = ledger_step(st, e.value, at);
        outcome(s, r, at_fits)
    } else if e.tag is Segment {
        if fuel == 0 { outcome(st, Ok(()), true) } else { seg_spec(st, e.value, e.offset as u32, (fuel - 1) as nat) }
    } else if flag_critical(e.flags) {
        outcome(st, Err(mk_err(ErrorKind::UnknownSection, e.offset, tag_name(e.tag))), true)
    } else {
        outcome(st, Ok(()), true)
    }
}

/// A new buffer of `parts` empty slots.
pub open spec fn fresh_group(parts: usize) -> SegView {
    SegView { slots: Seq::new(parts as nat, |_i: int| None::<Seq<u8>>), total: 0 }
}

/// Every slot filled.
pub open spec fn all_filled(slots: Seq<Option<Seq<u8>>>) -> bool {
    forall|i: int| 0 <= i < slots.len() ==> #[trigger] slots[i] is Some
}

/// Storing a segment: a `u32` group (else the fallback), a `u16` part (else 0) and a `u16`
/// part count (else 1, and between 1 and 512), then the chunk. The chunk goes into its
/// group's buffer, created with that many parts if the group is new; a part past the buffer
/// is an error (the group stays). A buffer whose parts have all arrived leaves the pending
/// groups, and its parts joined are applied as records.
pub open spec fn seg_spec(st: SessionView, data: Seq<u8>, fallback: u32, fuel: nat) -> Outcome
    decreases fuel, 1int,
{
    let c0 = Cur { data, pos: 0, base: 0 };
    let (rg, c1) = rd_u32(c0);
    let (rp, c2) = rd_u16(c1);
    let (rt, c3) = rd_u16(c2);
    let group: u32 = match rg { Ok(v) => v, Err(_) => fallback };
    let part: usize = match rp { Ok(v) => v as usize, Err(_) => 0 };
    let parts: usize = match rt { Ok(v) => v as usize, Err(_) => 1 };
    if parts == 0 || parts > 512 {
        outcome(st, Err(mk_err(ErrorKind::LimitExceeded, 0, "segment total")), true)
    } else {
        seg_store(st, group, part, parts, c3.rest(), fuel)
    }
}

/// Storing `chunk` as part `part` of group `group` (a new group gets `parts` slots).
pub open spec fn seg_store(st: SessionView, group: u32, part: usize, parts: usize, chunk: Seq<u8>, fuel: nat) -> Outcome
    decreases fuel, 0int,
{
    let segs = st.segments;
    let buf = match find_by(segs, group as int, seg_key()) { Some(g) => g.1, None => fresh_group(parts) };
    if part >= buf.slots.len() {
        outcome(with_segments(st, upsert_by(segs, (group, buf), seg_key())),
            Err(mk_err(ErrorKind::InvalidValue, part, "segment index")), true)
    } else {
        let filled = SegView {
            slots: buf.slots.update(part as int, Some(chunk)),
            total: if buf.slots[part as int] is None { sat_add(buf.total as int, chunk.len() as int) } else { buf.total },
        };
        let segs1 = upsert_by(segs, (group, filled), seg_key());
        if all_filled(filled.slots) {
            let st2 = with_segments(st, remove_by(segs1, group as int, seg_key()));
            match joined(filled.slots) {
                None => outcome(st2, Err(mk_err(ErrorKind::MissingSection, 0, "segment")), true),
                Some(all) => if fuel == 0 { outcome(st2, Ok(()), true) } else { records_spec(st2, all, 0, (fuel - 1) as nat) },
            }
        } else {
            outcome(with_segments(st, segs1), Ok(()), true)
        }
    }
}

/// The bytes the entries `s` hold, one more for each entry.
pub open spec fn room(s: Seq<TlvView>) -> int
    decreases s.len(),
{
    if s.len() == 0 { 0 } else { s[0].value.len() + 1 + room(s.drop_first()) }
}

/// Entries hold no negative number of bytes.
proof fn lemma_room_nonneg(s: Seq<TlvView>)
    ensures room(s) >= 0,
    decreases s.len(),
{
    if s.len() > 0 { lemma_room_nonneg(s.drop_first()); }
}

/// Entries read from a cursor hold no more bytes than the cursor had left.
proof fn lemma_tlvs_room(c: Cur)
    requires 0 <= c.pos <= c.data.len(),
    ensures tlvs_from(c) matches Ok(es) ==> room(es) <= c.avail(),
    decreases c.data.len() - c.pos,
{
    if c.pos < c.data.len() {
        match rd_tlv_with(c, false) {
            (Err(_), _) => {},
            (Ok(t), c1) => {
                assert(c1.pos == c.pos + 4 + t.value.len());
                lemma_tlvs_room(c1);
                if let Ok(rest) = tlvs_from(c1) {
                    let es = seq![t] + rest;
                    assert(es.drop_first() =~= rest);
                    assert(es[0] == t);
                }
            },
        }
    }
}

/// The fuel a segment payload needs: one more than records.
pub open spec fn seg_fuel(st: SessionView, data: Seq<u8>) -> nat {
    rec_fuel(st, data) + 1
}

/// What a frame's payload does once decoded: a dictionary delta, a template section, records,
/// a ledger program, a segment (its group defaulting to the frame's sequence number) or a
/// manifest that must decode; a heartbeat does nothing, and an unknown kind is an error only
/// with flag 0x40.
#[verifier::opaque]
pub open spec fn frame_body(st: SessionView, f: FrameView, payload: Seq<u8>) -> Outcome {
    match f.kind {
        FrameKind::Dictionary => { let (s, r) = dict_step(st, payload, f.offset); outcome(s, r, true) },
        FrameKind::Template => { let (s, r) = template_step(st, payload, f.offset); outcome(s, r, true) },
        FrameKind::Records => records_spec(st, payload, f.offset, rec_fuel(st, payload)),
        FrameKind::Ledger => { let (s, r) = ledger_step(st, payload, f.offset); outcome(s, r, true) },
        FrameKind::Segment => seg_spec(st, payload, f.sequence, seg_fuel(st, payload)),
        FrameKind::Manifest => match manifest_spec(payload) {
            Ok(_) => outcome(st, Ok(()), true),
            Err(e) => outcome(st, Err(e), true),
        },
        FrameKind::Heartbeat => outcome(st, Ok(()), true),
        FrameKind::Unknown(_) => if (f.flags / 0x40) % 2 == 1 {
            outcome(st, Err(mk_err(ErrorKind::UnknownSection, f.offset, "frame")), true)
        } else {
            outcome(st, Ok(()), true)
        },
    }
}

/// Applying a frame: it is counted with its payload bytes and sequence number (and as
/// compressed with flag bit 0), its payload is decoded (by the codec in flag bits 1-2 when
/// compressed, else taken as is) with the session's dictionary, the decoded bytes are
/// counted, and the payload is applied by kind.
#[verifier::opaque]
pub open spec fn frame_spec(st: SessionView, f: FrameView) -> Outcome {
    let frames = st.stats.frames + 1;
    let bytes_in = st.stats.bytes_in + f.payload.len();
    let compressed = f.flags % 2 == 1;
    let cs: int = if compressed { st.stats.compressed_sections + 1 } else { st.stats.compressed_sections as int };
    let st1 = SessionView {
        stats: ExchangeStats { frames: frames as usize, bytes_in: bytes_in as usize, compressed_sections: cs as usize, ..st.stats },
        sequences: st.sequences.push(f.sequence),
        ..st
    };
    let fits1 = frames <= usize::MAX && bytes_in <= usize::MAX && cs <= usize::MAX;
    match payload_spec(f.payload, if compressed { (f.flags / 2) % 4 } else { 0 }, st.dict) {
        Err(e) => outcome(st1, Err(e), fits1),
        Ok((payload, ds)) => {
            let decoded = st1.stats.bytes_decoded + ds.output_bytes;
            let st2 = with_stats(st1, ExchangeStats { bytes_decoded: decoded as usize, ..st1.stats });
            let o = frame_body(st2, f, payload);
            outcome(o.state, o.result, fits1 && decoded <= usize::MAX && o.fits)
        },
    }
}

/// Applying frames `i..` in order until one fails.
pub open spec fn frames_run(st: SessionView, fs: Seq<FrameView>, i: int) -> Outcome
    decreases fs.len() - i,
{
    if i < 0 || i >= fs.len() {
        outcome(st, Ok(()), true)
    } else {
        let o = frame_spec(st, fs[i]);
        match o.result {
            Err(e) => o,
            Ok(()) => {
                let rest = frames_run(o.state, fs, i + 1);
                outcome(rest.state, rest.result, o.fits && rest.fits)
            },
        }
    }
}

/// A decoded stream as values: id, events, counters, materialized names, sequence numbers.
pub struct SummaryView {
    pub stream_id: u16,
    pub events: EventsView,
    pub stats: ExchangeStats,
    pub materialized: Seq<Seq<char>>,
    pub sequences: Seq<u32>,
}

/// A summary as values.
pub open spec fn summary_view(s: StreamSummary) -> SummaryView {
    SummaryView {
        stream_id: s.stream_id,
        events: events_view(s.snapshot),
        stats: s.stats,
        materialized: string_views(s.ledger_materialized@),
        sequences: s.frame_sequences@,
    }
}

/// Sort keys of route legs, from their values: start, then sequence.
pub open spec fn route_view_keys(s: Seq<RouteLegView>) -> Seq<SortKey> {
    s.map_values(|r: RouteLegView| (r.eta_start.0, r.sequence as u64, 0u64))
}

/// The events in time order (cargo as received; routes by start, then sequence).
pub open spec fn events_by_time(e: EventsView) -> EventsView {
    EventsView {
        vessels: sorted_with(vessel_keys(e.vessels), e.vessels),
        berths: sorted_with(berth_keys(e.berths), e.berths),
        cargo: e.cargo,
        tides: sorted_with(tide_keys(e.tides), e.tides),
        routes: sorted_with(route_view_keys(e.routes), e.routes),
        pilots: sorted_with(pilot_keys(e.pilots), e.pilots),
        notices: sorted_with(notice_keys(e.notices), e.notices),
    }
}

/// The summary of a session: its events in time order and its ledger's materialized names.
pub open spec fn summary_of(st: SessionView) -> SummaryView {
    SummaryView {
        stream_id: st.stream_id,
        events: events_by_time(st.events),
        stats: st.stats,
        materialized: st.ledger.materialized,
        sequences: st.sequences,
    }
}

/// Data framed as a stream begins with `PWX1`.
pub open spec fn framed(data: Seq<u8>) -> bool {
    data.len() >= 4 && data.take(4) == stream_magic()
}

/// Decoding: a framed stream's frames are applied in order to a session for its stream id;
/// anything else is one records payload applied to a session for stream 0. The summary, or
/// the first error; and whether all counting stayed within `usize`.
pub open spec fn decode_run(data: Seq<u8>) -> (Result<SummaryView, ParseError>, bool) {
    if framed(data) {
        match stream_spec(data) {
            Err(e) => (Err(e), true),
            Ok((h, fs)) => {
                let o = frames_run(initial_session(h.stream_id), fs, 0);
                match o.result {
                    Err(e) => (Err(e), o.fits),
                    Ok(()) => (Ok(summary_of(o.state)), o.fits),
                }
            },
        }
    } else {
        let st = initial_session(0);
        let o = records_spec(st, data, 0, rec_fuel(st, data));
        match o.result {
            Err(e) => (Err(e), o.fits),
            Ok(()) => (Ok(summary_of(o.state)), o.fits),
        }
    }
}

/// What decoding gives.
pub open spec fn decode_spec(data: Seq<u8>) -> Result<SummaryView, ParseError> {
    decode_run(data).0
}

/// Decoding never counts past `usize`.
pub open spec fn decode_fits(data: Seq<u8>) -> bool {
    decode_run(data).1
}

/// A buffer as values.
pub open spec fn seg_view(b: ReassemblyBuffer) -> SegView {
    SegView { slots: b.slots(), total: b.total() }
}

/// Pending groups as values.
pub open spec fn seg_views(s: Seq<(u32, ReassemblyBuffer)>) -> Seq<(u32, SegView)> {
    s.map_values(|p: (u32, ReassemblyBuffer)| (p.0, seg_view(p.1)))
}

/// The events of a snapshot as values.
pub open spec fn events_view(s: PortSnapshot) -> EventsView {
    EventsView {
        vessels: s.vessels@,
        berths: s.berths@,
        cargo: s.cargo@,
        tides: s.tides@,
        routes: leg_views(s.routes@),
        pilots: s.pilots@,
        notices: s.notices@,
    }
}

/// A fresh session for stream `id`.
pub open spec fn initial_session(id: u16) -> SessionView {
    SessionView {
        stream_id: id,
        dict: empty_dict(0, 0),
        templates: Seq::empty(),
        ledger: empty_ledger(),
        events: EventsView {
            vessels: Seq::empty(),
            berths: Seq::empty(),
            cargo: Seq::empty(),
            tides: Seq::empty(),
            routes: Seq::empty(),
            pilots: Seq::empty(),
            notices: Seq::empty(),
        },
        stats: ExchangeStats { frames: 0, sections: 0, compressed_sections: 0, dictionary_entries: 0, templates: 0,
            bytes_in: 0, bytes_decoded: 0 },
        segments: Seq::empty(),
        sequences: Seq::empty(),
    }
}

/// The decoding state of one stream: dictionary, templates, ledger, events, counters, the
/// segment groups still waiting for parts, and the frame sequence numbers seen.
#[derive(Debug, Clone)]
pub struct StreamSession {
    stream_id: u16,
    dictionary: StringDictionary,
    templates: TemplateRegistry,
    ledger: VesselLedger,
    snapshot: PortSnapshot,
    stats: ExchangeStats,
    segments: Vec<(u32, ReassemblyBuffer)>,
    frame_sequences: Vec<u32>,
}

/// Where group `group` stands, or belongs, among the pending groups.
fn group_slot(segs: &Vec<(u32, ReassemblyBuffer)>, group: u32) -> (p: usize)
    requires key_sorted(seg_views(segs@), seg_key()),
    ensures key_split(seg_views(segs@), group as int, p as int, seg_key()),
{
    let ghost s = seg_views(segs@);
    let mut p: usize = 0;
    while p < segs.len() && segs[p].0 < group
        invariant
            0 <= p <= segs@.len(),
            s == seg_views(segs@),
            key_sorted(s, seg_key()),
            forall|j: int| 0 <= j < p ==> (#[trigger] s[j]).0 < group,
        decreases segs@.len() - p,
    {
        p = p + 1;
    }
    proof {
        assert forall|j: int| p <= j < s.len() implies (#[trigger] s[j]).0 >= group by {
            if j > p { assert(seg_key()(s[p as int]) < seg_key()(s[j])); }
        }
    }
    p
}

/// Joined parts are as long as the parts together.
proof fn lemma_joined_len(slots: Seq<Option<Seq<u8>>>)
    ensures
        joined(slots) matches Some(a) ==> a.len() == sum_of(slots, slot_len()),
        sum_of(slots, slot_len()) >= 0,
    decreases slots.len(),
{
    lemma_sum_nonneg(slots, slot_len());
    if slots.len() > 0 {
        lemma_joined_len(slots.drop_last());
    }
}

/// The pending groups hold no negative number of bytes.
proof fn lemma_stored_nonneg(segs: Seq<(u32, SegView)>)
    ensures stored(segs) >= 0,
{
    assert forall|i: int| 0 <= i < segs.len() implies group_bytes()(#[trigger] segs[i]) >= 0 by {
        lemma_joined_len(segs[i].1.slots);
    }
    lemma_sum_nonneg(segs, group_bytes());
}

/// Putting a group at its split point keeps that point a split point for its id.
proof fn lemma_split_kept(s: Seq<(u32, SegView)>, x: (u32, SegView), p: int, found: bool)
    requires
        key_split(s, x.0 as int, p, seg_key()),
        found ==> p < s.len() && s[p].0 == x.0,
    ensures
        key_split(if found { s.update(p, x) } else { s.insert(p, x) }, x.0 as int, p, seg_key()),
{
    let n = if found { s.update(p, x) } else { s.insert(p, x) };
    assert forall|i: int| 0 <= i < p implies seg_key()(#[trigger] n[i]) < x.0 as int by {
        assert(n[i] == s[i]);
    }
    assert forall|i: int| p <= i < n.len() implies seg_key()(#[trigger] n[i]) >= x.0 as int by {
        if i > p {
            if found { assert(n[i] == s[i]); } else { assert(n[i] == s[i - 1]); }
        }
    }
}

/// `b` has the stream id, frame count, frame bytes and frame sequence numbers of `a`.
pub open spec fn keeps_frames(a: SessionView, b: SessionView) -> bool {
    b.stream_id == a.stream_id && b.stats.frames == a.stats.frames && b.sequences == a.sequences
        && b.stats.bytes_in == a.stats.bytes_in
}

/// Running records on more fuel than `rec_fuel` gives the same outcome, and the bytes held
/// afterwards are at most those held before plus those read.
proof fn lemma_records_fuel(st: SessionView, d: Seq<u8>, base: usize, f1: nat, f2: nat)
    requires
        key_sorted(st.segments, seg_key()),
        f1 >= 3 * (stored(st.segments) + d.len()) + 3,
        f2 >= 3 * (stored(st.segments) + d.len()) + 3,
    ensures
        records_spec(st, d, base, f1) == records_spec(st, d, base, f2),
        key_sorted(records_spec(st, d, base, f1).state.segments, seg_key()),
        stored(records_spec(st, d, base, f1).state.segments) <= stored(st.segments) + d.len(),
        keeps_frames(st, records_spec(st, d, base, f1).state),
    decreases f1, 0int,
{
    lemma_stored_nonneg(st.segments);
    match tlvs_spec(d, base) {
        Err(_) => {},
        Ok(ents) => {
            lemma_tlvs_room(Cur { data: d, pos: 0, base });
            let st1 = with_stats(st, ExchangeStats { sections: (st.stats.sections + ents.len()) as usize, ..st.stats });
            assert(ents.skip(0) =~= ents);
            lemma_run_fuel(st1, ents, 0, (f1 - 1) as nat, (f2 - 1) as nat);
        },
    }
}

/// The same for entries `i..`.
proof fn lemma_run_fuel(st: SessionView, ents: Seq<TlvView>, i: int, f1: nat, f2: nat)
    requires
        key_sorted(st.segments, seg_key()),
        0 <= i <= ents.len(),
        f1 >= 3 * (stored(st.segments) + room(ents.skip(i))) + 2,
        f2 >= 3 * (stored(st.segments) + room(ents.skip(i))) + 2,
    ensures
        entries_run(st, ents, i, f1) == entries_run(st, ents, i, f2),
        key_sorted(entries_run(st, ents, i, f1).state.segments, seg_key()),
        stored(entries_run(st, ents, i, f1).state.segments) <= stored(st.segments) + room(ents.skip(i)),
        keeps_frames(st, entries_run(st, ents, i, f1).state),
    decreases f1, ents.len() - i,
{
    lemma_room_nonneg(ents.skip(i));
    if i < ents.len() {
        assert(ents.skip(i)[0] == ents[i]);
        assert(ents.skip(i).drop_first() =~= ents.skip(i + 1));
        lemma_room_nonneg(ents.skip(i + 1));
        lemma_entry_fuel(st, ents[i], f1, f2);
        let o = entry_spec(st, ents[i], f1);
        if o.result is Ok {
            lemma_run_fuel(o.state, ents, i + 1, f1, f2);
        }
    }
}

/// The same for one entry.
proof fn lemma_entry_fuel(st: SessionView, e: TlvView, f1: nat, f2: nat)
    requires
        key_sorted(st.segments, seg_key()),
        f1 >= 3 * (stored(st.segments) + e.value.len()) + 5,
        f2 >= 3 * (stored(st.segments) + e.value.len()) + 5,
    ensures
        entry_spec(st, e, f1) == entry_spec(st, e, f2),
        key_sorted(entry_spec(st, e, f1).state.segments, seg_key()),
        stored(entry_spec(st, e, f1).state.segments) <= stored(st.segments) + e.value.len(),
        keeps_frames(st, entry_spec(st, e, f1).state),
    decreases f1, 0int,
{
    lemma_stored_nonneg(st.segments);
    let at = (e.offset + 4) as usize;
    if event_tag(e.tag) {
        assert(event_step(st, e.tag, e.value, at).0.segments == st.segments
            && keeps_frames(st, event_step(st, e.tag, e.value, at).0)) by { reveal(event_step); }
    } else if e.tag is Dictionary {
        assert(dict_step(st, e.value, at).0.segments == st.segments
            && keeps_frames(st, dict_step(st, e.value, at).0)) by { reveal(dict_step); }
    } else if e.tag is Template {
        assert(template_step(st, e.value, at).0.segments == st.segments
            && keeps_frames(st, template_step(st, e.value, at).0)) by { reveal(template_step); }
    } else if e.tag is Ledger {
        assert(ledger_step(st, e.value, at).0.segments == st.segments
            && keeps_frames(st, ledger_step(st, e.value, at).0)) by { reveal(ledger_step); }
    } else if e.tag is Segment {
        lemma_seg_fuel(st, e.value, e.offset as u32, (f1 - 1) as nat, (f2 - 1) as nat);
    }
}

/// The same for a segment.
proof fn lemma_seg_fuel(st: SessionView, d: Seq<u8>, fallback: u32, f1: nat, f2: nat)
    requires
        key_sorted(st.segments, seg_key()),
        f1 >= 3 * (stored(st.segments) + d.len()) + 4,
        f2 >= 3 * (stored(st.segments) + d.len()) + 4,
    ensures
        seg_spec(st, d, fallback, f1) == seg_spec(st, d, fallback, f2),
        key_sorted(seg_spec(st, d, fallback, f1).state.segments, seg_key()),
        stored(seg_spec(st, d, fallback, f1).state.segments) <= stored(st.segments) + d.len(),
        keeps_frames(st, seg_spec(st, d, fallback, f1).state),
    decreases f1, 1int,
{
    let c0 = Cur { data: d, pos: 0, base: 0 };
    let (rg, c1) = rd_u32(c0);
    let (rp, c2) = rd_u16(c1);
    let (rt, c3) = rd_u16(c2);
    let group: u32 = match rg { Ok(v) => v, Err(_) => fallback };
    let part: usize = match rp { Ok(v) => v as usize, Err(_) => 0 };
    let parts: usize = match rt { Ok(v) => v as usize, Err(_) => 1 };
    lemma_stored_nonneg(st.segments);
    if !(parts == 0 || parts > 512) {
        assert(c3.rest().len() <= d.len());
        lemma_store_fuel(st, group, part, parts, c3.rest(), f1, f2);
    }
}

/// The same for storing a chunk.
proof fn lemma_store_fuel(st: SessionView, group: u32, part: usize, parts: usize, chunk: Seq<u8>, f1: nat, f2: nat)
    requires
        key_sorted(st.segments, seg_key()),
        f1 >= 3 * (stored(st.segments) + chunk.len()) + 4,
        f2 >= 3 * (stored(st.segments) + chunk.len()) + 4,
    ensures
        seg_store(st, group, part, parts, chunk, f1) == seg_store(st, group, part, parts, chunk, f2),
        key_sorted(seg_store(st, group, part, parts, chunk, f1).state.segments, seg_key()),
        stored(seg_store(st, group, part, parts, chunk, f1).state.segments) <= stored(st.segments) + chunk.len(),
        keeps_frames(st, seg_store(st, group, part, parts, chunk, f1).state),
    decreases f1, 0int,
{
    let s = st.segments;
    lemma_stored_nonneg(s);
    lemma_key_split_exists(s, group as int, seg_key());
    let p = key_pos(s, group as int, seg_key());
    let found = p < s.len() && s[p].0 == group;
    if found {
        lemma_find_sorted(s, group as int, seg_key(), p);
    } else {
        lemma_find_none(s, group as int, seg_key());
        assert forall|j: int| 0 <= j < s.len() implies seg_key()(#[trigger] s[j]) != group as int by {
            if j > p { assert(seg_key()(s[p]) < seg_key()(s[j])); }
        }
    }
    let buf = match find_by(s, group as int, seg_key()) { Some(g) => g.1, None => fresh_group(parts) };
    lemma_joined_len(buf.slots);
    if !found {
        assert(buf.slots =~= fresh_group(parts).slots);
        lemma_sum_zero(buf.slots, slot_len());
    }
    if part >= buf.slots.len() {
        lemma_upsert_sorted(s, (group, buf), seg_key(), p);
        if found {
            assert(s.update(p, (group, buf)) =~= s);
        } else {
            lemma_sum_insert(s, p, (group, buf), group_bytes());
        }
    } else {
        let filled = SegView {
            slots: buf.slots.update(part as int, Some(chunk)),
            total: if buf.slots[part as int] is None { sat_add(buf.total as int, chunk.len() as int) } else { buf.total },
        };
        let x = (group, filled);
        let segs1 = upsert_by(s, x, seg_key());
        lemma_upsert_sorted(s, x, seg_key(), p);
        lemma_joined_len(filled.slots);
        lemma_sum_update(buf.slots, part as int, Some(chunk), slot_len());
        if found {
            lemma_sum_update(s, p, x, group_bytes());
            lemma_sum_remove(s, p, group_bytes());
        } else {
            lemma_sum_insert(s, p, x, group_bytes());
        }
        if all_filled(filled.slots) {
            lemma_split_kept(s, x, p, found);
            lemma_key_pos(segs1, group as int, seg_key(), p);
            lemma_sum_remove(segs1, p, group_bytes());
            let st2 = with_segments(st, remove_by(segs1, group as int, seg_key()));
            if let Some(all) = joined(filled.slots) {
                lemma_records_fuel(st2, all, 0, (f1 - 1) as nat, (f2 - 1) as nat);
            }
        }
    }
}

/// Records need no more fuel than `rec_fuel`: with any more, the outcome is the same.
pub proof fn lemma_records_fuel_enough(st: SessionView, data: Seq<u8>, base: usize, fuel: nat)
    requires
        key_sorted(st.segments, seg_key()),
        fuel >= rec_fuel(st, data),
    ensures records_spec(st, data, base, fuel) == records_spec(st, data, base, rec_fuel(st, data)),
{
    lemma_stored_nonneg(st.segments);
    lemma_records_fuel(st, data, base, fuel, rec_fuel(st, data));
}

/// A segment needs no more fuel than `seg_fuel`: with any more, the outcome is the same.
pub proof fn lemma_segment_fuel_enough(st: SessionView, data: Seq<u8>, fallback: u32, fuel: nat)
    requires
        key_sorted(st.segments, seg_key()),
        fuel >= seg_fuel(st, data),
    ensures seg_spec(st, data, fallback, fuel) == seg_spec(st, data, fallback, seg_fuel(st, data)),
{
    lemma_stored_nonneg(st.segments);
    lemma_seg_fuel(st, data, fallback, fuel, seg_fuel(st, data));
}

/// Records leave the stream id, the frame count, the frame bytes and the frame sequence
/// numbers alone.
pub proof fn lemma_records_keep_frames(st: SessionView, data: Seq<u8>, base: usize)
    requires key_sorted(st.segments, seg_key()),
    ensures keeps_frames(st, records_spec(st, data, base, rec_fuel(st, data)).state),
{
    lemma_stored_nonneg(st.segments);
    lemma_records_fuel(st, data, base, rec_fuel(st, data), rec_fuel(st, data));
}

/// The payload length of a frame.
pub open spec fn payload_len() -> spec_fn(FrameView) -> int {
    |f: FrameView| f.payload.len() as int
}

/// The sequence numbers of frames, in order.
pub open spec fn sequences_of(fs: Seq<FrameView>) -> Seq<u32> {
    fs.map_values(|f: FrameView| f.sequence)
}

/// Applying a frame counts it once, adds its payload's length to the bytes read and records
/// its sequence number once; whatever its payload holds leaves these alone, and the pending
/// groups stay in order.
pub proof fn lemma_frame_counted(st: SessionView, f: FrameView)
    requires
        key_sorted(st.segments, seg_key()),
        frame_spec(st, f).fits,
    ensures
        frame_spec(st, f).state.sequences == st.sequences.push(f.sequence),
        frame_spec(st, f).state.stats.frames == st.stats.frames + 1,
        frame_spec(st, f).state.stats.bytes_in == st.stats.bytes_in + f.payload.len(),
        frame_spec(st, f).state.stream_id == st.stream_id,
        key_sorted(frame_spec(st, f).state.segments, seg_key()),
{
    reveal(frame_spec);
    reveal(frame_body);
    let compressed = f.flags % 2 == 1;
    match payload_spec(f.payload, if compressed { (f.flags / 2) % 4 } else { 0 }, st.dict) {
        Err(_) => {},
        Ok((payload, ds)) => {
            let frames = st.stats.frames + 1;
            let bytes_in = st.stats.bytes_in + f.payload.len();
            let cs: int = if compressed { st.stats.compressed_sections + 1 } else { st.stats.compressed_sections as int };
            let st1 = SessionView {
                stats: ExchangeStats { frames: frames as usize, bytes_in: bytes_in as usize, compressed_sections: cs as usize, ..st.stats },
                sequences: st.sequences.push(f.sequence),
                ..st
            };
            let st2 = with_stats(st1, ExchangeStats { bytes_decoded: (st1.stats.bytes_decoded + ds.output_bytes) as usize, ..st1.stats });
            lemma_stored_nonneg(st2.segments);
            match f.kind {
                FrameKind::Dictionary => { reveal(dict_step); },
                FrameKind::Template => { reveal(template_step); },
                FrameKind::Ledger => { reveal(ledger_step); },
                FrameKind::Records => {
                    lemma_records_fuel(st2, payload, f.offset, rec_fuel(st2, payload), rec_fuel(st2, payload));
                },
                FrameKind::Segment => {
                    lemma_seg_fuel(st2, payload, f.sequence, seg_fuel(st2, payload), seg_fuel(st2, payload));
                },
                _ => {},
            }
        },
    }
}

/// An uncompressed heartbeat frame, or one of unknown kind, changes nothing but the frame
/// counters: it succeeds, except that one of unknown kind with flag 0x40 is an unknown-section
/// error at the frame's offset; the dictionary, templates, ledger, events and pending groups
/// stay as they were.
pub proof fn lemma_passive_frame(st: SessionView, f: FrameView)
    requires
        f.kind == FrameKind::Heartbeat || f.kind is Unknown,
        f.flags % 2 == 0,
    ensures
        frame_spec(st, f).result == if f.kind is Unknown && (f.flags / 0x40) % 2 == 1 {
            Err::<(), ParseError>(mk_err(ErrorKind::UnknownSection, f.offset, "frame"))
        } else {
            Ok(())
        },
        frame_spec(st, f).state.dict == st.dict,
        frame_spec(st, f).state.templates == st.templates,
        frame_spec(st, f).state.ledger == st.ledger,
        frame_spec(st, f).state.events == st.events,
        frame_spec(st, f).state.segments == st.segments,
        frame_spec(st, f).state.sequences == st.sequences.push(f.sequence),
{
    reveal(frame_spec);
    reveal(frame_body);
}

/// Applying frames `i..` without error counts each once, adds their payloads' lengths to
/// the bytes read and records their sequence numbers in order.
pub proof fn lemma_frames_counted(st: SessionView, fs: Seq<FrameView>, i: int)
    requires
        key_sorted(st.segments, seg_key()),
        0 <= i <= fs.len(),
        frames_run(st, fs, i).fits,
        frames_run(st, fs, i).result is Ok,
    ensures
        frames_run(st, fs, i).state.sequences == st.sequences + sequences_of(fs.skip(i)),
        frames_run(st, fs, i).state.stats.frames == st.stats.frames + (fs.len() - i),
        frames_run(st, fs, i).state.stats.bytes_in == st.stats.bytes_in + sum_of(fs.skip(i), payload_len()),
        frames_run(st, fs, i).state.stream_id == st.stream_id,
    decreases fs.len() - i,
{
    if i < fs.len() {
        lemma_frame_counted(st, fs[i]);
        let o = frame_spec(st, fs[i]);
        lemma_frames_counted(o.state, fs, i + 1);
        assert(fs.skip(i) =~= seq![fs[i]] + fs.skip(i + 1));
        lemma_sum_add(seq![fs[i]], fs.skip(i + 1), payload_len());
        assert(seq![fs[i]].drop_last() =~= Seq::<FrameView>::empty());
        assert(seq![fs[i]].last() == fs[i]);
        assert(sum_of(Seq::<FrameView>::empty(), payload_len()) == 0);
        assert(sum_of(seq![fs[i]], payload_len()) == fs[i].payload.len());
        assert(sum_of(fs.skip(i), payload_len()) == fs[i].payload.len() + sum_of(fs.skip(i + 1), payload_len()));
        assert(o.state.stats.bytes_in == st.stats.bytes_in + fs[i].payload.len());
        assert(sequences_of(fs.skip(i)) =~= seq![fs[i].sequence] + sequences_of(fs.skip(i + 1)));
        assert(st.sequences + sequences_of(fs.skip(i)) =~= st.sequences.push(fs[i].sequence) + sequences_of(fs.skip(i + 1)));
    } else {
        assert(sequences_of(fs.skip(i)) =~= Seq::<u32>::empty());
        assert(st.sequences + sequences_of(fs.skip(i)) =~= st.sequences);
        assert(fs.skip(i) =~= Seq::<FrameView>::empty());
    }
}

/// Decoding a framed stream without error counts every frame once, counts every payload
/// byte as read, and records every frame's sequence number, in order, under the stream's id.
pub proof fn lemma_decode_counts_frames(data: Seq<u8>)
    requires
        framed(data),
        decode_fits(data),
        decode_spec(data) is Ok,
    ensures
        stream_spec(data) matches Ok((h, fs)) && decode_spec(data) matches Ok(sv)
            && sv.stream_id == h.stream_id && sv.stats.frames == fs.len() && sv.sequences == sequences_of(fs)
            && sv.stats.bytes_in == sum_of(fs, payload_len()),
{
    if let Ok((h, fs)) = stream_spec(data) {
        let st = initial_session(h.stream_id);
        assert(fs.skip(0) =~= fs);
        lemma_frames_counted(st, fs, 0);
        assert(Seq::<u32>::empty() + sequences_of(fs) =~= sequences_of(fs));
    }
}

impl StreamSession {
    /// The session's state.
    pub closed spec fn view(&self) -> SessionView {
        SessionView {
            stream_id: self.stream_id,
            dict: self.dictionary.view(),
            templates: self.templates.view(),
            ledger: self.ledger.view(),
            events: events_view(self.snapshot),
            stats: self.stats,
            segments: seg_views(self.segments@),
            sequences: self.frame_sequences@,
        }
    }

    /// The pending groups are kept in ascending group order, one buffer per group.
    pub closed spec fn wf(&self) -> bool {
        key_sorted(seg_views(self.segments@), seg_key())
    }

    pub fn new(stream_id: u16) -> (s: Self)
        ensures s.wf(), s.view() == initial_session(stream_id),
    {
        let s = StreamSession {
            stream_id,
            dictionary: StringDictionary::new(),
            templates: TemplateRegistry::new(),
            ledger: VesselLedger::new(),
            snapshot: PortSnapshot::new(),
            stats: ExchangeStats::zero(),
            segments: Vec::new(),
            frame_sequences: Vec::new(),
        };
        proof {
            assert(s.view().templates =~= Seq::<TemplateView>::empty());
            assert(s.view().events.vessels =~= Seq::<VesselSnapshot>::empty());
            assert(s.view().events.berths =~= Seq::<BerthPlan>::empty());
            assert(s.view().events.cargo =~= Seq::<CargoLot>::empty());
            assert(s.view().events.tides =~= Seq::<TideWindow>::empty());
            assert(s.view().events.routes =~= Seq::<RouteLegView>::empty());
            assert(s.view().events.pilots =~= Seq::<PilotOrder>::empty());
            assert(s.view().events.notices =~= Seq::<ChannelNotice>::empty());
            assert(s.view().segments =~= Seq::<(u32, SegView)>::empty());
            assert(s.view().sequences =~= Seq::<u32>::empty());
        }
        s
    }

    /// Reads a segment's header and stores it.
    fn apply_segment(&mut self, payload: &[u8], fallback_id: u32, Ghost(fuel): Ghost<nat>) -> (r: ParseResult<()>)
        requires
            old(self).wf(),
            fuel >= 3 * (stored(old(self).view().segments) + payload@.len()) + 4,
            seg_spec(old(self).view(), payload@, fallback_id, fuel).fits,
        ensures
            final(self).wf(),
            final(self).view() == seg_spec(old(self).view(), payload@, fallback_id, fuel).state,
            r == seg_spec(old(self).view(), payload@, fallback_id, fuel).result,
            stored(final(self).view().segments) <= stored(old(self).view().segments) + payload@.len(),
        decreases fuel, 1int,
    {
        let mut cursor = ByteCursor::new(payload);
        let group = match cursor.read_u32() { Ok(v) => v, Err(_) => fallback_id };
        let part = match cursor.read_u16() { Ok(v) => v as usize, Err(_) => 0 };
        let total = match cursor.read_u16() { Ok(v) => v as usize, Err(_) => 1 };
        if total == 0 || total > 512 {
            return Err(ParseError::limit(0, "segment total"));
        }
        let chunk = copy_bytes(cursor.take_remaining());
        self.store_segment(group, part, total, chunk, Ghost(fuel))
    }

    /// Stores a chunk in its group and, once the group is complete, applies the joined parts
    /// as records.
    #[verifier::rlimit(100)]
    #[verifier::spinoff_prover]
    fn store_segment(&mut self, group: u32, part: usize, total: usize, chunk: Vec<u8>, Ghost(fuel): Ghost<nat>) -> (r: ParseResult<()>)
        requires
            old(self).wf(),
            fuel >= 3 * (stored(old(self).view().segments) + chunk@.len()) + 4,
            seg_store(old(self).view(), group, part, total, chunk@, fuel).fits,
        ensures
            final(self).wf(),
            final(self).view() == seg_store(old(self).view(), group, part, total, chunk@, fuel).state,
            r == seg_store(old(self).view(), group, part, total, chunk@, fuel).result,
            stored(final(self).view().segments) <= stored(old(self).view().segments) + chunk@.len(),
        decreases fuel, 0int,
    {
        proof { lemma_stored_nonneg(self.view().segments); }
        let ghost s = seg_views(self.segments@);
        let ghost cv = chunk@;
        let p = group_slot(&self.segments, group);
        let found = p < self.segments.len() && self.segments[p].0 == group;
        proof {
            if found {
                lemma_find_sorted(s, group as int, seg_key(), p as int);
            } else {
                lemma_find_none(s, group as int, seg_key());
                assert forall|j: int| 0 <= j < s.len() implies seg_key()(#[trigger] s[j]) != group as int by {
                    if j > p { assert(seg_key()(s[p as int]) < seg_key()(s[j])); }
                }
            }
        }
        let (g, mut buf) = if found {
            self.segments.remove(p)
        } else {
            (group, ReassemblyBuffer::new(total))
        };
        let ghost buf0 = seg_view(buf);
        let ghost rest = seg_views(self.segments@);
        proof {
            if found {
                assert(rest =~= s.remove(p as int));
                assert(buf0 == s[p as int].1);
            } else {
                assert(rest =~= s);
                assert(buf0.slots =~= fresh_group(total).slots);
                lemma_sum_zero(buf0.slots, slot_len());
            }
            assert(g == group);
            lemma_upsert_sorted(s, (group, buf0), seg_key(), p as int);
        }
        match buf.insert(part, chunk) {
            Err(e) => {
                self.segments.insert(p, (g, buf));
                proof {
                    assert(seg_views(self.segments@) =~= upsert_by(s, (group, buf0), seg_key()));
                    if !found {
                        lemma_sum_insert(s, p as int, (group, buf0), group_bytes());
                    } else {
                        assert(seg_views(self.segments@) =~= s);
                    }
                }
                return Err(e);
            },
            Ok(()) => {},
        }
        let ghost x = (group, seg_view(buf));
        let ghost segs1 = upsert_by(s, x, seg_key());
        proof {
            lemma_upsert_sorted(s, x, seg_key(), p as int);
            lemma_split_kept(s, x, p as int, found);
            lemma_key_pos(segs1, group as int, seg_key(), p as int);
            lemma_joined_len(buf0.slots);
            lemma_joined_len(x.1.slots);
            lemma_sum_update(buf0.slots, part as int, Some(cv), slot_len());
            if found {
                lemma_sum_update(s, p as int, x, group_bytes());
                lemma_sum_remove(s, p as int, group_bytes());
                assert(segs1.remove(p as int) =~= rest);
            } else {
                lemma_sum_insert(s, p as int, x, group_bytes());
                assert(segs1.remove(p as int) =~= rest);
            }
        }
        if buf.complete() {
            let assembled = match buf.assemble() {
                Ok(a) => a,
                Err(e) => { return Err(e); },
            };
            self.run_records(assembled.as_slice(), 0, Ghost((fuel - 1) as nat))
        } else {
            self.segments.insert(p, (g, buf));
            proof {
                if found { assert(seg_views(self.segments@) =~= s.update(p as int, x)); }
                else { assert(seg_views(self.segments@) =~= s.insert(p as int, x)); }
            }
            Ok(())
        }
    }

    /// Applies the entries of a records payload in order.
    fn run_records(&mut self, payload: &[u8], base: usize, Ghost(fuel): Ghost<nat>) -> (r: ParseResult<()>)
        requires
            old(self).wf(),
            fuel >= 3 * (stored(old(self).view().segments) + payload@.len()) + 3,
            records_spec(old(self).view(), payload@, base, fuel).fits,
        ensures
            final(self).wf(),
            final(self).view() == records_spec(old(self).view(), payload@, base, fuel).state,
            r == records_spec(old(self).view(), payload@, base, fuel).result,
            stored(final(self).view().segments) <= stored(old(self).view().segments) + payload@.len(),
        decreases fuel, 0int,
    {
        proof { lemma_stored_nonneg(self.view().segments); }
        let ghost st = self.view();
        let entries = match parse_all(payload, base) {
            Ok(v) => v,
            Err(e) => { return Err(e); },
        };
        let ghost ents = tlv_views(entries@);
        proof { lemma_tlvs_room(Cur { data: payload@, pos: 0, base }); }
        self.stats.sections = self.stats.sections + entries.len();
        let ghost st1 = self.view();
        let ghost f: nat = (fuel - 1) as nat;
        let ghost whole = entries_run(st1, ents, 0, f);
        proof { assert(ents.skip(0) =~= ents); }
        let mut i: usize = 0;
        while i < entries.len()
            invariant
                0 <= i <= entries@.len(),
                self.wf(),
                ents == tlv_views(entries@),
                ents.len() == entries@.len(),
                whole == entries_run(st1, ents, 0, f),
                st == old(self).view(),
                records_spec(st, payload@, base, fuel).state == whole.state,
                records_spec(st, payload@, base, fuel).result == whole.result,
                whole.state == entries_run(self.view(), ents, i as int, f).state,
                whole.result == entries_run(self.view(), ents, i as int, f).result,
                whole.fits ==> entries_run(self.view(), ents, i as int, f).fits,
                whole.fits,
                stored(self.view().segments) + room(ents.skip(i as int)) <= stored(st.segments) + payload@.len(),
                f >= 3 * (stored(st.segments) + payload@.len()) + 2,
                f + 1 == fuel,
            decreases entries@.len() - i,
        {
            proof {
                lemma_room_nonneg(ents.skip(i + 1));
                assert(ents.skip(i as int)[0] == ents[i as int]);
                assert(ents.skip(i as int).drop_first() =~= ents.skip(i + 1));
                assert(entries@[i as int].view() == ents[i as int]);
            }
            let ghost pre = self.view();
            let r = self.apply_entry(&entries[i], Ghost(f));
            proof {
                assert(entries_run(pre, ents, i as int, f).state == self.view() || r is Ok);
            }
            match r {
                Err(e) => { return Err(e); },
                Ok(()) => {},
            }
            i = i + 1;
        }
        Ok(())
    }

    /// Applies one entry of a records payload.
    fn apply_entry(&mut self, entry: &Tlv, Ghost(fuel): Ghost<nat>) -> (r: ParseResult<()>)
        requires
            old(self).wf(),
            fuel >= 3 * (stored(old(self).view().segments) + entry.value@.len()) + 5,
            entry_spec(old(self).view(), entry.view(), fuel).fits,
        ensures
            final(self).wf(),
            final(self).view() == entry_spec(old(self).view(), entry.view(), fuel).state,
            r == entry_spec(old(self).view(), entry.view(), fuel).result,
            stored(final(self).view().segments) <= stored(old(self).view().segments) + entry.value@.len(),
        decreases fuel, 0int,
    {
        proof { lemma_stored_nonneg(self.view().segments); }
        if entry.tag.is_event() {
            return self.push_events(entry.tag, entry.value, entry.offset + 4);
        }
        match entry.tag {
            Tag::Dictionary => self.apply_dictionary(entry.value, entry.offset + 4),
            Tag::Template => self.apply_templates(entry.value, entry.offset + 4),
            Tag::Ledger => self.apply_ledger(entry.value, entry.offset + 4),
            Tag::Segment => {
                self.apply_segment(entry.value, entry.offset as u32, Ghost((fuel - 1) as nat))
            },
            Tag::Signature | Tag::Unknown => {
                if entry.is_critical() {
                    Err(ParseError::unknown_section(entry.offset, entry.tag.name()))
                } else {
                    Ok(())
                }
            },
            _ => Ok(()),
        }
    }

    /// Applies a records payload whose offsets count from `base`.
    pub fn apply_records(&mut self, payload: &[u8], base: usize) -> (r: ParseResult<()>)
        requires
            old(self).wf(),
            records_spec(old(self).view(), payload@, base, rec_fuel(old(self).view(), payload@)).fits,
        ensures
            final(self).wf(),
            final(self).view() == records_spec(old(self).view(), payload@, base, rec_fuel(old(self).view(), payload@)).state,
            r == records_spec(old(self).view(), payload@, base, rec_fuel(old(self).view(), payload@)).result,
    {
        proof { lemma_stored_nonneg(self.view().segments); }
        self.run_records(payload, base, Ghost(rec_fuel(self.view(), payload@)))
    }

    /// Applies a frame.
    pub fn apply_frame(&mut self, frame: &Frame) -> (r: ParseResult<()>)
        requires
            old(self).wf(),
            frame_spec(old(self).view(), frame.view()).fits,
        ensures
            final(self).wf(),
            final(self).view() == frame_spec(old(self).view(), frame.view()).state,
            r == frame_spec(old(self).view(), frame.view()).result,
    {
        proof { reveal(frame_spec); }
        self.stats.frames = self.stats.frames + 1;
        self.stats.bytes_in = self.stats.bytes_in + frame.payload.len();
        self.frame_sequences.push(frame.sequence);
        let decoded = if frame.is_compressed() {
            self.stats.compressed_sections = self.stats.compressed_sections + 1;
            decode_payload(frame.payload, frame.codec_flags(), &self.dictionary)
        } else {
            decode_payload(frame.payload, 0, &self.dictionary)
        };
        let (payload, codec_stats) = match decoded {
            Ok(x) => x,
            Err(e) => { return Err(e); },
        };
        self.stats.bytes_decoded = self.stats.bytes_decoded + codec_stats.output_bytes;
        self.apply_frame_body(frame, &payload)
    }

    /// Applies a frame's decoded payload by the frame's kind.
    fn apply_frame_body(&mut self, frame: &Frame, payload: &Vec<u8>) -> (r: ParseResult<()>)
        requires
            old(self).wf(),
            frame_body(old(self).view(), frame.view(), payload@).fits,
        ensures
            final(self).wf(),
            final(self).view() == frame_body(old(self).view(), frame.view(), payload@).state,
            r == frame_body(old(self).view(), frame.view(), payload@).result,
    {
        proof { reveal(frame_body); lemma_stored_nonneg(self.view().segments); }
        match frame.kind {
            FrameKind::Dictionary => self.apply_dictionary(payload.as_slice(), frame.offset),
            FrameKind::Template => self.apply_templates(payload.as_slice(), frame.offset),
            FrameKind::Records => self.apply_records(payload.as_slice(), frame.offset),
            FrameKind::Ledger => self.apply_ledger(payload.as_slice(), frame.offset),
            FrameKind::Segment => self.apply_segment(payload.as_slice(), frame.sequence, Ghost(seg_fuel(self.view(), payload@))),
            FrameKind::Manifest => match decode_manifest(payload.as_slice()) {
                Ok(_) => Ok(()),
                Err(e) => Err(e),
            },
            FrameKind::Heartbeat => Ok(()),
            FrameKind::Unknown(_) => {
                let f = frame.flags;
                proof { assert((f & 0x40 != 0) == ((f / 0x40) % 2 == 1)) by (bit_vector); }
                if f & 0x40 != 0 {
                    Err(ParseError::unknown_section(frame.offset, "frame"))
                } else {
                    Ok(())
                }
            },
        }
    }

    /// Puts the events in time order and hands over the summary.
    pub fn finish(self) -> (r: ParseResult<StreamSummary>)
        ensures r matches Ok(s) && summary_view(s) == summary_of(self.view()),
    {
        let mut session = self;
        let ghost before = session.snapshot;
        session.snapshot.sort_by_time();
        let materialized = clone_strings(session.ledger.materialized());
        let summary = StreamSummary {
            stream_id: session.stream_id,
            snapshot: session.snapshot,
            stats: session.stats,
            ledger_materialized: materialized,
            frame_sequences: session.frame_sequences,
        };
        proof {
            lemma_sorted_with_map(route_keys(before.routes@), before.routes@, |r: RouteLeg| leg_view(r));
            assert(route_keys(before.routes@) =~= route_view_keys(leg_views(before.routes@)));
            assert(summary_view(summary).events =~= events_by_time(self.view().events));
        }
        Ok(summary)
    }

    /// Applies a dictionary delta and, on success, counts the entries.
    fn apply_dictionary(&mut self, data: &[u8], base: usize) -> (r: ParseResult<()>)
        ensures
            final(self).wf() == old(self).wf(),
            (final(self).view(), r) == dict_step(old(self).view(), data@, base),
            final(self).view().segments == old(self).view().segments,
    {
        proof { reveal(dict_step); }
        match self.dictionary.apply_delta(data, base) {
            Err(e) => Err(e),
            Ok(()) => {
                self.stats.dictionary_entries = self.dictionary.len();
                Ok(())
            },
        }
    }

    /// Reads a template section and, on success, counts the templates.
    fn apply_templates(&mut self, data: &[u8], base: usize) -> (r: ParseResult<()>)
        ensures
            final(self).wf() == old(self).wf(),
            (final(self).view(), r) == template_step(old(self).view(), data@, base),
            final(self).view().segments == old(self).view().segments,
    {
        proof { reveal(template_step); }
        match self.templates.parse_section(data, base) {
            Err(e) => Err(e),
            Ok(()) => {
                self.stats.templates = self.templates.len();
                Ok(())
            },
        }
    }

    /// Runs a ledger program, dropping its findings.
    fn apply_ledger(&mut self, data: &[u8], base: usize) -> (r: ParseResult<()>)
        ensures
            final(self).wf() == old(self).wf(),
            (final(self).view(), r) == ledger_step(old(self).view(), data@, base),
            final(self).view().segments == old(self).view().segments,
    {
        proof { reveal(ledger_step); }
        match self.ledger.apply_program(data, base) {
            Err(e) => Err(e),
            Ok(_) => Ok(()),
        }
    }

    /// Parses a list of events and appends them.
    fn push_events(&mut self, tag: Tag, value: &[u8], at: usize) -> (r: ParseResult<()>)
        requires event_tag(tag),
        ensures
            final(self).wf() == old(self).wf(),
            (final(self).view(), r) == event_step(old(self).view(), tag, value@, at),
            final(self).view().segments == old(self).view().segments,
    {
        proof { reveal(event_step); }
        match tag {
            Tag::Vessel => {
                let mut v = match parse_vessels(value, at) { Ok(v) => v, Err(e) => { return Err(e); } };
                self.snapshot.vessels.append(&mut v);
            },
            Tag::Berth => {
                let mut v = match parse_berths(value, at) { Ok(v) => v, Err(e) => { return Err(e); } };
                self.snapshot.berths.append(&mut v);
            },
            Tag::Cargo => {
                let mut v = match parse_cargo(value, at) { Ok(v) => v, Err(e) => { return Err(e); } };
                self.snapshot.cargo.append(&mut v);
            },
            Tag::Tide => {
                let mut v = match parse_tides(value, at) { Ok(v) => v, Err(e) => { return Err(e); } };
                self.snapshot.tides.append(&mut v);
            },
            Tag::Route => {
                let mut v = match parse_routes(value, at) { Ok(v) => v, Err(e) => { return Err(e); } };
                let ghost before = self.snapshot.routes@;
                let ghost added = v@;
                self.snapshot.routes.append(&mut v);
                proof { assert(leg_views(before + added) =~= leg_views(before) + leg_views(added)); }
            },
            Tag::Pilot => {
                let mut v = match parse_pilots(value, at) { Ok(v) => v, Err(e) => { return Err(e); } };
                self.snapshot.pilots.append(&mut v);
            },
            _ => {
                let mut v = match parse_notices(value, at) { Ok(v) => v, Err(e) => { return Err(e); } };
                self.snapshot.notices.append(&mut v);
            },
        }
        Ok(())
    }
}

/// Copies of the strings.
fn clone_strings(s: &[String]) -> (v: Vec<String>)
    ensures string_views(v@) == string_views(s@),
{
    let mut v: Vec<String> = Vec::new();
    let mut i: usize = 0;
    while i < s.len()
        invariant 0 <= i <= s@.len(), string_views(v@) =~= string_views(s@.take(i as int)),
        decreases s@.len() - i,
    {
        let t = s[i].clone();
        v.push(t);
        proof { assert(string_views(s@.take(i + 1)) =~= string_views(s@.take(i as int)).push(s@[i as int]@)); }
        i = i + 1;
    }
    proof { assert(s@.take(i as int) =~= s@); }
    v
}

/// Decodes a stream: a framed stream (beginning `PWX1`) frame by frame, anything else as one
/// records payload; the summary, or the first error.
pub fn decode_stream(data: &[u8]) -> (r: ParseResult<StreamSummary>)
    requires decode_fits(data@),
    ensures
        match decode_spec(data@) {
            Ok(sv) => r matches Ok(s) && summary_view(s) == sv,
            Err(e) => r is Err && r->Err_0 == e,
        },
{
    if data.len() >= 4 && data[0] == 0x50 && data[1] == 0x57 && data[2] == 0x58 && data[3] == 0x31 {
        proof { assert(data@.take(4) =~= stream_magic()); }
        let (header, frames) = match parse_stream_frames(data) {
            Ok(x) => x,
            Err(e) => { return Err(e); },
        };
        let ghost fs = crate::frame::frame_views(frames@);
        let mut session = StreamSession::new(header.stream_id);
        let ghost whole = frames_run(session.view(), fs, 0);
        let mut i: usize = 0;
        while i < frames.len()
            invariant
                0 <= i <= frames@.len(),
                fs == crate::frame::frame_views(frames@),
                fs.len() == frames@.len(),
                framed(data@),
                stream_spec(data@) == Ok::<(crate::frame::StreamHeader, Seq<FrameView>), ParseError>((header, fs)),
                whole == frames_run(initial_session(header.stream_id), fs, 0),
                session.wf(),
                whole.state == frames_run(session.view(), fs, i as int).state,
                whole.result == frames_run(session.view(), fs, i as int).result,
                whole.fits ==> frames_run(session.view(), fs, i as int).fits,
                whole.fits,
            decreases frames@.len() - i,
        {
            proof { assert(frames@[i as int].view() == fs[i as int]); }
            let r = session.apply_frame(&frames[i]);
            match r {
                Err(e) => { return Err(e); },
                Ok(()) => {},
            }
            i = i + 1;
        }
        session.finish()
    } else {
        proof {
            if data@.len() >= 4 && data@.take(4) == stream_magic() {
                assert(data@[0] == data@.take(4)[0] && data@[1] == data@.take(4)[1]);
                assert(data@[2] == data@.take(4)[2] && data@[3] == data@.take(4)[3]);
            }
        }
        let mut session = StreamSession::new(0);
        match session.apply_records(data, 0) {
            Err(e) => { return Err(e); },
            Ok(()) => {},
        }
        session.finish()
    }
}

/// The snapshot that decoding `data` gives holds no more items than a `usize` counts.
pub open spec fn event_count_fits(data: Seq<u8>) -> bool {
    match decode_spec(data) {
        Ok(sv) => forall|s: StreamSummary| #[trigger] summary_view(s) == sv ==> event_total(s.snapshot) <= usize::MAX,
        Err(_) => true,
    }
}

/// What decoding and analysing `data` gives: the report on the decoded summary, or the first
/// error.
pub open spec fn analyzed(data: Seq<u8>, r: ParseResult<HarborReport>) -> bool {
    match decode_spec(data) {
        Ok(sv) => r matches Ok(rep) && exists|s: StreamSummary| #[trigger] summary_view(s) == sv && report_of(rep, s),
        Err(e) => r is Err && r->Err_0 == e,
    }
}

/// Decodes a stream and analyses it.
pub fn decode_and_analyze(data: &[u8]) -> (r: ParseResult<HarborReport>)
    requires decode_fits(data@), event_count_fits(data@),
    ensures analyzed(data@, r),
{
    let summary = match decode_stream(data) {
        Ok(s) => s,
        Err(e) => { return Err(e); },
    };
    let ghost s = summary;
    let r = analyze_exchange(summary);
    proof {
        assert(r is Ok ==> summary_view(s) == summary_view(s) && report_of(r->Ok_0, s));
    }
    r
}

} // verus!
