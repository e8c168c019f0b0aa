use vstd::prelude::*;
use crate::cursor::{ByteCursor, Cur, Reader, counted_list, records_from, records_progress, lemma_records_step,
    lemma_records_fail, lemma_records_done, rd_u8, rd_u16, rd_u32, rd_i16};
use crate::error::{ParseError, ParseResult};
use crate::model::{CargoLot, HazardClass, VesselId, hazard_class, needs_separation};
use crate::sort::{pair_row, pair_rows};

verus! {

/// Reading one cargo lot: vessel, UN number, hazard class, tonnes, package code, stowage
/// zone, temperature (tenths of a degree) and flags.
pub open spec fn rd_lot(c: Cur) -> (Result<CargoLot, ParseError>, Cur) {
    match rd_u32(c) {
        (Err(e), c1) => (Err(e), c1),
        (Ok(vessel), c1) => match rd_u16(c1) {
            (Err(e), c2) => (Err(e), c2),
            (Ok(un_number), c2) => match rd_u8(c2) {
                (Err(e), c3) => (Err(e), c3),
                (Ok(hazard), c3) => match rd_u32(c3) {
                    (Err(e), c4) => (Err(e), c4),
                    (Ok(tonnes), c4) => match rd_u16(c4) {
                        (Err(e), c5) => (Err(e), c5),
                        (Ok(package_code), c5) => match rd_u8(c5) {
                            (Err(e), c6) => (Err(e), c6),
                            (Ok(stowage_zone), c6) => match rd_i16(c6) {
                                (Err(e), c7) => (Err(e), c7),
                                (Ok(temperature_tenths), c7) => match rd_u16(c7) {
                                    (Err(e), c8) => (Err(e), c8),
                                    (Ok(flags), c8) => (Ok(CargoLot {
                                        vessel: VesselId(vessel),
                                        un_number,
                                        hazard: hazard_class(hazard),
                                        tonnes,
                                        package_code,
                                        stowage_zone,
                                        temperature_tenths,
                                        flags,
                                    }), c8),
                                },
                            },
                        },
                    },
                },
            },
        },
    }
}

/// The cargo lot reader.
pub open spec fn lot_reader() -> Reader<CargoLot> {
    |c: Cur| rd_lot(c)
}

/// A list of cargo lots: a `u16` count (at most 16384) and the lots.
pub open spec fn cargo_spec(data: Seq<u8>, base: usize) -> Result<Seq<CargoLot>, ParseError> {
    counted_list(data, base, 16_384, "cargo lot count", lot_reader())
}

/// Reads a list of cargo lots.
pub fn parse_cargo(data: &[u8], base: usize) -> (r: ParseResult<Vec<CargoLot>>)
    ensures
        match cargo_spec(data@, base) {
            Ok(ls) => r matches Ok(v) && v@ == ls,
            Err(e) => r == Err::<Vec<CargoLot>, ParseError>(e),
        },
{
    let mut cursor = ByteCursor::with_base(data, base);
    let count = cursor.read_u16()? as usize;
    if count > 16_384 {
        return Err(ParseError::limit(cursor.absolute_position(), "cargo lot count"));
    }
    let ghost c1 = cursor.view();
    let mut lots: Vec<CargoLot> = Vec::new();
    let mut k: usize = 0;
    while k < count
        invariant
            0 <= k <= count,
            cursor.wf(),
            cargo_spec(data@, base) == records_from(c1, count as nat, lot_reader()),
            records_progress(c1, count as nat, lot_reader(), lots@, cursor.view(), (count - k) as nat),
        decreases count - k,
    {
        let ghost before = cursor.view();
        let lot = match parse_lot(&mut cursor) {
            Ok(l) => l,
            Err(e) => {
                proof { lemma_records_fail(c1, count as nat, lot_reader(), lots@, before, (count - k) as nat); }
                return Err(e);
            },
        };
        proof { lemma_records_step(c1, count as nat, lot_reader(), lots@, before, (count - k) as nat); }
        lots.push(lot);
        k = k + 1;
    }
    proof { lemma_records_done(c1, count as nat, lot_reader(), lots@, cursor.view()); }
    Ok(lots)
}

/// Reads one cargo lot.
pub fn parse_lot(cursor: &mut ByteCursor<'_>) -> (r: ParseResult<CargoLot>)
    ensures
        ({
            let (sr, c) = rd_lot(old(cursor).view());
            &&& final(cursor).view() == c
            &&& final(cursor).wf()
            &&& sr == r
        }),
{
    let vessel = VesselId(cursor.read_u32()?);
    let un_number = cursor.read_u16()?;
    let hazard = HazardClass::from_byte(cursor.read_u8()?);
    let tonnes = cursor.read_u32()?;
    let package_code = cursor.read_u16()?;
    let stowage_zone = cursor.read_u8()?;
    let temperature_tenths = cursor.read_i16()?;
    let flags = cursor.read_u16()?;
    Ok(CargoLot { vessel, un_number, hazard, tonnes, package_code, stowage_zone, temperature_tenths, flags })
}

/// Two lots of different vessels in the same stowage zone that must not be stowed together:
/// either is explosive or radioactive, they are an oxidizer and a flammable liquid, they are
/// toxic and miscellaneous, or both call for separation.
pub open spec fn incompatible_spec(a: CargoLot, b: CargoLot) -> bool {
    if a.vessel == b.vessel || a.stowage_zone != b.stowage_zone {
        false
    } else {
        let (h, k) = (a.hazard, b.hazard);
        ||| h == HazardClass::Explosive || k == HazardClass::Explosive
        ||| (h == HazardClass::Oxidizer && k == HazardClass::FlammableLiquid)
        ||| (h == HazardClass::FlammableLiquid && k == HazardClass::Oxidizer)
        ||| (h == HazardClass::Toxic && k == HazardClass::Miscellaneous)
        ||| (h == HazardClass::Miscellaneous && k == HazardClass::Toxic)
        ||| h == HazardClass::Radioactive || k == HazardClass::Radioactive
        ||| needs_separation(h) && needs_separation(k)
    }
}

/// Whether two lots must not be stowed together.
pub fn incompatible(left: &CargoLot, right: &CargoLot) -> (b: bool)
    ensures b == incompatible_spec(*left, *right),
{
    if left.vessel.0 == right.vessel.0 {
        return false;
    }
    if left.stowage_zone != right.stowage_zone {
        return false;
    }
    match (left.hazard, right.hazard) {
        (HazardClass::Explosive, _) | (_, HazardClass::Explosive) => true,
        (HazardClass::Oxidizer, HazardClass::FlammableLiquid)
        | (HazardClass::FlammableLiquid, HazardClass::Oxidizer) => true,
        (HazardClass::Toxic, HazardClass::Miscellaneous)
        | (HazardClass::Miscellaneous, HazardClass::Toxic) => true,
        (HazardClass::Radioactive, _) | (_, HazardClass::Radioactive) => true,
        _ => left.requires_separation() && right.requires_separation(),
    }
}

/// Incompatibility does not depend on the order of the two lots.
pub proof fn lemma_incompatible_symmetric(a: CargoLot, b: CargoLot)
    ensures incompatible_spec(a, b) == incompatible_spec(b, a),
{
}

/// Two lots of different vessels in the same stowage zone are incompatible whenever either
/// is explosive or radioactive, whatever the other holds; lots of the same vessel, or in
/// different zones, never are.
pub proof fn lemma_incompatible_dominant(a: CargoLot, b: CargoLot)
    ensures
        a.vessel != b.vessel && a.stowage_zone == b.stowage_zone
            && (a.hazard == HazardClass::Explosive || b.hazard == HazardClass::Explosive
                || a.hazard == HazardClass::Radioactive || b.hazard == HazardClass::Radioactive)
            ==> incompatible_spec(a, b),
        a.vessel == b.vessel || a.stowage_zone != b.stowage_zone ==> !incompatible_spec(a, b),
        a.vessel != b.vessel && a.stowage_zone == b.stowage_zone
            && ((a.hazard == HazardClass::Oxidizer && b.hazard == HazardClass::FlammableLiquid)
                || (a.hazard == HazardClass::Toxic && b.hazard == HazardClass::Miscellaneous))
            ==> incompatible_spec(a, b),
{
}

/// Lots `l` and `r` of `lots` are incompatible.
pub open spec fn incompatible_at(lots: Seq<CargoLot>) -> spec_fn(int, int) -> bool {
    |l: int, r: int| incompatible_spec(lots[l], lots[r])
}

/// Every incompatible pair `(left, right)` with `left < right`, by `left` and then `right`.
pub fn conflict_pairs(lots: &[CargoLot]) -> (r: Vec<(usize, usize)>)
    ensures r@ == pair_rows(lots@.len() as int, lots@.len() as int, incompatible_at(lots@)),
{
    let n = lots.len();
    let ghost p = incompatible_at(lots@);
    let mut pairs: Vec<(usize, usize)> = Vec::new();
    let mut left: usize = 0;
    while left < n
        invariant
            0 <= left <= n,
            n == lots@.len(),
            p == incompatible_at(lots@),
            pairs@ == pair_rows(left as int, n as int, p),
        decreases n - left,
    {
        let mut right: usize = left + 1;
        let ghost start = pairs@;
        proof { assert(start + pair_row(left as int, right as int, p) =~= start); }
        while right < n
            invariant
                left < n,
                left + 1 <= right <= n,
                n == lots@.len(),
                p == incompatible_at(lots@),
                start == pair_rows(left as int, n as int, p),
                pairs@ == start + pair_row(left as int, right as int, p),
            decreases n - right,
        {
            if incompatible(&lots[left], &lots[right]) {
                pairs.push((left, right));
            }
            right = right + 1;
            proof { assert(pairs@ =~= start + pair_row(left as int, right as int, p)); }
        }
        left = left + 1;
    }
    pairs
}

/// Total tonnes of `s`.
pub open spec fn tonnage(s: Seq<CargoLot>) -> int
    decreases s.len(),
{
    if s.len() == 0 { 0 } else { tonnage(s.drop_last()) + s.last().tonnes }
}

/// A prefix's tonnage is at most the whole's.
proof fn lemma_tonnage_prefix(s: Seq<CargoLot>, n: int)
    requires 0 <= n <= s.len(),
    ensures tonnage(s.take(n)) <= tonnage(s),
    decreases s.len() - n,
{
    if n < s.len() {
        assert(s.take(n + 1).drop_last() =~= s.take(n));
        lemma_tonnage_prefix(s, n + 1);
    } else {
        assert(s.take(n) =~= s);
    }
}

/// Total tonnes of the lots.
pub fn total_tonnage(lots: &[CargoLot]) -> (t: u64)
    requires tonnage(lots@) <= u64::MAX,
    ensures t == tonnage(lots@),
{
    let mut t: u64 = 0;
    let mut i: usize = 0;
    while i < lots.len()
        invariant
            0 <= i <= lots@.len(),
            t == tonnage(lots@.take(i as int)),
            tonnage(lots@) <= u64::MAX,
        decreases lots@.len() - i,
    {
        proof {
            assert(lots@.take(i + 1).drop_last() =~= lots@.take(i as int));
            lemma_tonnage_prefix(lots@, i + 1);
        }
        t = t + lots[i].tonnes as u64;
        i = i + 1;
    }
    proof { assert(lots@.take(i as int) =~= lots@); }
    t
}

/// The histogram bucket of a hazard class: 0 for none, 1 to 8 for the classes in order, 9 for
/// miscellaneous and unknown.
pub open spec fn hazard_bucket(h: HazardClass) -> int {
    match h {
        HazardClass::NoHazard => 0,
        HazardClass::Explosive => 1,
        HazardClass::Gas => 2,
        HazardClass::FlammableLiquid => 3,
        HazardClass::FlammableSolid => 4,
        HazardClass::Oxidizer => 5,
        HazardClass::Toxic => 6,
        HazardClass::Radioactive => 7,
        HazardClass::Corrosive => 8,
        HazardClass::Miscellaneous | HazardClass::Unknown(_) => 9,
    }
}

/// How many lots of `s` fall in bucket `k`.
pub open spec fn bucket_count(s: Seq<CargoLot>, k: int) -> nat
    decreases s.len(),
{
    if s.len() == 0 {
        0
    } else {
        bucket_count(s.drop_last(), k) + if hazard_bucket(s.last().hazard) == k { 1nat } else { 0nat }
    }
}

/// Every lot falls in exactly one bucket: the ten bucket counts add up to the number of lots.
pub proof fn lemma_histogram_total(s: Seq<CargoLot>)
    ensures
        bucket_count(s, 0) + bucket_count(s, 1) + bucket_count(s, 2) + bucket_count(s, 3) + bucket_count(s, 4)
            + bucket_count(s, 5) + bucket_count(s, 6) + bucket_count(s, 7) + bucket_count(s, 8) + bucket_count(s, 9)
            == s.len(),
    decreases s.len(),
{
    if s.len() > 0 {
        lemma_histogram_total(s.drop_last());
    }
}

/// Lots per hazard bucket.
pub fn hazard_histogram(lots: &[CargoLot]) -> (h: [u32; 10])
    requires lots@.len() <= u32::MAX,
    ensures forall|k: int| 0 <= k < 10 ==> #[trigger] h@[k] == bucket_count(lots@, k),
{
    let mut out: [u32; 10] = [0, 0, 0, 0, 0, 0, 0, 0, 0, 0];
    let mut i: usize = 0;
    while i < lots.len()
        invariant
            0 <= i <= lots@.len(),
            lots@.len() <= u32::MAX,
            out@.len() == 10,
            forall|k: int| 0 <= k < 10 ==> #[trigger] out@[k] == bucket_count(lots@.take(i as int), k),
            forall|k: int| 0 <= k < 10 ==> #[trigger] bucket_count(lots@.take(i as int), k) <= i,
        decreases lots@.len() - i,
    {
        proof { assert(lots@.take(i + 1).drop_last() =~= lots@.take(i as int)); }
        let idx: usize = match lots[i].hazard {
            HazardClass::NoHazard => 0,
            HazardClass::Explosive => 1,
            HazardClass::Gas => 2,
            HazardClass::FlammableLiquid => 3,
            HazardClass::FlammableSolid => 4,
            HazardClass::Oxidizer => 5,
            HazardClass::Toxic => 6,
            HazardClass::Radioactive => 7,
            HazardClass::Corrosive => 8,
            HazardClass::Miscellaneous | HazardClass::Unknown(_) => 9,
        };
        proof { assert(out@[idx as int] == bucket_count(lots@.take(i as int), idx as int)); }
        out[idx] = out[idx] + 1;
        proof {
            assert forall|k: int| 0 <= k < 10 implies #[trigger] bucket_count(lots@.take(i + 1), k) <= i + 1 by {
                assert(bucket_count(lots@.take(i as int), k) <= i);
            }
        }
        i = i + 1;
    }
    proof { assert(lots@.take(i as int) =~= lots@); }
    out
}

} // verus!
