use vstd::prelude::*;
use crate::cursor::{ByteCursor, Cur, Reader, counted_list, records_from, records_progress, lemma_records_step,
    lemma_records_fail, lemma_records_done, rd_u16, rd_u32, rd_u64, rd_i32};
use crate::error::{ParseError, ParseResult};
use crate::model::{Coordinates, PilotOrder, Timestamp, VesselId, night_boarding};

verus! {

/// Reading one pilot order: vessel, pilot code, boarding time, boarding and disembarking
/// positions (latitude then longitude, 1e-7 degree), language mask and flags.
pub open spec fn rd_pilot(c: Cur) -> (Result<PilotOrder, ParseError>, Cur) {
    match rd_u32(c) {
        (Err(e), c1) => (Err(e), c1),
        (Ok(vessel), c1) => match rd_u16(c1) {
            (Err(e), c2) => (Err(e), c2),
            (Ok(pilot_code), c2) => match rd_u64(c2) {
                (Err(e), c3) => (Err(e), c3),
                (Ok(time), c3) => match rd_i32(c3) {
                    (Err(e), c4) => (Err(e), c4),
                    (Ok(blat), c4) => match rd_i32(c4) {
                        (Err(e), c5) => (Err(e), c5),
                        (Ok(blon), c5) => match rd_i32(c5) {
                            (Err(e), c6) => (Err(e), c6),
                            (Ok(dlat), c6) => match rd_i32(c6) {
                                (Err(e), c7) => (Err(e), c7),
                                (Ok(dlon), c7) => match rd_u16(c7) {
                                    (Err(e), c8) => (Err(e), c8),
                                    (Ok(language_mask), c8) => match rd_u16(c8) {
                                        (Err(e), c9) => (Err(e), c9),
                                        (Ok(flags), c9) => (Ok(PilotOrder {
                                            vessel: VesselId(vessel),
                                            pilot_code,
                                            boarding_time: Timestamp(time),
                                            boarding_position: Coordinates { lat_e7: blat, lon_e7: blon },
                                            disembark_position: Coordinates { lat_e7: dlat, lon_e7: dlon },
                                            language_mask,
                                            flags,
                                        }), c9),
                                    },
                                },
                            },
                        },
                    },
                },
            },
        },
    }
}

/// The pilot order reader.
pub open spec fn pilot_reader() -> Reader<PilotOrder> {
    |c: Cur| rd_pilot(c)
}

/// A list of pilot orders: a `u16` count (at most 4096) and the orders.
pub open spec fn pilots_spec(data: Seq<u8>, base: usize) -> Result<Seq<PilotOrder>, ParseError> {
    counted_list(data, base, 4096, "pilot order count", pilot_reader())
}

/// Reads a list of pilot orders.
pub fn parse_pilots(data: &[u8], base: usize) -> (r: ParseResult<Vec<PilotOrder>>)
    ensures
        match pilots_spec(data@, base) {
            Ok(ps) => r matches Ok(v) && v@ == ps,
            Err(e) => r == Err::<Vec<PilotOrder>, ParseError>(e),
        },
{
    let mut cursor = ByteCursor::with_base(data, base);
    let count = cursor.read_u16()? as usize;
    if count > 4096 {
        return Err(ParseError::limit(cursor.absolute_position(), "pilot order count"));
    }
    let ghost c1 = cursor.view();
    let mut out: Vec<PilotOrder> = Vec::new();
    let mut k: usize = 0;
    while k < count
        invariant
            0 <= k <= count,
            cursor.wf(),
            pilots_spec(data@, base) == records_from(c1, count as nat, pilot_reader()),
            records_progress(c1, count as nat, pilot_reader(), out@, cursor.view(), (count - k) as nat),
        decreases count - k,
    {
        let ghost before = cursor.view();
        let p = match parse_pilot(&mut cursor) {
            Ok(p) => p,
            Err(e) => {
                proof { lemma_records_fail(c1, count as nat, pilot_reader(), out@, before, (count - k) as nat); }
                return Err(e);
            },
        };
        proof { lemma_records_step(c1, count as nat, pilot_reader(), out@, before, (count - k) as nat); }
        out.push(p);
        k = k + 1;
    }
    proof { lemma_records_done(c1, count as nat, pilot_reader(), out@, cursor.view()); }
    Ok(out)
}

/// Reads one pilot order.
pub fn parse_pilot(cursor: &mut ByteCursor<'_>) -> (r: ParseResult<PilotOrder>)
    ensures
        ({
            let (sr, c) = rd_pilot(old(cursor).view());
            &&& final(cursor).view() == c
            &&& final(cursor).wf()
            &&& sr == r
        }),
{
    let vessel = VesselId(cursor.read_u32()?);
    let pilot_code = cursor.read_u16()?;
    let boarding_time = Timestamp(cursor.read_u64()?);
    let blat = cursor.read_i32()?;
    let blon = cursor.read_i32()?;
    let boarding_position = Coordinates::new(blat, blon);
    let dlat = cursor.read_i32()?;
    let dlon = cursor.read_i32()?;
    let disembark_position = Coordinates::new(dlat, dlon);
    let language_mask = cursor.read_u16()?;
    let flags = cursor.read_u16()?;
    Ok(PilotOrder { vessel, pilot_code, boarding_time, boarding_position, disembark_position, language_mask, flags })
}

/// The pilot orders of a port call.
#[derive(Debug, Clone)]
pub struct PilotRoster {
    pub orders: Vec<PilotOrder>,
}

impl Default for PilotRoster {
    fn default() -> (r: Self)
        ensures r.orders@.len() == 0,
    {
        PilotRoster { orders: Vec::new() }
    }
}

/// The first order of `s` for `vessel`.
pub open spec fn first_order(s: Seq<PilotOrder>, vessel: VesselId) -> Option<PilotOrder>
    decreases s.len(),
{
    if s.len() == 0 {
        None
    } else if s[0].vessel == vessel {
        Some(s[0])
    } else {
        first_order(s.drop_first(), vessel)
    }
}

/// Orders boarding at night.
pub open spec fn at_night() -> spec_fn(PilotOrder) -> bool {
    |p: PilotOrder| night_boarding(p)
}

/// Orders whose pilot speaks none of the languages in `mask`.
pub open spec fn lacks_language(mask: u16) -> spec_fn(PilotOrder) -> bool {
    |p: PilotOrder| p.language_mask & mask == 0
}

impl PilotRoster {
    pub fn new(orders: Vec<PilotOrder>) -> (r: Self)
        ensures r.orders@ == orders@,
    {
        PilotRoster { orders }
    }

    /// The first order for `vessel`.
    pub fn by_vessel(&self, vessel: VesselId) -> (r: Option<&PilotOrder>)
        ensures
            match first_order(self.orders@, vessel) {
                Some(p) => r matches Some(x) && *x == p,
                None => r is None,
            },
    {
        let mut i: usize = 0;
        proof { assert(self.orders@.skip(0) =~= self.orders@); }
        while i < self.orders.len()
            invariant
                0 <= i <= self.orders@.len(),
                first_order(self.orders@, vessel) == first_order(self.orders@.skip(i as int), vessel),
            decreases self.orders@.len() - i,
        {
            proof {
                assert(self.orders@.skip(i as int)[0] == self.orders@[i as int]);
                assert(self.orders@.skip(i as int).drop_first() =~= self.orders@.skip(i + 1));
            }
            if self.orders[i].vessel.0 == vessel.0 {
                return Some(&self.orders[i]);
            }
            i = i + 1;
        }
        None
    }

    /// How many orders board at night.
    pub fn night_boardings(&self) -> (n: usize)
        ensures n == self.orders@.filter(at_night()).len(),
    {
        let mut n: usize = 0;
        let mut i: usize = 0;
        while i < self.orders.len()
            invariant
                0 <= i <= self.orders@.len(),
                n == self.orders@.take(i as int).filter(at_night()).len(),
                n <= i,
            decreases self.orders@.len() - i,
        {
            proof {
                reveal_with_fuel(Seq::<PilotOrder>::filter, 1);
                assert(self.orders@.take(i + 1).drop_last() =~= self.orders@.take(i as int));
            }
            if self.orders[i].is_night_boarding() {
                n = n + 1;
            }
            i = i + 1;
        }
        proof { assert(self.orders@.take(i as int) =~= self.orders@); }
        n
    }

    /// The vessels of the orders whose pilot speaks none of the required languages.
    pub fn language_gaps(&self, required_mask: u16) -> (v: Vec<VesselId>)
        ensures v@ == self.orders@.filter(lacks_language(required_mask)).map_values(|p: PilotOrder| p.vessel),
    {
        let mut out: Vec<VesselId> = Vec::new();
        let mut i: usize = 0;
        while i < self.orders.len()
            invariant
                0 <= i <= self.orders@.len(),
                out@ == self.orders@.take(i as int).filter(lacks_language(required_mask)).map_values(|p: PilotOrder| p.vessel),
            decreases self.orders@.len() - i,
        {
            proof {
                reveal_with_fuel(Seq::<PilotOrder>::filter, 1);
                assert(self.orders@.take(i + 1).drop_last() =~= self.orders@.take(i as int));
            }
            let o = self.orders[i];
            if o.language_mask & required_mask == 0 {
                out.push(o.vessel);
            }
            proof {
                let f = self.orders@.take(i as int).filter(lacks_language(required_mask));
                assert(f.push(o).map_values(|p: PilotOrder| p.vessel) =~= f.map_values(|p: PilotOrder| p.vessel).push(o.vessel));
            }
            i = i + 1;
        }
        proof { assert(self.orders@.take(i as int) =~= self.orders@); }
        out
    }
}

} // verus!
