use vstd::prelude::*;
use crate::catalog::BerthInfo;
use crate::model::BerthId;

verus! {

/// The berths of the local catalog.
pub open spec fn berth_rows() -> Seq<BerthInfo> {
    seq![
        BerthInfo { id: BerthId(0x0101), name: "North Container 1", basin: 1, max_draught_cm: 1480, hazmat_allowed: false },
        BerthInfo { id: BerthId(0x0102), name: "North Container 2", basin: 1, max_draught_cm: 1460, hazmat_allowed: false },
        BerthInfo { id: BerthId(0x0103), name: "North Container 3", basin: 1, max_draught_cm: 1420, hazmat_allowed: true },
        BerthInfo { id: BerthId(0x0201), name: "East Liquid A", basin: 2, max_draught_cm: 1640, hazmat_allowed: true },
        BerthInfo { id: BerthId(0x0202), name: "East Liquid B", basin: 2, max_draught_cm: 1600, hazmat_allowed: true },
        BerthInfo { id: BerthId(0x0301), name: "RoRo Ramp 1", basin: 3, max_draught_cm: 930, hazmat_allowed: false },
        BerthInfo { id: BerthId(0x0302), name: "RoRo Ramp 2", basin: 3, max_draught_cm: 970, hazmat_allowed: false },
        BerthInfo { id: BerthId(0x0401), name: "Breakbulk West", basin: 4, max_draught_cm: 1280, hazmat_allowed: true },
        BerthInfo { id: BerthId(0x0402), name: "Breakbulk East", basin: 4, max_draught_cm: 1260, hazmat_allowed: true },
        BerthInfo { id: BerthId(0x0501), name: "Passenger South", basin: 5, max_draught_cm: 910, hazmat_allowed: false },
        BerthInfo { id: BerthId(0x0502), name: "Passenger North", basin: 5, max_draught_cm: 920, hazmat_allowed: false },
        BerthInfo { id: BerthId(0x0601), name: "Service Pier A", basin: 6, max_draught_cm: 720, hazmat_allowed: false },
        BerthInfo { id: BerthId(0x0602), name: "Service Pier B", basin: 6, max_draught_cm: 700, hazmat_allowed: false },
        BerthInfo { id: BerthId(0x0701), name: "Anchorage Alpha", basin: 7, max_draught_cm: 2100, hazmat_allowed: true },
        BerthInfo { id: BerthId(0x0702), name: "Anchorage Bravo", basin: 7, max_draught_cm: 2050, hazmat_allowed: true },
        BerthInfo { id: BerthId(0x0801), name: "Repair Quay 1", basin: 8, max_draught_cm: 1150, hazmat_allowed: false },
        BerthInfo { id: BerthId(0x0802), name: "Repair Quay 2", basin: 8, max_draught_cm: 1120, hazmat_allowed: false },
        BerthInfo { id: BerthId(0x0901), name: "Grain Terminal", basin: 9, max_draught_cm: 1340, hazmat_allowed: false },
        BerthInfo { id: BerthId(0x0a01), name: "Cold Storage A", basin: 10, max_draught_cm: 1080, hazmat_allowed: false },
        BerthInfo { id: BerthId(0x0a02), name: "Cold Storage B", basin: 10, max_draught_cm: 1060, hazmat_allowed: false },
    ]
}

/// The berths of the local catalog.
pub fn berth_table() -> (v: Vec<BerthInfo>)
    ensures v@ == berth_rows(),
{
    let mut v: Vec<BerthInfo> = Vec::new();
    v.push(BerthInfo { id: BerthId(0x0101), name: "North Container 1", basin: 1, max_draught_cm: 1480, hazmat_allowed: false });
    v.push(BerthInfo { id: BerthId(0x0102), name: "North Container 2", basin: 1, max_draught_cm: 1460, hazmat_allowed: false });
    v.push(BerthInfo { id: BerthId(0x0103), name: "North Container 3", basin: 1, max_draught_cm: 1420, hazmat_allowed: true });
    v.push(BerthInfo { id: BerthId(0x0201), name: "East Liquid A", basin: 2, max_draught_cm: 1640, hazmat_allowed: true });
    v.push(BerthInfo { id: BerthId(0x0202), name: "East Liquid B", basin: 2, max_draught_cm: 1600, hazmat_allowed: true });
    v.push(BerthInfo { id: BerthId(0x0301), name: "RoRo Ramp 1", basin: 3, max_draught_cm: 930, hazmat_allowed: false });
    v.push(BerthInfo { id: BerthId(0x0302), name: "RoRo Ramp 2", basin: 3, max_draught_cm: 970, hazmat_allowed: false });
    v.push(BerthInfo { id: BerthId(0x0401), name: "Breakbulk West", basin: 4, max_draught_cm: 1280, hazmat_allowed: true });
    v.push(BerthInfo { id: BerthId(0x0402), name: "Breakbulk East", basin: 4, max_draught_cm: 1260, hazmat_allowed: true });
    v.push(BerthInfo { id: BerthId(0x0501), name: "Passenger South", basin: 5, max_draught_cm: 910, hazmat_allowed: false });
    v.push(BerthInfo { id: BerthId(0x0502), name: "Passenger North", basin: 5, max_draught_cm: 920, hazmat_allowed: false });
    v.push(BerthInfo { id: BerthId(0x0601), name: "Service Pier A", basin: 6, max_draught_cm: 720, hazmat_allowed: false });
    v.push(BerthInfo { id: BerthId(0x0602), name: "Service Pier B", basin: 6, max_draught_cm: 700, hazmat_allowed: false });
    v.push(BerthInfo { id: BerthId(0x0701), name: "Anchorage Alpha", basin: 7, max_draught_cm: 2100, hazmat_allowed: true });
    v.push(BerthInfo { id: BerthId(0x0702), name: "Anchorage Bravo", basin: 7, max_draught_cm: 2050, hazmat_allowed: true });
    v.push(BerthInfo { id: BerthId(0x0801), name: "Repair Quay 1", basin: 8, max_draught_cm: 1150, hazmat_allowed: false });
    v.push(BerthInfo { id: BerthId(0x0802), name: "Repair Quay 2", basin: 8, max_draught_cm: 1120, hazmat_allowed: false });
    v.push(BerthInfo { id: BerthId(0x0901), name: "Grain Terminal", basin: 9, max_draught_cm: 1340, hazmat_allowed: false });
    v.push(BerthInfo { id: BerthId(0x0a01), name: "Cold Storage A", basin: 10, max_draught_cm: 1080, hazmat_allowed: false });
    v.push(BerthInfo { id: BerthId(0x0a02), name: "Cold Storage B", basin: 10, max_draught_cm: 1060, hazmat_allowed: false });
    proof { assert(v@ =~= berth_rows()); }
    v
}

/// The first berth of `s` with identifier `id`.
pub open spec fn find_berth(s: Seq<BerthInfo>, id: BerthId) -> Option<BerthInfo>
    decreases s.len(),
{
    if s.len() == 0 {
        None
    } else if s[0].id == id {
        Some(s[0])
    } else {
        find_berth(s.drop_first(), id)
    }
}

/// Berths of a basin.
pub open spec fn in_basin(basin: u16) -> spec_fn(BerthInfo) -> bool {
    |b: BerthInfo| b.basin == basin
}

/// Berths that take dangerous goods.
pub open spec fn takes_hazmat() -> spec_fn(BerthInfo) -> bool {
    |b: BerthInfo| b.hazmat_allowed
}

/// The largest draught among `s` (zero for none).
pub open spec fn max_draught(s: Seq<BerthInfo>) -> u16
    decreases s.len(),
{
    if s.len() == 0 {
        0
    } else {
        let m = max_draught(s.drop_last());
        if s.last().max_draught_cm > m { s.last().max_draught_cm } else { m }
    }
}

/// The catalog entry of a berth.
pub fn lookup_berth(id: BerthId) -> (r: Option<BerthInfo>)
    ensures r == find_berth(berth_rows(), id),
{
    let table = berth_table();
    let mut i: usize = 0;
    proof { assert(table@.skip(0) =~= table@); }
    while i < table.len()
        invariant
            0 <= i <= table@.len(),
            table@ == berth_rows(),
            find_berth(berth_rows(), id) == find_berth(table@.skip(i as int), id),
        decreases table@.len() - i,
    {
        proof {
            assert(table@.skip(i as int)[0] == table@[i as int]);
            assert(table@.skip(i as int).drop_first() =~= table@.skip(i + 1));
        }
        if table[i].id.0 == id.0 {
            return Some(table[i]);
        }
        i = i + 1;
    }
    None
}

/// The catalog berths of a basin, in catalog order.
pub fn basin_berths(basin: u16) -> (v: Vec<BerthInfo>)
    ensures v@ == berth_rows().filter(in_basin(basin)),
{
    let table = berth_table();
    let mut out: Vec<BerthInfo> = Vec::new();
    let mut i: usize = 0;
    while i < table.len()
        invariant
            0 <= i <= table@.len(),
            table@ == berth_rows(),
            out@ == table@.take(i as int).filter(in_basin(basin)),
        decreases table@.len() - i,
    {
        proof {
            reveal_with_fuel(Seq::<BerthInfo>::filter, 1);
            assert(table@.take(i + 1).drop_last() =~= table@.take(i as int));
        }
        if table[i].basin == basin {
            out.push(table[i]);
        }
        i = i + 1;
    }
    proof { assert(table@.take(i as int) =~= table@); }
    out
}

/// The catalog berths that take dangerous goods, in catalog order.
pub fn hazmat_berths() -> (v: Vec<BerthInfo>)
    ensures v@ == berth_rows().filter(takes_hazmat()),
{
    let table = berth_table();
    let mut out: Vec<BerthInfo> = Vec::new();
    let mut i: usize = 0;
    while i < table.len()
        invariant
            0 <= i <= table@.len(),
            table@ == berth_rows(),
            out@ == table@.take(i as int).filter(takes_hazmat()),
        decreases table@.len() - i,
    {
        proof {
            reveal_with_fuel(Seq::<BerthInfo>::filter, 1);
            assert(table@.take(i + 1).drop_last() =~= table@.take(i as int));
        }
        if table[i].hazmat_allowed {
            out.push(table[i]);
        }
        i = i + 1;
    }
    proof { assert(table@.take(i as int) =~= table@); }
    out
}

/// The largest draught of the catalog berths of a basin (zero for a basin without berths).
pub fn max_draught_for_basin(basin: u16) -> (d: u16)
    ensures d == max_draught(berth_rows().filter(in_basin(basin))),
{
    let berths = basin_berths(basin);
    let mut best: u16 = 0;
    let mut i: usize = 0;
    while i < berths.len()
        invariant
            0 <= i <= berths@.len(),
            best == max_draught(berths@.take(i as int)),
        decreases berths@.len() - i,
    {
        proof { assert(berths@.take(i + 1).drop_last() =~= berths@.take(i as int)); }
        if berths[i].max_draught_cm > best {
            best = berths[i].max_draught_cm;
        }
        i = i + 1;
    }
    proof { assert(berths@.take(i as int) =~= berths@); }
    best
}

} // verus!
