use vstd::prelude::*;
use crate::catalog::PortInfo;
use crate::model::{abs_diff, abs_diff_i32, sat_add32};
use crate::text::str_equal;

verus! {

/// The ports of the local catalog.
pub open spec fn port_rows() -> Seq<PortInfo> {
    seq![
        PortInfo { code: "USLAX", name: "Los Angeles", country: "US", basin: 1, lat_e7: 337366000i32, lon_e7: -1182630000i32 },
        PortInfo { code: "USLGB", name: "Long Beach", country: "US", basin: 2, lat_e7: 337520000i32, lon_e7: -1181890000i32 },
        PortInfo { code: "USNYC", name: "New York", country: "US", basin: 3, lat_e7: 407120000i32, lon_e7: -740060000i32 },
        PortInfo { code: "USSAV", name: "Savannah", country: "US", basin: 4, lat_e7: 320800000i32, lon_e7: -811000000i32 },
        PortInfo { code: "USHOU", name: "Houston", country: "US", basin: 5, lat_e7: 297300000i32, lon_e7: -952600000i32 },
        PortInfo { code: "NLRTM", name: "Rotterdam", country: "NL", basin: 6, lat_e7: 519220000i32, lon_e7: 44790000i32 },
        PortInfo { code: "BEANR", name: "Antwerp", country: "BE", basin: 7, lat_e7: 512200000i32, lon_e7: 44000000i32 },
        PortInfo { code: "SGSIN", name: "Singapore", country: "SG", basin: 8, lat_e7: 12650000i32, lon_e7: 1038200000i32 },
        PortInfo { code: "CNSHA", name: "Shanghai", country: "CN", basin: 9, lat_e7: 312300000i32, lon_e7: 1215000000i32 },
        PortInfo { code: "KRPUS", name: "Busan", country: "KR", basin: 10, lat_e7: 351000000i32, lon_e7: 1290400000i32 },
    ]
}

/// The ports of the local catalog.
pub fn port_table() -> (v: Vec<PortInfo>)
    ensures v@ == port_rows(),
{
    let mut v: Vec<PortInfo> = Vec::new();
    v.push(PortInfo { code: "USLAX", name: "Los Angeles", country: "US", basin: 1, lat_e7: 337366000, lon_e7: -1182630000 });
    v.push(PortInfo { code: "USLGB", name: "Long Beach", country: "US", basin: 2, lat_e7: 337520000, lon_e7: -1181890000 });
    v.push(PortInfo { code: "USNYC", name: "New York", country: "US", basin: 3, lat_e7: 407120000, lon_e7: -740060000 });
    v.push(PortInfo { code: "USSAV", name: "Savannah", country: "US", basin: 4, lat_e7: 320800000, lon_e7: -811000000 });
    v.push(PortInfo { code: "USHOU", name: "Houston", country: "US", basin: 5, lat_e7: 297300000, lon_e7: -952600000 });
    v.push(PortInfo { code: "NLRTM", name: "Rotterdam", country: "NL", basin: 6, lat_e7: 519220000, lon_e7: 44790000 });
    v.push(PortInfo { code: "BEANR", name: "Antwerp", country: "BE", basin: 7, lat_e7: 512200000, lon_e7: 44000000 });
    v.push(PortInfo { code: "SGSIN", name: "Singapore", country: "SG", basin: 8, lat_e7: 12650000, lon_e7: 1038200000 });
    v.push(PortInfo { code: "CNSHA", name: "Shanghai", country: "CN", basin: 9, lat_e7: 312300000, lon_e7: 1215000000 });
    v.push(PortInfo { code: "KRPUS", name: "Busan", country: "KR", basin: 10, lat_e7: 351000000, lon_e7: 1290400000 });
    proof { assert(v@ =~= port_rows()); }
    v
}

/// The first port of `s` whose code is `code`.
pub open spec fn find_port(s: Seq<PortInfo>, code: Seq<char>) -> Option<PortInfo>
    decreases s.len(),
{
    if s.len() == 0 {
        None
    } else if s[0].code@ == code {
        Some(s[0])
    } else {
        find_port(s.drop_first(), code)
    }
}

/// Ports of a country.
pub open spec fn of_country(country: Seq<char>) -> spec_fn(PortInfo) -> bool {
    |p: PortInfo| p.country@ == country
}

/// How far a port lies from a position: the sum of the absolute differences of latitude and
/// longitude, saturated.
pub open spec fn port_distance(p: PortInfo, lat_e7: i32, lon_e7: i32) -> u32 {
    sat_add32(abs_diff(p.lat_e7 as int, lat_e7 as int) as int, abs_diff(p.lon_e7 as int, lon_e7 as int) as int)
}

/// The port of `s` nearest a position, the first among equals.
pub open spec fn nearest_in(s: Seq<PortInfo>, lat_e7: i32, lon_e7: i32) -> Option<PortInfo>
    decreases s.len(),
{
    if s.len() == 0 {
        None
    } else {
        match nearest_in(s.drop_last(), lat_e7, lon_e7) {
            None => Some(s.last()),
            Some(b) => if port_distance(s.last(), lat_e7, lon_e7) < port_distance(b, lat_e7, lon_e7) {
                Some(s.last())
            } else {
                Some(b)
            },
        }
    }
}

/// The catalog entry of a port code.
pub fn lookup_port(code: &str) -> (r: Option<PortInfo>)
    ensures r == find_port(port_rows(), code@),
{
    let table = port_table();
    let mut i: usize = 0;
    proof { assert(table@.skip(0) =~= table@); }
    while i < table.len()
        invariant
            0 <= i <= table@.len(),
            table@ == port_rows(),
            find_port(port_rows(), code@) == find_port(table@.skip(i as int), code@),
        decreases table@.len() - i,
    {
        proof {
            assert(table@.skip(i as int)[0] == table@[i as int]);
            assert(table@.skip(i as int).drop_first() =~= table@.skip(i + 1));
        }
        if str_equal(table[i].code, code) {
            return Some(table[i]);
        }
        i = i + 1;
    }
    None
}

/// The catalog ports of a country, in catalog order.
pub fn by_country(country: &str) -> (v: Vec<PortInfo>)
    ensures v@ == port_rows().filter(of_country(country@)),
{
    let table = port_table();
    let mut out: Vec<PortInfo> = Vec::new();
    let mut i: usize = 0;
    while i < table.len()
        invariant
            0 <= i <= table@.len(),
            table@ == port_rows(),
            out@ == table@.take(i as int).filter(of_country(country@)),
        decreases table@.len() - i,
    {
        proof {
            reveal_with_fuel(Seq::<PortInfo>::filter, 1);
            assert(table@.take(i + 1).drop_last() =~= table@.take(i as int));
        }
        if str_equal(table[i].country, country) {
            out.push(table[i]);
        }
        i = i + 1;
    }
    proof { assert(table@.take(i as int) =~= table@); }
    out
}

/// The catalog port nearest a position.
pub fn nearest(lat_e7: i32, lon_e7: i32) -> (r: Option<PortInfo>)
    ensures r == nearest_in(port_rows(), lat_e7, lon_e7),
{
    let table = port_table();
    let mut best: Option<PortInfo> = None;
    let mut best_distance: u32 = 0;
    let mut i: usize = 0;
    while i < table.len()
        invariant
            0 <= i <= table@.len(),
            table@ == port_rows(),
            best == nearest_in(table@.take(i as int), lat_e7, lon_e7),
            best matches Some(b) ==> best_distance == port_distance(b, lat_e7, lon_e7),
        decreases table@.len() - i,
    {
        proof { assert(table@.take(i + 1).drop_last() =~= table@.take(i as int)); }
        let p = table[i];
        let d = abs_diff_i32(p.lat_e7, lat_e7).saturating_add(abs_diff_i32(p.lon_e7, lon_e7));
        match best {
            None => {
                best = Some(p);
                best_distance = d;
            },
            Some(_) => {
                if d < best_distance {
                    best = Some(p);
                    best_distance = d;
                }
            },
        }
        i = i + 1;
    }
    proof { assert(table@.take(i as int) =~= table@); }
    best
}

} // verus!
