use vstd::prelude::*;
use crate::catalog::HazmatInfo;

verus! {

/// The dangerous goods of the local catalog.
pub open spec fn hazmat_rows() -> Seq<HazmatInfo> {
    seq![
        HazmatInfo { un_number: 1001, name: "Acetylene dissolved", class_code: 2, segregation_group: 3, water_reactive: false },
        HazmatInfo { un_number: 1005, name: "Ammonia anhydrous", class_code: 2, segregation_group: 5, water_reactive: true },
        HazmatInfo { un_number: 1017, name: "Chlorine", class_code: 2, segregation_group: 6, water_reactive: true },
        HazmatInfo { un_number: 1075, name: "Petroleum gases liquefied", class_code: 2, segregation_group: 4, water_reactive: false },
        HazmatInfo { un_number: 1090, name: "Acetone", class_code: 3, segregation_group: 2, water_reactive: false },
        HazmatInfo { un_number: 1202, name: "Diesel fuel", class_code: 3, segregation_group: 2, water_reactive: false },
        HazmatInfo { un_number: 1203, name: "Gasoline", class_code: 3, segregation_group: 2, water_reactive: false },
        HazmatInfo { un_number: 1230, name: "Methanol", class_code: 3, segregation_group: 2, water_reactive: false },
        HazmatInfo { un_number: 1263, name: "Paint", class_code: 3, segregation_group: 2, water_reactive: false },
        HazmatInfo { un_number: 1294, name: "Toluene", class_code: 3, segregation_group: 2, water_reactive: false },
        HazmatInfo { un_number: 1381, name: "Phosphorus white", class_code: 4, segregation_group: 7, water_reactive: true },
        HazmatInfo { un_number: 1402, name: "Calcium carbide", class_code: 4, segregation_group: 7, water_reactive: true },
        HazmatInfo { un_number: 1495, name: "Sodium chlorate", class_code: 5, segregation_group: 8, water_reactive: false },
        HazmatInfo { un_number: 1498, name: "Sodium nitrate", class_code: 5, segregation_group: 8, water_reactive: false },
        HazmatInfo { un_number: 1547, name: "Aniline", class_code: 6, segregation_group: 6, water_reactive: false },
        HazmatInfo { un_number: 1680, name: "Potassium cyanide", class_code: 6, segregation_group: 6, water_reactive: true },
        HazmatInfo { un_number: 1789, name: "Hydrochloric acid", class_code: 8, segregation_group: 1, water_reactive: false },
        HazmatInfo { un_number: 1791, name: "Hypochlorite solution", class_code: 8, segregation_group: 8, water_reactive: false },
        HazmatInfo { un_number: 1824, name: "Sodium hydroxide solution", class_code: 8, segregation_group: 1, water_reactive: false },
        HazmatInfo { un_number: 1830, name: "Sulfuric acid", class_code: 8, segregation_group: 1, water_reactive: true },
        HazmatInfo { un_number: 1863, name: "Fuel aviation turbine engine", class_code: 3, segregation_group: 2, water_reactive: false },
        HazmatInfo { un_number: 1942, name: "Ammonium nitrate", class_code: 5, segregation_group: 8, water_reactive: false },
        HazmatInfo { un_number: 1993, name: "Flammable liquid n.o.s.", class_code: 3, segregation_group: 2, water_reactive: false },
        HazmatInfo { un_number: 2014, name: "Hydrogen peroxide aqueous", class_code: 5, segregation_group: 8, water_reactive: false },
        HazmatInfo { un_number: 2031, name: "Nitric acid", class_code: 8, segregation_group: 8, water_reactive: true },
        HazmatInfo { un_number: 2209, name: "Formaldehyde solution", class_code: 8, segregation_group: 6, water_reactive: false },
        HazmatInfo { un_number: 2211, name: "Polymeric beads expandable", class_code: 9, segregation_group: 9, water_reactive: false },
        HazmatInfo { un_number: 2315, name: "Polychlorinated biphenyls", class_code: 9, segregation_group: 6, water_reactive: false },
        HazmatInfo { un_number: 3077, name: "Environmentally hazardous substance solid", class_code: 9, segregation_group: 9, water_reactive: false },
        HazmatInfo { un_number: 3082, name: "Environmentally hazardous substance liquid", class_code: 9, segregation_group: 9, water_reactive: false },
    ]
}

/// The dangerous goods of the local catalog.
pub fn hazmat_table() -> (v: Vec<HazmatInfo>)
    ensures v@ == hazmat_rows(),
{
    let mut v: Vec<HazmatInfo> = Vec::new();
    v.push(HazmatInfo { un_number: 1001, name: "Acetylene dissolved", class_code: 2, segregation_group: 3, water_reactive: false });
    v.push(HazmatInfo { un_number: 1005, name: "Ammonia anhydrous", class_code: 2, segregation_group: 5, water_reactive: true });
    v.push(HazmatInfo { un_number: 1017, name: "Chlorine", class_code: 2, segregation_group: 6, water_reactive: true });
    v.push(HazmatInfo { un_number: 1075, name: "Petroleum gases liquefied", class_code: 2, segregation_group: 4, water_reactive: false });
    v.push(HazmatInfo { un_number: 1090, name: "Acetone", class_code: 3, segregation_group: 2, water_reactive: false });
    v.push(HazmatInfo { un_number: 1202, name: "Diesel fuel", class_code: 3, segregation_group: 2, water_reactive: false });
    v.push(HazmatInfo { un_number: 1203, name: "Gasoline", class_code: 3, segregation_group: 2, water_reactive: false });
    v.push(HazmatInfo { un_number: 1230, name: "Methanol", class_code: 3, segregation_group: 2, water_reactive: false });
    v.push(HazmatInfo { un_number: 1263, name: "Paint", class_code: 3, segregation_group: 2, water_reactive: false });
    v.push(HazmatInfo { un_number: 1294, name: "Toluene", class_code: 3, segregation_group: 2, water_reactive: false });
    v.push(HazmatInfo { un_number: 1381, name: "Phosphorus white", class_code: 4, segregation_group: 7, water_reactive: true });
    v.push(HazmatInfo { un_number: 1402, name: "Calcium carbide", class_code: 4, segregation_group: 7, water_reactive: true });
    v.push(HazmatInfo { un_number: 1495, name: "Sodium chlorate", class_code: 5, segregation_group: 8, water_reactive: false });
    v.push(HazmatInfo { un_number: 1498, name: "Sodium nitrate", class_code: 5, segregation_group: 8, water_reactive: false });
    v.push(HazmatInfo { un_number: 1547, name: "Aniline", class_code: 6, segregation_group: 6, water_reactive: false });
    v.push(HazmatInfo { un_number: 1680, name: "Potassium cyanide", class_code: 6, segregation_group: 6, water_reactive: true });
    v.push(HazmatInfo { un_number: 1789, name: "Hydrochloric acid", class_code: 8, segregation_group: 1, water_reactive: false });
    v.push(HazmatInfo { un_number: 1791, name: "Hypochlorite solution", class_code: 8, segregation_group: 8, water_reactive: false });
    v.push(HazmatInfo { un_number: 1824, name: "Sodium hydroxide solution", class_code: 8, segregation_group: 1, water_reactive: false });
    v.push(HazmatInfo { un_number: 1830, name: "Sulfuric acid", class_code: 8, segregation_group: 1, water_reactive: true });
    v.push(HazmatInfo { un_number: 1863, name: "Fuel aviation turbine engine", class_code: 3, segregation_group: 2, water_reactive: false });
    v.push(HazmatInfo { un_number: 1942, name: "Ammonium nitrate", class_code: 5, segregation_group: 8, water_reactive: false });
    v.push(HazmatInfo { un_number: 1993, name: "Flammable liquid n.o.s.", class_code: 3, segregation_group: 2, water_reactive: false });
    v.push(HazmatInfo { un_number: 2014, name: "Hydrogen peroxide aqueous", class_code: 5, segregation_group: 8, water_reactive: false });
    v.push(HazmatInfo { un_number: 2031, name: "Nitric acid", class_code: 8, segregation_group: 8, water_reactive: true });
    v.push(HazmatInfo { un_number: 2209, name: "Formaldehyde solution", class_code: 8, segregation_group: 6, water_reactive: false });
    v.push(HazmatInfo { un_number: 2211, name: "Polymeric beads expandable", class_code: 9, segregation_group: 9, water_reactive: false });
    v.push(HazmatInfo { un_number: 2315, name: "Polychlorinated biphenyls", class_code: 9, segregation_group: 6, water_reactive: false });
    v.push(HazmatInfo { un_number: 3077, name: "Environmentally hazardous substance solid", class_code: 9, segregation_group: 9, water_reactive: false });
    v.push(HazmatInfo { un_number: 3082, name: "Environmentally hazardous substance liquid", class_code: 9, segregation_group: 9, water_reactive: false });
    proof { assert(v@ =~= hazmat_rows()); }
    v
}

/// The first entry of `s` with UN number `un`.
pub open spec fn find_un(s: Seq<HazmatInfo>, un: u16) -> Option<HazmatInfo>
    decreases s.len(),
{
    if s.len() == 0 {
        None
    } else if s[0].un_number == un {
        Some(s[0])
    } else {
        find_un(s.drop_first(), un)
    }
}

/// Entries of a segregation group.
pub open spec fn in_group(group: u8) -> spec_fn(HazmatInfo) -> bool {
    |h: HazmatInfo| h.segregation_group == group
}

/// The catalog entry of a UN number.
pub fn lookup_un_number(un_number: u16) -> (r: Option<HazmatInfo>)
    ensures r == find_un(hazmat_rows(), un_number),
{
    let table = hazmat_table();
    let mut i: usize = 0;
    proof { assert(table@.skip(0) =~= table@); }
    while i < table.len()
        invariant
            0 <= i <= table@.len(),
            table@ == hazmat_rows(),
            find_un(hazmat_rows(), un_number) == find_un(table@.skip(i as int), un_number),
        decreases table@.len() - i,
    {
        proof {
            assert(table@.skip(i as int)[0] == table@[i as int]);
            assert(table@.skip(i as int).drop_first() =~= table@.skip(i + 1));
        }
        if table[i].un_number == un_number {
            return Some(table[i]);
        }
        i = i + 1;
    }
    None
}

/// The catalog entries of a segregation group, in catalog order.
pub fn by_segregation_group(group: u8) -> (v: Vec<HazmatInfo>)
    ensures v@ == hazmat_rows().filter(in_group(group)),
{
    let table = hazmat_table();
    let mut out: Vec<HazmatInfo> = Vec::new();
    let mut i: usize = 0;
    while i < table.len()
        invariant
            0 <= i <= table@.len(),
            table@ == hazmat_rows(),
            out@ == table@.take(i as int).filter(in_group(group)),
        decreases table@.len() - i,
    {
        proof {
            reveal_with_fuel(Seq::<HazmatInfo>::filter, 1);
            assert(table@.take(i + 1).drop_last() =~= table@.take(i as int));
        }
        if table[i].segregation_group == group {
            out.push(table[i]);
        }
        i = i + 1;
    }
    proof { assert(table@.take(i as int) =~= table@); }
    out
}

/// Whether the catalog lists the UN number as water reactive (false when it is not listed).
pub fn is_water_reactive(un_number: u16) -> (b: bool)
    ensures b == (match find_un(hazmat_rows(), un_number) { Some(h) => h.water_reactive, None => false }),
{
    match lookup_un_number(un_number) {
        Some(entry) => entry.water_reactive,
        None => false,
    }
}

} // verus!
