use vstd::prelude::*;
use crate::model::BerthId;

pub mod berths;
pub mod hazmat;
pub mod ports;

verus! {

/// A port of the local catalog.
#[derive(Debug, Clone, Copy)]
pub struct PortInfo {
    pub code: &'static str,
    pub name: &'static str,
    pub country: &'static str,
    pub basin: u16,
    pub lat_e7: i32,
    pub lon_e7: i32,
}

/// A berth of the local catalog.
#[derive(Debug, Clone, Copy)]
pub struct BerthInfo {
    pub id: BerthId,
    pub name: &'static str,
    pub basin: u16,
    pub max_draught_cm: u16,
    pub hazmat_allowed: bool,
}

/// A dangerous good of the local catalog.
#[derive(Debug, Clone, Copy)]
pub struct HazmatInfo {
    pub un_number: u16,
    pub name: &'static str,
    pub class_code: u8,
    pub segregation_group: u8,
    pub water_reactive: bool,
}

} // verus!
