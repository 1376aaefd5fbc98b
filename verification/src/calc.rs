//! Distance constants, unit factors and rounding shared by every view.
//!
//! Constants are binary64 bit patterns.

use crate::float::{F64, fabs, fdiv, flt, fmul, from_int, fround};
use vstd::prelude::*;

verus! {

/// WGS-84 semi-major axis, metres.
pub const WGS84_A: u64 = 0x4158_54A6_4000_0000;

/// WGS-84 flattening.
pub const WGS84_F: u64 = 0x3F6B_775A_84F3_E128;

/// Mean Earth radius, metres.
pub const EARTH_RADIUS_M: u64 = 0x4158_4DAE_0000_0000;

/// Metres per statute mile.
pub const M_PER_MILE: u64 = 0x4099_2560_4189_374C;

/// Metres per second to miles per hour.
pub const MPS_TO_MPH: u64 = 0x4001_E540_CC78_E9F7;

/// Metres per second to kilometres per hour.
pub const MPS_TO_KMH: u64 = 0x400C_CCCC_CCCC_CCCD;

/// A point farther than this from its drive's median is dropped.
pub const MAX_FROM_MEDIAN_M: u64 = 0x412E_8480_0000_0000;

/// A hop longer than this on every side marks a stray point.
pub const MAX_JUMP_M: u64 = 0x40B3_8800_0000_0000;

/// Share of Park frames above which a whole clip counts as parked.
pub const PARK_MAJORITY_FRACTION: u64 = 0x3FE0_0000_0000_0000;

/// The stricter share for the estimate from raw frame counts.
pub const PARK_MAJORITY_FRACTION_FAST: u64 = 0x3FE3_3333_3333_3333;

/// The number with these bits.
pub open spec fn lit(bits: u64) -> F64 {
    F64 { bits }
}

/// `v` rounded to two decimals, halves away from zero.
pub open spec fn rounded2(v: F64) -> F64 {
    fdiv(fround(fmul(v, from_int(100))), from_int(100))
}

/// `v` rounded to one decimal, halves away from zero.
pub open spec fn rounded1(v: F64) -> F64 {
    fdiv(fround(fmul(v, from_int(10))), from_int(10))
}

/// Both coordinates within a degree of zero: the recorder's mark for "no fix".
pub open spec fn null_island(lat: F64, lng: F64) -> bool {
    flt(fabs(lat), from_int(1)) && flt(fabs(lng), from_int(1))
}

pub fn m_to_mi(m: F64) -> (r: F64)
    ensures
        r == fdiv(m, lit(M_PER_MILE)),
{
    m.over(F64::from_bits(M_PER_MILE))
}

pub fn mps_to_mph(mps: F64) -> (r: F64)
    ensures
        r == fmul(mps, lit(MPS_TO_MPH)),
{
    mps.times(F64::from_bits(MPS_TO_MPH))
}

pub fn round2(v: F64) -> (r: F64)
    ensures
        r == rounded2(v),
{
    v.times(F64::of_u64(100)).round().over(F64::of_u64(100))
}

pub fn round1(v: F64) -> (r: F64)
    ensures
        r == rounded1(v),
{
    v.times(F64::of_u64(10)).round().over(F64::of_u64(10))
}

pub fn is_null_island(lat: F64, lng: F64) -> (r: bool)
    ensures
        r == null_island(lat, lng),
{
    lat.abs().lt(F64::of_u64(1)) && lng.abs().lt(F64::of_u64(1))
}

/// `v` rounded to two decimals where there is one.
pub open spec fn rounded2_opt(v: Option<F64>) -> Option<F64> {
    match v {
        Some(x) => Some(rounded2(x)),
        None => None,
    }
}

pub fn round2_opt(v: Option<F64>) -> (r: Option<F64>)
    ensures
        r == rounded2_opt(v),
{
    match v {
        Some(x) => Some(round2(x)),
        None => None,
    }
}

} // verus!
