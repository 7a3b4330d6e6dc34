//! Cell sizes of the geohash grid.
//!
//! A geohash of `p` characters carries `5 * p` bits, shared between the two
//! axes. The cell size along an axis is the axis span divided by two to the
//! number of bits that the axis gets.

use crate::fixed::{FRACTION_BITS, UNITS_PER_DEGREE};
use vstd::arithmetic::div_mod::lemma_fundamental_div_mod_converse;
use vstd::arithmetic::power2::{
    lemma2_to64, lemma_pow2_adds, lemma_pow2_pos, lemma_pow2_strictly_increases, pow2,
};
use vstd::bits::lemma_u64_shr_is_div;
use vstd::prelude::*;

verus! {

/// Longest geohash that the grid supports, in characters. Twelve characters
/// carry sixty bits, thirty for each axis, and every cell size down to that
/// precision is a whole number of units.
pub const MAX_PRECISION: u8 = 12;

/// Degrees of latitude that the grid divides.
pub const LAT_SPAN_DEGREES: i64 = 180;

/// Degrees of longitude that the legacy grid divides. Its cells are narrower
/// than true geohash cells, so its tiles line up only with tiles cut on the
/// same grid.
pub const LEGACY_LON_SPAN_DEGREES: i64 = 260;

/// Degrees of longitude of the whole globe.
pub const FULL_LON_SPAN_DEGREES: i64 = 360;

/// Which span of longitude the grid divides. The default is the whole globe;
/// choose [`LonSpan::Legacy`] only to match tiles that were cut on it.
#[derive(Clone, Copy, Debug, PartialEq, Eq)]
pub enum LonSpan {
    /// [`LEGACY_LON_SPAN_DEGREES`].
    Legacy,
    /// [`FULL_LON_SPAN_DEGREES`].
    Full,
}

impl Default for LonSpan {
    fn default() -> (span: LonSpan)
        ensures
            span == LonSpan::Full,
    {
        LonSpan::Full
    }
}

impl LonSpan {
    /// The span in degrees.
    pub open spec fn spec_degrees(self) -> int {
        match self {
            LonSpan::Legacy => LEGACY_LON_SPAN_DEGREES as int,
            LonSpan::Full => FULL_LON_SPAN_DEGREES as int,
        }
    }

    /// The span in degrees.
    pub fn degrees(self) -> (d: i64)
        ensures
            d == self.spec_degrees(),
    {
        match self {
            LonSpan::Legacy => LEGACY_LON_SPAN_DEGREES,
            LonSpan::Full => FULL_LON_SPAN_DEGREES,
        }
    }
}

/// Size of one grid cell along each axis, in units.
#[derive(Clone, Copy, Debug, PartialEq, Eq)]
pub struct GridDelta {
    pub lat: i64,
    pub lon: i64,
}

/// A precision that this grid supports: one to [`MAX_PRECISION`] characters.
pub open spec fn valid_precision(precision: int) -> bool {
    1 <= precision <= MAX_PRECISION
}

/// Bits of a `precision`-character geohash that subdivide latitude.
pub open spec fn lat_bits(precision: nat) -> nat {
    2 * precision + precision / 2
}

/// Bits of a `precision`-character geohash that subdivide longitude.
pub open spec fn lon_bits(precision: nat) -> nat {
    2 * precision + (precision + 1) / 2
}

/// Height of a cell in units: 180 degrees over `2^lat_bits`.
pub open spec fn lat_delta(precision: nat) -> int {
    LAT_SPAN_DEGREES * UNITS_PER_DEGREE / (pow2(lat_bits(precision)) as int)
}

/// Width of a cell in units: the longitude span over `2^lon_bits`.
pub open spec fn lon_delta(precision: nat, span: LonSpan) -> int {
    span.spec_degrees() * UNITS_PER_DEGREE / (pow2(lon_bits(precision)) as int)
}

/// Every character adds five bits, whatever the precision.
pub proof fn lemma_bits_sum(precision: nat)
    ensures
        lat_bits(precision) + lon_bits(precision) == 5 * precision,
{
}

/// A supported precision gives each axis between two and thirty bits, and a
/// longer geohash gives each axis more bits.
pub proof fn lemma_bits_bounds(precision: nat)
    requires
        valid_precision(precision as int),
    ensures
        2 <= lat_bits(precision) <= 30,
        3 <= lon_bits(precision) <= 30,
        lat_bits(precision) < lat_bits(precision + 1),
        lon_bits(precision) < lon_bits(precision + 1),
{
}

/// `degrees * 2^32 / 2^bits` leaves no remainder when `bits` is at most 32:
/// the quotient is `degrees * 2^(32 - bits)`.
proof fn lemma_span_divides(degrees: int, bits: nat)
    requires
        bits <= FRACTION_BITS,
    ensures
        degrees * UNITS_PER_DEGREE / (pow2(bits) as int) == degrees * pow2(
            (FRACTION_BITS - bits) as nat,
        ),
{
    let rest = (FRACTION_BITS - bits) as nat;
    lemma2_to64();
    lemma_pow2_adds(rest, bits);
    lemma_pow2_pos(bits);
    let d = pow2(bits) as int;
    let q = degrees * pow2(rest);
    assert(degrees * UNITS_PER_DEGREE == d * q) by (nonlinear_arith)
        requires
            UNITS_PER_DEGREE == pow2(rest) * d,
            q == degrees * pow2(rest),
    ;
    lemma_fundamental_div_mod_converse(degrees * UNITS_PER_DEGREE, d, q, 0);
}

/// The cell sizes are exact: a cell times the number of cells along its axis
/// is the whole span, with nothing lost to rounding.
pub proof fn lemma_deltas_exact(precision: nat, span: LonSpan)
    requires
        valid_precision(precision as int),
    ensures
        lat_delta(precision) * pow2(lat_bits(precision)) == LAT_SPAN_DEGREES * UNITS_PER_DEGREE,
        lon_delta(precision, span) * pow2(lon_bits(precision)) == span.spec_degrees()
            * UNITS_PER_DEGREE,
        lat_delta(precision) >= 4 * LAT_SPAN_DEGREES,
        lon_delta(precision, span) >= 4 * span.spec_degrees(),
{
    lemma_bits_bounds(precision);
    lemma2_to64();
    let lb = lat_bits(precision);
    let nb = lon_bits(precision);
    lemma_span_divides(LAT_SPAN_DEGREES as int, lb);
    lemma_span_divides(span.spec_degrees(), nb);
    let lr = (FRACTION_BITS - lb) as nat;
    let nr = (FRACTION_BITS - nb) as nat;
    lemma_pow2_adds(lr, lb);
    lemma_pow2_adds(nr, nb);
    assert(lat_delta(precision) * pow2(lb) == LAT_SPAN_DEGREES * UNITS_PER_DEGREE)
        by (nonlinear_arith)
        requires
            lat_delta(precision) == LAT_SPAN_DEGREES * pow2(lr),
            UNITS_PER_DEGREE == pow2(lr) * pow2(lb),
    ;
    assert(lon_delta(precision, span) * pow2(nb) == span.spec_degrees() * UNITS_PER_DEGREE)
        by (nonlinear_arith)
        requires
            lon_delta(precision, span) == span.spec_degrees() * pow2(nr),
            UNITS_PER_DEGREE == pow2(nr) * pow2(nb),
    ;
    if lr > 2 {
        lemma_pow2_strictly_increases(2, lr);
    }
    if nr > 2 {
        lemma_pow2_strictly_increases(2, nr);
    }
    assert(LAT_SPAN_DEGREES * pow2(lr) >= 4 * LAT_SPAN_DEGREES) by (nonlinear_arith)
        requires
            pow2(lr) >= 4,
    ;
    assert(span.spec_degrees() * pow2(nr) >= 4 * span.spec_degrees()) by (nonlinear_arith)
        requires
            pow2(nr) >= 4,
            span.spec_degrees() > 0,
    ;
}

/// At a supported precision no cell is smaller than 720 units or larger than
/// 45 degrees, along either axis.
pub proof fn lemma_delta_bounds(precision: nat, span: LonSpan)
    requires
        valid_precision(precision as int),
    ensures
        4 * LAT_SPAN_DEGREES <= lat_delta(precision) <= 45 * UNITS_PER_DEGREE,
        4 * span.spec_degrees() <= lon_delta(precision, span) <= 45 * UNITS_PER_DEGREE,
{
    lemma_deltas_exact(precision, span);
    lemma_bits_bounds(precision);
    lemma2_to64();
    let lb = lat_bits(precision);
    let nb = lon_bits(precision);
    if lb > 2 {
        lemma_pow2_strictly_increases(2, lb);
    }
    if nb > 3 {
        lemma_pow2_strictly_increases(3, nb);
    }
    assert(lat_delta(precision) <= 45 * UNITS_PER_DEGREE) by (nonlinear_arith)
        requires
            lat_delta(precision) * pow2(lb) == 180 * UNITS_PER_DEGREE,
            pow2(lb) >= 4,
            UNITS_PER_DEGREE > 0,
    ;
    assert(lon_delta(precision, span) <= 45 * UNITS_PER_DEGREE) by (nonlinear_arith)
        requires
            lon_delta(precision, span) * pow2(nb) == span.spec_degrees() * UNITS_PER_DEGREE,
            pow2(nb) >= 8,
            0 < span.spec_degrees() <= 360,
            UNITS_PER_DEGREE > 0,
    ;
}

/// A longer geohash has smaller cells, along both axes.
pub proof fn lemma_deltas_decrease(coarse: nat, fine: nat, span: LonSpan)
    requires
        valid_precision(coarse as int),
        valid_precision(fine as int),
        coarse < fine,
    ensures
        lat_delta(fine) < lat_delta(coarse),
        lon_delta(fine, span) < lon_delta(coarse, span),
{
    lemma_bits_bounds(coarse);
    lemma_bits_bounds(fine);
    let lc = (FRACTION_BITS - lat_bits(coarse)) as nat;
    let lf = (FRACTION_BITS - lat_bits(fine)) as nat;
    let nc = (FRACTION_BITS - lon_bits(coarse)) as nat;
    let nf = (FRACTION_BITS - lon_bits(fine)) as nat;
    lemma_span_divides(LAT_SPAN_DEGREES as int, lat_bits(coarse));
    lemma_span_divides(LAT_SPAN_DEGREES as int, lat_bits(fine));
    lemma_span_divides(span.spec_degrees(), lon_bits(coarse));
    lemma_span_divides(span.spec_degrees(), lon_bits(fine));
    lemma_pow2_strictly_increases(lf, lc);
    lemma_pow2_strictly_increases(nf, nc);
    assert(LAT_SPAN_DEGREES * pow2(lf) < LAT_SPAN_DEGREES * pow2(lc)) by (nonlinear_arith)
        requires
            pow2(lf) < pow2(lc),
    ;
    assert(span.spec_degrees() * pow2(nf) < span.spec_degrees() * pow2(nc)) by (nonlinear_arith)
        requires
            pow2(nf) < pow2(nc),
            span.spec_degrees() > 0,
    ;
}

/// Whether `precision` is one that the grid supports.
pub fn is_valid_precision(precision: usize) -> (ok: bool)
    ensures
        ok == valid_precision(precision as int),
{
    1 <= precision && precision <= MAX_PRECISION as usize
}

/// The bits that a `precision`-character geohash gives to latitude and to
/// longitude, in that order.
pub fn bit_counts(precision: u8) -> (bits: (u32, u32))
    ensures
        bits.0 == lat_bits(precision as nat),
        bits.1 == lon_bits(precision as nat),
        bits.0 + bits.1 == 5 * precision,
{
    let p: u32 = precision as u32;
    (2 * p + p / 2, 2 * p + (p + 1) / 2)
}

/// Size of one grid cell at `precision`, with longitude divided over `span`.
pub fn get_deltas(precision: u8, span: LonSpan) -> (delta: GridDelta)
    requires
        valid_precision(precision as int),
    ensures
        delta.lat == lat_delta(precision as nat),
        delta.lon == lon_delta(precision as nat, span),
        delta.lat > 0,
        delta.lon > 0,
{
    let (lat_bits, lon_bits) = bit_counts(precision);
    let lat_total: u64 = (LAT_SPAN_DEGREES * UNITS_PER_DEGREE) as u64;
    let lon_total: u64 = (span.degrees() * UNITS_PER_DEGREE) as u64;
    proof {
        lemma_deltas_exact(precision as nat, span);
        lemma_u64_shr_is_div(lat_total, lat_bits as u64);
        lemma_u64_shr_is_div(lon_total, lon_bits as u64);
    }
    GridDelta { lat: (lat_total >> lat_bits) as i64, lon: (lon_total >> lon_bits) as i64 }
}

} // verus!
