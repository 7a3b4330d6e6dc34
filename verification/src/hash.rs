//! Geohash identifiers.
//!
//! The geohash of a point names the cell of the full-span grid that holds
//! the point. Its bits are the binary digits of the cell's column and of its
//! row, taken in turn and starting with the column's most significant digit;
//! five bits at a time select a character of the alphabet.
//!
//! These are the bits of the usual description of a geohash, which halves
//! the globe again and again, longitude first, and sets a bit when the point
//! lies beyond the midpoint: see [`lemma_hash_bits_are_halvings`]. A point on
//! the line between two cells belongs to the cell to its south or west, so
//! the north-east corner of a cell carries that cell's own geohash: see
//! [`lemma_corner_names_its_cell`].

use crate::fixed::{
    ceil_div, div_ceil, lemma_ceil_div_bounds, lemma_ceil_div_unique, LAT_LIMIT, LON_LIMIT,
};
use crate::grid::{
    bit_counts, get_deltas, is_valid_precision, lat_bits, lat_delta, lemma_bits_bounds,
    lemma_delta_bounds, lemma_deltas_exact, lon_bits, lon_delta, valid_precision, LonSpan,
};
use vstd::arithmetic::div_mod::{
    lemma_basic_div, lemma_div_denominator, lemma_fundamental_div_mod_converse,
    lemma_hoist_over_denominator,
};
use vstd::arithmetic::power2::{
    lemma2_to64, lemma_pow2_adds, lemma_pow2_pos, lemma_pow2_strictly_increases,
    lemma_pow2_unfold, pow2,
};
use vstd::bits::lemma_u64_shr_is_div;
use vstd::math::max;
use vstd::prelude::*;

verus! {

/// The geohash alphabet: digits and lower-case letters without a, i, l, o.
pub const BASE32: [char; 32] = [
    '0', '1', '2', '3', '4', '5', '6', '7', '8', '9', 'b', 'c', 'd', 'e', 'f', 'g',
    'h', 'j', 'k', 'm', 'n', 'p', 'q', 'r', 's', 't', 'u', 'v', 'w', 'x', 'y', 'z',
];

/// Why a point has no geohash.
#[derive(Clone, Copy, Debug, PartialEq, Eq)]
pub enum HashError {
    /// The point is not on the globe.
    CoordinateOutOfRange,
    /// The length asked for is zero or more than twelve characters.
    InvalidLength,
}

/// `std::string::String::push` appends one character to the end of the
/// string and leaves what stood there as it was.
pub assume_specification[ String::push ](s: &mut String, c: char)
    ensures
        final(s)@ == old(s)@.push(c),
;

/// The point is on the globe: longitude within 180 degrees, latitude within
/// 90 degrees.
pub open spec fn on_globe(lon: int, lat: int) -> bool {
    -LON_LIMIT <= lon <= LON_LIMIT && -LAT_LIMIT <= lat <= LAT_LIMIT
}

/// Row of the full-span grid at `precision` that holds latitude `lat`,
/// counted from the south pole. A latitude on the line between two rows
/// belongs to the southern one.
pub open spec fn lat_cell(lat: int, precision: nat) -> int {
    max(0, ceil_div(lat + LAT_LIMIT, lat_delta(precision)) - 1)
}

/// Column of the full-span grid at `precision` that holds longitude `lon`,
/// counted from the antimeridian. A longitude on the line between two
/// columns belongs to the western one.
pub open spec fn lon_cell(lon: int, precision: nat) -> int {
    max(0, ceil_div(lon + LON_LIMIT, lon_delta(precision, LonSpan::Full)) - 1)
}

/// Digit `i` of `index` written in binary with `width` digits, the most
/// significant being digit zero.
pub open spec fn index_bit(index: int, width: nat, i: nat) -> int {
    (index / (pow2((width - 1 - i) as nat) as int)) % 2
}

/// Bit `k` of the geohash of the cell in column `col` and row `row`: the even
/// bits spell the column, the odd bits the row.
pub open spec fn hash_bit(col: int, row: int, precision: nat, k: nat) -> int {
    if k % 2 == 0 {
        index_bit(col, lon_bits(precision), k / 2)
    } else {
        index_bit(row, lat_bits(precision), k / 2)
    }
}

/// The number that bits `5 * j` to `5 * j + 4` of the geohash spell.
pub open spec fn group_value(col: int, row: int, precision: nat, j: nat) -> int {
    16 * hash_bit(col, row, precision, 5 * j) + 8 * hash_bit(col, row, precision, 5 * j + 1) + 4
        * hash_bit(col, row, precision, 5 * j + 2) + 2 * hash_bit(col, row, precision, 5 * j + 3)
        + hash_bit(col, row, precision, 5 * j + 4)
}

/// The geohash of the cell in column `col` and row `row` of the full-span
/// grid at `precision`.
pub open spec fn cell_hash(col: int, row: int, precision: nat) -> Seq<char> {
    Seq::new(precision, |j: int| BASE32@[group_value(col, row, precision, j as nat)])
}

/// The geohash of `precision` characters of the point `(lon, lat)`.
pub open spec fn point_hash(lon: int, lat: int, precision: nat) -> Seq<char> {
    cell_hash(lon_cell(lon, precision), lat_cell(lat, precision), precision)
}

/// Bit `i` of halving the stretch from `lo` to `hi` around `x` again and
/// again: a bit is set when `x` lies beyond the midpoint, and the half that
/// holds `x` is the one halved next.
pub open spec fn halving_bit(x: int, lo: int, hi: int, i: nat) -> int
    decreases i,
{
    let mid = (lo + hi) / 2;
    if i == 0 {
        if x > mid {
            1int
        } else {
            0int
        }
    } else if x > mid {
        halving_bit(x, mid, hi, (i - 1) as nat)
    } else {
        halving_bit(x, lo, mid, (i - 1) as nat)
    }
}

/// Halving a stretch of `2^depth` cells of width `width` around `x` spells
/// the binary digits of the cell that holds `x`, counted from `lo`.
proof fn lemma_halving_spells_cell(x: int, lo: int, width: int, depth: nat, i: nat)
    requires
        width > 0,
        i < depth,
        lo <= x <= lo + width * pow2(depth),
    ensures
        halving_bit(x, lo, lo + width * pow2(depth), i) == index_bit(
            max(0, ceil_div(x - lo, width) - 1),
            depth,
            i,
        ),
    decreases i,
{
    let half = pow2((depth - 1) as nat) as int;
    let hi = lo + width * pow2(depth);
    let mid = lo + width * half;
    let above = ceil_div(x - lo, width);
    let cell = max(0, above - 1);
    lemma_pow2_unfold(depth);
    lemma_pow2_pos((depth - 1) as nat);
    lemma_ceil_div_bounds(x - lo, width);
    assert(hi == lo + 2 * (width * half) && mid + width * half == hi) by (nonlinear_arith)
        requires
            hi == lo + width * pow2(depth),
            pow2(depth) == 2 * half,
            mid == lo + width * half,
    ;
    assert((lo + hi) / 2 == mid);
    assert((x > mid) == (cell >= half) && 0 <= cell < 2 * half) by (nonlinear_arith)
        requires
            (above - 1) * width < x - lo <= above * width,
            cell == if above - 1 > 0 {
                above - 1
            } else {
                0
            },
            mid == lo + width * half,
            lo <= x <= lo + 2 * (width * half),
            width > 0,
            half >= 1,
    ;
    if i == 0 {
        if cell >= half {
            lemma_fundamental_div_mod_converse(cell, half, 1, cell - half);
        } else {
            lemma_basic_div(cell, half);
        }
    } else if x > mid {
        lemma_halving_spells_cell(x, mid, width, (depth - 1) as nat, (i - 1) as nat);
        assert((above - half - 1) * width < x - mid <= (above - half) * width)
            by (nonlinear_arith)
            requires
                (above - 1) * width < x - lo <= above * width,
                mid == lo + width * half,
        ;
        lemma_ceil_div_unique(x - mid, width, above - half);
        let low = pow2((depth - 1 - i) as nat);
        let rest = pow2((i - 1) as nat) as int;
        lemma_pow2_adds(i, (depth - 1 - i) as nat);
        lemma_pow2_unfold(i);
        lemma_pow2_pos((depth - 1 - i) as nat);
        lemma_hoist_over_denominator(cell - half, 2 * rest, low);
        assert(cell == (cell - half) + (2 * rest) * low) by (nonlinear_arith)
            requires
                half == (2 * rest) * low,
        ;
    } else {
        lemma_halving_spells_cell(x, lo, width, (depth - 1) as nat, (i - 1) as nat);
    }
}

/// The bits of a geohash are the bits of halving the globe around the point:
/// the even bits halve the longitudes from the antimeridian eastwards, the
/// odd bits the latitudes from the south pole northwards.
pub proof fn lemma_hash_bits_are_halvings(lon: int, lat: int, precision: nat, k: nat)
    requires
        valid_precision(precision as int),
        on_globe(lon, lat),
        k < 5 * precision,
    ensures
        hash_bit(lon_cell(lon, precision), lat_cell(lat, precision), precision, k) == if k % 2
            == 0 {
            halving_bit(lon, -LON_LIMIT, LON_LIMIT as int, k / 2)
        } else {
            halving_bit(lat, -LAT_LIMIT, LAT_LIMIT as int, k / 2)
        },
{
    lemma_deltas_exact(precision, LonSpan::Full);
    lemma_delta_bounds(precision, LonSpan::Full);
    let ld = lat_delta(precision);
    let nd = lon_delta(precision, LonSpan::Full);
    let lb = lat_bits(precision);
    let nb = lon_bits(precision);
    assert(-LAT_LIMIT + ld * pow2(lb) == LAT_LIMIT);
    assert(-LON_LIMIT + nd * pow2(nb) == LON_LIMIT);
    if k % 2 == 0 {
        lemma_halving_spells_cell(lon, -LON_LIMIT, nd, nb, k / 2);
    } else {
        lemma_halving_spells_cell(lat, -LAT_LIMIT, ld, lb, k / 2);
    }
}

/// A point of the globe falls in one of the `2^bits` cells along each axis.
pub proof fn lemma_cell_in_grid(lon: int, lat: int, precision: nat)
    requires
        valid_precision(precision as int),
        on_globe(lon, lat),
    ensures
        0 <= lon_cell(lon, precision) < pow2(lon_bits(precision)) <= 0x4000_0000,
        0 <= lat_cell(lat, precision) < pow2(lat_bits(precision)) <= 0x4000_0000,
{
    let ld = lat_delta(precision);
    let nd = lon_delta(precision, LonSpan::Full);
    let lb = lat_bits(precision);
    let nb = lon_bits(precision);
    lemma_deltas_exact(precision, LonSpan::Full);
    lemma_delta_bounds(precision, LonSpan::Full);
    lemma_bits_bounds(precision);
    lemma2_to64();
    if lb < 30 {
        lemma_pow2_strictly_increases(lb, 30);
    }
    if nb < 30 {
        lemma_pow2_strictly_increases(nb, 30);
    }
    lemma_ceil_div_bounds(lat + LAT_LIMIT, ld);
    lemma_ceil_div_bounds(lon + LON_LIMIT, nd);
    let row = ceil_div(lat + LAT_LIMIT, ld);
    let col = ceil_div(lon + LON_LIMIT, nd);
    assert(row - 1 < pow2(lb)) by (nonlinear_arith)
        requires
            (row - 1) * ld < lat + LAT_LIMIT <= 2 * LAT_LIMIT,
            ld * pow2(lb) == 2 * LAT_LIMIT,
            ld > 0,
    ;
    assert(col - 1 < pow2(nb)) by (nonlinear_arith)
        requires
            (col - 1) * nd < lon + LON_LIMIT <= 2 * LON_LIMIT,
            nd * pow2(nb) == 2 * LON_LIMIT,
            nd > 0,
    ;
}

/// The north-east corner of a cell of the full-span grid carries the cell's
/// own geohash: the corner of the cell with indices `(lat_index, lon_index)`,
/// which count from the equator and the prime meridian, falls in the row and
/// the column of that cell, which count from the south pole and the
/// antimeridian. Along latitude this holds whatever span divides longitude.
pub proof fn lemma_corner_names_its_cell(precision: nat, lat_index: int, lon_index: int)
    requires
        valid_precision(precision as int),
        -pow2((lat_bits(precision) - 1) as nat) <= lat_index < pow2(
            (lat_bits(precision) - 1) as nat,
        ),
        -pow2((lon_bits(precision) - 1) as nat) <= lon_index < pow2(
            (lon_bits(precision) - 1) as nat,
        ),
    ensures
        lat_cell((lat_index + 1) * lat_delta(precision), precision) == lat_index + pow2(
            (lat_bits(precision) - 1) as nat,
        ),
        lon_cell((lon_index + 1) * lon_delta(precision, LonSpan::Full), precision) == lon_index
            + pow2((lon_bits(precision) - 1) as nat),
        on_globe(
            (lon_index + 1) * lon_delta(precision, LonSpan::Full),
            (lat_index + 1) * lat_delta(precision),
        ),
{
    let ld = lat_delta(precision);
    let nd = lon_delta(precision, LonSpan::Full);
    let lb = lat_bits(precision);
    let nb = lon_bits(precision);
    let lh = pow2((lb - 1) as nat) as int;
    let nh = pow2((nb - 1) as nat) as int;
    lemma_deltas_exact(precision, LonSpan::Full);
    lemma_bits_bounds(precision);
    lemma_pow2_unfold(lb);
    lemma_pow2_unfold(nb);
    let row = lat_index + 1 + lh;
    let col = lon_index + 1 + nh;
    assert((lat_index + 1) * ld + LAT_LIMIT == row * ld && (row - 1) * ld < row * ld && -LAT_LIMIT
        <= (lat_index + 1) * ld <= LAT_LIMIT) by (nonlinear_arith)
        requires
            ld * (2 * lh) == 2 * LAT_LIMIT,
            row == lat_index + 1 + lh,
            -lh <= lat_index < lh,
            ld > 0,
    ;
    assert((lon_index + 1) * nd + LON_LIMIT == col * nd && (col - 1) * nd < col * nd && -LON_LIMIT
        <= (lon_index + 1) * nd <= LON_LIMIT) by (nonlinear_arith)
        requires
            nd * (2 * nh) == 2 * LON_LIMIT,
            col == lon_index + 1 + nh,
            -nh <= lon_index < nh,
            nd > 0,
    ;
    lemma_ceil_div_unique(row * ld, ld, row);
    lemma_ceil_div_unique(col * nd, nd, col);
}

/// No character stands twice in the alphabet.
pub proof fn lemma_alphabet_is_distinct(a: int, b: int)
    requires
        0 <= a < 32,
        0 <= b < 32,
        BASE32@[a] == BASE32@[b],
    ensures
        a == b,
{
}

/// Two numbers below `2^width` whose first `n` binary digits agree also
/// agree once the digits that follow are cut off.
proof fn lemma_leading_digits(x: int, y: int, width: nat, n: nat)
    requires
        0 <= x < pow2(width),
        0 <= y < pow2(width),
        n <= width,
        forall|i: nat| i < n ==> index_bit(x, width, i) == index_bit(y, width, i),
    ensures
        x / (pow2((width - n) as nat) as int) == y / (pow2((width - n) as nat) as int),
    decreases n,
{
    if n == 0 {
        lemma_basic_div(x, pow2(width) as int);
        lemma_basic_div(y, pow2(width) as int);
    } else {
        let shift = (width - n) as nat;
        let low = pow2(shift) as int;
        lemma_leading_digits(x, y, width, (n - 1) as nat);
        lemma_pow2_pos(shift);
        lemma_pow2_unfold(shift + 1);
        lemma_div_denominator(x, low, 2);
        lemma_div_denominator(y, low, 2);
        assert(low * 2 == pow2(shift + 1));
        assert(index_bit(x, width, (n - 1) as nat) == (x / low) % 2);
        assert(index_bit(y, width, (n - 1) as nat) == (y / low) % 2);
        assert((x / low) / 2 == (y / low) / 2);
    }
}

/// A number below `2^width` is known by its `width` binary digits.
pub proof fn lemma_digits_determine_index(x: int, y: int, width: nat)
    requires
        0 <= x < pow2(width),
        0 <= y < pow2(width),
        forall|i: nat| i < width ==> index_bit(x, width, i) == index_bit(y, width, i),
    ensures
        x == y,
{
    lemma_leading_digits(x, y, width, width);
    lemma2_to64();
}

/// Five binary digits are known by the number that they spell.
proof fn lemma_five_digits(a: Seq<int>, b: Seq<int>)
    requires
        a.len() == 5,
        b.len() == 5,
        forall|t: int| 0 <= t < 5 ==> 0 <= #[trigger] a[t] <= 1,
        forall|t: int| 0 <= t < 5 ==> 0 <= #[trigger] b[t] <= 1,
        16 * a[0] + 8 * a[1] + 4 * a[2] + 2 * a[3] + a[4] == 16 * b[0] + 8 * b[1] + 4 * b[2] + 2
            * b[3] + b[4],
    ensures
        a == b,
{
    assert(a =~= b);
}

/// Geohashes that agree in character `j` agree in the five bits behind it.
proof fn lemma_group_bits_agree(
    col_a: int,
    row_a: int,
    col_b: int,
    row_b: int,
    precision: nat,
    j: nat,
)
    requires
        j < precision,
        cell_hash(col_a, row_a, precision)[j as int] == cell_hash(col_b, row_b, precision)[j as
            int],
    ensures
        forall|k: nat|
            5 * j <= k < 5 * j + 5 ==> #[trigger] hash_bit(col_a, row_a, precision, k)
                == hash_bit(col_b, row_b, precision, k),
{
    let a = Seq::new(5, |t: int| hash_bit(col_a, row_a, precision, (5 * j + t) as nat));
    let b = Seq::new(5, |t: int| hash_bit(col_b, row_b, precision, (5 * j + t) as nat));
    let value_a = group_value(col_a, row_a, precision, j);
    let value_b = group_value(col_b, row_b, precision, j);
    assert(cell_hash(col_a, row_a, precision)[j as int] == BASE32@[value_a]);
    assert(cell_hash(col_b, row_b, precision)[j as int] == BASE32@[value_b]);
    lemma_group_value_bounds(col_a, row_a, precision, j);
    lemma_group_value_bounds(col_b, row_b, precision, j);
    lemma_alphabet_is_distinct(value_a, value_b);
    assert(value_a == 16 * a[0] + 8 * a[1] + 4 * a[2] + 2 * a[3] + a[4]);
    assert(value_b == 16 * b[0] + 8 * b[1] + 4 * b[2] + 2 * b[3] + b[4]);
    lemma_five_digits(a, b);
    assert forall|k: nat| 5 * j <= k < 5 * j + 5 implies #[trigger] hash_bit(
        col_a,
        row_a,
        precision,
        k,
    ) == hash_bit(col_b, row_b, precision, k) by {
        assert(a[k - 5 * j] == b[k - 5 * j]);
    }
}

/// Equal geohashes agree in every bit.
proof fn lemma_hash_bits_agree(
    col_a: int,
    row_a: int,
    col_b: int,
    row_b: int,
    precision: nat,
    k: nat,
)
    requires
        k < 5 * precision,
        cell_hash(col_a, row_a, precision) == cell_hash(col_b, row_b, precision),
    ensures
        hash_bit(col_a, row_a, precision, k) == hash_bit(col_b, row_b, precision, k),
{
    let j = k / 5;
    assert(5 * j <= k < 5 * j + 5 && j < precision);
    lemma_group_bits_agree(col_a, row_a, col_b, row_b, precision, j);
}

/// Different cells have different geohashes: a geohash of `precision`
/// characters names one column and one row of the full-span grid.
pub proof fn lemma_cell_hash_is_injective(
    col_a: int,
    row_a: int,
    col_b: int,
    row_b: int,
    precision: nat,
)
    requires
        valid_precision(precision as int),
        0 <= col_a < pow2(lon_bits(precision)),
        0 <= col_b < pow2(lon_bits(precision)),
        0 <= row_a < pow2(lat_bits(precision)),
        0 <= row_b < pow2(lat_bits(precision)),
        cell_hash(col_a, row_a, precision) == cell_hash(col_b, row_b, precision),
    ensures
        col_a == col_b,
        row_a == row_b,
{
    let nb = lon_bits(precision);
    let lb = lat_bits(precision);
    assert forall|i: nat| i < nb implies index_bit(col_a, nb, i) == index_bit(col_b, nb, i) by {
        lemma_hash_bits_agree(col_a, row_a, col_b, row_b, precision, 2 * i);
        assert(hash_bit(col_a, row_a, precision, 2 * i) == index_bit(col_a, nb, i));
        assert(hash_bit(col_b, row_b, precision, 2 * i) == index_bit(col_b, nb, i));
    }
    assert forall|i: nat| i < lb implies index_bit(row_a, lb, i) == index_bit(row_b, lb, i) by {
        lemma_hash_bits_agree(col_a, row_a, col_b, row_b, precision, 2 * i + 1);
        assert(hash_bit(col_a, row_a, precision, 2 * i + 1) == index_bit(row_a, lb, i));
        assert(hash_bit(col_b, row_b, precision, 2 * i + 1) == index_bit(row_b, lb, i));
    }
    lemma_digits_determine_index(col_a, col_b, nb);
    lemma_digits_determine_index(row_a, row_b, lb);
}

/// On the full-span grid no two cells share the geohash of their north-east
/// corners: cells of the globe whose corners have equal geohashes are one
/// cell.
pub proof fn lemma_corner_hashes_are_unique(
    precision: nat,
    lat_a: int,
    lon_a: int,
    lat_b: int,
    lon_b: int,
)
    requires
        valid_precision(precision as int),
        -pow2((lat_bits(precision) - 1) as nat) <= lat_a < pow2((lat_bits(precision) - 1) as nat),
        -pow2((lat_bits(precision) - 1) as nat) <= lat_b < pow2((lat_bits(precision) - 1) as nat),
        -pow2((lon_bits(precision) - 1) as nat) <= lon_a < pow2((lon_bits(precision) - 1) as nat),
        -pow2((lon_bits(precision) - 1) as nat) <= lon_b < pow2((lon_bits(precision) - 1) as nat),
        point_hash(
            (lon_a + 1) * lon_delta(precision, LonSpan::Full),
            (lat_a + 1) * lat_delta(precision),
            precision,
        ) == point_hash(
            (lon_b + 1) * lon_delta(precision, LonSpan::Full),
            (lat_b + 1) * lat_delta(precision),
            precision,
        ),
    ensures
        lat_a == lat_b,
        lon_a == lon_b,
{
    let lb = lat_bits(precision);
    let nb = lon_bits(precision);
    lemma_bits_bounds(precision);
    lemma_corner_names_its_cell(precision, lat_a, lon_a);
    lemma_corner_names_its_cell(precision, lat_b, lon_b);
    lemma_pow2_unfold(lb);
    lemma_pow2_unfold(nb);
    let lh = pow2((lb - 1) as nat) as int;
    let nh = pow2((nb - 1) as nat) as int;
    lemma_cell_hash_is_injective(lon_a + nh, lat_a + lh, lon_b + nh, lat_b + lh, precision);
}

/// Every binary digit is zero or one, so five of them spell a number below
/// thirty-two.
pub proof fn lemma_group_value_bounds(col: int, row: int, precision: nat, j: nat)
    ensures
        0 <= group_value(col, row, precision, j) < 32,
{
}

/// Digit `i` of `index` written in binary with `width` digits.
fn bit_of(index: u64, width: u32, i: u32) -> (bit: u8)
    requires
        i < width <= 64,
    ensures
        bit == index_bit(index as int, width as nat, i as nat),
        bit <= 1,
{
    let shift: u32 = width - 1 - i;
    let shifted: u64 = index >> shift;
    proof {
        lemma_u64_shr_is_div(index, shift as u64);
        lemma_pow2_pos(shift as nat);
        assert(shifted & 1 == shifted % 2) by (bit_vector);
    }
    (shifted & 1) as u8
}

/// Bit `k` of the geohash of the cell in column `col` and row `row`.
fn hash_bit_of(col: u64, row: u64, precision: u8, k: u32) -> (bit: u8)
    requires
        valid_precision(precision as int),
        k < 5 * precision,
    ensures
        bit == hash_bit(col as int, row as int, precision as nat, k as nat),
        bit <= 1,
{
    let (lat_width, lon_width) = bit_counts(precision);
    if k % 2 == 0 {
        bit_of(col, lon_width, k / 2)
    } else {
        bit_of(row, lat_width, k / 2)
    }
}

/// The character that bits `5 * j` to `5 * j + 4` of the geohash select.
fn group_char(col: u64, row: u64, precision: u8, j: u32) -> (c: char)
    requires
        valid_precision(precision as int),
        j < precision,
    ensures
        c == BASE32@[group_value(col as int, row as int, precision as nat, j as nat)],
{
    let b0 = hash_bit_of(col, row, precision, 5 * j);
    let b1 = hash_bit_of(col, row, precision, 5 * j + 1);
    let b2 = hash_bit_of(col, row, precision, 5 * j + 2);
    let b3 = hash_bit_of(col, row, precision, 5 * j + 3);
    let b4 = hash_bit_of(col, row, precision, 5 * j + 4);
    let value: u8 = 16 * b0 + 8 * b1 + 4 * b2 + 2 * b3 + b4;
    BASE32[value as usize]
}

/// Index of the grid cell, counted from the low end of the axis, that holds
/// `x`, where the axis runs from `-limit` to `limit` in cells of `delta`.
fn axis_cell(x: i64, limit: i64, delta: i64) -> (cell: u64)
    requires
        -limit <= x <= limit,
        0 < limit <= LON_LIMIT,
        0 < delta,
    ensures
        cell == max(0, ceil_div(x + limit, delta as int) - 1),
{
    proof {
        lemma_ceil_div_bounds(x + limit, delta as int);
        let c = ceil_div(x + limit, delta as int);
        assert(0 <= c <= 2 * LON_LIMIT) by (nonlinear_arith)
            requires
                (c - 1) * delta < x + limit <= c * delta,
                0 <= x + limit <= 2 * LON_LIMIT,
                delta >= 1,
        ;
    }
    let above: i128 = div_ceil((x + limit) as i128, delta as i128);
    if above >= 1 {
        (above - 1) as u64
    } else {
        0
    }
}

/// The geohash of `len` characters of the point at longitude `lon` and
/// latitude `lat`.
pub fn encode(lon: i64, lat: i64, len: usize) -> (hash: Result<String, HashError>)
    ensures
        match hash {
            Ok(s) => on_globe(lon as int, lat as int) && valid_precision(len as int) && s@
                == point_hash(lon as int, lat as int, len as nat) && s@.len() == len,
            Err(HashError::CoordinateOutOfRange) => !on_globe(lon as int, lat as int),
            Err(HashError::InvalidLength) => on_globe(lon as int, lat as int) && !valid_precision(
                len as int,
            ),
        },
{
    if lon < -LON_LIMIT || lon > LON_LIMIT || lat < -LAT_LIMIT || lat > LAT_LIMIT {
        return Err(HashError::CoordinateOutOfRange);
    }
    if !is_valid_precision(len) {
        return Err(HashError::InvalidLength);
    }
    let precision: u8 = len as u8;
    let delta = get_deltas(precision, LonSpan::Full);
    proof {
        lemma_delta_bounds(precision as nat, LonSpan::Full);
    }
    let col = axis_cell(lon, LON_LIMIT, delta.lon);
    let row = axis_cell(lat, LAT_LIMIT, delta.lat);
    let mut out = String::new();
    let mut j: u8 = 0;
    while j < precision
        invariant
            valid_precision(precision as int),
            j <= precision,
            out@ == Seq::new(
                j as nat,
                |t: int| BASE32@[group_value(col as int, row as int, precision as nat, t as nat)],
            ),
        decreases precision - j,
    {
        let c = group_char(col, row, precision, j as u32);
        out.push(c);
        j = j + 1;
    }
    Ok(out)
}

} // verus!
