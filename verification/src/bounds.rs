//! The grid cells that cover a geographic rectangle.
//!
//! Cell `(i, j)` of the grid spans latitudes `i * lat_delta .. (i + 1) *
//! lat_delta` and longitudes `j * lon_delta .. (j + 1) * lon_delta`. The cells
//! that cover a query rectangle are listed row by row, south to north, and
//! west to east within a row.

use crate::fixed::{
    ceil_div, div_ceil, div_floor, floor_div, lemma_ceil_div_bounds, lemma_floor_div_bounds,
    LAT_LIMIT, LON_LIMIT,
};
use crate::grid::{
    get_deltas, lat_delta, lemma_delta_bounds, lon_delta, valid_precision, GridDelta, LonSpan,
};
use vstd::arithmetic::div_mod::{
    lemma_fundamental_div_mod, lemma_fundamental_div_mod_converse, lemma_mod_bound,
};
use vstd::math::{max, min};
use vstd::prelude::*;

verus! {

/// An axis-aligned rectangle of latitudes and longitudes, in units.
#[derive(Clone, Copy, Debug, PartialEq, Eq)]
pub struct GeoRect {
    pub lat_min: i64,
    pub lat_max: i64,
    pub lon_min: i64,
    pub lon_max: i64,
}

/// Overlap area over cell area, as an exact fraction with a positive
/// denominator. Nothing is clamped: the fraction lies between zero and one for
/// a cell listed for a rectangle whose minima are not above its maxima, and
/// may be negative otherwise.
#[derive(Clone, Copy, Debug, PartialEq, Eq)]
pub struct AreaFraction {
    pub num: i128,
    pub den: i128,
}

/// A grid cell and the share of it that the query rectangle covers.
#[derive(Clone, Copy, Debug, PartialEq, Eq)]
pub struct CellBound {
    pub rect: GeoRect,
    pub area: AreaFraction,
}

/// Half-open ranges of cell indices along both axes.
#[derive(Clone, Copy, Debug, PartialEq, Eq)]
pub struct IndexRange {
    pub lat_min: i64,
    pub lat_max: i64,
    pub lon_min: i64,
    pub lon_max: i64,
}

impl GeoRect {
    /// Every corner is a point of the globe: latitudes within 90 degrees of
    /// the equator, longitudes within 180 degrees of the prime meridian.
    pub open spec fn in_range(self) -> bool {
        &&& -LAT_LIMIT <= self.lat_min <= LAT_LIMIT
        &&& -LAT_LIMIT <= self.lat_max <= LAT_LIMIT
        &&& -LON_LIMIT <= self.lon_min <= LON_LIMIT
        &&& -LON_LIMIT <= self.lon_max <= LON_LIMIT
    }

    /// The rectangle has positive height and width.
    pub open spec fn has_area(self) -> bool {
        self.lat_min < self.lat_max && self.lon_min < self.lon_max
    }

    /// `other` lies inside this rectangle.
    pub open spec fn contains(self, other: GeoRect) -> bool {
        &&& self.lat_min <= other.lat_min
        &&& other.lat_max <= self.lat_max
        &&& self.lon_min <= other.lon_min
        &&& other.lon_max <= self.lon_max
    }

    /// The point at latitude `lat` and longitude `lon` lies in the rectangle
    /// or on its edge.
    pub open spec fn holds(self, lat: int, lon: int) -> bool {
        self.lat_min <= lat <= self.lat_max && self.lon_min <= lon <= self.lon_max
    }

    /// Length of the stretch of latitude shared with `other`; negative by
    /// the gap between them when they share none.
    pub open spec fn overlap_lat(self, other: GeoRect) -> int {
        min(self.lat_max as int, other.lat_max as int) - max(
            self.lat_min as int,
            other.lat_min as int,
        )
    }

    /// Length of the stretch of longitude shared with `other`; negative by
    /// the gap between them when they share none.
    pub open spec fn overlap_lon(self, other: GeoRect) -> int {
        min(self.lon_max as int, other.lon_max as int) - max(
            self.lon_min as int,
            other.lon_min as int,
        )
    }

    /// Whether every corner is a point of the globe.
    pub fn is_in_range(&self) -> (ok: bool)
        ensures
            ok == self.in_range(),
    {
        -LAT_LIMIT <= self.lat_min && self.lat_min <= LAT_LIMIT && -LAT_LIMIT <= self.lat_max
            && self.lat_max <= LAT_LIMIT && -LON_LIMIT <= self.lon_min && self.lon_min
            <= LON_LIMIT && -LON_LIMIT <= self.lon_max && self.lon_max <= LON_LIMIT
    }
}

/// Index of the southernmost row of cells that `query` reaches.
pub open spec fn lat_index_min(query: GeoRect, precision: nat) -> int {
    floor_div(query.lat_min as int, lat_delta(precision))
}

/// Index after the northernmost row of cells that `query` reaches.
pub open spec fn lat_index_max(query: GeoRect, precision: nat) -> int {
    ceil_div(query.lat_max as int, lat_delta(precision))
}

/// Index of the westernmost column of cells that `query` reaches.
pub open spec fn lon_index_min(query: GeoRect, precision: nat, span: LonSpan) -> int {
    floor_div(query.lon_min as int, lon_delta(precision, span))
}

/// Index after the easternmost column of cells that `query` reaches.
pub open spec fn lon_index_max(query: GeoRect, precision: nat, span: LonSpan) -> int {
    ceil_div(query.lon_max as int, lon_delta(precision, span))
}

/// Rows of cells that cover `query`.
pub open spec fn row_count(query: GeoRect, precision: nat) -> nat {
    max(0, lat_index_max(query, precision) - lat_index_min(query, precision)) as nat
}

/// Columns of cells that cover `query`.
pub open spec fn col_count(query: GeoRect, precision: nat, span: LonSpan) -> nat {
    max(0, lon_index_max(query, precision, span) - lon_index_min(query, precision, span)) as nat
}

/// The rectangle of cell `(lat_index, lon_index)`.
pub open spec fn cell_rect(precision: nat, span: LonSpan, lat_index: int, lon_index: int)
    -> GeoRect {
    GeoRect {
        lat_min: (lat_index * lat_delta(precision)) as i64,
        lat_max: ((lat_index + 1) * lat_delta(precision)) as i64,
        lon_min: (lon_index * lon_delta(precision, span)) as i64,
        lon_max: ((lon_index + 1) * lon_delta(precision, span)) as i64,
    }
}

/// Area of `cell`, in square units.
pub open spec fn cell_area(cell: GeoRect) -> int {
    (cell.lat_max - cell.lat_min) * (cell.lon_max - cell.lon_min)
}

/// The product of the overlaps of `cell` and `query` along the two axes.
/// Nothing is clamped: it is the area that both cover where they meet, zero
/// where they touch, negative where they lie apart along one axis, and
/// positive again where they lie apart along both.
pub open spec fn overlap_area(cell: GeoRect, query: GeoRect) -> int {
    cell.overlap_lat(query) * cell.overlap_lon(query)
}

/// The share of `cell` that `query` covers: [`overlap_area`] over
/// [`cell_area`].
pub open spec fn area_fraction(cell: GeoRect, query: GeoRect) -> AreaFraction {
    AreaFraction { num: overlap_area(cell, query) as i128, den: cell_area(cell) as i128 }
}

/// Cell `(lat_index, lon_index)` with the share of it that `query` covers.
pub open spec fn grid_cell(
    query: GeoRect,
    precision: nat,
    span: LonSpan,
    lat_index: int,
    lon_index: int,
) -> CellBound {
    let rect = cell_rect(precision, span, lat_index, lon_index);
    CellBound { rect, area: area_fraction(rect, query) }
}

/// The cells that cover `query`, row by row: entry `r * col_count + c` is the
/// cell `r` rows north and `c` columns east of the first.
pub open spec fn grid_cells(query: GeoRect, precision: nat, span: LonSpan) -> Seq<CellBound> {
    let cols = col_count(query, precision, span) as int;
    Seq::new(
        row_count(query, precision) * col_count(query, precision, span),
        |k: int|
            grid_cell(
                query,
                precision,
                span,
                lat_index_min(query, precision) + k / cols,
                lon_index_min(query, precision, span) + k % cols,
            ),
    )
}

/// The index of a coordinate's cell is small, and the cell's ends stay
/// within 45 degrees of the coordinate.
proof fn lemma_axis_index(x: int, limit: int, delta: int)
    requires
        -limit <= x <= limit,
        0 < limit <= LON_LIMIT,
        720 <= delta <= LON_LIMIT / 4,
    ensures
        -0x4000_0000 <= floor_div(x, delta) <= 0x4000_0000,
        -0x4000_0000 <= ceil_div(x, delta) <= 0x4000_0000,
        x - delta < floor_div(x, delta) * delta <= x,
        x <= ceil_div(x, delta) * delta < x + delta,
        floor_div(x, delta) <= ceil_div(x, delta),
{
    lemma_floor_div_bounds(x, delta);
    lemma_ceil_div_bounds(x, delta);
    let f = floor_div(x, delta);
    let c = ceil_div(x, delta);
    assert((f + 1) * delta == f * delta + delta) by (nonlinear_arith);
    assert((c - 1) * delta == c * delta - delta) by (nonlinear_arith);
    assert(-0x4000_0000 <= f <= 0x4000_0000) by (nonlinear_arith)
        requires
            -LON_LIMIT - delta < f * delta <= LON_LIMIT,
            720 <= delta <= LON_LIMIT / 4,
    ;
    assert(-0x4000_0000 <= c <= 0x4000_0000) by (nonlinear_arith)
        requires
            -LON_LIMIT <= c * delta < LON_LIMIT + delta,
            720 <= delta <= LON_LIMIT / 4,
    ;
    assert(f <= c) by (nonlinear_arith)
        requires
            f * delta <= c * delta,
            delta > 0,
    ;
}

/// The ranges of cell indices that cover `query`.
pub fn index_range(query: &GeoRect, precision: u8, span: LonSpan) -> (range: IndexRange)
    requires
        valid_precision(precision as int),
        query.in_range(),
    ensures
        range.lat_min == lat_index_min(*query, precision as nat),
        range.lat_max == lat_index_max(*query, precision as nat),
        range.lon_min == lon_index_min(*query, precision as nat, span),
        range.lon_max == lon_index_max(*query, precision as nat, span),
{
    let delta = get_deltas(precision, span);
    proof {
        lemma_delta_bounds(precision as nat, span);
        lemma_axis_index(query.lat_min as int, LAT_LIMIT as int, delta.lat as int);
        lemma_axis_index(query.lat_max as int, LAT_LIMIT as int, delta.lat as int);
        lemma_axis_index(query.lon_min as int, LON_LIMIT as int, delta.lon as int);
        lemma_axis_index(query.lon_max as int, LON_LIMIT as int, delta.lon as int);
    }
    IndexRange {
        lat_min: div_floor(query.lat_min as i128, delta.lat as i128) as i64,
        lat_max: div_ceil(query.lat_max as i128, delta.lat as i128) as i64,
        lon_min: div_floor(query.lon_min as i128, delta.lon as i128) as i64,
        lon_max: div_ceil(query.lon_max as i128, delta.lon as i128) as i64,
    }
}

/// A cell that the ranges of `query` list keeps its corners within 225
/// degrees of the origin, and its south-west corner below its north-east one.
proof fn lemma_cell_in_range(
    query: GeoRect,
    precision: nat,
    span: LonSpan,
    lat_index: int,
    lon_index: int,
)
    requires
        valid_precision(precision as int),
        query.in_range(),
        lat_index_min(query, precision) <= lat_index < lat_index_max(query, precision),
        lon_index_min(query, precision, span) <= lon_index < lon_index_max(query, precision, span),
    ensures
        -LON_LIMIT - LON_LIMIT / 4 < lat_index * lat_delta(precision),
        (lat_index + 1) * lat_delta(precision) < LON_LIMIT + LON_LIMIT / 4,
        -LON_LIMIT - LON_LIMIT / 4 < lon_index * lon_delta(precision, span),
        (lon_index + 1) * lon_delta(precision, span) < LON_LIMIT + LON_LIMIT / 4,
        (lat_index + 1) * lat_delta(precision) == lat_index * lat_delta(precision) + lat_delta(
            precision,
        ),
        (lon_index + 1) * lon_delta(precision, span) == lon_index * lon_delta(precision, span)
            + lon_delta(precision, span),
        lat_index * lat_delta(precision) < query.lat_max,
        query.lat_min < (lat_index + 1) * lat_delta(precision),
        lon_index * lon_delta(precision, span) < query.lon_max,
        query.lon_min < (lon_index + 1) * lon_delta(precision, span),
{
    let ld = lat_delta(precision);
    let nd = lon_delta(precision, span);
    lemma_delta_bounds(precision, span);
    lemma_axis_index(query.lat_min as int, LAT_LIMIT as int, ld);
    lemma_axis_index(query.lat_max as int, LAT_LIMIT as int, ld);
    lemma_axis_index(query.lon_min as int, LON_LIMIT as int, nd);
    lemma_axis_index(query.lon_max as int, LON_LIMIT as int, nd);
    let lat_lo = lat_index_min(query, precision);
    let lat_hi = lat_index_max(query, precision);
    let lon_lo = lon_index_min(query, precision, span);
    let lon_hi = lon_index_max(query, precision, span);
    assert(lat_lo * ld <= lat_index * ld && (lat_index + 1) * ld <= lat_hi * ld && (lat_index
        + 1) * ld == lat_index * ld + ld) by (nonlinear_arith)
        requires
            lat_lo <= lat_index < lat_hi,
            ld > 0,
    ;
    assert(lon_lo * nd <= lon_index * nd && (lon_index + 1) * nd <= lon_hi * nd && (lon_index
        + 1) * nd == lon_index * nd + nd) by (nonlinear_arith)
        requires
            lon_lo <= lon_index < lon_hi,
            nd > 0,
    ;
}

/// The cells are as many as the rows times the columns, and for a query whose
/// minima are not above its maxima the rows and the columns are the lengths
/// of the index ranges.
pub proof fn lemma_cell_count(query: GeoRect, precision: nat, span: LonSpan)
    requires
        valid_precision(precision as int),
        query.in_range(),
        query.lat_min <= query.lat_max,
        query.lon_min <= query.lon_max,
    ensures
        row_count(query, precision) == lat_index_max(query, precision) - lat_index_min(
            query,
            precision,
        ),
        col_count(query, precision, span) == lon_index_max(query, precision, span)
            - lon_index_min(query, precision, span),
        grid_cells(query, precision, span).len() == (lat_index_max(query, precision)
            - lat_index_min(query, precision)) * (lon_index_max(query, precision, span)
            - lon_index_min(query, precision, span)),
{
    let ld = lat_delta(precision);
    let nd = lon_delta(precision, span);
    lemma_delta_bounds(precision, span);
    lemma_floor_div_bounds(query.lat_min as int, ld);
    lemma_ceil_div_bounds(query.lat_max as int, ld);
    lemma_floor_div_bounds(query.lon_min as int, nd);
    lemma_ceil_div_bounds(query.lon_max as int, nd);
    let lat_lo = lat_index_min(query, precision);
    let lat_hi = lat_index_max(query, precision);
    let lon_lo = lon_index_min(query, precision, span);
    let lon_hi = lon_index_max(query, precision, span);
    assert(lat_lo <= lat_hi) by (nonlinear_arith)
        requires
            lat_lo * ld <= lat_hi * ld,
            ld > 0,
    ;
    assert(lon_lo <= lon_hi) by (nonlinear_arith)
        requires
            lon_lo * nd <= lon_hi * nd,
            nd > 0,
    ;
}

/// The cells come row by row: the cell `row` rows north and `col` columns
/// east of the first stands at `row * col_count + col`.
pub proof fn lemma_row_major(query: GeoRect, precision: nat, span: LonSpan, row: int, col: int)
    requires
        0 <= row < row_count(query, precision),
        0 <= col < col_count(query, precision, span),
    ensures
        0 <= row * col_count(query, precision, span) + col < grid_cells(
            query,
            precision,
            span,
        ).len(),
        grid_cells(query, precision, span)[row * col_count(query, precision, span) + col]
            == grid_cell(
            query,
            precision,
            span,
            lat_index_min(query, precision) + row,
            lon_index_min(query, precision, span) + col,
        ),
{
    let rows = row_count(query, precision) as int;
    let cols = col_count(query, precision, span) as int;
    let k = row * cols + col;
    assert(0 <= k < rows * cols && k == cols * row + col) by (nonlinear_arith)
        requires
            k == row * cols + col,
            0 <= row < rows,
            0 <= col < cols,
    ;
    lemma_fundamental_div_mod_converse(k, cols, row, col);
}

/// The `k`-th listed cell has indices inside the ranges of the query.
proof fn lemma_cell_indices(query: GeoRect, precision: nat, span: LonSpan, k: int)
    requires
        0 <= k < grid_cells(query, precision, span).len(),
    ensures
        ({
            let cols = col_count(query, precision, span) as int;
            &&& cols > 0
            &&& lat_index_min(query, precision) <= lat_index_min(query, precision) + k / cols
                < lat_index_max(query, precision)
            &&& lon_index_min(query, precision, span) <= lon_index_min(query, precision, span) + k
                % cols < lon_index_max(query, precision, span)
        }),
{
    let rows = row_count(query, precision) as int;
    let cols = col_count(query, precision, span) as int;
    assert(cols > 0 && rows > 0) by (nonlinear_arith)
        requires
            0 <= k < rows * cols,
            rows >= 0,
            cols >= 0,
    ;
    lemma_fundamental_div_mod(k, cols);
    lemma_mod_bound(k, cols);
    let row = k / cols;
    let col = k % cols;
    assert(0 <= row < rows) by (nonlinear_arith)
        requires
            k == cols * row + col,
            0 <= col < cols,
            0 <= k < rows * cols,
    ;
}

/// Every listed cell is one cell of the grid, whatever the query: its height
/// is `lat_delta`, its width `lon_delta`, its area their product, and its
/// corners are whole multiples of the two. The fraction it carries is the
/// exact overlap area over the exact cell area.
pub proof fn lemma_cell_size(query: GeoRect, precision: nat, span: LonSpan, k: int)
    requires
        valid_precision(precision as int),
        query.in_range(),
        0 <= k < grid_cells(query, precision, span).len(),
    ensures
        ({
            let cell = grid_cells(query, precision, span)[k];
            let cols = col_count(query, precision, span) as int;
            &&& cell.rect.lat_max - cell.rect.lat_min == lat_delta(precision)
            &&& cell.rect.lon_max - cell.rect.lon_min == lon_delta(precision, span)
            &&& cell.rect.lat_min == (lat_index_min(query, precision) + k / cols) * lat_delta(
                precision,
            )
            &&& cell.rect.lon_min == (lon_index_min(query, precision, span) + k % cols)
                * lon_delta(precision, span)
            &&& cell.area.den == lat_delta(precision) * lon_delta(precision, span)
            &&& cell.area.den == cell_area(cell.rect)
            &&& cell.area.num == overlap_area(cell.rect, query)
            &&& cell.area.den > 0
        }),
{
    let cols = col_count(query, precision, span) as int;
    let ld = lat_delta(precision);
    let nd = lon_delta(precision, span);
    lemma_cell_indices(query, precision, span, k);
    let lat_index = lat_index_min(query, precision) + k / cols;
    let lon_index = lon_index_min(query, precision, span) + k % cols;
    lemma_delta_bounds(precision, span);
    lemma_cell_in_range(query, precision, span, lat_index, lon_index);
    let rect = cell_rect(precision, span, lat_index, lon_index);
    assert(-0x4000_0000_0000_0000_0000 <= rect.overlap_lat(query) * rect.overlap_lon(query)
        <= 0x4000_0000_0000_0000_0000 && 0 < ld * nd <= 0x4000_0000_0000_0000_0000)
        by (nonlinear_arith)
        requires
            -ld < rect.overlap_lat(query) <= ld,
            -nd < rect.overlap_lon(query) <= nd,
            0 < ld <= 0x40_0000_0000,
            0 < nd <= 0x40_0000_0000,
    ;
}

/// Along one axis, a coordinate between `lo` and `hi` lies in a cell whose
/// index is within the range that covers `lo` to `hi`.
proof fn lemma_axis_cover(x: int, lo: int, hi: int, delta: int) -> (index: int)
    requires
        delta > 0,
        lo < hi,
        lo <= x <= hi,
    ensures
        floor_div(lo, delta) <= index < ceil_div(hi, delta),
        index * delta <= x <= (index + 1) * delta,
{
    let first = floor_div(lo, delta);
    let end = ceil_div(hi, delta);
    let at = floor_div(x, delta);
    lemma_floor_div_bounds(lo, delta);
    lemma_floor_div_bounds(x, delta);
    lemma_ceil_div_bounds(hi, delta);
    assert(first <= at && first < end) by (nonlinear_arith)
        requires
            first * delta <= lo < (first + 1) * delta,
            at * delta <= x < (at + 1) * delta,
            (end - 1) * delta < hi <= end * delta,
            lo <= x,
            lo < hi,
            delta > 0,
    ;
    if at < end {
        at
    } else {
        assert(end * delta <= at * delta && (end - 1 + 1) * delta == end * delta
            && (end - 1) * delta < end * delta) by (nonlinear_arith)
            requires
                end <= at,
                delta > 0,
        ;
        end - 1
    }
}

/// The listed cells cover the query: every point of a query that has area
/// lies in a listed cell or on its edge.
pub proof fn lemma_cells_cover_query(
    query: GeoRect,
    precision: nat,
    span: LonSpan,
    lat: int,
    lon: int,
)
    requires
        valid_precision(precision as int),
        query.in_range(),
        query.has_area(),
        query.holds(lat, lon),
    ensures
        exists|k: int|
            0 <= k < grid_cells(query, precision, span).len() && (#[trigger] grid_cells(
                query,
                precision,
                span,
            )[k]).rect.holds(lat, lon),
{
    let ld = lat_delta(precision);
    let nd = lon_delta(precision, span);
    lemma_delta_bounds(precision, span);
    let lat_index = lemma_axis_cover(lat, query.lat_min as int, query.lat_max as int, ld);
    let lon_index = lemma_axis_cover(lon, query.lon_min as int, query.lon_max as int, nd);
    let row = lat_index - lat_index_min(query, precision);
    let col = lon_index - lon_index_min(query, precision, span);
    let k = row * col_count(query, precision, span) + col;
    lemma_row_major(query, precision, span, row, col);
    lemma_cell_in_range(query, precision, span, lat_index, lon_index);
    assert(grid_cells(query, precision, span)[k].rect.holds(lat, lon));
}

/// A cell that lies inside the query is covered whole: the overlap area is
/// the cell area, and the fraction is one.
pub proof fn lemma_contained_cell_is_whole(cell: GeoRect, query: GeoRect)
    requires
        query.contains(cell),
        cell.lat_min <= cell.lat_max,
        cell.lon_min <= cell.lon_max,
    ensures
        overlap_area(cell, query) == cell_area(cell),
{
}

/// A listed cell that lies inside the query carries the fraction one:
/// numerator and denominator are equal.
pub proof fn lemma_listed_cell_inside_is_whole(
    query: GeoRect,
    precision: nat,
    span: LonSpan,
    k: int,
)
    requires
        valid_precision(precision as int),
        query.in_range(),
        0 <= k < grid_cells(query, precision, span).len(),
        query.contains(grid_cells(query, precision, span)[k].rect),
    ensures
        grid_cells(query, precision, span)[k].area.num == grid_cells(
            query,
            precision,
            span,
        )[k].area.den,
{
    lemma_cell_size(query, precision, span, k);
    lemma_delta_bounds(precision, span);
    lemma_contained_cell_is_whole(grid_cells(query, precision, span)[k].rect, query);
}

/// A cell that lies apart from the query along one axis, and not along the
/// other, has an overlap area of zero or less: the fraction is not clamped.
pub proof fn lemma_apart_cell_is_not_positive(cell: GeoRect, query: GeoRect)
    requires
        cell.overlap_lat(query) <= 0 || cell.overlap_lon(query) <= 0,
        cell.overlap_lat(query) >= 0 || cell.overlap_lon(query) >= 0,
    ensures
        overlap_area(cell, query) <= 0,
{
    let a = cell.overlap_lat(query);
    let b = cell.overlap_lon(query);
    assert(a * b <= 0) by (nonlinear_arith)
        requires
            a <= 0 || b <= 0,
            a >= 0 || b >= 0,
    ;
}

/// For a query whose minima are not above its maxima, every listed cell
/// overlaps it along both axes, by no more than the cell's own size: the
/// fraction lies between zero and one. Where the query has area, no cell is
/// listed in vain: the fraction is above zero.
pub proof fn lemma_fraction_in_unit_range(query: GeoRect, precision: nat, span: LonSpan, k: int)
    requires
        valid_precision(precision as int),
        query.in_range(),
        query.lat_min <= query.lat_max,
        query.lon_min <= query.lon_max,
        0 <= k < grid_cells(query, precision, span).len(),
    ensures
        0 <= grid_cells(query, precision, span)[k].area.num <= grid_cells(
            query,
            precision,
            span,
        )[k].area.den,
        query.has_area() ==> 0 < grid_cells(query, precision, span)[k].area.num,
{
    lemma_cell_size(query, precision, span, k);
    lemma_cell_indices(query, precision, span, k);
    let cols = col_count(query, precision, span) as int;
    lemma_cell_in_range(
        query,
        precision,
        span,
        lat_index_min(query, precision) + k / cols,
        lon_index_min(query, precision, span) + k % cols,
    );
    let cell = grid_cells(query, precision, span)[k];
    let a = cell.rect.overlap_lat(query);
    let b = cell.rect.overlap_lon(query);
    let ld = lat_delta(precision);
    let nd = lon_delta(precision, span);
    lemma_delta_bounds(precision, span);
    assert(0 <= a * b <= ld * nd && (a > 0 && b > 0 ==> a * b > 0)) by (nonlinear_arith)
        requires
            0 <= a <= ld,
            0 <= b <= nd,
    ;
}

/// Listing is a function of its inputs: two listings of one query at one
/// precision over one span agree entry by entry, in the same order.
pub proof fn lemma_listing_is_determined(
    query: GeoRect,
    precision: nat,
    span: LonSpan,
    first: Seq<CellBound>,
    second: Seq<CellBound>,
)
    requires
        first == grid_cells(query, precision, span),
        second == grid_cells(query, precision, span),
    ensures
        first == second,
        first.len() == second.len(),
        forall|k: int| 0 <= k < first.len() ==> first[k] == second[k],
{
}

/// The smaller of two coordinates.
fn lesser(a: i64, b: i64) -> (m: i64)
    ensures
        m == min(a as int, b as int),
{
    if a <= b {
        a
    } else {
        b
    }
}

/// The larger of two coordinates.
fn greater(a: i64, b: i64) -> (m: i64)
    ensures
        m == max(a as int, b as int),
{
    if a >= b {
        a
    } else {
        b
    }
}

/// Builds cell `(lat_index, lon_index)` of the cells that cover `query`.
fn cell_at(
    query: &GeoRect,
    delta: GridDelta,
    lat_index: i64,
    lon_index: i64,
    Ghost(precision): Ghost<nat>,
    Ghost(span): Ghost<LonSpan>,
) -> (cell: CellBound)
    requires
        valid_precision(precision as int),
        query.in_range(),
        delta.lat == lat_delta(precision),
        delta.lon == lon_delta(precision, span),
        lat_index_min(*query, precision) <= lat_index < lat_index_max(*query, precision),
        lon_index_min(*query, precision, span) <= lon_index < lon_index_max(
            *query,
            precision,
            span,
        ),
    ensures
        cell == grid_cell(*query, precision, span, lat_index as int, lon_index as int),
{
    proof {
        lemma_delta_bounds(precision, span);
        lemma_cell_in_range(*query, precision, span, lat_index as int, lon_index as int);
    }
    let lat_min: i64 = lat_index * delta.lat;
    let lat_max: i64 = lat_min + delta.lat;
    let lon_min: i64 = lon_index * delta.lon;
    let lon_max: i64 = lon_min + delta.lon;
    let rect = GeoRect { lat_min, lat_max, lon_min, lon_max };
    let overlap_lat: i64 = lesser(lat_max, query.lat_max) - greater(lat_min, query.lat_min);
    let overlap_lon: i64 = lesser(lon_max, query.lon_max) - greater(lon_min, query.lon_min);
    proof {
        assert(rect == cell_rect(precision, span, lat_index as int, lon_index as int));
        assert(-0x4000_0000_0000_0000_0000 <= overlap_lat * overlap_lon
            <= 0x4000_0000_0000_0000_0000 && 0 < delta.lat * delta.lon
            <= 0x4000_0000_0000_0000_0000) by (nonlinear_arith)
            requires
                -delta.lat < overlap_lat <= delta.lat,
                -delta.lon < overlap_lon <= delta.lon,
                0 < delta.lat <= 0x40_0000_0000,
                0 < delta.lon <= 0x40_0000_0000,
        ;
    }
    let num: i128 = (overlap_lat as i128) * (overlap_lon as i128);
    let den: i128 = (delta.lat as i128) * (delta.lon as i128);
    CellBound { rect, area: AreaFraction { num, den } }
}

/// Lists the grid cells at `precision` that cover `query`, each with the
/// share of it that `query` covers, row by row from the south-west corner.
pub fn get_bounds(query: &GeoRect, precision: u8, span: LonSpan) -> (cells: Vec<CellBound>)
    requires
        valid_precision(precision as int),
        query.in_range(),
    ensures
        cells@ == grid_cells(*query, precision as nat, span),
        cells@.len() == row_count(*query, precision as nat) * col_count(
            *query,
            precision as nat,
            span,
        ),
{
    let delta = get_deltas(precision, span);
    let range = index_range(query, precision, span);
    let ghost p = precision as nat;
    let ghost rows = row_count(*query, p) as int;
    let ghost cols = col_count(*query, p, span) as int;
    let mut cells: Vec<CellBound> = Vec::new();
    let mut lat_index: i64 = range.lat_min;
    while lat_index < range.lat_max
        invariant
            valid_precision(precision as int),
            query.in_range(),
            p == precision as nat,
            rows == row_count(*query, p),
            cols == col_count(*query, p, span),
            delta.lat == lat_delta(p),
            delta.lon == lon_delta(p, span),
            range.lat_min == lat_index_min(*query, p),
            range.lat_max == lat_index_max(*query, p),
            range.lon_min == lon_index_min(*query, p, span),
            range.lon_max == lon_index_max(*query, p, span),
            lat_index == range.lat_min || range.lat_min <= lat_index <= range.lat_max,
            cells@.len() == (lat_index - range.lat_min) * cols,
            forall|k: int|
                0 <= k < cells@.len() ==> cells@[k] == grid_cell(
                    *query,
                    p,
                    span,
                    range.lat_min + k / cols,
                    range.lon_min + k % cols,
                ),
        decreases range.lat_max - lat_index,
    {
        let mut lon_index: i64 = range.lon_min;
        while lon_index < range.lon_max
            invariant
                valid_precision(precision as int),
                query.in_range(),
                p == precision as nat,
                cols == col_count(*query, p, span),
                delta.lat == lat_delta(p),
                delta.lon == lon_delta(p, span),
                range.lat_min == lat_index_min(*query, p),
                range.lat_max == lat_index_max(*query, p),
                range.lon_min == lon_index_min(*query, p, span),
                range.lon_max == lon_index_max(*query, p, span),
                range.lat_min <= lat_index < range.lat_max,
                lon_index == range.lon_min || range.lon_min <= lon_index <= range.lon_max,
                cells@.len() == (lat_index - range.lat_min) * cols + (lon_index - range.lon_min),
                forall|k: int|
                    0 <= k < cells@.len() ==> cells@[k] == grid_cell(
                        *query,
                        p,
                        span,
                        range.lat_min + k / cols,
                        range.lon_min + k % cols,
                    ),
            decreases range.lon_max - lon_index,
        {
            let cell = cell_at(query, delta, lat_index, lon_index, Ghost(p), Ghost(span));
            proof {
                let k = cells@.len() as int;
                let row = lat_index - range.lat_min;
                let col = lon_index - range.lon_min;
                assert(cols == range.lon_max - range.lon_min);
                assert(k == cols * row + col) by (nonlinear_arith)
                    requires
                        k == row * cols + col,
                ;
                lemma_fundamental_div_mod_converse(k, cols, row, col);
            }
            cells.push(cell);
            lon_index = lon_index + 1;
        }
        proof {
            let row = lat_index - range.lat_min;
            assert((row + 1) * cols == row * cols + cols) by (nonlinear_arith);
        }
        lat_index = lat_index + 1;
    }
    proof {
        assert(cells@.len() == rows * cols) by (nonlinear_arith)
            requires
                cells@.len() == (lat_index - range.lat_min) * cols,
                rows >= 0,
                rows == 0 ==> lat_index == range.lat_min,
                rows > 0 ==> lat_index - range.lat_min == rows,
        ;
        assert(cells@ =~= grid_cells(*query, p, span));
    }
    cells
}

/// `m` is the smallest value of `values`.
pub open spec fn least_of(values: Seq<i64>, m: i64) -> bool {
    values.contains(m) && forall|i: int| 0 <= i < values.len() ==> m <= values[i]
}

/// `m` is the largest value of `values`.
pub open spec fn greatest_of(values: Seq<i64>, m: i64) -> bool {
    values.contains(m) && forall|i: int| 0 <= i < values.len() ==> values[i] <= m
}

/// The smallest value of `values`.
fn least(values: &Vec<i64>) -> (m: i64)
    requires
        values.len() > 0,
    ensures
        least_of(values@, m),
{
    let mut m: i64 = values[0];
    let mut k: usize = 1;
    proof {
        assert(values@.take(1)[0] == m);
    }
    while k < values.len()
        invariant
            1 <= k <= values.len(),
            least_of(values@.take(k as int), m),
        decreases values.len() - k,
    {
        let ghost seen = values@.take(k as int);
        if values[k] < m {
            m = values[k];
        }
        k = k + 1;
        proof {
            let next = values@.take(k as int);
            assert(next[k - 1] == values@[k - 1]);
            assert(next.drop_last() =~= seen);
        }
    }
    proof {
        assert(values@.take(k as int) =~= values@);
    }
    m
}

/// The largest value of `values`.
fn greatest(values: &Vec<i64>) -> (m: i64)
    requires
        values.len() > 0,
    ensures
        greatest_of(values@, m),
{
    let mut m: i64 = values[0];
    let mut k: usize = 1;
    proof {
        assert(values@.take(1)[0] == m);
    }
    while k < values.len()
        invariant
            1 <= k <= values.len(),
            greatest_of(values@.take(k as int), m),
        decreases values.len() - k,
    {
        let ghost seen = values@.take(k as int);
        if values[k] > m {
            m = values[k];
        }
        k = k + 1;
        proof {
            let next = values@.take(k as int);
            assert(next[k - 1] == values@[k - 1]);
            assert(next.drop_last() =~= seen);
        }
    }
    proof {
        assert(values@.take(k as int) =~= values@);
    }
    m
}

/// The smallest rectangle that holds every given longitude and latitude:
/// the extent of a raster whose corners lie at those coordinates. There is
/// none when either list is empty.
pub fn bounding_rect(lons: &Vec<i64>, lats: &Vec<i64>) -> (rect: Option<GeoRect>)
    ensures
        match rect {
            Some(r) => {
                &&& least_of(lats@, r.lat_min)
                &&& greatest_of(lats@, r.lat_max)
                &&& least_of(lons@, r.lon_min)
                &&& greatest_of(lons@, r.lon_max)
            },
            None => lons@.len() == 0 || lats@.len() == 0,
        },
{
    if lons.len() == 0 || lats.len() == 0 {
        return None;
    }
    Some(
        GeoRect {
            lat_min: least(lats),
            lat_max: greatest(lats),
            lon_min: least(lons),
            lon_max: greatest(lons),
        },
    )
}

} // verus!
