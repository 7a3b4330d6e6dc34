//! Pixel windows of the grid cells that cover a raster.
//!
//! The raster's geographic extent is mapped onto its pixels linearly, the
//! south-west corner to pixel `(0, 0)`. The window of a cell holds the pixels
//! that lie wholly inside the cell, and no others: see
//! [`lemma_window_is_the_pixels_inside`]. Cells without a whole pixel yield no
//! tile, and the windows of two cells never share a pixel: see
//! [`lemma_windows_do_not_overlap`].

use crate::bounds::{get_bounds, grid_cells, CellBound, GeoRect};
use crate::fixed::{
    ceil_div, div_ceil, div_floor, floor_div, lemma_ceil_div_is_least, lemma_floor_div_is_greatest,
    lemma_floor_le_ceil,
};
use crate::grid::{is_valid_precision, valid_precision, LonSpan};
use crate::hash::{encode, on_globe, point_hash};
use vstd::math::{max, min};
use vstd::prelude::*;

verus! {

/// Width and height of a raster in pixels, and the number of its bands.
#[derive(Clone, Copy, Debug, PartialEq, Eq)]
pub struct RasterShape {
    pub width: u32,
    pub height: u32,
    pub bands: u32,
}

/// A rectangle of pixels of the source raster.
#[derive(Clone, Copy, Debug, PartialEq, Eq)]
pub struct PixelWindow {
    pub x_offset: u32,
    pub y_offset: u32,
    pub width: u32,
    pub height: u32,
}

/// One output tile: the geohash that names it, the pixels to copy into it,
/// and the number of bands to copy.
#[derive(Debug, PartialEq, Eq)]
pub struct Tile {
    pub id: String,
    pub window: PixelWindow,
    pub bands: u32,
}

/// What a [`Tile`] holds, with the identifier as a sequence of characters.
pub struct TileView {
    pub id: Seq<char>,
    pub window: PixelWindow,
    pub bands: u32,
}

/// Why a raster could not be split into tiles.
#[derive(Clone, Copy, Debug, PartialEq, Eq)]
pub enum SplitError {
    /// The precision is zero or more than twelve characters.
    InvalidPrecision,
    /// A corner of the extent is not on the globe.
    ExtentOutOfRange,
    /// The extent has no height or no width.
    EmptyExtent,
    /// A tile's cell reaches beyond the globe, so its corner has no geohash.
    CornerOutOfRange,
}

impl View for Tile {
    type V = TileView;

    open spec fn view(&self) -> TileView {
        TileView { id: self.id@, window: self.window, bands: self.bands }
    }
}

impl Clone for Tile {
    fn clone(&self) -> (copy: Tile)
        ensures
            copy@ == self@,
    {
        Tile { id: self.id.clone(), window: self.window, bands: self.bands }
    }
}

impl PixelWindow {
    /// The window holds at least one pixel and none outside the raster.
    pub open spec fn inside(self, raster: RasterShape) -> bool {
        &&& self.width > 0
        &&& self.height > 0
        &&& self.x_offset + self.width <= raster.width
        &&& self.y_offset + self.height <= raster.height
    }
}

/// First pixel along one axis that lies wholly at or beyond `cell_min`, or
/// pixel zero if the cell starts before the raster. The axis has `size`
/// pixels from `extent_min` to `extent_max`.
pub open spec fn pixel_start(cell_min: int, extent_min: int, extent_max: int, size: int) -> int {
    max(ceil_div((cell_min - extent_min) * size, extent_max - extent_min), 0)
}

/// Pixel after the last one along one axis that lies wholly at or before
/// `cell_max`, or `size` if the cell ends beyond the raster.
pub open spec fn pixel_end(cell_max: int, extent_min: int, extent_max: int, size: int) -> int {
    min(floor_div((cell_max - extent_min) * size, extent_max - extent_min), size)
}

/// The pixels of a raster of shape `raster` over `extent` that lie wholly
/// inside `cell`, if there are any.
pub open spec fn window_of(cell: GeoRect, extent: GeoRect, raster: RasterShape) -> Option<
    PixelWindow,
> {
    let x_start = pixel_start(
        cell.lon_min as int,
        extent.lon_min as int,
        extent.lon_max as int,
        raster.width as int,
    );
    let x_end = pixel_end(
        cell.lon_max as int,
        extent.lon_min as int,
        extent.lon_max as int,
        raster.width as int,
    );
    let y_start = pixel_start(
        cell.lat_min as int,
        extent.lat_min as int,
        extent.lat_max as int,
        raster.height as int,
    );
    let y_end = pixel_end(
        cell.lat_max as int,
        extent.lat_min as int,
        extent.lat_max as int,
        raster.height as int,
    );
    if x_start < x_end && y_start < y_end {
        Some(
            PixelWindow {
                x_offset: x_start as u32,
                y_offset: y_start as u32,
                width: (x_end - x_start) as u32,
                height: (y_end - y_start) as u32,
            },
        )
    } else {
        None
    }
}

/// The tile of `cell`, if the cell holds a whole pixel: named by the geohash
/// of the cell's north-east corner, with the cell's window and the raster's
/// bands.
pub open spec fn tile_of(cell: CellBound, extent: GeoRect, raster: RasterShape, precision: nat)
    -> Option<TileView> {
    match window_of(cell.rect, extent, raster) {
        Some(window) => Some(
            TileView {
                id: point_hash(cell.rect.lon_max as int, cell.rect.lat_max as int, precision),
                window,
                bands: raster.bands,
            },
        ),
        None => None,
    }
}

/// The tiles of `cells`, in the order of the cells, without the cells that
/// hold no whole pixel.
pub open spec fn tiles_of(
    cells: Seq<CellBound>,
    extent: GeoRect,
    raster: RasterShape,
    precision: nat,
) -> Seq<TileView> {
    cells.filter_map(|cell: CellBound| tile_of(cell, extent, raster, precision))
}

/// Some cell of `cells` holds a whole pixel and has its north-east corner
/// off the globe.
pub open spec fn corner_off_globe(cells: Seq<CellBound>, extent: GeoRect, raster: RasterShape)
    -> bool {
    exists|k: int|
        0 <= k < cells.len() && (#[trigger] window_of(cells[k].rect, extent, raster)) is Some
            && !on_globe(cells[k].rect.lon_max as int, cells[k].rect.lat_max as int)
}

/// The views of a sequence of tiles.
pub open spec fn tile_views(tiles: Seq<Tile>) -> Seq<TileView> {
    tiles.map_values(|tile: Tile| tile@)
}

/// Pixel `index` of an axis of `size` pixels from `extent_min` to
/// `extent_max` lies wholly between `cell_min` and `cell_max`. The pixel
/// spans `index / size` to `(index + 1) / size` of the extent; both sides are
/// multiplied through by `size`, so that nothing is divided.
pub open spec fn pixel_in_cell(
    index: int,
    cell_min: int,
    cell_max: int,
    extent_min: int,
    extent_max: int,
    size: int,
) -> bool {
    &&& (cell_min - extent_min) * size <= index * (extent_max - extent_min)
    &&& (index + 1) * (extent_max - extent_min) <= (cell_max - extent_min) * size
}

/// The pixel in column `x` and row `y` is one of `window`.
pub open spec fn window_holds(window: Option<PixelWindow>, x: int, y: int) -> bool {
    match window {
        Some(w) => w.x_offset <= x < w.x_offset + w.width && w.y_offset <= y < w.y_offset
            + w.height,
        None => false,
    }
}

/// A window is never empty and never leaves the raster.
pub proof fn lemma_window_inside_raster(cell: GeoRect, extent: GeoRect, raster: RasterShape)
    ensures
        window_of(cell, extent, raster) matches Some(window) ==> window.inside(raster),
{
}

/// No tile reaches outside the raster, and none is empty: whatever the cells,
/// the extent and the precision, every window of [`tiles_of`] lies within
/// the raster's width and height.
pub proof fn lemma_tiles_inside_raster(
    cells: Seq<CellBound>,
    extent: GeoRect,
    raster: RasterShape,
    precision: nat,
    i: int,
)
    requires
        0 <= i < tiles_of(cells, extent, raster, precision).len(),
    ensures
        tiles_of(cells, extent, raster, precision)[i].window.inside(raster),
    decreases cells.len(),
{
    let tile = |cell: CellBound| tile_of(cell, extent, raster, precision);
    if cells.len() > 0 {
        let front = cells.drop_last().filter_map(tile);
        if i < front.len() {
            lemma_tiles_inside_raster(cells.drop_last(), extent, raster, precision, i);
        } else {
            lemma_window_inside_raster(cells.last().rect, extent, raster);
        }
    }
}

/// The window of a cell holds exactly the pixels of the raster that lie
/// wholly inside the cell: none that reaches beyond it, and none left out.
pub proof fn lemma_window_is_the_pixels_inside(
    cell: GeoRect,
    extent: GeoRect,
    raster: RasterShape,
    x: int,
    y: int,
)
    requires
        extent.has_area(),
        0 <= x < raster.width,
        0 <= y < raster.height,
    ensures
        window_holds(window_of(cell, extent, raster), x, y) <==> pixel_in_cell(
            x,
            cell.lon_min as int,
            cell.lon_max as int,
            extent.lon_min as int,
            extent.lon_max as int,
            raster.width as int,
        ) && pixel_in_cell(
            y,
            cell.lat_min as int,
            cell.lat_max as int,
            extent.lat_min as int,
            extent.lat_max as int,
            raster.height as int,
        ),
{
    let lon_range = extent.lon_max - extent.lon_min;
    let lat_range = extent.lat_max - extent.lat_min;
    lemma_ceil_div_is_least((cell.lon_min - extent.lon_min) * raster.width, lon_range, x);
    lemma_floor_div_is_greatest((cell.lon_max - extent.lon_min) * raster.width, lon_range, x + 1);
    lemma_ceil_div_is_least((cell.lat_min - extent.lat_min) * raster.height, lat_range, y);
    lemma_floor_div_is_greatest((cell.lat_max - extent.lat_min) * raster.height, lat_range, y + 1);
}

/// Cells that lie side by side get windows that lie side by side: where one
/// cell ends before the other begins, along either axis, no pixel belongs to
/// the windows of both.
pub proof fn lemma_windows_do_not_overlap(
    first: GeoRect,
    second: GeoRect,
    extent: GeoRect,
    raster: RasterShape,
)
    requires
        extent.has_area(),
        first.lon_max <= second.lon_min || first.lat_max <= second.lat_min,
        window_of(first, extent, raster) is Some,
        window_of(second, extent, raster) is Some,
    ensures
        ({
            let a = window_of(first, extent, raster)->Some_0;
            let b = window_of(second, extent, raster)->Some_0;
            &&& first.lon_max <= second.lon_min ==> a.x_offset + a.width <= b.x_offset
            &&& first.lat_max <= second.lat_min ==> a.y_offset + a.height <= b.y_offset
        }),
{
    let width = raster.width as int;
    let height = raster.height as int;
    if first.lon_max <= second.lon_min {
        let end = (first.lon_max - extent.lon_min) * width;
        let start = (second.lon_min - extent.lon_min) * width;
        assert(end <= start) by (nonlinear_arith)
            requires
                end == (first.lon_max - extent.lon_min) * width,
                start == (second.lon_min - extent.lon_min) * width,
                first.lon_max <= second.lon_min,
                width >= 0,
        ;
        lemma_floor_le_ceil(end, start, extent.lon_max - extent.lon_min);
    }
    if first.lat_max <= second.lat_min {
        let end = (first.lat_max - extent.lat_min) * height;
        let start = (second.lat_min - extent.lat_min) * height;
        assert(end <= start) by (nonlinear_arith)
            requires
                end == (first.lat_max - extent.lat_min) * height,
                start == (second.lat_min - extent.lat_min) * height,
                first.lat_max <= second.lat_min,
                height >= 0,
        ;
        lemma_floor_le_ceil(end, start, extent.lat_max - extent.lat_min);
    }
}

/// Computes [`pixel_start`].
fn axis_start(cell_min: i64, extent_min: i64, extent_max: i64, size: u32) -> (start: i128)
    requires
        extent_min < extent_max,
    ensures
        start == pixel_start(cell_min as int, extent_min as int, extent_max as int, size as int),
{
    let offset: i128 = cell_min as i128 - extent_min as i128;
    let range: i128 = extent_max as i128 - extent_min as i128;
    assert(-0x1_0000_0000_0000_0000_0000_0000 <= offset * size <= 0x1_0000_0000_0000_0000_0000_0000)
        by (nonlinear_arith)
        requires
            -0x1_0000_0000_0000_0000 <= offset <= 0x1_0000_0000_0000_0000,
            0 <= size <= 0x1_0000_0000,
    ;
    let first: i128 = div_ceil(offset * (size as i128), range);
    if first > 0 {
        first
    } else {
        0
    }
}

/// Computes [`pixel_end`].
fn axis_end(cell_max: i64, extent_min: i64, extent_max: i64, size: u32) -> (end: i128)
    requires
        extent_min < extent_max,
    ensures
        end == pixel_end(cell_max as int, extent_min as int, extent_max as int, size as int),
{
    let offset: i128 = cell_max as i128 - extent_min as i128;
    let range: i128 = extent_max as i128 - extent_min as i128;
    assert(-0x1_0000_0000_0000_0000_0000_0000 <= offset * size <= 0x1_0000_0000_0000_0000_0000_0000)
        by (nonlinear_arith)
        requires
            -0x1_0000_0000_0000_0000 <= offset <= 0x1_0000_0000_0000_0000,
            0 <= size <= 0x1_0000_0000,
    ;
    let last: i128 = div_floor(offset * (size as i128), range);
    if last < size as i128 {
        last
    } else {
        size as i128
    }
}

/// The pixels of a raster of shape `raster` over `extent` that lie wholly
/// inside `cell`; `None` if no pixel does.
pub fn pixel_window(cell: &GeoRect, extent: &GeoRect, raster: &RasterShape) -> (window: Option<
    PixelWindow,
>)
    requires
        extent.has_area(),
    ensures
        window == window_of(*cell, *extent, *raster),
        window matches Some(w) ==> w.inside(*raster),
{
    let x_start = axis_start(cell.lon_min, extent.lon_min, extent.lon_max, raster.width);
    let x_end = axis_end(cell.lon_max, extent.lon_min, extent.lon_max, raster.width);
    let y_start = axis_start(cell.lat_min, extent.lat_min, extent.lat_max, raster.height);
    let y_end = axis_end(cell.lat_max, extent.lat_min, extent.lat_max, raster.height);
    if x_start < x_end && y_start < y_end {
        Some(
            PixelWindow {
                x_offset: x_start as u32,
                y_offset: y_start as u32,
                width: (x_end - x_start) as u32,
                height: (y_end - y_start) as u32,
            },
        )
    } else {
        None
    }
}

/// Splits a raster of shape `raster` that covers `extent` into the tiles of
/// the grid at `precision`: one tile for each grid cell that holds a whole
/// pixel, in the order in which [`get_bounds`] lists the cells.
///
/// It fails on a precision that the grid does not support, else on an extent
/// with a corner off the globe, else on an extent without area, else on a
/// tile whose north-east corner is off the globe.
pub fn split(extent: &GeoRect, raster: &RasterShape, precision: usize, span: LonSpan) -> (result:
    Result<Vec<Tile>, SplitError>)
    ensures
        match result {
            Ok(tiles) => {
                &&& valid_precision(precision as int)
                &&& extent.in_range()
                &&& extent.has_area()
                &&& !corner_off_globe(
                    grid_cells(*extent, precision as nat, span),
                    *extent,
                    *raster,
                )
                &&& tile_views(tiles@) == tiles_of(
                    grid_cells(*extent, precision as nat, span),
                    *extent,
                    *raster,
                    precision as nat,
                )
                &&& forall|i: int|
                    0 <= i < tiles@.len() ==> (#[trigger] tiles@[i]).window.inside(*raster)
            },
            Err(SplitError::InvalidPrecision) => !valid_precision(precision as int),
            Err(SplitError::ExtentOutOfRange) => valid_precision(precision as int)
                && !extent.in_range(),
            Err(SplitError::EmptyExtent) => valid_precision(precision as int) && extent.in_range()
                && !extent.has_area(),
            Err(SplitError::CornerOutOfRange) => valid_precision(precision as int)
                && extent.in_range() && extent.has_area() && corner_off_globe(
                grid_cells(*extent, precision as nat, span),
                *extent,
                *raster,
            ),
        },
{
    if !is_valid_precision(precision) {
        return Err(SplitError::InvalidPrecision);
    }
    if !extent.is_in_range() {
        return Err(SplitError::ExtentOutOfRange);
    }
    if extent.lat_min >= extent.lat_max || extent.lon_min >= extent.lon_max {
        return Err(SplitError::EmptyExtent);
    }
    let cells = get_bounds(extent, precision as u8, span);
    let ghost p = precision as nat;
    let ghost tile = |cell: CellBound| tile_of(cell, *extent, *raster, p);
    let mut tiles: Vec<Tile> = Vec::new();
    let mut k: usize = 0;
    while k < cells.len()
        invariant
            valid_precision(precision as int),
            p == precision as nat,
            extent.in_range(),
            extent.has_area(),
            cells@ == grid_cells(*extent, p, span),
            tile == |cell: CellBound| tile_of(cell, *extent, *raster, p),
            0 <= k <= cells.len(),
            tile_views(tiles@) == cells@.take(k as int).filter_map(tile),
            forall|i: int| 0 <= i < tiles@.len() ==> (#[trigger] tiles@[i]).window.inside(*raster),
            forall|i: int|
                0 <= i < k && (#[trigger] window_of(cells@[i].rect, *extent, *raster)) is Some
                    ==> on_globe(cells@[i].rect.lon_max as int, cells@[i].rect.lat_max as int),
        decreases cells.len() - k,
    {
        let cell = &cells[k];
        proof {
            cells@.lemma_filter_map_take_succ(tile, k as int);
        }
        match pixel_window(&cell.rect, extent, raster) {
            Some(window) => {
                match encode(cell.rect.lon_max, cell.rect.lat_max, precision) {
                    Ok(id) => {
                        let made = Tile { id, window, bands: raster.bands };
                        proof {
                            assert(tile(cells@[k as int]) == Some(made@));
                            assert(tile_views(tiles@.push(made)) =~= tile_views(tiles@).push(
                                made@,
                            ));
                        }
                        tiles.push(made);
                    },
                    Err(_) => {
                        proof {
                            let listed = grid_cells(*extent, p, span);
                            assert(window_of(listed[k as int].rect, *extent, *raster) is Some);
                        }
                        return Err(SplitError::CornerOutOfRange);
                    },
                }
            },
            None => {},
        }
        k = k + 1;
    }
    proof {
        assert(cells@.take(k as int) =~= cells@);
    }
    Ok(tiles)
}

} // verus!
