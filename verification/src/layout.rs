//! Column-count selection, cell sizing and the row-major region grid.

use vstd::prelude::*;
use vstd::arithmetic::div_mod::{
    lemma_div_is_ordered, lemma_div_multiples_vanish, lemma_fundamental_div_mod,
    lemma_mod_division_less_than_divisor,
};
use vstd::arithmetic::mul::lemma_mul_inequality;

verus! {

/// Height of one grid row in character cells: an icon line, up to two wrapped
/// class lines, up to two wrapped title lines, one status line, and borders.
pub const ROW_HEIGHT: u16 = 10;

/// Minimum width of a cell, in character cells, that still shows readable
/// content; it caps the column count on narrow viewports.
pub const MIN_CELL_WIDTH: u16 = 25;

/// A rectangle in viewport coordinates: top-left corner plus extent, measured
/// in character cells. Used both for the viewport itself and for the region
/// allocated to a single item.
#[derive(Clone, Copy, Debug, PartialEq, Eq, Structural)]
pub struct CellRegion {
    pub x: u16,
    pub y: u16,
    pub width: u16,
    pub height: u16,
}

impl CellRegion {
    /// The far edges stay inside the `u16` coordinate space, so edge
    /// arithmetic on the rectangle cannot overflow.
    pub open spec fn wf(self) -> bool {
        self.x + self.width <= u16::MAX && self.y + self.height <= u16::MAX
    }

    /// The point `(px, py)` lies inside the rectangle; the right and bottom
    /// edges are exclusive.
    pub open spec fn spec_contains(self, px: int, py: int) -> bool {
        &&& self.x <= px < self.x + self.width
        &&& self.y <= py < self.y + self.height
    }

    pub fn contains(&self, px: u16, py: u16) -> (r: bool)
        requires
            self.wf(),
        ensures
            r == self.spec_contains(px as int, py as int),
    {
        px >= self.x && px < self.x + self.width && py >= self.y && py < self.y + self.height
    }
}

/// The column count asked for by the item count and the viewport width alone,
/// before the readable-width cap: never more columns than items (but at least
/// one), and wider viewports earn more columns up to four.
pub open spec fn spec_base_columns(width: int, n: int) -> int {
    if n <= 3 {
        if n <= 1 {
            1
        } else {
            n
        }
    } else if width < 80 {
        2
    } else if width < 120 {
        3
    } else {
        4
    }
}

/// How many columns of at least `MIN_CELL_WIDTH` cells fit in the viewport,
/// bounded below by one.
pub open spec fn spec_max_columns(width: int) -> int {
    if width / (MIN_CELL_WIDTH as int) <= 1 {
        1
    } else {
        width / (MIN_CELL_WIDTH as int)
    }
}

/// The column count used by every pass: the base choice capped by how many
/// readable columns fit.
pub open spec fn spec_columns(width: int, n: int) -> int {
    if spec_base_columns(width, n) <= spec_max_columns(width) {
        spec_base_columns(width, n)
    } else {
        spec_max_columns(width)
    }
}

/// Width of one cell: an equal share of the viewport, minus a four-cell
/// allowance for borders and padding, floored at zero.
pub open spec fn spec_cell_width(width: int, n: int) -> int {
    let share = width / spec_columns(width, n);
    if share >= 4 {
        share - 4
    } else {
        0
    }
}

/// Width available to text inside a cell: the cell width minus a four-cell
/// padding allowance, floored at zero.
pub open spec fn spec_text_width(width: int, n: int) -> int {
    let cell = spec_cell_width(width, n);
    if cell >= 4 {
        cell - 4
    } else {
        0
    }
}

/// Number of grid rows for `n` items in `columns` columns: the ceiling of
/// `n / columns`.
pub open spec fn spec_rows(n: int, columns: int) -> int {
    if n <= 0 {
        0
    } else {
        (n - 1) / columns + 1
    }
}

/// How the viewport is split among items.
#[derive(Clone, Copy, Debug, PartialEq, Eq, Structural)]
pub struct LayoutResult {
    /// Number of columns in the grid, at least one.
    pub columns: usize,
    /// Width of one cell in character cells.
    pub cell_width: usize,
    /// Width available to text inside one cell.
    pub text_width: usize,
    /// Number of grid rows, the ceiling of the item count over `columns`.
    pub rows: usize,
}

/// Selects the column count and the derived cell dimensions for `n` items in
/// a viewport `width` character cells wide. Pure: the drawing pass and the
/// hit-testing pass call it with the same arguments and get the same grid.
pub fn compute_layout(width: u16, n: usize) -> (r: LayoutResult)
    ensures
        r.columns == spec_columns(width as int, n as int),
        r.cell_width == spec_cell_width(width as int, n as int),
        r.text_width == spec_text_width(width as int, n as int),
        r.rows == spec_rows(n as int, r.columns as int),
        1 <= r.columns <= 4,
{
    let max_columns_raw = (width / MIN_CELL_WIDTH) as usize;
    let max_columns: usize = if max_columns_raw <= 1 {
        1
    } else {
        max_columns_raw
    };
    let base: usize = if n <= 3 {
        if n <= 1 {
            1
        } else {
            n
        }
    } else if width < 80 {
        2
    } else if width < 120 {
        3
    } else {
        4
    };
    let columns = if base <= max_columns {
        base
    } else {
        max_columns
    };
    let share = (width as usize) / columns;
    let cell_width = if share >= 4 {
        share - 4
    } else {
        0
    };
    let text_width = if cell_width >= 4 {
        cell_width - 4
    } else {
        0
    };
    let rows = if n == 0 {
        0
    } else {
        (n - 1) / columns + 1
    };
    LayoutResult { columns, cell_width, text_width, rows }
}

/// Left edge of column `c`, relative to the viewport: a proportional split of
/// the viewport width, so the `columns` column spans partition the full width
/// with no gaps and no overlaps even when the width is not divisible.
pub open spec fn spec_col_left(width: int, columns: int, c: int) -> int {
    (width * c) / columns
}

/// Top edge of row `r`, relative to the viewport: rows are stacked bands of
/// `ROW_HEIGHT` cells, clamped to the viewport height, so rows past the
/// bottom edge become empty bands rather than rectangles outside the
/// viewport.
pub open spec fn spec_row_top(height: int, r: int) -> int {
    if r * (ROW_HEIGHT as int) <= height {
        r * (ROW_HEIGHT as int)
    } else {
        height
    }
}

/// The point `(px, py)` lies in the region the grid assigns to item `idx`:
/// row `idx / columns`, column `idx % columns`.
pub open spec fn spec_in_region(vp: CellRegion, columns: int, idx: int, px: int, py: int) -> bool {
    let row = idx / columns;
    let col = idx % columns;
    &&& vp.x + spec_col_left(vp.width as int, columns, col) <= px
    &&& px < vp.x + spec_col_left(vp.width as int, columns, col + 1)
    &&& vp.y + spec_row_top(vp.height as int, row) <= py
    &&& py < vp.y + spec_row_top(vp.height as int, row + 1)
}

/// Column edges move right (weakly) with the column number and stay inside
/// the viewport width.
proof fn lemma_col_left_ordered(width: int, columns: int, c1: int, c2: int)
    requires
        0 <= width,
        0 < columns,
        0 <= c1 <= c2,
    ensures
        spec_col_left(width, columns, c1) <= spec_col_left(width, columns, c2),
{
    lemma_mul_inequality(c1, c2, width);
    lemma_div_is_ordered(width * c1, width * c2, columns);
    assert(c1 * width == width * c1) by (nonlinear_arith);
    assert(c2 * width == width * c2) by (nonlinear_arith);
}

/// The first column edge is the viewport's left edge and the last is its
/// right edge: the column spans cover the width exactly.
proof fn lemma_col_left_extremes(width: int, columns: int)
    requires
        0 <= width,
        0 < columns,
    ensures
        spec_col_left(width, columns, 0) == 0,
        spec_col_left(width, columns, columns) == width,
{
    assert(width * 0 == 0) by (nonlinear_arith);
    assert(spec_col_left(width, columns, 0) == 0);
    assert(width * columns == columns * width) by (nonlinear_arith);
    lemma_div_multiples_vanish(width, columns);
}

/// Top edge of row `r`, clamped to the viewport height.
fn row_top(height: u16, r: usize) -> (t: u16)
    ensures
        t as int == spec_row_top(height as int, r as int),
{
    let cap = (height / ROW_HEIGHT) as usize;
    if r <= cap {
        let v = r * (ROW_HEIGHT as usize);
        if v <= height as usize {
            v as u16
        } else {
            height
        }
    } else {
        proof {
            lemma_fundamental_div_mod(height as int, ROW_HEIGHT as int);
            lemma_mod_division_less_than_divisor(height as int, ROW_HEIGHT as int);
        }
        height
    }
}

/// Region of item `idx` out of `n` in the grid for `vp`: row-major order,
/// with the column count recomputed from the viewport width by
/// `compute_layout`, so the same call serves the drawing pass and the
/// hit-testing pass.
pub fn cell_region(vp: &CellRegion, n: usize, idx: usize) -> (r: CellRegion)
    requires
        vp.wf(),
        idx < n,
    ensures
        ({
            let columns = spec_columns(vp.width as int, n as int);
            let row = idx as int / columns;
            let col = idx as int % columns;
            &&& r.x == vp.x + spec_col_left(vp.width as int, columns, col)
            &&& r.x + r.width == vp.x + spec_col_left(vp.width as int, columns, col + 1)
            &&& r.y == vp.y + spec_row_top(vp.height as int, row)
            &&& r.y + r.height == vp.y + spec_row_top(vp.height as int, row + 1)
        }),
        r.wf(),
        forall|px: int, py: int|
            r.spec_contains(px, py) == spec_in_region(
                *vp,
                spec_columns(vp.width as int, n as int),
                idx as int,
                px,
                py,
            ),
{
    let layout = compute_layout(vp.width, n);
    let columns = layout.columns;
    let row = idx / columns;
    let col = idx % columns;
    let w = vp.width as usize;
    proof {
        lemma_mod_division_less_than_divisor(idx as int, columns as int);
        assert(w * col <= w * 3 && w * (col + 1) <= w * 4) by (nonlinear_arith)
            requires
                0 <= col <= 3,
                0 <= w,
        ;
        lemma_col_left_ordered(w as int, columns as int, col as int, col as int + 1);
        lemma_col_left_ordered(w as int, columns as int, col as int + 1, columns as int);
        lemma_col_left_extremes(w as int, columns as int);
        assert(0 <= spec_col_left(w as int, columns as int, col as int)) by {
            lemma_col_left_ordered(w as int, columns as int, 0, col as int);
        }
        lemma_div_is_ordered(idx as int, n as int - 1, columns as int);
    }
    let left = w * col / columns;
    let right = w * (col + 1) / columns;
    let top = row_top(vp.height, row);
    let bot = row_top(vp.height, row + 1);
    CellRegion { x: vp.x + left as u16, y: vp.y + top, width: (right - left) as u16, height: bot
        - top }
}

/// Maps a pointer coordinate to the item whose region contains it, or `None`
/// when the pointer lies outside every assigned region (in a gutter, past the
/// last item, or below the grid). The grid is recomputed from the same
/// viewport width the drawing pass uses.
pub fn hit_test(px: u16, py: u16, vp: &CellRegion, n: usize) -> (r: Option<usize>)
    requires
        vp.wf(),
    ensures
        ({
            let columns = spec_columns(vp.width as int, n as int);
            match r {
                Some(i) => i < n && spec_in_region(*vp, columns, i as int, px as int, py as int)
                    && forall|j: int|
                    0 <= j < n && j != i ==> !spec_in_region(*vp, columns, j, px as int, py as int),
                None => forall|i: int|
                    0 <= i < n ==> !spec_in_region(*vp, columns, i, px as int, py as int),
            }
        }),
{
    let mut i: usize = 0;
    while i < n
        invariant
            vp.wf(),
            i <= n,
            forall|j: int|
                0 <= j < i ==> !spec_in_region(
                    *vp,
                    spec_columns(vp.width as int, n as int),
                    j,
                    px as int,
                    py as int,
                ),
        decreases n - i,
    {
        let reg = cell_region(vp, n, i);
        if reg.contains(px, py) {
            proof {
                let columns = spec_columns(vp.width as int, n as int);
                assert forall|j: int| 0 <= j < n && j != i implies !spec_in_region(
                    *vp,
                    columns,
                    j,
                    px as int,
                    py as int,
                ) by {
                    lemma_regions_disjoint(*vp, columns, i as int, j, px as int, py as int);
                }
            }
            return Some(i);
        }
        i = i + 1;
    }
    None
}

/// The layout is a pure function of viewport width and item count: any two
/// results that meet `compute_layout`'s contract for the same inputs are
/// equal, so the drawing pass and the hit-testing pass can never disagree on
/// the grid.
pub proof fn lemma_layout_deterministic(a: LayoutResult, b: LayoutResult, width: u16, n: usize)
    requires
        a.columns == spec_columns(width as int, n as int),
        a.cell_width == spec_cell_width(width as int, n as int),
        a.text_width == spec_text_width(width as int, n as int),
        a.rows == spec_rows(n as int, a.columns as int),
        b.columns == spec_columns(width as int, n as int),
        b.cell_width == spec_cell_width(width as int, n as int),
        b.text_width == spec_text_width(width as int, n as int),
        b.rows == spec_rows(n as int, b.columns as int),
    ensures
        a == b,
{
}

/// With at most three items the grid gives each item its own column (at least
/// one), provided the viewport is wide enough that the readable-width cap
/// does not bite.
pub proof fn lemma_columns_match_small_item_count(width: int, n: int)
    requires
        0 <= n <= 3,
        (if n <= 1 { 1int } else { n }) <= spec_max_columns(width),
    ensures
        spec_columns(width, n) == (if n <= 1 { 1int } else { n }),
{
}

/// The row count is the ceiling of items over columns: the smallest number of
/// full-width rows that holds every item.
pub proof fn lemma_rows_is_ceiling(n: int, columns: int)
    requires
        0 <= n,
        0 < columns,
    ensures
        n <= spec_rows(n, columns) * columns,
        spec_rows(n, columns) * columns < n + columns,
        0 <= spec_rows(n, columns),
{
    if n > 0 {
        let q = (n - 1) / columns;
        lemma_fundamental_div_mod(n - 1, columns);
        lemma_mod_division_less_than_divisor(n - 1, columns);
        assert((q + 1) * columns == columns * q + columns) by (nonlinear_arith);
    }
}

/// Every index in `[0, n)` lands in a row below the computed row count: each
/// item is assigned a region of the grid.
pub proof fn lemma_index_in_row_range(n: int, columns: int, idx: int)
    requires
        0 < columns,
        0 <= idx < n,
    ensures
        0 <= idx / columns < spec_rows(n, columns),
        0 <= idx % columns < columns,
{
    vstd::arithmetic::div_mod::lemma_div_pos_is_pos(idx, columns);
    lemma_mod_division_less_than_divisor(idx, columns);
    lemma_div_is_ordered(idx, n - 1, columns);
}

/// Two distinct items never share a point: their regions are disjoint, so a
/// pointer coordinate identifies at most one item.
pub proof fn lemma_regions_disjoint(
    vp: CellRegion,
    columns: int,
    i: int,
    j: int,
    px: int,
    py: int,
)
    requires
        0 < columns,
        0 <= i,
        0 <= j,
        i != j,
        spec_in_region(vp, columns, i, px, py),
    ensures
        !spec_in_region(vp, columns, j, px, py),
{
    let ri = i / columns;
    let ci = i % columns;
    let rj = j / columns;
    let cj = j % columns;
    lemma_fundamental_div_mod(i, columns);
    lemma_fundamental_div_mod(j, columns);
    lemma_mod_division_less_than_divisor(i, columns);
    lemma_mod_division_less_than_divisor(j, columns);
    vstd::arithmetic::div_mod::lemma_div_pos_is_pos(i, columns);
    vstd::arithmetic::div_mod::lemma_div_pos_is_pos(j, columns);
    if ri == rj && ci == cj {
        assert(columns * ri + ci == columns * rj + cj);
        assert(i == j);
    } else if ri != rj {
        // Different rows: the later row starts at or below where the earlier
        // row ends, so the vertical bands cannot overlap.
        if spec_in_region(vp, columns, j, px, py) {
            let h = vp.height as int;
            if ri < rj {
                assert((ri + 1) * (ROW_HEIGHT as int) <= rj * (ROW_HEIGHT as int)) by {
                    lemma_mul_inequality(ri + 1, rj, ROW_HEIGHT as int);
                }
                assert(spec_row_top(h, ri + 1) <= spec_row_top(h, rj));
                assert(false);
            } else {
                assert((rj + 1) * (ROW_HEIGHT as int) <= ri * (ROW_HEIGHT as int)) by {
                    lemma_mul_inequality(rj + 1, ri, ROW_HEIGHT as int);
                }
                assert(spec_row_top(h, rj + 1) <= spec_row_top(h, ri));
                assert(false);
            }
        }
    } else {
        // Same row, different columns: the later column starts at or right of
        // where the earlier column ends.
        if spec_in_region(vp, columns, j, px, py) {
            let w = vp.width as int;
            if ci < cj {
                lemma_col_left_ordered(w, columns, ci + 1, cj);
                assert(false);
            } else {
                lemma_col_left_ordered(w, columns, cj + 1, ci);
                assert(false);
            }
        }
    }
}

/// Within one row the column spans partition the full viewport width: every
/// horizontal offset inside the viewport lies in exactly one column span, so
/// the split leaves no gaps.
pub proof fn lemma_columns_partition_width(width: int, columns: int, t: int)
    requires
        0 < columns,
        0 <= t < width,
    ensures
        exists|c: int|
            0 <= c < columns && #[trigger] spec_col_left(width, columns, c) <= t < spec_col_left(
                width,
                columns,
                c + 1,
            ),
{
    lemma_col_left_extremes(width, columns);
    lemma_col_crossing(width, columns, columns, t);
}

/// Helper for the partition lemma: if `t` lies left of column edge `k`, some
/// column span at or left of `k` contains it.
proof fn lemma_col_crossing(width: int, columns: int, k: int, t: int)
    requires
        0 < columns,
        1 <= k <= columns,
        0 <= t,
        t < spec_col_left(width, columns, k),
        spec_col_left(width, columns, 0) == 0,
    ensures
        exists|c: int|
            0 <= c < k && #[trigger] spec_col_left(width, columns, c) <= t < spec_col_left(
                width,
                columns,
                c + 1,
            ),
    decreases k,
{
    if spec_col_left(width, columns, k - 1) <= t {
        assert(spec_col_left(width, columns, k - 1) <= t < spec_col_left(width, columns, k));
    } else {
        assert(k - 1 >= 1);
        lemma_col_crossing(width, columns, k - 1, t);
    }
}

} // verus!
