//! Grid packing of per-mesh lightmap charts into one atlas.
//!
//! Every mesh gets a square chart of `chart_size` luxels, surrounded by a
//! `gutter` of padding on each side. Charts are laid out row by row on a grid
//! whose column count is the smallest `c >= 1` with `c * c >= mesh_count`.
use vstd::prelude::*;
use vstd::arithmetic::div_mod::lemma_fundamental_div_mod;

verus! {

/// One mesh's rectangle in the atlas.
#[derive(Debug, Clone, Copy)]
pub struct LightmapChart {
    pub mesh_index: u32,
    pub origin: [u32; 2],
    pub size: [u32; 2],
}

/// The atlas dimensions and the charts, in mesh order.
pub struct LightmapAtlas {
    pub width: u32,
    pub height: u32,
    pub charts: Vec<LightmapChart>,
}

/// Side of one grid cell: the chart plus a gutter on both sides.
pub open spec fn cell_size(chart_size: int, gutter: int) -> int {
    chart_size + 2 * gutter
}

/// `c` is the column count of a grid for `n` charts: the least `c >= 1`
/// whose square holds `n` cells.
pub open spec fn is_grid_columns(n: int, c: int) -> bool {
    &&& c >= 1
    &&& c * c >= n
    &&& (c == 1 || (c - 1) * (c - 1) < n)
}

/// The column count of the grid for `n` charts.
pub open spec fn grid_columns_spec(n: int) -> int {
    choose|c: int| is_grid_columns(n, c)
}

/// The row count: `n` divided by `cols`, rounded up.
pub open spec fn grid_rows_spec(n: int, cols: int) -> int {
    n / cols + if n % cols != 0 { 1int } else { 0int }
}

/// Chart `i` of a grid with `cols` columns.
pub open spec fn chart_placed(
    chart: LightmapChart,
    i: int,
    cols: int,
    chart_size: int,
    gutter: int,
) -> bool {
    let cell = cell_size(chart_size, gutter);
    &&& chart.mesh_index == i
    &&& chart.origin[0] == (i % cols) * cell + gutter
    &&& chart.origin[1] == (i / cols) * cell + gutter
    &&& chart.size[0] == chart_size
    &&& chart.size[1] == chart_size
}

/// `atlas` is the grid packing of `mesh_count` charts: its size is the grid
/// of `grid_columns_spec` columns and as many rows as needed, and chart `i`
/// sits in cell `(i % cols, i / cols)`, one gutter in from the cell corner.
pub open spec fn is_grid_packing(
    atlas: LightmapAtlas,
    mesh_count: u32,
    chart_size: u32,
    gutter: u32,
) -> bool {
    let cols = grid_columns_spec(mesh_count as int);
    let cell = cell_size(chart_size as int, gutter as int);
    &&& atlas.width == cols * cell
    &&& atlas.height == grid_rows_spec(mesh_count as int, cols) * cell
    &&& atlas.charts@.len() == mesh_count
    &&& forall|i: int|
        0 <= i < mesh_count ==> #[trigger] chart_placed(
            atlas.charts@[i],
            i,
            cols,
            chart_size as int,
            gutter as int,
        )
}

/// The inputs on which `pack_grid` computes without overflowing `u32`.
pub open spec fn pack_grid_fits(mesh_count: u32, chart_size: u32, gutter: u32) -> bool {
    let cell = cell_size(chart_size as int, gutter as int);
    let cols = grid_columns_spec(mesh_count as int);
    &&& cell <= u32::MAX
    &&& cols * cell <= u32::MAX
    &&& grid_rows_spec(mesh_count as int, cols) * cell <= u32::MAX
}

proof fn lemma_square_monotone(a: int, b: int)
    requires
        0 <= a <= b,
    ensures
        a * a <= b * b,
{
    assert(a * a <= b * b) by (nonlinear_arith)
        requires
            0 <= a <= b,
    ;
}

/// There is exactly one column count for every chart count.
pub proof fn lemma_grid_columns_unique(n: int, c: int)
    requires
        n >= 0,
        is_grid_columns(n, c),
    ensures
        grid_columns_spec(n) == c,
{
    let d = grid_columns_spec(n);
    assert(is_grid_columns(n, d));
    if d < c {
        lemma_square_monotone(d, c - 1);
    } else if c < d {
        lemma_square_monotone(c, d - 1);
    }
}

proof fn lemma_grid_columns_exist(n: int)
    requires
        n >= 0,
    ensures
        is_grid_columns(n, grid_columns_spec(n)),
        grid_columns_spec(n) <= 65536 || n > u32::MAX,
{
    // Walk up from 1 to the least column count whose square reaches n.
    let bound: int = if n < 1 { 1 } else { n };
    assert(bound * bound >= n) by (nonlinear_arith)
        requires
            bound >= 1,
            bound >= n,
    ;
    lemma_least_columns(n, 1, bound);
    let c = choose|c: int| is_grid_columns(n, c);
    assert(is_grid_columns(n, c));
    if n <= u32::MAX && c > 65536 {
        lemma_square_monotone(65536, c - 1);
        assert(65536 * 65536 > u32::MAX);
    }
}

proof fn lemma_least_columns(n: int, lo: int, hi: int)
    requires
        1 <= lo <= hi,
        hi * hi >= n,
        lo == 1 || (lo - 1) * (lo - 1) < n,
    ensures
        exists|c: int| is_grid_columns(n, c),
    decreases hi - lo,
{
    if lo * lo >= n {
        assert(is_grid_columns(n, lo));
    } else {
        lemma_least_columns(n, lo + 1, hi);
    }
}

/// The column count of the grid for `mesh_count` charts.
pub fn grid_columns(mesh_count: u32) -> (cols: u32)
    ensures
        cols == grid_columns_spec(mesh_count as int),
        is_grid_columns(mesh_count as int, cols as int),
{
    let n = mesh_count as u64;
    let mut c: u64 = 1;
    proof {
        lemma_grid_columns_exist(n as int);
    }
    while c * c < n
        invariant
            1 <= c <= grid_columns_spec(n as int),
            grid_columns_spec(n as int) <= 65536,
            n == mesh_count,
            is_grid_columns(n as int, grid_columns_spec(n as int)),
            c == 1 || (c - 1) * (c - 1) < n,
            c * c <= 65536 * 65536,
        decreases grid_columns_spec(n as int) - c,
    {
        proof {
            let g = grid_columns_spec(n as int);
            if c == g {
                assert(c * c >= n);
            }
        }
        c = c + 1;
        proof {
            assert(c * c <= 65536 * 65536) by (nonlinear_arith)
                requires
                    1 <= c <= 65536,
            ;
        }
    }
    proof {
        assert(is_grid_columns(n as int, c as int));
        lemma_grid_columns_unique(n as int, c as int);
    }
    c as u32
}

/// Lays out `mesh_count` square charts of side `chart_size` with a `gutter`
/// of padding on every side, row by row on a near-square grid.
pub fn pack_grid(mesh_count: u32, chart_size: u32, gutter: u32) -> (atlas: LightmapAtlas)
    requires
        pack_grid_fits(mesh_count, chart_size, gutter),
    ensures
        is_grid_packing(atlas, mesh_count, chart_size, gutter),
{
    let cell = chart_size + gutter * 2;
    let cols = grid_columns(mesh_count);
    proof {
        lemma_fundamental_div_mod(mesh_count as int, cols as int);
        if mesh_count % cols != 0 {
            assert(mesh_count / cols < mesh_count) by (nonlinear_arith)
                requires
                    mesh_count == cols * (mesh_count / cols) + mesh_count % cols,
                    cols >= 2,
                    mesh_count >= 1,
                    mesh_count / cols >= 0,
            ;
        }
    }
    let rows = mesh_count / cols + if mesh_count % cols != 0 {
        1u32
    } else {
        0u32
    };
    let width = cols * cell;
    let height = rows * cell;
    let mut charts: Vec<LightmapChart> = Vec::with_capacity(mesh_count as usize);
    let mut i: u32 = 0;
    while i < mesh_count
        invariant
            i <= mesh_count,
            cols == grid_columns_spec(mesh_count as int),
            is_grid_columns(mesh_count as int, cols as int),
            rows == grid_rows_spec(mesh_count as int, cols as int),
            cell == cell_size(chart_size as int, gutter as int),
            pack_grid_fits(mesh_count, chart_size, gutter),
            charts@.len() == i,
            forall|k: int|
                0 <= k < i ==> #[trigger] chart_placed(
                    charts@[k],
                    k,
                    cols as int,
                    chart_size as int,
                    gutter as int,
                ),
        decreases mesh_count - i,
    {
        let cx = i % cols;
        let cy = i / cols;
        proof {
            lemma_chart_origin_bounds(mesh_count as int, chart_size as int, gutter as int,
                cols as int, i as int);
        }
        charts.push(
            LightmapChart {
                mesh_index: i,
                origin: [cx * cell + gutter, cy * cell + gutter],
                size: [chart_size, chart_size],
            },
        );
        i = i + 1;
    }
    LightmapAtlas { width, height, charts }
}

/// The origin of chart `i` plus its size and gutter stays within the atlas.
proof fn lemma_chart_origin_bounds(n: int, chart_size: int, gutter: int, cols: int, i: int)
    requires
        0 <= i < n,
        chart_size >= 0,
        gutter >= 0,
        is_grid_columns(n, cols),
    ensures
        (i % cols) * cell_size(chart_size, gutter) + cell_size(chart_size, gutter) <= cols
            * cell_size(chart_size, gutter),
        (i / cols) * cell_size(chart_size, gutter) + cell_size(chart_size, gutter)
            <= grid_rows_spec(n, cols) * cell_size(chart_size, gutter),
        i % cols >= 0,
        i / cols >= 0,
{
    let cell = cell_size(chart_size, gutter);
    lemma_fundamental_div_mod(i, cols);
    lemma_fundamental_div_mod(n, cols);
    let q = i / cols;
    let r = i % cols;
    let rows = grid_rows_spec(n, cols);
    assert(q < rows) by (nonlinear_arith)
        requires
            i == cols * q + r,
            0 <= r < cols,
            i < n,
            n == cols * (n / cols) + n % cols,
            0 <= n % cols < cols,
            rows == n / cols + if n % cols != 0 { 1int } else { 0int },
    ;
    assert(r * cell + cell <= cols * cell) by (nonlinear_arith)
        requires
            0 <= r < cols,
            cell >= 0,
    ;
    assert(q * cell + cell <= rows * cell) by (nonlinear_arith)
        requires
            0 <= q < rows,
            cell >= 0,
    ;
    assert(q >= 0) by (nonlinear_arith)
        requires
            i == cols * q + r,
            0 <= r < cols,
            i >= 0,
    ;
}

/// Two charts are apart when, along some axis, one ends at least two gutters
/// before the other begins.
pub open spec fn charts_apart(a: LightmapChart, b: LightmapChart, gutter: int) -> bool {
    ||| a.origin[0] + a.size[0] + 2 * gutter <= b.origin[0]
    ||| b.origin[0] + b.size[0] + 2 * gutter <= a.origin[0]
    ||| a.origin[1] + a.size[1] + 2 * gutter <= b.origin[1]
    ||| b.origin[1] + b.size[1] + 2 * gutter <= a.origin[1]
}

/// Every chart of a grid packing, with the gutter around it, lies inside the
/// atlas.
pub proof fn lemma_charts_inside_atlas(
    atlas: LightmapAtlas,
    mesh_count: u32,
    chart_size: u32,
    gutter: u32,
)
    requires
        is_grid_packing(atlas, mesh_count, chart_size, gutter),
    ensures
        forall|i: int|
            0 <= i < mesh_count ==> {
                let c = #[trigger] atlas.charts@[i];
                &&& gutter <= c.origin[0]
                &&& gutter <= c.origin[1]
                &&& c.origin[0] + c.size[0] + gutter <= atlas.width
                &&& c.origin[1] + c.size[1] + gutter <= atlas.height
            },
{
    let n = mesh_count as int;
    let cols = grid_columns_spec(n);
    lemma_grid_columns_exist(n);
    assert forall|i: int| 0 <= i < mesh_count implies {
        let c = #[trigger] atlas.charts@[i];
        &&& gutter <= c.origin[0]
        &&& gutter <= c.origin[1]
        &&& c.origin[0] + c.size[0] + gutter <= atlas.width
        &&& c.origin[1] + c.size[1] + gutter <= atlas.height
    } by {
        assert(chart_placed(atlas.charts@[i], i, cols, chart_size as int, gutter as int));
        lemma_chart_origin_bounds(n, chart_size as int, gutter as int, cols, i);
        let cell = cell_size(chart_size as int, gutter as int);
        assert((i % cols) * cell >= 0) by (nonlinear_arith)
            requires
                i % cols >= 0,
                cell >= 0,
        ;
        assert((i / cols) * cell >= 0) by (nonlinear_arith)
            requires
                i / cols >= 0,
                cell >= 0,
        ;
    }
}

/// Distinct charts of a grid packing never overlap: any two are at least two
/// gutters apart along one axis.
pub proof fn lemma_charts_disjoint(
    atlas: LightmapAtlas,
    mesh_count: u32,
    chart_size: u32,
    gutter: u32,
)
    requires
        is_grid_packing(atlas, mesh_count, chart_size, gutter),
    ensures
        forall|i: int, j: int|
            0 <= i < mesh_count && 0 <= j < mesh_count && i != j ==> charts_apart(
                #[trigger] atlas.charts@[i],
                #[trigger] atlas.charts@[j],
                gutter as int,
            ),
{
    let n = mesh_count as int;
    let cols = grid_columns_spec(n);
    lemma_grid_columns_exist(n);
    let cell = cell_size(chart_size as int, gutter as int);
    assert forall|i: int, j: int|
        0 <= i < mesh_count && 0 <= j < mesh_count && i != j implies charts_apart(
        #[trigger] atlas.charts@[i],
        #[trigger] atlas.charts@[j],
        gutter as int,
    ) by {
        assert(chart_placed(atlas.charts@[i], i, cols, chart_size as int, gutter as int));
        assert(chart_placed(atlas.charts@[j], j, cols, chart_size as int, gutter as int));
        lemma_fundamental_div_mod(i, cols);
        lemma_fundamental_div_mod(j, cols);
        lemma_cells_apart(i % cols, j % cols, cell, chart_size as int, gutter as int);
        lemma_cells_apart(i / cols, j / cols, cell, chart_size as int, gutter as int);
        if i % cols == j % cols && i / cols == j / cols {
            assert(i == j);
        }
    }
}

proof fn lemma_cells_apart(a: int, b: int, cell: int, chart_size: int, gutter: int)
    requires
        cell == cell_size(chart_size, gutter),
        chart_size >= 0,
        gutter >= 0,
    ensures
        a < b ==> a * cell + gutter + chart_size + 2 * gutter <= b * cell + gutter,
        b < a ==> b * cell + gutter + chart_size + 2 * gutter <= a * cell + gutter,
{
    assert(a < b ==> a * cell + cell <= b * cell) by (nonlinear_arith)
        requires
            cell >= 0,
    ;
    assert(b < a ==> b * cell + cell <= a * cell) by (nonlinear_arith)
        requires
            cell >= 0,
    ;
}

/// The grid of a packing has room for every chart and is never taller than
/// it is wide: `rows * cols >= mesh_count` and `rows <= cols`.
pub proof fn lemma_grid_near_square(mesh_count: u32)
    ensures
        ({
            let cols = grid_columns_spec(mesh_count as int);
            let rows = grid_rows_spec(mesh_count as int, cols);
            &&& 1 <= cols
            &&& rows * cols >= mesh_count
            &&& rows <= cols
        }),
{
    let n = mesh_count as int;
    lemma_grid_columns_exist(n);
    let cols = grid_columns_spec(n);
    let rows = grid_rows_spec(n, cols);
    lemma_fundamental_div_mod(n, cols);
    assert(rows * cols >= n && rows <= cols) by (nonlinear_arith)
        requires
            cols >= 1,
            cols * cols >= n,
            n >= 0,
            n == cols * (n / cols) + n % cols,
            0 <= n % cols < cols,
            rows == n / cols + if n % cols != 0 { 1int } else { 0int },
    ;
}

} // verus!
