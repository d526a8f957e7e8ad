//! Exact grid layout: how many rows and columns a number of meshes gets in a
//! viewport of a given aspect, and where each mesh is placed.
//!
//! The viewport has height 1 and width `window_width / window_height`, with
//! the origin at its centre. All results are exact fractions; nothing here is
//! rounded.

use vstd::prelude::*;

verus! {

/// The fraction `num / den`. Fractions made by this module have `den > 0`
/// and are not reduced.
#[derive(Clone, Copy, Debug, PartialEq, Eq)]
pub struct Ratio {
    pub num: i128,
    pub den: i128,
}

/// Where one mesh is placed, relative to the centre of the viewport.
#[derive(Clone, Copy, Debug, PartialEq, Eq)]
pub struct GridPosition {
    pub x: Ratio,
    pub y: Ratio,
}

/// A computed layout: the grid's dimensions, one position per mesh in
/// row-major order, and the scale that makes a mesh fit its cell.
#[derive(Debug)]
pub struct GridLayout {
    pub rows: u64,
    pub cols: u64,
    pub positions: Vec<GridPosition>,
    pub scale: Ratio,
}

/// `k` is the square root of `num / den` rounded up to an integer: the least
/// `k >= 0` with `k * k >= num / den`.
pub open spec fn is_ceil_root(k: int, num: int, den: int) -> bool {
    &&& k >= 0
    &&& k * k * den >= num
    &&& k > 0 ==> (k - 1) * (k - 1) * den < num
}

/// The square root of `num / den`, rounded up to an integer.
pub open spec fn ceil_root(num: int, den: int) -> int {
    choose|k: int| is_ceil_root(k, num, den)
}

/// `a / b` rounded up, for `a >= 0` and `b > 0`.
pub open spec fn ceil_div(a: int, b: int) -> int {
    (a + b - 1) / b
}

/// Whether `a * sqrt(x) < b * sqrt(y)`, for positive `x` and `y`. The signs
/// of `a` and `b` settle it where they differ; where they agree the squares
/// are compared.
pub open spec fn root_scaled_lt(a: int, x: int, b: int, y: int) -> bool {
    if a >= 0 && b <= 0 {
        false
    } else if a < 0 && b >= 0 {
        true
    } else if a >= 0 {
        a * a * x < b * b * y
    } else {
        a * a * x > b * b * y
    }
}

/// The ideal height of the grid is `sqrt(n * h / w)` and its ideal width is
/// `sqrt(n * w / h)`. This says that the height is strictly nearer to its
/// rounded-up value than the width is to its own, so that the height is the
/// dimension to round up first. On a tie the width is rounded first.
///
/// With `H` and `W` the rounded-up height and width, `H - height < W - width`
/// is `(H - W) * sqrt(w * h) < (h - w) * sqrt(n)`.
pub open spec fn rounds_height_first(n: int, h: int, w: int) -> bool {
    root_scaled_lt(ceil_root(n * h, w) - ceil_root(n * w, h), w * h, h - w, n)
}

/// The number of rows for `n` meshes in a window `w` wide and `h` high.
pub open spec fn grid_rows(n: int, h: int, w: int) -> int {
    if rounds_height_first(n, h, w) {
        ceil_root(n * h, w)
    } else {
        ceil_div(n, ceil_root(n * w, h))
    }
}

/// The number of columns for `n` meshes in a window `w` wide and `h` high.
pub open spec fn grid_cols(n: int, h: int, w: int) -> int {
    if rounds_height_first(n, h, w) {
        ceil_div(n, ceil_root(n * h, w))
    } else {
        ceil_root(n * w, h)
    }
}

/// The vertical position of cell `k` (row-major) as numerator and
/// denominator: the centre of row `k / cols`, rows counted from the top edge
/// at `1/2`.
pub open spec fn cell_y(k: int, rows: int, cols: int) -> (int, int) {
    (rows - 2 * (k / cols) - 1, 2 * rows)
}

/// The horizontal position of cell `k` (row-major) as numerator and
/// denominator: the centre of column `k % cols`, columns counted from the
/// left edge at `-w / (2 * h)`.
pub open spec fn cell_x(k: int, cols: int, h: int, w: int) -> (int, int) {
    (w * (2 * (k % cols) + 1 - cols), 2 * h * cols)
}

/// The smaller of a cell's height `1 / rows` and its width
/// `w / (h * cols)`, as numerator and denominator.
pub open spec fn cell_scale(rows: int, cols: int, h: int, w: int) -> (int, int) {
    if h * cols <= w * rows {
        (1, rows)
    } else {
        (w, h * cols)
    }
}

/// The two parts of a fraction as mathematical integers.
pub open spec fn parts(r: Ratio) -> (int, int) {
    (r.num as int, r.den as int)
}

/// A rounded-up root exists: starting from any `k` whose square reaches
/// `num / den`, the least such is found by stepping down.
proof fn lemma_ceil_root_below(num: int, den: int, k: int)
    requires
        k >= 0,
        k * k * den >= num,
    ensures
        exists|j: int| is_ceil_root(j, num, den),
    decreases k,
{
    if k > 0 && (k - 1) * (k - 1) * den >= num {
        lemma_ceil_root_below(num, den, k - 1);
    } else {
        assert(is_ceil_root(k, num, den));
    }
}

/// For `num >= 0` and `den > 0` the rounded-up root is what its name says.
pub proof fn lemma_ceil_root(num: int, den: int)
    requires
        num >= 0,
        den > 0,
    ensures
        is_ceil_root(ceil_root(num, den), num, den),
{
    assert(num * num * den >= num) by (nonlinear_arith)
        requires
            num >= 0,
            den > 0,
    ;
    lemma_ceil_root_below(num, den, num);
}

/// A rounded-up root is unique.
pub proof fn lemma_ceil_root_unique(k1: int, k2: int, num: int, den: int)
    requires
        den > 0,
        is_ceil_root(k1, num, den),
        is_ceil_root(k2, num, den),
    ensures
        k1 == k2,
{
    if k1 < k2 {
        assert(k1 * k1 * den <= (k2 - 1) * (k2 - 1) * den) by (nonlinear_arith)
            requires
                0 <= k1 <= k2 - 1,
                den > 0,
        ;
    } else if k2 < k1 {
        assert(k2 * k2 * den <= (k1 - 1) * (k1 - 1) * den) by (nonlinear_arith)
            requires
                0 <= k2 <= k1 - 1,
                den > 0,
        ;
    }
}

/// The square root of `num / den` rounded up, by bisection.
fn ceil_root_of(num: u128, den: u128) -> (k: u128)
    requires
        0 < den < 0x1_0000,
        num < 0x1_0000_0000_0000_0000_0000,
    ensures
        k == ceil_root(num as int, den as int),
        is_ceil_root(k as int, num as int, den as int),
        k <= 0x100_0000_0000,
{
    if num == 0 {
        proof {
            assert(is_ceil_root(0, num as int, den as int));
            lemma_ceil_root(num as int, den as int);
            lemma_ceil_root_unique(0, ceil_root(num as int, den as int), num as int, den as int);
        }
        return 0;
    }
    let mut lo: u128 = 0;
    let mut hi: u128 = 0x100_0000_0000;
    assert(hi * hi * den >= num) by (nonlinear_arith)
        requires
            hi == 0x100_0000_0000,
            den >= 1,
            num < 0x1_0000_0000_0000_0000_0000,
    ;
    assert(lo * lo * den == 0) by (nonlinear_arith)
        requires
            lo == 0,
    ;
    while hi - lo > 1
        invariant
            0 < den < 0x1_0000,
            lo < hi <= 0x100_0000_0000,
            lo * lo * den < num,
            hi * hi * den >= num,
        decreases hi - lo,
    {
        let mid: u128 = lo + (hi - lo) / 2;
        assert(mid * mid <= 0x1_0000_0000_0000_0000_0000) by (nonlinear_arith)
            requires
                mid <= 0x100_0000_0000,
        ;
        assert(mid * mid * den <= 0x1_0000_0000_0000_0000_0000 * 0x1_0000) by (nonlinear_arith)
            requires
                mid * mid <= 0x1_0000_0000_0000_0000_0000,
                den < 0x1_0000,
        ;
        if mid * mid * den >= num {
            hi = mid;
        } else {
            lo = mid;
        }
    }
    proof {
        assert(hi - 1 == lo);
        assert(is_ceil_root(hi as int, num as int, den as int));
        lemma_ceil_root(num as int, den as int);
        lemma_ceil_root_unique(
            hi as int,
            ceil_root(num as int, den as int),
            num as int,
            den as int,
        );
    }
    hi
}


/// Rounding `a / b` up gives the least multiple of `b` that reaches `a`.
pub proof fn lemma_ceil_div(a: int, b: int)
    requires
        a >= 0,
        b > 0,
    ensures
        ceil_div(a, b) * b >= a,
        (ceil_div(a, b) - 1) * b < a,
        a > 0 ==> ceil_div(a, b) >= 1,
        ceil_div(a, b) <= a,
{
    let q = (a + b - 1) / b;
    assert(q * b <= a + b - 1 < q * b + b) by (nonlinear_arith)
        requires
            q == (a + b - 1) / b,
            b > 0,
    ;
    assert((q - 1) * b == q * b - b) by (nonlinear_arith);
    if a > 0 && q < 1 {
        assert(q * b <= 0) by (nonlinear_arith)
            requires
                q <= 0,
                b > 0,
        ;
    }
    if q > a {
        assert(q * b >= (a + 1) * b) by (nonlinear_arith)
            requires
                q >= a + 1,
                b > 0,
        ;
        assert((a + 1) * b >= a + b) by (nonlinear_arith)
            requires
                a >= 0,
                b >= 1,
        ;
    }
}

/// The grid has room for every mesh: `rows * cols >= n`, with at least one
/// row and one column.
pub proof fn lemma_grid_covers(n: int, h: int, w: int)
    requires
        n >= 1,
        h >= 1,
        w >= 1,
    ensures
        grid_rows(n, h, w) >= 1,
        grid_cols(n, h, w) >= 1,
        grid_rows(n, h, w) * grid_cols(n, h, w) >= n,
{
    let rows = grid_rows(n, h, w);
    let cols = grid_cols(n, h, w);
    assert(n * h >= 1 && n * w >= 1) by (nonlinear_arith)
        requires
            n >= 1,
            h >= 1,
            w >= 1,
    ;
    lemma_ceil_root(n * h, w);
    lemma_ceil_root(n * w, h);
    let up_h = ceil_root(n * h, w);
    let up_w = ceil_root(n * w, h);
    assert(up_h >= 1) by (nonlinear_arith)
        requires
            up_h >= 0,
            up_h * up_h * w >= n * h,
            n * h >= 1,
    ;
    assert(up_w >= 1) by (nonlinear_arith)
        requires
            up_w >= 0,
            up_w * up_w * h >= n * w,
            n * w >= 1,
    ;
    if rounds_height_first(n, h, w) {
        lemma_ceil_div(n, rows);
        assert(rows * cols == cols * rows) by (nonlinear_arith);
    } else {
        lemma_ceil_div(n, cols);
    }
}

/// Rows and columns for `mesh_count` meshes in a window of the given size.
pub fn grid_shape(mesh_count: usize, window_height: u16, window_width: u16) -> (shape: (u64, u64))
    requires
        mesh_count >= 1,
        window_height >= 1,
        window_width >= 1,
    ensures
        shape.0 == grid_rows(mesh_count as int, window_height as int, window_width as int),
        shape.1 == grid_cols(mesh_count as int, window_height as int, window_width as int),
        shape.0 >= 1,
        shape.1 >= 1,
        shape.0 * shape.1 >= mesh_count,
{
    let n: u128 = mesh_count as u128;
    let h: u128 = window_height as u128;
    let w: u128 = window_width as u128;
    assert(n * h < 0x1_0000_0000_0000_0000_0000 && n * w < 0x1_0000_0000_0000_0000_0000)
        by (nonlinear_arith)
        requires
            n < 0x1_0000_0000_0000_0000,
            h < 0x1_0000,
            w < 0x1_0000,
    ;
    let up_h: u128 = ceil_root_of(n * h, w);
    let up_w: u128 = ceil_root_of(n * w, h);
    assert(0 < w * h <= 0x1_0000_0000) by (nonlinear_arith)
        requires
            0 < h < 0x1_0000,
            0 < w < 0x1_0000,
    ;
    let a: i128 = up_h as i128 - up_w as i128;
    let b: i128 = h as i128 - w as i128;
    let x: i128 = (w * h) as i128;
    let y: i128 = n as i128;
    assert(0 <= a * a <= 0x1_0000_0000_0000_0000_0000) by (nonlinear_arith)
        requires
            -0x100_0000_0000 <= a <= 0x100_0000_0000,
    ;
    assert(0 <= a * a * x <= 0x1_0000_0000_0000_0000_0000 * 0x1_0000_0000) by (nonlinear_arith)
        requires
            0 <= a * a <= 0x1_0000_0000_0000_0000_0000,
            0 <= x <= 0x1_0000_0000,
    ;
    assert(0 <= b * b <= 0x1_0000_0000) by (nonlinear_arith)
        requires
            -0x1_0000 <= b <= 0x1_0000,
    ;
    assert(0 <= b * b * y <= 0x1_0000_0000 * 0x1_0000_0000_0000_0000) by (nonlinear_arith)
        requires
            0 <= b * b <= 0x1_0000_0000,
            0 <= y <= 0x1_0000_0000_0000_0000,
    ;
    let height_first = if a >= 0 && b <= 0 {
        false
    } else if a < 0 && b >= 0 {
        true
    } else if a >= 0 {
        a * a * x < b * b * y
    } else {
        a * a * x > b * b * y
    };
    assert(height_first == rounds_height_first(n as int, h as int, w as int));
    proof {
        lemma_grid_covers(n as int, h as int, w as int);
    }
    if height_first {
        proof {
            lemma_ceil_div(n as int, up_h as int);
        }
        let cols: u128 = (n + up_h - 1) / up_h;
        (up_h as u64, cols as u64)
    } else {
        proof {
            lemma_ceil_div(n as int, up_w as int);
        }
        let rows: u128 = (n + up_w - 1) / up_w;
        (rows as u64, up_w as u64)
    }
}

/// `p` is the position of cell `k` of a grid of `rows` by `cols` cells.
pub open spec fn is_cell_position(
    p: GridPosition,
    k: int,
    rows: int,
    cols: int,
    h: int,
    w: int,
) -> bool {
    &&& parts(p.x) == cell_x(k, cols, h, w)
    &&& parts(p.y) == cell_y(k, rows, cols)
}

/// `layout` is the layout of `n` meshes in a window `w` wide and `h` high:
/// the grid's dimensions are those of `grid_rows` and `grid_cols`; the
/// positions are the first `n` cells of the grid in row-major order, the
/// first row at the top, and cells left over at the end are dropped; the
/// scale is the smaller dimension of a cell.
pub open spec fn is_layout_of(layout: GridLayout, n: int, h: int, w: int) -> bool {
    &&& layout.rows == grid_rows(n, h, w)
    &&& layout.cols == grid_cols(n, h, w)
    &&& layout.positions@.len() == n
    &&& forall|k: int|
        0 <= k < n ==> is_cell_position(
            #[trigger] layout.positions@[k],
            k,
            layout.rows as int,
            layout.cols as int,
            h,
            w,
        )
    &&& parts(layout.scale) == cell_scale(layout.rows as int, layout.cols as int, h, w)
}

/// Places `mesh_count` meshes in a window of the given size: see
/// `is_layout_of`. There is one position for each mesh, also where the grid
/// has more cells than that.
pub fn generate_positions(mesh_count: usize, window_height: u16, window_width: u16) -> (layout:
    GridLayout)
    requires
        mesh_count >= 1,
        window_height >= 1,
        window_width >= 1,
    ensures
        is_layout_of(layout, mesh_count as int, window_height as int, window_width as int),
        layout.rows * layout.cols >= mesh_count,
{
    let (rows, cols) = grid_shape(mesh_count, window_height, window_width);
    let h: i128 = window_height as i128;
    let w: i128 = window_width as i128;
    let r: i128 = rows as i128;
    let c: i128 = cols as i128;
    assert(0 < h * c <= 0x1_0000 * 0x1_0000_0000_0000_0000) by (nonlinear_arith)
        requires
            0 < h < 0x1_0000,
            0 < c < 0x1_0000_0000_0000_0000,
    ;
    assert(0 < w * r <= 0x1_0000 * 0x1_0000_0000_0000_0000) by (nonlinear_arith)
        requires
            0 < w < 0x1_0000,
            0 < r < 0x1_0000_0000_0000_0000,
    ;
    let mut positions: Vec<GridPosition> = Vec::new();
    let mut k: usize = 0;
    while k < mesh_count
        invariant
            k <= mesh_count,
            positions@.len() == k,
            h == window_height,
            w == window_width,
            r == rows,
            c == cols,
            0 < h < 0x1_0000,
            0 < w < 0x1_0000,
            rows >= 1,
            cols >= 1,
            0 < h * c <= 0x1_0000 * 0x1_0000_0000_0000_0000,
            forall|m: int|
                0 <= m < k ==> is_cell_position(
                    #[trigger] positions@[m],
                    m,
                    rows as int,
                    cols as int,
                    h as int,
                    w as int,
                ),
        decreases mesh_count - k,
    {
        let i: i128 = (k as u64 / cols) as i128;
        let j: i128 = (k as u64 % cols) as i128;
        let across: i128 = 2 * j + 1 - c;
        assert(-0x2_0000 * 0x1_0000_0000_0000_0000 <= w * across <= 0x2_0000
            * 0x1_0000_0000_0000_0000) by (nonlinear_arith)
            requires
                0 < w < 0x1_0000,
                -0x2_0000_0000_0000_0000 <= across <= 0x2_0000_0000_0000_0000,
        ;
        let position = GridPosition {
            x: Ratio { num: w * across, den: 2 * (h * c) },
            y: Ratio { num: r - 2 * i - 1, den: 2 * r },
        };
        assert(2 * (h * c) == 2 * h * c) by (nonlinear_arith);
        positions.push(position);
        k = k + 1;
    }
    let scale = if h * c <= w * r {
        Ratio { num: 1, den: r }
    } else {
        Ratio { num: w, den: h * c }
    };
    GridLayout { rows, cols, positions, scale }
}


/// Every placed mesh lies strictly inside the viewport: its `y` is between
/// `-1/2` and `1/2`, its `x` between `-w / (2 * h)` and `w / (2 * h)`.
pub proof fn lemma_cell_inside_viewport(k: int, rows: int, cols: int, h: int, w: int)
    requires
        rows >= 1,
        cols >= 1,
        h >= 1,
        w >= 1,
        0 <= k < rows * cols,
    ensures
        cell_y(k, rows, cols).1 > 0,
        -cell_y(k, rows, cols).1 < 2 * cell_y(k, rows, cols).0 < cell_y(k, rows, cols).1,
        cell_x(k, cols, h, w).1 > 0,
        -w * cell_x(k, cols, h, w).1 < 2 * h * cell_x(k, cols, h, w).0 < w * cell_x(
            k,
            cols,
            h,
            w,
        ).1,
{
    let i = k / cols;
    let j = k % cols;
    assert(0 <= i < rows && 0 <= j < cols) by (nonlinear_arith)
        requires
            i == k / cols,
            j == k % cols,
            cols >= 1,
            0 <= k < rows * cols,
    ;
    let across = 2 * j + 1 - cols;
    assert(-cols < across < cols);
    assert(2 * h * cols > 0) by (nonlinear_arith)
        requires
            h >= 1,
            cols >= 1,
    ;
    assert(2 * h * (w * across) < w * (2 * h * cols) && -w * (2 * h * cols) < 2 * h * (w * across))
        by (nonlinear_arith)
        requires
            -cols < across < cols,
            h >= 1,
            w >= 1,
    ;
}

/// The fractions of `cell_y` and `cell_x` are the centres of the cell's row
/// and column: with row `i` and column `j`, counted from 0, and the
/// viewport `w / h` wide, `y` is `1/2 - (i + 1/2) / rows` and `x` is
/// `-(w / h) / 2 + (j + 1/2) * (w / h) / cols`.
pub proof fn lemma_cell_centre(k: int, rows: int, cols: int, h: int, w: int)
    requires
        rows >= 1,
        cols >= 1,
        h >= 1,
        w >= 1,
    ensures
        (cell_y(k, rows, cols).0 as real) / (cell_y(k, rows, cols).1 as real) == 1real / 2real - ((k
            / cols) as real + 1real / 2real) / (rows as real),
        (cell_x(k, cols, h, w).0 as real) / (cell_x(k, cols, h, w).1 as real) == -((w as real) / (
        h as real)) / 2real + ((k % cols) as real + 1real / 2real) * ((w as real) / (h as real)) / (
        cols as real),
{
    let i = (k / cols) as real;
    let j = (k % cols) as real;
    let r = rows as real;
    let c = cols as real;
    let hr = h as real;
    let wr = w as real;
    assert((r - 2real * i - 1real) / (2real * r) == 1real / 2real - (i + 1real / 2real) / r)
        by (nonlinear_arith)
        requires
            r >= 1real,
    ;
    lemma_real_of_product(w, 2 * (k % cols) + 1 - cols);
    lemma_real_of_product(2 * h, cols);
    assert((wr * (2real * j + 1real - c)) / (2real * hr * c) == -(wr / hr) / 2real + (j + 1real
        / 2real) * (wr / hr) / c) by (nonlinear_arith)
        requires
            c >= 1real,
            hr >= 1real,
    ;
}

/// No two meshes are placed at the same point: different cells differ in
/// `x` or in `y`.
pub proof fn lemma_cells_are_distinct(j: int, k: int, rows: int, cols: int, h: int, w: int)
    requires
        cols >= 1,
        w >= 1,
        0 <= j,
        0 <= k,
        j != k,
    ensures
        cell_x(j, cols, h, w) != cell_x(k, cols, h, w) || cell_y(j, rows, cols) != cell_y(
            k,
            rows,
            cols,
        ),
{
    if j / cols == k / cols && j % cols != k % cols {
        let a = 2 * (j % cols) + 1 - cols;
        let b = 2 * (k % cols) + 1 - cols;
        assert(w * a != w * b) by (nonlinear_arith)
            requires
                a != b,
                w >= 1,
        ;
    } else if j / cols == k / cols {
        assert(j == cols * (j / cols) + j % cols && k == cols * (k / cols) + k % cols)
            by (nonlinear_arith)
            requires
                cols >= 1,
        ;
    }
}

/// The scale is the smaller of a cell's two dimensions: it exceeds neither
/// the cell's height `1 / rows` nor its width `w / (h * cols)`, and equals
/// one of them.
pub proof fn lemma_scale_fits_cell(rows: int, cols: int, h: int, w: int)
    requires
        rows >= 1,
        cols >= 1,
        h >= 1,
        w >= 1,
    ensures
        cell_scale(rows, cols, h, w).1 > 0,
        cell_scale(rows, cols, h, w).0 * rows <= cell_scale(rows, cols, h, w).1,
        cell_scale(rows, cols, h, w).0 * (h * cols) <= w * cell_scale(rows, cols, h, w).1,
        cell_scale(rows, cols, h, w) == (1int, rows) || cell_scale(rows, cols, h, w) == (
            w,
            h * cols,
        ),
{
    assert(h * cols >= 1) by (nonlinear_arith)
        requires
            h >= 1,
            cols >= 1,
    ;
    if h * cols <= w * rows {
    } else {
        assert(w * rows <= h * cols);
        assert(w * (h * cols) == w * (h * cols));
    }
}

/// Casting to a real number commutes with multiplication.
proof fn lemma_real_of_product(x: int, y: int)
    ensures
        (x * y) as real == (x as real) * (y as real),
    decreases
            if y >= 0 {
                y
            } else {
                -y
            },
{
    let xr = x as real;
    let yr = y as real;
    if y == 0 {
        assert(x * y == 0) by (nonlinear_arith)
            requires
                y == 0,
        ;
        assert(xr * yr == 0real) by (nonlinear_arith)
            requires
                yr == 0real,
        ;
    } else if y > 0 {
        lemma_real_of_product(x, y - 1);
        let zr = (y - 1) as real;
        assert(x * y == x * (y - 1) + x) by (nonlinear_arith);
        assert(yr == zr + 1real);
        assert((x * y) as real == (x * (y - 1)) as real + xr);
        assert(xr * yr == xr * zr + xr) by (nonlinear_arith)
            requires
                yr == zr + 1real,
        ;
    } else {
        lemma_real_of_product(x, y + 1);
        let zr = (y + 1) as real;
        assert(x * y == x * (y + 1) - x) by (nonlinear_arith);
        assert(yr == zr - 1real);
        assert((x * y) as real == (x * (y + 1)) as real - xr);
        assert(xr * yr == xr * zr - xr) by (nonlinear_arith)
            requires
                yr == zr - 1real,
        ;
    }
}

/// For non-negative reals the order of two numbers is that of their squares.
proof fn lemma_real_square_order(u: real, v: real)
    requires
        u >= 0real,
        v >= 0real,
    ensures
        u < v <==> u * u < v * v,
        u == v <==> u * u == v * v,
{
    assert(u < v ==> u * u < v * v) by (nonlinear_arith)
        requires
            u >= 0real,
            v >= 0real,
    ;
    assert(v < u ==> v * v < u * u) by (nonlinear_arith)
        requires
            u >= 0real,
            v >= 0real,
    ;
}

/// The integer test behind `rounds_height_first` decides what its name says
/// of the ideal dimensions themselves: for the real numbers `height` and
/// `width` with `height * height == n * h / w` and
/// `width * width == n * w / h`, the height is rounded up first exactly when
/// its distance to its rounded-up value is the smaller one.
pub proof fn lemma_rounds_height_first(n: int, h: int, w: int, height: real, width: real)
    requires
        n >= 1,
        h >= 1,
        w >= 1,
        height >= 0real,
        width >= 0real,
        height * height * (w as real) == (n as real) * (h as real),
        width * width * (h as real) == (n as real) * (w as real),
    ensures
        rounds_height_first(n, h, w) <==> (ceil_root(n * h, w) as real) - height < (ceil_root(
            n * w,
            h,
        ) as real) - width,
{
    let a = ceil_root(n * h, w) - ceil_root(n * w, h);
    let b = h - w;
    let ar = a as real;
    let br = b as real;
    let hr = h as real;
    let wr = w as real;
    let nr = n as real;
    let s = height;
    let t = width;
    // The two ideal dimensions are in the window's proportion.
    let u = s * wr;
    let v = t * hr;
    assert(u * u == nr * hr * wr) by (nonlinear_arith)
        requires
            u == s * wr,
            s * s * wr == nr * hr,
    ;
    assert(v * v == nr * hr * wr) by (nonlinear_arith)
        requires
            v == t * hr,
            t * t * hr == nr * wr,
    ;
    assert(u >= 0real && v >= 0real) by (nonlinear_arith)
        requires
            u == s * wr,
            v == t * hr,
            s >= 0real,
            t >= 0real,
            wr >= 1real,
            hr >= 1real,
    ;
    lemma_real_square_order(u, v);
    assert(s * wr == t * hr);
    // So `H - height < W - width` is `a * h < height * (h - w)`.
    let lhs = ar * hr;
    let rhs = s * br;
    assert((ar < s - t) <==> (lhs < rhs)) by (nonlinear_arith)
        requires
            lhs == ar * hr,
            rhs == s * br,
            br == hr - wr,
            s * wr == t * hr,
            hr >= 1real,
    ;
    // The squares of both sides, scaled by `w`, are the integers compared.
    let p = ar * ar * (wr * hr);
    let q = br * br * nr;
    assert(lhs * lhs * wr == p * hr) by (nonlinear_arith)
        requires
            lhs == ar * hr,
            p == ar * ar * (wr * hr),
    ;
    assert(rhs * rhs * wr == q * hr) by (nonlinear_arith)
        requires
            rhs == s * br,
            q == br * br * nr,
            s * s * wr == nr * hr,
    ;
    assert((lhs * lhs < rhs * rhs) <==> (p < q)) by (nonlinear_arith)
        requires
            lhs * lhs * wr == p * hr,
            rhs * rhs * wr == q * hr,
            wr >= 1real,
            hr >= 1real,
    ;
    assert((lhs * lhs > rhs * rhs) <==> (p > q)) by (nonlinear_arith)
        requires
            lhs * lhs * wr == p * hr,
            rhs * rhs * wr == q * hr,
            wr >= 1real,
            hr >= 1real,
    ;
    lemma_real_of_product(a, a);
    lemma_real_of_product(a * a, w * h);
    lemma_real_of_product(w, h);
    lemma_real_of_product(b, b);
    lemma_real_of_product(b * b, n);
    assert((a * a * (w * h)) as real == p);
    assert((b * b * n) as real == q);
    assert(s > 0real) by (nonlinear_arith)
        requires
            s >= 0real,
            s * s * wr == nr * hr,
            nr >= 1real,
            hr >= 1real,
    ;
    if a >= 0 && b <= 0 {
        assert(lhs >= 0real && rhs <= 0real) by (nonlinear_arith)
            requires
                lhs == ar * hr,
                rhs == s * br,
                ar >= 0real,
                br <= 0real,
                hr >= 1real,
                s > 0real,
        ;
    } else if a < 0 && b >= 0 {
        assert(lhs < 0real && rhs >= 0real) by (nonlinear_arith)
            requires
                lhs == ar * hr,
                rhs == s * br,
                ar < 0real,
                br >= 0real,
                hr >= 1real,
                s > 0real,
        ;
    } else if a >= 0 {
        assert(lhs >= 0real && rhs >= 0real) by (nonlinear_arith)
            requires
                lhs == ar * hr,
                rhs == s * br,
                ar >= 0real,
                br >= 0real,
                hr >= 1real,
                s > 0real,
        ;
        lemma_real_square_order(lhs, rhs);
    } else {
        assert(-lhs >= 0real && -rhs >= 0real) by (nonlinear_arith)
            requires
                lhs == ar * hr,
                rhs == s * br,
                ar <= 0real,
                br <= 0real,
                hr >= 1real,
                s > 0real,
        ;
        lemma_real_square_order(-rhs, -lhs);
        assert((-rhs) * (-rhs) == rhs * rhs && (-lhs) * (-lhs) == lhs * lhs) by (nonlinear_arith);
    }
}

} // verus!
