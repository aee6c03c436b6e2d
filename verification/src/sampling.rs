use vstd::prelude::*;
use vstd::arithmetic::div_mod::{
    lemma_div_pos_is_pos, lemma_fundamental_div_mod, lemma_fundamental_div_mod_converse, lemma_mod_pos_bound,
};

verus! {

/// `a / b` rounded up, for `a >= 0` and `b > 0`.
pub open spec fn ceil_div(a: int, b: int) -> int {
    (a + b - 1) / b
}

/// The number of sampled columns: the multiples of `grid_x` below `width`.
pub open spec fn sample_cols(width: int, grid_x: int) -> int {
    ceil_div(width, grid_x)
}

/// The number of sampled rows: the multiples of `grid_y` below `height`.
pub open spec fn sample_rows(height: int, grid_y: int) -> int {
    ceil_div(height, grid_y)
}

/// The `n`-th sampled pixel, rows first: `(x, y, height - y)`, where the last component is the
/// row counted from the bottom edge.
pub open spec fn sample_at(width: int, height: int, grid_x: int, grid_y: int, n: int) -> (int, int, int) {
    let cols = sample_cols(width, grid_x);
    ((n % cols) * grid_x, (n / cols) * grid_y, height - (n / cols) * grid_y)
}

/// Counting up one step adds a multiple exactly when the counted value is a multiple, and a
/// multiple is its count of smaller multiples times the step.
proof fn lemma_ceil_step(x: int, g: int)
    requires
        x >= 0,
        g > 0,
    ensures
        ceil_div(x + 1, g) == ceil_div(x, g) + (if x % g == 0 { 1int } else { 0int }),
        x % g == 0 ==> x == ceil_div(x, g) * g,
        ceil_div(x, g) >= 0,
        x == 0 ==> ceil_div(x, g) == 0,
{
    lemma_fundamental_div_mod_converse(g - 1, g, 0, g - 1);
    let q = x / g;
    let r = x % g;
    lemma_fundamental_div_mod(x, g);
    lemma_mod_pos_bound(x, g);
    assert(x == q * g + r) by (nonlinear_arith)
        requires x == g * (x / g) + (x % g), q == x / g, r == x % g;
    assert((q + 1) * g == q * g + g) by (nonlinear_arith);
    if r == 0 {
        lemma_fundamental_div_mod_converse(x + g - 1, g, q, g - 1);
        lemma_fundamental_div_mod_converse(x + 1 + g - 1, g, q + 1, 0);
    } else {
        lemma_fundamental_div_mod_converse(x + g - 1, g, q + 1, r - 1);
        lemma_fundamental_div_mod_converse(x + 1 + g - 1, g, q + 1, r);
    }
    assert(q >= 0) by (nonlinear_arith)
        requires x >= 0, g > 0, x == q * g + r, 0 <= r < g;
}

/// A multiple `c * g` below `w` has `c` below the number of multiples below `w`.
proof fn lemma_count_bound(c: int, g: int, w: int)
    requires
        c >= 0,
        g > 0,
        c * g < w,
    ensures
        c < ceil_div(w, g),
{
    let b = w + g - 1;
    lemma_fundamental_div_mod(b, g);
    lemma_mod_pos_bound(b, g);
    assert(c < b / g) by (nonlinear_arith)
        requires c * g < w, b == w + g - 1, b == g * (b / g) + (b % g), 0 <= b % g < g, g > 0;
}

/// The index of sample `(row, col)` splits back into its row and column.
proof fn lemma_index_split(row: int, col: int, cols: int)
    requires
        cols > 0,
        0 <= col < cols,
        row >= 0,
    ensures
        (row * cols + col) / cols == row,
        (row * cols + col) % cols == col,
{
    lemma_fundamental_div_mod_converse(row * cols + col, cols, row, col);
}

/// Law: every sampled pixel lies inside the image, on the grid, and its row counted from the
/// bottom edge lies in `1..=height`, so both screen coordinates the renderer derives from it
/// lie in `[0, 1]`.
pub proof fn lemma_samples_inside_image(width: u32, height: u32, grid_x: u32, grid_y: u32, n: int)
    requires
        grid_x > 0,
        grid_y > 0,
        0 <= n < sample_rows(height as int, grid_y as int) * sample_cols(width as int, grid_x as int),
    ensures
        ({
            let s = sample_at(width as int, height as int, grid_x as int, grid_y as int, n);
            &&& 0 <= s.0 < width
            &&& 0 <= s.1 < height
            &&& s.0 % (grid_x as int) == 0
            &&& s.1 % (grid_y as int) == 0
            &&& 0 < s.2 <= height
        }),
{
    let w = width as int;
    let h = height as int;
    let gx = grid_x as int;
    let gy = grid_y as int;
    let cols = sample_cols(w, gx);
    let rows = sample_rows(h, gy);
    lemma_ceil_step(w, gx);
    lemma_ceil_step(h, gy);
    assert(cols > 0 && rows > 0) by (nonlinear_arith)
        requires 0 <= n < rows * cols, cols >= 0, rows >= 0;
    let c = n % cols;
    let r = n / cols;
    lemma_mod_pos_bound(n, cols);
    lemma_fundamental_div_mod(n, cols);
    assert(0 <= r < rows) by (nonlinear_arith)
        requires n == cols * r + c, 0 <= c < cols, 0 <= n < rows * cols, cols > 0;
    lemma_multiple_below(c, gx, w);
    lemma_multiple_below(r, gy, h);
    vstd::arithmetic::div_mod::lemma_mod_multiples_basic(c, gx);
    vstd::arithmetic::div_mod::lemma_mod_multiples_basic(r, gy);
}

/// A count below the number of multiples of `g` under `w` gives a multiple under `w`.
proof fn lemma_multiple_below(c: int, g: int, w: int)
    requires
        g > 0,
        w >= 0,
        0 <= c < ceil_div(w, g),
    ensures
        0 <= c * g < w,
{
    let b = w + g - 1;
    lemma_fundamental_div_mod(b, g);
    lemma_mod_pos_bound(b, g);
    assert(0 <= c * g < w) by (nonlinear_arith)
        requires 0 <= c < b / g, b == w + g - 1, b == g * (b / g) + (b % g), 0 <= b % g < g, g > 0;
}

/// Law: samples come in increasing order, rows first: a later sample lies in a lower row, or in
/// the same row further right.
pub proof fn lemma_sample_order(width: u32, height: u32, grid_x: u32, grid_y: u32, n: int, m: int)
    requires
        grid_x > 0,
        grid_y > 0,
        0 <= n < m < sample_rows(height as int, grid_y as int) * sample_cols(width as int, grid_x as int),
    ensures
        ({
            let a = sample_at(width as int, height as int, grid_x as int, grid_y as int, n);
            let b = sample_at(width as int, height as int, grid_x as int, grid_y as int, m);
            a.1 < b.1 || (a.1 == b.1 && a.0 < b.0)
        }),
{
    let w = width as int;
    let h = height as int;
    let gx = grid_x as int;
    let gy = grid_y as int;
    let cols = sample_cols(w, gx);
    let rows = sample_rows(h, gy);
    lemma_ceil_step(w, gx);
    lemma_ceil_step(h, gy);
    assert(cols > 0) by (nonlinear_arith)
        requires 0 <= n < m < rows * cols, cols >= 0, rows >= 0;
    lemma_fundamental_div_mod(n, cols);
    lemma_fundamental_div_mod(m, cols);
    lemma_mod_pos_bound(n, cols);
    lemma_mod_pos_bound(m, cols);
    let rn = n / cols;
    let rm = m / cols;
    let cn = n % cols;
    let cm = m % cols;
    assert(rn <= rm) by (nonlinear_arith)
        requires n == cols * rn + cn, m == cols * rm + cm, 0 <= cn < cols, 0 <= cm < cols, n < m;
    if rn < rm {
        assert(rn * gy < rm * gy) by (nonlinear_arith) requires rn < rm, gy > 0;
    } else {
        assert(cn < cm) by (nonlinear_arith)
            requires n == cols * rn + cn, m == cols * rm + cm, rn == rm, n < m;
        assert(cn * gx < cm * gx) by (nonlinear_arith) requires cn < cm, gx > 0;
    }
}

/// Law: every pixel on the grid inside the image is sampled; the returned index is where.
pub proof fn lemma_sample_complete(width: u32, height: u32, grid_x: u32, grid_y: u32, x: int, y: int) -> (n: int)
    requires
        grid_x > 0,
        grid_y > 0,
        0 <= x < width,
        0 <= y < height,
        x % (grid_x as int) == 0,
        y % (grid_y as int) == 0,
    ensures
        0 <= n < sample_rows(height as int, grid_y as int) * sample_cols(width as int, grid_x as int),
        sample_at(width as int, height as int, grid_x as int, grid_y as int, n).0 == x,
        sample_at(width as int, height as int, grid_x as int, grid_y as int, n).1 == y,
{
    let w = width as int;
    let h = height as int;
    let gx = grid_x as int;
    let gy = grid_y as int;
    let cols = sample_cols(w, gx);
    let rows = sample_rows(h, gy);
    lemma_fundamental_div_mod(x, gx);
    lemma_fundamental_div_mod(y, gy);
    let c = x / gx;
    let row = y / gy;
    lemma_div_pos_is_pos(x, gx);
    lemma_div_pos_is_pos(y, gy);
    assert(x == c * gx) by (nonlinear_arith) requires x == gx * c + x % gx, x % gx == 0;
    assert(y == row * gy) by (nonlinear_arith) requires y == gy * row + y % gy, y % gy == 0;
    lemma_count_bound(c, gx, w);
    lemma_count_bound(row, gy, h);
    lemma_index_split(row, c, cols);
    let n = row * cols + c;
    assert(0 <= n < rows * cols) by (nonlinear_arith)
        requires n == row * cols + c, 0 <= c < cols, 0 <= row < rows;
    n
}

/// The pixels an image render samples, in the order it visits them: rows from top to bottom,
/// each row from left to right, keeping the rows whose index is a multiple of `grid_y` and the
/// columns whose index is a multiple of `grid_x`. Each entry is `(x, y, height - y)`.
pub fn sample_pixels(width: u32, height: u32, grid_x: u32, grid_y: u32) -> (r: Vec<(u32, u32, u32)>)
    requires
        grid_x > 0,
        grid_y > 0,
    ensures
        r.len() == sample_rows(height as int, grid_y as int) * sample_cols(width as int, grid_x as int),
        forall|n: int| 0 <= n < r.len() ==> {
            let s = #[trigger] sample_at(width as int, height as int, grid_x as int, grid_y as int, n);
            r[n].0 as int == s.0 && r[n].1 as int == s.1 && r[n].2 as int == s.2
        },
        forall|n: int| 0 <= n < r.len() ==> {
            &&& #[trigger] r[n].0 < width
            &&& r[n].1 < height
            &&& r[n].0 % grid_x == 0
            &&& r[n].1 % grid_y == 0
            &&& r[n].2 == height - r[n].1
        },
        forall|n: int, m: int| 0 <= n < m < r.len() ==>
            #[trigger] r[n].1 < #[trigger] r[m].1 || (r[n].1 == r[m].1 && r[n].0 < r[m].0),
        forall|x: u32, y: u32| #![trigger x % grid_x, y % grid_y]
            x < width && y < height && x % grid_x == 0 && y % grid_y == 0 ==>
            exists|n: int| 0 <= n < r.len() && #[trigger] r[n].0 == x && r[n].1 == y,
{
    let ghost cols = sample_cols(width as int, grid_x as int);
    let ghost ww = width as int;
    let ghost hh = height as int;
    let ghost gx = grid_x as int;
    let ghost gy = grid_y as int;
    proof {
        lemma_ceil_step(0, gx);
        lemma_ceil_step(0, gy);
        lemma_ceil_step(ww, gx);
    }
    let mut r: Vec<(u32, u32, u32)> = Vec::new();
    let mut y: u32 = 0;
    while y < height
        invariant
            grid_x > 0,
            grid_y > 0,
            cols == sample_cols(ww, gx),
            cols >= 0,
            ww == width,
            hh == height,
            gx == grid_x,
            gy == grid_y,
            y <= height,
            r.len() == ceil_div(y as int, gy) * cols,
            forall|n: int| 0 <= n < r.len() ==> {
                let s = #[trigger] sample_at(ww, hh, gx, gy, n);
                r[n].0 as int == s.0 && r[n].1 as int == s.1 && r[n].2 as int == s.2
            },
        decreases height - y,
    {
        proof {
            lemma_ceil_step(y as int, gy);
        }
        if y % grid_y == 0 {
            let ghost row = ceil_div(y as int, gy);
            proof {
                lemma_ceil_step(0, gx);
            }
            let mut x: u32 = 0;
            while x < width
                invariant
                    grid_x > 0,
                    grid_y > 0,
                    cols == sample_cols(ww, gx),
                    ww == width,
                    hh == height,
                    gx == grid_x,
                    gy == grid_y,
                    y < height,
                    row >= 0,
                    y as int == row * gy,
                    x <= width,
                    r.len() == row * cols + ceil_div(x as int, gx),
                    forall|n: int| 0 <= n < r.len() ==> {
                        let s = #[trigger] sample_at(ww, hh, gx, gy, n);
                        r[n].0 as int == s.0 && r[n].1 as int == s.1 && r[n].2 as int == s.2
                    },
                decreases width - x,
            {
                proof {
                    lemma_ceil_step(x as int, gx);
                }
                if x % grid_x == 0 {
                    proof {
                        let c = ceil_div(x as int, gx);
                        lemma_count_bound(c, gx, ww);
                        lemma_index_split(row, c, cols);
                        assert(sample_at(ww, hh, gx, gy, row * cols + c)
                            == (x as int, y as int, hh - y as int));
                    }
                    r.push((x, y, height - y));
                }
                x = x + 1;
            }
            proof {
                assert(ceil_div(ww, gx) == cols);
                assert((row + 1) * cols == row * cols + cols) by (nonlinear_arith);
            }
        }
        y = y + 1;
    }
    proof {
        assert forall|n: int| 0 <= n < r.len() implies {
            &&& #[trigger] r[n].0 < width
            &&& r[n].1 < height
            &&& r[n].0 % grid_x == 0
            &&& r[n].1 % grid_y == 0
            &&& r[n].2 == height - r[n].1
        } by {
            let _ = sample_at(ww, hh, gx, gy, n);
            lemma_samples_inside_image(width, height, grid_x, grid_y, n);
        }
        assert forall|n: int, m: int| 0 <= n < m < r.len() implies
            #[trigger] r[n].1 < #[trigger] r[m].1 || (r[n].1 == r[m].1 && r[n].0 < r[m].0) by {
            let _ = sample_at(ww, hh, gx, gy, n);
            let _ = sample_at(ww, hh, gx, gy, m);
            lemma_sample_order(width, height, grid_x, grid_y, n, m);
        }
        assert forall|x: u32, y: u32| #![trigger x % grid_x, y % grid_y]
            x < width && y < height && x % grid_x == 0 && y % grid_y == 0 implies
            exists|n: int| 0 <= n < r.len() && #[trigger] r[n].0 == x && r[n].1 == y by {
            let n = lemma_sample_complete(width, height, grid_x, grid_y, x as int, y as int);
            let _ = sample_at(ww, hh, gx, gy, n);
            assert(r[n].0 == x && r[n].1 == y);
        }
    }
    r
}

/// The length of the progress count: the whole number of grid cells across the image times
/// the whole number down it. The product must fit in a `u32`.
pub fn progress_len(width: u32, height: u32, grid_x: u32, grid_y: u32) -> (r: u64)
    requires
        grid_x > 0,
        grid_y > 0,
        (width / grid_x) * (height / grid_y) <= u32::MAX,
    ensures
        r == (width / grid_x) * (height / grid_y),
{
    let p: u32 = (width / grid_x) * (height / grid_y);
    p as u64
}

/// Law: where the grid divides the image evenly, the progress count equals the number of
/// sampled pixels.
pub proof fn lemma_progress_matches_samples(width: u32, height: u32, grid_x: u32, grid_y: u32)
    requires
        grid_x > 0,
        grid_y > 0,
        width % grid_x == 0,
        height % grid_y == 0,
    ensures
        sample_rows(height as int, grid_y as int) * sample_cols(width as int, grid_x as int)
            == (width / grid_x) * (height / grid_y),
{
    let w = width as int;
    let h = height as int;
    let gx = grid_x as int;
    let gy = grid_y as int;
    lemma_fundamental_div_mod(w, gx);
    lemma_fundamental_div_mod(h, gy);
    assert(w + gx - 1 == (w / gx) * gx + (gx - 1)) by (nonlinear_arith)
        requires w == gx * (w / gx) + w % gx, w % gx == 0;
    assert(h + gy - 1 == (h / gy) * gy + (gy - 1)) by (nonlinear_arith)
        requires h == gy * (h / gy) + h % gy, h % gy == 0;
    lemma_fundamental_div_mod_converse(w + gx - 1, gx, w / gx, gx - 1);
    lemma_fundamental_div_mod_converse(h + gy - 1, gy, h / gy, gy - 1);
    assert((h / gy) * (w / gx) == (w / gx) * (h / gy)) by (nonlinear_arith);
}

} // verus!
