use crate::error_correction::{ECLevel, GaloisField};
use crate::patterns::{format_in, format_val, lemma_stamp_put, lemma_stamp_same, lemma_stamp_nothing, stamp, tag_all, PatternMaskType};
use crate::qr::{copy_grid, is_square, rows_of, QR};
use vstd::prelude::*;

verus! {

/// A rectangular grid of at least one cell and at most 1000 rows and columns.
pub open spec fn grid_ok(g: Seq<Seq<u8>>) -> bool {
    &&& 1 <= g.len() <= 1000
    &&& 1 <= g[0].len() <= 1000
    &&& forall|y: int| 0 <= y < g.len() ==> (#[trigger] g[y]).len() == g[0].len()
}

/// Column `c` of a grid, top to bottom.
pub open spec fn column(g: Seq<Seq<u8>>, c: int) -> Seq<u8> {
    Seq::new(g.len(), |y: int| g[y][c])
}

/// Length of the run of equal values that ends at index `k - 1`.
pub open spec fn run_len_at(s: Seq<u8>, k: int) -> int
    decreases k,
{
    if k <= 1 {
        if k == 1 { 1 } else { 0 }
    } else if s[k - 1] == s[k - 2] {
        run_len_at(s, k - 1) + 1
    } else {
        1
    }
}

/// What cell `i` adds to the run penalty: a maximal run of five or more equal values
/// counts its length less two, at its last cell.
pub open spec fn run_contrib(s: Seq<u8>, i: int) -> int {
    let ends = i == s.len() - 1 || s[i + 1] != s[i];
    let l = run_len_at(s, i + 1);
    if ends && l >= 5 { l - 2 } else { 0 }
}

/// Run penalty of the first `k` cells' contributions.
pub open spec fn run_penalty_upto(s: Seq<u8>, k: int) -> int
    decreases k,
{
    if k <= 0 { 0 } else { run_penalty_upto(s, k - 1) + run_contrib(s, k - 1) }
}

/// Run penalty of one line.
pub open spec fn run_penalty(s: Seq<u8>) -> int {
    run_penalty_upto(s, s.len() as int)
}

/// Run penalty of the first `k` rows.
pub open spec fn rows_penalty(g: Seq<Seq<u8>>, k: int) -> int
    decreases k,
{
    if k <= 0 { 0 } else { rows_penalty(g, k - 1) + run_penalty(g[k - 1]) }
}

/// Run penalty of the first `k` columns.
pub open spec fn columns_penalty(g: Seq<Seq<u8>>, k: int) -> int
    decreases k,
{
    if k <= 0 { 0 } else { columns_penalty(g, k - 1) + run_penalty(column(g, k - 1)) }
}

/// Run penalty of a grid: every row and every column.
pub open spec fn line_penalty_of(g: Seq<Seq<u8>>) -> int {
    rows_penalty(g, g.len() as int) + columns_penalty(g, g[0].len() as int)
}

/// Length of the run ending at `k - 1` when that run goes on past it, else 0.
pub open spec fn open_run(s: Seq<u8>, k: int) -> int {
    if k >= 1 && k < s.len() && s[k] == s[k - 1] { run_len_at(s, k) } else { 0 }
}

proof fn lemma_run_bounds(s: Seq<u8>, k: int)
    requires
        0 <= k <= s.len(),
    ensures
        0 <= run_len_at(s, k) <= k,
        k >= 1 ==> run_len_at(s, k) >= 1,
        0 <= run_penalty_upto(s, k),
        run_penalty_upto(s, k) + open_run(s, k) <= k,
    decreases k,
{
    if k > 0 {
        lemma_run_bounds(s, k - 1);
    }
}

/// Run penalty of one line of cells.
fn line_run_penalty(cells: &Vec<u8>) -> (r: i32)
    requires
        1 <= cells@.len() <= 1000,
    ensures
        r == run_penalty(cells@),
        0 <= r <= cells@.len(),
{
    let ghost s = cells@;
    let len = cells.len();
    let mut penalty: i32 = 0;
    let mut counting: u8 = cells[0];
    let mut count: i32 = 1;
    let mut x: usize = 1;
    while x < len
        invariant
            s == cells@,
            len == s.len(),
            1 <= len <= 1000,
            1 <= x <= len,
            counting == s[x - 1],
            count == run_len_at(s, x as int),
            penalty == run_penalty_upto(s, x - 1),
        decreases len - x,
    {
        proof {
            lemma_run_bounds(s, x as int);
            lemma_run_bounds(s, x - 1);
        }
        if cells[x] != counting {
            if count >= 5 {
                penalty = penalty + count - 2;
            }
            counting = cells[x];
            count = 1;
        } else {
            count = count + 1;
        }
        x = x + 1;
    }
    proof {
        lemma_run_bounds(s, len as int);
        lemma_run_bounds(s, len - 1);
    }
    if count >= 5 {
        penalty = penalty + count - 2;
    }
    penalty
}

proof fn lemma_lines_bound(g: Seq<Seq<u8>>, k: int)
    requires
        grid_ok(g),
        0 <= k <= g.len(),
    ensures
        0 <= rows_penalty(g, k) <= k * g[0].len(),
    decreases k,
{
    if k > 0 {
        lemma_lines_bound(g, k - 1);
        lemma_run_bounds(g[k - 1], g[k - 1].len() as int);
        assert((k - 1) * g[0].len() + g[0].len() == k * g[0].len()) by (nonlinear_arith);
    }
}

proof fn lemma_columns_bound(g: Seq<Seq<u8>>, k: int)
    requires
        grid_ok(g),
        0 <= k <= g[0].len(),
    ensures
        0 <= columns_penalty(g, k) <= k * g.len(),
    decreases k,
{
    if k > 0 {
        lemma_columns_bound(g, k - 1);
        lemma_run_bounds(column(g, k - 1), g.len() as int);
        assert((k - 1) * g.len() + g.len() == k * g.len()) by (nonlinear_arith);
    }
}

/// Run penalty: every maximal run of five or more equal modules in a row or a column
/// adds its length less two.
pub fn line_penalty(bitmap: &Vec<Vec<u8>>) -> (r: i32)
    requires
        grid_ok(rows_of(bitmap@)),
    ensures
        r == line_penalty_of(rows_of(bitmap@)),
        0 <= r <= 2 * 1000 * 1000,
{
    let ghost g = rows_of(bitmap@);
    let height = bitmap.len();
    let width = bitmap[0].len();
    assert(g[0] == bitmap@[0]@);
    let mut penalty: i32 = 0;
    let mut y: usize = 0;
    while y < height
        invariant
            g == rows_of(bitmap@),
            grid_ok(g),
            height == g.len(),
            width == g[0].len(),
            y <= height,
            penalty == rows_penalty(g, y as int),
        decreases height - y,
    {
        proof {
            lemma_lines_bound(g, y as int);
            lemma_lines_bound(g, y + 1);
            assert(g[y as int] == bitmap@[y as int]@);
            assert(y * width <= 1000 * 1000) by (nonlinear_arith)
                requires
                    y <= 1000,
                    width <= 1000,
            ;
        }
        let p = line_run_penalty(&bitmap[y]);
        penalty = penalty + p;
        y = y + 1;
    }
    proof {
        lemma_lines_bound(g, height as int);
        assert(height * width <= 1000 * 1000) by (nonlinear_arith)
            requires
                height <= 1000,
                width <= 1000,
        ;
    }
    let mut x: usize = 0;
    while x < width
        invariant
            g == rows_of(bitmap@),
            grid_ok(g),
            height == g.len(),
            width == g[0].len(),
            x <= width,
            0 <= rows_penalty(g, height as int) <= 1000 * 1000,
            penalty == rows_penalty(g, height as int) + columns_penalty(g, x as int),
            0 <= columns_penalty(g, x as int) <= 1000 * 1000,
        decreases width - x,
    {
        let mut col: Vec<u8> = Vec::new();
        let mut y: usize = 0;
        while y < height
            invariant
                g == rows_of(bitmap@),
                grid_ok(g),
                height == g.len(),
                width == g[0].len(),
                x < width,
                y <= height,
                col@ == column(g, x as int).subrange(0, y as int),
            decreases height - y,
        {
            assert(g[y as int] == bitmap@[y as int]@);
            col.push(bitmap[y][x]);
            y = y + 1;
            assert(col@ =~= column(g, x as int).subrange(0, y as int));
        }
        assert(col@ =~= column(g, x as int));
        proof {
            lemma_columns_bound(g, x as int);
            lemma_columns_bound(g, x + 1);
            assert(x * height <= 1000 * 1000) by (nonlinear_arith)
                requires
                    x <= 1000,
                    height <= 1000,
            ;
        }
        let p = line_run_penalty(&col);
        penalty = penalty + p;
        x = x + 1;
        proof {
            lemma_columns_bound(g, x as int);
            assert(x * height <= 1000 * 1000) by (nonlinear_arith)
                requires
                    x <= 1000,
                    height <= 1000,
            ;
        }
    }
    penalty
}

/// The 2x2 window with top-left cell at row `y`, column `x` is one color.
pub open spec fn square_at(g: Seq<Seq<u8>>, y: int, x: int) -> bool {
    g[y][x] == g[y + 1][x] && g[y][x] == g[y][x + 1] && g[y][x] == g[y + 1][x + 1]
}

/// One-color windows in column `x` with top row below `k`.
pub open spec fn squares_in_column(g: Seq<Seq<u8>>, x: int, k: int) -> int
    decreases k,
{
    if k <= 0 { 0 } else { squares_in_column(g, x, k - 1) + if square_at(g, k - 1, x) { 1int } else { 0 } }
}

/// One-color windows with left column below `k`.
pub open spec fn squares(g: Seq<Seq<u8>>, k: int) -> int
    decreases k,
{
    if k <= 0 { 0 } else { squares(g, k - 1) + squares_in_column(g, k - 1, g.len() - 1) }
}

/// Block penalty: 3 for each overlapping 2x2 window of one color.
pub open spec fn square_penalty_of(g: Seq<Seq<u8>>) -> int {
    3 * squares(g, g[0].len() - 1)
}

proof fn lemma_squares_column_bound(g: Seq<Seq<u8>>, x: int, k: int)
    requires
        0 <= k,
    ensures
        0 <= squares_in_column(g, x, k) <= k,
    decreases k,
{
    if k > 0 {
        lemma_squares_column_bound(g, x, k - 1);
    }
}

proof fn lemma_squares_bound(g: Seq<Seq<u8>>, c: int)
    requires
        0 <= c,
        g.len() >= 1,
    ensures
        0 <= squares(g, c) <= c * (g.len() - 1),
    decreases c,
{
    if c > 0 {
        lemma_squares_bound(g, c - 1);
        lemma_squares_column_bound(g, c - 1, g.len() - 1);
        assert((c - 1) * (g.len() - 1) + (g.len() - 1) == c * (g.len() - 1)) by (nonlinear_arith);
    }
}

/// Block penalty: 3 for each 2x2 window whose four modules are one color.
pub fn square_penalty(bitmap: &Vec<Vec<u8>>) -> (r: i32)
    requires
        grid_ok(rows_of(bitmap@)),
    ensures
        r == square_penalty_of(rows_of(bitmap@)),
        0 <= r <= 3 * 1000 * 1000,
{
    let ghost g = rows_of(bitmap@);
    let height = bitmap.len();
    let width = bitmap[0].len();
    assert(g[0] == bitmap@[0]@);
    let mut penalty: i32 = 0;
    let mut x: usize = 0;
    while x < width - 1
        invariant
            g == rows_of(bitmap@),
            grid_ok(g),
            height == g.len(),
            width == g[0].len(),
            x <= width - 1,
            penalty == 3 * squares(g, x as int),
            0 <= squares(g, x as int) <= 1000 * 1000,
        decreases width - 1 - x,
    {
        proof {
            lemma_squares_bound(g, x as int);
            assert(x * (height - 1) <= 1000 * 1000) by (nonlinear_arith)
                requires
                    x <= 1000,
                    height <= 1000,
            ;
        }
        let mut y: usize = 0;
        while y < height - 1
            invariant
                g == rows_of(bitmap@),
                grid_ok(g),
                height == g.len(),
                width == g[0].len(),
                x < width - 1,
                y <= height - 1,
                0 <= squares(g, x as int) <= 1000 * 1000,
                penalty == 3 * (squares(g, x as int) + squares_in_column(g, x as int, y as int)),
            decreases height - 1 - y,
        {
            proof {
                lemma_squares_column_bound(g, x as int, y as int);
                assert(g[y as int] == bitmap@[y as int]@);
                assert(g[y + 1] == bitmap@[y + 1]@);
            }
            if bitmap[y][x] == bitmap[y + 1][x] && bitmap[y][x] == bitmap[y][x + 1] && bitmap[y][x] == bitmap[y + 1][x + 1] {
                penalty = penalty + 3;
            }
            y = y + 1;
        }
        x = x + 1;
        proof {
            lemma_squares_bound(g, x as int);
            assert(x * (height - 1) <= 1000 * 1000) by (nonlinear_arith)
                requires
                    x <= 1000,
                    height <= 1000,
            ;
        }
    }
    penalty
}

/// The finder-like sequence dark-light-dark-dark-dark-light-dark followed by four light.
pub open spec fn finder_like() -> Seq<u8> {
    seq![1u8, 0, 1, 1, 1, 0, 1, 0, 0, 0, 0]
}

/// The same sequence reversed.
pub open spec fn finder_like_rev() -> Seq<u8> {
    seq![0u8, 0, 0, 0, 1, 0, 1, 1, 1, 0, 1]
}

/// The 11 cells from row `y`, column `x` rightwards (or downwards) equal `p`.
pub open spec fn line_matches(g: Seq<Seq<u8>>, y: int, x: int, down: bool, p: Seq<u8>) -> bool {
    forall|i: int| 0 <= i < 11 ==> #[trigger] p[i] == if down { g[y + i][x] } else { g[y][x + i] }
}

/// What the cell at row `y`, column `x` adds to the finder-like penalty: 40 for a match
/// starting there along the row, 40 for one down the column.
pub open spec fn finder_hits(g: Seq<Seq<u8>>, y: int, x: int) -> int {
    (if x + 10 < g[y].len() && (line_matches(g, y, x, false, finder_like()) || line_matches(g, y, x, false, finder_like_rev())) {
        40int
    } else {
        0
    }) + (if y + 10 < g.len() && (line_matches(g, y, x, true, finder_like()) || line_matches(g, y, x, true, finder_like_rev())) {
        40int
    } else {
        0
    })
}

/// Finder-like penalty of row `y` for columns below `k`.
pub open spec fn finder_row(g: Seq<Seq<u8>>, y: int, k: int) -> int
    decreases k,
{
    if k <= 0 { 0 } else { finder_row(g, y, k - 1) + finder_hits(g, y, k - 1) }
}

/// Finder-like penalty of the rows below `k`.
pub open spec fn finder_rows(g: Seq<Seq<u8>>, k: int) -> int
    decreases k,
{
    if k <= 0 { 0 } else { finder_rows(g, k - 1) + finder_row(g, k - 1, g[k - 1].len() as int) }
}

/// Finder-like penalty: 40 for each occurrence, along a row or a column, of the
/// finder-like sequence or its reverse.
pub open spec fn finder_penalty_of(g: Seq<Seq<u8>>) -> int {
    finder_rows(g, g.len() as int)
}

proof fn lemma_finder_row_bound(g: Seq<Seq<u8>>, y: int, k: int)
    requires
        0 <= k,
    ensures
        0 <= finder_row(g, y, k) <= 80 * k,
    decreases k,
{
    if k > 0 {
        lemma_finder_row_bound(g, y, k - 1);
    }
}

proof fn lemma_finder_bound(g: Seq<Seq<u8>>, c: int)
    requires
        grid_ok(g),
        0 <= c <= g.len(),
    ensures
        0 <= finder_rows(g, c) <= 80 * c * g[0].len(),
    decreases c,
{
    if c > 0 {
        lemma_finder_bound(g, c - 1);
        lemma_finder_row_bound(g, c - 1, g[c - 1].len() as int);
        assert(80 * (c - 1) * g[0].len() + 80 * g[0].len() == 80 * c * g[0].len()) by (nonlinear_arith);
    }
}

fn matches_at(bitmap: &Vec<Vec<u8>>, y: usize, x: usize, down: bool, pattern: &Vec<u8>) -> (r: bool)
    requires
        grid_ok(rows_of(bitmap@)),
        pattern@.len() == 11,
        y < bitmap@.len(),
        x < bitmap@[0]@.len(),
        down ==> y + 10 < bitmap@.len(),
        !down ==> x + 10 < bitmap@[0]@.len(),
    ensures
        r == line_matches(rows_of(bitmap@), y as int, x as int, down, pattern@),
{
    let ghost g = rows_of(bitmap@);
    let mut i: usize = 0;
    while i < 11
        invariant
            g == rows_of(bitmap@),
            grid_ok(g),
            pattern@.len() == 11,
            y < g.len(),
            x < g[0].len(),
            down ==> y + 10 < g.len(),
            !down ==> x + 10 < g[0].len(),
            i <= 11,
            forall|j: int| 0 <= j < i ==> #[trigger] pattern@[j] == if down { g[y + j][x as int] } else { g[y as int][x + j] },
        decreases 11 - i,
    {
        let cell = if down {
            assert(g[y + i] == bitmap@[y + i]@);
            bitmap[y + i][x]
        } else {
            assert(g[y as int] == bitmap@[y as int]@);
            bitmap[y][x + i]
        };
        if cell != pattern[i] {
            return false;
        }
        i = i + 1;
    }
    true
}

/// Finder-like penalty: 40 for each horizontal or vertical occurrence of the
/// finder-like sequence or its reverse.
pub fn finder_penalty(bitmap: &Vec<Vec<u8>>) -> (r: i32)
    requires
        grid_ok(rows_of(bitmap@)),
    ensures
        r == finder_penalty_of(rows_of(bitmap@)),
        0 <= r <= 80 * 1000 * 1000,
{
    let ghost g = rows_of(bitmap@);
    let forward: Vec<u8> = vec![1, 0, 1, 1, 1, 0, 1, 0, 0, 0, 0];
    let backward: Vec<u8> = vec![0, 0, 0, 0, 1, 0, 1, 1, 1, 0, 1];
    assert(forward@ =~= finder_like());
    assert(backward@ =~= finder_like_rev());
    let height = bitmap.len();
    let width = bitmap[0].len();
    assert(g[0] == bitmap@[0]@);
    let mut penalty: i32 = 0;
    let mut y: usize = 0;
    while y < height
        invariant
            g == rows_of(bitmap@),
            grid_ok(g),
            forward@ == finder_like(),
            backward@ == finder_like_rev(),
            height == g.len(),
            width == g[0].len(),
            y <= height,
            penalty == finder_rows(g, y as int),
            0 <= finder_rows(g, y as int) <= 80 * 1000 * 1000,
        decreases height - y,
    {
        proof {
            lemma_finder_bound(g, y as int);
            assert(80 * y * width <= 80 * 1000 * 1000) by (nonlinear_arith)
                requires
                    y <= 1000,
                    width <= 1000,
            ;
        }
        let mut x: usize = 0;
        while x < width
            invariant
                g == rows_of(bitmap@),
                grid_ok(g),
                forward@ == finder_like(),
                backward@ == finder_like_rev(),
                height == g.len(),
                width == g[0].len(),
                y < height,
                x <= width,
                0 <= finder_rows(g, y as int) <= 80 * 1000 * 1000,
                penalty == finder_rows(g, y as int) + finder_row(g, y as int, x as int),
            decreases width - x,
        {
            proof {
                lemma_finder_row_bound(g, y as int, x as int);
            }
            if x + 10 < width && (matches_at(bitmap, y, x, false, &forward) || matches_at(bitmap, y, x, false, &backward)) {
                penalty = penalty + 40;
            }
            if y + 10 < height && (matches_at(bitmap, y, x, true, &forward) || matches_at(bitmap, y, x, true, &backward)) {
                penalty = penalty + 40;
            }
            x = x + 1;
        }
        y = y + 1;
        proof {
            lemma_finder_bound(g, y as int);
            assert(80 * y * width <= 80 * 1000 * 1000) by (nonlinear_arith)
                requires
                    y <= 1000,
                    width <= 1000,
            ;
        }
    }
    penalty
}

/// Sum of the first `k` values of a row.
pub open spec fn row_sum(r: Seq<u8>, k: int) -> int
    decreases k,
{
    if k <= 0 { 0 } else { row_sum(r, k - 1) + r[k - 1] }
}

/// Sum of the values of the first `k` rows.
pub open spec fn grid_sum(g: Seq<Seq<u8>>, k: int) -> int
    decreases k,
{
    if k <= 0 { 0 } else { grid_sum(g, k - 1) + row_sum(g[k - 1], g[k - 1].len() as int) }
}

/// Dark-ratio penalty: with `p` the percentage of dark modules, twice the distance of
/// `floor(p / 5)` from 10.
pub open spec fn dark_penalty(dark: int, total: int) -> int {
    let f = (dark * 20) / total;
    if f >= 10 { 2 * (f - 10) } else { 2 * (10 - f) }
}

pub open spec fn same_color_penalty_of(g: Seq<Seq<u8>>) -> int {
    dark_penalty(grid_sum(g, g.len() as int), (g.len() * g[0].len()) as int)
}

/// The four penalties together.
pub open spec fn total_penalty_of(g: Seq<Seq<u8>>) -> int {
    line_penalty_of(g) + square_penalty_of(g) + finder_penalty_of(g) + same_color_penalty_of(g)
}

proof fn lemma_row_sum_bound(r: Seq<u8>, k: int)
    requires
        0 <= k <= r.len(),
    ensures
        0 <= row_sum(r, k) <= 255 * k,
    decreases k,
{
    if k > 0 {
        lemma_row_sum_bound(r, k - 1);
    }
}

proof fn lemma_grid_sum_bound(g: Seq<Seq<u8>>, k: int)
    requires
        grid_ok(g),
        0 <= k <= g.len(),
    ensures
        0 <= grid_sum(g, k) <= 255 * k * g[0].len(),
    decreases k,
{
    if k > 0 {
        lemma_grid_sum_bound(g, k - 1);
        lemma_row_sum_bound(g[k - 1], g[k - 1].len() as int);
        assert(255 * (k - 1) * g[0].len() + 255 * g[0].len() == 255 * k * g[0].len()) by (nonlinear_arith);
    }
}

/// Dark-ratio penalty of a grid.
pub fn same_color_penalty(bitmap: &Vec<Vec<u8>>) -> (r: i32)
    requires
        grid_ok(rows_of(bitmap@)),
    ensures
        r == same_color_penalty_of(rows_of(bitmap@)),
        0 <= r <= 2 * 255 * 20,
{
    let ghost g = rows_of(bitmap@);
    let height = bitmap.len();
    let width = bitmap[0].len();
    assert(g[0] == bitmap@[0]@);
    let mut count: u64 = 0;
    let mut y: usize = 0;
    while y < height
        invariant
            g == rows_of(bitmap@),
            grid_ok(g),
            height == g.len(),
            width == g[0].len(),
            y <= height,
            count == grid_sum(g, y as int),
        decreases height - y,
    {
        proof {
            lemma_grid_sum_bound(g, y as int);
            assert(g[y as int] == bitmap@[y as int]@);
            assert(255 * y * width <= 255 * 1000 * 1000) by (nonlinear_arith)
                requires
                    y <= 1000,
                    width <= 1000,
            ;
        }
        let mut x: usize = 0;
        while x < width
            invariant
                g == rows_of(bitmap@),
                grid_ok(g),
                height == g.len(),
                width == g[0].len(),
                y < height,
                x <= width,
                0 <= grid_sum(g, y as int) <= 255 * 1000 * 1000,
                count == grid_sum(g, y as int) + row_sum(g[y as int], x as int),
            decreases width - x,
        {
            proof {
                lemma_row_sum_bound(g[y as int], x as int);
                assert(g[y as int] == bitmap@[y as int]@);
            }
            count = count + bitmap[y][x] as u64;
            x = x + 1;
        }
        y = y + 1;
    }
    proof {
        lemma_grid_sum_bound(g, height as int);
        assert(255 * height * width <= 255 * 1000 * 1000) by (nonlinear_arith)
            requires
                height <= 1000,
                width <= 1000,
        ;
        assert(1 <= height * width <= 1000 * 1000) by (nonlinear_arith)
            requires
                1 <= height <= 1000,
                1 <= width <= 1000,
        ;
    }
    let total: u64 = (height * width) as u64;
    let fifths: u64 = count * 20 / total;
    let r: u64 = if fifths >= 10 { 2 * (fifths - 10) } else { 2 * (10 - fifths) };
    proof {
        assert(fifths <= 255 * 20) by {
            assert(count * 20 <= 255 * 20 * total) by (nonlinear_arith)
                requires
                    count <= 255 * height * width,
                    total == height * width,
            ;
            vstd::arithmetic::div_mod::lemma_div_is_ordered((count * 20) as int, 255 * 20 * total as int, total as int);
            vstd::arithmetic::div_mod::lemma_div_by_multiple(255 * 20 as int, total as int);
        }
    }
    r as i32
}

/// Total penalty of a grid: the sum of the four penalties.
pub fn sum_penalty(bitmap: &Vec<Vec<u8>>) -> (r: i32)
    requires
        grid_ok(rows_of(bitmap@)),
    ensures
        r == total_penalty_of(rows_of(bitmap@)),
        0 <= r <= 90 * 1000 * 1000,
{
    line_penalty(bitmap) + square_penalty(bitmap) + finder_penalty(bitmap) + same_color_penalty(bitmap)
}

/// The eight mask formulas over column `x` and row `y`; a cell whose formula holds
/// is flipped.
pub open spec fn mask_formula(id: nat, x: int, y: int) -> bool {
    if id == 0 {
        (x + y) % 2 == 0
    } else if id == 1 {
        y % 2 == 0
    } else if id == 2 {
        x % 3 == 0
    } else if id == 3 {
        (x + y) % 3 == 0
    } else if id == 4 {
        (y / 2 + x / 3) % 2 == 0
    } else if id == 5 {
        (x * y) % 2 + (x * y) % 3 == 0
    } else if id == 6 {
        ((x * y) % 2 + (y * x) % 3) % 2 == 0
    } else {
        ((x + y) % 2 + (y * x) % 3) % 2 == 0
    }
}

fn mask_applies(id: u8, x: usize, y: usize) -> (r: bool)
    requires
        id < 8,
        x <= 1000,
        y <= 1000,
    ensures
        r == mask_formula(id as nat, x as int, y as int),
{
    assert(x * y <= 1000 * 1000) by (nonlinear_arith)
        requires
            x <= 1000,
            y <= 1000,
    ;
    if id == 0 {
        (x + y) % 2 == 0
    } else if id == 1 {
        y % 2 == 0
    } else if id == 2 {
        x % 3 == 0
    } else if id == 3 {
        (x + y) % 3 == 0
    } else if id == 4 {
        (y / 2 + x / 3) % 2 == 0
    } else if id == 5 {
        (x * y) % 2 + (x * y) % 3 == 0
    } else if id == 6 {
        ((x * y) % 2 + (y * x) % 3) % 2 == 0
    } else {
        ((x + y) % 2 + (y * x) % 3) % 2 == 0
    }
}

/// Free cells where mask `id` flips the module.
pub open spec fn mask_in(t: Seq<Seq<PatternMaskType>>, id: nat) -> spec_fn(int, int) -> bool {
    |r: int, c: int| t[r][c] == PatternMaskType::Free && mask_formula(id, c, r)
}

/// The flipped module.
pub open spec fn flipped(g: Seq<Seq<u8>>) -> spec_fn(int, int) -> u8 {
    |r: int, c: int| g[r][c] ^ 1u8
}

/// Mask cells handled once columns before `x`, and rows before `y` of column `x`,
/// are done.
pub open spec fn mask_done(t: Seq<Seq<PatternMaskType>>, id: nat, x: int, y: int) -> spec_fn(int, int) -> bool {
    |r: int, c: int| t[r][c] == PatternMaskType::Free && mask_formula(id, c, r) && (c < x || (c == x && r < y))
}

pub open spec fn masked(g: Seq<Seq<u8>>, t: Seq<Seq<PatternMaskType>>, id: nat) -> Seq<Seq<u8>> {
    stamp(g, mask_in(t, id), flipped(g))
}

impl QR {
    /// Applies mask `mask_id` to the free cells and returns the penalty of the result.
    pub fn mask(&mut self, mask_id: u8) -> (r: i32)
        requires
            old(self).wf(),
            mask_id < 8,
        ensures
            final(self).wf(),
            final(self).same_frame(old(self)),
            final(self).tags() == old(self).tags(),
            final(self).bits() == masked(old(self).bits(), old(self).tags(), mask_id as nat),
            r == total_penalty_of(final(self).bits()),
            0 <= r <= 90 * 1000 * 1000,
    {
        let ghost g0 = self.bits();
        let ghost t0 = self.tags();
        let ghost n = self.size();
        let ghost id = mask_id as nat;
        let width = self.bitmap.len();
        proof {
            lemma_stamp_nothing(g0, n, mask_done(t0, id, 0, 0), flipped(g0));
        }
        let mut x: usize = 0;
        while x < width
            invariant
                self.wf(),
                self.same_frame(old(self)),
                self.tags() == t0,
                t0 == old(self).tags(),
                g0 == old(self).bits(),
                is_square(g0, n),
                is_square(t0, n),
                n == self.size() == width,
                id == mask_id,
                mask_id < 8,
                x <= width,
                self.bits() == stamp(g0, mask_done(t0, id, x as int, 0), flipped(g0)),
            decreases width - x,
        {
            let mut y: usize = 0;
            while y < width
                invariant
                    self.wf(),
                    self.same_frame(old(self)),
                    self.tags() == t0,
                    t0 == old(self).tags(),
                    g0 == old(self).bits(),
                    is_square(g0, n),
                    is_square(t0, n),
                    n == self.size() == width,
                    id == mask_id,
                    mask_id < 8,
                    x < width,
                    y <= width,
                    self.bits() == stamp(g0, mask_done(t0, id, x as int, y as int), flipped(g0)),
                decreases width - y,
            {
                proof {
                    assert(t0[y as int] == self.pattern_mask@[y as int]@);
                    assert(self.bits()[y as int] == self.bitmap@[y as int]@);
                }
                if self.pattern_mask[y][x] == PatternMaskType::Free && mask_applies(mask_id, x, y) {
                    let flipped_bit: u8 = self.bitmap[y][x] ^ 1;
                    proof {
                        lemma_stamp_put(g0, n, mask_done(t0, id, x as int, y as int), flipped(g0), mask_done(t0, id, x as int, y + 1), flipped(g0), y as int, x as int, flipped_bit);
                    }
                    let tag = self.pattern_mask[y][x];
                    self.put_cell(y, x, flipped_bit, tag);
                    proof {
                        assert(self.tags() =~~= t0);
                    }
                } else {
                    proof {
                        lemma_stamp_same(g0, n, mask_done(t0, id, x as int, y as int), flipped(g0), mask_done(t0, id, x as int, y + 1), flipped(g0));
                    }
                }
                y = y + 1;
            }
            proof {
                lemma_stamp_same(g0, n, mask_done(t0, id, x as int, width as int), flipped(g0), mask_done(t0, id, x + 1, 0), flipped(g0));
            }
            x = x + 1;
        }
        proof {
            lemma_stamp_same(g0, n, mask_done(t0, id, width as int, 0), flipped(g0), mask_in(t0, id), flipped(g0));
            assert(self.bits()[0] == self.bitmap@[0]@);
        }
        sum_penalty(&self.bitmap)
    }
}

/// Modules of the candidate for mask `id`: the format field rewritten for that mask,
/// then the mask applied to the free cells.
pub open spec fn candidate_bits(g: Seq<Seq<u8>>, t: Seq<Seq<PatternMaskType>>, l: ECLevel, id: nat) -> Seq<Seq<u8>> {
    let n = g.len() as int;
    let f = stamp(g, format_in(n), format_val(l, id, n));
    masked(f, stamp(t, format_in(n), tag_all(PatternMaskType::Format)), id)
}

pub open spec fn candidate_penalty(g: Seq<Seq<u8>>, t: Seq<Seq<PatternMaskType>>, l: ECLevel, id: nat) -> int {
    total_penalty_of(candidate_bits(g, t, l, id))
}

/// The mask among `0..k` with the lowest penalty, the first one on ties.
pub open spec fn best_mask_upto(g: Seq<Seq<u8>>, t: Seq<Seq<PatternMaskType>>, l: ECLevel, k: nat) -> nat
    decreases k,
{
    if k <= 1 {
        0
    } else {
        let b = best_mask_upto(g, t, l, (k - 1) as nat);
        if candidate_penalty(g, t, l, (k - 1) as nat) < candidate_penalty(g, t, l, b) { (k - 1) as nat } else { b }
    }
}

/// The mask that selection commits: lowest penalty of the eight, first on ties.
pub open spec fn best_mask(g: Seq<Seq<u8>>, t: Seq<Seq<PatternMaskType>>, l: ECLevel) -> nat {
    best_mask_upto(g, t, l, 8)
}

proof fn lemma_best_mask_range(g: Seq<Seq<u8>>, t: Seq<Seq<PatternMaskType>>, l: ECLevel, k: nat)
    ensures
        best_mask_upto(g, t, l, k) < if k == 0 { 1 } else { k },
    decreases k,
{
    if k > 1 {
        lemma_best_mask_range(g, t, l, (k - 1) as nat);
    }
}

/// Stamping twice with the same area and values is stamping once.
pub proof fn lemma_stamp_twice<T>(g: Seq<Seq<T>>, n: nat, r: spec_fn(int, int) -> bool, v: spec_fn(int, int) -> T)
    requires
        is_square(g, n),
    ensures
        stamp(stamp(g, r, v), r, v) == stamp(g, r, v),
{
    let a = stamp(stamp(g, r, v), r, v);
    let b = stamp(g, r, v);
    assert forall|i: int| 0 <= i < n implies #[trigger] a[i] =~= b[i] by {
        assert(g[i].len() == n);
    }
    assert(a =~= b);
}

impl QR {
    /// Tries the eight masks, each with its format field, and commits the one with
    /// the lowest penalty (the first on ties).
    pub fn apply_masking(&mut self)
        requires
            old(self).wf(),
        ensures
            final(self).wf(),
            final(self).version == old(self).version,
            final(self).ec_level == old(self).ec_level,
            final(self).mask_index == best_mask(old(self).bits(), old(self).tags(), old(self).ec_level),
            final(self).tags() == stamp(old(self).tags(), format_in(old(self).size() as int), tag_all(PatternMaskType::Format)),
            final(self).bits() == candidate_bits(old(self).bits(), old(self).tags(), old(self).ec_level, final(self).mask_index as nat),
    {
        let gf = GaloisField::new();
        self.apply_masking_with(&gf);
    }

    /// Mask selection with the given field tables.
    pub fn apply_masking_with(&mut self, gf: &GaloisField)
        requires
            old(self).wf(),
            gf.wf(),
        ensures
            final(self).wf(),
            final(self).version == old(self).version,
            final(self).ec_level == old(self).ec_level,
            final(self).mask_index == best_mask(old(self).bits(), old(self).tags(), old(self).ec_level),
            final(self).tags() == stamp(old(self).tags(), format_in(old(self).size() as int), tag_all(PatternMaskType::Format)),
            final(self).bits() == candidate_bits(old(self).bits(), old(self).tags(), old(self).ec_level, final(self).mask_index as nat),
    {
        let ghost g0 = self.bits();
        let ghost t0 = self.tags();
        let ghost n = self.size();
        let ghost l = self.ec_level;
        let ghost t1 = stamp(t0, format_in(n as int), tag_all(PatternMaskType::Format));
        proof {
            lemma_stamp_twice(t0, n, format_in(n as int), tag_all(PatternMaskType::Format));
        }
        let bitmap_copy = copy_grid(&self.bitmap);
        let mut best_mask_idx: u8 = 0;
        let mut best_mask_penalty: i32 = i32::MAX;
        let mut i: u8 = 0;
        while i < 8
            invariant
                gf.wf(),
                self.wf(),
                self.version == old(self).version,
                self.ec_level == l,
                l == old(self).ec_level,
                n == self.size(),
                g0 == old(self).bits(),
                t0 == old(self).tags(),
                is_square(t0, n),
                t1 == stamp(t0, format_in(n as int), tag_all(PatternMaskType::Format)),
                stamp(t1, format_in(n as int), tag_all(PatternMaskType::Format)) == t1,
                rows_of(bitmap_copy@) == g0,
                self.bits() == g0,
                i <= 8,
                i == 0 ==> self.tags() == t0 && best_mask_penalty == i32::MAX && best_mask_idx == 0,
                i > 0 ==> self.tags() == t1,
                i > 0 ==> best_mask_idx == best_mask_upto(g0, t0, l, i as nat),
                i > 0 ==> best_mask_penalty == candidate_penalty(g0, t0, l, best_mask_idx as nat),
            decreases 8 - i,
        {
            self.mask_index = i;
            self.format_pattern_with(gf);
            let pen = self.mask(i);
            proof {
                lemma_best_mask_range(g0, t0, l, i as nat);
            }
            if pen < best_mask_penalty {
                best_mask_idx = i;
                best_mask_penalty = pen;
            }
            self.bitmap = copy_grid(&bitmap_copy);
            i = i + 1;
        }
        proof {
            lemma_best_mask_range(g0, t0, l, 8);
        }
        self.mask_index = best_mask_idx;
        self.format_pattern_with(gf);
        self.mask(best_mask_idx);
    }
}

/// The selected mask has the lowest penalty of the masks tried, and every mask
/// before it has a strictly higher one.
pub proof fn lemma_best_mask_minimal(g: Seq<Seq<u8>>, t: Seq<Seq<PatternMaskType>>, l: ECLevel, k: nat)
    requires
        1 <= k,
    ensures
        best_mask_upto(g, t, l, k) < k,
        forall|j: nat| j < k ==> candidate_penalty(g, t, l, best_mask_upto(g, t, l, k)) <= #[trigger] candidate_penalty(g, t, l, j),
        forall|j: nat| j < best_mask_upto(g, t, l, k) ==> candidate_penalty(g, t, l, best_mask_upto(g, t, l, k)) < #[trigger] candidate_penalty(g, t, l, j),
    decreases k,
{
    if k > 1 {
        lemma_best_mask_minimal(g, t, l, (k - 1) as nat);
    }
}

/// Mask selection is a function of the unmasked grid, its tags and the level: run
/// twice on the same grid it picks the same mask and leaves the same modules.
pub proof fn lemma_mask_selection_deterministic(
    g1: Seq<Seq<u8>>,
    t1: Seq<Seq<PatternMaskType>>,
    g2: Seq<Seq<u8>>,
    t2: Seq<Seq<PatternMaskType>>,
    l: ECLevel,
)
    requires
        g1 == g2,
        t1 == t2,
    ensures
        best_mask(g1, t1, l) == best_mask(g2, t2, l),
        candidate_bits(g1, t1, l, best_mask(g1, t1, l)) == candidate_bits(g2, t2, l, best_mask(g2, t2, l)),
{
}

} // verus!
