//! What the display draws, computed from the sweeps alone: colored waterfall
//! rows and the density of readings over the cells of the spectrum chart.
use vstd::prelude::*;
use crate::color::{color_map, color_of_db, db_color, db_fraction, db_span, fraction_color, normalize_db, Rgb};
use crate::downscale::{downscale, downscaled, DownscaleMode};
use crate::history::HistoryBuffer;
use crate::sweep::Sweep;

verus! {

pub open spec fn colored(p: Seq<i64>, min_db: i64, max_db: i64) -> Seq<Rgb> {
    p.map_values(|v: i64| db_color(v, min_db, max_db))
}

/// One waterfall row: a sweep's readings reduced to `width` and colored.
pub fn waterfall_row(sweep: &Sweep, width: usize, mode: DownscaleMode, min_db: i64, max_db: i64) -> (r: Vec<Rgb>)
    requires
        db_span(min_db, max_db) < usize::MAX,
    ensures
        r@ == colored(downscaled(sweep.db@, width as nat, mode), min_db, max_db),
{
    let values = downscale(&sweep.db, width, mode);
    let mut row: Vec<Rgb> = Vec::new();
    let mut x: usize = 0;
    while x < values.len()
        invariant
            x <= values@.len(),
            db_span(min_db, max_db) < usize::MAX,
            row@ == colored(values@.take(x as int), min_db, max_db),
        decreases values@.len() - x,
    {
        row.push(color_of_db(values[x], min_db, max_db));
        assert(colored(values@.take(x + 1), min_db, max_db) =~= colored(values@.take(x as int), min_db, max_db).push(db_color(values@[x as int], min_db, max_db)));
        x = x + 1;
    }
    assert(values@.take(values@.len() as int) =~= values@);
    row
}

/// The waterfall: one row per sweep of history, newest first, as many as
/// fit in `height`.
pub fn waterfall_rows(
    history: &HistoryBuffer<Sweep>,
    width: usize,
    height: usize,
    mode: DownscaleMode,
    min_db: i64,
    max_db: i64,
) -> (r: Vec<Vec<Rgb>>)
    requires
        db_span(min_db, max_db) < usize::MAX,
    ensures
        r@.len() == if height < history@.len() {
            height as nat
        } else {
            history@.len()
        },
        forall|y: int|
            0 <= y < r@.len() ==> (#[trigger] r@[y])@ == colored(
                downscaled(history@[y].db@, width as nat, mode),
                min_db,
                max_db,
            ),
{
    let n = if height < history.len() {
        height
    } else {
        history.len()
    };
    let mut rows: Vec<Vec<Rgb>> = Vec::new();
    let mut y: usize = 0;
    while y < n
        invariant
            y <= n <= history@.len(),
            n == if height < history@.len() {
                height as nat
            } else {
                history@.len()
            },
            db_span(min_db, max_db) < usize::MAX,
            rows@.len() == y,
            forall|k: int|
                0 <= k < y ==> (#[trigger] rows@[k])@ == colored(
                    downscaled(history@[k].db@, width as nat, mode),
                    min_db,
                    max_db,
                ),
        decreases n - y,
    {
        let row = waterfall_row(history.get(y), width, mode, min_db, max_db);
        rows.push(row);
        y = y + 1;
    }
    rows
}


/// The chart cell `(x, y)` of reading `i` of `len`, valued `db`: readings
/// spread evenly over the columns, and the row is the reading's position
/// between the dB bounds. Column 0 and row 0 are left to the axes.
pub open spec fn reading_cell(
    i: int,
    len: nat,
    db: i64,
    width: nat,
    height: nat,
    min_db: i64,
    max_db: i64,
) -> Option<(int, int)> {
    let x = (i * (width - 1)) / (len as int);
    let f = db_fraction(db, min_db, max_db);
    let y = ((height * f.0) as int) / (f.1 as int);
    if 0 < x < width && 0 < y < height {
        Some((x, y))
    } else {
        None
    }
}

/// How many of the first `k` readings of `p` fall in cell `(x, y)`.
pub open spec fn cell_count(
    p: Seq<i64>,
    k: int,
    width: nat,
    height: nat,
    min_db: i64,
    max_db: i64,
    x: int,
    y: int,
) -> nat
    decreases k,
{
    if k <= 0 {
        0
    } else {
        cell_count(p, k - 1, width, height, min_db, max_db, x, y) + if reading_cell(
            k - 1,
            p.len(),
            p[k - 1],
            width,
            height,
            min_db,
            max_db,
        ) == Some((x, y)) {
            1nat
        } else {
            0nat
        }
    }
}

proof fn lemma_cell_index(x: int, y: int, h: int, x2: int, y2: int)
    requires
        h > 0,
        0 <= y < h,
        0 <= y2 < h,
        x * h + y == x2 * h + y2,
    ensures
        x == x2,
        y == y2,
{
    vstd::arithmetic::div_mod::lemma_fundamental_div_mod_converse(x * h + y, h, x, y);
    vstd::arithmetic::div_mod::lemma_fundamental_div_mod_converse(x2 * h + y2, h, x2, y2);
}

proof fn lemma_cell_in_grid(x: int, y: int, w: int, h: int)
    requires
        0 <= x < w,
        0 <= y < h,
    ensures
        0 <= x * h + y < w * h,
{
    assert(0 <= x * h + y < w * h) by (nonlinear_arith)
        requires
            0 <= x < w,
            0 <= y < h,
    ;
}

/// How many readings of `db` fall in each cell of a `width` by `height`
/// chart; cell `(x, y)` is at `x * height + y`.
pub fn density_grid(db: &Vec<i64>, width: u16, height: u16, min_db: i64, max_db: i64) -> (r: Vec<usize>)
    requires
        db_span(min_db, max_db) < usize::MAX,
    ensures
        r@.len() == width * height,
        forall|x: int, y: int|
            0 <= x < width && 0 <= y < height ==> r@[x * height + y] == #[trigger] cell_count(
                db@,
                db@.len() as int,
                width as nat,
                height as nat,
                min_db,
                max_db,
                x,
                y,
            ),
{
    let w = width as usize;
    let h = height as usize;
    assert(w * h <= 65535 * 65535) by (nonlinear_arith)
        requires
            w <= 65535,
            h <= 65535,
    ;
    let size = w * h;
    let mut grid: Vec<usize> = Vec::new();
    let mut k: usize = 0;
    while k < size
        invariant
            k <= size,
            grid@.len() == k,
            forall|j: int| 0 <= j < k ==> grid@[j] == 0,
        decreases size - k,
    {
        grid.push(0);
        k = k + 1;
    }
    let len = db.len();
    let mut i: usize = 0;
    assert forall|x: int, y: int| 0 <= x < w && 0 <= y < h implies {
        &&& grid@[x * h + y] == #[trigger] cell_count(
            db@,
            0,
            width as nat,
            height as nat,
            min_db,
            max_db,
            x,
            y,
        )
        &&& grid@[x * h + y] <= 0
    } by {
        lemma_cell_in_grid(x, y, w as int, h as int);
    }
    while i < len
        invariant
            i <= len == db@.len(),
            w == width,
            h == height,
            size == w * h,
            grid@.len() == size,
            db_span(min_db, max_db) < usize::MAX,
            forall|x: int, y: int|
                0 <= x < w && 0 <= y < h ==> {
                    &&& grid@[x * h + y] == #[trigger] cell_count(
                        db@,
                        i as int,
                        width as nat,
                        height as nat,
                        min_db,
                        max_db,
                        x,
                        y,
                    )
                    &&& grid@[x * h + y] <= i
                },
        decreases len - i,
    {
        let ghost before = grid@;
        let ghost cell = reading_cell(i as int, len as nat, db@[i as int], width as nat, height as nat, min_db, max_db);
        let (num, den) = normalize_db(db[i], min_db, max_db);
        assert((h as u128) * (num as u128) <= 65535 * 0xffff_ffff_ffff_ffff) by (nonlinear_arith)
            requires
                h <= 65535,
                num <= 0xffff_ffff_ffff_ffff,
        ;
        let y: u128 = (h as u128) * (num as u128) / (den as u128);
        if w > 0 {
            assert((i as u128) * ((w - 1) as u128) <= 0xffff_ffff_ffff_ffff * 65535) by (nonlinear_arith)
                requires
                    0 <= i <= 0xffff_ffff_ffff_ffff,
                    0 <= w - 1 <= 65535,
            ;
            let x: u128 = (i as u128) * ((w - 1) as u128) / (len as u128);
            assert(x == (i * (w - 1)) / (len as int));
            if 0 < x && x < w as u128 && 0 < y && y < h as u128 {
                let xs = x as usize;
                let ys = y as usize;
                assert(xs * h + ys < w * h) by (nonlinear_arith)
                    requires
                        xs < w,
                        ys < h,
                ;
                assert(xs * h + ys >= 0) by (nonlinear_arith)
                    requires
                        xs >= 0,
                        ys >= 0,
                        h >= 0,
                ;
                let idx = xs * h + ys;
                let old_count = grid[idx];
                assert(old_count == cell_count(db@, i as int, width as nat, height as nat, min_db, max_db, xs as int, ys as int));
                assert(old_count <= i);
                grid.set(idx, old_count + 1);
                assert(cell == Some((xs as int, ys as int)));
                assert forall|x2: int, y2: int| 0 <= x2 < w && 0 <= y2 < h implies {
                    &&& grid@[x2 * h + y2] == #[trigger] cell_count(
                        db@,
                        i + 1,
                        width as nat,
                        height as nat,
                        min_db,
                        max_db,
                        x2,
                        y2,
                    )
                    &&& grid@[x2 * h + y2] <= i + 1
                } by {
                    lemma_cell_in_grid(x2, y2, w as int, h as int);
                    assert(cell_count(db@, i as int, width as nat, height as nat, min_db, max_db, x2, y2) == before[x2 * h + y2]);
                    if x2 * h + y2 == idx {
                        lemma_cell_index(x2, y2, h as int, xs as int, ys as int);
                    } else {
                        assert(x2 != xs || y2 != ys);
                    }
                }
            } else {
                assert(cell is None);
                assert forall|x2: int, y2: int| 0 <= x2 < w && 0 <= y2 < h implies {
                    &&& grid@[x2 * h + y2] == #[trigger] cell_count(
                        db@,
                        i + 1,
                        width as nat,
                        height as nat,
                        min_db,
                        max_db,
                        x2,
                        y2,
                    )
                    &&& grid@[x2 * h + y2] <= i + 1
                } by {
                    lemma_cell_in_grid(x2, y2, w as int, h as int);
                    assert(cell_count(db@, i as int, width as nat, height as nat, min_db, max_db, x2, y2) == before[x2 * h + y2]);
                }
            }
        }
        i = i + 1;
    }
    grid
}


/// The largest count of a grid, or zero for an empty grid.
pub open spec fn grid_max(g: Seq<usize>) -> nat
    decreases g.len(),
{
    if g.len() == 0 {
        0
    } else {
        let m = grid_max(g.drop_last());
        if g.last() > m {
            g.last() as nat
        } else {
            m
        }
    }
}

/// The color of each cell of a density grid: none for an empty cell, else
/// the palette at the cell's count over the largest count.
pub fn density_colors(grid: &Vec<usize>) -> (r: Vec<Option<Rgb>>)
    requires
        forall|k: int| 0 <= k < grid@.len() ==> grid@[k] < usize::MAX,
    ensures
        r@.len() == grid@.len(),
        forall|k: int|
            0 <= k < grid@.len() ==> #[trigger] r@[k] == if grid@[k] > 0 {
                Some(fraction_color(grid@[k] as nat, grid_max(grid@)))
            } else {
                None
            },
{
    let mut m: usize = 0;
    let mut i: usize = 0;
    assert(grid@.take(0) =~= Seq::<usize>::empty());
    while i < grid.len()
        invariant
            i <= grid@.len(),
            m == grid_max(grid@.take(i as int)),
            m < usize::MAX,
            forall|k: int| 0 <= k < grid@.len() ==> grid@[k] < usize::MAX,
            forall|j: int| 0 <= j < i ==> grid@[j] <= m,
        decreases grid@.len() - i,
    {
        assert(grid@.take(i + 1).drop_last() =~= grid@.take(i as int));
        if grid[i] > m {
            m = grid[i];
        }
        i = i + 1;
    }
    assert(grid@.take(grid@.len() as int) =~= grid@);
    let mut r: Vec<Option<Rgb>> = Vec::new();
    let mut k: usize = 0;
    while k < grid.len()
        invariant
            k <= grid@.len(),
            m == grid_max(grid@),
            m < usize::MAX,
            forall|j: int| 0 <= j < grid@.len() ==> grid@[j] <= m,
            r@.len() == k,
            forall|j: int|
                0 <= j < k ==> #[trigger] r@[j] == if grid@[j] > 0 {
                    Some(fraction_color(grid@[j] as nat, grid_max(grid@)))
                } else {
                    None
                },
        decreases grid@.len() - k,
    {
        let d = grid[k];
        if d > 0 {
            r.push(Some(color_map(d, m)));
        } else {
            r.push(None);
        }
        k = k + 1;
    }
    r
}

} // verus!
