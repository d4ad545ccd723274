use vstd::prelude::*;
use crate::color::Color;
use crate::scoring::Cell;
use crate::scoring::line_delta;
use crate::scoring::lines_score;
use crate::scoring::lines_score_upto;
use crate::scoring::lemma_lines_score_update;
use crate::scoring::lemma_lines_score_bound;

verus! {

/// Largest accepted board side. Together with the window bound per line this
/// keeps every score entry, and its per-move headroom, well inside `i32`.
pub const MAX_SIDE: usize = 4096;

/// Failures of a column insertion.
#[derive(Clone, Copy, Debug, PartialEq, Eq, Structural)]
pub enum InsertError {
    InvalidColumn,
    ColumnFull,
}

/// Failures of removing a column's top token.
#[derive(Clone, Copy, Debug, PartialEq, Eq, Structural)]
pub enum ExtractError {
    InvalidColumn,
    ColumnEmpty,
}

/// A grid is a sequence of `w` columns of `h` cells each; `[x][y]` is column
/// `x`, row `y`, with row 0 at the bottom.
pub open spec fn grid_wf(g: Seq<Seq<Cell>>, w: int, h: int) -> bool {
    &&& g.len() == w
    &&& forall|x: int| 0 <= x < w ==> (#[trigger] g[x]).len() == h
}

/// The grid with cell `(x, y)` replaced by `v`.
pub open spec fn cell_write(g: Seq<Seq<Cell>>, x: int, y: int, v: Cell) -> Seq<Seq<Cell>> {
    g.update(x, g[x].update(y, v))
}

/// Row `y`, read left to right.
pub open spec fn row_line(g: Seq<Seq<Cell>>, y: int) -> Seq<Cell> {
    Seq::new(g.len(), |x: int| g[x][y])
}

/// Start of rising diagonal `d` (constant `x - y + (h - 1)`).
pub open spec fn up_start_x(d: int, h: int) -> int {
    if d >= h - 1 {
        d - (h - 1)
    } else {
        0
    }
}

pub open spec fn up_start_y(d: int, h: int) -> int {
    if d >= h - 1 {
        0
    } else {
        (h - 1) - d
    }
}

pub open spec fn up_len(d: int, w: int, h: int) -> int {
    let a = w - up_start_x(d, h);
    let b = h - up_start_y(d, h);
    if a <= b {
        a
    } else {
        b
    }
}

/// Rising diagonal `d`, read from its lower-left end.
pub open spec fn up_line(g: Seq<Seq<Cell>>, d: int, w: int, h: int) -> Seq<Cell> {
    Seq::new(
        up_len(d, w, h) as nat,
        |t: int| g[up_start_x(d, h) + t][up_start_y(d, h) + t],
    )
}

/// Position of cell `(x, y)` on its rising diagonal.
pub open spec fn up_pos(x: int, y: int) -> int {
    if x <= y {
        x
    } else {
        y
    }
}

/// Start of falling diagonal `e` (constant `x + y`), at its upper-left end.
pub open spec fn down_start_x(e: int, h: int) -> int {
    if e >= h {
        e - (h - 1)
    } else {
        0
    }
}

pub open spec fn down_start_y(e: int, h: int) -> int {
    if e >= h {
        h - 1
    } else {
        e
    }
}

pub open spec fn down_len(e: int, w: int, h: int) -> int {
    let a = w - down_start_x(e, h);
    let b = down_start_y(e, h) + 1;
    if a <= b {
        a
    } else {
        b
    }
}

/// Falling diagonal `e`, read with `x` rising and `y` sinking.
pub open spec fn down_line(g: Seq<Seq<Cell>>, e: int, w: int, h: int) -> Seq<Cell> {
    Seq::new(
        down_len(e, w, h) as nat,
        |t: int| g[down_start_x(e, h) + t][down_start_y(e, h) - t],
    )
}

/// Position of cell `(x, y)` on its falling diagonal.
pub open spec fn down_pos(x: int, y: int, h: int) -> int {
    x - down_start_x(x + y, h)
}

/// Every maximal line of the grid, in all four axis directions: the `w`
/// columns, the `h` rows, the `w + h - 1` rising diagonals, and the
/// `w + h - 1` falling diagonals.
pub open spec fn all_lines(g: Seq<Seq<Cell>>, w: int, h: int) -> Seq<Seq<Cell>> {
    Seq::new(
        (w + h + 2 * (w + h - 1)) as nat,
        |j: int|
            if j < w {
                g[j]
            } else if j < w + h {
                row_line(g, j - w)
            } else if j < w + h + (w + h - 1) {
                up_line(g, j - w - h, w, h)
            } else {
                down_line(g, j - (w + h) - (w + h - 1), w, h)
            },
    )
}

/// Bucket `i` of the positional score of a whole grid: the sum of
/// `window_val` over every window of `k` consecutive cells of every line.
/// The authoritative meaning of a game's running score.
pub open spec fn spec_score(g: Seq<Seq<Cell>>, w: int, h: int, k: int, i: int) -> int {
    lines_score(all_lines(g, w, h), k, i)
}

/// Writing one cell touches one line of each of the four families; the grid
/// score moves by exactly the four line changes.
pub proof fn lemma_spec_score_write(
    g: Seq<Seq<Cell>>,
    w: int,
    h: int,
    k: int,
    x: int,
    y: int,
    v: Cell,
    i: int,
)
    requires
        grid_wf(g, w, h),
        0 <= x < w,
        0 <= y < h,
        k >= 1,
    ensures
        spec_score(cell_write(g, x, y, v), w, h, k, i) == spec_score(g, w, h, k, i) + line_delta(
            g[x],
            y,
            v,
            k,
            i,
        ) + line_delta(row_line(g, y), x, v, k, i) + line_delta(
            up_line(g, x - y + (h - 1), w, h),
            up_pos(x, y),
            v,
            k,
            i,
        ) + line_delta(down_line(g, x + y, w, h), down_pos(x, y, h), v, k, i),
{
    let g2 = cell_write(g, x, y, v);
    let d = x - y + (h - 1);
    let e = x + y;
    let jc = x;
    let jr = w + y;
    let ju = w + h + d;
    let jd = w + h + (w + h - 1) + e;
    let nl = w + h + 2 * (w + h - 1);
    let ls = all_lines(g, w, h);

    let lc2 = g[x].update(y, v);
    let lr2 = row_line(g, y).update(x, v);
    let lu2 = up_line(g, d, w, h).update(up_pos(x, y), v);
    let ld2 = down_line(g, e, w, h).update(down_pos(x, y, h), v);

    assert(0 <= d <= w + h - 2);
    assert(0 <= e <= w + h - 2);

    // the four changed lines, read off the written grid
    assert(g2[x] =~= lc2);
    assert(row_line(g2, y) =~= lr2);
    assert(up_line(g2, d, w, h) =~= lu2) by {
        assert(up_start_x(d, h) + up_pos(x, y) == x && up_start_y(d, h) + up_pos(x, y) == y);
        assert(0 <= up_pos(x, y) < up_len(d, w, h));
    }
    assert(down_line(g2, e, w, h) =~= ld2) by {
        assert(down_start_x(e, h) + down_pos(x, y, h) == x && down_start_y(e, h) - down_pos(
            x,
            y,
            h,
        ) == y);
        assert(0 <= down_pos(x, y, h) < down_len(e, w, h));
    }

    // every other line is untouched
    assert(all_lines(g2, w, h) =~= ls.update(jc, lc2).update(jr, lr2).update(ju, lu2).update(
        jd,
        ld2,
    )) by {
        assert forall|j: int| 0 <= j < nl implies all_lines(g2, w, h)[j] == ls.update(
            jc,
            lc2,
        ).update(jr, lr2).update(ju, lu2).update(jd, ld2)[j] by {
            if j < w {
                if j != x {
                    assert(g2[j] =~= g[j]);
                }
            } else if j < w + h {
                let yy = j - w;
                if yy != y {
                    assert(row_line(g2, yy) =~= row_line(g, yy));
                }
            } else if j < w + h + (w + h - 1) {
                let dd = j - w - h;
                if dd != d {
                    assert forall|t: int| 0 <= t < up_len(dd, w, h) implies up_line(
                        g2,
                        dd,
                        w,
                        h,
                    )[t] == up_line(g, dd, w, h)[t] by {
                        let xx = up_start_x(dd, h) + t;
                        let yy = up_start_y(dd, h) + t;
                        assert(xx - yy + (h - 1) == dd);
                        assert(!(xx == x && yy == y));
                    }
                    assert(up_line(g2, dd, w, h) =~= up_line(g, dd, w, h));
                }
            } else {
                let ee = j - (w + h) - (w + h - 1);
                if ee != e {
                    assert forall|t: int| 0 <= t < down_len(ee, w, h) implies down_line(
                        g2,
                        ee,
                        w,
                        h,
                    )[t] == down_line(g, ee, w, h)[t] by {
                        let xx = down_start_x(ee, h) + t;
                        let yy = down_start_y(ee, h) - t;
                        assert(xx + yy == ee);
                        assert(!(xx == x && yy == y));
                    }
                    assert(down_line(g2, ee, w, h) =~= down_line(g, ee, w, h));
                }
            }
        }
    }

    let ls1 = ls.update(jc, lc2);
    let ls2 = ls1.update(jr, lr2);
    let ls3 = ls2.update(ju, lu2);
    lemma_lines_score_update(ls, jc, lc2, k, i);
    lemma_lines_score_update(ls1, jr, lr2, k, i);
    lemma_lines_score_update(ls2, ju, lu2, k, i);
    lemma_lines_score_update(ls3, jd, ld2, k, i);
    assert(ls[jc] == g[x]);
    assert(ls[jr] == row_line(g, y));
    assert(ls[ju] == up_line(g, d, w, h));
    assert(ls[jd] == down_line(g, e, w, h));
    assert(ls1[jr] == ls[jr] && ls2[ju] == ls[ju] && ls3[jd] == ls[jd]);
}

/// The grid score is bounded by the number of lines times the longest line:
/// comfortably inside `i32` for boards within `MAX_SIDE`.
pub proof fn lemma_spec_score_bound(g: Seq<Seq<Cell>>, w: int, h: int, k: int, i: int)
    requires
        grid_wf(g, w, h),
        k >= 1,
        1 <= w,
        1 <= h,
    ensures
        -3 * (w + h) * (w + h) <= spec_score(g, w, h, k, i) <= 3 * (w + h) * (w + h),
{
    let ls = all_lines(g, w, h);
    let m = w + h;
    assert(forall|j: int| 0 <= j < ls.len() ==> (#[trigger] ls[j]).len() <= m);
    let n = ls.len() as int;
    lemma_lines_score_bound(ls, k, i, m, n);
    assert(n * m <= 3 * (w + h) * (w + h)) by (nonlinear_arith)
        requires
            n == w + h + 2 * (w + h - 1),
            m == w + h,
            w >= 1,
            h >= 1,
    ;
    assert(-(n * m) <= lines_score_upto(ls, k, i, n) <= n * m);
    assert(-3 * (w + h) * (w + h) == -(3 * (w + h) * (w + h))) by (nonlinear_arith);
    assert(spec_score(g, w, h, k, i) == lines_score_upto(ls, k, i, n));
}


/// Fixed-size grid with per-column fill counters. Owns the raw cell storage;
/// supports column insert and extract with gravity semantics. No game rules.
pub struct Board {
    width: usize,
    height: usize,
    cells: Vec<Vec<Cell>>,
    fill: Vec<usize>,
}

impl Board {
    /// The columns as sequences of cells.
    pub closed spec fn grid(&self) -> Seq<Seq<Cell>> {
        Seq::new(self.cells@.len(), |x: int| self.cells@[x]@)
    }

    pub closed spec fn spec_width(&self) -> int {
        self.width as int
    }

    pub closed spec fn spec_height(&self) -> int {
        self.height as int
    }

    /// The per-column fill counters.
    pub closed spec fn spec_fill(&self) -> Seq<int> {
        Seq::new(self.fill@.len(), |x: int| self.fill@[x] as int)
    }

    /// Within each column the occupied cells form a contiguous run starting
    /// at row 0, of length `fill[x]`: no floating or buried empty cells.
    pub open spec fn wf(&self) -> bool {
        &&& 1 <= self.spec_width() <= MAX_SIDE
        &&& 1 <= self.spec_height() <= MAX_SIDE
        &&& grid_wf(self.grid(), self.spec_width(), self.spec_height())
        &&& self.spec_fill().len() == self.spec_width()
        &&& forall|x: int|
            0 <= x < self.spec_width() ==> 0 <= #[trigger] self.spec_fill()[x]
                <= self.spec_height()
        &&& forall|x: int, y: int|
            0 <= x < self.spec_width() && 0 <= y < self.spec_height() ==> ((#[trigger] self.grid(
            )[x][y]) is Some <==> y < self.spec_fill()[x])
    }

    /// An empty board of the given size.
    pub fn new(width: usize, height: usize) -> (b: Board)
        requires
            1 <= width <= MAX_SIDE,
            1 <= height <= MAX_SIDE,
        ensures
            b.wf(),
            b.spec_width() == width,
            b.spec_height() == height,
            forall|x: int, y: int|
                0 <= x < width && 0 <= y < height ==> (#[trigger] b.grid()[x][y]) is None,
            forall|x: int| 0 <= x < width ==> #[trigger] b.spec_fill()[x] == 0,
    {
        let mut cells: Vec<Vec<Cell>> = Vec::new();
        let mut fill: Vec<usize> = Vec::new();
        let mut x: usize = 0;
        while x < width
            invariant
                x <= width,
                cells@.len() == x,
                fill@.len() == x,
                forall|j: int| 0 <= j < x ==> (#[trigger] cells@[j])@.len() == height,
                forall|j: int, y: int|
                    0 <= j < x && 0 <= y < height ==> (#[trigger] cells@[j]@[y]) is None,
                forall|j: int| 0 <= j < x ==> #[trigger] fill@[j] == 0usize,
            decreases width - x,
        {
            let mut col: Vec<Cell> = Vec::new();
            let mut y: usize = 0;
            while y < height
                invariant
                    y <= height,
                    col@.len() == y,
                    forall|j: int| 0 <= j < y ==> (#[trigger] col@[j]) is None,
                decreases height - y,
            {
                col.push(None);
                y = y + 1;
            }
            cells.push(col);
            fill.push(0);
            x = x + 1;
        }
        Board { width, height, cells, fill }
    }

    pub fn width(&self) -> (w: usize)
        ensures
            w == self.spec_width(),
    {
        self.width
    }

    pub fn height(&self) -> (h: usize)
        ensures
            h == self.spec_height(),
    {
        self.height
    }

    /// Whether `(x, y)` lies on the board.
    pub fn contains(&self, x: usize, y: usize) -> (r: bool)
        ensures
            r == (x < self.spec_width() && y < self.spec_height()),
    {
        x < self.width && y < self.height
    }

    /// How many tokens column `x` holds.
    pub fn fill_count(&self, x: usize) -> (f: usize)
        requires
            self.wf(),
            x < self.spec_width(),
        ensures
            f == self.spec_fill()[x as int],
    {
        proof {
            assert(self.spec_fill()[x as int] == self.fill@[x as int]);
        }
        self.fill[x]
    }

    /// How many empty cells column `x` still has.
    pub fn free_spaces(&self, x: usize) -> (f: usize)
        requires
            self.wf(),
            x < self.spec_width(),
        ensures
            f == self.spec_height() - self.spec_fill()[x as int],
    {
        proof {
            assert(0 <= self.spec_fill()[x as int] <= self.spec_height());
        }
        self.height - self.fill[x]
    }

    /// The cell at `(x, y)`; for callers that have checked the bounds.
    pub(crate) fn cell_at(&self, x: usize, y: usize) -> (c: Cell)
        requires
            self.wf(),
            x < self.spec_width(),
            y < self.spec_height(),
        ensures
            c == self.grid()[x as int][y as int],
    {
        proof {
            assert(self.grid()[x as int].len() == self.spec_height());
        }
        self.cells[x][y]
    }

    /// The cell at `(x, y)`, bounds-checked.
    pub fn get_chip(&self, x: usize, y: usize) -> (r: Result<Cell, ()>)
        requires
            self.wf(),
        ensures
            x < self.spec_width() && y < self.spec_height() ==> r == Ok::<Cell, ()>(
                self.grid()[x as int][y as int],
            ),
            !(x < self.spec_width() && y < self.spec_height()) ==> r == Err::<Cell, ()>(()),
    {
        if x < self.width && y < self.height {
            proof {
                assert(self.grid()[x as int].len() == self.spec_height());
            }
            Ok(self.cells[x][y])
        } else {
            Err(())
        }
    }

    /// Drops a token of `color` into column `x`: it occupies the lowest empty
    /// row, whose index is returned.
    pub fn insert(&mut self, x: usize, color: Color) -> (r: Result<usize, InsertError>)
        requires
            old(self).wf(),
        ensures
            final(self).wf(),
            final(self).spec_width() == old(self).spec_width(),
            final(self).spec_height() == old(self).spec_height(),
            match r {
                Ok(row) => {
                    &&& x < old(self).spec_width()
                    &&& old(self).spec_fill()[x as int] < old(self).spec_height()
                    &&& row == old(self).spec_fill()[x as int]
                    &&& final(self).grid() == cell_write(
                        old(self).grid(),
                        x as int,
                        row as int,
                        Some(color),
                    )
                    &&& final(self).spec_fill() == old(self).spec_fill().update(
                        x as int,
                        row + 1,
                    )
                },
                Err(InsertError::InvalidColumn) => {
                    &&& x >= old(self).spec_width()
                    &&& *final(self) == *old(self)
                },
                Err(InsertError::ColumnFull) => {
                    &&& x < old(self).spec_width()
                    &&& old(self).spec_fill()[x as int] == old(self).spec_height()
                    &&& *final(self) == *old(self)
                },
            },
    {
        if x >= self.width {
            return Err(InsertError::InvalidColumn);
        }
        proof {
            assert(0 <= self.spec_fill()[x as int] <= self.spec_height());
            assert(self.grid()[x as int].len() == self.spec_height());
        }
        let row = self.fill[x];
        if row == self.height {
            return Err(InsertError::ColumnFull);
        }
        self.cells[x].set(row, Some(color));
        self.fill.set(x, row + 1);
        proof {
            assert(self.grid() =~= cell_write(old(self).grid(), x as int, row as int, Some(color)));
            assert(self.spec_fill() =~= old(self).spec_fill().update(x as int, row + 1));
            assert forall|j: int, y2: int|
                0 <= j < self.spec_width() && 0 <= y2 < self.spec_height() implies ((#[trigger] self.grid()[j][y2]) is Some <==> y2 < self.spec_fill()[j]) by {
                assert((old(self).grid()[j][y2]) is Some <==> y2 < old(self).spec_fill()[j]);
            }
        }
        Ok(row)
    }

    /// Removes the topmost token of column `x`, returning the row it sat in.
    /// Reverses the most recent insert into that column.
    pub fn extract(&mut self, x: usize) -> (r: Result<usize, ExtractError>)
        requires
            old(self).wf(),
        ensures
            final(self).wf(),
            final(self).spec_width() == old(self).spec_width(),
            final(self).spec_height() == old(self).spec_height(),
            match r {
                Ok(row) => {
                    &&& x < old(self).spec_width()
                    &&& old(self).spec_fill()[x as int] > 0
                    &&& row == old(self).spec_fill()[x as int] - 1
                    &&& final(self).grid() == cell_write(old(self).grid(), x as int, row as int, None)
                    &&& final(self).spec_fill() == old(self).spec_fill().update(x as int, row as int)
                },
                Err(ExtractError::InvalidColumn) => {
                    &&& x >= old(self).spec_width()
                    &&& *final(self) == *old(self)
                },
                Err(ExtractError::ColumnEmpty) => {
                    &&& x < old(self).spec_width()
                    &&& old(self).spec_fill()[x as int] == 0
                    &&& *final(self) == *old(self)
                },
            },
    {
        if x >= self.width {
            return Err(ExtractError::InvalidColumn);
        }
        proof {
            assert(0 <= self.spec_fill()[x as int] <= self.spec_height());
            assert(self.grid()[x as int].len() == self.spec_height());
        }
        let f = self.fill[x];
        if f == 0 {
            return Err(ExtractError::ColumnEmpty);
        }
        let row = f - 1;
        self.cells[x].set(row, None);
        self.fill.set(x, row);
        proof {
            assert(self.grid() =~= cell_write(old(self).grid(), x as int, row as int, None));
            assert(self.spec_fill() =~= old(self).spec_fill().update(x as int, row as int));
            assert forall|j: int, y2: int|
                0 <= j < self.spec_width() && 0 <= y2 < self.spec_height() implies ((#[trigger] self.grid()[j][y2]) is Some <==> y2 < self.spec_fill()[j]) by {
                assert((old(self).grid()[j][y2]) is Some <==> y2 < old(self).spec_fill()[j]);
            }
        }
        Ok(row)
    }
}


/// Whether a k-run of colour `c` passes through cell `(x, y)` along one of
/// the four axes.
pub open spec fn run_through(
    g: Seq<Seq<Cell>>,
    w: int,
    h: int,
    k: int,
    x: int,
    y: int,
    c: Color,
) -> bool {
    ||| crate::scoring::line_has_run(g[x], y, k, c)
    ||| crate::scoring::line_has_run(row_line(g, y), x, k, c)
    ||| crate::scoring::line_has_run(up_line(g, x - y + (h - 1), w, h), up_pos(x, y), k, c)
    ||| crate::scoring::line_has_run(down_line(g, x + y, w, h), down_pos(x, y, h), k, c)
}

/// If the top score bucket moves off zero when `c` is written into an empty
/// cell, the written grid holds a k-run of `c` through that cell: the win
/// signal is sound.
pub proof fn lemma_top_bucket_run(
    g: Seq<Seq<Cell>>,
    w: int,
    h: int,
    k: int,
    x: int,
    y: int,
    c: Color,
)
    requires
        grid_wf(g, w, h),
        0 <= x < w,
        0 <= y < h,
        g[x][y] is None,
        k >= 1,
        spec_score(g, w, h, k, k - 1) == 0,
        spec_score(cell_write(g, x, y, Some(c)), w, h, k, k - 1) != 0,
    ensures
        run_through(cell_write(g, x, y, Some(c)), w, h, k, x, y, c),
{
    let v: Cell = Some(c);
    let g2 = cell_write(g, x, y, v);
    let d = x - y + (h - 1);
    let e = x + y;
    let pu = up_pos(x, y);
    let pd = down_pos(x, y, h);
    lemma_spec_score_write(g, w, h, k, x, y, v, k - 1);
    assert(g2[x] =~= g[x].update(y, v));
    assert(row_line(g2, y) =~= row_line(g, y).update(x, v));
    assert(up_start_x(d, h) + pu == x && up_start_y(d, h) + pu == y);
    assert(0 <= pu < up_len(d, w, h));
    assert(up_line(g2, d, w, h) =~= up_line(g, d, w, h).update(pu, v)) by {
        assert forall|t: int| 0 <= t < up_len(d, w, h) implies up_line(g2, d, w, h)[t] == up_line(
            g,
            d,
            w,
            h,
        ).update(pu, v)[t] by {
            let xx = up_start_x(d, h) + t;
            let yy = up_start_y(d, h) + t;
            assert(xx - yy + (h - 1) == d);
            assert(t == pu <==> (xx == x && yy == y));
        }
    }
    assert(down_start_x(e, h) + pd == x && down_start_y(e, h) - pd == y);
    assert(0 <= pd < down_len(e, w, h));
    assert(down_line(g2, e, w, h) =~= down_line(g, e, w, h).update(pd, v)) by {
        assert forall|t: int| 0 <= t < down_len(e, w, h) implies down_line(g2, e, w, h)[t]
            == down_line(g, e, w, h).update(pd, v)[t] by {
            let xx = down_start_x(e, h) + t;
            let yy = down_start_y(e, h) - t;
            assert(xx + yy == e);
            assert(t == pd <==> (xx == x && yy == y));
        }
    }
    assert(row_line(g, y)[x] == g[x][y]);
    assert(up_line(g, d, w, h)[pu] == g[x][y]);
    assert(down_line(g, e, w, h)[pd] == g[x][y]);
    if line_delta(g[x], y, v, k, k - 1) != 0 {
        crate::scoring::lemma_line_delta_top_run(g[x], y, c, k);
    } else if line_delta(row_line(g, y), x, v, k, k - 1) != 0 {
        crate::scoring::lemma_line_delta_top_run(row_line(g, y), x, c, k);
    } else if line_delta(up_line(g, d, w, h), pu, v, k, k - 1) != 0 {
        crate::scoring::lemma_line_delta_top_run(up_line(g, d, w, h), pu, c, k);
    } else {
        assert(line_delta(down_line(g, e, w, h), pd, v, k, k - 1) != 0);
        crate::scoring::lemma_line_delta_top_run(down_line(g, e, w, h), pd, c, k);
    }
}


/// A move only pushes the top score bucket toward the mover: writing `Red`
/// never lowers it, writing `Yellow` never raises it.
pub proof fn lemma_top_bucket_sign(
    g: Seq<Seq<Cell>>,
    w: int,
    h: int,
    k: int,
    x: int,
    y: int,
    c: Color,
)
    requires
        grid_wf(g, w, h),
        0 <= x < w,
        0 <= y < h,
        g[x][y] is None,
        k >= 1,
    ensures
        c == Color::Red ==> spec_score(cell_write(g, x, y, Some(c)), w, h, k, k - 1) >= spec_score(
            g,
            w,
            h,
            k,
            k - 1,
        ),
        c == Color::Yellow ==> spec_score(cell_write(g, x, y, Some(c)), w, h, k, k - 1)
            <= spec_score(g, w, h, k, k - 1),
{
    let v: Cell = Some(c);
    let d = x - y + (h - 1);
    let e = x + y;
    let pu = up_pos(x, y);
    let pd = down_pos(x, y, h);
    lemma_spec_score_write(g, w, h, k, x, y, v, k - 1);
    assert(row_line(g, y)[x] == g[x][y]);
    assert(up_start_x(d, h) + pu == x && up_start_y(d, h) + pu == y);
    assert(0 <= pu < up_len(d, w, h));
    assert(up_line(g, d, w, h)[pu] == g[x][y]);
    assert(down_start_x(e, h) + pd == x && down_start_y(e, h) - pd == y);
    assert(0 <= pd < down_len(e, w, h));
    assert(down_line(g, e, w, h)[pd] == g[x][y]);
    crate::scoring::lemma_line_delta_top_sign(g[x], y, c, k);
    crate::scoring::lemma_line_delta_top_sign(row_line(g, y), x, c, k);
    crate::scoring::lemma_line_delta_top_sign(up_line(g, d, w, h), pu, c, k);
    crate::scoring::lemma_line_delta_top_sign(down_line(g, e, w, h), pd, c, k);
}

} // verus!
