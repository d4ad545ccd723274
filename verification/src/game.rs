use vstd::prelude::*;
use crate::color::Color;
use crate::score::Score;
use crate::scoring::Cell;
use crate::scoring::count_color;
use crate::scoring::line_delta;
use crate::scoring::line_score;
use crate::scoring::line_score_upto;
use crate::scoring::lines_score_upto;
use crate::scoring::window_val;
use crate::board::Board;
use crate::board::InsertError;
use crate::board::MAX_SIDE;
use crate::board::all_lines;
use crate::board::cell_write;
use crate::board::grid_wf;
use crate::board::spec_score;

verus! {

/// The status a finished move reports: somebody completed a k-in-a-row, the
/// board filled up without one, or play goes on.
#[derive(Clone, Copy, Debug, PartialEq, Eq, Structural)]
pub enum GameState {
    Win(Color),
    Draw,
    InProgress,
}

/// The colour to move after `n` plies: `Red` moves first.
pub open spec fn turn_of(n: int) -> Color {
    if n % 2 == 0 {
        Color::Red
    } else {
        Color::Yellow
    }
}

/// A `w` by `h` grid of empty cells.
pub open spec fn empty_grid(w: int, h: int) -> Seq<Seq<Cell>> {
    Seq::new(w as nat, |x: int| Seq::new(h as nat, |y: int| None::<Color>))
}

/// How many cells of a column are occupied.
pub open spec fn count_occupied(col: Seq<Cell>) -> int
    decreases col.len(),
{
    if col.len() == 0 {
        0
    } else {
        count_occupied(col.drop_last()) + if col.last() is Some {
            1int
        } else {
            0int
        }
    }
}

/// Occupied cells form a contiguous run from the bottom of every column.
pub open spec fn grid_gravity(g: Seq<Seq<Cell>>, w: int, h: int) -> bool {
    forall|x: int, y: int|
        0 <= x < w && 0 <= y < h ==> ((#[trigger] g[x][y]) is Some <==> y < count_occupied(g[x]))
}

/// The grid reached from an empty board by dropping a token into each listed
/// column in turn, colours alternating from `Red`.
pub open spec fn replay(w: int, h: int, moves: Seq<usize>) -> Seq<Seq<Cell>>
    decreases moves.len(),
{
    if moves.len() == 0 {
        empty_grid(w, h)
    } else {
        let g = replay(w, h, moves.drop_last());
        let x = moves.last() as int;
        cell_write(g, x, count_occupied(g[x]), Some(turn_of(moves.len() - 1)))
    }
}

/// Every listed move names a real column with room left when it is played.
pub open spec fn moves_ok(w: int, h: int, moves: Seq<usize>) -> bool
    decreases moves.len(),
{
    if moves.len() == 0 {
        true
    } else {
        let g = replay(w, h, moves.drop_last());
        let x = moves.last() as int;
        &&& moves_ok(w, h, moves.drop_last())
        &&& 0 <= x < w
        &&& count_occupied(g[x]) < h
    }
}

pub proof fn lemma_count_occupied_bound(col: Seq<Cell>)
    ensures
        0 <= count_occupied(col) <= col.len(),
    decreases col.len(),
{
    if col.len() > 0 {
        lemma_count_occupied_bound(col.drop_last());
    }
}

/// Filling an empty cell raises the occupied count by one.
pub proof fn lemma_count_occupied_update(col: Seq<Cell>, j: int, c: Color)
    requires
        0 <= j < col.len(),
        col[j] is None,
    ensures
        count_occupied(col.update(j, Some(c))) == count_occupied(col) + 1,
    decreases col.len(),
{
    let col2 = col.update(j, Some(c));
    if j == col.len() - 1 {
        assert(col2.drop_last() =~= col.drop_last());
    } else {
        assert(col2.drop_last() =~= col.drop_last().update(j, Some(c)));
        lemma_count_occupied_update(col.drop_last(), j, c);
    }
}

/// A column whose occupied cells are exactly those below `f` holds `f` tokens.
pub proof fn lemma_count_occupied_run(col: Seq<Cell>, f: int)
    requires
        0 <= f <= col.len(),
        forall|y: int| 0 <= y < col.len() ==> ((#[trigger] col[y]) is Some <==> y < f),
    ensures
        count_occupied(col) == f,
    decreases col.len(),
{
    if col.len() > 0 {
        if f == col.len() {
            lemma_count_occupied_run(col.drop_last(), f - 1);
        } else {
            lemma_count_occupied_run(col.drop_last(), f);
        }
    }
}

/// A replayed grid is well formed and keeps gravity: each move lands on top
/// of its column.
pub proof fn lemma_replay_wf(w: int, h: int, moves: Seq<usize>)
    requires
        1 <= w,
        1 <= h,
        moves_ok(w, h, moves),
    ensures
        grid_wf(replay(w, h, moves), w, h),
        grid_gravity(replay(w, h, moves), w, h),
    decreases moves.len(),
{
    if moves.len() == 0 {
        let g = replay(w, h, moves);
        assert forall|x: int, y: int| 0 <= x < w && 0 <= y < h implies ((#[trigger] g[x][y])
            is None) && count_occupied(g[x]) == 0 by {
            lemma_count_occupied_run(g[x], 0);
        }
    } else {
        lemma_replay_wf(w, h, moves.drop_last());
        let g = replay(w, h, moves.drop_last());
        let g2 = replay(w, h, moves);
        let x = moves.last() as int;
        let f = count_occupied(g[x]);
        lemma_count_occupied_bound(g[x]);
        assert(g2 == cell_write(g, x, f, Some(turn_of(moves.len() - 1))));
        lemma_count_occupied_update(g[x], f, turn_of(moves.len() - 1));
        assert(count_occupied(g2[x]) == f + 1);
        assert forall|xx: int, yy: int| 0 <= xx < w && 0 <= yy < h implies ((#[trigger] g2[xx][yy])
            is Some <==> yy < count_occupied(g2[xx])) by {
            if xx != x {
                assert(g2[xx] == g[xx]);
            } else {
                assert(g2[x][yy] == if yy == f {
                    Some(turn_of(moves.len() - 1))
                } else {
                    g[x][yy]
                });
            }
        }
    }
}

/// An empty grid scores zero in every bucket.
pub proof fn lemma_spec_score_empty(w: int, h: int, k: int, i: int)
    requires
        1 <= w,
        1 <= h,
        1 <= k,
    ensures
        spec_score(empty_grid(w, h), w, h, k, i) == 0,
{
    let g = empty_grid(w, h);
    let ls = all_lines(g, w, h);
    assert forall|j: int| 0 <= j < ls.len() implies all_none(#[trigger] ls[j]) by {
        assert(forall|t: int| 0 <= t < ls[j].len() ==> (#[trigger] ls[j][t]) is None);
    }
    lemma_lines_none_zero(ls, k, i, ls.len() as int);
}

/// Whether every cell of a line is empty.
pub open spec fn all_none(line: Seq<Cell>) -> bool {
    forall|t: int| 0 <= t < line.len() ==> (#[trigger] line[t]) is None
}

proof fn lemma_count_color_none(line: Seq<Cell>, c: Color)
    requires
        all_none(line),
    ensures
        count_color(line, c) == 0,
    decreases line.len(),
{
    if line.len() > 0 {
        assert(all_none(line.drop_last()));
        lemma_count_color_none(line.drop_last(), c);
    }
}

proof fn lemma_line_none_zero(line: Seq<Cell>, k: int, i: int, n: int)
    requires
        all_none(line),
        n <= line.len() - k + 1,
        k >= 1,
    ensures
        line_score_upto(line, k, i, n) == 0,
    decreases n,
{
    if n > 0 {
        lemma_line_none_zero(line, k, i, n - 1);
        let win = line.subrange(n - 1, n - 1 + k);
        assert(all_none(win));
        lemma_count_color_none(win, Color::Red);
        lemma_count_color_none(win, Color::Yellow);
        assert(window_val(win, i) == 0);
    }
}

/// The whole engine: a board, the side to move, the stack of moves played,
/// and one score snapshot per ply (plus the initial all-zero one). The score
/// on top of the stack always equals `spec_score` of the current grid, so
/// `undo` restores it exactly by popping, with no recomputation.
pub struct Game {
    width: usize,
    height: usize,
    k: usize,
    turn: Color,
    board: Board,
    move_list: Vec<usize>,
    score_list: Vec<Score>,
    game_state: GameState,
}

impl Game {
    /// The board's columns.
    pub closed spec fn grid(&self) -> Seq<Seq<Cell>> {
        self.board.grid()
    }

    pub closed spec fn spec_width(&self) -> int {
        self.width as int
    }

    pub closed spec fn spec_height(&self) -> int {
        self.height as int
    }

    pub closed spec fn spec_k(&self) -> int {
        self.k as int
    }

    pub closed spec fn spec_turn(&self) -> Color {
        self.turn
    }

    /// The columns played so far, oldest first.
    pub closed spec fn moves(&self) -> Seq<usize> {
        self.move_list@
    }

    /// The score snapshots, oldest first; entry `j` belongs to the position
    /// after `j` plies.
    pub closed spec fn scores(&self) -> Seq<Seq<i32>> {
        Seq::new(self.score_list@.len(), |j: int| self.score_list@[j]@)
    }

    /// Tokens held by each column.
    pub closed spec fn spec_fill(&self) -> Seq<int> {
        self.board.spec_fill()
    }

    /// The cached state, as the last `run` left it; `undo` resets it to
    /// `InProgress` whatever position it returns to.
    pub closed spec fn spec_state(&self) -> GameState {
        self.game_state
    }

    /// The authoritative current score.
    pub open spec fn last_score_spec(&self) -> Seq<i32> {
        self.scores().last()
    }

    /// The board is well formed and sized as the game says.
    pub closed spec fn inv_board(&self) -> bool {
        &&& self.board.wf()
        &&& self.spec_width() == self.board.spec_width()
        &&& self.spec_height() == self.board.spec_height()
    }

    /// The representation invariant: the board replays the move stack, the
    /// turn is the move count's parity, and every score snapshot equals the
    /// positional score of its prefix's grid.
    pub open spec fn wf(&self) -> bool {
        let w = self.spec_width();
        let h = self.spec_height();
        let k = self.spec_k();
        &&& self.inv_board()
        &&& 1 <= w <= MAX_SIDE
        &&& 1 <= h <= MAX_SIDE
        &&& 1 <= k <= MAX_SIDE
        &&& moves_ok(w, h, self.moves())
        &&& self.grid() == replay(w, h, self.moves())
        &&& self.spec_turn() == turn_of(self.moves().len() as int)
        &&& self.scores().len() == self.moves().len() + 1
        &&& forall|j: int| 0 <= j < self.scores().len() ==> (#[trigger] self.scores()[j]).len() == k
        &&& forall|j: int, i: int|
            0 <= j < self.scores().len() && 0 <= i < k ==> (#[trigger] self.scores()[j][i])
                == spec_score(replay(w, h, self.moves().take(j)), w, h, k, i)
    }

    /// A fresh game on an `m` by `n` board with win length `k`: empty board,
    /// `Red` to move, one all-zero score snapshot.
    pub fn new(m: usize, n: usize, k: usize) -> (g: Game)
        requires
            1 <= k,
            k <= m,
            k <= n,
            m <= MAX_SIDE,
            n <= MAX_SIDE,
        ensures
            g.wf(),
            g.spec_width() == m,
            g.spec_height() == n,
            g.spec_k() == k,
            g.spec_turn() == Color::Red,
            g.moves().len() == 0,
            g.spec_state() == GameState::InProgress,
    {
        Game::fresh(m, n, k)
    }

    /// A fresh game without the `k` fits on the board demand: deserialized
    /// positions may be narrower or lower than `k`, and then simply hold no
    /// winnable line.
    pub(crate) fn fresh(m: usize, n: usize, k: usize) -> (g: Game)
        requires
            1 <= k <= MAX_SIDE,
            1 <= m <= MAX_SIDE,
            1 <= n <= MAX_SIDE,
        ensures
            g.wf(),
            g.spec_width() == m,
            g.spec_height() == n,
            g.spec_k() == k,
            g.spec_turn() == Color::Red,
            g.moves().len() == 0,
            g.spec_state() == GameState::InProgress,
    {
        let board = Board::new(m, n);
        let zero = Score::zero(k);
        let mut score_list: Vec<Score> = Vec::new();
        score_list.push(zero);
        let g = Game {
            width: m,
            height: n,
            k,
            turn: Color::Red,
            board,
            move_list: Vec::new(),
            score_list,
            game_state: GameState::InProgress,
        };
        proof {
            assert(g.grid() =~= empty_grid(m as int, n as int)) by {
                assert(forall|x: int, y: int|
                    0 <= x < m && 0 <= y < n ==> (#[trigger] g.grid()[x][y]) is None);
                assert forall|x: int| 0 <= x < m implies #[trigger] g.grid()[x] =~= empty_grid(
                    m as int,
                    n as int,
                )[x] by {
                    assert(g.grid()[x].len() == n);
                }
            }
            assert(g.moves().take(0) =~= g.moves());
            assert forall|i: int| 0 <= i < k implies #[trigger] g.scores()[0][i] == spec_score(
                replay(m as int, n as int, g.moves().take(0)),
                m as int,
                n as int,
                k as int,
                i,
            ) by {
                lemma_spec_score_empty(m as int, n as int, k as int, i);
            }
        }
        g
    }

    pub fn width(&self) -> (w: usize)
        ensures
            w == self.spec_width(),
    {
        self.width
    }

    pub fn height(&self) -> (h: usize)
        ensures
            h == self.spec_height(),
    {
        self.height
    }

    pub fn k(&self) -> (k: usize)
        ensures
            k == self.spec_k(),
    {
        self.k
    }

    pub fn turn(&self) -> (c: Color)
        ensures
            c == self.spec_turn(),
    {
        self.turn
    }

    /// The colour not to move.
    pub fn not_turn(&self) -> (c: Color)
        ensures
            c == self.spec_turn().spec_other(),
    {
        self.turn.other()
    }

    /// The cached state the last `run` reported. Stale after `undo`, which
    /// resets it to `InProgress` whatever position it returns to.
    pub fn state(&self) -> (s: GameState)
        ensures
            s == self.spec_state(),
    {
        self.game_state
    }

    /// Whether the board is full.
    pub fn is_draw(&self) -> (r: bool)
        requires
            self.wf(),
        ensures
            r == (self.moves().len() >= self.spec_width() * self.spec_height()),
    {
        proof {
            lemma_moves_bound(self.spec_width(), self.spec_height(), self.moves(), self.grid());
            assert(self.spec_width() * self.spec_height() <= 0x1000000) by (nonlinear_arith)
                requires
                    1 <= self.spec_width() <= MAX_SIDE && 1 <= self.spec_height() <= MAX_SIDE,
            ;
        }
        self.move_list.len() >= self.width * self.height
    }

    /// The column of the most recent move, or 0 on a fresh game.
    pub fn last_move(&self) -> (m: usize)
        ensures
            self.moves().len() > 0 ==> m == self.moves().last(),
            self.moves().len() == 0 ==> m == 0,
    {
        if self.move_list.len() == 0 {
            0
        } else {
            self.move_list[self.move_list.len() - 1]
        }
    }

    /// The heuristic evaluation of the current position: the signed current
    /// score, positive entries favouring `Red`.
    pub fn eval(&self) -> (s: Score)
        requires
            self.wf(),
        ensures
            s@ == self.last_score_spec(),
            s@.len() == self.spec_k(),
    {
        self.last_score().clone()
    }

    /// How many score snapshots the history holds: always one more than the
    /// number of moves played.
    pub fn history_len(&self) -> (n: usize)
        ensures
            n == self.scores().len(),
    {
        self.score_list.len()
    }

    /// The cell at column `x`, row `y` (row 0 at the bottom).
    pub fn cell(&self, x: usize, y: usize) -> (c: Option<Color>)
        requires
            self.wf(),
            x < self.spec_width(),
            y < self.spec_height(),
        ensures
            c == self.grid()[x as int][y as int],
    {
        self.board.cell_at(x, y)
    }

    /// How many tokens column `x` holds.
    pub fn fill_count(&self, x: usize) -> (f: usize)
        requires
            self.wf(),
            x < self.spec_width(),
        ensures
            f == self.spec_fill()[x as int],
    {
        self.board.fill_count(x)
    }

    /// How many moves have been played (and not undone).
    pub fn move_count(&self) -> (n: usize)
        ensures
            n == self.moves().len(),
    {
        self.move_list.len()
    }

    /// The current score: the top of the score history.
    pub fn last_score(&self) -> (s: &Score)
        requires
            self.wf(),
        ensures
            s@ == self.last_score_spec(),
            s@.len() == self.spec_k(),
    {
        &self.score_list[self.score_list.len() - 1]
    }
}

impl Game {
    /// Adds to `s` the score change of the column through `(x, y)` when
    /// `color` is placed there.
    fn fold_axis_vertical(&self, x: usize, y: usize, south: usize, north: usize, color: Color, s: &mut Score)
        requires
            self.wf(),
            x < self.spec_width(),
            y < self.spec_height(),
            self.grid()[x as int][y as int] is None,
            old(s)@.len() == self.spec_k(),
            south == if self.spec_k() - 1 <= y {
                self.spec_k() - 1
            } else {
                y as int
            },
            north == if self.spec_k() - 1 <= self.spec_height() - 1 - y {
                self.spec_k() - 1
            } else {
                self.spec_height() - 1 - y
            },
            forall|i: int|
                0 <= i < old(s)@.len() ==> i32::MIN + 2 * old(s)@.len() <= #[trigger] old(s)@[i]
                    <= i32::MAX - 2 * old(s)@.len(),
        ensures
            final(s)@.len() == old(s)@.len(),
            forall|i: int|
                0 <= i < old(s)@.len() ==> final(s)@[i] == old(s)@[i] + line_delta(
                    self.grid()[x as int],
                    y as int,
                    Some(color),
                    self.spec_k(),
                    i,
                ) && old(s)@[i] - 2 * self.spec_k() <= #[trigger] final(s)@[i] <= old(s)@[i] + 2
                    * self.spec_k(),
    {
        let ghost g = self.grid();
        let ghost gk = self.spec_k();
        let ghost v: Cell = Some(color);
        let w = self.width;
        let h = self.height;
        proof {
            assert(g[x as int].len() == self.spec_height());
        }
        let mut seg: Vec<Cell> = Vec::new();
        let len = south + 1 + north;
        let mut j: usize = 0;
        while j < len
            invariant
                j <= len,
                len == south + 1 + north,
                south <= y < h,
                north <= h - 1 - y,
                x < w,
                w == self.spec_width(),
                h == self.spec_height(),
                seg@.len() == j,
                self.wf(),
                g == self.grid(),
                forall|t: int| 0 <= t < j ==> seg@[t] == g[x as int][y - south + t],
            decreases len - j,
        {
            seg.push(self.board.cell_at(x, y - south + j));
            j = j + 1;
        }
        proof {
            assert(seg@ =~= g[x as int].subrange(y - south, y + north + 1));
        }
        crate::scoring::apply_line_delta(&seg, south, color, s);
        proof {
            assert forall|i: int| 0 <= i < gk implies s@[i] == old(s)@[i] + line_delta(
                g[x as int],
                y as int,
                v,
                gk,
                i,
            ) && old(s)@[i] - 2 * gk <= #[trigger] s@[i] <= old(s)@[i] + 2 * gk by {
                crate::scoring::lemma_axis_fold(
                    g[x as int],
                    y as int,
                    v,
                    gk,
                    i,
                    y - south,
                    y + north + 1,
                    seg@,
                );
            }
        }
    }

    /// Adds to `s` the score change of the row through `(x, y)`.
    fn fold_axis_horizontal(&self, x: usize, y: usize, west: usize, east: usize, color: Color, s: &mut Score)
        requires
            self.wf(),
            x < self.spec_width(),
            y < self.spec_height(),
            self.grid()[x as int][y as int] is None,
            old(s)@.len() == self.spec_k(),
            west == if self.spec_k() - 1 <= x {
                self.spec_k() - 1
            } else {
                x as int
            },
            east == if self.spec_k() - 1 <= self.spec_width() - 1 - x {
                self.spec_k() - 1
            } else {
                self.spec_width() - 1 - x
            },
            forall|i: int|
                0 <= i < old(s)@.len() ==> i32::MIN + 2 * old(s)@.len() <= #[trigger] old(s)@[i]
                    <= i32::MAX - 2 * old(s)@.len(),
        ensures
            final(s)@.len() == old(s)@.len(),
            forall|i: int|
                0 <= i < old(s)@.len() ==> final(s)@[i] == old(s)@[i] + line_delta(
                    crate::board::row_line(self.grid(), y as int),
                    x as int,
                    Some(color),
                    self.spec_k(),
                    i,
                ) && old(s)@[i] - 2 * self.spec_k() <= #[trigger] final(s)@[i] <= old(s)@[i] + 2
                    * self.spec_k(),
    {
        let ghost g = self.grid();
        let ghost gk = self.spec_k();
        let ghost v: Cell = Some(color);
        let ghost row = crate::board::row_line(g, y as int);
        let w = self.width;
        let h = self.height;
        let mut seg: Vec<Cell> = Vec::new();
        let len = west + 1 + east;
        let mut j: usize = 0;
        while j < len
            invariant
                j <= len,
                len == west + 1 + east,
                west <= x < w,
                east <= w - 1 - x,
                y < h,
                w == self.spec_width(),
                h == self.spec_height(),
                seg@.len() == j,
                self.wf(),
                g == self.grid(),
                row == crate::board::row_line(g, y as int),
                forall|t: int| 0 <= t < j ==> seg@[t] == row[x - west + t],
            decreases len - j,
        {
            seg.push(self.board.cell_at(x - west + j, y));
            j = j + 1;
        }
        proof {
            assert(row.len() == self.spec_width());
            assert(row[x as int] is None);
            assert(seg@ =~= row.subrange(x - west, x + east + 1));
        }
        crate::scoring::apply_line_delta(&seg, west, color, s);
        proof {
            assert forall|i: int| 0 <= i < gk implies s@[i] == old(s)@[i] + line_delta(
                row,
                x as int,
                v,
                gk,
                i,
            ) && old(s)@[i] - 2 * gk <= #[trigger] s@[i] <= old(s)@[i] + 2 * gk by {
                crate::scoring::lemma_axis_fold(row, x as int, v, gk, i, x - west, x + east + 1, seg@);
            }
        }
    }

    /// Adds to `s` the score change of the rising diagonal through `(x, y)`.
    #[verifier::rlimit(80)]
    fn fold_axis_up(&self, x: usize, y: usize, sw: usize, ne: usize, color: Color, s: &mut Score)
        requires
            self.wf(),
            x < self.spec_width(),
            y < self.spec_height(),
            self.grid()[x as int][y as int] is None,
            old(s)@.len() == self.spec_k(),
            sw == if self.spec_k() - 1 <= crate::board::up_pos(x as int, y as int) {
                self.spec_k() - 1
            } else {
                crate::board::up_pos(x as int, y as int)
            },
            ne as int == {
                let far = if self.spec_width() - 1 - x <= self.spec_height() - 1 - y {
                    self.spec_width() - 1 - x
                } else {
                    self.spec_height() - 1 - y
                };
                if self.spec_k() - 1 <= far {
                    self.spec_k() - 1
                } else {
                    far
                }
            },
            forall|i: int|
                0 <= i < old(s)@.len() ==> i32::MIN + 2 * old(s)@.len() <= #[trigger] old(s)@[i]
                    <= i32::MAX - 2 * old(s)@.len(),
        ensures
            final(s)@.len() == old(s)@.len(),
            forall|i: int|
                0 <= i < old(s)@.len() ==> final(s)@[i] == old(s)@[i] + line_delta(
                    crate::board::up_line(
                        self.grid(),
                        x - y + (self.spec_height() - 1),
                        self.spec_width(),
                        self.spec_height(),
                    ),
                    crate::board::up_pos(x as int, y as int),
                    Some(color),
                    self.spec_k(),
                    i,
                ) && old(s)@[i] - 2 * self.spec_k() <= #[trigger] final(s)@[i] <= old(s)@[i] + 2
                    * self.spec_k(),
    {
        let ghost g = self.grid();
        let ghost gk = self.spec_k();
        let ghost v: Cell = Some(color);
        let ghost dup = x - y + (self.spec_height() - 1);
        let ghost upl = crate::board::up_line(g, dup, self.spec_width(), self.spec_height());
        let ghost pu = crate::board::up_pos(x as int, y as int);
        let w = self.width;
        let h = self.height;
        let mut seg: Vec<Cell> = Vec::new();
        let len = sw + 1 + ne;
        let mut j: usize = 0;
        while j < len
            invariant
                j <= len,
                len == sw + 1 + ne,
                sw <= x < w,
                sw <= y < h,
                ne <= w - 1 - x,
                ne <= h - 1 - y,
                w == self.spec_width(),
                h == self.spec_height(),
                seg@.len() == j,
                self.wf(),
                g == self.grid(),
                forall|t: int| 0 <= t < j ==> seg@[t] == g[x - sw + t][y - sw + t],
            decreases len - j,
        {
            seg.push(self.board.cell_at(x - sw + j, y - sw + j));
            j = j + 1;
        }
        proof {
            assert(crate::board::up_start_x(dup, h as int) + pu == x as int
                && crate::board::up_start_y(dup, h as int) + pu == y as int);
            assert(upl.len() == crate::board::up_len(dup, w as int, h as int));
            assert(pu < upl.len());
            assert(upl[pu] == g[x as int][y as int]);
            assert forall|t: int| 0 <= t < seg@.len() implies seg@[t] == upl.subrange(
                pu - sw,
                pu + ne + 1,
            )[t] by {
                assert(upl[pu - sw + t] == g[x - sw + t][y - sw + t]);
            }
            assert(seg@ =~= upl.subrange(pu - sw, pu + ne + 1));
        }
        crate::scoring::apply_line_delta(&seg, sw, color, s);
        proof {
            assert forall|i: int| 0 <= i < gk implies s@[i] == old(s)@[i] + line_delta(
                upl,
                pu,
                v,
                gk,
                i,
            ) && old(s)@[i] - 2 * gk <= #[trigger] s@[i] <= old(s)@[i] + 2 * gk by {
                crate::scoring::lemma_axis_fold(upl, pu, v, gk, i, pu - sw, pu + ne + 1, seg@);
            }
        }
    }

    /// Adds to `s` the score change of the falling diagonal through `(x, y)`.
    #[verifier::rlimit(80)]
    fn fold_axis_down(&self, x: usize, y: usize, nw: usize, se: usize, color: Color, s: &mut Score)
        requires
            self.wf(),
            x < self.spec_width(),
            y < self.spec_height(),
            self.grid()[x as int][y as int] is None,
            old(s)@.len() == self.spec_k(),
            nw as int == {
                let back = if self.spec_height() - 1 - y <= x {
                    self.spec_height() - 1 - y
                } else {
                    x as int
                };
                if self.spec_k() - 1 <= back {
                    self.spec_k() - 1
                } else {
                    back
                }
            },
            se as int == {
                let far = if y <= self.spec_width() - 1 - x {
                    y as int
                } else {
                    self.spec_width() - 1 - x
                };
                if self.spec_k() - 1 <= far {
                    self.spec_k() - 1
                } else {
                    far
                }
            },
            forall|i: int|
                0 <= i < old(s)@.len() ==> i32::MIN + 2 * old(s)@.len() <= #[trigger] old(s)@[i]
                    <= i32::MAX - 2 * old(s)@.len(),
        ensures
            final(s)@.len() == old(s)@.len(),
            forall|i: int|
                0 <= i < old(s)@.len() ==> final(s)@[i] == old(s)@[i] + line_delta(
                    crate::board::down_line(
                        self.grid(),
                        x + y,
                        self.spec_width(),
                        self.spec_height(),
                    ),
                    crate::board::down_pos(x as int, y as int, self.spec_height()),
                    Some(color),
                    self.spec_k(),
                    i,
                ) && old(s)@[i] - 2 * self.spec_k() <= #[trigger] final(s)@[i] <= old(s)@[i] + 2
                    * self.spec_k(),
    {
        let ghost g = self.grid();
        let ghost gk = self.spec_k();
        let ghost v: Cell = Some(color);
        let ghost edn = x + y;
        let ghost dnl = crate::board::down_line(g, edn as int, self.spec_width(), self.spec_height());
        let ghost pd = crate::board::down_pos(x as int, y as int, self.spec_height());
        let w = self.width;
        let h = self.height;
        let mut seg: Vec<Cell> = Vec::new();
        let len = nw + 1 + se;
        let mut j: usize = 0;
        while j < len
            invariant
                j <= len,
                len == nw + 1 + se,
                nw <= x < w,
                nw <= h - 1 - y,
                se <= y < h,
                se <= w - 1 - x,
                w == self.spec_width(),
                h == self.spec_height(),
                seg@.len() == j,
                self.wf(),
                g == self.grid(),
                forall|t: int| 0 <= t < j ==> seg@[t] == g[x - nw + t][y + nw - t],
            decreases len - j,
        {
            seg.push(self.board.cell_at(x - nw + j, y + nw - j));
            j = j + 1;
        }
        proof {
            assert(crate::board::down_start_x(edn as int, h as int) + pd == x as int
                && crate::board::down_start_y(edn as int, h as int) - pd == y as int);
            assert(dnl.len() == crate::board::down_len(edn as int, w as int, h as int));
            assert(pd < dnl.len());
            assert(dnl[pd] == g[x as int][y as int]);
            assert forall|t: int| 0 <= t < seg@.len() implies seg@[t] == dnl.subrange(
                pd - nw,
                pd + se + 1,
            )[t] by {
                assert(dnl[pd - nw + t] == g[x - nw + t][y + nw - t]);
            }
            assert(seg@ =~= dnl.subrange(pd - nw, pd + se + 1));
        }
        crate::scoring::apply_line_delta(&seg, nw, color, s);
        proof {
            assert forall|i: int| 0 <= i < gk implies s@[i] == old(s)@[i] + line_delta(
                dnl,
                pd,
                v,
                gk,
                i,
            ) && old(s)@[i] - 2 * gk <= #[trigger] s@[i] <= old(s)@[i] + 2 * gk by {
                crate::scoring::lemma_axis_fold(dnl, pd, v, gk, i, pd - nw, pd + se + 1, seg@);
            }
        }
    }

    /// The score the position will have once `color` occupies the cell
    /// `last_move` (a column and a row): the current cumulative score plus
    /// the change of the four lines through that cell, each recomputed from a
    /// segment clipped to `k - 1` cells per side in O(k).
    pub fn score(&self, last_move: (usize, usize), color: Color) -> (s: Score)
        requires
            self.wf(),
            last_move.0 < self.spec_width(),
            last_move.1 < self.spec_height(),
            self.grid()[last_move.0 as int][last_move.1 as int] is None,
        ensures
            s@.len() == self.spec_k(),
            forall|i: int|
                0 <= i < self.spec_k() ==> s@[i] == spec_score(
                    cell_write(self.grid(), last_move.0 as int, last_move.1 as int, Some(color)),
                    self.spec_width(),
                    self.spec_height(),
                    self.spec_k(),
                    i,
                ),
    {
        let (x, y) = last_move;
        let w = self.width;
        let h = self.height;
        let k = self.k;
        let km1 = k - 1;
        let ghost g = self.grid();
        let ghost gw = w as int;
        let ghost gh = h as int;
        let ghost gk = k as int;
        let ghost v: Cell = Some(color);
        let ghost xi = x as int;
        let ghost yi = y as int;

        let south = if km1 <= y {
            km1
        } else {
            y
        };
        let north = if km1 <= h - y - 1 {
            km1
        } else {
            h - y - 1
        };
        let west = if km1 <= x {
            km1
        } else {
            x
        };
        let east = if km1 <= w - x - 1 {
            km1
        } else {
            w - x - 1
        };
        let sw = if south <= west {
            south
        } else {
            west
        };
        let ne = if north <= east {
            north
        } else {
            east
        };
        let nw = if north <= west {
            north
        } else {
            west
        };
        let se = if south <= east {
            south
        } else {
            east
        };

        let mut s = self.last_score().clone();
        proof {
            let nmoves = self.moves().len() as int;
            assert(self.moves().take(nmoves) =~= self.moves());
            assert forall|i: int| 0 <= i < gk implies #[trigger] s@[i] == spec_score(
                g,
                gw,
                gh,
                gk,
                i,
            ) by {
                assert(s@[i] == self.scores()[nmoves][i]);
            }
            assert(3 * (gw + gh) * (gw + gh) <= 0xC000000) by (nonlinear_arith)
                requires
                    1 <= gw <= MAX_SIDE && 1 <= gh <= MAX_SIDE,
            ;
            assert(-3 * (gw + gh) * (gw + gh) == -(3 * (gw + gh) * (gw + gh))) by (nonlinear_arith);
            assert forall|i: int| 0 <= i < gk implies -0xC000000 <= #[trigger] s@[i]
                <= 0xC000000 by {
                crate::board::lemma_spec_score_bound(g, gw, gh, gk, i);
            }
        }
        let ghost s0 = s@;
        self.fold_axis_vertical(x, y, south, north, color, &mut s);
        let ghost s1 = s@;
        proof {
            assert(forall|i: int|
                0 <= i < gk ==> -0xC000000 - 2 * gk <= #[trigger] s@[i] <= 0xC000000 + 2 * gk);
        }
        self.fold_axis_horizontal(x, y, west, east, color, &mut s);
        let ghost s2 = s@;
        proof {
            assert(forall|i: int|
                0 <= i < gk ==> -0xC000000 - 4 * gk <= #[trigger] s@[i] <= 0xC000000 + 4 * gk);
        }
        self.fold_axis_up(x, y, sw, ne, color, &mut s);
        let ghost s3 = s@;
        proof {
            assert(forall|i: int|
                0 <= i < gk ==> -0xC000000 - 6 * gk <= #[trigger] s@[i] <= 0xC000000 + 6 * gk);
        }
        self.fold_axis_down(x, y, nw, se, color, &mut s);
        proof {
            let row = crate::board::row_line(g, yi);
            let upl = crate::board::up_line(g, xi - yi + (gh - 1), gw, gh);
            let dnl = crate::board::down_line(g, xi + yi, gw, gh);
            let pu = crate::board::up_pos(xi, yi);
            let pd = crate::board::down_pos(xi, yi, gh);
            assert forall|i: int| 0 <= i < gk implies s@[i] == spec_score(
                cell_write(g, xi, yi, v),
                gw,
                gh,
                gk,
                i,
            ) by {
                assert(s@[i] == spec_score(g, gw, gh, gk, i) + line_delta(g[xi], yi, v, gk, i)
                    + line_delta(row, xi, v, gk, i) + line_delta(upl, pu, v, gk, i) + line_delta(
                    dnl,
                    pd,
                    v,
                    gk,
                    i,
                ));
                crate::board::lemma_spec_score_write(g, gw, gh, gk, xi, yi, v, i);
            }
        }
        s
    }
}

impl Game {
    /// The fill counters equal the occupied counts of the replayed grid.
    proof fn lemma_game_fill(&self)
        requires
            self.wf(),
        ensures
            forall|x: int|
                0 <= x < self.spec_width() ==> #[trigger] self.spec_fill()[x] == count_occupied(
                    self.grid()[x],
                ),
    {
        assert forall|x: int| 0 <= x < self.spec_width() implies #[trigger] self.spec_fill()[x]
            == count_occupied(self.grid()[x]) by {
            lemma_count_occupied_run(self.grid()[x], self.spec_fill()[x]);
        }
    }

    /// Whether a token can be dropped into column `c` at all: the column
    /// exists and has room.
    pub open spec fn spec_playable(&self, c: int) -> bool {
        0 <= c < self.spec_width() && self.spec_fill()[c] < self.spec_height()
    }

    /// Whether dropping the mover's token into column `c` completes a
    /// k-in-a-row: the top score bucket of the written grid is nonzero.
    pub open spec fn spec_wins(&self, c: int) -> bool {
        spec_score(
            cell_write(self.grid(), c, self.spec_fill()[c], Some(self.spec_turn())),
            self.spec_width(),
            self.spec_height(),
            self.spec_k(),
            self.spec_k() - 1,
        ) != 0
    }

    /// Whether dropping into column `c` fills the board's last cell without
    /// completing a run.
    pub open spec fn spec_draws(&self, c: int) -> bool {
        !self.spec_wins(c) && self.moves().len() + 1 >= self.spec_width() * self.spec_height()
    }

    /// The state a move's outcome reports, `mover` having just played: a win
    /// as soon as the top score bucket is nonzero, else a draw on a full
    /// board, else play goes on. The win check comes first.
    pub open spec fn spec_outcome(&self, mover: Color) -> GameState {
        if self.last_score_spec()[self.spec_k() - 1] != 0 {
            GameState::Win(mover)
        } else if self.moves().len() >= self.spec_width() * self.spec_height() {
            GameState::Draw
        } else {
            GameState::InProgress
        }
    }

    /// Checked gravity insert for the side to move: places its token at the
    /// lowest empty row of `column`, pushes the new score snapshot, advances
    /// the turn, and caches the outcome. Returns the cell filled.
    ///
    /// Unlike the design iteration that left the turn flip to `run`, every
    /// public insertion here advances the turn itself: the representation
    /// invariant ties the side to move to the parity of the move stack, so a
    /// placed token and an unflipped turn cannot be observed together. `run`
    /// is this plus the outcome report.
    pub fn insert(&mut self, column: usize) -> (r: Result<(usize, usize), InsertError>)
        requires
            old(self).wf(),
        ensures
            final(self).wf(),
            final(self).spec_width() == old(self).spec_width(),
            final(self).spec_height() == old(self).spec_height(),
            final(self).spec_k() == old(self).spec_k(),
            match r {
                Ok(pos) => {
                    &&& column < old(self).spec_width()
                    &&& old(self).spec_fill()[column as int] < old(self).spec_height()
                    &&& pos.0 == column
                    &&& pos.1 == old(self).spec_fill()[column as int]
                    &&& final(self).moves() == old(self).moves().push(column)
                    &&& final(self).spec_turn() == old(self).spec_turn().spec_other()
                    &&& final(self).grid() == cell_write(
                        old(self).grid(),
                        column as int,
                        old(self).spec_fill()[column as int],
                        Some(old(self).spec_turn()),
                    )
                    &&& final(self).spec_fill() == old(self).spec_fill().update(
                        column as int,
                        old(self).spec_fill()[column as int] + 1,
                    )
                    &&& final(self).spec_state() == final(self).spec_outcome(
                        old(self).spec_turn(),
                    )
                    &&& (final(self).spec_state() is Win <==> old(self).spec_wins(column as int))
                    &&& (final(self).spec_state() == GameState::Draw <==> old(self).spec_draws(
                        column as int,
                    ))
                },
                Err(InsertError::InvalidColumn) => {
                    &&& column >= old(self).spec_width()
                    &&& *final(self) == *old(self)
                },
                Err(InsertError::ColumnFull) => {
                    &&& column < old(self).spec_width()
                    &&& old(self).spec_fill()[column as int] == old(self).spec_height()
                    &&& *final(self) == *old(self)
                },
            },
    {
        let ghost gw = self.spec_width();
        let ghost gh = self.spec_height();
        let ghost gk = self.spec_k();
        let ghost n = self.moves().len() as int;
        let mover = self.turn;
        if column >= self.width {
            return Err(InsertError::InvalidColumn);
        }
        let row = self.board.fill_count(column);
        if row == self.height {
            return Err(InsertError::ColumnFull);
        }
        proof {
            self.lemma_game_fill();
            assert(self.spec_fill()[column as int] == row);
            assert(count_occupied(self.grid()[column as int]) == row);
            assert(self.grid()[column as int][row as int] is None);
        }
        let sc = self.score((column, row), mover);
        let ghost newgrid = cell_write(self.grid(), column as int, row as int, Some(mover));
        let win = sc.get(self.k - 1) != 0;
        match self.board.insert(column, mover) {
            Ok(_) => {},
            Err(_) => {
                proof {
                    assert(false);
                }
            },
        }
        self.move_list.push(column);
        self.score_list.push(sc);
        self.turn = mover.other();
        proof {
            assert(self.spec_width() * self.spec_height() <= 0x1000000) by (nonlinear_arith)
                requires
                    1 <= self.spec_width() <= MAX_SIDE && 1 <= self.spec_height() <= MAX_SIDE,
            ;
        }
        let full = self.move_list.len() >= self.width * self.height;
        if win {
            self.game_state = GameState::Win(mover);
        } else if full {
            self.game_state = GameState::Draw;
        } else {
            self.game_state = GameState::InProgress;
        }
        proof {
            let oldmoves = old(self).moves();
            let moves2 = self.moves();
            assert(moves2 == oldmoves.push(column));
            assert(moves2.drop_last() =~= oldmoves);
            assert(moves2.last() == column);
            assert(count_occupied(old(self).grid()[column as int]) == row);
            assert(turn_of(n) == mover);
            assert(moves_ok(gw, gh, moves2));
            assert(self.grid() == replay(gw, gh, moves2)) by {
                assert(replay(gw, gh, moves2) == cell_write(
                    old(self).grid(),
                    column as int,
                    row as int,
                    Some(mover),
                ));
            }
            assert(self.spec_turn() == turn_of(moves2.len() as int));
            assert(self.scores().len() == moves2.len() + 1);
            assert forall|j: int, i: int|
                0 <= j < self.scores().len() && 0 <= i < gk implies (
            #[trigger] self.scores()[j][i]) == spec_score(
                replay(gw, gh, moves2.take(j)),
                gw,
                gh,
                gk,
                i,
            ) by {
                if j <= n {
                    assert(self.scores()[j] == old(self).scores()[j]);
                    assert(old(self).scores()[j][i] == spec_score(
                        replay(gw, gh, oldmoves.take(j)),
                        gw,
                        gh,
                        gk,
                        i,
                    ));
                    assert(moves2.take(j) =~= oldmoves.take(j));
                } else {
                    assert(j == n + 1);
                    assert(self.scores()[j] == sc@);
                    assert(moves2.take(j) =~= moves2);
                    assert(sc@[i] == spec_score(newgrid, gw, gh, gk, i));
                }
            }
            assert forall|j: int|
                0 <= j < self.scores().len() implies (#[trigger] self.scores()[j]).len() == gk by {
                if j <= n {
                    assert(self.scores()[j] == old(self).scores()[j]);
                } else {
                    assert(self.scores()[j] == sc@);
                }
            }
            assert(self.last_score_spec() == sc@) by {
                assert(self.scores().last() == self.scores()[n + 1]);
            }
        }
        Ok((column, row))
    }

    /// Plays one checked move for the side to move and reports the outcome:
    /// `Win` for the mover as soon as the top score bucket is nonzero — even
    /// on the move that also fills the board — else `Draw` on a full board,
    /// else `InProgress`.
    pub fn run(&mut self, column: usize) -> (r: Result<GameState, InsertError>)
        requires
            old(self).wf(),
        ensures
            final(self).wf(),
            final(self).spec_width() == old(self).spec_width(),
            final(self).spec_height() == old(self).spec_height(),
            final(self).spec_k() == old(self).spec_k(),
            match r {
                Ok(state) => {
                    &&& column < old(self).spec_width()
                    &&& old(self).spec_fill()[column as int] < old(self).spec_height()
                    &&& final(self).moves() == old(self).moves().push(column)
                    &&& final(self).spec_turn() == old(self).spec_turn().spec_other()
                    &&& final(self).grid() == cell_write(
                        old(self).grid(),
                        column as int,
                        old(self).spec_fill()[column as int],
                        Some(old(self).spec_turn()),
                    )
                    &&& final(self).spec_fill() == old(self).spec_fill().update(
                        column as int,
                        old(self).spec_fill()[column as int] + 1,
                    )
                    &&& state == final(self).spec_outcome(old(self).spec_turn())
                    &&& final(self).spec_state() == state
                    &&& (state matches GameState::Win(c) ==> c == old(self).spec_turn())
                    &&& (state is Win <==> old(self).spec_wins(column as int))
                    &&& (state == GameState::Draw <==> old(self).spec_draws(column as int))
                },
                Err(InsertError::InvalidColumn) => {
                    &&& column >= old(self).spec_width()
                    &&& *final(self) == *old(self)
                },
                Err(InsertError::ColumnFull) => {
                    &&& column < old(self).spec_width()
                    &&& old(self).spec_fill()[column as int] == old(self).spec_height()
                    &&& *final(self) == *old(self)
                },
            },
    {
        match self.insert(column) {
            Ok(_) => Ok(self.game_state),
            Err(e) => Err(e),
        }
    }

    /// Like `run`, but reports an unplayable column (out of range or full) as
    /// `None` instead of an error; the game is left unchanged then. Search
    /// uses this in its hot loop.
    pub fn run_unchecked(&mut self, column: usize) -> (r: Option<GameState>)
        requires
            old(self).wf(),
        ensures
            final(self).wf(),
            final(self).spec_width() == old(self).spec_width(),
            final(self).spec_height() == old(self).spec_height(),
            final(self).spec_k() == old(self).spec_k(),
            match r {
                Some(state) => {
                    &&& column < old(self).spec_width()
                    &&& old(self).spec_fill()[column as int] < old(self).spec_height()
                    &&& final(self).moves() == old(self).moves().push(column)
                    &&& final(self).spec_turn() == old(self).spec_turn().spec_other()
                    &&& final(self).grid() == cell_write(
                        old(self).grid(),
                        column as int,
                        old(self).spec_fill()[column as int],
                        Some(old(self).spec_turn()),
                    )
                    &&& final(self).spec_fill() == old(self).spec_fill().update(
                        column as int,
                        old(self).spec_fill()[column as int] + 1,
                    )
                    &&& state == final(self).spec_outcome(old(self).spec_turn())
                    &&& final(self).spec_state() == state
                    &&& (state matches GameState::Win(c) ==> c == old(self).spec_turn())
                    &&& (state is Win <==> old(self).spec_wins(column as int))
                    &&& (state == GameState::Draw <==> old(self).spec_draws(column as int))
                },
                None => {
                    &&& !(column < old(self).spec_width() && old(self).spec_fill()[column as int]
                        < old(self).spec_height())
                    &&& *final(self) == *old(self)
                },
            },
    {
        match self.insert(column) {
            Ok(_) => Some(self.game_state),
            Err(_) => None,
        }
    }

    /// Takes back the most recent move: flips the turn back, lifts the token
    /// off the board, pops the score snapshot — restoring the previous score
    /// exactly, with no recomputation — and resets the cached state to
    /// `InProgress` unconditionally, even if the restored position was itself
    /// decisive: search must be able to keep probing siblings after backing
    /// out of a terminal branch. Returns `None`, changing nothing, on a game
    /// with no moves.
    pub fn undo(&mut self) -> (r: Option<()>)
        requires
            old(self).wf(),
        ensures
            final(self).wf(),
            final(self).spec_width() == old(self).spec_width(),
            final(self).spec_height() == old(self).spec_height(),
            final(self).spec_k() == old(self).spec_k(),
            old(self).moves().len() == 0 ==> r is None && *final(self) == *old(self),
            old(self).moves().len() > 0 ==> {
                &&& r is Some
                &&& final(self).moves() == old(self).moves().drop_last()
                &&& final(self).spec_turn() == old(self).spec_turn().spec_other()
                &&& final(self).spec_state() == GameState::InProgress
            },
    {
        let ghost gw = self.spec_width();
        let ghost gh = self.spec_height();
        let ghost gk = self.spec_k();
        let ghost oldmoves = self.moves();
        let ghost n = self.moves().len() as int;
        if self.move_list.len() == 0 {
            return None;
        }
        let last_move = match self.move_list.pop() {
            Some(m) => m,
            None => vstd::pervasive::unreached(),
        };
        let ghost gprev = replay(gw, gh, oldmoves.drop_last());
        let ghost fprev = count_occupied(gprev[last_move as int]);
        proof {
            assert(oldmoves.drop_last() =~= self.moves());
            assert(oldmoves.last() == last_move);
            assert((last_move as int) < gw);
            lemma_replay_wf(gw, gh, oldmoves.drop_last());
            self.lemma_game_fill_board();
            lemma_count_occupied_bound(gprev[last_move as int]);
            assert(gprev[last_move as int][fprev] is None);
            lemma_count_occupied_update(gprev[last_move as int], fprev, turn_of(n - 1));
            assert(count_occupied(self.board.grid()[last_move as int]) == fprev + 1);
            assert(self.spec_fill()[last_move as int] == fprev + 1);
            assert(self.board.spec_fill()[last_move as int] == fprev + 1);
        }
        self.turn = self.turn.other();
        match self.board.extract(last_move) {
            Ok(_) => {},
            Err(_) => {
                proof {
                    assert(false);
                }
            },
        }
        self.score_list.pop();
        self.game_state = GameState::InProgress;
        proof {
            let moves2 = self.moves();
            assert(gprev == replay(gw, gh, moves2));
            assert(self.grid() == cell_write(
                replay(gw, gh, oldmoves),
                last_move as int,
                fprev,
                None,
            ));
            assert(self.grid() =~= gprev) by {
                assert forall|x: int| 0 <= x < gw implies self.grid()[x] =~= gprev[x] by {
                    if x == last_move as int {
                        assert(replay(gw, gh, oldmoves)[x] == gprev[x].update(
                            fprev,
                            Some(turn_of(n - 1)),
                        ));
                        assert(gprev[x][fprev] is None);
                    }
                }
            }
            assert(self.spec_turn() == turn_of(moves2.len() as int));
            assert(self.scores().len() == moves2.len() + 1);
            assert forall|j: int|
                0 <= j < self.scores().len() implies (#[trigger] self.scores()[j]).len() == gk by {
                assert(self.scores()[j] == old(self).scores()[j]);
            }
            assert forall|j: int, i: int|
                0 <= j < self.scores().len() && 0 <= i < gk implies (
            #[trigger] self.scores()[j][i]) == spec_score(
                replay(gw, gh, moves2.take(j)),
                gw,
                gh,
                gk,
                i,
            ) by {
                assert(self.scores()[j] == old(self).scores()[j]);
                assert(old(self).scores()[j][i] == spec_score(
                    replay(gw, gh, oldmoves.take(j)),
                    gw,
                    gh,
                    gk,
                    i,
                ));
                assert(moves2.take(j) =~= oldmoves.take(j));
            }
        }
        Some(())
    }

    /// Gravity and the replay invariant make the board's fill counters the
    /// occupied counts of the current grid.
    proof fn lemma_game_fill_board(&self)
        requires
            self.inv_board(),
            self.board.wf(),
        ensures
            forall|x: int|
                0 <= x < self.spec_width() ==> #[trigger] self.spec_fill()[x] == count_occupied(
                    self.board.grid()[x],
                ),
    {
        assert forall|x: int| 0 <= x < self.spec_width() implies #[trigger] self.spec_fill()[x]
            == count_occupied(self.board.grid()[x]) by {
            lemma_count_occupied_run(self.board.grid()[x], self.spec_fill()[x]);
        }
    }
}

/// The whole observable position is a function of the dimensions and the
/// move stack: two well-formed games that have played the same columns hold
/// the same board cells, the same side to move, and bit-identical current
/// scores. With `run` pushing a move and `undo` popping it, any sequence of
/// legal `run` calls followed by as many `undo` calls therefore restores
/// board, turn, and score exactly.
pub proof fn lemma_position_determined(a: &Game, b: &Game)
    requires
        a.wf(),
        b.wf(),
        a.spec_width() == b.spec_width(),
        a.spec_height() == b.spec_height(),
        a.spec_k() == b.spec_k(),
        a.moves() == b.moves(),
    ensures
        a.grid() == b.grid(),
        a.spec_turn() == b.spec_turn(),
        a.spec_fill() == b.spec_fill(),
        a.last_score_spec() == b.last_score_spec(),
{
    a.lemma_game_fill();
    b.lemma_game_fill();
    assert(a.spec_fill() =~= b.spec_fill());
    let n = a.moves().len() as int;
    let gk = a.spec_k();
    assert(a.moves().take(n) =~= a.moves());
    assert(b.moves().take(n) =~= b.moves());
    assert forall|i: int| 0 <= i < gk implies a.last_score_spec()[i]
        == b.last_score_spec()[i] by {
        assert(a.scores()[n][i] == spec_score(
            replay(a.spec_width(), a.spec_height(), a.moves().take(n)),
            a.spec_width(),
            a.spec_height(),
            gk,
            i,
        ));
        assert(b.scores()[n][i] == spec_score(
            replay(b.spec_width(), b.spec_height(), b.moves().take(n)),
            b.spec_width(),
            b.spec_height(),
            gk,
            i,
        ));
    }
    assert(a.last_score_spec() =~= b.last_score_spec());
}

/// One `run`/`undo` round in full: `mid` is `g0` after a successful `run` of
/// `column` (the move stack grew by that column), `g2` is `mid` after `undo`
/// (the stack shrank by one) — then `g2` shows `g0`'s board cells, side to
/// move, fill counters and current score bit for bit. Applying this once per
/// level, any sequence of legal `run` calls followed by as many `undo` calls
/// restores the starting position exactly.
pub proof fn lemma_run_undo_round_trip(g0: &Game, mid: &Game, g2: &Game, column: usize)
    requires
        g0.wf(),
        mid.wf(),
        g2.wf(),
        mid.spec_width() == g0.spec_width(),
        mid.spec_height() == g0.spec_height(),
        mid.spec_k() == g0.spec_k(),
        g2.spec_width() == mid.spec_width(),
        g2.spec_height() == mid.spec_height(),
        g2.spec_k() == mid.spec_k(),
        mid.moves() == g0.moves().push(column),
        g2.moves() == mid.moves().drop_last(),
    ensures
        g2.grid() == g0.grid(),
        g2.spec_turn() == g0.spec_turn(),
        g2.spec_fill() == g0.spec_fill(),
        g2.last_score_spec() == g0.last_score_spec(),
{
    assert(g2.moves() =~= g0.moves());
    lemma_position_determined(g0, g2);
}

/// The score history is always one longer than the move history: one snapshot
/// per ply, plus the initial all-zero one.
pub proof fn lemma_history_lengths(g: &Game)
    requires
        g.wf(),
    ensures
        g.scores().len() == g.moves().len() + 1,
{
}

/// A reported `Win` means the top score bucket is nonzero, and the winner is
/// the mover; a `Draw` is only reported with the top bucket zero — the win
/// check precedes the board-full check.
pub proof fn lemma_outcome_signals(g: &Game, mover: Color)
    requires
        g.wf(),
    ensures
        (g.spec_outcome(mover) matches GameState::Win(c) ==> c == mover
            && g.last_score_spec()[g.spec_k() - 1] != 0),
        g.spec_outcome(mover) == GameState::Draw ==> g.last_score_spec()[g.spec_k() - 1] == 0
            && g.moves().len() >= g.spec_width() * g.spec_height(),
        g.spec_outcome(mover) == GameState::InProgress ==> g.last_score_spec()[g.spec_k() - 1]
            == 0 && g.moves().len() < g.spec_width() * g.spec_height(),
{
}

impl Game {
    /// What the board invariant guarantees of any well-formed game: fill
    /// counters within range, and gravity — a cell is occupied exactly when
    /// it lies below its column's fill level.
    pub proof fn lemma_board_shape(&self)
        requires
            self.wf(),
        ensures
            self.spec_fill().len() == self.spec_width(),
            forall|x: int|
                0 <= x < self.spec_width() ==> 0 <= #[trigger] self.spec_fill()[x]
                    <= self.spec_height(),
            forall|x: int, y: int|
                0 <= x < self.spec_width() && 0 <= y < self.spec_height() ==> ((
                #[trigger] self.grid()[x][y]) is Some <==> y < self.spec_fill()[x]),
            self.grid().len() == self.spec_width(),
            forall|x: int|
                0 <= x < self.spec_width() ==> (#[trigger] self.grid()[x]).len()
                    == self.spec_height(),
    {
    }
}

/// Win detection is consistent: when `run` reports `Win` on a position whose
/// top score bucket was zero before the move, the mover's token completed an
/// actual k-run — `k` consecutive cells of the mover's colour lie along one
/// of the four axes through the cell just played. `pre` and `post` are the
/// game before and after that `run`, related exactly as `run`'s contract
/// states.
pub proof fn lemma_win_has_run(pre: &Game, post: &Game, column: usize)
    requires
        pre.wf(),
        post.wf(),
        post.spec_width() == pre.spec_width(),
        post.spec_height() == pre.spec_height(),
        post.spec_k() == pre.spec_k(),
        column < pre.spec_width(),
        pre.spec_fill()[column as int] < pre.spec_height(),
        post.grid() == cell_write(
            pre.grid(),
            column as int,
            pre.spec_fill()[column as int],
            Some(pre.spec_turn()),
        ),
        pre.last_score_spec()[pre.spec_k() - 1] == 0,
        post.last_score_spec()[post.spec_k() - 1] != 0,
    ensures
        crate::board::run_through(
            post.grid(),
            pre.spec_width(),
            pre.spec_height(),
            pre.spec_k(),
            column as int,
            pre.spec_fill()[column as int],
            pre.spec_turn(),
        ),
        pre.spec_turn() == Color::Red ==> post.last_score_spec()[post.spec_k() - 1] > 0,
        pre.spec_turn() == Color::Yellow ==> post.last_score_spec()[post.spec_k() - 1] < 0,
{
    let gw = pre.spec_width();
    let gh = pre.spec_height();
    let gk = pre.spec_k();
    let x = column as int;
    let y = pre.spec_fill()[x];
    pre.lemma_board_shape();
    assert(pre.grid()[x][y] is None);
    pre.lemma_last_score_is_grid_score();
    post.lemma_last_score_is_grid_score();
    crate::board::lemma_top_bucket_run(pre.grid(), gw, gh, gk, x, y, pre.spec_turn());
    crate::board::lemma_top_bucket_sign(pre.grid(), gw, gh, gk, x, y, pre.spec_turn());
}

impl Game {
    /// The top of the score history is the positional score of the current
    /// grid, bucket for bucket.
    pub proof fn lemma_last_score_is_grid_score(&self)
        requires
            self.wf(),
        ensures
            forall|i: int|
                0 <= i < self.spec_k() ==> #[trigger] self.last_score_spec()[i] == spec_score(
                    self.grid(),
                    self.spec_width(),
                    self.spec_height(),
                    self.spec_k(),
                    i,
                ),
            self.last_score_spec().len() == self.spec_k(),
    {
        let n = self.moves().len() as int;
        assert(self.moves().take(n) =~= self.moves());
        assert forall|i: int| 0 <= i < self.spec_k() implies #[trigger] self.last_score_spec()[i]
            == spec_score(self.grid(), self.spec_width(), self.spec_height(), self.spec_k(), i) by {
            assert(self.scores()[n][i] == spec_score(
                replay(self.spec_width(), self.spec_height(), self.moves().take(n)),
                self.spec_width(),
                self.spec_height(),
                self.spec_k(),
                i,
            ));
        }
    }
}

/// The current score is a function of the board alone: two well-formed games
/// of the same dimensions and `k` holding the same grid — however different
/// their move orders — have bit-identical current scores. This is what makes
/// the serialization round trip score-exact.
pub proof fn lemma_same_grid_same_score(a: &Game, b: &Game)
    requires
        a.wf(),
        b.wf(),
        a.spec_width() == b.spec_width(),
        a.spec_height() == b.spec_height(),
        a.spec_k() == b.spec_k(),
        a.grid() == b.grid(),
    ensures
        a.last_score_spec() == b.last_score_spec(),
{
    a.lemma_last_score_is_grid_score();
    b.lemma_last_score_is_grid_score();
    assert(a.last_score_spec() =~= b.last_score_spec());
}

/// No more moves fit than the board has cells: each occupies one.
pub proof fn lemma_moves_bound(w: int, h: int, moves: Seq<usize>, g: Seq<Seq<Cell>>)
    requires
        1 <= w,
        1 <= h,
        moves_ok(w, h, moves),
        g == replay(w, h, moves),
    ensures
        moves.len() <= w * h,
    decreases moves.len(),
{
    lemma_occupancy(w, h, moves, w);
    lemma_replay_wf(w, h, moves);
    assert(occupancy(replay(w, h, moves), w) <= w * h) by {
        lemma_occupancy_bound(replay(w, h, moves), w, h);
    }
}

/// Total tokens in the first `n` columns.
pub open spec fn occupancy(g: Seq<Seq<Cell>>, n: int) -> int
    decreases n,
{
    if n <= 0 {
        0
    } else {
        occupancy(g, n - 1) + count_occupied(g[n - 1])
    }
}

proof fn lemma_occupancy_write(g: Seq<Seq<Cell>>, x: int, y: int, c: Color, n: int)
    requires
        0 <= x < g.len(),
        0 <= y < g[x].len(),
        g[x][y] is None,
        n <= g.len(),
    ensures
        occupancy(cell_write(g, x, y, Some(c)), n) == occupancy(g, n) + if x < n {
            1int
        } else {
            0int
        },
    decreases n,
{
    if n > 0 {
        lemma_occupancy_write(g, x, y, c, n - 1);
        if x == n - 1 {
            lemma_count_occupied_update(g[x], y, c);
        }
    }
}

proof fn lemma_occupancy_bound(g: Seq<Seq<Cell>>, n: int, h: int)
    requires
        forall|x: int| 0 <= x < n ==> (#[trigger] g[x]).len() <= h,
        0 <= h,
        0 <= n,
    ensures
        0 <= occupancy(g, n) <= n * h,
    decreases n,
{
    if n > 0 {
        lemma_occupancy_bound(g, n - 1, h);
        lemma_count_occupied_bound(g[n - 1]);
        assert((n - 1) * h + h == n * h) by (nonlinear_arith);
        assert(0 <= (n - 1) * h) by (nonlinear_arith)
            requires
                n >= 1 && h >= 0,
        ;
    } else {
        assert(occupancy(g, n) == 0);
        assert(n * h == 0) by (nonlinear_arith)
            requires
                n == 0,
        ;
    }
}

/// Each legal move adds one token, so the move count is the total occupancy.
proof fn lemma_occupancy(w: int, h: int, moves: Seq<usize>, n: int)
    requires
        1 <= w,
        1 <= h,
        moves_ok(w, h, moves),
        n == w,
    ensures
        occupancy(replay(w, h, moves), n) == moves.len(),
    decreases moves.len(),
{
    if moves.len() == 0 {
        lemma_occupancy_empty(replay(w, h, moves), n);
    } else {
        lemma_occupancy(w, h, moves.drop_last(), n);
        let g = replay(w, h, moves.drop_last());
        let x = moves.last() as int;
        lemma_replay_wf(w, h, moves.drop_last());
        lemma_count_occupied_bound(g[x]);
        assert(g[x][count_occupied(g[x])] is None) by {
            assert(grid_gravity(g, w, h));
        }
        lemma_occupancy_write(g, x, count_occupied(g[x]), turn_of(moves.len() - 1), n);
    }
}

proof fn lemma_occupancy_empty(g: Seq<Seq<Cell>>, n: int)
    requires
        forall|x: int| 0 <= x < n ==> all_none(#[trigger] g[x]),
    ensures
        occupancy(g, n) == 0,
    decreases n,
{
    if n > 0 {
        lemma_occupancy_empty(g, n - 1);
        lemma_count_occupied_none(g[n - 1]);
    }
}

proof fn lemma_count_occupied_none(col: Seq<Cell>)
    requires
        all_none(col),
    ensures
        count_occupied(col) == 0,
    decreases col.len(),
{
    if col.len() > 0 {
        assert(all_none(col.drop_last()));
        lemma_count_occupied_none(col.drop_last());
    }
}

proof fn lemma_lines_none_zero(ls: Seq<Seq<Cell>>, k: int, i: int, n: int)
    requires
        forall|j: int| 0 <= j < ls.len() ==> all_none(#[trigger] ls[j]),
        n <= ls.len(),
        k >= 1,
    ensures
        lines_score_upto(ls, k, i, n) == 0,
    decreases n,
{
    if n > 0 {
        lemma_lines_none_zero(ls, k, i, n - 1);
        lemma_line_none_zero(ls[n - 1], k, i, ls[n - 1].len() - k + 1);
        assert(line_score(ls[n - 1], k, i) == 0);
    }
}

} // verus!
