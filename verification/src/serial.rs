use vstd::prelude::*;
use crate::color::Color;
use crate::scoring::Cell;
use crate::game::Game;
use crate::game::empty_grid;
use crate::game::replay;
use crate::game::lemma_moves_bound;
use crate::board::cell_write;
use crate::board::MAX_SIDE;

verus! {

/// The two characters a cell is written as: its symbol and a space.
pub open spec fn render_cell(c: Cell) -> Seq<char> {
    match c {
        Some(Color::Red) => seq!['X', ' '],
        Some(Color::Yellow) => seq!['O', ' '],
        None => seq!['_', ' '],
    }
}

/// The first `n` cells of row `y`, left to right.
pub open spec fn render_row_upto(g: Seq<Seq<Cell>>, y: int, n: int) -> Seq<char>
    decreases n,
{
    if n <= 0 {
        Seq::empty()
    } else {
        render_row_upto(g, y, n - 1) + render_cell(g[n - 1][y])
    }
}

/// The first `m` output rows: board rows `h - 1` down to `h - m`, each
/// newline-terminated.
pub open spec fn render_upto(g: Seq<Seq<Cell>>, w: int, h: int, m: int) -> Seq<char>
    decreases m,
{
    if m <= 0 {
        Seq::empty()
    } else {
        render_upto(g, w, h, m - 1) + render_row_upto(g, h - m, w) + seq!['\n']
    }
}

/// The text form of a grid: one line per board row, top row first, `X` for
/// `Red`, `O` for `Yellow`, `_` for an empty cell, each followed by a space.
pub open spec fn spec_render(g: Seq<Seq<Cell>>, w: int, h: int) -> Seq<char> {
    render_upto(g, w, h, h)
}

impl Game {
    /// Writes the position in the text form `spec_render` describes; the
    /// result parses back with `deserialize`.
    pub fn serialize(&self) -> (out: String)
        requires
            self.wf(),
        ensures
            out@ == spec_render(self.grid(), self.spec_width(), self.spec_height()),
    {
        let ghost g = self.grid();
        let w = self.width();
        let h = self.height();
        let mut out = String::new();
        proof {
            reveal_strlit("X ");
            reveal_strlit("O ");
            reveal_strlit("_ ");
            reveal_strlit("\n");
        }
        let mut r: usize = 0;
        while r < h
            invariant
                r <= h,
                w == self.spec_width(),
                h == self.spec_height(),
                self.wf(),
                g == self.grid(),
                out@ == render_upto(g, w as int, h as int, r as int),
            decreases h - r,
        {
            let y = h - 1 - r;
            let mut c: usize = 0;
            while c < w
                invariant
                    c <= w,
                    r < h,
                    y == h - 1 - r,
                    w == self.spec_width(),
                    h == self.spec_height(),
                    self.wf(),
                    g == self.grid(),
                    out@ == render_upto(g, w as int, h as int, r as int) + render_row_upto(
                        g,
                        y as int,
                        c as int,
                    ),
                decreases w - c,
            {
                proof {
                    reveal_strlit("X ");
                    reveal_strlit("O ");
                    reveal_strlit("_ ");
                }
                match self.cell(c, y) {
                    Some(Color::Red) => out.append("X "),
                    Some(Color::Yellow) => out.append("O "),
                    None => out.append("_ "),
                }
                c = c + 1;
            }
            proof {
                reveal_strlit("\n");
            }
            out.append("\n");
            proof {
                assert(out@ == render_upto(g, w as int, h as int, r + 1));
            }
            r = r + 1;
        }
        out
    }
}


/// Failures of reading a position back from text.
#[derive(Clone, Copy, Debug, PartialEq, Eq, Structural)]
pub enum DeserializeError {
    /// The text holds no token at all.
    EmptyInput,
    /// Two rows hold different numbers of tokens.
    DifferentWidths,
    /// A character other than `X`, `O`, `_`, a space or a newline.
    BadSymbol(char),
    /// No alternating-turn play, reconstructed greedily column by column,
    /// produces the grid.
    UnreachablePosition,
}

/// Ends a scan: flushes an unterminated last row, then demands at least one
/// row.
pub open spec fn scan_finish(rows: Seq<Seq<Cell>>, cur: Seq<Cell>, wid: Option<int>) -> Result<
    Seq<Seq<Cell>>,
    DeserializeError,
> {
    if cur.len() > 0 {
        if wid matches Some(w0) && cur.len() != w0 {
            Err(DeserializeError::DifferentWidths)
        } else {
            Ok(rows.push(cur))
        }
    } else if rows.len() == 0 {
        Err(DeserializeError::EmptyInput)
    } else {
        Ok(rows)
    }
}

/// Reads tokens off the text one character at a time: `X`, `O` and `_` are
/// cells, spaces are skipped, a newline ends a row (blank lines are ignored),
/// anything else is a bad symbol; every row must repeat the first row's
/// width. `rows` and `cur` accumulate what has been read, `wid` the width the
/// first row fixed.
pub open spec fn scan_cells(
    s: Seq<char>,
    rows: Seq<Seq<Cell>>,
    cur: Seq<Cell>,
    wid: Option<int>,
) -> Result<Seq<Seq<Cell>>, DeserializeError>
    decreases s.len(),
{
    if s.len() == 0 {
        scan_finish(rows, cur, wid)
    } else {
        let rest = s.subrange(1, s.len() as int);
        if s[0] == ' ' {
            scan_cells(rest, rows, cur, wid)
        } else if s[0] == 'X' {
            scan_cells(rest, rows, cur.push(Some(Color::Red)), wid)
        } else if s[0] == 'O' {
            scan_cells(rest, rows, cur.push(Some(Color::Yellow)), wid)
        } else if s[0] == '_' {
            scan_cells(rest, rows, cur.push(None), wid)
        } else if s[0] == '\n' {
            if cur.len() == 0 {
                scan_cells(rest, rows, cur, wid)
            } else if wid matches Some(w0) && cur.len() != w0 {
                Err(DeserializeError::DifferentWidths)
            } else {
                scan_cells(rest, rows.push(cur), Seq::empty(), Some(cur.len() as int))
            }
        } else {
            Err(DeserializeError::BadSymbol(s[0]))
        }
    }
}

/// The rows a text names, top board row first.
pub open spec fn spec_parse(s: Seq<char>) -> Result<Seq<Seq<Cell>>, DeserializeError> {
    scan_cells(s, Seq::empty(), Seq::empty(), None)
}

/// A successful scan hands back at least one row, all of the first row's
/// width, none empty, and no more rows or cells than characters were read.
pub proof fn lemma_scan_shape(s: Seq<char>, rows: Seq<Seq<Cell>>, cur: Seq<Cell>, wid: Option<int>)
    requires
        wid is None ==> rows.len() == 0,
        wid matches Some(w0) ==> w0 >= 1 && forall|r: int|
            0 <= r < rows.len() ==> (#[trigger] rows[r]).len() == w0,
        scan_cells(s, rows, cur, wid) is Ok,
    ensures
        ({
            let res = scan_cells(s, rows, cur, wid)->Ok_0;
            &&& res.len() >= 1
            &&& res.len() <= rows.len() + 1 + s.len()
            &&& forall|r: int|
                0 <= r < res.len() ==> 1 <= (#[trigger] res[r]).len() == res[0].len() <= cur.len()
                    + s.len() + (match wid {
                    Some(w0) => w0,
                    None => 0,
                })
        }),
    decreases s.len(),
{
    let res = scan_cells(s, rows, cur, wid)->Ok_0;
    if s.len() == 0 {
        if cur.len() > 0 {
            assert(res == rows.push(cur));
        }
    } else {
        let rest = s.subrange(1, s.len() as int);
        if s[0] == ' ' {
            lemma_scan_shape(rest, rows, cur, wid);
        } else if s[0] == 'X' {
            lemma_scan_shape(rest, rows, cur.push(Some(Color::Red)), wid);
        } else if s[0] == 'O' {
            lemma_scan_shape(rest, rows, cur.push(Some(Color::Yellow)), wid);
        } else if s[0] == '_' {
            lemma_scan_shape(rest, rows, cur.push(None), wid);
        } else if s[0] == '\n' {
            if cur.len() == 0 {
                lemma_scan_shape(rest, rows, cur, wid);
            } else if wid matches Some(w0) && cur.len() != w0 {
            } else {
                lemma_scan_shape(rest, rows.push(cur), Seq::empty(), Some(cur.len() as int));
            }
        }
    }
}

/// The sequence of views of a vector of rows.
pub open spec fn views_of(rs: Seq<Vec<Cell>>) -> Seq<Seq<Cell>> {
    Seq::new(rs.len(), |j: int| rs[j]@)
}

/// Reads the rows a text names, exactly as `spec_parse` says.
fn parse_rows(s: &str) -> (r: Result<Vec<Vec<Cell>>, DeserializeError>)
    ensures
        match r {
            Ok(rows) => spec_parse(s@) == Ok::<Seq<Seq<Cell>>, DeserializeError>(views_of(rows@)),
            Err(e) => spec_parse(s@) == Err::<Seq<Seq<Cell>>, DeserializeError>(e),
        },
{
    let len = s.unicode_len();
    let mut rows: Vec<Vec<Cell>> = Vec::new();
    let mut cur: Vec<Cell> = Vec::new();
    let mut wid: Option<usize> = None;
    let ghost widg: Option<int> = None;
    let mut i: usize = 0;
    proof {
        assert(s@.skip(0) =~= s@);
        assert(views_of(rows@) =~= Seq::<Seq<Cell>>::empty());
        assert(cur@ =~= Seq::<Cell>::empty());
    }
    let ghost mut widg = widg;
    while i < len
        invariant
            i <= len,
            len == s@.len(),
            widg == match wid {
                Some(w0) => Some(w0 as int),
                None => None::<int>,
            },
            spec_parse(s@) == scan_cells(s@.skip(i as int), views_of(rows@), cur@, widg),
        decreases len - i,
    {
        let ghost tail = s@.skip(i as int);
        proof {
            assert(tail[0] == s@[i as int]);
            assert(tail.subrange(1, tail.len() as int) =~= s@.skip(i + 1));
        }
        let c = s.get_char(i);
        if c == ' ' {
        } else if c == 'X' {
            cur.push(Some(Color::Red));
        } else if c == 'O' {
            cur.push(Some(Color::Yellow));
        } else if c == '_' {
            cur.push(None);
        } else if c == '\n' {
            if cur.len() == 0 {
            } else {
                match wid {
                    Some(w0) => {
                        if cur.len() != w0 {
                            return Err(DeserializeError::DifferentWidths);
                        }
                    },
                    None => {},
                }
                wid = Some(cur.len());
                proof {
                    widg = Some(cur@.len() as int);
                }
                let ghost oldrows = views_of(rows@);
                let ghost oldcur = cur@;
                rows.push(cur);
                cur = Vec::new();
                proof {
                    assert(views_of(rows@) =~= oldrows.push(oldcur));
                }
            }
        } else {
            return Err(DeserializeError::BadSymbol(c));
        }
        i = i + 1;
    }
    proof {
        assert(s@.skip(len as int) =~= Seq::<char>::empty());
    }
    if cur.len() > 0 {
        match wid {
            Some(w0) => {
                if cur.len() != w0 {
                    return Err(DeserializeError::DifferentWidths);
                }
            },
            None => {},
        }
        let ghost oldrows = views_of(rows@);
        let ghost oldcur = cur@;
        rows.push(cur);
        proof {
            assert(views_of(rows@) =~= oldrows.push(oldcur));
        }
        Ok(rows)
    } else if rows.len() == 0 {
        Err(DeserializeError::EmptyInput)
    } else {
        Ok(rows)
    }
}


/// The sum of the first `n` fill counters.
pub open spec fn sum_fills(fills: Seq<int>, n: int) -> int
    decreases n,
{
    if n <= 0 {
        0
    } else {
        sum_fills(fills, n - 1) + fills[n - 1]
    }
}

proof fn lemma_sum_update(fills: Seq<int>, c: int, v: int, n: int)
    requires
        0 <= c < fills.len(),
        n <= fills.len(),
    ensures
        sum_fills(fills.update(c, v), n) == sum_fills(fills, n) + if c < n {
            v - fills[c]
        } else {
            0int
        },
    decreases n,
{
    if n > 0 {
        lemma_sum_update(fills, c, v, n - 1);
    }
}

proof fn lemma_sum_bounds(fills: Seq<int>, h: int, n: int)
    requires
        0 <= n <= fills.len(),
        forall|j: int| 0 <= j < fills.len() ==> 0 <= #[trigger] fills[j] <= h,
        0 <= h,
    ensures
        0 <= sum_fills(fills, n) <= n * h,
    decreases n,
{
    if n > 0 {
        lemma_sum_bounds(fills, h, n - 1);
        assert((n - 1) * h + h == n * h) by (nonlinear_arith);
        assert(0 <= (n - 1) * h) by (nonlinear_arith)
            requires
                n >= 1 && h >= 0,
        ;
    } else {
        assert(n * h == 0) by (nonlinear_arith)
            requires
                n == 0,
        ;
    }
}

/// One left-to-right pass of the reconstruction, starting at column `c`:
/// every column whose next unconsumed cell (from the bottom) holds the colour
/// whose turn it is gets played, the turn flipping after each play. Hands
/// back the fill counters, the turn, and whether anything was played.
pub open spec fn pass_from(tg: Seq<Seq<Cell>>, h: int, fills: Seq<int>, turn: Color, c: int) -> (
    Seq<int>,
    Color,
    bool,
)
    decreases tg.len() - c,
{
    if c >= tg.len() {
        (fills, turn, false)
    } else {
        let f = fills[c];
        if 0 <= c && 0 <= f && f < h && f < tg[c].len() && tg[c][f] == Some(turn) {
            let r = pass_from(tg, h, fills.update(c, f + 1), turn.spec_other(), c + 1);
            (r.0, r.1, true)
        } else {
            pass_from(tg, h, fills, turn, c + 1)
        }
    }
}

/// A pass only raises fill counter `j`, and keeps it within `h`.
pub proof fn lemma_pass_pointwise(
    tg: Seq<Seq<Cell>>,
    h: int,
    fills: Seq<int>,
    turn: Color,
    c: int,
    j: int,
)
    requires
        fills.len() == tg.len(),
        h >= 1,
        forall|t: int| 0 <= t < fills.len() ==> 0 <= #[trigger] fills[t] <= h,
        0 <= j < fills.len(),
    ensures
        fills[j] <= pass_from(tg, h, fills, turn, c).0[j] <= h,
        pass_from(tg, h, fills, turn, c).0.len() == fills.len(),
    decreases tg.len() - c,
{
    if c >= tg.len() {
    } else {
        let f = fills[c];
        if 0 <= c && 0 <= f && f < h && f < tg[c].len() && tg[c][f] == Some(turn) {
            let f2 = fills.update(c, f + 1);
            assert forall|t: int| 0 <= t < f2.len() implies 0 <= #[trigger] f2[t] <= h by {
                assert(f2[t] == if t == c {
                    f + 1
                } else {
                    fills[t]
                });
            }
            lemma_pass_pointwise(tg, h, f2, turn.spec_other(), c + 1, j);
            assert(fills[j] <= f2[j]);
        } else {
            lemma_pass_pointwise(tg, h, fills, turn, c + 1, j);
        }
    }
}

/// A pass raises the total fill sum exactly when it played; a pass that
/// played nothing changed nothing.
pub proof fn lemma_pass_props(tg: Seq<Seq<Cell>>, h: int, fills: Seq<int>, turn: Color, c: int)
    requires
        fills.len() == tg.len(),
        h >= 1,
        forall|t: int| 0 <= t < fills.len() ==> 0 <= #[trigger] fills[t] <= h,
    ensures
        pass_from(tg, h, fills, turn, c).0.len() == fills.len(),
        sum_fills(pass_from(tg, h, fills, turn, c).0, fills.len() as int) >= sum_fills(
            fills,
            fills.len() as int,
        ),
        pass_from(tg, h, fills, turn, c).2 ==> sum_fills(
            pass_from(tg, h, fills, turn, c).0,
            fills.len() as int,
        ) > sum_fills(fills, fills.len() as int),
        !pass_from(tg, h, fills, turn, c).2 ==> pass_from(tg, h, fills, turn, c).0 == fills
            && pass_from(tg, h, fills, turn, c).1 == turn,
        forall|t: int|
            0 <= t < fills.len() ==> 0 <= #[trigger] pass_from(tg, h, fills, turn, c).0[t] <= h,
    decreases tg.len() - c,
{
    assert forall|t: int| 0 <= t < fills.len() implies 0 <= #[trigger] pass_from(
        tg,
        h,
        fills,
        turn,
        c,
    ).0[t] <= h by {
        lemma_pass_pointwise(tg, h, fills, turn, c, t);
    }
    if c >= tg.len() {
    } else {
        let f = fills[c];
        if 0 <= c && 0 <= f && f < h && f < tg[c].len() && tg[c][f] == Some(turn) {
            let f2 = fills.update(c, f + 1);
            assert forall|t: int| 0 <= t < f2.len() implies 0 <= #[trigger] f2[t] <= h by {
                assert(f2[t] == if t == c {
                    f + 1
                } else {
                    fills[t]
                });
            }
            lemma_sum_update(fills, c, f + 1, fills.len() as int);
            lemma_pass_props(tg, h, f2, turn.spec_other(), c + 1);
        } else {
            lemma_pass_props(tg, h, fills, turn, c + 1);
        }
    }
}

/// The fill counters the whole greedy reconstruction reaches: passes repeat
/// until one plays nothing.
pub open spec fn greedy_fills(tg: Seq<Seq<Cell>>, h: int, fills: Seq<int>, turn: Color) -> Seq<
    int,
>
    decreases tg.len() * h - sum_fills(fills, tg.len() as int),
    when h >= 1 && fills.len() == tg.len() && (forall|j: int|
        0 <= j < fills.len() ==> 0 <= #[trigger] fills[j] <= h)
    via greedy_fills_decreases
{
    let r = pass_from(tg, h, fills, turn, 0);
    if r.2 {
        greedy_fills(tg, h, r.0, r.1)
    } else {
        fills
    }
}

#[via_fn]
proof fn greedy_fills_decreases(tg: Seq<Seq<Cell>>, h: int, fills: Seq<int>, turn: Color) {
    lemma_pass_props(tg, h, fills, turn, 0);
    lemma_sum_bounds(fills, h, fills.len() as int);
    let r = pass_from(tg, h, fills, turn, 0);
    if r.2 {
        lemma_sum_bounds(r.0, h, r.0.len() as int);
    }
}

/// All-zero fill counters for `n` columns.
pub open spec fn zero_fills(n: int) -> Seq<int> {
    Seq::new(n as nat, |j: int| 0int)
}

/// The column-major grid a stack of rows (top row first) describes.
pub open spec fn grid_of_rows(rows: Seq<Seq<Cell>>) -> Seq<Seq<Cell>> {
    Seq::new(
        rows[0].len(),
        |x: int| Seq::new(rows.len(), |y: int| rows[rows.len() - 1 - y][x]),
    )
}

/// Whether the reconstruction consumed every occupied cell: above the fill
/// level every cell is empty.
pub open spec fn consumed(tg: Seq<Seq<Cell>>, fills: Seq<int>) -> bool {
    forall|x: int, y: int|
        0 <= x < tg.len() && fills[x] <= y < tg[x].len() ==> (#[trigger] tg[x][y]) is None
}

/// The shape facts the reconstruction loops rely on: the text parsed to
/// exactly these rows, `gh` of them, each `gw` wide.
spec fn rows_shape(s: Seq<char>, rows: Seq<Vec<Cell>>, gw: int, gh: int) -> bool {
    &&& spec_parse(s) == Ok::<Seq<Seq<Cell>>, DeserializeError>(views_of(rows))
    &&& rows.len() == gh
    &&& 1 <= gh
    &&& 1 <= gw
    &&& forall|rr: int| 0 <= rr < gh ==> (#[trigger] rows[rr])@.len() == gw
    &&& views_of(rows)[0].len() == gw
}

/// Reads a position back from its text form. The rows are tokenized as
/// `spec_parse` says; the move order is then reconstructed by replaying
/// alternating turns greedily, column by column, left to right — `pass_from`
/// repeated until a pass plays nothing. If unconsumed tokens remain, no
/// greedy alternating-turn sequence produces the grid: `UnreachablePosition`.
/// On success the game holds exactly the grid the text names, with the score
/// history rebuilt by replaying the reconstructed moves.
pub fn deserialize(s: &str, k: usize) -> (r: Result<Game, DeserializeError>)
    requires
        1 <= k <= MAX_SIDE,
        spec_parse(s@) matches Ok(rows) ==> rows.len() <= MAX_SIDE && rows[0].len() <= MAX_SIDE,
    ensures
        match spec_parse(s@) {
            Err(e) => r == Err::<Game, DeserializeError>(e),
            Ok(rows) => ({
                let tg = grid_of_rows(rows);
                let fstar = greedy_fills(tg, rows.len() as int, zero_fills(rows[0].len() as int), Color::Red);
                if consumed(tg, fstar) {
                    &&& r matches Ok(g)
                    &&& r->Ok_0.wf()
                    &&& r->Ok_0.spec_k() == k
                    &&& r->Ok_0.spec_width() == rows[0].len()
                    &&& r->Ok_0.spec_height() == rows.len()
                    &&& r->Ok_0.grid() == tg
                } else {
                    r == Err::<Game, DeserializeError>(DeserializeError::UnreachablePosition)
                }
            }),
        },
{
    let rows = match parse_rows(s) {
        Ok(rows) => rows,
        Err(e) => {
            return Err(e);
        },
    };
    proof {
        lemma_scan_shape(s@, Seq::empty(), Seq::empty(), None);
    }
    let h = rows.len();
    let w = rows[0].len();
    let ghost rowseq = views_of(rows@);
    let ghost tg = grid_of_rows(rowseq);
    let ghost gw = w as int;
    let ghost gh = h as int;
    proof {
        assert(rowseq[0] == rows@[0]@);
        assert(1 <= gw <= MAX_SIDE);
        assert(1 <= gh <= MAX_SIDE);
        assert(tg.len() == gw);
        assert(forall|x: int| 0 <= x < gw ==> (#[trigger] tg[x]).len() == gh);
        assert forall|rr: int| 0 <= rr < gh implies (#[trigger] rows@[rr])@.len() == gw by {
            assert(rowseq[rr] == rows@[rr]@);
            assert(rowseq[rr].len() == rowseq[0].len());
        }
        assert(rows_shape(s@, rows@, gw, gh));
    }
    let mut game = Game::fresh(w, h, k);
    proof {
        game.lemma_board_shape();
        assert(game.grid() == replay(gw, gh, game.moves()));
        assert(game.moves() =~= Seq::<usize>::empty());
        assert forall|x: int| 0 <= x < gw implies #[trigger] game.spec_fill()[x] == 0 by {
            assert(game.grid()[x][0] == empty_grid(gw, gh)[x][0]);
        }
        assert(game.spec_fill() =~= zero_fills(gw));
        assert(game.spec_turn() == Color::Red);
    }
    loop
        invariant_except_break
            game.wf(),
            game.spec_width() == gw,
            game.spec_height() == gh,
            game.spec_k() == k,
            1 <= gh,
            1 <= gw,
            w == gw,
            h == gh,
            k >= 1,
            tg == grid_of_rows(views_of(rows@)),
            rowseq == views_of(rows@),
            rows_shape(s@, rows@, gw, gh),
            tg.len() == gw,
            forall|x: int| 0 <= x < gw ==> (#[trigger] tg[x]).len() == gh,
            forall|x: int, y: int|
                0 <= x < gw && 0 <= y < game.spec_fill()[x] ==> #[trigger] game.grid()[x][y]
                    == tg[x][y],
            greedy_fills(tg, gh, zero_fills(gw), Color::Red) == greedy_fills(
                tg,
                gh,
                game.spec_fill(),
                game.spec_turn(),
            ),
        ensures
            game.wf(),
            game.spec_width() == gw,
            game.spec_height() == gh,
            game.spec_k() == k,
            forall|x: int, y: int|
                0 <= x < gw && 0 <= y < game.spec_fill()[x] ==> #[trigger] game.grid()[x][y]
                    == tg[x][y],
            game.spec_fill() == greedy_fills(tg, gh, zero_fills(gw), Color::Red),
        decreases gw * gh - game.moves().len(),
    {
        let before = game.move_count();
        let ghost f0 = game.spec_fill();
        let ghost t0 = game.spec_turn();
        proof {
            game.lemma_board_shape();
        }
        let mut c: usize = 0;
        while c < w
            invariant
                game.wf(),
                game.spec_width() == gw,
                game.spec_height() == gh,
                game.spec_k() == k,
                1 <= gh,
                w == gw,
                h == gh,
                c <= w,
                rowseq == views_of(rows@),
                rows_shape(s@, rows@, gw, gh),
                tg == grid_of_rows(rowseq),
                tg.len() == gw,
                forall|x: int| 0 <= x < gw ==> (#[trigger] tg[x]).len() == gh,
                forall|x: int, y: int|
                    0 <= x < gw && 0 <= y < game.spec_fill()[x] ==> #[trigger] game.grid()[x][y]
                        == tg[x][y],
                before <= game.moves().len(),
                f0.len() == gw,
                forall|j: int| 0 <= j < gw ==> 0 <= #[trigger] f0[j] <= gh,
                pass_from(tg, gh, f0, t0, 0).0 == pass_from(
                    tg,
                    gh,
                    game.spec_fill(),
                    game.spec_turn(),
                    c as int,
                ).0,
                pass_from(tg, gh, f0, t0, 0).1 == pass_from(
                    tg,
                    gh,
                    game.spec_fill(),
                    game.spec_turn(),
                    c as int,
                ).1,
                pass_from(tg, gh, f0, t0, 0).2 == (game.moves().len() > before || pass_from(
                    tg,
                    gh,
                    game.spec_fill(),
                    game.spec_turn(),
                    c as int,
                ).2),
                greedy_fills(tg, gh, zero_fills(gw), Color::Red) == greedy_fills(tg, gh, f0, t0),
            decreases w - c,
        {
            proof {
                game.lemma_board_shape();
            }
            let f = game.fill_count(c);
            let ghost fc = game.spec_fill();
            let ghost tc = game.spec_turn();
            if f < h {
                let cellv = rows[h - 1 - f][c];
                proof {
                    assert(tg[c as int][f as int] == rowseq[gh - 1 - f][c as int]);
                    assert(rowseq[gh - 1 - f] == rows@[gh - 1 - f]@);
                }
                let t = game.turn();
                let hit = match cellv {
                    Some(col) => col == t,
                    None => false,
                };
                if hit {
                    let ghost gridc = game.grid();
                    match game.run(c) {
                        Ok(_) => {},
                        Err(_) => {
                            proof {
                                assert(false);
                            }
                        },
                    }
                    proof {
                        assert(game.spec_fill() == fc.update(c as int, f + 1));
                        assert(game.spec_turn() == tc.spec_other());
                        assert(game.grid() == cell_write(gridc, c as int, f as int, Some(tc)));
                        assert(tg[c as int][f as int] == Some(tc));
                        assert forall|x: int, y: int|
                            0 <= x < gw && 0 <= y < game.spec_fill()[x] implies
                        #[trigger] game.grid()[x][y] == tg[x][y] by {
                            if x == c as int {
                                assert(game.grid()[x] == gridc[x].update(f as int, Some(tc)));
                                if y != f as int {
                                    assert(game.grid()[x][y] == gridc[x][y]);
                                    assert(fc[x] == f);
                                }
                            } else {
                                assert(game.grid()[x] == gridc[x]);
                                assert(game.spec_fill()[x] == fc[x]);
                            }
                        }
                        assert(pass_from(tg, gh, fc, tc, c as int).0 == pass_from(
                            tg,
                            gh,
                            game.spec_fill(),
                            game.spec_turn(),
                            c + 1,
                        ).0);
                    }
                } else {
                    proof {
                        assert(!(tg[c as int][fc[c as int]] == Some(tc)));
                        assert(pass_from(tg, gh, fc, tc, c as int) == pass_from(
                            tg,
                            gh,
                            fc,
                            tc,
                            c + 1,
                        ));
                    }
                }
            } else {
                proof {
                    assert(fc[c as int] == gh);
                    assert(pass_from(tg, gh, fc, tc, c as int) == pass_from(tg, gh, fc, tc, c + 1));
                }
            }
            c = c + 1;
        }
        proof {
            assert(pass_from(tg, gh, game.spec_fill(), game.spec_turn(), gw) == (
                game.spec_fill(),
                game.spec_turn(),
                false,
            ));
            game.lemma_board_shape();
        }
        if game.move_count() == before {
            proof {
                assert(pass_from(tg, gh, f0, t0, 0).2 == false);
                lemma_pass_props(tg, gh, f0, t0, 0);
                assert(greedy_fills(tg, gh, f0, t0) == f0);
                assert(game.spec_fill() == f0);
            }
            break ;
        }
        proof {
            assert(pass_from(tg, gh, f0, t0, 0).2 == true);
            assert(greedy_fills(tg, gh, f0, t0) == greedy_fills(
                tg,
                gh,
                pass_from(tg, gh, f0, t0, 0).0,
                pass_from(tg, gh, f0, t0, 0).1,
            ));
            lemma_moves_bound(gw, gh, game.moves(), game.grid());
            assert(gw * gh >= game.moves().len()) by {
                assert(game.moves().len() <= gw * gh);
            }
        }
    }
    // every remaining cell must be empty, or the grid is unreachable
    let mut x: usize = 0;
    while x < w
        invariant
            x <= w,
            w == gw,
            h == gh,
            game.wf(),
            game.spec_width() == gw,
            game.spec_height() == gh,
            game.spec_k() == k,
            rowseq == views_of(rows@),
            rows_shape(s@, rows@, gw, gh),
            tg == grid_of_rows(rowseq),
            tg.len() == gw,
            forall|xx: int| 0 <= xx < gw ==> (#[trigger] tg[xx]).len() == gh,
            game.spec_fill() == greedy_fills(tg, gh, zero_fills(gw), Color::Red),
            forall|xx: int, y: int|
                0 <= xx < x && game.spec_fill()[xx] <= y < gh ==> (#[trigger] tg[xx][y]) is None,
        decreases w - x,
    {
        proof {
            game.lemma_board_shape();
        }
        let mut y = game.fill_count(x);
        let ghost fx = game.spec_fill()[x as int];
        while y < h
            invariant
                fx <= y <= h,
                x < w,
                w == gw,
                h == gh,
                game.wf(),
                game.spec_width() == gw,
                game.spec_height() == gh,
                rowseq == views_of(rows@),
                rows_shape(s@, rows@, gw, gh),
                tg == grid_of_rows(rowseq),
                tg.len() == gw,
                forall|xx: int| 0 <= xx < gw ==> (#[trigger] tg[xx]).len() == gh,
                fx == game.spec_fill()[x as int],
                0 <= fx,
                game.spec_k() == k,
                game.spec_fill() == greedy_fills(tg, gh, zero_fills(gw), Color::Red),
                forall|yy: int| fx <= yy < y ==> (#[trigger] tg[x as int][yy]) is None,
            decreases h - y,
        {
            let cellv = rows[h - 1 - y][x];
            proof {
                assert(tg[x as int][y as int] == rowseq[gh - 1 - y][x as int]);
                assert(rowseq[gh - 1 - y] == rows@[gh - 1 - y]@);
            }
            match cellv {
                Some(_) => {
                    proof {
                        assert(!consumed(tg, game.spec_fill()));
                    }
                    return Err(DeserializeError::UnreachablePosition);
                },
                None => {},
            }
            y = y + 1;
        }
        x = x + 1;
    }
    proof {
        assert(consumed(tg, game.spec_fill()));
        game.lemma_board_shape();
        assert forall|xx: int| 0 <= xx < gw implies #[trigger] game.grid()[xx] =~= tg[xx] by {
            assert forall|y: int| 0 <= y < gh implies game.grid()[xx][y] == tg[xx][y] by {
                if y >= game.spec_fill()[xx] {
                    assert(game.grid()[xx][y] is None);
                    assert(tg[xx][y] is None);
                }
            }
        }
        assert(game.grid() =~= tg);
    }
    Ok(game)
}


/// The cells of row `y`, columns `0 .. n`.
pub open spec fn row_cells(g: Seq<Seq<Cell>>, y: int, n: int) -> Seq<Cell> {
    Seq::new(n as nat, |x: int| g[x][y])
}

/// The first `m` output rows as cell rows, top board row first.
pub open spec fn top_rows(g: Seq<Seq<Cell>>, w: int, h: int, m: int) -> Seq<Seq<Cell>> {
    Seq::new(m as nat, |r: int| row_cells(g, h - 1 - r, w))
}

/// Scanning one rendered cell appends that cell to the open row.
proof fn lemma_scan_cell(
    v: Cell,
    rest: Seq<char>,
    rows: Seq<Seq<Cell>>,
    cur: Seq<Cell>,
    wid: Option<int>,
)
    ensures
        scan_cells(render_cell(v) + rest, rows, cur, wid) == scan_cells(
            rest,
            rows,
            cur.push(v),
            wid,
        ),
{
    let s0 = render_cell(v) + rest;
    let s1 = s0.subrange(1, s0.len() as int);
    assert(s1 =~= seq![' '] + rest);
    assert(s1.subrange(1, s1.len() as int) =~= rest);
    assert(s0[0] == render_cell(v)[0] && s1[0] == ' ');
    match v {
        Some(Color::Red) => {
            assert(s0[0] == 'X');
            assert(scan_cells(s0, rows, cur, wid) == scan_cells(s1, rows, cur.push(v), wid));
        },
        Some(Color::Yellow) => {
            assert(s0[0] == 'O');
            assert(scan_cells(s0, rows, cur, wid) == scan_cells(s1, rows, cur.push(v), wid));
        },
        None => {
            assert(s0[0] == '_');
            assert(scan_cells(s0, rows, cur, wid) == scan_cells(s1, rows, cur.push(v), wid));
        },
    }
    assert(scan_cells(s1, rows, cur.push(v), wid) == scan_cells(rest, rows, cur.push(v), wid));
}

/// Scanning a rendered row prefix appends its cells to the open row.
proof fn lemma_scan_row(
    g: Seq<Seq<Cell>>,
    y: int,
    n: int,
    rest: Seq<char>,
    rows: Seq<Seq<Cell>>,
    cur: Seq<Cell>,
    wid: Option<int>,
)
    requires
        n >= 0,
    ensures
        scan_cells(render_row_upto(g, y, n) + rest, rows, cur, wid) == scan_cells(
            rest,
            rows,
            cur + row_cells(g, y, n),
            wid,
        ),
    decreases n,
{
    if n == 0 {
        assert(render_row_upto(g, y, 0) + rest =~= rest);
        assert(cur + row_cells(g, y, 0) =~= cur);
    } else {
        let v = g[n - 1][y];
        assert(render_row_upto(g, y, n) + rest =~= render_row_upto(g, y, n - 1) + (render_cell(v)
            + rest));
        lemma_scan_row(g, y, n - 1, render_cell(v) + rest, rows, cur, wid);
        lemma_scan_cell(v, rest, rows, cur + row_cells(g, y, n - 1), wid);
        assert((cur + row_cells(g, y, n - 1)).push(v) =~= cur + row_cells(g, y, n));
    }
}

/// Scanning `m` rendered rows pushes them as complete rows of width `w`.
proof fn lemma_scan_rows(
    g: Seq<Seq<Cell>>,
    w: int,
    h: int,
    m: int,
    rest: Seq<char>,
    rows: Seq<Seq<Cell>>,
    wid: Option<int>,
)
    requires
        w >= 1,
        m >= 0,
        wid matches Some(w0) ==> w0 == w,
    ensures
        scan_cells(render_upto(g, w, h, m) + rest, rows, Seq::empty(), wid) == scan_cells(
            rest,
            rows + top_rows(g, w, h, m),
            Seq::empty(),
            if m == 0 {
                wid
            } else {
                Some(w)
            },
        ),
    decreases m,
{
    if m == 0 {
        assert(render_upto(g, w, h, 0) + rest =~= rest);
        assert(rows + top_rows(g, w, h, 0) =~= rows);
    } else {
        let row = render_row_upto(g, h - m, w);
        let cells = row_cells(g, h - m, w);
        let tail = row + (seq!['\n'] + rest);
        assert(render_upto(g, w, h, m) + rest =~= render_upto(g, w, h, m - 1) + tail);
        lemma_scan_rows(g, w, h, m - 1, tail, rows, wid);
        let rows1 = rows + top_rows(g, w, h, m - 1);
        let wid1 = if m - 1 == 0 {
            wid
        } else {
            Some(w)
        };
        lemma_scan_row(g, h - m, w, seq!['\n'] + rest, rows1, Seq::empty(), wid1);
        assert(Seq::empty() + cells =~= cells);
        let nl = seq!['\n'] + rest;
        assert(nl[0] == '\n');
        assert(nl.subrange(1, nl.len() as int) =~= rest);
        assert(cells.len() == w >= 1);
        assert(scan_cells(nl, rows1, cells, wid1) == scan_cells(
            rest,
            rows1.push(cells),
            Seq::empty(),
            Some(w),
        ));
        assert(rows1.push(cells) =~= rows + top_rows(g, w, h, m));
    }
}

/// The serialization round trip at grid level: the rendered text of any
/// well-formed position parses back to exactly that position's rows, and
/// those rows name exactly that grid. Together with `deserialize`'s contract:
/// reading `serialize`'s output back either rebuilds a game with the very
/// same board — and, by `lemma_same_grid_same_score`, the very same current
/// score — or reports `UnreachablePosition`; it never fails otherwise.
pub proof fn lemma_render_parse(g: Seq<Seq<Cell>>, w: int, h: int)
    requires
        w >= 1,
        h >= 1,
        crate::board::grid_wf(g, w, h),
    ensures
        spec_parse(spec_render(g, w, h)) == Ok::<Seq<Seq<Cell>>, DeserializeError>(
            top_rows(g, w, h, h),
        ),
        top_rows(g, w, h, h).len() == h,
        top_rows(g, w, h, h)[0].len() == w,
        grid_of_rows(top_rows(g, w, h, h)) == g,
{
    let rows = top_rows(g, w, h, h);
    assert(spec_render(g, w, h) =~= render_upto(g, w, h, h) + Seq::<char>::empty());
    lemma_scan_rows(g, w, h, h, Seq::empty(), Seq::empty(), None);
    assert(Seq::<Seq<Cell>>::empty() + rows =~= rows);
    assert(scan_cells(Seq::empty(), rows, Seq::empty(), Some(w)) == scan_finish(
        rows,
        Seq::empty(),
        Some(w),
    ));
    assert forall|x: int| 0 <= x < w implies #[trigger] grid_of_rows(rows)[x] =~= g[x] by {
        assert forall|y: int| 0 <= y < h implies grid_of_rows(rows)[x][y] == g[x][y] by {
            assert(rows[h - 1 - y] == row_cells(g, y, w));
        }
    }
    assert(grid_of_rows(rows) =~= g);
}

} // verus!
