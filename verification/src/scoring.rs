use vstd::prelude::*;
use crate::color::Color;
use crate::score::Score;

verus! {

/// One board cell: empty, or occupied by a colour.
pub type Cell = Option<Color>;

/// How many cells of `w` hold colour `c`.
pub open spec fn count_color(w: Seq<Cell>, c: Color) -> int
    decreases w.len(),
{
    if w.len() == 0 {
        0
    } else {
        count_color(w.drop_last(), c) + if w.last() == Some(c) {
            1int
        } else {
            0int
        }
    }
}

/// The contribution of one k-cell window to score bucket `i`, seen from
/// `Red`'s side: a window holding `r > 0` red cells and no yellow cell puts
/// `+1` in bucket `r - 1`; one holding `y > 0` yellow cells and no red cell
/// puts `-1` in bucket `y - 1`; a window with both colours, or none, is dead.
pub open spec fn window_val(w: Seq<Cell>, i: int) -> int {
    let r = count_color(w, Color::Red);
    let y = count_color(w, Color::Yellow);
    if y == 0 && r > 0 {
        if i == r - 1 {
            1int
        } else {
            0int
        }
    } else if r == 0 && y > 0 {
        if i == y - 1 {
            -1int
        } else {
            0int
        }
    } else {
        0int
    }
}

/// Sum of `window_val` over the `n` k-cell windows of `line` that start at
/// indices `0 .. n`.
pub open spec fn line_score_upto(line: Seq<Cell>, k: int, i: int, n: int) -> int
    decreases n,
{
    if n <= 0 {
        0
    } else {
        line_score_upto(line, k, i, n - 1) + window_val(line.subrange(n - 1, n - 1 + k), i)
    }
}

/// Bucket `i` of the score of one line: the sum of `window_val` over every
/// window of `k` consecutive cells. A line shorter than `k` scores zero.
pub open spec fn line_score(line: Seq<Cell>, k: int, i: int) -> int {
    line_score_upto(line, k, i, line.len() - k + 1)
}

/// Sum, over the `n` window starts `lo .. lo + n`, of the change in
/// `window_val` caused by writing `v` into `line` at position `p`.
pub open spec fn wdelta_sum(line: Seq<Cell>, p: int, v: Cell, k: int, i: int, lo: int, n: int) -> int
    decreases n,
{
    if n <= 0 {
        0
    } else {
        let s = lo + n - 1;
        wdelta_sum(line, p, v, k, i, lo, n - 1) + window_val(
            line.update(p, v).subrange(s, s + k),
            i,
        ) - window_val(line.subrange(s, s + k), i)
    }
}

/// The first window start whose window can contain position `p`.
pub open spec fn clip_low(p: int, k: int) -> int {
    if p - k + 1 >= 0 {
        p - k + 1
    } else {
        0
    }
}

/// One past the last window start whose window lies in the line and contains
/// position `p`.
pub open spec fn clip_high(p: int, k: int, len: int) -> int {
    if p <= len - k {
        p + 1
    } else {
        len - k + 1
    }
}

/// Bucket `i` of the change of a whole line's score when `v` is written at
/// position `p`.
pub open spec fn line_delta(line: Seq<Cell>, p: int, v: Cell, k: int, i: int) -> int {
    line_score(line.update(p, v), k, i) - line_score(line, k, i)
}

pub proof fn lemma_count_color_bound(w: Seq<Cell>, c: Color)
    ensures
        0 <= count_color(w, c) <= w.len(),
    decreases w.len(),
{
    if w.len() > 0 {
        lemma_count_color_bound(w.drop_last(), c);
    }
}

/// The two colour counts together never exceed the window length.
pub proof fn lemma_count_pair_bound(w: Seq<Cell>)
    ensures
        0 <= count_color(w, Color::Red) + count_color(w, Color::Yellow) <= w.len(),
    decreases w.len(),
{
    lemma_count_color_bound(w, Color::Red);
    lemma_count_color_bound(w, Color::Yellow);
    if w.len() > 0 {
        lemma_count_pair_bound(w.drop_last());
    }
}

/// A window with an empty cell has at most `len - 1` occupied cells.
pub proof fn lemma_count_pair_none(w: Seq<Cell>, j: int)
    requires
        0 <= j < w.len(),
        w[j] is None,
    ensures
        count_color(w, Color::Red) + count_color(w, Color::Yellow) <= w.len() - 1,
    decreases w.len(),
{
    if j == w.len() - 1 {
        lemma_count_pair_bound(w.drop_last());
    } else {
        lemma_count_pair_none(w.drop_last(), j);
    }
}

/// Writing colour `c` into an empty cell raises the count of `c` by one and
/// leaves the count of every other colour unchanged.
pub proof fn lemma_count_update_none(w: Seq<Cell>, j: int, c: Color, c2: Color)
    requires
        0 <= j < w.len(),
        w[j] is None,
    ensures
        count_color(w.update(j, Some(c)), c2) == count_color(w, c2) + if c2 == c {
            1int
        } else {
            0int
        },
    decreases w.len(),
{
    let w2 = w.update(j, Some(c));
    if j == w.len() - 1 {
        assert(w2.drop_last() =~= w.drop_last());
    } else {
        assert(w2.drop_last() =~= w.drop_last().update(j, Some(c)));
        lemma_count_update_none(w.drop_last(), j, c, c2);
    }
}

/// Appending one cell adds its colour to the count.
pub proof fn lemma_count_push(s: Seq<Cell>, x: Cell, c: Color)
    ensures
        count_color(s.push(x), c) == count_color(s, c) + if x == Some(c) {
            1int
        } else {
            0int
        },
{
    assert(s.push(x).drop_last() =~= s);
    assert(s.push(x).last() == x);
}

/// Dropping the first cell removes its colour from the count.
pub proof fn lemma_count_drop_first(s: Seq<Cell>, c: Color)
    requires
        s.len() > 0,
    ensures
        count_color(s, c) == count_color(s.subrange(1, s.len() as int), c) + if s[0] == Some(c) {
            1int
        } else {
            0int
        },
    decreases s.len(),
{
    if s.len() == 1 {
        assert(s.subrange(1, 1) =~= Seq::<Cell>::empty());
        assert(count_color(Seq::<Cell>::empty(), c) == 0);
        assert(s.drop_last() =~= Seq::<Cell>::empty());
        assert(s.last() == s[0]);
    } else {
        let tail = s.subrange(1, s.len() as int);
        lemma_count_drop_first(s.drop_last(), c);
        assert(s.drop_last()[0] == s[0]);
        assert(s.drop_last().subrange(1, s.len() - 1) =~= tail.drop_last());
        assert(tail.last() == s.last());
        assert(count_color(tail, c) == count_color(tail.drop_last(), c) + if tail.last() == Some(c) {
            1int
        } else {
            0int
        });
        assert(count_color(s.drop_last(), c) == count_color(tail.drop_last(), c) + if s[0]
            == Some(c) {
            1int
        } else {
            0int
        });
        assert(count_color(s, c) == count_color(s.drop_last(), c) + if s.last() == Some(c) {
            1int
        } else {
            0int
        });
    }
}

/// The change of `line_score_upto` under a point update is the window-delta
/// sum over the same starts.
proof fn lemma_upto_delta(line: Seq<Cell>, p: int, v: Cell, k: int, i: int, n: int)
    ensures
        line_score_upto(line.update(p, v), k, i, n) - line_score_upto(line, k, i, n)
            == wdelta_sum(line, p, v, k, i, 0, n),
    decreases n,
{
    if n > 0 {
        lemma_upto_delta(line, p, v, k, i, n - 1);
    }
}

/// A window that does not contain position `p` is unchanged by an update
/// at `p`.
proof fn lemma_wdelta_term_zero(line: Seq<Cell>, p: int, v: Cell, k: int, i: int, s: int)
    requires
        k >= 1,
        0 <= p < line.len(),
        0 <= s,
        s + k <= line.len(),
        s + k <= p || p < s,
    ensures
        window_val(line.update(p, v).subrange(s, s + k), i) == window_val(
            line.subrange(s, s + k),
            i,
        ),
{
    assert(line.update(p, v).subrange(s, s + k) =~= line.subrange(s, s + k));
}

/// Splitting a window-delta sum at an interior point.
proof fn lemma_wdelta_sum_split(
    line: Seq<Cell>,
    p: int,
    v: Cell,
    k: int,
    i: int,
    lo: int,
    n1: int,
    n2: int,
)
    requires
        0 <= n1,
        0 <= n2,
    ensures
        wdelta_sum(line, p, v, k, i, lo, n1 + n2) == wdelta_sum(line, p, v, k, i, lo, n1)
            + wdelta_sum(line, p, v, k, i, lo + n1, n2),
    decreases n2,
{
    if n2 > 0 {
        lemma_wdelta_sum_split(line, p, v, k, i, lo, n1, n2 - 1);
    }
}

/// A window-delta sum over starts whose windows all miss position `p` is zero.
proof fn lemma_wdelta_sum_zero(line: Seq<Cell>, p: int, v: Cell, k: int, i: int, lo: int, n: int)
    requires
        0 <= p < line.len(),
        0 <= lo,
        lo + n + k <= line.len() + 1,
        k >= 1,
        n <= 0 || lo + n - 1 + k <= p || p < lo,
    ensures
        wdelta_sum(line, p, v, k, i, lo, n) == 0,
    decreases n,
{
    if n > 0 {
        lemma_wdelta_sum_zero(line, p, v, k, i, lo, n - 1);
        lemma_wdelta_term_zero(line, p, v, k, i, lo + n - 1);
    }
}

/// The whole-line score change caused by writing `v` at position `p` equals
/// the window-delta sum over just the starts whose windows contain `p`.
pub proof fn lemma_line_delta_clipped(line: Seq<Cell>, p: int, v: Cell, k: int, i: int)
    requires
        0 <= p < line.len(),
        k >= 1,
    ensures
        line_delta(line, p, v, k, i) == wdelta_sum(
            line,
            p,
            v,
            k,
            i,
            clip_low(p, k),
            clip_high(p, k, line.len() as int) - clip_low(p, k),
        ),
{
    let len = line.len() as int;
    let n = len - k + 1;
    let lo = clip_low(p, k);
    let hi = clip_high(p, k, len);
    assert(line.update(p, v).len() == len);
    lemma_upto_delta(line, p, v, k, i, n);
    if n <= 0 {
        assert(hi - lo <= 0);
    } else {
        assert(0 <= lo <= hi <= n);
        lemma_wdelta_sum_split(line, p, v, k, i, 0, lo, n - lo);
        lemma_wdelta_sum_split(line, p, v, k, i, lo, hi - lo, n - hi);
        lemma_wdelta_sum_zero(line, p, v, k, i, 0, lo);
        lemma_wdelta_sum_zero(line, p, v, k, i, hi, n - hi);
    }
}

/// Window-delta sums may be read off a segment cut out of the line: start `t`
/// of the segment is start `a + t` of the line.
pub proof fn lemma_wdelta_sum_segment(
    line: Seq<Cell>,
    a: int,
    b: int,
    p: int,
    v: Cell,
    k: int,
    i: int,
    n: int,
)
    requires
        0 <= a <= p < b <= line.len(),
        k >= 1,
        0 <= n,
        a + n + k <= b + 1,
    ensures
        wdelta_sum(line.subrange(a, b), p - a, v, k, i, 0, n) == wdelta_sum(
            line,
            p,
            v,
            k,
            i,
            a,
            n,
        ),
    decreases n,
{
    if n > 0 {
        lemma_wdelta_sum_segment(line, a, b, p, v, k, i, n - 1);
        let s = n - 1;
        let seg = line.subrange(a, b);
        assert(seg.subrange(s, s + k) =~= line.subrange(a + s, a + s + k));
        assert(seg.update(p - a, v).subrange(s, s + k) =~= line.update(p, v).subrange(
            a + s,
            a + s + k,
        ));
    }
}

/// Every entry of a window's value is at most one in absolute size, so a
/// line's score is bounded by the number of its windows.
pub proof fn lemma_line_score_upto_bound(line: Seq<Cell>, k: int, i: int, n: int)
    requires
        n >= 0,
    ensures
        -n <= line_score_upto(line, k, i, n) <= n,
    decreases n,
{
    if n > 0 {
        lemma_line_score_upto_bound(line, k, i, n - 1);
        assert(-1 <= window_val(line.subrange(n - 1, n - 1 + k), i) <= 1);
        assert(line_score_upto(line, k, i, n) == line_score_upto(line, k, i, n - 1) + window_val(
            line.subrange(n - 1, n - 1 + k),
            i,
        ));
    } else {
        assert(line_score_upto(line, k, i, n) == 0);
    }
}

/// A line's score in any bucket is bounded by the line's length.
pub proof fn lemma_line_score_bound(line: Seq<Cell>, k: int, i: int)
    requires
        k >= 1,
    ensures
        -line.len() <= line_score(line, k, i) <= line.len(),
{
    let n = line.len() - k + 1;
    if n >= 0 {
        lemma_line_score_upto_bound(line, k, i, n);
    } else {
        assert(line_score(line, k, i) == 0);
    }
}

/// Each window shifts one bucket by at most two, so a window-delta sum is
/// bounded by twice the number of windows.
pub proof fn lemma_wdelta_sum_bound(
    line: Seq<Cell>,
    p: int,
    v: Cell,
    k: int,
    i: int,
    lo: int,
    n: int,
)
    requires
        n >= 0,
    ensures
        -2 * n <= wdelta_sum(line, p, v, k, i, lo, n) <= 2 * n,
    decreases n,
{
    if n > 0 {
        lemma_wdelta_sum_bound(line, p, v, k, i, lo, n - 1);
        let s = lo + n - 1;
        assert(-1 <= window_val(line.update(p, v).subrange(s, s + k), i) <= 1);
        assert(-1 <= window_val(line.subrange(s, s + k), i) <= 1);
    } else {
        assert(wdelta_sum(line, p, v, k, i, lo, n) == 0);
    }
}

/// Sliding a k-cell window one step: the tail cell leaves, the head cell
/// enters.
pub proof fn lemma_count_slide(line: Seq<Cell>, t: int, k: int, c: Color)
    requires
        0 <= t,
        1 <= k,
        t + k + 1 <= line.len(),
    ensures
        count_color(line.subrange(t + 1, t + 1 + k), c) == count_color(
            line.subrange(t, t + k),
            c,
        ) - (if line[t] == Some(c) {
            1int
        } else {
            0int
        }) + (if line[t + k] == Some(c) {
            1int
        } else {
            0int
        }),
{
    let a = line.subrange(t, t + k + 1);
    assert(a =~= line.subrange(t, t + k).push(line[t + k]));
    lemma_count_push(line.subrange(t, t + k), line[t + k], c);
    lemma_count_drop_first(a, c);
    assert(a.subrange(1, a.len() as int) =~= line.subrange(t + 1, t + 1 + k));
}

/// Sum of `line_score` over the first `n` lines of a collection.
pub open spec fn lines_score_upto(ls: Seq<Seq<Cell>>, k: int, i: int, n: int) -> int
    decreases n,
{
    if n <= 0 {
        0
    } else {
        lines_score_upto(ls, k, i, n - 1) + line_score(ls[n - 1], k, i)
    }
}

/// Bucket `i` of the score of a whole collection of lines.
pub open spec fn lines_score(ls: Seq<Seq<Cell>>, k: int, i: int) -> int {
    lines_score_upto(ls, k, i, ls.len() as int)
}

proof fn lemma_lines_upto_update(ls: Seq<Seq<Cell>>, j: int, l2: Seq<Cell>, k: int, i: int, n: int)
    requires
        0 <= j < ls.len(),
        n <= ls.len(),
    ensures
        lines_score_upto(ls.update(j, l2), k, i, n) == lines_score_upto(ls, k, i, n) + if j < n {
            line_score(l2, k, i) - line_score(ls[j], k, i)
        } else {
            0int
        },
    decreases n,
{
    if n > 0 {
        lemma_lines_upto_update(ls, j, l2, k, i, n - 1);
    }
}

/// Replacing one line of a collection shifts the collection's score by that
/// line's change alone.
pub proof fn lemma_lines_score_update(ls: Seq<Seq<Cell>>, j: int, l2: Seq<Cell>, k: int, i: int)
    requires
        0 <= j < ls.len(),
    ensures
        lines_score(ls.update(j, l2), k, i) == lines_score(ls, k, i) + line_score(l2, k, i)
            - line_score(ls[j], k, i),
{
    lemma_lines_upto_update(ls, j, l2, k, i, ls.len() as int);
}

/// A collection of `n` lines, each at most `m` long, scores at most `n * m`
/// in absolute size.
pub proof fn lemma_lines_score_bound(ls: Seq<Seq<Cell>>, k: int, i: int, m: int, n: int)
    requires
        k >= 1,
        0 <= m,
        0 <= n <= ls.len(),
        forall|j: int| 0 <= j < ls.len() ==> (#[trigger] ls[j]).len() <= m,
    ensures
        -(n * m) <= lines_score_upto(ls, k, i, n) <= n * m,
    decreases n,
{
    if n > 0 {
        lemma_lines_score_bound(ls, k, i, m, n - 1);
        lemma_line_score_bound(ls[n - 1], k, i);
        assert((n - 1) * m + m == n * m) by (nonlinear_arith);
    }
}


/// Ties the exec segment walk to the whole line: a segment clipped to
/// `k - 1` cells around `p` carries exactly the line's score change, and that
/// change is at most two per window.
pub proof fn lemma_axis_fold(
    line: Seq<Cell>,
    p: int,
    v: Cell,
    k: int,
    i: int,
    a: int,
    b: int,
    seg: Seq<Cell>,
)
    requires
        k >= 1,
        0 <= p < line.len(),
        a == clip_low(p, k),
        b == if p + k <= line.len() {
            p + k
        } else {
            line.len() as int
        },
        seg == line.subrange(a, b),
    ensures
        wdelta_sum(seg, p - a, v, k, i, 0, seg.len() - k + 1) == line_delta(line, p, v, k, i),
        -2 * k <= line_delta(line, p, v, k, i) <= 2 * k,
{
    let lo = clip_low(p, k);
    let hi = clip_high(p, k, line.len() as int);
    let n = hi - lo;
    lemma_line_delta_clipped(line, p, v, k, i);
    assert(seg.len() == b - a);
    assert(seg.len() - k + 1 == n);
    if n > 0 {
        lemma_wdelta_sum_segment(line, a, b, p, v, k, i, n);
        lemma_wdelta_sum_bound(line, p, v, k, i, lo, n);
    } else {
        assert(wdelta_sum(seg, p - a, v, k, i, 0, n) == 0);
        assert(wdelta_sum(line, p, v, k, i, lo, n) == 0);
    }
}

/// Folds into `score` the score change of one axis segment caused by placing
/// `color` at `seg[pos]`. The caller clips the segment to at most `k - 1`
/// cells on each side of the placed cell, so every k-cell window of the
/// segment contains it; a single window of colour counts is slid across the
/// segment, updated in O(1) per shift.
pub(crate) fn apply_line_delta(seg: &Vec<Cell>, pos: usize, color: Color, score: &mut Score)
    requires
        old(score)@.len() >= 1,
        pos < seg@.len(),
        seg@[pos as int] is None,
        pos < old(score)@.len(),
        seg@.len() - 1 - pos < old(score)@.len(),
        forall|i: int|
            0 <= i < old(score)@.len() ==> i32::MIN + 2 * old(score)@.len() <= #[trigger] old(
                score,
            )@[i] <= i32::MAX - 2 * old(score)@.len(),
    ensures
        final(score)@.len() == old(score)@.len(),
        forall|i: int|
            0 <= i < old(score)@.len() ==> final(score)@[i] == old(score)@[i] + wdelta_sum(
                seg@,
                pos as int,
                Some(color),
                old(score)@.len() as int,
                i,
                0,
                seg@.len() - old(score)@.len() + 1,
            ),
{
    let k = score.len();
    let len = seg.len();
    let ghost line = seg@;
    let ghost v: Cell = Some(color);
    let ghost ki = k as int;
    if len < k {
        assert(forall|i: int| #[trigger] wdelta_sum(line, pos as int, v, ki, i, 0, len - ki + 1) == 0);
        return ;
    }
    let other = color.other();
    let sgn: i32 = if color == Color::Red {
        1
    } else {
        -1
    };

    // colour counts of the first window
    let mut count_turn: usize = 0;
    let mut count_other: usize = 0;
    let mut j: usize = 0;
    while j < k
        invariant
            j <= k <= len,
            len == line.len(),
            seg@ == line,
            other == color.spec_other(),
            count_turn == count_color(line.subrange(0, j as int), color),
            count_other == count_color(line.subrange(0, j as int), other),
            count_turn <= j,
            count_other <= j,
        decreases k - j,
    {
        proof {
            let w = line.subrange(0, j + 1);
            assert(w.drop_last() =~= line.subrange(0, j as int));
            assert(w.last() == line[j as int]);
        }
        match seg[j] {
            Some(c) => if c == color {
                count_turn = count_turn + 1;
            } else {
                count_other = count_other + 1;
            },
            None => {},
        }
        j = j + 1;
    }

    let nwin = len - k + 1;
    let mut t: usize = 0;
    while t < nwin
        invariant
            t <= nwin,
            nwin == len - k + 1,
            1 <= k,
            k == score@.len(),
            ki == k as int,
            len == line.len(),
            seg@ == line,
            v == Some(color),
            other == color.spec_other(),
            sgn == if color == Color::Red {
                1i32
            } else {
                -1i32
            },
            pos < k,
            len - 1 - pos < k,
            pos < len,
            line[pos as int] is None,
            t < nwin ==> count_turn == count_color(line.subrange(t as int, t + ki), color),
            t < nwin ==> count_other == count_color(line.subrange(t as int, t + ki), other),
            forall|i: int|
                0 <= i < ki ==> score@[i] == old(score)@[i] + wdelta_sum(
                    line,
                    pos as int,
                    v,
                    ki,
                    i,
                    0,
                    t as int,
                ),
            forall|i: int|
                0 <= i < ki ==> old(score)@[i] - 2 * t <= #[trigger] score@[i] <= old(score)@[i]
                    + 2 * t,
            forall|i: int|
                0 <= i < ki ==> i32::MIN + 2 * ki <= #[trigger] old(score)@[i] <= i32::MAX - 2
                    * ki,
        decreases nwin - t,
    {
        let ghost w = line.subrange(t as int, t + ki);
        let ghost w2 = line.update(pos as int, v).subrange(t as int, t + ki);
        let ghost prev = score@;
        let ghost r = count_turn as int;
        let ghost y = count_other as int;
        proof {
            assert(t <= pos < t + ki) by {
                assert(t <= nwin - 1 == len - ki);
                assert(len - 1 - pos < ki);
            }
            assert(w2 =~= w.update(pos - t, v));
            assert(w[pos - t] is None);
            lemma_count_update_none(w, pos - t, color, Color::Red);
            lemma_count_update_none(w, pos - t, color, Color::Yellow);
            lemma_count_pair_none(w, pos - t);
            lemma_count_color_bound(w, Color::Red);
            lemma_count_color_bound(w, Color::Yellow);
            if color == Color::Red {
                assert(count_color(w, Color::Red) == r);
                assert(count_color(w, Color::Yellow) == y);
            } else {
                assert(count_color(w, Color::Yellow) == r);
                assert(count_color(w, Color::Red) == y);
            }
            assert(r + y <= ki - 1);
        }
        // the credit/debit rule for this window
        if count_other == 0 {
            if count_turn != 0 {
                let x = score.get(count_turn - 1);
                score.set(count_turn - 1, x - sgn);
            }
            let x = score.get(count_turn);
            score.set(count_turn, x + sgn);
        } else if count_turn == 0 {
            let x = score.get(count_other - 1);
            score.set(count_other - 1, x + sgn);
        }
        proof {
            assert forall|i: int| 0 <= i < ki implies score@[i] == prev[i] + window_val(w2, i)
                - window_val(w, i) by {
                if color == Color::Red {
                    assert(count_color(w2, Color::Red) == r + 1);
                    assert(count_color(w2, Color::Yellow) == y);
                } else {
                    assert(count_color(w2, Color::Yellow) == r + 1);
                    assert(count_color(w2, Color::Red) == y);
                }
            }
            assert forall|i: int| 0 <= i < ki implies score@[i] == old(score)@[i] + wdelta_sum(
                line,
                pos as int,
                v,
                ki,
                i,
                0,
                t + 1,
            ) by {
                assert(wdelta_sum(line, pos as int, v, ki, i, 0, t + 1) == wdelta_sum(
                    line,
                    pos as int,
                    v,
                    ki,
                    i,
                    0,
                    t as int,
                ) + window_val(w2, i) - window_val(w, i));
            }
        }
        t = t + 1;
        if t < nwin {
            // slide: the tail cell leaves the window, the next head cell enters
            let ghost wnext = line.subrange(t as int, t + ki);
            proof {
                lemma_count_slide(line, t - 1, ki, color);
                lemma_count_slide(line, t - 1, ki, other);
                lemma_count_drop_first(w, color);
                lemma_count_drop_first(w, other);
                lemma_count_color_bound(w.subrange(1, ki), color);
                lemma_count_color_bound(w.subrange(1, ki), other);
                lemma_count_color_bound(wnext, color);
                lemma_count_color_bound(wnext, other);
                assert(w[0] == line[t - 1]);
            }
            match seg[t + k - 1] {
                Some(c) => if c == color {
                    count_turn = count_turn + 1;
                } else {
                    count_other = count_other + 1;
                },
                None => {},
            }
            match seg[t - 1] {
                Some(c) => if c == color {
                    count_turn = count_turn - 1;
                } else {
                    count_other = count_other - 1;
                },
                None => {},
            }
        }
    }
}


/// Whether the `k` cells of `line` starting at `s` all hold colour `c`.
pub open spec fn is_run(line: Seq<Cell>, s: int, k: int, c: Color) -> bool {
    forall|t: int| s <= t < s + k ==> #[trigger] line[t] == Some(c)
}

/// Whether some window of `k` consecutive cells of `line`, containing
/// position `p`, holds colour `c` in every cell.
pub open spec fn line_has_run(line: Seq<Cell>, p: int, k: int, c: Color) -> bool {
    exists|s: int|
        0 <= s && s + k <= line.len() && s <= p < s + k && #[trigger] is_run(line, s, k, c)
}

/// A nonzero window-delta sum names at least one window whose value changed.
proof fn lemma_wdelta_nonzero(line: Seq<Cell>, p: int, v: Cell, k: int, i: int, lo: int, n: int)
    requires
        wdelta_sum(line, p, v, k, i, lo, n) != 0,
    ensures
        exists|t: int|
            lo <= t < lo + n && window_val(line.update(p, v).subrange(t, t + k), i) != window_val(
                #[trigger] line.subrange(t, t + k),
                i,
            ),
    decreases n,
{
    let s = lo + n - 1;
    if window_val(line.update(p, v).subrange(s, s + k), i) != window_val(
        line.subrange(s, s + k),
        i,
    ) {
    } else {
        lemma_wdelta_nonzero(line, p, v, k, i, lo, n - 1);
    }
}

/// A window holding as many cells of one colour as its length is that colour
/// throughout.
proof fn lemma_count_color_full(w: Seq<Cell>, c: Color)
    requires
        count_color(w, c) == w.len(),
    ensures
        forall|t: int| 0 <= t < w.len() ==> #[trigger] w[t] == Some(c),
    decreases w.len(),
{
    if w.len() > 0 {
        lemma_count_color_bound(w.drop_last(), c);
        lemma_count_color_full(w.drop_last(), c);
        assert forall|t: int| 0 <= t < w.len() implies #[trigger] w[t] == Some(c) by {
            if t < w.len() - 1 {
                assert(w.drop_last()[t] == Some(c));
            }
        }
    }
}

/// If writing `c` into a window's empty cell moves its top score bucket, the
/// window is then entirely `c`: a completed k-in-a-row.
proof fn lemma_win_window(w: Seq<Cell>, q: int, c: Color, k: int)
    requires
        w.len() == k,
        k >= 1,
        0 <= q < k,
        w[q] is None,
        window_val(w.update(q, Some(c)), k - 1) != window_val(w, k - 1),
    ensures
        forall|t: int| 0 <= t < k ==> #[trigger] w.update(q, Some(c))[t] == Some(c),
{
    let w2 = w.update(q, Some(c));
    lemma_count_pair_none(w, q);
    lemma_count_color_bound(w, Color::Red);
    lemma_count_color_bound(w, Color::Yellow);
    assert(window_val(w, k - 1) == 0);
    lemma_count_update_none(w, q, c, Color::Red);
    lemma_count_update_none(w, q, c, Color::Yellow);
    if c == Color::Red {
        assert(count_color(w2, Color::Red) == k);
        lemma_count_color_full(w2, Color::Red);
    } else {
        assert(count_color(w2, Color::Yellow) == k);
        lemma_count_color_full(w2, Color::Yellow);
    }
}

/// If one line's score change at the top bucket is nonzero after `c` fills
/// position `p`, the written line holds a k-run of `c` through `p`.
pub proof fn lemma_line_delta_top_run(line: Seq<Cell>, p: int, c: Color, k: int)
    requires
        k >= 1,
        0 <= p < line.len(),
        line[p] is None,
        line_delta(line, p, Some(c), k, k - 1) != 0,
    ensures
        line_has_run(line.update(p, Some(c)), p, k, c),
{
    let v: Cell = Some(c);
    let line2 = line.update(p, v);
    let lo = clip_low(p, k);
    let hi = clip_high(p, k, line.len() as int);
    lemma_line_delta_clipped(line, p, v, k, k - 1);
    lemma_wdelta_nonzero(line, p, v, k, k - 1, lo, hi - lo);
    let t = choose|t: int|
        lo <= t < hi && window_val(line.update(p, v).subrange(t, t + k), k - 1) != window_val(
            #[trigger] line.subrange(t, t + k),
            k - 1,
        );
    let w = line.subrange(t, t + k);
    let w2 = line2.subrange(t, t + k);
    assert(w2 =~= w.update(p - t, v));
    assert(w[p - t] is None);
    lemma_win_window(w, p - t, c, k);
    assert forall|u: int| t <= u < t + k implies #[trigger] line2[u] == Some(c) by {
        assert(w.update(p - t, v)[u - t] == Some(c));
    }
    assert(is_run(line2, t, k, c));
    assert(0 <= t && t + k <= line2.len() && t <= p < t + k);
}


/// Writing a mover's token into an empty cell never moves the top bucket
/// against the mover: each affected window's top-bucket value rises for `Red`
/// and sinks for `Yellow` (a window holding the new token cannot be a full
/// window of the opposing colour).
proof fn lemma_win_term_sign(w: Seq<Cell>, q: int, c: Color, k: int)
    requires
        w.len() == k,
        k >= 1,
        0 <= q < k,
        w[q] is None,
    ensures
        c == Color::Red ==> window_val(w.update(q, Some(c)), k - 1) - window_val(w, k - 1) >= 0,
        c == Color::Yellow ==> window_val(w.update(q, Some(c)), k - 1) - window_val(w, k - 1)
            <= 0,
{
    let w2 = w.update(q, Some(c));
    lemma_count_pair_none(w, q);
    lemma_count_color_bound(w, Color::Red);
    lemma_count_color_bound(w, Color::Yellow);
    assert(window_val(w, k - 1) == 0);
    lemma_count_update_none(w, q, c, Color::Red);
    lemma_count_update_none(w, q, c, Color::Yellow);
    lemma_count_color_bound(w2, Color::Red);
    lemma_count_color_bound(w2, Color::Yellow);
}

/// The whole window-delta sum at the top bucket keeps the mover's sign.
proof fn lemma_wdelta_sum_sign(line: Seq<Cell>, p: int, c: Color, k: int, lo: int, n: int)
    requires
        k >= 1,
        0 <= p < line.len(),
        line[p] is None,
        0 <= lo,
        lo + n + k <= line.len() + 1,
    ensures
        c == Color::Red ==> wdelta_sum(line, p, Some(c), k, k - 1, lo, n) >= 0,
        c == Color::Yellow ==> wdelta_sum(line, p, Some(c), k, k - 1, lo, n) <= 0,
    decreases n,
{
    if n > 0 {
        lemma_wdelta_sum_sign(line, p, c, k, lo, n - 1);
        let s = lo + n - 1;
        if s + k <= p || p < s {
            lemma_wdelta_term_zero(line, p, Some(c), k, k - 1, s);
        } else {
            let w = line.subrange(s, s + k);
            assert(line.update(p, Some(c)).subrange(s, s + k) =~= w.update(p - s, Some(c)));
            assert(w[p - s] is None);
            lemma_win_term_sign(w, p - s, c, k);
        }
    }
}

/// A placed token moves its line's top score bucket only toward the mover.
pub proof fn lemma_line_delta_top_sign(line: Seq<Cell>, p: int, c: Color, k: int)
    requires
        k >= 1,
        0 <= p < line.len(),
        line[p] is None,
    ensures
        c == Color::Red ==> line_delta(line, p, Some(c), k, k - 1) >= 0,
        c == Color::Yellow ==> line_delta(line, p, Some(c), k, k - 1) <= 0,
{
    let n = line.len() - k + 1;
    lemma_upto_delta(line, p, Some(c), k, k - 1, n);
    assert(line.update(p, Some(c)).len() == line.len());
    if n > 0 {
        lemma_wdelta_sum_sign(line, p, c, k, 0, n);
    } else {
        assert(wdelta_sum(line, p, Some(c), k, k - 1, 0, n) == 0);
    }
}

} // verus!
