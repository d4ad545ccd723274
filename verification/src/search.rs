use vstd::prelude::*;
use crate::color::Color;
use crate::score::Score;
use crate::game::Game;
use crate::game::GameState;
use crate::game::lemma_position_determined;

verus! {

/// The near-extreme score a search node reports for an immediate win by
/// `mover`: all entries `i32::MAX - 1` when `Red` just won, all
/// `i32::MIN + 1` when `Yellow` did. Strictly inside the initial alpha-beta
/// bounds, and past any heuristic score, whose entries the board caps keep
/// far from the `i32` limits.
pub open spec fn win_sentinel(k: int, mover: Color) -> Seq<i32> {
    Seq::new(
        k as nat,
        |i: int|
            if mover == Color::Red {
                (i32::MAX - 1) as i32
            } else {
                (i32::MIN + 1) as i32
            },
    )
}

/// The all-zero score a drawn probe reports.
pub open spec fn zero_score(k: int) -> Seq<i32> {
    Seq::new(k as nat, |i: int| 0i32)
}

/// Whether `order[j0]` is the first candidate column of `order` that is
/// playable in position `g`.
pub open spec fn first_playable_at(g: Game, order: Seq<usize>, j0: int) -> bool {
    &&& 0 <= j0 < order.len()
    &&& g.spec_playable(order[j0] as int)
    &&& forall|j: int| 0 <= j < j0 ==> !(#[trigger] g.spec_playable(order[j] as int))
}

impl Game {
    /// Depth-limited alpha-beta search from the current position, trying
    /// candidate columns in the order given (which also breaks ties: the
    /// first column reaching a score is kept). Returns the best reachable
    /// score and the principal variation, innermost move first — the caller
    /// reads the last element as the move to play. The game is handed back
    /// exactly as it was — every probe is undone on every exit path — except
    /// the cached state, which probing resets to `InProgress`. At depth 0 the
    /// result is the static score with an empty variation; when the first
    /// playable candidate wins or draws at once, the result is the win
    /// sentinel or the zero vector with that column alone.
    pub fn minimax_rec(&mut self, depth: usize, move_order: &Vec<usize>) -> (r: (Score, Vec<
        usize,
    >))
        requires
            old(self).wf(),
        ensures
            final(self).wf(),
            final(self).spec_width() == old(self).spec_width(),
            final(self).spec_height() == old(self).spec_height(),
            final(self).spec_k() == old(self).spec_k(),
            final(self).moves() == old(self).moves(),
            final(self).grid() == old(self).grid(),
            final(self).spec_turn() == old(self).spec_turn(),
            final(self).last_score_spec() == old(self).last_score_spec(),
            final(self).spec_state() == old(self).spec_state() || final(self).spec_state()
                == GameState::InProgress,
            r.0@.len() == old(self).spec_k(),
            forall|j: int| 0 <= j < r.1@.len() ==> r.1@[j] < old(self).spec_width(),
            depth == 0 ==> r.0@ == old(self).last_score_spec() && r.1@.len() == 0,
            forall|j0: int|
                depth >= 1 && #[trigger] first_playable_at(*old(self), move_order@, j0) && old(
                    self,
                ).spec_wins(move_order@[j0] as int) ==> r.0@ == win_sentinel(
                    old(self).spec_k(),
                    old(self).spec_turn(),
                ) && r.1@ == seq![move_order@[j0]],
            forall|j0: int|
                depth >= 1 && #[trigger] first_playable_at(*old(self), move_order@, j0) && old(
                    self,
                ).spec_draws(move_order@[j0] as int) ==> r.0@ == zero_score(old(self).spec_k())
                    && r.1@ == seq![move_order@[j0]],
    {
        let k = self.k();
        let alpha = Score::uniform(k, i32::MIN);
        let beta = Score::uniform(k, i32::MAX);
        self.minimax_rec_inner(depth, alpha, beta, move_order)
    }

    /// Alpha-beta search with a caller-supplied starting window; hands back
    /// the best score and the immediate best move (the principal variation's
    /// outermost element; 0 when the variation is empty). Same depth-0,
    /// immediate-win and immediate-draw behaviour as `minimax_rec`.
    pub fn minimax(&mut self, depth: usize, alpha: Score, beta: Score, move_order: &Vec<usize>) -> (
        r: (Score, usize))
        requires
            old(self).wf(),
            alpha@.len() == old(self).spec_k(),
            beta@.len() == old(self).spec_k(),
        ensures
            final(self).wf(),
            final(self).spec_width() == old(self).spec_width(),
            final(self).spec_height() == old(self).spec_height(),
            final(self).spec_k() == old(self).spec_k(),
            final(self).moves() == old(self).moves(),
            final(self).grid() == old(self).grid(),
            final(self).spec_turn() == old(self).spec_turn(),
            final(self).last_score_spec() == old(self).last_score_spec(),
            final(self).spec_state() == old(self).spec_state() || final(self).spec_state()
                == GameState::InProgress,
            r.0@.len() == old(self).spec_k(),
            r.1 < old(self).spec_width() || r.1 == 0,
            depth == 0 ==> r.0@ == old(self).last_score_spec() && r.1 == 0,
            forall|j0: int|
                depth >= 1 && #[trigger] first_playable_at(*old(self), move_order@, j0) && old(
                    self,
                ).spec_wins(move_order@[j0] as int) ==> r.0@ == win_sentinel(
                    old(self).spec_k(),
                    old(self).spec_turn(),
                ) && r.1 == move_order@[j0],
            forall|j0: int|
                depth >= 1 && #[trigger] first_playable_at(*old(self), move_order@, j0) && old(
                    self,
                ).spec_draws(move_order@[j0] as int) ==> r.0@ == zero_score(old(self).spec_k())
                    && r.1 == move_order@[j0],
    {
        let (score, pv) = self.minimax_rec_inner(depth, alpha, beta, move_order);
        if pv.len() == 0 {
            (score, 0)
        } else {
            let m = pv[pv.len() - 1];
            proof {
                assert forall|j0: int|
                    depth >= 1 && #[trigger] first_playable_at(*old(self), move_order@, j0) && (old(
                        self,
                    ).spec_wins(move_order@[j0] as int) || old(self).spec_draws(
                        move_order@[j0] as int,
                    )) implies m == move_order@[j0] by {
                    assert(pv@ == seq![move_order@[j0]]);
                }
            }
            (score, m)
        }
    }

    /// One alpha-beta node. At depth 0 the static score is the value;
    /// otherwise each playable candidate column is probed with
    /// `run_unchecked`, scored — a win for the mover short-circuits with a
    /// near-extreme sentinel, a draw with the zero vector — and undone, and
    /// the window `[alpha, beta]` prunes the remaining siblings once it
    /// closes. Strict comparisons keep the earliest candidate on ties.
    fn minimax_rec_inner(
        &mut self,
        depth: usize,
        alpha: Score,
        beta: Score,
        move_order: &Vec<usize>,
    ) -> (r: (Score, Vec<usize>))
        requires
            old(self).wf(),
            alpha@.len() == old(self).spec_k(),
            beta@.len() == old(self).spec_k(),
        ensures
            final(self).wf(),
            final(self).spec_width() == old(self).spec_width(),
            final(self).spec_height() == old(self).spec_height(),
            final(self).spec_k() == old(self).spec_k(),
            final(self).moves() == old(self).moves(),
            final(self).grid() == old(self).grid(),
            final(self).spec_turn() == old(self).spec_turn(),
            final(self).last_score_spec() == old(self).last_score_spec(),
            final(self).spec_state() == old(self).spec_state() || final(self).spec_state()
                == GameState::InProgress,
            r.0@.len() == old(self).spec_k(),
            forall|j: int| 0 <= j < r.1@.len() ==> r.1@[j] < old(self).spec_width(),
            depth == 0 ==> r.0@ == old(self).last_score_spec() && r.1@.len() == 0,
            forall|j0: int|
                depth >= 1 && #[trigger] first_playable_at(*old(self), move_order@, j0) && old(
                    self,
                ).spec_wins(move_order@[j0] as int) ==> r.0@ == win_sentinel(
                    old(self).spec_k(),
                    old(self).spec_turn(),
                ) && r.1@ == seq![move_order@[j0]],
            forall|j0: int|
                depth >= 1 && #[trigger] first_playable_at(*old(self), move_order@, j0) && old(
                    self,
                ).spec_draws(move_order@[j0] as int) ==> r.0@ == zero_score(old(self).spec_k())
                    && r.1@ == seq![move_order@[j0]],
        decreases depth,
    {
        let k = self.k();
        if depth == 0 {
            return (self.last_score().clone(), Vec::new());
        }
        let mut alpha = alpha;
        let mut beta = beta;
        let mut best_moves: Vec<usize> = Vec::new();
        let mut best_move: usize = 0;
        let maximizing = self.turn() == Color::Red;
        let mut best_score = if maximizing {
            Score::uniform(k, i32::MIN)
        } else {
            Score::uniform(k, i32::MAX)
        };

        let mut idx: usize = 0;
        while idx < move_order.len()
            invariant_except_break
                old(self).wf(),
                self.wf(),
                self.spec_width() == old(self).spec_width(),
                self.spec_height() == old(self).spec_height(),
                self.spec_k() == old(self).spec_k(),
                self.moves() == old(self).moves(),
                self.spec_turn() == old(self).spec_turn(),
                self.spec_state() == old(self).spec_state() || self.spec_state()
                    == GameState::InProgress,
                k == self.spec_k(),
                depth >= 1,
                idx <= move_order.len(),
                alpha@.len() == k,
                beta@.len() == k,
                best_score@.len() == k,
                best_move < self.spec_width() || best_move == 0,
                forall|j: int| 0 <= j < best_moves@.len() ==> best_moves@[j] < self.spec_width(),
                forall|j0: int|
                    #[trigger] first_playable_at(*old(self), move_order@, j0) && (old(
                        self,
                    ).spec_wins(move_order@[j0] as int) || old(self).spec_draws(
                        move_order@[j0] as int,
                    )) ==> j0 >= idx,
            ensures
                old(self).wf(),
                self.wf(),
                self.spec_width() == old(self).spec_width(),
                self.spec_height() == old(self).spec_height(),
                self.spec_k() == old(self).spec_k(),
                self.moves() == old(self).moves(),
                self.spec_turn() == old(self).spec_turn(),
                self.spec_state() == old(self).spec_state() || self.spec_state()
                    == GameState::InProgress,
                best_score@.len() == k == self.spec_k(),
                best_move < self.spec_width() || best_move == 0,
                forall|j: int| 0 <= j < best_moves@.len() ==> best_moves@[j] < self.spec_width(),
                forall|j0: int|
                    #[trigger] first_playable_at(*old(self), move_order@, j0) ==> !old(
                        self,
                    ).spec_wins(move_order@[j0] as int) && !old(self).spec_draws(
                        move_order@[j0] as int,
                    ),
            decreases move_order.len() - idx,
        {
            let i = move_order[idx];
            let ghost before = *self;
            match self.run_unchecked(i) {
                Some(GameState::InProgress) => {
                    proof {
                        lemma_position_determined(&old(self), &before);
                        assert(old(self).spec_playable(i as int));
                        assert(!old(self).spec_wins(i as int));
                        assert(!old(self).spec_draws(i as int));
                        // the first playable candidate is this one, and it is
                        // neither an immediate win nor an immediate draw
                        assert forall|j0: int|
                            #[trigger] first_playable_at(*old(self), move_order@, j0) implies !old(
                            self,
                        ).spec_wins(move_order@[j0] as int) && !old(self).spec_draws(
                            move_order@[j0] as int,
                        ) by {
                            assert(move_order@[idx as int] == i);
                            assert(old(self).spec_playable(move_order@[idx as int] as int));
                            assert(j0 <= idx);
                            if old(self).spec_wins(move_order@[j0] as int) || old(
                                self,
                            ).spec_draws(move_order@[j0] as int) {
                                assert(j0 >= idx);
                                assert(move_order@[j0] == i);
                                assert(false);
                            }
                        }
                    }
                    let (new_score, moves) = self.minimax_rec_inner(
                        depth - 1,
                        alpha.clone(),
                        beta.clone(),
                        move_order,
                    );
                    let _ = self.undo();
                    proof {
                        assert(self.moves() =~= before.moves());
                        lemma_position_determined(&before, self);
                    }
                    if maximizing {
                        if best_score.lt(&new_score) {
                            best_score = new_score.clone();
                            best_moves = moves;
                            best_move = i;
                            if alpha.lt(&new_score) {
                                alpha = new_score;
                            }
                            if !alpha.lt(&beta) {
                                break ;
                            }
                        }
                    } else {
                        if new_score.lt(&best_score) {
                            best_score = new_score.clone();
                            best_moves = moves;
                            best_move = i;
                            if new_score.lt(&beta) {
                                beta = new_score;
                            }
                            if !alpha.lt(&beta) {
                                break ;
                            }
                        }
                    }
                },
                Some(GameState::Win(_)) => {
                    proof {
                        lemma_position_determined(&old(self), &before);
                        assert(old(self).spec_playable(i as int));
                        assert(old(self).spec_wins(i as int));
                    }
                    let _ = self.undo();
                    proof {
                        assert(self.moves() =~= before.moves());
                        lemma_position_determined(&before, self);
                        lemma_position_determined(&old(self), self);
                        assert forall|j0: int|
                            #[trigger] first_playable_at(*old(self), move_order@, j0) && (old(
                                self,
                            ).spec_wins(move_order@[j0] as int) || old(self).spec_draws(
                                move_order@[j0] as int,
                            )) implies move_order@[j0] == i && old(self).spec_wins(
                            move_order@[j0] as int,
                        ) by {
                            assert(move_order@[idx as int] == i);
                            assert(old(self).spec_playable(move_order@[idx as int] as int));
                            assert(j0 <= idx);
                            assert(j0 >= idx);
                        }
                    }
                    // the mover who reached this node is handed the win
                    let sentinel = if self.turn() == Color::Red {
                        Score::uniform(k, i32::MAX - 1)
                    } else {
                        Score::uniform(k, i32::MIN + 1)
                    };
                    let mut pv: Vec<usize> = Vec::new();
                    pv.push(i);
                    proof {
                        assert(sentinel@ =~= win_sentinel(
                            old(self).spec_k(),
                            old(self).spec_turn(),
                        ));
                        assert(pv@ =~= seq![i]);
                    }
                    return (sentinel, pv);
                },
                Some(GameState::Draw) => {
                    proof {
                        lemma_position_determined(&old(self), &before);
                        assert(old(self).spec_playable(i as int));
                        assert(old(self).spec_draws(i as int));
                    }
                    let _ = self.undo();
                    proof {
                        assert(self.moves() =~= before.moves());
                        lemma_position_determined(&before, self);
                        lemma_position_determined(&old(self), self);
                        assert forall|j0: int|
                            #[trigger] first_playable_at(*old(self), move_order@, j0) && (old(
                                self,
                            ).spec_wins(move_order@[j0] as int) || old(self).spec_draws(
                                move_order@[j0] as int,
                            )) implies move_order@[j0] == i && old(self).spec_draws(
                            move_order@[j0] as int,
                        ) by {
                            assert(move_order@[idx as int] == i);
                            assert(old(self).spec_playable(move_order@[idx as int] as int));
                            assert(j0 <= idx);
                            assert(j0 >= idx);
                        }
                    }
                    let z = Score::zero(k);
                    let mut pv: Vec<usize> = Vec::new();
                    pv.push(i);
                    proof {
                        assert(z@ =~= zero_score(old(self).spec_k()));
                        assert(pv@ =~= seq![i]);
                    }
                    return (z, pv);
                },
                None => {
                    proof {
                        lemma_position_determined(&old(self), &before);
                        assert(!old(self).spec_playable(i as int));
                        assert forall|j0: int|
                            #[trigger] first_playable_at(*old(self), move_order@, j0) && (old(
                                self,
                            ).spec_wins(move_order@[j0] as int) || old(self).spec_draws(
                                move_order@[j0] as int,
                            )) implies j0 >= idx + 1 by {
                            assert(move_order@[idx as int] == i);
                            assert(j0 >= idx);
                            if j0 == idx {
                                assert(old(self).spec_playable(move_order@[j0] as int));
                                assert(false);
                            }
                        }
                    }
                },
            }
            idx = idx + 1;
        }
        proof {
            lemma_position_determined(&old(self), self);
        }
        best_moves.push(best_move);
        (best_score, best_moves)
    }
}

} // verus!
