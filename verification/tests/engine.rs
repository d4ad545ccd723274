use connect_k::color::Color;
use connect_k::game::{Game, GameState};
use connect_k::board::InsertError;

fn snapshot(g: &Game) -> (Vec<Option<Color>>, Color, Vec<i32>, usize) {
    let mut cells = Vec::new();
    for x in 0..g.width() {
        for y in 0..g.height() {
            cells.push(g.cell(x, y));
        }
    }
    let mut score = Vec::new();
    for i in 0..g.last_score().len() {
        score.push(g.last_score().get(i));
    }
    (cells, g.turn(), score, g.move_count())
}

#[test]
fn fresh_game_shape() {
    let g = Game::new(7, 6, 4);
    assert_eq!(g.width(), 7);
    assert_eq!(g.height(), 6);
    assert_eq!(g.k(), 4);
    assert_eq!(g.turn(), Color::Red);
    assert_eq!(g.not_turn(), Color::Yellow);
    assert_eq!(g.move_count(), 0);
    assert_eq!(g.last_move(), 0);
    assert!(!g.is_draw());
    assert_eq!(g.state(), GameState::InProgress);
    for i in 0..4 {
        assert_eq!(g.last_score().get(i), 0);
    }
}

#[test]
fn other_is_involution() {
    assert_eq!(Color::Red.other(), Color::Yellow);
    assert_eq!(Color::Yellow.other(), Color::Red);
    assert_eq!(Color::Red.other().other(), Color::Red);
}

#[test]
fn horizontal_win_scenario() {
    // width 7, height 6, k 4: [3,3,4,4,5,5] must not signal a win yet;
    // column 2 then completes Red's bottom row across columns 2..=5.
    let mut g = Game::new(7, 6, 4);
    for col in [3, 3, 4, 4, 5, 5] {
        let state = g.run(col).expect("legal move");
        assert_eq!(state, GameState::InProgress);
    }
    let state = g.run(2).expect("legal move");
    assert_eq!(state, GameState::Win(Color::Red));
    // win detection consistency: the top score bucket is nonzero
    assert_ne!(g.last_score().get(3), 0);
}

#[test]
fn score_preview_matches_win() {
    let mut g = Game::new(7, 6, 4);
    for col in [3, 3, 4, 4, 5, 5] {
        g.run(col).expect("legal move");
    }
    // the scoring engine sees the winning placement before it is made
    let preview = g.score((2, 0), Color::Red);
    assert_ne!(preview.get(3), 0);
    assert_eq!(g.move_count(), 6);
}

#[test]
fn win_precedes_draw_on_filling_move() {
    // the single cell of a 1x1 board with k = 1: the move that fills the
    // board also completes a run, and the result must be Win, never Draw
    let mut g = Game::new(1, 1, 1);
    let state = g.run(0).expect("legal move");
    assert_eq!(state, GameState::Win(Color::Red));
    assert!(g.is_draw());
}

#[test]
fn reversibility_of_run_and_undo() {
    let mut g = Game::new(7, 6, 4);
    let before = snapshot(&g);
    g.run(3).unwrap();
    g.run(0).unwrap();
    g.run(3).unwrap();
    assert_eq!(g.move_count(), 3);
    assert_eq!(g.undo(), Some(()));
    assert_eq!(g.undo(), Some(()));
    assert_eq!(g.undo(), Some(()));
    let after = snapshot(&g);
    assert_eq!(before.0, after.0);
    assert_eq!(before.1, after.1);
    assert_eq!(before.2, after.2);
    assert_eq!(before.3, after.3);
}

#[test]
fn score_history_length_invariant() {
    let mut g = Game::new(7, 6, 4);
    assert_eq!(g.history_len(), g.move_count() + 1);
    g.run(1).unwrap();
    assert_eq!(g.history_len(), g.move_count() + 1);
    g.run(2).unwrap();
    assert_eq!(g.history_len(), g.move_count() + 1);
    g.undo().unwrap();
    assert_eq!(g.history_len(), g.move_count() + 1);
    g.undo().unwrap();
    assert_eq!(g.history_len(), g.move_count() + 1);
}

#[test]
fn undo_on_fresh_game_changes_nothing() {
    let mut g = Game::new(5, 4, 3);
    let before = snapshot(&g);
    assert_eq!(g.undo(), None);
    let after = snapshot(&g);
    assert_eq!(before, after);
}

#[test]
fn corner_move_on_degenerate_axes() {
    // a move in the corner of a k-by-k board: the falling diagonal through it
    // has length 1 < k and must contribute nothing; the three axes that do
    // fit a window each credit one live single-token window
    let mut g = Game::new(4, 4, 4);
    g.run(0).unwrap();
    assert_eq!(g.last_score().get(0), 3);
    assert_eq!(g.last_score().get(1), 0);
    assert_eq!(g.last_score().get(2), 0);
    assert_eq!(g.last_score().get(3), 0);
}

#[test]
fn opponent_window_debits() {
    // Red's first move credits live windows; Yellow's reply on top of it
    // kills some of them, so the running score stays signed and exact
    let mut g = Game::new(4, 4, 4);
    g.run(0).unwrap();
    g.run(0).unwrap();
    // the vertical window of column 0 now holds both colours and dies (-1),
    // and Yellow opens a live window on its own row (-1 from Red's side)
    let s = g.last_score();
    assert_eq!(s.get(0), 1);
    assert_eq!(s.get(1), 0);
}

#[test]
fn insert_reports_cell_and_advances_turn() {
    let mut g = Game::new(7, 6, 4);
    assert_eq!(g.insert(3), Ok((3, 0)));
    assert_eq!(g.turn(), Color::Yellow);
    assert_eq!(g.insert(3), Ok((3, 1)));
    assert_eq!(g.turn(), Color::Red);
    assert_eq!(g.cell(3, 0), Some(Color::Red));
    assert_eq!(g.cell(3, 1), Some(Color::Yellow));
    assert_eq!(g.cell(3, 2), None);
    assert_eq!(g.last_move(), 3);
    assert_eq!(g.fill_count(3), 2);
}

#[test]
fn run_rejects_bad_columns() {
    let mut g = Game::new(2, 2, 2);
    assert_eq!(g.run(2), Err(InsertError::InvalidColumn));
    g.run(0).unwrap();
    g.run(0).unwrap();
    assert_eq!(g.run(0), Err(InsertError::ColumnFull));
    assert_eq!(g.run_unchecked(0), None);
    assert_eq!(g.run_unchecked(9), None);
}

#[test]
fn eval_matches_last_score() {
    let mut g = Game::new(7, 6, 4);
    g.run(3).unwrap();
    g.run(2).unwrap();
    let e = g.eval();
    assert_eq!(&e, g.last_score());
}

#[test]
fn win_signal_carries_the_mover_sign() {
    // a fresh win pushes the top bucket strictly toward the mover: positive
    // when Red completes a run, negative when Yellow does
    let mut g = Game::new(7, 6, 4);
    for col in [3, 3, 4, 4, 5, 5] {
        g.run(col).unwrap();
    }
    g.run(2).unwrap();
    assert!(g.last_score().get(3) > 0);

    let mut g2 = Game::new(7, 6, 4);
    for col in [0, 3, 1, 3, 6, 3, 6] {
        g2.run(col).unwrap();
    }
    let state = g2.run(3).expect("legal move");
    assert_eq!(state, GameState::Win(Color::Yellow));
    assert!(g2.last_score().get(3) < 0);
}
