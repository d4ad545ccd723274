use connect_k::color::Color;
use connect_k::game::{Game, GameState};
use connect_k::score::Score;
use connect_k::serial::deserialize;

#[test]
fn search_finds_immediate_win() {
    // Red threatens 2..=5 on the bottom row after [3,3,4,4,5,5]; the search
    // must report a winning line, scored with the near-extreme sentinel
    let mut g = Game::new(7, 6, 4);
    for col in [3, 3, 4, 4, 5, 5] {
        g.run(col).unwrap();
    }
    let move_order = vec![3, 2, 4, 1, 5, 0, 6];
    let (score, pv) = g.minimax_rec(2, &move_order);
    // the caller reads the last element as the immediate best move
    assert_eq!(pv.last(), Some(&2));
    for i in 0..4 {
        assert_eq!(score.get(i), i32::MAX - 1);
    }
    // the game is handed back exactly as it was
    assert_eq!(g.move_count(), 6);
    assert_eq!(g.turn(), Color::Red);
}

#[test]
fn search_at_depth_zero_is_static_evaluation() {
    let mut g = Game::new(7, 6, 4);
    g.run(3).unwrap();
    let expected = g.eval();
    let move_order = vec![3, 2, 4, 1, 5, 0, 6];
    let (score, pv) = g.minimax_rec(0, &move_order);
    assert_eq!(score, expected);
    assert!(pv.is_empty());
}

#[test]
fn search_leaves_game_unchanged_after_deep_probe() {
    let mut g = Game::new(5, 4, 3);
    g.run(2).unwrap();
    g.run(2).unwrap();
    let text_before = g.serialize();
    let score_before = g.eval();
    let move_order = vec![2, 1, 3, 0, 4];
    let _ = g.minimax_rec(4, &move_order);
    assert_eq!(g.serialize(), text_before);
    assert_eq!(g.eval(), score_before);
    assert_eq!(g.move_count(), 2);
}

#[test]
fn minimax_reports_outermost_move() {
    let mut g = Game::new(7, 6, 4);
    for col in [3, 3, 4, 4, 5, 5] {
        g.run(col).unwrap();
    }
    let move_order = vec![3, 2, 4, 1, 5, 0, 6];
    let alpha = Score::uniform(4, i32::MIN);
    let beta = Score::uniform(4, i32::MAX);
    let (score, best) = g.minimax(2, alpha, beta, &move_order);
    assert_eq!(best, 2);
    assert_eq!(score.get(3), i32::MAX - 1);
}

#[test]
fn yellow_win_scores_near_minimum() {
    // hand Yellow the immediate win: after [0, 3, 1, 3, 6, 3, 6] Yellow
    // completes column 3 with one more token
    let mut g = Game::new(7, 6, 4);
    for col in [0, 3, 1, 3, 6, 3, 6] {
        g.run(col).unwrap();
    }
    assert_eq!(g.turn(), Color::Yellow);
    let move_order = vec![3, 2, 4, 1, 5, 0, 6];
    let (score, pv) = g.minimax_rec(2, &move_order);
    assert_eq!(pv.last(), Some(&3));
    assert_eq!(score.get(3), i32::MIN + 1);
}

#[test]
fn search_resets_cached_state_to_in_progress() {
    // probing resets the cached state, exactly as undo does; a search from a
    // position whose cached state still says Win leaves it InProgress once it
    // probes any column
    let mut g = Game::new(2, 2, 1);
    g.run(0).unwrap();
    assert_eq!(g.state(), GameState::Win(Color::Red));
    let move_order = vec![0, 1];
    let _ = g.minimax_rec(1, &move_order);
    assert_eq!(g.state(), GameState::InProgress);
}

#[test]
fn search_draw_probe_returns_zero_vector() {
    // on a 3x1 strip with two tokens down, the one playable column fills the
    // board without a run: the probe reports (zero vector, that column)
    let mut g = deserialize("X O _ \n", 3).expect("legal position");
    let move_order = vec![0, 1, 2];
    let (score, pv) = g.minimax_rec(2, &move_order);
    assert_eq!(pv, vec![2]);
    for i in 0..3 {
        assert_eq!(score.get(i), 0);
    }
    assert_eq!(g.move_count(), 2);
}

#[test]
fn minimax_at_depth_zero_reports_eval_and_zero() {
    let mut g = Game::new(7, 6, 4);
    g.run(3).unwrap();
    let expected = g.eval();
    let move_order = vec![3, 2, 4, 1, 5, 0, 6];
    let alpha = Score::uniform(4, i32::MIN);
    let beta = Score::uniform(4, i32::MAX);
    let (score, best) = g.minimax(0, alpha, beta, &move_order);
    assert_eq!(score, expected);
    assert_eq!(best, 0);
}
