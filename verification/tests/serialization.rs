use connect_k::color::Color;
use connect_k::game::Game;
use connect_k::serial::{deserialize, DeserializeError};

#[test]
fn serialize_renders_top_row_first() {
    let mut g = Game::new(2, 2, 2);
    assert_eq!(g.serialize(), "_ _ \n_ _ \n");
    g.run(0).unwrap();
    assert_eq!(g.serialize(), "_ _ \nX _ \n");
    g.run(1).unwrap();
    assert_eq!(g.serialize(), "_ _ \nX O \n");
    g.run(0).unwrap();
    assert_eq!(g.serialize(), "X _ \nX O \n");
}

#[test]
fn round_trip_restores_board_and_score() {
    let mut g = Game::new(7, 6, 4);
    for col in [3, 3, 4, 2, 4] {
        g.run(col).unwrap();
    }
    let text = g.serialize();
    let g2 = deserialize(&text, 4).expect("round trip");
    assert_eq!(g2.width(), g.width());
    assert_eq!(g2.height(), g.height());
    assert_eq!(g2.k(), g.k());
    for x in 0..g.width() {
        for y in 0..g.height() {
            assert_eq!(g.cell(x, y), g2.cell(x, y));
        }
    }
    assert_eq!(g.last_score(), g2.last_score());
}

#[test]
fn round_trip_may_reorder_moves() {
    // the reconstruction replays columns left to right, so it may find a
    // different move order; only the final state must agree
    let mut g = Game::new(7, 6, 4);
    for col in [6, 0, 5, 1] {
        g.run(col).unwrap();
    }
    let text = g.serialize();
    let g2 = deserialize(&text, 4).expect("round trip");
    for x in 0..7 {
        for y in 0..6 {
            assert_eq!(g.cell(x, y), g2.cell(x, y));
        }
    }
    assert_eq!(g.last_score(), g2.last_score());
}

#[test]
fn greedy_reconstruction_can_give_up() {
    // a reachable position the left-to-right greedy replay cannot rebuild:
    // Red@1, Yellow@1, Red@0 leaves column 0 holding X under column 1's X O,
    // but the greedy pass consumes column 0's X first and then stalls
    let mut g = Game::new(3, 2, 2);
    g.run(1).unwrap();
    g.run(1).unwrap();
    g.run(0).unwrap();
    let text = g.serialize();
    assert_eq!(text, "_ O _ \nX X _ \n");
    assert!(matches!(deserialize(&text, 2), Err(DeserializeError::UnreachablePosition)));
}

#[test]
fn deserialize_accepts_flexible_spacing() {
    let g = deserialize("O_\nXX\n", 2).expect("dense form");
    assert_eq!(g.width(), 2);
    assert_eq!(g.height(), 2);
    assert_eq!(g.cell(0, 0), Some(Color::Red));
    assert_eq!(g.cell(0, 1), Some(Color::Yellow));
    assert_eq!(g.cell(1, 0), Some(Color::Red));
    assert_eq!(g.cell(1, 1), None);
}

#[test]
fn deserialize_ignores_blank_lines_and_last_newline() {
    let g = deserialize("\nO X \n\nX O \n", 2).expect("blank lines");
    assert_eq!(g.height(), 2);
    assert_eq!(g.move_count(), 4);
    let g2 = deserialize("X", 1).expect("no trailing newline");
    assert_eq!(g2.width(), 1);
    assert_eq!(g2.height(), 1);
    assert_eq!(g2.cell(0, 0), Some(Color::Red));
}

#[test]
fn deserialize_error_cases() {
    assert!(matches!(deserialize("", 4), Err(DeserializeError::EmptyInput)));
    assert!(matches!(deserialize("  \n \n", 4), Err(DeserializeError::EmptyInput)));
    assert!(matches!(deserialize("X Z \n", 4), Err(DeserializeError::BadSymbol('Z'))));
    assert!(matches!(deserialize("X O \nX \n", 4), Err(DeserializeError::DifferentWidths)));
    // a token of the second colour with none of the first is unreachable
    assert!(matches!(deserialize("O \n", 4), Err(DeserializeError::UnreachablePosition)));
    // a floating token above an empty cell is unreachable
    assert!(matches!(deserialize("X \n_ \n", 2), Err(DeserializeError::UnreachablePosition)));
}

#[test]
fn deserialize_rebuilds_draw_detection() {
    // a 3x1 strip with k 3: two tokens down, Red to move; the filling move
    // completes no run, so it must report a draw
    let g = deserialize("X O _ \n", 3);
    let mut g = g.expect("legal position");
    assert_eq!(g.move_count(), 2);
    assert_eq!(g.turn(), Color::Red);
    let state = g.run(2).expect("legal move");
    assert_eq!(state, connect_k::game::GameState::Draw);
}
