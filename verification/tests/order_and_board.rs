use connect_k::score::Score;
use connect_k::color::Color;
use connect_k::board::{Board, InsertError, ExtractError};

#[test]
fn score_order_is_by_most_significant_entry() {
    // the highest unequal index decides, whatever the lower entries hold
    let a = Score::from_values(vec![0, 0, 1, 0]);
    let b = Score::from_values(vec![5, 5, 0, 0]);
    assert!(b.lt(&a));
    assert!(!a.lt(&b));
    assert!(a != b);
}

#[test]
fn score_order_total_on_examples() {
    // exactly one of a < b, a == b, b < a
    let a = Score::from_values(vec![1, 2, 3]);
    let b = Score::from_values(vec![9, 2, 3]);
    let c = Score::from_values(vec![1, 2, 3]);
    assert!(a.lt(&b) && !b.lt(&a) && a != b);
    assert!(a == c && !a.lt(&c) && !c.lt(&a));
}

#[test]
fn score_order_transitive_on_examples() {
    let a = Score::from_values(vec![0, 0, 0, 0]);
    let b = Score::from_values(vec![7, 7, 0, 0]);
    let c = Score::from_values(vec![0, 0, 0, 1]);
    assert!(a.lt(&b));
    assert!(b.lt(&c));
    assert!(a.lt(&c));
}

#[test]
fn score_constructors() {
    let z = Score::zero(4);
    assert_eq!(z.len(), 4);
    for i in 0..4 {
        assert_eq!(z.get(i), 0);
    }
    let u = Score::uniform(3, -5);
    assert_eq!(u.len(), 3);
    assert_eq!(u.get(2), -5);
    let cloned = u.clone();
    assert_eq!(u, cloned);
}

#[test]
fn board_insert_extract_round() {
    let mut b = Board::new(3, 2);
    assert_eq!(b.width(), 3);
    assert_eq!(b.height(), 2);
    assert!(b.contains(2, 1));
    assert!(!b.contains(3, 0));
    assert_eq!(b.insert(0, Color::Red), Ok(0));
    assert_eq!(b.insert(0, Color::Yellow), Ok(1));
    assert_eq!(b.fill_count(0), 2);
    assert_eq!(b.free_spaces(0), 0);
    assert_eq!(b.insert(0, Color::Red), Err(InsertError::ColumnFull));
    assert_eq!(b.insert(7, Color::Red), Err(InsertError::InvalidColumn));
    assert_eq!(b.get_chip(0, 1), Ok(Some(Color::Yellow)));
    assert_eq!(b.get_chip(1, 0), Ok(None));
    assert_eq!(b.get_chip(9, 0), Err(()));
    assert_eq!(b.extract(0), Ok(1));
    assert_eq!(b.get_chip(0, 1), Ok(None));
    assert_eq!(b.get_chip(0, 0), Ok(Some(Color::Red)));
    assert_eq!(b.extract(0), Ok(0));
    assert_eq!(b.extract(0), Err(ExtractError::ColumnEmpty));
    assert_eq!(b.extract(7), Err(ExtractError::InvalidColumn));
}
