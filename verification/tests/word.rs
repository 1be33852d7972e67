use crossword_generator::word::{Direction, Position, Word};

#[test]
fn direction_opposite_is_an_involution() {
    assert_eq!(Direction::Right.opposite(), Direction::Down);
    assert_eq!(Direction::Down.opposite(), Direction::Right);
    assert_eq!(Direction::Right.opposite().opposite(), Direction::Right);
    assert_eq!(Direction::Down.opposite().opposite(), Direction::Down);
    assert_eq!(Direction::default(), Direction::Right);
}

#[test]
fn word_new_keeps_value_and_lock() {
    let w = Word::new(b"hello".to_vec(), Some(Direction::Down));
    assert_eq!(w.value, b"hello".to_vec());
    assert_eq!(w.dir, Some(Direction::Down));
    let unlocked = Word::new(b"hi".to_vec(), None);
    assert_eq!(unlocked.dir, None);
    assert_eq!(Position::default(), Position { x: 0, y: 0 });
}

#[test]
fn extent_sum() {
    assert_eq!(crossword_generator::add(2, 3), 5);
}
