use maze_generation::direction::Direction;
use maze_generation::pair::Pair;

#[test]
fn test_from_row_and_col() {
    let pair = Pair::from_row_and_col(4, 2);
    assert_eq!(pair.row, 4);
    assert_eq!(pair.col, 2);
}

#[test]
fn test_from_direction() {
    let left = Pair::from(Direction::Left);
    assert_eq!(left, Pair::from_row_and_col(0, -1));

    let up = Pair::from(Direction::Up);
    assert_eq!(up, Pair::from_row_and_col(-1, 0));

    let right = Pair::from(Direction::Right);
    assert_eq!(right, Pair::from_row_and_col(0, 1));

    let down = Pair::from(Direction::Down);
    assert_eq!(down, Pair::from_row_and_col(1, 0));
}

#[test]
fn test_add() {
    let lhs = Pair::from_row_and_col(2, 3);
    let rhs = Pair::from_row_and_col(6, 2);
    assert_eq!(lhs.add(rhs), Pair::from_row_and_col(8, 5));
}

#[test]
fn test_sub() {
    let lhs = Pair::from_row_and_col(2, 3);
    let rhs = Pair::from_row_and_col(6, 2);
    assert_eq!(lhs.sub(rhs), Pair::from_row_and_col(-4, 1));
}

#[test]
fn test_mul() {
    let pair = Pair::from_row_and_col(4, -4);
    assert_eq!(pair.mul(2), Pair::from_row_and_col(8, -8));
    let other = Pair::from_row_and_col(-1, 1);
    assert_eq!(other.mul(3), Pair::from_row_and_col(-3, 3));
}

#[test]
fn test_default_direction() {
    assert_eq!(Direction::default(), Direction::Up);
}
