use maze_generation::board::Board;
use maze_generation::pair::Pair;
use maze_generation::tile::Tile;
use maze_generation::visit_status::VisitStatus;

#[test]
fn test_cell_position_to_index() {
    assert_eq!(Board::<i32>::cell_position_to_index(4), 9);
    assert_eq!(Board::<i32>::cell_position_to_index(0), 1);
    // climbing the odd numbers: each next cell lands two raw positions on
    for position in 0..10 {
        assert_eq!(
            Board::<i32>::cell_position_to_index(position + 1),
            Board::<i32>::cell_position_to_index(position) + 2
        );
        assert_eq!(Board::<i32>::cell_position_to_index(position) % 2, 1);
    }
}

#[test]
fn test_new_dimensions_and_defaults() {
    let board = Board::<Tile>::new(2, 3);
    assert_eq!(board.cell_height, 2);
    assert_eq!(board.cell_width, 3);
    assert_eq!(board.grid.len(), 5);
    for row in &board.grid {
        assert_eq!(row.len(), 7);
        for tile in row {
            assert_eq!(*tile, Tile::Wall);
        }
    }
}

#[test]
fn test_new_zero_cells() {
    let board = Board::<VisitStatus>::new(0, 0);
    assert_eq!(board.grid.len(), 1);
    assert_eq!(board.grid[0].len(), 1);
    assert_eq!(board.grid[0][0], VisitStatus::Unvisited);
}

#[test]
fn test_get_from_pair_bounds() {
    let board = Board::<Tile>::new(2, 2);
    assert_eq!(board.get_from_pair(Pair::from_row_and_col(0, 0)), Some(&Tile::Wall));
    assert_eq!(board.get_from_pair(Pair::from_row_and_col(4, 4)), Some(&Tile::Wall));
    assert_eq!(board.get_from_pair(Pair::from_row_and_col(-1, 0)), None);
    assert_eq!(board.get_from_pair(Pair::from_row_and_col(0, -3)), None);
    assert_eq!(board.get_from_pair(Pair::from_row_and_col(5, 0)), None);
    assert_eq!(board.get_from_pair(Pair::from_row_and_col(0, 5)), None);
}

#[test]
fn test_get_mut_from_pair_writes() {
    let mut board = Board::<Tile>::new(2, 2);
    let pair = Pair::from_row_and_col(1, 1);
    if let Some(cell) = board.get_mut_from_pair(pair) {
        *cell = Tile::Path;
    }
    assert_eq!(board.get_from_pair(pair), Some(&Tile::Path));
    assert!(board.get_mut_from_pair(Pair::from_row_and_col(9, 9)).is_none());
}

#[test]
fn test_set_from_pair() {
    let mut board = Board::<VisitStatus>::new(1, 1);
    assert!(board.set_from_pair(Pair::from_row_and_col(1, 1), VisitStatus::Visited));
    assert_eq!(board.get_from_pair(Pair::from_row_and_col(1, 1)), Some(&VisitStatus::Visited));
    assert!(!board.set_from_pair(Pair::from_row_and_col(3, 1), VisitStatus::Visited));
}

#[test]
fn test_get_idempotent_across_reads() {
    // reads on the same coordinate before and after a non-mutating operation
    // return equal values
    let mut board = Board::<Tile>::new(3, 3);
    board.set_from_pair(Pair::from_row_and_col(1, 2), Tile::Path);
    let pair = Pair::from_row_and_col(1, 2);
    let before = board.get_from_pair(pair).copied();
    let _probe = board.get_from_pair(Pair::from_row_and_col(2, 2)).copied();
    let after = board.get_from_pair(pair).copied();
    assert_eq!(before, after);
    let mut_before = board.get_mut_from_pair(pair).map(|t| *t);
    let mut_after = board.get_mut_from_pair(pair).map(|t| *t);
    assert_eq!(mut_before, mut_after);
    assert_eq!(before, mut_after);
}
