use maze_generation::board::{Board, CELL_STEP};
use maze_generation::cell::Cell;
use maze_generation::direction::Direction;
use maze_generation::edge::Edge;
use maze_generation::maze::{generate_maze, Maze};
use maze_generation::pair::Pair;
use maze_generation::tile::Tile;
use maze_generation::visit_status::VisitStatus;

#[test]
fn test_get_univisited_directions() {
    let pair = Pair::from_row_and_col(3, 3);
    let mut board = Board::<VisitStatus>::new(6, 6);
    let none_visited = vec![Direction::Up, Direction::Right, Direction::Down, Direction::Left];
    assert_eq!(Maze::get_unvisited_directions(pair, &board), none_visited);

    if let Some(cell) =
        board.get_mut_from_pair(pair.add(Pair::from(Direction::Left).mul(CELL_STEP)))
    {
        *cell = VisitStatus::Visited;
    }
    let left_visited = vec![Direction::Up, Direction::Right, Direction::Down];
    assert_eq!(Maze::get_unvisited_directions(pair, &board), left_visited);

    if let Some(cell) =
        board.get_mut_from_pair(pair.add(Pair::from(Direction::Right).mul(CELL_STEP)))
    {
        *cell = VisitStatus::Visited;
    }
    let left_and_right_visited = vec![Direction::Up, Direction::Down];
    assert_eq!(Maze::get_unvisited_directions(pair, &board), left_and_right_visited);
}

#[test]
fn test_choose_random_unvisited_direction() {
    let board = Board::<VisitStatus>::new(6, 6);
    let pair = Pair::from_row_and_col(3, 3);
    // a fresh board has all four candidates: the pick must be one of them,
    // which fails if the random index were out of range
    for _ in 0..50 {
        let picked = Maze::choose_random_unvisited_direction(pair, &board);
        assert!(picked.is_some());
    }
    let mut all_visited = Board::<VisitStatus>::new(6, 6);
    for row in &mut all_visited.grid {
        for status in row.iter_mut() {
            *status = VisitStatus::Visited;
        }
    }
    assert_eq!(Maze::choose_random_unvisited_direction(pair, &all_visited), None);
}

fn entry_positions(maze: &Maze) -> Vec<(usize, usize)> {
    let mut found = Vec::new();
    for (i, row) in maze.board.grid.iter().enumerate() {
        for (j, tile) in row.iter().enumerate() {
            if *tile == Tile::Entry {
                found.push((i, j));
            }
        }
    }
    found
}

fn carved_between_count(maze: &Maze) -> usize {
    let mut count = 0;
    for (i, row) in maze.board.grid.iter().enumerate() {
        for (j, tile) in row.iter().enumerate() {
            if (i % 2) + (j % 2) == 1 && *tile == Tile::Path {
                count += 1;
            }
        }
    }
    count
}

/// Counts the cells reachable from cell (0, 0) over carved passages.
fn connected_cell_count(maze: &Maze, cell_height: usize, cell_width: usize) -> usize {
    let mut seen = vec![vec![false; cell_width]; cell_height];
    let mut stack = vec![(0usize, 0usize)];
    seen[0][0] = true;
    let mut count = 0;
    while let Some((r, c)) = stack.pop() {
        count += 1;
        let raw = (2 * r + 1, 2 * c + 1);
        assert_eq!(maze.board.grid[raw.0][raw.1], Tile::Path);
        let mut neighbors: Vec<(usize, usize)> = Vec::new();
        if r > 0 {
            neighbors.push((r - 1, c));
        }
        if r + 1 < cell_height {
            neighbors.push((r + 1, c));
        }
        if c > 0 {
            neighbors.push((r, c - 1));
        }
        if c + 1 < cell_width {
            neighbors.push((r, c + 1));
        }
        for (nr, nc) in neighbors {
            let nraw = (2 * nr + 1, 2 * nc + 1);
            let between = ((raw.0 + nraw.0) / 2, (raw.1 + nraw.1) / 2);
            if maze.board.grid[between.0][between.1] == Tile::Path && !seen[nr][nc] {
                seen[nr][nc] = true;
                stack.push((nr, nc));
            }
        }
    }
    count
}

#[test]
fn test_generate_maze_zero_by_zero() {
    assert!(generate_maze(0, 0).is_none());
    assert!(generate_maze(0, 5).is_none());
    assert!(generate_maze(5, 0).is_none());
    assert!(Maze::from_backtracking(0, 0).is_none());
}

#[test]
fn test_generate_maze_single_cell() {
    for _ in 0..20 {
        let maze = generate_maze(1, 1).expect("a single-cell maze generates");
        assert_eq!(maze.board.grid.len(), 3);
        assert_eq!(maze.board.grid[0].len(), 3);
        assert_eq!(maze.board.grid[1][1], Tile::Path);
        let entries = entry_positions(&maze);
        assert!(!entries.is_empty() && entries.len() <= 2);
        for position in entries {
            assert!(
                position == (0, 1)
                    || position == (1, 0)
                    || position == (2, 1)
                    || position == (1, 2)
            );
        }
    }
}

#[test]
fn test_generated_maze_interior_even_tiles_never_entry() {
    let maze = generate_maze(8, 5).expect("an 8 by 5 maze generates");
    let rows = maze.board.grid.len();
    let cols = maze.board.grid[0].len();
    for i in 1..rows - 1 {
        for j in 1..cols - 1 {
            if i % 2 == 0 && j % 2 == 0 {
                let tile = maze.board.grid[i][j];
                assert_ne!(tile, Tile::Entry);
                assert!(tile == Tile::Wall || tile == Tile::Path);
            }
        }
    }
}

#[test]
fn test_generate_maze_spanning_tree() {
    // repeated generations with fresh randomness each time: every maze is
    // fully connected, with one wall cut per cell beyond the first and one
    // or two perimeter entries
    for _ in 0..5 {
        let maze = generate_maze(20, 20).expect("a 20 by 20 maze generates");
        assert_eq!(maze.board.grid.len(), 41);
        assert_eq!(maze.board.grid[0].len(), 41);
        assert_eq!(connected_cell_count(&maze, 20, 20), 400);
        assert_eq!(carved_between_count(&maze), 399);
        let entries = entry_positions(&maze);
        assert!(!entries.is_empty() && entries.len() <= 2);
        for (i, j) in entries {
            assert!(i == 0 || i == 40 || j == 0 || j == 40);
        }
    }
}

#[test]
fn test_generate_maze_rectangular() {
    let maze = generate_maze(3, 7).expect("a 3 by 7 maze generates");
    assert_eq!(maze.board.grid.len(), 7);
    for row in &maze.board.grid {
        assert_eq!(row.len(), 15);
    }
    assert_eq!(connected_cell_count(&maze, 3, 7), 21);
    assert_eq!(carved_between_count(&maze), 20);
}

#[test]
fn test_defaults() {
    assert_eq!(Tile::default(), Tile::Wall);
    assert_eq!(VisitStatus::default(), VisitStatus::Unvisited);
}

#[test]
fn test_cell_and_edge() {
    assert_ne!(Cell::WALL, Cell::PATH);
    let edge = Edge { pairs: (Pair::from_row_and_col(1, 1), Pair::from_row_and_col(1, 3)) };
    let same = Edge { pairs: (Pair::from_row_and_col(1, 1), Pair::from_row_and_col(1, 3)) };
    assert!(edge == same);
}
