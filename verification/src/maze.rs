//! The maze and its generation algorithm.

use vstd::prelude::*;

use crate::board::{Board, CELL_STEP, MAX_CELL_EXTENT};
use crate::direction::Direction;
use crate::pair::Pair;
use crate::rng::random_below;
use crate::stack::Stack;
use crate::tile::Tile;
use crate::visit_status::VisitStatus;

verus! {

/// A maze generated by some algorithm.
pub struct Maze {
    /// The grid of tiles.
    pub board: Board<Tile>,
}

/// Whether `(row, col)` addresses a position of the grid view.
pub open spec fn on_grid<T>(g: Seq<Seq<T>>, row: int, col: int) -> bool {
    &&& 0 <= row < g.len()
    &&& 0 <= col < g[row].len()
}

/// Whether `(row, col)` is the raw position of a cell center: both raw
/// coordinates odd and on the grid.
pub open spec fn cell_center<T>(g: Seq<Seq<T>>, row: int, col: int) -> bool {
    &&& on_grid(g, row, col)
    &&& row % 2 == 1
    &&& col % 2 == 1
}

/// Whether `(row, col)` is a between position: the slot for the wall
/// separating two neighboring cell centers, with exactly one odd coordinate.
pub open spec fn between_position<T>(g: Seq<Seq<T>>, row: int, col: int) -> bool {
    &&& on_grid(g, row, col)
    &&& (row % 2 == 1 && col % 2 == 0) || (row % 2 == 0 && col % 2 == 1)
}

/// Whether `(row, col)` lies on the outer border of the grid view.
pub open spec fn on_border<T>(g: Seq<Seq<T>>, row: int, col: int) -> bool {
    row == 0 || row == g.len() - 1 || col == 0 || col == g[row].len() - 1
}

/// Entry tiles occur on the outer border only.
pub open spec fn entries_on_border(g: Seq<Seq<Tile>>) -> bool {
    forall|row: int, col: int|
        on_grid(g, row, col) && #[trigger] g[row][col] == Tile::Entry ==> on_border(g, row, col)
}

/// Whether stepping two raw positions from `pair` in `direction` lands on an
/// unvisited position of the visitation view.
pub open spec fn unvisited_candidate_at(
    v: Seq<Seq<VisitStatus>>,
    pair: Pair,
    direction: Direction,
) -> bool {
    let o = Pair::direction_offset(direction);
    let row = pair.row + 2 * o.row;
    let col = pair.col + 2 * o.col;
    &&& on_grid(v, row, col)
    &&& v[row][col] == VisitStatus::Unvisited
}

/// Whether stepping two raw positions from `pair` in `direction` lands on an
/// unvisited position of the visitation board.
pub open spec fn unvisited_candidate(
    visited: Board<VisitStatus>,
    pair: Pair,
    direction: Direction,
) -> bool {
    unvisited_candidate_at(visited@, pair, direction)
}

/// A rectangular view backing `height` by `width` cells.
pub open spec fn grid_shape<T>(gr: Seq<Seq<T>>, height: int, width: int) -> bool {
    &&& gr.len() == 2 * height + 1
    &&& forall|i: int| 0 <= i < gr.len() ==> (#[trigger] gr[i]).len() == 2 * width + 1
}

/// Whether stepping two raw positions from `pair` in `direction` falls off
/// the board.
pub open spec fn two_step_off_grid(board: Board<Tile>, pair: Pair, direction: Direction) -> bool {
    let o = Pair::direction_offset(direction);
    !on_grid(board@, pair.row + 2 * o.row, pair.col + 2 * o.col)
}

/// The first direction, in enumeration order, whose two-step probe from
/// `pair` falls off the board.
pub open spec fn first_exit_direction(board: Board<Tile>, pair: Pair) -> Option<Direction> {
    if two_step_off_grid(board, pair, Direction::Up) {
        Some(Direction::Up)
    } else if two_step_off_grid(board, pair, Direction::Right) {
        Some(Direction::Right)
    } else if two_step_off_grid(board, pair, Direction::Down) {
        Some(Direction::Down)
    } else if two_step_off_grid(board, pair, Direction::Left) {
        Some(Direction::Left)
    } else {
        None
    }
}

/// Whether `p` is a cell center on the perimeter ring: the outermost ring of
/// cells, one cell step inside the border.
pub open spec fn is_perimeter_pair(board: Board<Tile>, p: Pair) -> bool {
    &&& cell_center(board@, p.row as int, p.col as int)
    &&& (p.row == 1 || p.row == 2 * board.cell_height - 1 || p.col == 1 || p.col == 2
        * board.cell_width - 1)
}

/// A carved passage slot: a between position whose wall has been removed.
pub open spec fn carved_between(g: Seq<Seq<Tile>>, row: int, col: int) -> bool {
    &&& between_position(g, row, col)
    &&& g[row][col] == Tile::Path
}

/// The set of carved passage slots of a board: one for every wall the walk
/// removed between two cells.
pub open spec fn carved_between_set(g: Seq<Seq<Tile>>) -> Set<(int, int)> {
    Set::new(|p: (int, int)| carved_between(g, p.0, p.1))
}

/// Whether two positions are neighboring cell slots: two raw positions
/// apart along exactly one axis.
pub open spec fn adjacent_cells(a: (int, int), b: (int, int)) -> bool {
    ||| (a.0 == b.0 && (b.1 - a.1 == 2 || a.1 - b.1 == 2))
    ||| (a.1 == b.1 && (b.0 - a.0 == 2 || a.0 - b.0 == 2))
}

/// One step of a traversal over carved tiles: two neighboring cell centers,
/// both `Path`, with the wall between them removed.
pub open spec fn carved_step(g: Seq<Seq<Tile>>, a: (int, int), b: (int, int)) -> bool {
    &&& cell_center(g, a.0, a.1)
    &&& cell_center(g, b.0, b.1)
    &&& g[a.0][a.1] == Tile::Path
    &&& g[b.0][b.1] == Tile::Path
    &&& adjacent_cells(a, b)
    &&& carved_between(g, (a.0 + b.0) / 2, (a.1 + b.1) / 2)
}

/// A walk from `a` to `b` through carved passages.
pub open spec fn carved_walk(
    g: Seq<Seq<Tile>>,
    s: Seq<(int, int)>,
    a: (int, int),
    b: (int, int),
) -> bool {
    &&& s.len() > 0
    &&& s[0] == a
    &&& s[s.len() - 1] == b
    &&& forall|k: int| 0 <= k < s.len() - 1 ==> carved_step(g, #[trigger] s[k], s[k + 1])
}

/// Whether `b` can be reached from `a` by a traversal over carved tiles.
pub open spec fn carved_reachable(g: Seq<Seq<Tile>>, a: (int, int), b: (int, int)) -> bool {
    exists|s: Seq<(int, int)>| carved_walk(g, s, a, b)
}

/// Carving only adds passages: a walk stays a walk in any board of the same
/// shape that keeps every `Path` tile.
pub proof fn lemma_walk_preserved(
    g1: Seq<Seq<Tile>>,
    g2: Seq<Seq<Tile>>,
    s: Seq<(int, int)>,
    a: (int, int),
    b: (int, int),
)
    requires
        carved_walk(g1, s, a, b),
        g2.len() == g1.len(),
        forall|i: int| 0 <= i < g1.len() ==> (#[trigger] g2[i]).len() == g1[i].len(),
        forall|i: int, j: int|
            on_grid(g1, i, j) && g1[i][j] == Tile::Path ==> #[trigger] g2[i][j] == Tile::Path,
    ensures
        carved_walk(g2, s, a, b),
{
    assert forall|k: int| 0 <= k < s.len() - 1 implies carved_step(g2, #[trigger] s[k], s[k + 1]) by {
        assert(carved_step(g1, s[k], s[k + 1]));
        let first = s[k];
        let second = s[k + 1];
        let mid: (int, int) = ((first.0 + second.0) / 2, (first.1 + second.1) / 2);
        assert(carved_between(g1, mid.0, mid.1));
        assert(on_grid(g1, mid.0, mid.1));
        assert(g2[first.0][first.1] == Tile::Path);
        assert(g2[second.0][second.1] == Tile::Path);
        assert(g2[mid.0][mid.1] == Tile::Path);
        assert(cell_center(g2, first.0, first.1));
        assert(cell_center(g2, second.0, second.1));
    }
}

/// The cell centers of a grid with the given raw extents.
pub open spec fn center_set(rows: int, cols: int) -> Set<(int, int)> {
    Set::new(
        |p: (int, int)| 0 <= p.0 < rows && 0 <= p.1 < cols && p.0 % 2 == 1 && p.1 % 2 == 1,
    )
}

/// The cell centers of one grid row.
spec fn center_row_set(row: int, cols: int) -> Set<(int, int)> {
    Set::new(|p: (int, int)| p.0 == row && 0 <= p.1 < cols && p.1 % 2 == 1)
}

/// Two disjoint finite sets unite into a set as large as both together.
proof fn lemma_len_disjoint_union<A>(s1: Set<A>, s2: Set<A>)
    requires
        s1.finite(),
        s2.finite(),
        s1.disjoint(s2),
    ensures
        s1.union(s2).finite(),
        s1.union(s2).len() == s1.len() + s2.len(),
    decreases s2.len(),
{
    if s2.is_empty() {
        assert(s1.union(s2) =~= s1);
    } else {
        let a = s2.choose();
        lemma_len_disjoint_union(s1, s2.remove(a));
        assert(s1.union(s2.remove(a)).insert(a) =~= s1.union(s2));
    }
}

/// A row of a grid `2 * width + 1` raw positions wide holds `width` centers.
proof fn lemma_center_row_count(row: int, width: int)
    requires
        width >= 0,
    ensures
        center_row_set(row, 2 * width + 1).finite(),
        center_row_set(row, 2 * width + 1).len() == width,
    decreases width,
{
    if width == 0 {
        assert(center_row_set(row, 1) =~= Set::<(int, int)>::empty());
    } else {
        lemma_center_row_count(row, width - 1);
        assert(center_row_set(row, 2 * width + 1) =~= center_row_set(row, 2 * width - 1).insert(
            (row, 2 * width - 1),
        ));
    }
}

/// A grid with `height` by `width` cells holds exactly `height * width`
/// cell centers.
pub proof fn lemma_center_count(height: int, width: int)
    requires
        height >= 0,
        width >= 0,
    ensures
        center_set(2 * height + 1, 2 * width + 1).finite(),
        center_set(2 * height + 1, 2 * width + 1).len() == height * width,
    decreases height,
{
    if height == 0 {
        assert(center_set(1, 2 * width + 1) =~= Set::<(int, int)>::empty());
    } else {
        lemma_center_count(height - 1, width);
        let rest = center_set(2 * height - 1, 2 * width + 1);
        let last_row = center_row_set(2 * height - 1, 2 * width + 1);
        lemma_center_row_count(2 * height - 1, width);
        lemma_len_disjoint_union(rest, last_row);
        assert(center_set(2 * height + 1, 2 * width + 1) =~= rest.union(last_row));
        assert((height - 1) * width + width == height * width) by (nonlinear_arith);
    }
}

/// The boards agree: a raw position is `Path` exactly when it is visited.
pub open spec fn boards_synced(g: Seq<Seq<Tile>>, v: Seq<Seq<VisitStatus>>) -> bool {
    forall|i: int, j: int|
        #![trigger g[i][j]]
        #![trigger v[i][j]]
        on_grid(g, i, j) ==> (g[i][j] == Tile::Path <==> v[i][j] == VisitStatus::Visited)
}

/// Visited positions sit on cell centers or on between positions, never on
/// the even-even lattice or off it.
pub open spec fn visits_shaped(v: Seq<Seq<VisitStatus>>) -> bool {
    forall|i: int, j: int|
        #![trigger v[i][j]]
        on_grid(v, i, j) && v[i][j] == VisitStatus::Visited ==> ((i % 2 == 1 && j % 2 == 1) || (i
            % 2) + (j % 2) == 1)
}

/// Every opened wall in the ghost set has both of its flanking cells in the
/// ghost cell set.
pub open spec fn walls_flanked(cells: Set<(int, int)>, walls: Set<(int, int)>) -> bool {
    forall|p: (int, int)| #[trigger]
        walls.contains(p) ==> if p.0 % 2 == 0 {
            cells.contains((p.0 - 1, p.1)) && cells.contains((p.0 + 1, p.1))
        } else {
            cells.contains((p.0, p.1 - 1)) && cells.contains((p.0, p.1 + 1))
        }
}

/// Whether the walk stack holds the given raw position.
pub open spec fn stack_has(s: Seq<Pair>, p: (int, int)) -> bool {
    exists|k: int| 0 <= k < s.len() && (#[trigger] s[k]).row == p.0 && s[k].col == p.1
}

/// Every stack entry is a visited cell center.
pub open spec fn stack_ok(v: Seq<Seq<VisitStatus>>, s: Seq<Pair>) -> bool {
    forall|k: int|
        0 <= k < s.len() ==> cell_center(v, (#[trigger] s[k]).row as int, s[k].col as int)
            && v[s[k].row as int][s[k].col as int] == VisitStatus::Visited
}

/// Every visited cell center off the stack has all its neighboring cell
/// centers visited: only stack entries still have work left.
pub open spec fn region_closed_off_stack(v: Seq<Seq<VisitStatus>>, s: Seq<Pair>) -> bool {
    forall|a: (int, int), b: (int, int)|
        cell_center(v, a.0, a.1) && cell_center(v, b.0, b.1) && #[trigger] adjacent_cells(a, b)
            && v[a.0][a.1] == VisitStatus::Visited && !stack_has(s, a) ==> v[b.0][b.1]
            == VisitStatus::Visited
}

/// The ghost cell set mirrors the visited cell centers.
pub open spec fn cells_match(v: Seq<Seq<VisitStatus>>, cells: Set<(int, int)>) -> bool {
    &&& forall|i: int, j: int|
        #![trigger v[i][j]]
        cell_center(v, i, j) ==> (v[i][j] == VisitStatus::Visited <==> cells.contains((i, j)))
    &&& forall|p: (int, int)| #[trigger] cells.contains(p) ==> cell_center(v, p.0, p.1)
}

/// The ghost wall set mirrors the visited between positions.
pub open spec fn walls_match(v: Seq<Seq<VisitStatus>>, walls: Set<(int, int)>) -> bool {
    &&& forall|i: int, j: int|
        #![trigger v[i][j]]
        between_position(v, i, j) ==> (v[i][j] == VisitStatus::Visited <==> walls.contains(
            (i, j),
        ))
    &&& forall|p: (int, int)| #[trigger] walls.contains(p) ==> between_position(v, p.0, p.1)
}

/// Every visited cell center can be reached from the seed over carved tiles.
pub open spec fn region_reachable(
    g: Seq<Seq<Tile>>,
    v: Seq<Seq<VisitStatus>>,
    seed: (int, int),
) -> bool {
    forall|c: (int, int)|
        cell_center(v, c.0, c.1) && v[c.0][c.1] == VisitStatus::Visited ==> #[trigger] carved_reachable(
            g,
            seed,
            c,
        )
}

/// With the walk finished the visited region is closed under cell
/// adjacency; starting from a visited seed, induction on the grid distance
/// shows every cell center visited.
proof fn lemma_closed_region_covers(v: Seq<Seq<VisitStatus>>, seed: (int, int), c: (int, int))
    requires
        forall|i: int| 0 <= i < v.len() ==> (#[trigger] v[i]).len() == v[0].len(),
        cell_center(v, seed.0, seed.1),
        v[seed.0][seed.1] == VisitStatus::Visited,
        forall|a: (int, int), b: (int, int)|
            cell_center(v, a.0, a.1) && cell_center(v, b.0, b.1) && #[trigger] adjacent_cells(a, b)
                && v[a.0][a.1] == VisitStatus::Visited ==> v[b.0][b.1] == VisitStatus::Visited,
        cell_center(v, c.0, c.1),
    ensures
        v[c.0][c.1] == VisitStatus::Visited,
    decreases vstd::math::abs(c.0 - seed.0) + vstd::math::abs(c.1 - seed.1),
{
    if c == seed {
    } else if c.0 != seed.0 {
        let prev: (int, int) = if c.0 > seed.0 {
            (c.0 - 2, c.1)
        } else {
            (c.0 + 2, c.1)
        };
        assert(cell_center(v, prev.0, prev.1));
        lemma_closed_region_covers(v, seed, prev);
        assert(adjacent_cells(prev, c));
    } else {
        let prev: (int, int) = if c.1 > seed.1 {
            (c.0, c.1 - 2)
        } else {
            (c.0, c.1 + 2)
        };
        assert(cell_center(v, prev.0, prev.1));
        lemma_closed_region_covers(v, seed, prev);
        assert(adjacent_cells(prev, c));
    }
}

/// `post` equals `pre` with exactly the two given positions rewritten to
/// `value`.
pub open spec fn updated_two<T>(
    pre: Seq<Seq<T>>,
    post: Seq<Seq<T>>,
    p1: (int, int),
    p2: (int, int),
    value: T,
) -> bool {
    &&& post.len() == pre.len()
    &&& forall|i: int| 0 <= i < pre.len() ==> (#[trigger] post[i]).len() == pre[i].len()
    &&& forall|i: int, j: int|
        #![trigger post[i][j]]
        on_grid(pre, i, j) && (i, j) != p1 && (i, j) != p2 ==> post[i][j] == pre[i][j]
    &&& on_grid(pre, p1.0, p1.1) ==> post[p1.0][p1.1] == value
    &&& on_grid(pre, p2.0, p2.1) ==> post[p2.0][p2.1] == value
}

/// Two chained single-position updates amount to rewriting two positions.
proof fn lemma_two_updates<T>(
    pre: Seq<Seq<T>>,
    mid: Seq<Seq<T>>,
    post: Seq<Seq<T>>,
    p1: (int, int),
    p2: (int, int),
    value: T,
)
    requires
        on_grid(pre, p1.0, p1.1),
        on_grid(mid, p2.0, p2.1),
        mid == pre.update(p1.0, pre[p1.0].update(p1.1, value)),
        post == mid.update(p2.0, mid[p2.0].update(p2.1, value)),
    ensures
        updated_two(pre, post, p1, p2, value),
{
}

/// Backtracking pops a cell with no unvisited neighbor left, so the visited
/// region stays closed off the stack.
#[verifier::spinoff_prover]
proof fn lemma_backtrack_closed(v: Seq<Seq<VisitStatus>>, s: Seq<Pair>, popped_pair: Pair)
    requires
        region_closed_off_stack(v, s),
        s.len() > 0,
        s[s.len() - 1] == popped_pair,
        forall|d: Direction| !unvisited_candidate_at(v, popped_pair, d),
    ensures
        region_closed_off_stack(v, s.drop_last()),
{
    let popped: (int, int) = (popped_pair.row as int, popped_pair.col as int);
    assert forall|a: (int, int), b: (int, int)|
        cell_center(v, a.0, a.1) && cell_center(v, b.0, b.1) && #[trigger] adjacent_cells(a, b)
            && v[a.0][a.1] == VisitStatus::Visited && !stack_has(s.drop_last(), a) implies v[b.0][b.1]
        == VisitStatus::Visited by {
        if stack_has(s, a) {
            let k = choose|k: int|
                0 <= k < s.len() && (#[trigger] s[k]).row == a.0 && s[k].col == a.1;
            if k < s.len() - 1 {
                assert(s.drop_last()[k] == s[k]);
                assert(stack_has(s.drop_last(), a));
            } else {
                assert(a == popped);
                let d: Direction = if b.0 == a.0 - 2 {
                    Direction::Up
                } else if b.0 == a.0 + 2 {
                    Direction::Down
                } else if b.1 == a.1 - 2 {
                    Direction::Left
                } else {
                    Direction::Right
                };
                assert(!unvisited_candidate_at(v, popped_pair, d));
                assert(on_grid(v, b.0, b.1));
                assert(v[b.0][b.1] != VisitStatus::Unvisited);
            }
        }
    }
}

/// The positions involved in one carving advance, in relation to each
/// other and to the pre-state: the popped cell is visited, the new cell is
/// not, and the wall between them is still standing.
pub open spec fn advance_positions_ok(
    pre_v: Seq<Seq<VisitStatus>>,
    popped: (int, int),
    newpos: (int, int),
    betweenpos: (int, int),
) -> bool {
    &&& cell_center(pre_v, popped.0, popped.1)
    &&& pre_v[popped.0][popped.1] == VisitStatus::Visited
    &&& cell_center(pre_v, newpos.0, newpos.1)
    &&& pre_v[newpos.0][newpos.1] == VisitStatus::Unvisited
    &&& between_position(pre_v, betweenpos.0, betweenpos.1)
    &&& pre_v[betweenpos.0][betweenpos.1] != VisitStatus::Visited
    &&& adjacent_cells(popped, newpos)
    &&& betweenpos.0 == (popped.0 + newpos.0) / 2
    &&& betweenpos.1 == (popped.1 + newpos.1) / 2
    &&& newpos != betweenpos && popped != betweenpos && newpos != popped
    &&& (betweenpos.0 % 2 == 0 ==> ((popped.0 == betweenpos.0 - 1 && newpos.0 == betweenpos.0 + 1)
        || (newpos.0 == betweenpos.0 - 1 && popped.0 == betweenpos.0 + 1)) && popped.1
        == betweenpos.1 && newpos.1 == betweenpos.1)
    &&& (betweenpos.1 % 2 == 0 ==> ((popped.1 == betweenpos.1 - 1 && newpos.1 == betweenpos.1 + 1)
        || (newpos.1 == betweenpos.1 - 1 && popped.1 == betweenpos.1 + 1)) && popped.0
        == betweenpos.0 && newpos.0 == betweenpos.0)
}

/// The step data of one carving advance satisfies the position facts.
#[verifier::spinoff_prover]
proof fn lemma_advance_positions(
    pre_v: Seq<Seq<VisitStatus>>,
    cells: Set<(int, int)>,
    walls: Set<(int, int)>,
    popped_pair: Pair,
    new_pair: Pair,
    in_between_pair: Pair,
    direction: Direction,
    height: int,
    width: int,
)
    requires
        grid_shape(pre_v, height, width),
        cells_match(pre_v, cells),
        walls_match(pre_v, walls),
        walls_flanked(cells, walls),
        cell_center(pre_v, popped_pair.row as int, popped_pair.col as int),
        pre_v[popped_pair.row as int][popped_pair.col as int] == VisitStatus::Visited,
        unvisited_candidate_at(pre_v, popped_pair, direction),
        new_pair.row == popped_pair.row + 2 * Pair::direction_offset(direction).row,
        new_pair.col == popped_pair.col + 2 * Pair::direction_offset(direction).col,
        in_between_pair.row == popped_pair.row + Pair::direction_offset(direction).row,
        in_between_pair.col == popped_pair.col + Pair::direction_offset(direction).col,
    ensures
        advance_positions_ok(
            pre_v,
            (popped_pair.row as int, popped_pair.col as int),
            (new_pair.row as int, new_pair.col as int),
            (in_between_pair.row as int, in_between_pair.col as int),
        ),
{
    let popped: (int, int) = (popped_pair.row as int, popped_pair.col as int);
    let newpos: (int, int) = (new_pair.row as int, new_pair.col as int);
    let betweenpos: (int, int) = (in_between_pair.row as int, in_between_pair.col as int);
    assert(on_grid(pre_v, newpos.0, newpos.1));
    assert(cell_center(pre_v, newpos.0, newpos.1));
    assert(on_grid(pre_v, betweenpos.0, betweenpos.1)) by {
        assert(pre_v[betweenpos.0].len() == 2 * width + 1);
    }
    assert(between_position(pre_v, betweenpos.0, betweenpos.1));
    assert(pre_v[betweenpos.0][betweenpos.1] != VisitStatus::Visited) by {
        if pre_v[betweenpos.0][betweenpos.1] == VisitStatus::Visited {
            assert(walls.contains(betweenpos));
            assert(cells.contains(newpos));
            assert(pre_v[newpos.0][newpos.1] == VisitStatus::Visited);
        }
    }
}

/// One carving advance keeps the boards in step: the new cell and the wall
/// between become `Path` and visited together.
#[verifier::spinoff_prover]
proof fn lemma_advance_sync_shape(
    pre_g: Seq<Seq<Tile>>,
    g: Seq<Seq<Tile>>,
    pre_v: Seq<Seq<VisitStatus>>,
    v: Seq<Seq<VisitStatus>>,
    popped: (int, int),
    newpos: (int, int),
    betweenpos: (int, int),
    height: int,
    width: int,
)
    requires
        grid_shape(pre_g, height, width),
        grid_shape(pre_v, height, width),
        boards_synced(pre_g, pre_v),
        visits_shaped(pre_v),
        entries_on_border(pre_g),
        advance_positions_ok(pre_v, popped, newpos, betweenpos),
        updated_two(pre_g, g, newpos, betweenpos, Tile::Path),
        updated_two(pre_v, v, newpos, betweenpos, VisitStatus::Visited),
    ensures
        grid_shape(g, height, width),
        grid_shape(v, height, width),
        boards_synced(g, v),
        visits_shaped(v),
        entries_on_border(g),
{
    assert forall|i: int, j: int|
        #![trigger g[i][j]]
        #![trigger v[i][j]]
        on_grid(g, i, j) implies (g[i][j] == Tile::Path <==> v[i][j] == VisitStatus::Visited) by {
        assert(on_grid(pre_g, i, j) && on_grid(pre_v, i, j));
        if (i, j) != newpos && (i, j) != betweenpos {
            assert(g[i][j] == pre_g[i][j] && v[i][j] == pre_v[i][j]);
        }
    }
    assert(visits_shaped(v)) by {
        assert forall|i: int, j: int|
            #![trigger v[i][j]]
            on_grid(v, i, j) && v[i][j] == VisitStatus::Visited implies ((i % 2 == 1 && j % 2 == 1)
            || (i % 2) + (j % 2) == 1) by {
            assert(on_grid(pre_v, i, j));
            if (i, j) != newpos && (i, j) != betweenpos {
                assert(v[i][j] == pre_v[i][j]);
            }
        }
    }
    assert(entries_on_border(g)) by {
        assert forall|row: int, col: int|
            on_grid(g, row, col) && #[trigger] g[row][col] == Tile::Entry implies on_border(
            g,
            row,
            col,
        ) by {
            assert(on_grid(pre_g, row, col));
            assert(g[row][col] == pre_g[row][col]);
            assert(on_border(pre_g, row, col));
        }
    }
}

/// One carving advance keeps every stack entry a visited cell and the
/// visited region closed off the stack: the new cell rides on top.
#[verifier::spinoff_prover]
proof fn lemma_advance_stack_closed(
    pre_v: Seq<Seq<VisitStatus>>,
    v: Seq<Seq<VisitStatus>>,
    pre_stack: Seq<Pair>,
    stack: Seq<Pair>,
    new_pair: Pair,
    popped: (int, int),
    newpos: (int, int),
    betweenpos: (int, int),
)
    requires
        stack_ok(pre_v, pre_stack),
        region_closed_off_stack(pre_v, pre_stack),
        advance_positions_ok(pre_v, popped, newpos, betweenpos),
        updated_two(pre_v, v, newpos, betweenpos, VisitStatus::Visited),
        newpos == (new_pair.row as int, new_pair.col as int),
        stack == pre_stack.push(new_pair),
    ensures
        stack_ok(v, stack),
        region_closed_off_stack(v, stack),
{
    assert(stack_ok(v, stack)) by {
        assert forall|k: int| 0 <= k < stack.len() implies cell_center(
            v,
            (#[trigger] stack[k]).row as int,
            stack[k].col as int,
        ) && v[stack[k].row as int][stack[k].col as int] == VisitStatus::Visited by {
            if k < pre_stack.len() {
                assert(stack[k] == pre_stack[k]);
                let p: (int, int) = (pre_stack[k].row as int, pre_stack[k].col as int);
                assert(cell_center(pre_v, p.0, p.1) && pre_v[p.0][p.1] == VisitStatus::Visited);
                if p != newpos && p != betweenpos {
                    assert(v[p.0][p.1] == pre_v[p.0][p.1]);
                }
            } else {
                assert(stack[k] == new_pair);
                assert(v[newpos.0][newpos.1] == VisitStatus::Visited);
            }
        }
    }
    assert(region_closed_off_stack(v, stack)) by {
        assert forall|a: (int, int), b: (int, int)|
            cell_center(v, a.0, a.1) && cell_center(v, b.0, b.1) && #[trigger] adjacent_cells(a, b)
                && v[a.0][a.1] == VisitStatus::Visited && !stack_has(stack, a) implies v[b.0][b.1]
            == VisitStatus::Visited by {
            assert(stack[stack.len() - 1] == new_pair);
            if a == newpos {
                assert(stack_has(stack, a));
            } else {
                assert(v[a.0][a.1] == pre_v[a.0][a.1]);
                if stack_has(pre_stack, a) {
                    let k = choose|k: int|
                        0 <= k < pre_stack.len() && (#[trigger] pre_stack[k]).row == a.0
                            && pre_stack[k].col == a.1;
                    assert(stack[k] == pre_stack[k]);
                    assert(stack_has(stack, a));
                } else {
                    assert(pre_v[b.0][b.1] == VisitStatus::Visited);
                    if b != newpos && b != betweenpos {
                        assert(v[b.0][b.1] == pre_v[b.0][b.1]);
                    }
                }
            }
        }
    }
}

/// One carving advance grows the ghost sets in step: one new cell, one new
/// opened wall, and the cells still fit in the grid.
#[verifier::spinoff_prover]
proof fn lemma_advance_sets(
    pre_v: Seq<Seq<VisitStatus>>,
    v: Seq<Seq<VisitStatus>>,
    cells: Set<(int, int)>,
    walls: Set<(int, int)>,
    popped: (int, int),
    newpos: (int, int),
    betweenpos: (int, int),
    height: int,
    width: int,
)
    requires
        1 <= height,
        1 <= width,
        grid_shape(pre_v, height, width),
        cells_match(pre_v, cells),
        walls_match(pre_v, walls),
        walls_flanked(cells, walls),
        cells.finite(),
        walls.finite(),
        advance_positions_ok(pre_v, popped, newpos, betweenpos),
        updated_two(pre_v, v, newpos, betweenpos, VisitStatus::Visited),
    ensures
        walls_flanked(cells.insert(newpos), walls.insert(betweenpos)),
        !cells.contains(newpos),
        !walls.contains(betweenpos),
        cells_match(v, cells.insert(newpos)),
        walls_match(v, walls.insert(betweenpos)),
        cells.insert(newpos).len() == cells.len() + 1,
        walls.insert(betweenpos).len() == walls.len() + 1,
        cells.insert(newpos).len() <= height * width,
{
    assert(!cells.contains(newpos));
    assert(!walls.contains(betweenpos));
    assert(walls_flanked(cells.insert(newpos), walls.insert(betweenpos))) by {
        assert(cells.contains(popped));
        assert forall|p: (int, int)| #[trigger]
            walls.insert(betweenpos).contains(p) implies if p.0 % 2 == 0 {
            cells.insert(newpos).contains((p.0 - 1, p.1)) && cells.insert(newpos).contains(
                (p.0 + 1, p.1),
            )
        } else {
            cells.insert(newpos).contains((p.0, p.1 - 1)) && cells.insert(newpos).contains(
                (p.0, p.1 + 1),
            )
        } by {
            if p != betweenpos {
                assert(walls.contains(p));
            }
        }
    }
    assert(cells_match(v, cells.insert(newpos))) by {
        assert forall|i: int, j: int|
            #![trigger v[i][j]]
            cell_center(v, i, j) implies (v[i][j] == VisitStatus::Visited <==> cells.insert(
            newpos,
        ).contains((i, j))) by {
            assert(on_grid(pre_v, i, j) && cell_center(pre_v, i, j));
            if (i, j) != newpos {
                assert((i, j) != betweenpos);
                assert(v[i][j] == pre_v[i][j]);
            }
        }
        assert forall|p: (int, int)| #[trigger]
            cells.insert(newpos).contains(p) implies cell_center(v, p.0, p.1) by {
            if p != newpos {
                assert(cells.contains(p));
                assert(cell_center(pre_v, p.0, p.1));
            }
        }
    }
    assert(walls_match(v, walls.insert(betweenpos))) by {
        assert forall|i: int, j: int|
            #![trigger v[i][j]]
            between_position(v, i, j) implies (v[i][j] == VisitStatus::Visited <==> walls.insert(
            betweenpos,
        ).contains((i, j))) by {
            assert(on_grid(pre_v, i, j) && between_position(pre_v, i, j));
            if (i, j) != betweenpos {
                assert((i, j) != newpos);
                assert(v[i][j] == pre_v[i][j]);
            }
        }
        assert forall|p: (int, int)| #[trigger]
            walls.insert(betweenpos).contains(p) implies between_position(v, p.0, p.1) by {
            if p != betweenpos {
                assert(walls.contains(p));
                assert(between_position(pre_v, p.0, p.1));
            }
        }
    }
    assert(cells.insert(newpos).len() <= height * width) by {
        lemma_center_count(height, width);
        assert(cells.insert(newpos).subset_of(center_set(2 * height + 1, 2 * width + 1))) by {
            assert forall|p: (int, int)| cells.insert(newpos).contains(p) implies center_set(
                2 * height + 1,
                2 * width + 1,
            ).contains(p) by {
                assert(cell_center(v, p.0, p.1));
            }
        }
        vstd::set_lib::lemma_len_subset(
            cells.insert(newpos),
            center_set(2 * height + 1, 2 * width + 1),
        );
    }
}

/// One carving advance keeps every visited cell reachable from the seed:
/// old walks survive the carving and the new cell hangs off the popped one.
#[verifier::spinoff_prover]
proof fn lemma_advance_reach(
    pre_g: Seq<Seq<Tile>>,
    g: Seq<Seq<Tile>>,
    pre_v: Seq<Seq<VisitStatus>>,
    v: Seq<Seq<VisitStatus>>,
    seed: (int, int),
    popped: (int, int),
    newpos: (int, int),
    betweenpos: (int, int),
)
    requires
        boards_synced(pre_g, pre_v),
        region_reachable(pre_g, pre_v, seed),
        advance_positions_ok(pre_v, popped, newpos, betweenpos),
        pre_g.len() == pre_v.len(),
        forall|i: int| 0 <= i < pre_g.len() ==> (#[trigger] pre_g[i]).len() == pre_v[i].len(),
        updated_two(pre_g, g, newpos, betweenpos, Tile::Path),
        updated_two(pre_v, v, newpos, betweenpos, VisitStatus::Visited),
    ensures
        region_reachable(g, v, seed),
{
    assert forall|i: int, j: int|
        on_grid(pre_g, i, j) && pre_g[i][j] == Tile::Path implies #[trigger] g[i][j]
        == Tile::Path by {
        if (i, j) != newpos && (i, j) != betweenpos {
            assert(g[i][j] == pre_g[i][j]);
        }
    }
    assert(carved_step(g, popped, newpos)) by {
        assert(on_grid(pre_v, betweenpos.0, betweenpos.1));
        assert(on_grid(pre_g, betweenpos.0, betweenpos.1));
        assert(on_grid(pre_g, newpos.0, newpos.1));
        assert(on_grid(pre_g, popped.0, popped.1));
        assert(g[betweenpos.0][betweenpos.1] == Tile::Path);
        assert(g[newpos.0][newpos.1] == Tile::Path);
        assert(carved_between(g, betweenpos.0, betweenpos.1));
        assert(pre_g[popped.0][popped.1] == Tile::Path);
        assert(g[popped.0][popped.1] == Tile::Path);
    }
    assert forall|c: (int, int)|
        cell_center(v, c.0, c.1) && v[c.0][c.1] == VisitStatus::Visited implies #[trigger] carved_reachable(
        g,
        seed,
        c,
    ) by {
        assert(on_grid(pre_v, c.0, c.1));
        if c == newpos {
            assert(pre_v[popped.0][popped.1] == VisitStatus::Visited);
            assert(carved_reachable(pre_g, seed, popped));
            let s = choose|s: Seq<(int, int)>| carved_walk(pre_g, s, seed, popped);
            lemma_walk_preserved(pre_g, g, s, seed, popped);
            let extended = s.push(newpos);
            assert(carved_walk(g, extended, seed, newpos)) by {
                assert(extended[extended.len() - 2] == popped);
                assert forall|k: int| 0 <= k < extended.len() - 1 implies carved_step(
                    g,
                    #[trigger] extended[k],
                    extended[k + 1],
                ) by {
                    if k < s.len() - 1 {
                        assert(extended[k] == s[k] && extended[k + 1] == s[k + 1]);
                        assert(carved_step(g, s[k], s[k + 1]));
                    } else {
                        assert(extended[k] == popped && extended[k + 1] == newpos);
                    }
                }
            }
        } else {
            assert((c.0, c.1) != betweenpos);
            assert(v[c.0][c.1] == pre_v[c.0][c.1]);
            assert(cell_center(pre_v, c.0, c.1));
            assert(carved_reachable(pre_g, seed, c));
            let s = choose|s: Seq<(int, int)>| carved_walk(pre_g, s, seed, c);
            lemma_walk_preserved(pre_g, g, s, seed, c);
        }
    }
}

/// When the stack has emptied, every cell center has been visited, carved
/// and connected to the seed, and the opened walls number one less than the
/// cells.
#[verifier::spinoff_prover]
proof fn lemma_carve_finished(
    g: Seq<Seq<Tile>>,
    v: Seq<Seq<VisitStatus>>,
    s: Seq<Pair>,
    cells: Set<(int, int)>,
    walls: Set<(int, int)>,
    seed: (int, int),
    height: int,
    width: int,
)
    requires
        1 <= height,
        1 <= width,
        grid_shape(g, height, width),
        grid_shape(v, height, width),
        boards_synced(g, v),
        visits_shaped(v),
        region_closed_off_stack(v, s),
        s.len() == 0,
        cells_match(v, cells),
        walls_match(v, walls),
        walls_flanked(cells, walls),
        cells.contains(seed),
        cells.finite(),
        walls.finite(),
        cells.len() == walls.len() + 1,
        region_reachable(g, v, seed),
    ensures
        forall|i: int, j: int|
            #![trigger g[i][j]]
            on_grid(g, i, j) && on_border(g, i, j) ==> g[i][j] != Tile::Path,
        forall|i: int, j: int| cell_center(v, i, j) ==> v[i][j] == VisitStatus::Visited,
        forall|i: int, j: int| cell_center(g, i, j) ==> g[i][j] == Tile::Path,
        carved_between_set(g).finite(),
        carved_between_set(g).len() == height * width - 1,
        forall|c: (int, int)| cell_center(g, c.0, c.1) ==> carved_reachable(g, seed, c),
{
    assert(cell_center(v, seed.0, seed.1) && v[seed.0][seed.1] == VisitStatus::Visited);
    assert forall|i: int, j: int| cell_center(v, i, j) implies v[i][j] == VisitStatus::Visited by {
        assert forall|a: (int, int), b: (int, int)|
            cell_center(v, a.0, a.1) && cell_center(v, b.0, b.1) && #[trigger] adjacent_cells(a, b)
                && v[a.0][a.1] == VisitStatus::Visited implies v[b.0][b.1] == VisitStatus::Visited by {
            assert(!stack_has(s, a));
        }
        assert(v.len() == 2 * height + 1);
        assert forall|i0: int| 0 <= i0 < v.len() implies (#[trigger] v[i0]).len() == v[0].len() by {}
        lemma_closed_region_covers(v, seed, (i, j));
    }
    assert forall|i: int, j: int| cell_center(g, i, j) implies g[i][j] == Tile::Path by {
        assert(cell_center(v, i, j));
        assert(v[i][j] == VisitStatus::Visited);
    }
    assert(cells =~= center_set(2 * height + 1, 2 * width + 1)) by {
        assert forall|p: (int, int)|
            center_set(2 * height + 1, 2 * width + 1).contains(p) implies cells.contains(p) by {
            assert(cell_center(v, p.0, p.1));
            assert(v[p.0][p.1] == VisitStatus::Visited);
        }
        assert forall|p: (int, int)| cells.contains(p) implies center_set(
            2 * height + 1,
            2 * width + 1,
        ).contains(p) by {
            assert(cell_center(v, p.0, p.1));
        }
    }
    lemma_center_count(height, width);
    assert(cells.len() == height * width);
    assert(walls =~= carved_between_set(g)) by {
        assert forall|p: (int, int)| carved_between_set(g).contains(p) implies walls.contains(
            p,
        ) by {
            assert(carved_between(g, p.0, p.1));
            assert(between_position(v, p.0, p.1));
            assert(v[p.0][p.1] == VisitStatus::Visited);
        }
        assert forall|p: (int, int)| walls.contains(p) implies carved_between_set(g).contains(
            p,
        ) by {
            assert(between_position(v, p.0, p.1));
            assert(v[p.0][p.1] == VisitStatus::Visited);
            assert(g[p.0][p.1] == Tile::Path);
        }
    }
    assert forall|c: (int, int)| cell_center(g, c.0, c.1) implies carved_reachable(g, seed, c) by {
        assert(cell_center(v, c.0, c.1));
        assert(v[c.0][c.1] == VisitStatus::Visited);
    }
    assert forall|i: int, j: int|
        #![trigger g[i][j]]
        on_grid(g, i, j) && on_border(g, i, j) implies g[i][j] != Tile::Path by {
        if g[i][j] == Tile::Path {
            assert(v[i][j] == VisitStatus::Visited);
            if i % 2 == 1 && j % 2 == 1 {
                assert(i != 0 && i != 2 * height && j != 0 && j != 2 * width);
                assert(!on_border(g, i, j));
            } else {
                assert(between_position(v, i, j));
                assert(walls.contains((i, j)));
                if i % 2 == 0 {
                    assert(cells.contains((i - 1, j)) && cells.contains((i + 1, j)));
                    assert(cell_center(v, i - 1, j) && cell_center(v, i + 1, j));
                    assert(0 < i < 2 * height);
                    assert(j % 2 == 1 && j != 0 && j != 2 * width);
                    assert(!on_border(g, i, j));
                } else {
                    assert(cells.contains((i, j - 1)) && cells.contains((i, j + 1)));
                    assert(cell_center(v, i, j - 1) && cell_center(v, i, j + 1));
                    assert(0 < j < 2 * width);
                    assert(i % 2 == 1 && i != 0 && i != 2 * height);
                    assert(!on_border(g, i, j));
                }
            }
        }
    }
}

/// Marking the seed establishes every invariant of the carving walk.
#[verifier::spinoff_prover]
proof fn lemma_carve_seeded(
    pre_g: Seq<Seq<Tile>>,
    g: Seq<Seq<Tile>>,
    pre_v: Seq<Seq<VisitStatus>>,
    v: Seq<Seq<VisitStatus>>,
    start: Pair,
    seed: (int, int),
    height: int,
    width: int,
)
    requires
        1 <= height,
        1 <= width,
        grid_shape(pre_g, height, width),
        grid_shape(pre_v, height, width),
        forall|i: int, j: int|
            #![trigger pre_g[i][j]]
            on_grid(pre_g, i, j) ==> pre_g[i][j] != Tile::Path,
        entries_on_border(pre_g),
        forall|i: int, j: int|
            #![trigger pre_v[i][j]]
            on_grid(pre_v, i, j) ==> pre_v[i][j] == VisitStatus::Unvisited,
        seed == (start.row as int, start.col as int),
        cell_center(pre_g, seed.0, seed.1),
        g == pre_g.update(seed.0, pre_g[seed.0].update(seed.1, Tile::Path)),
        v == pre_v.update(seed.0, pre_v[seed.0].update(seed.1, VisitStatus::Visited)),
    ensures
        grid_shape(g, height, width),
        grid_shape(v, height, width),
        boards_synced(g, v),
        visits_shaped(v),
        entries_on_border(g),
        stack_ok(v, seq![start]),
        region_closed_off_stack(v, seq![start]),
        cells_match(v, Set::empty().insert(seed)),
        walls_match(v, Set::<(int, int)>::empty()),
        walls_flanked(Set::empty().insert(seed), Set::<(int, int)>::empty()),
        Set::empty().insert(seed).len() == 1,
        region_reachable(g, v, seed),
{
    assert(grid_shape(v, height, width));
    assert forall|i: int, j: int|
        #![trigger g[i][j]]
        #![trigger v[i][j]]
        on_grid(g, i, j) implies (g[i][j] == Tile::Path <==> v[i][j] == VisitStatus::Visited) by {
        assert(on_grid(pre_g, i, j) && on_grid(pre_v, i, j));
        if (i, j) != seed {
            assert(g[i][j] == pre_g[i][j] && v[i][j] == pre_v[i][j]);
        }
    }
    assert(visits_shaped(v)) by {
        assert forall|i: int, j: int|
            #![trigger v[i][j]]
            on_grid(v, i, j) && v[i][j] == VisitStatus::Visited implies (i % 2 == 1 && j % 2
            == 1) by {
            assert(on_grid(pre_v, i, j));
            if (i, j) != seed {
                assert(v[i][j] == pre_v[i][j]);
            }
        }
    }
    assert(entries_on_border(g)) by {
        assert forall|row: int, col: int|
            on_grid(g, row, col) && #[trigger] g[row][col] == Tile::Entry implies on_border(
            g,
            row,
            col,
        ) by {
            assert(on_grid(pre_g, row, col));
            assert(g[row][col] == pre_g[row][col]);
            assert(on_border(pre_g, row, col));
        }
    }
    assert(stack_ok(v, seq![start])) by {
        assert(seq![start][0] == start);
        assert(v[seed.0][seed.1] == VisitStatus::Visited);
    }
    assert(region_closed_off_stack(v, seq![start])) by {
        assert forall|a: (int, int), b: (int, int)|
            cell_center(v, a.0, a.1) && cell_center(v, b.0, b.1) && #[trigger] adjacent_cells(a, b)
                && v[a.0][a.1] == VisitStatus::Visited && !stack_has(seq![start], a) implies v[b.0][b.1]
            == VisitStatus::Visited by {
            assert(on_grid(pre_v, a.0, a.1));
            if a != seed {
                assert(v[a.0][a.1] == pre_v[a.0][a.1]);
            } else {
                assert((seq![start])[0].row == a.0 && (seq![start])[0].col == a.1);
                assert(stack_has(seq![start], a));
            }
        }
    }
    assert(cells_match(v, Set::empty().insert(seed))) by {
        assert forall|i: int, j: int|
            #![trigger v[i][j]]
            cell_center(v, i, j) implies (v[i][j] == VisitStatus::Visited <==> Set::empty().insert(
            seed,
        ).contains((i, j))) by {
            assert(on_grid(pre_v, i, j));
            if (i, j) != seed {
                assert(v[i][j] == pre_v[i][j]);
            }
        }
    }
    assert(walls_match(v, Set::<(int, int)>::empty())) by {
        assert forall|i: int, j: int|
            #![trigger v[i][j]]
            between_position(v, i, j) implies v[i][j] != VisitStatus::Visited by {
            assert(on_grid(pre_v, i, j));
            assert((i, j) != seed);
            assert(v[i][j] == pre_v[i][j]);
        }
    }
    assert(region_reachable(g, v, seed)) by {
        assert(carved_walk(g, seq![seed], seed, seed));
        assert forall|c: (int, int)|
            cell_center(v, c.0, c.1) && v[c.0][c.1] == VisitStatus::Visited implies #[trigger] carved_reachable(
            g,
            seed,
            c,
        ) by {
            assert(on_grid(pre_v, c.0, c.1));
            if c != seed {
                assert(v[c.0][c.1] == pre_v[c.0][c.1]);
            }
        }
    }
}

/// The wall cut for an entry lies on the outer border: when the probe two
/// steps out falls off the grid, the slot one step out sits on the border
/// ring, on a between position.
proof fn lemma_entry_target_on_border(
    board: Board<Tile>,
    pair: Pair,
    d: Direction,
    height: int,
    width: int,
)
    requires
        grid_shape(board@, height, width),
        1 <= height,
        1 <= width,
        cell_center(board@, pair.row as int, pair.col as int),
        two_step_off_grid(board, pair, d),
    ensures
        ({
            let o = Pair::direction_offset(d);
            let row = pair.row + o.row;
            let col = pair.col + o.col;
            &&& on_grid(board@, row, col)
            &&& on_border(board@, row, col)
            &&& (row % 2) + (col % 2) == 1
        }),
{
    let g = board@;
    let o = Pair::direction_offset(d);
    let row = pair.row + o.row;
    let col = pair.col + o.col;
    assert(g[pair.row as int].len() == 2 * width + 1);
    match d {
        Direction::Up => {
            assert(pair.row - 2 < 0);
            assert(row == 0);
            assert(g[row].len() == 2 * width + 1);
        },
        Direction::Down => {
            assert(!on_grid(g, pair.row + 2, pair.col as int));
            assert(pair.row + 2 >= g.len());
            assert(row == 2 * height);
            assert(g[row].len() == 2 * width + 1);
        },
        Direction::Left => {
            assert(pair.col - 2 < 0);
            assert(col == 0);
            assert(g[row].len() == 2 * width + 1);
        },
        Direction::Right => {
            assert(!on_grid(g, pair.row as int, pair.col + 2));
            assert(pair.col + 2 >= g[pair.row as int].len());
            assert(col == 2 * width);
            assert(g[row].len() == 2 * width + 1);
        },
    }
}

/// Cutting an entry tile on the border leaves the carved structure alone:
/// the cells stay carved, the wall count stays, and every walk survives.
#[verifier::spinoff_prover]
proof fn lemma_entry_preserves_carving(
    pre: Seq<Seq<Tile>>,
    post: Seq<Seq<Tile>>,
    target: (int, int),
    seedpos: (int, int),
    height: int,
    width: int,
)
    requires
        grid_shape(pre, height, width),
        1 <= height,
        1 <= width,
        on_grid(pre, target.0, target.1),
        on_border(pre, target.0, target.1),
        post == pre.update(target.0, pre[target.0].update(target.1, Tile::Entry)),
        entries_on_border(pre),
        forall|i: int, j: int| cell_center(pre, i, j) ==> pre[i][j] == Tile::Path,
        forall|i: int, j: int|
            #![trigger pre[i][j]]
            on_grid(pre, i, j) && on_border(pre, i, j) ==> pre[i][j] != Tile::Path,
        forall|c: (int, int)| cell_center(pre, c.0, c.1) ==> carved_reachable(pre, seedpos, c),
    ensures
        grid_shape(post, height, width),
        entries_on_border(post),
        forall|i: int, j: int| cell_center(post, i, j) ==> post[i][j] == Tile::Path,
        forall|i: int, j: int|
            #![trigger post[i][j]]
            on_grid(post, i, j) && on_border(post, i, j) ==> post[i][j] != Tile::Path,
        carved_between_set(post) == carved_between_set(pre),
        forall|c: (int, int)| cell_center(post, c.0, c.1) ==> carved_reachable(post, seedpos, c),
{
    assert(grid_shape(post, height, width));
    assert forall|i: int, j: int|
        #![trigger post[i][j]]
        on_grid(post, i, j) implies on_grid(pre, i, j) && ((i, j) != target ==> post[i][j]
        == pre[i][j]) && ((i, j) == target ==> post[i][j] == Tile::Entry) by {}
    assert(entries_on_border(post)) by {
        assert forall|row: int, col: int|
            on_grid(post, row, col) && #[trigger] post[row][col] == Tile::Entry implies on_border(
            post,
            row,
            col,
        ) by {
            if (row, col) != target {
                assert(post[row][col] == pre[row][col]);
                assert(on_border(pre, row, col));
            }
            assert(pre[row].len() == post[row].len());
        }
    }
    assert forall|i: int, j: int| cell_center(post, i, j) implies post[i][j] == Tile::Path by {
        assert(cell_center(pre, i, j));
        assert((i, j) != target);
    }
    assert(carved_between_set(post) =~= carved_between_set(pre)) by {
        assert forall|q: (int, int)|
            carved_between_set(post).contains(q) <==> carved_between_set(pre).contains(q) by {
            if q != target {
                if on_grid(pre, q.0, q.1) {
                    assert(post[q.0][q.1] == pre[q.0][q.1]);
                    assert(on_grid(post, q.0, q.1));
                }
            } else {
                assert(post[q.0][q.1] == Tile::Entry);
                assert(pre[q.0][q.1] != Tile::Path);
            }
        }
    }
    assert forall|c: (int, int)| cell_center(post, c.0, c.1) implies carved_reachable(
        post,
        seedpos,
        c,
    ) by {
        assert(cell_center(pre, c.0, c.1));
        assert(carved_reachable(pre, seedpos, c));
        let s = choose|s: Seq<(int, int)>| carved_walk(pre, s, seedpos, c);
        assert forall|i: int, j: int|
            on_grid(pre, i, j) && pre[i][j] == Tile::Path implies #[trigger] post[i][j]
            == Tile::Path by {
            assert((i, j) != target);
        }
        lemma_walk_preserved(pre, post, s, seedpos, c);
    }
}

/// Law: in a board whose entry tiles lie on the border — as in every
/// generated maze — a tile at an even raw coordinate on both axes that lies
/// strictly inside the border is Wall or Path, never Entry.
pub proof fn lemma_interior_even_tiles_never_entry(g: Seq<Seq<Tile>>, row: int, col: int)
    requires
        entries_on_border(g),
        on_grid(g, row, col),
        0 < row < g.len() - 1,
        0 < col < g[row].len() - 1,
        row % 2 == 0,
        col % 2 == 0,
    ensures
        g[row][col] != Tile::Entry,
        g[row][col] == Tile::Wall || g[row][col] == Tile::Path,
{
    if g[row][col] == Tile::Entry {
        assert(on_border(g, row, col));
    }
}

impl Maze {
    /// Gets the directions whose two-step neighbor exists and is unvisited:
    /// the candidate set of the carving walk, in enumeration order.
    pub fn get_unvisited_directions(pair: Pair, visited: &Board<VisitStatus>) -> (r: Vec<
        Direction,
    >)
        requires
            i32::MIN + 2 <= pair.row <= i32::MAX - 2,
            i32::MIN + 2 <= pair.col <= i32::MAX - 2,
        ensures
            forall|d: Direction| r@.contains(d) <==> unvisited_candidate(*visited, pair, d),
            r@.no_duplicates(),
    {
        let directions = Direction::all();
        let mut result: Vec<Direction> = Vec::new();
        let mut index: usize = 0;
        while index < directions.len()
            invariant
                directions@ == Direction::all_spec(),
                index <= directions@.len(),
                i32::MIN + 2 <= pair.row <= i32::MAX - 2,
                i32::MIN + 2 <= pair.col <= i32::MAX - 2,
                forall|d: Direction|
                    result@.contains(d) ==> unvisited_candidate(*visited, pair, d),
                forall|k: int|
                    0 <= k < index ==> (result@.contains(#[trigger] directions@[k])
                        <==> unvisited_candidate(*visited, pair, directions@[k])),
                forall|d: Direction|
                    #[trigger] result@.contains(d) ==> exists|k: int|
                        0 <= k < index && directions@[k] == d,
                result@.no_duplicates(),
            decreases directions@.len() - index,
        {
            let direction = directions[index];
            let step = Pair::from(direction).mul(CELL_STEP);
            let next = pair.add(step);
            let mut is_candidate = false;
            match visited.get_from_pair(next) {
                Some(status) => {
                    if *status == VisitStatus::Unvisited {
                        is_candidate = true;
                    }
                },
                None => {},
            }
            assert(is_candidate == unvisited_candidate(*visited, pair, direction));
            if is_candidate {
                proof {
                    crate::direction::lemma_all_spec_complete();
                    assert(!result@.contains(direction));
                }
                let ghost previous = result@;
                result.push(direction);
                proof {
                    assert forall|d: Direction| #[trigger] result@.contains(d) implies previous.contains(d)
                        || d == direction by {
                        let k = choose|k: int| 0 <= k < result@.len() && result@[k] == d;
                        if k < previous.len() {
                            assert(previous[k] == d);
                        }
                    }
                    assert(forall|d: Direction|
                        previous.contains(d) ==> #[trigger] result@.contains(d)) by {
                        assert forall|d: Direction| previous.contains(d) implies #[trigger] result@.contains(
                            d,
                        ) by {
                            let k = choose|k: int| 0 <= k < previous.len() && previous[k] == d;
                            assert(result@[k] == d);
                        }
                    }
                    assert(result@.contains(direction)) by {
                        assert(result@[result@.len() - 1] == direction);
                    }
                }
            }
            index += 1;
        }
        proof {
            crate::direction::lemma_all_spec_complete();
            assert forall|d: Direction| result@.contains(d)
                <==> unvisited_candidate(*visited, pair, d) by {
                assert(Direction::all_spec().contains(d));
                let k = choose|k: int|
                    0 <= k < Direction::all_spec().len() && Direction::all_spec()[k] == d;
                assert(result@.contains(directions@[k]) <==> unvisited_candidate(
                    *visited,
                    pair,
                    directions@[k],
                ));
            }
        }
        result
    }

    /// Updates the board and its visitation status against some pair: the
    /// tile becomes `Path` and the position counts as visited.  Mirroring the
    /// short-circuit control flow, the board is written before the
    /// visitation board's bounds are consulted.
    fn visit_and_mark_as_path(
        board: &mut Board<Tile>,
        visited: &mut Board<VisitStatus>,
        pair: Pair,
    ) -> (r: Option<bool>)
        ensures
            r is Some <==> (old(board).in_bounds(pair) && old(visited).in_bounds(pair)),
            r is Some ==> r == Some(true),
            old(board).in_bounds(pair) ==> final(board)@ == old(board)@.update(
                pair.row as int,
                old(board)@[pair.row as int].update(pair.col as int, Tile::Path),
            ) && final(board).cell_height == old(board).cell_height && final(board).cell_width
                == old(board).cell_width,
            !old(board).in_bounds(pair) ==> *final(board) == *old(board),
            (old(board).in_bounds(pair) && old(visited).in_bounds(pair)) ==> final(visited)@ == old(
                visited
            )@.update(
                pair.row as int,
                old(visited)@[pair.row as int].update(pair.col as int, VisitStatus::Visited),
            ) && final(visited).cell_height == old(visited).cell_height && final(
                visited
            ).cell_width == old(visited).cell_width,
            !(old(board).in_bounds(pair) && old(visited).in_bounds(pair)) ==> *final(visited)
                == *old(visited),
    {
        if !board.set_from_pair(pair, Tile::Path) {
            return None;
        }
        if !visited.set_from_pair(pair, VisitStatus::Visited) {
            return None;
        }
        Some(true)
    }

    /// Finds the first direction, in enumeration order, whose two-step probe
    /// from `pair` falls off the board.
    fn find_exit_direction(pair: Pair, board: &Board<Tile>) -> (r: Option<Direction>)
        requires
            i32::MIN + 2 <= pair.row <= i32::MAX - 2,
            i32::MIN + 2 <= pair.col <= i32::MAX - 2,
        ensures
            r == first_exit_direction(*board, pair),
    {
        let directions = Direction::all();
        let mut index: usize = 0;
        while index < directions.len()
            invariant
                directions@ == Direction::all_spec(),
                index <= directions@.len(),
                i32::MIN + 2 <= pair.row <= i32::MAX - 2,
                i32::MIN + 2 <= pair.col <= i32::MAX - 2,
                forall|k: int|
                    0 <= k < index ==> !two_step_off_grid(*board, pair, #[trigger] directions@[k]),
            decreases directions@.len() - index,
        {
            let direction = directions[index];
            let step = Pair::from(direction).mul(CELL_STEP);
            let probe = pair.add(step);
            if board.get_from_pair(probe).is_none() {
                return Some(direction);
            }
            index += 1;
        }
        None
    }

    /// Adds an entry point to the maze: cuts the wall between the given
    /// perimeter cell and the outside border to `Entry`.
    fn add_maze_entry(perimeter_pair: Pair, board: &mut Board<Tile>)
        requires
            i32::MIN + 2 <= perimeter_pair.row <= i32::MAX - 2,
            i32::MIN + 2 <= perimeter_pair.col <= i32::MAX - 2,
        ensures
            final(board).cell_height == old(board).cell_height,
            final(board).cell_width == old(board).cell_width,
            match first_exit_direction(*old(board), perimeter_pair) {
                None => *final(board) == *old(board),
                Some(d) => ({
                    let o = Pair::direction_offset(d);
                    let row = perimeter_pair.row + o.row;
                    let col = perimeter_pair.col + o.col;
                    if on_grid(old(board)@, row, col) {
                        final(board)@ == old(board)@.update(
                            row,
                            old(board)@[row].update(col, Tile::Entry),
                        )
                    } else {
                        *final(board) == *old(board)
                    }
                }),
            },
    {
        match Self::find_exit_direction(perimeter_pair, board) {
            None => {},
            Some(direction) => {
                let target = perimeter_pair.add(Pair::from(direction));
                board.set_from_pair(target, Tile::Entry);
            },
        }
    }

    /// Chooses a cell on the perimeter of the maze: a uniformly random side,
    /// then a uniformly random cell along it.  Fails exactly when the board
    /// has no cells on some axis.
    fn choose_perimeter_pair(board: &Board<Tile>) -> (r: Option<Pair>)
        requires
            board.well_formed(),
            board.cell_height <= MAX_CELL_EXTENT,
            board.cell_width <= MAX_CELL_EXTENT,
        ensures
            r is Some <==> (board.cell_height > 0 && board.cell_width > 0),
            r matches Some(p) ==> is_perimeter_pair(*board, p),
    {
        if board.cell_height == 0 || board.cell_width == 0 {
            return None;
        }
        let directions = Direction::all();
        let side = directions[random_below(4)];
        let (row, col): (usize, usize) = match side {
            Direction::Down => {
                let row = Board::<Tile>::cell_position_to_index(board.cell_height - 1);
                let col = Board::<Tile>::cell_position_to_index(random_below(board.cell_width));
                (row, col)
            },
            Direction::Left => {
                let row = Board::<Tile>::cell_position_to_index(random_below(board.cell_height));
                let col = Board::<Tile>::cell_position_to_index(0);
                (row, col)
            },
            Direction::Up => {
                let row = Board::<Tile>::cell_position_to_index(0);
                let col = Board::<Tile>::cell_position_to_index(random_below(board.cell_width));
                (row, col)
            },
            Direction::Right => {
                let row = Board::<Tile>::cell_position_to_index(random_below(board.cell_height));
                let col = Board::<Tile>::cell_position_to_index(board.cell_width - 1);
                (row, col)
            },
        };
        Some(Pair { row: row as i32, col: col as i32 })
    }

    /// Chooses a direction uniformly at random from the unvisited candidate
    /// set, or `None` when that set is empty.
    pub fn choose_random_unvisited_direction(pair: Pair, visited: &Board<VisitStatus>) -> (r:
        Option<Direction>)
        requires
            i32::MIN + 2 <= pair.row <= i32::MAX - 2,
            i32::MIN + 2 <= pair.col <= i32::MAX - 2,
        ensures
            r is Some <==> exists|d: Direction| unvisited_candidate(*visited, pair, d),
            r matches Some(d) ==> unvisited_candidate(*visited, pair, d),
    {
        let direction_choices = Self::get_unvisited_directions(pair, visited);
        if direction_choices.len() == 0 {
            proof {
                assert forall|d: Direction| !unvisited_candidate(*visited, pair, d) by {
                    assert(!direction_choices@.contains(d));
                }
            }
            None
        } else {
            let picked = direction_choices[random_below(direction_choices.len())];
            proof {
                assert(direction_choices@.contains(picked));
            }
            Some(picked)
        }
    }

    /// Uses a backtracking algorithm to randomly generate a maze: an entry is
    /// cut on the perimeter, a depth-first walk carves every cell, and an
    /// exit is cut on the perimeter.  Fails exactly on a degenerate grid with
    /// no cells on some axis; the finished maze is a spanning tree of the
    /// cells: every cell is carved, reachable from the seed, and the walls
    /// removed number one less than the cells.
    pub fn from_backtracking(height: usize, width: usize) -> (r: Option<Maze>)
        requires
            height <= MAX_CELL_EXTENT,
            width <= MAX_CELL_EXTENT,
        ensures
            r is Some <==> (height > 0 && width > 0),
            r matches Some(m) ==> ({
                let g = m.board@;
                &&& m.board.well_formed()
                &&& m.board.cell_height == height
                &&& m.board.cell_width == width
                &&& entries_on_border(g)
                &&& (forall|i: int, j: int| cell_center(g, i, j) ==> g[i][j] == Tile::Path)
                &&& carved_between_set(g).finite()
                &&& carved_between_set(g).len() == height * width - 1
                &&& exists|seed: (int, int)|
                    cell_center(g, seed.0, seed.1) && (forall|c: (int, int)|
                        cell_center(g, c.0, c.1) ==> carved_reachable(g, seed, c))
            }),
    {
        let mut board = Board::<Tile>::new(height, width);
        let mut visited = Board::<VisitStatus>::new(height, width);
        proof {
            assert forall|i: int, j: int|
                0 <= i < board@.len() && 0 <= j < board@[i].len() implies board@[i][j]
                == Tile::Wall by {
                assert(call_ensures(Tile::default, (), board@[i][j]));
            }
            assert forall|i: int, j: int|
                0 <= i < visited@.len() && 0 <= j < visited@[i].len() implies visited@[i][j]
                == VisitStatus::Unvisited by {
                assert(call_ensures(VisitStatus::default, (), visited@[i][j]));
            }
        }
        let start = match Self::choose_perimeter_pair(&board) {
            None => {
                return None;
            },
            Some(p) => p,
        };
        let ghost height_i = height as int;
        let ghost width_i = width as int;
        let ghost board0 = board;
        Self::add_maze_entry(start, &mut board);
        proof {
            match first_exit_direction(board0, start) {
                None => {},
                Some(d) => {
                    lemma_entry_target_on_border(board0, start, d, height_i, width_i);
                },
            }
            assert(grid_shape(board@, height_i, width_i));
            assert(entries_on_border(board@));
            assert(forall|i: int, j: int|
                #![trigger board@[i][j]]
                on_grid(board@, i, j) ==> board@[i][j] != Tile::Path);
            assert(cell_center(board@, start.row as int, start.col as int));
        }
        if Self::carve_from(&mut board, &mut visited, start).is_none() {
            return None;
        }
        let end = match Self::choose_perimeter_pair(&board) {
            None => {
                return None;
            },
            Some(p) => p,
        };
        let ghost pre_b = board@;
        let ghost pre_v = visited@;
        if Self::visit_and_mark_as_path(&mut board, &mut visited, end).is_none() {
            return None;
        }
        proof {
            let endpos: (int, int) = (end.row as int, end.col as int);
            assert(pre_b[endpos.0][endpos.1] == Tile::Path);
            assert(pre_b[endpos.0].update(endpos.1, Tile::Path) =~= pre_b[endpos.0]);
            assert(board@ =~= pre_b);
        }
        let ghost mid_board = board;
        let ghost seedpos: (int, int) = (start.row as int, start.col as int);
        Self::add_maze_entry(end, &mut board);
        proof {
            match first_exit_direction(mid_board, end) {
                None => {},
                Some(d) => {
                    lemma_entry_target_on_border(mid_board, end, d, height_i, width_i);
                    let o = Pair::direction_offset(d);
                    let target: (int, int) = (end.row + o.row, end.col + o.col);
                    lemma_entry_preserves_carving(
                        mid_board@,
                        board@,
                        target,
                        seedpos,
                        height_i,
                        width_i,
                    );
                },
            }
            assert(cell_center(board@, seedpos.0, seedpos.1));
        }
        Some(Maze { board })
    }

    /// Runs the depth-first carving walk from the `start` cell until the
    /// stack empties: every cell center is then carved and visited, the
    /// removed walls number one less than the cells, and every cell is
    /// reachable from the start over carved tiles.
    #[verifier::rlimit(60)]
    #[verifier::spinoff_prover]
    fn carve_from(board: &mut Board<Tile>, visited: &mut Board<VisitStatus>, start: Pair) -> (r:
        Option<bool>)
        requires
            old(board).well_formed(),
            old(visited).well_formed(),
            old(visited).cell_height == old(board).cell_height,
            old(visited).cell_width == old(board).cell_width,
            1 <= old(board).cell_height <= MAX_CELL_EXTENT,
            1 <= old(board).cell_width <= MAX_CELL_EXTENT,
            cell_center(old(board)@, start.row as int, start.col as int),
            forall|i: int, j: int|
                #![trigger old(board)@[i][j]]
                on_grid(old(board)@, i, j) ==> old(board)@[i][j] != Tile::Path,
            entries_on_border(old(board)@),
            forall|i: int, j: int|
                #![trigger old(visited)@[i][j]]
                on_grid(old(visited)@, i, j) ==> old(visited)@[i][j] == VisitStatus::Unvisited,
        ensures
            r == Some(true),
            final(board).well_formed(),
            final(visited).well_formed(),
            final(board).cell_height == old(board).cell_height,
            final(board).cell_width == old(board).cell_width,
            final(visited).cell_height == old(board).cell_height,
            final(visited).cell_width == old(board).cell_width,
            boards_synced(final(board)@, final(visited)@),
            visits_shaped(final(visited)@),
            entries_on_border(final(board)@),
            forall|i: int, j: int|
                cell_center(final(board)@, i, j) ==> final(board)@[i][j] == Tile::Path,
            forall|i: int, j: int|
                #![trigger final(board)@[i][j]]
                on_grid(final(board)@, i, j) && on_border(final(board)@, i, j) ==> final(
                    board
                )@[i][j] != Tile::Path,
            carved_between_set(final(board)@).finite(),
            carved_between_set(final(board)@).len() == old(board).cell_height * old(
                board,
            ).cell_width - 1,
            forall|c: (int, int)|
                cell_center(final(board)@, c.0, c.1) ==> carved_reachable(
                    final(board)@,
                    (start.row as int, start.col as int),
                    c,
                ),
    {
        let ghost height = old(board).cell_height as int;
        let ghost width = old(board).cell_width as int;
        let ghost seed: (int, int) = (start.row as int, start.col as int);

        let mut visited_stack: Stack<Pair> = Stack::new();
        visited_stack.push(start);
        let ghost entry_board = board@;
        let ghost entry_visited = visited@;
        if Self::visit_and_mark_as_path(board, visited, start).is_none() {
            return None;
        }
        let ghost mut cells: Set<(int, int)> = Set::empty().insert(seed);
        let ghost mut walls: Set<(int, int)> = Set::empty();
        proof {
            lemma_carve_seeded(
                entry_board,
                board@,
                entry_visited,
                visited@,
                start,
                seed,
                height,
                width,
            );
            assert(visited_stack@ =~= seq![start]);
            assert(1 <= height * width) by (nonlinear_arith)
                requires
                    1 <= height,
                    1 <= width,
            ;
        }

        while !visited_stack.empty()
            invariant
                1 <= height <= MAX_CELL_EXTENT,
                1 <= width <= MAX_CELL_EXTENT,
                board.well_formed(),
                visited.well_formed(),
                board.cell_height as int == height,
                board.cell_width as int == width,
                visited.cell_height as int == height,
                visited.cell_width as int == width,
                boards_synced(board@, visited@),
                visits_shaped(visited@),
                entries_on_border(board@),
                stack_ok(visited@, visited_stack@),
                region_closed_off_stack(visited@, visited_stack@),
                cells_match(visited@, cells),
                walls_match(visited@, walls),
                walls_flanked(cells, walls),
                cells.contains(seed),
                cells.finite(),
                walls.finite(),
                cells.len() == walls.len() + 1,
                cells.len() <= height * width,
                region_reachable(board@, visited@, seed),
            decreases height * width - cells.len(), visited_stack@.len(),
        {
            let popped_pair = match visited_stack.top() {
                Some(p) => p,
                None => {
                    return None;
                },
            };
            let ghost popped: (int, int) = (popped_pair.row as int, popped_pair.col as int);
            proof {
                assert(visited_stack@[visited_stack@.len() - 1] == popped_pair);
                assert(cell_center(visited@, popped.0, popped.1));
                assert(visited@.len() == 2 * height + 1 <= i32::MAX - 2);
                assert(visited@[popped.0].len() == 2 * width + 1 <= i32::MAX - 2);
            }
            let ghost full_stack = visited_stack@;
            let ghost choice_board = *visited;
            match Self::choose_random_unvisited_direction(popped_pair, visited) {
                None => {
                    visited_stack.pop();
                    let ghost pre_b = board@;
                    let ghost pre_v = visited@;
                    if Self::visit_and_mark_as_path(board, visited, popped_pair).is_none() {
                        return None;
                    }
                    proof {
                        assert(pre_b[popped.0][popped.1] == Tile::Path);
                        assert(pre_b[popped.0].update(popped.1, Tile::Path) =~= pre_b[popped.0]);
                        assert(board@ =~= pre_b);
                        assert(pre_v[popped.0].update(popped.1, VisitStatus::Visited)
                            =~= pre_v[popped.0]);
                        assert(visited@ =~= pre_v);
                        assert(board@ == pre_b && visited@ == pre_v);
                        assert forall|d: Direction| !unvisited_candidate_at(
                            visited@,
                            popped_pair,
                            d,
                        ) by {
                            assert(!unvisited_candidate(choice_board, popped_pair, d));
                            assert(choice_board@ == pre_v);
                        }
                        lemma_backtrack_closed(visited@, full_stack, popped_pair);
                        assert(visited_stack@ == full_stack.drop_last());
                        assert(stack_ok(visited@, visited_stack@)) by {
                            assert forall|k: int| 0 <= k < visited_stack@.len() implies cell_center(
                                visited@,
                                (#[trigger] visited_stack@[k]).row as int,
                                visited_stack@[k].col as int,
                            ) && visited@[visited_stack@[k].row as int][visited_stack@[k].col as int]
                                == VisitStatus::Visited by {
                                assert(visited_stack@[k] == full_stack[k]);
                            }
                        }
                    }
                },
                Some(direction) => {
                    proof {
                        assert(unvisited_candidate_at(visited@, popped_pair, direction));
                    }
                    let step = Pair::from(direction).mul(CELL_STEP);
                    let new_pair = popped_pair.add(step);
                    let ghost newpos: (int, int) = (new_pair.row as int, new_pair.col as int);
                    let ghost pre_stack = visited_stack@;
                    let ghost pre_b = board@;
                    let ghost pre_v = visited@;
                    visited_stack.push(new_pair);
                    if Self::visit_and_mark_as_path(board, visited, new_pair).is_none() {
                        return None;
                    }
                    let offset = Pair::from(direction);
                    let in_between_pair = popped_pair.add(offset);
                    let ghost betweenpos: (int, int) = (
                        in_between_pair.row as int,
                        in_between_pair.col as int,
                    );
                    proof {
                        assert(on_grid(pre_v, newpos.0, newpos.1));
                        assert(on_grid(pre_v, betweenpos.0, betweenpos.1));
                        assert(board.in_bounds(in_between_pair));
                        assert(visited.in_bounds(in_between_pair));
                    }
                    let ghost mid_b = board@;
                    let ghost mid_v = visited@;
                    if Self::visit_and_mark_as_path(board, visited, in_between_pair).is_none() {
                        return None;
                    }
                    proof {
                        lemma_two_updates(pre_b, mid_b, board@, newpos, betweenpos, Tile::Path);
                        lemma_two_updates(
                            pre_v,
                            mid_v,
                            visited@,
                            newpos,
                            betweenpos,
                            VisitStatus::Visited,
                        );
                        lemma_advance_positions(
                            pre_v,
                            cells,
                            walls,
                            popped_pair,
                            new_pair,
                            in_between_pair,
                            direction,
                            height,
                            width,
                        );
                        lemma_advance_sync_shape(
                            pre_b,
                            board@,
                            pre_v,
                            visited@,
                            popped,
                            newpos,
                            betweenpos,
                            height,
                            width,
                        );
                        lemma_advance_stack_closed(
                            pre_v,
                            visited@,
                            pre_stack,
                            visited_stack@,
                            new_pair,
                            popped,
                            newpos,
                            betweenpos,
                        );
                        lemma_advance_sets(
                            pre_v,
                            visited@,
                            cells,
                            walls,
                            popped,
                            newpos,
                            betweenpos,
                            height,
                            width,
                        );
                        lemma_advance_reach(
                            pre_b,
                            board@,
                            pre_v,
                            visited@,
                            seed,
                            popped,
                            newpos,
                            betweenpos,
                        );
                        cells = cells.insert(newpos);
                        walls = walls.insert(betweenpos);
                    }
                },
            }
        }
        proof {
            lemma_carve_finished(
                board@,
                visited@,
                visited_stack@,
                cells,
                walls,
                seed,
                height,
                width,
            );
        }
        Some(true)
    }
}

/// Generates a maze with the given numbers of cell rows and columns: the
/// single entry point for embedding code.  Fails exactly on a degenerate
/// grid with no cells on some axis; on success the maze is a spanning tree
/// of the cells.
pub fn generate_maze(height: usize, width: usize) -> (r: Option<Maze>)
    requires
        height <= MAX_CELL_EXTENT,
        width <= MAX_CELL_EXTENT,
    ensures
        r is Some <==> (height > 0 && width > 0),
        r matches Some(m) ==> ({
            let g = m.board@;
            &&& m.board.well_formed()
            &&& m.board.cell_height == height
            &&& m.board.cell_width == width
            &&& entries_on_border(g)
            &&& (forall|i: int, j: int| cell_center(g, i, j) ==> g[i][j] == Tile::Path)
            &&& carved_between_set(g).finite()
            &&& carved_between_set(g).len() == height * width - 1
            &&& exists|seed: (int, int)|
                cell_center(g, seed.0, seed.1) && (forall|c: (int, int)|
                    cell_center(g, c.0, c.1) ==> carved_reachable(g, seed, c))
        }),
{
    Maze::from_backtracking(height, width)
}

} // verus!
