//! A reindeer maze: a step costs one point, a quarter turn on the spot a
//! thousand. The search finds the least cost of a route from the start,
//! heading right, to the end, and the tiles that lie on routes of that
//! cost: the costs of all states are lowered along the moves until no move
//! lowers one, and the states on cheapest routes are marked backwards from
//! the end.

use vstd::prelude::*;
use crate::grid_walk::{
    cell_count, empty_table, entry, get_entry, in_grid, lemma_table_known_bound, lemma_table_none,
    lemma_table_set_measures, set_entry, table_known, table_set, table_shape, table_total, Arena,
};

use crate::text::{all_lines, byte_grid, grid_view, last_before, lines_of, rows_of};

verus! {

/// A heading in the maze.
#[derive(Clone, Copy, PartialEq, Eq, Hash, Structural)]
pub enum Direction {
    Left,
    Right,
    Up,
    Down,
}

/// The cell one step from `cell` in the direction.
pub open spec fn step_from(dir: Direction, cell: (int, int)) -> (int, int) {
    match dir {
        Direction::Left => (cell.0, cell.1 - 1),
        Direction::Right => (cell.0, cell.1 + 1),
        Direction::Up => (cell.0 - 1, cell.1),
        Direction::Down => (cell.0 + 1, cell.1),
    }
}

/// The heading after a quarter turn to the right.
pub open spec fn right_of(dir: Direction) -> Direction {
    match dir {
        Direction::Left => Direction::Up,
        Direction::Right => Direction::Down,
        Direction::Up => Direction::Right,
        Direction::Down => Direction::Left,
    }
}

/// The heading after a quarter turn to the left.
pub open spec fn left_of(dir: Direction) -> Direction {
    match dir {
        Direction::Left => Direction::Down,
        Direction::Right => Direction::Up,
        Direction::Up => Direction::Left,
        Direction::Down => Direction::Right,
    }
}

impl Direction {
    /// The cell one step further; the step must not leave the grid upwards
    /// or to the left, nor overflow.
    pub fn apply(self, row: usize, col: usize) -> (next: (usize, usize))
        requires
            0 < row < usize::MAX,
            0 < col < usize::MAX,
        ensures
            (next.0 as int, next.1 as int) == step_from(self, (row as int, col as int)),
    {
        match self {
            Self::Left => (row, col - 1),
            Self::Right => (row, col + 1),
            Self::Up => (row - 1, col),
            Self::Down => (row + 1, col),
        }
    }

    /// A quarter turn to the right.
    pub fn turn_right(self) -> (turned: Self)
        ensures
            turned == right_of(self),
    {
        match self {
            Self::Left => Self::Up,
            Self::Right => Self::Down,
            Self::Up => Self::Right,
            Self::Down => Self::Left,
        }
    }

    /// A quarter turn to the left.
    pub fn turn_left(self) -> (turned: Self)
        ensures
            turned == left_of(self),
    {
        match self {
            Self::Left => Self::Down,
            Self::Right => Self::Up,
            Self::Up => Self::Left,
            Self::Down => Self::Right,
        }
    }
}

pub const COST_TURN: u64 = 1000;

pub const COST_STEP: u64 = 1;

/// Where a reindeer stands and how it is heading.
pub type State = ((int, int), Direction);

/// What a move costs: 1 for a step, 1000 for a quarter turn on the spot.
pub open spec fn move_cost(from: Direction, to: Direction) -> int {
    if from == to {
        1
    } else {
        1000
    }
}

/// The grid is a rectangle with walls all around.
pub open spec fn enclosed(walls: Seq<Vec<bool>>) -> bool {
    &&& walls.len() >= 3
    &&& walls[0].len() >= 3
    &&& forall|r: int| 0 <= r < walls.len() ==> (#[trigger] walls[r]).len() == walls[0].len()
    &&& forall|r: int, c: int|
        0 <= r < walls.len() && 0 <= c < walls[0].len() && (r == 0 || c == 0 || r == walls.len() - 1
            || c == walls[0].len() - 1) ==> #[trigger] walls[r]@[c]
}

/// The tile lies in the grid, off its edge.
pub open spec fn inside(walls: Seq<Vec<bool>>, cell: (int, int)) -> bool {
    0 < cell.0 < walls.len() - 1 && 0 < cell.1 < walls[0].len() - 1
}

/// The tile lies in the grid and is no wall.
pub open spec fn open_tile(walls: Seq<Vec<bool>>, cell: (int, int)) -> bool {
    0 <= cell.0 < walls.len() && 0 <= cell.1 < walls[0].len() && !walls[cell.0]@[cell.1]
}

/// The maze is a rectangle with walls all around, the start lies inside, and
/// the cost of a route that comes to every tile with every heading fits 64
/// bits.
pub open spec fn maze_valid(walls: Seq<Vec<bool>>, start: (int, int)) -> bool {
    &&& enclosed(walls)
    &&& inside(walls, start)
    &&& 4 * walls[0].len() <= usize::MAX
    &&& 4004 * (walls.len() * walls[0].len() + 1) <= u64::MAX
}

/// One move: a step ahead onto a tile that is no wall, or a quarter turn on
/// the spot.
pub open spec fn move_ok(walls: Seq<Vec<bool>>, from: State, to: State) -> bool {
    ||| (to.1 == from.1 && to.0 == step_from(from.1, from.0) && open_tile(walls, to.0))
    ||| (to.0 == from.0 && (to.1 == right_of(from.1) || to.1 == left_of(from.1)))
}

/// A walk: every state follows from the one before it by one move.
pub open spec fn is_walk(walls: Seq<Vec<bool>>, walk: Seq<State>) -> bool {
    &&& walk.len() > 0
    &&& forall|i: int| 0 < i < walk.len() ==> move_ok(walls, walk[i - 1], #[trigger] walk[i])
}

/// A route: a walk that begins at the start, heading right.
pub open spec fn is_route(walls: Seq<Vec<bool>>, start: (int, int), route: Seq<State>) -> bool {
    is_walk(walls, route) && route[0] == (start, Direction::Right)
}

/// The cost of a walk.
pub open spec fn route_cost(route: Seq<State>) -> int
    decreases route.len(),
{
    if route.len() <= 1 {
        0
    } else {
        route_cost(route.drop_last()) + move_cost(route[route.len() - 2].1, route.last().1)
    }
}

/// Some route of this cost leads to the cell.
pub open spec fn route_to(walls: Seq<Vec<bool>>, start: (int, int), cell: (int, int), cost: int) -> bool {
    exists|route: Seq<State>|
        #[trigger] is_route(walls, start, route) && route.last().0 == cell && route_cost(route)
            == cost
}

/// Some route of this cost to the end leads over the tile.
pub open spec fn on_route_to(
    walls: Seq<Vec<bool>>,
    start: (int, int),
    end: (int, int),
    cost: int,
    tile: (int, int),
) -> bool {
    exists|route: Seq<State>, at: int|
        #[trigger] is_route(walls, start, route) && route.last().0 == end && route_cost(route)
            == cost && 0 <= at < route.len() && #[trigger] route[at].0 == tile
}

/// Some route of this cost leads to the state.
pub open spec fn reaches(walls: Seq<Vec<bool>>, start: (int, int), state: State, cost: int) -> bool {
    exists|route: Seq<State>|
        #[trigger] is_route(walls, start, route) && route.last() == state && route_cost(route)
            == cost
}

/// Some walk of this cost leads from the state to the end.
pub open spec fn leads(walls: Seq<Vec<bool>>, state: State, end: (int, int), cost: int) -> bool {
    exists|walk: Seq<State>|
        #[trigger] is_walk(walls, walk) && walk[0] == state && walk.last().0 == end && route_cost(
            walk,
        ) == cost
}

/// The number of a heading.
pub open spec fn heading(dir: Direction) -> int {
    match dir {
        Direction::Left => 0,
        Direction::Right => 1,
        Direction::Up => 2,
        Direction::Down => 3,
    }
}

/// The place of a state in a table with four columns for each tile.
pub open spec fn slot(state: State) -> (int, int) {
    (state.0.0, 4 * state.0.1 + heading(state.1))
}

/// The grid with four columns for each tile.
pub open spec fn wide(walls: Seq<Vec<bool>>) -> Arena {
    Arena { rows: walls.len() as int, cols: 4 * walls[0].len(), start: (0, 0), end: (0, 0) }
}

/// The grid of the tiles.
pub open spec fn maze_arena(walls: Seq<Vec<bool>>, start: (int, int), end: (int, int)) -> Arena {
    Arena { rows: walls.len() as int, cols: walls[0].len() as int, start, end }
}

/// What a table holds for a state.
pub open spec fn cost_at(table: Seq<Vec<Option<u64>>>, state: State) -> Option<u64> {
    entry(table, slot(state))
}

/// The tile of the state lies in the grid.
pub open spec fn in_maze(walls: Seq<Vec<bool>>, state: State) -> bool {
    0 <= state.0.0 < walls.len() && 0 <= state.0.1 < walls[0].len()
}

/// Every cost of the table is that of a route to its state, the state lies
/// inside, and no cost is more than 1000 for each state that has one.
#[verifier::opaque]
pub open spec fn sound(walls: Seq<Vec<bool>>, start: (int, int), table: Seq<Vec<Option<u64>>>) -> bool {
    forall|state: State|
        in_maze(walls, state) ==> (#[trigger] cost_at(table, state) matches Some(cost) ==> inside(
            walls,
            state.0,
        ) && reaches(walls, start, state, cost as int) && cost <= 1000 * table_known(table))
}

/// The search stands well: the table has its shape and is sound.
pub open spec fn searching(walls: Seq<Vec<bool>>, start: (int, int), table: Seq<Vec<Option<u64>>>) -> bool {
    table_shape(table, wide(walls)) && sound(walls, start, table)
}

/// No move from the state leads to a state that the table knows no cost
/// for, or a higher cost than by this move.
pub open spec fn closed_at(walls: Seq<Vec<bool>>, table: Seq<Vec<Option<u64>>>, state: State) -> bool {
    cost_at(table, state) matches Some(cost) ==> forall|to: State| #[trigger]
        move_ok(walls, state, to) ==> (cost_at(table, to) matches Some(known) && known <= cost
            + move_cost(state.1, to.1))
}

/// The state comes before the place `(row, col, k)`, row by row, tile by
/// tile, heading by heading.
pub open spec fn state_before(state: State, row: int, col: int, k: int) -> bool {
    state.0.0 < row || (state.0.0 == row && (state.0.1 < col || (state.0.1 == col && heading(
        state.1,
    ) < k)))
}

/// The table is closed at every state before the place.
#[verifier::opaque]
pub open spec fn closed_upto(
    walls: Seq<Vec<bool>>,
    table: Seq<Vec<Option<u64>>>,
    row: int,
    col: int,
    k: int,
) -> bool {
    forall|state: State|
        in_maze(walls, state) && state_before(state, row, col, k) ==> #[trigger] closed_at(
            walls,
            table,
            state,
        )
}

/// The second table has more costs than the first, or as many and a lower
/// or equal sum.
pub open spec fn no_worse(after: Seq<Vec<Option<u64>>>, before: Seq<Vec<Option<u64>>>) -> bool {
    table_known(after) > table_known(before) || (table_known(after) == table_known(before)
        && table_total(after) <= table_total(before))
}

/// The second table has more costs than the first, or as many and a lower
/// sum.
pub open spec fn better(after: Seq<Vec<Option<u64>>>, before: Seq<Vec<Option<u64>>>) -> bool {
    table_known(after) > table_known(before) || (table_known(after) == table_known(before)
        && table_total(after) < table_total(before))
}

/// A route stays inside the maze.
pub proof fn lemma_route_inside(walls: Seq<Vec<bool>>, start: (int, int), route: Seq<State>, at: int)
    requires
        maze_valid(walls, start),
        is_route(walls, start, route),
        0 <= at < route.len(),
    ensures
        inside(walls, route[at].0),
    decreases at,
{
    if at > 0 {
        lemma_route_inside(walls, start, route, at - 1);
        assert(move_ok(walls, route[at - 1], route[at]));
    }
}

/// A move lengthens a route by its cost.
pub proof fn lemma_route_extend(
    walls: Seq<Vec<bool>>,
    start: (int, int),
    from: State,
    to: State,
    cost: int,
)
    requires
        reaches(walls, start, from, cost),
        move_ok(walls, from, to),
    ensures
        reaches(walls, start, to, cost + move_cost(from.1, to.1)),
{
    let route = choose|route: Seq<State>|
        #[trigger] is_route(walls, start, route) && route.last() == from && route_cost(route)
            == cost;
    let longer = route.push(to);
    assert(longer.drop_last() =~= route);
    assert forall|i: int| 0 < i < longer.len() implies move_ok(
        walls,
        longer[i - 1],
        #[trigger] longer[i],
    ) by {
        if i < route.len() {
            assert(move_ok(walls, route[i - 1], route[i]));
        }
    }
    assert(is_route(walls, start, longer));
}

/// Two walks of which the second begins where the first ends make one walk,
/// and its cost is the sum of theirs.
pub proof fn lemma_walk_join(walls: Seq<Vec<bool>>, first: Seq<State>, second: Seq<State>)
    requires
        is_walk(walls, first),
        is_walk(walls, second),
        first.last() == second[0],
    ensures
        is_walk(walls, first + second.drop_first()),
        route_cost(first + second.drop_first()) == route_cost(first) + route_cost(second),
        (first + second.drop_first())[0] == first[0],
        (first + second.drop_first()).last() == second.last(),
    decreases second.len(),
{
    let whole = first + second.drop_first();
    if second.len() == 1 {
        assert(whole =~= first);
    } else {
        let shorter = second.drop_last();
        assert forall|i: int| 0 < i < shorter.len() implies move_ok(
            walls,
            shorter[i - 1],
            #[trigger] shorter[i],
        ) by {
            assert(move_ok(walls, second[i - 1], second[i]));
        }
        lemma_walk_join(walls, first, shorter);
        let before = first + shorter.drop_first();
        assert(whole.drop_last() =~= before);
        assert(whole.last() == second.last());
        assert(whole[whole.len() - 2] == second[second.len() - 2]) by {
            if second.len() == 2 {
                assert(whole[whole.len() - 2] == first.last());
            } else {
                assert(whole[whole.len() - 2] == second.drop_first()[second.len() - 3]);
            }
        }
        assert forall|i: int| 0 < i < whole.len() implies move_ok(
            walls,
            whole[i - 1],
            #[trigger] whole[i],
        ) by {
            if i < whole.len() - 1 {
                assert(move_ok(walls, before[i - 1], before[i]));
            } else {
                assert(move_ok(walls, second[second.len() - 2], second[second.len() - 1]));
            }
        }
    }
}

/// A table that is closed everywhere and knows the start at no cost knows
/// the end of every route at no more than the cost of the route.
pub proof fn lemma_exact(
    walls: Seq<Vec<bool>>,
    start: (int, int),
    table: Seq<Vec<Option<u64>>>,
    route: Seq<State>,
)
    requires
        maze_valid(walls, start),
        closed_upto(walls, table, walls.len() as int, 0, 0),
        cost_at(table, (start, Direction::Right)) == Some(0u64),
        is_route(walls, start, route),
    ensures
        cost_at(table, route.last()) matches Some(known) && known <= route_cost(route),
    decreases route.len(),
{
    reveal(closed_upto);
    if route.len() > 1 {
        let shorter = route.drop_last();
        assert forall|i: int| 0 < i < shorter.len() implies move_ok(
            walls,
            shorter[i - 1],
            #[trigger] shorter[i],
        ) by {
            assert(move_ok(walls, route[i - 1], route[i]));
        }
        lemma_exact(walls, start, table, shorter);
        lemma_route_inside(walls, start, route, route.len() - 2);
        let from = shorter.last();
        assert(from == route[route.len() - 2]);
        assert(state_before(from, walls.len() as int, 0, 0));
        assert(closed_at(walls, table, from));
        assert(move_ok(walls, route[route.len() - 2], route[route.len() - 1]));
    }
}

/// The number of a heading.
fn heading_of(dir: Direction) -> (k: usize)
    ensures
        k == heading(dir),
        k < 4,
{
    match dir {
        Direction::Left => 0,
        Direction::Right => 1,
        Direction::Up => 2,
        Direction::Down => 3,
    }
}

/// The heading of a number.
fn nth_heading(k: usize) -> (dir: Direction)
    requires
        k < 4,
    ensures
        heading(dir) == k,
{
    if k == 0 {
        Direction::Left
    } else if k == 1 {
        Direction::Right
    } else if k == 2 {
        Direction::Up
    } else {
        Direction::Down
    }
}

/// Puts a cost into the table where the table holds none or a higher one.
fn improve(table: &mut Vec<Vec<Option<u64>>>, row: usize, col: usize, cost: u64) -> (moved: bool)
    requires
        row < old(table)@.len(),
        col < old(table)@[row as int].len(),
    ensures
        moved == !(entry(old(table)@, (row as int, col as int)) matches Some(known) && known
            <= cost),
        moved ==> table_set(old(table)@, final(table)@, (row as int, col as int), cost),
        !moved ==> final(table)@ == old(table)@,
{
    match get_entry(table, row, col) {
        Some(known) => {
            if known <= cost {
                return false;
            }
        },
        None => {},
    }
    set_entry(table, row, col, cost);
    true
}

/// No cost of a sound table comes near the end of 64 bits.
pub proof fn lemma_cost_cap(
    walls: Seq<Vec<bool>>,
    start: (int, int),
    table: Seq<Vec<Option<u64>>>,
    state: State,
)
    requires
        maze_valid(walls, start),
        searching(walls, start, table),
        in_maze(walls, state),
        cost_at(table, state) is Some,
    ensures
        cost_at(table, state)->0 + 1000 < u64::MAX,
        inside(walls, state.0),
{
    reveal(sound);
    reveal(cell_count);
    lemma_table_known_bound(table, wide(walls));
    let known = table_known(table) as int;
    let rows = walls.len() as int;
    let cols = walls[0].len() as int;
    assert(known <= rows * (4 * cols));
    assert(1000 * known + 1000 < 4004 * (rows * cols + 1)) by (nonlinear_arith)
        requires
            0 <= known <= rows * (4 * cols),
            rows >= 0,
            cols >= 0,
    ;
}

/// A lower cost found by a move keeps the table sound and makes it better.
pub proof fn lemma_improved(
    walls: Seq<Vec<bool>>,
    start: (int, int),
    before: Seq<Vec<Option<u64>>>,
    after: Seq<Vec<Option<u64>>>,
    from: State,
    to: State,
    cost: u64,
)
    requires
        maze_valid(walls, start),
        searching(walls, start, before),
        in_maze(walls, from),
        cost_at(before, from) matches Some(known) && cost == known + move_cost(from.1, to.1),
        move_ok(walls, from, to),
        !(cost_at(before, to) matches Some(held) && held <= cost),
        table_set(before, after, slot(to), cost),
    ensures
        searching(walls, start, after),
        better(after, before),
        in_maze(walls, to),
        forall|state: State|
            in_maze(walls, state) && state != to ==> #[trigger] cost_at(after, state) == cost_at(
                before,
                state,
            ),
        cost_at(after, to) == Some(cost),
{
    reveal(sound);
    assert(inside(walls, from.0));
    assert(inside(walls, to.0)) by {
        if to.0 != from.0 {
            assert(open_tile(walls, to.0));
            assert(!walls[to.0.0]@[to.0.1]);
        }
    }
    assert(in_grid(wide(walls), slot(to)));
    lemma_table_set_measures(before, after, wide(walls), slot(to), cost);
    lemma_route_extend(walls, start, from, to, cost_at(before, from)->0 as int);
    assert forall|state: State| in_maze(walls, state) && state != to implies #[trigger] cost_at(
        after,
        state,
    ) == cost_at(before, state) by {
        assert(slot(state) != slot(to));
        if slot(state).0 != slot(to).0 {
            assert(after[slot(state).0] == before[slot(state).0]);
        }
    }
    assert forall|state: State| in_maze(walls, state) implies (#[trigger] cost_at(after, state) matches Some(
        held,
    ) ==> inside(walls, state.0) && reaches(walls, start, state, held as int) && held <= 1000
        * table_known(after)) by {
        if state != to {
            assert(cost_at(after, state) == cost_at(before, state));
        }
    }
}

/// The table is closed further as the place moves on.
pub proof fn lemma_closed_next(
    walls: Seq<Vec<bool>>,
    table: Seq<Vec<Option<u64>>>,
    row: int,
    col: int,
    k: int,
)
    requires
        closed_upto(walls, table, row, col, k),
        0 <= k <= 4,
        0 <= col <= walls[0].len(),
        k < 4 && col < walls[0].len() ==> forall|dir: Direction|
            #[trigger] heading(dir) == k ==> closed_at(walls, table, ((row, col), dir)),
    ensures
        k < 4 && col < walls[0].len() ==> closed_upto(walls, table, row, col, k + 1),
        k == 4 ==> closed_upto(walls, table, row, col + 1, 0),
        col == walls[0].len() ==> closed_upto(walls, table, row + 1, 0, 0),
{
    reveal(closed_upto);
    if k < 4 && col < walls[0].len() {
        assert forall|state: State|
            in_maze(walls, state) && state_before(state, row, col, k + 1) implies #[trigger] closed_at(
            walls,
            table,
            state,
        ) by {
            if !state_before(state, row, col, k) {
                assert(state == ((row, col), state.1));
            }
        }
    }
}

/// The search begins with a table that knows the start at no cost, and
/// nothing else.
pub proof fn lemma_search_starts(
    walls: Seq<Vec<bool>>,
    start: (int, int),
    blank: Seq<Vec<Option<u64>>>,
    table: Seq<Vec<Option<u64>>>,
)
    requires
        maze_valid(walls, start),
        table_shape(blank, wide(walls)),
        forall|r: int, c: int|
            0 <= r < walls.len() && 0 <= c < 4 * walls[0].len() ==> (#[trigger] blank[r]@[c])
                is None,
        table_set(blank, table, slot((start, Direction::Right)), 0),
    ensures
        searching(walls, start, table),
        cost_at(table, (start, Direction::Right)) == Some(0u64),
{
    reveal(sound);
    let first: State = (start, Direction::Right);
    lemma_table_none(blank, wide(walls));
    assert(in_grid(wide(walls), slot(first)));
    lemma_table_set_measures(blank, table, wide(walls), slot(first), 0);
    let route = seq![first];
    assert(is_route(walls, start, route));
    assert(reaches(walls, start, first, 0));
    assert forall|state: State| in_maze(walls, state) implies (#[trigger] cost_at(table, state) matches Some(
        held,
    ) ==> inside(walls, state.0) && reaches(walls, start, state, held as int) && held <= 1000
        * table_known(table)) by {
        if state != first {
            assert(slot(state) != slot(first));
            if slot(state).0 != slot(first).0 {
                assert(table[slot(state).0] == blank[slot(state).0]);
            }
            assert(cost_at(table, state) is None);
        }
    }
}

/// Looks at the moves from one state and lowers the costs of the states that
/// they lead to.
fn relax_state(
    walls: &Vec<Vec<bool>>,
    table: &mut Vec<Vec<Option<u64>>>,
    row: usize,
    col: usize,
    k: usize,
    Ghost(start): Ghost<(int, int)>,
) -> (moved: bool)
    requires
        maze_valid(walls@, start),
        searching(walls@, start, old(table)@),
        cost_at(old(table)@, (start, Direction::Right)) == Some(0u64),
        row < walls@.len(),
        col < walls@[0].len(),
        k < 4,
    ensures
        searching(walls@, start, final(table)@),
        cost_at(final(table)@, (start, Direction::Right)) == Some(0u64),
        no_worse(final(table)@, old(table)@),
        moved ==> better(final(table)@, old(table)@),
        !moved ==> final(table)@ == old(table)@ && forall|dir: Direction|
            #[trigger] heading(dir) == k ==> closed_at(
                walls@,
                final(table)@,
                ((row as int, col as int), dir),
            ),
{
    let dir = nth_heading(k);
    let ghost from: State = ((row as int, col as int), dir);
    let ghost given = table@;
    assert(table@[row as int].len() == 4 * walls@[0].len());
    let cost = match get_entry(table, row, 4 * col + k) {
        Some(cost) => cost,
        None => {
            assert forall|other: Direction| #[trigger] heading(other) == k implies closed_at(
                walls@,
                table@,
                ((row as int, col as int), other),
            ) by {
                assert(other == dir);
            }
            return false;
        },
    };
    proof {
        assert(cost_at(table@, from) == Some(cost));
        lemma_cost_cap(walls@, start, table@, from);
        assert(inside(walls@, from.0));
        assert(0 < row < walls@.len() - 1 && 0 < col < walls@[0].len() - 1);
        assert(walls@[row as int].len() == walls@[0].len());
    }
    let mut moved = false;
    let num_rows = walls.len();
    let num_cols = walls[0].len();
    assert(row < num_rows && col < num_cols);
    let (n_row, n_col) = dir.apply(row, col);
    assert(walls@[n_row as int].len() == walls@[0].len());
    if !walls[n_row][n_col] {
        let ghost to: State = ((n_row as int, n_col as int), dir);
        let ghost before = table@;
        assert(table@[n_row as int].len() == 4 * walls@[0].len());
        if improve(table, n_row, 4 * n_col + k, cost + COST_STEP) {
            proof {
                lemma_improved(walls@, start, before, table@, from, to, (cost + 1) as u64);
            }
            moved = true;
        }
    }
    let right = dir.turn_right();
    let ghost middle = table@;
    proof {
        assert(table@[row as int].len() == 4 * walls@[0].len());
    }
    if improve(table, row, 4 * col + heading_of(right), cost + COST_TURN) {
        proof {
            lemma_improved(
                walls@,
                start,
                middle,
                table@,
                from,
                ((row as int, col as int), right),
                (cost + 1000) as u64,
            );
        }
        moved = true;
    }
    let left = dir.turn_left();
    let ghost late = table@;
    proof {
        assert(table@[row as int].len() == 4 * walls@[0].len());
    }
    if improve(table, row, 4 * col + heading_of(left), cost + COST_TURN) {
        proof {
            lemma_improved(
                walls@,
                start,
                late,
                table@,
                from,
                ((row as int, col as int), left),
                (cost + 1000) as u64,
            );
        }
        moved = true;
    }
    proof {
        if !moved {
            assert forall|other: Direction| #[trigger] heading(other) == k implies closed_at(
                walls@,
                table@,
                ((row as int, col as int), other),
            ) by {
                assert(other == dir);
                assert forall|to: State| #[trigger] move_ok(walls@, from, to) implies (cost_at(
                    table@,
                    to,
                ) matches Some(known) && known <= cost + move_cost(from.1, to.1)) by {
                    if to.0 != from.0 {
                        assert(to == ((n_row as int, n_col as int), dir));
                    } else if to.1 == right_of(dir) {
                        assert(to == ((row as int, col as int), right));
                    } else {
                        assert(to == ((row as int, col as int), left));
                    }
                }
            }
        }
    }
    moved
}

/// Looks once at every state and lowers costs where moves allow it.
fn relax_pass(
    walls: &Vec<Vec<bool>>,
    table: &mut Vec<Vec<Option<u64>>>,
    Ghost(start): Ghost<(int, int)>,
) -> (changed: bool)
    requires
        maze_valid(walls@, start),
        searching(walls@, start, old(table)@),
        cost_at(old(table)@, (start, Direction::Right)) == Some(0u64),
    ensures
        searching(walls@, start, final(table)@),
        cost_at(final(table)@, (start, Direction::Right)) == Some(0u64),
        no_worse(final(table)@, old(table)@),
        changed ==> better(final(table)@, old(table)@),
        !changed ==> final(table)@ == old(table)@ && closed_upto(
            walls@,
            final(table)@,
            walls@.len() as int,
            0,
            0,
        ),
{
    let ghost given = table@;
    let num_rows = walls.len();
    let num_cols = walls[0].len();
    let mut changed = false;
    let mut row: usize = 0;
    proof {
        reveal(closed_upto);
    }
    while row < num_rows
        invariant
            row <= num_rows,
            num_rows == walls@.len(),
            num_cols == walls@[0].len(),
            given == old(table)@,
            maze_valid(walls@, start),
            searching(walls@, start, table@),
            cost_at(table@, (start, Direction::Right)) == Some(0u64),
            no_worse(table@, given),
            changed ==> better(table@, given),
            !changed ==> table@ == given && closed_upto(walls@, table@, row as int, 0, 0),
        decreases num_rows - row,
    {
        let mut col: usize = 0;
        while col < num_cols
            invariant
                row < num_rows,
                col <= num_cols,
                num_rows == walls@.len(),
                num_cols == walls@[0].len(),
                given == old(table)@,
                maze_valid(walls@, start),
                searching(walls@, start, table@),
                cost_at(table@, (start, Direction::Right)) == Some(0u64),
                no_worse(table@, given),
                changed ==> better(table@, given),
                !changed ==> table@ == given && closed_upto(
                    walls@,
                    table@,
                    row as int,
                    col as int,
                    0,
                ),
            decreases num_cols - col,
        {
            let mut k: usize = 0;
            while k < 4
                invariant
                    row < num_rows,
                    col < num_cols,
                    k <= 4,
                    num_rows == walls@.len(),
                    num_cols == walls@[0].len(),
                    given == old(table)@,
                    maze_valid(walls@, start),
                    searching(walls@, start, table@),
                    cost_at(table@, (start, Direction::Right)) == Some(0u64),
                    no_worse(table@, given),
                    changed ==> better(table@, given),
                    !changed ==> table@ == given && closed_upto(
                        walls@,
                        table@,
                        row as int,
                        col as int,
                        k as int,
                    ),
                decreases 4 - k,
            {
                let moved = relax_state(walls, table, row, col, k, Ghost(start));
                if moved {
                    changed = true;
                }
                proof {
                    if !changed {
                        lemma_closed_next(walls@, table@, row as int, col as int, k as int);
                    }
                }
                k += 1;
            }
            proof {
                if !changed {
                    lemma_closed_next(walls@, table@, row as int, col as int, 4);
                }
            }
            col += 1;
        }
        proof {
            if !changed {
                lemma_closed_next(walls@, table@, row as int, num_cols as int, 0);
            }
        }
        row += 1;
    }
    changed
}

/// The least cost of a route from the start, heading right, to every state:
/// the costs are lowered along the moves until no move lowers one.
fn cheapest(walls: &Vec<Vec<bool>>, start_row: usize, start_col: usize) -> (table: Vec<
    Vec<Option<u64>>,
>)
    requires
        maze_valid(walls@, (start_row as int, start_col as int)),
    ensures
        searching(walls@, (start_row as int, start_col as int), table@),
        cost_at(table@, ((start_row as int, start_col as int), Direction::Right)) == Some(0u64),
        closed_upto(walls@, table@, walls@.len() as int, 0, 0),
{
    let ghost start = (start_row as int, start_col as int);
    let ghost first: State = (start, Direction::Right);
    let mut table = empty_table(walls.len(), 4 * walls[0].len());
    let ghost blank = table@;
    set_entry(&mut table, start_row, 4 * start_col + 1, 0);
    proof {
        lemma_search_starts(walls@, start, blank, table@);
        lemma_table_known_bound(table@, wide(walls@));
    }
    let mut changed = true;
    while changed
        invariant
            maze_valid(walls@, start),
            searching(walls@, start, table@),
            cost_at(table@, first) == Some(0u64),
            first == (start, Direction::Right),
            table_known(table@) <= cell_count(wide(walls@)),
            !changed ==> closed_upto(walls@, table@, walls@.len() as int, 0, 0),
        decreases
                cell_count(wide(walls@)) - table_known(table@),
                table_total(table@),
                (if changed { 1int } else { 0int }),
    {
        changed = relax_pass(walls, &mut table, Ghost(start));
        proof {
            lemma_table_known_bound(table@, wide(walls@));
        }
    }
    table
}

/// The move from the one state to the other is on a cheapest route: the
/// costs of the two states differ by the cost of the move.
pub open spec fn tight(walls: Seq<Vec<bool>>, dist: Seq<Vec<Option<u64>>>, from: State, to: State) -> bool {
    &&& move_ok(walls, from, to)
    &&& cost_at(dist, from) is Some
    &&& cost_at(dist, to) is Some
    &&& cost_at(dist, from)->0 + move_cost(from.1, to.1) == cost_at(dist, to)->0
}

/// `best` is the least cost that the table knows for the end with any
/// heading.
pub open spec fn best_at(dist: Seq<Vec<Option<u64>>>, end: (int, int), best: u64) -> bool {
    &&& exists|dir: Direction| #[trigger] cost_at(dist, (end, dir)) == Some(best)
    &&& forall|dir: Direction| #[trigger]
        cost_at(dist, (end, dir)) matches Some(known) ==> best <= known
}

/// From every marked state a walk leads to the end that makes a cheapest
/// route of the route to the state.
#[verifier::opaque]
pub open spec fn marks_sound(
    walls: Seq<Vec<bool>>,
    dist: Seq<Vec<Option<u64>>>,
    end: (int, int),
    best: int,
    marks: Seq<Vec<Option<u64>>>,
) -> bool {
    forall|state: State|
        in_maze(walls, state) && (#[trigger] cost_at(marks, state)) is Some ==> cost_at(dist, state)
            is Some && leads(walls, state, end, best - cost_at(dist, state)->0)
}

/// The end is marked with every heading with which it costs least.
pub open spec fn seeded(dist: Seq<Vec<Option<u64>>>, end: (int, int), best: u64, marks: Seq<Vec<Option<u64>>>) -> bool {
    forall|dir: Direction| #[trigger]
        cost_at(dist, (end, dir)) == Some(best) ==> cost_at(marks, (end, dir)) is Some
}

/// The marking stands well.
pub open spec fn marking(
    walls: Seq<Vec<bool>>,
    dist: Seq<Vec<Option<u64>>>,
    end: (int, int),
    best: u64,
    marks: Seq<Vec<Option<u64>>>,
) -> bool {
    &&& table_shape(marks, wide(walls))
    &&& marks_sound(walls, dist, end, best as int, marks)
    &&& seeded(dist, end, best, marks)
}

/// Every state from which a move on a cheapest route leads to the marked
/// state is marked.
pub open spec fn marks_closed_at(
    walls: Seq<Vec<bool>>,
    dist: Seq<Vec<Option<u64>>>,
    marks: Seq<Vec<Option<u64>>>,
    to: State,
) -> bool {
    cost_at(marks, to) is Some ==> forall|from: State|
        in_maze(walls, from) && #[trigger] tight(walls, dist, from, to) ==> cost_at(marks, from)
            is Some
}

/// The marks are closed at every state before the place.
#[verifier::opaque]
pub open spec fn marks_closed_upto(
    walls: Seq<Vec<bool>>,
    dist: Seq<Vec<Option<u64>>>,
    marks: Seq<Vec<Option<u64>>>,
    row: int,
    col: int,
    k: int,
) -> bool {
    forall|state: State|
        in_maze(walls, state) && state_before(state, row, col, k) ==> #[trigger] marks_closed_at(
            walls,
            dist,
            marks,
            state,
        )
}

/// The marks are closed further as the place moves on.
pub proof fn lemma_marks_next(
    walls: Seq<Vec<bool>>,
    dist: Seq<Vec<Option<u64>>>,
    marks: Seq<Vec<Option<u64>>>,
    row: int,
    col: int,
    k: int,
)
    requires
        marks_closed_upto(walls, dist, marks, row, col, k),
        0 <= k <= 4,
        0 <= col <= walls[0].len(),
        k < 4 && col < walls[0].len() ==> forall|dir: Direction| #[trigger]
            heading(dir) == k ==> marks_closed_at(walls, dist, marks, ((row, col), dir)),
    ensures
        k < 4 && col < walls[0].len() ==> marks_closed_upto(walls, dist, marks, row, col, k + 1),
        k == 4 ==> marks_closed_upto(walls, dist, marks, row, col + 1, 0),
        col == walls[0].len() ==> marks_closed_upto(walls, dist, marks, row + 1, 0, 0),
{
    reveal(marks_closed_upto);
    if k < 4 && col < walls[0].len() {
        assert forall|state: State|
            in_maze(walls, state) && state_before(state, row, col, k + 1) implies #[trigger] marks_closed_at(
            walls,
            dist,
            marks,
            state,
        ) by {
            if !state_before(state, row, col, k) {
                assert(state == ((row, col), state.1));
                assert(heading(state.1) == k);
            }
        }
    }
}

/// A move before a walk to the end makes a walk to the end.
pub proof fn lemma_leads_back(
    walls: Seq<Vec<bool>>,
    from: State,
    to: State,
    end: (int, int),
    cost: int,
)
    requires
        leads(walls, to, end, cost),
        move_ok(walls, from, to),
    ensures
        leads(walls, from, end, cost + move_cost(from.1, to.1)),
{
    let tail = choose|walk: Seq<State>|
        #[trigger] is_walk(walls, walk) && walk[0] == to && walk.last().0 == end && route_cost(
            walk,
        ) == cost;
    let hop = seq![from, to];
    assert(hop.drop_last() =~= seq![from]);
    assert(route_cost(hop) == move_cost(from.1, to.1)) by {
        assert(route_cost(hop.drop_last()) == 0);
    }
    assert(is_walk(walls, hop));
    lemma_walk_join(walls, hop, tail);
    let whole = hop + tail.drop_first();
    assert(is_walk(walls, whole) && whole[0] == from && whole.last().0 == end);
}

/// Marking a state from which a walk of the right cost leads to the end
/// keeps the marks sound.
pub proof fn lemma_mark_set(
    walls: Seq<Vec<bool>>,
    dist: Seq<Vec<Option<u64>>>,
    end: (int, int),
    best: u64,
    before: Seq<Vec<Option<u64>>>,
    after: Seq<Vec<Option<u64>>>,
    marked: State,
)
    requires
        enclosed(walls),
        in_maze(walls, marked),
        table_shape(before, wide(walls)),
        marks_sound(walls, dist, end, best as int, before),
        cost_at(dist, marked) is Some,
        leads(walls, marked, end, best - cost_at(dist, marked)->0),
        table_set(before, after, slot(marked), 0),
    ensures
        table_shape(after, wide(walls)),
        marks_sound(walls, dist, end, best as int, after),
        cost_at(after, marked) is Some,
        table_known(after) == table_known(before) + (if cost_at(before, marked) is None {
            1nat
        } else {
            0nat
        }),
        forall|state: State|
            in_maze(walls, state) && state != marked ==> #[trigger] cost_at(after, state)
                == cost_at(before, state),
{
    reveal(marks_sound);
    assert(in_grid(wide(walls), slot(marked)));
    lemma_table_set_measures(before, after, wide(walls), slot(marked), 0);
    assert forall|state: State| in_maze(walls, state) && state != marked implies #[trigger] cost_at(
        after,
        state,
    ) == cost_at(before, state) by {
        assert(slot(state) != slot(marked));
        if slot(state).0 != slot(marked).0 {
            assert(after[slot(state).0] == before[slot(state).0]);
        }
    }
    assert forall|state: State|
        in_maze(walls, state) && (#[trigger] cost_at(after, state)) is Some implies cost_at(
        dist,
        state,
    ) is Some && leads(walls, state, end, best - cost_at(dist, state)->0) by {
        if state != marked {
            assert(cost_at(after, state) == cost_at(before, state));
        }
    }
}

/// A state from which a move on a cheapest route leads to a marked state
/// may be marked.
pub proof fn lemma_marked(
    walls: Seq<Vec<bool>>,
    dist: Seq<Vec<Option<u64>>>,
    end: (int, int),
    best: u64,
    before: Seq<Vec<Option<u64>>>,
    after: Seq<Vec<Option<u64>>>,
    from: State,
    to: State,
)
    requires
        enclosed(walls),
        marking(walls, dist, end, best, before),
        in_maze(walls, from),
        in_maze(walls, to),
        cost_at(before, to) is Some,
        tight(walls, dist, from, to),
        cost_at(before, from) is None,
        table_set(before, after, slot(from), 0),
        0 <= end.0 < walls.len(),
        0 <= end.1 < walls[0].len(),
    ensures
        marking(walls, dist, end, best, after),
        table_known(after) == table_known(before) + 1,
        forall|state: State|
            in_maze(walls, state) && state != from ==> #[trigger] cost_at(after, state)
                == cost_at(before, state),
        cost_at(after, from) is Some,
{
    assert(leads(walls, to, end, best - cost_at(dist, to)->0)) by {
        reveal(marks_sound);
    }
    lemma_leads_back(walls, from, to, end, best - cost_at(dist, to)->0);
    lemma_mark_set(walls, dist, end, best, before, after, from);
    assert forall|dir: Direction| #[trigger] cost_at(dist, (end, dir)) == Some(best) implies cost_at(
        after,
        (end, dir),
    ) is Some by {
        if (end, dir) != from {
            assert(cost_at(before, (end, dir)) is Some);
            assert(in_maze(walls, (end, dir)));
            assert(cost_at(after, (end, dir)) == cost_at(before, (end, dir)));
        }
    }
}

/// Marks the state at the place of the table where the table of costs holds
/// just the cost that is asked for and the state is not marked yet.
fn mark_where(
    dist: &Vec<Vec<Option<u64>>>,
    marks: &mut Vec<Vec<Option<u64>>>,
    row: usize,
    col: usize,
    need: u64,
) -> (moved: bool)
    requires
        row < dist@.len(),
        col < dist@[row as int].len(),
        row < old(marks)@.len(),
        col < old(marks)@[row as int].len(),
    ensures
        moved == (entry(dist@, (row as int, col as int)) == Some(need) && entry(
            old(marks)@,
            (row as int, col as int),
        ) is None),
        moved ==> table_set(old(marks)@, final(marks)@, (row as int, col as int), 0),
        !moved ==> final(marks)@ == old(marks)@,
{
    match get_entry(dist, row, col) {
        Some(known) => {
            if known != need {
                return false;
            }
        },
        None => {
            return false;
        },
    }
    if get_entry(marks, row, col).is_some() {
        return false;
    }
    set_entry(marks, row, col, 0);
    true
}

/// Marks the state `from` where the move from it to the marked state `to`
/// is on a cheapest route.
fn mark_from(
    walls: &Vec<Vec<bool>>,
    dist: &Vec<Vec<Option<u64>>>,
    marks: &mut Vec<Vec<Option<u64>>>,
    row: usize,
    col: usize,
    k: usize,
    need: u64,
    Ghost(to): Ghost<State>,
    Ghost(end): Ghost<(int, int)>,
    Ghost(best): Ghost<u64>,
) -> (moved: bool)
    requires
        enclosed(walls@),
        table_shape(dist@, wide(walls@)),
        marking(walls@, dist@, end, best, old(marks)@),
        0 <= end.0 < walls@.len(),
        0 <= end.1 < walls@[0].len(),
        row < walls@.len(),
        col < walls@[0].len(),
        k < 4,
        4 * walls@[0].len() <= usize::MAX,
        in_maze(walls@, to),
        cost_at(old(marks)@, to) is Some,
        cost_at(dist@, to) is Some,
        forall|dir: Direction| #[trigger]
            heading(dir) == k ==> move_ok(walls@, ((row as int, col as int), dir), to) && need
                + move_cost(dir, to.1) == cost_at(dist@, to)->0,
    ensures
        marking(walls@, dist@, end, best, final(marks)@),
        cost_at(final(marks)@, to) is Some,
        table_known(final(marks)@) >= table_known(old(marks)@),
        moved ==> table_known(final(marks)@) > table_known(old(marks)@),
        !moved ==> final(marks)@ == old(marks)@,
        forall|dir: Direction| #[trigger]
            heading(dir) == k ==> (tight(walls@, dist@, ((row as int, col as int), dir), to)
                ==> cost_at(final(marks)@, ((row as int, col as int), dir)) is Some),
{
    let dir = nth_heading(k);
    let ghost from: State = ((row as int, col as int), dir);
    let ghost before = marks@;
    assert(marks@[row as int].len() == 4 * walls@[0].len());
    assert(dist@[row as int].len() == 4 * walls@[0].len());
    let moved = mark_where(dist, marks, row, 4 * col + k, need);
    proof {
        assert(heading(dir) == k);
        if moved {
            assert(cost_at(dist@, from) == Some(need));
            assert(tight(walls@, dist@, from, to));
            lemma_marked(walls@, dist@, end, best, before, marks@, from, to);
        }
        assert forall|other: Direction| #[trigger] heading(other) == k && tight(
            walls@,
            dist@,
            ((row as int, col as int), other),
            to,
        ) implies cost_at(marks@, ((row as int, col as int), other)) is Some by {
            assert(other == dir);
        }
    }
    moved
}

/// Looks at the moves that lead to one marked state and marks the states
/// from which they are on a cheapest route.
fn mark_state(
    walls: &Vec<Vec<bool>>,
    dist: &Vec<Vec<Option<u64>>>,
    marks: &mut Vec<Vec<Option<u64>>>,
    row: usize,
    col: usize,
    k: usize,
    Ghost(start): Ghost<(int, int)>,
    Ghost(end): Ghost<(int, int)>,
    Ghost(best): Ghost<u64>,
) -> (moved: bool)
    requires
        maze_valid(walls@, start),
        searching(walls@, start, dist@),
        marking(walls@, dist@, end, best, old(marks)@),
        0 <= end.0 < walls@.len(),
        0 <= end.1 < walls@[0].len(),
        row < walls@.len(),
        col < walls@[0].len(),
        k < 4,
    ensures
        marking(walls@, dist@, end, best, final(marks)@),
        table_known(final(marks)@) >= table_known(old(marks)@),
        moved ==> table_known(final(marks)@) > table_known(old(marks)@),
        !moved ==> final(marks)@ == old(marks)@ && forall|dir: Direction| #[trigger]
            heading(dir) == k ==> marks_closed_at(
                walls@,
                dist@,
                final(marks)@,
                ((row as int, col as int), dir),
            ),
{
    let dir = nth_heading(k);
    let ghost to: State = ((row as int, col as int), dir);
    assert(marks@[row as int].len() == 4 * walls@[0].len());
    assert(dist@[row as int].len() == 4 * walls@[0].len());
    if get_entry(marks, row, 4 * col + k).is_none() {
        assert forall|other: Direction| #[trigger] heading(other) == k implies marks_closed_at(
            walls@,
            dist@,
            marks@,
            ((row as int, col as int), other),
        ) by {
            assert(other == dir);
        }
        return false;
    }
    proof {
        assert(cost_at(marks@, to) is Some);
        assert(cost_at(dist@, to) is Some) by {
            reveal(marks_sound);
        }
        lemma_cost_cap(walls@, start, dist@, to);
        assert(walls@[row as int].len() == walls@[0].len());
    }
    let cost = get_entry(dist, row, 4 * col + k).unwrap();
    let num_rows = walls.len();
    let num_cols = walls[0].len();
    assert(0 < row < num_rows - 1 && 0 < col < num_cols - 1);
    let mut moved = false;
    let (b_row, b_col) = match dir {
        Direction::Left => (row, col + 1),
        Direction::Right => (row, col - 1),
        Direction::Up => (row + 1, col),
        Direction::Down => (row - 1, col),
    };
    let open = !walls[row][col];
    if open && cost >= COST_STEP {
        proof {
            assert forall|other: Direction| #[trigger] heading(other) == k implies move_ok(
                walls@,
                ((b_row as int, b_col as int), other),
                to,
            ) && (cost - 1) + move_cost(other, to.1) == cost_at(dist@, to)->0 by {
                assert(other == dir);
            }
        }
        if mark_from(
            walls,
            dist,
            marks,
            b_row,
            b_col,
            k,
            cost - COST_STEP,
            Ghost(to),
            Ghost(end),
            Ghost(best),
        ) {
            moved = true;
        }
    }
    let left = dir.turn_left();
    let right = dir.turn_right();
    let turned = cost >= COST_TURN;
    if turned {
        let left_k = heading_of(left);
        proof {
            assert forall|other: Direction| #[trigger] heading(other) == left_k implies move_ok(
                walls@,
                ((row as int, col as int), other),
                to,
            ) && (cost - 1000) + move_cost(other, to.1) == cost_at(dist@, to)->0 by {
                assert(other == left);
            }
        }
        if mark_from(
            walls,
            dist,
            marks,
            row,
            col,
            left_k,
            cost - COST_TURN,
            Ghost(to),
            Ghost(end),
            Ghost(best),
        ) {
            moved = true;
        }
        let right_k = heading_of(right);
        proof {
            assert forall|other: Direction| #[trigger] heading(other) == right_k implies move_ok(
                walls@,
                ((row as int, col as int), other),
                to,
            ) && (cost - 1000) + move_cost(other, to.1) == cost_at(dist@, to)->0 by {
                assert(other == right);
            }
        }
        if mark_from(
            walls,
            dist,
            marks,
            row,
            col,
            right_k,
            cost - COST_TURN,
            Ghost(to),
            Ghost(end),
            Ghost(best),
        ) {
            moved = true;
        }
    }
    proof {
        if !moved {
            lemma_state_closed(
                walls@,
                dist@,
                marks@,
                to,
                ((b_row as int, b_col as int), dir),
                open,
                cost,
            );
            assert forall|other: Direction| #[trigger] heading(other) == k implies marks_closed_at(
                walls@,
                dist@,
                marks@,
                ((row as int, col as int), other),
            ) by {
                assert(other == dir);
            }
        }
    }
    moved
}

/// The marks are closed at a state when the three states from which a move
/// leads to it are marked where that move is on a cheapest route.
pub proof fn lemma_state_closed(
    walls: Seq<Vec<bool>>,
    dist: Seq<Vec<Option<u64>>>,
    marks: Seq<Vec<Option<u64>>>,
    to: State,
    back: State,
    open: bool,
    cost: u64,
)
    requires
        cost_at(dist, to) == Some(cost),
        open == !walls[to.0.0]@[to.0.1],
        back.1 == to.1,
        to.0 == step_from(to.1, back.0),
        open && cost >= 1 ==> (tight(walls, dist, back, to) ==> cost_at(marks, back) is Some),
        cost >= 1000 ==> (tight(walls, dist, (to.0, left_of(to.1)), to) ==> cost_at(
            marks,
            (to.0, left_of(to.1)),
        ) is Some),
        cost >= 1000 ==> (tight(walls, dist, (to.0, right_of(to.1)), to) ==> cost_at(
            marks,
            (to.0, right_of(to.1)),
        ) is Some),
    ensures
        marks_closed_at(walls, dist, marks, to),
{
    assert forall|from: State|
        in_maze(walls, from) && #[trigger] tight(walls, dist, from, to) implies cost_at(marks, from)
        is Some by {
        if from.0 != to.0 {
            assert(from.1 == to.1);
            assert(from.0 == back.0);
            assert(from == back);
        } else if from.1 == left_of(to.1) {
            assert(from == (to.0, left_of(to.1)));
        } else {
            assert(from.1 == right_of(to.1));
            assert(from == (to.0, right_of(to.1)));
        }
    }
}

/// Looks once at every marked state and marks what leads to it on a
/// cheapest route.
fn mark_pass(
    walls: &Vec<Vec<bool>>,
    dist: &Vec<Vec<Option<u64>>>,
    marks: &mut Vec<Vec<Option<u64>>>,
    Ghost(start): Ghost<(int, int)>,
    Ghost(end): Ghost<(int, int)>,
    Ghost(best): Ghost<u64>,
) -> (changed: bool)
    requires
        maze_valid(walls@, start),
        searching(walls@, start, dist@),
        marking(walls@, dist@, end, best, old(marks)@),
        0 <= end.0 < walls@.len(),
        0 <= end.1 < walls@[0].len(),
    ensures
        marking(walls@, dist@, end, best, final(marks)@),
        table_known(final(marks)@) >= table_known(old(marks)@),
        changed ==> table_known(final(marks)@) > table_known(old(marks)@),
        !changed ==> final(marks)@ == old(marks)@ && marks_closed_upto(
            walls@,
            dist@,
            final(marks)@,
            walls@.len() as int,
            0,
            0,
        ),
{
    let ghost given = marks@;
    let num_rows = walls.len();
    let num_cols = walls[0].len();
    let mut changed = false;
    let mut row: usize = 0;
    proof {
        reveal(marks_closed_upto);
    }
    while row < num_rows
        invariant
            row <= num_rows,
            num_rows == walls@.len(),
            num_cols == walls@[0].len(),
            given == old(marks)@,
            0 <= end.0 < walls@.len(),
            0 <= end.1 < walls@[0].len(),
            maze_valid(walls@, start),
            searching(walls@, start, dist@),
            marking(walls@, dist@, end, best, marks@),
            table_known(marks@) >= table_known(given),
            changed ==> table_known(marks@) > table_known(given),
            !changed ==> marks@ == given && marks_closed_upto(
                walls@,
                dist@,
                marks@,
                row as int,
                0,
                0,
            ),
        decreases num_rows - row,
    {
        let mut col: usize = 0;
        while col < num_cols
            invariant
                row < num_rows,
                col <= num_cols,
                num_rows == walls@.len(),
                num_cols == walls@[0].len(),
                given == old(marks)@,
                0 <= end.0 < walls@.len(),
                0 <= end.1 < walls@[0].len(),
                maze_valid(walls@, start),
                searching(walls@, start, dist@),
                marking(walls@, dist@, end, best, marks@),
                table_known(marks@) >= table_known(given),
                changed ==> table_known(marks@) > table_known(given),
                !changed ==> marks@ == given && marks_closed_upto(
                    walls@,
                    dist@,
                    marks@,
                    row as int,
                    col as int,
                    0,
                ),
            decreases num_cols - col,
        {
            let mut k: usize = 0;
            while k < 4
                invariant
                    row < num_rows,
                    col < num_cols,
                    k <= 4,
                    num_rows == walls@.len(),
                    num_cols == walls@[0].len(),
                    given == old(marks)@,
                    0 <= end.0 < walls@.len(),
                    0 <= end.1 < walls@[0].len(),
                    maze_valid(walls@, start),
                    searching(walls@, start, dist@),
                    marking(walls@, dist@, end, best, marks@),
                    table_known(marks@) >= table_known(given),
                    changed ==> table_known(marks@) > table_known(given),
                    !changed ==> marks@ == given && marks_closed_upto(
                        walls@,
                        dist@,
                        marks@,
                        row as int,
                        col as int,
                        k as int,
                    ),
                decreases 4 - k,
            {
                let moved = mark_state(
                    walls,
                    dist,
                    marks,
                    row,
                    col,
                    k,
                    Ghost(start),
                    Ghost(end),
                    Ghost(best),
                );
                if moved {
                    changed = true;
                }
                proof {
                    if !changed {
                        lemma_marks_next(walls@, dist@, marks@, row as int, col as int, k as int);
                    }
                }
                k += 1;
            }
            proof {
                if !changed {
                    lemma_marks_next(walls@, dist@, marks@, row as int, col as int, 4);
                }
            }
            col += 1;
        }
        proof {
            if !changed {
                lemma_marks_next(walls@, dist@, marks@, row as int, num_cols as int, 0);
            }
        }
        row += 1;
    }
    changed
}

/// Marks the states that lie on cheapest routes to the end: the end with
/// the headings with which it costs least, and from there backwards every
/// state from which a move on a cheapest route leads to a marked state.
fn mark_all(
    walls: &Vec<Vec<bool>>,
    dist: &Vec<Vec<Option<u64>>>,
    end_row: usize,
    end_col: usize,
    best: u64,
    Ghost(start): Ghost<(int, int)>,
) -> (marks: Vec<Vec<Option<u64>>>)
    requires
        maze_valid(walls@, start),
        searching(walls@, start, dist@),
        end_row < walls@.len(),
        end_col < walls@[0].len(),
    ensures
        marking(walls@, dist@, (end_row as int, end_col as int), best, marks@),
        marks_closed_upto(walls@, dist@, marks@, walls@.len() as int, 0, 0),
{
    let ghost end = (end_row as int, end_col as int);
    let mut marks = empty_table(walls.len(), 4 * walls[0].len());
    proof {
        reveal(marks_sound);
    }
    let mut k: usize = 0;
    while k < 4
        invariant
            k <= 4,
            end == (end_row as int, end_col as int),
            maze_valid(walls@, start),
            end_row < walls@.len(),
            end_col < walls@[0].len(),
            table_shape(dist@, wide(walls@)),
            table_shape(marks@, wide(walls@)),
            marks_sound(walls@, dist@, end, best as int, marks@),
            forall|dir: Direction|
                heading(dir) < k && #[trigger] cost_at(dist@, (end, dir)) == Some(best) ==> cost_at(
                    marks@,
                    (end, dir),
                ) is Some,
        decreases 4 - k,
    {
        let dir = nth_heading(k);
        let ghost before = marks@;
        assert(marks@[end_row as int].len() == 4 * walls@[0].len());
        assert(dist@[end_row as int].len() == 4 * walls@[0].len());
        if mark_where(dist, &mut marks, end_row, 4 * end_col + k, best) {
            proof {
                let seed: State = (end, dir);
                let walk = seq![seed];
                assert(is_walk(walls@, walk));
                assert(leads(walls@, seed, end, 0));
                lemma_mark_set(walls@, dist@, end, best, before, marks@, seed);
            }
        }
        proof {
            assert forall|other: Direction|
                heading(other) < k + 1 && #[trigger] cost_at(dist@, (end, other)) == Some(
                    best,
                ) implies cost_at(marks@, (end, other)) is Some by {
                if heading(other) == k {
                    assert(other == dir);
                } else {
                    assert(cost_at(before, (end, other)) is Some);
                }
            }
        }
        k += 1;
    }
    let mut changed = true;
    proof {
        lemma_table_known_bound(marks@, wide(walls@));
    }
    while changed
        invariant
            maze_valid(walls@, start),
            0 <= end.0 < walls@.len(),
            0 <= end.1 < walls@[0].len(),
            searching(walls@, start, dist@),
            marking(walls@, dist@, end, best, marks@),
            table_known(marks@) <= cell_count(wide(walls@)),
            !changed ==> marks_closed_upto(walls@, dist@, marks@, walls@.len() as int, 0, 0),
        decreases cell_count(wide(walls@)) - table_known(marks@), (if changed { 1int } else { 0int }),
    {
        changed = mark_pass(walls, dist, &mut marks, Ghost(start), Ghost(end), Ghost(best));
        proof {
            lemma_table_known_bound(marks@, wide(walls@));
        }
    }
    marks
}

/// The least cost that the table knows for the end is the cost of a route
/// to the end, and no route to the end costs less.
pub proof fn lemma_best_least(
    walls: Seq<Vec<bool>>,
    start: (int, int),
    end: (int, int),
    dist: Seq<Vec<Option<u64>>>,
    best: u64,
)
    requires
        maze_valid(walls, start),
        searching(walls, start, dist),
        closed_upto(walls, dist, walls.len() as int, 0, 0),
        cost_at(dist, (start, Direction::Right)) == Some(0u64),
        0 <= end.0 < walls.len(),
        0 <= end.1 < walls[0].len(),
        best_at(dist, end, best),
    ensures
        route_to(walls, start, end, best as int),
        forall|cost: int| #[trigger] route_to(walls, start, end, cost) ==> best <= cost,
{
    let dir = choose|dir: Direction| #[trigger] cost_at(dist, (end, dir)) == Some(best);
    assert(reaches(walls, start, (end, dir), best as int)) by {
        reveal(sound);
        assert(in_maze(walls, (end, dir)));
    }
    let found = choose|route: Seq<State>|
        #[trigger] is_route(walls, start, route) && route.last() == (end, dir) && route_cost(route)
            == best;
    assert(is_route(walls, start, found) && found.last().0 == end);
    assert forall|cost: int| #[trigger] route_to(walls, start, end, cost) implies best <= cost by {
        let route = choose|route: Seq<State>|
            #[trigger] is_route(walls, start, route) && route.last().0 == end && route_cost(route)
                == cost;
        lemma_exact(walls, start, dist, route);
        assert(route.last() == (end, route.last().1));
    }
}

/// Where the table knows no cost for the end, no route leads to the end.
pub proof fn lemma_no_route(
    walls: Seq<Vec<bool>>,
    start: (int, int),
    end: (int, int),
    dist: Seq<Vec<Option<u64>>>,
)
    requires
        maze_valid(walls, start),
        closed_upto(walls, dist, walls.len() as int, 0, 0),
        cost_at(dist, (start, Direction::Right)) == Some(0u64),
        forall|dir: Direction| (#[trigger] cost_at(dist, (end, dir))) is None,
    ensures
        forall|cost: int| !#[trigger] route_to(walls, start, end, cost),
{
    assert forall|cost: int| !#[trigger] route_to(walls, start, end, cost) by {
        if route_to(walls, start, end, cost) {
            let route = choose|route: Seq<State>|
                #[trigger] is_route(walls, start, route) && route.last().0 == end && route_cost(
                    route,
                ) == cost;
            lemma_exact(walls, start, dist, route);
            assert(route.last() == (end, route.last().1));
            assert(cost_at(dist, (end, route.last().1)) is None);
        }
    }
}

/// The beginning of a route is a route, what is left of it is a walk, and
/// the costs of the two make the cost of the route.
pub proof fn lemma_route_parts(walls: Seq<Vec<bool>>, start: (int, int), route: Seq<State>, at: int)
    requires
        is_route(walls, start, route),
        0 <= at < route.len(),
    ensures
        is_route(walls, start, route.take(at + 1)),
        is_walk(walls, route.skip(at)),
        route.take(at + 1).last() == route[at],
        route.skip(at)[0] == route[at],
        route.skip(at).last() == route.last(),
        route_cost(route) == route_cost(route.take(at + 1)) + route_cost(route.skip(at)),
{
    let head = route.take(at + 1);
    let tail = route.skip(at);
    assert forall|i: int| 0 < i < head.len() implies move_ok(walls, head[i - 1], #[trigger] head[i]) by {
        assert(move_ok(walls, route[i - 1], route[i]));
    }
    assert forall|i: int| 0 < i < tail.len() implies move_ok(walls, tail[i - 1], #[trigger] tail[i]) by {
        assert(move_ok(walls, route[at + i - 1], route[at + i]));
    }
    lemma_walk_join(walls, head, tail);
    assert(head + tail.drop_first() =~= route);
}

/// On a cheapest route to the end, the table knows every state at just the
/// cost of the route up to it.
pub proof fn lemma_tight_route(
    walls: Seq<Vec<bool>>,
    start: (int, int),
    end: (int, int),
    dist: Seq<Vec<Option<u64>>>,
    best: u64,
    route: Seq<State>,
    at: int,
)
    requires
        maze_valid(walls, start),
        searching(walls, start, dist),
        closed_upto(walls, dist, walls.len() as int, 0, 0),
        cost_at(dist, (start, Direction::Right)) == Some(0u64),
        forall|cost: int| #[trigger] route_to(walls, start, end, cost) ==> best <= cost,
        is_route(walls, start, route),
        route.last().0 == end,
        route_cost(route) == best,
        0 <= at < route.len(),
    ensures
        cost_at(dist, route[at]) is Some,
        cost_at(dist, route[at])->0 == route_cost(route.take(at + 1)),
{
    let head = route.take(at + 1);
    let tail = route.skip(at);
    lemma_route_parts(walls, start, route, at);
    lemma_exact(walls, start, dist, head);
    let known = cost_at(dist, route[at])->0;
    if known < route_cost(head) {
        lemma_route_inside(walls, start, route, at);
        assert(reaches(walls, start, route[at], known as int)) by {
            reveal(sound);
            assert(in_maze(walls, route[at]));
        }
        let other = choose|other: Seq<State>|
            #[trigger] is_route(walls, start, other) && other.last() == route[at] && route_cost(
                other,
            ) == known;
        lemma_walk_join(walls, other, tail);
        let whole = other + tail.drop_first();
        assert(is_route(walls, start, whole));
        assert(route_to(walls, start, end, route_cost(whole)));
    }
}

/// Every state on a cheapest route to the end is marked.
pub proof fn lemma_on_route_marked(
    walls: Seq<Vec<bool>>,
    start: (int, int),
    end: (int, int),
    dist: Seq<Vec<Option<u64>>>,
    best: u64,
    marks: Seq<Vec<Option<u64>>>,
    route: Seq<State>,
    at: int,
)
    requires
        maze_valid(walls, start),
        searching(walls, start, dist),
        closed_upto(walls, dist, walls.len() as int, 0, 0),
        cost_at(dist, (start, Direction::Right)) == Some(0u64),
        forall|cost: int| #[trigger] route_to(walls, start, end, cost) ==> best <= cost,
        marking(walls, dist, end, best, marks),
        marks_closed_upto(walls, dist, marks, walls.len() as int, 0, 0),
        is_route(walls, start, route),
        route.last().0 == end,
        route_cost(route) == best,
        0 <= at < route.len(),
    ensures
        cost_at(marks, route[at]) is Some,
    decreases route.len() - at,
{
    lemma_tight_route(walls, start, end, dist, best, route, at);
    if at == route.len() - 1 {
        assert(route.take(at + 1) =~= route);
        assert(route[at] == (end, route[at].1));
        assert(cost_at(dist, (end, route[at].1)) == Some(best));
    } else {
        lemma_on_route_marked(walls, start, end, dist, best, marks, route, at + 1);
        lemma_tight_route(walls, start, end, dist, best, route, at + 1);
        let longer = route.take(at + 2);
        assert(longer.drop_last() =~= route.take(at + 1));
        assert(longer.last() == route[at + 1]);
        assert(longer[longer.len() - 2] == route[at]);
        assert(move_ok(walls, route[at], route[at + 1]));
        assert(tight(walls, dist, route[at], route[at + 1]));
        lemma_route_inside(walls, start, route, at);
        lemma_route_inside(walls, start, route, at + 1);
        assert(marks_closed_at(walls, dist, marks, route[at + 1])) by {
            reveal(marks_closed_upto);
            assert(in_maze(walls, route[at + 1]));
            assert(state_before(route[at + 1], walls.len() as int, 0, 0));
        }
        assert(in_maze(walls, route[at]));
    }
}

/// The tile is marked with some heading.
pub open spec fn any_marked(marks: Seq<Vec<Option<u64>>>, cell: (int, int)) -> bool {
    exists|dir: Direction| (#[trigger] cost_at(marks, (cell, dir))) is Some
}

/// The tiles that are marked with some heading are the tiles on cheapest
/// routes to the end.
pub proof fn lemma_tiles(
    walls: Seq<Vec<bool>>,
    start: (int, int),
    end: (int, int),
    dist: Seq<Vec<Option<u64>>>,
    best: u64,
    marks: Seq<Vec<Option<u64>>>,
    cell: (int, int),
)
    requires
        maze_valid(walls, start),
        searching(walls, start, dist),
        closed_upto(walls, dist, walls.len() as int, 0, 0),
        cost_at(dist, (start, Direction::Right)) == Some(0u64),
        forall|cost: int| #[trigger] route_to(walls, start, end, cost) ==> best <= cost,
        marking(walls, dist, end, best, marks),
        marks_closed_upto(walls, dist, marks, walls.len() as int, 0, 0),
        0 <= cell.0 < walls.len(),
        0 <= cell.1 < walls[0].len(),
    ensures
        any_marked(marks, cell) == on_route_to(walls, start, end, best as int, cell),
{
    if any_marked(marks, cell) {
        let dir = choose|dir: Direction| (#[trigger] cost_at(marks, (cell, dir))) is Some;
        let state: State = (cell, dir);
        assert(in_maze(walls, state));
        assert(cost_at(dist, state) is Some && leads(
            walls,
            state,
            end,
            best - cost_at(dist, state)->0,
        )) by {
            reveal(marks_sound);
        }
        let known = cost_at(dist, state)->0;
        assert(reaches(walls, start, state, known as int)) by {
            reveal(sound);
        }
        let head = choose|route: Seq<State>|
            #[trigger] is_route(walls, start, route) && route.last() == state && route_cost(route)
                == known;
        let tail = choose|walk: Seq<State>|
            #[trigger] is_walk(walls, walk) && walk[0] == state && walk.last().0 == end
                && route_cost(walk) == best - known;
        lemma_walk_join(walls, head, tail);
        let whole = head + tail.drop_first();
        assert(is_route(walls, start, whole));
        assert(whole[head.len() - 1] == state);
        assert(whole[head.len() - 1].0 == cell);
        assert(on_route_to(walls, start, end, best as int, cell));
    }
    if on_route_to(walls, start, end, best as int, cell) {
        let (route, at) = choose|route: Seq<State>, at: int|
            #[trigger] is_route(walls, start, route) && route.last().0 == end && route_cost(route)
                == best as int && 0 <= at < route.len() && #[trigger] route[at].0 == cell;
        lemma_on_route_marked(walls, start, end, dist, best, marks, route, at);
        assert(route[at] == (cell, route[at].1));
        assert(cost_at(marks, (cell, route[at].1)) is Some);
    }
}

/// `tiles` is the number of tiles that lie on a route of this cost to the
/// end: a table marks just these tiles, and it holds `tiles` marks.
pub open spec fn tiles_counted(walls: Seq<Vec<bool>>, arena: Arena, cost: int, tiles: int) -> bool {
    exists|marks: Seq<Vec<Option<u64>>>|
        {
            &&& #[trigger] table_shape(marks, arena)
            &&& table_known(marks) == tiles
            &&& forall|cell: (int, int)|
                in_grid(arena, cell) ==> ((#[trigger] entry(marks, cell)) is Some <==> on_route_to(
                    walls,
                    arena.start,
                    arena.end,
                    cost,
                    cell,
                ))
        }
}

/// The table marks the tiles before the place that are marked with some
/// heading, and nothing else.
#[verifier::opaque]
pub open spec fn tiles_upto(
    walls: Seq<Vec<bool>>,
    marks: Seq<Vec<Option<u64>>>,
    tiles: Seq<Vec<Option<u64>>>,
    row: int,
    col: int,
) -> bool {
    forall|cell: (int, int)|
        0 <= cell.0 < walls.len() && 0 <= cell.1 < walls[0].len() ==> ((#[trigger] entry(
            tiles,
            cell,
        )) is Some <==> (cell.0 < row || (cell.0 == row && cell.1 < col)) && any_marked(marks, cell))
}

/// The place has moved over one tile.
pub proof fn lemma_tiles_next(
    walls: Seq<Vec<bool>>,
    marks: Seq<Vec<Option<u64>>>,
    before: Seq<Vec<Option<u64>>>,
    after: Seq<Vec<Option<u64>>>,
    row: int,
    col: int,
    any: bool,
)
    requires
        0 <= row < walls.len(),
        0 <= col < walls[0].len(),
        table_shape(before, maze_arena(walls, (0, 0), (0, 0))),
        tiles_upto(walls, marks, before, row, col),
        any == any_marked(marks, (row, col)),
        any ==> table_set(before, after, (row, col), 0),
        !any ==> after == before,
    ensures
        table_shape(after, maze_arena(walls, (0, 0), (0, 0))),
        tiles_upto(walls, marks, after, row, col + 1),
        col + 1 == walls[0].len() ==> tiles_upto(walls, marks, after, row + 1, 0),
        table_known(after) == table_known(before) + (if any {
            1nat
        } else {
            0nat
        }),
{
    reveal(tiles_upto);
    let arena = maze_arena(walls, (0, 0), (0, 0));
    assert(entry(before, (row, col)) is None);
    if any {
        assert(in_grid(arena, (row, col)));
        lemma_table_set_measures(before, after, arena, (row, col), 0);
        assert forall|cell: (int, int)|
            0 <= cell.0 < walls.len() && 0 <= cell.1 < walls[0].len() implies ((#[trigger] entry(
            after,
            cell,
        )) is Some <==> (cell.0 < row || (cell.0 == row && cell.1 < col + 1)) && any_marked(
            marks,
            cell,
        )) by {
            if cell != (row, col) {
                if cell.0 != row {
                    assert(after[cell.0] == before[cell.0]);
                }
                assert(entry(after, cell) == entry(before, cell));
            }
        }
    }
}

/// Counts the tiles that are marked with some heading.
fn count_tiles(walls: &Vec<Vec<bool>>, marks: &Vec<Vec<Option<u64>>>) -> (counted: (
    u64,
    Ghost<Seq<Vec<Option<u64>>>>,
))
    requires
        enclosed(walls@),
        4 * walls@[0].len() <= usize::MAX,
        4004 * (walls@.len() * walls@[0].len() + 1) <= u64::MAX,
        table_shape(marks@, wide(walls@)),
    ensures
        table_shape(counted.1@, maze_arena(walls@, (0, 0), (0, 0))),
        table_known(counted.1@) == counted.0,
        tiles_upto(walls@, marks@, counted.1@, walls@.len() as int, 0),
{
    let num_rows = walls.len();
    let num_cols = walls[0].len();
    let ghost arena = maze_arena(walls@, (0, 0), (0, 0));
    let mut tiles = empty_table(num_rows, num_cols);
    let mut count: u64 = 0;
    proof {
        lemma_table_none(tiles@, arena);
        reveal(tiles_upto);
    }
    let mut row: usize = 0;
    while row < num_rows
        invariant
            row <= num_rows,
            num_rows == walls@.len(),
            num_cols == walls@[0].len(),
            arena == maze_arena(walls@, (0, 0), (0, 0)),
            num_cols >= 3,
            4 * walls@[0].len() <= usize::MAX,
            4004 * (walls@.len() * walls@[0].len() + 1) <= u64::MAX,
            table_shape(marks@, wide(walls@)),
            table_shape(tiles@, arena),
            count == table_known(tiles@),
            tiles_upto(walls@, marks@, tiles@, row as int, 0),
        decreases num_rows - row,
    {
        let mut col: usize = 0;
        while col < num_cols
            invariant
                row < num_rows,
                col <= num_cols,
                num_rows == walls@.len(),
                num_cols == walls@[0].len(),
                arena == maze_arena(walls@, (0, 0), (0, 0)),
                num_cols >= 3,
            num_cols >= 3,
                4 * walls@[0].len() <= usize::MAX,
                4004 * (walls@.len() * walls@[0].len() + 1) <= u64::MAX,
                table_shape(marks@, wide(walls@)),
                table_shape(tiles@, arena),
                count == table_known(tiles@),
                tiles_upto(walls@, marks@, tiles@, row as int, col as int),
                col == num_cols ==> tiles_upto(walls@, marks@, tiles@, row + 1, 0),
            decreases num_cols - col,
        {
            assert(marks@[row as int].len() == 4 * walls@[0].len());
            let any = get_entry(marks, row, 4 * col).is_some() || get_entry(
                marks,
                row,
                4 * col + 1,
            ).is_some() || get_entry(marks, row, 4 * col + 2).is_some() || get_entry(
                marks,
                row,
                4 * col + 3,
            ).is_some();
            let ghost before = tiles@;
            proof {
                let cell = (row as int, col as int);
                if any {
                    let dir = if cost_at(marks@, (cell, Direction::Left)) is Some {
                        Direction::Left
                    } else if cost_at(marks@, (cell, Direction::Right)) is Some {
                        Direction::Right
                    } else if cost_at(marks@, (cell, Direction::Up)) is Some {
                        Direction::Up
                    } else {
                        Direction::Down
                    };
                    assert(cost_at(marks@, (cell, dir)) is Some);
                } else if any_marked(marks@, cell) {
                    let dir = choose|dir: Direction| (#[trigger] cost_at(marks@, (cell, dir))) is Some;
                    assert(heading(dir) == 0 || heading(dir) == 1 || heading(dir) == 2 || heading(
                        dir,
                    ) == 3);
                }
                assert(any == any_marked(marks@, cell));
            }
            if any {
                assert(tiles@[row as int].len() == walls@[0].len());
                set_entry(&mut tiles, row, col, 0);
            }
            proof {
                lemma_tiles_next(walls@, marks@, before, tiles@, row as int, col as int, any);
                lemma_table_known_bound(tiles@, arena);
                reveal(cell_count);
            }
            if any {
                count += 1;
            }
            col += 1;
        }
        row += 1;
    }
    (count, Ghost(tiles@))
}

/// The least cost of a route from the start, heading right, to the end, and
/// the number of tiles that lie on a route of that cost. A step costs 1, a
/// quarter turn on the spot 1000. Where no route leads to the end, the cost
/// is the largest number and one tile is counted, the start.
pub fn solve(
    walls: &Vec<Vec<bool>>,
    start_row: usize,
    start_col: usize,
    end_row: usize,
    end_col: usize,
) -> (found: (u64, u64))
    requires
        maze_valid(walls@, (start_row as int, start_col as int)),
    ensures
        found.0 < u64::MAX ==> route_to(
            walls@,
            (start_row as int, start_col as int),
            (end_row as int, end_col as int),
            found.0 as int,
        ),
        forall|cost: int| #[trigger]
            route_to(
                walls@,
                (start_row as int, start_col as int),
                (end_row as int, end_col as int),
                cost,
            ) ==> found.0 <= cost,
        found.0 == u64::MAX ==> found.1 == 1,
        found.0 < u64::MAX ==> tiles_counted(
            walls@,
            maze_arena(
                walls@,
                (start_row as int, start_col as int),
                (end_row as int, end_col as int),
            ),
            found.0 as int,
            found.1 as int,
        ),
{
    let ghost start = (start_row as int, start_col as int);
    let ghost end = (end_row as int, end_col as int);
    let dist = cheapest(walls, start_row, start_col);
    if end_row >= walls.len() || end_col >= walls[0].len() {
        proof {
            assert forall|cost: int| !#[trigger] route_to(walls@, start, end, cost) by {
                if route_to(walls@, start, end, cost) {
                    let route = choose|route: Seq<State>|
                        #[trigger] is_route(walls@, start, route) && route.last().0 == end
                            && route_cost(route) == cost;
                    lemma_route_inside(walls@, start, route, route.len() - 1);
                }
            }
        }
        return (u64::MAX, 1);
    }
    let mut min_cost: Option<u64> = None;
    let mut k: usize = 0;
    while k < 4
        invariant
            k <= 4,
            end == (end_row as int, end_col as int),
            end_row < walls@.len(),
            end_col < walls@[0].len(),
            4 * walls@[0].len() <= usize::MAX,
            table_shape(dist@, wide(walls@)),
            min_cost matches Some(least) ==> exists|dir: Direction| #[trigger]
                cost_at(dist@, (end, dir)) == Some(least),
            forall|dir: Direction|
                heading(dir) < k ==> ((#[trigger] cost_at(dist@, (end, dir))) matches Some(known)
                    ==> min_cost is Some && min_cost->0 <= known),
        decreases 4 - k,
    {
        let dir = nth_heading(k);
        assert(dist@[end_row as int].len() == 4 * walls@[0].len());
        let ghost before = min_cost;
        match get_entry(&dist, end_row, 4 * end_col + k) {
            Some(known) => {
                assert(cost_at(dist@, (end, dir)) == Some(known));
                let lower = match min_cost {
                    Some(least) => known < least,
                    None => true,
                };
                if lower {
                    min_cost = Some(known);
                }
            },
            None => {},
        }
        proof {
            assert forall|other: Direction| heading(other) < k + 1 implies ((#[trigger] cost_at(
                dist@,
                (end, other),
            )) matches Some(known) ==> min_cost is Some && min_cost->0 <= known) by {
                if heading(other) == k {
                    assert(other == dir);
                }
            }
        }
        k += 1;
    }
    let best = match min_cost {
        Some(best) => best,
        None => {
            proof {
                assert forall|dir: Direction| (#[trigger] cost_at(dist@, (end, dir))) is None by {
                    assert(heading(dir) < 4);
                }
                lemma_no_route(walls@, start, end, dist@);
            }
            return (u64::MAX, 1);
        },
    };
    proof {
        assert(best_at(dist@, end, best)) by {
            assert forall|dir: Direction| (#[trigger] cost_at(dist@, (end, dir))) is Some implies best
                <= cost_at(dist@, (end, dir))->0 by {
                assert(heading(dir) < 4);
            }
        }
        lemma_best_least(walls@, start, end, dist@, best);
        let dir = choose|dir: Direction| #[trigger] cost_at(dist@, (end, dir)) == Some(best);
        lemma_cost_cap(walls@, start, dist@, (end, dir));
    }
    let marks = mark_all(walls, &dist, end_row, end_col, best, Ghost(start));
    let (count, Ghost(tiles)) = count_tiles(walls, &marks);
    proof {
        let arena = maze_arena(walls@, start, end);
        assert(table_shape(tiles, arena));
        assert forall|cell: (int, int)| in_grid(arena, cell) implies ((#[trigger] entry(tiles, cell))
            is Some <==> on_route_to(walls@, arena.start, arena.end, best as int, cell)) by {
            reveal(tiles_upto);
            lemma_tiles(walls@, start, end, dist@, best, marks@, cell);
        }
        assert(tiles_counted(walls@, arena, best as int, count as int));
    }
    (best, count)
}

/// The byte is one that a maze is drawn with: a wall, a free tile, the
/// start or the end.
pub open spec fn maze_byte(byte: u8) -> bool {
    byte == 0x23 || byte == 0x2e || byte == 0x53 || byte == 0x45
}

/// Every byte of the rows is one that a maze is drawn with.
pub open spec fn maze_drawn(rows: Seq<Seq<u8>>) -> bool {
    forall|r: int, c: int| 0 <= r < rows.len() && 0 <= c < rows[r].len() ==> maze_byte(#[trigger] rows[r][c])
}

/// The grid holds a wall where the rows hold a `#`.
pub open spec fn walls_shown(rows: Seq<Seq<u8>>, walls: Seq<Vec<bool>>) -> bool {
    &&& walls.len() == rows.len()
    &&& forall|r: int| 0 <= r < rows.len() ==> (#[trigger] walls[r])@.len() == rows[r].len()
    &&& forall|r: int, c: int|
        0 <= r < rows.len() && 0 <= c < rows[r].len() ==> #[trigger] walls[r]@[c] == (rows[r][c]
            == 0x23)
}

/// Reads a drawn maze: its walls, and where its start `S` and its end `E`
/// stand, each at the last place where the letter is drawn. Nothing is read
/// where the drawing holds another byte than `#`, `.`, `S` and `E`.
pub fn read_walls(text: &[u8]) -> (read: Option<
    (Vec<Vec<bool>>, Option<(usize, usize)>, Option<(usize, usize)>),
>)
    ensures
        read is Some == maze_drawn(rows_of(text@, lines_of(text@, 0, text@.len() as int))),
        read matches Some(found) ==> {
            let rows = rows_of(text@, lines_of(text@, 0, text@.len() as int));
            &&& walls_shown(rows, found.0@)
            &&& found.1 == last_before(rows, 0x53, rows.len() as int, 0)
            &&& found.2 == last_before(rows, 0x45, rows.len() as int, 0)
        },
{
    let lines = all_lines(text);
    let grid = byte_grid(text, &lines);
    let ghost rows = rows_of(text@, lines@);
    let mut walls: Vec<Vec<bool>> = Vec::new();
    let mut start: Option<(usize, usize)> = None;
    let mut end: Option<(usize, usize)> = None;
    let mut row_idx: usize = 0;
    while row_idx < grid.len()
        invariant
            row_idx <= grid.len(),
            grid_view(grid@) == rows,
            rows == rows_of(text@, lines_of(text@, 0, text@.len() as int)),
            walls@.len() == row_idx,
            forall|r: int| 0 <= r < row_idx ==> (#[trigger] walls@[r])@.len() == rows[r].len(),
            forall|r: int, c: int|
                0 <= r < row_idx && 0 <= c < rows[r].len() ==> maze_byte(#[trigger] rows[r][c]),
            forall|r: int, c: int|
                0 <= r < row_idx && 0 <= c < rows[r].len() ==> #[trigger] walls@[r]@[c] == (
                rows[r][c] == 0x23),
            start == last_before(rows, 0x53, row_idx as int, 0),
            end == last_before(rows, 0x45, row_idx as int, 0),
        decreases grid.len() - row_idx,
    {
        let row = &grid[row_idx];
        assert(row@ == rows[row_idx as int]);
        let mut cells: Vec<bool> = Vec::new();
        let mut col_idx: usize = 0;
        while col_idx < row.len()
            invariant
                col_idx <= row.len(),
                row_idx < grid.len(),
                grid_view(grid@) == rows,
                rows == rows_of(text@, lines_of(text@, 0, text@.len() as int)),
                row@ == rows[row_idx as int],
                cells@.len() == col_idx,
                forall|c: int| 0 <= c < col_idx ==> maze_byte(#[trigger] row@[c]),
                forall|c: int| 0 <= c < col_idx ==> #[trigger] cells@[c] == (row@[c] == 0x23),
                start == last_before(rows, 0x53, row_idx as int, col_idx as int),
                end == last_before(rows, 0x45, row_idx as int, col_idx as int),
            decreases row.len() - col_idx,
        {
            let c = row[col_idx];
            if c == 0x23 {
                cells.push(true);
            } else if c == 0x53 {
                start = Some((row_idx, col_idx));
                cells.push(false);
            } else if c == 0x45 {
                end = Some((row_idx, col_idx));
                cells.push(false);
            } else if c == 0x2e {
                cells.push(false);
            } else {
                proof {
                    assert(rows.len() == grid@.len());
                    assert(rows[row_idx as int][col_idx as int] == c);
                    assert(!maze_byte(rows[row_idx as int][col_idx as int]));
                }
                return None;
            }
            col_idx += 1;
        }
        walls.push(cells);
        row_idx += 1;
    }
    assert(rows.len() == grid@.len());
    Some((walls, start, end))
}

} // verus!
