//! A robot pushing boxes around a warehouse, and the sum of the boxes'
//! coordinates once it has carried out its instructions.
//!
//! In the wide warehouse a box takes two cells, and a step of the robot
//! searches for the boxes that it pushes. `lemma_search_b_exact` says what
//! the search finds, `lemma_pushed_boxes` where the boxes stand afterwards,
//! and `lemma_run_b_sound` that every instruction can be carried out where
//! the boxes are whole.

use vstd::prelude::*;
use crate::counting::{at_row, lemma_sum_grid_partial, row_sums, sum_below, sum_grid};
use crate::marks::{
    blank_marks, get_mark, lemma_mark_set, lemma_marked_bound, lemma_marked_none, marked,
    marks_shape, set_mark,
};
use crate::text::{block_end, find_block_end, lines_of, next_block, split_lines, NEWLINE};

verus! {

/// What a cell of the warehouse may hold.
#[derive(Clone, Copy, PartialEq, Eq, Hash, Structural)]
pub enum Object {
    Border,
    Box,
}

/// What a cell of the wide warehouse may hold.
#[derive(Clone, Copy, PartialEq, Eq, Hash, Structural)]
pub enum Object2 {
    Border,
    BoxStart,
    BoxEnd,
}

/// A direction in which the robot moves.
#[derive(Clone, Copy, PartialEq, Eq, Hash, Debug, Structural)]
pub enum Direction {
    Up,
    Right,
    Down,
    Left,
}

/// The cell one step from `cell` in the direction.
pub open spec fn step_of(dir: Direction, cell: (int, int)) -> (int, int) {
    match dir {
        Direction::Up => (cell.0 - 1, cell.1),
        Direction::Right => (cell.0, cell.1 + 1),
        Direction::Down => (cell.0 + 1, cell.1),
        Direction::Left => (cell.0, cell.1 - 1),
    }
}

impl Direction {
    /// The cell one step further; the step must not leave the grid upwards
    /// or to the left, nor overflow.
    pub fn apply(self, row: usize, col: usize) -> (next: (usize, usize))
        requires
            0 < row < usize::MAX,
            0 < col < usize::MAX,
        ensures
            (next.0 as int, next.1 as int) == step_of(self, (row as int, col as int)),
    {
        match self {
            Direction::Up => (row - 1, col),
            Direction::Right => (row, col + 1),
            Direction::Down => (row + 1, col),
            Direction::Left => (row, col - 1),
        }
    }
}

/// A grid of vectors as a grid of sequences.
pub open spec fn plan<T>(map: Seq<Vec<T>>) -> Seq<Seq<T>> {
    Seq::new(map.len(), |r: int| map[r]@)
}

/// The grid with one cell replaced.
pub open spec fn with_cell<T>(map: Seq<Seq<T>>, cell: (int, int), what: T) -> Seq<Seq<T>> {
    map.update(cell.0, map[cell.0].update(cell.1, what))
}

/// The cell lies in the grid.
pub open spec fn inside<T>(map: Seq<Seq<T>>, cell: (int, int)) -> bool {
    0 <= cell.0 < map.len() && 0 <= cell.1 < map[0].len()
}

/// The cell lies in the grid and not on its edge.
pub open spec fn interior<T>(map: Seq<Seq<T>>, cell: (int, int)) -> bool {
    0 < cell.0 < map.len() - 1 && 0 < cell.1 < map[0].len() - 1
}

/// The grid is a rectangle.
pub open spec fn rectangular<T>(map: Seq<Seq<T>>) -> bool {
    &&& map.len() > 0
    &&& forall|r: int| 0 <= r < map.len() ==> (#[trigger] map[r]).len() == map[0].len()
}

/// The warehouse is a rectangle with a border all around, and no box stands
/// on its edge.
pub open spec fn enclosed(map: Seq<Seq<Option<Object>>>) -> bool {
    &&& rectangular(map)
    &&& forall|r: int, c: int|
        0 <= r < map.len() && 0 <= c < map[0].len() && !interior(map, (r, c))
            ==> #[trigger] map[r][c] == Some(Object::Border)
}

/// How many cells lie between a cell and the edge of the grid in the
/// direction.
pub open spec fn room<T>(map: Seq<Seq<T>>, dir: Direction, cell: (int, int)) -> int {
    match dir {
        Direction::Up => cell.0,
        Direction::Right => map[0].len() - 1 - cell.1,
        Direction::Down => map.len() - 1 - cell.0,
        Direction::Left => cell.1,
    }
}

/// The first cell from `cell` on in the direction that holds no box.
pub open spec fn past_boxes(map: Seq<Seq<Option<Object>>>, dir: Direction, cell: (int, int)) -> (
    int,
    int,
)
    decreases room(map, dir, cell),
{
    if interior(map, cell) && map[cell.0][cell.1] == Some(Object::Box) {
        past_boxes(map, dir, step_of(dir, cell))
    } else {
        cell
    }
}

/// What one instruction does: the robot steps in the direction and pushes
/// the boxes before it, unless the border stands behind them.
pub open spec fn step_a(
    state: (Seq<Seq<Option<Object>>>, (int, int)),
    dir: Direction,
) -> (Seq<Seq<Option<Object>>>, (int, int)) {
    let (map, robot) = state;
    let next = step_of(dir, robot);
    let free = past_boxes(map, dir, next);
    if map[free.0][free.1] is Some {
        state
    } else {
        (with_cell(with_cell(map, free, Some(Object::Box)), next, None), next)
    }
}

/// What a list of instructions does.
pub open spec fn run_a(
    state: (Seq<Seq<Option<Object>>>, (int, int)),
    instructions: Seq<Direction>,
) -> (Seq<Seq<Option<Object>>>, (int, int))
    decreases instructions.len(),
{
    if instructions.len() == 0 {
        state
    } else {
        step_a(run_a(state, instructions.drop_last()), instructions.last())
    }
}

/// A box at a cell counts a hundred times its row plus its column.
pub open spec fn box_mark(map: Seq<Seq<Option<Object>>>) -> spec_fn(int, int) -> nat {
    |row: int, col: int|
        if map[row][col] == Some(Object::Box) {
            (100 * row + col) as nat
        } else {
            0nat
        }
}

/// The sum of the coordinates of all boxes.
pub open spec fn gps_a(map: Seq<Seq<Option<Object>>>) -> nat {
    sum_grid(map.len(), map[0].len(), box_mark(map))
}

/// The state is one that the robot can work in: an enclosed warehouse with
/// the robot inside, on a cell that holds nothing.
pub open spec fn workable_a(state: (Seq<Seq<Option<Object>>>, (int, int))) -> bool {
    &&& enclosed(state.0)
    &&& interior(state.0, state.1)
    &&& state.0.len() < usize::MAX
    &&& state.0[0].len() < usize::MAX
}

/// The first free cell behind a row of boxes lies in the grid.
pub proof fn lemma_past_boxes(map: Seq<Seq<Option<Object>>>, dir: Direction, cell: (int, int))
    requires
        enclosed(map),
        inside(map, cell),
    ensures
        inside(map, past_boxes(map, dir, cell)),
        map[past_boxes(map, dir, cell).0][past_boxes(map, dir, cell).1] != Some(Object::Box),
    decreases room(map, dir, cell),
{
    if interior(map, cell) && map[cell.0][cell.1] == Some(Object::Box) {
        lemma_past_boxes(map, dir, step_of(dir, cell));
    } else if !interior(map, cell) {
        assert(map[cell.0][cell.1] == Some(Object::Border));
    }
}

/// An instruction leaves a workable state workable.
pub proof fn lemma_step_a_workable(state: (Seq<Seq<Option<Object>>>, (int, int)), dir: Direction)
    requires
        workable_a(state),
    ensures
        workable_a(step_a(state, dir)),
        step_a(state, dir).0.len() == state.0.len(),
        step_a(state, dir).0[0].len() == state.0[0].len(),
{
    let (map, robot) = state;
    let next = step_of(dir, robot);
    lemma_past_boxes(map, dir, next);
    let free = past_boxes(map, dir, next);
    if map[free.0][free.1] is None {
        let after = step_a(state, dir).0;
        assert(interior(map, free)) by {
            if !interior(map, free) {
                assert(map[free.0][free.1] == Some(Object::Border));
            }
        }
        assert(interior(map, next)) by {
            if !interior(map, next) {
                assert(map[next.0][next.1] == Some(Object::Border));
                assert(past_boxes(map, dir, next) == next);
            }
        }
        assert forall|r: int| 0 <= r < after.len() implies (#[trigger] after[r]).len()
            == after[0].len() by {
            assert(map[r].len() == map[0].len());
        }
        assert forall|r: int, c: int|
            0 <= r < after.len() && 0 <= c < after[0].len() && !interior(
                after,
                (r, c),
            ) implies #[trigger] after[r][c] == Some(Object::Border) by {
            assert(map[r][c] == Some(Object::Border));
        }
    }
}

/// A list of instructions leaves a workable state workable.
pub proof fn lemma_run_a_workable(
    state: (Seq<Seq<Option<Object>>>, (int, int)),
    instructions: Seq<Direction>,
)
    requires
        workable_a(state),
    ensures
        workable_a(run_a(state, instructions)),
        run_a(state, instructions).0.len() == state.0.len(),
        run_a(state, instructions).0[0].len() == state.0[0].len(),
    decreases instructions.len(),
{
    if instructions.len() > 0 {
        lemma_run_a_workable(state, instructions.drop_last());
        lemma_step_a_workable(run_a(state, instructions.drop_last()), instructions.last());
    }
}

/// Carries out the instructions: the boxes end up where the robot has
/// pushed them.
pub fn push_boxes(
    map: &mut Vec<Vec<Option<Object>>>,
    robot_row: usize,
    robot_col: usize,
    instructions: &Vec<Direction>,
) -> (robot: (usize, usize))
    requires
        workable_a((plan(old(map)@), (robot_row as int, robot_col as int))),
    ensures
        (plan(final(map)@), (robot.0 as int, robot.1 as int)) == run_a(
            (plan(old(map)@), (robot_row as int, robot_col as int)),
            instructions@,
        ),
{
    let ghost start = (plan(map@), (robot_row as int, robot_col as int));
    let mut robot_row = robot_row;
    let mut robot_col = robot_col;
    let mut at: usize = 0;
    proof {
        assert(instructions@.take(0) =~= Seq::<Direction>::empty());
    }
    while at < instructions.len()
        invariant
            at <= instructions.len(),
            workable_a(start),
            (plan(map@), (robot_row as int, robot_col as int)) == run_a(
                start,
                instructions@.take(at as int),
            ),
        decreases instructions.len() - at,
    {
        let dir = instructions[at];
        let ghost state = (plan(map@), (robot_row as int, robot_col as int));
        proof {
            let done = instructions@.take(at + 1);
            assert(done.drop_last() =~= instructions@.take(at as int));
            assert(done.last() == dir);
            lemma_run_a_workable(start, instructions@.take(at as int));
            lemma_step_a_workable(state, dir);
        }
        let (next_robot_row, next_robot_col) = dir.apply(robot_row, robot_col);
        let (mut n_row, mut n_col) = (next_robot_row, next_robot_col);
        let ghost next = (next_robot_row as int, next_robot_col as int);

        let mut blocked = false;
        loop
            invariant_except_break
                !blocked,
            invariant
                state == (plan(map@), (robot_row as int, robot_col as int)),
                workable_a(state),
                inside(state.0, (n_row as int, n_col as int)),
                past_boxes(state.0, dir, (n_row as int, n_col as int)) == past_boxes(
                    state.0,
                    dir,
                    next,
                ),
            ensures
                (n_row as int, n_col as int) == past_boxes(state.0, dir, next),
                inside(state.0, (n_row as int, n_col as int)),
                blocked == (state.0[n_row as int][n_col as int] is Some),
            decreases room(state.0, dir, (n_row as int, n_col as int)),
        {
            assert(map@[n_row as int]@ == state.0[n_row as int]);
            assert(state.0[n_row as int].len() == state.0[0].len());
            match map[n_row][n_col] {
                Some(obj) => match obj {
                    Object::Border => {
                        blocked = true;
                        break ;
                    },
                    Object::Box => {
                        proof {
                            if !interior(state.0, (n_row as int, n_col as int)) {
                                assert(state.0[n_row as int][n_col as int] == Some(Object::Border));
                            }
                        }
                        let (r, c) = dir.apply(n_row, n_col);
                        n_row = r;
                        n_col = c;
                    },
                },
                None => {
                    break ;
                },
            }
        }
        if !blocked {
            let ghost before = map@;
            proof {
                lemma_past_boxes(state.0, dir, next);
                assert(before[n_row as int]@ == state.0[n_row as int]);
                assert(state.0[n_row as int].len() == state.0[0].len());
                assert(before[next_robot_row as int]@ == state.0[next_robot_row as int]);
                assert(state.0[next_robot_row as int].len() == state.0[0].len());
            }
            map[n_row][n_col] = Some(Object::Box);
            let ghost middle = map@;
            proof {
                assert(plan(middle) =~= with_cell(
                    state.0,
                    (n_row as int, n_col as int),
                    Some(Object::Box),
                ));
                assert(middle[next_robot_row as int]@.len() == state.0[0].len());
            }
            map[next_robot_row][next_robot_col] = None;
            proof {
                assert(plan(map@) =~= with_cell(plan(middle), next, None));
            }

            robot_row = next_robot_row;
            robot_col = next_robot_col;
        }
        at += 1;
    }
    proof {
        assert(instructions@.take(at as int) =~= instructions@);
    }
    (robot_row, robot_col)
}

/// The sum of the coordinates of all boxes.
pub fn sum_boxes(map: &Vec<Vec<Option<Object>>>) -> (sum: usize)
    requires
        rectangular(plan(map@)),
        gps_a(plan(map@)) <= usize::MAX,
    ensures
        sum == gps_a(plan(map@)),
{
    let ghost grid = plan(map@);
    let ghost mark = box_mark(grid);
    let ghost rows = grid.len();
    let ghost cols = grid[0].len();
    let mut sum: usize = 0;
    let mut row_idx: usize = 0;
    while row_idx < map.len()
        invariant
            row_idx <= map.len(),
            grid == plan(map@),
            rectangular(grid),
            mark == box_mark(grid),
            rows == grid.len(),
            cols == grid[0].len(),
            sum_grid(rows, cols, mark) <= usize::MAX,
            sum == sum_below(row_idx as nat, row_sums(cols, mark)),
        decreases map.len() - row_idx,
    {
        let ghost above = sum;
        let mut col_idx: usize = 0;
        assert(grid[row_idx as int] == map@[row_idx as int]@);
        assert(grid[row_idx as int].len() == cols);
        while col_idx < map[row_idx].len()
            invariant
                row_idx < map.len(),
                col_idx <= map@[row_idx as int].len(),
                map@[row_idx as int].len() == cols,
                grid == plan(map@),
                mark == box_mark(grid),
                rows == grid.len(),
                sum_grid(rows, cols, mark) <= usize::MAX,
                above == sum_below(row_idx as nat, row_sums(cols, mark)),
                sum == above + sum_below(col_idx as nat, at_row(mark, row_idx as int)),
            decreases cols - col_idx,
        {
            proof {
                lemma_sum_grid_partial(rows, cols, mark, row_idx as nat, (col_idx + 1) as nat);
                assert(grid[row_idx as int][col_idx as int] == map@[row_idx as int]@[col_idx as int]);
            }
            match map[row_idx][col_idx] {
                Some(Object::Box) => {
                    sum += 100 * row_idx + col_idx;
                },
                _ => {},
            }
            col_idx += 1;
        }
        proof {
            lemma_sum_grid_partial(rows, cols, mark, row_idx as nat, cols);
        }
        row_idx += 1;
    }
    sum
}

/// The byte stands for a cell of the warehouse.
pub open spec fn cell_byte(byte: u8) -> bool {
    byte == 35 || byte == 46 || byte == 79 || byte == 64
}

/// What the cell that a byte stands for holds.
pub open spec fn object_of(byte: u8) -> Option<Object> {
    if byte == 35 {
        Some(Object::Border)
    } else if byte == 79 {
        Some(Object::Box)
    } else {
        None
    }
}

/// The lines lie in the text.
pub open spec fn lines_within(text: Seq<u8>, lines: Seq<(usize, usize)>) -> bool {
    forall|r: int| 0 <= r < lines.len() ==> (#[trigger] lines[r]).0 <= lines[r].1 <= text.len()
}

/// The byte that stands for a cell.
pub open spec fn byte_at(text: Seq<u8>, lines: Seq<(usize, usize)>, row: int, col: int) -> u8 {
    text[lines[row].0 + col]
}

/// Row and column name a byte of the lines.
pub open spec fn in_lines(lines: Seq<(usize, usize)>, row: int, col: int) -> bool {
    0 <= row < lines.len() && 0 <= col < lines[row].1 - lines[row].0
}

/// Every byte of the lines stands for a cell.
pub open spec fn map_bytes_ok(text: Seq<u8>, lines: Seq<(usize, usize)>) -> bool {
    forall|r: int, c: int| in_lines(lines, r, c) ==> cell_byte(#[trigger] byte_at(text, lines, r, c))
}

/// The warehouse that the lines draw.
pub open spec fn map_of(text: Seq<u8>, lines: Seq<(usize, usize)>) -> Seq<Seq<Option<Object>>> {
    Seq::new(
        lines.len(),
        |r: int|
            Seq::new(
                (lines[r].1 - lines[r].0) as nat,
                |c: int| object_of(byte_at(text, lines, r, c)),
            ),
    )
}

/// One position comes before another, line by line.
pub open spec fn earlier(a: (usize, usize), b: (usize, usize)) -> bool {
    a.0 < b.0 || (a.0 == b.0 && a.1 < b.1)
}

/// `robot` is where the last `@` of the lines stands, or nothing where
/// there is none.
pub open spec fn is_robot(text: Seq<u8>, lines: Seq<(usize, usize)>, robot: Option<(usize, usize)>) -> bool {
    match robot {
        Some(at) => {
            &&& in_lines(lines, at.0 as int, at.1 as int)
            &&& byte_at(text, lines, at.0 as int, at.1 as int) == 64
            &&& forall|r: usize, c: usize|
                in_lines(lines, r as int, c as int) && earlier(at, (r, c)) ==> #[trigger] byte_at(
                    text,
                    lines,
                    r as int,
                    c as int,
                ) != 64
        },
        None => forall|r: int, c: int|
            in_lines(lines, r, c) ==> #[trigger] byte_at(text, lines, r, c) != 64,
    }
}

/// Reads the warehouse that the lines draw, and where the robot stands in
/// it. `None` where a byte stands for no cell.
pub fn read_map(text: &[u8], lines: &Vec<(usize, usize)>) -> (read: Option<
    (Vec<Vec<Option<Object>>>, Option<(usize, usize)>),
>)
    requires
        lines_within(text@, lines@),
    ensures
        read is Some == map_bytes_ok(text@, lines@),
        read matches Some(found) ==> plan(found.0@) == map_of(text@, lines@) && is_robot(
            text@,
            lines@,
            found.1,
        ),
{
    let mut map: Vec<Vec<Option<Object>>> = Vec::new();
    let mut robot: Option<(usize, usize)> = None;
    let mut row: usize = 0;
    while row < lines.len()
        invariant
            row <= lines.len(),
            lines_within(text@, lines@),
            map@.len() == row,
            forall|r: int, c: int|
                in_lines(lines@, r, c) && r < row ==> cell_byte(
                    #[trigger] byte_at(text@, lines@, r, c),
                ),
            forall|r: int| 0 <= r < row ==> (#[trigger] map@[r])@ == map_of(text@, lines@)[r],
            is_robot(text@, lines@.take(row as int), robot),
        decreases lines.len() - row,
    {
        let (from, to) = lines[row];
        let mut cells: Vec<Option<Object>> = Vec::new();
        let mut col: usize = 0;
        let ghost wanted = map_of(text@, lines@)[row as int];
        let ghost above = lines@.take(row as int);
        proof {
            assert forall|r: int, c: int| in_lines(above, r, c) implies byte_at(text@, above, r, c)
                == byte_at(text@, lines@, r, c) by {}
            match robot {
                Some(at) => {
                    assert forall|r: usize, c: usize|
                        in_lines(above, r as int, c as int) && earlier(
                            at,
                            (r, c),
                        ) implies #[trigger] byte_at(text@, lines@, r as int, c as int) != 64 by {
                        assert(byte_at(text@, above, r as int, c as int) != 64);
                    }
                },
                None => {
                    assert forall|r: int, c: int| in_lines(above, r, c) implies #[trigger] byte_at(
                        text@,
                        lines@,
                        r,
                        c,
                    ) != 64 by {
                        assert(byte_at(text@, above, r, c) != 64);
                    }
                },
            }
        }
        while col < to - from
            invariant
                row < lines.len(),
                lines@[row as int] == (from, to),
                from <= to <= text@.len(),
                col <= to - from,
                above == lines@.take(row as int),
                wanted == map_of(text@, lines@)[row as int],
                cells@ == wanted.take(col as int),
                forall|c: int|
                    0 <= c < col ==> cell_byte(#[trigger] byte_at(text@, lines@, row as int, c)),
                match robot {
                    Some(at) => {
                        &&& (in_lines(above, at.0 as int, at.1 as int) || (at.0 == row && at.1
                            < col))
                        &&& byte_at(text@, lines@, at.0 as int, at.1 as int) == 64
                        &&& forall|r: usize, c: usize|
                            (in_lines(above, r as int, c as int) || (r == row && c < col))
                                && earlier(at, (r, c)) ==> #[trigger] byte_at(
                                text@,
                                lines@,
                                r as int,
                                c as int,
                            ) != 64
                    },
                    None => forall|r: int, c: int|
                        (in_lines(above, r, c) || (r == row && 0 <= c < col))
                            ==> #[trigger] byte_at(text@, lines@, r, c) != 64,
                },
            decreases to - from - col,
        {
            let byte = text[from + col];
            assert(byte == byte_at(text@, lines@, row as int, col as int));
            let ghost before = cells@;
            if byte == 35 {
                cells.push(Some(Object::Border));
            } else if byte == 46 {
                cells.push(None);
            } else if byte == 79 {
                cells.push(Some(Object::Box));
            } else if byte == 64 {
                robot = Some((row, col));
                cells.push(None);
            } else {
                assert(in_lines(lines@, row as int, col as int));
                return None;
            }
            proof {
                assert(cells@ =~= wanted.take(col + 1));
            }
            col += 1;
        }
        proof {
            assert(wanted.take(col as int) =~= wanted);
            let below = lines@.take(row + 1);
            assert forall|r: int, c: int| in_lines(below, r, c) implies in_lines(above, r, c) || (r
                == row && 0 <= c < col) by {}
            assert forall|r: int, c: int| in_lines(above, r, c) implies byte_at(text@, above, r, c)
                == byte_at(text@, lines@, r, c) by {}
            assert forall|r: int, c: int| in_lines(below, r, c) implies byte_at(text@, below, r, c)
                == byte_at(text@, lines@, r, c) by {}
            assert(is_robot(text@, below, robot));
        }
        map.push(cells);
        row += 1;
    }
    proof {
        assert(lines@.take(row as int) =~= lines@);
        assert(plan(map@) =~= map_of(text@, lines@));
    }
    Some((map, robot))
}

/// The direction that a byte stands for.
pub open spec fn dir_of(byte: u8) -> Option<Direction> {
    if byte == 94 {
        Some(Direction::Up)
    } else if byte == 62 {
        Some(Direction::Right)
    } else if byte == 118 {
        Some(Direction::Down)
    } else if byte == 60 {
        Some(Direction::Left)
    } else {
        None
    }
}

/// The instructions written between `from` and `to`, line feeds left out;
/// nothing where another byte stands for no direction.
pub open spec fn instructions_in(text: Seq<u8>, from: int, to: int) -> Option<Seq<Direction>>
    decreases to - from,
{
    if from >= to {
        Some(Seq::empty())
    } else {
        match instructions_in(text, from, to - 1) {
            Some(front) => if text[to - 1] == NEWLINE {
                Some(front)
            } else {
                match dir_of(text[to - 1]) {
                    Some(dir) => Some(front.push(dir)),
                    None => None,
                }
            },
            None => None,
        }
    }
}

/// Where reading a part of the instructions fails, reading all of them
/// fails.
pub proof fn lemma_instructions_fail(text: Seq<u8>, from: int, upto: int, to: int)
    requires
        from <= upto <= to,
        instructions_in(text, from, upto) is None,
    ensures
        instructions_in(text, from, to) is None,
    decreases to - upto,
{
    if upto < to {
        lemma_instructions_fail(text, from, upto, to - 1);
    }
}

/// Reads the instructions written between `from` and `to`.
pub fn read_instructions(text: &[u8], from: usize, to: usize) -> (read: Option<Vec<Direction>>)
    requires
        from <= to <= text@.len(),
    ensures
        match read {
            Some(found) => instructions_in(text@, from as int, to as int) == Some(found@),
            None => instructions_in(text@, from as int, to as int) is None,
        },
{
    let mut instructions: Vec<Direction> = Vec::new();
    let mut at = from;
    while at < to
        invariant
            from <= at <= to,
            to <= text@.len(),
            instructions_in(text@, from as int, at as int) == Some(instructions@),
        decreases to - at,
    {
        let byte = text[at];
        if byte == 94 {
            instructions.push(Direction::Up);
        } else if byte == 62 {
            instructions.push(Direction::Right);
        } else if byte == 118 {
            instructions.push(Direction::Down);
        } else if byte == 60 {
            instructions.push(Direction::Left);
        } else if byte != NEWLINE {
            proof {
                assert(instructions_in(text@, from as int, at + 1) is None);
                lemma_instructions_fail(text@, from as int, at + 1, to as int);
            }
            return None;
        }
        at += 1;
    }
    Some(instructions)
}

/// The lines that draw the warehouse: those of the first block of the text.
pub open spec fn map_lines(text: Seq<u8>) -> Seq<(usize, usize)> {
    lines_of(text, 0, block_end(text, 0))
}

/// The instructions of the text: those of its second block.
pub open spec fn text_instructions(text: Seq<u8>) -> Option<Seq<Direction>> {
    let from = next_block(text, block_end(text, 0));
    instructions_in(text, from, block_end(text, from))
}

/// Where the robot stands: at the last `@` of the lines.
pub open spec fn robot_of(text: Seq<u8>, lines: Seq<(usize, usize)>) -> (usize, usize) {
    choose|at: (usize, usize)| is_robot(text, lines, Some(at))
}

/// The warehouse and the robot as the text draws them.
pub open spec fn drawn_a(text: Seq<u8>) -> (Seq<Seq<Option<Object>>>, (int, int)) {
    (
        map_of(text, map_lines(text)),
        (
            robot_of(text, map_lines(text)).0 as int,
            robot_of(text, map_lines(text)).1 as int,
        ),
    )
}

/// The text draws a warehouse with a robot, and gives instructions.
pub open spec fn well_drawn(text: Seq<u8>) -> bool {
    &&& map_bytes_ok(text, map_lines(text))
    &&& is_robot(text, map_lines(text), Some(robot_of(text, map_lines(text))))
    &&& text_instructions(text) is Some
}

/// There is one last `@` at most.
pub proof fn lemma_robot_unique(
    text: Seq<u8>,
    lines: Seq<(usize, usize)>,
    a: Option<(usize, usize)>,
    b: Option<(usize, usize)>,
)
    requires
        is_robot(text, lines, a),
        is_robot(text, lines, b),
    ensures
        a == b,
{
    if a is Some && b is Some {
        let x = a->0;
        let y = b->0;
        if x != y {
            if earlier(x, y) {
                assert(byte_at(text, lines, y.0 as int, y.1 as int) != 64);
            } else {
                assert(earlier(y, x));
                assert(byte_at(text, lines, x.0 as int, x.1 as int) != 64);
            }
        }
    } else if a is Some {
        let x = a->0;
        assert(byte_at(text, lines, x.0 as int, x.1 as int) != 64);
    } else if b is Some {
        let y = b->0;
        assert(byte_at(text, lines, y.0 as int, y.1 as int) != 64);
    }
}

/// The sum of the boxes' coordinates after the robot has carried out the
/// instructions of the text in the warehouse that the text draws.
pub fn solve_a(input: &[u8]) -> (sum: u64)
    requires
        well_drawn(input@),
        workable_a(drawn_a(input@)),
        gps_a(run_a(drawn_a(input@), text_instructions(input@)->0).0) <= usize::MAX,
    ensures
        sum == gps_a(run_a(drawn_a(input@), text_instructions(input@)->0).0),
{
    let map_end = find_block_end(input, 0);
    let lines = split_lines(input, 0, map_end);
    let (mut map, robot) = read_map(input, &lines).unwrap();
    proof {
        lemma_robot_unique(
            input@,
            lines@,
            robot,
            Some(robot_of(input@, lines@)),
        );
    }
    let (robot_row, robot_col) = robot.unwrap();
    let moves_from = if input.len() - map_end >= 2 {
        map_end + 2
    } else {
        input.len()
    };
    let moves_to = find_block_end(input, moves_from);
    let instructions = read_instructions(input, moves_from, moves_to).unwrap();
    let ghost start = (plan(map@), (robot_row as int, robot_col as int));
    push_boxes(&mut map, robot_row, robot_col, &instructions);
    proof {
        lemma_run_a_workable(start, instructions@);
    }
    sum_boxes(&map) as u64
}

/// The wide warehouse is a rectangle with a border all around.
pub open spec fn enclosed_b(map: Seq<Seq<Option<Object2>>>) -> bool {
    &&& rectangular(map)
    &&& map.len() < usize::MAX
    &&& map[0].len() < usize::MAX
    &&& forall|r: int, c: int|
        0 <= r < map.len() && 0 <= c < map[0].len() && !interior(map, (r, c))
            ==> #[trigger] map[r][c] == Some(Object2::Border)
}

/// The cell one step from a cell in the direction.
pub open spec fn front_of(dir: Direction, cell: (usize, usize)) -> (usize, usize) {
    (
        step_of(dir, (cell.0 as int, cell.1 as int)).0 as usize,
        step_of(dir, (cell.0 as int, cell.1 as int)).1 as usize,
    )
}

/// How a search for the boxes that a move pushes ends.
pub enum Search {
    /// The search did not come to an end.
    Open,
    /// A border stands in the way.
    Blocked,
    /// The boxes to push, each by the cell of its left half.
    Free(Seq<(usize, usize)>),
}

/// What the stack of the search holds after a cell with a half of a box
/// has been looked at: the cell before the half, and the other half where
/// that has to be looked at too.
pub open spec fn pushed_for(
    rest: Seq<(usize, usize, bool)>,
    dir: Direction,
    cell: (usize, usize),
    check_other: bool,
    other_col: usize,
) -> Seq<(usize, usize, bool)> {
    let ahead = rest.push((front_of(dir, cell).0, front_of(dir, cell).1, true));
    if check_other {
        ahead.push((cell.0, other_col, false))
    } else {
        ahead
    }
}

/// The search for the boxes that a move pushes. It takes cells off a
/// stack; a cell that it has seen before is passed over, a border ends it,
/// and a half of a box brings the cell before it and the other half onto
/// the stack. The left halves are written down.
pub open spec fn collect(
    map: Seq<Seq<Option<Object2>>>,
    dir: Direction,
    stack: Seq<(usize, usize, bool)>,
    seen: Seq<Seq<bool>>,
    moves: Seq<(usize, usize)>,
    fuel: nat,
) -> Search
    decreases fuel,
{
    if stack.len() == 0 {
        Search::Free(moves)
    } else if fuel == 0 {
        Search::Open
    } else {
        let (row, col, check_other) = stack.last();
        let rest = stack.drop_last();
        let left = (fuel - 1) as nat;
        if seen[row as int][col as int] {
            collect(map, dir, rest, seen, moves, left)
        } else {
            let seen2 = with_cell(seen, (row as int, col as int), true);
            match map[row as int][col as int] {
                Some(Object2::Border) => Search::Blocked,
                Some(Object2::BoxStart) => collect(
                    map,
                    dir,
                    pushed_for(rest, dir, (row, col), check_other, (col + 1) as usize),
                    seen2,
                    moves.push((row, col)),
                    left,
                ),
                Some(Object2::BoxEnd) => collect(
                    map,
                    dir,
                    pushed_for(rest, dir, (row, col), check_other, (col - 1) as usize),
                    seen2,
                    moves,
                    left,
                ),
                None => collect(map, dir, rest, seen2, moves, left),
            }
        }
    }
}

/// The boxes can be moved without touching the edge of the warehouse: both
/// halves of each, and the cells before them, lie inside.
pub open spec fn moves_inside(map: Seq<Seq<Option<Object2>>>, dir: Direction, moves: Seq<(usize, usize)>) -> bool {
    forall|i: int|
        0 <= i < moves.len() ==> {
            let from = #[trigger] moves[i];
            let to = front_of(dir, from);
            &&& interior(map, (from.0 as int, from.1 as int))
            &&& interior(map, (from.0 as int, from.1 + 1))
            &&& interior(map, (to.0 as int, to.1 as int))
            &&& interior(map, (to.0 as int, to.1 + 1))
        }
}

/// The warehouse with the first `upto` boxes taken out.
pub open spec fn cleared(map: Seq<Seq<Option<Object2>>>, moves: Seq<(usize, usize)>, upto: nat) -> Seq<
    Seq<Option<Object2>>,
>
    decreases upto,
{
    if upto == 0 {
        map
    } else {
        let from = moves[upto - 1];
        with_cell(
            with_cell(cleared(map, moves, (upto - 1) as nat), (from.0 as int, from.1 as int), None),
            (from.0 as int, from.1 + 1),
            None,
        )
    }
}

/// The warehouse with the first `upto` boxes put in one step further.
pub open spec fn placed(
    map: Seq<Seq<Option<Object2>>>,
    dir: Direction,
    moves: Seq<(usize, usize)>,
    upto: nat,
) -> Seq<Seq<Option<Object2>>>
    decreases upto,
{
    if upto == 0 {
        map
    } else {
        let to = front_of(dir, moves[upto - 1]);
        with_cell(
            with_cell(
                placed(map, dir, moves, (upto - 1) as nat),
                (to.0 as int, to.1 as int),
                Some(Object2::BoxStart),
            ),
            (to.0 as int, to.1 + 1),
            Some(Object2::BoxEnd),
        )
    }
}

/// The number of steps that a search in the warehouse is given.
pub open spec fn search_fuel(map: Seq<Seq<Option<Object2>>>) -> nat {
    (3 * (map.len() * map[0].len()) + 1) as nat
}

/// The search for the boxes that the robot pushes when it takes a step.
pub open spec fn search_b(map: Seq<Seq<Option<Object2>>>, robot: (int, int), dir: Direction) -> Search {
    let next = step_of(dir, robot);
    collect(
        map,
        dir,
        seq![(next.0 as usize, next.1 as usize, true)],
        Seq::new(map.len(), |r: int| Seq::new(map[0].len(), |c: int| false)),
        Seq::empty(),
        search_fuel(map),
    )
}

/// What one instruction does in the wide warehouse: nothing where a border
/// stands in the way; else the boxes found by the search are taken out and
/// put in again one step further, and the robot takes the step. Nothing is
/// returned where that would touch the edge of the warehouse.
pub open spec fn step_b(
    state: (Seq<Seq<Option<Object2>>>, (int, int)),
    dir: Direction,
) -> Option<(Seq<Seq<Option<Object2>>>, (int, int))> {
    let (map, robot) = state;
    let next = step_of(dir, robot);
    match search_b(map, robot, dir) {
        Search::Open => None,
        Search::Blocked => Some(state),
        Search::Free(moves) => if moves_inside(map, dir, moves) {
            Some(
                (
                    with_cell(
                        placed(cleared(map, moves, moves.len()), dir, moves, moves.len()),
                        next,
                        None,
                    ),
                    next,
                ),
            )
        } else {
            None
        },
    }
}

/// What a list of instructions does in the wide warehouse.
pub open spec fn run_b(
    state: (Seq<Seq<Option<Object2>>>, (int, int)),
    instructions: Seq<Direction>,
) -> Option<(Seq<Seq<Option<Object2>>>, (int, int))>
    decreases instructions.len(),
{
    if instructions.len() == 0 {
        Some(state)
    } else {
        match run_b(state, instructions.drop_last()) {
            Some(before) => step_b(before, instructions.last()),
            None => None,
        }
    }
}

/// The state is one that the robot can work in.
pub open spec fn workable_b(state: (Seq<Seq<Option<Object2>>>, (int, int))) -> bool {
    enclosed_b(state.0) && interior(state.0, state.1)
}

/// Taking boxes out and putting boxes in inside the warehouse keeps it
/// enclosed.
pub proof fn lemma_cleared_enclosed(
    map: Seq<Seq<Option<Object2>>>,
    dir: Direction,
    moves: Seq<(usize, usize)>,
    upto: nat,
)
    requires
        enclosed_b(map),
        moves_inside(map, dir, moves),
        upto <= moves.len(),
    ensures
        enclosed_b(cleared(map, moves, upto)),
        cleared(map, moves, upto).len() == map.len(),
        cleared(map, moves, upto)[0].len() == map[0].len(),
    decreases upto,
{
    if upto > 0 {
        lemma_cleared_enclosed(map, dir, moves, (upto - 1) as nat);
        let before = cleared(map, moves, (upto - 1) as nat);
        let from = moves[upto - 1];
        lemma_set_inside(before, (from.0 as int, from.1 as int), None);
        let middle = with_cell(before, (from.0 as int, from.1 as int), None);
        lemma_set_inside(middle, (from.0 as int, from.1 + 1), None);
    }
}

/// Putting boxes in inside the warehouse keeps it enclosed.
pub proof fn lemma_placed_enclosed(
    map: Seq<Seq<Option<Object2>>>,
    shape: Seq<Seq<Option<Object2>>>,
    dir: Direction,
    moves: Seq<(usize, usize)>,
    upto: nat,
)
    requires
        enclosed_b(map),
        moves_inside(shape, dir, moves),
        shape.len() == map.len(),
        shape[0].len() == map[0].len(),
        upto <= moves.len(),
    ensures
        enclosed_b(placed(map, dir, moves, upto)),
        placed(map, dir, moves, upto).len() == map.len(),
        placed(map, dir, moves, upto)[0].len() == map[0].len(),
    decreases upto,
{
    if upto > 0 {
        lemma_placed_enclosed(map, shape, dir, moves, (upto - 1) as nat);
        let before = placed(map, dir, moves, (upto - 1) as nat);
        let to = front_of(dir, moves[upto - 1]);
        assert(interior(shape, (to.0 as int, to.1 as int)));
        lemma_set_inside(before, (to.0 as int, to.1 as int), Some(Object2::BoxStart));
        let middle = with_cell(before, (to.0 as int, to.1 as int), Some(Object2::BoxStart));
        lemma_set_inside(middle, (to.0 as int, to.1 + 1), Some(Object2::BoxEnd));
    }
}

/// Setting a cell inside the warehouse keeps it enclosed.
pub proof fn lemma_set_inside(map: Seq<Seq<Option<Object2>>>, cell: (int, int), what: Option<Object2>)
    requires
        enclosed_b(map),
        interior(map, cell),
    ensures
        enclosed_b(with_cell(map, cell, what)),
        with_cell(map, cell, what).len() == map.len(),
        with_cell(map, cell, what)[0].len() == map[0].len(),
{
    let after = with_cell(map, cell, what);
    assert forall|r: int| 0 <= r < after.len() implies (#[trigger] after[r]).len()
        == after[0].len() by {
        assert(map[r].len() == map[0].len());
    }
    assert forall|r: int, c: int|
        0 <= r < after.len() && 0 <= c < after[0].len() && !interior(
            after,
            (r, c),
        ) implies #[trigger] after[r][c] == Some(Object2::Border) by {
        assert(map[r][c] == Some(Object2::Border));
    }
}

/// A grid of marks as a grid of sequences is the grid with one cell set
/// after the cell has been marked.
pub proof fn lemma_plan_marked(before: Seq<Vec<bool>>, after: Seq<Vec<bool>>, cell: (int, int))
    requires
        0 <= cell.0 < before.len(),
        0 <= cell.1 < before[cell.0].len(),
        crate::marks::mark_set(before, after, cell),
    ensures
        plan(after) == with_cell(plan(before), cell, true),
{
    assert forall|r: int| 0 <= r < after.len() implies #[trigger] plan(after)[r] == with_cell(
        plan(before),
        cell,
        true,
    )[r] by {
        if r != cell.0 {
            assert(after[r] == before[r]);
        }
    }
    assert(plan(after) =~= with_cell(plan(before), cell, true));
}

/// Every half of a box has its other half beside it.
pub open spec fn paired(map: Seq<Seq<Option<Object2>>>) -> bool {
    forall|r: int, c: int|
        0 <= r < map.len() && 0 <= c < map[0].len() ==> ((#[trigger] map[r][c]) == Some(
            Object2::BoxStart,
        ) ==> c + 1 < map[0].len() && map[r][c + 1] == Some(Object2::BoxEnd)) && (map[r][c] == Some(
            Object2::BoxEnd,
        ) ==> c >= 1 && map[r][c - 1] == Some(Object2::BoxStart))
}

/// The state is one in which the robot can work and always moves on: the
/// warehouse is enclosed, its boxes are whole, and the robot stands inside
/// on a free cell.
pub open spec fn sound_b(state: (Seq<Seq<Option<Object2>>>, (int, int))) -> bool {
    &&& workable_b(state)
    &&& paired(state.0)
    &&& state.0[state.1.0][state.1.1] is None
}

/// The warehouse is enclosed and its boxes are whole.
#[verifier::opaque]
pub open spec fn boxes_whole(map: Seq<Seq<Option<Object2>>>) -> bool {
    enclosed_b(map) && paired(map)
}

/// The cell lies in the grid.
pub open spec fn in_map(map: Seq<Seq<Option<Object2>>>, cell: (int, int)) -> bool {
    0 <= cell.0 < map.len() && 0 <= cell.1 < map[0].len()
}

/// The cell of an item of the stack.
pub open spec fn spot(item: (usize, usize, bool)) -> (int, int) {
    (item.0 as int, item.1 as int)
}

/// The cell of a move.
pub open spec fn from_of(item: (usize, usize)) -> (int, int) {
    (item.0 as int, item.1 as int)
}

/// The cell holds half of a box.
pub open spec fn box_part(map: Seq<Seq<Option<Object2>>>, cell: (int, int)) -> bool {
    map[cell.0][cell.1] == Some(Object2::BoxStart) || map[cell.0][cell.1] == Some(Object2::BoxEnd)
}

/// The cell that holds the other half of the box.
pub open spec fn partner(map: Seq<Seq<Option<Object2>>>, cell: (int, int)) -> (int, int) {
    if map[cell.0][cell.1] == Some(Object2::BoxStart) {
        (cell.0, cell.1 + 1)
    } else {
        (cell.0, cell.1 - 1)
    }
}

/// The cell waits on the stack.
pub open spec fn waiting(stack: Seq<(usize, usize, bool)>, cell: (int, int)) -> bool {
    exists|i: int| 0 <= i < stack.len() && spot(#[trigger] stack[i]) == cell
}

/// The cell has been looked at, or waits on the stack.
pub open spec fn known(seen: Seq<Seq<bool>>, stack: Seq<(usize, usize, bool)>, cell: (int, int)) -> bool {
    seen[cell.0][cell.1] || waiting(stack, cell)
}

/// A cell that has been looked at holds no border, and if it holds half of
/// a box, the cell before it and the cell of the other half are known.
pub open spec fn looked(
    map: Seq<Seq<Option<Object2>>>,
    dir: Direction,
    stack: Seq<(usize, usize, bool)>,
    seen: Seq<Seq<bool>>,
    cell: (int, int),
) -> bool {
    &&& map[cell.0][cell.1] != Some(Object2::Border)
    &&& box_part(map, cell) ==> {
        &&& in_map(map, step_of(dir, cell))
        &&& known(seen, stack, step_of(dir, cell))
        &&& in_map(map, partner(map, cell))
        &&& known(seen, stack, partner(map, cell))
    }
}

/// The cell holds half of a box whose other half has been looked at.
pub open spec fn half_seen(map: Seq<Seq<Option<Object2>>>, seen: Seq<Seq<bool>>, cell: (int, int)) -> bool {
    &&& box_part(map, cell)
    &&& in_map(map, partner(map, cell))
    &&& seen[partner(map, cell).0][partner(map, cell).1]
}

/// How a search for the boxes to push stands: the cells on the stack lie
/// in the grid; an item that does not ask for the other half of its box
/// has that half looked at already; the cells looked at are as `looked`
/// says; the moves are the left halves looked at, each once; and the first
/// cell of the search is known.
#[verifier::opaque]
pub open spec fn collecting(
    map: Seq<Seq<Option<Object2>>>,
    dir: Direction,
    stack: Seq<(usize, usize, bool)>,
    seen: Seq<Seq<bool>>,
    moves: Seq<(usize, usize)>,
    first: (int, int),
) -> bool {
    &&& seen.len() == map.len()
    &&& forall|r: int| 0 <= r < seen.len() ==> (#[trigger] seen[r]).len() == map[0].len()
    &&& in_map(map, first) && known(seen, stack, first)
    &&& forall|i: int|
        0 <= i < stack.len() ==> in_map(map, spot(#[trigger] stack[i])) && (!stack[i].2 ==> half_seen(
            map,
            seen,
            spot(stack[i]),
        ))
    &&& forall|cell: (int, int)|
        in_map(map, cell) && seen[cell.0][cell.1] ==> #[trigger] looked(map, dir, stack, seen, cell)
    &&& moves.no_duplicates()
    &&& forall|i: int|
        0 <= i < moves.len() ==> in_map(map, from_of(#[trigger] moves[i])) && seen[from_of(
            moves[i],
        ).0][from_of(moves[i]).1] && map[from_of(moves[i]).0][from_of(moves[i]).1] == Some(
            Object2::BoxStart,
        )
    &&& forall|cell: (int, int)|
        in_map(map, cell) && seen[cell.0][cell.1] && #[trigger] map[cell.0][cell.1] == Some(
            Object2::BoxStart,
        ) ==> moves.contains((cell.0 as usize, cell.1 as usize))
}

/// The number of cells that have not been looked at.
pub open spec fn unseen(seen: Seq<Seq<bool>>) -> nat {
    sum_grid(
        seen.len(),
        seen[0].len(),
        |r: int, c: int|
            if seen[r][c] {
                0nat
            } else {
                1nat
            },
    )
}

/// Looking at one more cell leaves one cell less to look at.
pub proof fn lemma_unseen_less(seen: Seq<Seq<bool>>, cell: (int, int))
    requires
        seen.len() > 0,
        forall|r: int| 0 <= r < seen.len() ==> (#[trigger] seen[r]).len() == seen[0].len(),
        0 <= cell.0 < seen.len(),
        0 <= cell.1 < seen[0].len(),
        !seen[cell.0][cell.1],
    ensures
        unseen(with_cell(seen, cell, true)) + 1 == unseen(seen),
        with_cell(seen, cell, true).len() == seen.len(),
        forall|r: int|
            0 <= r < seen.len() ==> (#[trigger] with_cell(seen, cell, true)[r]).len()
                == seen[0].len(),
{
    let after = with_cell(seen, cell, true);
    let rows = seen.len();
    let cols = seen[0].len();
    let old_f = |r: int, c: int|
        if seen[r][c] {
            0nat
        } else {
            1nat
        };
    let new_f = |r: int, c: int|
        if after[r][c] {
            0nat
        } else {
            1nat
        };
    let one = |r: int, c: int|
        if (r, c) == cell {
            1nat
        } else {
            0nat
        };
    assert(after[0].len() == cols);
    assert forall|r: int, c: int| 0 <= r < rows && 0 <= c < cols implies #[trigger] old_f(r, c)
        == new_f(r, c) + one(r, c) by {
        if r != cell.0 {
            assert(after[r] == seen[r]);
        }
    }
    crate::counting::lemma_sum_grid_add(rows, cols, new_f, one, old_f);
    crate::counting::lemma_sum_grid_single(rows, cols, one, cell.0, cell.1);
}

/// The cell of the top item lies in the grid, and the grid of the cells
/// looked at has the shape of the warehouse.
pub proof fn lemma_collecting_top(
    map: Seq<Seq<Option<Object2>>>,
    dir: Direction,
    stack: Seq<(usize, usize, bool)>,
    seen: Seq<Seq<bool>>,
    moves: Seq<(usize, usize)>,
    first: (int, int),
)
    requires
        collecting(map, dir, stack, seen, moves, first),
        stack.len() > 0,
    ensures
        in_map(map, spot(stack.last())),
        seen.len() == map.len(),
        seen.len() > 0,
        forall|r: int| 0 <= r < seen.len() ==> (#[trigger] seen[r]).len() == seen[0].len(),
        seen[0].len() == map[0].len(),
{
    reveal(collecting);
    assert(spot(stack[stack.len() - 1]) == spot(stack.last()));
}

/// The search goes on from one cell to the other: the first holds half of
/// a box, and the other is the cell before it or the cell of its other
/// half.
pub open spec fn leads_on(
    map: Seq<Seq<Option<Object2>>>,
    dir: Direction,
    from: (int, int),
    to: (int, int),
) -> bool {
    in_map(map, from) && box_part(map, from) && (to == step_of(dir, from) || to == partner(map, from))
}

/// A row of cells from each of which the search goes on to the next.
pub open spec fn chain(map: Seq<Seq<Option<Object2>>>, dir: Direction, path: Seq<(int, int)>) -> bool {
    path.len() > 0 && forall|i: int|
        0 <= i < path.len() - 1 ==> leads_on(map, dir, #[trigger] path[i], path[i + 1])
}

/// The push of the first cell reaches the cell.
pub open spec fn reached(
    map: Seq<Seq<Option<Object2>>>,
    dir: Direction,
    first: (int, int),
    cell: (int, int),
) -> bool {
    exists|path: Seq<(int, int)>| #[trigger]
        chain(map, dir, path) && path[0] == first && path.last() == cell
}

/// The push of the first cell reaches a border.
pub open spec fn blocked_way(map: Seq<Seq<Option<Object2>>>, dir: Direction, first: (int, int)) -> bool {
    exists|cell: (int, int)| #[trigger]
        reached(map, dir, first, cell) && in_map(map, cell) && map[cell.0][cell.1] == Some(
            Object2::Border,
        )
}

/// The search has kept to the cells that the push reaches: those on its
/// stack and those that it has looked at.
#[verifier::opaque]
pub open spec fn tracing(
    map: Seq<Seq<Option<Object2>>>,
    dir: Direction,
    stack: Seq<(usize, usize, bool)>,
    seen: Seq<Seq<bool>>,
    first: (int, int),
) -> bool {
    &&& forall|i: int| 0 <= i < stack.len() ==> reached(map, dir, first, spot(#[trigger] stack[i]))
    &&& forall|cell: (int, int)|
        in_map(map, cell) && seen[cell.0][cell.1] ==> #[trigger] reached(map, dir, first, cell)
}

/// The push reaches its first cell.
pub proof fn lemma_reach_first(map: Seq<Seq<Option<Object2>>>, dir: Direction, first: (int, int))
    ensures
        reached(map, dir, first, first),
{
    let path = seq![first];
    assert(chain(map, dir, path));
    assert(path[0] == first && path.last() == first);
}

/// The push reaches the cells that the search goes on to from a cell that
/// it reaches.
pub proof fn lemma_reach_on(
    map: Seq<Seq<Option<Object2>>>,
    dir: Direction,
    first: (int, int),
    from: (int, int),
    to: (int, int),
)
    requires
        reached(map, dir, first, from),
        leads_on(map, dir, from, to),
    ensures
        reached(map, dir, first, to),
{
    let path = choose|path: Seq<(int, int)>| #[trigger]
        chain(map, dir, path) && path[0] == first && path.last() == from;
    let longer = path.push(to);
    assert forall|i: int| 0 <= i < longer.len() - 1 implies leads_on(
        map,
        dir,
        #[trigger] longer[i],
        longer[i + 1],
    ) by {
        if i < path.len() - 1 {
            assert(leads_on(map, dir, path[i], path[i + 1]));
        }
    }
    assert(chain(map, dir, longer));
    assert(longer[0] == first && longer.last() == to);
}

/// Taking an item off the stack keeps the search to the cells reached.
pub proof fn lemma_tracing_skip(
    map: Seq<Seq<Option<Object2>>>,
    dir: Direction,
    stack: Seq<(usize, usize, bool)>,
    seen: Seq<Seq<bool>>,
    first: (int, int),
)
    requires
        tracing(map, dir, stack, seen, first),
        stack.len() > 0,
    ensures
        tracing(map, dir, stack.drop_last(), seen, first),
        reached(map, dir, first, spot(stack.last())),
{
    reveal(tracing);
    let rest = stack.drop_last();
    assert(spot(stack[stack.len() - 1]) == spot(stack.last()));
    assert forall|i: int| 0 <= i < rest.len() implies reached(
        map,
        dir,
        first,
        spot(#[trigger] rest[i]),
    ) by {
        assert(rest[i] == stack[i]);
    }
}

/// Looking at the cell of the top item keeps the search to the cells
/// reached.
pub proof fn lemma_tracing_seen(
    map: Seq<Seq<Option<Object2>>>,
    dir: Direction,
    stack: Seq<(usize, usize, bool)>,
    seen: Seq<Seq<bool>>,
    first: (int, int),
)
    requires
        tracing(map, dir, stack, seen, first),
        stack.len() > 0,
        in_map(map, spot(stack.last())),
        seen.len() == map.len(),
        forall|r: int| 0 <= r < seen.len() ==> (#[trigger] seen[r]).len() == map[0].len(),
    ensures
        tracing(map, dir, stack.drop_last(), with_cell(seen, spot(stack.last()), true), first),
{
    lemma_tracing_skip(map, dir, stack, seen, first);
    reveal(tracing);
    let top = spot(stack.last());
    let seen2 = with_cell(seen, top, true);
    assert forall|cell: (int, int)| in_map(map, cell) && seen2[cell.0][cell.1] implies #[trigger] reached(
        map,
        dir,
        first,
        cell,
    ) by {
        if cell != top {
            if cell.0 != top.0 {
                assert(seen2[cell.0] == seen[cell.0]);
            }
            assert(seen[cell.0][cell.1]);
        }
    }
}

/// Putting the cell before half of a box, and the cell of its other half,
/// on the stack keeps the search to the cells reached.
pub proof fn lemma_tracing_box(
    map: Seq<Seq<Option<Object2>>>,
    dir: Direction,
    stack: Seq<(usize, usize, bool)>,
    seen: Seq<Seq<bool>>,
    first: (int, int),
)
    requires
        boxes_whole(map),
        tracing(map, dir, stack, seen, first),
        stack.len() > 0,
        in_map(map, spot(stack.last())),
        box_part(map, spot(stack.last())),
        seen.len() == map.len(),
        forall|r: int| 0 <= r < seen.len() ==> (#[trigger] seen[r]).len() == map[0].len(),
    ensures
        tracing(
            map,
            dir,
            pushed_for(
                stack.drop_last(),
                dir,
                (stack.last().0, stack.last().1),
                stack.last().2,
                (partner(map, spot(stack.last())).1) as usize,
            ),
            with_cell(seen, spot(stack.last()), true),
            first,
        ),
{
    lemma_tracing_seen(map, dir, stack, seen, first);
    lemma_tracing_skip(map, dir, stack, seen, first);
    let (row, col, check_other) = stack.last();
    let top = spot(stack.last());
    let rest = stack.drop_last();
    let seen2 = with_cell(seen, top, true);
    let beside = partner(map, top);
    let ahead = step_of(dir, top);
    let next = pushed_for(rest, dir, (row, col), check_other, beside.1 as usize);
    assert(interior(map, top) && in_map(map, beside)) by {
        reveal(boxes_whole);
        if !interior(map, top) {
            assert(map[top.0][top.1] == Some(Object2::Border));
        }
    }
    assert(spot((front_of(dir, (row, col)).0, front_of(dir, (row, col)).1, true)) == ahead) by {
        reveal(boxes_whole);
    }
    assert(spot((row, beside.1 as usize, false)) == beside) by {
        reveal(boxes_whole);
    }
    lemma_reach_on(map, dir, first, top, ahead);
    lemma_reach_on(map, dir, first, top, beside);
    reveal(tracing);
    assert forall|i: int| 0 <= i < next.len() implies reached(
        map,
        dir,
        first,
        spot(#[trigger] next[i]),
    ) by {
        if i < rest.len() {
            assert(next[i] == rest[i]);
        } else if i == rest.len() {
            assert(next[i] == (front_of(dir, (row, col)).0, front_of(dir, (row, col)).1, true));
        } else {
            assert(next[i] == (row, beside.1 as usize, false));
        }
    }
}

/// Every cell that the push reaches has been looked at by a search that
/// found the way free.
pub proof fn lemma_reached_seen(
    map: Seq<Seq<Option<Object2>>>,
    dir: Direction,
    last: Seq<Seq<bool>>,
    found: Seq<(usize, usize)>,
    first: (int, int),
    path: Seq<(int, int)>,
    at: int,
)
    requires
        boxes_whole(map),
        searched(map, dir, last, found, first),
        chain(map, dir, path),
        path[0] == first,
        0 <= at < path.len(),
    ensures
        in_map(map, path[at]),
        last[path[at].0][path[at].1],
    decreases at,
{
    if at == 0 {
        lemma_searched_first(map, dir, last, found, first);
    } else {
        lemma_reached_seen(map, dir, last, found, first, path, at - 1);
        assert(leads_on(map, dir, path[at - 1], path[at - 1 + 1]));
        lemma_searched_cell(map, dir, last, found, first, path[at - 1]);
    }
}

/// What the search for the boxes that a push moves finds: a border stands
/// in the way just where the push reaches one; else the boxes found are
/// just those that the push reaches, each once.
pub open spec fn search_exact(
    map: Seq<Seq<Option<Object2>>>,
    dir: Direction,
    first: (int, int),
    result: Search,
) -> bool {
    match result {
        Search::Open => false,
        Search::Blocked => blocked_way(map, dir, first),
        Search::Free(found) => {
            &&& !blocked_way(map, dir, first)
            &&& found.no_duplicates()
            &&& forall|cell: (int, int)|
                #[trigger] box_found(found, cell) <==> reached(map, dir, first, cell) && in_map(
                    map,
                    cell,
                ) && map[cell.0][cell.1] == Some(Object2::BoxStart)
        },
    }
}

/// A search that has come to an end has found what `search_exact` says.
pub proof fn lemma_search_exact(
    map: Seq<Seq<Option<Object2>>>,
    dir: Direction,
    first: (int, int),
    result: Search,
)
    requires
        boxes_whole(map),
        search_ends(map, dir, first, result),
    ensures
        search_exact(map, dir, first, result),
{
    if result is Free {
        let found = result->Free_0;
        let last = choose|last: Seq<Seq<bool>>| #[trigger] searched(map, dir, last, found, first);
        assert(found.no_duplicates()) by {
            reveal(collecting);
        }
        assert forall|cell: (int, int)| #[trigger]
            reached(map, dir, first, cell) implies in_map(map, cell) && last[cell.0][cell.1] by {
            let path = choose|path: Seq<(int, int)>| #[trigger]
                chain(map, dir, path) && path[0] == first && path.last() == cell;
            lemma_reached_seen(map, dir, last, found, first, path, path.len() - 1);
        }
        if blocked_way(map, dir, first) {
            let cell = choose|cell: (int, int)| #[trigger]
                reached(map, dir, first, cell) && in_map(map, cell) && map[cell.0][cell.1] == Some(
                    Object2::Border,
                );
            lemma_searched_cell(map, dir, last, found, first, cell);
        }
        assert forall|cell: (int, int)| #[trigger]
            box_found(found, cell) <==> reached(map, dir, first, cell) && in_map(map, cell)
                && map[cell.0][cell.1] == Some(Object2::BoxStart) by {
            lemma_box_found(map, dir, last, found, first, cell);
            if moved(map, last, cell) {
                assert(reached(map, dir, first, cell)) by {
                    reveal(tracing);
                }
            }
        }
    }
}

/// The search stands as `collecting` and `tracing` say with nothing left on
/// its stack.
pub open spec fn searched(
    map: Seq<Seq<Option<Object2>>>,
    dir: Direction,
    last: Seq<Seq<bool>>,
    found: Seq<(usize, usize)>,
    first: (int, int),
) -> bool {
    collecting(map, dir, Seq::empty(), last, found, first) && tracing(
        map,
        dir,
        Seq::empty(),
        last,
        first,
    )
}

/// The search has come to an end: where a border stood in the way, the
/// push reaches one; where it found the way free, it stands as `searched`
/// says.
pub open spec fn search_ends(
    map: Seq<Seq<Option<Object2>>>,
    dir: Direction,
    first: (int, int),
    result: Search,
) -> bool {
    &&& result != Search::Open
    &&& result == Search::Blocked ==> blocked_way(map, dir, first)
    &&& result is Free ==> exists|last: Seq<Seq<bool>>| #[trigger]
        searched(map, dir, last, result->Free_0, first)
}

/// A search with nothing left on its stack has come to an end.
pub proof fn lemma_search_done(
    map: Seq<Seq<Option<Object2>>>,
    dir: Direction,
    last: Seq<Seq<bool>>,
    found: Seq<(usize, usize)>,
    first: (int, int),
)
    requires
        searched(map, dir, last, found, first),
    ensures
        search_ends(map, dir, first, Search::Free(found)),
{
    assert(Search::Free(found)->Free_0 == found);
}

/// A search that has fuel for every item of its stack and twice for every
/// cell not looked at yet comes to an end; where it finds the way free, it
/// has looked at every cell that the boxes found are pushed from and onto.
pub proof fn lemma_collect(
    map: Seq<Seq<Option<Object2>>>,
    dir: Direction,
    stack: Seq<(usize, usize, bool)>,
    seen: Seq<Seq<bool>>,
    moves: Seq<(usize, usize)>,
    first: (int, int),
    fuel: nat,
)
    requires
        boxes_whole(map),
        collecting(map, dir, stack, seen, moves, first),
        tracing(map, dir, stack, seen, first),
        fuel >= stack.len() + 2 * unseen(seen),
    ensures
        search_ends(map, dir, first, collect(map, dir, stack, seen, moves, fuel)),
    decreases fuel,
{
    if stack.len() == 0 {
        assert(stack =~= Seq::<(usize, usize, bool)>::empty());
        assert(collect(map, dir, stack, seen, moves, fuel) == Search::Free(moves));
        assert(searched(map, dir, seen, moves, first));
        lemma_search_done(map, dir, seen, moves, first);
    } else {
        let top = spot(stack.last());
        let rest = stack.drop_last();
        let left = (fuel - 1) as nat;
        lemma_collecting_top(map, dir, stack, seen, moves, first);
        lemma_tracing_skip(map, dir, stack, seen, first);
        if seen[top.0][top.1] {
            lemma_collecting_skip(map, dir, stack, seen, moves, first);
            lemma_collect(map, dir, rest, seen, moves, first, left);
            assert(collect(map, dir, stack, seen, moves, fuel) == collect(map, dir, rest, seen, moves, left));
        } else {
            let seen2 = with_cell(seen, top, true);
            lemma_unseen_less(seen, top);
            let held = map[top.0][top.1];
            if held == Some(Object2::Border) {
                assert(collect(map, dir, stack, seen, moves, fuel) == Search::Blocked);
                assert(reached(map, dir, first, top));
                assert(blocked_way(map, dir, first));
            } else if held == Some(Object2::BoxStart) {
                let next = pushed_for(
                    rest,
                    dir,
                    (stack.last().0, stack.last().1),
                    stack.last().2,
                    (stack.last().1 + 1) as usize,
                );
                lemma_collecting_box(map, dir, stack, seen, moves, first);
                lemma_tracing_box(map, dir, stack, seen, first);
                assert(next.len() <= rest.len() + 2);
                lemma_collect(
                    map,
                    dir,
                    next,
                    seen2,
                    moves.push((stack.last().0, stack.last().1)),
                    first,
                    left,
                );
                assert(collect(map, dir, stack, seen, moves, fuel) == collect(
                    map,
                    dir,
                    next,
                    seen2,
                    moves.push((stack.last().0, stack.last().1)),
                    left,
                ));
            } else if held == Some(Object2::BoxEnd) {
                let next = pushed_for(
                    rest,
                    dir,
                    (stack.last().0, stack.last().1),
                    stack.last().2,
                    (stack.last().1 - 1) as usize,
                );
                lemma_collecting_box(map, dir, stack, seen, moves, first);
                lemma_tracing_box(map, dir, stack, seen, first);
                assert(next.len() <= rest.len() + 2);
                lemma_collect(map, dir, next, seen2, moves, first, left);
                assert(collect(map, dir, stack, seen, moves, fuel) == collect(
                    map,
                    dir,
                    next,
                    seen2,
                    moves,
                    left,
                ));
            } else {
                assert(held is None);
                lemma_collecting_free(map, dir, stack, seen, moves, first);
                lemma_tracing_seen(map, dir, stack, seen, first);
                lemma_collect(map, dir, rest, seen2, moves, first, left);
                assert(collect(map, dir, stack, seen, moves, fuel) == collect(
                    map,
                    dir,
                    rest,
                    seen2,
                    moves,
                    left,
                ));
            }
        }
    }
}

/// An item whose cell has been looked at is taken off the stack.
pub proof fn lemma_collecting_skip(
    map: Seq<Seq<Option<Object2>>>,
    dir: Direction,
    stack: Seq<(usize, usize, bool)>,
    seen: Seq<Seq<bool>>,
    moves: Seq<(usize, usize)>,
    first: (int, int),
)
    requires
        collecting(map, dir, stack, seen, moves, first),
        stack.len() > 0,
        seen[spot(stack.last()).0][spot(stack.last()).1],
    ensures
        collecting(map, dir, stack.drop_last(), seen, moves, first),
{
    reveal(collecting);
    let rest = stack.drop_last();
    let top = spot(stack.last());
    assert forall|cell: (int, int)| in_map(map, cell) && known(seen, stack, cell) implies known(
        seen,
        rest,
        cell,
    ) by {
        if !seen[cell.0][cell.1] {
            let i = choose|i: int| 0 <= i < stack.len() && spot(#[trigger] stack[i]) == cell;
            assert(i < stack.len() - 1);
            assert(spot(rest[i]) == cell);
        }
    }
    assert forall|i: int| 0 <= i < rest.len() implies in_map(map, spot(#[trigger] rest[i])) && (
    !rest[i].2 ==> half_seen(map, seen, spot(rest[i]))) by {
        assert(rest[i] == stack[i]);
    }
    assert forall|cell: (int, int)| in_map(map, cell) && seen[cell.0][cell.1] implies #[trigger] looked(
        map,
        dir,
        rest,
        seen,
        cell,
    ) by {
        assert(looked(map, dir, stack, seen, cell));
    }
}

/// A free cell that is looked at is taken off the stack.
pub proof fn lemma_collecting_free(
    map: Seq<Seq<Option<Object2>>>,
    dir: Direction,
    stack: Seq<(usize, usize, bool)>,
    seen: Seq<Seq<bool>>,
    moves: Seq<(usize, usize)>,
    first: (int, int),
)
    requires
        collecting(map, dir, stack, seen, moves, first),
        stack.len() > 0,
        !seen[spot(stack.last()).0][spot(stack.last()).1],
        map[spot(stack.last()).0][spot(stack.last()).1] is None,
    ensures
        collecting(
            map,
            dir,
            stack.drop_last(),
            with_cell(seen, spot(stack.last()), true),
            moves,
            first,
        ),
{
    reveal(collecting);
    let rest = stack.drop_last();
    let top = spot(stack.last());
    let seen2 = with_cell(seen, top, true);
    assert(spot(stack[stack.len() - 1]) == top);
    assert forall|cell: (int, int)| in_map(map, cell) implies seen2[cell.0][cell.1] == (seen[cell.0][cell.1]
        || cell == top) by {
        if cell.0 != top.0 {
            assert(seen2[cell.0] == seen[cell.0]);
        }
    }
    assert forall|cell: (int, int)| in_map(map, cell) && known(seen, stack, cell) implies known(
        seen2,
        rest,
        cell,
    ) by {
        if !seen[cell.0][cell.1] && cell != top {
            let i = choose|i: int| 0 <= i < stack.len() && spot(#[trigger] stack[i]) == cell;
            assert(spot(rest[i]) == cell);
        }
    }
    assert forall|i: int| 0 <= i < rest.len() implies in_map(map, spot(#[trigger] rest[i])) && (
    !rest[i].2 ==> half_seen(map, seen2, spot(rest[i]))) by {
        assert(rest[i] == stack[i]);
    }
    assert forall|cell: (int, int)| in_map(map, cell) && seen2[cell.0][cell.1] implies #[trigger] looked(
        map,
        dir,
        rest,
        seen2,
        cell,
    ) by {
        if cell != top {
            assert(looked(map, dir, stack, seen, cell));
        }
    }
    assert forall|r: int| 0 <= r < seen2.len() implies (#[trigger] seen2[r]).len() == map[0].len() by {
        if r != top.0 {
            assert(seen2[r] == seen[r]);
        }
    }
}

/// Half of a box that is looked at has the cell before it put on the
/// stack, and the cell of its other half where the item asks for it; a left
/// half becomes a move.
pub proof fn lemma_collecting_box(
    map: Seq<Seq<Option<Object2>>>,
    dir: Direction,
    stack: Seq<(usize, usize, bool)>,
    seen: Seq<Seq<bool>>,
    moves: Seq<(usize, usize)>,
    first: (int, int),
)
    requires
        boxes_whole(map),
        collecting(map, dir, stack, seen, moves, first),
        stack.len() > 0,
        !seen[spot(stack.last()).0][spot(stack.last()).1],
        box_part(map, spot(stack.last())),
    ensures
        map[spot(stack.last()).0][spot(stack.last()).1] == Some(Object2::BoxStart) ==> collecting(
            map,
            dir,
            pushed_for(
                stack.drop_last(),
                dir,
                (stack.last().0, stack.last().1),
                stack.last().2,
                (stack.last().1 + 1) as usize,
            ),
            with_cell(seen, spot(stack.last()), true),
            moves.push((stack.last().0, stack.last().1)),
            first,
        ),
        map[spot(stack.last()).0][spot(stack.last()).1] == Some(Object2::BoxEnd) ==> collecting(
            map,
            dir,
            pushed_for(
                stack.drop_last(),
                dir,
                (stack.last().0, stack.last().1),
                stack.last().2,
                (stack.last().1 - 1) as usize,
            ),
            with_cell(seen, spot(stack.last()), true),
            moves,
            first,
        ),
{
    reveal(boxes_whole);
    reveal(collecting);
    let (row, col, check_other) = stack.last();
    let rest = stack.drop_last();
    let top = spot(stack.last());
    let starts = map[top.0][top.1] == Some(Object2::BoxStart);
    let other_col = if starts {
        (col + 1) as usize
    } else {
        (col - 1) as usize
    };
    let next = pushed_for(rest, dir, (row, col), check_other, other_col);
    let seen2 = with_cell(seen, top, true);
    let moves2 = if starts {
        moves.push((row, col))
    } else {
        moves
    };
    assert(spot(stack[stack.len() - 1]) == top);
    assert(in_map(map, top));
    assert(interior(map, top)) by {
        if !interior(map, top) {
            assert(map[top.0][top.1] == Some(Object2::Border));
        }
    }
    let ahead = step_of(dir, top);
    let beside = partner(map, top);
    assert(in_map(map, ahead) && in_map(map, beside));
    assert(spot((front_of(dir, (row, col)).0, front_of(dir, (row, col)).1, true)) == ahead);
    assert(spot((row, other_col, false)) == beside);
    assert(box_part(map, beside) && partner(map, beside) == top);
    assert forall|cell: (int, int)| in_map(map, cell) implies seen2[cell.0][cell.1] == (seen[cell.0][cell.1]
        || cell == top) by {
        if cell.0 != top.0 {
            assert(seen2[cell.0] == seen[cell.0]);
        }
    }
    assert forall|r: int| 0 <= r < seen2.len() implies (#[trigger] seen2[r]).len() == map[0].len() by {
        if r != top.0 {
            assert(seen2[r] == seen[r]);
        }
    }
    assert forall|i: int| 0 <= i < rest.len() implies #[trigger] next[i] == stack[i] by {
        assert(rest[i] == stack[i]);
    }
    assert(next[rest.len() as int] == (front_of(dir, (row, col)).0, front_of(dir, (row, col)).1, true));
    assert(waiting(next, ahead)) by {
        assert(spot(next[rest.len() as int]) == ahead);
    }
    if check_other {
        assert(next[rest.len() as int + 1] == (row, other_col, false));
        assert(waiting(next, beside)) by {
            assert(spot(next[rest.len() as int + 1]) == beside);
        }
    } else {
        assert(half_seen(map, seen, top));
    }
    assert forall|cell: (int, int)| in_map(map, cell) && known(seen, stack, cell) implies known(
        seen2,
        next,
        cell,
    ) by {
        if !seen[cell.0][cell.1] && cell != top {
            let i = choose|i: int| 0 <= i < stack.len() && spot(#[trigger] stack[i]) == cell;
            assert(spot(next[i]) == cell);
        }
    }
    assert forall|i: int| 0 <= i < next.len() implies in_map(map, spot(#[trigger] next[i])) && (
    !next[i].2 ==> half_seen(map, seen2, spot(next[i]))) by {
        if i < rest.len() {
            assert(next[i] == stack[i]);
            if !stack[i].2 {
                assert(half_seen(map, seen, spot(stack[i])));
            }
        }
    }
    assert forall|cell: (int, int)| in_map(map, cell) && seen2[cell.0][cell.1] implies #[trigger] looked(
        map,
        dir,
        next,
        seen2,
        cell,
    ) by {
        if cell != top {
            assert(looked(map, dir, stack, seen, cell));
        }
    }
    assert(moves2.no_duplicates()) by {
        if starts {
            assert forall|i: int| 0 <= i < moves.len() implies moves[i] != (row, col) by {
                assert(seen[from_of(moves[i]).0][from_of(moves[i]).1]);
            }
        }
    }
    assert forall|i: int| 0 <= i < moves2.len() implies in_map(map, from_of(#[trigger] moves2[i]))
        && seen2[from_of(moves2[i]).0][from_of(moves2[i]).1] && map[from_of(moves2[i]).0][from_of(
        moves2[i],
    ).1] == Some(Object2::BoxStart) by {
        if i < moves.len() {
            assert(moves2[i] == moves[i]);
        }
    }
    assert forall|cell: (int, int)|
        in_map(map, cell) && seen2[cell.0][cell.1] && #[trigger] map[cell.0][cell.1] == Some(
            Object2::BoxStart,
        ) implies moves2.contains((cell.0 as usize, cell.1 as usize)) by {
        if cell == top {
            assert(moves2[moves.len() as int] == (row, col));
        } else {
            assert(moves.contains((cell.0 as usize, cell.1 as usize)));
            let i = choose|i: int|
                0 <= i < moves.len() && moves[i] == (cell.0 as usize, cell.1 as usize);
            assert(moves2[i] == moves[i]);
        }
    }
}

/// The cell to the right of a cell.
pub open spec fn right_of(cell: (int, int)) -> (int, int) {
    (cell.0, cell.1 + 1)
}

/// The cell that a step in the direction onto the cell comes from.
pub open spec fn back_of(dir: Direction, cell: (int, int)) -> (int, int) {
    match dir {
        Direction::Up => (cell.0 + 1, cell.1),
        Direction::Right => (cell.0, cell.1 - 1),
        Direction::Down => (cell.0 - 1, cell.1),
        Direction::Left => (cell.0, cell.1 + 1),
    }
}

/// One of the first `upto` boxes stands on the cell.
pub open spec fn left_by(moves: Seq<(usize, usize)>, upto: nat, cell: (int, int)) -> bool
    decreases upto,
{
    upto > 0 && (cell == from_of(moves[upto - 1]) || cell == right_of(from_of(moves[upto - 1]))
        || left_by(moves, (upto - 1) as nat, cell))
}

/// A box that stands on the cell is among the first `upto`.
pub proof fn lemma_left_index(moves: Seq<(usize, usize)>, upto: nat, cell: (int, int)) -> (i: int)
    requires
        left_by(moves, upto, cell),
    ensures
        0 <= i < upto,
        cell == from_of(moves[i]) || cell == right_of(from_of(moves[i])),
    decreases upto,
{
    if cell == from_of(moves[upto - 1]) || cell == right_of(from_of(moves[upto - 1])) {
        upto - 1
    } else {
        lemma_left_index(moves, (upto - 1) as nat, cell)
    }
}

/// Each of the first `upto` boxes stands on its two cells.
pub proof fn lemma_left_has(moves: Seq<(usize, usize)>, upto: nat, i: int)
    requires
        0 <= i < upto,
    ensures
        left_by(moves, upto, from_of(moves[i])),
        left_by(moves, upto, right_of(from_of(moves[i]))),
    decreases upto,
{
    if i < upto - 1 {
        lemma_left_has(moves, (upto - 1) as nat, i);
    }
}

/// What a grid with one cell replaced holds.
pub proof fn lemma_cell_set<T>(map: Seq<Seq<T>>, at: (int, int), what: T, cell: (int, int))
    requires
        0 <= at.0 < map.len(),
        0 <= at.1 < map[at.0].len(),
        0 <= cell.0 < map.len(),
        0 <= cell.1 < map[cell.0].len(),
    ensures
        with_cell(map, at, what)[cell.0][cell.1] == if cell == at {
            what
        } else {
            map[cell.0][cell.1]
        },
{
}

/// A cell of the warehouse after boxes have been taken out is free where
/// one of them stood, and as before elsewhere.
pub proof fn lemma_cleared_cell(
    map: Seq<Seq<Option<Object2>>>,
    dir: Direction,
    moves: Seq<(usize, usize)>,
    upto: nat,
    cell: (int, int),
)
    requires
        enclosed_b(map),
        moves_inside(map, dir, moves),
        upto <= moves.len(),
        in_map(map, cell),
    ensures
        cleared(map, moves, upto)[cell.0][cell.1] == if left_by(moves, upto, cell) {
            None
        } else {
            map[cell.0][cell.1]
        },
    decreases upto,
{
    if upto > 0 {
        let before = cleared(map, moves, (upto - 1) as nat);
        lemma_cleared_cell(map, dir, moves, (upto - 1) as nat, cell);
        lemma_cleared_enclosed(map, dir, moves, (upto - 1) as nat);
        let item = moves[upto - 1];
        let from = from_of(item);
        assert(interior(map, from) && interior(map, right_of(from)));
        lemma_set_inside(before, from, None);
        let middle = with_cell(before, from, None);
        assert(before[cell.0].len() == before[0].len());
        assert(before[from.0].len() == before[0].len());
        lemma_cell_set(before, from, None, cell);
        assert(middle[cell.0].len() == middle[0].len());
        assert(middle[from.0].len() == middle[0].len());
        lemma_cell_set(middle, right_of(from), None, cell);
    }
}

/// No two of the boxes share a cell.
pub open spec fn apart(moves: Seq<(usize, usize)>) -> bool {
    forall|i: int, j: int|
        0 <= i < j < moves.len() ==> {
            &&& from_of(#[trigger] moves[i]) != from_of(#[trigger] moves[j])
            &&& from_of(moves[i]) != right_of(from_of(moves[j]))
            &&& right_of(from_of(moves[i])) != from_of(moves[j])
        }
}

/// A cell that none of the boxes is pushed onto is as before after the
/// boxes have been put in.
pub proof fn lemma_placed_other(
    base: Seq<Seq<Option<Object2>>>,
    shape: Seq<Seq<Option<Object2>>>,
    dir: Direction,
    moves: Seq<(usize, usize)>,
    upto: nat,
    cell: (int, int),
)
    requires
        enclosed_b(base),
        moves_inside(shape, dir, moves),
        shape.len() == base.len(),
        shape[0].len() == base[0].len(),
        upto <= moves.len(),
        in_map(base, cell),
        !left_by(moves, upto, back_of(dir, cell)),
    ensures
        placed(base, dir, moves, upto)[cell.0][cell.1] == base[cell.0][cell.1],
    decreases upto,
{
    if upto > 0 {
        let before = placed(base, dir, moves, (upto - 1) as nat);
        lemma_placed_other(base, shape, dir, moves, (upto - 1) as nat, cell);
        lemma_placed_enclosed(base, shape, dir, moves, (upto - 1) as nat);
        let item = moves[upto - 1];
        let from = from_of(item);
        let to = step_of(dir, from);
        assert(interior(shape, from));
        assert((front_of(dir, item).0 as int, front_of(dir, item).1 as int) == to);
        assert(interior(shape, to) && interior(shape, right_of(to)));
        assert(back_of(dir, to) == from);
        assert(back_of(dir, right_of(to)) == right_of(from));
        lemma_set_inside(before, to, Some(Object2::BoxStart));
        let middle = with_cell(before, to, Some(Object2::BoxStart));
        assert(before[cell.0].len() == before[0].len());
        assert(before[to.0].len() == before[0].len());
        lemma_cell_set(before, to, Some(Object2::BoxStart), cell);
        assert(middle[cell.0].len() == middle[0].len());
        assert(middle[to.0].len() == middle[0].len());
        lemma_cell_set(middle, right_of(to), Some(Object2::BoxEnd), cell);
    }
}

/// The cells that a box is pushed onto hold its two halves after the boxes
/// have been put in.
pub proof fn lemma_placed_target(
    base: Seq<Seq<Option<Object2>>>,
    shape: Seq<Seq<Option<Object2>>>,
    dir: Direction,
    moves: Seq<(usize, usize)>,
    upto: nat,
    i: int,
)
    requires
        enclosed_b(base),
        moves_inside(shape, dir, moves),
        shape.len() == base.len(),
        shape[0].len() == base[0].len(),
        upto <= moves.len(),
        apart(moves),
        0 <= i < upto,
    ensures
        placed(base, dir, moves, upto)[step_of(dir, from_of(moves[i])).0][step_of(
            dir,
            from_of(moves[i]),
        ).1] == Some(Object2::BoxStart),
        placed(base, dir, moves, upto)[step_of(dir, from_of(moves[i])).0][step_of(
            dir,
            from_of(moves[i]),
        ).1 + 1] == Some(Object2::BoxEnd),
    decreases upto,
{
    let before = placed(base, dir, moves, (upto - 1) as nat);
    lemma_placed_enclosed(base, shape, dir, moves, (upto - 1) as nat);
    let item = moves[upto - 1];
    let from = from_of(item);
    let to = step_of(dir, from);
    let mine = step_of(dir, from_of(moves[i]));
    assert(interior(shape, from));
    assert(interior(shape, from_of(moves[i])));
    assert((front_of(dir, item).0 as int, front_of(dir, item).1 as int) == to);
    assert((front_of(dir, moves[i]).0 as int, front_of(dir, moves[i]).1 as int) == mine);
    assert(interior(shape, to) && interior(shape, right_of(to)));
    assert(interior(shape, mine) && interior(shape, right_of(mine)));
    lemma_set_inside(before, to, Some(Object2::BoxStart));
    let middle = with_cell(before, to, Some(Object2::BoxStart));
    assert(before[mine.0].len() == before[0].len());
    assert(before[to.0].len() == before[0].len());
    assert(middle[mine.0].len() == middle[0].len());
    assert(middle[to.0].len() == middle[0].len());
    lemma_cell_set(before, to, Some(Object2::BoxStart), mine);
    lemma_cell_set(before, to, Some(Object2::BoxStart), right_of(mine));
    lemma_cell_set(middle, right_of(to), Some(Object2::BoxEnd), mine);
    lemma_cell_set(middle, right_of(to), Some(Object2::BoxEnd), right_of(mine));
    if i < upto - 1 {
        lemma_placed_target(base, shape, dir, moves, (upto - 1) as nat, i);
        assert(from_of(moves[i]) != from);
        assert(from_of(moves[i]) != right_of(from));
        assert(right_of(from_of(moves[i])) != from);
        assert(back_of(dir, mine) == from_of(moves[i]));
        assert(back_of(dir, right_of(mine)) == right_of(from_of(moves[i])));
        assert(back_of(dir, to) == from);
        assert(back_of(dir, right_of(to)) == right_of(from));
    }
}

/// The cell holds half of a box that the search has looked at.
pub open spec fn moved(map: Seq<Seq<Option<Object2>>>, last: Seq<Seq<bool>>, cell: (int, int)) -> bool {
    in_map(map, cell) && last[cell.0][cell.1] && box_part(map, cell)
}

/// The first cell of a finished search has been looked at.
pub proof fn lemma_searched_first(
    map: Seq<Seq<Option<Object2>>>,
    dir: Direction,
    last: Seq<Seq<bool>>,
    found: Seq<(usize, usize)>,
    first: (int, int),
)
    requires
        searched(map, dir, last, found, first),
    ensures
        in_map(map, first),
        last[first.0][first.1],
{
    reveal(collecting);
}

/// A cell that a finished search has looked at lies inside the warehouse
/// and holds no border; where it holds half of a box, the search has looked
/// at the other half and at the cell before it, and the left half is among
/// the boxes found.
pub proof fn lemma_searched_cell(
    map: Seq<Seq<Option<Object2>>>,
    dir: Direction,
    last: Seq<Seq<bool>>,
    found: Seq<(usize, usize)>,
    first: (int, int),
    cell: (int, int),
)
    requires
        boxes_whole(map),
        searched(map, dir, last, found, first),
        in_map(map, cell),
        last[cell.0][cell.1],
    ensures
        interior(map, cell),
        map[cell.0][cell.1] != Some(Object2::Border),
        box_part(map, cell) ==> moved(map, last, partner(map, cell)) && partner(
            map,
            partner(map, cell),
        ) == cell && in_map(map, step_of(dir, cell)) && last[step_of(dir, cell).0][step_of(
            dir,
            cell,
        ).1],
        map[cell.0][cell.1] == Some(Object2::BoxStart) ==> partner(map, cell) == right_of(cell)
            && map[cell.0][cell.1 + 1] == Some(Object2::BoxEnd) && found.contains(
            (cell.0 as usize, cell.1 as usize),
        ),
        map[cell.0][cell.1] == Some(Object2::BoxEnd) ==> right_of(partner(map, cell)) == cell
            && map[cell.0][cell.1 - 1] == Some(Object2::BoxStart),
{
    reveal(boxes_whole);
    reveal(collecting);
    let none = Seq::<(usize, usize, bool)>::empty();
    assert(looked(map, dir, none, last, cell));
    if !interior(map, cell) {
        assert(map[cell.0][cell.1] == Some(Object2::Border));
    }
}

/// Each box that a finished search has found is a left half that the
/// search has looked at.
pub proof fn lemma_searched_move(
    map: Seq<Seq<Option<Object2>>>,
    dir: Direction,
    last: Seq<Seq<bool>>,
    found: Seq<(usize, usize)>,
    first: (int, int),
    i: int,
)
    requires
        searched(map, dir, last, found, first),
        0 <= i < found.len(),
    ensures
        in_map(map, from_of(found[i])),
        last[from_of(found[i]).0][from_of(found[i]).1],
        map[from_of(found[i]).0][from_of(found[i]).1] == Some(Object2::BoxStart),
        forall|j: int| 0 <= j < found.len() && j != i ==> found[j] != found[i],
{
    reveal(collecting);
}

/// The boxes that a finished search has found stand on just the cells with
/// half of a box that the search has looked at.
pub proof fn lemma_left_is_moved(
    map: Seq<Seq<Option<Object2>>>,
    dir: Direction,
    last: Seq<Seq<bool>>,
    found: Seq<(usize, usize)>,
    first: (int, int),
    cell: (int, int),
)
    requires
        boxes_whole(map),
        searched(map, dir, last, found, first),
    ensures
        left_by(found, found.len(), cell) == moved(map, last, cell),
{
    if left_by(found, found.len(), cell) {
        let i = lemma_left_index(found, found.len(), cell);
        lemma_searched_move(map, dir, last, found, first, i);
        lemma_searched_cell(map, dir, last, found, first, from_of(found[i]));
    }
    if moved(map, last, cell) {
        lemma_searched_cell(map, dir, last, found, first, cell);
        let left = if map[cell.0][cell.1] == Some(Object2::BoxStart) {
            cell
        } else {
            partner(map, cell)
        };
        lemma_searched_cell(map, dir, last, found, first, left);
        let item = (left.0 as usize, left.1 as usize);
        assert(found.contains(item));
        let i = choose|i: int| 0 <= i < found.len() && found[i] == item;
        assert(from_of(found[i]) == left) by {
            reveal(boxes_whole);
        }
        lemma_left_has(found, found.len(), i);
    }
}

/// The boxes that a finished search has found can be moved without
/// touching the edge of the warehouse, and no two of them share a cell.
pub proof fn lemma_moves_inside(
    map: Seq<Seq<Option<Object2>>>,
    dir: Direction,
    last: Seq<Seq<bool>>,
    found: Seq<(usize, usize)>,
    first: (int, int),
)
    requires
        boxes_whole(map),
        searched(map, dir, last, found, first),
    ensures
        moves_inside(map, dir, found),
        apart(found),
{
    assert forall|i: int| 0 <= i < found.len() implies {
        let from = #[trigger] found[i];
        let to = front_of(dir, from);
        &&& interior(map, (from.0 as int, from.1 as int))
        &&& interior(map, (from.0 as int, from.1 + 1))
        &&& interior(map, (to.0 as int, to.1 as int))
        &&& interior(map, (to.0 as int, to.1 + 1))
    } by {
        let from = from_of(found[i]);
        lemma_searched_move(map, dir, last, found, first, i);
        lemma_searched_cell(map, dir, last, found, first, from);
        lemma_searched_cell(map, dir, last, found, first, right_of(from));
        lemma_searched_cell(map, dir, last, found, first, step_of(dir, from));
        assert(step_of(dir, right_of(from)) == right_of(step_of(dir, from)));
        lemma_searched_cell(map, dir, last, found, first, right_of(step_of(dir, from)));
        assert((front_of(dir, found[i]).0 as int, front_of(dir, found[i]).1 as int) == step_of(
            dir,
            from,
        )) by {
            reveal(boxes_whole);
        }
    }
    assert forall|i: int, j: int| 0 <= i < j < found.len() implies {
        &&& from_of(#[trigger] found[i]) != from_of(#[trigger] found[j])
        &&& from_of(found[i]) != right_of(from_of(found[j]))
        &&& right_of(from_of(found[i])) != from_of(found[j])
    } by {
        lemma_searched_move(map, dir, last, found, first, i);
        lemma_searched_move(map, dir, last, found, first, j);
        lemma_searched_cell(map, dir, last, found, first, from_of(found[i]));
        lemma_searched_cell(map, dir, last, found, first, from_of(found[j]));
        assert(found[i] != found[j]);
        if from_of(found[i]) == from_of(found[j]) {
            assert(found[i].0 == found[j].0 && found[i].1 == found[j].1);
        }
    }
}

/// The warehouse after the boxes have been taken out and put in again one
/// step further.
pub open spec fn pushed(map: Seq<Seq<Option<Object2>>>, dir: Direction, moves: Seq<(usize, usize)>) -> Seq<
    Seq<Option<Object2>>,
> {
    placed(cleared(map, moves, moves.len()), dir, moves, moves.len())
}

/// After the push a cell holds the half of a box that stood one step
/// behind it, if the search has looked at that; else it is free where a
/// half stood that the search has looked at, and as before elsewhere.
pub proof fn lemma_pushed_cell(
    map: Seq<Seq<Option<Object2>>>,
    dir: Direction,
    last: Seq<Seq<bool>>,
    found: Seq<(usize, usize)>,
    first: (int, int),
    cell: (int, int),
)
    requires
        boxes_whole(map),
        searched(map, dir, last, found, first),
        in_map(map, cell),
    ensures
        pushed(map, dir, found)[cell.0][cell.1] == if moved(map, last, back_of(dir, cell)) {
            map[back_of(dir, cell).0][back_of(dir, cell).1]
        } else if moved(map, last, cell) {
            None
        } else {
            map[cell.0][cell.1]
        },
{
    let n = found.len();
    let back = back_of(dir, cell);
    let base = cleared(map, found, n);
    lemma_moves_inside(map, dir, last, found, first);
    assert(enclosed_b(map)) by {
        reveal(boxes_whole);
    }
    lemma_cleared_enclosed(map, dir, found, n);
    lemma_cleared_cell(map, dir, found, n, cell);
    lemma_left_is_moved(map, dir, last, found, first, cell);
    lemma_left_is_moved(map, dir, last, found, first, back);
    assert(step_of(dir, back) == cell);
    if left_by(found, n, back) {
        let i = lemma_left_index(found, n, back);
        lemma_placed_target(base, map, dir, found, n, i);
        lemma_searched_move(map, dir, last, found, first, i);
        lemma_searched_cell(map, dir, last, found, first, from_of(found[i]));
        if back != from_of(found[i]) {
            assert(cell == right_of(step_of(dir, from_of(found[i]))));
        }
    } else {
        lemma_placed_other(base, map, dir, found, n, cell);
    }
}

/// The box whose left half stands on the cell is among those found.
pub open spec fn box_found(found: Seq<(usize, usize)>, cell: (int, int)) -> bool {
    exists|i: int| 0 <= i < found.len() && from_of(#[trigger] found[i]) == cell
}

/// The boxes found are the left halves that the search has looked at.
pub proof fn lemma_box_found(
    map: Seq<Seq<Option<Object2>>>,
    dir: Direction,
    last: Seq<Seq<bool>>,
    found: Seq<(usize, usize)>,
    first: (int, int),
    cell: (int, int),
)
    requires
        boxes_whole(map),
        searched(map, dir, last, found, first),
    ensures
        box_found(found, cell) == (moved(map, last, cell) && map[cell.0][cell.1] == Some(
            Object2::BoxStart,
        )),
{
    if box_found(found, cell) {
        let i = choose|i: int| 0 <= i < found.len() && from_of(#[trigger] found[i]) == cell;
        lemma_searched_move(map, dir, last, found, first, i);
    }
    if moved(map, last, cell) && map[cell.0][cell.1] == Some(Object2::BoxStart) {
        lemma_searched_cell(map, dir, last, found, first, cell);
        let item = (cell.0 as usize, cell.1 as usize);
        assert(found.contains(item));
        let i = choose|i: int| 0 <= i < found.len() && found[i] == item;
        assert(from_of(found[i]) == cell) by {
            reveal(boxes_whole);
        }
    }
}

/// After the push a box stands on a cell just where a box found stood one
/// step behind the cell, or a box that was not found stood on it.
pub proof fn lemma_pushed_boxes(
    map: Seq<Seq<Option<Object2>>>,
    dir: Direction,
    last: Seq<Seq<bool>>,
    found: Seq<(usize, usize)>,
    first: (int, int),
    cell: (int, int),
)
    requires
        boxes_whole(map),
        searched(map, dir, last, found, first),
        in_map(map, cell),
    ensures
        (pushed(map, dir, found)[cell.0][cell.1] == Some(Object2::BoxStart)) == (box_found(
            found,
            back_of(dir, cell),
        ) || (map[cell.0][cell.1] == Some(Object2::BoxStart) && !box_found(found, cell))),
{
    let back = back_of(dir, cell);
    lemma_pushed_cell(map, dir, last, found, first, cell);
    lemma_box_found(map, dir, last, found, first, cell);
    lemma_box_found(map, dir, last, found, first, back);
    assert(step_of(dir, back) == cell);
    if moved(map, last, back) {
        lemma_searched_cell(map, dir, last, found, first, back);
    }
}

/// The cells of a grid of `rows` rows and `cols` columns.
pub open spec fn grid_cells(rows: nat, cols: nat) -> Set<(int, int)> {
    Set::new(|cell: (int, int)| 0 <= cell.0 < rows && 0 <= cell.1 < cols)
}

/// A grid has finitely many cells.
pub proof fn lemma_grid_finite(rows: nat, cols: nat)
    ensures
        grid_cells(rows, cols).finite(),
    decreases rows, cols,
{
    broadcast use vstd::set::group_set_axioms;
    if rows == 0 || cols == 0 {
        assert(grid_cells(rows, cols) =~= Set::<(int, int)>::empty());
    } else if rows == 1 {
        lemma_grid_finite(1, (cols - 1) as nat);
        assert(grid_cells(1, cols) =~= grid_cells(1, (cols - 1) as nat).insert((0int, cols - 1)));
    } else {
        lemma_grid_finite((rows - 1) as nat, cols);
        lemma_grid_finite(1, cols);
        let low = grid_cells(1, cols).map(|cell: (int, int)| (cell.0 + rows - 1, cell.1));
        vstd::set_lib::lemma_map_size_bound(
            grid_cells(1, cols),
            low,
            |cell: (int, int)| (cell.0 + rows - 1, cell.1),
        );
        assert forall|cell: (int, int)| #[trigger] grid_cells(rows, cols).contains(cell) implies grid_cells(
            (rows - 1) as nat,
            cols,
        ).union(low).contains(cell) by {
            if cell.0 == rows - 1 {
                assert(grid_cells(1, cols).contains((0int, cell.1)));
                assert(cell == (0int + rows - 1, cell.1));
            }
        }
        assert(grid_cells(rows, cols).subset_of(grid_cells((rows - 1) as nat, cols).union(low)));
        vstd::set_lib::lemma_set_subset_finite(
            grid_cells((rows - 1) as nat, cols).union(low),
            grid_cells(rows, cols),
        );
    }
}

/// The cells on which boxes stand, each box by its left half.
pub open spec fn boxes_of(map: Seq<Seq<Option<Object2>>>) -> Set<(int, int)> {
    Set::new(|cell: (int, int)| in_map(map, cell) && map[cell.0][cell.1] == Some(Object2::BoxStart))
}

/// A warehouse holds finitely many boxes.
pub proof fn lemma_boxes_finite(map: Seq<Seq<Option<Object2>>>)
    ensures
        boxes_of(map).finite(),
{
    if map.len() > 0 {
        lemma_grid_finite(map.len(), map[0].len());
        assert(boxes_of(map).subset_of(grid_cells(map.len(), map[0].len())));
        vstd::set_lib::lemma_set_subset_finite(grid_cells(map.len(), map[0].len()), boxes_of(map));
    } else {
        assert(boxes_of(map) =~= Set::<(int, int)>::empty());
    }
}

/// Where a box stands after the push: one step further if it is among the
/// boxes found, else where it stood.
pub open spec fn box_after(dir: Direction, found: Seq<(usize, usize)>, cell: (int, int)) -> (int, int) {
    if box_found(found, cell) {
        step_of(dir, cell)
    } else {
        cell
    }
}

/// The push moves the boxes one to one: the boxes after it are the boxes
/// before it, each where `box_after` says, and no two on one cell. So the
/// push keeps the number of boxes.
pub proof fn lemma_pushed_count(
    map: Seq<Seq<Option<Object2>>>,
    dir: Direction,
    last: Seq<Seq<bool>>,
    found: Seq<(usize, usize)>,
    first: (int, int),
)
    requires
        boxes_whole(map),
        searched(map, dir, last, found, first),
    ensures
        boxes_of(pushed(map, dir, found)) == boxes_of(map).map(
            |cell: (int, int)| box_after(dir, found, cell),
        ),
        vstd::relations::injective_on(|cell: (int, int)| box_after(dir, found, cell), boxes_of(map)),
        boxes_of(pushed(map, dir, found)).len() == boxes_of(map).len(),
{
    let after = pushed(map, dir, found);
    let to = |cell: (int, int)| box_after(dir, found, cell);
    lemma_searched_first(map, dir, last, found, first);
    lemma_pushed_rows(map, dir, last, found, first, 0);
    assert forall|a: (int, int), b: (int, int)|
        boxes_of(map).contains(a) && boxes_of(map).contains(b) && #[trigger] to(a) == #[trigger] to(
            b,
        ) implies a == b by {
        lemma_box_found(map, dir, last, found, first, a);
        lemma_box_found(map, dir, last, found, first, b);
        if box_found(found, a) {
            lemma_searched_cell(map, dir, last, found, first, a);
        }
        if box_found(found, b) {
            lemma_searched_cell(map, dir, last, found, first, b);
        }
    }
    assert forall|cell: (int, int)| boxes_of(after).contains(cell) == boxes_of(map).map(to).contains(
        cell,
    ) by {
        let back = back_of(dir, cell);
        assert(step_of(dir, back) == cell);
        if boxes_of(after).contains(cell) {
            lemma_pushed_boxes(map, dir, last, found, first, cell);
            lemma_box_found(map, dir, last, found, first, back);
            if box_found(found, back) {
                assert(boxes_of(map).contains(back) && to(back) == cell);
            } else {
                assert(boxes_of(map).contains(cell) && to(cell) == cell);
            }
        }
        if boxes_of(map).map(to).contains(cell) {
            let from = choose|from: (int, int)| boxes_of(map).contains(from) && cell == to(from);
            lemma_box_found(map, dir, last, found, first, from);
            if box_found(found, from) {
                lemma_searched_cell(map, dir, last, found, first, from);
                assert(back_of(dir, cell) == from);
            }
            lemma_pushed_boxes(map, dir, last, found, first, cell);
        }
    }
    assert(boxes_of(after) =~= boxes_of(map).map(to));
    lemma_boxes_finite(map);
    vstd::set_lib::lemma_map_size(boxes_of(map), boxes_of(after), to);
}

/// After the push every half of a box has its other half beside it.
pub proof fn lemma_pushed_pair(
    map: Seq<Seq<Option<Object2>>>,
    dir: Direction,
    last: Seq<Seq<bool>>,
    found: Seq<(usize, usize)>,
    first: (int, int),
    cell: (int, int),
)
    requires
        boxes_whole(map),
        searched(map, dir, last, found, first),
        in_map(map, cell),
    ensures
        pushed(map, dir, found)[cell.0][cell.1] == Some(Object2::BoxStart) ==> cell.1 + 1
            < map[0].len() && pushed(map, dir, found)[cell.0][cell.1 + 1] == Some(Object2::BoxEnd),
        pushed(map, dir, found)[cell.0][cell.1] == Some(Object2::BoxEnd) ==> cell.1 >= 1 && pushed(
            map,
            dir,
            found,
        )[cell.0][cell.1 - 1] == Some(Object2::BoxStart),
{
    let after = pushed(map, dir, found);
    let back = back_of(dir, cell);
    lemma_pushed_cell(map, dir, last, found, first, cell);
    if after[cell.0][cell.1] == Some(Object2::BoxStart) || after[cell.0][cell.1] == Some(
        Object2::BoxEnd,
    ) {
        let starts = after[cell.0][cell.1] == Some(Object2::BoxStart);
        let beside = if starts {
            right_of(cell)
        } else {
            (cell.0, cell.1 - 1)
        };
        let behind = back_of(dir, beside);
        assert(step_of(dir, back) == cell);
        assert(step_of(dir, behind) == beside);
        if moved(map, last, back) {
            lemma_searched_cell(map, dir, last, found, first, back);
            assert(partner(map, back) == behind);
            lemma_searched_cell(map, dir, last, found, first, behind);
            lemma_pushed_cell(map, dir, last, found, first, beside);
        } else {
            assert(!moved(map, last, cell));
            assert(map[cell.0][cell.1] == after[cell.0][cell.1]);
            assert(in_map(map, beside) && box_part(map, beside) && partner(map, beside) == cell
                && partner(map, cell) == beside) by {
                reveal(boxes_whole);
            }
            if last[beside.0][beside.1] {
                lemma_searched_cell(map, dir, last, found, first, beside);
            }
            if moved(map, last, behind) {
                lemma_searched_cell(map, dir, last, found, first, behind);
            }
            lemma_pushed_cell(map, dir, last, found, first, beside);
        }
    }
}

/// The push leaves the warehouse its shape.
pub proof fn lemma_pushed_rows(
    map: Seq<Seq<Option<Object2>>>,
    dir: Direction,
    last: Seq<Seq<bool>>,
    found: Seq<(usize, usize)>,
    first: (int, int),
    row: int,
)
    requires
        boxes_whole(map),
        searched(map, dir, last, found, first),
        0 <= row < map.len(),
    ensures
        enclosed_b(pushed(map, dir, found)),
        pushed(map, dir, found).len() == map.len(),
        pushed(map, dir, found)[row].len() == map[0].len(),
{
    let n = found.len();
    assert(enclosed_b(map)) by {
        reveal(boxes_whole);
    }
    lemma_moves_inside(map, dir, last, found, first);
    lemma_cleared_enclosed(map, dir, found, n);
    lemma_placed_enclosed(cleared(map, found, n), map, dir, found, n);
}

/// After the push the warehouse is enclosed and its boxes are whole.
pub proof fn lemma_pushed_whole(
    map: Seq<Seq<Option<Object2>>>,
    dir: Direction,
    last: Seq<Seq<bool>>,
    found: Seq<(usize, usize)>,
    first: (int, int),
)
    requires
        boxes_whole(map),
        searched(map, dir, last, found, first),
    ensures
        boxes_whole(pushed(map, dir, found)),
        pushed(map, dir, found).len() == map.len(),
        pushed(map, dir, found)[0].len() == map[0].len(),
{
    let n = found.len();
    let after = pushed(map, dir, found);
    lemma_searched_first(map, dir, last, found, first);
    lemma_pushed_rows(map, dir, last, found, first, 0);
    assert forall|r: int, c: int| 0 <= r < after.len() && 0 <= c < after[0].len() implies ((
    #[trigger] after[r][c]) == Some(Object2::BoxStart) ==> c + 1 < after[0].len() && after[r][c + 1]
        == Some(Object2::BoxEnd)) && (after[r][c] == Some(Object2::BoxEnd) ==> c >= 1 && after[r][c
        - 1] == Some(Object2::BoxStart)) by {
        lemma_pushed_pair(map, dir, last, found, first, (r, c));
    }
    assert(paired(after));
    reveal(boxes_whole);
}

/// After the push the cell that the robot steps onto is free and lies
/// inside the warehouse.
pub proof fn lemma_pushed_free(
    map: Seq<Seq<Option<Object2>>>,
    robot: (int, int),
    dir: Direction,
    last: Seq<Seq<bool>>,
    found: Seq<(usize, usize)>,
)
    requires
        boxes_whole(map),
        in_map(map, robot),
        map[robot.0][robot.1] is None,
        searched(map, dir, last, found, step_of(dir, robot)),
    ensures
        interior(map, step_of(dir, robot)),
        pushed(map, dir, found)[step_of(dir, robot).0][step_of(dir, robot).1] is None,
{
    let next = step_of(dir, robot);
    lemma_searched_first(map, dir, last, found, next);
    lemma_searched_cell(map, dir, last, found, next, next);
    lemma_pushed_cell(map, dir, last, found, next, next);
    assert(back_of(dir, next) == robot);
    assert(!moved(map, last, robot));
    if !moved(map, last, next) {
        assert(!box_part(map, next));
        match map[next.0][next.1] {
            Some(Object2::Border) => {},
            Some(Object2::BoxStart) => {},
            Some(Object2::BoxEnd) => {},
            None => {},
        }
    }
}

/// A state is sound where the warehouse is enclosed with whole boxes and
/// the robot stands inside on a free cell, and only there.
pub proof fn lemma_sound_whole(state: (Seq<Seq<Option<Object2>>>, (int, int)))
    ensures
        sound_b(state) == (boxes_whole(state.0) && interior(state.0, state.1)
            && state.0[state.1.0][state.1.1] is None),
{
    reveal(boxes_whole);
}

/// Setting a cell to what it holds changes nothing.
pub proof fn lemma_cell_same<T>(map: Seq<Seq<T>>, cell: (int, int), what: T)
    requires
        0 <= cell.0 < map.len(),
        0 <= cell.1 < map[cell.0].len(),
        map[cell.0][cell.1] == what,
    ensures
        with_cell(map, cell, what) == map,
{
    assert(map[cell.0].update(cell.1, what) =~= map[cell.0]);
    assert(with_cell(map, cell, what) =~= map);
}

/// After the push the warehouse is enclosed, its boxes are whole, and the
/// cell that the robot steps onto is free.
pub proof fn lemma_pushed_sound(
    map: Seq<Seq<Option<Object2>>>,
    robot: (int, int),
    dir: Direction,
    last: Seq<Seq<bool>>,
    found: Seq<(usize, usize)>,
)
    requires
        sound_b((map, robot)),
        searched(map, dir, last, found, step_of(dir, robot)),
    ensures
        moves_inside(map, dir, found),
        sound_b((with_cell(pushed(map, dir, found), step_of(dir, robot), None), step_of(dir, robot))),
        with_cell(pushed(map, dir, found), step_of(dir, robot), None) == pushed(map, dir, found),
{
    let next = step_of(dir, robot);
    let after = pushed(map, dir, found);
    lemma_sound_whole((map, robot));
    lemma_moves_inside(map, dir, last, found, next);
    lemma_pushed_whole(map, dir, last, found, next);
    lemma_pushed_free(map, robot, dir, last, found);
    lemma_pushed_rows(map, dir, last, found, next, next.0);
    lemma_cell_same(after, next, None);
    lemma_sound_whole((after, next));
}

/// The search for the boxes that a step pushes begins as `collecting`
/// says, with the cell before the robot on its stack, and has fuel enough.
pub proof fn lemma_search_begins(map: Seq<Seq<Option<Object2>>>, robot: (int, int), dir: Direction)
    requires
        workable_b((map, robot)),
    ensures
        collecting(
            map,
            dir,
            seq![(step_of(dir, robot).0 as usize, step_of(dir, robot).1 as usize, true)],
            Seq::new(map.len(), |r: int| Seq::new(map[0].len(), |c: int| false)),
            Seq::empty(),
            step_of(dir, robot),
        ),
        search_fuel(map) >= 1 + 2 * unseen(
            Seq::new(map.len(), |r: int| Seq::new(map[0].len(), |c: int| false)),
        ),
        tracing(
            map,
            dir,
            seq![(step_of(dir, robot).0 as usize, step_of(dir, robot).1 as usize, true)],
            Seq::new(map.len(), |r: int| Seq::new(map[0].len(), |c: int| false)),
            step_of(dir, robot),
        ),
{
    lemma_reach_first(map, dir, step_of(dir, robot));
    assert(tracing(
        map,
        dir,
        seq![(step_of(dir, robot).0 as usize, step_of(dir, robot).1 as usize, true)],
        Seq::new(map.len(), |r: int| Seq::new(map[0].len(), |c: int| false)),
        step_of(dir, robot),
    )) by {
        reveal(tracing);
    }
    reveal(collecting);
    let next = step_of(dir, robot);
    let stack = seq![(next.0 as usize, next.1 as usize, true)];
    let blank = Seq::new(map.len(), |r: int| Seq::new(map[0].len(), |c: int| false));
    let none = Seq::<(usize, usize)>::empty();
    assert(spot(stack[0]) == next);
    assert(waiting(stack, next));
    let f = |r: int, c: int|
        if blank[r][c] {
            0nat
        } else {
            1nat
        };
    crate::counting::lemma_sum_grid_bound(map.len(), map[0].len(), f, 1);
    assert(blank[0].len() == map[0].len());
    assert(unseen(blank) <= 1 * (map.len() * map[0].len()));
}

/// In an enclosed warehouse whose boxes are whole, with the robot on a
/// free cell, every instruction can be carried out, and leaves such a
/// warehouse with as many boxes.
pub proof fn lemma_step_b_sound(state: (Seq<Seq<Option<Object2>>>, (int, int)), dir: Direction)
    requires
        sound_b(state),
    ensures
        step_b(state, dir) is Some,
        sound_b(step_b(state, dir)->0),
        step_b(state, dir) matches Some(next) ==> boxes_of(next.0).len() == boxes_of(state.0).len(),
{
    let (map, robot) = state;
    let next = step_of(dir, robot);
    let stack = seq![(next.0 as usize, next.1 as usize, true)];
    let blank = Seq::new(map.len(), |r: int| Seq::new(map[0].len(), |c: int| false));
    assert(boxes_whole(map)) by {
        reveal(boxes_whole);
    }
    lemma_search_begins(map, robot, dir);
    lemma_collect(map, dir, stack, blank, Seq::empty(), next, search_fuel(map));
    let result = search_b(map, robot, dir);
    assert(search_ends(map, dir, next, result));
    if result is Free {
        let found = result->Free_0;
        let last = choose|last: Seq<Seq<bool>>| #[trigger] searched(map, dir, last, found, next);
        lemma_pushed_sound(map, robot, dir, last, found);
        lemma_pushed_count(map, dir, last, found, next);
    }
}

/// In an enclosed warehouse whose boxes are whole, the search that a step
/// of the robot makes finds a border in the way just where the push
/// reaches one, and else just the boxes that the push reaches.
pub proof fn lemma_search_b_exact(state: (Seq<Seq<Option<Object2>>>, (int, int)), dir: Direction)
    requires
        sound_b(state),
    ensures
        search_exact(state.0, dir, step_of(dir, state.1), search_b(state.0, state.1, dir)),
{
    let (map, robot) = state;
    let next = step_of(dir, robot);
    let stack = seq![(next.0 as usize, next.1 as usize, true)];
    let blank = Seq::new(map.len(), |r: int| Seq::new(map[0].len(), |c: int| false));
    lemma_sound_whole(state);
    lemma_search_begins(map, robot, dir);
    lemma_collect(map, dir, stack, blank, Seq::empty(), next, search_fuel(map));
    lemma_search_exact(map, dir, next, search_b(map, robot, dir));
}

/// In an enclosed warehouse whose boxes are whole, with the robot on a
/// free cell, every list of instructions can be carried out, and leaves
/// such a warehouse with as many boxes.
pub proof fn lemma_run_b_sound(
    state: (Seq<Seq<Option<Object2>>>, (int, int)),
    instructions: Seq<Direction>,
)
    requires
        sound_b(state),
    ensures
        run_b(state, instructions) is Some,
        sound_b(run_b(state, instructions)->0),
        run_b(state, instructions) matches Some(end) ==> boxes_of(end.0).len() == boxes_of(
            state.0,
        ).len(),
    decreases instructions.len(),
{
    if instructions.len() > 0 {
        lemma_run_b_sound(state, instructions.drop_last());
        lemma_step_b_sound(run_b(state, instructions.drop_last())->0, instructions.last());
    }
}

/// Searches for the boxes that a step onto the cell pushes. Returns the
/// cells of their left halves, or nothing where a border stands in the
/// way.
fn collect_boxes(
    map: &Vec<Vec<Option<Object2>>>,
    next_robot_row: usize,
    next_robot_col: usize,
    dir: Direction,
    Ghost(robot): Ghost<(int, int)>,
) -> (found: Option<Vec<(usize, usize)>>)
    requires
        workable_b((plan(map@), robot)),
        (next_robot_row as int, next_robot_col as int) == step_of(dir, robot),
    ensures
        match found {
            Some(moves) => search_b(plan(map@), robot, dir) == Search::Free(moves@) && plan(
                map@,
            )[next_robot_row as int][next_robot_col as int] != Some(Object2::Border),
            None => search_b(plan(map@), robot, dir) == Search::Blocked,
        },
{
    let ghost grid = plan(map@);
    let ghost rows = grid.len() as int;
    let ghost cols = grid[0].len() as int;
    let ghost cells = rows * cols;
    let ghost target = search_b(grid, robot, dir);
    let ghost mut fuel = search_fuel(grid);
    let mut check_stack: Vec<(usize, usize, bool)> = Vec::new();
    check_stack.push((next_robot_row, next_robot_col, true));
    assert(map@[0]@ == grid[0]);
    let mut visited = blank_marks(map.len(), map[0].len());
    let mut box_moves: Vec<(usize, usize)> = Vec::new();
    proof {
        lemma_marked_none(visited@, rows, cols);
        assert(plan(visited@) =~= Seq::new(
            grid.len(),
            |r: int| Seq::new(grid[0].len(), |c: int| false),
        )) by {
            assert forall|r: int| 0 <= r < rows implies #[trigger] plan(visited@)[r] =~= Seq::new(
                grid[0].len(),
                |c: int| false,
            ) by {}
        }
        assert(check_stack@ =~= seq![(next_robot_row, next_robot_col, true)]);
    }

    let mut blocked = false;
    while check_stack.len() > 0
        invariant_except_break
            !blocked,
            collect(grid, dir, check_stack@, plan(visited@), box_moves@, fuel) == target,
            forall|r: int, c: int|
                0 <= r < rows && 0 <= c < cols && (#[trigger] visited@[r]@[c]) ==> grid[r][c]
                    != Some(Object2::Border),
            visited@[next_robot_row as int]@[next_robot_col as int] || (check_stack@.len() >= 1
                && check_stack@[0].0 == next_robot_row && check_stack@[0].1 == next_robot_col),
        invariant
            grid == plan(map@),
            rows == grid.len(),
            cols == grid[0].len(),
            cells == rows * cols,
            enclosed_b(grid),
            marks_shape(visited@, rows, cols),
            fuel >= 3 * (cells - marked(visited@)) + check_stack@.len(),
            marked(visited@) <= cells,
            forall|i: int|
                0 <= i < check_stack@.len() ==> (#[trigger] check_stack@[i]).0 < rows
                    && check_stack@[i].1 < cols,
            next_robot_row < rows,
            next_robot_col < cols,
        ensures
            blocked ==> target == Search::Blocked,
            !blocked ==> target == Search::Free(box_moves@) && grid[next_robot_row as int][next_robot_col as int]
                != Some(Object2::Border),
        decreases fuel,
    {
        let ghost stack = check_stack@;
        let ghost seen = visited@;
        let ghost fuel_before = fuel;
        let (n_row, n_col, check_other) = check_stack.pop().unwrap();
        proof {
            assert(stack[stack.len() - 1].0 < rows);
            assert(map@[n_row as int]@ == grid[n_row as int]);
            assert(grid[n_row as int].len() == grid[0].len());
            assert(plan(seen)[n_row as int][n_col as int] == seen[n_row as int]@[n_col as int]);
            assert(stack.last() == (n_row, n_col, check_other));
            assert(check_stack@ == stack.drop_last());
            fuel = (fuel - 1) as nat;
        }
        if get_mark(&visited, n_row, n_col) {
            proof {
                if stack.len() == 1 {
                    assert(seen[next_robot_row as int]@[next_robot_col as int]);
                } else {
                    assert(check_stack@[0] == stack[0]);
                }
            }
            continue ;
        }
        set_mark(&mut visited, n_row, n_col);
        proof {
            lemma_mark_set(seen, visited@, rows, cols, (n_row as int, n_col as int));
            lemma_plan_marked(seen, visited@, (n_row as int, n_col as int));
            lemma_marked_bound(visited@, rows, cols);
            assert forall|r: int, c: int|
                0 <= r < rows && 0 <= c < cols && (#[trigger] visited@[r]@[c]) && (r != n_row || c
                    != n_col) implies seen[r]@[c] by {
                assert(crate::marks::mark_at(visited@, (r, c)) == crate::marks::mark_at(
                    seen,
                    (r, c),
                ));
            }
            assert(visited@[n_row as int]@[n_col as int]) by {
                assert(crate::marks::mark_at(visited@, (n_row as int, n_col as int)));
            }
            if stack.len() > 1 {
                assert(check_stack@[0] == stack[0]);
            }
        }
        match map[n_row][n_col] {
            Some(obj) => match obj {
                Object2::Border => {
                    blocked = true;
                    break ;
                },
                Object2::BoxStart => {
                    assert(interior(grid, (n_row as int, n_col as int)));
                    box_moves.push((n_row, n_col));
                    let (next_row, next_col) = dir.apply(n_row, n_col);
                    check_stack.push((next_row, next_col, true));
                    if check_other {
                        check_stack.push((n_row, n_col + 1, false));
                    }
                    proof {
                        assert(check_stack@ =~= pushed_for(
                            stack.drop_last(),
                            dir,
                            (n_row, n_col),
                            check_other,
                            (n_col + 1) as usize,
                        ));
                        assert(check_stack@[0] == pushed_for(
                            stack.drop_last(),
                            dir,
                            (n_row, n_col),
                            check_other,
                            (n_col + 1) as usize,
                        )[0]);
                    }
                },
                Object2::BoxEnd => {
                    assert(interior(grid, (n_row as int, n_col as int)));
                    let (next_row, next_col) = dir.apply(n_row, n_col);
                    check_stack.push((next_row, next_col, true));
                    if check_other {
                        check_stack.push((n_row, n_col - 1, false));
                    }
                    proof {
                        assert(check_stack@ =~= pushed_for(
                            stack.drop_last(),
                            dir,
                            (n_row, n_col),
                            check_other,
                            (n_col - 1) as usize,
                        ));
                    }
                },
            },
            None => {},
        }
    }

    if blocked {
        None
    } else {
        Some(box_moves)
    }
}

/// Whether a cell lies in the warehouse and not on its edge.
fn is_interior(map: &Vec<Vec<Option<Object2>>>, row: usize, col: usize) -> (yes: bool)
    requires
        map@.len() > 0,
    ensures
        yes == interior(plan(map@), (row as int, col as int)),
{
    assert(plan(map@)[0] == map@[0]@);
    0 < row && row < map.len() && row < map.len() - 1 && 0 < col && col < map[0].len() && col
        < map[0].len() - 1
}

/// Whether the boxes can be moved without touching the edge of the
/// warehouse.
fn can_move(map: &Vec<Vec<Option<Object2>>>, dir: Direction, box_moves: &Vec<(usize, usize)>) -> (yes:
    bool)
    requires
        enclosed_b(plan(map@)),
    ensures
        yes == moves_inside(plan(map@), dir, box_moves@),
{
    let ghost grid = plan(map@);
    let mut k: usize = 0;
    while k < box_moves.len()
        invariant
            k <= box_moves.len(),
            grid == plan(map@),
            enclosed_b(grid),
            forall|i: int|
                0 <= i < k ==> {
                    let from = #[trigger] box_moves@[i];
                    let to = front_of(dir, from);
                    &&& interior(grid, (from.0 as int, from.1 as int))
                    &&& interior(grid, (from.0 as int, from.1 + 1))
                    &&& interior(grid, (to.0 as int, to.1 as int))
                    &&& interior(grid, (to.0 as int, to.1 + 1))
                },
        decreases box_moves.len() - k,
    {
        let (box_row, box_col) = box_moves[k];
        if !is_interior(map, box_row, box_col) {
            assert(!interior(grid, (box_moves@[k as int].0 as int, box_moves@[k as int].1 as int)));
            return false;
        }
        if !is_interior(map, box_row, box_col + 1) {
            assert(!interior(grid, (box_moves@[k as int].0 as int, box_moves@[k as int].1 + 1)));
            return false;
        }
        let (moved_row, moved_col) = dir.apply(box_row, box_col);
        if !is_interior(map, moved_row, moved_col) {
            assert(!interior(
                grid,
                (
                    front_of(dir, box_moves@[k as int]).0 as int,
                    front_of(dir, box_moves@[k as int]).1 as int,
                ),
            ));
            return false;
        }
        if !is_interior(map, moved_row, moved_col + 1) {
            assert(!interior(
                grid,
                (
                    front_of(dir, box_moves@[k as int]).0 as int,
                    front_of(dir, box_moves@[k as int]).1 + 1,
                ),
            ));
            return false;
        }
        k += 1;
    }
    true
}

/// Setting a cell of the grid of vectors sets it in the grid of sequences.
fn set_cell(map: &mut Vec<Vec<Option<Object2>>>, row: usize, col: usize, what: Option<Object2>)
    requires
        rectangular(plan(old(map)@)),
        interior(plan(old(map)@), (row as int, col as int)),
    ensures
        plan(final(map)@) == with_cell(plan(old(map)@), (row as int, col as int), what),
{
    proof {
        assert(plan(map@)[row as int] == map@[row as int]@);
        assert(plan(map@)[row as int].len() == plan(map@)[0].len());
    }
    map[row][col] = what;
    proof {
        assert(plan(map@) =~= with_cell(plan(old(map)@), (row as int, col as int), what));
    }
}

/// The warehouse that is left, or an empty one where nothing is.
pub open spec fn map_left(state: Option<(Seq<Seq<Option<Object2>>>, (int, int))>) -> Seq<
    Seq<Option<Object2>>,
> {
    match state {
        Some(left) => left.0,
        None => Seq::empty(),
    }
}

/// The cell that the robot is returned on.
pub open spec fn robot_cell(robot: Option<(usize, usize)>) -> (int, int) {
    match robot {
        Some(at) => (at.0 as int, at.1 as int),
        None => (0, 0),
    }
}

/// Carries out the instructions in the wide warehouse. Returns where the
/// robot ends up, or nothing where a move would touch the edge of the
/// warehouse. That does not happen where the boxes are whole and the robot
/// stands on a free cell; the boxes then stay whole, and as many.
pub fn push_wide_boxes(
    map: &mut Vec<Vec<Option<Object2>>>,
    robot_row: usize,
    robot_col: usize,
    instructions: &Vec<Direction>,
) -> (robot: Option<(usize, usize)>)
    requires
        workable_b((plan(old(map)@), (robot_row as int, robot_col as int))),
    ensures
        match robot {
            Some(at) => run_b(
                (plan(old(map)@), (robot_row as int, robot_col as int)),
                instructions@,
            ) == Some((plan(final(map)@), (at.0 as int, at.1 as int))) && workable_b(
                (plan(final(map)@), (at.0 as int, at.1 as int)),
            ),
            None => run_b((plan(old(map)@), (robot_row as int, robot_col as int)), instructions@)
                is None,
        },
        sound_b((plan(old(map)@), (robot_row as int, robot_col as int))) ==> robot is Some
            && sound_b((plan(final(map)@), robot_cell(robot))) && boxes_of(plan(final(map)@)).len()
            == boxes_of(plan(old(map)@)).len(),
{
    let ghost start = (plan(map@), (robot_row as int, robot_col as int));
    let mut cur_row = robot_row;
    let mut cur_col = robot_col;
    let mut at: usize = 0;
    proof {
        assert(instructions@.take(0) =~= Seq::<Direction>::empty());
        if sound_b(start) {
            lemma_run_b_sound(start, instructions@);
        }
    }
    while at < instructions.len()
        invariant
            at <= instructions.len(),
            sound_b(start) ==> run_b(start, instructions@) is Some && sound_b(
                run_b(start, instructions@)->0,
            ) && boxes_of(map_left(run_b(start, instructions@))).len() == boxes_of(start.0).len(),
            start == (plan(old(map)@), (robot_row as int, robot_col as int)),
            workable_b((plan(map@), (cur_row as int, cur_col as int))),
            run_b(start, instructions@.take(at as int)) == Some(
                (plan(map@), (cur_row as int, cur_col as int)),
            ),
        decreases instructions.len() - at,
    {
        let dir = instructions[at];
        let ghost state = (plan(map@), (cur_row as int, cur_col as int));
        let ghost grid = plan(map@);
        proof {
            let done = instructions@.take(at + 1);
            assert(done.drop_last() =~= instructions@.take(at as int));
            assert(done.last() == dir);
            assert(run_b(start, done) == step_b(state, dir));
        }
        let (next_robot_row, next_robot_col) = dir.apply(cur_row, cur_col);
        let ghost next = (next_robot_row as int, next_robot_col as int);
        match collect_boxes(map, next_robot_row, next_robot_col, dir, Ghost(state.1)) {
            None => {},
            Some(box_moves) => {
                if !can_move(map, dir, &box_moves) {
                    proof {
                        assert(step_b(state, dir) is None);
                        lemma_run_b_fails(start, instructions@, at + 1);
                    }
                    return None;
                }
                let mut k: usize = 0;
                while k < box_moves.len()
                    invariant
                        k <= box_moves.len(),
                        enclosed_b(grid),
                        moves_inside(grid, dir, box_moves@),
                        plan(map@) == cleared(grid, box_moves@, k as nat),
                    decreases box_moves.len() - k,
                {
                    let (box_row, box_col) = box_moves[k];
                    proof {
                        lemma_cleared_enclosed(grid, dir, box_moves@, k as nat);
                        let from = box_moves@[k as int];
                        assert(interior(grid, (from.0 as int, from.1 as int)));
                        lemma_set_inside(plan(map@), (from.0 as int, from.1 as int), None);
                    }
                    set_cell(map, box_row, box_col, None);
                    set_cell(map, box_row, box_col + 1, None);
                    k += 1;
                }
                let ghost emptied = plan(map@);
                proof {
                    lemma_cleared_enclosed(grid, dir, box_moves@, box_moves@.len());
                }
                let mut k: usize = 0;
                while k < box_moves.len()
                    invariant
                        k <= box_moves.len(),
                        enclosed_b(grid),
                        enclosed_b(emptied),
                        emptied.len() == grid.len(),
                        emptied[0].len() == grid[0].len(),
                        moves_inside(grid, dir, box_moves@),
                        plan(map@) == placed(emptied, dir, box_moves@, k as nat),
                    decreases box_moves.len() - k,
                {
                    let (box_row, box_col) = box_moves[k];
                    proof {
                        lemma_placed_enclosed(emptied, grid, dir, box_moves@, k as nat);
                        let from = box_moves@[k as int];
                        let to = front_of(dir, from);
                        assert(interior(grid, (from.0 as int, from.1 as int)));
                        assert(interior(grid, (to.0 as int, to.1 as int)));
                        lemma_set_inside(
                            plan(map@),
                            (to.0 as int, to.1 as int),
                            Some(Object2::BoxStart),
                        );
                    }
                    let (moved_row, moved_col) = dir.apply(box_row, box_col);
                    set_cell(map, moved_row, moved_col, Some(Object2::BoxStart));
                    set_cell(map, moved_row, moved_col + 1, Some(Object2::BoxEnd));
                    k += 1;
                }
                proof {
                    lemma_placed_enclosed(emptied, grid, dir, box_moves@, box_moves@.len());
                    assert(interior(grid, next)) by {
                        if !interior(grid, next) {
                            assert(grid[next.0][next.1] == Some(Object2::Border));
                        }
                    }
                    lemma_set_inside(plan(map@), next, None);
                }
                set_cell(map, next_robot_row, next_robot_col, None);

                cur_row = next_robot_row;
                cur_col = next_robot_col;
            },
        }
        at += 1;
    }
    proof {
        assert(instructions@.take(at as int) =~= instructions@);
    }
    Some((cur_row, cur_col))
}

/// Where the first instructions cannot be carried out, all of them cannot.
pub proof fn lemma_run_b_fails(
    state: (Seq<Seq<Option<Object2>>>, (int, int)),
    instructions: Seq<Direction>,
    len: int,
)
    requires
        0 <= len <= instructions.len(),
        run_b(state, instructions.take(len)) is None,
    ensures
        run_b(state, instructions) is None,
    decreases instructions.len(),
{
    if len == instructions.len() {
        assert(instructions.take(len) =~= instructions);
    } else {
        assert(instructions.drop_last().take(len) =~= instructions.take(len));
        lemma_run_b_fails(state, instructions.drop_last(), len);
    }
}

/// What a cell of the wide warehouse holds, given the cell of the
/// warehouse that it is a half of.
pub open spec fn wide_cell(narrow: Option<Object>, right_half: bool) -> Option<Object2> {
    match narrow {
        Some(Object::Border) => Some(Object2::Border),
        Some(Object::Box) => if right_half {
            Some(Object2::BoxEnd)
        } else {
            Some(Object2::BoxStart)
        },
        None => None,
    }
}

/// The warehouse made twice as wide: every cell becomes two.
pub open spec fn wide_of(map: Seq<Seq<Option<Object>>>) -> Seq<Seq<Option<Object2>>> {
    Seq::new(
        map.len(),
        |r: int| Seq::new(2 * map[r].len(), |c: int| wide_cell(map[r][c / 2], c % 2 == 1)),
    )
}

/// Makes the warehouse twice as wide.
pub fn widen(map: &Vec<Vec<Option<Object>>>) -> (wide: Vec<Vec<Option<Object2>>>)
    ensures
        plan(wide@) == wide_of(plan(map@)),
{
    let mut wide: Vec<Vec<Option<Object2>>> = Vec::new();
    let ghost wanted = wide_of(plan(map@));
    let mut row: usize = 0;
    while row < map.len()
        invariant
            row <= map.len(),
            wanted == wide_of(plan(map@)),
            wide@.len() == row,
            forall|r: int| 0 <= r < row ==> (#[trigger] wide@[r])@ == wanted[r],
        decreases map.len() - row,
    {
        let mut cells: Vec<Option<Object2>> = Vec::new();
        let mut col: usize = 0;
        let ghost line = wanted[row as int];
        assert(plan(map@)[row as int] == map@[row as int]@);
        while col < map[row].len()
            invariant
                row < map.len(),
                col <= map@[row as int]@.len(),
                line == wanted[row as int],
                wanted == wide_of(plan(map@)),
                cells@ == line.take(2 * col),
            decreases map@[row as int]@.len() - col,
        {
            assert(plan(map@)[row as int][col as int] == map@[row as int]@[col as int]);
            match map[row][col] {
                Some(Object::Border) => {
                    cells.push(Some(Object2::Border));
                    cells.push(Some(Object2::Border));
                },
                Some(Object::Box) => {
                    cells.push(Some(Object2::BoxStart));
                    cells.push(Some(Object2::BoxEnd));
                },
                None => {
                    cells.push(None);
                    cells.push(None);
                },
            }
            proof {
                assert((2 * col) / 2 == col && (2 * col) % 2 == 0);
                assert((2 * col + 1) / 2 == col && (2 * col + 1) % 2 == 1);
                assert(cells@ =~= line.take(2 * col + 2));
            }
            col += 1;
        }
        proof {
            assert(line.take(2 * col) =~= line);
        }
        wide.push(cells);
        row += 1;
    }
    proof {
        assert(plan(wide@) =~= wanted);
    }
    wide
}

/// The left half of a box at a cell counts a hundred times its row plus
/// its column.
pub open spec fn wide_box_mark(map: Seq<Seq<Option<Object2>>>) -> spec_fn(int, int) -> nat {
    |row: int, col: int|
        if map[row][col] == Some(Object2::BoxStart) {
            (100 * row + col) as nat
        } else {
            0nat
        }
}

/// The sum of the coordinates of all boxes of the wide warehouse.
pub open spec fn gps_b(map: Seq<Seq<Option<Object2>>>) -> nat {
    sum_grid(map.len(), map[0].len(), wide_box_mark(map))
}

/// The sum of the coordinates of all boxes of the wide warehouse.
pub fn sum_wide_boxes(map: &Vec<Vec<Option<Object2>>>) -> (sum: usize)
    requires
        rectangular(plan(map@)),
        gps_b(plan(map@)) <= usize::MAX,
    ensures
        sum == gps_b(plan(map@)),
{
    let ghost grid = plan(map@);
    let ghost mark = wide_box_mark(grid);
    let ghost rows = grid.len();
    let ghost cols = grid[0].len();
    let mut sum: usize = 0;
    let mut row_idx: usize = 0;
    while row_idx < map.len()
        invariant
            row_idx <= map.len(),
            grid == plan(map@),
            rectangular(grid),
            mark == wide_box_mark(grid),
            rows == grid.len(),
            cols == grid[0].len(),
            sum_grid(rows, cols, mark) <= usize::MAX,
            sum == sum_below(row_idx as nat, row_sums(cols, mark)),
        decreases map.len() - row_idx,
    {
        let ghost above = sum;
        let mut col_idx: usize = 0;
        assert(grid[row_idx as int] == map@[row_idx as int]@);
        assert(grid[row_idx as int].len() == cols);
        while col_idx < map[row_idx].len()
            invariant
                row_idx < map.len(),
                col_idx <= map@[row_idx as int].len(),
                map@[row_idx as int].len() == cols,
                grid == plan(map@),
                mark == wide_box_mark(grid),
                rows == grid.len(),
                sum_grid(rows, cols, mark) <= usize::MAX,
                above == sum_below(row_idx as nat, row_sums(cols, mark)),
                sum == above + sum_below(col_idx as nat, at_row(mark, row_idx as int)),
            decreases cols - col_idx,
        {
            proof {
                lemma_sum_grid_partial(rows, cols, mark, row_idx as nat, (col_idx + 1) as nat);
                assert(grid[row_idx as int][col_idx as int] == map@[row_idx as int]@[col_idx as int]);
            }
            match map[row_idx][col_idx] {
                Some(Object2::BoxStart) => {
                    sum += 100 * row_idx + col_idx;
                },
                _ => {},
            }
            col_idx += 1;
        }
        proof {
            lemma_sum_grid_partial(rows, cols, mark, row_idx as nat, cols);
        }
        row_idx += 1;
    }
    sum
}

/// The wide warehouse and the robot as the text draws them.
pub open spec fn drawn_b(text: Seq<u8>) -> (Seq<Seq<Option<Object2>>>, (int, int)) {
    (wide_of(drawn_a(text).0), (drawn_a(text).1.0, 2 * drawn_a(text).1.1))
}

/// Every box of a warehouse made twice as wide is whole.
pub proof fn lemma_wide_paired(map: Seq<Seq<Option<Object>>>)
    requires
        rectangular(wide_of(map)),
    ensures
        paired(wide_of(map)),
{
    let wide = wide_of(map);
    assert forall|r: int, c: int| 0 <= r < wide.len() && 0 <= c < wide[0].len() implies ((
    #[trigger] wide[r][c]) == Some(Object2::BoxStart) ==> c + 1 < wide[0].len() && wide[r][c + 1]
        == Some(Object2::BoxEnd)) && (wide[r][c] == Some(Object2::BoxEnd) ==> c >= 1 && wide[r][c - 1]
        == Some(Object2::BoxStart)) by {
        assert(wide[r].len() == wide[0].len());
        assert(wide[r].len() == 2 * map[r].len());
        if wide[r][c] == Some(Object2::BoxStart) {
            assert(c % 2 == 0);
            assert((c + 1) / 2 == c / 2 && (c + 1) % 2 == 1);
        }
        if wide[r][c] == Some(Object2::BoxEnd) {
            assert(c % 2 == 1);
            assert((c - 1) / 2 == c / 2 && (c - 1) % 2 == 0);
        }
    }
}

/// The wide warehouse that a text draws has whole boxes, and the robot
/// stands on a free cell of it.
pub proof fn lemma_drawn_sound(text: Seq<u8>)
    requires
        well_drawn(text),
        workable_b(drawn_b(text)),
    ensures
        sound_b(drawn_b(text)),
{
    let narrow = drawn_a(text).0;
    let robot = drawn_a(text).1;
    let lines = map_lines(text);
    lemma_wide_paired(narrow);
    assert(in_lines(lines, robot.0, robot.1));
    assert(narrow[robot.0][robot.1] == object_of(byte_at(text, lines, robot.0, robot.1)));
    assert(wide_of(narrow)[robot.0][2 * robot.1] == wide_cell(narrow[robot.0][robot.1], false));
}

/// The sum of the boxes' coordinates after the robot has carried out the
/// instructions of the text in the warehouse that the text draws, made
/// twice as wide. In such a warehouse every instruction can be carried out,
/// so a sum is always returned.
pub fn solve_b(input: &[u8]) -> (sum: Option<u64>)
    requires
        well_drawn(input@),
        workable_b(drawn_b(input@)),
        forall|end: (Seq<Seq<Option<Object2>>>, (int, int))|
            run_b(drawn_b(input@), text_instructions(input@)->0) == Some(end) ==> gps_b(end.0)
                <= usize::MAX,
    ensures
        sum is Some,
        run_b(drawn_b(input@), text_instructions(input@)->0) matches Some(end) && sum == Some(
            gps_b(end.0) as u64,
        ),
{
    proof {
        lemma_drawn_sound(input@);
    }
    let map_end = find_block_end(input, 0);
    let lines = split_lines(input, 0, map_end);
    let (narrow, robot) = read_map(input, &lines).unwrap();
    proof {
        lemma_robot_unique(input@, lines@, robot, Some(robot_of(input@, lines@)));
    }
    let (robot_row, robot_col) = robot.unwrap();
    let mut map = widen(&narrow);
    let moves_from = if input.len() - map_end >= 2 {
        map_end + 2
    } else {
        input.len()
    };
    let moves_to = find_block_end(input, moves_from);
    let instructions = read_instructions(input, moves_from, moves_to).unwrap();
    match push_wide_boxes(&mut map, robot_row, 2 * robot_col, &instructions) {
        Some(_) => Some(sum_wide_boxes(&map) as u64),
        None => None,
    }
}

/// The byte that a cell of the wide warehouse is drawn with.
pub open spec fn drawn_byte(cell: Option<Object2>) -> u8 {
    match cell {
        Some(Object2::Border) => 0x23,
        Some(Object2::BoxStart) => 0x5b,
        Some(Object2::BoxEnd) => 0x5d,
        None => 0x2e,
    }
}

/// The drawing shows the wide warehouse, row by row, with an `@` where the
/// robot stands.
pub open spec fn map_drawn(
    map: Seq<Vec<Option<Object2>>>,
    robot: (usize, usize),
    drawing: Seq<Vec<u8>>,
) -> bool {
    &&& drawing.len() == map.len()
    &&& forall|r: int| 0 <= r < map.len() ==> (#[trigger] drawing[r])@.len() == map[r]@.len()
    &&& forall|r: int, c: int|
        0 <= r < map.len() && 0 <= c < map[r]@.len() ==> #[trigger] drawing[r]@[c] == if (r, c)
            == (robot.0 as int, robot.1 as int) {
            0x40u8
        } else {
            drawn_byte(map[r]@[c])
        }
}

/// Draws the wide warehouse, a line for each row.
pub fn draw_map(map: &Vec<Vec<Option<Object2>>>, robot_row: usize, robot_col: usize) -> (drawing: Vec<
    Vec<u8>,
>)
    ensures
        map_drawn(map@, (robot_row, robot_col), drawing@),
{
    let mut drawing: Vec<Vec<u8>> = Vec::new();
    let mut row_idx: usize = 0;
    while row_idx < map.len()
        invariant
            row_idx <= map.len(),
            drawing@.len() == row_idx,
            forall|r: int| 0 <= r < row_idx ==> (#[trigger] drawing@[r])@.len() == map@[r]@.len(),
            forall|r: int, c: int|
                0 <= r < row_idx && 0 <= c < map@[r]@.len() ==> #[trigger] drawing@[r]@[c] == if (
                    r,
                    c,
                ) == (robot_row as int, robot_col as int) {
                    0x40u8
                } else {
                    drawn_byte(map@[r]@[c])
                },
        decreases map.len() - row_idx,
    {
        let row = &map[row_idx];
        let mut line: Vec<u8> = Vec::new();
        let mut col_idx: usize = 0;
        while col_idx < row.len()
            invariant
                col_idx <= row.len(),
                row_idx < map.len(),
                *row == map@[row_idx as int],
                line@.len() == col_idx,
                forall|c: int|
                    0 <= c < col_idx ==> #[trigger] line@[c] == if (row_idx as int, c) == (
                        robot_row as int,
                        robot_col as int,
                    ) {
                        0x40u8
                    } else {
                        drawn_byte(row@[c])
                    },
            decreases row.len() - col_idx,
        {
            if row_idx == robot_row && col_idx == robot_col {
                line.push(0x40);
            } else {
                line.push(
                    match row[col_idx] {
                        Some(obj) => match obj {
                            Object2::Border => 0x23,
                            Object2::BoxStart => 0x5b,
                            Object2::BoxEnd => 0x5d,
                        },
                        None => 0x2e,
                    },
                );
            }
            col_idx += 1;
        }
        drawing.push(line);
        row_idx += 1;
    }
    drawing
}

} // verus!
