//! A race track between walls: how long it takes to get to every cell, and
//! how many shortcuts through the walls save enough time.

use vstd::prelude::*;
use crate::grid_walk::{
    Arena, bounded, cell_count, closed, covered, empty_table, entry, fits_arena, get_entry,
    in_grid, is_distance, is_open, lemma_bounded_settle, lemma_bounded_skip, lemma_closed_settle,
    lemma_closed_skip, lemma_covered_by_item, lemma_covered_kept, lemma_neighbours_covered,
    lemma_pushed_reached, lemma_search_begins, lemma_sound_settle, lemma_sound_skip,
    lemma_bounded_entry, lemma_table_exact, lemma_table_known_bound, lemma_table_set_measures, lemma_top_item,
    lemma_weight_settle, lemma_weight_skip, neighbours, never_reached, pushed_ok, set_entry,
    reached, sound, stack_weight, table_known, table_shape, table_total,
};

verus! {

/// The track as an arena: as large as the grid of walls, from the start
/// cell to the end cell.
pub open spec fn track(
    walls: Seq<Vec<bool>>,
    start_row: usize,
    start_col: usize,
    end_row: usize,
    end_col: usize,
) -> Arena {
    Arena {
        rows: walls.len() as int,
        cols: walls[0].len() as int,
        start: (start_row as int, start_col as int),
        end: (end_row as int, end_col as int),
    }
}

/// The grid of walls is a rectangle, and the start is a free cell of it.
pub open spec fn track_valid(walls: Seq<Vec<bool>>, start_row: usize, start_col: usize) -> bool {
    &&& walls.len() > 0
    &&& forall|r: int| 0 <= r < walls.len() ==> (#[trigger] walls[r]).len() == walls[0].len()
    &&& walls.len() * walls[0].len() < u64::MAX
    &&& start_row < walls.len()
    &&& start_col < walls[0].len()
    &&& !walls[start_row as int]@[start_col as int]
}

/// The table holds, for every cell, the least number of steps of a walk to
/// it, and nothing for a cell that no walk gets to.
pub open spec fn times_exact(walls: Seq<Vec<bool>>, arena: Arena, table: Seq<Vec<Option<u64>>>) -> bool {
    &&& table_shape(table, arena)
    &&& forall|r: int, c: int|
        0 <= r < arena.rows && 0 <= c < arena.cols ==> match #[trigger] entry(table, (r, c)) {
            Some(known) => is_distance(walls, arena, (r, c), known as int),
            None => never_reached(walls, arena, (r, c)),
        }
}

/// Every time in the table is less than the number of cells.
pub open spec fn times_bounded(arena: Arena, table: Seq<Vec<Option<u64>>>) -> bool {
    forall|r: int, c: int|
        0 <= r < arena.rows && 0 <= c < arena.cols ==> ((#[trigger] entry(
            table,
            (r, c),
        )) matches Some(known) ==> known < cell_count(arena))
}

/// For every cell of a track the least time in which it can be
/// reached from the start, where a walk stays between the walls and stops
/// at the end cell.
pub fn find_shortest_path(
    walls: &Vec<Vec<bool>>,
    start_row: usize,
    start_col: usize,
    end_row: usize,
    end_col: usize,
) -> (visited: Vec<Vec<Option<u64>>>)
    requires
        track_valid(walls@, start_row, start_col),
    ensures
        times_exact(walls@, track(walls@, start_row, start_col, end_row, end_col), visited@),
        times_bounded(track(walls@, start_row, start_col, end_row, end_col), visited@),
{
    let num_rows = walls.len();
    let num_cols = walls[0].len();
    let ghost arena = track(walls@, start_row, start_col, end_row, end_col);
    let ghost cells = cell_count(arena);
    proof {
        reveal(cell_count);
        assert(walls@[start_row as int].len() == walls@[0].len());
    }
    let mut queue: Vec<(usize, usize, u64)> = vec![(start_row, start_col, 0u64)];

    let mut visited = empty_table(num_rows, num_cols);
    proof {
        lemma_search_begins(walls@, arena, visited@, queue@, 1);
    }

    while queue.len() > 0
        invariant
            arena == track(walls@, start_row, start_col, end_row, end_col),
            num_rows == arena.rows,
            num_cols == arena.cols,
            in_grid(arena, arena.start),
            cells == cell_count(arena),
            cells < u64::MAX,
            fits_arena(walls@, arena),
            table_shape(visited@, arena),
            closed(walls@, arena, visited@, queue@),
            sound(walls@, arena, visited@, queue@),
            bounded(arena, visited@, queue@, 1),
            table_known(visited@) <= cells,
        decreases
            cells - table_known(visited@),
            table_total(visited@),
            stack_weight(queue@, cells + 1),
    {
        let ghost stack = queue@;
        let ghost table = visited@;
        let (row, col, time) = queue.pop().unwrap();
        let ghost here = (row as int, col as int);
        proof {
            assert(stack.last() == (row, col, time));
            assert(queue@ == stack.drop_last());
            lemma_top_item(walls@, arena, table, stack, 1);
            lemma_weight_skip(stack, cells + 1);
        }
        if let Some(old_time) = get_entry(&visited, row, col) {
            if old_time < time {
                proof {
                    lemma_closed_skip(walls@, arena, table, stack);
                    lemma_sound_skip(walls@, arena, table, stack);
                    lemma_bounded_skip(arena, table, stack, 1);
                }
                continue ;
            }
        }
        set_entry(&mut visited, row, col, time);
        proof {
            lemma_table_set_measures(table, visited@, arena, here, time);
            lemma_table_known_bound(visited@, arena);
        }

        if row == end_row && col == end_col {
            proof {
                lemma_sound_settle(walls@, arena, table, stack, visited@, queue@);
                lemma_closed_settle(walls@, arena, table, stack, visited@, queue@);
                lemma_bounded_settle(arena, table, stack, visited@, queue@, 1);
            }
            continue ;
        }
        let ghost base = queue@.len() as int;
        let ghost around = neighbours(here);

        if row > 0 {
            // go UP
            if !walls[row - 1][col] {
                queue.push((row - 1, col, time + 1));
                proof {
                    lemma_covered_by_item(visited@, queue@, queue@.len() - 1, time + 1);
                }
            }
        }
        assert(is_open(walls@, arena, around[0]) ==> covered(visited@, queue@, around[0], time + 1));
        assert(pushed_ok(walls@, arena, queue@, base, here, time));
        let ghost after_up = queue@;

        if row + 1 < num_rows {
            // go DOWN
            if !walls[row + 1][col] {
                queue.push((row + 1, col, time + 1));
                proof {
                    lemma_covered_by_item(visited@, queue@, queue@.len() - 1, time + 1);
                }
            }
        }
        proof {
            lemma_covered_kept(visited@, after_up, queue@, around[0], time + 1);
        }
        assert(is_open(walls@, arena, around[1]) ==> covered(visited@, queue@, around[1], time + 1));
        assert(pushed_ok(walls@, arena, queue@, base, here, time));
        let ghost after_down = queue@;

        if col > 0 {
            // go LEFT
            if !walls[row][col - 1] {
                queue.push((row, col - 1, time + 1));
                proof {
                    lemma_covered_by_item(visited@, queue@, queue@.len() - 1, time + 1);
                }
            }
        }
        proof {
            lemma_covered_kept(visited@, after_down, queue@, around[0], time + 1);
            lemma_covered_kept(visited@, after_down, queue@, around[1], time + 1);
        }
        assert(is_open(walls@, arena, around[2]) ==> covered(visited@, queue@, around[2], time + 1));
        assert(pushed_ok(walls@, arena, queue@, base, here, time));
        let ghost after_left = queue@;

        if col + 1 < num_cols {
            // go RIGHT
            if !walls[row][col + 1] {
                queue.push((row, col + 1, time + 1));
                proof {
                    lemma_covered_by_item(visited@, queue@, queue@.len() - 1, time + 1);
                }
            }
        }
        proof {
            lemma_covered_kept(visited@, after_left, queue@, around[0], time + 1);
            lemma_covered_kept(visited@, after_left, queue@, around[1], time + 1);
            lemma_covered_kept(visited@, after_left, queue@, around[2], time + 1);
        }
        assert(is_open(walls@, arena, around[3]) ==> covered(visited@, queue@, around[3], time + 1));
        assert(pushed_ok(walls@, arena, queue@, base, here, time));
        proof {
            lemma_neighbours_covered(walls@, arena, visited@, queue@, here, time + 1);
            lemma_pushed_reached(walls@, arena, queue@, base, here, time);
            lemma_closed_settle(walls@, arena, table, stack, visited@, queue@);
            lemma_sound_settle(walls@, arena, table, stack, visited@, queue@);
            lemma_bounded_settle(arena, table, stack, visited@, queue@, 1);
            lemma_weight_settle(stack, queue@, cells + 1);
        }
    }

    proof {
        assert(queue@ =~= Seq::<(usize, usize, u64)>::empty());
        assert forall|r: int, c: int| 0 <= r < arena.rows && 0 <= c < arena.cols implies match #[trigger] entry(
            visited@,
            (r, c),
        ) {
            Some(known) => is_distance(walls@, arena, (r, c), known as int),
            None => never_reached(walls@, arena, (r, c)),
        } by {
            lemma_table_exact(walls@, arena, visited@, (r, c));
        }
        assert forall|r: int, c: int| 0 <= r < arena.rows && 0 <= c < arena.cols implies ((#[trigger] entry(
            visited@,
            (r, c),
        )) matches Some(known) ==> known < cell_count(arena)) by {
            lemma_bounded_entry(arena, visited@, queue@, (r, c));
        }
    }
    visited
}

/// Some walk gets to the cell.
pub open spec fn reachable(walls: Seq<Vec<bool>>, arena: Arena, cell: (int, int)) -> bool {
    exists|steps: int| reached(walls, arena, cell, steps)
}

/// The least time in which a reachable cell is reached.
pub open spec fn time_to(walls: Seq<Vec<bool>>, arena: Arena, cell: (int, int)) -> int {
    choose|steps: int| is_distance(walls, arena, cell, steps)
}

/// The number of steps between two cells when walls do not count.
pub open spec fn manhattan(from: (int, int), to: (int, int)) -> int {
    (if from.0 < to.0 { to.0 - from.0 } else { from.0 - to.0 }) + (if from.1 < to.1 {
        to.1 - from.1
    } else {
        from.1 - to.1
    })
}

/// Leaving the track at `from` and coming back to it at the free cell `to`
/// gets to the end at least 100 steps sooner than the track does.
pub open spec fn cheat_at(walls: Seq<Vec<bool>>, arena: Arena, from: (int, int), to: (int, int)) -> bool {
    &&& is_open(walls, arena, to)
    &&& to != from
    &&& time_to(walls, arena, from) + manhattan(from, to) + (time_to(walls, arena, arena.end)
        - time_to(walls, arena, to)) + 100 <= time_to(walls, arena, arena.end)
}

/// Among the first `upto` cells of the span that lies `row_off` rows below
/// `from` and reaches `width` columns to either side, the number of cells
/// to which a cheat from `from` pays.
pub open spec fn span_cheats(
    walls: Seq<Vec<bool>>,
    arena: Arena,
    from: (int, int),
    row_off: int,
    width: int,
    upto: nat,
) -> nat
    decreases upto,
{
    if upto == 0 {
        0
    } else {
        span_cheats(walls, arena, from, row_off, width, (upto - 1) as nat) + (if cheat_at(
            walls,
            arena,
            from,
            (from.0 + row_off, from.1 + (upto - 1) - width),
        ) {
            1nat
        } else {
            0nat
        })
    }
}

/// The cheats from `from` of at most `reach` steps into the first `upto`
/// spans, counted from the one `reach` rows above.
pub open spec fn cell_cheats(
    walls: Seq<Vec<bool>>,
    arena: Arena,
    from: (int, int),
    reach: int,
    upto: nat,
) -> nat
    decreases upto,
{
    if upto == 0 {
        0
    } else {
        let row_off = (upto - 1) - reach;
        let width = reach - (if row_off < 0 { -row_off } else { row_off });
        cell_cheats(walls, arena, from, reach, (upto - 1) as nat) + span_cheats(
            walls,
            arena,
            from,
            row_off,
            width,
            (2 * width + 1) as nat,
        )
    }
}

/// The cheats of at most `reach` steps from the free cells among the first
/// `upto` cells of a row.
pub open spec fn row_cheats(
    walls: Seq<Vec<bool>>,
    arena: Arena,
    reach: int,
    row: int,
    upto: nat,
) -> nat
    decreases upto,
{
    if upto == 0 {
        0
    } else {
        row_cheats(walls, arena, reach, row, (upto - 1) as nat) + (if is_open(
            walls,
            arena,
            (row, upto - 1),
        ) {
            cell_cheats(walls, arena, (row, upto - 1), reach, (2 * reach + 1) as nat)
        } else {
            0nat
        })
    }
}

/// The cheats of at most `reach` steps from the free cells of the first
/// `upto` rows: the number of pairs of a free cell and another free cell at
/// most `reach` steps away, which is reached at least 100 steps later than
/// the first even when the steps in between are taken off.
pub open spec fn all_cheats(walls: Seq<Vec<bool>>, arena: Arena, reach: int, upto: nat) -> nat
    decreases upto,
{
    if upto == 0 {
        0
    } else {
        all_cheats(walls, arena, reach, (upto - 1) as nat) + row_cheats(
            walls,
            arena,
            reach,
            upto - 1,
            arena.cols as nat,
        )
    }
}

/// What counting the cheats needs of a track: the end lies on it, every
/// free cell is reached, none of them later than the end unless no step
/// may be cheated, and the numbers fit the machine's integers.
pub open spec fn cheats_countable(
    walls: Seq<Vec<bool>>,
    arena: Arena,
    max_cheat_time: usize,
) -> bool {
    &&& in_grid(arena, arena.end)
    &&& reachable(walls, arena, arena.end)
    &&& forall|cell: (int, int)| #[trigger]
        is_open(walls, arena, cell) ==> reachable(walls, arena, cell) && (max_cheat_time > 0
            ==> time_to(walls, arena, cell) <= time_to(walls, arena, arena.end))
    &&& walls.len() + max_cheat_time <= isize::MAX
    &&& walls[0].len() + max_cheat_time <= isize::MAX
    &&& 2 * cell_count(arena) + max_cheat_time + 100 <= u64::MAX
    &&& all_cheats(walls, arena, max_cheat_time as int, arena.rows as nat) <= u64::MAX
}

/// The table's entry for a reachable cell is the least time to it.
pub proof fn lemma_time_known(
    walls: Seq<Vec<bool>>,
    arena: Arena,
    table: Seq<Vec<Option<u64>>>,
    cell: (int, int),
)
    requires
        times_exact(walls, arena, table),
        in_grid(arena, cell),
        reachable(walls, arena, cell),
    ensures
        entry(table, cell) matches Some(known) && known == time_to(walls, arena, cell),
{
    let steps = choose|steps: int| reached(walls, arena, cell, steps);
    let found = entry(table, cell);
    assert(found is Some) by {
        if found is None {
            assert(never_reached(walls, arena, cell));
            assert(!reached(walls, arena, cell, steps));
        }
    }
    let known = found->0 as int;
    assert(is_distance(walls, arena, cell, known));
    let chosen = time_to(walls, arena, cell);
    assert(is_distance(walls, arena, cell, chosen));
    if chosen < known {
        assert(!reached(walls, arena, cell, chosen));
    }
    if known < chosen {
        assert(!reached(walls, arena, cell, known));
    }
}

/// The counts grow with the range.
pub proof fn lemma_cheats_mono(walls: Seq<Vec<bool>>, arena: Arena, reach: int, row: int, col: int)
    requires
        0 <= row < arena.rows,
        0 <= col <= arena.cols,
    ensures
        all_cheats(walls, arena, reach, row as nat) + row_cheats(
            walls,
            arena,
            reach,
            row,
            col as nat,
        ) <= all_cheats(walls, arena, reach, arena.rows as nat),
{
    lemma_row_cheats_mono(walls, arena, reach, row, col as nat, arena.cols as nat);
    lemma_all_cheats_mono(walls, arena, reach, (row + 1) as nat, arena.rows as nat);
}

/// The cheats of a row grow with the number of cells looked at.
pub proof fn lemma_row_cheats_mono(
    walls: Seq<Vec<bool>>,
    arena: Arena,
    reach: int,
    row: int,
    fewer: nat,
    more: nat,
)
    requires
        fewer <= more,
    ensures
        row_cheats(walls, arena, reach, row, fewer) <= row_cheats(walls, arena, reach, row, more),
    decreases more,
{
    if fewer < more {
        lemma_row_cheats_mono(walls, arena, reach, row, fewer, (more - 1) as nat);
    }
}

/// The cheats of the track grow with the number of rows looked at.
pub proof fn lemma_all_cheats_mono(
    walls: Seq<Vec<bool>>,
    arena: Arena,
    reach: int,
    fewer: nat,
    more: nat,
)
    requires
        fewer <= more,
    ensures
        all_cheats(walls, arena, reach, fewer) <= all_cheats(walls, arena, reach, more),
    decreases more,
{
    if fewer < more {
        lemma_all_cheats_mono(walls, arena, reach, fewer, (more - 1) as nat);
    }
}

/// The cheats from a cell grow with the number of spans looked at.
pub proof fn lemma_cell_cheats_mono(
    walls: Seq<Vec<bool>>,
    arena: Arena,
    from: (int, int),
    reach: int,
    fewer: nat,
    more: nat,
)
    requires
        fewer <= more,
    ensures
        cell_cheats(walls, arena, from, reach, fewer) <= cell_cheats(
            walls,
            arena,
            from,
            reach,
            more,
        ),
    decreases more,
{
    if fewer < more {
        lemma_cell_cheats_mono(walls, arena, from, reach, fewer, (more - 1) as nat);
    }
}

/// The cheats into a span grow with the number of cells looked at.
pub proof fn lemma_span_cheats_mono(
    walls: Seq<Vec<bool>>,
    arena: Arena,
    from: (int, int),
    row_off: int,
    width: int,
    fewer: nat,
    more: nat,
)
    requires
        fewer <= more,
    ensures
        span_cheats(walls, arena, from, row_off, width, fewer) <= span_cheats(
            walls,
            arena,
            from,
            row_off,
            width,
            more,
        ),
    decreases more,
{
    if fewer < more {
        lemma_span_cheats_mono(walls, arena, from, row_off, width, fewer, (more - 1) as nat);
    }
}

/// The cheats of at most `max_cheat_time` steps that start at one free
/// cell.
fn count_cell_cheats(
    walls: &Vec<Vec<bool>>,
    time_taken: &Vec<Vec<Option<u64>>>,
    s_row: usize,
    s_col: usize,
    regular_time: u64,
    max_cheat_time: usize,
    Ghost(arena): Ghost<Arena>,
) -> (found: u64)
    requires
        arena.rows == walls@.len(),
        arena.cols == walls@[0].len(),
        fits_arena(walls@, arena),
        times_exact(walls@, arena, time_taken@),
        cheats_countable(walls@, arena, max_cheat_time),
        is_open(walls@, arena, (s_row as int, s_col as int)),
        regular_time == time_to(walls@, arena, arena.end),
        regular_time <= cell_count(arena),
        cell_cheats(
            walls@,
            arena,
            (s_row as int, s_col as int),
            max_cheat_time as int,
            (2 * max_cheat_time + 1) as nat,
        ) <= u64::MAX,
    ensures
        found == cell_cheats(
            walls@,
            arena,
            (s_row as int, s_col as int),
            max_cheat_time as int,
            (2 * max_cheat_time + 1) as nat,
        ),
{
    let num_rows = walls.len();
    let num_cols = walls[0].len();
    let ghost from = (s_row as int, s_col as int);
    let ghost reach = max_cheat_time as int;
    proof {
        lemma_time_known(walls@, arena, time_taken@, from);
    }
    let start_time = time_taken[s_row][s_col].unwrap();
    let reach_off = max_cheat_time as isize;
    let mut found: u64 = 0;
    let mut row_off: isize = -reach_off;
    while row_off <= reach_off
        invariant
            reach_off == reach,
            reach == max_cheat_time,
            num_rows == walls@.len(),
            num_cols == walls@[0].len(),
            from == (s_row as int, s_col as int),
            arena.rows == walls@.len(),
            arena.cols == walls@[0].len(),
            fits_arena(walls@, arena),
            times_exact(walls@, arena, time_taken@),
            cheats_countable(walls@, arena, max_cheat_time),
            is_open(walls@, arena, from),
            regular_time == time_to(walls@, arena, arena.end),
            regular_time <= cell_count(arena),
            start_time == time_to(walls@, arena, from),
            -reach <= row_off <= reach + 1,
            cell_cheats(walls@, arena, from, reach, (2 * reach + 1) as nat) <= u64::MAX,
            found == cell_cheats(walls@, arena, from, reach, (row_off + reach) as nat),
        decreases reach + 1 - row_off,
    {
        let width = reach_off - row_off.abs();
        let ghost spans = (row_off + reach) as nat;
        let ghost in_spans = cell_cheats(walls@, arena, from, reach, spans);
        proof {
            lemma_cell_cheats_mono(walls@, arena, from, reach, spans + 1, (2 * reach + 1) as nat);
        }
        let mut col_off: isize = -width;
        while col_off <= width
            invariant
                reach_off == reach,
                reach == max_cheat_time,
                num_rows == walls@.len(),
                num_cols == walls@[0].len(),
                from == (s_row as int, s_col as int),
                arena.rows == walls@.len(),
                arena.cols == walls@[0].len(),
                fits_arena(walls@, arena),
                times_exact(walls@, arena, time_taken@),
                cheats_countable(walls@, arena, max_cheat_time),
                is_open(walls@, arena, from),
                regular_time == time_to(walls@, arena, arena.end),
                regular_time <= cell_count(arena),
                start_time == time_to(walls@, arena, from),
                -reach <= row_off <= reach,
                width == reach - (if row_off < 0 { -row_off } else { row_off as int }),
                -width <= col_off <= width + 1,
                in_spans + span_cheats(walls@, arena, from, row_off as int, width as int, (2 * width + 1) as nat)
                    <= u64::MAX,
                found == in_spans + span_cheats(
                    walls@,
                    arena,
                    from,
                    row_off as int,
                    width as int,
                    (col_off + width) as nat,
                ),
            decreases width + 1 - col_off,
        {
            let ghost to = (s_row + row_off, s_col + col_off);
            proof {
                lemma_span_cheats_mono(
                    walls@,
                    arena,
                    from,
                    row_off as int,
                    width as int,
                    (col_off + width + 1) as nat,
                    (2 * width + 1) as nat,
                );
                assert(to == (from.0 + row_off, from.1 + (col_off + width + 1 - 1) - width));
            }
            if !(row_off == 0 && col_off == 0) {
                let target_row = s_row as isize + row_off;
                let target_col = s_col as isize + col_off;
                if !(target_row < 0 || target_row >= num_rows as isize || target_col < 0
                    || target_col >= num_cols as isize) {
                    let target_row = target_row as usize;
                    let target_col = target_col as usize;

                    if !walls[target_row][target_col] {
                        proof {
                            assert(is_open(walls@, arena, to));
                            lemma_time_known(walls@, arena, time_taken@, to);
                        }
                        let cheat_time = row_off.abs() + col_off.abs();
                        let end_time = regular_time - time_taken[target_row][target_col].unwrap();

                        let total_time = start_time + cheat_time as u64 + end_time;

                        if total_time + 100 <= regular_time {
                            assert(cheat_at(walls@, arena, from, to));
                            found += 1;
                        } else {
                            assert(!cheat_at(walls@, arena, from, to));
                        }
                    }
                }
            }
            col_off += 1;
        }
        row_off += 1;
    }
    found
}

/// The number of cheats of at most `max_cheat_time` steps that save at
/// least 100 steps on the way from the start to the end.
pub fn find_all_cheats(
    walls: &Vec<Vec<bool>>,
    start_row: usize,
    start_col: usize,
    end_row: usize,
    end_col: usize,
    max_cheat_time: usize,
) -> (counted_cheats: u64)
    requires
        track_valid(walls@, start_row, start_col),
        cheats_countable(
            walls@,
            track(walls@, start_row, start_col, end_row, end_col),
            max_cheat_time,
        ),
    ensures
        counted_cheats == all_cheats(
            walls@,
            track(walls@, start_row, start_col, end_row, end_col),
            max_cheat_time as int,
            walls@.len(),
        ),
{
    let num_rows = walls.len();
    let num_cols = walls[0].len();
    let ghost arena = track(walls@, start_row, start_col, end_row, end_col);
    let ghost reach = max_cheat_time as int;
    let time_taken = find_shortest_path(walls, start_row, start_col, end_row, end_col);
    proof {
        lemma_time_known(walls@, arena, time_taken@, arena.end);
        assert(entry(time_taken@, arena.end) is Some);
    }

    let regular_time = time_taken[end_row][end_col].unwrap();

    let mut counted_cheats: u64 = 0;

    let mut s_row: usize = 0;
    while s_row < num_rows
        invariant
            s_row <= num_rows,
            num_rows == walls@.len(),
            num_cols == walls@[0].len(),
            arena == track(walls@, start_row, start_col, end_row, end_col),
            reach == max_cheat_time,
            track_valid(walls@, start_row, start_col),
            times_exact(walls@, arena, time_taken@),
            cheats_countable(walls@, arena, max_cheat_time),
            regular_time == time_to(walls@, arena, arena.end),
            regular_time <= cell_count(arena),
            counted_cheats == all_cheats(walls@, arena, reach, s_row as nat),
        decreases num_rows - s_row,
    {
        let mut s_col: usize = 0;
        let ghost above = all_cheats(walls@, arena, reach, s_row as nat);
        while s_col < num_cols
            invariant
                s_row < num_rows,
                s_col <= num_cols,
                num_rows == walls@.len(),
                num_cols == walls@[0].len(),
                arena == track(walls@, start_row, start_col, end_row, end_col),
                reach == max_cheat_time,
                track_valid(walls@, start_row, start_col),
                times_exact(walls@, arena, time_taken@),
                cheats_countable(walls@, arena, max_cheat_time),
                regular_time == time_to(walls@, arena, arena.end),
                regular_time <= cell_count(arena),
                above == all_cheats(walls@, arena, reach, s_row as nat),
                counted_cheats == above + row_cheats(walls@, arena, reach, s_row as int, s_col as nat),
            decreases num_cols - s_col,
        {
            proof {
                lemma_cheats_mono(walls@, arena, reach, s_row as int, s_col + 1);
                assert(walls@[s_row as int].len() == walls@[0].len());
            }
            if !walls[s_row][s_col] {
                counted_cheats +=
                count_cell_cheats(
                    walls,
                    &time_taken,
                    s_row,
                    s_col,
                    regular_time,
                    max_cheat_time,
                    Ghost(arena),
                );
            }
            s_col += 1;
        }
        s_row += 1;
    }

    counted_cheats
}

} // verus!
