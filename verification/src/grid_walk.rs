//! Walks on a grid of open and blocked cells, and the bookkeeping of a
//! search that keeps a table of the best distance known for every cell and a
//! stack of cells still to look at.
//!
//! A walk starts at the start cell and moves between neighbouring cells; it
//! enters open cells only and does not go on once it has reached the end
//! cell.

use vstd::prelude::*;
use crate::counting::{sum_over, lemma_sum_over_update, lemma_sum_over_bound, lemma_sum_over_concat};

verus! {

/// The size of a grid and the two cells that a search runs between.
pub struct Arena {
    pub rows: int,
    pub cols: int,
    pub start: (int, int),
    pub end: (int, int),
}

/// The cell lies within the grid.
pub open spec fn in_grid(arena: Arena, cell: (int, int)) -> bool {
    0 <= cell.0 < arena.rows && 0 <= cell.1 < arena.cols
}

/// The cell lies within the grid and is not blocked.
pub open spec fn is_open(blocked: Seq<Vec<bool>>, arena: Arena, cell: (int, int)) -> bool {
    in_grid(arena, cell) && !blocked[cell.0]@[cell.1]
}

/// The two cells share an edge.
pub open spec fn adjacent(p: (int, int), q: (int, int)) -> bool {
    ||| (p.0 == q.0 && (p.1 == q.1 + 1 || q.1 == p.1 + 1))
    ||| (p.1 == q.1 && (p.0 == q.0 + 1 || q.0 == p.0 + 1))
}

/// The grid of blocked cells has the arena's size.
pub open spec fn fits_arena(blocked: Seq<Vec<bool>>, arena: Arena) -> bool {
    &&& blocked.len() >= arena.rows
    &&& forall|r: int| 0 <= r < arena.rows ==> (#[trigger] blocked[r]).len() >= arena.cols
}

/// A walk: it begins at the start, every further cell is open and next to
/// the one before it, and only its last cell may be the end.
pub open spec fn is_walk(blocked: Seq<Vec<bool>>, arena: Arena, path: Seq<(int, int)>) -> bool {
    &&& path.len() > 0
    &&& path[0] == arena.start
    &&& in_grid(arena, arena.start)
    &&& forall|i: int|
        0 < i < path.len() ==> {
            &&& is_open(blocked, arena, #[trigger] path[i])
            &&& adjacent(path[i - 1], path[i])
            &&& path[i - 1] != arena.end
        }
}

/// Some walk of `steps` steps ends at the cell.
#[verifier::opaque]
pub open spec fn reached(blocked: Seq<Vec<bool>>, arena: Arena, cell: (int, int), steps: int) -> bool {
    exists|path: Seq<(int, int)>|
        #[trigger] is_walk(blocked, arena, path) && path.last() == cell && path.len() == steps + 1
}

/// `steps` is the least number of steps in which a walk gets to the cell.
pub open spec fn is_distance(blocked: Seq<Vec<bool>>, arena: Arena, cell: (int, int), steps: int) -> bool {
    &&& reached(blocked, arena, cell, steps)
    &&& forall|fewer: int| fewer < steps ==> !reached(blocked, arena, cell, fewer)
}

/// No walk gets to the cell.
pub open spec fn never_reached(blocked: Seq<Vec<bool>>, arena: Arena, cell: (int, int)) -> bool {
    forall|steps: int| !reached(blocked, arena, cell, steps)
}

/// The start is reached in no steps.
pub proof fn lemma_reached_start(blocked: Seq<Vec<bool>>, arena: Arena)
    requires
        in_grid(arena, arena.start),
    ensures
        reached(blocked, arena, arena.start, 0),
{
    reveal(reached);
    let path = seq![arena.start];
    assert(is_walk(blocked, arena, path));
    assert(path.last() == arena.start);
}

/// A walk that has not come to the end goes on to any open neighbour.
pub proof fn lemma_reached_step(
    blocked: Seq<Vec<bool>>,
    arena: Arena,
    from: (int, int),
    to: (int, int),
    steps: int,
)
    requires
        reached(blocked, arena, from, steps),
        from != arena.end,
        adjacent(from, to),
        is_open(blocked, arena, to),
    ensures
        reached(blocked, arena, to, steps + 1),
{
    reveal(reached);
    let path = choose|path: Seq<(int, int)>|
        #[trigger] is_walk(blocked, arena, path) && path.last() == from && path.len() == steps + 1;
    let longer = path.push(to);
    assert forall|i: int| 0 < i < longer.len() implies {
        &&& is_open(blocked, arena, #[trigger] longer[i])
        &&& adjacent(longer[i - 1], longer[i])
        &&& longer[i - 1] != arena.end
    } by {
        if i < path.len() {
            assert(longer[i] == path[i]);
            assert(longer[i - 1] == path[i - 1]);
        }
    }
    assert(is_walk(blocked, arena, longer));
    assert(longer.last() == to);
}

/// The table has one entry for every cell of the arena.
pub open spec fn table_shape(table: Seq<Vec<Option<u64>>>, arena: Arena) -> bool {
    &&& table.len() == arena.rows
    &&& forall|r: int| 0 <= r < arena.rows ==> (#[trigger] table[r]).len() == arena.cols
}

/// The table's entry for a cell.
pub open spec fn entry(table: Seq<Vec<Option<u64>>>, cell: (int, int)) -> Option<u64> {
    table[cell.0]@[cell.1]
}

/// The cell of a stack item.
pub open spec fn item_cell(item: (usize, usize, u64)) -> (int, int) {
    (item.0 as int, item.1 as int)
}

/// The table knows the cell within `bound` steps, or the stack holds it
/// with at most `bound` steps.
#[verifier::opaque]
pub open spec fn covered(
    table: Seq<Vec<Option<u64>>>,
    stack: Seq<(usize, usize, u64)>,
    cell: (int, int),
    bound: int,
) -> bool {
    ||| (entry(table, cell) matches Some(known) && known <= bound)
    ||| exists|i: int|
        0 <= i < stack.len() && item_cell(#[trigger] stack[i]) == cell && stack[i].2 <= bound
}

/// What the search owes for one pair of neighbouring cells: once the table
/// has an entry for `from`, the cell `to` is covered one step further.
pub open spec fn edge_ok(
    blocked: Seq<Vec<bool>>,
    arena: Arena,
    table: Seq<Vec<Option<u64>>>,
    stack: Seq<(usize, usize, u64)>,
    from: (int, int),
    to: (int, int),
) -> bool {
    (in_grid(arena, from) && from != arena.end && entry(table, from) is Some && adjacent(from, to)
        && is_open(blocked, arena, to)) ==> covered(table, stack, to, entry(table, from)->0 + 1)
}

/// Nothing is forgotten: the start is covered, and so is every open
/// neighbour of a cell with an entry.
#[verifier::opaque]
pub open spec fn closed(
    blocked: Seq<Vec<bool>>,
    arena: Arena,
    table: Seq<Vec<Option<u64>>>,
    stack: Seq<(usize, usize, u64)>,
) -> bool {
    &&& covered(table, stack, arena.start, 0)
    &&& forall|from: (int, int), to: (int, int)| #[trigger]
        edge_ok(blocked, arena, table, stack, from, to)
}

/// Nothing is made up: every entry of the table and every item of the stack
/// is the length of a walk to its cell.
#[verifier::opaque]
pub open spec fn sound(
    blocked: Seq<Vec<bool>>,
    arena: Arena,
    table: Seq<Vec<Option<u64>>>,
    stack: Seq<(usize, usize, u64)>,
) -> bool {
    &&& forall|cell: (int, int)|
        in_grid(arena, cell) && (#[trigger] entry(table, cell)) is Some ==> reached(
            blocked,
            arena,
            cell,
            entry(table, cell)->0 as int,
        )
    &&& forall|i: int|
        0 <= i < stack.len() ==> in_grid(arena, item_cell(#[trigger] stack[i])) && reached(
            blocked,
            arena,
            item_cell(stack[i]),
            stack[i].2 as int,
        )
}

/// Once the stack is empty, the table has an entry for the last cell of any
/// walk, and the entry is no larger than the number of the walk's steps.
pub proof fn lemma_closed_bounds_walk(
    blocked: Seq<Vec<bool>>,
    arena: Arena,
    table: Seq<Vec<Option<u64>>>,
    path: Seq<(int, int)>,
)
    requires
        closed(blocked, arena, table, Seq::empty()),
        is_walk(blocked, arena, path),
    ensures
        entry(table, path.last()) matches Some(known) && known <= path.len() - 1,
    decreases path.len(),
{
    reveal(covered);
    reveal(closed);
    let none = Seq::<(usize, usize, u64)>::empty();
    if path.len() > 1 {
        let front = path.drop_last();
        assert forall|i: int| 0 < i < front.len() implies {
            &&& is_open(blocked, arena, #[trigger] front[i])
            &&& adjacent(front[i - 1], front[i])
            &&& front[i - 1] != arena.end
        } by {
            assert(front[i] == path[i]);
            assert(front[i - 1] == path[i - 1]);
        }
        assert(is_walk(blocked, arena, front));
        lemma_closed_bounds_walk(blocked, arena, table, front);
        let from = front.last();
        let to = path.last();
        assert(from == path[path.len() - 2]);
        assert(is_open(blocked, arena, path[path.len() - 1]));
        assert(in_grid(arena, from)) by {
            if path.len() == 2 {
                assert(from == path[0]);
            } else {
                assert(is_open(blocked, arena, path[path.len() - 2]));
            }
        }
        assert(edge_ok(blocked, arena, table, none, from, to));
    }
}

/// What the table and the stack tell of a cell once the search is over.
pub proof fn lemma_table_exact(
    blocked: Seq<Vec<bool>>,
    arena: Arena,
    table: Seq<Vec<Option<u64>>>,
    cell: (int, int),
)
    requires
        closed(blocked, arena, table, Seq::empty()),
        sound(blocked, arena, table, Seq::empty()),
        in_grid(arena, cell),
    ensures
        match entry(table, cell) {
            Some(known) => is_distance(blocked, arena, cell, known as int),
            None => never_reached(blocked, arena, cell),
        },
{
    reveal(reached);
    reveal(closed);
    reveal(sound);
    assert forall|steps: int| reached(blocked, arena, cell, steps) implies (entry(
        table,
        cell,
    ) matches Some(known) && known <= steps) by {
        let path = choose|path: Seq<(int, int)>|
            #[trigger] is_walk(blocked, arena, path) && path.last() == cell && path.len() == steps
                + 1;
        lemma_closed_bounds_walk(blocked, arena, table, path);
    }
}

/// The second table is the first with the entry for `cell` set to `steps`.
pub open spec fn table_set(
    before: Seq<Vec<Option<u64>>>,
    after: Seq<Vec<Option<u64>>>,
    cell: (int, int),
    steps: u64,
) -> bool {
    &&& after.len() == before.len()
    &&& after[cell.0]@ == before[cell.0]@.update(cell.1, Some(steps))
    &&& forall|r: int| 0 <= r < before.len() && r != cell.0 ==> #[trigger] after[r] == before[r]
}

/// The second stack holds all of the first but its last item, in place.
pub open spec fn keeps_rest(
    before: Seq<(usize, usize, u64)>,
    after: Seq<(usize, usize, u64)>,
) -> bool {
    &&& before.len() > 0
    &&& after.len() >= before.len() - 1
    &&& forall|i: int| 0 <= i < before.len() - 1 ==> #[trigger] after[i] == before[i]
}

/// Dropping the top item keeps the search closed when the table already
/// knows the item's cell in no more steps.
pub proof fn lemma_closed_skip(
    blocked: Seq<Vec<bool>>,
    arena: Arena,
    table: Seq<Vec<Option<u64>>>,
    stack: Seq<(usize, usize, u64)>,
)
    requires
        closed(blocked, arena, table, stack),
        stack.len() > 0,
        entry(table, item_cell(stack.last())) matches Some(known) && known <= stack.last().2,
    ensures
        closed(blocked, arena, table, stack.drop_last()),
{
    reveal(covered);
    reveal(closed);
    let rest = stack.drop_last();
    let top = stack.last();
    assert forall|cell: (int, int), bound: int| covered(table, stack, cell, bound) implies covered(
        table,
        rest,
        cell,
        bound,
    ) by {
        if !(entry(table, cell) matches Some(known) && known <= bound) {
            let i = choose|i: int|
                0 <= i < stack.len() && item_cell(#[trigger] stack[i]) == cell && stack[i].2
                    <= bound;
            if i < rest.len() {
                assert(rest[i] == stack[i]);
            }
        }
    }
    assert forall|from: (int, int), to: (int, int)| #[trigger]
        edge_ok(blocked, arena, table, rest, from, to) by {
        assert(edge_ok(blocked, arena, table, stack, from, to));
    }
}

/// Settling the top item keeps the search closed: the table takes the item's
/// steps for its cell, which it did not know in fewer, and the stack covers
/// every open neighbour one step further, unless the cell is the end.
pub proof fn lemma_closed_settle(
    blocked: Seq<Vec<bool>>,
    arena: Arena,
    table: Seq<Vec<Option<u64>>>,
    stack: Seq<(usize, usize, u64)>,
    table2: Seq<Vec<Option<u64>>>,
    stack2: Seq<(usize, usize, u64)>,
)
    requires
        closed(blocked, arena, table, stack),
        in_grid(arena, arena.start),
        keeps_rest(stack, stack2),
        table_shape(table, arena),
        in_grid(arena, item_cell(stack.last())),
        table_set(table, table2, item_cell(stack.last()), stack.last().2),
        entry(table, item_cell(stack.last())) matches Some(known) ==> known >= stack.last().2,
        item_cell(stack.last()) != arena.end ==> forall|to: (int, int)|
            adjacent(item_cell(stack.last()), to) && is_open(blocked, arena, to)
                ==> #[trigger] covered(table2, stack2, to, stack.last().2 + 1),
    ensures
        closed(blocked, arena, table2, stack2),
{
    reveal(covered);
    reveal(closed);
    let top = stack.last();
    let here = item_cell(top);
    assert forall|cell: (int, int)| in_grid(arena, cell) && cell != here implies entry(
        table2,
        cell,
    ) == entry(table, cell) by {
        if cell.0 != here.0 {
            assert(table2[cell.0] == table[cell.0]);
        }
    }
    assert(entry(table2, here) == Some(top.2));
    assert forall|cell: (int, int), bound: int|
        in_grid(arena, cell) && covered(table, stack, cell, bound) implies covered(
        table2,
        stack2,
        cell,
        bound,
    ) by {
        if entry(table, cell) matches Some(known) && known <= bound {
        } else {
            let i = choose|i: int|
                0 <= i < stack.len() && item_cell(#[trigger] stack[i]) == cell && stack[i].2
                    <= bound;
            if i < stack.len() - 1 {
                assert(stack2[i] == stack[i]);
            }
        }
    }
    assert forall|from: (int, int), to: (int, int)| #[trigger]
        edge_ok(blocked, arena, table2, stack2, from, to) by {
        if in_grid(arena, from) && from != arena.end && entry(table2, from) is Some && adjacent(
            from,
            to,
        ) && is_open(blocked, arena, to) {
            if from == here {
                assert(covered(table2, stack2, to, top.2 + 1));
            } else {
                assert(edge_ok(blocked, arena, table, stack, from, to));
            }
        }
    }
}

/// Settling the top item keeps the search sound when everything that was
/// put on the stack is the length of a walk.
pub proof fn lemma_sound_settle(
    blocked: Seq<Vec<bool>>,
    arena: Arena,
    table: Seq<Vec<Option<u64>>>,
    stack: Seq<(usize, usize, u64)>,
    table2: Seq<Vec<Option<u64>>>,
    stack2: Seq<(usize, usize, u64)>,
)
    requires
        sound(blocked, arena, table, stack),
        keeps_rest(stack, stack2),
        table_shape(table, arena),
        table_set(table, table2, item_cell(stack.last()), stack.last().2),
        forall|i: int|
            stack.len() - 1 <= i < stack2.len() ==> in_grid(arena, item_cell(#[trigger] stack2[i]))
                && reached(blocked, arena, item_cell(stack2[i]), stack2[i].2 as int),
    ensures
        sound(blocked, arena, table2, stack2),
{
    reveal(sound);
    let top = stack.last();
    let here = item_cell(top);
    assert(in_grid(arena, item_cell(stack[stack.len() - 1])));
    assert forall|cell: (int, int)|
        in_grid(arena, cell) && (#[trigger] entry(table2, cell)) is Some implies reached(
        blocked,
        arena,
        cell,
        entry(table2, cell)->0 as int,
    ) by {
        if cell == here {
        } else {
            if cell.0 != here.0 {
                assert(table2[cell.0] == table[cell.0]);
            }
            assert(entry(table2, cell) == entry(table, cell));
        }
    }
    assert forall|i: int| 0 <= i < stack2.len() implies in_grid(
        arena,
        item_cell(#[trigger] stack2[i]),
    ) && reached(blocked, arena, item_cell(stack2[i]), stack2[i].2 as int) by {
        if i < stack.len() - 1 {
            assert(stack2[i] == stack[i]);
        }
    }
}

/// Dropping the top item keeps the search sound.
pub proof fn lemma_sound_skip(
    blocked: Seq<Vec<bool>>,
    arena: Arena,
    table: Seq<Vec<Option<u64>>>,
    stack: Seq<(usize, usize, u64)>,
)
    requires
        sound(blocked, arena, table, stack),
        stack.len() > 0,
    ensures
        sound(blocked, arena, table, stack.drop_last()),
{
    reveal(sound);
    let rest = stack.drop_last();
    assert forall|i: int| 0 <= i < rest.len() implies in_grid(
        arena,
        item_cell(#[trigger] rest[i]),
    ) && reached(blocked, arena, item_cell(rest[i]), rest[i].2 as int) by {
        assert(rest[i] == stack[i]);
    }
}

/// How many cells of a row have an entry.
pub open spec fn row_known(row: Seq<Option<u64>>) -> nat {
    sum_over(row, |known: Option<u64>| if known is Some { 1nat } else { 0nat })
}

/// The sum of the entries of a row.
pub open spec fn row_total(row: Seq<Option<u64>>) -> nat {
    sum_over(
        row,
        |known: Option<u64>|
            match known {
                Some(steps) => steps as nat,
                None => 0nat,
            },
    )
}

/// How many cells of the table have an entry.
pub open spec fn table_known(table: Seq<Vec<Option<u64>>>) -> nat {
    sum_over(table, |row: Vec<Option<u64>>| row_known(row@))
}

/// The sum of the entries of the table.
pub open spec fn table_total(table: Seq<Vec<Option<u64>>>) -> nat {
    sum_over(table, |row: Vec<Option<u64>>| row_total(row@))
}

/// The number of cells of the arena.
#[verifier::opaque]
pub open spec fn cell_count(arena: Arena) -> int {
    arena.rows * arena.cols
}

/// A table holds at most one entry per cell.
pub proof fn lemma_table_known_bound(table: Seq<Vec<Option<u64>>>, arena: Arena)
    requires
        table_shape(table, arena),
        arena.rows >= 0,
        arena.cols >= 0,
    ensures
        table_known(table) <= cell_count(arena),
{
    reveal(cell_count);
    let per_row = |row: Vec<Option<u64>>| row_known(row@);
    let per_cell = |known: Option<u64>| if known is Some { 1nat } else { 0nat };
    assert forall|r: int| 0 <= r < table.len() implies per_row(#[trigger] table[r]) <= arena.cols by {
        lemma_sum_over_bound(table[r]@, per_cell, 1);
    }
    lemma_sum_over_bound(table, per_row, arena.cols as nat);
}

/// A table without entries has none to count.
pub proof fn lemma_table_none(table: Seq<Vec<Option<u64>>>, arena: Arena)
    requires
        table_shape(table, arena),
        forall|r: int, c: int|
            0 <= r < arena.rows && 0 <= c < arena.cols ==> (#[trigger] table[r]@[c]) is None,
    ensures
        table_known(table) == 0,
{
    let per_row = |row: Vec<Option<u64>>| row_known(row@);
    let per_cell = |known: Option<u64>| if known is Some { 1nat } else { 0nat };
    assert forall|r: int| 0 <= r < table.len() implies per_row(#[trigger] table[r]) <= 0 by {
        assert forall|c: int| 0 <= c < table[r]@.len() implies per_cell(
            #[trigger] table[r]@[c],
        ) <= 0 by {}
        lemma_sum_over_bound(table[r]@, per_cell, 0);
    }
    lemma_sum_over_bound(table, per_row, 0);
}

/// What setting one entry does to the two measures of a table.
pub proof fn lemma_table_set_measures(
    before: Seq<Vec<Option<u64>>>,
    after: Seq<Vec<Option<u64>>>,
    arena: Arena,
    cell: (int, int),
    steps: u64,
)
    requires
        table_shape(before, arena),
        in_grid(arena, cell),
        table_set(before, after, cell, steps),
    ensures
        table_shape(after, arena),
        table_known(after) == table_known(before) + (if entry(before, cell) is None {
            1nat
        } else {
            0nat
        }),
        table_total(after) + (match entry(before, cell) {
            Some(known) => known as nat,
            None => 0nat,
        }) == table_total(before) + steps,
{
    let per_row = |row: Vec<Option<u64>>| row_known(row@);
    let per_cell = |known: Option<u64>| if known is Some { 1nat } else { 0nat };
    let sum_row = |row: Vec<Option<u64>>| row_total(row@);
    let sum_cell = |known: Option<u64>|
        match known {
            Some(steps) => steps as nat,
            None => 0nat,
        };
    assert(after =~= before.update(cell.0, after[cell.0]));
    lemma_sum_over_update(before, cell.0, after[cell.0], per_row);
    lemma_sum_over_update(before, cell.0, after[cell.0], sum_row);
    lemma_sum_over_update(before[cell.0]@, cell.1, Some(steps), per_cell);
    lemma_sum_over_update(before[cell.0]@, cell.1, Some(steps), sum_cell);
    assert forall|r: int| 0 <= r < arena.rows implies (#[trigger] after[r]).len()
        == arena.cols by {
        if r != cell.0 {
            assert(after[r] == before[r]);
        }
    }
}

/// Every entry is below, and every stack item at most, `unit` times the
/// number of cells that have an entry.
#[verifier::opaque]
pub open spec fn bounded(
    arena: Arena,
    table: Seq<Vec<Option<u64>>>,
    stack: Seq<(usize, usize, u64)>,
    unit: int,
) -> bool {
    &&& forall|cell: (int, int)|
        in_grid(arena, cell) && (#[trigger] entry(table, cell)) is Some ==> entry(table, cell)->0
            + unit <= unit * table_known(table)
    &&& forall|i: int| 0 <= i < stack.len() ==> (#[trigger] stack[i]).2 <= unit * table_known(table)
}

/// With steps of one, an entry is less than the number of entries.
pub proof fn lemma_bounded_entry(
    arena: Arena,
    table: Seq<Vec<Option<u64>>>,
    stack: Seq<(usize, usize, u64)>,
    cell: (int, int),
)
    requires
        bounded(arena, table, stack, 1),
        in_grid(arena, cell),
    ensures
        entry(table, cell) matches Some(known) ==> known < table_known(table),
{
    reveal(bounded);
}

/// Dropping the top item keeps the bounds.
pub proof fn lemma_bounded_skip(
    arena: Arena,
    table: Seq<Vec<Option<u64>>>,
    stack: Seq<(usize, usize, u64)>,
    unit: int,
)
    requires
        bounded(arena, table, stack, unit),
        stack.len() > 0,
    ensures
        bounded(arena, table, stack.drop_last(), unit),
{
    reveal(bounded);
    let rest = stack.drop_last();
    assert forall|i: int| 0 <= i < rest.len() implies (#[trigger] rest[i]).2 <= unit * table_known(
        table,
    ) by {
        assert(rest[i] == stack[i]);
    }
}

/// Settling the top item keeps the bounds when whatever was put on the
/// stack lies at most `unit` above the item.
pub proof fn lemma_bounded_settle(
    arena: Arena,
    table: Seq<Vec<Option<u64>>>,
    stack: Seq<(usize, usize, u64)>,
    table2: Seq<Vec<Option<u64>>>,
    stack2: Seq<(usize, usize, u64)>,
    unit: int,
)
    requires
        unit >= 1,
        bounded(arena, table, stack, unit),
        keeps_rest(stack, stack2),
        table_shape(table, arena),
        in_grid(arena, item_cell(stack.last())),
        table_set(table, table2, item_cell(stack.last()), stack.last().2),
        entry(table, item_cell(stack.last())) matches Some(known) ==> known >= stack.last().2,
        forall|i: int|
            stack.len() - 1 <= i < stack2.len() ==> (#[trigger] stack2[i]).2 <= stack.last().2
                + unit,
    ensures
        bounded(arena, table2, stack2, unit),
{
    reveal(bounded);
    let top = stack.last();
    let here = item_cell(top);
    let known = table_known(table);
    let known2 = table_known(table2);
    lemma_table_set_measures(table, table2, arena, here, top.2);
    assert(top == stack[stack.len() - 1]);
    assert(top.2 <= unit * known);
    assert(unit * known2 >= unit * known) by (nonlinear_arith)
        requires
            known2 >= known,
            unit >= 1,
    ;
    if entry(table, here) is None {
        assert(unit * known2 == unit * known + unit) by (nonlinear_arith)
            requires
                known2 == known + 1,
        ;
    } else {
        assert(entry(table, here)->0 + unit <= unit * known);
    }
    assert forall|cell: (int, int)|
        in_grid(arena, cell) && (#[trigger] entry(table2, cell)) is Some implies entry(
        table2,
        cell,
    )->0 + unit <= unit * known2 by {
        if cell != here {
            if cell.0 != here.0 {
                assert(table2[cell.0] == table[cell.0]);
            }
            assert(entry(table2, cell) == entry(table, cell));
        }
    }
    assert forall|i: int| 0 <= i < stack2.len() implies (#[trigger] stack2[i]).2 <= unit
        * known2 by {
        if i < stack.len() - 1 {
            assert(stack2[i] == stack[i]);
        }
    }
}

/// The search as it begins: an empty table, and the start on the stack.
pub proof fn lemma_search_begins(
    blocked: Seq<Vec<bool>>,
    arena: Arena,
    table: Seq<Vec<Option<u64>>>,
    stack: Seq<(usize, usize, u64)>,
    unit: int,
)
    requires
        unit >= 1,
        in_grid(arena, arena.start),
        table_shape(table, arena),
        forall|r: int, c: int|
            0 <= r < arena.rows && 0 <= c < arena.cols ==> (#[trigger] table[r]@[c]) is None,
        stack.len() == 1,
        item_cell(stack[0]) == arena.start,
        stack[0].2 == 0,
    ensures
        closed(blocked, arena, table, stack),
        sound(blocked, arena, table, stack),
        bounded(arena, table, stack, unit),
        table_known(table) <= cell_count(arena),
{
    reveal(covered);
    reveal(closed);
    reveal(sound);
    reveal(bounded);
    lemma_reached_start(blocked, arena);
    lemma_covered_by_item(table, stack, 0, 0);
    assert forall|from: (int, int), to: (int, int)| #[trigger]
        edge_ok(blocked, arena, table, stack, from, to) by {
        if in_grid(arena, from) {
            assert(table[from.0]@[from.1] is None);
        }
    }
    assert forall|cell: (int, int)| in_grid(arena, cell) implies (#[trigger] entry(
        table,
        cell,
    )) is None by {
        assert(table[cell.0]@[cell.1] is None);
    }
    lemma_table_known_bound(table, arena);
    assert(unit * table_known(table) >= 0) by (nonlinear_arith)
        requires
            unit >= 1,
            table_known(table) >= 0,
    ;
}

/// What the invariants say of the item on top of the stack.
pub proof fn lemma_top_item(
    blocked: Seq<Vec<bool>>,
    arena: Arena,
    table: Seq<Vec<Option<u64>>>,
    stack: Seq<(usize, usize, u64)>,
    unit: int,
)
    requires
        stack.len() > 0,
        sound(blocked, arena, table, stack),
        bounded(arena, table, stack, unit),
    ensures
        in_grid(arena, item_cell(stack.last())),
        reached(blocked, arena, item_cell(stack.last()), stack.last().2 as int),
        stack.last().2 <= unit * table_known(table),
{
    reveal(sound);
    reveal(bounded);
    assert(in_grid(arena, item_cell(stack[stack.len() - 1])));
    assert(stack[stack.len() - 1].2 <= unit * table_known(table));
}

/// What a sound table says of a cell with an entry.
pub proof fn lemma_entry_reached(
    blocked: Seq<Vec<bool>>,
    arena: Arena,
    table: Seq<Vec<Option<u64>>>,
    stack: Seq<(usize, usize, u64)>,
    cell: (int, int),
)
    requires
        sound(blocked, arena, table, stack),
        in_grid(arena, cell),
        entry(table, cell) is Some,
    ensures
        reached(blocked, arena, cell, entry(table, cell)->0 as int),
{
    reveal(sound);
}

/// Every item of the stack from index `base` on is an open neighbour of
/// `here`, one step further than `steps`.
pub open spec fn pushed_ok(
    blocked: Seq<Vec<bool>>,
    arena: Arena,
    stack: Seq<(usize, usize, u64)>,
    base: int,
    here: (int, int),
    steps: u64,
) -> bool {
    forall|i: int|
        base <= i < stack.len() ==> {
            &&& (#[trigger] stack[i]).2 == steps + 1
            &&& adjacent(here, item_cell(stack[i]))
            &&& is_open(blocked, arena, item_cell(stack[i]))
        }
}

/// What was pushed from a cell that a walk has reached is itself reached.
pub proof fn lemma_pushed_reached(
    blocked: Seq<Vec<bool>>,
    arena: Arena,
    stack: Seq<(usize, usize, u64)>,
    base: int,
    here: (int, int),
    steps: u64,
)
    requires
        0 <= base,
        pushed_ok(blocked, arena, stack, base, here, steps),
        reached(blocked, arena, here, steps as int),
        here != arena.end,
    ensures
        forall|i: int|
            base <= i < stack.len() ==> in_grid(arena, item_cell(#[trigger] stack[i])) && reached(
                blocked,
                arena,
                item_cell(stack[i]),
                stack[i].2 as int,
            ),
{
    assert forall|i: int| base <= i < stack.len() implies in_grid(
        arena,
        item_cell(#[trigger] stack[i]),
    ) && reached(blocked, arena, item_cell(stack[i]), stack[i].2 as int) by {
        lemma_reached_step(blocked, arena, here, item_cell(stack[i]), steps as int);
    }
}

/// The four cells next to a cell.
pub open spec fn neighbours(cell: (int, int)) -> Seq<(int, int)> {
    seq![
        (cell.0 - 1, cell.1),
        (cell.0 + 1, cell.1),
        (cell.0, cell.1 - 1),
        (cell.0, cell.1 + 1),
    ]
}

/// Once each of the four neighbours is covered if it is open, every open
/// cell next to the cell is covered.
pub proof fn lemma_neighbours_covered(
    blocked: Seq<Vec<bool>>,
    arena: Arena,
    table: Seq<Vec<Option<u64>>>,
    stack: Seq<(usize, usize, u64)>,
    here: (int, int),
    bound: int,
)
    requires
        forall|k: int|
            0 <= k < 4 && is_open(blocked, arena, #[trigger] neighbours(here)[k]) ==> covered(
                table,
                stack,
                neighbours(here)[k],
                bound,
            ),
    ensures
        forall|to: (int, int)|
            adjacent(here, to) && is_open(blocked, arena, to) ==> #[trigger] covered(
                table,
                stack,
                to,
                bound,
            ),
{
    assert forall|to: (int, int)| adjacent(here, to) && is_open(blocked, arena, to) implies #[trigger] covered(
        table,
        stack,
        to,
        bound,
    ) by {
        let around = neighbours(here);
        if to == around[0] {
        } else if to == around[1] {
        } else if to == around[2] {
        } else {
            assert(to == around[3]);
        }
    }
}

/// An item on the stack covers its cell, whatever is pushed after it.
pub proof fn lemma_covered_by_item(
    table: Seq<Vec<Option<u64>>>,
    stack: Seq<(usize, usize, u64)>,
    at: int,
    bound: int,
)
    requires
        0 <= at < stack.len(),
        stack[at].2 <= bound,
    ensures
        covered(table, stack, item_cell(stack[at]), bound),
{
    reveal(covered);
}

/// A stack that has only grown covers what it covered.
pub proof fn lemma_covered_kept(
    table: Seq<Vec<Option<u64>>>,
    before: Seq<(usize, usize, u64)>,
    after: Seq<(usize, usize, u64)>,
    cell: (int, int),
    bound: int,
)
    requires
        before.len() <= after.len(),
        forall|i: int| 0 <= i < before.len() ==> #[trigger] after[i] == before[i],
    ensures
        covered(table, before, cell, bound) ==> covered(table, after, cell, bound),
{
    reveal(covered);
    if covered(table, before, cell, bound) {
        if !(entry(table, cell) matches Some(known) && known <= bound) {
            let i = choose|i: int|
                0 <= i < before.len() && item_cell(#[trigger] before[i]) == cell && before[i].2
                    <= bound;
            assert(after[i] == before[i]);
        }
    }
}

/// Five to the power `exp`, and one for an exponent below zero.
pub open spec fn pow5(exp: int) -> nat
    decreases exp,
{
    if exp <= 0 {
        1
    } else {
        5 * pow5(exp - 1)
    }
}

/// The weight of a stack: every item weighs five times as much as an item
/// one step further, so an item outweighs four items that lie further.
pub open spec fn stack_weight(stack: Seq<(usize, usize, u64)>, limit: int) -> nat {
    sum_over(stack, |item: (usize, usize, u64)| pow5(limit - item.2))
}

/// A smaller exponent gives no larger power.
pub proof fn lemma_pow5_mono(a: int, b: int)
    requires
        a <= b,
    ensures
        pow5(a) <= pow5(b),
        pow5(a) >= 1,
    decreases b,
{
    if b > 0 && a < b {
        lemma_pow5_mono(a, b - 1);
    } else if b > 0 {
        lemma_pow5_mono(a - 1, b - 1);
    }
}

/// Dropping the top item makes the stack lighter.
pub proof fn lemma_weight_skip(stack: Seq<(usize, usize, u64)>, limit: int)
    requires
        stack.len() > 0,
    ensures
        stack_weight(stack.drop_last(), limit) < stack_weight(stack, limit),
{
    lemma_pow5_mono(limit - stack.last().2, limit - stack.last().2);
}

/// Replacing the top item by at most four items that lie further makes the
/// stack lighter.
pub proof fn lemma_weight_settle(
    stack: Seq<(usize, usize, u64)>,
    stack2: Seq<(usize, usize, u64)>,
    limit: int,
)
    requires
        keeps_rest(stack, stack2),
        stack2.len() <= stack.len() + 3,
        stack.last().2 < limit,
        forall|i: int| stack.len() - 1 <= i < stack2.len() ==> (#[trigger] stack2[i]).2 > stack.last().2,
    ensures
        stack_weight(stack2, limit) < stack_weight(stack, limit),
{
    let weigh = |item: (usize, usize, u64)| pow5(limit - item.2);
    let rest = stack.drop_last();
    let extra = stack2.skip(stack.len() - 1);
    let top = stack.last();
    assert(stack2 =~= rest + extra);
    lemma_sum_over_concat(rest, extra, weigh);
    let each = pow5(limit - top.2 - 1);
    assert forall|i: int| 0 <= i < extra.len() implies weigh(#[trigger] extra[i]) <= each by {
        assert(extra[i] == stack2[i + stack.len() - 1]);
        lemma_pow5_mono(limit - extra[i].2, limit - top.2 - 1);
    }
    lemma_sum_over_bound(extra, weigh, each);
    lemma_pow5_mono(limit - top.2 - 1, limit - top.2 - 1);
    assert(extra.len() * each <= 4 * each) by (nonlinear_arith)
        requires
            extra.len() <= 4,
            each >= 0,
    ;
    assert(weigh(top) == 5 * each);
}

/// A table of the given size without any entry.
pub(crate) fn empty_table(rows: usize, cols: usize) -> (table: Vec<Vec<Option<u64>>>)
    ensures
        table@.len() == rows,
        forall|r: int| 0 <= r < rows ==> (#[trigger] table@[r]).len() == cols,
        forall|r: int, c: int| 0 <= r < rows && 0 <= c < cols ==> (#[trigger] table@[r]@[c]) is None,
{
    let table: Vec<Vec<Option<u64>>> = vec![vec![None; cols]; rows];
    table
}

/// Sets the table's entry for a cell.
pub(crate) fn set_entry(table: &mut Vec<Vec<Option<u64>>>, row: usize, col: usize, steps: u64)
    requires
        row < old(table)@.len(),
        col < old(table)@[row as int].len(),
    ensures
        table_set(old(table)@, final(table)@, (row as int, col as int), steps),
{
    table[row][col] = Some(steps);
}

/// The table's entry for a cell.
pub(crate) fn get_entry(table: &Vec<Vec<Option<u64>>>, row: usize, col: usize) -> (known: Option<
    u64,
>)
    requires
        row < table@.len(),
        col < table@[row as int].len(),
    ensures
        known == entry(table@, (row as int, col as int)),
{
    table[row][col]
}

} // verus!
