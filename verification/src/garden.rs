//! A garden of plots: neighbouring plots with the same plant form a
//! region, and a region is fenced all around.

use vstd::prelude::*;
use crate::counting::{
    at_row, lemma_sum_grid_add, lemma_sum_grid_bound, lemma_sum_grid_ext, lemma_sum_grid_partial,
    lemma_sum_grid_single, row_sums, sum_below, sum_grid,
};
use crate::grid_walk::adjacent;
use crate::marks::{
    blank_marks, get_mark, lemma_mark_set, lemma_marked_bound, mark_at, mark_set, marked,
    marks_shape, set_mark,
};

verus! {

/// The garden is a rectangle with at least one row, and four fences per
/// plot can be counted.
pub open spec fn garden_valid(map: Seq<Vec<char>>) -> bool {
    &&& map.len() > 0
    &&& forall|r: int| 0 <= r < map.len() ==> (#[trigger] map[r]).len() == map[0].len()
    &&& map.len() < isize::MAX
    &&& map[0].len() < isize::MAX
    &&& 4 * (map.len() * map[0].len()) <= usize::MAX
}

/// The plot lies in the garden.
pub open spec fn in_garden(map: Seq<Vec<char>>, cell: (int, int)) -> bool {
    0 <= cell.0 < map.len() && 0 <= cell.1 < map[0].len()
}

/// The plot lies in the garden and grows the plant.
pub open spec fn grows(map: Seq<Vec<char>>, plant: char, cell: (int, int)) -> bool {
    in_garden(map, cell) && map[cell.0]@[cell.1] == plant
}

/// A path of neighbouring plots that all grow the plant.
pub open spec fn is_plant_path(map: Seq<Vec<char>>, plant: char, path: Seq<(int, int)>) -> bool {
    &&& path.len() > 0
    &&& forall|i: int| 0 <= i < path.len() ==> grows(map, plant, #[trigger] path[i])
    &&& forall|i: int| 0 < i < path.len() ==> adjacent(path[i - 1], #[trigger] path[i])
}

/// The two plots belong to one region of the plant.
#[verifier::opaque]
pub open spec fn connected(map: Seq<Vec<char>>, plant: char, from: (int, int), to: (int, int)) -> bool {
    exists|path: Seq<(int, int)>|
        #[trigger] is_plant_path(map, plant, path) && path[0] == from && path.last() == to
}

/// A plot is in one region with itself.
pub proof fn lemma_connected_self(map: Seq<Vec<char>>, plant: char, cell: (int, int))
    requires
        grows(map, plant, cell),
    ensures
        connected(map, plant, cell, cell),
{
    reveal(connected);
    let path = seq![cell];
    assert(is_plant_path(map, plant, path));
    assert(path[0] == cell && path.last() == cell);
}

/// A region goes on to a neighbour that grows the plant.
pub proof fn lemma_connected_step(
    map: Seq<Vec<char>>,
    plant: char,
    from: (int, int),
    to: (int, int),
    next: (int, int),
)
    requires
        connected(map, plant, from, to),
        adjacent(to, next),
        grows(map, plant, next),
    ensures
        connected(map, plant, from, next),
{
    reveal(connected);
    let path = choose|path: Seq<(int, int)>|
        #[trigger] is_plant_path(map, plant, path) && path[0] == from && path.last() == to;
    let longer = path.push(next);
    assert forall|i: int| 0 <= i < longer.len() implies grows(map, plant, #[trigger] longer[i]) by {
        if i < path.len() {
            assert(longer[i] == path[i]);
        }
    }
    assert forall|i: int| 0 < i < longer.len() implies adjacent(
        longer[i - 1],
        #[trigger] longer[i],
    ) by {
        if i < path.len() {
            assert(longer[i] == path[i]);
            assert(longer[i - 1] == path[i - 1]);
        }
    }
    assert(is_plant_path(map, plant, longer));
    assert(longer[0] == from && longer.last() == next);
}

/// Two paths, one after the other, are a path.
pub proof fn lemma_connected_trans(
    map: Seq<Vec<char>>,
    plant: char,
    a: (int, int),
    b: (int, int),
    c: (int, int),
)
    requires
        connected(map, plant, a, b),
        connected(map, plant, b, c),
    ensures
        connected(map, plant, a, c),
{
    reveal(connected);
    let first = choose|path: Seq<(int, int)>|
        #[trigger] is_plant_path(map, plant, path) && path[0] == a && path.last() == b;
    let second = choose|path: Seq<(int, int)>|
        #[trigger] is_plant_path(map, plant, path) && path[0] == b && path.last() == c;
    let joined = first + second.skip(1);
    assert forall|i: int| 0 <= i < joined.len() implies grows(map, plant, #[trigger] joined[i]) by {
        if i < first.len() {
            assert(joined[i] == first[i]);
        } else {
            assert(joined[i] == second[i - first.len() + 1]);
        }
    }
    assert forall|i: int| 0 < i < joined.len() implies adjacent(
        joined[i - 1],
        #[trigger] joined[i],
    ) by {
        if i < first.len() {
            assert(joined[i] == first[i]);
            assert(joined[i - 1] == first[i - 1]);
        } else if i == first.len() {
            assert(joined[i] == second[1]);
            assert(joined[i - 1] == first.last());
            assert(adjacent(second[0], second[1]));
        } else {
            assert(joined[i] == second[i - first.len() + 1]);
            assert(joined[i - 1] == second[i - first.len()]);
        }
    }
    assert(is_plant_path(map, plant, joined));
    assert(joined[0] == a);
    if second.len() == 1 {
        assert(joined =~= first);
    } else {
        assert(joined.last() == second.last());
    }
}

/// A path walked backwards is a path.
pub proof fn lemma_connected_sym(map: Seq<Vec<char>>, plant: char, a: (int, int), b: (int, int))
    requires
        connected(map, plant, a, b),
    ensures
        connected(map, plant, b, a),
{
    reveal(connected);
    let path = choose|path: Seq<(int, int)>|
        #[trigger] is_plant_path(map, plant, path) && path[0] == a && path.last() == b;
    let back = path.reverse();
    assert forall|i: int| 0 <= i < back.len() implies grows(map, plant, #[trigger] back[i]) by {
        assert(back[i] == path[path.len() - 1 - i]);
    }
    assert forall|i: int| 0 < i < back.len() implies adjacent(back[i - 1], #[trigger] back[i]) by {
        assert(back[i] == path[path.len() - 1 - i]);
        assert(back[i - 1] == path[path.len() - i]);
        assert(adjacent(path[path.len() - i - 1], path[path.len() - i]));
    }
    assert(is_plant_path(map, plant, back));
    assert(back[0] == b && back.last() == a);
}

/// The four plots next to a plot: above, below, left and right.
pub open spec fn beside(cell: (int, int), index: int) -> (int, int) {
    if index == 0 {
        (cell.0 - 1, cell.1)
    } else if index == 1 {
        (cell.0 + 1, cell.1)
    } else if index == 2 {
        (cell.0, cell.1 - 1)
    } else {
        (cell.0, cell.1 + 1)
    }
}

/// A fence stands on the side of the plot: the garden ends there, or
/// another plant grows beyond.
pub open spec fn fenced(map: Seq<Vec<char>>, plant: char, cell: (int, int), index: int) -> bool {
    !grows(map, plant, beside(cell, index))
}

/// The number of fenced sides of a plot among the first `upto`.
pub open spec fn fences(map: Seq<Vec<char>>, plant: char, cell: (int, int), upto: nat) -> nat
    decreases upto,
{
    if upto == 0 {
        0
    } else {
        fences(map, plant, cell, (upto - 1) as nat) + (if fenced(map, plant, cell, upto - 1) {
            1nat
        } else {
            0nat
        })
    }
}

/// The plot was marked between the two states of the marks.
pub open spec fn newly(before: Seq<Vec<bool>>, after: Seq<Vec<bool>>, cell: (int, int)) -> bool {
    mark_at(after, cell) && !mark_at(before, cell)
}

/// One for a plot that was marked between the two states.
pub open spec fn new_mark(before: Seq<Vec<bool>>, after: Seq<Vec<bool>>) -> spec_fn(int, int) -> nat {
    |r: int, c: int| if newly(before, after, (r, c)) { 1nat } else { 0nat }
}

/// The number of fences of a plot that was marked between the two states.
pub open spec fn new_fences(
    map: Seq<Vec<char>>,
    plant: char,
    before: Seq<Vec<bool>>,
    after: Seq<Vec<bool>>,
) -> spec_fn(int, int) -> nat {
    |r: int, c: int| if newly(before, after, (r, c)) { fences(map, plant, (r, c), 4) } else { 0nat }
}

/// What a search that began at `start` has done after it has looked at the
/// first `sides` sides of `start`: the marks have only grown; every plot
/// marked since grows the plant and belongs to the region of `start`; all
/// neighbours with the plant of a plot marked since are marked too, for
/// `start` those on the sides looked at.
#[verifier::opaque]
pub open spec fn flooding(
    map: Seq<Vec<char>>,
    plant: char,
    start: (int, int),
    before: Seq<Vec<bool>>,
    after: Seq<Vec<bool>>,
    sides: int,
) -> bool {
    &&& marks_shape(after, map.len() as int, map[0].len() as int)
    &&& forall|cell: (int, int)|
        in_garden(map, cell) && #[trigger] mark_at(before, cell) ==> mark_at(after, cell)
    &&& grows(map, plant, start)
    &&& newly(before, after, start)
    &&& forall|cell: (int, int)|
        in_garden(map, cell) && #[trigger] newly(before, after, cell) ==> grows(map, plant, cell)
            && connected(map, plant, start, cell)
    &&& forall|cell: (int, int), index: int|
        in_garden(map, cell) && newly(before, after, cell) && 0 <= index < 4 && (cell != start
            || index < sides) && #[trigger] grows(map, plant, beside(cell, index)) ==> mark_at(
            after,
            beside(cell, index),
        )
}

/// The search begins: the start is marked.
pub proof fn lemma_flood_begins(
    map: Seq<Vec<char>>,
    plant: char,
    start: (int, int),
    before: Seq<Vec<bool>>,
    after: Seq<Vec<bool>>,
)
    requires
        marks_shape(before, map.len() as int, map[0].len() as int),
        grows(map, plant, start),
        !mark_at(before, start),
        mark_set(before, after, start),
    ensures
        flooding(map, plant, start, before, after, 0),
        sum_grid(map.len(), map[0]@.len(), new_mark(before, after)) == 1,
        sum_grid(map.len(), map[0]@.len(), new_fences(map, plant, before, after)) == fences(
            map,
            plant,
            start,
            4,
        ),
        marked(after) == marked(before) + 1,
{
    reveal(flooding);
    lemma_mark_set(before, after, map.len() as int, map[0].len() as int, start);
    lemma_connected_self(map, plant, start);
    lemma_sum_grid_single(map.len(), map[0]@.len(), new_mark(before, after), start.0, start.1);
    lemma_sum_grid_single(
        map.len(),
        map[0]@.len(),
        new_fences(map, plant, before, after),
        start.0,
        start.1,
    );
}

/// A side of the start needs no search: no plot with the plant lies there,
/// or one that is marked.
pub proof fn lemma_flood_side_done(
    map: Seq<Vec<char>>,
    plant: char,
    start: (int, int),
    before: Seq<Vec<bool>>,
    after: Seq<Vec<bool>>,
    sides: int,
)
    requires
        flooding(map, plant, start, before, after, sides),
        0 <= sides < 4,
        grows(map, plant, beside(start, sides)) ==> mark_at(after, beside(start, sides)),
    ensures
        flooding(map, plant, start, before, after, sides + 1),
{
    reveal(flooding);
}

/// A search from a neighbour of the start has come back.
pub proof fn lemma_flood_side_searched(
    map: Seq<Vec<char>>,
    plant: char,
    start: (int, int),
    before: Seq<Vec<bool>>,
    middle: Seq<Vec<bool>>,
    after: Seq<Vec<bool>>,
    sides: int,
)
    requires
        flooding(map, plant, start, before, middle, sides),
        0 <= sides < 4,
        in_garden(map, start),
        flooding(map, plant, beside(start, sides), middle, after, 4),
    ensures
        flooding(map, plant, start, before, after, sides + 1),
        sum_grid(map.len(), map[0]@.len(), new_mark(before, after)) == sum_grid(
            map.len(),
            map[0]@.len(),
            new_mark(before, middle),
        ) + sum_grid(map.len(), map[0]@.len(), new_mark(middle, after)),
        sum_grid(map.len(), map[0]@.len(), new_fences(map, plant, before, after)) == sum_grid(
            map.len(),
            map[0]@.len(),
            new_fences(map, plant, before, middle),
        ) + sum_grid(map.len(), map[0]@.len(), new_fences(map, plant, middle, after)),
{
    reveal(flooding);
    let next = beside(start, sides);
    let rows = map.len();
    let cols = map[0]@.len();
    assert(adjacent(start, next));
    lemma_connected_self(map, plant, start);
    lemma_connected_step(map, plant, start, start, next);
    assert forall|cell: (int, int)|
        in_garden(map, cell) && #[trigger] newly(before, after, cell) implies grows(map, plant, cell)
        && connected(map, plant, start, cell) by {
        if !newly(before, middle, cell) {
            assert(newly(middle, after, cell));
            lemma_connected_trans(map, plant, start, next, cell);
        }
    }
    assert forall|cell: (int, int), index: int|
        in_garden(map, cell) && newly(before, after, cell) && 0 <= index < 4 && (cell != start
            || index < sides + 1) && #[trigger] grows(map, plant, beside(cell, index)) implies mark_at(
        after,
        beside(cell, index),
    ) by {
        let beyond = beside(cell, index);
        if newly(before, middle, cell) {
            if cell == start && index == sides {
                assert(mark_at(after, next));
            } else {
                assert(mark_at(middle, beyond));
            }
        } else {
            assert(newly(middle, after, cell));
        }
    }
    assert forall|r: int, c: int| 0 <= r < rows && 0 <= c < cols implies #[trigger] new_mark(
        before,
        after,
    )(r, c) == new_mark(before, middle)(r, c) + new_mark(middle, after)(r, c) by {
        assert(in_garden(map, (r, c)));
        if mark_at(before, (r, c)) {
            assert(mark_at(middle, (r, c)));
        }
    }
    lemma_sum_grid_add(
        rows,
        cols,
        new_mark(before, middle),
        new_mark(middle, after),
        new_mark(before, after),
    );
    assert forall|r: int, c: int| 0 <= r < rows && 0 <= c < cols implies #[trigger] new_fences(
        map,
        plant,
        before,
        after,
    )(r, c) == new_fences(map, plant, before, middle)(r, c) + new_fences(
        map,
        plant,
        middle,
        after,
    )(r, c) by {
        assert(in_garden(map, (r, c)));
        if mark_at(before, (r, c)) {
            assert(mark_at(middle, (r, c)));
        }
    }
    lemma_sum_grid_add(
        rows,
        cols,
        new_fences(map, plant, before, middle),
        new_fences(map, plant, middle, after),
        new_fences(map, plant, before, after),
    );
}

/// What a finished search says of the marks.
pub proof fn lemma_flood_facts(
    map: Seq<Vec<char>>,
    plant: char,
    start: (int, int),
    before: Seq<Vec<bool>>,
    after: Seq<Vec<bool>>,
    sides: int,
)
    requires
        flooding(map, plant, start, before, after, sides),
    ensures
        marks_shape(after, map.len() as int, map[0].len() as int),
        mark_at(after, start),
        forall|cell: (int, int)|
            in_garden(map, cell) && #[trigger] mark_at(before, cell) ==> mark_at(after, cell),
{
    reveal(flooding);
}

/// The number of plots of the garden.
#[verifier::opaque]
pub open spec fn plots(map: Seq<Vec<char>>) -> int {
    map.len() * map[0].len()
}

/// A plot has four fences at most.
pub proof fn lemma_fences_bound(map: Seq<Vec<char>>, plant: char, cell: (int, int), upto: nat)
    ensures
        fences(map, plant, cell, upto) <= upto,
    decreases upto,
{
    if upto > 0 {
        lemma_fences_bound(map, plant, cell, (upto - 1) as nat);
    }
}

/// No more plots are marked anew than there are, and no more fences are
/// counted than four for each.
pub proof fn lemma_new_bounds(
    map: Seq<Vec<char>>,
    plant: char,
    before: Seq<Vec<bool>>,
    after: Seq<Vec<bool>>,
)
    ensures
        sum_grid(map.len(), map[0]@.len(), new_mark(before, after)) <= plots(map),
        sum_grid(map.len(), map[0]@.len(), new_fences(map, plant, before, after)) <= 4 * plots(map),
{
    reveal(plots);
    lemma_sum_grid_bound(map.len(), map[0]@.len(), new_mark(before, after), 1);
    assert forall|r: int, c: int|
        0 <= r < map.len() && 0 <= c < map[0]@.len() implies #[trigger] new_fences(
        map,
        plant,
        before,
        after,
    )(r, c) <= 4 by {
        lemma_fences_bound(map, plant, (r, c), 4);
    }
    lemma_sum_grid_bound(map.len(), map[0]@.len(), new_fences(map, plant, before, after), 4);
}

/// What a search from a plot returns and leaves behind: nothing where the
/// plot grows another plant; else the marks of the search, the number of
/// plots marked and the number of their fences.
pub open spec fn searched(
    map: Seq<Vec<char>>,
    plant: char,
    start: (int, int),
    before: Seq<Vec<bool>>,
    after: Seq<Vec<bool>>,
    stats: (usize, usize),
) -> bool {
    if grows(map, plant, start) {
        &&& flooding(map, plant, start, before, after, 4)
        &&& stats.0 == sum_grid(map.len(), map[0]@.len(), new_mark(before, after))
        &&& stats.1 == sum_grid(map.len(), map[0]@.len(), new_fences(map, plant, before, after))
    } else {
        after == before && stats == (0usize, 0usize)
    }
}

/// Marks the plots of the region of the plant `c` that can be reached from
/// the plot over plots not yet marked, and returns their number and the
/// number of their fences.
pub fn find_stats_a(
    map: &Vec<Vec<char>>,
    visited: &mut Vec<Vec<bool>>,
    row: usize,
    col: usize,
    c: char,
) -> (stats: (usize, usize))
    requires
        garden_valid(map@),
        marks_shape(old(visited)@, map@.len() as int, map@[0].len() as int),
        in_garden(map@, (row as int, col as int)),
        !mark_at(old(visited)@, (row as int, col as int)),
    ensures
        searched(map@, c, (row as int, col as int), old(visited)@, final(visited)@, stats),
        marks_shape(final(visited)@, map@.len() as int, map@[0].len() as int),
        marked(final(visited)@) >= marked(old(visited)@),
    decreases plots(map@) - marked(old(visited)@),
{
    let ghost start = (row as int, col as int);
    let ghost before = visited@;
    let ghost rows = map@.len();
    let ghost cols = map@[0]@.len();
    proof {
        assert(map@[row as int].len() == map@[0].len());
    }
    if map[row][col] != c {
        return (0, 0);
    }
    set_mark(visited, row, col);
    proof {
        lemma_flood_begins(map@, c, start, before, visited@);
        lemma_mark_set(before, visited@, rows as int, cols as int, start);
        reveal(plots);
        lemma_marked_bound(visited@, rows as int, cols as int);
    }

    let mut region_area: usize = 1;
    let mut region_perimeter: usize = 0;

    let mut side: usize = 0;
    while side < 4
        invariant
            side <= 4,
            before == old(visited)@,
            garden_valid(map@),
            rows == map@.len(),
            cols == map@[0]@.len(),
            start == (row as int, col as int),
            in_garden(map@, start),
            marks_shape(before, rows as int, cols as int),
            marks_shape(visited@, rows as int, cols as int),
            flooding(map@, c, start, before, visited@, side as int),
            marked(visited@) > marked(before),
            marked(visited@) <= plots(map@),
            region_area == sum_grid(rows, cols, new_mark(before, visited@)),
            region_perimeter + fences(map@, c, start, 4) - fences(map@, c, start, side as nat)
                == sum_grid(rows, cols, new_fences(map@, c, before, visited@)),
        decreases 4 - side,
    {
        let (row_off, col_off): (isize, isize) = match side {
            0 => (-1, 0),
            1 => (1, 0),
            2 => (0, -1),
            _ => (0, 1),
        };
        let n_row = row as isize + row_off;
        let n_col = col as isize + col_off;
        let ghost next = beside(start, side as int);
        let ghost middle = visited@;
        proof {
            assert(next == (n_row as int, n_col as int));
            lemma_new_bounds(map@, c, before, middle);
            lemma_fences_bound(map@, c, start, side as nat);
            lemma_fences_bound(map@, c, start, 4);
            reveal(plots);
            reveal_with_fuel(fences, 5);
        }

        if n_row < 0 || n_row >= map.len() as isize || n_col < 0 || n_col >= map[0].len() as isize {
            proof {
                lemma_flood_side_done(map@, c, start, before, middle, side as int);
            }
            region_perimeter += 1;
        } else {
            assert(n_row < map.len() && n_col < map[0].len());
            assert(map@[n_row as int].len() == map@[0].len());
            if map[n_row as usize][n_col as usize] != c {
                proof {
                    lemma_flood_side_done(map@, c, start, before, middle, side as int);
                }
                region_perimeter += 1;
            } else if !get_mark(visited, n_row as usize, n_col as usize) {
                let (sub_area, sub_perimeter) = find_stats_a(
                    map,
                    visited,
                    n_row as usize,
                    n_col as usize,
                    c,
                );
                proof {
                    lemma_flood_side_searched(
                        map@,
                        c,
                        start,
                        before,
                        middle,
                        visited@,
                        side as int,
                    );
                    lemma_new_bounds(map@, c, before, visited@);
                    lemma_marked_bound(visited@, rows as int, cols as int);
                }
                region_area += sub_area;
                region_perimeter += sub_perimeter;
            } else {
                proof {
                    lemma_flood_side_done(map@, c, start, before, middle, side as int);
                }
            }
        }
        side += 1;
    }

    (region_area, region_perimeter)
}

/// The plant of a plot.
pub open spec fn plant_at(map: Seq<Vec<char>>, cell: (int, int)) -> char {
    map[cell.0]@[cell.1]
}

/// The plot comes before the position, row by row.
pub open spec fn comes_before(cell: (int, int), row: int, col: int) -> bool {
    cell.0 < row || (cell.0 == row && cell.1 < col)
}

/// The two plots belong to one region.
pub open spec fn same_region(map: Seq<Vec<char>>, a: (int, int), b: (int, int)) -> bool {
    connected(map, plant_at(map, a), a, b)
}

/// One for a plot of the region of `cell`.
pub open spec fn region_mark(map: Seq<Vec<char>>, cell: (int, int)) -> spec_fn(int, int) -> nat {
    |r: int, c: int| if same_region(map, cell, (r, c)) { 1nat } else { 0nat }
}

/// The number of fences of a plot of the region of `cell`.
pub open spec fn region_fences(map: Seq<Vec<char>>, cell: (int, int)) -> spec_fn(int, int) -> nat {
    |r: int, c: int|
        if same_region(map, cell, (r, c)) {
            fences(map, plant_at(map, cell), (r, c), 4)
        } else {
            0nat
        }
}

/// The number of plots of the region of a plot.
pub open spec fn region_area(map: Seq<Vec<char>>, cell: (int, int)) -> nat {
    sum_grid(map.len(), map[0]@.len(), region_mark(map, cell))
}

/// The number of fences around the region of a plot.
pub open spec fn region_perimeter(map: Seq<Vec<char>>, cell: (int, int)) -> nat {
    sum_grid(map.len(), map[0]@.len(), region_fences(map, cell))
}

/// The plot is the first of its region, row by row.
pub open spec fn is_first(map: Seq<Vec<char>>, cell: (int, int)) -> bool {
    forall|other: (int, int)|
        in_garden(map, other) && comes_before(other, cell.0, cell.1) ==> !#[trigger] same_region(
            map,
            other,
            cell,
        )
}

/// The price of the fence of a region, counted at the first plot of the
/// region: its area times its perimeter.
pub open spec fn price_mark(map: Seq<Vec<char>>) -> spec_fn(int, int) -> nat {
    |r: int, c: int|
        if is_first(map, (r, c)) {
            region_area(map, (r, c)) * region_perimeter(map, (r, c))
        } else {
            0nat
        }
}

/// The price of the fences of all regions.
pub open spec fn fence_price(map: Seq<Vec<char>>) -> nat {
    sum_grid(map.len(), map[0]@.len(), price_mark(map))
}

/// The marks are those of the regions whose first plot comes before the
/// position.
#[verifier::opaque]
pub open spec fn swept(map: Seq<Vec<char>>, visited: Seq<Vec<bool>>, row: int, col: int) -> bool {
    forall|cell: (int, int)|
        in_garden(map, cell) ==> (#[trigger] mark_at(visited, cell) <==> exists|other: (int, int)|
            in_garden(map, other) && comes_before(other, row, col) && #[trigger] same_region(
                map,
                other,
                cell,
            ))
}

/// Before the first plot nothing is marked.
pub proof fn lemma_swept_begins(map: Seq<Vec<char>>, visited: Seq<Vec<bool>>)
    requires
        forall|r: int, c: int|
            0 <= r < map.len() && 0 <= c < map[0].len() ==> !(#[trigger] visited[r]@[c]),
    ensures
        swept(map, visited, 0, 0),
{
    reveal(swept);
    assert forall|cell: (int, int)| in_garden(map, cell) implies !#[trigger] mark_at(
        visited,
        cell,
    ) by {
        assert(!visited[cell.0]@[cell.1]);
    }
}

/// The end of a row is the beginning of the next.
pub proof fn lemma_swept_row(map: Seq<Vec<char>>, visited: Seq<Vec<bool>>, row: int)
    requires
        swept(map, visited, row, map[0].len() as int),
    ensures
        swept(map, visited, row + 1, 0),
{
    reveal(swept);
    assert forall|cell: (int, int)| in_garden(map, cell) implies (#[trigger] mark_at(visited, cell)
        <==> exists|other: (int, int)|
        in_garden(map, other) && comes_before(other, row + 1, 0) && #[trigger] same_region(
            map,
            other,
            cell,
        )) by {
        if mark_at(visited, cell) {
            let other = choose|other: (int, int)|
                in_garden(map, other) && comes_before(other, row, map[0].len() as int)
                    && #[trigger] same_region(map, other, cell);
            assert(comes_before(other, row + 1, 0));
        }
        if exists|other: (int, int)|
            in_garden(map, other) && comes_before(other, row + 1, 0) && #[trigger] same_region(
                map,
                other,
                cell,
            ) {
            let other = choose|other: (int, int)|
                in_garden(map, other) && comes_before(other, row + 1, 0) && #[trigger] same_region(
                    map,
                    other,
                    cell,
                );
            assert(comes_before(other, row, map[0].len() as int));
        }
    }
}

/// Plots of one region grow the same plant.
pub proof fn lemma_region_plant(map: Seq<Vec<char>>, plant: char, a: (int, int), b: (int, int))
    requires
        connected(map, plant, a, b),
    ensures
        grows(map, plant, a),
        grows(map, plant, b),
{
    reveal(connected);
    let path = choose|path: Seq<(int, int)>|
        #[trigger] is_plant_path(map, plant, path) && path[0] == a && path.last() == b;
    assert(grows(map, plant, path[0]));
    assert(grows(map, plant, path[path.len() - 1]));
}

/// A marked plot is not the first of its region, and the sweep goes on.
pub proof fn lemma_swept_marked(map: Seq<Vec<char>>, visited: Seq<Vec<bool>>, row: int, col: int)
    requires
        swept(map, visited, row, col),
        in_garden(map, (row, col)),
        mark_at(visited, (row, col)),
    ensures
        !is_first(map, (row, col)),
        swept(map, visited, row, col + 1),
{
    reveal(swept);
    let here = (row, col);
    let first = choose|other: (int, int)|
        in_garden(map, other) && comes_before(other, row, col) && #[trigger] same_region(
            map,
            other,
            here,
        );
    lemma_region_plant(map, plant_at(map, first), first, here);
    assert forall|cell: (int, int)| in_garden(map, cell) implies (#[trigger] mark_at(visited, cell)
        <==> exists|other: (int, int)|
        in_garden(map, other) && comes_before(other, row, col + 1) && #[trigger] same_region(
            map,
            other,
            cell,
        )) by {
        if mark_at(visited, cell) {
            let other = choose|other: (int, int)|
                in_garden(map, other) && comes_before(other, row, col) && #[trigger] same_region(
                    map,
                    other,
                    cell,
                );
            assert(comes_before(other, row, col + 1));
        }
        if exists|other: (int, int)|
            in_garden(map, other) && comes_before(other, row, col + 1) && #[trigger] same_region(
                map,
                other,
                cell,
            ) {
            let other = choose|other: (int, int)|
                in_garden(map, other) && comes_before(other, row, col + 1)
                    && #[trigger] same_region(map, other, cell);
            if other == here {
                lemma_connected_trans(map, plant_at(map, first), first, here, cell);
                assert(same_region(map, first, cell));
            } else {
                assert(comes_before(other, row, col));
            }
        }
    }
}

/// Every plot of a path that begins at the start of a finished search was
/// marked by the search, where no plot of the region of the start was
/// marked before.
pub proof fn lemma_flood_reaches(
    map: Seq<Vec<char>>,
    plant: char,
    start: (int, int),
    before: Seq<Vec<bool>>,
    after: Seq<Vec<bool>>,
    path: Seq<(int, int)>,
    upto: int,
)
    requires
        flooding(map, plant, start, before, after, 4),
        is_plant_path(map, plant, path),
        path[0] == start,
        0 <= upto < path.len(),
        forall|cell: (int, int)|
            in_garden(map, cell) && #[trigger] connected(map, plant, start, cell) ==> !mark_at(
                before,
                cell,
            ),
    ensures
        newly(before, after, path[upto]),
        connected(map, plant, start, path[upto]),
    decreases upto,
{
    reveal(flooding);
    if upto == 0 {
        assert(grows(map, plant, path[0]));
        lemma_connected_self(map, plant, start);
    } else {
        lemma_flood_reaches(map, plant, start, before, after, path, upto - 1);
        let from = path[upto - 1];
        let to = path[upto];
        assert(grows(map, plant, path[upto]));
        assert(grows(map, plant, path[upto - 1]));
        assert(adjacent(path[upto - 1], path[upto]));
        lemma_connected_step(map, plant, start, from, to);
        assert(exists|index: int| 0 <= index < 4 && beside(from, index) == to) by {
            if to == beside(from, 0) {
            } else if to == beside(from, 1) {
            } else if to == beside(from, 2) {
            } else {
                assert(to == beside(from, 3));
            }
        }
        let index = choose|index: int| 0 <= index < 4 && beside(from, index) == to;
        assert(grows(map, plant, beside(from, index)));
        assert(mark_at(after, beside(from, index)));
    }
}

/// After the search from a plot that was not marked: the plot is the first
/// of its region, the search has marked just the plots of that region, and
/// the sweep goes on.
pub proof fn lemma_swept_searched(
    map: Seq<Vec<char>>,
    visited: Seq<Vec<bool>>,
    after: Seq<Vec<bool>>,
    row: int,
    col: int,
)
    requires
        swept(map, visited, row, col),
        in_garden(map, (row, col)),
        !mark_at(visited, (row, col)),
        flooding(map, plant_at(map, (row, col)), (row, col), visited, after, 4),
    ensures
        is_first(map, (row, col)),
        swept(map, after, row, col + 1),
        sum_grid(map.len(), map[0]@.len(), new_mark(visited, after)) == region_area(map, (row, col)),
        sum_grid(
            map.len(),
            map[0]@.len(),
            new_fences(map, plant_at(map, (row, col)), visited, after),
        ) == region_perimeter(map, (row, col)),
        forall|cell: (int, int)|
            in_garden(map, cell) ==> (newly(visited, after, cell) <==> #[trigger] same_region(
                map,
                (row, col),
                cell,
            )),
{
    reveal(swept);
    let here = (row, col);
    let plant = plant_at(map, here);
    assert forall|other: (int, int)|
        in_garden(map, other) && comes_before(other, row, col) implies !#[trigger] same_region(
        map,
        other,
        here,
    ) by {
        if same_region(map, other, here) {
            assert(mark_at(visited, here));
        }
    }
    assert forall|cell: (int, int)|
        in_garden(map, cell) && #[trigger] connected(map, plant, here, cell) implies !mark_at(
        visited,
        cell,
    ) by {
        if mark_at(visited, cell) {
            let other = choose|other: (int, int)|
                in_garden(map, other) && comes_before(other, row, col) && #[trigger] same_region(
                    map,
                    other,
                    cell,
                );
            lemma_region_plant(map, plant_at(map, other), other, cell);
            lemma_region_plant(map, plant, here, cell);
            lemma_connected_sym(map, plant, here, cell);
            lemma_connected_trans(map, plant, other, cell, here);
            assert(same_region(map, other, here));
        }
    }
    assert forall|cell: (int, int)| in_garden(map, cell) implies (newly(visited, after, cell)
        <==> #[trigger] same_region(map, here, cell)) by {
        if same_region(map, here, cell) {
            reveal(connected);
            let path = choose|path: Seq<(int, int)>|
                #[trigger] is_plant_path(map, plant, path) && path[0] == here && path.last()
                    == cell;
            lemma_flood_reaches(map, plant, here, visited, after, path, path.len() - 1);
        }
        if newly(visited, after, cell) {
            reveal(flooding);
        }
    }
    assert forall|cell: (int, int)| in_garden(map, cell) implies (#[trigger] mark_at(after, cell)
        <==> exists|other: (int, int)|
        in_garden(map, other) && comes_before(other, row, col + 1) && #[trigger] same_region(
            map,
            other,
            cell,
        )) by {
        lemma_flood_facts(map, plant, here, visited, after, 4);
        if mark_at(after, cell) {
            if mark_at(visited, cell) {
                let other = choose|other: (int, int)|
                    in_garden(map, other) && comes_before(other, row, col)
                        && #[trigger] same_region(map, other, cell);
                assert(comes_before(other, row, col + 1));
            } else {
                assert(newly(visited, after, cell));
                assert(same_region(map, here, cell));
                assert(comes_before(here, row, col + 1));
            }
        }
        if exists|other: (int, int)|
            in_garden(map, other) && comes_before(other, row, col + 1) && #[trigger] same_region(
                map,
                other,
                cell,
            ) {
            let other = choose|other: (int, int)|
                in_garden(map, other) && comes_before(other, row, col + 1)
                    && #[trigger] same_region(map, other, cell);
            if other == here {
                assert(newly(visited, after, cell));
            } else {
                assert(comes_before(other, row, col));
                assert(mark_at(visited, cell));
            }
        }
    }
    assert forall|r: int, c: int|
        0 <= r < map.len() && 0 <= c < map[0]@.len() implies #[trigger] new_mark(visited, after)(
        r,
        c,
    ) == region_mark(map, here)(r, c) by {
        assert(in_garden(map, (r, c)));
    }
    lemma_sum_grid_ext(
        map.len(),
        map[0]@.len(),
        new_mark(visited, after),
        region_mark(map, here),
    );
    assert forall|r: int, c: int|
        0 <= r < map.len() && 0 <= c < map[0]@.len() implies #[trigger] new_fences(
        map,
        plant,
        visited,
        after,
    )(r, c) == region_fences(map, here)(r, c) by {
        assert(in_garden(map, (r, c)));
    }
    lemma_sum_grid_ext(
        map.len(),
        map[0]@.len(),
        new_fences(map, plant, visited, after),
        region_fences(map, here),
    );
}

/// The price of fencing all regions of the garden: for every region its
/// area times its perimeter.
pub fn solve_a(map: &Vec<Vec<char>>) -> (sum: usize)
    requires
        garden_valid(map@),
        fence_price(map@) <= usize::MAX,
    ensures
        sum == fence_price(map@),
{
    let num_cols = map[0].len();
    let mut visited = blank_marks(map.len(), num_cols);
    let ghost price = price_mark(map@);
    let ghost rows = map@.len();
    let ghost cols = map@[0]@.len();
    proof {
        lemma_swept_begins(map@, visited@);
    }

    let mut sum: usize = 0;

    let mut row: usize = 0;
    while row < map.len()
        invariant
            row <= map.len(),
            num_cols == cols,
            rows == map@.len(),
            cols == map@[0]@.len(),
            garden_valid(map@),
            price == price_mark(map@),
            sum_grid(rows, cols, price) <= usize::MAX,
            marks_shape(visited@, rows as int, cols as int),
            swept(map@, visited@, row as int, 0),
            sum == sum_below(row as nat, row_sums(cols, price)),
        decreases map.len() - row,
    {
        let ghost above = sum;
        let mut col: usize = 0;
        while col < num_cols
            invariant
                row < map.len(),
                col <= num_cols,
                num_cols == cols,
                rows == map@.len(),
                cols == map@[0]@.len(),
                garden_valid(map@),
                price == price_mark(map@),
                sum_grid(rows, cols, price) <= usize::MAX,
                marks_shape(visited@, rows as int, cols as int),
                swept(map@, visited@, row as int, col as int),
                above == sum_below(row as nat, row_sums(cols, price)),
                sum == above + sum_below(col as nat, at_row(price, row as int)),
            decreases num_cols - col,
        {
            proof {
                lemma_sum_grid_partial(rows, cols, price, row as nat, (col + 1) as nat);
                assert(map@[row as int].len() == map@[0].len());
            }
            if get_mark(&visited, row, col) {
                proof {
                    lemma_swept_marked(map@, visited@, row as int, col as int);
                }
            } else {
                let ghost before = visited@;
                let (region_area, region_perimeter) = find_stats_a(
                    map,
                    &mut visited,
                    row,
                    col,
                    map[row][col],
                );
                proof {
                    lemma_swept_searched(map@, before, visited@, row as int, col as int);
                }
                sum += region_area * region_perimeter;
            }
            col += 1;
        }
        proof {
            lemma_sum_grid_partial(rows, cols, price, row as nat, cols);
            lemma_swept_row(map@, visited@, row as int);
        }
        row += 1;
    }

    sum
}

/// The direction in which a fence runs.
#[derive(Debug, Clone, Copy, PartialEq, Eq, Hash, Structural)]
pub enum Direction {
    Vertical,
    Horizontal,
}

impl Direction {
    /// The other direction.
    pub fn inv(self) -> (other: Self)
        ensures
            other != self,
    {
        match self {
            Self::Vertical => Self::Horizontal,
            Self::Horizontal => Self::Vertical,
        }
    }
}

/// The pieces of fence around a region, one for every fenced side of a
/// plot: the horizontal ones, each named by the plot below it, and the
/// vertical ones, each named by the plot to its right.
pub struct Perimeter {
    pub horizontal: Vec<(usize, usize)>,
    pub vertical: Vec<(usize, usize)>,
}

impl Perimeter {
    /// No pieces.
    pub fn new() -> (perimeter: Self)
        ensures
            perimeter.horizontal@.len() == 0,
            perimeter.vertical@.len() == 0,
    {
        Perimeter { horizontal: Vec::new(), vertical: Vec::new() }
    }

    /// The number of pieces.
    pub open spec fn count(&self) -> nat {
        self.horizontal@.len() + self.vertical@.len()
    }

    /// Every piece lies in the garden or on its lower or right edge.
    pub open spec fn within(&self, map: Seq<Vec<char>>) -> bool {
        &&& forall|i: int|
            0 <= i < self.horizontal@.len() ==> (#[trigger] self.horizontal@[i]).0 <= map.len()
                && self.horizontal@[i].1 <= map[0].len()
        &&& forall|i: int|
            0 <= i < self.vertical@.len() ==> (#[trigger] self.vertical@[i]).0 <= map.len()
                && self.vertical@[i].1 <= map[0].len()
    }

    /// Adds a piece that runs in the direction.
    fn push(&mut self, dir: Direction, piece: (usize, usize))
        ensures
            dir == Direction::Horizontal ==> final(self).horizontal@ == old(self).horizontal@.push(
                piece,
            ) && final(self).vertical@ == old(self).vertical@,
            dir == Direction::Vertical ==> final(self).vertical@ == old(self).vertical@.push(piece)
                && final(self).horizontal@ == old(self).horizontal@,
    {
        match dir {
            Direction::Horizontal => self.horizontal.push(piece),
            Direction::Vertical => self.vertical.push(piece),
        }
    }
}

/// The direction of the fence on a side of a plot: horizontal above and
/// below, vertical to the left and to the right.
pub open spec fn dir_of(index: int) -> Direction {
    if index < 2 {
        Direction::Horizontal
    } else {
        Direction::Vertical
    }
}

/// The piece of fence on a side of a plot: the plot itself names the piece
/// above it and the piece to its left, its neighbour the piece below it
/// and the piece to its right.
pub open spec fn piece_of(cell: (int, int), index: int) -> (usize, usize) {
    if index == 1 || index == 3 {
        (beside(cell, index).0 as usize, beside(cell, index).1 as usize)
    } else {
        (cell.0 as usize, cell.1 as usize)
    }
}

/// A fence stands on the side `index` of a plot that was marked between the
/// two states; of the sides of `start` only the first `sides` count.
pub open spec fn new_fence(
    map: Seq<Vec<char>>,
    plant: char,
    before: Seq<Vec<bool>>,
    after: Seq<Vec<bool>>,
    sides: int,
    start: (int, int),
    cell: (int, int),
    index: int,
) -> bool {
    &&& in_garden(map, cell)
    &&& newly(before, after, cell)
    &&& 0 <= index < 4
    &&& fenced(map, plant, cell, index)
    &&& (cell != start || index < sides)
}

/// The piece is that of such a fence, and runs in the direction.
pub open spec fn fence_piece(
    map: Seq<Vec<char>>,
    plant: char,
    before: Seq<Vec<bool>>,
    after: Seq<Vec<bool>>,
    sides: int,
    start: (int, int),
    dir: Direction,
    piece: (usize, usize),
) -> bool {
    exists|cell: (int, int), index: int| #[trigger]
        new_fence(map, plant, before, after, sides, start, cell, index) && dir_of(index) == dir
            && piece_of(cell, index) == piece
}

/// The second list is the first with the pieces of such fences behind it,
/// each once.
pub open spec fn pieces_added(
    map: Seq<Vec<char>>,
    plant: char,
    before: Seq<Vec<bool>>,
    after: Seq<Vec<bool>>,
    sides: int,
    start: (int, int),
    dir: Direction,
    old_list: Seq<(usize, usize)>,
    new_list: Seq<(usize, usize)>,
) -> bool {
    &&& old_list.len() <= new_list.len()
    &&& new_list.take(old_list.len() as int) == old_list
    &&& new_list.skip(old_list.len() as int).no_duplicates()
    &&& forall|piece: (usize, usize)|
        new_list.skip(old_list.len() as int).contains(piece) <==> #[trigger] fence_piece(
            map,
            plant,
            before,
            after,
            sides,
            start,
            dir,
            piece,
        )
}

/// Every plot marked between the two states grows the plant.
pub open spec fn new_grow(
    map: Seq<Vec<char>>,
    plant: char,
    before: Seq<Vec<bool>>,
    after: Seq<Vec<bool>>,
) -> bool {
    forall|cell: (int, int)|
        in_garden(map, cell) && #[trigger] newly(before, after, cell) ==> grows(map, plant, cell)
}

/// A search marks plots that grow the plant, and takes no mark away.
pub proof fn lemma_flood_grows(
    map: Seq<Vec<char>>,
    plant: char,
    start: (int, int),
    before: Seq<Vec<bool>>,
    after: Seq<Vec<bool>>,
    sides: int,
)
    requires
        flooding(map, plant, start, before, after, sides),
    ensures
        new_grow(map, plant, before, after),
        newly(before, after, start),
        forall|cell: (int, int)|
            in_garden(map, cell) && #[trigger] mark_at(before, cell) ==> mark_at(after, cell),
{
    reveal(flooding);
}

/// Two fences of plots with the plant that run in one direction have
/// different pieces.
pub proof fn lemma_piece_one(
    map: Seq<Vec<char>>,
    plant: char,
    a: (int, int),
    i: int,
    b: (int, int),
    j: int,
)
    requires
        garden_valid(map),
        grows(map, plant, a),
        grows(map, plant, b),
        0 <= i < 4,
        0 <= j < 4,
        fenced(map, plant, a, i),
        fenced(map, plant, b, j),
        dir_of(i) == dir_of(j),
        piece_of(a, i) == piece_of(b, j),
    ensures
        a == b,
        i == j,
{
    if i != j {
        if i == 0 || i == 2 {
            assert(a == beside(b, j));
        } else {
            assert(b == beside(a, i));
        }
    }
}

/// No pieces have been added when a search has marked its first plot and
/// looked at none of its sides.
pub proof fn lemma_pieces_begin(
    map: Seq<Vec<char>>,
    plant: char,
    before: Seq<Vec<bool>>,
    after: Seq<Vec<bool>>,
    start: (int, int),
    dir: Direction,
    list: Seq<(usize, usize)>,
)
    requires
        forall|cell: (int, int)| in_garden(map, cell) && #[trigger] newly(before, after, cell) ==> cell == start,
    ensures
        pieces_added(map, plant, before, after, 0, start, dir, list, list),
{
    assert(list.take(list.len() as int) =~= list);
    assert(list.skip(list.len() as int) =~= Seq::<(usize, usize)>::empty());
}

/// A side of the first plot without a fence adds no piece.
pub proof fn lemma_pieces_pass(
    map: Seq<Vec<char>>,
    plant: char,
    before: Seq<Vec<bool>>,
    after: Seq<Vec<bool>>,
    side: int,
    start: (int, int),
    dir: Direction,
    old_list: Seq<(usize, usize)>,
    list: Seq<(usize, usize)>,
)
    requires
        pieces_added(map, plant, before, after, side, start, dir, old_list, list),
        !fenced(map, plant, start, side) || dir_of(side) != dir,
    ensures
        pieces_added(map, plant, before, after, side + 1, start, dir, old_list, list),
{
    assert forall|piece: (usize, usize)|
        fence_piece(map, plant, before, after, side, start, dir, piece) == #[trigger] fence_piece(
            map,
            plant,
            before,
            after,
            side + 1,
            start,
            dir,
            piece,
        ) by {
        if fence_piece(map, plant, before, after, side, start, dir, piece) {
            let (cell, index) = choose|cell: (int, int), index: int| #[trigger]
                new_fence(map, plant, before, after, side, start, cell, index) && dir_of(index)
                    == dir && piece_of(cell, index) == piece;
            assert(new_fence(map, plant, before, after, side + 1, start, cell, index));
        }
        if fence_piece(map, plant, before, after, side + 1, start, dir, piece) {
            let (cell, index) = choose|cell: (int, int), index: int| #[trigger]
                new_fence(map, plant, before, after, side + 1, start, cell, index) && dir_of(index)
                    == dir && piece_of(cell, index) == piece;
            assert(new_fence(map, plant, before, after, side, start, cell, index));
        }
    }
}

/// A fence on a side of the first plot adds its piece.
pub proof fn lemma_pieces_push(
    map: Seq<Vec<char>>,
    plant: char,
    before: Seq<Vec<bool>>,
    after: Seq<Vec<bool>>,
    side: int,
    start: (int, int),
    old_list: Seq<(usize, usize)>,
    list: Seq<(usize, usize)>,
)
    requires
        garden_valid(map),
        0 <= side < 4,
        in_garden(map, start),
        grows(map, plant, start),
        newly(before, after, start),
        new_grow(map, plant, before, after),
        fenced(map, plant, start, side),
        pieces_added(map, plant, before, after, side, start, dir_of(side), old_list, list),
    ensures
        pieces_added(
            map,
            plant,
            before,
            after,
            side + 1,
            start,
            dir_of(side),
            old_list,
            list.push(piece_of(start, side)),
        ),
{
    let dir = dir_of(side);
    let own = piece_of(start, side);
    let longer = list.push(own);
    let tail = list.skip(old_list.len() as int);
    let longer_tail = longer.skip(old_list.len() as int);
    assert(longer_tail =~= tail.push(own));
    assert(longer.take(old_list.len() as int) =~= list.take(old_list.len() as int));
    assert(new_fence(map, plant, before, after, side + 1, start, start, side));
    assert(!tail.contains(own)) by {
        if tail.contains(own) {
            assert(fence_piece(map, plant, before, after, side, start, dir, own));
            let (cell, index) = choose|cell: (int, int), index: int| #[trigger]
                new_fence(map, plant, before, after, side, start, cell, index) && dir_of(index)
                    == dir && piece_of(cell, index) == own;
            lemma_piece_one(map, plant, cell, index, start, side);
        }
    }
    assert(longer_tail.no_duplicates()) by {
        assert forall|i: int, j: int|
            0 <= i < longer_tail.len() && 0 <= j < longer_tail.len() && i != j implies longer_tail[i]
            != longer_tail[j] by {
            if i < tail.len() && j < tail.len() {
                assert(longer_tail[i] == tail[i] && longer_tail[j] == tail[j]);
            } else if i < tail.len() {
                assert(tail.contains(tail[i]));
            } else {
                assert(tail.contains(tail[j]));
            }
        }
    }
    assert forall|piece: (usize, usize)|
        longer_tail.contains(piece) <==> #[trigger] fence_piece(
            map,
            plant,
            before,
            after,
            side + 1,
            start,
            dir,
            piece,
        ) by {
        if longer_tail.contains(piece) {
            let k = choose|k: int| 0 <= k < longer_tail.len() && longer_tail[k] == piece;
            if k < tail.len() {
                assert(tail[k] == piece);
                assert(tail.contains(piece));
                assert(fence_piece(map, plant, before, after, side, start, dir, piece));
                let (cell, index) = choose|cell: (int, int), index: int| #[trigger]
                    new_fence(map, plant, before, after, side, start, cell, index) && dir_of(index)
                        == dir && piece_of(cell, index) == piece;
                assert(new_fence(map, plant, before, after, side + 1, start, cell, index));
            }
        }
        if fence_piece(map, plant, before, after, side + 1, start, dir, piece) {
            let (cell, index) = choose|cell: (int, int), index: int| #[trigger]
                new_fence(map, plant, before, after, side + 1, start, cell, index) && dir_of(index)
                    == dir && piece_of(cell, index) == piece;
            if cell == start && index == side {
                assert(longer_tail[tail.len() as int] == piece);
            } else {
                assert(new_fence(map, plant, before, after, side, start, cell, index));
                assert(fence_piece(map, plant, before, after, side, start, dir, piece));
                assert(tail.contains(piece));
                let k = choose|k: int| 0 <= k < tail.len() && tail[k] == piece;
                assert(longer_tail[k] == piece);
            }
        }
    }
}

/// A search from the neighbour on a side of the first plot adds the pieces
/// of the plots that it marks.
pub proof fn lemma_pieces_join(
    map: Seq<Vec<char>>,
    plant: char,
    before: Seq<Vec<bool>>,
    middle: Seq<Vec<bool>>,
    after: Seq<Vec<bool>>,
    side: int,
    start: (int, int),
    next: (int, int),
    dir: Direction,
    old_list: Seq<(usize, usize)>,
    mid_list: Seq<(usize, usize)>,
    new_list: Seq<(usize, usize)>,
)
    requires
        garden_valid(map),
        0 <= side < 4,
        in_garden(map, start),
        !fenced(map, plant, start, side),
        newly(before, middle, start),
        new_grow(map, plant, before, middle),
        new_grow(map, plant, middle, after),
        forall|cell: (int, int)|
            in_garden(map, cell) && #[trigger] mark_at(before, cell) ==> mark_at(middle, cell),
        forall|cell: (int, int)|
            in_garden(map, cell) && #[trigger] mark_at(middle, cell) ==> mark_at(after, cell),
        pieces_added(map, plant, before, middle, side, start, dir, old_list, mid_list),
        pieces_added(map, plant, middle, after, 4, next, dir, mid_list, new_list),
    ensures
        pieces_added(map, plant, before, after, side + 1, start, dir, old_list, new_list),
{
    let first = mid_list.skip(old_list.len() as int);
    let second = new_list.skip(mid_list.len() as int);
    let tail = new_list.skip(old_list.len() as int);
    assert(new_list.take(mid_list.len() as int) == mid_list);
    assert(new_list.take(old_list.len() as int) =~= mid_list.take(old_list.len() as int)) by {
        assert forall|k: int| 0 <= k < old_list.len() implies new_list[k] == mid_list[k] by {
            assert(new_list.take(mid_list.len() as int)[k] == mid_list[k]);
        }
    }
    assert(tail =~= first + second) by {
        assert forall|k: int| 0 <= k < tail.len() implies tail[k] == (first + second)[k] by {
            if k < first.len() {
                assert(new_list.take(mid_list.len() as int)[old_list.len() + k] == mid_list[
                    old_list.len() + k
                ]);
            }
        }
    }
    assert forall|piece: (usize, usize)| first.contains(piece) implies !second.contains(piece) by {
        if second.contains(piece) {
            assert(fence_piece(map, plant, before, middle, side, start, dir, piece));
            assert(fence_piece(map, plant, middle, after, 4, next, dir, piece));
            let (a, i) = choose|cell: (int, int), index: int| #[trigger]
                new_fence(map, plant, before, middle, side, start, cell, index) && dir_of(index)
                    == dir && piece_of(cell, index) == piece;
            let (b, j) = choose|cell: (int, int), index: int| #[trigger]
                new_fence(map, plant, middle, after, 4, next, cell, index) && dir_of(index) == dir
                    && piece_of(cell, index) == piece;
            lemma_piece_one(map, plant, a, i, b, j);
        }
    }
    assert(tail.no_duplicates()) by {
        assert forall|i: int, j: int| 0 <= i < tail.len() && 0 <= j < tail.len() && i != j implies tail[i]
            != tail[j] by {
            if i < first.len() && j < first.len() {
                assert(tail[i] == first[i] && tail[j] == first[j]);
            } else if i >= first.len() && j >= first.len() {
                assert(tail[i] == second[i - first.len()] && tail[j] == second[j - first.len()]);
            } else if i < first.len() {
                assert(tail[i] == first[i] && tail[j] == second[j - first.len()]);
                assert(first.contains(first[i]));
                assert(second.contains(second[j - first.len()]));
            } else {
                assert(tail[j] == first[j] && tail[i] == second[i - first.len()]);
                assert(first.contains(first[j]));
                assert(second.contains(second[i - first.len()]));
            }
        }
    }
    assert forall|piece: (usize, usize)|
        tail.contains(piece) <==> #[trigger] fence_piece(
            map,
            plant,
            before,
            after,
            side + 1,
            start,
            dir,
            piece,
        ) by {
        if tail.contains(piece) {
            let k = choose|k: int| 0 <= k < tail.len() && tail[k] == piece;
            if k < first.len() {
                assert(first[k] == piece);
                assert(first.contains(piece));
                assert(fence_piece(map, plant, before, middle, side, start, dir, piece));
                let (cell, index) = choose|cell: (int, int), index: int| #[trigger]
                    new_fence(map, plant, before, middle, side, start, cell, index) && dir_of(index)
                        == dir && piece_of(cell, index) == piece;
                assert(new_fence(map, plant, before, after, side + 1, start, cell, index));
            } else {
                assert(second[k - first.len()] == piece);
                assert(second.contains(piece));
                assert(fence_piece(map, plant, middle, after, 4, next, dir, piece));
                let (cell, index) = choose|cell: (int, int), index: int| #[trigger]
                    new_fence(map, plant, middle, after, 4, next, cell, index) && dir_of(index)
                        == dir && piece_of(cell, index) == piece;
                assert(cell != start);
                assert(new_fence(map, plant, before, after, side + 1, start, cell, index));
            }
        }
        if fence_piece(map, plant, before, after, side + 1, start, dir, piece) {
            let (cell, index) = choose|cell: (int, int), index: int| #[trigger]
                new_fence(map, plant, before, after, side + 1, start, cell, index) && dir_of(index)
                    == dir && piece_of(cell, index) == piece;
            if mark_at(middle, cell) {
                assert(new_fence(map, plant, before, middle, side, start, cell, index));
                assert(fence_piece(map, plant, before, middle, side, start, dir, piece));
                assert(first.contains(piece));
                let k = choose|k: int| 0 <= k < first.len() && first[k] == piece;
                assert(tail[k] == piece);
            } else {
                assert(new_fence(map, plant, middle, after, 4, next, cell, index));
                assert(fence_piece(map, plant, middle, after, 4, next, dir, piece));
                assert(second.contains(piece));
                let k = choose|k: int| 0 <= k < second.len() && second[k] == piece;
                assert(tail[first.len() + k] == piece);
            }
        }
    }
}

/// What a search that collects pieces of fence returns and leaves behind:
/// nothing where the plot grows another plant; else the marks of the
/// search, the number of plots marked, and as many new pieces as those
/// plots have fences.
pub open spec fn searched_b(
    map: Seq<Vec<char>>,
    plant: char,
    start: (int, int),
    before: Seq<Vec<bool>>,
    after: Seq<Vec<bool>>,
    area: usize,
    added: int,
) -> bool {
    if grows(map, plant, start) {
        &&& flooding(map, plant, start, before, after, 4)
        &&& area == sum_grid(map.len(), map[0]@.len(), new_mark(before, after))
        &&& added == sum_grid(map.len(), map[0]@.len(), new_fences(map, plant, before, after))
    } else {
        after == before && area == 0 && added == 0
    }
}

/// Marks the plots of the region of the plant `c` that can be reached from
/// the plot over plots not yet marked, adds a piece of fence for every
/// fenced side of theirs, and returns the number of plots marked.
pub fn find_stats_b(
    map: &Vec<Vec<char>>,
    visited: &mut Vec<Vec<bool>>,
    perimeter: &mut Perimeter,
    row: usize,
    col: usize,
    c: char,
) -> (area: usize)
    requires
        garden_valid(map@),
        marks_shape(old(visited)@, map@.len() as int, map@[0].len() as int),
        in_garden(map@, (row as int, col as int)),
        !mark_at(old(visited)@, (row as int, col as int)),
        old(perimeter).within(map@),
    ensures
        searched_b(
            map@,
            c,
            (row as int, col as int),
            old(visited)@,
            final(visited)@,
            area,
            final(perimeter).count() - old(perimeter).count(),
        ),
        final(perimeter).count() >= old(perimeter).count(),
        final(perimeter).within(map@),
        marks_shape(final(visited)@, map@.len() as int, map@[0].len() as int),
        marked(final(visited)@) >= marked(old(visited)@),
        grows(map@, c, (row as int, col as int)) ==> pieces_added(
            map@,
            c,
            old(visited)@,
            final(visited)@,
            4,
            (row as int, col as int),
            Direction::Horizontal,
            old(perimeter).horizontal@,
            final(perimeter).horizontal@,
        ) && pieces_added(
            map@,
            c,
            old(visited)@,
            final(visited)@,
            4,
            (row as int, col as int),
            Direction::Vertical,
            old(perimeter).vertical@,
            final(perimeter).vertical@,
        ),
        !grows(map@, c, (row as int, col as int)) ==> final(perimeter).horizontal@ == old(
            perimeter,
        ).horizontal@ && final(perimeter).vertical@ == old(perimeter).vertical@,
    decreases plots(map@) - marked(old(visited)@),
{
    let ghost start = (row as int, col as int);
    let ghost before = visited@;
    let ghost pieces_before = perimeter.count();
    let ghost old_h = perimeter.horizontal@;
    let ghost old_v = perimeter.vertical@;
    let ghost rows = map@.len();
    let ghost cols = map@[0]@.len();
    proof {
        assert(map@[row as int].len() == map@[0].len());
    }
    if map[row][col] != c {
        return 0;
    }
    set_mark(visited, row, col);
    proof {
        lemma_flood_begins(map@, c, start, before, visited@);
        lemma_mark_set(before, visited@, rows as int, cols as int, start);
        reveal(plots);
        lemma_marked_bound(visited@, rows as int, cols as int);
        assert forall|cell: (int, int)|
            in_garden(map@, cell) && #[trigger] newly(before, visited@, cell) implies cell
            == start by {
            if cell.0 != start.0 {
                assert(visited@[cell.0] == before[cell.0]);
            }
        }
        lemma_pieces_begin(map@, c, before, visited@, start, Direction::Horizontal, old_h);
        lemma_pieces_begin(map@, c, before, visited@, start, Direction::Vertical, old_v);
    }

    let mut region_area: usize = 1;

    let mut side: usize = 0;
    while side < 4
        invariant
            side <= 4,
            before == old(visited)@,
            pieces_before == old(perimeter).count(),
            old_h == old(perimeter).horizontal@,
            old_v == old(perimeter).vertical@,
            grows(map@, c, start),
            pieces_added(
                map@,
                c,
                before,
                visited@,
                side as int,
                start,
                Direction::Horizontal,
                old_h,
                perimeter.horizontal@,
            ),
            pieces_added(
                map@,
                c,
                before,
                visited@,
                side as int,
                start,
                Direction::Vertical,
                old_v,
                perimeter.vertical@,
            ),
            garden_valid(map@),
            rows == map@.len(),
            cols == map@[0]@.len(),
            start == (row as int, col as int),
            in_garden(map@, start),
            marks_shape(before, rows as int, cols as int),
            marks_shape(visited@, rows as int, cols as int),
            flooding(map@, c, start, before, visited@, side as int),
            marked(visited@) > marked(before),
            marked(visited@) <= plots(map@),
            perimeter.within(map@),
            perimeter.count() >= pieces_before,
            region_area == sum_grid(rows, cols, new_mark(before, visited@)),
            perimeter.count() - pieces_before + fences(map@, c, start, 4) - fences(
                map@,
                c,
                start,
                side as nat,
            ) == sum_grid(rows, cols, new_fences(map@, c, before, visited@)),
        decreases 4 - side,
    {
        let (row_off, col_off, dir, use_new): (isize, isize, Direction, bool) = match side {
            0 => (-1, 0, Direction::Vertical, false),
            1 => (1, 0, Direction::Vertical, true),
            2 => (0, -1, Direction::Horizontal, false),
            _ => (0, 1, Direction::Horizontal, true),
        };
        let n_row = row as isize + row_off;
        let n_col = col as isize + col_off;
        let ghost next = beside(start, side as int);
        let ghost middle = visited@;
        let ghost mid_h = perimeter.horizontal@;
        let ghost mid_v = perimeter.vertical@;
        let ghost other = if side < 2 {
            Direction::Vertical
        } else {
            Direction::Horizontal
        };
        let ghost other_old = if side < 2 {
            old_v
        } else {
            old_h
        };
        let ghost other_mid = if side < 2 {
            mid_v
        } else {
            mid_h
        };
        let ghost own_old = if side < 2 {
            old_h
        } else {
            old_v
        };
        let ghost own_mid = if side < 2 {
            mid_h
        } else {
            mid_v
        };
        proof {
            assert(next == (n_row as int, n_col as int));
            lemma_new_bounds(map@, c, before, middle);
            lemma_fences_bound(map@, c, start, side as nat);
            lemma_fences_bound(map@, c, start, 4);
            reveal(plots);
            reveal_with_fuel(fences, 5);
        }

        if n_row < 0 || n_row >= map.len() as isize || n_col < 0 || n_col >= map[0].len() as isize {
            proof {
                lemma_flood_side_done(map@, c, start, before, middle, side as int);
            }
            proof {
                lemma_flood_grows(map@, c, start, before, middle, side as int);
                lemma_pieces_push(map@, c, before, middle, side as int, start, own_old, own_mid);
                lemma_pieces_pass(
                    map@,
                    c,
                    before,
                    middle,
                    side as int,
                    start,
                    other,
                    other_old,
                    other_mid,
                );
            }
            if use_new {
                perimeter.push(dir.inv(), (n_row as usize, n_col as usize));
            } else {
                perimeter.push(dir.inv(), (row, col));
            }
        } else {
            assert(n_row < map.len() && n_col < map[0].len());
            assert(map@[n_row as int].len() == map@[0].len());
            if map[n_row as usize][n_col as usize] != c {
                proof {
                    lemma_flood_side_done(map@, c, start, before, middle, side as int);
                }
                proof {
                    lemma_flood_grows(map@, c, start, before, middle, side as int);
                    lemma_pieces_push(map@, c, before, middle, side as int, start, own_old, own_mid);
                    lemma_pieces_pass(
                        map@,
                        c,
                        before,
                        middle,
                        side as int,
                        start,
                        other,
                        other_old,
                        other_mid,
                    );
                }
                if use_new {
                    perimeter.push(dir.inv(), (n_row as usize, n_col as usize));
                } else {
                    perimeter.push(dir.inv(), (row, col));
                }
            } else if !get_mark(visited, n_row as usize, n_col as usize) {
                let ghost pieces_middle = perimeter.count();
                let sub_area = find_stats_b(
                    map,
                    visited,
                    perimeter,
                    n_row as usize,
                    n_col as usize,
                    c,
                );
                proof {
                    lemma_flood_side_searched(
                        map@,
                        c,
                        start,
                        before,
                        middle,
                        visited@,
                        side as int,
                    );
                    lemma_new_bounds(map@, c, before, visited@);
                    lemma_new_bounds(map@, c, middle, visited@);
                    lemma_marked_bound(visited@, rows as int, cols as int);
                    lemma_flood_grows(map@, c, start, before, middle, side as int);
                    lemma_flood_grows(map@, c, next, middle, visited@, 4);
                    lemma_pieces_join(
                        map@,
                        c,
                        before,
                        middle,
                        visited@,
                        side as int,
                        start,
                        next,
                        Direction::Horizontal,
                        old_h,
                        mid_h,
                        perimeter.horizontal@,
                    );
                    lemma_pieces_join(
                        map@,
                        c,
                        before,
                        middle,
                        visited@,
                        side as int,
                        start,
                        next,
                        Direction::Vertical,
                        old_v,
                        mid_v,
                        perimeter.vertical@,
                    );
                }
                region_area += sub_area;
            } else {
                proof {
                    lemma_flood_side_done(map@, c, start, before, middle, side as int);
                    lemma_pieces_pass(
                        map@,
                        c,
                        before,
                        middle,
                        side as int,
                        start,
                        Direction::Horizontal,
                        old_h,
                        mid_h,
                    );
                    lemma_pieces_pass(
                        map@,
                        c,
                        before,
                        middle,
                        side as int,
                        start,
                        Direction::Vertical,
                        old_v,
                        mid_v,
                    );
                }
            }
        }
        side += 1;
    }
    proof {
        lemma_new_bounds(map@, c, before, visited@);
        reveal(plots);
    }

    region_area
}

/// The position of a piece of fence along the line on which it lies: the
/// column of a horizontal piece, the row of a vertical one.
pub open spec fn along(dir: Direction, piece: (usize, usize)) -> int {
    match dir {
        Direction::Horizontal => piece.1 as int,
        Direction::Vertical => piece.0 as int,
    }
}

/// The key by which the pieces of one direction are sorted: the further
/// along its line a piece lies, the earlier it comes.
pub fn sort_key(dir: Direction, piece: (usize, usize)) -> (key: isize)
    requires
        piece.0 <= isize::MAX,
        piece.1 <= isize::MAX,
    ensures
        key == -along(dir, piece),
{
    match dir {
        Direction::Horizontal => -(piece.1 as isize),
        Direction::Vertical => -(piece.0 as isize),
    }
}

/// `slice::sort_by_key` with `sort_key`: afterwards the same pieces stand
/// in the list, those further along their line first.
#[verifier::external_body]
fn sort_pieces(pieces: &mut Vec<(usize, usize)>, dir: Direction)
    requires
        forall|i: int|
            0 <= i < old(pieces)@.len() ==> (#[trigger] old(pieces)@[i]).0 <= isize::MAX && old(
                pieces,
            )@[i].1 <= isize::MAX,
    ensures
        final(pieces)@.to_multiset() == old(pieces)@.to_multiset(),
        forall|i: int, j: int|
            0 <= i < j < final(pieces)@.len() ==> along(dir, #[trigger] final(pieces)@[i]) >= along(
                dir,
                #[trigger] final(pieces)@[j],
            ),
{
    pieces.sort_by_key(|piece| sort_key(dir, *piece));
}

/// Whether the plot at the signed position grows the plant.
fn grows_at(map: &Vec<Vec<char>>, row: isize, col: isize, plant: char) -> (yes: bool)
    requires
        garden_valid(map@),
    ensures
        yes == grows(map@, plant, (row as int, col as int)),
{
    if row < 0 || row >= map.len() as isize || col < 0 || col >= map[0].len() as isize {
        false
    } else {
        assert(row < map.len() && col < map[0].len());
        assert(map@[row as int].len() == map@[0].len());
        map[row as usize][col as usize] == plant
    }
}

/// Every piece of the list lies in the garden or on its lower or right
/// edge.
pub open spec fn pieces_within(map: Seq<Vec<char>>, pieces: Seq<(usize, usize)>) -> bool {
    forall|i: int|
        0 <= i < pieces.len() ==> (#[trigger] pieces[i]).0 <= map.len() && pieces[i].1
            <= map[0].len()
}

/// The plot on the other side of a piece of fence: above a horizontal
/// piece, to the left of a vertical one.
pub open spec fn across(dir: Direction, piece: (usize, usize)) -> (int, int) {
    match dir {
        Direction::Horizontal => (piece.0 - 1, piece.1 as int),
        Direction::Vertical => (piece.0 as int, piece.1 - 1),
    }
}

/// On which sides of a piece of fence the plant grows: on the other side,
/// and on the side of the plot that names the piece.
pub open spec fn faces(map: Seq<Vec<char>>, plant: char, dir: Direction, piece: (usize, usize)) -> (
    bool,
    bool,
) {
    (grows(map, plant, across(dir, piece)), grows(map, plant, (piece.0 as int, piece.1 as int)))
}

/// The line on which a piece of fence lies: the row of a horizontal piece,
/// the column of a vertical one.
pub open spec fn anchor(dir: Direction, piece: (usize, usize)) -> int {
    match dir {
        Direction::Horizontal => piece.0 as int,
        Direction::Vertical => piece.1 as int,
    }
}

/// The second piece continues the first: it lies on the same line, one step
/// further, with the plant on the same side.
pub open spec fn continues(
    map: Seq<Vec<char>>,
    plant: char,
    dir: Direction,
    from: (usize, usize),
    to: (usize, usize),
) -> bool {
    &&& anchor(dir, to) == anchor(dir, from)
    &&& along(dir, to) == along(dir, from) + 1
    &&& faces(map, plant, dir, to) == faces(map, plant, dir, from)
}

/// A side begins with the piece: it is one of the pieces, and continues
/// none of them.
pub open spec fn begins_side(
    map: Seq<Vec<char>>,
    plant: char,
    dir: Direction,
    pieces: Seq<(usize, usize)>,
    piece: (usize, usize),
) -> bool {
    &&& pieces.contains(piece)
    &&& forall|other: (usize, usize)|
        pieces.contains(other) ==> !#[trigger] continues(map, plant, dir, other, piece)
}

/// The pieces with which the straight sides begin that the pieces of one
/// direction form.
pub open spec fn side_starts(
    map: Seq<Vec<char>>,
    plant: char,
    dir: Direction,
    pieces: Seq<(usize, usize)>,
) -> Set<(usize, usize)> {
    Set::new(|piece: (usize, usize)| begins_side(map, plant, dir, pieces, piece))
}

/// The pieces further along their line come first.
pub open spec fn far_first(dir: Direction, list: Seq<(usize, usize)>) -> bool {
    forall|i: int, j: int|
        0 <= i < j < list.len() ==> along(dir, #[trigger] list[i]) >= along(dir, #[trigger] list[j])
}

/// How far the count of sides has come: `list` holds the pieces that are
/// left, whole sides have been taken off it, `counted` holds the pieces
/// with which those sides begin, and `end` is the last piece of the side
/// that is being followed, which continues in no piece of the list from
/// `scanned` on.
pub open spec fn run_state(
    map: Seq<Vec<char>>,
    plant: char,
    dir: Direction,
    given: Seq<(usize, usize)>,
    list: Seq<(usize, usize)>,
    counted: Set<(usize, usize)>,
    end: Option<(usize, usize)>,
    scanned: int,
) -> bool {
    &&& list.no_duplicates()
    &&& far_first(dir, list)
    &&& forall|k: int| 0 <= k < list.len() ==> given.contains(#[trigger] list[k])
    &&& counted.finite()
    &&& forall|piece: (usize, usize)| #[trigger]
        counted.contains(piece) <==> begins_side(map, plant, dir, given, piece) && !list.contains(
            piece,
        )
    &&& forall|p: (usize, usize), q: (usize, usize)|
        given.contains(p) && given.contains(q) && #[trigger] continues(map, plant, dir, p, q)
            && Some(p) != end ==> (list.contains(p) <==> list.contains(q))
    &&& end matches Some(last) ==> given.contains(last) && !list.contains(last) && forall|k: int|
        scanned <= k < list.len() ==> !continues(map, plant, dir, last, #[trigger] list[k])
}

/// A piece continues one piece at most, and one piece at most continues
/// it.
pub proof fn lemma_continues_one(
    map: Seq<Vec<char>>,
    plant: char,
    dir: Direction,
    a: (usize, usize),
    b: (usize, usize),
    c: (usize, usize),
)
    ensures
        continues(map, plant, dir, a, c) && continues(map, plant, dir, b, c) ==> a == b,
        continues(map, plant, dir, c, a) && continues(map, plant, dir, c, b) ==> a == b,
{
}

/// The count begins with the sorted list.
proof fn lemma_run_starts(
    map: Seq<Vec<char>>,
    plant: char,
    dir: Direction,
    given: Seq<(usize, usize)>,
    list: Seq<(usize, usize)>,
)
    requires
        given.no_duplicates(),
        list.to_multiset() == given.to_multiset(),
        far_first(dir, list),
    ensures
        run_state(map, plant, dir, given, list, Set::empty(), None, 0),
{
    given.to_multiset_ensures();
    list.to_multiset_ensures();
    given.lemma_multiset_has_no_duplicates();
    list.lemma_multiset_has_no_duplicates_conv();
    assert forall|piece: (usize, usize)| list.contains(piece) == given.contains(piece) by {
        assert(list.contains(piece) <==> list.to_multiset().count(piece) > 0);
        assert(given.contains(piece) <==> given.to_multiset().count(piece) > 0);
    }
    assert forall|k: int| 0 <= k < list.len() implies given.contains(#[trigger] list[k]) by {
        assert(list.contains(list[k]));
    }
}

/// The last piece of the list begins a side.
proof fn lemma_run_pops(
    map: Seq<Vec<char>>,
    plant: char,
    dir: Direction,
    given: Seq<(usize, usize)>,
    list: Seq<(usize, usize)>,
    counted: Set<(usize, usize)>,
)
    requires
        run_state(map, plant, dir, given, list, counted, None, 0),
        list.len() > 0,
    ensures
        run_state(
            map,
            plant,
            dir,
            given,
            list.drop_last(),
            counted.insert(list.last()),
            Some(list.last()),
            list.len() - 1,
        ),
        !counted.contains(list.last()),
{
    let first = list.last();
    let rest = list.drop_last();
    assert(list.contains(first));
    assert forall|piece: (usize, usize)| rest.contains(piece) == (list.contains(piece) && piece
        != first) by {
        if rest.contains(piece) {
            let k = choose|k: int| 0 <= k < rest.len() && rest[k] == piece;
            assert(list[k] == piece);
        }
        if list.contains(piece) && piece != first {
            let k = choose|k: int| 0 <= k < list.len() && list[k] == piece;
            assert(rest[k] == piece);
        }
    }
    assert forall|other: (usize, usize)| given.contains(other) implies !#[trigger] continues(
        map,
        plant,
        dir,
        other,
        first,
    ) by {
        if continues(map, plant, dir, other, first) {
            assert(list.contains(other));
            let k = choose|k: int| 0 <= k < list.len() && list[k] == other;
            if k < list.len() - 1 {
                assert(along(dir, list[k]) >= along(dir, list[list.len() - 1]));
            }
        }
    }
    assert(begins_side(map, plant, dir, given, first));
    assert forall|k: int| 0 <= k < rest.len() implies given.contains(#[trigger] rest[k]) by {
        assert(rest[k] == list[k]);
    }
    assert(far_first(dir, rest)) by {
        assert forall|i: int, j: int| 0 <= i < j < rest.len() implies along(dir, #[trigger] rest[i])
            >= along(dir, #[trigger] rest[j]) by {
            assert(rest[i] == list[i] && rest[j] == list[j]);
        }
    }
    assert(rest.no_duplicates()) by {
        assert forall|i: int, j: int| 0 <= i < rest.len() && 0 <= j < rest.len() && i != j implies rest[i]
            != rest[j] by {
            assert(rest[i] == list[i] && rest[j] == list[j]);
        }
    }
}

/// A piece of the list that does not continue the side is passed over.
proof fn lemma_run_skips(
    map: Seq<Vec<char>>,
    plant: char,
    dir: Direction,
    given: Seq<(usize, usize)>,
    list: Seq<(usize, usize)>,
    counted: Set<(usize, usize)>,
    end: (usize, usize),
    at: int,
)
    requires
        0 <= at < list.len(),
        run_state(map, plant, dir, given, list, counted, Some(end), at + 1),
        !continues(map, plant, dir, end, list[at]),
    ensures
        run_state(map, plant, dir, given, list, counted, Some(end), at),
{
}

/// A piece of the list that continues the side is taken off the list and
/// becomes the end of the side.
proof fn lemma_run_extends(
    map: Seq<Vec<char>>,
    plant: char,
    dir: Direction,
    given: Seq<(usize, usize)>,
    list: Seq<(usize, usize)>,
    counted: Set<(usize, usize)>,
    end: (usize, usize),
    at: int,
)
    requires
        0 <= at < list.len(),
        run_state(map, plant, dir, given, list, counted, Some(end), at + 1),
        continues(map, plant, dir, end, list[at]),
    ensures
        run_state(map, plant, dir, given, list.remove(at), counted, Some(list[at]), at),
{
    let taken = list[at];
    let rest = list.remove(at);
    assert(list.contains(taken));
    assert forall|piece: (usize, usize)| rest.contains(piece) == (list.contains(piece) && piece
        != taken) by {
        if rest.contains(piece) {
            let k = choose|k: int| 0 <= k < rest.len() && rest[k] == piece;
            if k < at {
                assert(list[k] == piece);
            } else {
                assert(list[k + 1] == piece);
            }
        }
        if list.contains(piece) && piece != taken {
            let k = choose|k: int| 0 <= k < list.len() && list[k] == piece;
            if k < at {
                assert(rest[k] == piece);
            } else {
                assert(rest[k - 1] == piece);
            }
        }
    }
    assert(rest.no_duplicates()) by {
        assert forall|i: int, j: int| 0 <= i < rest.len() && 0 <= j < rest.len() && i != j implies rest[i]
            != rest[j] by {
            let a = if i < at { i } else { i + 1 };
            let b = if j < at { j } else { j + 1 };
            assert(rest[i] == list[a] && rest[j] == list[b]);
        }
    }
    assert(far_first(dir, rest)) by {
        assert forall|i: int, j: int| 0 <= i < j < rest.len() implies along(dir, #[trigger] rest[i])
            >= along(dir, #[trigger] rest[j]) by {
            let a = if i < at { i } else { i + 1 };
            let b = if j < at { j } else { j + 1 };
            assert(rest[i] == list[a] && rest[j] == list[b]);
        }
    }
    assert forall|k: int| 0 <= k < rest.len() implies given.contains(#[trigger] rest[k]) by {
        let a = if k < at { k } else { k + 1 };
        assert(rest[k] == list[a]);
    }
    assert(!begins_side(map, plant, dir, given, taken));
    assert forall|p: (usize, usize), q: (usize, usize)|
        given.contains(p) && given.contains(q) && #[trigger] continues(map, plant, dir, p, q)
            && Some(p) != Some(taken) implies (rest.contains(p) <==> rest.contains(q)) by {
        lemma_continues_one(map, plant, dir, p, end, q);
        lemma_continues_one(map, plant, dir, q, taken, p);
        if p == end {
            assert(q == taken);
        }
    }
    assert forall|k: int| at <= k < rest.len() implies !continues(
        map,
        plant,
        dir,
        taken,
        #[trigger] rest[k],
    ) by {
        assert(rest[k] == list[k + 1]);
        assert(along(dir, list[at]) >= along(dir, list[k + 1]));
    }
}

/// A side ends when the whole list has been looked through.
proof fn lemma_run_ends(
    map: Seq<Vec<char>>,
    plant: char,
    dir: Direction,
    given: Seq<(usize, usize)>,
    list: Seq<(usize, usize)>,
    counted: Set<(usize, usize)>,
    end: (usize, usize),
)
    requires
        run_state(map, plant, dir, given, list, counted, Some(end), 0),
    ensures
        run_state(map, plant, dir, given, list, counted, None, 0),
{
    assert forall|p: (usize, usize), q: (usize, usize)|
        given.contains(p) && given.contains(q) && #[trigger] continues(map, plant, dir, p, q) implies (
    list.contains(p) <==> list.contains(q)) by {
        if p == end && list.contains(q) {
            let k = choose|k: int| 0 <= k < list.len() && list[k] == q;
            assert(!continues(map, plant, dir, end, list[k]));
        }
    }
}

/// Counts the straight sides that the pieces of one direction form, and
/// takes the pieces off the list.
fn count_sides(
    map: &Vec<Vec<char>>,
    perimeter_pieces: &mut Vec<(usize, usize)>,
    dir: Direction,
    region_c: char,
) -> (sides: usize)
    requires
        garden_valid(map@),
        pieces_within(map@, old(perimeter_pieces)@),
        old(perimeter_pieces)@.no_duplicates(),
    ensures
        final(perimeter_pieces)@.len() == 0,
        sides == side_starts(map@, region_c, dir, old(perimeter_pieces)@).len(),
{
    let ghost given = perimeter_pieces@;
    sort_pieces(perimeter_pieces, dir);
    proof {
        given.to_multiset_ensures();
        perimeter_pieces@.to_multiset_ensures();
        assert forall|i: int| 0 <= i < perimeter_pieces@.len() implies (
        #[trigger] perimeter_pieces@[i]).0 <= map@.len() && perimeter_pieces@[i].1
            <= map@[0].len() by {
            let piece = perimeter_pieces@[i];
            assert(perimeter_pieces@.contains(piece));
            assert(perimeter_pieces@.to_multiset().count(piece) > 0);
            assert(given.contains(piece));
            let k = choose|k: int| 0 <= k < given.len() && given[k] == piece;
            assert(given[k].0 <= map@.len());
        }
        lemma_run_starts(map@, region_c, dir, given, perimeter_pieces@);
    }
    let ghost total = perimeter_pieces@.len();
    let ghost mut counted: Set<(usize, usize)> = Set::empty();
    assert(perimeter_pieces.len() <= usize::MAX);
    let mut sides: usize = 0;
    while perimeter_pieces.len() > 0
        invariant
            garden_valid(map@),
            pieces_within(map@, perimeter_pieces@),
            total == given.len(),
            total <= usize::MAX,
            sides + perimeter_pieces@.len() <= total,
            sides == counted.len(),
            run_state(map@, region_c, dir, given, perimeter_pieces@, counted, None, 0),
        decreases perimeter_pieces@.len(),
    {
        let ghost whole = perimeter_pieces@;
        let (s_row, s_col) = perimeter_pieces.pop().unwrap();
        let ghost mut end = (s_row, s_col);
        proof {
            assert(perimeter_pieces@ =~= whole.drop_last());
            lemma_run_pops(map@, region_c, dir, given, whole, counted);
            counted = counted.insert(end);
        }
        let (side_anchor, mut side_e) = match dir {
            Direction::Vertical => (s_col, s_row),
            Direction::Horizontal => (s_row, s_col),
        };

        let off_a: (isize, isize) = match dir {
            Direction::Vertical => (0, -1),
            Direction::Horizontal => (-1, 0),
        };

        let char_a = grows_at(map, (s_row as isize) + off_a.0, (s_col as isize) + off_a.1, region_c);

        let char_b = grows_at(map, s_row as isize, s_col as isize, region_c);

        let mut i: usize = perimeter_pieces.len();
        let ghost left = perimeter_pieces@.len();
        while i > 0
            invariant
                garden_valid(map@),
                pieces_within(map@, perimeter_pieces@),
                i <= perimeter_pieces@.len(),
                perimeter_pieces@.len() <= left,
                sides + 1 + perimeter_pieces@.len() <= total,
                total <= usize::MAX,
                side_e < isize::MAX,
                off_a == (match dir {
                    Direction::Vertical => (0isize, -1isize),
                    Direction::Horizontal => (-1isize, 0isize),
                }),
                side_anchor == anchor(dir, end),
                side_e == along(dir, end),
                (char_a, char_b) == faces(map@, region_c, dir, end),
                run_state(map@, region_c, dir, given, perimeter_pieces@, counted, Some(end), i as int),
            decreases i,
        {
            i -= 1;
            let (p_row, p_col) = perimeter_pieces[i];
            assert(perimeter_pieces@[i as int].0 <= map@.len());
            let ghost here = (p_row, p_col);
            let ghost kept = perimeter_pieces@;
            let mut taken = false;

            if char_a == grows_at(
                map,
                (p_row as isize) + off_a.0,
                (p_col as isize) + off_a.1,
                region_c,
            ) && char_b == grows_at(map, p_row as isize, p_col as isize, region_c) {
                let (test_coord, match_coord) = match dir {
                    Direction::Horizontal => (p_col, p_row),
                    Direction::Vertical => (p_row, p_col),
                };

                if side_e + 1 == test_coord && side_anchor == match_coord {
                    side_e = test_coord;
                    perimeter_pieces.remove(i);
                    taken = true;
                    proof {
                        assert(continues(map@, region_c, dir, end, here));
                        lemma_run_extends(map@, region_c, dir, given, kept, counted, end, i as int);
                        end = here;
                        assert forall|k: int| 0 <= k < perimeter_pieces@.len() implies (
                        #[trigger] perimeter_pieces@[k]).0 <= map@.len() && perimeter_pieces@[k].1
                            <= map@[0].len() by {
                            if k < i {
                                assert(perimeter_pieces@[k] == kept[k]);
                            } else {
                                assert(perimeter_pieces@[k] == kept[k + 1]);
                            }
                        }
                    }
                }
            }
            proof {
                if !taken {
                    assert(!continues(map@, region_c, dir, end, here));
                    lemma_run_skips(map@, region_c, dir, given, kept, counted, end, i as int);
                }
            }
        }
        proof {
            lemma_run_ends(map@, region_c, dir, given, perimeter_pieces@, counted, end);
        }

        sides += 1;
    }
    proof {
        assert(counted =~= side_starts(map@, region_c, dir, given));
    }

    sides
}

/// The number of straight sides of the fence that the pieces form: the
/// number of pieces that continue no other piece.
pub open spec fn sides_of(map: Seq<Vec<char>>, plant: char, perimeter: Perimeter) -> nat {
    side_starts(map, plant, Direction::Horizontal, perimeter.horizontal@).len() + side_starts(
        map,
        plant,
        Direction::Vertical,
        perimeter.vertical@,
    ).len()
}

/// Counts the straight sides of the fence that the pieces form, and takes
/// the pieces away. No piece stands twice in a list.
pub fn find_region_sides(map: &Vec<Vec<char>>, perimeter: &mut Perimeter, region_c: char) -> (sides:
    usize)
    requires
        garden_valid(map@),
        old(perimeter).within(map@),
        old(perimeter).count() <= usize::MAX,
        old(perimeter).horizontal@.no_duplicates(),
        old(perimeter).vertical@.no_duplicates(),
    ensures
        final(perimeter).count() == 0,
        sides == sides_of(map@, region_c, *old(perimeter)),
{
    let ghost given = *perimeter;
    proof {
        lemma_starts_bound(map@, region_c, Direction::Horizontal, given.horizontal@);
        lemma_starts_bound(map@, region_c, Direction::Vertical, given.vertical@);
    }
    let horizontal = count_sides(map, &mut perimeter.horizontal, Direction::Horizontal, region_c);
    let vertical = count_sides(map, &mut perimeter.vertical, Direction::Vertical, region_c);
    horizontal + vertical
}

/// There are no more sides than pieces.
pub proof fn lemma_starts_bound(
    map: Seq<Vec<char>>,
    plant: char,
    dir: Direction,
    pieces: Seq<(usize, usize)>,
)
    ensures
        side_starts(map, plant, dir, pieces).finite(),
        side_starts(map, plant, dir, pieces).len() <= pieces.len(),
{
    vstd::seq_lib::seq_to_set_is_finite(pieces);
    let starts = side_starts(map, plant, dir, pieces);
    assert(starts.subset_of(pieces.to_set()));
    vstd::set_lib::lemma_len_subset(starts, pieces.to_set());
    pieces.lemma_cardinality_of_set();
}

/// A fence stands on the side `index` of a plot of the region of `first`.
pub open spec fn region_fence(map: Seq<Vec<char>>, first: (int, int), cell: (int, int), index: int) -> bool {
    &&& in_garden(map, cell)
    &&& same_region(map, first, cell)
    &&& 0 <= index < 4
    &&& fenced(map, plant_at(map, first), cell, index)
}

/// The piece is that of a fence of the region, and runs in the direction.
pub open spec fn region_piece(
    map: Seq<Vec<char>>,
    first: (int, int),
    dir: Direction,
    piece: (usize, usize),
) -> bool {
    exists|cell: (int, int), index: int| #[trigger]
        region_fence(map, first, cell, index) && dir_of(index) == dir && piece_of(cell, index)
            == piece
}

/// The pieces of fence of the region with which a straight side begins:
/// those that continue no other piece of it.
pub open spec fn region_starts(map: Seq<Vec<char>>, first: (int, int), dir: Direction) -> Set<
    (usize, usize),
> {
    Set::new(
        |piece: (usize, usize)|
            region_piece(map, first, dir, piece) && forall|other: (usize, usize)|
                region_piece(map, first, dir, other) ==> !#[trigger] continues(
                    map,
                    plant_at(map, first),
                    dir,
                    other,
                    piece,
                ),
    )
}

/// The number of straight sides of the fence around the region of a plot.
pub open spec fn region_sides(map: Seq<Vec<char>>, first: (int, int)) -> nat {
    region_starts(map, first, Direction::Horizontal).len() + region_starts(
        map,
        first,
        Direction::Vertical,
    ).len()
}

/// The price of the fence of a region when sides are paid for, counted at
/// the first plot of the region: its area times the number of its sides.
pub open spec fn side_mark(map: Seq<Vec<char>>) -> spec_fn(int, int) -> nat {
    |r: int, c: int|
        if is_first(map, (r, c)) {
            region_area(map, (r, c)) * region_sides(map, (r, c))
        } else {
            0nat
        }
}

/// The price of the fences of all regions when sides are paid for.
pub open spec fn side_price(map: Seq<Vec<char>>) -> nat {
    sum_grid(map.len(), map[0]@.len(), side_mark(map))
}

/// The pieces that a search of a whole region has collected are the pieces
/// of the fences of the region, each once, and the sides that begin among
/// them are the sides of the region.
pub proof fn lemma_region_pieces(
    map: Seq<Vec<char>>,
    first: (int, int),
    before: Seq<Vec<bool>>,
    after: Seq<Vec<bool>>,
    dir: Direction,
    list: Seq<(usize, usize)>,
)
    requires
        forall|cell: (int, int)|
            in_garden(map, cell) ==> (newly(before, after, cell) <==> #[trigger] same_region(
                map,
                first,
                cell,
            )),
        pieces_added(
            map,
            plant_at(map, first),
            before,
            after,
            4,
            first,
            dir,
            Seq::empty(),
            list,
        ),
    ensures
        list.no_duplicates(),
        side_starts(map, plant_at(map, first), dir, list) == region_starts(map, first, dir),
{
    let plant = plant_at(map, first);
    assert(list.skip(0) =~= list);
    assert forall|piece: (usize, usize)|
        list.contains(piece) <==> region_piece(map, first, dir, piece) by {
        if list.contains(piece) {
            assert(fence_piece(map, plant, before, after, 4, first, dir, piece));
            let (cell, index) = choose|cell: (int, int), index: int| #[trigger]
                new_fence(map, plant, before, after, 4, first, cell, index) && dir_of(index) == dir
                    && piece_of(cell, index) == piece;
            assert(same_region(map, first, cell));
            assert(region_fence(map, first, cell, index));
        }
        if region_piece(map, first, dir, piece) {
            let (cell, index) = choose|cell: (int, int), index: int| #[trigger]
                region_fence(map, first, cell, index) && dir_of(index) == dir && piece_of(
                    cell,
                    index,
                ) == piece;
            assert(same_region(map, first, cell));
            assert(new_fence(map, plant, before, after, 4, first, cell, index));
            assert(fence_piece(map, plant, before, after, 4, first, dir, piece));
        }
    }
    assert(side_starts(map, plant, dir, list) =~= region_starts(map, first, dir));
}

/// The sum, over the regions of the garden, of the area times the number of
/// straight sides of the fence.
pub fn solve_b(map: &Vec<Vec<char>>) -> (sum: usize)
    requires
        garden_valid(map@),
        side_price(map@) <= usize::MAX,
    ensures
        sum == side_price(map@),
{
    let num_cols = map[0].len();
    let mut visited = blank_marks(map.len(), num_cols);
    let ghost price = side_mark(map@);
    let ghost rows = map@.len();
    let ghost cols = map@[0]@.len();
    proof {
        lemma_swept_begins(map@, visited@);
    }

    let mut sum: usize = 0;

    let mut row: usize = 0;
    while row < map.len()
        invariant
            row <= map.len(),
            num_cols == cols,
            rows == map@.len(),
            cols == map@[0]@.len(),
            garden_valid(map@),
            price == side_mark(map@),
            sum_grid(rows, cols, price) <= usize::MAX,
            marks_shape(visited@, rows as int, cols as int),
            swept(map@, visited@, row as int, 0),
            sum == sum_below(row as nat, row_sums(cols, price)),
        decreases map.len() - row,
    {
        let ghost above = sum;
        let mut col: usize = 0;
        while col < num_cols
            invariant
                row < map.len(),
                col <= num_cols,
                num_cols == cols,
                rows == map@.len(),
                cols == map@[0]@.len(),
                garden_valid(map@),
                price == side_mark(map@),
                sum_grid(rows, cols, price) <= usize::MAX,
                marks_shape(visited@, rows as int, cols as int),
                swept(map@, visited@, row as int, col as int),
                above == sum_below(row as nat, row_sums(cols, price)),
                sum == above + sum_below(col as nat, at_row(price, row as int)),
            decreases num_cols - col,
        {
            proof {
                lemma_sum_grid_partial(rows, cols, price, row as nat, (col + 1) as nat);
                assert(map@[row as int].len() == map@[0].len());
            }
            if get_mark(&visited, row, col) {
                proof {
                    lemma_swept_marked(map@, visited@, row as int, col as int);
                }
            } else {
                let ghost before = visited@;
                let ghost first = (row as int, col as int);
                let mut perimeter = Perimeter::new();
                proof {
                    assert(perimeter.horizontal@ =~= Seq::<(usize, usize)>::empty());
                    assert(perimeter.vertical@ =~= Seq::<(usize, usize)>::empty());
                }

                let region_area = find_stats_b(
                    map,
                    &mut visited,
                    &mut perimeter,
                    row,
                    col,
                    map[row][col],
                );
                proof {
                    lemma_swept_searched(map@, before, visited@, row as int, col as int);
                    lemma_new_bounds(map@, map@[row as int]@[col as int], before, visited@);
                    reveal(plots);
                    lemma_region_pieces(
                        map@,
                        first,
                        before,
                        visited@,
                        Direction::Horizontal,
                        perimeter.horizontal@,
                    );
                    lemma_region_pieces(
                        map@,
                        first,
                        before,
                        visited@,
                        Direction::Vertical,
                        perimeter.vertical@,
                    );
                }

                let region_sides = find_region_sides(map, &mut perimeter, map[row][col]);
                proof {
                    assert(region_sides == self::region_sides(map@, first));
                    assert(price(row as int, col as int) == region_area * region_sides);
                }

                sum += region_area * region_sides;
            }
            col += 1;
        }
        proof {
            lemma_sum_grid_partial(rows, cols, price, row as nat, cols);
            lemma_swept_row(map@, visited@, row as int);
        }
        row += 1;
    }

    sum
}

} // verus!
