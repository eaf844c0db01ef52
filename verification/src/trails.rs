//! Hiking trails on a map of heights: a trail starts at a trailhead and
//! climbs by one with every step until it comes to a height of nine.

use vstd::prelude::*;
use crate::counting::{
    lemma_sum_over_concat, lemma_sum_over_push, lemma_sum_over_same_members, lemma_sum_over_take,
    sum_over,
};
use rustc_hash::FxHashSet;

use crate::text::{all_lines, byte_grid, grid_view, is_digit, lines_of, rows_of};

verus! {

/// A set of cells, hashed by `rustc_hash`.
pub type CellSet = FxHashSet<(isize, isize)>;

/// `FxHashSet::default`: a set without members.
#[verifier::external_body]
fn cells_new() -> (set: CellSet)
    ensures
        set@ == Set::<(isize, isize)>::empty(),
{
    FxHashSet::default()
}

/// `HashSet::insert` on a set hashed by `rustc_hash`: the cell is a member
/// afterwards, and so is every cell that was one.
#[verifier::external_body]
fn cells_insert(set: &mut CellSet, cell: (isize, isize))
    ensures
        final(set)@ == old(set)@.insert(cell),
{
    set.insert(cell);
}

/// `HashSet::len` on a set hashed by `rustc_hash`: the number of members.
#[verifier::external_body]
fn cells_len(set: &CellSet) -> (count: usize)
    ensures
        count == set@.len(),
{
    set.len()
}

/// `HashSet::iter` on a set hashed by `rustc_hash`: every member once, in
/// an order that is not told.
#[verifier::external_body]
fn cells_list(set: &CellSet) -> (list: Vec<(isize, isize)>)
    ensures
        list@.no_duplicates(),
        forall|cell: (isize, isize)| list@.contains(cell) <==> set@.contains(cell),
{
    set.iter().copied().collect()
}

/// The map is a rectangle with at least one row; its positions are signed
/// numbers, and no height is the largest number.
pub open spec fn heights_valid(map: Seq<Vec<u32>>) -> bool {
    &&& map.len() > 0
    &&& map.len() < isize::MAX
    &&& map[0].len() < isize::MAX
    &&& forall|r: int| 0 <= r < map.len() ==> (#[trigger] map[r]).len() == map[0].len()
    &&& forall|r: int, c: int|
        0 <= r < map.len() && 0 <= c < map[0].len() ==> (#[trigger] map[r]@[c]) < u32::MAX
}

/// The cell lies on the map.
pub open spec fn on_map(map: Seq<Vec<u32>>, cell: (isize, isize)) -> bool {
    0 <= cell.0 < map.len() && 0 <= cell.1 < map[0].len()
}

/// The height of a cell.
pub open spec fn height_at(map: Seq<Vec<u32>>, cell: (isize, isize)) -> u32 {
    map[cell.0 as int]@[cell.1 as int]
}

/// The four cells next to a cell: above, below, left and right.
pub open spec fn next_to(cell: (isize, isize), index: int) -> (isize, isize) {
    if index == 0 {
        ((cell.0 - 1) as isize, cell.1)
    } else if index == 1 {
        ((cell.0 + 1) as isize, cell.1)
    } else if index == 2 {
        (cell.0, (cell.1 - 1) as isize)
    } else {
        (cell.0, (cell.1 + 1) as isize)
    }
}

/// A trail can step from the cell to its neighbour: the neighbour lies on
/// the map, one higher.
pub open spec fn climbs(map: Seq<Vec<u32>>, cell: (isize, isize), index: int) -> bool {
    on_map(map, next_to(cell, index)) && height_at(map, next_to(cell, index)) == height_at(
        map,
        cell,
    ) + 1
}

/// The number of trails from a cell to cells of height nine.
pub open spec fn rating(map: Seq<Vec<u32>>, cell: (isize, isize)) -> nat
    decreases u32::MAX - height_at(map, cell),
{
    if height_at(map, cell) == 9 || height_at(map, cell) >= u32::MAX {
        if height_at(map, cell) == 9 {
            1
        } else {
            0
        }
    } else {
        rating_over(map, cell, 4)
    }
}

/// The number of trails that leave a cell over one of its first `sides`
/// neighbours.
pub open spec fn rating_over(map: Seq<Vec<u32>>, cell: (isize, isize), sides: nat) -> nat
    decreases u32::MAX - height_at(map, cell), sides,
    when height_at(map, cell) < u32::MAX
{
    if sides == 0 {
        0
    } else {
        rating_over(map, cell, (sides - 1) as nat) + (if climbs(map, cell, sides - 1) {
            rating(map, next_to(cell, sides - 1))
        } else {
            0nat
        })
    }
}

/// A trail leads from the cell to the cell `top`, which has height nine.
pub open spec fn reaches(map: Seq<Vec<u32>>, cell: (isize, isize), top: (isize, isize)) -> bool
    decreases u32::MAX - height_at(map, cell),
{
    if height_at(map, cell) == 9 || height_at(map, cell) >= u32::MAX {
        height_at(map, cell) == 9 && cell == top
    } else {
        reaches_over(map, cell, top, 4)
    }
}

/// A trail leads from the cell over one of its first `sides` neighbours to
/// the cell `top`.
pub open spec fn reaches_over(
    map: Seq<Vec<u32>>,
    cell: (isize, isize),
    top: (isize, isize),
    sides: nat,
) -> bool
    decreases u32::MAX - height_at(map, cell), sides,
    when height_at(map, cell) < u32::MAX
{
    if sides == 0 {
        false
    } else {
        reaches_over(map, cell, top, (sides - 1) as nat) || (climbs(map, cell, sides - 1)
            && reaches(map, next_to(cell, sides - 1), top))
    }
}

/// The cells of height nine to which trails lead from a trailhead.
pub open spec fn tops_of(map: Seq<Vec<u32>>, head: (isize, isize)) -> Set<(isize, isize)> {
    Set::new(|top: (isize, isize)| reaches(map, head, top))
}

/// The number of steps that a search spends below a cell.
pub open spec fn search_steps(map: Seq<Vec<u32>>, cell: (isize, isize)) -> nat
    decreases u32::MAX - height_at(map, cell),
{
    if height_at(map, cell) == 9 || height_at(map, cell) >= u32::MAX {
        1
    } else {
        1 + steps_over(map, cell, 4)
    }
}

/// The number of steps that a search spends below the first `sides`
/// neighbours of a cell.
pub open spec fn steps_over(map: Seq<Vec<u32>>, cell: (isize, isize), sides: nat) -> nat
    decreases u32::MAX - height_at(map, cell), sides,
    when height_at(map, cell) < u32::MAX
{
    if sides == 0 {
        0
    } else {
        steps_over(map, cell, (sides - 1) as nat) + (if climbs(map, cell, sides - 1) {
            search_steps(map, next_to(cell, sides - 1))
        } else {
            0nat
        })
    }
}

/// Those of the first `sides` neighbours of a cell to which a trail can
/// step.
pub open spec fn climbing(map: Seq<Vec<u32>>, cell: (isize, isize), sides: nat) -> Seq<(isize, isize)>
    decreases sides,
{
    if sides == 0 {
        Seq::empty()
    } else if climbs(map, cell, sides - 1) {
        climbing(map, cell, (sides - 1) as nat).push(next_to(cell, sides - 1))
    } else {
        climbing(map, cell, (sides - 1) as nat)
    }
}

/// What the neighbours to which a trail can step add up to.
pub proof fn lemma_climbing(map: Seq<Vec<u32>>, cell: (isize, isize), sides: nat)
    requires
        height_at(map, cell) < u32::MAX,
        sides <= 4,
    ensures
        sum_over(climbing(map, cell, sides), |c: (isize, isize)| rating(map, c)) == rating_over(
            map,
            cell,
            sides,
        ),
        sum_over(climbing(map, cell, sides), |c: (isize, isize)| search_steps(map, c))
            == steps_over(map, cell, sides),
        forall|i: int|
            0 <= i < climbing(map, cell, sides).len() ==> on_map(
                map,
                #[trigger] climbing(map, cell, sides)[i],
            ),
        forall|top: (isize, isize)|
            reaches_over(map, cell, top, sides) <==> exists|i: int|
                0 <= i < climbing(map, cell, sides).len() && #[trigger] reaches(
                    map,
                    climbing(map, cell, sides)[i],
                    top,
                ),
    decreases sides,
{
    let rate = |c: (isize, isize)| rating(map, c);
    let work = |c: (isize, isize)| search_steps(map, c);
    if sides > 0 {
        let fewer = (sides - 1) as nat;
        lemma_climbing(map, cell, fewer);
        let before = climbing(map, cell, fewer);
        let after = climbing(map, cell, sides);
        let next = next_to(cell, sides - 1);
        if climbs(map, cell, sides - 1) {
            lemma_sum_over_push(before, next, rate);
            lemma_sum_over_push(before, next, work);
            assert forall|i: int| 0 <= i < after.len() implies on_map(map, #[trigger] after[i]) by {
                if i < before.len() {
                    assert(after[i] == before[i]);
                }
            }
        }
        assert forall|top: (isize, isize)|
            reaches_over(map, cell, top, sides) <==> exists|i: int|
                0 <= i < after.len() && #[trigger] reaches(map, after[i], top) by {
            if reaches_over(map, cell, top, fewer) {
                let i = choose|i: int|
                    0 <= i < before.len() && #[trigger] reaches(map, before[i], top);
                assert(after[i] == before[i]);
            }
            if climbs(map, cell, sides - 1) && reaches(map, next, top) {
                assert(after[after.len() - 1] == next);
            }
            if exists|i: int| 0 <= i < after.len() && #[trigger] reaches(map, after[i], top) {
                let i = choose|i: int| 0 <= i < after.len() && #[trigger] reaches(
                    map,
                    after[i],
                    top,
                );
                if i < before.len() {
                    assert(after[i] == before[i]);
                }
            }
        }
    }
}

/// A cell can be looked up on the map.
fn height_of(map: &Vec<Vec<u32>>, row: isize, col: isize) -> (height: u32)
    requires
        heights_valid(map@),
        on_map(map@, (row, col)),
    ensures
        height == height_at(map@, (row, col)),
        height < u32::MAX,
{
    assert(row < map.len() && col < map[0].len());
    assert(map@[row as int].len() == map@[0].len());
    map[row as usize][col as usize]
}

/// Follows all trails from a trailhead. Returns the number of cells of
/// height nine that they lead to, and the number of trails.
fn follow_trails(map: &Vec<Vec<u32>>, row: isize, col: isize) -> (found: (usize, u32))
    requires
        heights_valid(map@),
        on_map(map@, (row, col)),
        rating(map@, (row, col)) <= u32::MAX,
    ensures
        found.0 == tops_of(map@, (row, col)).len(),
        found.1 == rating(map@, (row, col)),
{
    broadcast use vstd::set::group_set_axioms;

    let ghost head = (row, col);
    let ghost rate = |c: (isize, isize)| rating(map@, c);
    let ghost work = |c: (isize, isize)| search_steps(map@, c);
    let num_rows = map.len() as isize;
    let num_cols = map[0].len() as isize;
    let mut reached_nines = cells_new();
    let mut rating: u32 = 0;

    let mut paths: Vec<(isize, isize)> = Vec::new();

    paths.push((row, col));
    proof {
        lemma_sum_over_push(Seq::<(isize, isize)>::empty(), head, rate);
        assert(paths@ =~= Seq::<(isize, isize)>::empty().push(head));
    }

    while paths.len() > 0
        invariant
            heights_valid(map@),
            num_rows == map@.len(),
            num_cols == map@[0].len(),
            rate == (|c: (isize, isize)| self::rating(map@, c)),
            work == (|c: (isize, isize)| search_steps(map@, c)),
            self::rating(map@, head) <= u32::MAX,
            rating + sum_over(paths@, rate) == self::rating(map@, head),
            reached_nines@.finite(),
            forall|i: int| 0 <= i < paths@.len() ==> on_map(map@, #[trigger] paths@[i]),
            forall|top: (isize, isize)| reached_nines@.contains(top) ==> reaches(map@, head, top),
            forall|i: int, top: (isize, isize)|
                0 <= i < paths@.len() && #[trigger] reaches(map@, paths@[i], top) ==> reaches(
                    map@,
                    head,
                    top,
                ),
            forall|top: (isize, isize)|
                reaches(map@, head, top) ==> reached_nines@.contains(top) || exists|i: int|
                    0 <= i < paths@.len() && #[trigger] reaches(map@, paths@[i], top),
        decreases sum_over(paths@, work),
    {
        let ghost stack = paths@;
        let (row, col) = paths.pop().unwrap();
        let ghost here = (row, col);
        let ghost rest = paths@;
        proof {
            assert(stack.last() == here);
            assert(rest == stack.drop_last());
            assert(on_map(map@, stack[stack.len() - 1]));
        }

        let height = height_of(map, row, col);

        if height == 9 {
            let ghost before = reached_nines@;
            cells_insert(&mut reached_nines, (row, col));
            rating += 1;
            proof {
                assert forall|top: (isize, isize)| reaches(map@, head, top) implies reached_nines@.contains(
                    top,
                ) || exists|i: int| 0 <= i < rest.len() && #[trigger] reaches(map@, rest[i], top) by {
                    if !before.contains(top) {
                        let i = choose|i: int|
                            0 <= i < stack.len() && #[trigger] reaches(map@, stack[i], top);
                        if i < rest.len() {
                            assert(rest[i] == stack[i]);
                        }
                    }
                }
                assert(reaches(map@, stack[stack.len() - 1], here));
            }
            continue ;
        }
        let target_height = height + 1;
        proof {
            lemma_climbing(map@, here, 0);
        }

        let mut side: usize = 0;
        while side < 4
            invariant
                side <= 4,
                heights_valid(map@),
                num_rows == map@.len(),
                num_cols == map@[0].len(),
                on_map(map@, here),
                here == (row, col),
                height == height_at(map@, here),
                height != 9,
                target_height == height + 1,
                paths@ == rest + climbing(map@, here, side as nat),
            decreases 4 - side,
        {
            let (row_off, col_off): (isize, isize) = match side {
                0 => (-1, 0),
                1 => (1, 0),
                2 => (0, -1),
                _ => (0, 1),
            };
            let n_row = row + row_off;
            let n_col = col + col_off;
            assert((n_row, n_col) == next_to(here, side as int));

            if !(n_row < 0 || n_row >= num_rows || n_col < 0 || n_col >= num_cols) {
                if height_of(map, n_row, n_col) == target_height {
                    paths.push((n_row, n_col));
                }
            }
            proof {
                assert(paths@ =~= rest + climbing(map@, here, (side + 1) as nat));
            }
            side += 1;
        }
        proof {
            let pushed = climbing(map@, here, 4);
            lemma_climbing(map@, here, 4);
            lemma_sum_over_concat(rest, pushed, rate);
            lemma_sum_over_concat(rest, pushed, work);
            assert forall|i: int| 0 <= i < paths@.len() implies on_map(map@, #[trigger] paths@[i]) by {
                if i < rest.len() {
                    assert(paths@[i] == stack[i]);
                } else {
                    assert(paths@[i] == pushed[i - rest.len()]);
                }
            }
            assert forall|i: int, top: (isize, isize)|
                0 <= i < paths@.len() && #[trigger] reaches(map@, paths@[i], top) implies reaches(
                map@,
                head,
                top,
            ) by {
                if i < rest.len() {
                    assert(paths@[i] == stack[i]);
                } else {
                    assert(paths@[i] == pushed[i - rest.len()]);
                    assert(reaches_over(map@, here, top, 4));
                    assert(reaches(map@, stack[stack.len() - 1], top));
                }
            }
            assert forall|top: (isize, isize)| reaches(map@, head, top) implies reached_nines@.contains(
                top,
            ) || exists|i: int| 0 <= i < paths@.len() && #[trigger] reaches(map@, paths@[i], top) by {
                if !reached_nines@.contains(top) {
                    let i = choose|i: int|
                        0 <= i < stack.len() && #[trigger] reaches(map@, stack[i], top);
                    if i < rest.len() {
                        assert(paths@[i] == stack[i]);
                    } else {
                        assert(reaches_over(map@, here, top, 4));
                        let j = choose|j: int|
                            0 <= j < pushed.len() && #[trigger] reaches(map@, pushed[j], top);
                        assert(paths@[rest.len() + j] == pushed[j]);
                    }
                }
            }
        }
    }
    proof {
        assert(reached_nines@ =~= tops_of(map@, head));
    }

    (cells_len(&reached_nines), rating)
}

/// The list holds the members of the set, each once.
pub open spec fn lists(heads: Seq<(isize, isize)>, set: Set<(isize, isize)>) -> bool {
    heads.no_duplicates() && forall|cell: (isize, isize)| heads.contains(cell) <==> set.contains(cell)
}

/// The score of a trailhead: the number of cells of height nine to which
/// trails lead from it.
pub open spec fn score_of(map: Seq<Vec<u32>>) -> spec_fn((isize, isize)) -> nat {
    |head: (isize, isize)| tops_of(map, head).len()
}

/// The rating of a trailhead: the number of trails that begin at it.
pub open spec fn rating_of(map: Seq<Vec<u32>>) -> spec_fn((isize, isize)) -> nat {
    |head: (isize, isize)| rating(map, head)
}

/// The sum of the scores and the sum of the ratings of the trailheads.
pub fn solve(map: &Vec<Vec<u32>>, trailheads: &CellSet) -> (sums: (u32, u32))
    requires
        heights_valid(map@),
        forall|head: (isize, isize)| trailheads@.contains(head) ==> on_map(map@, head),
        forall|heads: Seq<(isize, isize)>|
            lists(heads, trailheads@) ==> sum_over(heads, score_of(map@)) <= u32::MAX && sum_over(
                heads,
                rating_of(map@),
            ) <= u32::MAX,
    ensures
        forall|heads: Seq<(isize, isize)>|
            lists(heads, trailheads@) ==> sums.0 == sum_over(heads, score_of(map@)) && sums.1
                == sum_over(heads, rating_of(map@)),
{
    let heads = cells_list(trailheads);
    let ghost score = score_of(map@);
    let ghost rate = rating_of(map@);
    assert(lists(heads@, trailheads@));

    let mut reached_nines_sum: u32 = 0;
    let mut rating_sum: u32 = 0;
    let mut at: usize = 0;
    proof {
        assert(heads@.take(0) =~= Seq::<(isize, isize)>::empty());
    }
    while at < heads.len()
        invariant
            at <= heads.len(),
            heights_valid(map@),
            score == score_of(map@),
            rate == rating_of(map@),
            forall|i: int| 0 <= i < heads@.len() ==> on_map(map@, #[trigger] heads@[i]),
            sum_over(heads@, score) <= u32::MAX,
            sum_over(heads@, rate) <= u32::MAX,
            reached_nines_sum == sum_over(heads@.take(at as int), score),
            rating_sum == sum_over(heads@.take(at as int), rate),
        decreases heads.len() - at,
    {
        let (row, col) = heads[at];
        proof {
            let next = heads@.take(at + 1);
            assert(next.drop_last() =~= heads@.take(at as int));
            assert(next.last() == heads@[at as int]);
            lemma_sum_over_take(heads@, score, at + 1);
            lemma_sum_over_take(heads@, rate, at + 1);
        }
        let (reached, rating) = follow_trails(map, row, col);

        reached_nines_sum += reached as u32;
        rating_sum += rating;
        at += 1;
    }
    proof {
        assert(heads@.take(at as int) =~= heads@);
        assert forall|other: Seq<(isize, isize)>| lists(other, trailheads@) implies reached_nines_sum
            == sum_over(other, score_of(map@)) && rating_sum == sum_over(
            other,
            rating_of(map@),
        ) by {
            lemma_sum_over_same_members(heads@, other, score);
            lemma_sum_over_same_members(heads@, other, rate);
        }
    }
    (reached_nines_sum, rating_sum)
}

/// The cell at row `r` and column `c` holds the digit 0, and `cell` is its
/// position.
pub open spec fn head_at(rows: Seq<Seq<u8>>, r: int, c: int, cell: (isize, isize)) -> bool {
    &&& 0 <= r < rows.len()
    &&& 0 <= c < rows[r].len()
    &&& rows[r][c] == 0x30
    &&& cell == (r as isize, c as isize)
}

/// The positions of the digits 0 that come before column `c` of row `r`.
pub open spec fn heads_before(rows: Seq<Seq<u8>>, r: int, c: int) -> Set<(isize, isize)> {
    Set::new(
        |cell: (isize, isize)|
            exists|i: int, j: int| #[trigger] head_at(rows, i, j, cell) && (i < r || (i == r && j < c)),
    )
}

/// The positions of the digits 0: the trailheads.
pub open spec fn heads_of(rows: Seq<Seq<u8>>) -> Set<(isize, isize)> {
    heads_before(rows, rows.len() as int, 0)
}

/// Every byte of the rows is a digit.
pub open spec fn all_heights(rows: Seq<Seq<u8>>) -> bool {
    forall|r: int, c: int| 0 <= r < rows.len() && 0 <= c < rows[r].len() ==> is_digit(#[trigger] rows[r][c])
}

/// The map holds the heights that the digits of the rows stand for.
pub open spec fn heights_shown(rows: Seq<Seq<u8>>, map: Seq<Vec<u32>>) -> bool {
    &&& map.len() == rows.len()
    &&& forall|r: int| 0 <= r < rows.len() ==> (#[trigger] map[r])@.len() == rows[r].len()
    &&& forall|r: int, c: int|
        0 <= r < rows.len() && 0 <= c < rows[r].len() ==> #[trigger] map[r]@[c] == rows[r][c] - 0x30
}

/// Reads a map of heights, one row of digits on each line, and the places
/// of its trailheads, the cells of height 0. There is no map where a line
/// holds anything but digits.
pub fn parse(input: &[u8]) -> (parsed: Option<(Vec<Vec<u32>>, CellSet)>)
    ensures
        parsed is Some == all_heights(rows_of(input@, lines_of(input@, 0, input@.len() as int))),
        parsed matches Some(found) ==> heights_shown(
            rows_of(input@, lines_of(input@, 0, input@.len() as int)),
            found.0@,
        ) && found.1@ == heads_of(rows_of(input@, lines_of(input@, 0, input@.len() as int))),
{
    let lines = all_lines(input);
    let grid = byte_grid(input, &lines);
    let ghost rows = rows_of(input@, lines@);
    let mut trailheads = cells_new();
    let mut map: Vec<Vec<u32>> = Vec::new();
    let mut row_idx: usize = 0;
    assert(trailheads@ =~= heads_before(rows, 0, 0));
    while row_idx < grid.len()
        invariant
            row_idx <= grid.len(),
            grid_view(grid@) == rows,
            rows == rows_of(input@, lines_of(input@, 0, input@.len() as int)),
            map@.len() == row_idx,
            forall|r: int| 0 <= r < row_idx ==> (#[trigger] map@[r])@.len() == rows[r].len(),
            forall|r: int, c: int|
                0 <= r < row_idx && 0 <= c < rows[r].len() ==> is_digit(#[trigger] rows[r][c]),
            forall|r: int, c: int|
                0 <= r < row_idx && 0 <= c < rows[r].len() ==> #[trigger] map@[r]@[c] == rows[r][c]
                    - 0x30,
            trailheads@ == heads_before(rows, row_idx as int, 0),
        decreases grid.len() - row_idx,
    {
        let row = &grid[row_idx];
        assert(row@ == rows[row_idx as int]);
        let mut heights: Vec<u32> = Vec::new();
        let mut col_idx: usize = 0;
        while col_idx < row.len()
            invariant
                col_idx <= row.len(),
                row_idx < grid.len(),
                grid_view(grid@) == rows,
                rows == rows_of(input@, lines_of(input@, 0, input@.len() as int)),
                row@ == rows[row_idx as int],
                heights@.len() == col_idx,
                forall|c: int| 0 <= c < col_idx ==> is_digit(#[trigger] row@[c]),
                forall|c: int| 0 <= c < col_idx ==> #[trigger] heights@[c] == row@[c] - 0x30,
                trailheads@ == heads_before(rows, row_idx as int, col_idx as int),
            decreases row.len() - col_idx,
        {
            let c = row[col_idx];
            if c < 0x30 || c > 0x39 {
                proof {
                    assert(rows.len() == grid@.len());
                    assert(rows[row_idx as int] == grid@[row_idx as int]@);
                    assert(rows[row_idx as int][col_idx as int] == c);
                    assert(!is_digit(rows[row_idx as int][col_idx as int]));
                    assert(!all_heights(rows));
                }
                return None;
            }
            let ghost before = trailheads@;
            if c == 0x30 {
                cells_insert(
                    &mut trailheads,
                    (#[verifier::truncate] (row_idx as isize), #[verifier::truncate] (col_idx as isize)),
                );
            }
            heights.push((c - 0x30) as u32);
            proof {
                let next = heads_before(rows, row_idx as int, col_idx + 1);
                assert forall|cell: (isize, isize)| trailheads@.contains(cell) == next.contains(
                    cell,
                ) by {
                    if before.contains(cell) {
                        let (i, j) = choose|i: int, j: int| #[trigger]
                            head_at(rows, i, j, cell) && (i < row_idx || (i == row_idx && j
                                < col_idx));
                        assert(head_at(rows, i, j, cell));
                    }
                    if c == 0x30 && cell == (row_idx as isize, col_idx as isize) {
                        assert(head_at(rows, row_idx as int, col_idx as int, cell));
                    }
                    if next.contains(cell) {
                        let (i, j) = choose|i: int, j: int| #[trigger]
                            head_at(rows, i, j, cell) && (i < row_idx || (i == row_idx && j
                                < col_idx + 1));
                        if i == row_idx && j == col_idx {
                        } else {
                            assert(head_at(rows, i, j, cell));
                            assert(before.contains(cell));
                        }
                    }
                }
                assert(trailheads@ =~= next);
            }
            col_idx += 1;
        }
        map.push(heights);
        proof {
            let here = heads_before(rows, row_idx as int, col_idx as int);
            let next = heads_before(rows, row_idx + 1, 0);
            assert forall|cell: (isize, isize)| here.contains(cell) == next.contains(cell) by {
                if here.contains(cell) {
                    let (i, j) = choose|i: int, j: int| #[trigger]
                        head_at(rows, i, j, cell) && (i < row_idx || (i == row_idx && j < col_idx));
                    assert(head_at(rows, i, j, cell));
                }
                if next.contains(cell) {
                    let (i, j) = choose|i: int, j: int| #[trigger]
                        head_at(rows, i, j, cell) && (i < row_idx + 1 || (i == row_idx + 1 && j
                            < 0));
                    assert(head_at(rows, i, j, cell));
                }
            }
            assert(here =~= next);
        }
        row_idx += 1;
    }
    Some((map, trailheads))
}

} // verus!
