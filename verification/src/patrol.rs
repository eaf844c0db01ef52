//! A guard patrolling a lab: she walks straight on until an obstacle
//! stands before her, and then turns right.

use vstd::prelude::*;
use crate::counting::{at_row, row_sums, sum_below, sum_grid};
use crate::marks::{
    blank_marks, get_mark, lemma_mark_set, lemma_marked_bound, lemma_marked_none, mark_at, marked,
    marks_shape, set_mark,
};

verus! {

/// The direction in which the guard looks.
#[allow(non_camel_case_types)]
#[derive(Clone, Copy, Hash, PartialEq, Eq, Structural)]
pub enum DIR {
    UP,
    LEFT,
    RIGHT,
    DOWN,
}

/// The direction after a turn to the right.
pub open spec fn turned(dir: DIR) -> DIR {
    match dir {
        DIR::UP => DIR::RIGHT,
        DIR::RIGHT => DIR::DOWN,
        DIR::DOWN => DIR::LEFT,
        DIR::LEFT => DIR::UP,
    }
}

/// The step that the direction stands for: rows down and columns right.
pub open spec fn offset_of(dir: DIR) -> (int, int) {
    match dir {
        DIR::UP => (-1, 0),
        DIR::RIGHT => (0, 1),
        DIR::DOWN => (1, 0),
        DIR::LEFT => (0, -1),
    }
}

impl DIR {
    /// The direction after a turn to the right.
    pub fn rotate(self) -> (next: Self)
        ensures
            next == turned(self),
    {
        match self {
            Self::UP => Self::RIGHT,
            Self::RIGHT => Self::DOWN,
            Self::DOWN => Self::LEFT,
            Self::LEFT => Self::UP,
        }
    }

    /// The step that the direction stands for.
    pub fn to_offset(&self) -> (offset: (isize, isize))
        ensures
            (offset.0 as int, offset.1 as int) == offset_of(*self),
    {
        match self {
            Self::UP => (-1, 0),
            Self::RIGHT => (0, 1),
            Self::DOWN => (1, 0),
            Self::LEFT => (0, -1),
        }
    }
}

/// The lab is a rectangle of at least one cell, and every cell is free
/// (`.`), an obstacle (`#`) or the place where the guard starts (`^`).
pub open spec fn lab_valid(map: Seq<Vec<char>>) -> bool {
    &&& map.len() > 0
    &&& map[0].len() > 0
    &&& map.len() < isize::MAX
    &&& map[0].len() < isize::MAX
    &&& forall|r: int| 0 <= r < map.len() ==> (#[trigger] map[r]).len() == map[0].len()
    &&& forall|r: int, c: int|
        0 <= r < map.len() && 0 <= c < map[0].len() ==> {
            let tile = #[trigger] map[r]@[c];
            tile == '^' || tile == '.' || tile == '#'
        }
}

/// The tile of a cell, where a new obstacle may have been put.
pub open spec fn tile_at(map: Seq<Vec<char>>, obstacle: Option<(int, int)>, row: int, col: int) -> char {
    if obstacle == Some((row, col)) {
        '#'
    } else {
        map[row]@[col]
    }
}

/// The cell lies in the lab.
pub open spec fn in_lab(map: Seq<Vec<char>>, cell: (int, int)) -> bool {
    0 <= cell.0 < map.len() && 0 <= cell.1 < map[0].len()
}

/// The first column of the row in which the guard's mark stands, among the
/// first `upto` columns; `upto` if there is none.
pub open spec fn mark_in_row(map: Seq<Vec<char>>, obstacle: Option<(int, int)>, row: int, upto: int) -> int
    decreases upto,
{
    if upto <= 0 {
        0
    } else {
        let before = mark_in_row(map, obstacle, row, upto - 1);
        if before < upto - 1 {
            before
        } else if tile_at(map, obstacle, row, upto - 1) == '^' {
            upto - 1
        } else {
            upto
        }
    }
}

/// Where the guard starts: at the first mark of the last row that has one
/// among the first `upto` rows; in the upper left corner if there is none.
pub open spec fn start_in(map: Seq<Vec<char>>, obstacle: Option<(int, int)>, upto: int) -> (int, int)
    decreases upto,
{
    if upto <= 0 {
        (0, 0)
    } else {
        let col = mark_in_row(map, obstacle, upto - 1, map[0].len() as int);
        if col < map[0].len() {
            (upto - 1, col)
        } else {
            start_in(map, obstacle, upto - 1)
        }
    }
}

/// Where the guard starts.
pub open spec fn start_of(map: Seq<Vec<char>>, obstacle: Option<(int, int)>) -> (int, int) {
    start_in(map, obstacle, map.len() as int)
}

/// Where the guard stands and looks after a step, or nothing where the
/// step takes her out of the lab.
pub open spec fn patrol_step(
    map: Seq<Vec<char>>,
    obstacle: Option<(int, int)>,
    state: ((int, int), DIR),
) -> Option<((int, int), DIR)> {
    let (at, dir) = state;
    let next = (at.0 + offset_of(dir).0, at.1 + offset_of(dir).1);
    if !in_lab(map, next) {
        None
    } else if tile_at(map, obstacle, next.0, next.1) == '#' {
        Some((at, turned(dir)))
    } else {
        Some((next, dir))
    }
}

/// Where the guard stands and looks after a number of steps, or nothing
/// where she has left the lab by then.
pub open spec fn patrol(map: Seq<Vec<char>>, obstacle: Option<(int, int)>, steps: nat) -> Option<
    ((int, int), DIR),
>
    decreases steps,
{
    if steps == 0 {
        Some((start_of(map, obstacle), DIR::UP))
    } else {
        match patrol(map, obstacle, (steps - 1) as nat) {
            Some(state) => patrol_step(map, obstacle, state),
            None => None,
        }
    }
}

/// The guard leaves the lab.
pub open spec fn leaves(map: Seq<Vec<char>>, obstacle: Option<(int, int)>) -> bool {
    exists|steps: nat| patrol(map, obstacle, steps) is None
}

/// After the steps the guard stands on the cell.
pub open spec fn stands_on(
    map: Seq<Vec<char>>,
    obstacle: Option<(int, int)>,
    steps: nat,
    cell: (int, int),
) -> bool {
    patrol(map, obstacle, steps) matches Some(state) && state.0 == cell
}

/// The guard comes to the cell.
pub open spec fn comes_to(map: Seq<Vec<char>>, obstacle: Option<(int, int)>, cell: (int, int)) -> bool {
    exists|steps: nat| #[trigger] stands_on(map, obstacle, steps, cell)
}

/// The cells that the guard comes to.
pub open spec fn patrolled(map: Seq<Vec<char>>) -> Set<(int, int)> {
    Set::new(|cell: (int, int)| comes_to(map, None, cell))
}

/// Once the guard has left she stays away.
pub proof fn lemma_patrol_gone(map: Seq<Vec<char>>, obstacle: Option<(int, int)>, sooner: nat, later: nat)
    requires
        patrol(map, obstacle, sooner) is None,
        sooner <= later,
    ensures
        patrol(map, obstacle, later) is None,
    decreases later,
{
    if sooner < later {
        lemma_patrol_gone(map, obstacle, sooner, (later - 1) as nat);
    }
}

/// The start lies in the lab.
pub proof fn lemma_start_in_lab(map: Seq<Vec<char>>, obstacle: Option<(int, int)>, upto: int)
    requires
        map.len() > 0,
        map[0].len() > 0,
        0 <= upto <= map.len(),
    ensures
        in_lab(map, start_in(map, obstacle, upto)),
    decreases upto,
{
    if upto > 0 {
        lemma_mark_in_row(map, obstacle, upto - 1, map[0].len() as int);
        lemma_start_in_lab(map, obstacle, upto - 1);
    }
}

/// The mark found in a row lies among the columns looked at.
pub proof fn lemma_mark_in_row(map: Seq<Vec<char>>, obstacle: Option<(int, int)>, row: int, upto: int)
    requires
        0 <= upto,
    ensures
        0 <= mark_in_row(map, obstacle, row, upto) <= upto,
    decreases upto,
{
    if upto > 0 {
        lemma_mark_in_row(map, obstacle, row, upto - 1);
    }
}

/// The tile of a cell, where a new obstacle may have been put.
fn tile(map: &Vec<Vec<char>>, obstacle: Option<(usize, usize)>, row: usize, col: usize) -> (tile:
    char)
    requires
        row < map@.len(),
        col < map@[row as int].len(),
    ensures
        tile == tile_at(map@, spot(obstacle), row as int, col as int),
{
    match obstacle {
        Some((m_row, m_col)) => if m_row == row && m_col == col {
            '#'
        } else {
            map[row][col]
        },
        None => map[row][col],
    }
}

/// The cell of a new obstacle.
pub open spec fn spot(obstacle: Option<(usize, usize)>) -> Option<(int, int)> {
    match obstacle {
        Some(cell) => Some((cell.0 as int, cell.1 as int)),
        None => None,
    }
}

/// Finds where the guard starts.
fn find_start(map: &Vec<Vec<char>>, obstacle: Option<(usize, usize)>) -> (start: (isize, isize))
    requires
        lab_valid(map@),
    ensures
        (start.0 as int, start.1 as int) == start_of(map@, spot(obstacle)),
        in_lab(map@, (start.0 as int, start.1 as int)),
{
    let mut row = 0isize;
    let mut col = 0isize;
    let mut line_idx: usize = 0;
    while line_idx < map.len()
        invariant
            line_idx <= map.len(),
            lab_valid(map@),
            (row as int, col as int) == start_in(map@, spot(obstacle), line_idx as int),
        decreases map.len() - line_idx,
    {
        let mut at: usize = 0;
        assert(map@[line_idx as int].len() == map@[0].len());
        while at < map[line_idx].len() && tile(map, obstacle, line_idx, at) != '^'
            invariant
                line_idx < map.len(),
                at <= map@[line_idx as int].len(),
                map@[line_idx as int].len() == map@[0].len(),
                mark_in_row(map@, spot(obstacle), line_idx as int, at as int) == at,
            decreases map@[line_idx as int].len() - at,
        {
            at += 1;
        }
        proof {
            lemma_mark_stays(
                map@,
                spot(obstacle),
                line_idx as int,
                at as int,
                map@[0].len() as int,
            );
        }
        if at < map[line_idx].len() {
            row = line_idx as isize;
            col = at as isize;
        }
        line_idx += 1;
    }
    proof {
        lemma_start_in_lab(map@, spot(obstacle), map@.len() as int);
    }
    (row, col)
}

/// Once the mark of a row has been found, or the row has ended, looking at
/// more columns changes nothing.
pub proof fn lemma_mark_stays(
    map: Seq<Vec<char>>,
    obstacle: Option<(int, int)>,
    row: int,
    at: int,
    upto: int,
)
    requires
        0 <= at <= upto,
        mark_in_row(map, obstacle, row, at) == at,
        at < upto ==> tile_at(map, obstacle, row, at) == '^',
    ensures
        mark_in_row(map, obstacle, row, upto) == at,
    decreases upto,
{
    if at < upto {
        if at < upto - 1 {
            lemma_mark_stays(map, obstacle, row, at, upto - 1);
        }
    }
}

/// The cells that the guard comes to within a number of steps.
pub open spec fn walked(map: Seq<Vec<char>>, obstacle: Option<(int, int)>, steps: nat) -> Set<(int, int)> {
    Set::new(
        |cell: (int, int)|
            exists|sooner: nat| sooner <= steps && #[trigger] stands_on(map, obstacle, sooner, cell),
    )
}

/// The lab has no more cells than can be counted.
pub open spec fn lab_countable(map: Seq<Vec<char>>) -> bool {
    map.len() * map[0].len() <= usize::MAX / 4
}

/// One step of the guard: the next place and heading, or nothing when the
/// guard leaves the lab.
fn take_step(
    map: &Vec<Vec<char>>,
    obstacle: Option<(usize, usize)>,
    row: isize,
    col: isize,
    dir: DIR,
) -> (next: Option<(isize, isize, DIR)>)
    requires
        lab_valid(map@),
        in_lab(map@, (row as int, col as int)),
    ensures
        match next {
            Some(state) => patrol_step(map@, spot(obstacle), ((row as int, col as int), dir))
                == Some(((state.0 as int, state.1 as int), state.2)) && in_lab(
                map@,
                (state.0 as int, state.1 as int),
            ),
            None => patrol_step(map@, spot(obstacle), ((row as int, col as int), dir)) is None,
        },
{
    let (r_off, c_off) = dir.to_offset();

    let n_row = row + r_off;
    let n_col = col + c_off;
    if n_row < 0 || n_row >= map.len() as isize || n_col < 0 || n_col >= map[0].len() as isize {
        return None;
    }
    assert(n_row < map.len() && n_col < map[0].len());
    assert(map@[n_row as int].len() == map@[0].len());
    let found = tile(map, obstacle, n_row as usize, n_col as usize);
    assert(found == '#' || found == '^' || found == '.') by {
        let kept = map@[n_row as int]@[n_col as int];
        assert(kept == '^' || kept == '.' || kept == '#');
    }
    if found == '#' {
        Some((row, col, dir.rotate()))
    } else {
        Some((n_row, n_col, dir))
    }
}

/// The number of cells that the guard comes to before she leaves the lab.
pub fn solve_a(map: &Vec<Vec<char>>) -> (count: u64)
    requires
        lab_valid(map@),
        lab_countable(map@),
        leaves(map@, None),
    ensures
        count == patrolled(map@).len(),
{
    broadcast use vstd::set::group_set_axioms;

    let ghost total = choose|steps: nat| patrol(map@, None, steps) is None;
    let ghost rows = map@.len() as int;
    let ghost cols = map@[0].len() as int;
    let mut path = blank_marks(map.len(), map[0].len());
    let mut count: usize = 0;
    let ghost mut seen: Set<(int, int)> = Set::empty();
    let ghost mut steps: nat = 0;

    let (mut row, mut col) = find_start(map, None);
    let mut dir = DIR::UP;
    proof {
        lemma_marked_none(path@, rows, cols);
        assert(spot(None) == None::<(int, int)>);
    }

    loop
        invariant_except_break
            patrol(map@, None, steps) == Some(((row as int, col as int), dir)),
            steps < total,
            steps == 0 ==> seen =~= Set::<(int, int)>::empty(),
            steps > 0 ==> seen =~= walked(map@, None, (steps - 1) as nat),
        invariant
            rows == map@.len(),
            cols == map@[0].len(),
            lab_valid(map@),
            lab_countable(map@),
            patrol(map@, None, total) is None,
            in_lab(map@, (row as int, col as int)),
            marks_shape(path@, rows, cols),
            seen.finite(),
            count == seen.len(),
            count == marked(path@),
            forall|cell: (int, int)| in_lab(map@, cell) ==> (mark_at(path@, cell) <==> seen.contains(cell)),
            forall|cell: (int, int)| seen.contains(cell) ==> in_lab(map@, cell),
        ensures
            seen =~= patrolled(map@),
        decreases total - steps,
    {
        let ghost here = (row as int, col as int);
        let ghost before = path@;
        let ghost seen_before = seen;
        proof {
            if steps >= total {
                lemma_patrol_gone(map@, None, total, steps);
            }
            lemma_marked_bound(path@, rows, cols);
        }
        if !get_mark(&path, row as usize, col as usize) {
            set_mark(&mut path, row as usize, col as usize);
            count += 1;
            proof {
                lemma_mark_set(before, path@, rows, cols, here);
                seen = seen.insert(here);
            }
        }
        proof {
            assert(seen =~= walked(map@, None, steps)) by {
                assert forall|cell: (int, int)| seen.contains(cell) <==> walked(
                    map@,
                    None,
                    steps,
                ).contains(cell) by {
                    if cell == here {
                        assert(stands_on(map@, None, steps, cell));
                    }
                    if steps > 0 {
                        if seen_before.contains(cell) {
                            let sooner = choose|sooner: nat|
                                sooner <= steps - 1 && #[trigger] stands_on(map@, None, sooner, cell);
                            assert(sooner <= steps);
                        }
                    }
                    if walked(map@, None, steps).contains(cell) && cell != here {
                        let sooner = choose|sooner: nat|
                            sooner <= steps && #[trigger] stands_on(map@, None, sooner, cell);
                        assert(sooner <= steps - 1);
                    }
                }
            }
        }
        match take_step(map, None, row, col, dir) {
            None => {
                proof {
                    assert(patrol(map@, None, steps + 1) is None);
                    assert forall|cell: (int, int)| seen.contains(cell) <==> patrolled(
                        map@,
                    ).contains(cell) by {
                        if seen.contains(cell) {
                            let sooner = choose|sooner: nat|
                                sooner <= steps && #[trigger] stands_on(map@, None, sooner, cell);
                            assert(comes_to(map@, None, cell));
                        }
                        if comes_to(map@, None, cell) {
                            let when = choose|when: nat| #[trigger] stands_on(map@, None, when, cell);
                            if when > steps {
                                lemma_patrol_gone(map@, None, steps + 1, when);
                            }
                        }
                    }
                }
                break ;
            },
            Some((n_row, n_col, n_dir)) => {
                row = n_row;
                col = n_col;
                dir = n_dir;
                proof {
                    steps = steps + 1;
                    if steps >= total {
                        lemma_patrol_gone(map@, None, total, steps);
                    }
                }
            },
        }
    }

    count as u64
}

/// The guard never leaves the lab.
pub open spec fn trapped(map: Seq<Vec<char>>, obstacle: Option<(int, int)>) -> bool {
    forall|steps: nat| (#[trigger] patrol(map, obstacle, steps)) is Some
}

/// Where the guard stands after some steps as she stood before, she goes
/// on as she did then.
pub proof fn lemma_patrol_shift(
    map: Seq<Vec<char>>,
    obstacle: Option<(int, int)>,
    first: nat,
    second: nat,
    more: nat,
)
    requires
        patrol(map, obstacle, first) == patrol(map, obstacle, second),
    ensures
        patrol(map, obstacle, first + more) == patrol(map, obstacle, second + more),
    decreases more,
{
    if more > 0 {
        lemma_patrol_shift(map, obstacle, first, second, (more - 1) as nat);
    }
}

/// A guard who comes to stand as she stood before never leaves.
pub proof fn lemma_patrol_cycle(
    map: Seq<Vec<char>>,
    obstacle: Option<(int, int)>,
    first: nat,
    second: nat,
    steps: nat,
)
    requires
        first < second,
        patrol(map, obstacle, first) == patrol(map, obstacle, second),
        patrol(map, obstacle, second) is Some,
    ensures
        patrol(map, obstacle, steps) is Some,
    decreases steps,
{
    if steps <= second {
        if patrol(map, obstacle, steps) is None {
            lemma_patrol_gone(map, obstacle, steps, second);
        }
    } else {
        let back = (steps - (second - first)) as nat;
        lemma_patrol_cycle(map, obstacle, first, second, back);
        lemma_patrol_shift(map, obstacle, first, second, (steps - second) as nat);
        assert(first + (steps - second) == back);
    }
}

/// Whether the guard never leaves the lab once an obstacle has been put on
/// the cell.
fn walks_in_circles(map: &Vec<Vec<char>>, m_row: usize, m_col: usize, row: isize, col: isize) -> (is_option:
    bool)
    requires
        lab_valid(map@),
        lab_countable(map@),
        (row as int, col as int) == start_of(map@, Some((m_row as int, m_col as int))),
        in_lab(map@, (row as int, col as int)),
    ensures
        is_option == trapped(map@, Some((m_row as int, m_col as int))),
{
    let ghost obstacle = Some((m_row as int, m_col as int));
    let ghost rows = map@.len() as int;
    let ghost cols = map@[0].len() as int;
    let ghost cells = rows * cols;
    let mut path_up = blank_marks(map.len(), map[0].len());
    let mut path_left = blank_marks(map.len(), map[0].len());
    let mut path_right = blank_marks(map.len(), map[0].len());
    let mut path_down = blank_marks(map.len(), map[0].len());
    let ghost mut steps: nat = 0;
    let mut row = row;
    let mut col = col;
    let mut dir = DIR::UP;
    let mut is_option = false;
    proof {
        lemma_marked_none(path_up@, rows, cols);
        lemma_marked_none(path_left@, rows, cols);
        lemma_marked_none(path_right@, rows, cols);
        lemma_marked_none(path_down@, rows, cols);
        assert(spot(Some((m_row, m_col))) == obstacle);
    }
    loop
        invariant_except_break
            patrol(map@, obstacle, steps) == Some(((row as int, col as int), dir)),
            forall|cell: (int, int), d: DIR|
                in_lab(map@, cell) && #[trigger] mark_at(
                    pick(path_up@, path_left@, path_right@, path_down@, d),
                    cell,
                ) ==> exists|sooner: nat|
                    sooner < steps && #[trigger] patrol(map@, obstacle, sooner) == Some((cell, d)),
        invariant
            rows == map@.len(),
            cols == map@[0].len(),
            cells == rows * cols,
            obstacle == Some((m_row as int, m_col as int)),
            lab_valid(map@),
            lab_countable(map@),
            in_lab(map@, (row as int, col as int)),
            marks_shape(path_up@, rows, cols),
            marks_shape(path_left@, rows, cols),
            marks_shape(path_right@, rows, cols),
            marks_shape(path_down@, rows, cols),
            marked(path_up@) + marked(path_left@) + marked(path_right@) + marked(path_down@)
                <= 4 * cells,
        ensures
            is_option == trapped(map@, obstacle),
        decreases
            4 * cells - (marked(path_up@) + marked(path_left@) + marked(path_right@) + marked(
                path_down@,
            )),
    {
        let ghost here = (row as int, col as int);
        let ghost all = (path_up@, path_left@, path_right@, path_down@);
        let seen = match dir {
            DIR::UP => get_mark(&path_up, row as usize, col as usize),
            DIR::LEFT => get_mark(&path_left, row as usize, col as usize),
            DIR::RIGHT => get_mark(&path_right, row as usize, col as usize),
            DIR::DOWN => get_mark(&path_down, row as usize, col as usize),
        };
        if seen {
            proof {
                assert(mark_at(pick(path_up@, path_left@, path_right@, path_down@, dir), here));
                let sooner = choose|sooner: nat|
                    sooner < steps && #[trigger] patrol(map@, obstacle, sooner) == Some((here, dir));
                assert forall|later: nat| (#[trigger] patrol(map@, obstacle, later)) is Some by {
                    lemma_patrol_cycle(map@, obstacle, sooner, steps, later);
                }
            }
            is_option = true;
            break ;
        }
        match dir {
            DIR::UP => {
                set_mark(&mut path_up, row as usize, col as usize);
                proof {
                    lemma_mark_set(all.0, path_up@, rows, cols, here);
                    lemma_marked_bound(path_up@, rows, cols);
                }
            },
            DIR::LEFT => {
                set_mark(&mut path_left, row as usize, col as usize);
                proof {
                    lemma_mark_set(all.1, path_left@, rows, cols, here);
                    lemma_marked_bound(path_left@, rows, cols);
                }
            },
            DIR::RIGHT => {
                set_mark(&mut path_right, row as usize, col as usize);
                proof {
                    lemma_mark_set(all.2, path_right@, rows, cols, here);
                    lemma_marked_bound(path_right@, rows, cols);
                }
            },
            DIR::DOWN => {
                set_mark(&mut path_down, row as usize, col as usize);
                proof {
                    lemma_mark_set(all.3, path_down@, rows, cols, here);
                    lemma_marked_bound(path_down@, rows, cols);
                }
            },
        }
        proof {
            lemma_marked_bound(path_up@, rows, cols);
            lemma_marked_bound(path_left@, rows, cols);
            lemma_marked_bound(path_right@, rows, cols);
            lemma_marked_bound(path_down@, rows, cols);
            assert forall|cell: (int, int), d: DIR|
                in_lab(map@, cell) && #[trigger] mark_at(
                    pick(path_up@, path_left@, path_right@, path_down@, d),
                    cell,
                ) implies exists|sooner: nat|
                sooner < steps + 1 && #[trigger] patrol(map@, obstacle, sooner) == Some(
                    (cell, d),
                ) by {
                if cell == here && d == dir {
                    assert(patrol(map@, obstacle, steps) == Some((cell, d)));
                } else {
                    assert(mark_at(pick(all.0, all.1, all.2, all.3, d), cell));
                    let sooner = choose|sooner: nat|
                        sooner < steps && #[trigger] patrol(map@, obstacle, sooner) == Some(
                            (cell, d),
                        );
                    assert(sooner < steps + 1);
                }
            }
        }
        match take_step(map, Some((m_row, m_col)), row, col, dir) {
            None => {
                proof {
                    assert(patrol(map@, obstacle, steps + 1) is None);
                }
                is_option = false;
                break ;
            },
            Some((n_row, n_col, n_dir)) => {
                row = n_row;
                col = n_col;
                dir = n_dir;
                proof {
                    steps = steps + 1;
                }
            },
        }
    }
    is_option
}

/// The marks that belong to a direction.
pub open spec fn pick(
    up: Seq<Vec<bool>>,
    left: Seq<Vec<bool>>,
    right: Seq<Vec<bool>>,
    down: Seq<Vec<bool>>,
    dir: DIR,
) -> Seq<Vec<bool>> {
    match dir {
        DIR::UP => up,
        DIR::LEFT => left,
        DIR::RIGHT => right,
        DIR::DOWN => down,
    }
}

/// An obstacle on the cell leaves the guard her place and keeps her in the
/// lab for ever.
pub open spec fn traps(map: Seq<Vec<char>>, row: int, col: int) -> bool {
    start_of(map, Some((row, col))) != (row, col) && trapped(map, Some((row, col)))
}

/// One for a cell on which an obstacle traps the guard.
pub open spec fn trap_mark(map: Seq<Vec<char>>) -> spec_fn(int, int) -> nat {
    |row: int, col: int| if traps(map, row, col) { 1nat } else { 0nat }
}

/// The number of cells on which a new obstacle traps the guard.
pub open spec fn trap_count(map: Seq<Vec<char>>) -> nat {
    sum_grid(map.len(), map[0]@.len(), trap_mark(map))
}

/// The number of cells on which a new obstacle would keep the guard in the
/// lab for ever. The cell on which she starts once the obstacle stands does
/// not count.
pub fn solve_b(orig_map: &Vec<Vec<char>>) -> (options: u64)
    requires
        lab_valid(orig_map@),
        lab_countable(orig_map@),
    ensures
        options == trap_count(orig_map@),
{
    let ghost mark = trap_mark(orig_map@);
    let ghost rows = orig_map@.len();
    let ghost cols = orig_map@[0]@.len();
    let mut options: u64 = 0;
    let mut m_row: usize = 0;
    while m_row < orig_map.len()
        invariant
            m_row <= orig_map.len(),
            rows == orig_map@.len(),
            cols == orig_map@[0]@.len(),
            lab_valid(orig_map@),
            lab_countable(orig_map@),
            mark == trap_mark(orig_map@),
            options == sum_below(m_row as nat, row_sums(cols, mark)),
            options <= m_row * cols,
        decreases orig_map.len() - m_row,
    {
        let ghost above = options;
        let mut m_col: usize = 0;
        while m_col < orig_map[0].len()
            invariant
                m_row < orig_map.len(),
                m_col <= orig_map@[0].len(),
                rows == orig_map@.len(),
                cols == orig_map@[0]@.len(),
                lab_valid(orig_map@),
                lab_countable(orig_map@),
                mark == trap_mark(orig_map@),
                above == sum_below(m_row as nat, row_sums(cols, mark)),
                above <= m_row * cols,
                options == above + sum_below(m_col as nat, at_row(mark, m_row as int)),
                options <= above + m_col,
            decreases orig_map@[0].len() - m_col,
        {
            proof {
                assert(m_row * cols + m_col < rows * cols) by (nonlinear_arith)
                    requires
                        m_row < rows,
                        m_col < cols,
                ;
            }
            let (row, col) = find_start(orig_map, Some((m_row, m_col)));

            if !(row as usize == m_row && col as usize == m_col) {
                let is_option = walks_in_circles(orig_map, m_row, m_col, row, col);

                if is_option {
                    options += 1;
                }
            }
            m_col += 1;
        }
        proof {
            assert((m_row + 1) * cols == m_row * cols + cols) by (nonlinear_arith);
        }
        m_row += 1;
    }

    options
}

} // verus!
