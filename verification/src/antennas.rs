//! Antennas on a roof: two antennas of the same frequency make antinodes
//! on the line through them.

use vstd::prelude::*;
use crate::marks::{
    blank_marks, get_mark, lemma_mark_set, lemma_marked_bound, lemma_marked_none, mark_at, marked,
    marks_shape, set_mark,
};

use crate::text::{all_lines, byte_grid, grid_view, lines_of, occurrences, rows_of};

verus! {

/// The position lies on the roof.
pub open spec fn on_roof(pos: (int, int), num_rows: int, num_cols: int) -> bool {
    0 <= pos.0 < num_rows && 0 <= pos.1 < num_cols
}

/// The position is an antinode of the two antennas: with `restricted` it
/// lies as far beyond one of them as they lie apart; without, it is any
/// position that is reached from one of them by steps as large as they lie
/// apart.
pub open spec fn node_of(a: (int, int), b: (int, int), restricted: bool, pos: (int, int)) -> bool {
    if restricted {
        pos == (2 * a.0 - b.0, 2 * a.1 - b.1) || pos == (2 * b.0 - a.0, 2 * b.1 - a.1)
    } else {
        exists|k: int| #[trigger] on_line(a, b, k) == pos
    }
}

/// The position `k` steps from `a`, a step being as large as `b` lies from
/// `a`.
pub open spec fn on_line(a: (int, int), b: (int, int), k: int) -> (int, int) {
    (a.0 + k * (b.0 - a.0), a.1 + k * (b.1 - a.1))
}

/// The antennas are two different ones of one frequency.
pub open spec fn is_pair(antennas: Seq<Vec<(isize, isize)>>, g: int, i: int, j: int) -> bool {
    0 <= g < antennas.len() && 0 <= i < j < antennas[g]@.len()
}

/// The position of an antenna.
pub open spec fn antenna(antennas: Seq<Vec<(isize, isize)>>, g: int, i: int) -> (int, int) {
    (antennas[g]@[i].0 as int, antennas[g]@[i].1 as int)
}

/// The position is an antinode on the roof.
pub open spec fn is_antinode(
    antennas: Seq<Vec<(isize, isize)>>,
    num_rows: int,
    num_cols: int,
    restricted: bool,
    pos: (int, int),
) -> bool {
    on_roof(pos, num_rows, num_cols) && exists|g: int, i: int, j: int| #[trigger]
        is_pair(antennas, g, i, j) && node_of(
            antenna(antennas, g, i),
            antenna(antennas, g, j),
            restricted,
            pos,
        )
}

/// The antinodes on the roof.
pub open spec fn antinodes(
    antennas: Seq<Vec<(isize, isize)>>,
    num_rows: int,
    num_cols: int,
    restricted: bool,
) -> Set<(int, int)> {
    Set::new(|pos: (int, int)| is_antinode(antennas, num_rows, num_cols, restricted, pos))
}

/// The antennas stand on the roof, no two of one frequency at one
/// position, and the roof is small enough for positions up to three times
/// its size to be signed numbers.
pub open spec fn antennas_valid(antennas: Seq<Vec<(isize, isize)>>, num_rows: int, num_cols: int) -> bool {
    &&& 3 * num_rows <= isize::MAX
    &&& 3 * num_cols <= isize::MAX
    &&& num_rows * num_cols <= usize::MAX
    &&& forall|g: int, i: int|
        0 <= g < antennas.len() && 0 <= i < antennas[g]@.len() ==> on_roof(
            #[trigger] antenna(antennas, g, i),
            num_rows,
            num_cols,
        )
    &&& forall|g: int, i: int, j: int| #[trigger]
        is_pair(antennas, g, i, j) ==> antenna(antennas, g, i) != antenna(antennas, g, j)
}

/// The pair comes before the place that the count has come to.
pub open spec fn pair_done(g: int, i: int, j: int, at: (int, int, int)) -> bool {
    g < at.0 || (g == at.0 && (i < at.1 || (i == at.1 && j < at.2)))
}

/// The positions marked are the antinodes of the pairs that are done.
pub open spec fn marks_done(
    antennas: Seq<Vec<(isize, isize)>>,
    num_rows: int,
    num_cols: int,
    restricted: bool,
    seen: Set<(int, int)>,
    at: (int, int, int),
) -> bool {
    forall|pos: (int, int)|
        seen.contains(pos) <==> on_roof(pos, num_rows, num_cols) && exists|g: int, i: int, j: int| #[trigger]
            is_pair(antennas, g, i, j) && pair_done(g, i, j, at) && node_of(
                antenna(antennas, g, i),
                antenna(antennas, g, j),
                restricted,
                pos,
            )
}

/// The state of the count: the marks, their number, and what they stand
/// for.
pub struct Roof {
    pub marks: Vec<Vec<bool>>,
    pub count: usize,
    pub seen: Ghost<Set<(int, int)>>,
}

impl Roof {
    /// The marks are those of the set, and their number is counted.
    pub open spec fn fits(&self, num_rows: int, num_cols: int) -> bool {
        &&& marks_shape(self.marks@, num_rows, num_cols)
        &&& self.seen@.finite()
        &&& self.count == self.seen@.len()
        &&& self.count == marked(self.marks@)
        &&& num_rows * num_cols <= usize::MAX
        &&& forall|pos: (int, int)|
            on_roof(pos, num_rows, num_cols) ==> (mark_at(self.marks@, pos) <==> self.seen@.contains(
                pos,
            ))
        &&& forall|pos: (int, int)| self.seen@.contains(pos) ==> on_roof(pos, num_rows, num_cols)
    }

    /// Marks a position of the roof.
    fn insert(&mut self, row: isize, col: isize, Ghost(num_rows): Ghost<int>, Ghost(num_cols): Ghost<int>)
        requires
            old(self).fits(num_rows, num_cols),
            on_roof((row as int, col as int), num_rows, num_cols),
        ensures
            final(self).fits(num_rows, num_cols),
            final(self).seen@ == old(self).seen@.insert((row as int, col as int)),
    {
        broadcast use vstd::set::group_set_axioms;

        let ghost before = self.marks@;
        proof {
            lemma_marked_bound(before, num_rows, num_cols);
        }
        if !get_mark(&self.marks, row as usize, col as usize) {
            set_mark(&mut self.marks, row as usize, col as usize);
            proof {
                lemma_mark_set(before, self.marks@, num_rows, num_cols, (row as int, col as int));
                lemma_marked_bound(self.marks@, num_rows, num_cols);
            }
            self.count += 1;
        }
        proof {
            self.seen@ = self.seen@.insert((row as int, col as int));
        }
    }
}

/// Further steps in one direction lead no nearer to the roof: once a
/// position on the line lies off the roof, those beyond it do too.
pub proof fn lemma_line_leaves(
    a: (int, int),
    b: (int, int),
    num_rows: int,
    num_cols: int,
    near: int,
    far: int,
)
    requires
        on_roof(a, num_rows, num_cols),
        !on_roof(on_line(a, b, near), num_rows, num_cols),
        (0 <= near <= far) || (far <= near <= 0),
    ensures
        !on_roof(on_line(a, b, far), num_rows, num_cols),
{
    lemma_line_start(a, b);
    lemma_steps_mono(near, far, b.0 - a.0);
    lemma_steps_mono(near, far, b.1 - a.1);
}

/// No step from an antenna is the antenna.
pub proof fn lemma_line_start(a: (int, int), b: (int, int))
    ensures
        on_line(a, b, 0) == a,
{
    assert(0 * (b.0 - a.0) == 0 && 0 * (b.1 - a.1) == 0) by (nonlinear_arith);
}

/// More steps in one direction lead further that way.
pub proof fn lemma_steps_mono(near: int, far: int, step: int)
    requires
        (0 < near <= far) || (far <= near < 0),
    ensures
        step >= 0 && near > 0 ==> 0 <= near * step <= far * step,
        step <= 0 && near > 0 ==> 0 >= near * step >= far * step,
        step >= 0 && near < 0 ==> 0 >= near * step >= far * step,
        step <= 0 && near < 0 ==> 0 <= near * step <= far * step,
{
    let more = far - near;
    assert(far * step == near * step + more * step) by (nonlinear_arith)
        requires
            more == far - near,
    ;
    if step >= 0 {
        if near > 0 {
            assert(near * step >= 0 && more * step >= 0) by (nonlinear_arith)
                requires
                    near >= 0,
                    more >= 0,
                    step >= 0,
            ;
        } else {
            assert(near * step <= 0 && more * step <= 0) by (nonlinear_arith)
                requires
                    near <= 0,
                    more <= 0,
                    step >= 0,
            ;
        }
    } else {
        if near > 0 {
            assert(near * step <= 0 && more * step <= 0) by (nonlinear_arith)
                requires
                    near >= 0,
                    more >= 0,
                    step <= 0,
            ;
        } else {
            assert(near * step >= 0 && more * step >= 0) by (nonlinear_arith)
                requires
                    near <= 0,
                    more <= 0,
                    step <= 0,
            ;
        }
    }
}

/// A position on the roof lies fewer steps from an antenna than the roof
/// is long and wide.
pub proof fn lemma_line_short(a: (int, int), b: (int, int), num_rows: int, num_cols: int, k: int)
    requires
        on_roof(a, num_rows, num_cols),
        on_roof(on_line(a, b, k), num_rows, num_cols),
        a != b,
    ensures
        -(num_rows + num_cols) < k < num_rows + num_cols,
{
    let dx = b.0 - a.0;
    let dy = b.1 - a.1;
    assert(-(num_rows + num_cols) < k < num_rows + num_cols) by (nonlinear_arith)
        requires
            -num_rows < k * dx < num_rows,
            -num_cols < k * dy < num_cols,
            dx != 0 || dy != 0,
            num_rows > 0,
            num_cols > 0,
    ;
}

/// Marks the antinodes of two antennas on the roof.
fn mark_antinodes(
    roof: &mut Roof,
    a: (isize, isize),
    b: (isize, isize),
    num_rows: usize,
    num_cols: usize,
    restrict_distance: bool,
)
    requires
        old(roof).fits(num_rows as int, num_cols as int),
        3 * num_rows <= isize::MAX,
        3 * num_cols <= isize::MAX,
        on_roof((a.0 as int, a.1 as int), num_rows as int, num_cols as int),
        on_roof((b.0 as int, b.1 as int), num_rows as int, num_cols as int),
        a != b,
    ensures
        final(roof).fits(num_rows as int, num_cols as int),
        forall|pos: (int, int)|
            final(roof).seen@.contains(pos) <==> old(roof).seen@.contains(pos) || (on_roof(
                pos,
                num_rows as int,
                num_cols as int,
            ) && node_of((a.0 as int, a.1 as int), (b.0 as int, b.1 as int), restrict_distance, pos)),
{
    let ghost from = (a.0 as int, a.1 as int);
    let ghost to = (b.0 as int, b.1 as int);
    let ghost rows = num_rows as int;
    let ghost cols = num_cols as int;
    let ghost given = roof.seen@;
    let diff = (b.0 - a.0, b.1 - a.1);

    if restrict_distance {
        let loc_a = (a.0 - diff.0, a.1 - diff.1);
        let loc_b = (b.0 + diff.0, b.1 + diff.1);

        if loc_a.0 >= 0 && loc_a.0 < num_rows as isize && loc_a.1 >= 0 && loc_a.1
            < num_cols as isize {
            roof.insert(loc_a.0, loc_a.1, Ghost(rows), Ghost(cols));
        }

        if loc_b.0 >= 0 && loc_b.0 < num_rows as isize && loc_b.1 >= 0 && loc_b.1
            < num_cols as isize {
            roof.insert(loc_b.0, loc_b.1, Ghost(rows), Ghost(cols));
        }
    } else {
        let mut cur_pos = a;
        let ghost mut k: int = 0;
        proof {
            lemma_line_start(from, to);
        }
        loop
            invariant_except_break
                on_roof(on_line(from, to, k), rows, cols) ==> k < rows + cols,
            invariant
                0 <= k <= rows + cols,
                rows == num_rows,
                cols == num_cols,
                3 * num_rows <= isize::MAX,
                3 * num_cols <= isize::MAX,
                from == (a.0 as int, a.1 as int),
                to == (b.0 as int, b.1 as int),
                diff == ((b.0 - a.0) as isize, (b.1 - a.1) as isize),
                on_roof(from, rows, cols),
                on_roof(to, rows, cols),
                from != to,
                roof.fits(rows, cols),
                (cur_pos.0 as int, cur_pos.1 as int) == on_line(from, to, k),
                forall|pos: (int, int)| #[trigger]
                    roof.seen@.contains(pos) <==> given.contains(pos) || exists|m: int|
                        0 <= m < k && #[trigger] on_line(from, to, m) == pos,
            ensures
                !on_roof(on_line(from, to, k), rows, cols),
            decreases rows + cols - k,
        {
            if !(cur_pos.0 >= 0 && cur_pos.0 < num_rows as isize && cur_pos.1 >= 0 && cur_pos.1
                < num_cols as isize) {
                break ;
            }
            proof {
                lemma_line_short(from, to, rows, cols, k);
            }
            let ghost before = roof.seen@;
            roof.insert(cur_pos.0, cur_pos.1, Ghost(rows), Ghost(cols));
            cur_pos = (cur_pos.0 + diff.0, cur_pos.1 + diff.1);
            proof {
                assert((k + 1) * (to.0 - from.0) == k * (to.0 - from.0) + (to.0 - from.0))
                    by (nonlinear_arith);
                assert((k + 1) * (to.1 - from.1) == k * (to.1 - from.1) + (to.1 - from.1))
                    by (nonlinear_arith);
                assert forall|pos: (int, int)| #[trigger]
                    roof.seen@.contains(pos) <==> given.contains(pos) || exists|m: int|
                        0 <= m < k + 1 && #[trigger] on_line(from, to, m) == pos by {
                    if before.contains(pos) && !given.contains(pos) {
                        let m = choose|m: int| 0 <= m < k && #[trigger] on_line(from, to, m) == pos;
                        assert(0 <= m < k + 1);
                    }
                    if pos == on_line(from, to, k) {
                        assert(0 <= k < k + 1);
                    }
                    if exists|m: int| 0 <= m < k + 1 && #[trigger] on_line(from, to, m) == pos {
                        let m = choose|m: int|
                            0 <= m < k + 1 && #[trigger] on_line(from, to, m) == pos;
                        if m < k {
                            assert(exists|m2: int|
                                0 <= m2 < k && #[trigger] on_line(from, to, m2) == pos);
                            assert(before.contains(pos));
                        }
                    }
                }
                k = k + 1;
                if on_roof(on_line(from, to, k), rows, cols) {
                    lemma_line_short(from, to, rows, cols, k);
                }
            }
        }
        let ghost forward = k;
        let ghost middle = roof.seen@;

        let mut cur_pos = a;
        proof {
            k = 0;
            lemma_line_start(from, to);
        }
        loop
            invariant_except_break
                on_roof(on_line(from, to, -k), rows, cols) ==> k < rows + cols,
            invariant
                0 <= k <= rows + cols,
                rows == num_rows,
                cols == num_cols,
                3 * num_rows <= isize::MAX,
                3 * num_cols <= isize::MAX,
                from == (a.0 as int, a.1 as int),
                to == (b.0 as int, b.1 as int),
                diff == ((b.0 - a.0) as isize, (b.1 - a.1) as isize),
                on_roof(from, rows, cols),
                on_roof(to, rows, cols),
                from != to,
                roof.fits(rows, cols),
                (cur_pos.0 as int, cur_pos.1 as int) == on_line(from, to, -k),
                forall|pos: (int, int)| #[trigger]
                    roof.seen@.contains(pos) <==> middle.contains(pos) || exists|m: int|
                        0 <= m < k && #[trigger] on_line(from, to, -m) == pos,
            ensures
                !on_roof(on_line(from, to, -k), rows, cols),
            decreases rows + cols - k,
        {
            if !(cur_pos.0 >= 0 && cur_pos.0 < num_rows as isize && cur_pos.1 >= 0 && cur_pos.1
                < num_cols as isize) {
                break ;
            }
            proof {
                lemma_line_short(from, to, rows, cols, -k);
            }
            let ghost before = roof.seen@;
            roof.insert(cur_pos.0, cur_pos.1, Ghost(rows), Ghost(cols));
            cur_pos = (cur_pos.0 - diff.0, cur_pos.1 - diff.1);
            proof {
                assert((-(k + 1)) * (to.0 - from.0) == (-k) * (to.0 - from.0) - (to.0 - from.0))
                    by (nonlinear_arith);
                assert((-(k + 1)) * (to.1 - from.1) == (-k) * (to.1 - from.1) - (to.1 - from.1))
                    by (nonlinear_arith);
                assert forall|pos: (int, int)| #[trigger]
                    roof.seen@.contains(pos) <==> middle.contains(pos) || exists|m: int|
                        0 <= m < k + 1 && #[trigger] on_line(from, to, -m) == pos by {
                    if before.contains(pos) && !middle.contains(pos) {
                        let m = choose|m: int|
                            0 <= m < k && #[trigger] on_line(from, to, -m) == pos;
                        assert(0 <= m < k + 1);
                    }
                    if pos == on_line(from, to, -k) {
                        assert(0 <= k < k + 1);
                    }
                    if exists|m: int| 0 <= m < k + 1 && #[trigger] on_line(from, to, -m) == pos {
                        let m = choose|m: int|
                            0 <= m < k + 1 && #[trigger] on_line(from, to, -m) == pos;
                        if m < k {
                            assert(exists|m2: int|
                                0 <= m2 < k && #[trigger] on_line(from, to, -m2) == pos);
                            assert(before.contains(pos));
                        }
                    }
                }
                k = k + 1;
                if on_roof(on_line(from, to, -k), rows, cols) {
                    lemma_line_short(from, to, rows, cols, -k);
                }
            }
        }
        proof {
            let backward = k;
            assert forall|pos: (int, int)|
                roof.seen@.contains(pos) <==> given.contains(pos) || (on_roof(pos, rows, cols)
                    && node_of(from, to, false, pos)) by {
                if roof.seen@.contains(pos) && !given.contains(pos) {
                    if middle.contains(pos) {
                        let m = choose|m: int|
                            0 <= m < forward && #[trigger] on_line(from, to, m) == pos;
                        assert(on_line(from, to, m) == pos);
                    } else {
                        let m = choose|m: int|
                            0 <= m < backward && #[trigger] on_line(from, to, -m) == pos;
                        assert(on_line(from, to, -m) == pos);
                    }
                }
                if on_roof(pos, rows, cols) && node_of(from, to, false, pos) {
                    let n = choose|n: int| #[trigger] on_line(from, to, n) == pos;
                    if n >= 0 {
                        if n >= forward {
                            lemma_line_leaves(from, to, rows, cols, forward, n);
                        }
                        assert(0 <= n < forward && on_line(from, to, n) == pos);
                        assert(middle.contains(pos));
                    } else {
                        if -n >= backward {
                            lemma_line_leaves(from, to, rows, cols, -backward, n);
                        }
                        assert(0 <= -n < backward && on_line(from, to, -(-n)) == pos);
                    }
                }
            }
        }
    }
}

/// Counts the positions of the roof that are antinodes of two antennas of
/// the same frequency. `antennas` holds the positions of the antennas,
/// frequency by frequency.
pub fn solve(
    antennas: &Vec<Vec<(isize, isize)>>,
    num_rows: usize,
    num_cols: usize,
    restrict_distance: bool,
) -> (count: u64)
    requires
        antennas_valid(antennas@, num_rows as int, num_cols as int),
    ensures
        count == antinodes(antennas@, num_rows as int, num_cols as int, restrict_distance).len(),
{
    let ghost rows = num_rows as int;
    let ghost cols = num_cols as int;
    let mut roof = Roof { marks: blank_marks(num_rows, num_cols), count: 0, seen: Ghost(Set::empty()) };
    proof {
        lemma_marked_none(roof.marks@, rows, cols);
        assert forall|pos: (int, int)| on_roof(pos, rows, cols) implies !mark_at(roof.marks@, pos) by {
            assert(!roof.marks@[pos.0]@[pos.1]);
        }
    }
    let mut g: usize = 0;
    while g < antennas.len()
        invariant
            g <= antennas.len(),
            rows == num_rows,
            cols == num_cols,
            antennas_valid(antennas@, rows, cols),
            roof.fits(rows, cols),
            marks_done(antennas@, rows, cols, restrict_distance, roof.seen@, (g as int, 0, 0)),
        decreases antennas.len() - g,
    {
        let positions = &antennas[g];
        let mut i: usize = 0;
        while i < positions.len()
            invariant
                g < antennas.len(),
                i <= positions.len(),
                *positions == antennas@[g as int],
                rows == num_rows,
                cols == num_cols,
                antennas_valid(antennas@, rows, cols),
                roof.fits(rows, cols),
                marks_done(
                    antennas@,
                    rows,
                    cols,
                    restrict_distance,
                    roof.seen@,
                    (g as int, i as int, 0),
                ),
            decreases positions.len() - i,
        {
            let mut j: usize = i + 1;
            proof {
                lemma_done_moves(
                    antennas@,
                    rows,
                    cols,
                    restrict_distance,
                    roof.seen@,
                    (g as int, i as int, 0),
                    (g as int, i as int, i + 1),
                );
            }
            while j < positions.len()
                invariant
                    g < antennas.len(),
                    i < positions.len(),
                    i < j <= positions.len(),
                    *positions == antennas@[g as int],
                    rows == num_rows,
                    cols == num_cols,
                    antennas_valid(antennas@, rows, cols),
                    roof.fits(rows, cols),
                    marks_done(
                        antennas@,
                        rows,
                        cols,
                        restrict_distance,
                        roof.seen@,
                        (g as int, i as int, j as int),
                    ),
                decreases positions.len() - j,
            {
                let a = positions[i];
                let b = positions[j];
                let ghost before = roof.seen@;
                proof {
                    assert(is_pair(antennas@, g as int, i as int, j as int));
                    assert(on_roof(antenna(antennas@, g as int, i as int), rows, cols));
                    assert(on_roof(antenna(antennas@, g as int, j as int), rows, cols));
                }
                mark_antinodes(&mut roof, a, b, num_rows, num_cols, restrict_distance);
                proof {
                    let at = (g as int, i as int, j as int);
                    let next = (g as int, i as int, j + 1);
                    assert forall|pos: (int, int)|
                        roof.seen@.contains(pos) <==> on_roof(pos, rows, cols) && exists|
                            g2: int,
                            i2: int,
                            j2: int,
                        | #[trigger]
                            is_pair(antennas@, g2, i2, j2) && pair_done(g2, i2, j2, next) && node_of(
                                antenna(antennas@, g2, i2),
                                antenna(antennas@, g2, j2),
                                restrict_distance,
                                pos,
                            ) by {
                        if before.contains(pos) {
                            let (g2, i2, j2) = choose|g2: int, i2: int, j2: int| #[trigger]
                                is_pair(antennas@, g2, i2, j2) && pair_done(g2, i2, j2, at)
                                    && node_of(
                                    antenna(antennas@, g2, i2),
                                    antenna(antennas@, g2, j2),
                                    restrict_distance,
                                    pos,
                                );
                            assert(is_pair(antennas@, g2, i2, j2) && pair_done(g2, i2, j2, next));
                        }
                        if on_roof(pos, rows, cols) && exists|g2: int, i2: int, j2: int| #[trigger]
                            is_pair(antennas@, g2, i2, j2) && pair_done(g2, i2, j2, next) && node_of(
                                antenna(antennas@, g2, i2),
                                antenna(antennas@, g2, j2),
                                restrict_distance,
                                pos,
                            ) {
                            let (g2, i2, j2) = choose|g2: int, i2: int, j2: int| #[trigger]
                                is_pair(antennas@, g2, i2, j2) && pair_done(g2, i2, j2, next)
                                    && node_of(
                                    antenna(antennas@, g2, i2),
                                    antenna(antennas@, g2, j2),
                                    restrict_distance,
                                    pos,
                                );
                            if pair_done(g2, i2, j2, at) {
                                assert(before.contains(pos));
                            } else {
                                assert(g2 == g && i2 == i && j2 == j);
                            }
                        }
                    }
                }
                j += 1;
            }
            proof {
                lemma_done_moves(
                    antennas@,
                    rows,
                    cols,
                    restrict_distance,
                    roof.seen@,
                    (g as int, i as int, j as int),
                    (g as int, i + 1, 0),
                );
            }
            i += 1;
        }
        proof {
            lemma_done_moves(
                antennas@,
                rows,
                cols,
                restrict_distance,
                roof.seen@,
                (g as int, i as int, 0),
                (g + 1, 0, 0),
            );
        }
        g += 1;
    }
    proof {
        assert(roof.seen@ =~= antinodes(antennas@, rows, cols, restrict_distance)) by {
            assert forall|pos: (int, int)|
                roof.seen@.contains(pos) <==> is_antinode(
                    antennas@,
                    rows,
                    cols,
                    restrict_distance,
                    pos,
                ) by {
                if is_antinode(antennas@, rows, cols, restrict_distance, pos) {
                    let (g2, i2, j2) = choose|g2: int, i2: int, j2: int| #[trigger]
                        is_pair(antennas@, g2, i2, j2) && node_of(
                            antenna(antennas@, g2, i2),
                            antenna(antennas@, g2, j2),
                            restrict_distance,
                            pos,
                        );
                    assert(pair_done(g2, i2, j2, (g as int, 0, 0)));
                }
            }
        }
    }

    roof.count as u64
}

/// Two places of the count between which no pair lies have the same pairs
/// done.
pub proof fn lemma_done_moves(
    antennas: Seq<Vec<(isize, isize)>>,
    num_rows: int,
    num_cols: int,
    restricted: bool,
    seen: Set<(int, int)>,
    from: (int, int, int),
    to: (int, int, int),
)
    requires
        marks_done(antennas, num_rows, num_cols, restricted, seen, from),
        forall|g: int, i: int, j: int| #[trigger]
            is_pair(antennas, g, i, j) ==> (pair_done(g, i, j, from) <==> pair_done(g, i, j, to)),
    ensures
        marks_done(antennas, num_rows, num_cols, restricted, seen, to),
{
    assert forall|pos: (int, int)|
        seen.contains(pos) <==> on_roof(pos, num_rows, num_cols) && exists|g: int, i: int, j: int| #[trigger]
            is_pair(antennas, g, i, j) && pair_done(g, i, j, to) && node_of(
                antenna(antennas, g, i),
                antenna(antennas, g, j),
                restricted,
                pos,
            ) by {
        if seen.contains(pos) {
            let (g, i, j) = choose|g: int, i: int, j: int| #[trigger]
                is_pair(antennas, g, i, j) && pair_done(g, i, j, from) && node_of(
                    antenna(antennas, g, i),
                    antenna(antennas, g, j),
                    restricted,
                    pos,
                );
            assert(is_pair(antennas, g, i, j) && pair_done(g, i, j, to));
        }
        if on_roof(pos, num_rows, num_cols) && exists|g: int, i: int, j: int| #[trigger]
            is_pair(antennas, g, i, j) && pair_done(g, i, j, to) && node_of(
                antenna(antennas, g, i),
                antenna(antennas, g, j),
                restricted,
                pos,
            ) {
            let (g, i, j) = choose|g: int, i: int, j: int| #[trigger]
                is_pair(antennas, g, i, j) && pair_done(g, i, j, to) && node_of(
                    antenna(antennas, g, i),
                    antenna(antennas, g, j),
                    restricted,
                    pos,
                );
            assert(is_pair(antennas, g, i, j) && pair_done(g, i, j, from));
        }
    }
}

/// The byte is an ASCII letter or digit.
pub open spec fn is_alnum(byte: u8) -> bool {
    (0x30 <= byte <= 0x39) || (0x41 <= byte <= 0x5a) || (0x61 <= byte <= 0x7a)
}

/// Where a byte stands in the grid, from left to right and from top to
/// bottom.
fn scan_for(grid: &Vec<Vec<u8>>, byte: u8) -> (found: Vec<(isize, isize)>)
    ensures
        found@ == occurrences(grid_view(grid@), byte, grid@.len() as int, 0),
{
    let ghost rows = grid_view(grid@);
    let mut found: Vec<(isize, isize)> = Vec::new();
    let mut row_idx: usize = 0;
    while row_idx < grid.len()
        invariant
            row_idx <= grid.len(),
            rows == grid_view(grid@),
            found@ == occurrences(rows, byte, row_idx as int, 0),
        decreases grid.len() - row_idx,
    {
        let row = &grid[row_idx];
        assert(row@ == rows[row_idx as int]);
        let mut col_idx: usize = 0;
        while col_idx < row.len()
            invariant
                col_idx <= row.len(),
                row_idx < grid.len(),
                rows == grid_view(grid@),
                row@ == rows[row_idx as int],
                found@ == occurrences(rows, byte, row_idx as int, col_idx as int),
            decreases row.len() - col_idx,
        {
            if row[col_idx] == byte {
                found.push(
                    (#[verifier::truncate] (row_idx as isize), #[verifier::truncate] (col_idx as isize)),
                );
            }
            col_idx += 1;
        }
        row_idx += 1;
    }
    found
}

/// Reads a drawn roof: for each of the 128 ASCII bytes the places where it
/// stands, where it is a letter or a digit, and the numbers of rows and of
/// columns; the first line gives the number of columns. Nothing is read from
/// a text without lines.
pub fn read_antennas(text: &[u8]) -> (read: Option<(Vec<Vec<(isize, isize)>>, usize, usize)>)
    ensures
        read is Some == (lines_of(text@, 0, text@.len() as int).len() > 0),
        read matches Some(found) ==> {
            let lines = lines_of(text@, 0, text@.len() as int);
            let rows = rows_of(text@, lines);
            &&& found.1 == lines.len()
            &&& found.2 == lines[0].1 - lines[0].0
            &&& found.0@.len() == 128
            &&& forall|byte: u8|
                byte < 128 ==> (#[trigger] found.0@[byte as int])@ == if is_alnum(byte) {
                    occurrences(rows, byte, rows.len() as int, 0)
                } else {
                    Seq::empty()
                }
        },
{
    let lines = all_lines(text);
    if lines.len() == 0 {
        return None;
    }
    let grid = byte_grid(text, &lines);
    let ghost rows = rows_of(text@, lines@);
    assert(rows.len() == grid@.len());
    let num_rows = lines.len();
    let num_cols = lines[0].1 - lines[0].0;
    let mut antennas: Vec<Vec<(isize, isize)>> = Vec::new();
    let mut byte: u8 = 0;
    while byte < 128
        invariant
            byte <= 128,
            grid_view(grid@) == rows,
            rows.len() == grid@.len(),
            antennas@.len() == byte,
            forall|other: u8|
                other < byte ==> (#[trigger] antennas@[other as int])@ == if is_alnum(other) {
                    occurrences(rows, other, rows.len() as int, 0)
                } else {
                    Seq::empty()
                },
        decreases 128 - byte,
    {
        let alnum = (0x30 <= byte && byte <= 0x39) || (0x41 <= byte && byte <= 0x5a) || (0x61
            <= byte && byte <= 0x7a);
        if alnum {
            antennas.push(scan_for(&grid, byte));
        } else {
            antennas.push(Vec::new());
        }
        byte += 1;
    }
    Some((antennas, num_rows, num_cols))
}

} // verus!
