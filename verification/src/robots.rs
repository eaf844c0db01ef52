//! Robots that walk in straight lines over a floor that wraps around at its
//! edges.

use vstd::prelude::*;
use crate::counting::{sum_over};

use crate::shapes::{
    figures_on, lemma_row_read, line_too_large, lines_show, present, present_of, read_lines, shaped,
    Figure, Piece,
};
use crate::text::{all_lines, lines_of};

verus! {

/// A position on the floor or a velocity: columns to the right and rows
/// down.
#[derive(Debug, Clone, Copy, PartialEq, Eq, Structural)]
pub struct Vector {
    pub x: i64,
    pub y: i64,
}

/// A robot: where it stands and how far it walks in a second.
#[derive(Debug, Clone, Copy)]
pub struct Robot {
    pub pos: Vector,
    pub v: Vector,
}

/// Where a robot that starts at `pos` with velocity `v` stands along one
/// axis of length `size` after a number of seconds.
pub open spec fn place_after(pos: int, v: int, size: int, seconds: int) -> int {
    (pos + v * seconds) % size
}

/// The quadrant in which a place lies: 0 and 1 left of the middle column,
/// 2 and 3 right of it, the even ones above the middle row; nothing for a
/// place on a middle line.
pub open spec fn quadrant_of(x: int, y: int, width: int, height: int) -> Option<int> {
    if x == width / 2 || y == height / 2 {
        None
    } else {
        Some((if x < width / 2 { 0int } else { 2int }) + (if y < height / 2 { 0int } else { 1int }))
    }
}

/// The quadrant in which a robot stands after 100 seconds.
pub open spec fn robot_quadrant(robot: Robot, width: int, height: int) -> Option<int> {
    quadrant_of(
        place_after(robot.pos.x as int, robot.v.x as int, width, 100),
        place_after(robot.pos.y as int, robot.v.y as int, height, 100),
        width,
        height,
    )
}

/// How many of the robots stand in the quadrant after 100 seconds.
pub open spec fn in_quadrant(robots: Seq<Robot>, width: int, height: int, quadrant: int) -> nat {
    sum_over(
        robots,
        |robot: Robot|
            if robot_quadrant(robot, width, height) == Some(quadrant) {
                1nat
            } else {
                0nat
            },
    )
}

/// The products of the numbers of robots in the first two and in the
/// first three quadrants fit 64 bits.
pub open spec fn products_fit(robots: Seq<Robot>, width: int, height: int) -> bool {
    &&& in_quadrant(robots, width, height, 0) * in_quadrant(robots, width, height, 1) <= u64::MAX
    &&& in_quadrant(robots, width, height, 0) * in_quadrant(robots, width, height, 1)
        * in_quadrant(robots, width, height, 2) <= u64::MAX
}

/// The product of the numbers of robots in the four quadrants.
pub open spec fn safety_factor(robots: Seq<Robot>, width: int, height: int) -> nat {
    in_quadrant(robots, width, height, 0) * in_quadrant(robots, width, height, 1) * in_quadrant(
        robots,
        width,
        height,
        2,
    ) * in_quadrant(robots, width, height, 3)
}

/// A hundred steps of the robot stay within 64 bits.
pub open spec fn robot_small(robot: Robot, width: u64, height: u64) -> bool {
    &&& i64::MIN <= robot.v.x * 100 <= i64::MAX
    &&& i64::MIN <= robot.v.y * 100 <= i64::MAX
    &&& i64::MIN <= robot.pos.x + robot.v.x * 100 <= i64::MAX
    &&& i64::MIN <= robot.pos.y + robot.v.y * 100 <= i64::MAX
}

/// The remainder of a division that rounds towards zero.
pub open spec fn truncated_rem(value: int, size: int) -> int {
    if value >= 0 {
        value % size
    } else {
        -((-value) % size)
    }
}

/// The remainder of the division that rounds towards zero, made positive,
/// is the remainder of the division that rounds down.
pub proof fn lemma_wrap(value: int, size: int)
    requires
        size > 0,
    ensures
        -size < truncated_rem(value, size) < size,
        (truncated_rem(value, size) + size) % size == value % size,
{
    let rem = truncated_rem(value, size);
    if value >= 0 {
        assert((rem + size) % size == value % size) by (nonlinear_arith)
            requires
                size > 0,
                rem == value % size,
        ;
    } else {
        let back = (-value) % size;
        let quot = (-value) / size;
        vstd::arithmetic::div_mod::lemma_fundamental_div_mod(-value, size);
        assert(size * quot == quot * size) by (nonlinear_arith);
        if back == 0 {
            assert(value == (-quot) * size + 0) by (nonlinear_arith)
                requires
                    -value == quot * size + back,
                    back == 0,
            ;
            vstd::arithmetic::div_mod::lemma_fundamental_div_mod_converse(value, size, -quot, 0);
            vstd::arithmetic::div_mod::lemma_fundamental_div_mod_converse(size, size, 1, 0);
        } else {
            assert(value == (-quot - 1) * size + (size - back)) by (nonlinear_arith)
                requires
                    -value == quot * size + back,
            ;
            vstd::arithmetic::div_mod::lemma_fundamental_div_mod_converse(
                value,
                size,
                -quot - 1,
                size - back,
            );
            vstd::arithmetic::div_mod::lemma_fundamental_div_mod_converse(
                size - back,
                size,
                0,
                size - back,
            );
        }
    }
}

/// The safety factor after 100 seconds: the product of the numbers of
/// robots in the four quadrants of the floor.
pub fn solve_a(robots: Vec<Robot>, width: u64, height: u64) -> (factor: u64)
    requires
        0 < width <= i64::MAX / 2,
        0 < height <= i64::MAX / 2,
        forall|i: int| 0 <= i < robots.len() ==> robot_small(#[trigger] robots@[i], width, height),
        products_fit(robots@, width as int, height as int),
        safety_factor(robots@, width as int, height as int) <= u64::MAX,
    ensures
        factor == safety_factor(robots@, width as int, height as int),
{
    let x_middle = width / 2;
    let y_middle = height / 2;
    let ghost w = width as int;
    let ghost h = height as int;
    let ghost q0 = |robot: Robot| if robot_quadrant(robot, w, h) == Some(0int) { 1nat } else { 0nat };
    let ghost q1 = |robot: Robot| if robot_quadrant(robot, w, h) == Some(1int) { 1nat } else { 0nat };
    let ghost q2 = |robot: Robot| if robot_quadrant(robot, w, h) == Some(2int) { 1nat } else { 0nat };
    let ghost q3 = |robot: Robot| if robot_quadrant(robot, w, h) == Some(3int) { 1nat } else { 0nat };
    let mut quadrants: [u64; 4] = [0;4];
    let mut at: usize = 0;
    proof {
        assert(robots@.take(0) =~= Seq::<Robot>::empty());
    }
    while at < robots.len()
        invariant
            at <= robots.len(),
            w == width,
            h == height,
            x_middle == width / 2,
            y_middle == height / 2,
            0 < width <= i64::MAX / 2,
            0 < height <= i64::MAX / 2,
            forall|i: int|
                0 <= i < robots.len() ==> robot_small(#[trigger] robots@[i], width, height),
            q0 == (|robot: Robot| if robot_quadrant(robot, w, h) == Some(0int) { 1nat } else { 0nat }),
            q1 == (|robot: Robot| if robot_quadrant(robot, w, h) == Some(1int) { 1nat } else { 0nat }),
            q2 == (|robot: Robot| if robot_quadrant(robot, w, h) == Some(2int) { 1nat } else { 0nat }),
            q3 == (|robot: Robot| if robot_quadrant(robot, w, h) == Some(3int) { 1nat } else { 0nat }),
            quadrants@[0] == sum_over(robots@.take(at as int), q0),
            quadrants@[1] == sum_over(robots@.take(at as int), q1),
            quadrants@[2] == sum_over(robots@.take(at as int), q2),
            quadrants@[3] == sum_over(robots@.take(at as int), q3),
            quadrants@[0] + quadrants@[1] + quadrants@[2] + quadrants@[3] <= at,
        decreases robots.len() - at,
    {
        let robot = robots[at];
        proof {
            let next = robots@.take(at + 1);
            assert(next.drop_last() =~= robots@.take(at as int));
            assert(next.last() == robot);
            assert(robot_small(robots@[at as int], width, height));
        }
        let mut end_x = robot.pos.x + robot.v.x * 100;
        let mut end_y = robot.pos.y + robot.v.y * 100;
        let ghost far_x = end_x as int;
        let ghost far_y = end_y as int;
        end_x = end_x % (width as i64);
        end_y = end_y % (height as i64);
        proof {
            lemma_wrap(far_x, w);
            lemma_wrap(far_y, h);
            assert(end_x == truncated_rem(far_x, w));
            assert(end_y == truncated_rem(far_y, h));
        }
        let end_x = (end_x + width as i64) as u64 % width;
        let end_y = (end_y + height as i64) as u64 % height;
        assert(end_x == place_after(robot.pos.x as int, robot.v.x as int, w, 100));
        assert(end_y == place_after(robot.pos.y as int, robot.v.y as int, h, 100));
        at += 1;
        let x_quad: usize = if end_x < x_middle {
            0
        } else if end_x > x_middle {
            2
        } else {
            continue ;
        };

        let y_quad: usize = if end_y < y_middle {
            0
        } else if end_y > y_middle {
            1
        } else {
            continue ;
        };
        assert(robot_quadrant(robot, w, h) == Some((x_quad + y_quad) as int));
        quadrants[x_quad + y_quad] = quadrants[x_quad + y_quad] + 1;
    }
    proof {
        assert(robots@.take(at as int) =~= robots@);
    }
    quadrants[0] * quadrants[1] * quadrants[2] * quadrants[3]
}

/// The robot stands on the floor, and a step takes it no further than
/// once around.
pub open spec fn robot_on_floor(robot: Robot, width: int, height: int) -> bool {
    &&& 0 <= robot.pos.x < width
    &&& 0 <= robot.pos.y < height
    &&& -width <= robot.v.x <= width
    &&& -height <= robot.v.y <= height
}

/// All robots stand on the floor.
pub open spec fn all_on_floor(robots: Seq<Robot>, width: int, height: int) -> bool {
    forall|i: int| 0 <= i < robots.len() ==> robot_on_floor(#[trigger] robots[i], width, height)
}

/// The robot after one second.
pub open spec fn stepped(robot: Robot, width: int, height: int) -> Robot {
    Robot {
        pos: Vector {
            x: ((robot.pos.x + robot.v.x + width) % width) as i64,
            y: ((robot.pos.y + robot.v.y + height) % height) as i64,
        },
        v: robot.v,
    }
}

/// The robots after a number of seconds.
pub open spec fn frame(robots: Seq<Robot>, width: int, height: int, seconds: nat) -> Seq<Robot>
    decreases seconds,
{
    if seconds == 0 {
        robots
    } else {
        Seq::new(
            robots.len(),
            |i: int| stepped(frame(robots, width, height, (seconds - 1) as nat)[i], width, height),
        )
    }
}

/// A robot stands at the row and the column.
pub open spec fn occupied(robots: Seq<Robot>, row: int, col: int) -> bool {
    exists|i: int| 0 <= i < robots.len() && (#[trigger] robots[i]).pos.x == col && robots[i].pos.y == row
}

/// Robots stand at the row and the column and in the three rows below, and
/// at least one more row lies below those.
pub open spec fn line_at(robots: Seq<Robot>, height: int, row: int, col: int) -> bool {
    &&& 0 <= row
    &&& row + 4 < height
    &&& forall|k: int| 0 <= k < 4 ==> #[trigger] occupied(robots, row + k, col)
}

/// The picture shows two vertical lines at least.
pub open spec fn shows_lines(robots: Seq<Robot>, width: int, height: int) -> bool {
    exists|a: (int, int), b: (int, int)|
        a != b && 0 <= a.1 < width && 0 <= b.1 < width && #[trigger] line_at(
            robots,
            height,
            a.0,
            a.1,
        ) && #[trigger] line_at(robots, height, b.0, b.1)
}

/// How many robots stand in every cell of the floor.
pub open spec fn is_picture(map: Seq<Vec<u64>>, robots: Seq<Robot>, width: int, height: int) -> bool {
    &&& map.len() == height
    &&& forall|r: int| 0 <= r < height ==> (#[trigger] map[r]).len() == width
    &&& forall|r: int, c: int|
        0 <= r < height && 0 <= c < width ==> ((#[trigger] map[r]@[c]) >= 1 <==> occupied(
            robots,
            r,
            c,
        ))
}

/// A step keeps the robots on the floor.
pub proof fn lemma_frame_on_floor(robots: Seq<Robot>, width: int, height: int, seconds: nat)
    requires
        all_on_floor(robots, width, height),
        0 < width <= i64::MAX / 4,
        0 < height <= i64::MAX / 4,
    ensures
        all_on_floor(frame(robots, width, height, seconds), width, height),
        frame(robots, width, height, seconds).len() == robots.len(),
    decreases seconds,
{
    if seconds > 0 {
        lemma_frame_on_floor(robots, width, height, (seconds - 1) as nat);
        let before = frame(robots, width, height, (seconds - 1) as nat);
        let after = frame(robots, width, height, seconds);
        assert forall|i: int| 0 <= i < after.len() implies robot_on_floor(
            #[trigger] after[i],
            width,
            height,
        ) by {
            assert(robot_on_floor(before[i], width, height));
        }
    }
}

/// Moves every robot by one second and draws the picture.
fn advance_robots(robots: &mut Vec<Robot>, width: u64, height: u64) -> (map: Vec<Vec<u64>>)
    requires
        0 < width <= i64::MAX / 4,
        0 < height <= i64::MAX / 4,
        width <= usize::MAX,
        height <= usize::MAX,
        all_on_floor(old(robots)@, width as int, height as int),
    ensures
        final(robots)@ == frame(old(robots)@, width as int, height as int, 1),
        is_picture(map@, final(robots)@, width as int, height as int),
{
    let ghost before = robots@;
    let ghost w = width as int;
    let ghost h = height as int;
    let ghost after = frame(before, w, h, 1);
    let mut map: Vec<Vec<u64>> = vec![vec![0u64; width as usize]; height as usize];
    let mut at: usize = 0;
    proof {
        assert(frame(before, w, h, 0) == before);
    }
    while at < robots.len()
        invariant
            at <= robots.len(),
            w == width,
            h == height,
            0 < width <= i64::MAX / 4,
            0 < height <= i64::MAX / 4,
            width <= usize::MAX,
            height <= usize::MAX,
            robots@.len() == before.len(),
            all_on_floor(before, w, h),
            after == frame(before, w, h, 1),
            forall|i: int| 0 <= i < at ==> #[trigger] robots@[i] == after[i],
            forall|i: int| at <= i < robots.len() ==> #[trigger] robots@[i] == before[i],
            map@.len() == h,
            forall|r: int| 0 <= r < h ==> (#[trigger] map@[r]).len() == w,
            forall|r: int, c: int| 0 <= r < h && 0 <= c < w ==> (#[trigger] map@[r]@[c]) <= at,
            forall|r: int, c: int|
                0 <= r < h && 0 <= c < w ==> ((#[trigger] map@[r]@[c]) >= 1 <==> occupied(
                    after.take(at as int),
                    r,
                    c,
                )),
        decreases robots.len() - at,
    {
        let mut robot = robots[at];
        assert(robot_on_floor(before[at as int], w, h));
        robot.pos.x = (robot.pos.x + robot.v.x + width as i64) % (width as i64);
        robot.pos.y = (robot.pos.y + robot.v.y + height as i64) % (height as i64);
        assert(after[at as int] == stepped(before[at as int], w, h)) by {
            reveal_with_fuel(frame, 2);
        }
        assert(robot == after[at as int]);
        robots[at] = robot;
        let ghost drawn = map@;
        let row = robot.pos.y as usize;
        let col = robot.pos.x as usize;
        assert(row < map.len() && col < map[row as int].len());
        let count = map[row][col];
        map[row][col] = count + 1;
        proof {
            let seen = after.take(at as int);
            let next = after.take(at + 1);
            assert forall|r: int, c: int| 0 <= r < h && 0 <= c < w implies ((#[trigger] map@[r]@[c])
                >= 1 <==> occupied(next, r, c)) by {
                if r == row && c == col {
                    assert(next[at as int].pos.x == c && next[at as int].pos.y == r);
                } else {
                    if r != row {
                        assert(map@[r] == drawn[r]);
                    }
                    assert(map@[r]@[c] == drawn[r]@[c]);
                    if occupied(seen, r, c) {
                        let i = choose|i: int|
                            0 <= i < seen.len() && (#[trigger] seen[i]).pos.x == c && seen[i].pos.y
                                == r;
                        assert(next[i] == seen[i]);
                    }
                    if occupied(next, r, c) {
                        let i = choose|i: int|
                            0 <= i < next.len() && (#[trigger] next[i]).pos.x == c && next[i].pos.y
                                == r;
                        assert(i < at);
                        assert(seen[i] == next[i]);
                    }
                }
            }
            assert forall|r: int| 0 <= r < h implies (#[trigger] map@[r]).len() == w by {
                if r != row {
                    assert(map@[r] == drawn[r]);
                }
            }
            assert forall|r: int, c: int| 0 <= r < h && 0 <= c < w implies (#[trigger] map@[r]@[c])
                <= at + 1 by {
                if r != row {
                    assert(map@[r] == drawn[r]);
                }
                assert(drawn[r]@[c] <= at);
            }
        }
        at += 1;
    }
    proof {
        assert(after.take(at as int) =~= after);
        assert(robots@ =~= after);
    }
    map
}

/// Whether robots stand at the row and the column and in the three rows
/// below.
fn is_line_at(map: &Vec<Vec<u64>>, r: usize, c: usize, Ghost(robots): Ghost<Seq<Robot>>) -> (is_line:
    bool)
    requires
        r + 4 < map@.len(),
        map@.len() <= usize::MAX,
        c < map@[0].len(),
        is_picture(map@, robots, map@[0].len() as int, map@.len() as int),
    ensures
        is_line == line_at(robots, map@.len() as int, r as int, c as int),
{
    let mut is_line = true;
    let mut r_dash = r;
    while r_dash < r + 4
        invariant_except_break
            is_line,
            forall|k: int| 0 <= k < r_dash - r ==> #[trigger] occupied(robots, r + k, c as int),
        invariant
            r <= r_dash <= r + 4,
            r + 4 < map@.len(),
            map@.len() <= usize::MAX,
            c < map@[0].len(),
            is_picture(map@, robots, map@[0].len() as int, map@.len() as int),
        ensures
            is_line == line_at(robots, map@.len() as int, r as int, c as int),
        decreases r + 4 - r_dash,
    {
        assert(map@[r_dash as int].len() == map@[0].len());
        if map[r_dash][c] < 1 {
            is_line = false;
            assert(!occupied(robots, r + (r_dash - r), c as int));
            break ;
        }
        assert(occupied(robots, r_dash as int, c as int));
        r_dash += 1;
    }
    is_line
}

/// Whether the picture shows two vertical lines at least.
fn picture_shows_lines(map: &Vec<Vec<u64>>, width: u64, height: u64, Ghost(robots): Ghost<
    Seq<Robot>,
>) -> (shows: bool)
    requires
        0 < width <= usize::MAX,
        width <= i64::MAX,
        0 < height,
        height + 4 <= usize::MAX,
        is_picture(map@, robots, width as int, height as int),
    ensures
        shows == shows_lines(robots, width as int, height as int),
{
    let ghost w = width as int;
    let ghost h = height as int;
    let mut num_vert_lines: u64 = 0;
    let ghost mut first: (int, int) = (0, 0);
    let ghost mut second: (int, int) = (0, 0);
    let mut r: usize = 0;
    while r < height as usize
        invariant_except_break
            num_vert_lines < 2,
            num_vert_lines >= 1 ==> first.0 < r,
        invariant
            r <= height,
            w == width,
            h == height,
            0 < width <= usize::MAX,
            width <= i64::MAX,
            0 < height,
            height + 4 <= usize::MAX,
            is_picture(map@, robots, w, h),
            num_vert_lines >= 1 ==> line_at(robots, h, first.0, first.1) && 0 <= first.1 < w,
            num_vert_lines >= 2 ==> line_at(robots, h, second.0, second.1) && 0 <= second.1 < w
                && first != second,
            num_vert_lines == 0 ==> forall|p: (int, int)|
                0 <= p.0 < r && 0 <= p.1 < w ==> !#[trigger] line_at(robots, h, p.0, p.1),
            num_vert_lines == 1 ==> forall|p: (int, int)|
                0 <= p.0 < r && 0 <= p.1 < w && p != first ==> !#[trigger] line_at(
                    robots,
                    h,
                    p.0,
                    p.1,
                ),
        ensures
            num_vert_lines >= 1 ==> line_at(robots, h, first.0, first.1) && 0 <= first.1 < w,
            num_vert_lines >= 2 ==> line_at(robots, h, second.0, second.1) && 0 <= second.1 < w
                && first != second,
            num_vert_lines == 0 ==> forall|p: (int, int)|
                0 <= p.1 < w ==> !#[trigger] line_at(robots, h, p.0, p.1),
            num_vert_lines == 1 ==> forall|p: (int, int)|
                0 <= p.1 < w && p != first ==> !#[trigger] line_at(robots, h, p.0, p.1),
        decreases height - r,
    {
        if r + 4 >= height as usize {
            break ;
        }
        let mut c: usize = 0;
        while c < width as usize
            invariant
                c <= width,
                r + 4 < height,
                w == width,
                h == height,
                0 < width <= usize::MAX,
                width <= i64::MAX,
                0 < height,
                height + 4 <= usize::MAX,
                is_picture(map@, robots, w, h),
                num_vert_lines <= c + 1,
                num_vert_lines >= 1 ==> line_at(robots, h, first.0, first.1) && 0 <= first.1 < w
                    && (first.0 < r || (first.0 == r && first.1 < c)),
                num_vert_lines >= 2 ==> line_at(robots, h, second.0, second.1) && 0 <= second.1
                    < w && first != second,
                num_vert_lines == 0 ==> forall|p: (int, int)|
                    (0 <= p.0 < r || (p.0 == r && p.1 < c)) && 0 <= p.1 < w ==> !#[trigger] line_at(
                        robots,
                        h,
                        p.0,
                        p.1,
                    ),
                num_vert_lines == 1 ==> forall|p: (int, int)|
                    (0 <= p.0 < r || (p.0 == r && p.1 < c)) && 0 <= p.1 < w && p != first
                        ==> !#[trigger] line_at(robots, h, p.0, p.1),
            decreases width - c,
        {
            assert(map@[0].len() == w);
            if is_line_at(map, r, c, Ghost(robots)) {
                proof {
                    if num_vert_lines == 0 {
                        first = (r as int, c as int);
                    } else if num_vert_lines == 1 {
                        second = (r as int, c as int);
                    }
                }
                num_vert_lines += 1;
            }
            c += 1;
        }

        if num_vert_lines >= 2 {
            break ;
        }
        r += 1;
    }
    proof {
        if num_vert_lines >= 2 {
            assert(line_at(robots, h, first.0, first.1) && line_at(robots, h, second.0, second.1));
        }
    }
    num_vert_lines >= 2
}

/// Some picture after this one shows two vertical lines.
pub open spec fn tree_ahead(robots: Seq<Robot>, width: int, height: int) -> bool {
    exists|seconds: nat|
        seconds >= 1 && #[trigger] shows_lines(frame(robots, width, height, seconds), width, height)
}

/// `seconds` is the number of seconds after which the picture first shows
/// two vertical lines again.
pub open spec fn is_next_tree(robots: Seq<Robot>, width: int, height: int, seconds: nat) -> bool {
    &&& seconds >= 1
    &&& shows_lines(frame(robots, width, height, seconds), width, height)
    &&& forall|sooner: nat|
        1 <= sooner < seconds ==> !#[trigger] shows_lines(
            frame(robots, width, height, sooner),
            width,
            height,
        )
}

/// The frame one second after a frame.
pub proof fn lemma_frame_next(robots: Seq<Robot>, width: int, height: int, seconds: nat)
    ensures
        frame(robots, width, height, seconds + 1) == frame(
            frame(robots, width, height, seconds),
            width,
            height,
            1,
        ),
{
    let here = frame(robots, width, height, seconds);
    assert(frame(here, width, height, 0) == here);
    assert(frame(robots, width, height, seconds + 1) =~= frame(here, width, height, 1));
}

/// Lets the robots walk on, second by second, until their picture shows
/// two vertical lines of four robots one below the other, which might be
/// the trunk of a Christmas tree. Returns the number of seconds that have
/// passed in all, and the picture.
pub fn find_chirstmas_tree(robots: &mut Vec<Robot>, width: u64, height: u64, iteration: u64) -> (found:
    (u64, Vec<Vec<u64>>))
    requires
        0 < width <= i64::MAX / 4,
        0 < height <= i64::MAX / 4,
        width <= usize::MAX,
        height + 4 <= usize::MAX,
        all_on_floor(old(robots)@, width as int, height as int),
        tree_ahead(old(robots)@, width as int, height as int),
        forall|seconds: nat|
            is_next_tree(old(robots)@, width as int, height as int, seconds) ==> iteration + seconds
                <= u64::MAX,
    ensures
        found.0 > iteration,
        is_next_tree(old(robots)@, width as int, height as int, (found.0 - iteration) as nat),
        final(robots)@ == frame(
            old(robots)@,
            width as int,
            height as int,
            (found.0 - iteration) as nat,
        ),
        is_picture(found.1@, final(robots)@, width as int, height as int),
{
    let ghost start = robots@;
    let ghost w = width as int;
    let ghost h = height as int;
    let ghost goal = choose|seconds: nat|
        seconds >= 1 && #[trigger] shows_lines(frame(start, w, h, seconds), w, h);
    let ghost mut passed: nat = 0;
    let mut iteration = iteration;
    let ghost first_iteration = iteration;
    let mut map: Vec<Vec<u64>> = Vec::new();
    proof {
        assert(frame(start, w, h, 0) == start);
    }
    loop
        invariant_except_break
            passed < goal,
            forall|sooner: nat|
                1 <= sooner <= passed ==> !#[trigger] shows_lines(frame(start, w, h, sooner), w, h),
        invariant
            w == width,
            h == height,
            0 < width <= i64::MAX / 4,
            0 < height <= i64::MAX / 4,
            width <= usize::MAX,
            height + 4 <= usize::MAX,
            all_on_floor(start, w, h),
            shows_lines(frame(start, w, h, goal), w, h),
            forall|seconds: nat|
                is_next_tree(start, w, h, seconds) ==> first_iteration + seconds <= u64::MAX,
            robots@ == frame(start, w, h, passed),
            iteration == first_iteration + passed,
            passed <= goal,
        ensures
            passed >= 1,
            is_next_tree(start, w, h, passed),
            is_picture(map@, robots@, w, h),
        decreases goal - passed,
    {
        proof {
            lemma_frame_on_floor(start, w, h, passed);
            lemma_frame_next(start, w, h, passed);
            lemma_next_tree_exists(start, w, h, passed, goal);
        }
        iteration += 1;
        map = advance_robots(robots, width, height);
        proof {
            passed = passed + 1;
        }
        if picture_shows_lines(&map, width, height, Ghost(robots@)) {
            break ;
        }
    }
    (iteration, map)
}

/// Where no picture up to `passed` seconds shows lines but one later does,
/// there is a first one that does, later than `passed`.
pub proof fn lemma_next_tree_exists(
    robots: Seq<Robot>,
    width: int,
    height: int,
    passed: nat,
    goal: nat,
)
    requires
        passed < goal,
        shows_lines(frame(robots, width, height, goal), width, height),
        forall|sooner: nat|
            1 <= sooner <= passed ==> !#[trigger] shows_lines(
                frame(robots, width, height, sooner),
                width,
                height,
            ),
    ensures
        exists|seconds: nat| passed < seconds <= goal && is_next_tree(robots, width, height, seconds),
    decreases goal - passed,
{
    let next = passed + 1;
    if shows_lines(frame(robots, width, height, next), width, height) {
        assert(is_next_tree(robots, width, height, next));
    } else {
        lemma_next_tree_exists(robots, width, height, next, goal);
    }
}

/// The shape of a line that tells of a robot: `p=`, two numbers with a
/// comma between them, ` v=`, and two numbers with a comma between them
/// that may have a minus sign.
pub open spec fn robot_shape() -> Seq<Piece> {
    seq![
        Piece::Byte(0x70),
        Piece::Byte(0x3d),
        Piece::Number,
        Piece::Byte(0x2c),
        Piece::Number,
        Piece::Byte(0x20),
        Piece::Byte(0x76),
        Piece::Byte(0x3d),
        Piece::Signed,
        Piece::Byte(0x2c),
        Piece::Signed,
    ]
}

/// The number that was read.
pub open spec fn figure_value(figure: Figure) -> int {
    if figure.0 {
        -(figure.1 as int)
    } else {
        figure.1 as int
    }
}

/// The number that was read fits 64 bits with a sign.
pub open spec fn figure_fits(figure: Figure) -> bool {
    i64::MIN <= figure_value(figure) <= i64::MAX
}

/// The robot of a line, where the line has the shape and its numbers fit.
pub open spec fn robot_of(text: Seq<u8>, line: (usize, usize)) -> Option<Robot> {
    match figures_on(text, line, robot_shape(), 4) {
        Some(figures) => if figure_fits(figures[0]) && figure_fits(figures[1]) && figure_fits(
            figures[2],
        ) && figure_fits(figures[3]) {
            Some(
                Robot {
                    pos: Vector {
                        x: figure_value(figures[0]) as i64,
                        y: figure_value(figures[1]) as i64,
                    },
                    v: Vector {
                        x: figure_value(figures[2]) as i64,
                        y: figure_value(figures[3]) as i64,
                    },
                },
            )
        } else {
            None
        },
        None => None,
    }
}

/// The line has the shape of a robot, and yet no robot can be read from it.
pub open spec fn robot_fails(text: Seq<u8>, line: (usize, usize)) -> bool {
    shaped(text, line.0 as int, line.1 as int, robot_shape()) is Some && robot_of(text, line) is None
}

/// The robots of the lines, line by line.
pub open spec fn robots_of(text: Seq<u8>, lines: Seq<(usize, usize)>) -> Seq<Option<Robot>> {
    Seq::new(lines.len(), |i: int| robot_of(text, lines[i]))
}

/// A number that was read, with its sign.
fn signed(figure: (bool, u64)) -> (value: Option<i64>)
    ensures
        value is Some == figure_fits((figure.0, figure.1 as nat)),
        value matches Some(number) ==> number == figure_value((figure.0, figure.1 as nat)),
{
    if !figure.0 {
        if figure.1 <= 0x7fff_ffff_ffff_ffff {
            Some(figure.1 as i64)
        } else {
            None
        }
    } else if figure.1 < 0x8000_0000_0000_0000 {
        Some(-(figure.1 as i64))
    } else if figure.1 == 0x8000_0000_0000_0000 {
        Some(i64::MIN)
    } else {
        None
    }
}

/// Reads the robots, one on each line that has the shape of a robot; other
/// lines are passed over. Nothing is read where a number is too large.
pub fn read_robots(text: &[u8]) -> (robots: Option<Vec<Robot>>)
    ensures
        match robots {
            Some(found) => found@ == present_of(
                robots_of(text@, lines_of(text@, 0, text@.len() as int)),
            ),
            None => exists|i: int|
                0 <= i < lines_of(text@, 0, text@.len() as int).len() && robot_fails(
                    text@,
                    #[trigger] lines_of(text@, 0, text@.len() as int)[i],
                ),
        },
{
    let lines = all_lines(text);
    let pieces = vec![
        Piece::Byte(0x70),
        Piece::Byte(0x3d),
        Piece::Number,
        Piece::Byte(0x2c),
        Piece::Number,
        Piece::Byte(0x20),
        Piece::Byte(0x76),
        Piece::Byte(0x3d),
        Piece::Signed,
        Piece::Byte(0x2c),
        Piece::Signed,
    ];
    assert(pieces@ =~= robot_shape());
    let rows = match read_lines(text, &lines, &pieces) {
        Some(rows) => rows,
        None => {
            proof {
                let i = choose|i: int|
                    0 <= i < lines@.len() && #[trigger] line_too_large(text@, lines@, pieces@, i);
                assert(robot_fails(text@, lines@[i]));
            }
            return None;
        },
    };
    let mut read: Vec<Option<Robot>> = Vec::new();
    let mut at: usize = 0;
    while at < rows.len()
        invariant
            at <= rows.len(),
            rows@.len() == lines@.len(),
            lines@ == lines_of(text@, 0, text@.len() as int),
            pieces@ == robot_shape(),
            lines_show(text@, lines@, pieces@, rows@),
            read@.len() == at,
            forall|i: int| 0 <= i < at ==> robot_of(text@, lines@[i]) == #[trigger] read@[i],
        decreases rows.len() - at,
    {
        proof {
            lemma_row_read(text@, lines@[at as int], pieces@, rows@[at as int], 4);
        }
        match &rows[at] {
            Some(numbers) => {
                if numbers.len() != 4 {
                    assert(robot_fails(text@, lines@[at as int]));
                    return None;
                }
                let x = signed(numbers[0]);
                let y = signed(numbers[1]);
                let vx = signed(numbers[2]);
                let vy = signed(numbers[3]);
                match (x, y, vx, vy) {
                    (Some(x), Some(y), Some(vx), Some(vy)) => {
                        read.push(Some(Robot { pos: Vector { x, y }, v: Vector { x: vx, y: vy } }));
                    },
                    _ => {
                        assert(robot_fails(text@, lines@[at as int]));
                        return None;
                    },
                }
            },
            None => {
                read.push(None);
            },
        }
        at += 1;
    }
    assert(read@ =~= robots_of(text@, lines@));
    Some(present(&read))
}

} // verus!
