use puzzle_solvers::robots::{find_chirstmas_tree, solve_a, Robot, Vector};

fn robot(px: i64, py: i64, vx: i64, vy: i64) -> Robot {
    Robot { pos: Vector { x: px, y: py }, v: Vector { x: vx, y: vy } }
}

fn sample() -> Vec<Robot> {
    vec![
        robot(0, 4, 3, -3),
        robot(6, 3, -1, -3),
        robot(10, 3, -1, 2),
        robot(2, 0, 2, -1),
        robot(0, 0, 1, 3),
        robot(3, 0, -2, -2),
        robot(7, 6, -1, -3),
        robot(3, 0, -1, -2),
        robot(9, 3, 2, 3),
        robot(7, 3, -1, 2),
        robot(2, 4, 2, -3),
        robot(9, 5, -3, -3),
    ]
}

#[test]
fn safety_factor_of_the_sample() {
    assert_eq!(solve_a(sample(), 11, 7), 12);
}

#[test]
fn robots_on_the_middle_lines_do_not_count() {
    // after 100 seconds the robot stands where it started: in the middle column
    assert_eq!(solve_a(vec![robot(5, 0, 0, 0)], 11, 7), 0);
    assert_eq!(solve_a(vec![], 11, 7), 0);
}

#[test]
fn one_robot_in_every_quadrant() {
    let robots = vec![robot(0, 0, 0, 0), robot(10, 0, 0, 0), robot(0, 6, 0, 0), robot(10, 6, 0, 0)];
    assert_eq!(solve_a(robots, 11, 7), 1);
    let robots = vec![
        robot(0, 0, 0, 0),
        robot(1, 0, 11, 7),
        robot(10, 0, 0, 0),
        robot(0, 6, 0, 0),
        robot(10, 6, 0, 0),
        robot(9, 5, -11, -7),
        robot(9, 6, 0, 0),
    ];
    assert_eq!(solve_a(robots, 11, 7), 2 * 1 * 1 * 3);
}

#[test]
fn two_columns_of_robots_walking_into_line() {
    // two columns of four robots each; the lower two of each start one step to the left
    let mut robots = Vec::new();
    for col in [2, 5] {
        for row in 0..4 {
            robots.push(robot(col, row, 0, 0));
        }
    }
    for r in robots.iter_mut().filter(|r| r.pos.y >= 2) {
        r.pos.x -= 1;
        r.v.x = 1;
    }
    // after one second all eight stand in line; nine more seconds bring them round again
    let (seconds, picture) = find_chirstmas_tree(&mut robots, 9, 9, 0);
    assert_eq!(seconds, 1);
    assert_eq!(picture[0][2], 1);
    assert_eq!(picture[3][5], 1);
    assert_eq!(picture[0][0], 0);
    let (seconds, _) = find_chirstmas_tree(&mut robots, 9, 9, seconds);
    assert_eq!(seconds, 10);
}
