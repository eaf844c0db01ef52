//! Finding a way through a square memory space, from the top left corner to
//! the bottom right one, around the cells that have been corrupted.

use vstd::prelude::*;
use crate::grid_walk::{
    Arena, bounded, closed, covered, entry, fits_arena, is_distance, is_open, lemma_bounded_settle,
    lemma_bounded_skip, lemma_closed_settle, lemma_closed_skip, lemma_covered_by_item,
    lemma_covered_kept, lemma_entry_reached, lemma_neighbours_covered, lemma_pushed_reached,
    lemma_search_begins, lemma_sound_settle, lemma_sound_skip, lemma_table_exact,
    lemma_table_known_bound, lemma_table_set_measures, lemma_top_item, neighbours, never_reached,
    cell_count, empty_table, get_entry, set_entry,
    pushed_ok, reached, sound, table_known, table_shape, table_total,
};

use crate::grid_walk::is_walk;
use crate::marks::{blank_marks, mark_set, marks_shape, set_mark};

use crate::shapes::{figures_on, lemma_row_read, line_too_large, read_lines, Piece};
use crate::text::{all_lines, lines_of};

verus! {

/// The square of side `map_size`, entered at the top left and left at the
/// bottom right.
pub open spec fn square(map_size: usize) -> Arena {
    Arena {
        rows: map_size as int,
        cols: map_size as int,
        start: (0, 0),
        end: (map_size - 1, map_size - 1),
    }
}

/// The number of steps of a way from the top left corner to the bottom right
/// corner that enters no corrupted cell, if there is such a way. With
/// `shortest` it is the least number of steps of any such way; without, the
/// search stops at the first way it finds.
pub fn find_path(map: &Vec<Vec<bool>>, map_size: usize, shortest: bool) -> (steps: Option<u64>)
    requires
        map_size > 0,
        map_size * map_size < u64::MAX,
        fits_arena(map@, square(map_size)),
    ensures
        match steps {
            Some(found) => {
                &&& reached(map@, square(map_size), square(map_size).end, found as int)
                &&& shortest ==> is_distance(
                    map@,
                    square(map_size),
                    square(map_size).end,
                    found as int,
                )
            },
            None => never_reached(map@, square(map_size), square(map_size).end),
        },
{
    let ghost arena = square(map_size);
    let ghost cells = cell_count(arena);
    proof {
        reveal(cell_count);
    }
    let mut queue: Vec<(usize, usize, u64)> = vec![(0, 0, 0u64)];
    let mut visited = empty_table(map_size, map_size);
    let mut stopped = false;
    proof {
        lemma_search_begins(map@, arena, visited@, queue@, 1);
    }
    while queue.len() > 0
        invariant_except_break
            !stopped,
            closed(map@, arena, visited@, queue@),
            bounded(arena, visited@, queue@, 1),
        invariant
            arena == square(map_size),
            map_size > 0,
            cells == cell_count(arena),
            cells < u64::MAX,
            fits_arena(map@, arena),
            table_shape(visited@, arena),
            sound(map@, arena, visited@, queue@),
            table_known(visited@) <= cells,
        ensures
            stopped ==> !shortest && entry(visited@, arena.end) is Some,
            !stopped ==> queue@.len() == 0 && closed(map@, arena, visited@, queue@),
        decreases cells - table_known(visited@), table_total(visited@), queue.len(),
    {
        let ghost stack = queue@;
        let ghost table = visited@;
        let (row, col, steps) = queue.pop().unwrap();
        let ghost here = (row as int, col as int);
        proof {
            assert(stack.last() == (row, col, steps));
            assert(queue@ == stack.drop_last());
            lemma_top_item(map@, arena, table, stack, 1);
        }
        if let Some(old_steps) = get_entry(&visited, row, col) {
            if old_steps <= steps {
                proof {
                    lemma_closed_skip(map@, arena, table, stack);
                    lemma_sound_skip(map@, arena, table, stack);
                    lemma_bounded_skip(arena, table, stack, 1);
                }
                continue ;
            }
        }
        set_entry(&mut visited, row, col, steps);
        proof {
            lemma_table_set_measures(table, visited@, arena, here, steps);
            lemma_table_known_bound(visited@, arena);
        }

        if row == map_size - 1 && col == map_size - 1 {
            proof {
                lemma_sound_settle(map@, arena, table, stack, visited@, queue@);
            }
            if !shortest {
                stopped = true;
                break ;
            } else {
                proof {
                    lemma_closed_settle(map@, arena, table, stack, visited@, queue@);
                    lemma_bounded_settle(arena, table, stack, visited@, queue@, 1);
                }
                continue ;
            }
        }
        let ghost base = queue@.len() as int;
        let ghost around = neighbours(here);

        if row > 0 && !map[row - 1][col] {
            queue.push((row - 1, col, steps + 1));
            proof {
                lemma_covered_by_item(visited@, queue@, queue@.len() - 1, steps + 1);
            }
        }
        assert(is_open(map@, arena, around[0]) ==> covered(visited@, queue@, around[0], steps + 1));
        assert(pushed_ok(map@, arena, queue@, base, here, steps));
        let ghost after_up = queue@;

        if col > 0 && !map[row][col - 1] {
            queue.push((row, col - 1, steps + 1));
            proof {
                lemma_covered_by_item(visited@, queue@, queue@.len() - 1, steps + 1);
            }
        }
        proof {
            lemma_covered_kept(visited@, after_up, queue@, around[0], steps + 1);
        }
        assert(is_open(map@, arena, around[2]) ==> covered(visited@, queue@, around[2], steps + 1));
        assert(pushed_ok(map@, arena, queue@, base, here, steps));
        let ghost after_left = queue@;

        if row + 1 < map_size && !map[row + 1][col] {
            queue.push((row + 1, col, steps + 1));
            proof {
                lemma_covered_by_item(visited@, queue@, queue@.len() - 1, steps + 1);
            }
        }
        proof {
            lemma_covered_kept(visited@, after_left, queue@, around[0], steps + 1);
            lemma_covered_kept(visited@, after_left, queue@, around[2], steps + 1);
        }
        assert(is_open(map@, arena, around[1]) ==> covered(visited@, queue@, around[1], steps + 1));
        assert(pushed_ok(map@, arena, queue@, base, here, steps));
        let ghost after_down = queue@;

        if col + 1 < map_size && !map[row][col + 1] {
            queue.push((row, col + 1, steps + 1));
            proof {
                lemma_covered_by_item(visited@, queue@, queue@.len() - 1, steps + 1);
            }
        }
        proof {
            lemma_covered_kept(visited@, after_down, queue@, around[0], steps + 1);
            lemma_covered_kept(visited@, after_down, queue@, around[1], steps + 1);
            lemma_covered_kept(visited@, after_down, queue@, around[2], steps + 1);
        }
        assert(is_open(map@, arena, around[3]) ==> covered(visited@, queue@, around[3], steps + 1));
        assert(pushed_ok(map@, arena, queue@, base, here, steps));
        proof {
            lemma_neighbours_covered(map@, arena, visited@, queue@, here, steps + 1);
            lemma_pushed_reached(map@, arena, queue@, base, here, steps);
            lemma_closed_settle(map@, arena, table, stack, visited@, queue@);
            lemma_sound_settle(map@, arena, table, stack, visited@, queue@);
            lemma_bounded_settle(arena, table, stack, visited@, queue@, 1);
        }
    }

    proof {
        if !stopped {
            assert(queue@ =~= Seq::<(usize, usize, u64)>::empty());
            lemma_table_exact(map@, arena, visited@, arena.end);
        } else {
            lemma_entry_reached(map@, arena, visited@, queue@, arena.end);
        }
    }
    get_entry(&visited, map_size - 1, map_size - 1)
}

/// One of the first `count` bytes fell on the cell.
pub open spec fn hit(bytes: Seq<(usize, usize)>, count: int, cell: (int, int)) -> bool {
    exists|i: int| 0 <= i < count && #[trigger] bytes[i] == (cell.0 as usize, cell.1 as usize)
}

/// The grid shows the memory space after the first `count` bytes have
/// fallen: it is a square, and a cell is corrupted where a byte fell on it.
pub open spec fn fallen(
    bytes: Seq<(usize, usize)>,
    count: int,
    map_size: usize,
    map: Seq<Vec<bool>>,
) -> bool {
    &&& marks_shape(map, map_size as int, map_size as int)
    &&& forall|r: int, c: int|
        0 <= r < map_size && 0 <= c < map_size ==> #[trigger] map[r]@[c] == hit(bytes, count, (r, c))
}

/// Each of the bytes from `from` up to `to` falls into the memory space.
pub open spec fn bytes_within(bytes: Seq<(usize, usize)>, from: int, to: int, map_size: usize) -> bool {
    forall|i: int|
        from <= i < to ==> (#[trigger] bytes[i]).0 < map_size && bytes[i].1 < map_size
}

/// After the byte at `at` has fallen, no way leads through the memory space.
pub open spec fn cuts(bytes: Seq<(usize, usize)>, at: int, map_size: usize) -> bool {
    forall|map: Seq<Vec<bool>>| #[trigger]
        fallen(bytes, at + 1, map_size, map) ==> never_reached(
            map,
            square(map_size),
            square(map_size).end,
        )
}

/// Two grids with the same corrupted cells have the same walks.
pub proof fn lemma_same_walks(
    one: Seq<Vec<bool>>,
    other: Seq<Vec<bool>>,
    map_size: usize,
    path: Seq<(int, int)>,
)
    requires
        forall|r: int, c: int|
            0 <= r < map_size && 0 <= c < map_size ==> #[trigger] one[r]@[c] == other[r]@[c],
        is_walk(one, square(map_size), path),
    ensures
        is_walk(other, square(map_size), path),
{
    let arena = square(map_size);
    assert forall|i: int| 0 < i < path.len() implies is_open(other, arena, #[trigger] path[i]) by {
        assert(is_open(one, arena, path[i]));
    }
}

/// Two grids with the same corrupted cells: where no way leads through the
/// one, none leads through the other.
pub proof fn lemma_same_reach(one: Seq<Vec<bool>>, other: Seq<Vec<bool>>, map_size: usize)
    requires
        forall|r: int, c: int|
            0 <= r < map_size && 0 <= c < map_size ==> #[trigger] one[r]@[c] == other[r]@[c],
        never_reached(one, square(map_size), square(map_size).end),
    ensures
        never_reached(other, square(map_size), square(map_size).end),
{
    reveal(reached);
    let arena = square(map_size);
    assert forall|steps: int| !reached(other, arena, arena.end, steps) by {
        if reached(other, arena, arena.end, steps) {
            let path = choose|path: Seq<(int, int)>| #[trigger]
                is_walk(other, arena, path) && path.last() == arena.end && path.len() == steps + 1;
            lemma_same_walks(other, one, map_size, path);
            assert(reached(one, arena, arena.end, steps));
        }
    }
}

/// The memory space after the first `num_bytes` bytes have fallen; after
/// all of them, where there are fewer.
pub fn corrupt(falling_bytes: &Vec<(usize, usize)>, num_bytes: usize, map_size: usize) -> (map: Vec<
    Vec<bool>,
>)
    requires
        bytes_within(
            falling_bytes@,
            0,
            if num_bytes <= falling_bytes.len() {
                num_bytes as int
            } else {
                falling_bytes.len() as int
            },
            map_size,
        ),
    ensures
        fallen(
            falling_bytes@,
            if num_bytes <= falling_bytes.len() {
                num_bytes as int
            } else {
                falling_bytes.len() as int
            },
            map_size,
            map@,
        ),
{
    let mut map = blank_marks(map_size, map_size);
    let count = if num_bytes <= falling_bytes.len() {
        num_bytes
    } else {
        falling_bytes.len()
    };
    let mut at: usize = 0;
    while at < count
        invariant
            at <= count <= falling_bytes.len(),
            bytes_within(falling_bytes@, 0, count as int, map_size),
            fallen(falling_bytes@, at as int, map_size, map@),
        decreases count - at,
    {
        let (row, col) = falling_bytes[at];
        let ghost before = map@;
        set_mark(&mut map, row, col);
        proof {
            lemma_one_more(falling_bytes@, at as int, map_size, before, map@);
        }
        at += 1;
    }
    map
}

/// A grid that shows `count` fallen bytes shows one more once the cell of
/// the next byte is corrupted.
pub proof fn lemma_one_more(
    bytes: Seq<(usize, usize)>,
    count: int,
    map_size: usize,
    before: Seq<Vec<bool>>,
    after: Seq<Vec<bool>>,
)
    requires
        0 <= count < bytes.len(),
        bytes[count].0 < map_size,
        bytes[count].1 < map_size,
        fallen(bytes, count, map_size, before),
        mark_set(before, after, (bytes[count].0 as int, bytes[count].1 as int)),
    ensures
        fallen(bytes, count + 1, map_size, after),
{
    let cell = (bytes[count].0 as int, bytes[count].1 as int);
    assert forall|r: int, c: int| 0 <= r < map_size && 0 <= c < map_size implies #[trigger] after[r]@[c]
        == hit(bytes, count + 1, (r, c)) by {
        assert(before[r]@[c] == hit(bytes, count, (r, c)));
        if hit(bytes, count, (r, c)) {
            let i = choose|i: int| 0 <= i < count && #[trigger] bytes[i] == (r as usize, c as usize);
            assert(bytes[i] == (r as usize, c as usize));
        }
        if (r, c) == cell {
            assert(bytes[count] == (r as usize, c as usize));
        } else if hit(bytes, count + 1, (r, c)) {
            let i = choose|i: int|
                0 <= i < count + 1 && #[trigger] bytes[i] == (r as usize, c as usize);
            assert(i < count);
        }
        if r != cell.0 {
            assert(after[r] == before[r]);
        }
    }
    assert forall|r: int| 0 <= r < map_size implies (#[trigger] after[r]).len() == map_size by {
        if r != cell.0 {
            assert(after[r] == before[r]);
        }
    }
}

/// Lets the bytes from `num_bytes` on fall, one after the other, and gives
/// the first after which no way leads through the memory space.
pub fn first_cut(
    map: &mut Vec<Vec<bool>>,
    falling_bytes: &Vec<(usize, usize)>,
    num_bytes: usize,
    map_size: usize,
) -> (byte: (usize, usize))
    requires
        map_size > 0,
        map_size * map_size < u64::MAX,
        fallen(falling_bytes@, num_bytes as int, map_size, old(map)@),
        exists|at: int|
            num_bytes <= at < falling_bytes.len() && #[trigger] cuts(falling_bytes@, at, map_size)
                && bytes_within(falling_bytes@, num_bytes as int, at + 1, map_size),
    ensures
        exists|at: int|
            {
                &&& num_bytes <= at < falling_bytes.len()
                &&& byte == falling_bytes@[at]
                &&& #[trigger] cuts(falling_bytes@, at, map_size)
                &&& fallen(falling_bytes@, at + 1, map_size, final(map)@)
                &&& forall|before: int| num_bytes <= before < at ==> !cuts(falling_bytes@, before, map_size)
            },
{
    let ghost goal = choose|at: int|
        num_bytes <= at < falling_bytes.len() && #[trigger] cuts(falling_bytes@, at, map_size)
            && bytes_within(falling_bytes@, num_bytes as int, at + 1, map_size);
    let mut next_byte = num_bytes;
    loop
        invariant_except_break
            fallen(falling_bytes@, next_byte as int, map_size, map@),
        invariant
            map_size > 0,
            map_size * map_size < u64::MAX,
            num_bytes <= next_byte <= goal < falling_bytes.len(),
            cuts(falling_bytes@, goal, map_size),
            bytes_within(falling_bytes@, num_bytes as int, goal + 1, map_size),
            forall|before: int|
                num_bytes <= before < next_byte ==> !cuts(falling_bytes@, before, map_size),
        ensures
            cuts(falling_bytes@, next_byte as int, map_size),
            fallen(falling_bytes@, next_byte + 1, map_size, map@),
        decreases goal - next_byte,
    {
        let (row, col) = falling_bytes[next_byte];
        let ghost before = map@;
        set_mark(map, row, col);
        proof {
            lemma_one_more(falling_bytes@, next_byte as int, map_size, before, map@);
        }
        if find_path(map, map_size, false).is_none() {
            proof {
                assert forall|other: Seq<Vec<bool>>| #[trigger]
                    fallen(falling_bytes@, next_byte + 1, map_size, other) implies never_reached(
                    other,
                    square(map_size),
                    square(map_size).end,
                ) by {
                    lemma_same_reach(map@, other, map_size);
                }
            }
            break ;
        }
        proof {
            if cuts(falling_bytes@, next_byte as int, map_size) {
                assert(fallen(falling_bytes@, next_byte + 1, map_size, map@));
            }
        }
        next_byte += 1;
    }
    falling_bytes[next_byte]
}

/// The shape of a line that tells where a byte falls: two numbers with a
/// comma between them.
pub open spec fn coord_shape() -> Seq<Piece> {
    seq![Piece::Number, Piece::Byte(0x2c), Piece::Number]
}

/// Where the byte of a line falls: the two numbers of the line, where it
/// has that shape and the numbers fit.
pub open spec fn coord_of(text: Seq<u8>, line: (usize, usize)) -> Option<(usize, usize)> {
    match figures_on(text, line, coord_shape(), 2) {
        Some(figures) => if figures[0].1 <= usize::MAX && figures[1].1 <= usize::MAX {
            Some((figures[0].1 as usize, figures[1].1 as usize))
        } else {
            None
        },
        None => None,
    }
}

/// Reads where the bytes fall, one byte on each line. Nothing is read where
/// a line is not two numbers with a comma between them.
pub fn read_bytes(text: &[u8]) -> (bytes: Option<Vec<(usize, usize)>>)
    ensures
        match bytes {
            Some(found) => {
                &&& found@.len() == lines_of(text@, 0, text@.len() as int).len()
                &&& forall|i: int|
                    0 <= i < found@.len() ==> coord_of(
                        text@,
                        lines_of(text@, 0, text@.len() as int)[i],
                    ) == Some(#[trigger] found@[i])
            },
            None => exists|i: int|
                0 <= i < lines_of(text@, 0, text@.len() as int).len() && coord_of(
                    text@,
                    #[trigger] lines_of(text@, 0, text@.len() as int)[i],
                ) is None,
        },
{
    let lines = all_lines(text);
    let pieces = vec![Piece::Number, Piece::Byte(0x2c), Piece::Number];
    assert(pieces@ =~= coord_shape());
    let rows = match read_lines(text, &lines, &pieces) {
        Some(rows) => rows,
        None => {
            proof {
                let i = choose|i: int|
                    0 <= i < lines@.len() && #[trigger] line_too_large(text@, lines@, pieces@, i);
                assert(coord_of(text@, lines@[i]) is None);
            }
            return None;
        },
    };
    let mut bytes: Vec<(usize, usize)> = Vec::new();
    let mut at: usize = 0;
    while at < rows.len()
        invariant
            at <= rows.len(),
            rows@.len() == lines@.len(),
            lines@ == lines_of(text@, 0, text@.len() as int),
            pieces@ == coord_shape(),
            crate::shapes::lines_show(text@, lines@, pieces@, rows@),
            bytes@.len() == at,
            forall|i: int| 0 <= i < at ==> coord_of(text@, lines@[i]) == Some(#[trigger] bytes@[i]),
        decreases rows.len() - at,
    {
        proof {
            lemma_row_read(text@, lines@[at as int], pieces@, rows@[at as int], 2);
        }
        let coord = match &rows[at] {
            Some(numbers) => {
                if numbers.len() == 2 && numbers[0].1 <= usize::MAX as u64 && numbers[1].1
                    <= usize::MAX as u64 {
                    Some((numbers[0].1 as usize, numbers[1].1 as usize))
                } else {
                    None
                }
            },
            None => None,
        };
        match coord {
            Some(cell) => {
                bytes.push(cell);
            },
            None => {
                assert(coord_of(text@, lines@[at as int]) is None);
                return None;
            },
        }
        at += 1;
    }
    Some(bytes)
}

} // verus!
