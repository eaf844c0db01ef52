//! A disk of files and free space: blocks are moved to make the files lie
//! together, and the checksum of what results is taken.

use vstd::prelude::*;
use crate::counting::{lemma_sum_over_take, sum_over};

use crate::text::is_digit;

verus! {

/// A run of blocks of the disk: where it begins, how long it is, and the
/// number of the file that it holds, if it holds one.
#[derive(Clone, Copy, Debug)]
pub struct Space {
    pub pos: usize,
    pub len: usize,
    pub id: Option<usize>,
}

/// The sum of the positions of `len` blocks from `pos` on, times `id`.
pub open spec fn span_sum(pos: nat, len: nat, id: nat) -> nat
    decreases len,
{
    if len == 0 {
        0
    } else {
        span_sum(pos, (len - 1) as nat, id) + (pos + len - 1) as nat * id
    }
}

/// The checksum of a list of files.
pub open spec fn checksum(files: Seq<Space>) -> nat {
    sum_over(files, |file: Space| span_sum(file.pos as nat, file.len as nat, file.id->0 as nat))
}

/// Every run of the list holds a file.
pub open spec fn all_files(files: Seq<Space>) -> bool {
    forall|i: int| 0 <= i < files.len() ==> (#[trigger] files[i]).id is Some
}

/// No run of the list reaches beyond what `usize` can hold.
pub open spec fn all_fit(spaces: Seq<Space>) -> bool {
    forall|i: int| 0 <= i < spaces.len() ==> (#[trigger] spaces[i]).pos + spaces[i].len <= usize::MAX
}

/// The free runs after a file has looked for room among the first `upto`
/// of them: the first run that lies before the file and is long enough
/// gives up its front blocks, and is taken off the list if nothing is left
/// of it.
pub open spec fn first_room(free_list: Seq<Space>, file: Space, upto: nat) -> Option<int>
    decreases upto,
{
    if upto == 0 {
        None
    } else {
        match first_room(free_list, file, (upto - 1) as nat) {
            Some(found) => Some(found),
            None => if free_list[upto - 1].pos < file.pos && free_list[upto - 1].len >= file.len {
                Some(upto - 1)
            } else {
                None
            },
        }
    }
}

/// Where a file lies after it has been moved into the first free run that
/// lies before it and is long enough, if there is one.
pub open spec fn moved_file(free_list: Seq<Space>, file: Space) -> Space {
    match first_room(free_list, file, free_list.len()) {
        Some(found) => Space { pos: free_list[found].pos, ..file },
        None => file,
    }
}

/// The free runs after a file has been moved.
pub open spec fn room_after(free_list: Seq<Space>, file: Space) -> Seq<Space> {
    match first_room(free_list, file, free_list.len()) {
        Some(found) => {
            let free = free_list[found];
            if free.len == file.len {
                free_list.remove(found)
            } else {
                free_list.update(
                    found,
                    Space {
                        pos: (free.pos + file.len) as usize,
                        len: (free.len - file.len) as usize,
                        id: free.id,
                    },
                )
            }
        },
        None => free_list,
    }
}

/// The free runs after the last `count` files have been moved, the last
/// one first.
pub open spec fn room_left(files: Seq<Space>, free_list: Seq<Space>, count: nat) -> Seq<Space>
    decreases count,
{
    if count == 0 {
        free_list
    } else {
        room_after(
            room_left(files, free_list, (count - 1) as nat),
            files[files.len() - count],
        )
    }
}

/// The last `count` files after each has been moved as far to the front as
/// it can be moved whole, the last one first.
pub open spec fn defragmented(files: Seq<Space>, free_list: Seq<Space>, count: nat) -> Seq<Space>
    decreases count,
{
    if count == 0 {
        Seq::empty()
    } else {
        defragmented(files, free_list, (count - 1) as nat).push(
            moved_file(room_left(files, free_list, (count - 1) as nat), files[files.len() - count]),
        )
    }
}

/// Free runs that a file has looked through still fit the disk.
pub proof fn lemma_room_after_fits(free_list: Seq<Space>, file: Space)
    requires
        all_fit(free_list),
    ensures
        all_fit(room_after(free_list, file)),
        moved_file(free_list, file).pos + file.len <= usize::MAX || moved_file(free_list, file)
            == file,
        moved_file(free_list, file).len == file.len,
        moved_file(free_list, file).id == file.id,
{
    lemma_first_room(free_list, file, free_list.len());
    match first_room(free_list, file, free_list.len()) {
        Some(found) => {
            let free = free_list[found];
            let after = room_after(free_list, file);
            assert(free.pos + free.len <= usize::MAX);
            assert forall|i: int| 0 <= i < after.len() implies (#[trigger] after[i]).pos
                + after[i].len <= usize::MAX by {
                if free.len == file.len {
                    if i < found {
                        assert(after[i] == free_list[i]);
                    } else {
                        assert(after[i] == free_list[i + 1]);
                    }
                } else {
                    if i != found {
                        assert(after[i] == free_list[i]);
                    }
                }
            }
        },
        None => {},
    }
}

/// What `first_room` finds lies among the runs looked at, lies before the
/// file and is long enough, and no run before it is.
pub proof fn lemma_first_room(free_list: Seq<Space>, file: Space, upto: nat)
    requires
        upto <= free_list.len(),
    ensures
        match first_room(free_list, file, upto) {
            Some(found) => {
                &&& 0 <= found < upto
                &&& free_list[found].pos < file.pos
                &&& free_list[found].len >= file.len
                &&& forall|i: int|
                    0 <= i < found ==> !((#[trigger] free_list[i]).pos < file.pos && free_list[i].len
                        >= file.len)
            },
            None => forall|i: int|
                0 <= i < upto ==> !((#[trigger] free_list[i]).pos < file.pos && free_list[i].len
                    >= file.len),
        },
    decreases upto,
{
    if upto > 0 {
        lemma_first_room(free_list, file, (upto - 1) as nat);
    }
}

/// The sum of the positions of the blocks of a run, times a number.
fn sum_span(pos: usize, len: usize, id: usize, sum: usize, Ghost(limit): Ghost<nat>) -> (total: usize)
    requires
        pos + len <= usize::MAX,
        sum + span_sum(pos as nat, len as nat, id as nat) <= limit,
        limit <= usize::MAX,
    ensures
        total == sum + span_sum(pos as nat, len as nat, id as nat),
{
    let mut total = sum;
    let mut p = pos;
    while p < pos + len
        invariant
            pos <= p <= pos + len,
            pos + len <= usize::MAX,
            total == sum + span_sum(pos as nat, (p - pos) as nat, id as nat),
            sum + span_sum(pos as nat, len as nat, id as nat) <= limit,
            limit <= usize::MAX,
        decreases pos + len - p,
    {
        proof {
            lemma_span_sum_mono(pos as nat, (p - pos + 1) as nat, len as nat, id as nat);
            assert(p as nat * id as nat == (pos + (p - pos + 1) - 1) as nat * id as nat);
            assert(p * id <= span_sum(pos as nat, (p - pos + 1) as nat, id as nat));
        }
        total += p * id;
        p += 1;
    }
    total
}

/// The sum over a shorter run is no larger.
pub proof fn lemma_span_sum_mono(pos: nat, fewer: nat, more: nat, id: nat)
    requires
        fewer <= more,
    ensures
        span_sum(pos, fewer, id) <= span_sum(pos, more, id),
    decreases more,
{
    if fewer < more {
        lemma_span_sum_mono(pos, fewer, (more - 1) as nat, id);
        assert((pos + more - 1) as nat * id >= 0) by (nonlinear_arith);
    }
}

/// The checksum of the disk after every file, from the last to the first,
/// has been moved whole into the first free run before it that is long
/// enough.
pub fn solve_b(files: Vec<Space>, free_list: Vec<Space>, total_size: usize) -> (sum: usize)
    requires
        all_files(files@),
        all_fit(files@),
        all_fit(free_list@),
        checksum(defragmented(files@, free_list@, files@.len())) <= usize::MAX,
    ensures
        sum == checksum(defragmented(files@, free_list@, files@.len())),
{
    let mut free_list = free_list;
    let ghost given = free_list@;
    let mut processed_files: Vec<Space> = Vec::new();
    let mut count: usize = 0;
    while count < files.len()
        invariant
            count <= files.len(),
            all_files(files@),
            all_fit(files@),
            all_fit(free_list@),
            free_list@ == room_left(files@, given, count as nat),
            processed_files@ == defragmented(files@, given, count as nat),
            all_files(processed_files@),
            all_fit(processed_files@),
        decreases files.len() - count,
    {
        let mut file = files[files.len() - 1 - count];
        let ghost free_before = free_list@;
        let ghost wanted = files@[files@.len() - (count + 1)];
        proof {
            assert(file == wanted);
            lemma_room_after_fits(free_before, file);
            lemma_first_room(free_before, file, free_before.len());
        }
        let mut free_idx: usize = 0;
        let mut moved = false;
        while free_idx < free_list.len()
            invariant_except_break
                !moved,
                free_list@ == free_before,
                file == wanted,
                first_room(free_before, wanted, free_idx as nat) is None,
            invariant
                free_idx <= free_before.len(),
                all_fit(free_before),
                wanted.pos + wanted.len <= usize::MAX,
            ensures
                free_list@ == room_after(free_before, wanted),
                file == moved_file(free_before, wanted),
            decreases free_before.len() - free_idx,
        {
            if free_list[free_idx].pos < file.pos && free_list[free_idx].len >= file.len {
                proof {
                    lemma_first_room_stays(
                        free_before,
                        wanted,
                        (free_idx + 1) as nat,
                        free_before.len(),
                    );
                    assert(free_before[free_idx as int].pos + free_before[free_idx as int].len
                        <= usize::MAX);
                }
                file.pos = free_list[free_idx].pos;

                let mut free = free_list[free_idx];
                free.pos += file.len;
                free.len -= file.len;
                free_list[free_idx] = free;

                if free_list[free_idx].len == 0 {
                    free_list.remove(free_idx);
                }
                moved = true;
                proof {
                    assert(free_list@ =~= room_after(free_before, wanted));
                }
                break ;
            }
            free_idx += 1;
        }
        let ghost done = processed_files@;
        processed_files.push(file);
        proof {
            assert forall|i: int| 0 <= i < processed_files@.len() implies (
            #[trigger] processed_files@[i]).id is Some && processed_files@[i].pos
                + processed_files@[i].len <= usize::MAX by {
                if i < done.len() {
                    assert(processed_files@[i] == done[i]);
                }
            }
        }
        count += 1;
    }

    let ghost term = |file: Space| span_sum(file.pos as nat, file.len as nat, file.id->0 as nat);
    let mut sum: usize = 0;
    let mut at: usize = 0;
    proof {
        assert(processed_files@.take(0) =~= Seq::<Space>::empty());
    }
    while at < processed_files.len()
        invariant
            at <= processed_files.len(),
            term == (|file: Space|
                span_sum(file.pos as nat, file.len as nat, file.id->0 as nat)),
            all_files(processed_files@),
            all_fit(processed_files@),
            sum_over(processed_files@, term) <= usize::MAX,
            sum == sum_over(processed_files@.take(at as int), term),
        decreases processed_files.len() - at,
    {
        let file = processed_files[at];
        proof {
            let next = processed_files@.take(at + 1);
            assert(next.drop_last() =~= processed_files@.take(at as int));
            assert(next.last() == file);
            lemma_sum_over_take(processed_files@, term, at + 1);
        }
        sum = sum_span(
            file.pos,
            file.len,
            file.id.unwrap(),
            sum,
            Ghost(sum_over(processed_files@, term)),
        );
        at += 1;
    }
    proof {
        assert(processed_files@.take(at as int) =~= processed_files@);
    }

    sum
}

/// Once room has been found, looking at more free runs changes nothing.
pub proof fn lemma_first_room_stays(free_list: Seq<Space>, file: Space, upto: nat, more: nat)
    requires
        upto <= more,
        first_room(free_list, file, upto) is Some,
    ensures
        first_room(free_list, file, more) == first_room(free_list, file, upto),
    decreases more,
{
    if upto < more {
        lemma_first_room_stays(free_list, file, upto, (more - 1) as nat);
    }
}

/// What filling `room` free blocks from position `at` on with blocks taken
/// from the end of the list of files leaves of the files, adds to the
/// checksum, and where it ends.
pub open spec fn fill(files: Seq<Space>, room: nat, at: nat) -> (Seq<Space>, nat, nat)
    decreases files.len(),
{
    if room == 0 || files.len() == 0 {
        (files, 0, at)
    } else {
        let last = files.last();
        let moved = if room < last.len { room } else { last.len as nat };
        let added = span_sum(at, moved, last.id->0 as nat);
        if last.len > moved {
            (
                files.drop_last().push(Space { len: (last.len - moved) as usize, ..last }),
                added,
                at + moved,
            )
        } else {
            let rest = fill(files.drop_last(), (room - moved) as nat, at + moved);
            (rest.0, added + rest.1, rest.2)
        }
    }
}

/// The checksum of the disk from position `at` on, after the free blocks
/// have been filled, from the front, with blocks taken from the end of the
/// last file. `files` and `free_list` are the runs from `at` on; the next
/// run begins at `at`.
pub open spec fn compacted_sum(files: Seq<Space>, free_list: Seq<Space>, at: nat) -> nat
    decreases files.len() + free_list.len(),
{
    if files.len() == 0 {
        0
    } else if files[0].pos <= at {
        span_sum(files[0].pos as nat, files[0].len as nat, files[0].id->0 as nat) + compacted_sum(
            files.skip(1),
            free_list,
            at + files[0].len as nat,
        )
    } else if free_list.len() == 0 {
        0
    } else {
        let filled = fill(files, free_list[0].len as nat, at);
        if filled.0.len() <= files.len() {
            filled.1 + compacted_sum(filled.0, free_list.skip(1), filled.2)
        } else {
            0
        }
    }
}

/// The runs lie one behind the other from position `at` on: the next run
/// is the first file or, before the first file, the first free run.
pub open spec fn laid_out(files: Seq<Space>, free_list: Seq<Space>, at: nat) -> bool
    decreases files.len() + free_list.len(),
{
    if files.len() == 0 {
        true
    } else if files[0].pos <= at {
        files[0].pos == at && laid_out(files.skip(1), free_list, at + files[0].len as nat)
    } else if free_list.len() == 0 {
        false
    } else {
        let filled = fill(files, free_list[0].len as nat, at);
        &&& free_list[0].pos == at
        &&& filled.0.len() <= files.len()
        &&& laid_out(filled.0, free_list.skip(1), filled.2)
    }
}

/// Filling keeps files files, makes the list no longer, and moves on by no
/// more than the room.
pub proof fn lemma_fill(files: Seq<Space>, room: nat, at: nat)
    requires
        all_files(files),
    ensures
        all_files(fill(files, room, at).0),
        fill(files, room, at).0.len() <= files.len(),
        at <= fill(files, room, at).2 <= at + room,
    decreases files.len(),
{
    if room != 0 && files.len() != 0 {
        let last = files.last();
        let moved = if room < last.len { room } else { last.len as nat };
        let front = files.drop_last();
        assert forall|i: int| 0 <= i < front.len() implies (#[trigger] front[i]).id is Some by {
            assert(front[i] == files[i]);
        }
        assert(files[files.len() - 1].id is Some);
        if last.len > moved {
            let kept = front.push(Space { len: (last.len - moved) as usize, ..last });
            assert forall|i: int| 0 <= i < kept.len() implies (#[trigger] kept[i]).id is Some by {
                if i < front.len() {
                    assert(kept[i] == front[i]);
                }
            }
        } else {
            lemma_fill(front, (room - moved) as nat, at + moved);
        }
    }
}

/// The checksum of the disk after its free blocks have been filled, from
/// the front, with the blocks of the last files, taken from the end.
pub fn solve_a(files: Vec<Space>, free_list: Vec<Space>, total_size: usize) -> (sum: usize)
    requires
        all_files(files@),
        laid_out(files@, free_list@, 0),
        compacted_sum(files@, free_list@, 0) <= usize::MAX,
        forall|i: int|
            0 <= i < free_list@.len() ==> (#[trigger] free_list@[i]).pos + free_list@[i].len
                <= total_size,
        forall|i: int|
            0 <= i < files@.len() ==> (#[trigger] files@[i]).pos + files@[i].len <= total_size,
    ensures
        sum == compacted_sum(files@, free_list@, 0),
{
    let mut files = files;
    let mut free_list = free_list;
    let ghost whole = compacted_sum(files@, free_list@, 0);
    let mut sum: usize = 0;

    let mut disk_idx: usize = 0;
    while disk_idx < total_size
        invariant_except_break
            sum + compacted_sum(files@, free_list@, disk_idx as nat) == whole,
        invariant
            disk_idx <= total_size,
            whole <= usize::MAX,
            all_files(files@),
            laid_out(files@, free_list@, disk_idx as nat),
            forall|i: int|
                0 <= i < free_list@.len() ==> (#[trigger] free_list@[i]).pos + free_list@[i].len
                    <= total_size,
            forall|i: int|
                0 <= i < files@.len() ==> (#[trigger] files@[i]).pos + files@[i].len
                    <= total_size,
        ensures
            sum + compacted_sum(files@, free_list@, disk_idx as nat) == whole,
            files@.len() == 0 || disk_idx >= total_size,
        decreases files@.len() + free_list@.len(),
    {
        if files.is_empty() {
            break ;
        }
        let ghost files_before = files@;
        let ghost free_before = free_list@;
        if files[0].pos <= disk_idx {
            let f = files.remove(0);
            proof {
                assert(files@ =~= files_before.skip(1));
                assert(f == files_before[0]);
                assert forall|i: int| 0 <= i < files@.len() implies (#[trigger] files@[i]).id
                    is Some && files@[i].pos + files@[i].len <= total_size by {
                    assert(files@[i] == files_before[i + 1]);
                }
            }
            sum = sum_span(f.pos, f.len, f.id.unwrap(), sum, Ghost(whole));

            disk_idx += f.len;
            continue ;
        }
        assert(free_before.len() > 0);
        let mut free = free_list.remove(0);
        proof {
            assert(free_list@ =~= free_before.skip(1));
            assert(free == free_before[0]);
            assert forall|i: int| 0 <= i < free_list@.len() implies (#[trigger] free_list@[i]).pos
                + free_list@[i].len <= total_size by {
                assert(free_list@[i] == free_before[i + 1]);
            }
            lemma_fill(files_before, free.len as nat, disk_idx as nat);
        }
        let ghost target = fill(files_before, free.len as nat, disk_idx as nat);
        let ghost start_sum = sum;

        while free.len > 0
            invariant_except_break
                fill(files@, free.len as nat, disk_idx as nat).0 == target.0,
                sum + fill(files@, free.len as nat, disk_idx as nat).1 == start_sum + target.1,
                fill(files@, free.len as nat, disk_idx as nat).2 == target.2,
            invariant
                all_files(files@),
                start_sum + target.1 <= whole,
                whole <= usize::MAX,
                target.2 <= total_size,
                disk_idx + free.len <= total_size,
                forall|i: int|
                    0 <= i < files@.len() ==> (#[trigger] files@[i]).pos + files@[i].len
                        <= total_size,
            ensures
                files@ == target.0,
                sum == start_sum + target.1,
                disk_idx == target.2,
            decreases files@.len(),
        {
            if files.is_empty() {
                break ;
            }
            let ghost here = files@;
            proof {
                lemma_fill(here, free.len as nat, disk_idx as nat);
            }
            let mut f = files.pop().unwrap();
            proof {
                assert(f == here.last());
                assert(here[here.len() - 1].id is Some);
                assert(files@ == here.drop_last());
                assert forall|i: int| 0 <= i < files@.len() implies (#[trigger] files@[i]).id
                    is Some && files@[i].pos + files@[i].len <= total_size by {
                    assert(files@[i] == here[i]);
                }
            }

            let moved_len = if free.len < f.len {
                free.len
            } else {
                f.len
            };
            proof {
                lemma_fill(files@, (free.len - moved_len) as nat, (disk_idx + moved_len) as nat);
            }

            sum = sum_span(disk_idx, moved_len, f.id.unwrap(), sum, Ghost(whole));

            disk_idx += moved_len;
            free.len -= moved_len;
            f.len -= moved_len;

            if f.len > 0 {
                files.push(f);
                proof {
                    assert forall|i: int| 0 <= i < files@.len() implies (#[trigger] files@[i]).id
                        is Some && files@[i].pos + files@[i].len <= total_size by {
                        if i < here.len() - 1 {
                            assert(files@[i] == here[i]);
                        } else {
                            assert(here[here.len() - 1].pos + here[here.len() - 1].len
                                <= total_size);
                        }
                    }
                }
                break ;
            }
        }
    }

    proof {
        if files@.len() > 0 {
            lemma_nothing_left(files@, free_list@, disk_idx as nat, total_size as nat);
        }
    }
    sum
}

/// Beyond the end of the disk nothing adds to the checksum.
pub proof fn lemma_nothing_left(files: Seq<Space>, free_list: Seq<Space>, at: nat, total: nat)
    requires
        laid_out(files, free_list, at),
        at >= total,
        forall|i: int|
            0 <= i < free_list.len() ==> (#[trigger] free_list[i]).pos + free_list[i].len <= total,
        forall|i: int| 0 <= i < files.len() ==> (#[trigger] files[i]).pos + files[i].len <= total,
    ensures
        compacted_sum(files, free_list, at) == 0,
    decreases files.len() + free_list.len(),
{
    if files.len() > 0 {
        if files[0].pos <= at {
            let rest = files.skip(1);
            assert forall|i: int| 0 <= i < rest.len() implies (#[trigger] rest[i]).pos + rest[i].len
                <= total by {
                assert(rest[i] == files[i + 1]);
            }
            lemma_nothing_left(rest, free_list, at + files[0].len as nat, total);
        } else if free_list.len() > 0 {
            let rest = free_list.skip(1);
            assert forall|i: int| 0 <= i < rest.len() implies (#[trigger] rest[i]).pos + rest[i].len
                <= total by {
                assert(rest[i] == free_list[i + 1]);
            }
            assert(free_list[0].len == 0);
            lemma_nothing_left(files, rest, at, total);
        }
    }
}

/// The digit that stands at `at`.
pub open spec fn digit_at(text: Seq<u8>, at: int) -> nat {
    (text[at] - 0x30) as nat
}

/// The number of blocks that the first `upto` digits of a disk map stand
/// for.
pub open spec fn size_upto(text: Seq<u8>, upto: int) -> nat
    decreases upto,
{
    if upto <= 0 {
        0
    } else {
        size_upto(text, upto - 1) + digit_at(text, upto - 1)
    }
}

/// The files that the first `upto` digits of a disk map stand for: every
/// other digit, beginning with the first, is the length of a file, and the
/// files are numbered in their order. No file has the length 0.
pub open spec fn files_upto(text: Seq<u8>, upto: int) -> Seq<Space>
    decreases upto,
{
    if upto <= 0 {
        Seq::empty()
    } else {
        let before = files_upto(text, upto - 1);
        if digit_at(text, upto - 1) != 0 && (upto - 1) % 2 == 0 {
            before.push(
                Space {
                    pos: size_upto(text, upto - 1) as usize,
                    len: digit_at(text, upto - 1) as usize,
                    id: Some(before.len() as usize),
                },
            )
        } else {
            before
        }
    }
}

/// The free runs that the first `upto` digits of a disk map stand for:
/// every other digit, beginning with the second, is the length of a free
/// run. No run has the length 0.
pub open spec fn frees_upto(text: Seq<u8>, upto: int) -> Seq<Space>
    decreases upto,
{
    if upto <= 0 {
        Seq::empty()
    } else {
        let before = frees_upto(text, upto - 1);
        if digit_at(text, upto - 1) != 0 && (upto - 1) % 2 == 1 {
            before.push(
                Space {
                    pos: size_upto(text, upto - 1) as usize,
                    len: digit_at(text, upto - 1) as usize,
                    id: None,
                },
            )
        } else {
            before
        }
    }
}

/// Every byte of the text is a digit.
pub open spec fn only_digits(text: Seq<u8>) -> bool {
    forall|i: int| 0 <= i < text.len() ==> is_digit(#[trigger] text[i])
}

/// Reads a disk map: the files, the free runs and the number of blocks.
/// Nothing is read where the text holds anything but digits.
pub fn read_disk(text: &[u8]) -> (read: Option<(Vec<Space>, Vec<Space>, usize)>)
    requires
        9 * text@.len() <= usize::MAX,
    ensures
        read is Some == only_digits(text@),
        read matches Some(found) ==> {
            &&& found.0@ == files_upto(text@, text@.len() as int)
            &&& found.1@ == frees_upto(text@, text@.len() as int)
            &&& found.2 == size_upto(text@, text@.len() as int)
        },
{
    let mut free_list: Vec<Space> = Vec::new();
    let mut files: Vec<Space> = Vec::new();
    let mut total_size: usize = 0;
    let mut next_file_id: usize = 0;
    let mut idx: usize = 0;
    while idx < text.len()
        invariant
            idx <= text.len(),
            9 * text@.len() <= usize::MAX,
            forall|i: int| 0 <= i < idx ==> is_digit(#[trigger] text@[i]),
            files@ == files_upto(text@, idx as int),
            free_list@ == frees_upto(text@, idx as int),
            total_size == size_upto(text@, idx as int),
            total_size <= 9 * idx,
            next_file_id == files@.len(),
            next_file_id <= idx,
        decreases text.len() - idx,
    {
        let byte = text[idx];
        if byte < 0x30 || byte > 0x39 {
            assert(!is_digit(text@[idx as int]));
            return None;
        }
        let num = (byte - 0x30) as usize;
        if num != 0 {
            if idx % 2 == 1 {
                free_list.push(Space { pos: total_size, len: num, id: None });
            } else {
                files.push(Space { pos: total_size, len: num, id: Some(next_file_id) });
                next_file_id += 1;
            }
            total_size += num;
        }
        idx += 1;
    }
    Some((files, free_list, total_size))
}

} // verus!
