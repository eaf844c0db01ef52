//! Robots typing on keypads.
//!
//! A numeric keypad is operated through a chain of directional keypads: a
//! key pressed on one pad moves, or activates, the pointer on the pad below.

use vstd::prelude::*;
use vstd::pervasive::unreached;
use std::collections::HashMap;
use crate::counting::{sum_over, lemma_sum_over_take};

use crate::text::{all_lines, lines_of};

verus! {

/// A key of the numeric keypad.
#[derive(Debug, Clone, Copy, PartialEq, Eq, Hash, Structural)]
pub enum NumKey {
    Num(u8),
    Activate,
}

/// A key of a directional keypad.
#[derive(Debug, Clone, Copy, PartialEq, Eq, Hash, Structural)]
pub enum DirKey {
    Up,
    Down,
    Left,
    Right,
    Activate,
}

/// Row and column of a key on the numeric keypad; a digit above nine has no
/// place on it.
pub open spec fn num_key_pos(key: NumKey) -> (int, int) {
    match key {
        NumKey::Num(n) => if n == 0 {
            (3, 1)
        } else {
            (2 - (n - 1) / 3, (n - 1) % 3)
        },
        NumKey::Activate => (3, 2),
    }
}

/// Row and column of a key on a directional keypad.
pub open spec fn dir_key_pos(key: DirKey) -> (int, int) {
    match key {
        DirKey::Up => (0, 1),
        DirKey::Down => (1, 1),
        DirKey::Left => (1, 0),
        DirKey::Right => (1, 2),
        DirKey::Activate => (0, 2),
    }
}

impl NumKey {
    /// Where the key sits on the numeric keypad.
    pub fn to_keypad_pos(self) -> (pos: (isize, isize))
        requires
            self matches NumKey::Num(n) ==> n < 10,
        ensures
            pos.0 == num_key_pos(self).0,
            pos.1 == num_key_pos(self).1,
    {
        match self {
            Self::Num(n) => match n {
                0 => (3, 1),
                1 => (2, 0),
                2 => (2, 1),
                3 => (2, 2),
                4 => (1, 0),
                5 => (1, 1),
                6 => (1, 2),
                7 => (0, 0),
                8 => (0, 1),
                _ => (0, 2),
            },
            Self::Activate => (3, 2),
        }
    }
}

impl DirKey {
    /// Where the key sits on a directional keypad.
    pub fn to_keypad_pos(self) -> (pos: (isize, isize))
        ensures
            pos.0 == dir_key_pos(self).0,
            pos.1 == dir_key_pos(self).1,
    {
        match self {
            DirKey::Up => (0, 1),
            DirKey::Down => (1, 1),
            DirKey::Left => (1, 0),
            DirKey::Right => (1, 2),
            DirKey::Activate => (0, 2),
        }
    }
}

/// The keys of the numeric keypad, row by row; the gap holds none.
pub open spec fn num_pad_keys() -> Seq<Option<NumKey>> {
    seq![
        Some(NumKey::Num(7)),
        Some(NumKey::Num(8)),
        Some(NumKey::Num(9)),
        Some(NumKey::Num(4)),
        Some(NumKey::Num(5)),
        Some(NumKey::Num(6)),
        Some(NumKey::Num(1)),
        Some(NumKey::Num(2)),
        Some(NumKey::Num(3)),
        None,
        Some(NumKey::Num(0)),
        Some(NumKey::Activate),
    ]
}

/// The keys of a directional keypad, row by row; the gap holds none.
pub open spec fn dir_pad_keys() -> Seq<Option<DirKey>> {
    seq![
        None,
        Some(DirKey::Up),
        Some(DirKey::Activate),
        Some(DirKey::Left),
        Some(DirKey::Down),
        Some(DirKey::Right),
    ]
}

/// A keypad: its size, where its pointer starts, and which key lies where.
pub trait KeyPad {
    const ROWS: usize;

    const COLS: usize;

    const START_ROW: usize;

    const START_COL: usize;

    type KeyT;

    /// The keys row by row, three to a row.
    spec fn keys() -> Seq<Option<Self::KeyT>>;

    /// The key at a position, if the position holds one. The position is
    /// looked up in the row-by-row list, so it has to lie within that list.
    fn map_pos_to_key(row: usize, col: usize) -> (key: Option<Self::KeyT>)
        requires
            3 * row + col < Self::keys().len(),
        ensures
            key == Self::keys()[3 * row + col],
    ;
}

pub struct NumKeyPad {}

impl KeyPad for NumKeyPad {
    const ROWS: usize = 4;

    const COLS: usize = 3;

    const START_ROW: usize = 3;

    const START_COL: usize = 2;

    type KeyT = NumKey;

    open spec fn keys() -> Seq<Option<NumKey>> {
        num_pad_keys()
    }

    fn map_pos_to_key(row: usize, col: usize) -> (key: Option<NumKey>) {
        match 3 * row + col {
            0 => Some(NumKey::Num(7)),
            1 => Some(NumKey::Num(8)),
            2 => Some(NumKey::Num(9)),
            3 => Some(NumKey::Num(4)),
            4 => Some(NumKey::Num(5)),
            5 => Some(NumKey::Num(6)),
            6 => Some(NumKey::Num(1)),
            7 => Some(NumKey::Num(2)),
            8 => Some(NumKey::Num(3)),
            9 => None,
            10 => Some(NumKey::Num(0)),
            11 => Some(NumKey::Activate),
            _ => unreached(),
        }
    }
}

pub struct DirKeyPad {}

impl KeyPad for DirKeyPad {
    const ROWS: usize = 2;

    const COLS: usize = 3;

    const START_ROW: usize = 0;

    const START_COL: usize = 2;

    type KeyT = DirKey;

    open spec fn keys() -> Seq<Option<DirKey>> {
        dir_pad_keys()
    }

    fn map_pos_to_key(row: usize, col: usize) -> (key: Option<DirKey>) {
        match 3 * row + col {
            0 => None,
            1 => Some(DirKey::Up),
            2 => Some(DirKey::Activate),
            3 => Some(DirKey::Left),
            4 => Some(DirKey::Down),
            5 => Some(DirKey::Right),
            _ => unreached(),
        }
    }
}

/// What a simulator holds: the pointer on the numeric pad, the pointers on
/// the directional pads from the one next to the numeric pad outwards, and
/// the keys typed on the numeric pad so far.
pub struct SimulatorView {
    pub num_pad: (nat, nat),
    pub dir_pads: Seq<(nat, nat)>,
    pub typed: Seq<NumKey>,
}

/// The pointer after one move on a pad of `rows` rows, or `None` where the
/// move is refused: it would leave the pad upwards, downwards or to the
/// left, it starts right of the last column but one, or it ends on the gap.
pub open spec fn pad_step(pos: (nat, nat), key: DirKey, rows: nat, gap: (nat, nat)) -> Option<
    (nat, nat),
> {
    let target: Option<(nat, nat)> = match key {
        DirKey::Up => if pos.0 == 0 {
            None
        } else {
            Some(((pos.0 - 1) as nat, pos.1))
        },
        DirKey::Down => if pos.0 + 1 >= rows {
            None
        } else {
            Some((pos.0 + 1, pos.1))
        },
        DirKey::Left => if pos.1 == 0 {
            None
        } else {
            Some((pos.0, (pos.1 - 1) as nat))
        },
        DirKey::Right => if pos.1 >= 3 {
            None
        } else {
            Some((pos.0, pos.1 + 1))
        },
        DirKey::Activate => None,
    };
    if target == Some(gap) {
        None
    } else {
        target
    }
}

/// The key under a pointer, where the position lies within the row-by-row
/// list of keys and holds one.
pub open spec fn key_under<K>(keys: Seq<Option<K>>, pos: (nat, nat)) -> Option<K> {
    if 3 * pos.0 + pos.1 < keys.len() {
        keys[(3 * pos.0 + pos.1) as int]
    } else {
        None
    }
}

/// What pressing `key` on pad number `stage` does, pad 0 being the numeric
/// one: a direction moves that pad's pointer, and `Activate` presses the key
/// under it on the pad below, or types it on the numeric pad. `None` where a
/// move is refused or the pointer is over no key.
pub open spec fn press(sim: SimulatorView, key: DirKey, stage: nat) -> Option<SimulatorView>
    decreases stage,
{
    if stage > sim.dir_pads.len() {
        None
    } else if key != DirKey::Activate {
        if stage == 0 {
            match pad_step(sim.num_pad, key, 4, (3, 0)) {
                Some(pos) => Some(SimulatorView { num_pad: pos, ..sim }),
                None => None,
            }
        } else {
            match pad_step(sim.dir_pads[stage - 1], key, 2, (0, 0)) {
                Some(pos) => Some(
                    SimulatorView { dir_pads: sim.dir_pads.update(stage - 1, pos), ..sim },
                ),
                None => None,
            }
        }
    } else if stage == 0 {
        match key_under(num_pad_keys(), sim.num_pad) {
            Some(num_key) => Some(SimulatorView { typed: sim.typed.push(num_key), ..sim }),
            None => None,
        }
    } else {
        match key_under(dir_pad_keys(), sim.dir_pads[stage - 1]) {
            Some(below) => press(sim, below, (stage - 1) as nat),
            None => None,
        }
    }
}

/// A chain of `N` directional keypads in front of a numeric keypad.
pub struct Simulator<const N: usize> {
    num_pad_state: (usize, usize),
    dir_pad_state: [(usize, usize); N],
    typed: Vec<NumKey>,
}

impl<const N: usize> View for Simulator<N> {
    type V = SimulatorView;

    closed spec fn view(&self) -> SimulatorView {
        SimulatorView {
            num_pad: (self.num_pad_state.0 as nat, self.num_pad_state.1 as nat),
            dir_pads: Seq::new(
                N as nat,
                |i: int| (self.dir_pad_state@[i].0 as nat, self.dir_pad_state@[i].1 as nat),
            ),
            typed: self.typed@,
        }
    }
}

/// The state in which every pointer rests on its pad's `Activate` key and
/// nothing has been typed.
pub open spec fn initial_view(pads: nat) -> SimulatorView {
    SimulatorView {
        num_pad: (3, 2),
        dir_pads: Seq::new(pads, |i: int| (0nat, 2nat)),
        typed: Seq::empty(),
    }
}

impl<const N: usize> Simulator<N> {
    /// A simulator in its initial state.
    pub fn new() -> (sim: Self)
        ensures
            sim@ == initial_view(N as nat),
    {
        let sim = Self {
            num_pad_state: (NumKeyPad::START_ROW, NumKeyPad::START_COL),
            dir_pad_state: [(DirKeyPad::START_ROW, DirKeyPad::START_COL);N],
            typed: Vec::new(),
        };
        proof {
            assert(sim@.dir_pads =~= initial_view(N as nat).dir_pads);
        }
        sim
    }

    /// Presses a key on the outermost directional pad.
    pub fn simulate(&mut self, dir_key: DirKey)
        requires
            press(old(self)@, dir_key, N as nat) is Some,
        ensures
            Some(final(self)@) == press(old(self)@, dir_key, N as nat),
    {
        self.press_dir_key(dir_key, N);
    }

    /// The keys typed on the numeric pad so far.
    pub fn typed_keys(&self) -> (keys: &Vec<NumKey>)
        ensures
            keys@ == self@.typed,
    {
        &self.typed
    }

    fn press_dir_key(&mut self, dir_key: DirKey, stage: usize)
        requires
            press(old(self)@, dir_key, stage as nat) is Some,
        ensures
            Some(final(self)@) == press(old(self)@, dir_key, stage as nat),
        decreases stage,
    {
        let mut row: usize;
        let mut col: usize;

        if stage == 0 {
            row = self.num_pad_state.0;
            col = self.num_pad_state.1;
        } else {
            assert(self@.dir_pads[stage - 1] == (
                self.dir_pad_state@[stage - 1].0 as nat,
                self.dir_pad_state@[stage - 1].1 as nat,
            ));
            row = self.dir_pad_state[stage - 1].0;
            col = self.dir_pad_state[stage - 1].1;
        }

        match dir_key {
            DirKey::Up => {
                row -= 1;
            },
            DirKey::Down => {
                row += 1;
            },
            DirKey::Left => {
                col -= 1;
            },
            DirKey::Right => {
                col += 1;
            },
            DirKey::Activate => {
                if stage == 0 {
                    let num_key = NumKeyPad::map_pos_to_key(row, col).unwrap();
                    self.press_num_key(num_key);
                } else {
                    let below = DirKeyPad::map_pos_to_key(row, col).unwrap();
                    self.press_dir_key(below, stage - 1);
                }
                return ;
            },
        }
        let ghost before = self@;
        if stage == 0 {
            self.num_pad_state = (row, col);
        } else {
            self.dir_pad_state[stage - 1] = (row, col);
            proof {
                assert(self@.dir_pads =~= before.dir_pads.update(
                    stage - 1,
                    (row as nat, col as nat),
                ));
            }
        }
    }

    fn press_num_key(&mut self, num_key: NumKey)
        ensures
            final(self)@ == (SimulatorView {
                typed: old(self)@.typed.push(num_key),
                ..old(self)@
            }),
    {
        self.typed.push(num_key);
    }
}

/// `count` times the same key.
pub open spec fn repeat_key(key: DirKey, count: int) -> Seq<DirKey> {
    Seq::new((if count < 0 { 0 } else { count }) as nat, |i: int| key)
}

/// The moves that take a pointer from one position to another: all the
/// vertical ones and all the horizontal ones. The horizontal ones come first
/// when the pointer goes left, unless that would cross the gap, which lies
/// in column 0 of row `gap_row`; going right they come last, with the same
/// exception.
pub open spec fn pad_moves(from: (int, int), to: (int, int), gap_row: int) -> Seq<DirKey> {
    let row_off = to.0 - from.0;
    let col_off = to.1 - from.1;
    let vert = repeat_key(
        if row_off < 0 { DirKey::Up } else { DirKey::Down },
        if row_off < 0 { -row_off } else { row_off },
    );
    let hort = repeat_key(
        if col_off < 0 { DirKey::Left } else { DirKey::Right },
        if col_off < 0 { -col_off } else { col_off },
    );
    if from.0 == gap_row && to.1 == 0 {
        vert + hort
    } else if from.1 == 0 && to.0 == gap_row {
        hort + vert
    } else if col_off < 0 {
        hort + vert
    } else {
        vert + hort
    }
}

/// The keys to press so that a pointer starting at `start` visits the
/// targets in turn and activates each.
pub open spec fn typing_pattern(targets: Seq<(int, int)>, start: (int, int), gap_row: int) -> Seq<
    DirKey,
>
    decreases targets.len(),
{
    if targets.len() == 0 {
        Seq::empty()
    } else {
        let front = targets.drop_last();
        let from = if front.len() == 0 { start } else { front.last() };
        typing_pattern(front, start, gap_row) + pad_moves(from, targets.last(), gap_row).push(
            DirKey::Activate,
        )
    }
}

/// The positions of a combination's keys on the numeric pad.
pub open spec fn num_targets(combination: Seq<NumKey>) -> Seq<(int, int)> {
    combination.map_values(|key: NumKey| num_key_pos(key))
}

/// The positions of a key sequence on a directional pad.
pub open spec fn dir_targets(keys: Seq<DirKey>) -> Seq<(int, int)> {
    keys.map_values(|key: DirKey| dir_key_pos(key))
}

/// The pattern that types a combination on the numeric pad.
pub open spec fn num_pattern(combination: Seq<NumKey>) -> Seq<DirKey> {
    typing_pattern(num_targets(combination), (3, 2), 3)
}

/// The pattern that types a key sequence on a directional pad.
pub open spec fn dir_pattern(keys: Seq<DirKey>) -> Seq<DirKey> {
    typing_pattern(dir_targets(keys), (0, 2), 0)
}

/// Every digit of the combination is a key of the pad.
pub open spec fn combination_valid(combination: Seq<NumKey>) -> bool {
    forall|i: int|
        0 <= i < combination.len() ==> ((#[trigger] combination[i]) matches NumKey::Num(n) ==> n
            < 10)
}

/// Appends `count` copies of a key.
fn push_repeated(keys: &mut Vec<DirKey>, key: DirKey, count: usize)
    ensures
        final(keys)@ == old(keys)@ + repeat_key(key, count as int),
{
    let mut done: usize = 0;
    proof {
        assert(keys@ =~= old(keys)@ + repeat_key(key, 0));
    }
    while done < count
        invariant
            done <= count,
            keys@ == old(keys)@ + repeat_key(key, done as int),
        decreases count - done,
    {
        keys.push(key);
        done += 1;
        proof {
            assert(keys@ =~= old(keys)@ + repeat_key(key, done as int));
        }
    }
}

/// Appends the moves from one pad position to another and the activation.
fn push_moves(
    dir_keys: &mut Vec<DirKey>,
    cur_row: isize,
    cur_col: isize,
    t_row: isize,
    t_col: isize,
    gap_row: isize,
)
    requires
        0 <= cur_row <= 3,
        0 <= cur_col <= 2,
        0 <= t_row <= 3,
        0 <= t_col <= 2,
    ensures
        final(dir_keys)@ == old(dir_keys)@ + pad_moves(
            (cur_row as int, cur_col as int),
            (t_row as int, t_col as int),
            gap_row as int,
        ).push(DirKey::Activate),
{
    let mut row_off = t_row - cur_row;
    let mut col_off = t_col - cur_col;

    let vert_dir = if row_off < 0 {
        row_off = -row_off;
        DirKey::Up
    } else {
        DirKey::Down
    };
    let hort_dir = if col_off < 0 {
        col_off = -col_off;
        DirKey::Left
    } else {
        DirKey::Right
    };

    // avoid gaps
    // prefer horizontal, then vertical for LEFT
    // prefer vertical, then horizontal for RIGHT
    if cur_row == gap_row && t_col == 0 {
        push_repeated(dir_keys, vert_dir, row_off as usize);
        push_repeated(dir_keys, hort_dir, col_off as usize);
    } else if cur_col == 0 && t_row == gap_row {
        push_repeated(dir_keys, hort_dir, col_off as usize);
        push_repeated(dir_keys, vert_dir, row_off as usize);
    } else if hort_dir == DirKey::Left {
        push_repeated(dir_keys, hort_dir, col_off as usize);
        push_repeated(dir_keys, vert_dir, row_off as usize);
    } else {
        push_repeated(dir_keys, vert_dir, row_off as usize);
        push_repeated(dir_keys, hort_dir, col_off as usize);
    }

    dir_keys.push(DirKey::Activate);
    proof {
        assert(dir_keys@ =~= old(dir_keys)@ + pad_moves(
            (cur_row as int, cur_col as int),
            (t_row as int, t_col as int),
            gap_row as int,
        ).push(DirKey::Activate));
    }
}

/// The keys to press on the first directional pad so that the numeric pad
/// types the combination.
pub fn find_shortest_pattern_stage1(combination: &Vec<NumKey>) -> (dir_keys: Vec<DirKey>)
    requires
        combination_valid(combination@),
    ensures
        dir_keys@ == num_pattern(combination@),
{
    let mut cur_row: isize = 3;
    let mut cur_col: isize = 2;

    let mut dir_keys = Vec::new();

    let mut idx: usize = 0;
    while idx < combination.len()
        invariant
            idx <= combination.len(),
            combination_valid(combination@),
            0 <= cur_row <= 3,
            0 <= cur_col <= 2,
            (cur_row as int, cur_col as int) == (if idx == 0 {
                (3int, 2int)
            } else {
                num_key_pos(combination@[idx - 1])
            }),
            dir_keys@ == num_pattern(combination@.take(idx as int)),
        decreases combination.len() - idx,
    {
        let num_key = combination[idx];
        let (t_row, t_col) = num_key.to_keypad_pos();
        proof {
            let done = num_targets(combination@.take(idx + 1));
            assert(done.drop_last() =~= num_targets(combination@.take(idx as int)));
            assert(done.last() == num_key_pos(num_key));
        }

        push_moves(&mut dir_keys, cur_row, cur_col, t_row, t_col, 3);

        cur_row = t_row;
        cur_col = t_col;
        idx += 1;
    }
    proof {
        assert(combination@.take(idx as int) =~= combination@);
    }

    dir_keys
}

/// The keys to press on the next directional pad so that this one presses
/// the given keys.
pub fn find_shortest_pattern_stage2_stupid(combination: &Vec<DirKey>) -> (dir_keys: Vec<DirKey>)
    ensures
        dir_keys@ == dir_pattern(combination@),
{
    let mut cur_row: isize = 0;
    let mut cur_col: isize = 2;

    let mut dir_keys = Vec::new();

    let mut idx: usize = 0;
    while idx < combination.len()
        invariant
            idx <= combination.len(),
            0 <= cur_row <= 3,
            0 <= cur_col <= 2,
            (cur_row as int, cur_col as int) == (if idx == 0 {
                (0int, 2int)
            } else {
                dir_key_pos(combination@[idx - 1])
            }),
            dir_keys@ == dir_pattern(combination@.take(idx as int)),
        decreases combination.len() - idx,
    {
        let dir_key = combination[idx];
        let (t_row, t_col) = dir_key.to_keypad_pos();
        proof {
            let done = dir_targets(combination@.take(idx + 1));
            assert(done.drop_last() =~= dir_targets(combination@.take(idx as int)));
            assert(done.last() == dir_key_pos(dir_key));
        }

        push_moves(&mut dir_keys, cur_row, cur_col, t_row, t_col, 0);

        cur_row = t_row;
        cur_col = t_col;
        idx += 1;
    }
    proof {
        assert(combination@.take(idx as int) =~= combination@);
    }

    dir_keys
}

/// Where a pointer rests after pressing the keys, having started at `from`.
pub open spec fn end_pos(keys: Seq<DirKey>, from: (int, int)) -> (int, int) {
    if keys.len() == 0 {
        from
    } else {
        dir_key_pos(keys.last())
    }
}

/// The keys to press on the outermost pad so that a pad `stages` pads
/// further in, whose pointer rests at `from`, presses `key`. Every pad in
/// between starts and ends with its pointer on `Activate`.
pub open spec fn key_typing(key: DirKey, from: (int, int), stages: nat) -> Seq<DirKey>
    decreases stages, 0nat,
{
    if stages == 0 {
        seq![key]
    } else {
        seq_typing(
            pad_moves(from, dir_key_pos(key), 0).push(DirKey::Activate),
            (0, 2),
            (stages - 1) as nat,
        )
    }
}

/// `key_typing` for a sequence of keys, the pointer following along.
pub open spec fn seq_typing(keys: Seq<DirKey>, from: (int, int), stages: nat) -> Seq<DirKey>
    decreases stages, keys.len() + 1,
{
    if keys.len() == 0 {
        Seq::empty()
    } else {
        seq_typing(keys.drop_last(), from, stages) + key_typing(
            keys.last(),
            end_pos(keys.drop_last(), from),
            stages,
        )
    }
}

/// The key sequence after `stages` rounds of `dir_pattern`.
pub open spec fn expand(keys: Seq<DirKey>, stages: nat) -> Seq<DirKey>
    decreases stages,
{
    if stages == 0 {
        keys
    } else {
        expand(dir_pattern(keys), (stages - 1) as nat)
    }
}

/// Typing two sequences one after the other is typing the first and then
/// the second from where the first left the pointer.
pub proof fn lemma_seq_typing_concat(a: Seq<DirKey>, b: Seq<DirKey>, from: (int, int), stages: nat)
    ensures
        seq_typing(a + b, from, stages) == seq_typing(a, from, stages) + seq_typing(
            b,
            end_pos(a, from),
            stages,
        ),
    decreases b.len(),
{
    if b.len() == 0 {
        assert(a + b =~= a);
        assert(seq_typing(a, from, stages) + Seq::<DirKey>::empty() =~= seq_typing(
            a,
            from,
            stages,
        ));
    } else {
        let front = b.drop_last();
        lemma_seq_typing_concat(a, front, from, stages);
        assert((a + b).drop_last() =~= a + front);
        assert((a + b).last() == b.last());
        assert(end_pos(a + front, from) == end_pos(front, end_pos(a, from)));
        assert(seq_typing(a + b, from, stages) =~= seq_typing(a, from, stages) + seq_typing(
            b,
            end_pos(a, from),
            stages,
        ));
    }
}

/// The pattern of two target lists one after the other.
pub proof fn lemma_typing_pattern_push(keys: Seq<DirKey>)
    requires
        keys.len() > 0,
    ensures
        dir_pattern(keys) == dir_pattern(keys.drop_last()) + pad_moves(
            end_pos(keys.drop_last(), (0, 2)),
            dir_key_pos(keys.last()),
            0,
        ).push(DirKey::Activate),
        dir_pattern(keys).len() > 0,
        dir_pattern(keys).last() == DirKey::Activate,
{
    let targets = dir_targets(keys);
    assert(targets.drop_last() =~= dir_targets(keys.drop_last()));
}

/// Typing key by key through the pads gives the same keys as expanding the
/// whole sequence pad by pad.
pub proof fn lemma_seq_typing_is_expand(keys: Seq<DirKey>, stages: nat)
    ensures
        seq_typing(keys, (0, 2), stages) == expand(keys, stages),
    decreases stages, keys.len(),
{
    if keys.len() == 0 {
        lemma_expand_empty(stages);
    } else {
        let front = keys.drop_last();
        let from = end_pos(front, (0, 2));
        lemma_seq_typing_is_expand(front, stages);
        assert(seq_typing(keys, (0, 2), stages) == seq_typing(front, (0, 2), stages) + key_typing(
            keys.last(),
            from,
            stages,
        ));
        if stages == 0 {
            assert(key_typing(keys.last(), from, 0) == seq![keys.last()]);
            assert(front + seq![keys.last()] =~= keys);
        } else {
            let below = (stages - 1) as nat;
            lemma_seq_typing_is_expand(dir_pattern(front), below);
            lemma_seq_typing_is_expand(dir_pattern(keys), below);
            lemma_seq_typing_step(keys, stages);
        }
    }
}

/// Typing one key more through the pads, where typing and expanding agree
/// on the keys before it and on the patterns one pad further in.
pub proof fn lemma_seq_typing_step(keys: Seq<DirKey>, stages: nat)
    requires
        keys.len() > 0,
        stages > 0,
        seq_typing(keys.drop_last(), (0, 2), stages) == expand(keys.drop_last(), stages),
        seq_typing(dir_pattern(keys.drop_last()), (0, 2), (stages - 1) as nat) == expand(
            dir_pattern(keys.drop_last()),
            (stages - 1) as nat,
        ),
        seq_typing(dir_pattern(keys), (0, 2), (stages - 1) as nat) == expand(
            dir_pattern(keys),
            (stages - 1) as nat,
        ),
    ensures
        seq_typing(keys, (0, 2), stages) == expand(keys, stages),
{
    let front = keys.drop_last();
    let from = end_pos(front, (0, 2));
    let group = pad_moves(from, dir_key_pos(keys.last()), 0).push(DirKey::Activate);
    let below = (stages - 1) as nat;
    assert(seq_typing(keys, (0, 2), stages) == seq_typing(front, (0, 2), stages) + key_typing(
        keys.last(),
        from,
        stages,
    ));
    lemma_typing_pattern_push(keys);
    if front.len() > 0 {
        lemma_typing_pattern_push(front);
    }
    assert(end_pos(dir_pattern(front), (0, 2)) == (0int, 2int));
    lemma_seq_typing_concat(dir_pattern(front), group, (0, 2), below);
    assert(key_typing(keys.last(), from, stages) == seq_typing(group, (0, 2), below));
    assert(expand(front, stages) == expand(dir_pattern(front), below));
    assert(expand(keys, stages) == expand(dir_pattern(keys), below));
}

/// Expanding nothing gives nothing.
pub proof fn lemma_expand_empty(stages: nat)
    ensures
        expand(Seq::<DirKey>::empty(), stages) == Seq::<DirKey>::empty(),
    decreases stages,
{
    if stages > 0 {
        assert(dir_targets(Seq::<DirKey>::empty()) =~= Seq::<(int, int)>::empty());
        lemma_expand_empty((stages - 1) as nat);
    }
}

/// The state after pressing the keys one after the other on the outermost
/// pad, or `None` where one of them is refused.
pub open spec fn run_keys(sim: SimulatorView, keys: Seq<DirKey>) -> Option<SimulatorView>
    decreases keys.len(),
{
    if keys.len() == 0 {
        Some(sim)
    } else {
        match run_keys(sim, keys.drop_last()) {
            Some(mid) => press(mid, keys.last(), mid.dir_pads.len()),
            None => None,
        }
    }
}

/// `run_keys` where there may be no simulator at all.
pub open spec fn run_opt(sim: Option<SimulatorView>, keys: Seq<DirKey>) -> Option<SimulatorView> {
    match sim {
        Some(start) => run_keys(start, keys),
        None => None,
    }
}

/// The simulator, if there is one, refuses none of the keys.
pub open spec fn typing_accepted(sim: Option<SimulatorView>, keys: Seq<DirKey>) -> bool {
    sim is Some ==> run_opt(sim, keys) is Some
}

/// The view of a simulator that may be absent.
pub open spec fn opt_view<const N: usize>(sim: Option<Simulator<N>>) -> Option<SimulatorView> {
    match sim {
        Some(s) => Some(s@),
        None => None,
    }
}

/// Running two key sequences one after the other.
pub proof fn lemma_run_keys_concat(sim: SimulatorView, a: Seq<DirKey>, b: Seq<DirKey>)
    ensures
        run_keys(sim, a + b) == run_opt(run_keys(sim, a), b),
    decreases b.len(),
{
    if b.len() == 0 {
        assert(a + b =~= a);
    } else {
        lemma_run_keys_concat(sim, a, b.drop_last());
        assert((a + b).drop_last() =~= a + b.drop_last());
    }
}

/// The number under which a cache entry is filed.
pub open spec fn cache_slot(key: DirKey, stages: usize, row: usize, col: usize) -> u128 {
    (30 * stages + 6 * (match key {
        DirKey::Up => 0int,
        DirKey::Down => 1int,
        DirKey::Left => 2int,
        DirKey::Right => 3int,
        DirKey::Activate => 4int,
    }) + 3 * row + col) as u128
}

/// Every entry of the cache is the length of the typing it is filed under.
pub open spec fn pattern_cache_valid(cache: Map<u128, usize>) -> bool {
    forall|key: DirKey, stages: usize, row: usize, col: usize|
        row < 2 && col < 3 && #[trigger] cache.contains_key(cache_slot(key, stages, row, col))
            ==> cache[cache_slot(key, stages, row, col)] == key_typing(
            key,
            (row as int, col as int),
            stages as nat,
        ).len()
}

fn cache_key(key: DirKey, stages_left: usize, row: usize, col: usize) -> (slot: u128)
    requires
        row < 2,
        col < 3,
    ensures
        slot == cache_slot(key, stages_left, row, col),
{
    let index: u128 = match key {
        DirKey::Up => 0,
        DirKey::Down => 1,
        DirKey::Left => 2,
        DirKey::Right => 3,
        DirKey::Activate => 4,
    };
    30 * (stages_left as u128) + 6 * index + 3 * (row as u128) + (col as u128)
}

/// Presses `next_key` `count` times on the pad `stages_left` pads in from
/// the outermost one and returns how many keys that takes on the outermost.
fn process_next_keys<const N: usize>(
    next_key: DirKey,
    count: usize,
    next_pad_row: &mut usize,
    next_pad_col: &mut usize,
    stages_left: usize,
    cache: &mut HashMap<u128, usize>,
    sim: &mut Option<Simulator<N>>,
) -> (generated: usize)
    requires
        *old(next_pad_row) < 2,
        *old(next_pad_col) < 3,
        seq_typing(
            repeat_key(next_key, count as int),
            (*old(next_pad_row) as int, *old(next_pad_col) as int),
            stages_left as nat,
        ).len() <= usize::MAX,
        pattern_cache_valid(old(cache)@),
        *old(sim) is Some ==> forall|slot: u128| !old(cache)@.contains_key(slot),
        typing_accepted(
            opt_view(*old(sim)),
            seq_typing(
                repeat_key(next_key, count as int),
                (*old(next_pad_row) as int, *old(next_pad_col) as int),
                stages_left as nat,
            ),
        ),
    ensures
        generated == seq_typing(
            repeat_key(next_key, count as int),
            (*old(next_pad_row) as int, *old(next_pad_col) as int),
            stages_left as nat,
        ).len(),
        *final(next_pad_row) < 2,
        *final(next_pad_col) < 3,
        stages_left > 0 ==> (*final(next_pad_row) as int, *final(next_pad_col) as int) == end_pos(
            repeat_key(next_key, count as int),
            (*old(next_pad_row) as int, *old(next_pad_col) as int),
        ),
        stages_left == 0 ==> *final(next_pad_row) == *old(next_pad_row) && *final(next_pad_col)
            == *old(next_pad_col),
        pattern_cache_valid(final(cache)@),
        *old(sim) is Some ==> forall|slot: u128| !final(cache)@.contains_key(slot),
        opt_view(*final(sim)) == run_opt(
            opt_view(*old(sim)),
            seq_typing(
                repeat_key(next_key, count as int),
                (*old(next_pad_row) as int, *old(next_pad_col) as int),
                stages_left as nat,
            ),
        ),
    decreases stages_left, 1nat,
{
    let ghost from = (*old(next_pad_row) as int, *old(next_pad_col) as int);
    let ghost stages = stages_left as nat;
    let ghost sim0 = opt_view(*sim);
    let ghost all = repeat_key(next_key, count as int);
    let mut num_generated_keys: usize = 0;
    let mut done: usize = 0;
    proof {
        assert(repeat_key(next_key, 0) =~= Seq::<DirKey>::empty());
    }
    while done < count
        invariant
            done <= count,
            *next_pad_row < 2,
            *next_pad_col < 3,
            all == repeat_key(next_key, count as int),
            stages == stages_left,
            seq_typing(all, from, stages).len() <= usize::MAX,
            num_generated_keys == seq_typing(repeat_key(next_key, done as int), from, stages).len(),
            stages_left > 0 ==> (*next_pad_row as int, *next_pad_col as int) == end_pos(
                repeat_key(next_key, done as int),
                from,
            ),
            stages_left == 0 ==> *next_pad_row == *old(next_pad_row) && *next_pad_col == *old(
                next_pad_col,
            ),
            pattern_cache_valid(cache@),
            (sim0 is Some) == (*sim is Some),
            sim0 is Some ==> forall|slot: u128| !cache@.contains_key(slot),
            typing_accepted(sim0, seq_typing(all, from, stages)),
            opt_view(*sim) == run_opt(sim0, seq_typing(repeat_key(next_key, done as int), from, stages)),
        decreases count - done,
    {
        let ghost prefix = repeat_key(next_key, done as int);
        let ghost next = repeat_key(next_key, done + 1);
        let ghost rest = repeat_key(next_key, count - done - 1);
        let ghost here = (*next_pad_row as int, *next_pad_col as int);
        proof {
            assert(next.drop_last() =~= prefix);
            assert(next.last() == next_key);
            assert(all =~= next + rest);
            lemma_seq_typing_concat(next, rest, from, stages);
            assert(key_typing(next_key, here, stages) == key_typing(
                next_key,
                end_pos(prefix, from),
                stages,
            ));
            if sim0 is Some {
                lemma_run_keys_concat(sim0->0, seq_typing(next, from, stages), seq_typing(rest, end_pos(next, from), stages));
                lemma_run_keys_concat(sim0->0, seq_typing(prefix, from, stages), key_typing(next_key, here, stages));
            }
        }
        let produced = find_shortest_pattern_stage2_smart_helper(
            next_key,
            next_pad_row,
            next_pad_col,
            stages_left,
            cache,
            sim,
        );
        num_generated_keys += produced;
        done += 1;
    }
    num_generated_keys
}

/// The two runs of moves that take the pointer of a directional pad from one
/// position to another, in the order in which they are made.
fn plan_moves(row: usize, col: usize, t_row: isize, t_col: isize) -> (plan: (
    DirKey,
    usize,
    DirKey,
    usize,
))
    requires
        row < 2,
        col < 3,
        0 <= t_row < 2,
        0 <= t_col < 3,
    ensures
        pad_moves((row as int, col as int), (t_row as int, t_col as int), 0) == repeat_key(
            plan.0,
            plan.1 as int,
        ) + repeat_key(plan.2, plan.3 as int),
{
    let mut row_off = t_row - row as isize;
    let mut col_off = t_col - col as isize;

    let vert_dir = if row_off < 0 {
        row_off = -row_off;
        DirKey::Up
    } else {
        DirKey::Down
    };
    let hort_dir = if col_off < 0 {
        col_off = -col_off;
        DirKey::Left
    } else {
        DirKey::Right
    };

    // avoid gaps
    // prefer horizontal, then vertical for LEFT
    // prefer vertical, then horizontal for RIGHT
    if row == 0 && t_col == 0 {
        (vert_dir, row_off as usize, hort_dir, col_off as usize)
    } else if col == 0 && t_row == 0 {
        (hort_dir, col_off as usize, vert_dir, row_off as usize)
    } else if hort_dir == DirKey::Left {
        (hort_dir, col_off as usize, vert_dir, row_off as usize)
    } else {
        (vert_dir, row_off as usize, hort_dir, col_off as usize)
    }
}

/// How many keys it takes on the outermost pad to make the pad
/// `stages_left` pads further in press `key`, its pointer resting at
/// (`row`, `col`); the pointer is moved to the key. Lengths are remembered
/// in the cache unless a simulator follows along, which is then fed every
/// key of the typing.
pub fn find_shortest_pattern_stage2_smart_helper<const N: usize>(
    key: DirKey,
    row: &mut usize,
    col: &mut usize,
    stages_left: usize,
    cache: &mut HashMap<u128, usize>,
    sim: &mut Option<Simulator<N>>,
) -> (generated: usize)
    requires
        *old(row) < 2,
        *old(col) < 3,
        key_typing(key, (*old(row) as int, *old(col) as int), stages_left as nat).len()
            <= usize::MAX,
        pattern_cache_valid(old(cache)@),
        *old(sim) is Some ==> forall|slot: u128| !old(cache)@.contains_key(slot),
        typing_accepted(
            opt_view(*old(sim)),
            key_typing(key, (*old(row) as int, *old(col) as int), stages_left as nat),
        ),
    ensures
        generated == key_typing(
            key,
            (*old(row) as int, *old(col) as int),
            stages_left as nat,
        ).len(),
        *final(row) < 2,
        *final(col) < 3,
        stages_left > 0 ==> (*final(row) as int, *final(col) as int) == dir_key_pos(key),
        stages_left == 0 ==> *final(row) == *old(row) && *final(col) == *old(col),
        pattern_cache_valid(final(cache)@),
        *old(sim) is Some ==> forall|slot: u128| !final(cache)@.contains_key(slot),
        opt_view(*final(sim)) == run_opt(
            opt_view(*old(sim)),
            key_typing(key, (*old(row) as int, *old(col) as int), stages_left as nat),
        ),
    decreases stages_left, 0nat,
{
    broadcast use vstd::std_specs::hash::group_hash_axioms;

    let ghost from = (*old(row) as int, *old(col) as int);
    let ghost sim0 = opt_view(*sim);
    if stages_left == 0 {
        proof {
            assert(seq![key].drop_last() =~= Seq::<DirKey>::empty());
            reveal_with_fuel(run_keys, 2);
        }
        if let Some(sim) = sim {
            sim.simulate(key);
        }
        return 1;
    }
    let slot = cache_key(key, stages_left, *row, *col);
    if let Some(generated_keys) = cache.get(&slot) {
        let (t_row, t_col) = key.to_keypad_pos();
        *row = t_row as usize;
        *col = t_col as usize;
        return *generated_keys;
    }
    let (t_row, t_col) = key.to_keypad_pos();
    let (first_key, first_count, second_key, second_count) = plan_moves(*row, *col, t_row, t_col);

    let mut next_pad_row = DirKeyPad::START_ROW;
    let mut next_pad_col = DirKeyPad::START_COL;
    let mut num_generated_keys: usize = 0;

    let ghost below = (stages_left - 1) as nat;
    let ghost first = repeat_key(first_key, first_count as int);
    let ghost second = repeat_key(second_key, second_count as int);
    let ghost last = repeat_key(DirKey::Activate, 1);
    let ghost mid1 = end_pos(first, (0, 2));
    let ghost mid2 = end_pos(second, mid1);
    let ghost t1 = seq_typing(first, (0, 2), below);
    let ghost t2 = seq_typing(second, mid1, below);
    let ghost t3 = seq_typing(last, mid2, below);
    proof {
        lemma_group_typing(key, from, stages_left as nat, first, second);
        lemma_accept_three(sim0, t1, t2, t3);
    }
    let produced = process_next_keys(
        first_key,
        first_count,
        &mut next_pad_row,
        &mut next_pad_col,
        stages_left - 1,
        cache,
        sim,
    );
    num_generated_keys += produced;
    proof {
        if below == 0 {
            lemma_typing_ignores_pos(second, mid1, (0, 2));
        }
    }
    let produced = process_next_keys(
        second_key,
        second_count,
        &mut next_pad_row,
        &mut next_pad_col,
        stages_left - 1,
        cache,
        sim,
    );
    num_generated_keys += produced;
    proof {
        if below == 0 {
            lemma_typing_ignores_pos(last, mid2, (0, 2));
            lemma_typing_ignores_pos(
                last,
                (next_pad_row as int, next_pad_col as int),
                (0, 2),
            );
        }
    }

    let produced = process_next_keys(
        DirKey::Activate,
        1,
        &mut next_pad_row,
        &mut next_pad_col,
        stages_left - 1,
        cache,
        sim,
    );
    num_generated_keys += produced;

    if sim.is_none() {
        proof {
            lemma_cache_insert(cache@, key, stages_left, *row, *col, num_generated_keys);
        }
        cache.insert(slot, num_generated_keys);
    }
    *row = t_row as usize;
    *col = t_col as usize;

    num_generated_keys
}

/// The typing of one key is the typing of its two runs of moves and of the
/// activation, one after the other.
pub proof fn lemma_group_typing(
    key: DirKey,
    from: (int, int),
    stages: nat,
    first: Seq<DirKey>,
    second: Seq<DirKey>,
)
    requires
        stages > 0,
        pad_moves(from, dir_key_pos(key), 0) == first + second,
    ensures
        key_typing(key, from, stages) == seq_typing(first, (0, 2), (stages - 1) as nat)
            + seq_typing(second, end_pos(first, (0, 2)), (stages - 1) as nat) + seq_typing(
            repeat_key(DirKey::Activate, 1),
            end_pos(second, end_pos(first, (0, 2))),
            (stages - 1) as nat,
        ),
{
    let below = (stages - 1) as nat;
    let last = repeat_key(DirKey::Activate, 1);
    let group = pad_moves(from, dir_key_pos(key), 0).push(DirKey::Activate);
    assert(group =~= first + second + last);
    lemma_seq_typing_concat(first + second, last, (0, 2), below);
    lemma_seq_typing_concat(first, second, (0, 2), below);
    assert(end_pos(first + second, (0, 2)) == end_pos(second, end_pos(first, (0, 2))));
}

/// A simulator that accepts three typings in a row accepts each in turn.
pub proof fn lemma_accept_three(
    sim: Option<SimulatorView>,
    t1: Seq<DirKey>,
    t2: Seq<DirKey>,
    t3: Seq<DirKey>,
)
    requires
        typing_accepted(sim, t1 + t2 + t3),
    ensures
        typing_accepted(sim, t1),
        typing_accepted(run_opt(sim, t1), t2),
        typing_accepted(run_opt(run_opt(sim, t1), t2), t3),
        run_opt(run_opt(run_opt(sim, t1), t2), t3) == run_opt(sim, t1 + t2 + t3),
        sim is Some ==> run_opt(sim, t1) is Some && run_opt(run_opt(sim, t1), t2) is Some,
{
    if sim is Some {
        lemma_run_keys_concat(sim->0, t1 + t2, t3);
        lemma_run_keys_concat(sim->0, t1, t2);
    }
}

/// Filing the length of a typing keeps the cache valid.
pub proof fn lemma_cache_insert(
    cache: Map<u128, usize>,
    key: DirKey,
    stages: usize,
    row: usize,
    col: usize,
    len: usize,
)
    requires
        pattern_cache_valid(cache),
        row < 2,
        col < 3,
        len == key_typing(key, (row as int, col as int), stages as nat).len(),
    ensures
        pattern_cache_valid(cache.insert(cache_slot(key, stages, row, col), len)),
{
    let slot = cache_slot(key, stages, row, col);
    let after = cache.insert(slot, len);
    assert forall|k: DirKey, s: usize, r: usize, c: usize|
        r < 2 && c < 3 && #[trigger] after.contains_key(cache_slot(k, s, r, c)) implies after[cache_slot(
        k,
        s,
        r,
        c,
    )] == key_typing(k, (r as int, c as int), s as nat).len() by {
        if cache_slot(k, s, r, c) == slot {
            assert(k == key && s == stages && r == row && c == col);
        } else {
            assert(cache.contains_key(cache_slot(k, s, r, c)));
        }
    }
}

/// With no pad in between, a typing is the keys themselves, wherever the
/// pointer rests.
pub proof fn lemma_typing_ignores_pos(keys: Seq<DirKey>, a: (int, int), b: (int, int))
    ensures
        seq_typing(keys, a, 0) == seq_typing(keys, b, 0),
    decreases keys.len(),
{
    if keys.len() > 0 {
        lemma_typing_ignores_pos(keys.drop_last(), a, b);
        assert(key_typing(keys.last(), end_pos(keys.drop_last(), a), 0) == seq![keys.last()]);
        assert(key_typing(keys.last(), end_pos(keys.drop_last(), b), 0) == seq![keys.last()]);
    }
}

/// How many keys it takes on the outermost pad to make the pad
/// `num_stage_2s` pads further in press the given keys, all pointers
/// starting on `Activate`. A simulator, if given, is fed every key.
pub fn find_shortest_pattern_stage2_smart<const N: usize>(
    combination: &Vec<DirKey>,
    num_stage_2s: usize,
    sim: &mut Option<Simulator<N>>,
) -> (generated: usize)
    requires
        expand(combination@, num_stage_2s as nat).len() <= usize::MAX,
        typing_accepted(opt_view(*old(sim)), expand(combination@, num_stage_2s as nat)),
    ensures
        generated == expand(combination@, num_stage_2s as nat).len(),
        opt_view(*final(sim)) == run_opt(
            opt_view(*old(sim)),
            expand(combination@, num_stage_2s as nat),
        ),
{
    let ghost stages = num_stage_2s as nat;
    let ghost sim0 = opt_view(*sim);
    let ghost keys = combination@;
    let mut cache: HashMap<u128, usize> = HashMap::new();

    let mut next_pad_row = DirKeyPad::START_ROW;
    let mut next_pad_col = DirKeyPad::START_COL;

    let mut generated: usize = 0;
    let mut idx: usize = 0;
    proof {
        lemma_seq_typing_is_expand(keys, stages);
        assert(keys.take(0) =~= Seq::<DirKey>::empty());
    }
    while idx < combination.len()
        invariant
            idx <= combination.len(),
            keys == combination@,
            stages == num_stage_2s,
            next_pad_row < 2,
            next_pad_col < 3,
            seq_typing(keys, (0, 2), stages).len() <= usize::MAX,
            generated == seq_typing(keys.take(idx as int), (0, 2), stages).len(),
            stages > 0 ==> (next_pad_row as int, next_pad_col as int) == end_pos(
                keys.take(idx as int),
                (0, 2),
            ),
            pattern_cache_valid(cache@),
            (sim0 is Some) == (*sim is Some),
            sim0 is Some ==> forall|slot: u128| !cache@.contains_key(slot),
            typing_accepted(sim0, seq_typing(keys, (0, 2), stages)),
            opt_view(*sim) == run_opt(sim0, seq_typing(keys.take(idx as int), (0, 2), stages)),
        decreases combination.len() - idx,
    {
        let key = combination[idx];
        let ghost prefix = keys.take(idx as int);
        let ghost next = keys.take(idx + 1);
        let ghost rest = keys.skip(idx + 1);
        let ghost here = (next_pad_row as int, next_pad_col as int);
        proof {
            assert(next.drop_last() =~= prefix);
            assert(next.last() == key);
            assert(keys =~= next + rest);
            lemma_seq_typing_concat(next, rest, (0, 2), stages);
            assert(key_typing(key, here, stages) == key_typing(
                key,
                end_pos(prefix, (0, 2)),
                stages,
            ));
            if sim0 is Some {
                lemma_run_keys_concat(
                    sim0->0,
                    seq_typing(next, (0, 2), stages),
                    seq_typing(rest, end_pos(next, (0, 2)), stages),
                );
                lemma_run_keys_concat(
                    sim0->0,
                    seq_typing(prefix, (0, 2), stages),
                    key_typing(key, here, stages),
                );
            }
        }
        let produced = find_shortest_pattern_stage2_smart_helper(
            key,
            &mut next_pad_row,
            &mut next_pad_col,
            num_stage_2s,
            &mut cache,
            sim,
        );
        generated += produced;
        idx += 1;
    }
    proof {
        assert(keys.take(idx as int) =~= keys);
    }
    generated
}

/// The length of the shortest pattern found for a combination with
/// `num_stage_2s` directional pads between the first one and the typist.
pub fn find_shortest_pattern_smart<const N: usize>(
    combination: &Vec<NumKey>,
    num_stage_2s: usize,
    sim: &mut Option<Simulator<N>>,
) -> (generated: usize)
    requires
        combination_valid(combination@),
        expand(num_pattern(combination@), num_stage_2s as nat).len() <= usize::MAX,
        typing_accepted(
            opt_view(*old(sim)),
            expand(num_pattern(combination@), num_stage_2s as nat),
        ),
    ensures
        generated == expand(num_pattern(combination@), num_stage_2s as nat).len(),
        opt_view(*final(sim)) == run_opt(
            opt_view(*old(sim)),
            expand(num_pattern(combination@), num_stage_2s as nat),
        ),
{
    let stage1 = find_shortest_pattern_stage1(combination);
    find_shortest_pattern_stage2_smart(&stage1, num_stage_2s, sim)
}

/// The same length as `find_shortest_pattern_smart`, found by writing the
/// whole pattern out pad by pad.
pub fn find_shortest_pattern_stupid<const N: usize>(
    combination: &Vec<NumKey>,
    num_stage_2s: usize,
    sim: &mut Option<Simulator<N>>,
) -> (generated: usize)
    requires
        combination_valid(combination@),
        typing_accepted(
            opt_view(*old(sim)),
            expand(num_pattern(combination@), num_stage_2s as nat),
        ),
    ensures
        generated == expand(num_pattern(combination@), num_stage_2s as nat).len(),
        opt_view(*final(sim)) == run_opt(
            opt_view(*old(sim)),
            expand(num_pattern(combination@), num_stage_2s as nat),
        ),
{
    let stage1 = find_shortest_pattern_stage1(combination);
    let ghost first = stage1@;

    let mut stage2 = stage1;
    let mut round: usize = 0;
    while round < num_stage_2s
        invariant
            round <= num_stage_2s,
            expand(stage2@, (num_stage_2s - round) as nat) == expand(first, num_stage_2s as nat),
        decreases num_stage_2s - round,
    {
        stage2 = find_shortest_pattern_stage2_stupid(&stage2);
        round += 1;
    }

    let ghost sim0 = opt_view(*sim);
    if let Some(sim) = sim {
        let mut idx: usize = 0;
        proof {
            assert(stage2@.take(0) =~= Seq::<DirKey>::empty());
        }
        while idx < stage2.len()
            invariant
                idx <= stage2.len(),
                sim0 is Some,
                run_keys(sim0->0, stage2@) is Some,
                Some(sim@) == run_keys(sim0->0, stage2@.take(idx as int)),
            decreases stage2.len() - idx,
        {
            let key = stage2[idx];
            proof {
                let next = stage2@.take(idx + 1);
                assert(next.drop_last() =~= stage2@.take(idx as int));
                assert(stage2@ =~= next + stage2@.skip(idx + 1));
                lemma_run_keys_concat(sim0->0, next, stage2@.skip(idx + 1));
            }
            sim.simulate(key);
            idx += 1;
        }
        proof {
            assert(stage2@.take(idx as int) =~= stage2@);
        }
    }
    stage2.len()
}

/// The number that a combination's digits spell.
pub open spec fn numeric_part(combination: Seq<NumKey>) -> nat
    decreases combination.len(),
{
    if combination.len() == 0 {
        0
    } else {
        match combination.last() {
            NumKey::Num(n) => numeric_part(combination.drop_last()) * 10 + n as nat,
            NumKey::Activate => numeric_part(combination.drop_last()),
        }
    }
}

/// The complexity of a combination: the number it spells times the length of
/// its pattern.
pub open spec fn complexity(combination: Seq<NumKey>, stages: nat) -> nat {
    numeric_part(combination) * expand(num_pattern(combination), stages).len()
}

/// The sum of the complexities of the combinations.
pub open spec fn total_complexity(combinations: Seq<Vec<NumKey>>, stages: nat) -> nat {
    sum_over(combinations, |c: Vec<NumKey>| complexity(c@, stages))
}

/// The number that the digits of a combination spell.
fn spelled_number(combination: &Vec<NumKey>) -> (num: usize)
    requires
        numeric_part(combination@) <= usize::MAX,
    ensures
        num == numeric_part(combination@),
{
    let mut acc: usize = 0;
    let mut idx: usize = 0;
    proof {
        assert(combination@.take(0) =~= Seq::<NumKey>::empty());
    }
    while idx < combination.len()
        invariant
            idx <= combination.len(),
            numeric_part(combination@) <= usize::MAX,
            acc == numeric_part(combination@.take(idx as int)),
        decreases combination.len() - idx,
    {
        proof {
            let next = combination@.take(idx + 1);
            assert(next.drop_last() =~= combination@.take(idx as int));
            lemma_numeric_part_mono(combination@, idx + 1);
        }
        match combination[idx] {
            NumKey::Num(n) => {
                acc = acc * 10 + n as usize;
            },
            NumKey::Activate => {},
        }
        idx += 1;
    }
    proof {
        assert(combination@.take(idx as int) =~= combination@);
    }
    acc
}

/// The number spelled by a prefix is no larger than the whole number.
pub proof fn lemma_numeric_part_mono(combination: Seq<NumKey>, len: int)
    requires
        0 <= len <= combination.len(),
    ensures
        numeric_part(combination.take(len)) <= numeric_part(combination),
    decreases combination.len(),
{
    if len == combination.len() {
        assert(combination.take(len) =~= combination);
    } else {
        lemma_numeric_part_mono(combination.drop_last(), len);
        assert(combination.drop_last().take(len) =~= combination.take(len));
    }
}

/// A way to find the length of the shortest pattern that types a
/// combination through a number of directional keypads, and to type it into
/// a simulator where one is at hand.
pub trait PatternFinder<const N: usize>: Sized {
    /// What the finder needs of the simulator and the combination.
    spec fn ready(&self, sim: Option<SimulatorView>, combination: Seq<NumKey>, stages: nat) -> bool;

    /// The length that the finder returns.
    spec fn length(&self, combination: Seq<NumKey>, stages: nat) -> nat;

    /// The simulator as the finder leaves it.
    spec fn leaves(
        &self,
        sim: Option<SimulatorView>,
        combination: Seq<NumKey>,
        stages: nat,
    ) -> Option<SimulatorView>;

    /// Finds the length of the pattern for one combination.
    fn find(
        &self,
        combination: &Vec<NumKey>,
        num_stage_2s: usize,
        sim: &mut Option<Simulator<N>>,
    ) -> (generated: usize)
        requires
            self.ready(opt_view(*old(sim)), combination@, num_stage_2s as nat),
        ensures
            generated == self.length(combination@, num_stage_2s as nat),
            opt_view(*final(sim)) == self.leaves(
                opt_view(*old(sim)),
                combination@,
                num_stage_2s as nat,
            ),
            (*final(sim) is Some) == (*old(sim) is Some),
    ;
}

/// The finder that counts the keys pad by pad and remembers what it has
/// counted.
pub struct Smart {}

/// The finder that writes the whole pattern out.
pub struct Stupid {}

impl<const N: usize> PatternFinder<N> for Smart {
    open spec fn ready(&self, sim: Option<SimulatorView>, combination: Seq<NumKey>, stages: nat) -> bool {
        &&& combination_valid(combination)
        &&& expand(num_pattern(combination), stages).len() <= usize::MAX
        &&& typing_accepted(sim, expand(num_pattern(combination), stages))
    }

    open spec fn length(&self, combination: Seq<NumKey>, stages: nat) -> nat {
        expand(num_pattern(combination), stages).len()
    }

    open spec fn leaves(
        &self,
        sim: Option<SimulatorView>,
        combination: Seq<NumKey>,
        stages: nat,
    ) -> Option<SimulatorView> {
        run_opt(sim, expand(num_pattern(combination), stages))
    }

    fn find(
        &self,
        combination: &Vec<NumKey>,
        num_stage_2s: usize,
        sim: &mut Option<Simulator<N>>,
    ) -> (generated: usize) {
        let ghost before = opt_view(*sim);
        let generated = find_shortest_pattern_smart(combination, num_stage_2s, sim);
        proof {
            lemma_run_opt_some(before, expand(num_pattern(combination@), num_stage_2s as nat));
        }
        generated
    }
}

impl<const N: usize> PatternFinder<N> for Stupid {
    open spec fn ready(&self, sim: Option<SimulatorView>, combination: Seq<NumKey>, stages: nat) -> bool {
        &&& combination_valid(combination)
        &&& typing_accepted(sim, expand(num_pattern(combination), stages))
    }

    open spec fn length(&self, combination: Seq<NumKey>, stages: nat) -> nat {
        expand(num_pattern(combination), stages).len()
    }

    open spec fn leaves(
        &self,
        sim: Option<SimulatorView>,
        combination: Seq<NumKey>,
        stages: nat,
    ) -> Option<SimulatorView> {
        run_opt(sim, expand(num_pattern(combination), stages))
    }

    fn find(
        &self,
        combination: &Vec<NumKey>,
        num_stage_2s: usize,
        sim: &mut Option<Simulator<N>>,
    ) -> (generated: usize) {
        let ghost before = opt_view(*sim);
        let generated = find_shortest_pattern_stupid(combination, num_stage_2s, sim);
        proof {
            lemma_run_opt_some(before, expand(num_pattern(combination@), num_stage_2s as nat));
        }
        generated
    }
}

/// Keys that a simulator accepts leave a simulator, and no keys make one.
pub proof fn lemma_run_opt_some(sim: Option<SimulatorView>, keys: Seq<DirKey>)
    requires
        typing_accepted(sim, keys),
    ensures
        run_opt(sim, keys) is Some == sim is Some,
{
}

/// The simulator after the finder has been at the first `upto`
/// combinations, one after the other.
pub open spec fn finder_leaves<const N: usize, F: PatternFinder<N>>(
    finder: F,
    sim: Option<SimulatorView>,
    combinations: Seq<Vec<NumKey>>,
    stages: nat,
    upto: nat,
) -> Option<SimulatorView>
    decreases upto,
{
    if upto == 0 {
        sim
    } else {
        finder.leaves(
            finder_leaves(finder, sim, combinations, stages, (upto - 1) as nat),
            combinations[upto - 1]@,
            stages,
        )
    }
}

/// The finder can be called for each combination in turn.
pub open spec fn finder_ready<const N: usize, F: PatternFinder<N>>(
    finder: F,
    sim: Option<SimulatorView>,
    combinations: Seq<Vec<NumKey>>,
    stages: nat,
) -> bool {
    forall|i: int|
        0 <= i < combinations.len() ==> #[trigger] finder.ready(
            finder_leaves(finder, sim, combinations, stages, i as nat),
            combinations[i]@,
            stages,
        )
}

/// The sum, over the combinations, of the number in the combination times
/// the length that the finder returns for it.
pub open spec fn finder_total<const N: usize, F: PatternFinder<N>>(
    finder: F,
    combinations: Seq<Vec<NumKey>>,
    stages: nat,
) -> nat {
    sum_over(combinations, |c: Vec<NumKey>| numeric_part(c@) * finder.length(c@, stages))
}

/// The sum of the complexities of the combinations: the finder is called
/// once for each combination, in their order, with the simulator as the
/// call before left it, and the length that it returns is multiplied by the
/// number in the combination.
pub fn calc_complexities<const N: usize, F: PatternFinder<N>>(
    combinations: &Vec<Vec<NumKey>>,
    num_stage_2s: usize,
    find_shortest_pattern_fn: &F,
    sim: &mut Option<Simulator<N>>,
) -> (total: usize)
    requires
        finder_ready(*find_shortest_pattern_fn, opt_view(*old(sim)), combinations@, num_stage_2s as nat),
        forall|i: int|
            0 <= i < combinations.len() ==> numeric_part((#[trigger] combinations@[i])@)
                <= usize::MAX,
        finder_total(*find_shortest_pattern_fn, combinations@, num_stage_2s as nat) <= usize::MAX,
    ensures
        total == finder_total(*find_shortest_pattern_fn, combinations@, num_stage_2s as nat),
        opt_view(*final(sim)) == finder_leaves(
            *find_shortest_pattern_fn,
            opt_view(*old(sim)),
            combinations@,
            num_stage_2s as nat,
            combinations@.len(),
        ),
{
    let ghost stages = num_stage_2s as nat;
    let ghost sim0 = opt_view(*sim);
    let ghost finder = *find_shortest_pattern_fn;
    let ghost term = |c: Vec<NumKey>| numeric_part(c@) * finder.length(c@, stages);
    let mut total: usize = 0;
    let mut idx: usize = 0;
    proof {
        assert(combinations@.take(0) =~= Seq::<Vec<NumKey>>::empty());
    }
    while idx < combinations.len()
        invariant
            idx <= combinations.len(),
            stages == num_stage_2s,
            finder == *find_shortest_pattern_fn,
            term == (|c: Vec<NumKey>| numeric_part(c@) * finder.length(c@, stages)),
            finder_ready(finder, sim0, combinations@, stages),
            forall|i: int|
                0 <= i < combinations.len() ==> numeric_part((#[trigger] combinations@[i])@)
                    <= usize::MAX,
            sum_over(combinations@, term) <= usize::MAX,
            total == sum_over(combinations@.take(idx as int), term),
            opt_view(*sim) == finder_leaves(finder, sim0, combinations@, stages, idx as nat),
        decreases combinations.len() - idx,
    {
        let combination = &combinations[idx];
        proof {
            let next = combinations@.take(idx + 1);
            assert(next.drop_last() =~= combinations@.take(idx as int));
            assert(next.last() == combinations@[idx as int]);
            lemma_sum_over_take(combinations@, term, idx + 1);
            let i = idx as int;
            assert(finder.ready(
                finder_leaves(finder, sim0, combinations@, stages, i as nat),
                combinations@[i]@,
                stages,
            ));
            assert(i as nat == idx as nat);
        }
        let shortest_pattern_len = find_shortest_pattern_fn.find(combination, num_stage_2s, sim);
        let num = spelled_number(combination);
        proof {
            assert(term(combinations@[idx as int]) == num * shortest_pattern_len);
            assert(num * shortest_pattern_len <= sum_over(combinations@.take(idx + 1), term));
        }
        total += num * shortest_pattern_len;
        idx += 1;
    }
    proof {
        assert(combinations@.take(idx as int) =~= combinations@);
    }
    total
}

/// With the two finders of this module the sum is the sum of the
/// complexities of the combinations.
pub proof fn lemma_total_complexity<const N: usize>(combinations: Seq<Vec<NumKey>>, stages: nat)
    ensures
        finder_total::<N, Smart>(Smart {  }, combinations, stages) == total_complexity(
            combinations,
            stages,
        ),
        finder_total::<N, Stupid>(Stupid {  }, combinations, stages) == total_complexity(
            combinations,
            stages,
        ),
{
    let smart = |c: Vec<NumKey>|
        numeric_part(c@) * PatternFinder::<N>::length(&Smart {  }, c@, stages);
    let stupid = |c: Vec<NumKey>|
        numeric_part(c@) * PatternFinder::<N>::length(&Stupid {  }, c@, stages);
    let plain = |c: Vec<NumKey>| complexity(c@, stages);
    crate::counting::lemma_sum_over_same(combinations, smart, plain);
    crate::counting::lemma_sum_over_same(combinations, stupid, plain);
}

/// A position as the simulator keeps it.
pub open spec fn at(pos: (int, int)) -> (nat, nat) {
    (pos.0 as nat, pos.1 as nat)
}

/// The position holds a key of a pad of `rows` rows whose gap lies in column
/// 0 of row `gap_row`.
pub open spec fn on_pad(pos: (int, int), rows: int, gap_row: int) -> bool {
    0 <= pos.0 < rows && 0 <= pos.1 < 3 && pos != (gap_row, 0int)
}

/// Where a pointer comes to by the moves, if none of them is refused.
pub open spec fn walk_pad(pos: (nat, nat), keys: Seq<DirKey>, rows: nat, gap: (nat, nat)) -> Option<
    (nat, nat),
>
    decreases keys.len(),
{
    if keys.len() == 0 {
        Some(pos)
    } else {
        match walk_pad(pos, keys.drop_last(), rows, gap) {
            Some(mid) => pad_step(mid, keys.last(), rows, gap),
            None => None,
        }
    }
}

/// The simulator with the pointer of one directional pad put elsewhere.
pub open spec fn with_pad(sim: SimulatorView, pad: int, pos: (nat, nat)) -> SimulatorView {
    SimulatorView { dir_pads: sim.dir_pads.update(pad, pos), ..sim }
}

/// What pressing the keys one after the other on pad number `level` does.
pub open spec fn run_at(sim: SimulatorView, keys: Seq<DirKey>, level: nat) -> Option<SimulatorView>
    decreases keys.len(),
{
    if keys.len() == 0 {
        Some(sim)
    } else {
        match run_at(sim, keys.drop_last(), level) {
            Some(mid) => press(mid, keys.last(), level),
            None => None,
        }
    }
}

/// Pressing a key leaves the number of pads as it is, and every pointer
/// from the pad pressed on outwards where it is.
pub proof fn lemma_press_frame(sim: SimulatorView, key: DirKey, stage: nat)
    requires
        press(sim, key, stage) is Some,
    ensures
        press(sim, key, stage)->0.dir_pads.len() == sim.dir_pads.len(),
        forall|j: int|
            stage <= j < sim.dir_pads.len() ==> press(sim, key, stage)->0.dir_pads[j]
                == sim.dir_pads[j],
    decreases stage,
{
    if key == DirKey::Activate && stage > 0 {
        let below = key_under(dir_pad_keys(), sim.dir_pads[stage - 1])->0;
        lemma_press_frame(sim, below, (stage - 1) as nat);
    }
}

/// Pressing on a pad does not look at the pointers from that pad outwards.
pub proof fn lemma_press_above(sim: SimulatorView, key: DirKey, stage: nat, pad: int, pos: (nat, nat))
    requires
        stage <= pad < sim.dir_pads.len(),
    ensures
        press(with_pad(sim, pad, pos), key, stage) == match press(sim, key, stage) {
            Some(next) => Some(with_pad(next, pad, pos)),
            None => None,
        },
    decreases stage,
{
    let moved = with_pad(sim, pad, pos);
    if key != DirKey::Activate {
        if stage > 0 {
            match pad_step(sim.dir_pads[stage - 1], key, 2, (0, 0)) {
                Some(to) => {
                    assert(moved.dir_pads.update(stage - 1, to) =~= sim.dir_pads.update(
                        stage - 1,
                        to,
                    ).update(pad, pos));
                },
                None => {},
            }
        }
    } else if stage > 0 {
        match key_under(dir_pad_keys(), sim.dir_pads[stage - 1]) {
            Some(below) => {
                lemma_press_above(sim, below, (stage - 1) as nat, pad, pos);
            },
            None => {},
        }
    }
}

/// The keys of a simulator are pressed on its outermost pad.
pub proof fn lemma_run_keys_at(sim: SimulatorView, keys: Seq<DirKey>)
    ensures
        run_keys(sim, keys) == run_at(sim, keys, sim.dir_pads.len()),
        run_keys(sim, keys) matches Some(next) ==> next.dir_pads.len() == sim.dir_pads.len(),
    decreases keys.len(),
{
    if keys.len() > 0 {
        lemma_run_keys_at(sim, keys.drop_last());
        match run_keys(sim, keys.drop_last()) {
            Some(mid) => {
                if press(mid, keys.last(), mid.dir_pads.len()) is Some {
                    lemma_press_frame(mid, keys.last(), mid.dir_pads.len());
                }
            },
            None => {},
        }
    }
}

/// Keys pressed one after the other: first the one list, then the other.
pub proof fn lemma_run_at_concat(sim: SimulatorView, a: Seq<DirKey>, b: Seq<DirKey>, level: nat)
    ensures
        run_at(sim, a + b, level) == match run_at(sim, a, level) {
            Some(mid) => run_at(mid, b, level),
            None => None,
        },
    decreases b.len(),
{
    if b.len() == 0 {
        assert(a + b =~= a);
    } else {
        lemma_run_at_concat(sim, a, b.drop_last(), level);
        assert((a + b).drop_last() =~= a + b.drop_last());
    }
}

/// Where pointers come to by moves, first the one list, then the other.
pub proof fn lemma_walk_concat(pos: (nat, nat), a: Seq<DirKey>, b: Seq<DirKey>, rows: nat, gap: (nat, nat))
    ensures
        walk_pad(pos, a + b, rows, gap) == match walk_pad(pos, a, rows, gap) {
            Some(mid) => walk_pad(mid, b, rows, gap),
            None => None,
        },
    decreases b.len(),
{
    if b.len() == 0 {
        assert(a + b =~= a);
    } else {
        lemma_walk_concat(pos, a, b.drop_last(), rows, gap);
        assert((a + b).drop_last() =~= a + b.drop_last());
    }
}

/// Moves up or down a column that does not lead over the gap are not
/// refused.
pub proof fn lemma_walk_vert(pos: (int, int), to_row: int, rows: int, gap_row: int)
    requires
        0 <= pos.0 < rows,
        0 <= to_row < rows,
        0 <= pos.1 < 3,
        gap_row == 0 || gap_row == rows - 1,
        pos.1 != 0 || (pos.0 != gap_row && to_row != gap_row),
    ensures
        walk_pad(
            at(pos),
            repeat_key(
                if to_row < pos.0 {
                    DirKey::Up
                } else {
                    DirKey::Down
                },
                if to_row < pos.0 {
                    pos.0 - to_row
                } else {
                    to_row - pos.0
                },
            ),
            rows as nat,
            (gap_row as nat, 0nat),
        ) == Some(at((to_row, pos.1))),
    decreases (if to_row < pos.0 { pos.0 - to_row } else { to_row - pos.0 }),
{
    let key = if to_row < pos.0 {
        DirKey::Up
    } else {
        DirKey::Down
    };
    let count = if to_row < pos.0 {
        pos.0 - to_row
    } else {
        to_row - pos.0
    };
    let keys = repeat_key(key, count);
    if count > 0 {
        let before_row = if to_row < pos.0 {
            to_row + 1
        } else {
            to_row - 1
        };
        lemma_walk_vert(pos, before_row, rows, gap_row);
        assert(keys.drop_last() =~= repeat_key(key, count - 1));
        assert(repeat_key(DirKey::Up, 0) =~= repeat_key(DirKey::Down, 0));
        assert(keys.last() == key);
        let gap = (gap_row as nat, 0nat);
        assert(walk_pad(at(pos), keys.drop_last(), rows as nat, gap) == Some(
            at((before_row, pos.1)),
        ));
        assert(pad_step(at((before_row, pos.1)), key, rows as nat, gap) == Some(
            at((to_row, pos.1)),
        ));
    } else {
        assert(keys.len() == 0);
    }
}

/// Moves along a row that does not lead over the gap are not refused.
pub proof fn lemma_walk_hort(pos: (int, int), to_col: int, rows: int, gap_row: int)
    requires
        0 <= pos.0 < rows,
        0 <= pos.1 < 3,
        0 <= to_col < 3,
        0 <= gap_row < rows,
        pos.0 != gap_row || (pos.1 != 0 && to_col != 0),
    ensures
        walk_pad(
            at(pos),
            repeat_key(
                if to_col < pos.1 {
                    DirKey::Left
                } else {
                    DirKey::Right
                },
                if to_col < pos.1 {
                    pos.1 - to_col
                } else {
                    to_col - pos.1
                },
            ),
            rows as nat,
            (gap_row as nat, 0nat),
        ) == Some(at((pos.0, to_col))),
    decreases (if to_col < pos.1 { pos.1 - to_col } else { to_col - pos.1 }),
{
    let key = if to_col < pos.1 {
        DirKey::Left
    } else {
        DirKey::Right
    };
    let count = if to_col < pos.1 {
        pos.1 - to_col
    } else {
        to_col - pos.1
    };
    let keys = repeat_key(key, count);
    if count > 0 {
        let before_col = if to_col < pos.1 {
            to_col + 1
        } else {
            to_col - 1
        };
        lemma_walk_hort(pos, before_col, rows, gap_row);
        assert(keys.drop_last() =~= repeat_key(key, count - 1));
        assert(repeat_key(DirKey::Left, 0) =~= repeat_key(DirKey::Right, 0));
        assert(keys.last() == key);
        let gap = (gap_row as nat, 0nat);
        assert(walk_pad(at(pos), keys.drop_last(), rows as nat, gap) == Some(
            at((pos.0, before_col)),
        ));
        assert(pad_step(at((pos.0, before_col)), key, rows as nat, gap) == Some(
            at((pos.0, to_col)),
        ));
    } else {
        assert(keys.len() == 0);
    }
}

/// The moves from one key of a pad to another are not refused, and lead
/// there.
pub proof fn lemma_walk_moves(from: (int, int), to: (int, int), rows: int, gap_row: int)
    requires
        on_pad(from, rows, gap_row),
        on_pad(to, rows, gap_row),
        gap_row == 0 || gap_row == rows - 1,
    ensures
        walk_pad(at(from), pad_moves(from, to, gap_row), rows as nat, (gap_row as nat, 0nat))
            == Some(at(to)),
{
    let gap = (gap_row as nat, 0nat);
    let row_off = to.0 - from.0;
    let col_off = to.1 - from.1;
    let vert_first = (from.0 == gap_row && to.1 == 0) || !((from.1 == 0 && to.0 == gap_row)
        || col_off < 0);
    if vert_first {
        let vert = repeat_key(
            if row_off < 0 { DirKey::Up } else { DirKey::Down },
            if row_off < 0 { -row_off } else { row_off },
        );
        let hort = repeat_key(
            if col_off < 0 { DirKey::Left } else { DirKey::Right },
            if col_off < 0 { -col_off } else { col_off },
        );
        assert(pad_moves(from, to, gap_row) == vert + hort);
        lemma_walk_vert(from, to.0, rows, gap_row);
        lemma_walk_hort((to.0, from.1), to.1, rows, gap_row);
        lemma_walk_concat(at(from), vert, hort, rows as nat, gap);
    } else {
        let vert = repeat_key(
            if row_off < 0 { DirKey::Up } else { DirKey::Down },
            if row_off < 0 { -row_off } else { row_off },
        );
        let hort = repeat_key(
            if col_off < 0 { DirKey::Left } else { DirKey::Right },
            if col_off < 0 { -col_off } else { col_off },
        );
        assert(pad_moves(from, to, gap_row) == hort + vert);
        lemma_walk_hort(from, to.1, rows, gap_row);
        lemma_walk_vert((from.0, to.1), to.0, rows, gap_row);
        lemma_walk_concat(at(from), hort, vert, rows as nat, gap);
    }
}

/// None of the keys is `Activate`.
pub open spec fn only_moves(keys: Seq<DirKey>) -> bool {
    forall|i: int| 0 <= i < keys.len() ==> #[trigger] keys[i] != DirKey::Activate
}

/// The moves from one position to another hold no `Activate`.
pub proof fn lemma_pad_moves_only(from: (int, int), to: (int, int), gap_row: int)
    ensures
        only_moves(pad_moves(from, to, gap_row)),
{
}

/// Moves pressed on a pad move the pointer of the pad below it, or that of
/// the numeric pad, as far as none of them is refused.
pub proof fn lemma_run_moves(sim: SimulatorView, keys: Seq<DirKey>, level: nat)
    requires
        only_moves(keys),
        level <= sim.dir_pads.len(),
    ensures
        level == 0 ==> run_at(sim, keys, level) == match walk_pad(sim.num_pad, keys, 4, (3, 0)) {
            Some(pos) => Some(SimulatorView { num_pad: pos, ..sim }),
            None => None,
        },
        level > 0 ==> run_at(sim, keys, level) == match walk_pad(
            sim.dir_pads[level - 1],
            keys,
            2,
            (0, 0),
        ) {
            Some(pos) => Some(with_pad(sim, level - 1, pos)),
            None => None,
        },
    decreases keys.len(),
{
    if keys.len() == 0 {
        if level > 0 {
            assert(sim.dir_pads.update(level - 1, sim.dir_pads[level - 1]) =~= sim.dir_pads);
        }
    } else {
        let front = keys.drop_last();
        assert(only_moves(front)) by {
            assert forall|i: int| 0 <= i < front.len() implies #[trigger] front[i]
                != DirKey::Activate by {
                assert(front[i] == keys[i]);
            }
        }
        lemma_run_moves(sim, front, level);
        assert(keys.last() == keys[keys.len() - 1]);
        if level > 0 {
            match walk_pad(sim.dir_pads[level - 1], front, 2, (0, 0)) {
                Some(mid) => {
                    let held = with_pad(sim, level - 1, mid);
                    match pad_step(mid, keys.last(), 2, (0, 0)) {
                        Some(pos) => {
                            assert(held.dir_pads.update(level - 1, pos) =~= sim.dir_pads.update(
                                level - 1,
                                pos,
                            ));
                        },
                        None => {},
                    }
                },
                None => {},
            }
        }
    }
}

/// Every pointer from pad number `from` outwards rests on `Activate`.
pub open spec fn rested(sim: SimulatorView, from: int) -> bool {
    forall|j: int| from <= j < sim.dir_pads.len() ==> #[trigger] sim.dir_pads[j] == (0nat, 2nat)
}

/// The moves to a key of a directional pad and `Activate`, pressed on the
/// pad above it, press that key on the pad below it.
pub proof fn lemma_type_below(sim: SimulatorView, key: DirKey, from: (int, int), level: nat)
    requires
        level < sim.dir_pads.len(),
        sim.dir_pads[level as int] == at(from),
        on_pad(from, 2, 0),
    ensures
        run_at(sim, pad_moves(from, dir_key_pos(key), 0).push(DirKey::Activate), level + 1)
            == press(with_pad(sim, level as int, at(dir_key_pos(key))), key, level),
{
    let to = dir_key_pos(key);
    let moves = pad_moves(from, to, 0);
    let keys = moves.push(DirKey::Activate);
    lemma_pad_moves_only(from, to, 0);
    lemma_walk_moves(from, to, 2, 0);
    lemma_run_moves(sim, moves, level + 1);
    assert(keys.drop_last() =~= moves);
    assert(keys.last() == DirKey::Activate);
    let moved = with_pad(sim, level as int, at(to));
    assert(run_at(sim, moves, level + 1) == Some(moved));
    assert(moved.dir_pads[level as int] == at(to));
    assert(key_under(dir_pad_keys(), at(to)) == Some(key));
    assert(press(moved, DirKey::Activate, level + 1) == press(moved, key, level));
}

/// The keys typed through `stages` pads press `key` on pad number `level`,
/// once the pointer over it has been moved to it, and leave the pads in
/// between at rest.
pub proof fn lemma_key_typing(sim: SimulatorView, key: DirKey, from: (int, int), level: nat, stages: nat)
    requires
        level + stages == sim.dir_pads.len(),
        rested(sim, level as int + 1),
        stages > 0 ==> sim.dir_pads[level as int] == at(from) && on_pad(from, 2, 0),
    ensures
        stages == 0 ==> run_at(sim, key_typing(key, from, stages), sim.dir_pads.len()) == press(
            sim,
            key,
            level,
        ),
        stages > 0 ==> run_at(sim, key_typing(key, from, stages), sim.dir_pads.len()) == press(
            with_pad(sim, level as int, at(dir_key_pos(key))),
            key,
            level,
        ),
    decreases stages, 0nat,
{
    let pads = sim.dir_pads.len();
    if stages == 0 {
        let keys = seq![key];
        assert(key_typing(key, from, stages) == keys);
        assert(keys.drop_last() =~= Seq::<DirKey>::empty());
        assert(run_at(sim, keys.drop_last(), pads) == Some(sim));
        assert(keys.last() == key);
    } else {
        let to = dir_key_pos(key);
        let keys = pad_moves(from, to, 0).push(DirKey::Activate);
        assert(key_typing(key, from, stages) == seq_typing(keys, (0, 2), (stages - 1) as nat));
        lemma_type_below(sim, key, from, level);
        let moved = with_pad(sim, level as int, at(to));
        let pressed = press(moved, key, level);
        assert(run_at(sim, keys, level + 1) == pressed);
        if stages == 1 {
            lemma_seq_typing(sim, keys, (0, 2), level + 1, 0);
        } else {
            assert(sim.dir_pads[level as int + 1] == (0nat, 2nat));
            assert(rested(sim, level as int + 2));
            lemma_seq_typing(sim, keys, (0, 2), level + 1, (stages - 1) as nat);
            assert(end_pos(keys, (0, 2)) == (0int, 2int));
            if pressed is Some {
                let next = pressed->0;
                lemma_press_frame(moved, key, level);
                assert(next.dir_pads[level as int + 1] == moved.dir_pads[level as int + 1]);
                assert(moved.dir_pads[level as int + 1] == sim.dir_pads[level as int + 1]);
                assert(next.dir_pads.update(level as int + 1, (0nat, 2nat)) =~= next.dir_pads);
                assert(with_pad(next, level as int + 1, at((0int, 2int))) == next);
            }
        }
    }
}

/// The keys typed through `stages` pads press the keys of the list one
/// after the other on pad number `level`, and leave the pointer over that
/// pad on the last of them and the pads in between at rest.
pub proof fn lemma_seq_typing(
    sim: SimulatorView,
    keys: Seq<DirKey>,
    from: (int, int),
    level: nat,
    stages: nat,
)
    requires
        level + stages == sim.dir_pads.len(),
        rested(sim, level as int + 1),
        stages > 0 ==> sim.dir_pads[level as int] == at(from) && on_pad(from, 2, 0),
    ensures
        stages == 0 ==> run_at(sim, seq_typing(keys, from, stages), sim.dir_pads.len()) == run_at(
            sim,
            keys,
            level,
        ),
        stages > 0 ==> run_at(sim, seq_typing(keys, from, stages), sim.dir_pads.len()) == match run_at(
            sim,
            keys,
            level,
        ) {
            Some(next) => Some(with_pad(next, level as int, at(end_pos(keys, from)))),
            None => None,
        },
    decreases stages, keys.len() + 1,
{
    let pads = sim.dir_pads.len();
    if keys.len() == 0 {
        assert(seq_typing(keys, from, stages) =~= Seq::<DirKey>::empty());
        if stages > 0 {
            assert(sim.dir_pads.update(level as int, at(from)) =~= sim.dir_pads);
        }
    } else {
        let front = keys.drop_last();
        let key = keys.last();
        let middle = end_pos(front, from);
        let typed_front = seq_typing(front, from, stages);
        let typed_key = key_typing(key, middle, stages);
        assert(seq_typing(keys, from, stages) == typed_front + typed_key);
        lemma_seq_typing(sim, front, from, level, stages);
        lemma_run_at_concat(sim, typed_front, typed_key, pads);
        match run_at(sim, front, level) {
            Some(mid) => {
                lemma_run_at_frame(sim, front, level);
                assert(mid.dir_pads.len() == pads);
                assert(rested(mid, level as int + 1)) by {
                    assert forall|j: int| level as int + 1 <= j < mid.dir_pads.len() implies #[trigger] mid.dir_pads[j]
                        == (0nat, 2nat) by {
                        assert(mid.dir_pads[j] == sim.dir_pads[j]);
                    }
                }
                if stages == 0 {
                    assert(run_at(sim, typed_front, pads) == Some(mid));
                    lemma_key_typing(mid, key, middle, level, stages);
                } else {
                    let held = with_pad(mid, level as int, at(middle));
                    assert(run_at(sim, typed_front, pads) == Some(held));
                    assert(on_pad(middle, 2, 0));
                    assert(held.dir_pads.len() == pads);
                    assert(held.dir_pads[level as int] == at(middle));
                    assert(rested(held, level as int + 1)) by {
                        assert forall|j: int|
                            level as int + 1 <= j < held.dir_pads.len() implies #[trigger] held.dir_pads[j]
                            == (0nat, 2nat) by {
                            assert(held.dir_pads[j] == mid.dir_pads[j]);
                        }
                    }
                    lemma_key_typing(held, key, middle, level, stages);
                    let to = at(dir_key_pos(key));
                    assert(held.dir_pads.update(level as int, to) =~= mid.dir_pads.update(
                        level as int,
                        to,
                    ));
                    assert(with_pad(held, level as int, to) == with_pad(mid, level as int, to));
                    lemma_press_above(mid, key, level, level as int, to);
                    assert(end_pos(keys, from) == dir_key_pos(key));
                }
            },
            None => {},
        }
    }
}

/// Keys pressed on a pad leave the number of pads as it is, and every
/// pointer from that pad outwards where it is.
pub proof fn lemma_run_at_frame(sim: SimulatorView, keys: Seq<DirKey>, level: nat)
    requires
        run_at(sim, keys, level) is Some,
    ensures
        run_at(sim, keys, level)->0.dir_pads.len() == sim.dir_pads.len(),
        forall|j: int|
            level <= j < sim.dir_pads.len() ==> run_at(sim, keys, level)->0.dir_pads[j]
                == sim.dir_pads[j],
    decreases keys.len(),
{
    if keys.len() > 0 {
        lemma_run_at_frame(sim, keys.drop_last(), level);
        lemma_press_frame(run_at(sim, keys.drop_last(), level)->0, keys.last(), level);
    }
}

/// Every key of a valid combination lies on the numeric pad, under the
/// pointer that stands at its position.
pub proof fn lemma_num_key_under(key: NumKey)
    requires
        key matches NumKey::Num(n) ==> n < 10,
    ensures
        on_pad(num_key_pos(key), 4, 3),
        key_under(num_pad_keys(), at(num_key_pos(key))) == Some(key),
{
    let keys = num_pad_keys();
    assert(keys.len() == 12);
    match key {
        NumKey::Activate => {
            assert(keys[11] == Some(NumKey::Activate));
        },
        NumKey::Num(n) => {
            if n == 0 {
                assert(keys[10] == Some(NumKey::Num(0)));
            } else if n == 1 {
                assert(keys[6] == Some(NumKey::Num(1)));
            } else if n == 2 {
                assert(keys[7] == Some(NumKey::Num(2)));
            } else if n == 3 {
                assert(keys[8] == Some(NumKey::Num(3)));
            } else if n == 4 {
                assert(keys[3] == Some(NumKey::Num(4)));
            } else if n == 5 {
                assert(keys[4] == Some(NumKey::Num(5)));
            } else if n == 6 {
                assert(keys[5] == Some(NumKey::Num(6)));
            } else if n == 7 {
                assert(keys[0] == Some(NumKey::Num(7)));
            } else if n == 8 {
                assert(keys[1] == Some(NumKey::Num(8)));
            } else {
                assert(keys[2] == Some(NumKey::Num(9)));
            }
        },
    }
}

/// Where the pointer of the numeric pad rests after a combination.
pub open spec fn num_end(combination: Seq<NumKey>) -> (int, int) {
    if combination.len() == 0 {
        (3, 2)
    } else {
        num_key_pos(combination.last())
    }
}

/// The simulator after a combination has been typed on its numeric pad.
pub open spec fn typed_view(sim: SimulatorView, combination: Seq<NumKey>) -> SimulatorView {
    SimulatorView { num_pad: at(num_end(combination)), typed: sim.typed + combination, ..sim }
}

/// The pattern of a combination, pressed on the numeric pad, types the
/// combination.
pub proof fn lemma_type_combination(sim: SimulatorView, combination: Seq<NumKey>)
    requires
        combination_valid(combination),
        sim.num_pad == (3nat, 2nat),
    ensures
        run_at(sim, num_pattern(combination), 0) == Some(typed_view(sim, combination)),
    decreases combination.len(),
{
    if combination.len() == 0 {
        assert(num_targets(combination) =~= Seq::<(int, int)>::empty());
        assert(sim.typed + combination =~= sim.typed);
    } else {
        let front = combination.drop_last();
        let key = combination.last();
        let targets = num_targets(combination);
        assert(targets.drop_last() =~= num_targets(front));
        assert(targets.last() == num_key_pos(key));
        assert(combination_valid(front)) by {
            assert forall|i: int| 0 <= i < front.len() implies ((#[trigger] front[i]) matches NumKey::Num(
                n,
            ) ==> n < 10) by {
                assert(front[i] == combination[i]);
            }
        }
        lemma_type_combination(sim, front);
        let from = num_end(front);
        assert(from == if num_targets(front).len() == 0 {
            (3int, 2int)
        } else {
            num_targets(front).last()
        });
        let to = num_key_pos(key);
        let moves = pad_moves(from, to, 3);
        let tail = moves.push(DirKey::Activate);
        assert(num_pattern(combination) == num_pattern(front) + tail);
        lemma_run_at_concat(sim, num_pattern(front), tail, 0);
        let mid = typed_view(sim, front);
        assert(key == combination[combination.len() - 1]);
        lemma_num_key_under(key);
        if front.len() > 0 {
            assert(front.last() == combination[combination.len() - 2]);
            lemma_num_key_under(front.last());
        }
        lemma_pad_moves_only(from, to, 3);
        lemma_walk_moves(from, to, 4, 3);
        lemma_run_moves(mid, moves, 0);
        assert(tail.drop_last() =~= moves);
        assert(tail.last() == DirKey::Activate);
        let moved = SimulatorView { num_pad: at(to), ..mid };
        assert(run_at(mid, moves, 0) == Some(moved));
        assert(press(moved, DirKey::Activate, 0) == Some(
            SimulatorView { typed: moved.typed.push(key), ..moved },
        ));
        assert(moved.typed.push(key) =~= sim.typed + combination);
    }
}

/// A simulator whose pointers all rest on `Activate` accepts the pattern
/// that types a combination through all its pads: it types the combination,
/// and leaves every pointer of a directional pad on `Activate` and the
/// pointer of the numeric pad on the last key of the combination.
pub proof fn lemma_simulator_types(sim: SimulatorView, combination: Seq<NumKey>)
    requires
        combination_valid(combination),
        sim.num_pad == (3nat, 2nat),
        rested(sim, 0),
    ensures
        run_keys(sim, expand(num_pattern(combination), sim.dir_pads.len())) == Some(
            typed_view(sim, combination),
        ),
        typing_accepted(Some(sim), expand(num_pattern(combination), sim.dir_pads.len())),
{
    let pads = sim.dir_pads.len();
    let keys = num_pattern(combination);
    lemma_seq_typing_is_expand(keys, pads);
    lemma_run_keys_at(sim, expand(keys, pads));
    lemma_type_combination(sim, combination);
    assert(rested(sim, 1));
    if pads > 0 {
        assert(sim.dir_pads[0] == (0nat, 2nat));
    }
    lemma_seq_typing(sim, keys, (0, 2), 0, pads);
    let next = typed_view(sim, combination);
    if pads > 0 {
        assert(end_pos(keys, (0, 2)) == (0int, 2int)) by {
            if combination.len() > 0 {
                let targets = num_targets(combination);
                assert(targets.len() == combination.len());
            }
        }
        assert(next.dir_pads.update(0, (0nat, 2nat)) =~= next.dir_pads);
    }
}

/// A new simulator accepts the pattern that types a combination, types the
/// combination, and is left as it was but for what it has typed and for
/// the pointer of the numeric pad, which rests on the last key typed.
pub proof fn lemma_fresh_simulator(pads: nat, combination: Seq<NumKey>)
    requires
        combination_valid(combination),
    ensures
        run_keys(initial_view(pads), expand(num_pattern(combination), pads)) == Some(
            typed_view(initial_view(pads), combination),
        ),
        typing_accepted(Some(initial_view(pads)), expand(num_pattern(combination), pads)),
        combination.len() > 0 && combination.last() == NumKey::Activate ==> typed_view(
            initial_view(pads),
            combination,
        ) == (SimulatorView { typed: combination, ..initial_view(pads) }),
{
    let sim = initial_view(pads);
    lemma_simulator_types(sim, combination);
    assert(sim.typed + combination =~= combination);
}

/// Every combination is valid and ends with `Activate`.
pub open spec fn codes_valid(combinations: Seq<Vec<NumKey>>) -> bool {
    forall|i: int|
        0 <= i < combinations.len() ==> combination_valid((#[trigger] combinations[i])@)
            && combinations[i]@.len() > 0 && combinations[i]@.last() == NumKey::Activate
}

/// After the writing finder has been at some of the combinations, a
/// simulator that was at rest is at rest again.
pub proof fn lemma_finder_rests<const N: usize>(
    sim: SimulatorView,
    combinations: Seq<Vec<NumKey>>,
    upto: nat,
)
    requires
        codes_valid(combinations),
        upto <= combinations.len(),
        sim.num_pad == (3nat, 2nat),
        rested(sim, 0),
    ensures
        finder_leaves::<N, Stupid>(
            Stupid {  },
            Some(sim),
            combinations,
            sim.dir_pads.len(),
            upto,
        ) matches Some(next) && next.num_pad == (3nat, 2nat) && next.dir_pads == sim.dir_pads,
    decreases upto,
{
    if upto > 0 {
        lemma_finder_rests::<N>(sim, combinations, (upto - 1) as nat);
        let before = finder_leaves::<N, Stupid>(
            Stupid {  },
            Some(sim),
            combinations,
            sim.dir_pads.len(),
            (upto - 1) as nat,
        )->0;
        lemma_simulator_types(before, combinations[upto - 1]@);
    }
}

/// A simulator at rest, with as many directional pads as there are stages,
/// accepts what the writing finder types for valid combinations that end
/// with `Activate`: the finder can be called for each of them in turn.
pub proof fn lemma_codes_ready<const N: usize>(sim: SimulatorView, combinations: Seq<Vec<NumKey>>)
    requires
        codes_valid(combinations),
        sim.num_pad == (3nat, 2nat),
        rested(sim, 0),
    ensures
        finder_ready::<N, Stupid>(Stupid {  }, Some(sim), combinations, sim.dir_pads.len()),
{
    assert forall|i: int| 0 <= i < combinations.len() implies #[trigger] PatternFinder::<N>::ready(
        &Stupid {  },
        finder_leaves::<N, Stupid>(
            Stupid {  },
            Some(sim),
            combinations,
            sim.dir_pads.len(),
            i as nat,
        ),
        combinations[i]@,
        sim.dir_pads.len(),
    ) by {
        lemma_finder_rests::<N>(sim, combinations, i as nat);
        let before = finder_leaves::<N, Stupid>(
            Stupid {  },
            Some(sim),
            combinations,
            sim.dir_pads.len(),
            i as nat,
        )->0;
        lemma_simulator_types(before, combinations[i]@);
    }
}

/// The key of the numeric keypad that a byte stands for: a digit or the
/// letter A.
pub open spec fn key_of(byte: u8) -> Option<NumKey> {
    if 0x30 <= byte <= 0x39 {
        Some(NumKey::Num((byte - 0x30) as u8))
    } else if byte == 0x41 {
        Some(NumKey::Activate)
    } else {
        None
    }
}

/// The line at `i` holds a byte that stands for no key.
pub open spec fn code_fails(text: Seq<u8>, line: (usize, usize)) -> bool {
    exists|at: int| line.0 <= at < line.1 && key_of(#[trigger] text[at]) is None
}

/// Reads the codes to type, one from each line. Nothing is read where a
/// line holds anything but digits and the letter A.
pub fn read_codes(text: &[u8]) -> (codes: Option<Vec<Vec<NumKey>>>)
    ensures
        match codes {
            Some(found) => {
                &&& found@.len() == lines_of(text@, 0, text@.len() as int).len()
                &&& forall|i: int|
                    0 <= i < found@.len() ==> {
                        let line = lines_of(text@, 0, text@.len() as int)[i];
                        &&& (#[trigger] found@[i])@.len() == line.1 - line.0
                        &&& forall|k: int|
                            0 <= k < line.1 - line.0 ==> key_of(text@[line.0 + k]) == Some(
                                #[trigger] found@[i]@[k],
                            )
                    }
            },
            None => exists|i: int|
                0 <= i < lines_of(text@, 0, text@.len() as int).len() && code_fails(
                    text@,
                    #[trigger] lines_of(text@, 0, text@.len() as int)[i],
                ),
        },
{
    let lines = all_lines(text);
    let mut codes: Vec<Vec<NumKey>> = Vec::new();
    let mut at: usize = 0;
    while at < lines.len()
        invariant
            at <= lines.len(),
            lines@ == lines_of(text@, 0, text@.len() as int),
            crate::text::parts_within(text@, lines@),
            codes@.len() == at,
            forall|i: int|
                0 <= i < at ==> {
                    let line = lines@[i];
                    &&& (#[trigger] codes@[i])@.len() == line.1 - line.0
                    &&& forall|k: int|
                        0 <= k < line.1 - line.0 ==> key_of(text@[line.0 + k]) == Some(
                            #[trigger] codes@[i]@[k],
                        )
                },
        decreases lines.len() - at,
    {
        let (from, to) = lines[at];
        let mut code: Vec<NumKey> = Vec::new();
        let mut pos = from;
        while pos < to
            invariant
                from <= pos <= to <= text@.len(),
                lines@ == lines_of(text@, 0, text@.len() as int),
                lines@[at as int] == (from, to),
                at < lines@.len(),
                code@.len() == pos - from,
                forall|k: int| 0 <= k < pos - from ==> key_of(text@[from + k]) == Some(#[trigger] code@[k]),
            decreases to - pos,
        {
            let byte = text[pos];
            if 0x30 <= byte && byte <= 0x39 {
                code.push(NumKey::Num(byte - 0x30));
            } else if byte == 0x41 {
                code.push(NumKey::Activate);
            } else {
                assert(key_of(text@[pos as int]) is None);
                assert(code_fails(text@, lines@[at as int]));
                return None;
            }
            pos += 1;
        }
        codes.push(code);
        at += 1;
    }
    Some(codes)
}

} // verus!
