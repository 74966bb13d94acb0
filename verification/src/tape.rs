//! The tape: a growable sequence of byte cells and a data pointer into it.

use vstd::prelude::*;

verus! {

/// The value a cell holds after `v` is reduced modulo 256.
pub open spec fn wrap_cell(v: int) -> u8 {
    (v % 256) as u8
}

/// The signed 8-bit value congruent to `v` modulo 256.
pub open spec fn wrap_delta(v: int) -> int {
    if v % 256 < 128 {
        v % 256
    } else {
        v % 256 - 256
    }
}

/// Whether a data pointer `p` can be held: the tape below it has `p + 1` cells,
/// and that length has to fit in `usize`.
pub open spec fn addressable(p: int) -> bool {
    p < usize::MAX
}

/// Mathematical model of the tape and the data pointer.
pub struct Tape {
    pub cells: Seq<u8>,
    pub dp: int,
}

impl Tape {
    /// The tape at the start of a run: one zero cell, pointer on it.
    pub open spec fn fresh() -> Tape {
        Tape { cells: seq![0u8], dp: 0 }
    }

    /// The pointer names a cell of the tape.
    pub open spec fn wf(self) -> bool {
        0 <= self.dp < self.cells.len()
    }

    /// The cell under the pointer.
    pub open spec fn current(self) -> u8 {
        self.cells[self.dp]
    }

    /// Where the pointer stands after a move by `offset`: a move below cell 0
    /// stops at cell 0.
    pub open spec fn target(self, offset: int) -> int {
        if self.dp + offset < 0 {
            0
        } else {
            self.dp + offset
        }
    }

    /// The tape after a move by `offset`. Where the target lies past the last
    /// cell, zero cells are appended up to and including the target.
    pub open spec fn moved(self, offset: int) -> Tape {
        let p = self.target(offset);
        Tape {
            cells: if p < self.cells.len() {
                self.cells
            } else {
                self.cells + Seq::new((p + 1 - self.cells.len()) as nat, |i: int| 0u8)
            },
            dp: p,
        }
    }

    /// The tape after `delta` is added to the current cell, modulo 256.
    pub open spec fn added(self, delta: int) -> Tape {
        Tape { cells: self.cells.update(self.dp, wrap_cell(self.current() + delta)), dp: self.dp }
    }

    /// The tape after `byte` is stored in the current cell.
    pub open spec fn stored(self, byte: u8) -> Tape {
        Tape { cells: self.cells.update(self.dp, byte), dp: self.dp }
    }
}

/// Reducing modulo 256 after each of two additions gives what reducing once
/// after both gives, also where the sum is first reduced to a signed delta.
proof fn lemma_wrap_twice(v: int, d1: int, d2: int)
    ensures
        wrap_cell(wrap_cell(v + d1) + d2) == wrap_cell(v + (d1 + d2)),
        wrap_cell(v + wrap_delta(d1 + d2)) == wrap_cell(v + (d1 + d2)),
        -128 <= wrap_delta(d1 + d2) < 128,
{
    let a = (v + d1) % 256;
    let qa = (v + d1) / 256;
    assert(v + d1 == 256 * qa + a);
    let s = (d1 + d2) % 256;
    let qs = (d1 + d2) / 256;
    assert(d1 + d2 == 256 * qs + s);
    let r = (v + d1 + d2) % 256;
    let q = (v + d1 + d2) / 256;
    assert(v + d1 + d2 == 256 * q + r);
    assert((a + d2) % 256 == r) by {
        let r2 = (a + d2) % 256;
        let q2 = (a + d2) / 256;
        assert(a + d2 == 256 * q2 + r2);
        assert(256 * (q2 + qa - q) == r - r2);
    }
    assert((v + s) % 256 == r) by {
        let r3 = (v + s) % 256;
        let q3 = (v + s) / 256;
        assert(v + s == 256 * q3 + r3);
        assert(256 * (q3 + qs - q) == r - r3);
    }
    assert((v + (s - 256)) % 256 == r) by {
        let r4 = (v + s - 256) % 256;
        let q4 = (v + s - 256) / 256;
        assert(v + s - 256 == 256 * q4 + r4);
        assert(256 * (q4 + 1 + qs - q) == r - r4);
    }
}

/// Counting one up or down and reducing moves the reduced value by one,
/// around the ends of the signed 8-bit range.
pub proof fn lemma_wrap_delta_step(n: int)
    ensures
        -128 <= wrap_delta(n) < 128,
        wrap_delta(n + 1) == if wrap_delta(n) == 127 {
            -128
        } else {
            wrap_delta(n) + 1
        },
        wrap_delta(n - 1) == if wrap_delta(n) == -128 {
            127
        } else {
            wrap_delta(n) - 1
        },
        wrap_delta(0) == 0,
{
    let r = n % 256;
    let q = n / 256;
    assert(n == 256 * q + r);
    let r1 = (n + 1) % 256;
    let q1 = (n + 1) / 256;
    assert(n + 1 == 256 * q1 + r1);
    assert(256 * (q1 - q) == r + 1 - r1);
    let r2 = (n - 1) % 256;
    let q2 = (n - 1) / 256;
    assert(n - 1 == 256 * q2 + r2);
    assert(256 * (q2 - q) == r - 1 - r2);
}

/// Two additions in a row act as one addition of the sum, and the sum may be
/// reduced to a signed 8-bit delta first.
pub proof fn lemma_add_value_folds(t: Tape, d1: i8, d2: i8)
    requires
        t.wf(),
    ensures
        t.added(d1 as int).added(d2 as int) == t.added(wrap_delta(d1 + d2)),
        t.added(d1 as int).added(d2 as int) == t.added(d1 + d2),
        -128 <= wrap_delta(d1 + d2) < 128,
{
    lemma_wrap_twice(t.current() as int, d1 as int, d2 as int);
    assert(t.added(d1 as int).added(d2 as int).cells =~= t.added(d1 + d2).cells);
    assert(t.added(wrap_delta(d1 + d2)).cells =~= t.added(d1 + d2).cells);
}

/// A move to the left of cell 0 leaves the pointer on cell 0 and the tape as
/// it was; no move ever yields a negative pointer, and a move to the left can
/// always be made.
pub proof fn lemma_move_clamps_at_zero(t: Tape, offset: int)
    requires
        t.wf(),
    ensures
        t.moved(offset).wf(),
        t.moved(offset).dp >= 0,
        t.dp + offset < 0 ==> t.moved(offset).dp == 0 && t.moved(offset).cells == t.cells,
        t.dp == 0 && offset < 0 ==> t.moved(offset) == t,
        offset <= 0 && addressable(t.dp) ==> addressable(t.target(offset)),
{
}

/// A move past the last cell appends zero cells up to the new pointer and no
/// further; the cells that were there stay as they were. A move inside the
/// tape changes no cell.
pub proof fn lemma_move_grows_tape(t: Tape, offset: int)
    requires
        t.wf(),
    ensures
        t.dp + offset >= t.cells.len() ==> {
            &&& t.moved(offset).dp == t.dp + offset
            &&& t.moved(offset).cells.len() == t.moved(offset).dp + 1
            &&& t.moved(offset).cells.subrange(0, t.cells.len() as int) == t.cells
            &&& forall|i: int| t.cells.len() <= i <= t.dp + offset ==> t.moved(offset).cells[i] == 0
        },
        t.dp + offset < t.cells.len() ==> t.moved(offset).cells == t.cells,
        t.moved(offset).cells.len() >= t.cells.len(),
        t.moved(offset).cells.len() >= t.moved(offset).dp + 1,
{
    if t.dp + offset >= t.cells.len() {
        assert(t.moved(offset).cells.subrange(0, t.cells.len() as int) =~= t.cells);
    }
}

/// The tape and data pointer of one run.
pub struct ExecutionState {
    pub memory: Vec<u8>,
    pub dp: usize,
}

impl View for ExecutionState {
    type V = Tape;

    open spec fn view(&self) -> Tape {
        Tape { cells: self.memory@, dp: self.dp as int }
    }
}

impl ExecutionState {
    /// The pointer names a cell of the tape.
    pub open spec fn wf(&self) -> bool {
        self@.wf()
    }

    /// A tape of one zero cell with the pointer on it.
    pub fn new() -> (es: ExecutionState)
        ensures
            es@ == Tape::fresh(),
            es.wf(),
    {
        let mut memory: Vec<u8> = Vec::new();
        memory.push(0u8);
        let es = ExecutionState { memory, dp: 0 };
        assert(es@.cells =~= Tape::fresh().cells);
        es
    }

    /// The cell under the pointer.
    pub fn current(&self) -> (byte: u8)
        requires
            self.wf(),
        ensures
            byte == self@.current(),
    {
        self.memory[self.dp]
    }

    /// Whether a move by `offset` ends on a pointer that can be held.
    pub fn can_move(&self, offset: isize) -> (fits: bool)
        ensures
            fits == addressable(self@.target(offset as int)),
    {
        match self.dp.checked_add_signed(offset) {
            Some(p) => p < usize::MAX,
            None => offset < 0,
        }
    }

    /// Moves the pointer by `offset`, stopping at cell 0 on the left and
    /// growing the tape with zero cells on the right.
    pub fn move_pointer(&mut self, offset: isize)
        requires
            addressable(old(self)@.target(offset as int)),
        ensures
            final(self)@ == old(self)@.moved(offset as int),
            final(self).wf(),
    {
        let target: usize = match self.dp.checked_add_signed(offset) {
            Some(p) => p,
            None => 0,
        };
        let ghost before = self.memory@;
        while self.memory.len() <= target
            invariant
                target < usize::MAX,
                before.len() <= self.memory@.len(),
                self.memory@.len() <= target + 1 || self.memory@ == before,
                self.memory@ == before + Seq::new(
                    (self.memory@.len() - before.len()) as nat,
                    |i: int| 0u8,
                ),
            decreases target + 1 - self.memory.len(),
        {
            self.memory.push(0u8);
            assert(self.memory@ =~= before + Seq::new(
                (self.memory@.len() - before.len()) as nat,
                |i: int| 0u8,
            ));
        }
        self.dp = target;
        assert(self@.cells =~= old(self)@.moved(offset as int).cells);
    }

    /// Adds `delta` to the cell under the pointer, modulo 256.
    pub fn add_value(&mut self, delta: i8)
        requires
            old(self).wf(),
        ensures
            final(self)@ == old(self)@.added(delta as int),
            final(self).wf(),
    {
        let cell: u8 = self.memory[self.dp];
        self.memory.set(self.dp, cell.wrapping_add_signed(delta));
    }

    /// Stores `byte` in the cell under the pointer.
    pub fn store(&mut self, byte: u8)
        requires
            old(self).wf(),
        ensures
            final(self)@ == old(self)@.stored(byte),
            final(self).wf(),
    {
        self.memory.set(self.dp, byte);
    }
}

} // verus!
