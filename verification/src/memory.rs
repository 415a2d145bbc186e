//! The tape: a growable sequence of cells with a current position.
//!
//! The right edge is open: stepping past the last cell appends a zero cell.
//! The left edge wraps: stepping left of cell 0 lands on the last cell.

use vstd::prelude::*;

verus! {

/// Number of cells of a fresh tape.
pub const INITIAL_CELLS: usize = 1024;

/// Mathematical model of the tape and its pointer.
pub struct Tape {
    /// The cells, from index 0.
    pub cells: Seq<i32>,
    /// Index of the current cell.
    pub pointer: int,
}

impl Tape {
    /// The pointer addresses a cell of the tape.
    pub open spec fn well_formed(self) -> bool {
        0 <= self.pointer < self.cells.len()
    }

    /// A tape of `n` zero cells with the pointer on cell 0.
    pub open spec fn blank(n: nat) -> Tape {
        Tape { cells: Seq::new(n, |i: int| 0i32), pointer: 0 }
    }

    /// Value of the current cell.
    pub open spec fn current(self) -> i32 {
        self.cells[self.pointer]
    }

    /// The tape with the current cell replaced by `value`.
    pub open spec fn write(self, value: i32) -> Tape {
        Tape { cells: self.cells.update(self.pointer, value), pointer: self.pointer }
    }

    /// One step to the right; from the last cell, a zero cell is appended
    /// and the pointer moves onto it.
    pub open spec fn move_right(self) -> Tape {
        if self.pointer + 1 == self.cells.len() {
            Tape { cells: self.cells.push(0i32), pointer: self.pointer + 1 }
        } else {
            Tape { cells: self.cells, pointer: self.pointer + 1 }
        }
    }

    /// One step to the left; from cell 0, the pointer wraps to the last cell.
    pub open spec fn move_left(self) -> Tape {
        if self.pointer == 0 {
            Tape { cells: self.cells, pointer: self.cells.len() - 1 }
        } else {
            Tape { cells: self.cells, pointer: self.pointer - 1 }
        }
    }

    /// `n` steps to the right.
    pub open spec fn move_right_n(self, n: nat) -> Tape
        decreases n,
    {
        if n == 0 {
            self
        } else {
            self.move_right_n((n - 1) as nat).move_right()
        }
    }

    /// The tape after a sequence of steps, `true` for a step to the right
    /// and `false` for a step to the left.
    pub open spec fn walk(self, steps: Seq<bool>) -> Tape
        decreases steps.len(),
    {
        if steps.len() == 0 {
            self
        } else if steps.last() {
            self.walk(steps.drop_last()).move_right()
        } else {
            self.walk(steps.drop_last()).move_left()
        }
    }

    /// `other` holds every cell of `self` unchanged, followed by zero cells only.
    pub open spec fn extended_by_zeros(self, other: Tape) -> bool {
        &&& self.cells.len() <= other.cells.len()
        &&& forall|i: int| 0 <= i < self.cells.len() ==> other.cells[i] == self.cells[i]
        &&& forall|i: int| self.cells.len() <= i < other.cells.len() ==> other.cells[i] == 0
    }
}

/// The tape and the index of the current cell.
#[derive(Debug)]
pub struct Memoire {
    /// The cells.
    pub donnee: Vec<i32>,
    /// Index of the current cell.
    pub case_courante: usize,
}

impl View for Memoire {
    type V = Tape;

    open spec fn view(&self) -> Tape {
        Tape { cells: self.donnee@, pointer: self.case_courante as int }
    }
}

/// A memory over the given cells, with the pointer on cell 0.
/// It is usable exactly when there is at least one cell.
pub fn new_memory(donnee: Vec<i32>) -> (memoire: Memoire)
    ensures
        memoire@ == (Tape { cells: donnee@, pointer: 0 }),
        memoire@.well_formed() <==> donnee@.len() > 0,
{
    Memoire { donnee: donnee, case_courante: 0 }
}

/// A fresh memory: `INITIAL_CELLS` zero cells, pointer on cell 0.
pub fn new_empty_memory() -> (memoire: Memoire)
    ensures
        memoire@ == Tape::blank(INITIAL_CELLS as nat),
        memoire@.well_formed(),
{
    let donnee: Vec<i32> = vec![0i32; INITIAL_CELLS];
    assert(donnee@ =~= Seq::new(INITIAL_CELLS as nat, |i: int| 0i32));
    new_memory(donnee)
}

impl Memoire {
    /// Whether the pointer addresses a cell of the tape.
    pub fn is_well_formed(&self) -> (ok: bool)
        ensures
            ok == self@.well_formed(),
    {
        self.case_courante < self.donnee.len()
    }

    /// Reads the current cell.
    pub fn read(&self) -> (value: i32)
        requires
            self@.well_formed(),
        ensures
            value == self@.current(),
    {
        self.donnee[self.case_courante]
    }

    /// Overwrites the current cell.
    pub fn write(&mut self, value: i32)
        requires
            old(self)@.well_formed(),
        ensures
            final(self)@ == old(self)@.write(value),
    {
        let i = self.case_courante;
        self.donnee.set(i, value);
    }

    /// Steps right, appending a zero cell when leaving the last cell.
    pub fn move_right(&mut self)
        requires
            old(self)@.well_formed(),
        ensures
            final(self)@ == old(self)@.move_right(),
    {
        let length = self.donnee.len();
        if self.case_courante == length - 1 {
            self.donnee.push(0);
        }
        self.case_courante += 1;
    }

    /// Steps left, wrapping from cell 0 to the last cell.
    pub fn move_left(&mut self)
        requires
            old(self)@.well_formed(),
        ensures
            final(self)@ == old(self)@.move_left(),
    {
        if self.case_courante == 0 {
            self.case_courante = self.donnee.len() - 1;
        } else {
            self.case_courante -= 1;
        }
    }
}

/// Every operation keeps the pointer on the tape. Moves never change or
/// remove a cell: the tape only grows, by one zero cell at a time, and only
/// when stepping right from the last cell.
pub proof fn lemma_operations_keep_tape(t: Tape, value: i32)
    requires
        t.well_formed(),
    ensures
        t.write(value).well_formed(),
        t.write(value).cells.len() == t.cells.len(),
        t.move_right().well_formed(),
        t.move_left().well_formed(),
        t.extended_by_zeros(t.move_right()),
        t.move_right().cells.len() == if t.pointer + 1 == t.cells.len() {
            t.cells.len() + 1
        } else {
            t.cells.len()
        },
        t.move_left().cells == t.cells,
{
}

/// Stepping left and then right comes back to the starting cell and leaves
/// the tape as it was, except from cell 0: there the leftward step wraps to
/// the last cell, so the rightward step appends a zero cell and ends on it.
pub proof fn lemma_left_then_right(t: Tape)
    requires
        t.well_formed(),
    ensures
        t.pointer > 0 ==> t.move_left().move_right() == t,
        t.pointer == 0 ==> t.move_left().move_right() == (Tape {
            cells: t.cells.push(0i32),
            pointer: t.cells.len() as int,
        }),
{
}

/// Stepping right and then left comes back to the starting cell; the tape is
/// one zero cell longer if the starting cell was the last one.
pub proof fn lemma_right_then_left(t: Tape)
    requires
        t.well_formed(),
    ensures
        t.move_right().move_left().pointer == t.pointer,
        t.move_right().move_left().cells == t.move_right().cells,
{
}

/// After `n` steps to the right the pointer has advanced by `n`, and the
/// tape has grown by exactly one zero cell for each step taken from the last
/// cell on; no existing cell has changed.
pub proof fn lemma_move_right_n(t: Tape, n: nat)
    requires
        t.well_formed(),
    ensures
        t.move_right_n(n).well_formed(),
        t.move_right_n(n).pointer == t.pointer + n,
        t.move_right_n(n).cells.len() == if t.pointer + n < t.cells.len() {
            t.cells.len() as int
        } else {
            t.pointer + n + 1
        },
        t.extended_by_zeros(t.move_right_n(n)),
    decreases n,
{
    if n > 0 {
        lemma_move_right_n(t, (n - 1) as nat);
    }
}

/// However the pointer is moved about, across the left edge or past the
/// right one, every cell keeps the value it had, and the cells that the
/// moves have added hold zero.
pub proof fn lemma_walk_keeps_cells(t: Tape, steps: Seq<bool>)
    requires
        t.well_formed(),
    ensures
        t.walk(steps).well_formed(),
        t.extended_by_zeros(t.walk(steps)),
    decreases steps.len(),
{
    if steps.len() > 0 {
        lemma_walk_keeps_cells(t, steps.drop_last());
    }
}

/// From a fresh tape, the first `INITIAL_CELLS - 1` steps to the right stay
/// within the initial cells; every later step grows the tape by one cell.
pub proof fn lemma_fresh_tape_growth(n: nat)
    ensures
        Tape::blank(INITIAL_CELLS as nat).move_right_n(n).pointer == n,
        Tape::blank(INITIAL_CELLS as nat).move_right_n(n).cells.len() == if n < INITIAL_CELLS {
            INITIAL_CELLS as nat
        } else {
            n + 1
        },
        forall|i: int|
            0 <= i < Tape::blank(INITIAL_CELLS as nat).move_right_n(n).cells.len()
                ==> Tape::blank(INITIAL_CELLS as nat).move_right_n(n).cells[i] == 0,
{
    lemma_move_right_n(Tape::blank(INITIAL_CELLS as nat), n);
}

} // verus!
