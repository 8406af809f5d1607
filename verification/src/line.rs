//! One candidate fill pattern of a line, and its agreement with known cells.

use vstd::prelude::*;
use crate::cell::{Cell, CellLine};

verus! {

/// Whether the pattern `bits` agrees with every known cell of `known`:
/// it is filled wherever the cell is `Full` and blank wherever it is `Empty`.
/// Unknown cells impose nothing.
pub open spec fn consistent(bits: Seq<bool>, known: Seq<Cell>) -> bool {
    forall|i: int|
        0 <= i < known.len() ==> match #[trigger] known[i] {
            Cell::Full => bits[i],
            Cell::Empty => !bits[i],
            Cell::Unknown => true,
        }
}

/// A candidate pattern for one line: one bit per position, `true` for filled.
#[derive(Debug)]
pub struct BoolLine {
    cells: Vec<bool>,
}

impl View for BoolLine {
    type V = Seq<bool>;

    closed spec fn view(&self) -> Seq<bool> {
        self.cells@
    }
}

impl BoolLine {
    /// A pattern of `len` positions, none filled.
    pub fn new(len: usize) -> (line: BoolLine)
        ensures
            line@ == Seq::new(len as nat, |i: int| false),
    {
        let mut cells: Vec<bool> = Vec::new();
        let mut i: usize = 0;
        while i < len
            invariant
                i <= len,
                cells@ == Seq::new(i as nat, |j: int| false),
            decreases len - i,
        {
            cells.push(false);
            i += 1;
        }
        BoolLine { cells }
    }

    /// The number of positions of the pattern.
    pub fn len(&self) -> (n: usize)
        ensures
            n == self@.len(),
    {
        self.cells.len()
    }

    /// Whether position `i` is filled.
    pub fn get(&self, i: usize) -> (bit: bool)
        requires
            i < self@.len(),
        ensures
            bit == self@[i as int],
    {
        self.cells[i]
    }

    /// Fills or blanks position `i`.
    pub fn set(&mut self, i: usize, bit: bool)
        requires
            i < old(self)@.len(),
        ensures
            final(self)@ == old(self)@.update(i as int, bit),
    {
        self.cells[i] = bit;
    }

    /// A copy of the pattern.
    pub fn duplicate(&self) -> (line: BoolLine)
        ensures
            line@ == self@,
    {
        let mut cells: Vec<bool> = Vec::new();
        let mut i: usize = 0;
        while i < self.cells.len()
            invariant
                i <= self.cells@.len(),
                cells@ == self.cells@.take(i as int),
            decreases self.cells@.len() - i,
        {
            cells.push(self.cells[i]);
            i += 1;
        }
        BoolLine { cells }
    }

    /// Fills the `run` positions from `at` on.
    pub fn fill(&mut self, at: usize, run: usize)
        requires
            at + run <= old(self)@.len(),
        ensures
            final(self)@ == Seq::new(
                old(self)@.len(),
                |x: int| old(self)@[x] || (at <= x < at + run),
            ),
    {
        let size: usize = self.cells.len();
        let mut j: usize = 0;
        while j < run
            invariant
                j <= run,
                at + run <= size,
                size == old(self)@.len(),
                self.cells@.len() == size,
                self@ == Seq::new(old(self)@.len(), |x: int| old(self)@[x] || (at <= x < at + j)),
            decreases run - j,
        {
            self.cells[at + j] = true;
            j += 1;
        }
    }

    /// Tests the pattern against the known cells of `line`.
    pub fn check(&self, line: &CellLine) -> (ok: bool)
        requires
            self@.len() == line@.len(),
        ensures
            ok == consistent(self@, line@),
    {
        let mut i: usize = 0;
        while i < self.cells.len()
            invariant
                i <= self.cells@.len(),
                self@.len() == line@.len(),
                consistent(self@, line@.take(i as int)),
            decreases self.cells@.len() - i,
        {
            let bit = self.cells[i];
            match line.get(i) {
                Cell::Full => {
                    if !bit {
                        return false;
                    }
                },
                Cell::Empty => {
                    if bit {
                        return false;
                    }
                },
                Cell::Unknown => {},
            }
            i += 1;
        }
        assert(line@.take(i as int) =~= line@);
        true
    }
}

} // verus!
