//! The tri-state cell and the line of cells that a row or a column holds.

use vstd::prelude::*;
use crate::possibles::Possibles;

verus! {

/// What is known of one cell of the grid.
#[derive(Debug, Copy, Clone, PartialEq, Eq, Structural)]
pub enum Cell {
    /// Nothing is known yet.
    Unknown,
    /// The cell is proven to belong to no run.
    Empty,
    /// The cell is proven to belong to a run.
    Full,
}

/// How many cells of `cells` equal `cell`.
pub open spec fn count_of(cells: Seq<Cell>, cell: Cell) -> nat
    decreases cells.len(),
{
    if cells.len() == 0 {
        0
    } else {
        count_of(cells.drop_last(), cell) + if cells.last() == cell {
            1nat
        } else {
            0nat
        }
    }
}

/// Whether the first `n` patterns of `set` all hold `bit` at position `i`.
pub open spec fn uniform(set: Seq<Seq<bool>>, n: int, i: int, bit: bool) -> bool {
    forall|j: int| 0 <= j < n ==> (#[trigger] set[j])[i] == bit
}

/// Whether every pattern of `set` holds `bit` at position `i`.
pub open spec fn always(set: Seq<Seq<bool>>, i: int, bit: bool) -> bool {
    uniform(set, set.len() as int, i, bit)
}

/// What the patterns of `set` tell of position `i`: `Full` where all of them
/// fill it, `Empty` where none does, and otherwise what was known before.
/// An empty set tells nothing.
pub open spec fn deduced_cell(set: Seq<Seq<bool>>, i: int, prior: Cell) -> Cell {
    if set.len() == 0 {
        prior
    } else if always(set, i, true) {
        Cell::Full
    } else if always(set, i, false) {
        Cell::Empty
    } else {
        prior
    }
}

/// The line `prior` after a deduction from `set`.
pub open spec fn deduced(set: Seq<Seq<bool>>, prior: Seq<Cell>) -> Seq<Cell> {
    Seq::new(prior.len(), |i: int| deduced_cell(set, i, prior[i]))
}

/// One row or one column: a fixed-length sequence of cells.
#[derive(Debug)]
pub struct CellLine {
    cells: Vec<Cell>,
}

impl View for CellLine {
    type V = Seq<Cell>;

    closed spec fn view(&self) -> Seq<Cell> {
        self.cells@
    }
}

impl CellLine {
    /// A line of `len` cells, all `Unknown`.
    pub fn new(len: usize) -> (line: CellLine)
        ensures
            line@ == Seq::new(len as nat, |i: int| Cell::Unknown),
    {
        let mut cells: Vec<Cell> = Vec::new();
        let mut i: usize = 0;
        while i < len
            invariant
                i <= len,
                cells@ == Seq::new(i as nat, |j: int| Cell::Unknown),
            decreases len - i,
        {
            cells.push(Cell::Unknown);
            i += 1;
        }
        CellLine { cells }
    }

    /// The number of cells of the line.
    pub fn len(&self) -> (n: usize)
        ensures
            n == self@.len(),
    {
        self.cells.len()
    }

    /// The cell at position `i`.
    pub fn get(&self, i: usize) -> (cell: Cell)
        requires
            i < self@.len(),
        ensures
            cell == self@[i as int],
    {
        self.cells[i]
    }

    /// Replaces the cell at position `i`.
    pub fn set(&mut self, i: usize, cell: Cell)
        requires
            i < old(self)@.len(),
        ensures
            final(self)@ == old(self)@.update(i as int, cell),
    {
        self.cells[i] = cell;
    }

    /// Deduces the cells of the line from the patterns still possible for it:
    /// a cell becomes `Full` where every pattern fills the position, `Empty`
    /// where none does, and keeps its value elsewhere.
    pub fn update(&mut self, data_set: &Possibles)
        requires
            forall|j: int|
                0 <= j < data_set@.len() ==> (#[trigger] data_set@[j]).len() == old(self)@.len(),
        ensures
            final(self)@ == deduced(data_set@, old(self)@),
    {
        let len: usize = self.cells.len();
        let count: usize = data_set.len();
        let mut empties: Vec<bool> = Vec::new();
        let mut fulls: Vec<bool> = Vec::new();
        let mut n: usize = 0;
        while n < len
            invariant
                n <= len,
                empties@.len() == n,
                fulls@.len() == n,
                forall|i: int| 0 <= i < n ==> empties@[i] && fulls@[i],
            decreases len - n,
        {
            empties.push(true);
            fulls.push(true);
            n += 1;
        }
        let mut which: usize = 0;
        while which < count
            invariant
                which <= count,
                count == data_set@.len(),
                len == self.cells@.len(),
                empties@.len() == len,
                fulls@.len() == len,
                forall|j: int| 0 <= j < data_set@.len() ==> (#[trigger] data_set@[j]).len() == len,
                forall|i: int|
                    0 <= i < len ==> empties@[i] == uniform(data_set@, which as int, i, false),
                forall|i: int|
                    0 <= i < len ==> fulls@[i] == uniform(data_set@, which as int, i, true),
            decreases count - which,
        {
            let mut i: usize = 0;
            while i < len
                invariant
                    i <= len,
                    which < count,
                    count == data_set@.len(),
                    empties@.len() == len,
                    fulls@.len() == len,
                    data_set@[which as int].len() == len,
                    forall|x: int|
                        0 <= x < len ==> empties@[x] == uniform(
                            data_set@,
                            if x < i {
                                which + 1
                            } else {
                                which as int
                            },
                            x,
                            false,
                        ),
                    forall|x: int|
                        0 <= x < len ==> fulls@[x] == uniform(
                            data_set@,
                            if x < i {
                                which + 1
                            } else {
                                which as int
                            },
                            x,
                            true,
                        ),
                decreases len - i,
            {
                if data_set.get(which, i) {
                    empties.set(i, false);
                } else {
                    fulls.set(i, false);
                }
                i += 1;
            }
            which += 1;
        }
        let mut i: usize = 0;
        while i < len
            invariant
                i <= len,
                count == data_set@.len(),
                len == old(self)@.len(),
                self.cells@.len() == len,
                empties@.len() == len,
                fulls@.len() == len,
                forall|x: int| 0 <= x < len ==> empties@[x] == always(data_set@, x, false),
                forall|x: int| 0 <= x < len ==> fulls@[x] == always(data_set@, x, true),
                forall|x: int|
                    0 <= x < i ==> self.cells@[x] == deduced_cell(data_set@, x, old(self)@[x]),
                forall|x: int| i <= x < len ==> self.cells@[x] == old(self)@[x],
            decreases len - i,
        {
            let no_fill = empties[i];
            let all_fill = fulls[i];
            assert(count > 0 && all_fill ==> data_set@[0][i as int]);
            if no_fill && !all_fill {
                self.cells[i] = Cell::Empty;
            } else if !no_fill && all_fill {
                self.cells[i] = Cell::Full;
            }
            i += 1;
        }
    }

    /// Counts the cells of the line that equal `cell`.
    pub fn count(&self, cell: Cell) -> (n: usize)
        ensures
            n == count_of(self@, cell),
    {
        let mut n: usize = 0;
        let mut i: usize = 0;
        while i < self.cells.len()
            invariant
                i <= self.cells@.len(),
                n == count_of(self.cells@.take(i as int), cell),
                n <= i,
            decreases self.cells@.len() - i,
        {
            assert(self.cells@.take(i + 1).drop_last() =~= self.cells@.take(i as int));
            if self.cells[i] == cell {
                n += 1;
            }
            i += 1;
        }
        assert(self.cells@.take(i as int) =~= self.cells@);
        n
    }
}

/// A mark that a deduction sets from a set of patterns stays when the set
/// shrinks: where every pattern of `wide` holds `bit` at position `i`, a
/// deduction from any part `narrow` of `wide` leaves the mark as it is.
pub proof fn lemma_deduction_monotone(
    wide: Seq<Seq<bool>>,
    narrow: Seq<Seq<bool>>,
    i: int,
    bit: bool,
    prior: Cell,
)
    requires
        forall|j: int| 0 <= j < narrow.len() ==> wide.contains(#[trigger] narrow[j]),
        wide.len() > 0,
        always(wide, i, bit),
    ensures
        deduced_cell(wide, i, prior) == if bit {
            Cell::Full
        } else {
            Cell::Empty
        },
        deduced_cell(narrow, i, deduced_cell(wide, i, prior)) == deduced_cell(wide, i, prior),
{
    assert(wide[0][i] == bit);
    assert forall|j: int| 0 <= j < narrow.len() implies (#[trigger] narrow[j])[i] == bit by {}
    if narrow.len() > 0 {
        assert(narrow[0][i] == bit);
    }
}

} // verus!
