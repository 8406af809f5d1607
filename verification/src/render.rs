//! Lines and boards as text.

use vstd::prelude::*;
use vstd::string::StringExecFns;
use crate::cell::{Cell, CellLine};
use crate::nonogram::Nonogram;

verus! {

/// The two characters that stand for one cell: its glyph and a blank.
pub open spec fn glyph(cell: Cell) -> Seq<char> {
    match cell {
        Cell::Empty => seq!['☒', ' '],
        Cell::Full => seq!['■', ' '],
        Cell::Unknown => seq!['□', ' '],
    }
}

/// The glyphs of `cells` in their order, with two blanks more behind every
/// fifth cell.
pub open spec fn glyphs(cells: Seq<Cell>) -> Seq<char>
    decreases cells.len(),
{
    if cells.len() == 0 {
        Seq::empty()
    } else {
        glyphs(cells.drop_last()) + glyph(cells.last()) + if cells.len() % 5 == 0 {
            seq![' ', ' ']
        } else {
            Seq::empty()
        }
    }
}

/// The text of one line: its glyphs, and one blank behind them.
pub open spec fn line_text(cells: Seq<Cell>) -> Seq<char> {
    glyphs(cells) + seq![' ']
}

/// The text of `rows`: each row on a line of its own, and an empty line
/// behind every fifth row.
pub open spec fn rows_text(rows: Seq<Seq<Cell>>) -> Seq<char>
    decreases rows.len(),
{
    if rows.len() == 0 {
        Seq::empty()
    } else {
        rows_text(rows.drop_last()) + line_text(rows.last()) + seq!['\n'] + if rows.len() % 5 == 0 {
            seq!['\n']
        } else {
            Seq::empty()
        }
    }
}

/// The text of a board: its rows, and a line break behind them.
pub open spec fn board_text(rows: Seq<Seq<Cell>>) -> Seq<char> {
    rows_text(rows) + seq!['\n']
}

impl CellLine {
    /// The line as text: `☒` for an empty cell, `■` for a full one and `□`
    /// for an unknown one, each followed by a blank, in groups of five.
    pub fn render(&self) -> (text: String)
        ensures
            text@ == line_text(self@),
    {
        let mut text = String::new();
        let mut i: usize = 0;
        while i < self.len()
            invariant
                i <= self@.len(),
                text@ == glyphs(self@.take(i as int)),
            decreases self@.len() - i,
        {
            proof {
                reveal_strlit("☒ ");
                reveal_strlit("■ ");
                reveal_strlit("□ ");
                reveal_strlit("  ");
                assert(self@.take(i + 1).drop_last() =~= self@.take(i as int));
            }
            match self.get(i) {
                Cell::Empty => text.append("☒ "),
                Cell::Full => text.append("■ "),
                Cell::Unknown => text.append("□ "),
            }
            if (i + 1) % 5 == 0 {
                text.append("  ");
            }
            i += 1;
        }
        proof {
            reveal_strlit(" ");
            assert(self@.take(i as int) =~= self@);
        }
        text.append(" ");
        text
    }
}

impl<'a> Nonogram<'a> {
    /// The board as text: each row as [`CellLine::render`] gives it, on a
    /// line of its own, in groups of five rows.
    pub fn render(&self) -> (text: String)
        requires
            self.wf(),
        ensures
            text@ == board_text(self@.rows),
    {
        let ghost rows = self@.rows;
        let mut text = String::new();
        let mut r: usize = 0;
        while r < self.height()
            invariant
                self.wf(),
                rows == self@.rows,
                r <= rows.len(),
                text@ == rows_text(rows.take(r as int)),
            decreases rows.len() - r,
        {
            proof {
                reveal_strlit("\n");
                assert(rows.take(r + 1).drop_last() =~= rows.take(r as int));
            }
            let line = self.row(r).render();
            text.append(line.as_str());
            text.append("\n");
            if (r + 1) % 5 == 0 {
                text.append("\n");
            }
            r += 1;
        }
        proof {
            reveal_strlit("\n");
            assert(rows.take(r as int) =~= rows);
        }
        text.append("\n");
        text
    }
}

} // verus!
