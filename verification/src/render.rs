//! What to show of a cell: the decision behind a picture of the board,
//! without the drawing.

use crate::cell::{Cell, Content, Coord};
use crate::env::Env;
use crate::model::State;
use crate::score::Score;
use vstd::prelude::*;
use vstd::string::to_string_from_display_ensures;

verus! {

/// What a picture of the board shows at one position.
#[derive(Debug, Clone, Copy, PartialEq, Eq, Structural)]
pub enum Glyph {
    /// A flag.
    Flag,
    /// An opened cell with no mine around it.
    Blank,
    /// An opened cell with its number of mines around it.
    Count(i32),
    /// An opened mine.
    Mine,
    /// A covered cell that is certainly a mine.
    Sure,
    /// A covered cell with its risk, and whether it hides a mine.
    Risk(i32, bool),
    /// A covered cell of which too little is known.
    Unknown,
}

impl State {
    /// What a picture of the board shows at `c`: a flag goes before
    /// everything, an opened cell shows its count, a covered one its
    /// score.
    pub open spec fn glyph(self, c: Coord) -> Glyph {
        if self.marked.contains(c) {
            Glyph::Flag
        } else if self.opened.contains(c) {
            match self.cells[c].content {
                Content::Empty(n) => if n == 0 {
                    Glyph::Blank
                } else {
                    Glyph::Count(n)
                },
                Content::Mine => Glyph::Mine,
            }
        } else {
            match self.score_at(c) {
                Score::Mine => Glyph::Sure,
                Score::Val(v) => Glyph::Risk(v, self.cells[c].content == Content::Mine),
                Score::NotEnough(_) => Glyph::Unknown,
            }
        }
    }
}

impl Env {
    /// What a picture of the board shows at `c`.
    pub fn glyph(&self, c: Coord) -> (g: Glyph)
        requires
            self.shaped(),
            self@.on_board(c),
        ensures
            g == self@.glyph(c),
    {
        let cell = self.get(c);
        if self.marked.contains(c) {
            Glyph::Flag
        } else if self.opened.contains(c) {
            match cell.content {
                Content::Empty(n) => if n == 0 {
                    Glyph::Blank
                } else {
                    Glyph::Count(n)
                },
                Content::Mine => Glyph::Mine,
            }
        } else {
            let mined = match cell.content {
                Content::Mine => true,
                Content::Empty(_) => false,
            };
            match cell.score {
                Score::Mine => Glyph::Sure,
                Score::Val(v) => Glyph::Risk(v, mined),
                Score::NotEnough(_) => Glyph::Unknown,
            }
        }
    }
}

impl Cell {
    /// The text of what the cell hides: `x` for a mine, else the number of
    /// mines around it as the standard library writes it.
    pub fn to_string(&self) -> (s: String)
        ensures
            match self.content {
                Content::Mine => s@ == "x"@,
                Content::Empty(n) => to_string_from_display_ensures::<i32>(&n, s),
            },
    {
        match self.content {
            Content::Mine => "x".to_owned(),
            Content::Empty(n) => n.to_string(),
        }
    }
}

} // verus!
