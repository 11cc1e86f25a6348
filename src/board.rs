//! One interface over both representations, so that code and tests can step
//! and read either board through the same contract.
use vstd::prelude::*;
use crate::dense::{update_board, DenseBoard};
use crate::rules::next_generation;
use crate::sparse::LifeBoard;

verus! {

/// A bounded Game of Life board.
pub trait Board {
    /// The board's invariant.
    spec fn valid(&self) -> bool;

    /// Side length of the interior.
    spec fn side_len(&self) -> int;

    /// The live cells.
    spec fn cells(&self) -> Set<(int, int)>;

    /// Advances the board by one generation.
    fn step(&mut self)
        requires
            old(self).valid(),
        ensures
            final(self).valid(),
            final(self).side_len() == old(self).side_len(),
            final(self).cells() == next_generation(old(self).side_len(), old(self).cells()),
    ;

    /// Whether `(x, y)` is live.
    fn alive_at(&self, x: usize, y: usize) -> (r: bool)
        requires
            self.valid(),
        ensures
            r == self.cells().contains((x as int, y as int)),
    ;
}

impl Board for DenseBoard {
    open spec fn valid(&self) -> bool {
        self.wf()
    }

    open spec fn side_len(&self) -> int {
        self.side()
    }

    open spec fn cells(&self) -> Set<(int, int)> {
        self.live()
    }

    fn step(&mut self) {
        update_board(self);
    }

    fn alive_at(&self, x: usize, y: usize) -> (r: bool) {
        self.is_live(x, y)
    }
}

impl Board for LifeBoard {
    open spec fn valid(&self) -> bool {
        self.wf()
    }

    open spec fn side_len(&self) -> int {
        self.side()
    }

    open spec fn cells(&self) -> Set<(int, int)> {
        self.live()
    }

    fn step(&mut self) {
        self.update();
    }

    fn alive_at(&self, x: usize, y: usize) -> (r: bool) {
        proof {
            self.lemma_wf();
        }
        if x > u32::MAX as usize || y > u32::MAX as usize {
            false
        } else {
            self.is_live(x as u32, y as u32)
        }
    }
}

} // verus!
