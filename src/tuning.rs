//! Adaptive cell size: a cheap self-tuning loop that reacts to the measured
//! cost of the collision pass by growing or shrinking the grid cells.
use vstd::prelude::*;

verus! {

/// Smallest edge length a grid cell may have.
pub const CELL_SIZE_MIN: i32 = 2;

/// Largest edge length a grid cell may have.
pub const CELL_SIZE_MAX: i32 = 48;

/// Edge length of a cell when tuning starts.
pub const CELL_SIZE_INITIAL: i32 = 20;

/// Amount by which one adaptation grows or shrinks the cell edge.
pub const CELL_SIZE_STEP: i32 = 2;

/// `s` brought into `[CELL_SIZE_MIN, CELL_SIZE_MAX]`.
pub open spec fn clamp_cell_size(s: int) -> int {
    if s < CELL_SIZE_MIN {
        CELL_SIZE_MIN as int
    } else if s > CELL_SIZE_MAX {
        CELL_SIZE_MAX as int
    } else {
        s
    }
}

/// Exponential smoothing with weight one half, rounded down.
pub open spec fn smooth(average: int, sample: int) -> int {
    (average + sample) / 2
}

/// Whether the latest smoothed cost is worse than the mean of it and the
/// previous one, which calls for larger cells.
pub open spec fn cost_grew(previous: int, smoothed: int) -> bool {
    (previous + smoothed) / 2 < smoothed
}

/// The cell edge after one adaptation.
pub open spec fn next_cell_size(size: int, previous: int, smoothed: int) -> int {
    if cost_grew(previous, smoothed) {
        clamp_cell_size(size + CELL_SIZE_STEP)
    } else {
        clamp_cell_size(size - CELL_SIZE_STEP)
    }
}

/// Whatever the current edge and the two timings, one adaptation leaves the
/// cell edge within `[CELL_SIZE_MIN, CELL_SIZE_MAX]`; with the bound kept by
/// every controller, the edge stays there over any sequence of ticks.
pub proof fn lemma_next_cell_size_in_bounds(size: int, previous: int, smoothed: int)
    ensures
        CELL_SIZE_MIN <= next_cell_size(size, previous, smoothed) <= CELL_SIZE_MAX,
{
}

/// Mathematical model of the controller.
pub struct TunerModel {
    pub cell_size: int,
    /// Smoothed collision cost seen at the previous adaptation (microseconds).
    pub previous: int,
    /// Smoothed collision cost since then (microseconds).
    pub smoothed: int,
}

/// The controller's state: the current cell edge and two smoothed timings of
/// the collision pass, in microseconds.
pub struct CellSizeTuner {
    cell_size: i32,
    previous_micros: u64,
    smoothed_micros: u64,
}

impl View for CellSizeTuner {
    type V = TunerModel;

    closed spec fn view(&self) -> TunerModel {
        TunerModel {
            cell_size: self.cell_size as int,
            previous: self.previous_micros as int,
            smoothed: self.smoothed_micros as int,
        }
    }
}

impl CellSizeTuner {
    /// The cell edge stays within `[CELL_SIZE_MIN, CELL_SIZE_MAX]`.
    #[verifier::type_invariant]
    closed spec fn inv(self) -> bool {
        CELL_SIZE_MIN <= self.cell_size <= CELL_SIZE_MAX
    }

    /// A controller at the initial cell edge, with no cost measured yet.
    pub fn new() -> (t: CellSizeTuner)
        ensures
            t@ == (TunerModel { cell_size: CELL_SIZE_INITIAL as int, previous: 0, smoothed: 0 }),
    {
        CellSizeTuner { cell_size: CELL_SIZE_INITIAL, previous_micros: 0, smoothed_micros: 0 }
    }

    /// The current cell edge.
    pub fn cell_size(&self) -> (r: i32)
        ensures
            r == self@.cell_size,
            CELL_SIZE_MIN <= r <= CELL_SIZE_MAX,
    {
        proof {
            use_type_invariant(self);
        }
        self.cell_size
    }

    /// The smoothed collision cost since the last adaptation.
    pub fn smoothed_micros(&self) -> (r: u64)
        ensures
            r == self@.smoothed,
    {
        self.smoothed_micros
    }

    /// The smoothed collision cost seen at the last adaptation.
    pub fn previous_micros(&self) -> (r: u64)
        ensures
            r == self@.previous,
    {
        self.previous_micros
    }

    /// Fold one measured duration of the collision pass into the smoothed
    /// cost.
    pub fn record(&mut self, micros: u64)
        ensures
            final(self)@ == (TunerModel { smoothed: smooth(old(self)@.smoothed, micros as int), ..old(self)@ }),
    {
        proof {
            use_type_invariant(&*self);
        }
        let a = self.smoothed_micros;
        let s = a / 2 + micros / 2 + (a % 2 + micros % 2) / 2;
        assert(s == (a + micros) / 2);
        self.smoothed_micros = s;
    }

    /// One adaptation: grow the cells when the cost grew, shrink them
    /// otherwise, keep the edge within its bounds, and remember the current
    /// smoothed cost for the next comparison.
    pub fn adapt(&mut self)
        ensures
            final(self)@ == (TunerModel {
                cell_size: next_cell_size(
                    old(self)@.cell_size,
                    old(self)@.previous,
                    old(self)@.smoothed,
                ),
                previous: old(self)@.smoothed,
                smoothed: old(self)@.smoothed,
            }),
            CELL_SIZE_MIN <= final(self)@.cell_size <= CELL_SIZE_MAX,
    {
        proof {
            use_type_invariant(&*self);
        }
        let p = self.previous_micros;
        let c = self.smoothed_micros;
        let grew = p < c;
        assert(grew == cost_grew(p as int, c as int));
        let size = if grew {
            self.cell_size + CELL_SIZE_STEP
        } else {
            self.cell_size - CELL_SIZE_STEP
        };
        let size = if size < CELL_SIZE_MIN {
            CELL_SIZE_MIN
        } else if size > CELL_SIZE_MAX {
            CELL_SIZE_MAX
        } else {
            size
        };
        self.cell_size = size;
        self.previous_micros = c;
    }
}

} // verus!
