//! Per-tick bookkeeping of the simulation: the step counter, the collision
//! timings that drive the cell size, and whether the population may still grow.
use vstd::prelude::*;
use crate::tuning::{CellSizeTuner, TunerModel, next_cell_size, smooth, CELL_SIZE_INITIAL, CELL_SIZE_MIN, CELL_SIZE_MAX};

verus! {

/// Number of integration sub-steps in one tick.
pub const SUB_STEPS: u32 = 10;

/// Mathematical model of the tick bookkeeping.
pub struct TickModel {
    pub step: int,
    pub spawn_count: int,
    pub max_objects: int,
    pub fill_allowed: bool,
    pub tuner: TunerModel,
}

/// How many particles one fill adds: none while growth is closed; otherwise
/// the configured batch, one fewer in the circled layout, which starts
/// counting at one.
pub open spec fn spawn_quota_of(m: TickModel, circled: bool) -> int {
    if !m.fill_allowed {
        0
    } else if circled {
        if m.spawn_count > 0 { m.spawn_count - 1 } else { 0 }
    } else {
        m.spawn_count
    }
}

/// The integer state that one tick of the simulation reads and advances.
pub struct TickControl {
    step: u64,
    spawn_count: usize,
    max_objects: usize,
    fill_allowed: bool,
    tuner: CellSizeTuner,
}

impl View for TickControl {
    type V = TickModel;

    closed spec fn view(&self) -> TickModel {
        TickModel {
            step: self.step as int,
            spawn_count: self.spawn_count as int,
            max_objects: self.max_objects as int,
            fill_allowed: self.fill_allowed,
            tuner: self.tuner@,
        }
    }
}

impl TickControl {
    /// Bookkeeping for a world that adds `spawn_count` particles per fill and
    /// stops growing at `max_objects`; growth starts open, no tick has run.
    pub fn new(spawn_count: usize, max_objects: usize) -> (t: TickControl)
        ensures
            t@ == (TickModel {
                step: 0,
                spawn_count: spawn_count as int,
                max_objects: max_objects as int,
                fill_allowed: true,
                tuner: TunerModel { cell_size: CELL_SIZE_INITIAL as int, previous: 0, smoothed: 0 },
            }),
    {
        TickControl { step: 0, spawn_count, max_objects, fill_allowed: true, tuner: CellSizeTuner::new() }
    }

    /// Number of ticks begun so far.
    pub fn step(&self) -> (r: u64)
        ensures
            r == self@.step,
    {
        self.step
    }

    /// Number of integration sub-steps per tick.
    pub fn sub_steps(&self) -> (r: u32)
        ensures
            r == SUB_STEPS,
    {
        SUB_STEPS
    }

    /// The current edge length of the grid cells.
    pub fn cell_size(&self) -> (r: i32)
        ensures
            r == self@.tuner.cell_size,
            CELL_SIZE_MIN <= r <= CELL_SIZE_MAX,
    {
        self.tuner.cell_size()
    }

    /// The cell-size controller.
    pub fn tuner(&self) -> (r: &CellSizeTuner)
        ensures
            r@ == self@.tuner,
    {
        &self.tuner
    }

    /// Whether a fill may add particles now.
    pub fn fill_allowed(&self) -> (r: bool)
        ensures
            r == self@.fill_allowed,
    {
        self.fill_allowed
    }

    /// Number of particles added per fill.
    pub fn spawn_count(&self) -> (r: usize)
        ensures
            r == self@.spawn_count,
    {
        self.spawn_count
    }

    /// The population ceiling.
    pub fn max_objects(&self) -> (r: usize)
        ensures
            r == self@.max_objects,
    {
        self.max_objects
    }

    /// Start a tick: count it and adapt the cell size to the collision cost
    /// measured during the previous one.
    pub fn begin_tick(&mut self)
        requires
            old(self)@.step < u64::MAX,
        ensures
            final(self)@ == (TickModel {
                step: old(self)@.step + 1,
                tuner: TunerModel {
                    cell_size: next_cell_size(
                        old(self)@.tuner.cell_size,
                        old(self)@.tuner.previous,
                        old(self)@.tuner.smoothed,
                    ),
                    previous: old(self)@.tuner.smoothed,
                    smoothed: old(self)@.tuner.smoothed,
                },
                ..old(self)@
            }),
            CELL_SIZE_MIN <= final(self)@.tuner.cell_size <= CELL_SIZE_MAX,
    {
        self.step = self.step + 1;
        self.tuner.adapt();
    }

    /// Fold the measured duration of one collision pass into the smoothed
    /// cost.
    pub fn record_collision_time(&mut self, micros: u64)
        ensures
            final(self)@ == (TickModel {
                tuner: TunerModel {
                    smoothed: smooth(old(self)@.tuner.smoothed, micros as int),
                    ..old(self)@.tuner
                },
                ..old(self)@
            }),
    {
        self.tuner.record(micros);
    }

    /// End a tick with `object_count` particles alive: growth stays open only
    /// while the population is below its ceiling.
    pub fn end_tick(&mut self, object_count: usize)
        ensures
            final(self)@ == (TickModel {
                fill_allowed: object_count < old(self)@.max_objects,
                ..old(self)@
            }),
    {
        self.fill_allowed = object_count < self.max_objects;
    }

    /// How many particles a fill adds now, in the circled or the rectangular
    /// layout.
    pub fn spawn_quota(&self, circled: bool) -> (r: usize)
        ensures
            r == spawn_quota_of(self@, circled),
    {
        if !self.fill_allowed {
            0
        } else if circled {
            if self.spawn_count > 0 {
                self.spawn_count - 1
            } else {
                0
            }
        } else {
            self.spawn_count
        }
    }
}

} // verus!
