//! Search statistics, collected behind a port so that the solver can run
//! with or without the bookkeeping.

use vstd::prelude::*;

verus! {

/// A sink for search statistics.  The counters say nothing the solver's
/// contracts depend on; implementations may record or ignore them.
pub trait Profiler: Sized {
    fn new() -> Self;

    fn move_up(&mut self);

    fn move_down(&mut self);

    fn visit_node(&mut self);

    fn order_success(&mut self);

    fn order_miss(&mut self);
}

/// A profiler that records nothing.
pub struct NoProfile;

impl Profiler for NoProfile {
    fn new() -> NoProfile {
        NoProfile
    }

    fn move_up(&mut self) {
    }

    fn move_down(&mut self) {
    }

    fn visit_node(&mut self) {
    }

    fn order_success(&mut self) {
    }

    fn order_miss(&mut self) {
    }
}

/// A profiler that counts visited nodes, the depth reached, and how often
/// the first-ranked move caused a cutoff.  Counters saturate instead of
/// wrapping.
pub struct Profile {
    current_depth: u8,
    pub max_depth: u8,
    pub visited_nodes: u32,
    pub successful_orderings: u32,
    pub missed_orderings: u32,
}

impl Profiler for Profile {
    fn new() -> Profile {
        Profile {
            current_depth: 1,
            max_depth: 1,
            visited_nodes: 0,
            successful_orderings: 0,
            missed_orderings: 0,
        }
    }

    fn move_up(&mut self) {
        if self.current_depth > 0 {
            self.current_depth = self.current_depth - 1;
        }
    }

    fn move_down(&mut self) {
        if self.current_depth < u8::MAX {
            self.current_depth = self.current_depth + 1;
        }
        if self.current_depth > self.max_depth {
            self.max_depth = self.current_depth;
        }
    }

    fn visit_node(&mut self) {
        if self.visited_nodes < u32::MAX {
            self.visited_nodes = self.visited_nodes + 1;
        }
    }

    fn order_success(&mut self) {
        if self.successful_orderings < u32::MAX {
            self.successful_orderings = self.successful_orderings + 1;
        }
    }

    fn order_miss(&mut self) {
        if self.missed_orderings < u32::MAX {
            self.missed_orderings = self.missed_orderings + 1;
        }
    }
}

} // verus!
