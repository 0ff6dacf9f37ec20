//! Random-source capability for the spawn step.
//!
//! The engine never hard-wires a generator: callers inject an
//! implementation of [`RandomSource`], so tests can substitute a
//! scripted one and assert exact outcomes.

use vstd::prelude::*;

verus! {

/// A source of randomness for the spawn step.
pub trait RandomSource {
    /// Pick one of `n` options.
    fn pick_index(&mut self, n: usize) -> (r: usize)
        requires
            n > 0,
        ensures
            r < n,
    ;

    /// Draw the biased coin for a spawned tile's value: `true` picks the
    /// rare high tile, `false` the common low one.
    fn draw_is_four(&mut self) -> (r: bool);
}

/// Relies on rand's `thread_rng` and `Rng::gen_range`: `gen_range(0..n)`
/// returns a uniform value in `[0, n)` and panics only on an empty
/// range, which the precondition rules out.
#[verifier::external_body]
fn rand_index(n: usize) -> (r: usize)
    requires
        n > 0,
    ensures
        r < n,
{
    rand::Rng::gen_range(&mut rand::thread_rng(), 0..n)
}

/// The process-wide random generator, wrapped as an injectable capability.
pub struct ThreadRandom {}

impl ThreadRandom {
    /// A handle on the ambient generator.
    pub fn new() -> (r: ThreadRandom) {
        ThreadRandom {}
    }
}

impl RandomSource for ThreadRandom {
    fn pick_index(&mut self, n: usize) -> (r: usize) {
        rand_index(n)
    }

    fn draw_is_four(&mut self) -> (r: bool) {
        // one chance in ten, matching the 90/10 split of spawned values
        rand_index(10) == 0
    }
}

/// A scripted source that replays fixed draws, for reproducible games:
/// the same script always yields the same spawns.  Indices are taken
/// modulo the number of options; an exhausted script keeps answering
/// with the first option and the common tile value.
pub struct ScriptedRandom {
    picks: Vec<usize>,
    flags: Vec<bool>,
    next_pick: usize,
    next_flag: usize,
}

impl ScriptedRandom {
    /// A source that replays `picks` for cell choices and `flags` for
    /// value draws.
    pub fn new(picks: Vec<usize>, flags: Vec<bool>) -> (r: ScriptedRandom) {
        ScriptedRandom { picks, flags, next_pick: 0, next_flag: 0 }
    }
}

impl RandomSource for ScriptedRandom {
    fn pick_index(&mut self, n: usize) -> (r: usize) {
        if self.next_pick < self.picks.len() {
            let v = self.picks[self.next_pick];
            self.next_pick = self.next_pick + 1;
            v % n
        } else {
            0
        }
    }

    fn draw_is_four(&mut self) -> (r: bool) {
        if self.next_flag < self.flags.len() {
            let v = self.flags[self.next_flag];
            self.next_flag = self.next_flag + 1;
            v
        } else {
            false
        }
    }
}

} // verus!
