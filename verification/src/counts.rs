use vstd::prelude::*;

verus! {

/// Optional instrumentation for a demonstration harness built on the
/// engine: one counter per kind of work step, bumped by the query bodies at
/// well-defined execution points.  The counters wrap on overflow, so a bump
/// never fails.
#[derive(Debug)]
pub struct WorkCounts {
    pub evaluate_function_steps: usize,
    pub compile_steps: usize,
    pub parse_steps: usize,
    pub resolve_steps: usize,
    pub type_check_program_steps: usize,
    pub type_check_function_steps: usize,
}

/// A point-in-time copy of the counters, used to measure how much work one
/// edit caused by differencing two snapshots.
#[derive(Clone, Copy, Debug, PartialEq, Eq, Structural)]
pub struct WorkSnapshot {
    pub compile_steps: usize,
    pub parse_steps: usize,
    pub resolve_steps: usize,
    pub type_check_program_steps: usize,
    pub type_check_function_steps: usize,
    pub evaluate_function_steps: usize,
}

/// A counter bumped by one, wrapping at the top of the range.
pub open spec fn bumped(c: usize) -> usize {
    if c == usize::MAX {
        0
    } else {
        (c + 1) as usize
    }
}

/// One step forward, wrapping at the top of the range.
fn bump(c: usize) -> (r: usize)
    ensures
        r == bumped(c),
{
    if c == usize::MAX {
        0
    } else {
        c + 1
    }
}

impl WorkCounts {
    /// Fresh counters, all zero.
    pub fn new() -> (w: WorkCounts)
        ensures
            w.evaluate_function_steps == 0,
            w.compile_steps == 0,
            w.parse_steps == 0,
            w.resolve_steps == 0,
            w.type_check_program_steps == 0,
            w.type_check_function_steps == 0,
    {
        WorkCounts {
            evaluate_function_steps: 0,
            compile_steps: 0,
            parse_steps: 0,
            resolve_steps: 0,
            type_check_program_steps: 0,
            type_check_function_steps: 0,
        }
    }

    /// Records one evaluation step.
    pub fn evaluate_step(&mut self)
        ensures
            final(self).evaluate_function_steps == bumped(old(self).evaluate_function_steps),
            final(self).compile_steps == old(self).compile_steps,
            final(self).parse_steps == old(self).parse_steps,
            final(self).resolve_steps == old(self).resolve_steps,
            final(self).type_check_program_steps == old(self).type_check_program_steps,
            final(self).type_check_function_steps == old(self).type_check_function_steps,
    {
        self.evaluate_function_steps = bump(self.evaluate_function_steps);
    }

    /// Records one compilation step.
    pub fn compile_step(&mut self)
        ensures
            final(self).compile_steps == bumped(old(self).compile_steps),
            final(self).evaluate_function_steps == old(self).evaluate_function_steps,
            final(self).parse_steps == old(self).parse_steps,
            final(self).resolve_steps == old(self).resolve_steps,
            final(self).type_check_program_steps == old(self).type_check_program_steps,
            final(self).type_check_function_steps == old(self).type_check_function_steps,
    {
        self.compile_steps = bump(self.compile_steps);
    }

    /// Records one parse step.
    pub fn parse_step(&mut self)
        ensures
            final(self).parse_steps == bumped(old(self).parse_steps),
            final(self).evaluate_function_steps == old(self).evaluate_function_steps,
            final(self).compile_steps == old(self).compile_steps,
            final(self).resolve_steps == old(self).resolve_steps,
            final(self).type_check_program_steps == old(self).type_check_program_steps,
            final(self).type_check_function_steps == old(self).type_check_function_steps,
    {
        self.parse_steps = bump(self.parse_steps);
    }

    /// Records one name-resolution step.
    pub fn resolve_step(&mut self)
        ensures
            final(self).resolve_steps == bumped(old(self).resolve_steps),
            final(self).evaluate_function_steps == old(self).evaluate_function_steps,
            final(self).compile_steps == old(self).compile_steps,
            final(self).parse_steps == old(self).parse_steps,
            final(self).type_check_program_steps == old(self).type_check_program_steps,
            final(self).type_check_function_steps == old(self).type_check_function_steps,
    {
        self.resolve_steps = bump(self.resolve_steps);
    }

    /// Records one whole-program type-check step.
    pub fn type_check_program_step(&mut self)
        ensures
            final(self).type_check_program_steps == bumped(old(self).type_check_program_steps),
            final(self).evaluate_function_steps == old(self).evaluate_function_steps,
            final(self).compile_steps == old(self).compile_steps,
            final(self).parse_steps == old(self).parse_steps,
            final(self).resolve_steps == old(self).resolve_steps,
            final(self).type_check_function_steps == old(self).type_check_function_steps,
    {
        self.type_check_program_steps = bump(self.type_check_program_steps);
    }

    /// Records one per-function type-check step.
    pub fn type_check_function_step(&mut self)
        ensures
            final(self).type_check_function_steps == bumped(old(self).type_check_function_steps),
            final(self).evaluate_function_steps == old(self).evaluate_function_steps,
            final(self).compile_steps == old(self).compile_steps,
            final(self).parse_steps == old(self).parse_steps,
            final(self).resolve_steps == old(self).resolve_steps,
            final(self).type_check_program_steps == old(self).type_check_program_steps,
    {
        self.type_check_function_steps = bump(self.type_check_function_steps);
    }
}

impl WorkSnapshot {
    /// Copies the present counter values into a snapshot.
    pub fn measure(w: &WorkCounts) -> (s: WorkSnapshot)
        ensures
            s.evaluate_function_steps == w.evaluate_function_steps,
            s.compile_steps == w.compile_steps,
            s.parse_steps == w.parse_steps,
            s.resolve_steps == w.resolve_steps,
            s.type_check_program_steps == w.type_check_program_steps,
            s.type_check_function_steps == w.type_check_function_steps,
    {
        WorkSnapshot {
            evaluate_function_steps: w.evaluate_function_steps,
            compile_steps: w.compile_steps,
            parse_steps: w.parse_steps,
            resolve_steps: w.resolve_steps,
            type_check_program_steps: w.type_check_program_steps,
            type_check_function_steps: w.type_check_function_steps,
        }
    }

    /// The work done between this snapshot and a later one, field by field.
    pub fn delta(&self, newer: WorkSnapshot) -> (d: WorkSnapshot)
        requires
            self.evaluate_function_steps <= newer.evaluate_function_steps,
            self.compile_steps <= newer.compile_steps,
            self.parse_steps <= newer.parse_steps,
            self.resolve_steps <= newer.resolve_steps,
            self.type_check_program_steps <= newer.type_check_program_steps,
            self.type_check_function_steps <= newer.type_check_function_steps,
        ensures
            d.evaluate_function_steps == newer.evaluate_function_steps - self.evaluate_function_steps,
            d.compile_steps == newer.compile_steps - self.compile_steps,
            d.parse_steps == newer.parse_steps - self.parse_steps,
            d.resolve_steps == newer.resolve_steps - self.resolve_steps,
            d.type_check_program_steps == newer.type_check_program_steps - self.type_check_program_steps,
            d.type_check_function_steps == newer.type_check_function_steps - self.type_check_function_steps,
    {
        WorkSnapshot {
            evaluate_function_steps: newer.evaluate_function_steps - self.evaluate_function_steps,
            compile_steps: newer.compile_steps - self.compile_steps,
            parse_steps: newer.parse_steps - self.parse_steps,
            resolve_steps: newer.resolve_steps - self.resolve_steps,
            type_check_program_steps: newer.type_check_program_steps - self.type_check_program_steps,
            type_check_function_steps: newer.type_check_function_steps - self.type_check_function_steps,
        }
    }
}

} // verus!
