//! `CollatzSearcher`: walks starting values through the Collatz step and
//! records which of them are known to reach the trivial cycle.

use vstd::prelude::*;
use crate::insertion::{inserted, lemma_stretch_single};
use crate::interval::covers;
use crate::ordering::{ascending, sort_pairs};
use crate::range_list::RangeList;
use crate::union::united;

verus! {

/// After this many steps, and at the first one, a step reports a snapshot
/// of the validated set.
pub const REPORT_INTERVAL: u128 = 10000;

/// How one step of the search ended.
#[derive(Clone, Copy, Debug, PartialEq, Eq, Structural)]
pub enum Outcome {
    /// The trajectory goes on: the new value is neither known nor seen
    /// before.
    Continue,
    /// The trajectory reached the validated value `at`, so `base` is
    /// validated; the search has moved on to the next base.
    Validated { base: u128, at: u128 },
    /// The trajectory came back to `value` without reaching a validated
    /// value. The search is over.
    CycleDetected { value: u128 },
    /// The step would leave the `u128` domain. Nothing was changed, and the
    /// search cannot go on.
    Overflow,
}

/// The validated set at the start of a step, for display.
#[derive(Debug)]
pub struct Checkpoint {
    /// The number of steps taken before this one.
    pub steps: u128,
    /// The intervals of the validated set, ascending by `(low, high)`.
    pub validated: Vec<(u128, u128)>,
}

/// What one call of `calculate_next` hands back.
#[derive(Debug)]
pub struct StepReport {
    /// A snapshot to show before the outcome, where one is due.
    pub checkpoint: Option<Checkpoint>,
    /// How the step ended.
    pub outcome: Outcome,
}

/// The state of the search.
pub struct CollatzSearcher {
    /// The value the trajectory stands at.
    pub current_index: u128,
    /// The base under test: the starting value whose trajectory is traced.
    pub iteration: u128,
    /// The number of steps taken so far.
    pub steps: u128,
    /// Every value visited on the trajectory of the base under test.
    pub unvalidated_searches: RangeList,
    /// Every value known to reach the trivial cycle.
    pub validated_searches: RangeList,
}

/// A searcher as a mathematical value.
pub struct SearchState {
    pub current: u128,
    pub base: u128,
    pub steps: u128,
    pub unvalidated: Seq<(u128, u128)>,
    pub validated: Seq<(u128, u128)>,
}

impl View for CollatzSearcher {
    type V = SearchState;

    open spec fn view(&self) -> SearchState {
        SearchState {
            current: self.current_index,
            base: self.iteration,
            steps: self.steps,
            unvalidated: self.unvalidated_searches@,
            validated: self.validated_searches@,
        }
    }
}

/// The Collatz step: half of an even `n`, `3n + 1` for an odd one.
pub open spec fn collatz(n: u128) -> int {
    if n % 2 == 0 {
        (n / 2) as int
    } else {
        3 * n + 1
    }
}

/// How the step from `s` ends.
///
/// It overflows if the step counter or the Collatz step would pass
/// `u128::MAX`, or if the base to advance is `u128::MAX`. A new value
/// already on the trajectory is a cycle; that is looked at before the
/// validated set.
pub open spec fn outcome_of(s: SearchState) -> Outcome {
    let next = collatz(s.current);
    if s.steps == u128::MAX || next > u128::MAX {
        Outcome::Overflow
    } else if covers(s.unvalidated, next as u128) {
        Outcome::CycleDetected { value: next as u128 }
    } else if !covers(s.validated, next as u128) {
        Outcome::Continue
    } else if s.base == u128::MAX {
        Outcome::Overflow
    } else {
        Outcome::Validated { base: s.base, at: next as u128 }
    }
}

/// The state after the step from `s`.
///
/// A step that goes on records the new value on the trajectory. A step
/// that validates inserts the base into the validated set, takes the whole
/// trajectory into it, empties the trajectory and starts at the next base.
pub open spec fn successor(s: SearchState) -> SearchState {
    let next = collatz(s.current) as u128;
    let steps = (s.steps + 1) as u128;
    match outcome_of(s) {
        Outcome::Overflow => s,
        Outcome::CycleDetected { .. } => SearchState { current: next, steps, ..s },
        Outcome::Continue => SearchState {
            current: next,
            steps,
            unvalidated: inserted(s.unvalidated, next),
            ..s
        },
        Outcome::Validated { .. } => SearchState {
            current: (s.base + 1) as u128,
            base: (s.base + 1) as u128,
            steps,
            unvalidated: Seq::empty(),
            validated: united(inserted(s.validated, s.base), inserted(s.unvalidated, next)),
        },
    }
}

/// Coming back to a value of the trajectory ends the search at that value,
/// whatever the validated set holds, and leaves both sets as they were.
pub proof fn lemma_revisit_is_cycle(s: SearchState)
    requires
        s.steps < u128::MAX,
        collatz(s.current) <= u128::MAX,
        covers(s.unvalidated, collatz(s.current) as u128),
    ensures
        outcome_of(s) == (Outcome::CycleDetected { value: collatz(s.current) as u128 }),
        successor(s).current == collatz(s.current),
        successor(s).unvalidated == s.unvalidated,
        successor(s).validated == s.validated,
        successor(s).base == s.base,
{
}

/// The Collatz step on `n`, or `None` where `3n + 1` does not fit.
pub fn collatz_step(n: u128) -> (next: Option<u128>)
    ensures
        next == (if collatz(n) <= u128::MAX {
            Some(collatz(n) as u128)
        } else {
            None
        }),
{
    if n % 2 == 0 {
        Some(n / 2)
    } else {
        match n.checked_mul(3) {
            Some(triple) => triple.checked_add(1),
            None => None,
        }
    }
}

impl CollatzSearcher {
    /// A searcher that starts at `starting_index`, with base 4 and the
    /// values 1 to 4 validated.
    pub fn new(starting_index: u128) -> (searcher: Self)
        ensures
            searcher@ == (SearchState {
                current: starting_index,
                base: 4,
                steps: 0,
                unvalidated: Seq::empty(),
                validated: seq![(1u128, 4u128)],
            }),
    {
        let mut validated_searches = RangeList::new();
        validated_searches.add(1);
        validated_searches.add(2);
        validated_searches.add(3);
        validated_searches.add(4);
        proof {
            assert(inserted(Seq::empty(), 1) =~= seq![(1u128, 1u128)]);
            lemma_stretch_single((1, 1), 2);
            lemma_stretch_single((1, 2), 3);
            lemma_stretch_single((1, 3), 4);
        }
        CollatzSearcher {
            current_index: starting_index,
            iteration: 4,
            steps: 0,
            unvalidated_searches: RangeList::new(),
            validated_searches,
        }
    }

    /// A searcher that starts at `starting_index`, with base 4 and nothing
    /// validated.
    pub fn empty(starting_index: u128) -> (searcher: Self)
        ensures
            searcher@ == (SearchState {
                current: starting_index,
                base: 4,
                steps: 0,
                unvalidated: Seq::empty(),
                validated: Seq::empty(),
            }),
    {
        CollatzSearcher {
            current_index: starting_index,
            iteration: 4,
            steps: 0,
            unvalidated_searches: RangeList::new(),
            validated_searches: RangeList::new(),
        }
    }

    /// Takes one step of the search.
    ///
    /// Where the number of steps taken so far is a multiple of
    /// `REPORT_INTERVAL`, the report carries a sorted copy of the validated
    /// set as it was before the step. Then the Collatz step is applied to
    /// the current value, and the new value is looked up on the trajectory
    /// and in the validated set.
    pub fn calculate_next(&mut self) -> (report: StepReport)
        ensures
            report.outcome == outcome_of(old(self)@),
            final(self)@ == successor(old(self)@),
            report.outcome is Overflow ==> final(self)@ == old(self)@,
            report.checkpoint is Some <==> old(self).steps % REPORT_INTERVAL == 0,
            report.checkpoint matches Some(c) ==> c.steps == old(self).steps && ascending(
                c.validated@,
            ) && c.validated@.to_multiset() == old(self).validated_searches@.to_multiset(),
    {
        let checkpoint = if self.steps % REPORT_INTERVAL == 0 {
            let mut snapshot: Vec<(u128, u128)> = self.validated_searches.intervals();
            sort_pairs(&mut snapshot);
            Some(Checkpoint { steps: self.steps, validated: snapshot })
        } else {
            None
        };
        let next: u128 = match collatz_step(self.current_index) {
            Some(value) => value,
            None => {
                return StepReport { checkpoint, outcome: Outcome::Overflow };
            },
        };
        if self.steps == u128::MAX {
            return StepReport { checkpoint, outcome: Outcome::Overflow };
        }
        if self.iteration == u128::MAX && self.validated_searches.in_range(next)
            && !self.unvalidated_searches.in_range(next) {
            return StepReport { checkpoint, outcome: Outcome::Overflow };
        }
        self.steps = self.steps + 1;
        self.current_index = next;
        if self.unvalidated_searches.add(next) {
            return StepReport { checkpoint, outcome: Outcome::CycleDetected { value: next } };
        }
        if !self.validated_searches.in_range(next) {
            return StepReport { checkpoint, outcome: Outcome::Continue };
        }
        let base: u128 = self.iteration;
        self.validated_searches.add(base);
        self.validated_searches.extend(&self.unvalidated_searches);
        self.unvalidated_searches.clear();
        self.iteration = base + 1;
        self.current_index = self.iteration;
        StepReport { checkpoint, outcome: Outcome::Validated { base, at: next } }
    }
}

} // verus!
