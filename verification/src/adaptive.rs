//! Watching how far observed cardinalities stray from their estimates.

use crate::float_bits::{arith, float_lt, is_arith, less, FloatOp};
use crate::plan::LogicalPlan;
use crate::text::{append_text, decimal, decimal_chars, string_of};
use vstd::prelude::*;

verus! {

/// The distance between two counts.
pub open spec fn count_distance(a: usize, b: usize) -> u64 {
    if a >= b {
        (a - b) as u64
    } else {
        (b - a) as u64
    }
}

/// How far an observed count is from its estimate, in estimates. Where the
/// estimate is zero it is the count itself.
pub open spec fn divergence_of<F: Fn(FloatOp, u64, u64) -> u64>(f: F, estimated: usize, observed: usize) -> u64 {
    if estimated == 0 {
        if observed == 0 {
            0
        } else {
            arith(f, FloatOp::FromU64, observed as u64, 0)
        }
    } else {
        arith(
            f,
            FloatOp::Div,
            arith(f, FloatOp::FromU64, count_distance(observed, estimated), 0),
            arith(f, FloatOp::FromU64, estimated as u64, 0),
        )
    }
}

/// The greatest divergence among the first `n` stages, of those observed; at least zero.
pub open spec fn greatest_divergence<F: Fn(FloatOp, u64, u64) -> u64>(
    f: F,
    estimated: Seq<usize>,
    observed: Seq<usize>,
    seen: Seq<bool>,
    n: int,
) -> u64
    decreases n,
{
    if n <= 0 {
        0
    } else {
        let before = greatest_divergence(f, estimated, observed, seen, n - 1);
        if seen[n - 1] {
            arith(f, FloatOp::Max, before, divergence_of(f, estimated[n - 1], observed[n - 1]))
        } else {
            before
        }
    }
}

/// The divergence of one stage, as the bit pattern of a double.
pub fn divergence<F: Fn(FloatOp, u64, u64) -> u64>(estimated: usize, observed: usize, fpu: &F) -> (d: u64)
    requires
        is_arith(*fpu),
    ensures
        d == divergence_of(*fpu, estimated, observed),
{
    if estimated == 0 {
        if observed == 0 {
            0
        } else {
            fpu(FloatOp::FromU64, observed as u64, 0)
        }
    } else {
        let distance: u64 = if observed >= estimated {
            (observed - estimated) as u64
        } else {
            (estimated - observed) as u64
        };
        let top: u64 = fpu(FloatOp::FromU64, distance, 0);
        let bottom: u64 = fpu(FloatOp::FromU64, estimated as u64, 0);
        fpu(FloatOp::Div, top, bottom)
    }
}

/// A plan, the cardinalities that were estimated for its stages, and those
/// observed so far.
pub struct AdaptiveExecutor {
    plan: LogicalPlan,
    estimated_cardinalities: Vec<usize>,
    observed_cardinalities: Vec<usize>,
    has_observed: Vec<bool>,
    switch_threshold: u64,
    switched: bool,
}

impl AdaptiveExecutor {
    pub closed spec fn monitored(&self) -> LogicalPlan {
        self.plan
    }

    pub closed spec fn estimates(&self) -> Seq<usize> {
        self.estimated_cardinalities@
    }

    /// The last count of each stage; without meaning where none was observed.
    pub closed spec fn counts(&self) -> Seq<usize> {
        self.observed_cardinalities@
    }

    /// Which stages have been observed.
    pub closed spec fn seen(&self) -> Seq<bool> {
        self.has_observed@
    }

    pub closed spec fn threshold(&self) -> u64 {
        self.switch_threshold
    }

    /// A switch has been recommended.
    pub closed spec fn switching(&self) -> bool {
        self.switched
    }

    /// Estimates, counts and marks are there for the same stages.
    pub open spec fn wf(&self) -> bool {
        self.counts().len() == self.estimates().len() && self.seen().len() == self.estimates().len()
    }

    /// Starts watching a plan. The threshold is the bit pattern of a double.
    pub fn new(plan: LogicalPlan, estimated: Vec<usize>, threshold: u64) -> (e: Self)
        ensures
            e.wf(),
            e.monitored() == plan,
            e.estimates() == estimated@,
            e.threshold() == threshold,
            !e.switching(),
            forall|i: int| 0 <= i < e.seen().len() ==> !#[trigger] e.seen()[i],
    {
        let mut counts: Vec<usize> = Vec::new();
        let mut seen: Vec<bool> = Vec::new();
        let n: usize = estimated.len();
        let mut i: usize = 0;
        while i < n
            invariant
                i <= n,
                counts.len() == i,
                seen.len() == i,
                forall|k: int| 0 <= k < i ==> !#[trigger] seen@[k],
            decreases n - i,
        {
            counts.push(0);
            seen.push(false);
            i = i + 1;
        }
        AdaptiveExecutor {
            plan,
            estimated_cardinalities: estimated,
            observed_cardinalities: counts,
            has_observed: seen,
            switch_threshold: threshold,
            switched: false,
        }
    }

    /// Notes the count of a stage and says whether the plan should be switched.
    /// Once it should, it stays so. A stage that is not there changes nothing.
    pub fn observe<F: Fn(FloatOp, u64, u64) -> u64>(&mut self, stage: usize, observed: usize, fpu: &F) -> (switch: bool)
        requires
            old(self).wf(),
            is_arith(*fpu),
        ensures
            final(self).wf(),
            final(self).monitored() == old(self).monitored(),
            final(self).estimates() == old(self).estimates(),
            final(self).threshold() == old(self).threshold(),
            final(self).counts() == (if stage < old(self).counts().len() {
                old(self).counts().update(stage as int, observed)
            } else {
                old(self).counts()
            }),
            final(self).seen() == (if stage < old(self).seen().len() {
                old(self).seen().update(stage as int, true)
            } else {
                old(self).seen()
            }),
            final(self).switching() == (old(self).switching() || (stage < old(self).estimates().len() && float_lt(
                old(self).threshold(),
                final(self).worst(*fpu),
            ))),
            switch == final(self).switching(),
    {
        if stage >= self.observed_cardinalities.len() {
            return self.switched;
        }
        self.observed_cardinalities.set(stage, observed);
        self.has_observed.set(stage, true);
        let worst: u64 = self.max_divergence(fpu);
        if less(self.switch_threshold, worst) {
            self.switched = true;
        }
        self.switched
    }

    /// Whether the plan should be switched.
    pub fn should_switch(&self) -> (b: bool)
        ensures
            b == self.switching(),
    {
        self.switched
    }

    /// The greatest divergence of the stages observed so far.
    pub open spec fn worst<F: Fn(FloatOp, u64, u64) -> u64>(&self, f: F) -> u64 {
        greatest_divergence(f, self.estimates(), self.counts(), self.seen(), self.estimates().len() as int)
    }

    /// The greatest divergence of the stages observed so far, as a bit pattern.
    pub fn max_divergence<F: Fn(FloatOp, u64, u64) -> u64>(&self, fpu: &F) -> (d: u64)
        requires
            self.wf(),
            is_arith(*fpu),
        ensures
            d == self.worst(*fpu),
    {
        let mut worst: u64 = 0;
        let mut i: usize = 0;
        while i < self.estimated_cardinalities.len()
            invariant
                self.wf(),
                is_arith(*fpu),
                i <= self.estimated_cardinalities.len(),
                worst == greatest_divergence(*fpu, self.estimates(), self.counts(), self.seen(), i as int),
            decreases self.estimated_cardinalities.len() - i,
        {
            if self.has_observed[i] {
                let d: u64 = divergence(self.estimated_cardinalities[i], self.observed_cardinalities[i], fpu);
                worst = fpu(FloatOp::Max, worst, d);
            }
            i = i + 1;
        }
        worst
    }

    /// The threshold, as the bit pattern of a double.
    pub fn switch_threshold(&self) -> (t: u64)
        ensures
            t == self.threshold(),
    {
        self.switch_threshold
    }

    pub fn stage_count(&self) -> (n: usize)
        ensures
            n == self.estimates().len(),
    {
        self.estimated_cardinalities.len()
    }

    /// The estimate of a stage.
    pub fn estimated(&self, stage: usize) -> (e: Option<usize>)
        ensures
            e == (if stage < self.estimates().len() {
                Some(self.estimates()[stage as int])
            } else {
                None
            }),
    {
        if stage < self.estimated_cardinalities.len() {
            Some(self.estimated_cardinalities[stage])
        } else {
            None
        }
    }

    /// The last count of a stage, if one was observed.
    pub fn observed(&self, stage: usize) -> (c: Option<usize>)
        requires
            self.wf(),
        ensures
            c == (if stage < self.seen().len() && self.seen()[stage as int] {
                Some(self.counts()[stage as int])
            } else {
                None
            }),
    {
        if stage < self.has_observed.len() && self.has_observed[stage] {
            Some(self.observed_cardinalities[stage])
        } else {
            None
        }
    }

    /// The plan that is watched.
    pub fn plan(&self) -> (p: &LogicalPlan)
        ensures
            *p == self.monitored(),
    {
        &self.plan
    }

    /// The state, for people to read; the two doubles are written by the caller.
    pub fn debug_text(&self, threshold: &str, divergence: &str) -> (s: String)
        ensures
            s@ == "AdaptiveExecutor { stage_count: "@ + decimal(self.estimates().len()) + ", switch_threshold: "@
                + threshold@ + ", switched: "@ + (if self.switching() {
                "true"@
            } else {
                "false"@
            }) + ", max_divergence: "@ + divergence@ + " }"@,
    {
        let mut text: Vec<char> = Vec::new();
        append_text(&mut text, "AdaptiveExecutor { stage_count: ");
        let mut count: Vec<char> = decimal_chars(self.estimated_cardinalities.len() as u64);
        text.append(&mut count);
        append_text(&mut text, ", switch_threshold: ");
        append_text(&mut text, threshold);
        append_text(&mut text, ", switched: ");
        if self.switched {
            append_text(&mut text, "true");
        } else {
            append_text(&mut text, "false");
        }
        append_text(&mut text, ", max_divergence: ");
        append_text(&mut text, divergence);
        append_text(&mut text, " }");
        proof {
            assert(text@ =~= "AdaptiveExecutor { stage_count: "@ + decimal(self.estimates().len())
                + ", switch_threshold: "@ + threshold@ + ", switched: "@ + (if self.switching() {
                "true"@
            } else {
                "false"@
            }) + ", max_divergence: "@ + divergence@ + " }"@);
        }
        string_of(&text)
    }
}

/// A stage that has not been observed does not weigh in: with none observed the
/// divergence is zero.
pub proof fn unobserved_stages_do_not_count<F: Fn(FloatOp, u64, u64) -> u64>(
    f: F,
    estimated: Seq<usize>,
    observed: Seq<usize>,
    seen: Seq<bool>,
    n: int,
)
    requires
        0 <= n <= seen.len(),
        forall|i: int| 0 <= i < n ==> !#[trigger] seen[i],
    ensures
        greatest_divergence(f, estimated, observed, seen, n) == 0,
    decreases n,
{
    if n > 0 {
        unobserved_stages_do_not_count(f, estimated, observed, seen, n - 1);
    }
}

/// An estimate of zero diverges by the count itself, and not at all when
/// nothing was there.
pub proof fn divergence_of_zero_estimate<F: Fn(FloatOp, u64, u64) -> u64>(f: F, observed: usize)
    ensures
        divergence_of(f, 0, 0) == 0,
        observed > 0 ==> divergence_of(f, 0, observed) == arith(f, FloatOp::FromU64, observed as u64, 0),
{
}

/// Two counts are as far apart as they look, from either side.
pub proof fn count_distance_is_difference(a: usize, b: usize)
    ensures
        count_distance(a, b) == (if a >= b {
            a - b
        } else {
            b - a
        }),
        count_distance(a, b) == count_distance(b, a),
{
}

} // verus!
