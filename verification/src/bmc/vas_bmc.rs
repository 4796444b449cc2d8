//! Bounded model checking of a model: the search for the first time at
//! which the target can hold.

use crate::bmc::bounds::{bounds_result, BMCBounds};
use crate::bmc::encoding::{encodable, encoding_of, BMCEncoding};
use crate::bmc::formula::Formula;
use crate::model::vas_model::AbstractVas;
use vstd::prelude::*;

verus! {

/// Width of the bit-vectors that stand for variables.
pub const NUM_BITS: u32 = 9;

/// Number of times that bounded model checking tries before it gives up.
pub const MAX_BMC_STEPS: u32 = 1000;

/// Why bounded model checking or bounding came to nothing.
#[derive(Clone, Copy, Debug, PartialEq, Eq, Structural)]
pub enum BmcFailure {
    /// The target can hold at time 0, so there is nothing to unroll.
    TargetHoldsInitially,
    /// The target cannot hold at any of the times tried.
    NoTargetWithinSteps,
    /// The answers to a search for a bound contradict each other, as they
    /// do when the formula that describes the runs cannot be satisfied.
    UnsatisfiableEncoding,
    /// An initial value does not fit the width.
    InitialValueOutOfRange,
}

/// The initial formula at time 0 and the transition formula at each of
/// the times below `k`.
pub open spec fn unrolled(enc: BMCEncoding, k: nat) -> Formula
    decreases k,
{
    if k == 0 {
        enc.init_formula.at_time_spec(0)
    } else {
        Formula::And(
            Box::new(unrolled(enc, (k - 1) as nat)),
            Box::new(enc.transition_formula.at_time_spec((k - 1) as u32)),
        )
    }
}

/// The runs of `k` steps that end on the target.
pub open spec fn reaching(enc: BMCEncoding, k: nat) -> Formula {
    Formula::And(Box::new(unrolled(enc, k)), Box::new(enc.target_formula.at_time_spec(k as u32)))
}

/// Whether `r` is what bounded model checking of `enc` comes to when
/// `solver` answers: the formula of the first time below `max_steps` at
/// which the target can hold, with that time, when the time is not 0; the
/// failure `TargetHoldsInitially` when it is 0; and the failure
/// `NoTargetWithinSteps` when the target can hold at none of the times.
pub open spec fn bmc_result<S: Fn(&Formula) -> bool>(
    enc: BMCEncoding,
    solver: &S,
    max_steps: u32,
    r: Result<(Formula, u32), BmcFailure>,
) -> bool {
    match r {
        Ok((formula, k)) => {
            &&& 0 < k < max_steps
            &&& formula == reaching(enc, k as nat)
            &&& call_ensures(solver, (&reaching(enc, k as nat),), true)
            &&& forall|j: nat| j < k ==> call_ensures(solver, (&#[trigger] reaching(enc, j),), false)
        },
        Err(BmcFailure::TargetHoldsInitially) => {
            &&& max_steps > 0
            &&& call_ensures(solver, (&reaching(enc, 0),), true)
        },
        Err(BmcFailure::NoTargetWithinSteps) => forall|j: nat|
            j < max_steps ==> call_ensures(solver, (&#[trigger] reaching(enc, j),), false),
        Err(_) => false,
    }
}

impl BMCEncoding {
    /// Looks for the first time at which the target can hold.
    ///
    /// Asks `solver` whether `reaching(k)` can be satisfied, for `k` from 0
    /// upwards and below `max_steps`, and stops at the first yes. A yes
    /// at time 0 and a no throughout are failures; otherwise the result is
    /// the formula that was satisfiable, with its number of steps.
    pub fn run_bmc<S: Fn(&Formula) -> bool>(&self, solver: &S, max_steps: u32) -> (r: Result<
        (Formula, u32),
        BmcFailure,
    >)
        requires
            forall|f: Formula| call_requires(solver, (&f,)),
        ensures
            bmc_result(*self, solver, max_steps, r),
    {
        let mut formula = self.init_formula.at_time(0);
        let mut k: u32 = 0;
        while k < max_steps
            invariant
                k <= max_steps,
                forall|f: Formula| call_requires(solver, (&f,)),
                formula == unrolled(*self, k as nat),
                forall|j: nat|
                    j < k ==> call_ensures(solver, (&#[trigger] reaching(*self, j),), false),
            decreases max_steps - k,
        {
            let query = Formula::and(formula, self.target_formula.at_time(k));
            let sat = solver(&query);
            if sat {
                if k == 0 {
                    return Err(BmcFailure::TargetHoldsInitially);
                }
                return Ok((query, k));
            }
            formula = match query {
                Formula::And(prefix, _) => *prefix,
                _ => Formula::True,
            };
            formula = Formula::and(formula, self.transition_formula.at_time(k));
            k += 1;
        }
        Err(BmcFailure::NoTargetWithinSteps)
    }
}

impl AbstractVas {
    /// The encoding of the model.
    pub fn bmc_encoding(&self) -> (r: BMCEncoding)
        requires
            encodable(self@),
        ensures
            r == encoding_of(self@),
    {
        BMCEncoding::from_vas(self)
    }

    /// The four bounds of every variable of the model, at the width
    /// `NUM_BITS`.
    pub fn variable_bounds<S: Fn(&Formula) -> bool>(
        &self,
        bmc_encoding: &BMCEncoding,
        solver: &S,
    ) -> (r: Result<BMCBounds, BmcFailure>)
        requires
            forall|f: Formula| call_requires(solver, (&f,)),
            self@.initial.len() >= 1,
        ensures
            bounds_result(self@.initial[0], *bmc_encoding, solver, NUM_BITS as nat, r),
    {
        BMCBounds::from_encoding(self, bmc_encoding, solver, NUM_BITS)
    }

    /// Bounded model checking of the model, for at most `MAX_BMC_STEPS`
    /// times.
    pub fn run_bmc<S: Fn(&Formula) -> bool>(&self, bmc_encoding: &BMCEncoding, solver: &S) -> (r:
        Result<(Formula, u32), BmcFailure>)
        requires
            forall|f: Formula| call_requires(solver, (&f,)),
        ensures
            bmc_result(*bmc_encoding, solver, MAX_BMC_STEPS, r),
    {
        bmc_encoding.run_bmc(solver, MAX_BMC_STEPS)
    }
}

} // verus!
