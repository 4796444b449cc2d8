//! Unrolling of formulas over time.

use crate::bmc::formula::{window, Formula, Term, Valuation};
use vstd::prelude::*;

verus! {

/// Moves formulas about one step to numbered times.
#[derive(Clone, Copy, Debug, PartialEq, Eq)]
pub struct Unroller {
    /// The number of variables of the model.
    pub num_vars: usize,
}

/// `term` at one of the times below `upto`.
pub open spec fn at_some_time(term: Formula, upto: nat) -> Formula
    decreases upto,
{
    if upto == 0 {
        Formula::False
    } else {
        Formula::Or(
            Box::new(at_some_time(term, (upto - 1) as nat)),
            Box::new(term.at_time_spec((upto - 1) as u32)),
        )
    }
}

/// `term` at every time below `upto`.
pub open spec fn at_every_time(term: Formula, upto: nat) -> Formula
    decreases upto,
{
    if upto == 0 {
        Formula::True
    } else {
        Formula::And(
            Box::new(at_every_time(term, (upto - 1) as nat)),
            Box::new(term.at_time_spec((upto - 1) as u32)),
        )
    }
}

/// `at_some_time` holds exactly when the formula holds with one of the
/// times read as now.
pub proof fn lemma_at_some_time(term: Formula, upto: nat, env: Valuation, bits: nat, n: nat)
    requires
        term.within(n),
        upto <= u32::MAX,
    ensures
        at_some_time(term, upto).holds(env, bits) <==> exists|t: int|
            0 <= t < upto && #[trigger] term.holds(window(env, t, n), bits),
    decreases upto,
{
    if upto > 0 {
        lemma_at_some_time(term, (upto - 1) as nat, env, bits, n);
        term.lemma_at_time_holds((upto - 1) as u32, env, bits, n);
        if at_some_time(term, upto).holds(env, bits) {
            if term.at_time_spec((upto - 1) as u32).holds(env, bits) {
                assert(term.holds(window(env, upto - 1, n), bits));
            }
        }
    }
}

/// `at_every_time` holds exactly when the formula holds with each of the
/// times read as now.
pub proof fn lemma_at_every_time(term: Formula, upto: nat, env: Valuation, bits: nat, n: nat)
    requires
        term.within(n),
        upto <= u32::MAX,
    ensures
        at_every_time(term, upto).holds(env, bits) <==> forall|t: int|
            0 <= t < upto ==> #[trigger] term.holds(window(env, t, n), bits),
    decreases upto,
{
    if upto > 0 {
        lemma_at_every_time(term, (upto - 1) as nat, env, bits, n);
        term.lemma_at_time_holds((upto - 1) as u32, env, bits, n);
        if at_every_time(term, (upto - 1) as nat).holds(env, bits) && term.holds(
            window(env, upto - 1, n),
            bits,
        ) {
            assert forall|t: int| 0 <= t < upto implies #[trigger] term.holds(
                window(env, t, n),
                bits,
            ) by {}
        }
    }
}

impl Unroller {
    /// An unroller for formulas over `num_vars` variables.
    pub fn new(num_vars: usize) -> (r: Self)
        ensures
            r.num_vars == num_vars,
    {
        Unroller { num_vars }
    }

    /// `term` with now moved to time `k` and after the step to `k + 1`.
    pub fn at_time(&self, term: &Formula, k: u32) -> (r: Formula)
        requires
            k < u32::MAX,
        ensures
            r == term.at_time_spec(k),
    {
        term.at_time(k)
    }

    /// `term` at one of the times `0..=k`.
    pub fn at_all_times_or(&self, term: &Formula, k: u32) -> (r: Formula)
        requires
            k < u32::MAX,
        ensures
            r == at_some_time(*term, (k + 1) as nat),
    {
        let mut acc = Formula::False;
        let mut i: u32 = 0;
        while i <= k
            invariant
                i <= k + 1,
                k < u32::MAX,
                acc == at_some_time(*term, i as nat),
            decreases k + 1 - i,
        {
            acc = Formula::or(acc, term.at_time(i));
            i += 1;
        }
        acc
    }

    /// `term` at every one of the times `0..=k`.
    pub fn at_all_times_and(&self, term: &Formula, k: u32) -> (r: Formula)
        requires
            k < u32::MAX,
        ensures
            r == at_every_time(*term, (k + 1) as nat),
    {
        let mut acc = Formula::True;
        let mut i: u32 = 0;
        while i <= k
            invariant
                i <= k + 1,
                k < u32::MAX,
                acc == at_every_time(*term, i as nat),
            decreases k + 1 - i,
        {
            acc = Formula::and(acc, term.at_time(i));
            i += 1;
        }
        acc
    }

    /// The variable `v` at time `k`, or `None` when the model has no such
    /// variable.
    pub fn get_var(&self, v: usize, k: u32) -> (r: Option<Term>)
        ensures
            r == (if v < self.num_vars {
                Some(Term::At(v, k))
            } else {
                None
            }),
    {
        if v < self.num_vars {
            Some(Term::At(v, k))
        } else {
            None
        }
    }
}

} // verus!
