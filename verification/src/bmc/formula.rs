//! Formulas over bit-vector terms.
//!
//! A term denotes an unsigned number of a fixed width. Its variables are
//! the model's variables in three roles: as they are now, as they are after
//! one step, and as they are at a numbered time.

use crate::model::vector::VasValue;
use vstd::arithmetic::power2::pow2;
use vstd::prelude::*;

verus! {

/// A bit-vector term.
#[derive(Debug)]
pub enum Term {
    /// The variable with this index, now.
    Current(usize),
    /// The variable with this index, after the step.
    Next(usize),
    /// The variable with this index at this time.
    At(usize, u32),
    /// This number, reduced to the width.
    Const(VasValue),
    /// The sum of the two, reduced to the width.
    Add(Box<Term>, Box<Term>),
    /// The difference of the two, reduced to the width.
    Sub(Box<Term>, Box<Term>),
}

/// A formula over bit-vector terms.
#[derive(Debug)]
pub enum Formula {
    True,
    False,
    /// The terms denote the same number.
    Eq(Term, Term),
    /// The first term denotes at least the second, both unsigned.
    Uge(Term, Term),
    /// The first term denotes at most the second, both unsigned.
    Ule(Term, Term),
    And(Box<Formula>, Box<Formula>),
    Or(Box<Formula>, Box<Formula>),
}

/// The values of all variables in all three roles.
pub struct Valuation {
    pub current: Seq<int>,
    pub next: Seq<int>,
    pub at: spec_fn(int, int) -> int,
}

impl Term {
    /// The number that the term denotes under `env` at width `bits`.
    pub open spec fn value(self, env: Valuation, bits: nat) -> int
        decreases self,
    {
        match self {
            Term::Current(i) => env.current[i as int],
            Term::Next(i) => env.next[i as int],
            Term::At(i, k) => (env.at)(i as int, k as int),
            Term::Const(c) => (c as int) % (pow2(bits) as int),
            Term::Add(a, b) => (a.value(env, bits) + b.value(env, bits)) % (pow2(bits) as int),
            Term::Sub(a, b) => (a.value(env, bits) - b.value(env, bits)) % (pow2(bits) as int),
        }
    }

    /// The term with every variable that is read now or after the step
    /// moved to time `k`, respectively `k + 1`.
    pub open spec fn at_time_spec(self, k: u32) -> Term
        decreases self,
    {
        match self {
            Term::Current(i) => Term::At(i, k),
            Term::Next(i) => Term::At(i, (k + 1) as u32),
            Term::At(i, t) => Term::At(i, t),
            Term::Const(c) => Term::Const(c),
            Term::Add(a, b) => Term::Add(Box::new(a.at_time_spec(k)), Box::new(b.at_time_spec(k))),
            Term::Sub(a, b) => Term::Sub(Box::new(a.at_time_spec(k)), Box::new(b.at_time_spec(k))),
        }
    }

    /// A copy of the term.
    pub fn duplicate(&self) -> (r: Term)
        ensures
            r == *self,
        decreases self,
    {
        match self {
            Term::Current(i) => Term::Current(*i),
            Term::Next(i) => Term::Next(*i),
            Term::At(i, t) => Term::At(*i, *t),
            Term::Const(c) => Term::Const(*c),
            Term::Add(a, b) => Term::Add(Box::new(a.duplicate()), Box::new(b.duplicate())),
            Term::Sub(a, b) => Term::Sub(Box::new(a.duplicate()), Box::new(b.duplicate())),
        }
    }

    /// The term moved to time `k`.
    pub fn at_time(&self, k: u32) -> (r: Term)
        requires
            k < u32::MAX,
        ensures
            r == self.at_time_spec(k),
        decreases self,
    {
        match self {
            Term::Current(i) => Term::At(*i, k),
            Term::Next(i) => Term::At(*i, k + 1),
            Term::At(i, t) => Term::At(*i, *t),
            Term::Const(c) => Term::Const(*c),
            Term::Add(a, b) => Term::Add(Box::new(a.at_time(k)), Box::new(b.at_time(k))),
            Term::Sub(a, b) => Term::Sub(Box::new(a.at_time(k)), Box::new(b.at_time(k))),
        }
    }
}

impl Formula {
    /// Whether the formula holds under `env` at width `bits`.
    pub open spec fn holds(self, env: Valuation, bits: nat) -> bool
        decreases self,
    {
        match self {
            Formula::True => true,
            Formula::False => false,
            Formula::Eq(a, b) => a.value(env, bits) == b.value(env, bits),
            Formula::Uge(a, b) => a.value(env, bits) >= b.value(env, bits),
            Formula::Ule(a, b) => a.value(env, bits) <= b.value(env, bits),
            Formula::And(a, b) => a.holds(env, bits) && b.holds(env, bits),
            Formula::Or(a, b) => a.holds(env, bits) || b.holds(env, bits),
        }
    }

    /// The formula with every term moved to time `k`.
    pub open spec fn at_time_spec(self, k: u32) -> Formula
        decreases self,
    {
        match self {
            Formula::True => Formula::True,
            Formula::False => Formula::False,
            Formula::Eq(a, b) => Formula::Eq(a.at_time_spec(k), b.at_time_spec(k)),
            Formula::Uge(a, b) => Formula::Uge(a.at_time_spec(k), b.at_time_spec(k)),
            Formula::Ule(a, b) => Formula::Ule(a.at_time_spec(k), b.at_time_spec(k)),
            Formula::And(a, b) => Formula::And(
                Box::new(a.at_time_spec(k)),
                Box::new(b.at_time_spec(k)),
            ),
            Formula::Or(a, b) => Formula::Or(
                Box::new(a.at_time_spec(k)),
                Box::new(b.at_time_spec(k)),
            ),
        }
    }

    /// A copy of the formula.
    pub fn duplicate(&self) -> (r: Formula)
        ensures
            r == *self,
        decreases self,
    {
        match self {
            Formula::True => Formula::True,
            Formula::False => Formula::False,
            Formula::Eq(a, b) => Formula::Eq(a.duplicate(), b.duplicate()),
            Formula::Uge(a, b) => Formula::Uge(a.duplicate(), b.duplicate()),
            Formula::Ule(a, b) => Formula::Ule(a.duplicate(), b.duplicate()),
            Formula::And(a, b) => Formula::And(Box::new(a.duplicate()), Box::new(b.duplicate())),
            Formula::Or(a, b) => Formula::Or(Box::new(a.duplicate()), Box::new(b.duplicate())),
        }
    }

    /// The formula moved to time `k`.
    pub fn at_time(&self, k: u32) -> (r: Formula)
        requires
            k < u32::MAX,
        ensures
            r == self.at_time_spec(k),
        decreases self,
    {
        match self {
            Formula::True => Formula::True,
            Formula::False => Formula::False,
            Formula::Eq(a, b) => Formula::Eq(a.at_time(k), b.at_time(k)),
            Formula::Uge(a, b) => Formula::Uge(a.at_time(k), b.at_time(k)),
            Formula::Ule(a, b) => Formula::Ule(a.at_time(k), b.at_time(k)),
            Formula::And(a, b) => Formula::And(Box::new(a.at_time(k)), Box::new(b.at_time(k))),
            Formula::Or(a, b) => Formula::Or(Box::new(a.at_time(k)), Box::new(b.at_time(k))),
        }
    }

    /// The conjunction of the two.
    pub fn and(a: Formula, b: Formula) -> (r: Formula)
        ensures
            r == Formula::And(Box::new(a), Box::new(b)),
    {
        Formula::And(Box::new(a), Box::new(b))
    }

    /// The disjunction of the two.
    pub fn or(a: Formula, b: Formula) -> (r: Formula)
        ensures
            r == Formula::Or(Box::new(a), Box::new(b)),
    {
        Formula::Or(Box::new(a), Box::new(b))
    }
}

/// The valuation that reads `env` at time `k` as now and at time `k + 1`
/// as after the step, for `n` variables.
pub open spec fn window(env: Valuation, k: int, n: nat) -> Valuation {
    Valuation {
        current: Seq::new(n, |i: int| (env.at)(i, k)),
        next: Seq::new(n, |i: int| (env.at)(i, k + 1)),
        at: env.at,
    }
}

impl Term {
    /// Whether every variable index in the term is below `n`.
    pub open spec fn within(self, n: nat) -> bool
        decreases self,
    {
        match self {
            Term::Current(i) => i < n,
            Term::Next(i) => i < n,
            Term::At(i, _) => i < n,
            Term::Const(_) => true,
            Term::Add(a, b) => a.within(n) && b.within(n),
            Term::Sub(a, b) => a.within(n) && b.within(n),
        }
    }

    /// A term moved to time `k` denotes what the term denotes when time
    /// `k` is read as now.
    pub proof fn lemma_at_time_value(self, k: u32, env: Valuation, bits: nat, n: nat)
        requires
            self.within(n),
            k < u32::MAX,
        ensures
            self.at_time_spec(k).value(env, bits) == self.value(window(env, k as int, n), bits),
        decreases self,
    {
        match self {
            Term::Add(a, b) => {
                a.lemma_at_time_value(k, env, bits, n);
                b.lemma_at_time_value(k, env, bits, n);
            },
            Term::Sub(a, b) => {
                a.lemma_at_time_value(k, env, bits, n);
                b.lemma_at_time_value(k, env, bits, n);
            },
            _ => {},
        }
    }
}

impl Formula {
    /// Whether every variable index in the formula is below `n`.
    pub open spec fn within(self, n: nat) -> bool
        decreases self,
    {
        match self {
            Formula::True => true,
            Formula::False => true,
            Formula::Eq(a, b) => a.within(n) && b.within(n),
            Formula::Uge(a, b) => a.within(n) && b.within(n),
            Formula::Ule(a, b) => a.within(n) && b.within(n),
            Formula::And(a, b) => a.within(n) && b.within(n),
            Formula::Or(a, b) => a.within(n) && b.within(n),
        }
    }

    /// A formula moved to time `k` holds exactly when the formula holds
    /// with time `k` read as now and time `k + 1` as after the step.
    pub proof fn lemma_at_time_holds(self, k: u32, env: Valuation, bits: nat, n: nat)
        requires
            self.within(n),
            k < u32::MAX,
        ensures
            self.at_time_spec(k).holds(env, bits) == self.holds(window(env, k as int, n), bits),
        decreases self,
    {
        match self {
            Formula::Eq(a, b) => {
                a.lemma_at_time_value(k, env, bits, n);
                b.lemma_at_time_value(k, env, bits, n);
            },
            Formula::Uge(a, b) => {
                a.lemma_at_time_value(k, env, bits, n);
                b.lemma_at_time_value(k, env, bits, n);
            },
            Formula::Ule(a, b) => {
                a.lemma_at_time_value(k, env, bits, n);
                b.lemma_at_time_value(k, env, bits, n);
            },
            Formula::And(a, b) => {
                a.lemma_at_time_holds(k, env, bits, n);
                b.lemma_at_time_holds(k, env, bits, n);
            },
            Formula::Or(a, b) => {
                a.lemma_at_time_holds(k, env, bits, n);
                b.lemma_at_time_holds(k, env, bits, n);
            },
            _ => {},
        }
    }
}

} // verus!
