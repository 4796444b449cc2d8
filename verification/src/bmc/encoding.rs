//! The bit-vector encoding of a model: what holds initially, what holds of
//! the target, and what relates a state to its successors.

use crate::bmc::formula::{Formula, Term, Valuation};
use crate::bmc::unroller::Unroller;
use crate::model::vas_model::{AbstractVas, ModelSpec, TransitionSpec, VasProperty, VasTransition};
use crate::model::vector::VasValue;
use vstd::arithmetic::div_mod::{
    lemma_add_mod_noop_right, lemma_small_mod, lemma_sub_mod_noop_right,
};
use vstd::arithmetic::power2::{lemma_pow2_pos, pow2};
use vstd::prelude::*;

verus! {

/// The three formulas of a model, with the unroller for them.
#[derive(Debug)]
pub struct BMCEncoding {
    /// Every variable has its initial value now.
    pub init_formula: Formula,
    /// The target variable has the target value now.
    pub target_formula: Formula,
    /// One transition leads from now to after the step.
    pub transition_formula: Formula,
    pub unroller: Unroller,
}

/// The first `upto` variables have the values `init` now.
pub open spec fn init_formula_of(init: Seq<VasValue>, upto: nat) -> Formula
    decreases upto,
{
    if upto == 0 {
        Formula::True
    } else {
        Formula::And(
            Box::new(init_formula_of(init, (upto - 1) as nat)),
            Box::new(
                Formula::Eq(Term::Current((upto - 1) as usize), Term::Const(init[upto - 1])),
            ),
        )
    }
}

/// The target variable has the target value now.
pub open spec fn target_formula_of(target: VasProperty) -> Formula {
    Formula::Eq(Term::Current(target.variable_index), Term::Const(target.target_value))
}

/// How `t` changes variable `i`: it grows by the update when that is
/// positive and shrinks by the update's size otherwise.
pub open spec fn change_of(t: TransitionSpec, i: int) -> Formula {
    if t.update[i] > 0 {
        Formula::Eq(
            Term::Next(i as usize),
            Term::Add(Box::new(Term::Current(i as usize)), Box::new(Term::Const(t.update[i]))),
        )
    } else {
        Formula::Eq(
            Term::Next(i as usize),
            Term::Sub(
                Box::new(Term::Current(i as usize)),
                Box::new(Term::Const((-t.update[i]) as VasValue)),
            ),
        )
    }
}

/// What firing `t` requires and does on the first `upto` variables: a
/// variable that `t` neither changes nor inspects stays as it is; any
/// other is at least the minimum, where that is positive, and changes as
/// `change_of` says.
pub open spec fn step_formula_of(t: TransitionSpec, upto: nat) -> Formula
    decreases upto,
{
    if upto == 0 {
        Formula::True
    } else {
        let before = step_formula_of(t, (upto - 1) as nat);
        let i = upto - 1;
        if t.update[i] == 0 && t.bounds[i] == 0 {
            Formula::And(
                Box::new(before),
                Box::new(Formula::Eq(Term::Next(i as usize), Term::Current(i as usize))),
            )
        } else {
            let guarded = if t.bounds[i] > 0 {
                Formula::And(
                    Box::new(before),
                    Box::new(
                        Formula::Uge(Term::Current(i as usize), Term::Const(t.bounds[i])),
                    ),
                )
            } else {
                before
            };
            Formula::And(Box::new(guarded), Box::new(change_of(t, i)))
        }
    }
}

/// One of the first `upto` transitions fires.
pub open spec fn transition_formula_of(ts: Seq<TransitionSpec>, n: nat, upto: nat) -> Formula
    decreases upto,
{
    if upto == 0 {
        Formula::False
    } else {
        Formula::Or(
            Box::new(transition_formula_of(ts, n, (upto - 1) as nat)),
            Box::new(step_formula_of(ts[upto - 1], n)),
        )
    }
}

/// The encoding of `model`: each variable has its value in the first
/// initial state, the target variable has the target value, and one of
/// the transitions fires.
pub open spec fn encoding_of(model: ModelSpec) -> BMCEncoding {
    BMCEncoding {
        init_formula: init_formula_of(model.initial[0], model.dimension()),
        target_formula: target_formula_of(model.target),
        transition_formula: transition_formula_of(
            model.transitions,
            model.dimension(),
            model.transitions.len(),
        ),
        unroller: Unroller { num_vars: model.dimension() as usize },
    }
}

/// Whether `model` can be encoded: it is well formed, its target names
/// one of its variables, and the size of every update is representable.
pub open spec fn encodable(model: ModelSpec) -> bool {
    &&& model.well_formed()
    &&& model.target.variable_index < model.dimension()
    &&& forall|k: int, i: int|
        0 <= k < model.transitions.len() && 0 <= i < model.dimension()
            ==> #[trigger] model.transitions[k].update[i] > i128::MIN
}

/// What `step_formula_of` says of variable `i`, read as numbers: the
/// value now is at least the minimum, where that is positive, and the
/// value after the step is the value now plus the update, at the width.
pub open spec fn steps_by(t: TransitionSpec, i: int, env: Valuation, bits: nat) -> bool {
    &&& t.bounds[i] > 0 ==> env.current[i] >= (t.bounds[i] as int) % (pow2(bits) as int)
    &&& env.next[i] == (env.current[i] + t.update[i]) % (pow2(bits) as int)
}

/// Whether variable `i` has the value `init[i]` now, at the width.
pub open spec fn starts_at(init: Seq<VasValue>, i: int, env: Valuation, bits: nat) -> bool {
    env.current[i] == (init[i] as int) % (pow2(bits) as int)
}

/// Whether variable `i` is after the step what it is now.
pub open spec fn stays(i: int, env: Valuation) -> bool {
    env.next[i] == env.current[i]
}

/// The initial formula holds exactly when every variable has its initial
/// value, at the width.
pub proof fn lemma_init_formula_holds(init: Seq<VasValue>, upto: nat, env: Valuation, bits: nat)
    requires
        upto <= usize::MAX,
    ensures
        init_formula_of(init, upto).holds(env, bits) <==> forall|i: int|
            0 <= i < upto ==> #[trigger] starts_at(init, i, env, bits),
    decreases upto,
{
    reveal_with_fuel(Formula::holds, 3);
    reveal_with_fuel(Term::value, 3);
    if upto > 0 {
        lemma_init_formula_holds(init, (upto - 1) as nat, env, bits);
        let before = init_formula_of(init, (upto - 1) as nat);
        assert(init_formula_of(init, upto).holds(env, bits) == (before.holds(env, bits)
            && starts_at(init, upto - 1, env, bits)));
        if before.holds(env, bits) && starts_at(init, upto - 1, env, bits) {
            assert forall|i: int| 0 <= i < upto implies #[trigger] starts_at(
                init,
                i,
                env,
                bits,
            ) by {}
        }
        if forall|i: int| 0 <= i < upto ==> #[trigger] starts_at(init, i, env, bits) {
            assert(starts_at(init, upto - 1, env, bits));
        }
    }
}

/// The step formula of a transition holds exactly when every variable
/// meets its minimum and moves by its update, at the width.
pub proof fn lemma_step_formula_holds(t: TransitionSpec, upto: nat, env: Valuation, bits: nat)
    requires
        upto <= usize::MAX,
        forall|i: int| 0 <= i < upto ==> t.update[i] > i128::MIN,
        forall|i: int| 0 <= i < upto ==> 0 <= #[trigger] env.current[i] < pow2(bits),
    ensures
        step_formula_of(t, upto).holds(env, bits) <==> forall|i: int|
            0 <= i < upto ==> #[trigger] steps_by(t, i, env, bits),
    decreases upto,
{
    reveal_with_fuel(Formula::holds, 4);
    reveal_with_fuel(Term::value, 3);
    if upto > 0 {
        lemma_step_formula_holds(t, (upto - 1) as nat, env, bits);
        let i = upto - 1;
        let p = pow2(bits) as int;
        lemma_pow2_pos(bits);
        assert(0 <= env.current[i] < p);
        let cur = env.current[i];
        let u = t.update[i] as int;
        assert(t.update[i] > i128::MIN);
        let before = step_formula_of(t, (upto - 1) as nat);
        let last = if t.update[i] == 0 && t.bounds[i] == 0 {
            env.next[i] == cur
        } else {
            (t.bounds[i] > 0 ==> cur >= (t.bounds[i] as int) % p) && change_of(t, i).holds(env, bits)
        };
        assert(step_formula_of(t, upto).holds(env, bits) == (before.holds(env, bits) && last));
        assert(last == steps_by(t, i, env, bits)) by {
            lemma_small_mod(cur as nat, p as nat);
            if u > 0 {
                lemma_add_mod_noop_right(cur, u, p);
            } else {
                lemma_sub_mod_noop_right(cur, -u, p);
            }
        }
        if before.holds(env, bits) && last {
            assert forall|j: int| 0 <= j < upto implies #[trigger] steps_by(t, j, env, bits) by {}
        }
        if forall|j: int| 0 <= j < upto ==> #[trigger] steps_by(t, j, env, bits) {
            assert(steps_by(t, i, env, bits));
            assert forall|j: int| 0 <= j < upto - 1 implies #[trigger] steps_by(
                t,
                j,
                env,
                bits,
            ) by {}
        }
    }
}

/// A transition that neither changes nor inspects any variable is encoded
/// as the identity: its step formula holds exactly when every variable is
/// after the step what it is now.
pub proof fn lemma_idle_transition_is_identity(
    t: TransitionSpec,
    upto: nat,
    env: Valuation,
    bits: nat,
)
    requires
        upto <= usize::MAX,
        upto <= t.update.len(),
        upto <= t.bounds.len(),
        forall|i: int| 0 <= i < upto ==> #[trigger] t.update[i] == 0 && t.bounds[i] == 0,
    ensures
        step_formula_of(t, upto).holds(env, bits) <==> forall|i: int|
            0 <= i < upto ==> #[trigger] stays(i, env),
    decreases upto,
{
    reveal_with_fuel(Formula::holds, 3);
    reveal_with_fuel(Term::value, 3);
    if upto > 0 {
        lemma_idle_transition_is_identity(t, (upto - 1) as nat, env, bits);
        let before = step_formula_of(t, (upto - 1) as nat);
        assert(t.update[upto - 1] == 0 && t.bounds[upto - 1] == 0);
        assert(step_formula_of(t, upto).holds(env, bits) == (before.holds(env, bits) && stays(
            upto - 1,
            env,
        )));
        if before.holds(env, bits) && stays(upto - 1, env) {
            assert forall|i: int| 0 <= i < upto implies #[trigger] stays(i, env) by {}
        }
        if forall|i: int| 0 <= i < upto ==> #[trigger] stays(i, env) {
            assert(stays(upto - 1, env));
        }
    }
}

/// The transition formula holds exactly when the step formula of one of
/// the transitions does.
pub proof fn lemma_transition_formula_holds(
    ts: Seq<TransitionSpec>,
    n: nat,
    upto: nat,
    env: Valuation,
    bits: nat,
)
    ensures
        transition_formula_of(ts, n, upto).holds(env, bits) <==> exists|k: int|
            0 <= k < upto && #[trigger] step_formula_of(ts[k], n).holds(env, bits),
    decreases upto,
{
    if upto > 0 {
        lemma_transition_formula_holds(ts, n, (upto - 1) as nat, env, bits);
        if step_formula_of(ts[upto - 1], n).holds(env, bits) {
            assert(0 <= upto - 1 < upto);
        }
    }
}

impl AbstractVas {
    /// Whether the model can be encoded.
    pub fn is_encodable(&self) -> (r: bool)
        ensures
            r == encodable(self@),
    {
        if !self.is_well_formed() {
            return false;
        }
        let n = self.variable_names.len();
        if self.target.variable_index >= n {
            return false;
        }
        let mut k: usize = 0;
        while k < self.transitions.len()
            invariant
                k <= self.transitions.len(),
                n == self@.dimension(),
                self@.well_formed(),
                forall|a: int, i: int|
                    0 <= a < k && 0 <= i < n ==> #[trigger] self@.transitions[a].update[i]
                        > i128::MIN,
            decreases self.transitions.len() - k,
        {
            let t = &self.transitions[k];
            assert(self@.transitions[k as int] == t@);
            assert(self@.transitions[k as int].has_dimension(n as nat));
            let mut i: usize = 0;
            while i < n
                invariant
                    i <= n,
                    k < self.transitions.len(),
                    n == self@.dimension(),
                    t@ == self@.transitions[k as int],
                    t.update_vector.len() == n,
                    forall|j: int| 0 <= j < i ==> t.update_vector[j] > i128::MIN,
                decreases n - i,
            {
                if t.update_vector[i] == i128::MIN {
                    assert(!(self@.transitions[k as int].update[i as int] > i128::MIN));
                    return false;
                }
                i += 1;
            }
            k += 1;
        }
        true
    }
}

impl BMCEncoding {
    /// What firing `t` requires and does, over all `n` variables.
    fn step_formula(t: &VasTransition, n: usize) -> (r: Formula)
        requires
            t@.has_dimension(n as nat),
            forall|i: int| 0 <= i < n ==> t@.update[i] > i128::MIN,
        ensures
            r == step_formula_of(t@, n as nat),
    {
        let mut acc = Formula::True;
        let mut i: usize = 0;
        while i < n
            invariant
                i <= n,
                t@.has_dimension(n as nat),
                forall|j: int| 0 <= j < n ==> t@.update[j] > i128::MIN,
                acc == step_formula_of(t@, i as nat),
            decreases n - i,
        {
            let u = t.update_vector[i];
            let b = t.enabled_bounds[i];
            if u == 0 && b == 0 {
                acc = Formula::and(acc, Formula::Eq(Term::Next(i), Term::Current(i)));
            } else {
                if b > 0 {
                    acc = Formula::and(acc, Formula::Uge(Term::Current(i), Term::Const(b)));
                }
                let change = if u > 0 {
                    Formula::Eq(
                        Term::Next(i),
                        Term::Add(Box::new(Term::Current(i)), Box::new(Term::Const(u))),
                    )
                } else {
                    Formula::Eq(
                        Term::Next(i),
                        Term::Sub(Box::new(Term::Current(i)), Box::new(Term::Const(-u))),
                    )
                };
                acc = Formula::and(acc, change);
            }
            i += 1;
        }
        acc
    }

    /// Encodes `model`.
    ///
    /// The initial formula gives each variable its value in the first
    /// initial state; the target formula gives the target variable the
    /// target value; the transition formula is the disjunction of the
    /// step formulas of all transitions, in model order.
    pub fn from_vas(model: &AbstractVas) -> (r: Self)
        requires
            encodable(model@),
        ensures
            r == encoding_of(model@),
    {
        let n = model.variable_names.len();
        let init = &model.initial_states[0].vector;
        assert(model@.initial[0] == init@);
        let mut init_formula = Formula::True;
        let mut i: usize = 0;
        while i < n
            invariant
                i <= n,
                init.len() == n,
                init_formula == init_formula_of(init@, i as nat),
            decreases n - i,
        {
            init_formula =
            Formula::and(init_formula, Formula::Eq(Term::Current(i), Term::Const(init[i])));
            i += 1;
        }
        let target_formula = Formula::Eq(
            Term::Current(model.target.variable_index),
            Term::Const(model.target.target_value),
        );
        let mut transition_formula = Formula::False;
        let mut k: usize = 0;
        while k < model.transitions.len()
            invariant
                k <= model.transitions.len(),
                n == model@.dimension(),
                encodable(model@),
                transition_formula == transition_formula_of(
                    model@.transitions,
                    n as nat,
                    k as nat,
                ),
            decreases model.transitions.len() - k,
        {
            let t = &model.transitions[k];
            assert(model@.transitions[k as int] == t@);
            assert(t@.has_dimension(n as nat));
            transition_formula = Formula::or(transition_formula, Self::step_formula(t, n));
            k += 1;
        }
        BMCEncoding { init_formula, target_formula, transition_formula, unroller: Unroller::new(n) }
    }
}

} // verus!
