//! What is checked of a model before the analyses run: the names of its
//! variables, the target against the initial state, and the size of the
//! updates.

use crate::model::vas_model::{
    name_specs, transition_specs, AbstractVas, ModelSpec, TransitionSpec, VasProperty,
    VasTransition,
};
use crate::model::vector::{fits, VasValue};
use vstd::prelude::*;

verus! {

/// The largest total change of a transition that passes.
pub const MAX_TOTAL_CHANGE: VasValue = 3;

/// The largest change of one variable that passes.
pub const MAX_SINGLE_CHANGE: VasValue = 2;

/// What the checks found.
#[derive(Clone, Debug, PartialEq, Eq)]
pub struct ValidationReport {
    /// The variables without a name.
    pub unnamed: Vec<usize>,
    /// The variables whose name a variable before them has too.
    pub repeated: Vec<usize>,
    /// Whether the first initial state satisfies the target.
    pub initially_satisfied: bool,
    /// The transitions whose updates add up to more than the limit, in
    /// either direction.
    pub large_total: Vec<usize>,
    /// The transitions that raise some variable by more than the limit.
    pub large_single: Vec<usize>,
}

/// The positions below `upto` at which `keep` holds, in rising order.
pub open spec fn positions_where(keep: spec_fn(int) -> bool, upto: nat) -> Seq<usize>
    decreases upto,
{
    if upto == 0 {
        Seq::empty()
    } else {
        let before = positions_where(keep, (upto - 1) as nat);
        if keep(upto - 1) {
            before.push((upto - 1) as usize)
        } else {
            before
        }
    }
}

/// Whether the name at `i` is empty.
pub open spec fn is_unnamed(names: Seq<Seq<char>>, i: int) -> bool {
    names[i].len() == 0
}

/// Whether a name before `i` is the name at `i`.
pub open spec fn is_repeated(names: Seq<Seq<char>>, i: int) -> bool {
    exists|j: int| 0 <= j < i && #[trigger] names[j] == names[i]
}

/// What the first `upto` components of `v` add up to.
pub open spec fn sum_of(v: Seq<VasValue>, upto: nat) -> int
    decreases upto,
{
    if upto == 0 {
        0
    } else {
        sum_of(v, (upto - 1) as nat) + v[upto - 1]
    }
}

/// Whether the updates of `t` exceed the limit on the total change: they
/// add up to more than the limit in either direction, or adding them up
/// one by one leaves the range of `VasValue`.
pub open spec fn has_large_total(t: TransitionSpec) -> bool {
    ||| exists|m: nat| m <= t.update.len() && !fits(#[trigger] sum_of(t.update, m))
    ||| sum_of(t.update, t.update.len()) > MAX_TOTAL_CHANGE
    ||| sum_of(t.update, t.update.len()) < -MAX_TOTAL_CHANGE
}

/// Whether `t` raises some variable by more than the limit.
pub open spec fn has_large_single(t: TransitionSpec) -> bool {
    exists|i: int| 0 <= i < t.update.len() && #[trigger] t.update[i] > MAX_SINGLE_CHANGE
}

/// The variables without a name, in model order.
pub fn unnamed_variables(names: &Vec<String>) -> (r: Vec<usize>)
    ensures
        r@ == positions_where(
            |i: int| is_unnamed(Seq::new(names.len() as nat, |k: int| names[k]@), i),
            names.len() as nat,
        ),
{
    let ghost views = Seq::new(names.len() as nat, |k: int| names[k]@);
    let ghost keep = |i: int| is_unnamed(views, i);
    let mut out: Vec<usize> = Vec::new();
    let mut i: usize = 0;
    while i < names.len()
        invariant
            i <= names.len(),
            views == Seq::new(names.len() as nat, |k: int| names[k]@),
            keep == |i: int| is_unnamed(views, i),
            out@ == positions_where(keep, i as nat),
        decreases names.len() - i,
    {
        let empty = names[i].as_str().unicode_len() == 0;
        assert(empty == is_unnamed(views, i as int));
        assert(keep(i as int) == is_unnamed(views, i as int));
        if empty {
            out.push(i);
        }
        i += 1;
    }
    out
}

/// The variables whose name a variable before them has too, in model
/// order.
pub fn repeated_variables(names: &Vec<String>) -> (r: Vec<usize>)
    ensures
        r@ == positions_where(
            |i: int| is_repeated(Seq::new(names.len() as nat, |k: int| names[k]@), i),
            names.len() as nat,
        ),
{
    let ghost views = Seq::new(names.len() as nat, |k: int| names[k]@);
    let ghost keep = |i: int| is_repeated(views, i);
    let mut out: Vec<usize> = Vec::new();
    let mut i: usize = 0;
    while i < names.len()
        invariant
            i <= names.len(),
            views == Seq::new(names.len() as nat, |k: int| names[k]@),
            keep == |i: int| is_repeated(views, i),
            out@ == positions_where(keep, i as nat),
        decreases names.len() - i,
    {
        let mut found = false;
        let mut j: usize = 0;
        while j < i && !found
            invariant
                j <= i,
                i < names.len(),
                views == Seq::new(names.len() as nat, |k: int| names[k]@),
                found ==> is_repeated(views, i as int),
                !found ==> forall|k: int| 0 <= k < j ==> #[trigger] views[k] != views[i as int],
            decreases i - j + (if found { 0int } else { 1int }),
        {
            if names[j] == names[i] {
                assert(views[j as int] == views[i as int]);
                found = true;
            } else {
                j += 1;
            }
        }
        assert(found == is_repeated(views, i as int));
        assert(keep(i as int) == is_repeated(views, i as int));
        if found {
            out.push(i);
        }
        i += 1;
    }
    out
}

/// Checks the names of the variables: the first list holds the variables
/// without a name, the second the variables whose name a variable before
/// them has too, both in model order.
pub fn check_variable_names(variable_names: &Vec<String>) -> (r: (Vec<usize>, Vec<usize>))
    ensures
        r.0@ == positions_where(
            |i: int| is_unnamed(name_specs(variable_names@), i),
            variable_names.len() as nat,
        ),
        r.1@ == positions_where(
            |i: int| is_repeated(name_specs(variable_names@), i),
            variable_names.len() as nat,
        ),
{
    proof {
        let views = Seq::new(variable_names.len() as nat, |k: int| variable_names[k]@);
        assert(views =~= name_specs(variable_names@));
    }
    (unnamed_variables(variable_names), repeated_variables(variable_names))
}

/// Whether `initial_state` leaves something to do: it does not have the
/// property's variable at the property's value.
pub fn initial_state_neq_target(initial_state: &Vec<VasValue>, property: &VasProperty) -> (r: bool)
    ensures
        r == !property.holds_at(initial_state@),
{
    !property.satisfied_by(initial_state)
}

/// Whether the updates of `t` exceed the limit on the total change.
fn large_total(update: &Vec<VasValue>) -> (r: bool)
    ensures
        r == ({
            ||| exists|m: nat| m <= update.len() && !fits(#[trigger] sum_of(update@, m))
            ||| sum_of(update@, update@.len()) > MAX_TOTAL_CHANGE
            ||| sum_of(update@, update@.len()) < -MAX_TOTAL_CHANGE
        }),
{
    let mut total: VasValue = 0;
    let mut i: usize = 0;
    while i < update.len()
        invariant
            i <= update.len(),
            total == sum_of(update@, i as nat),
            forall|m: nat| m <= i ==> fits(#[trigger] sum_of(update@, m)),
        decreases update.len() - i,
    {
        total = match total.checked_add(update[i]) {
            Some(t) => t,
            None => {
                assert(!fits(sum_of(update@, (i + 1) as nat)));
                return true;
            },
        };
        i += 1;
    }
    total > MAX_TOTAL_CHANGE || total < -MAX_TOTAL_CHANGE
}

/// Whether `update` raises some variable by more than the limit.
fn large_single(update: &Vec<VasValue>) -> (r: bool)
    ensures
        r == exists|i: int| 0 <= i < update.len() && #[trigger] update[i] > MAX_SINGLE_CHANGE,
{
    let mut i: usize = 0;
    while i < update.len()
        invariant
            i <= update.len(),
            forall|j: int| 0 <= j < i ==> update[j] <= MAX_SINGLE_CHANGE,
        decreases update.len() - i,
    {
        if update[i] > MAX_SINGLE_CHANGE {
            return true;
        }
        i += 1;
    }
    false
}

/// Checks the size of the updates: the first list holds the transitions
/// whose updates add up to more than the limit, in either direction, the
/// second the transitions that raise some variable by more than the
/// limit, both in model order.
pub fn check_sck_assumption(transitions: &Vec<VasTransition>) -> (r: (Vec<usize>, Vec<usize>))
    ensures
        r.0@ == positions_where(
            |k: int| has_large_total(transition_specs(transitions@)[k]),
            transitions.len() as nat,
        ),
        r.1@ == positions_where(
            |k: int| has_large_single(transition_specs(transitions@)[k]),
            transitions.len() as nat,
        ),
{
    let ghost ts = transition_specs(transitions@);
    let ghost keep_total = |k: int| has_large_total(ts[k]);
    let ghost keep_single = |k: int| has_large_single(ts[k]);
    let mut total: Vec<usize> = Vec::new();
    let mut single: Vec<usize> = Vec::new();
    let mut k: usize = 0;
    while k < transitions.len()
        invariant
            k <= transitions.len(),
            ts == transition_specs(transitions@),
            keep_total == |k: int| has_large_total(ts[k]),
            keep_single == |k: int| has_large_single(ts[k]),
            total@ == positions_where(keep_total, k as nat),
            single@ == positions_where(keep_single, k as nat),
        decreases transitions.len() - k,
    {
        let t = &transitions[k];
        assert(t@ == ts[k as int]);
        let big_total = large_total(&t.update_vector);
        let big_single = large_single(&t.update_vector);
        assert(keep_total(k as int) == big_total);
        assert(keep_single(k as int) == big_single);
        if big_total {
            total.push(k);
        }
        if big_single {
            single.push(k);
        }
        k += 1;
    }
    (total, single)
}

/// Whether `report` is what the checks find for `model` and `property`:
/// the variables without a name, the variables whose name occurred
/// before, whether the first initial state has the property's variable at
/// the property's value, and the transitions whose updates are larger
/// than the limits, all in model order.
pub open spec fn reported(model: ModelSpec, property: VasProperty, report: ValidationReport) -> bool {
    &&& report.unnamed@ == positions_where(|i: int| is_unnamed(model.names, i), model.names.len())
    &&& report.repeated@ == positions_where(
        |i: int| is_repeated(model.names, i),
        model.names.len(),
    )
    &&& report.initially_satisfied == (model.initial.len() > 0 && property.holds_at(
        model.initial[0],
    ))
    &&& report.large_total@ == positions_where(
        |k: int| has_large_total(model.transitions[k]),
        model.transitions.len(),
    )
    &&& report.large_single@ == positions_where(
        |k: int| has_large_single(model.transitions[k]),
        model.transitions.len(),
    )
}

/// Checks `model` against `property`.
pub fn validate_vas(model: &AbstractVas, property: &VasProperty) -> (r: ValidationReport)
    ensures
        reported(model@, *property, r),
{
    let (unnamed, repeated) = check_variable_names(&model.variable_names);
    let initially_satisfied = if model.initial_states.len() > 0 {
        assert(model@.initial[0] == model.initial_states[0]@);
        !initial_state_neq_target(&model.initial_states[0].vector, property)
    } else {
        false
    };
    let (large_total, large_single) = check_sck_assumption(&model.transitions);
    ValidationReport { unnamed, repeated, initially_satisfied, large_total, large_single }
}

/// Checks `property` by itself. Nothing is asked of a property alone, so
/// every property passes.
pub fn validate_vas_property(property: VasProperty) -> (r: Result<String, String>)
    ensures
        r matches Ok(text) && text@ == "Property validation successful"@,
{
    Ok("Property validation successful".to_owned())
}

impl AbstractVas {
    /// Checks the model against `property`.
    pub fn validate_model(&self, property: VasProperty) -> (r: ValidationReport)
        ensures
            reported(self@, property, r),
    {
        validate_vas(self, &property)
    }
}

} // verus!
