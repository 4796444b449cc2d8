//! The abstract model: variables, an initial valuation, transitions, and one
//! reachability target.

use crate::model::vector::{
    as_ints, checked_combine, combine, combine_fits, copy_of, fits, meets, meets_bounds, VasValue,
};
use vstd::prelude::*;

verus! {

/// Whether transitions fire at exponentially distributed times or in
/// discrete steps.
#[derive(Clone, Copy, Debug, PartialEq, Eq, Structural)]
pub enum ModelType {
    ContinuousTime,
    DiscreteTime,
}

/// The relations a property may use between a variable and a value.
#[derive(Clone, Copy, Debug, PartialEq, Eq, Structural)]
pub enum AllowedRelation {
    Equal,
    LessThan,
    GreaterThan,
}

impl AllowedRelation {
    /// The character that stands for the relation in a property.
    pub open spec fn symbol_spec(self) -> char {
        match self {
            AllowedRelation::Equal => '=',
            AllowedRelation::LessThan => '<',
            AllowedRelation::GreaterThan => '>',
        }
    }

    /// The character that stands for the relation in a property.
    pub fn symbol(&self) -> (c: char)
        ensures
            c == self.symbol_spec(),
    {
        match self {
            AllowedRelation::Equal => '=',
            AllowedRelation::LessThan => '<',
            AllowedRelation::GreaterThan => '>',
        }
    }
}

/// The target of the analysis: the variable at `variable_index` holds
/// `target_value`.
#[derive(Clone, Copy, Debug, PartialEq, Eq, Structural)]
pub struct VasProperty {
    pub variable_index: usize,
    pub target_value: VasValue,
}

impl VasProperty {
    /// Whether `state` has the target variable at the target value.
    pub open spec fn holds_at(self, state: Seq<VasValue>) -> bool {
        self.variable_index < state.len() && state[self.variable_index as int]
            == self.target_value
    }

    /// Whether `state` has the target variable at the target value.
    pub fn satisfied_by(&self, state: &Vec<VasValue>) -> (r: bool)
        ensures
            r == self.holds_at(state@),
    {
        self.variable_index < state.len() && state[self.variable_index] == self.target_value
    }
}

/// A valuation of all variables.
#[derive(Clone, Debug, PartialEq, Eq)]
pub struct VasState {
    pub vector: Vec<VasValue>,
}

impl View for VasState {
    type V = Seq<VasValue>;

    open spec fn view(&self) -> Seq<VasValue> {
        self.vector@
    }
}

impl VasState {
    /// The state with the valuation `vector`.
    pub fn new(vector: Vec<VasValue>) -> (r: Self)
        ensures
            r@ == vector@,
    {
        VasState { vector }
    }

    /// A state with the same valuation.
    pub fn duplicate(&self) -> (r: Self)
        ensures
            r@ == self@,
    {
        VasState { vector: copy_of(&self.vector) }
    }
}

/// What a transition is, apart from how it is stored.
pub struct TransitionSpec {
    pub id: usize,
    pub name: Seq<char>,
    pub update: Seq<VasValue>,
    pub bounds: Seq<VasValue>,
    pub rate_bits: u64,
}

impl TransitionSpec {
    /// Whether the transition may fire at `state`: every component is at
    /// least the transition's minimum for it.
    pub open spec fn enabled_at(self, state: Seq<VasValue>) -> bool {
        meets_bounds(self.bounds, state)
    }

    /// Whether the transition changes or inspects the variable at `i`.
    pub open spec fn touches(self, i: int) -> bool {
        self.update[i] != 0 || self.bounds[i] != 0
    }

    /// Whether both vectors have one entry per variable.
    pub open spec fn has_dimension(self, n: nat) -> bool {
        self.update.len() == n && self.bounds.len() == n
    }
}

/// Whether `t` may fire at the state `s`, read over the integers.
pub open spec fn enabled_in(t: TransitionSpec, s: Seq<int>) -> bool {
    forall|i: int| 0 <= i < t.bounds.len() && i < s.len() ==> s[i] >= t.bounds[i]
}

/// The state that firing `t` once at `s` leaves.
pub open spec fn fired(t: TransitionSpec, s: Seq<int>) -> Seq<int> {
    Seq::new(s.len(), |i: int| s[i] + t.update[i])
}

/// Whether the transitions of `ts` at the positions `path` can fire one
/// after the other, starting at `s`.
pub open spec fn fireable(ts: Seq<TransitionSpec>, s: Seq<int>, path: Seq<int>) -> bool
    decreases path.len(),
{
    if path.len() == 0 {
        true
    } else {
        &&& 0 <= path[0] < ts.len()
        &&& enabled_in(ts[path[0]], s)
        &&& fireable(ts, fired(ts[path[0]], s), path.drop_first())
    }
}

/// The state that firing along `path` from `s` ends in.
pub open spec fn end_of(ts: Seq<TransitionSpec>, s: Seq<int>, path: Seq<int>) -> Seq<int>
    decreases path.len(),
{
    if path.len() == 0 {
        s
    } else {
        end_of(ts, fired(ts[path[0]], s), path.drop_first())
    }
}

/// The vector `v` after firing `t` once, when that is representable.
pub open spec fn stepped(v: Seq<VasValue>, t: TransitionSpec) -> Seq<VasValue> {
    Seq::new(v.len(), |i: int| (v[i] + t.update[i]) as VasValue)
}

/// Whether firing `t` at `v` stays within `VasValue`.
pub open spec fn step_fits(v: Seq<VasValue>, t: TransitionSpec) -> bool {
    combine_fits(v, t.update, 1)
}

/// A transition of the model.
///
/// `rate_const_bits` is the rate constant as the bit pattern of a
/// double-precision number. The analyses here carry it along and never
/// look inside.
#[derive(Clone, Debug, PartialEq, Eq)]
pub struct VasTransition {
    pub transition_id: usize,
    pub transition_name: String,
    pub update_vector: Vec<VasValue>,
    pub enabled_bounds: Vec<VasValue>,
    pub rate_const_bits: u64,
}

impl View for VasTransition {
    type V = TransitionSpec;

    open spec fn view(&self) -> TransitionSpec {
        TransitionSpec {
            id: self.transition_id,
            name: self.transition_name@,
            update: self.update_vector@,
            bounds: self.enabled_bounds@,
            rate_bits: self.rate_const_bits,
        }
    }
}

impl VasTransition {
    /// Builds a transition from what it produces and what it consumes per
    /// firing. The update is `increment - decrement`; the transition needs
    /// at least `decrement` of each variable to fire.
    pub fn new(
        transition_id: usize,
        transition_name: String,
        increment: Vec<VasValue>,
        decrement: Vec<VasValue>,
        rate_const_bits: u64,
    ) -> (r: Self)
        requires
            increment.len() <= decrement.len(),
            forall|i: int| 0 <= i < increment.len() ==> fits(increment[i] - decrement[i]),
        ensures
            r@.id == transition_id,
            r@.name == transition_name@,
            r@.rate_bits == rate_const_bits,
            r@.bounds == decrement@,
            r@.update.len() == increment.len(),
            forall|i: int| 0 <= i < increment.len() ==> r@.update[i] == increment[i] - decrement[i],
    {
        let mut update: Vec<VasValue> = Vec::new();
        let mut i: usize = 0;
        while i < increment.len()
            invariant
                i <= increment.len(),
                increment.len() <= decrement.len(),
                update.len() == i,
                forall|j: int| 0 <= j < increment.len() ==> fits(increment[j] - decrement[j]),
                forall|j: int| 0 <= j < i ==> update[j] == increment[j] - decrement[j],
            decreases increment.len() - i,
        {
            assert(fits(increment[i as int] - decrement[i as int]));
            update.push(increment[i] - decrement[i]);
            i += 1;
        }
        VasTransition {
            transition_id,
            transition_name,
            update_vector: update,
            enabled_bounds: decrement,
            rate_const_bits,
        }
    }

    /// Whether the transition may fire at `state`.
    pub fn enabled_vector(&self, state: &Vec<VasValue>) -> (r: bool)
        ensures
            r == self@.enabled_at(state@),
    {
        meets(&self.enabled_bounds, state)
    }

    /// Whether the transition may fire at `state`.
    pub fn enabled(&self, state: &VasState) -> (r: bool)
        ensures
            r == self@.enabled_at(state@),
    {
        meets(&self.enabled_bounds, &state.vector)
    }

    /// The state that firing the transition at `state` leaves, or `None`
    /// when the transition may not fire there or a value of the next
    /// state is not representable.
    pub fn next_state(&self, state: &VasState) -> (r: Option<VasState>)
        requires
            state@.len() == self@.update.len(),
        ensures
            r is Some <==> self@.enabled_at(state@) && step_fits(state@, self@),
            r matches Some(next) ==> next@ == stepped(state@, self@),
    {
        if !self.enabled(state) {
            return None;
        }
        match checked_combine(&state.vector, &self.update_vector, 1) {
            Some(vector) => {
                proof {
                    assert(vector@.len() == as_ints(vector@).len());
                    assert forall|i: int| 0 <= i < vector@.len() implies vector@[i] == stepped(
                        state@,
                        self@,
                    )[i] by {
                        assert(as_ints(vector@)[i] == combine(state@, self@.update, 1)[i]);
                    }
                    assert(vector@ =~= stepped(state@, self@));
                }
                Some(VasState { vector })
            },
            None => None,
        }
    }

    /// A transition with the same contents.
    pub fn duplicate(&self) -> (r: Self)
        ensures
            r@ == self@,
    {
        VasTransition {
            transition_id: self.transition_id,
            transition_name: self.transition_name.clone(),
            update_vector: copy_of(&self.update_vector),
            enabled_bounds: copy_of(&self.enabled_bounds),
            rate_const_bits: self.rate_const_bits,
        }
    }
}

/// The transitions of `s`, each read by its view.
pub open spec fn transition_specs(s: Seq<VasTransition>) -> Seq<TransitionSpec> {
    Seq::new(s.len(), |i: int| s[i]@)
}

/// Position of the first transition in `ts` with the id `id`, or the length
/// of `ts` when there is none.
pub open spec fn position_of_id(ts: Seq<TransitionSpec>, id: usize) -> int
    decreases ts.len(),
{
    if ts.len() == 0 {
        0
    } else if ts[0].id == id {
        0
    } else {
        1 + position_of_id(ts.drop_first(), id)
    }
}

/// `position_of_id` gives a place within `ts` that has the id and follows
/// only transitions with other ids, or the length of `ts` when no
/// transition has the id.
pub proof fn lemma_position_of_id(ts: Seq<TransitionSpec>, id: usize)
    ensures
        0 <= position_of_id(ts, id) <= ts.len(),
        position_of_id(ts, id) < ts.len() ==> ts[position_of_id(ts, id)].id == id,
        forall|j: int| 0 <= j < position_of_id(ts, id) ==> (#[trigger] ts[j]).id != id,
    decreases ts.len(),
{
    if ts.len() > 0 && ts[0].id != id {
        lemma_position_of_id(ts.drop_first(), id);
        assert forall|j: int| 0 <= j < position_of_id(ts, id) implies (#[trigger] ts[j]).id
            != id by {
            if j > 0 {
                assert(ts.drop_first()[j - 1] == ts[j]);
            }
        }
    }
}

/// Position of the first transition in `ts` with the name `name`, or the
/// length of `ts` when there is none.
pub open spec fn position_of_name(ts: Seq<TransitionSpec>, name: Seq<char>) -> int
    decreases ts.len(),
{
    if ts.len() == 0 {
        0
    } else if ts[0].name == name {
        0
    } else {
        1 + position_of_name(ts.drop_first(), name)
    }
}

/// The valuations of `s`.
pub open spec fn state_specs(s: Seq<VasState>) -> Seq<Seq<VasValue>> {
    Seq::new(s.len(), |i: int| s[i]@)
}

/// The character sequences of `s`.
pub open spec fn name_specs(s: Seq<String>) -> Seq<Seq<char>> {
    Seq::new(s.len(), |i: int| s[i]@)
}

/// What a model is, apart from how it is stored.
pub struct ModelSpec {
    pub names: Seq<Seq<char>>,
    pub initial: Seq<Seq<VasValue>>,
    pub transitions: Seq<TransitionSpec>,
    pub m_type: ModelType,
    pub target: VasProperty,
}

impl ModelSpec {
    /// The number of variables.
    pub open spec fn dimension(self) -> nat {
        self.names.len()
    }

    /// There is an initial state, and every vector of the model has one
    /// entry per variable.
    pub open spec fn well_formed(self) -> bool {
        &&& self.initial.len() >= 1
        &&& forall|i: int|
            0 <= i < self.initial.len() ==> (#[trigger] self.initial[i]).len() == self.dimension()
        &&& forall|i: int|
            0 <= i < self.transitions.len() ==> (#[trigger] self.transitions[i]).has_dimension(
                self.dimension(),
            )
    }
}

/// A vector addition system with one reachability target.
#[derive(Clone, Debug, PartialEq, Eq)]
pub struct AbstractVas {
    pub variable_names: Vec<String>,
    pub initial_states: Vec<VasState>,
    pub transitions: Vec<VasTransition>,
    pub m_type: ModelType,
    pub target: VasProperty,
}

impl View for AbstractVas {
    type V = ModelSpec;

    open spec fn view(&self) -> ModelSpec {
        ModelSpec {
            names: name_specs(self.variable_names@),
            initial: state_specs(self.initial_states@),
            transitions: transition_specs(self.transitions@),
            m_type: self.m_type,
            target: self.target,
        }
    }
}

impl AbstractVas {
    /// A continuous-time model of the given parts.
    pub fn new(
        variable_names: Vec<String>,
        initial_states: Vec<VasState>,
        transitions: Vec<VasTransition>,
        target: VasProperty,
    ) -> (r: Self)
        ensures
            r@.names == name_specs(variable_names@),
            r@.initial == state_specs(initial_states@),
            r@.transitions == transition_specs(transitions@),
            r@.m_type == ModelType::ContinuousTime,
            r@.target == target,
    {
        AbstractVas {
            variable_names,
            initial_states,
            transitions,
            m_type: ModelType::ContinuousTime,
            target,
        }
    }

    /// The transitions of the model, in model order.
    pub fn transitions(&self) -> (r: Vec<VasTransition>)
        ensures
            transition_specs(r@) == self@.transitions,
    {
        let mut out: Vec<VasTransition> = Vec::new();
        let mut i: usize = 0;
        while i < self.transitions.len()
            invariant
                i <= self.transitions.len(),
                out.len() == i,
                forall|j: int| 0 <= j < i ==> out[j]@ == self.transitions[j]@,
            decreases self.transitions.len() - i,
        {
            out.push(self.transitions[i].duplicate());
            i += 1;
        }
        proof {
            assert(transition_specs(out@) =~= self@.transitions);
        }
        out
    }

    /// The initial states of the model, each with its position.
    pub fn initial_states(&self) -> (r: Vec<(VasState, usize)>)
        ensures
            r.len() == self@.initial.len(),
            forall|i: int|
                0 <= i < r.len() ==> (#[trigger] r[i]).0@ == self@.initial[i] && r[i].1 == i,
    {
        let mut out: Vec<(VasState, usize)> = Vec::new();
        let mut i: usize = 0;
        while i < self.initial_states.len()
            invariant
                i <= self.initial_states.len(),
                out.len() == i,
                forall|j: int|
                    0 <= j < i ==> (#[trigger] out[j]).0@ == self.initial_states[j]@ && out[j].1
                        == j,
            decreases self.initial_states.len() - i,
        {
            out.push((self.initial_states[i].duplicate(), i));
            i += 1;
        }
        out
    }

    /// Whether the model runs in continuous or in discrete time.
    pub fn model_type(&self) -> (r: ModelType)
        ensures
            r == self@.m_type,
    {
        self.m_type
    }

    /// Whether the model has an initial state and every vector in it has
    /// one entry per variable.
    pub fn is_well_formed(&self) -> (r: bool)
        ensures
            r == self@.well_formed(),
    {
        let n = self.variable_names.len();
        if self.initial_states.len() < 1 {
            return false;
        }
        let mut i: usize = 0;
        while i < self.initial_states.len()
            invariant
                i <= self.initial_states.len(),
                n == self@.dimension(),
                forall|j: int| 0 <= j < i ==> (#[trigger] self@.initial[j]).len() == n,
            decreases self.initial_states.len() - i,
        {
            if self.initial_states[i].vector.len() != n {
                assert(self@.initial[i as int].len() != n);
                return false;
            }
            i += 1;
        }
        let mut k: usize = 0;
        while k < self.transitions.len()
            invariant
                k <= self.transitions.len(),
                n == self@.dimension(),
                forall|j: int| 0 <= j < k ==> (#[trigger] self@.transitions[j]).has_dimension(n as nat),
            decreases self.transitions.len() - k,
        {
            let t = &self.transitions[k];
            if t.update_vector.len() != n || t.enabled_bounds.len() != n {
                assert(!self@.transitions[k as int].has_dimension(n as nat));
                return false;
            }
            k += 1;
        }
        true
    }

    /// The first transition called `transition_name`, if there is one.
    pub fn get_transition_from_name(&self, transition_name: &str) -> (r: Option<&VasTransition>)
        ensures
            match r {
                Some(t) => exists|i: int|
                    0 <= i < self.transitions.len() && *t == self.transitions[i]
                        && #[trigger] self@.transitions[i].name == transition_name@
                        && forall|j: int|
                        0 <= j < i ==> (#[trigger] self@.transitions[j]).name != transition_name@,
                None => forall|j: int|
                    0 <= j < self.transitions.len() ==> (#[trigger] self@.transitions[j]).name
                        != transition_name@,
            },
    {
        let mut i: usize = 0;
        while i < self.transitions.len()
            invariant
                i <= self.transitions.len(),
                forall|j: int|
                    0 <= j < i ==> (#[trigger] self@.transitions[j]).name != transition_name@,
            decreases self.transitions.len() - i,
        {
            if same_text(self.transitions[i].transition_name.as_str(), transition_name) {
                assert(self@.transitions[i as int].name == transition_name@);
                return Some(&self.transitions[i]);
            }
            assert(self@.transitions[i as int].name != transition_name@);
            i += 1;
        }
        None
    }

    /// Position of the first transition with id `transition_id`, or the
    /// number of transitions when there is none.
    pub fn find_transition(&self, transition_id: usize) -> (r: usize)
        ensures
            r == position_of_id(self@.transitions, transition_id),
            r <= self.transitions.len(),
    {
        let ghost ts = self@.transitions;
        let mut i: usize = 0;
        proof {
            assert(ts.skip(0) =~= ts);
        }
        while i < self.transitions.len()
            invariant
                i <= self.transitions.len(),
                ts == self@.transitions,
                position_of_id(ts, transition_id) == i + position_of_id(
                    ts.skip(i as int),
                    transition_id,
                ),
            decreases self.transitions.len() - i,
        {
            assert(ts.skip(i as int)[0] == self.transitions[i as int]@);
            if self.transitions[i].transition_id == transition_id {
                return i;
            }
            proof {
                assert(ts.skip(i as int).drop_first() =~= ts.skip(i + 1));
            }
            i += 1;
        }
        i
    }

    /// Position of the first transition called `transition_name`, or the
    /// number of transitions when there is none.
    pub fn find_transition_by_name(&self, transition_name: &str) -> (r: usize)
        ensures
            r == position_of_name(self@.transitions, transition_name@),
            r <= self.transitions.len(),
    {
        let ghost ts = self@.transitions;
        let mut i: usize = 0;
        proof {
            assert(ts.skip(0) =~= ts);
        }
        while i < self.transitions.len()
            invariant
                i <= self.transitions.len(),
                ts == self@.transitions,
                position_of_name(ts, transition_name@) == i + position_of_name(
                    ts.skip(i as int),
                    transition_name@,
                ),
            decreases self.transitions.len() - i,
        {
            assert(ts.skip(i as int)[0] == self.transitions[i as int]@);
            if same_text(self.transitions[i].transition_name.as_str(), transition_name) {
                return i;
            }
            proof {
                assert(ts.skip(i as int).drop_first() =~= ts.skip(i + 1));
            }
            i += 1;
        }
        i
    }

    /// The first transition with id `transition_id`, if there is one.
    pub fn get_transition_from_id(&self, transition_id: usize) -> (r: Option<&VasTransition>)
        ensures
            match r {
                Some(t) => exists|i: int|
                    0 <= i < self.transitions.len() && *t == self.transitions[i]
                        && #[trigger] self@.transitions[i].id == transition_id && forall|j: int|
                        0 <= j < i ==> (#[trigger] self@.transitions[j]).id != transition_id,
                None => forall|j: int|
                    0 <= j < self.transitions.len() ==> (#[trigger] self@.transitions[j]).id
                        != transition_id,
            },
    {
        let mut i: usize = 0;
        while i < self.transitions.len()
            invariant
                i <= self.transitions.len(),
                forall|j: int| 0 <= j < i ==> (#[trigger] self@.transitions[j]).id != transition_id,
            decreases self.transitions.len() - i,
        {
            if self.transitions[i].transition_id == transition_id {
                assert(self@.transitions[i as int].id == transition_id);
                return Some(&self.transitions[i]);
            }
            assert(self@.transitions[i as int].id != transition_id);
            i += 1;
        }
        None
    }
}

/// Whether two strings hold the same characters.
pub fn same_text(a: &str, b: &str) -> (r: bool)
    ensures
        r == (a@ == b@),
{
    let x = a.to_owned();
    let y = b.to_owned();
    x == y
}

} // verus!
