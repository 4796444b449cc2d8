//! Seeding of a state space from traces: sequences of transition ids that
//! fire one after the other from the initial state.

use crate::model::explicit_model::{
    GraphSpec, PrismVasModel, PrismVasTransition, NO_TRANSITION, SINK_ID,
};
use crate::model::vas_model::{
    position_of_id, step_fits, stepped, AbstractVas, TransitionSpec, VasProperty,
};
use crate::model::vector::{as_ints, checked_combine, combine, copy_of, VasValue};
use vstd::prelude::*;

verus! {

/// No trace is followed for more steps than this.
pub const MAX_TRACE_LENGTH: usize = 10000;

/// Why a trace was not stored to its end.
#[derive(Clone, Copy, Debug, PartialEq, Eq, Structural)]
pub enum TraceError {
    /// The trace names a transition id that the model does not have.
    UnknownTransition,
    /// A value left the range of `VasValue`.
    Overflow,
    /// A step leads to a state with a negative value.
    NegativeState,
}

/// The label of a state that a walk adds: "target" where the target holds,
/// and none elsewhere.
pub open spec fn target_label(target: VasProperty, v: Seq<VasValue>) -> Option<Seq<char>> {
    if target.holds_at(v) {
        Some("target"@)
    } else {
        None
    }
}

/// The state space and the outcome after the walk along `trace` from
/// position `at` on, standing at the state `cur` with the vector `v`.
///
/// Each step fires the first transition of the model that has the id
/// named at that position, adds the state that it leads to, unless there
/// is one, and the edge to it, unless there is one. A state that is added
/// is labelled as `target_label` says. The walk stops at an
/// id that the model does not have, at a step that leaves the range of
/// `VasValue`, and, where `nonnegative` is set, at a step that leads to a
/// negative value.
pub open spec fn walked(
    g: GraphSpec,
    ts: Seq<TransitionSpec>,
    target: VasProperty,
    v: Seq<VasValue>,
    cur: usize,
    trace: Seq<usize>,
    at: nat,
    nonnegative: bool,
) -> (GraphSpec, Option<TraceError>)
    decreases trace.len() - at,
{
    if at >= trace.len() {
        (g, None)
    } else {
        let p = position_of_id(ts, trace[at as int]);
        if p >= ts.len() {
            (g, Some(TraceError::UnknownTransition))
        } else if !step_fits(v, ts[p]) {
            (g, Some(TraceError::Overflow))
        } else {
            let next = stepped(v, ts[p]);
            if nonnegative && exists|i: int| 0 <= i < next.len() && #[trigger] next[i] < 0 {
                (g, Some(TraceError::NegativeState))
            } else {
                let label = target_label(target, next);
                let g1 = g.with_step(cur, next, trace[at as int], label);
                walked(
                    g1,
                    ts,
                    target,
                    next,
                    g.with_state(next, label).id_of(next),
                    trace,
                    at + 1,
                    nonnegative,
                )
            }
        }
    }
}

/// Whether `v` has a negative component.
pub fn has_negative(v: &Vec<VasValue>) -> (r: bool)
    ensures
        r == exists|i: int| 0 <= i < v.len() && #[trigger] v[i] < 0,
{
    let mut i: usize = 0;
    while i < v.len()
        invariant
            i <= v.len(),
            forall|j: int| 0 <= j < i ==> v[j] >= 0,
        decreases v.len() - i,
    {
        if v[i] < 0 {
            return true;
        }
        i += 1;
    }
    false
}

/// The text of `label`.
pub open spec fn text_of(label: Option<String>) -> Option<Seq<char>> {
    match label {
        Some(text) => Some(text@),
        None => None,
    }
}

/// Takes one step of a walk in `explicit_model`: makes sure that there is
/// a state for `next` and an edge to it from `from`. Returns the id of
/// that state.
#[verifier::rlimit(30)]
pub fn store_step(
    explicit_model: &mut PrismVasModel,
    from: usize,
    next: &Vec<VasValue>,
    transition_id: usize,
    label: Option<String>,
) -> (r: (usize, bool))
    requires
        old(explicit_model).well_formed(),
        1 <= from < old(explicit_model).states.len(),
        next.len() == old(explicit_model).dimension(),
    ensures
        final(explicit_model).well_formed(),
        final(explicit_model).variable_names == old(explicit_model).variable_names,
        final(explicit_model).m_type == old(explicit_model).m_type,
        final(explicit_model).graph() == old(explicit_model).graph().with_step(
            from,
            next@,
            transition_id,
            text_of(label),
        ),
        r.0 == old(explicit_model).graph().with_state(next@, text_of(label)).id_of(next@),
        r.1 == !old(explicit_model).graph().with_state(next@, text_of(label)).has_edge(from, r.0),
        1 <= r.0 < final(explicit_model).states.len(),
        final(explicit_model).vectors()[r.0 as int] == next@,
        old(explicit_model).states.len() <= final(explicit_model).states.len(),
        old(explicit_model).graph().extended_by(final(explicit_model).graph()),
        final(explicit_model).has_edge(from, r.0),
        forall|ts: Seq<TransitionSpec>, k: int|
            #![trigger old(explicit_model).graph().fires_only(ts), ts[k]]
            old(explicit_model).graph().fires_only(ts) && 0 <= k < ts.len() && transition_id
                == ts[k].id && step_fits(old(explicit_model).vectors()[from as int], ts[k])
                && next@ == stepped(old(explicit_model).vectors()[from as int], ts[k])
                ==> final(explicit_model).graph().fires_only(ts),
{
    let ghost g0 = explicit_model.graph();
    let ghost text = text_of(label);
    let (id, fresh) = explicit_model.find_or_add_state(next, label);
    proof {
        let g1 = g0.with_state(next@, text);
        assert(g0.has_vector(next@) == old(explicit_model).has_vector(next@));
        assert(explicit_model.graph() == g1);
        assert(g1.has_vector(next@)) by {
            assert(g1.vectors[id as int] == next@);
        }
        let chosen = g1.id_of(next@);
        explicit_model.lemma_vectors_distinct(id as int, chosen as int);
    }
    let ghost g1 = explicit_model.graph();
    proof {
        assert(g1.has_edge(from, id) == explicit_model.has_edge(from, id)) by {
            if g1.has_edge(from, id) {
                let e = choose|e: int|
                    0 <= e < g1.edges.len() && (#[trigger] g1.edges[e]).from_state == from
                        && g1.edges[e].to_state == id;
                assert(explicit_model.edges()[e].from_state == from);
            }
            if explicit_model.has_edge(from, id) {
                let e = choose|e: int|
                    0 <= e < explicit_model.edges().len() && (
                    #[trigger] explicit_model.edges()[e]).from_state == from
                        && explicit_model.edges()[e].to_state == id;
                assert(g1.edges[e].from_state == from);
            }
        }
    }
    let added = explicit_model.add_edge_once(from, id, transition_id);
    proof {
        assert(g1.has_edge(from, id) == !added);
        assert(explicit_model.vectors() =~= g1.vectors);
        let g2 = explicit_model.graph();
        assert(explicit_model.labels() =~= g1.labels);
        assert(g0.vectors =~= g2.vectors.subrange(0, g0.vectors.len() as int));
        assert(g0.labels =~= g2.labels.subrange(0, g0.labels.len() as int));
        assert(g0.edges =~= g2.edges.subrange(0, g0.edges.len() as int));
        assert(explicit_model.has_edge(from, id)) by {
            if added {
                assert(explicit_model.edges()[g1.edges.len() as int].from_state == from);
            } else {
                let e = choose|e: int|
                    0 <= e < g1.edges.len() && (#[trigger] g1.edges[e]).from_state == from
                        && g1.edges[e].to_state == id;
                assert(explicit_model.edges()[e].from_state == from);
            }
        }
        assert forall|ts: Seq<TransitionSpec>, k: int|
            #![trigger g0.fires_only(ts), ts[k]]
            g0.fires_only(ts) && 0 <= k < ts.len() && transition_id == ts[k].id && step_fits(
                g0.vectors[from as int],
                ts[k],
            ) && next@ == stepped(g0.vectors[from as int], ts[k]) implies g2.fires_only(ts) by {
            assert forall|e: int| 0 <= e < g2.edges.len() implies #[trigger] g2.edge_fires(
                ts,
                e,
            ) by {
                if e < g0.edges.len() {
                    assert(g0.edge_fires(ts, e));
                    assert(g2.edges[e] == g0.edges[e]);
                    let edge = g0.edges[e];
                    assert(old(explicit_model).edges()[e] == edge);
                    assert(g2.vectors[edge.from_state as int] == g0.vectors[edge.from_state as int]);
                    assert(g2.vectors[edge.to_state as int] == g0.vectors[edge.to_state as int]);
                    if !(edge.to_state == SINK_ID && edge.transition_id == NO_TRANSITION) {
                        let j = choose|j: int|
                            0 <= j < ts.len() && edge.transition_id == (#[trigger] ts[j]).id
                                && step_fits(g0.vectors[edge.from_state as int], ts[j])
                                && g0.vectors[edge.to_state as int] == stepped(
                                g0.vectors[edge.from_state as int],
                                ts[j],
                            );
                        assert(ts[j].id == edge.transition_id);
                    }
                } else if fresh && e == g0.edges.len() {
                } else {
                    assert(g2.edges[e] == (PrismVasTransition {
                        transition_id,
                        from_state: from,
                        to_state: id,
                    }));
                    assert(g2.vectors[from as int] == g0.vectors[from as int]);
                    assert(ts[k].id == transition_id);
                }
            }
        }
    }
    (id, added)
}

/// The label of a new state: "target" where the target holds.
fn label_for(model: &AbstractVas, state: &Vec<VasValue>) -> (r: Option<String>)
    ensures
        text_of(r) == target_label(model.target, state@),
{
    if model.target.satisfied_by(state) {
        Some("target".to_owned())
    } else {
        None
    }
}

/// Walks along `trace` from the initial state and stores every state and
/// every edge on the way that `explicit_model` does not have yet.
///
/// With `nonnegative` set the walk stops before a step that leads to a
/// negative value. On an error the steps before the failing one are
/// stored.
pub fn walk_trace(
    model: &AbstractVas,
    explicit_model: &mut PrismVasModel,
    trace: &Vec<usize>,
    nonnegative: bool,
) -> (r: Result<(), TraceError>)
    requires
        model@.well_formed(),
        old(explicit_model).well_formed(),
        old(explicit_model).dimension() == model@.dimension(),
        old(explicit_model).vectors()[1] == model@.initial[0],
    ensures
        final(explicit_model).well_formed(),
        final(explicit_model).variable_names == old(explicit_model).variable_names,
        final(explicit_model).m_type == old(explicit_model).m_type,
        final(explicit_model).vectors()[1] == model@.initial[0],
        old(explicit_model).states.len() <= final(explicit_model).states.len(),
        walked(
            old(explicit_model).graph(),
            model@.transitions,
            model@.target,
            model@.initial[0],
            1,
            trace@,
            0,
            nonnegative,
        ) == (final(explicit_model).graph(), match r {
            Ok(()) => None::<TraceError>,
            Err(e) => Some(e),
        }),
{
    let ghost g0 = explicit_model.graph();
    let ghost ts = model@.transitions;
    let ghost init = model@.initial[0];
    let n = model.variable_names.len();
    assert(model@.initial[0] == model.initial_states[0]@);
    let mut current = copy_of(&model.initial_states[0].vector);
    let mut current_id: usize = 1;
    let mut i: usize = 0;
    while i < trace.len()
        invariant
            i <= trace.len(),
            ts == model@.transitions,
            init == model@.initial[0],
            n == model@.dimension(),
            g0 == old(explicit_model).graph(),
            model@.well_formed(),
            explicit_model.well_formed(),
            explicit_model.dimension() == n,
            explicit_model.variable_names == old(explicit_model).variable_names,
            explicit_model.m_type == old(explicit_model).m_type,
            explicit_model.vectors()[1] == init,
            old(explicit_model).states.len() <= explicit_model.states.len(),
            current.len() == n,
            1 <= current_id < explicit_model.states.len(),
            walked(g0, ts, model@.target, init, 1, trace@, 0, nonnegative) == walked(
                explicit_model.graph(),
                ts,
                model@.target,
                current@,
                current_id,
                trace@,
                i as nat,
                nonnegative,
            ),
        decreases trace.len() - i,
    {
        let p = model.find_transition(trace[i]);
        if p >= model.transitions.len() {
            return Err(TraceError::UnknownTransition);
        }
        let t = &model.transitions[p];
        proof {
            assert(t@ == ts[p as int]);
            assert(ts[p as int].has_dimension(n as nat));
        }
        let next = match checked_combine(&current, &t.update_vector, 1) {
            Some(v) => v,
            None => {
                return Err(TraceError::Overflow);
            },
        };
        proof {
            let sum = combine(current@, t@.update, 1);
            assert(as_ints(next@) == sum);
            assert(as_ints(next@).len() == next.len());
            assert(sum.len() == current.len());
            assert forall|k: int| 0 <= k < next.len() implies next@[k] == stepped(
                current@,
                ts[p as int],
            )[k] by {
                assert(as_ints(next@)[k] == next@[k]);
                assert(sum[k] == current@[k] + t@.update[k] * 1);
            }
            assert(next@ =~= stepped(current@, ts[p as int]));
        }
        let negative = has_negative(&next);
        proof {
            let want = stepped(current@, ts[p as int]);
            assert(next@ == want);
            assert(negative == (exists|k: int| 0 <= k < want.len() && #[trigger] want[k] < 0)) by {
                if negative {
                    let k = choose|k: int| 0 <= k < next.len() && #[trigger] next[k] < 0;
                    assert(want[k] < 0);
                }
                if exists|k: int| 0 <= k < want.len() && #[trigger] want[k] < 0 {
                    let k = choose|k: int| 0 <= k < want.len() && #[trigger] want[k] < 0;
                    assert(next[k] < 0);
                }
            }
        }
        if nonnegative && negative {
            return Err(TraceError::NegativeState);
        }
        let label = label_for(model, &next);
        let (id, _) = store_step(explicit_model, current_id, &next, trace[i], label);
        current_id = id;
        current = next;
        i += 1;
    }
    Ok(())
}

/// The ids of the transitions among the first `upto` of `ts` that may fire
/// at `state`, in model order.
pub open spec fn enabled_ids(ts: Seq<TransitionSpec>, state: Seq<VasValue>, upto: nat) -> Seq<usize>
    decreases upto,
{
    if upto == 0 {
        Seq::empty()
    } else {
        let before = enabled_ids(ts, state, (upto - 1) as nat);
        if ts[upto - 1].enabled_at(state) {
            before.push(ts[upto - 1].id)
        } else {
            before
        }
    }
}

/// Builds explicit state spaces for a model from traces.
pub struct RagtimerBuilder<'a> {
    pub abstract_model: &'a AbstractVas,
    pub model_built: bool,
}

impl<'a> RagtimerBuilder<'a> {
    /// A builder for `abstract_model` that has built nothing yet.
    pub fn new(abstract_model: &'a AbstractVas) -> (r: Self)
        ensures
            r.abstract_model == abstract_model,
            !r.model_built,
    {
        RagtimerBuilder { abstract_model, model_built: false }
    }

    /// Whether the state space that this builder makes leaves part of the
    /// model out. It does: what is not explored goes to the sink.
    pub fn is_abstracted(&self) -> (r: bool)
        ensures
            r,
    {
        true
    }

    /// Whether the state space is meant for a lower bound on the
    /// probability. It is.
    pub fn creates_pmin(&self) -> (r: bool)
        ensures
            r,
    {
        true
    }

    /// Whether the state space is meant for an upper bound on the
    /// probability. It is not.
    pub fn creates_pmax(&self) -> (r: bool)
        ensures
            !r,
    {
        false
    }

    /// Whether the builder has built its state space.
    pub fn finished(&self) -> (r: bool)
        ensures
            r == self.model_built,
    {
        self.model_built
    }

    /// The model that the builder works on.
    pub fn get_abstract_model(&self) -> (r: &'a AbstractVas)
        ensures
            r == self.abstract_model,
    {
        self.abstract_model
    }

    /// The ids of the transitions that may fire at `current_state`, in
    /// model order.
    pub fn get_available_transitions(&self, current_state: &Vec<VasValue>) -> (r: Vec<usize>)
        ensures
            r@ == enabled_ids(
                self.abstract_model@.transitions,
                current_state@,
                self.abstract_model@.transitions.len(),
            ),
    {
        let model = self.abstract_model;
        let mut out: Vec<usize> = Vec::new();
        let mut k: usize = 0;
        while k < model.transitions.len()
            invariant
                k <= model.transitions.len(),
                out@ == enabled_ids(model@.transitions, current_state@, k as nat),
            decreases model.transitions.len() - k,
        {
            assert(model@.transitions[k as int] == model.transitions[k as int]@);
            if model.transitions[k].enabled_vector(current_state) {
                out.push(model.transitions[k].transition_id);
            }
            k += 1;
        }
        out
    }

    /// Stores the states and edges along `trace` in `explicit_model`.
    pub fn store_explicit_trace(&self, explicit_model: &mut PrismVasModel, trace: &Vec<usize>) -> (r:
        Result<(), TraceError>)
        requires
            self.abstract_model@.well_formed(),
            old(explicit_model).well_formed(),
            old(explicit_model).dimension() == self.abstract_model@.dimension(),
            old(explicit_model).vectors()[1] == self.abstract_model@.initial[0],
        ensures
            final(explicit_model).well_formed(),
            final(explicit_model).variable_names == old(explicit_model).variable_names,
            final(explicit_model).m_type == old(explicit_model).m_type,
            final(explicit_model).vectors()[1] == self.abstract_model@.initial[0],
            walked(
                old(explicit_model).graph(),
                self.abstract_model@.transitions,
                self.abstract_model@.target,
                self.abstract_model@.initial[0],
                1,
                trace@,
                0,
                false,
            ) == (final(explicit_model).graph(), match r {
                Ok(()) => None::<TraceError>,
                Err(e) => Some(e),
            }),
    {
        walk_trace(self.abstract_model, explicit_model, trace, false)
    }
}

} // verus!
