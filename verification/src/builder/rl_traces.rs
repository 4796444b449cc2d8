//! Step-by-step generation of traces and their collection into a state
//! space. The caller decides which of the offered transitions fires; the
//! functions here keep the state, offer the candidates in random order,
//! and store the traces that are new.

use crate::builder::ragtimer::{
    enabled_ids, walk_trace, walked, RagtimerBuilder, TraceError, MAX_TRACE_LENGTH,
};
use crate::model::explicit_model::{initial_graph, GraphSpec, PrismVasModel};
use crate::model::vas_model::{
    name_specs, position_of_id, step_fits, stepped, TransitionSpec, VasProperty,
};
use crate::model::vector::{as_ints, checked_combine, combine, copy_of, VasValue};
use crate::trace::trace_trie::TraceTrieNode;
use rand::rngs::StdRng;
use rand::seq::SliceRandom;
use rand::{RngCore, SeedableRng};
use vstd::prelude::*;

verus! {

/// The standard generator of rand, `rand::rngs::StdRng`. Its state is
/// opaque here: it is carried from call to call and nothing is known of it.
#[verifier::external_type_specification]
#[verifier::external_body]
pub struct ExStdRng(StdRng);

/// A generator seeded with `seed`. Wraps `StdRng::seed_from_u64`; nothing
/// is claimed of the generator.
#[verifier::external_body]
fn seeded_generator(seed: u64) -> StdRng {
    StdRng::seed_from_u64(seed)
}

/// Shuffles `ids` in place. Wraps `shuffle` of `SliceRandom`, which
/// permutes the slice: the claim is that the same ids remain, each as
/// often as before.
#[verifier::external_body]
fn shuffle_ids(generator: &mut StdRng, ids: &mut Vec<usize>)
    ensures
        final(ids)@.to_multiset() == old(ids)@.to_multiset(),
{
    ids.shuffle(generator);
}

/// The next 64 random bits. Wraps `next_u64` of `RngCore`; nothing is
/// claimed of the bits.
#[verifier::external_body]
fn next_bits(generator: &mut StdRng) -> u64 {
    generator.next_u64()
}

/// A trace under construction: the state reached and the ids of the
/// transitions fired so far.
pub struct TraceWalk {
    pub current_state: Vec<VasValue>,
    pub trace: Vec<usize>,
    pub generator: StdRng,
}

/// What a trace under construction can do next.
#[derive(Clone, Debug, PartialEq, Eq)]
pub enum WalkStatus {
    /// The trace has reached the length limit.
    LengthLimit,
    /// The state satisfies the target.
    TargetReached,
    /// No transition can fire.
    Stuck,
    /// One of these transitions can fire next; they come in random order.
    Choose(Vec<usize>),
}

/// What became of a trace that was offered for storing.
#[derive(Clone, Copy, Debug, PartialEq, Eq, Structural)]
pub enum TraceVerdict {
    /// The trace is empty.
    RejectedEmpty,
    /// The trace was stored before.
    RejectedKnown,
    /// The trace is new and was stored to its end.
    Stored,
    /// The trace is new, and storing it stopped on this error.
    Failed(TraceError),
}

impl<'a> RagtimerBuilder<'a> {
    /// Sets `explicit_model` up for the model: its variables and type, the
    /// sink, and the initial state.
    pub fn prepare(&self) -> (r: PrismVasModel)
        requires
            self.abstract_model@.well_formed(),
        ensures
            r.well_formed(),
            name_specs(r.variable_names@) == self.abstract_model@.names,
            r.m_type == self.abstract_model@.m_type,
            r.states.len() == 2,
            r.graph() == initial_graph(
                self.abstract_model@.dimension(),
                self.abstract_model@.initial[0],
            ),
    {
        let mut explicit_model = PrismVasModel::from_abstract_model(self.abstract_model);
        proof {
            assert(self.abstract_model@.initial[0] == self.abstract_model.initial_states[0]@);
            assert(name_specs(explicit_model.variable_names@).len()
                == explicit_model.variable_names.len());
        }
        explicit_model.initialize(&self.abstract_model.initial_states[0].vector);
        proof {
            assert(explicit_model.vectors().len() == explicit_model.states.len());
        }
        explicit_model
    }

    /// A trace that stands at the initial state, with a generator seeded
    /// with `seed`.
    pub fn begin_trace(&self, seed: u64) -> (r: TraceWalk)
        requires
            self.abstract_model@.initial.len() >= 1,
        ensures
            r.current_state@ == self.abstract_model@.initial[0],
            r.trace@ == Seq::<usize>::empty(),
    {
        assert(self.abstract_model@.initial[0] == self.abstract_model.initial_states[0]@);
        TraceWalk {
            current_state: copy_of(&self.abstract_model.initial_states[0].vector),
            trace: Vec::new(),
            generator: seeded_generator(seed),
        }
    }

    /// What `walk` can do next. A trace at the length limit ends; so does
    /// one whose state satisfies the target, and one whose state enables
    /// no transition. Otherwise the enabled transitions are offered, in
    /// random order.
    pub fn candidates(&self, walk: &mut TraceWalk) -> (r: WalkStatus)
        ensures
            final(walk).current_state == old(walk).current_state,
            final(walk).trace == old(walk).trace,
            r is LengthLimit <==> old(walk).trace.len() >= MAX_TRACE_LENGTH,
            r is TargetReached <==> old(walk).trace.len() < MAX_TRACE_LENGTH
                && self.abstract_model.target.holds_at(old(walk).current_state@),
            r is Stuck <==> old(walk).trace.len() < MAX_TRACE_LENGTH
                && !self.abstract_model.target.holds_at(old(walk).current_state@) && enabled_ids(
                self.abstract_model@.transitions,
                old(walk).current_state@,
                self.abstract_model@.transitions.len(),
            ).len() == 0,
            r matches WalkStatus::Choose(ids) ==> ids.len() > 0 && ids@.to_multiset()
                == enabled_ids(
                self.abstract_model@.transitions,
                old(walk).current_state@,
                self.abstract_model@.transitions.len(),
            ).to_multiset(),
    {
        if walk.trace.len() >= MAX_TRACE_LENGTH {
            return WalkStatus::LengthLimit;
        }
        if self.abstract_model.target.satisfied_by(&walk.current_state) {
            return WalkStatus::TargetReached;
        }
        let mut ids = self.get_available_transitions(&walk.current_state);
        if ids.len() == 0 {
            return WalkStatus::Stuck;
        }
        let ghost before = ids@;
        shuffle_ids(&mut walk.generator, &mut ids);
        proof {
            before.to_multiset_ensures();
            ids@.to_multiset_ensures();
        }
        WalkStatus::Choose(ids)
    }

    /// The next 64 random bits of the generator of `walk`.
    pub fn random_bits(&self, walk: &mut TraceWalk) -> (r: u64)
        ensures
            final(walk).current_state == old(walk).current_state,
            final(walk).trace == old(walk).trace,
    {
        next_bits(&mut walk.generator)
    }

    /// Fires the first transition with the id `transition_id`: moves the
    /// state by its update and appends the id to the trace. Leaves `walk`
    /// as it is when the model has no such transition or a value leaves the
    /// range of `VasValue`.
    pub fn fire(&self, walk: &mut TraceWalk, transition_id: usize) -> (r: Result<(), TraceError>)
        requires
            self.abstract_model@.well_formed(),
            old(walk).current_state.len() == self.abstract_model@.dimension(),
        ensures
            match r {
                Ok(()) => {
                    let p = position_of_id(self.abstract_model@.transitions, transition_id);
                    &&& p < self.abstract_model@.transitions.len()
                    &&& step_fits(old(walk).current_state@, self.abstract_model@.transitions[p])
                    &&& final(walk).current_state@ == stepped(
                        old(walk).current_state@,
                        self.abstract_model@.transitions[p],
                    )
                    &&& final(walk).trace@ == old(walk).trace@.push(transition_id)
                },
                Err(e) => {
                    let p = position_of_id(self.abstract_model@.transitions, transition_id);
                    &&& final(walk).current_state == old(walk).current_state
                    &&& final(walk).trace == old(walk).trace
                    &&& if p >= self.abstract_model@.transitions.len() {
                        e == TraceError::UnknownTransition
                    } else {
                        e == TraceError::Overflow && !step_fits(
                            old(walk).current_state@,
                            self.abstract_model@.transitions[p],
                        )
                    }
                },
            },
    {
        let model = self.abstract_model;
        let p = model.find_transition(transition_id);
        if p >= model.transitions.len() {
            return Err(TraceError::UnknownTransition);
        }
        let t = &model.transitions[p];
        proof {
            assert(t@ == model@.transitions[p as int]);
            assert(model@.transitions[p as int].has_dimension(model@.dimension()));
        }
        let next = match checked_combine(&walk.current_state, &t.update_vector, 1) {
            Some(v) => v,
            None => {
                return Err(TraceError::Overflow);
            },
        };
        proof {
            let sum = combine(walk.current_state@, t@.update, 1);
            assert(as_ints(next@) == sum);
            assert(as_ints(next@).len() == next.len());
            assert(sum.len() == walk.current_state.len());
            assert forall|k: int| 0 <= k < next.len() implies next@[k] == stepped(
                walk.current_state@,
                t@,
            )[k] by {
                assert(as_ints(next@)[k] == next@[k]);
                assert(sum[k] == walk.current_state@[k] + t@.update[k] * 1);
            }
            assert(next@ =~= stepped(walk.current_state@, t@));
        }
        walk.current_state = next;
        walk.trace.push(transition_id);
        Ok(())
    }

    /// Stores `trace` in `explicit_model` when it is not empty and not
    /// among the traces of `seen`, and records it in `seen`.
    pub fn offer_trace(
        &self,
        seen: &mut TraceTrieNode,
        explicit_model: &mut PrismVasModel,
        trace: &Vec<usize>,
    ) -> (r: TraceVerdict)
        requires
            self.abstract_model@.well_formed(),
            old(explicit_model).well_formed(),
            old(explicit_model).dimension() == self.abstract_model@.dimension(),
            old(explicit_model).vectors()[1] == self.abstract_model@.initial[0],
        ensures
            final(explicit_model).well_formed(),
            final(explicit_model).variable_names == old(explicit_model).variable_names,
            final(explicit_model).m_type == old(explicit_model).m_type,
            final(explicit_model).vectors()[1] == self.abstract_model@.initial[0],
            r == TraceVerdict::RejectedEmpty <==> trace.len() == 0,
            r == TraceVerdict::RejectedKnown <==> trace.len() > 0 && old(seen).stored().contains(
                trace@,
            ),
            r == TraceVerdict::RejectedEmpty || r == TraceVerdict::RejectedKnown
                ==> final(explicit_model).graph() == old(explicit_model).graph(),
            r == TraceVerdict::RejectedEmpty ==> *final(seen) == *old(seen),
            trace.len() > 0 ==> final(seen).stored() == old(seen).stored().insert(trace@),
            trace.len() > 0 && !old(seen).stored().contains(trace@) ==> walked(
                old(explicit_model).graph(),
                self.abstract_model@.transitions,
                self.abstract_model@.target,
                self.abstract_model@.initial[0],
                1,
                trace@,
                0,
                false,
            ) == (final(explicit_model).graph(), match r {
                TraceVerdict::Failed(e) => Some(e),
                _ => None::<TraceError>,
            }),
    {
        if trace.len() == 0 {
            return TraceVerdict::RejectedEmpty;
        }
        if seen.exists_or_insert(trace) {
            return TraceVerdict::RejectedKnown;
        }
        match walk_trace(self.abstract_model, explicit_model, trace, false) {
            Ok(()) => TraceVerdict::Stored,
            Err(e) => TraceVerdict::Failed(e),
        }
    }
}

/// How the generation of a trace ended.
#[derive(Clone, Copy, Debug, PartialEq, Eq, Structural)]
pub enum WalkEnd {
    /// The trace has reached the length limit.
    LengthLimit,
    /// The state satisfies the target.
    TargetReached,
    /// No transition can fire.
    Stuck,
    /// The rounds ran out.
    OutOfRounds,
    /// A step left the range of `VasValue`.
    Overflow,
}

/// The state after the first `upto` steps of `trace` from `init`; every
/// step fires the first transition that has the id named.
pub open spec fn state_along(
    ts: Seq<TransitionSpec>,
    init: Seq<VasValue>,
    trace: Seq<usize>,
    upto: nat,
) -> Seq<VasValue>
    decreases upto,
{
    if upto == 0 {
        init
    } else {
        stepped(
            state_along(ts, init, trace, (upto - 1) as nat),
            ts[position_of_id(ts, trace[upto - 1])],
        )
    }
}

/// Whether a transition with the id `id` may fire at `state`.
pub open spec fn on_offer(ts: Seq<TransitionSpec>, state: Seq<VasValue>, id: usize) -> bool {
    exists|k: int| 0 <= k < ts.len() && (#[trigger] ts[k]).id == id && ts[k].enabled_at(state)
}

/// Whether every one of the first `upto` steps of `trace` was on offer at
/// the state it was taken from, and stayed within `VasValue`.
pub open spec fn taken_from_offers(
    ts: Seq<TransitionSpec>,
    init: Seq<VasValue>,
    trace: Seq<usize>,
    upto: nat,
) -> bool {
    forall|m: nat|
        m < upto ==> {
            &&& on_offer(ts, #[trigger] state_along(ts, init, trace, m), trace[m as int])
            &&& position_of_id(ts, trace[m as int]) < ts.len()
            &&& step_fits(state_along(ts, init, trace, m), ts[position_of_id(ts, trace[m as int])])
        }
}

/// Whether `pick` can choose the transition with the id `id` at `state`:
/// offered the transitions that may fire there, in some order and with as
/// many numbers, it can return the place of `id` among them.
pub open spec fn picked<C: Fn(&Vec<usize>, &Vec<u64>) -> Option<usize>>(
    pick: &C,
    ts: Seq<TransitionSpec>,
    state: Seq<VasValue>,
    id: usize,
) -> bool {
    exists|offers: Vec<usize>, bits: Vec<u64>, place: usize|
        {
            &&& #[trigger] call_ensures(pick, (&offers, &bits), Some(place))
            &&& offers@.to_multiset() == enabled_ids(ts, state, ts.len()).to_multiset()
            &&& bits.len() == offers.len()
            &&& place < offers.len()
            &&& offers[place as int] == id
        }
}

/// Whether every one of the first `upto` steps of `trace` is one that
/// `pick` can choose at the state it was taken from.
pub open spec fn chosen_by<C: Fn(&Vec<usize>, &Vec<u64>) -> Option<usize>>(
    pick: &C,
    ts: Seq<TransitionSpec>,
    init: Seq<VasValue>,
    trace: Seq<usize>,
    upto: nat,
) -> bool {
    forall|m: nat|
        m < upto ==> picked(pick, ts, #[trigger] state_along(ts, init, trace, m), trace[m as int])
}

/// Whether `pick` can let a round pass at `state`: offered the
/// transitions that may fire there, in some order and with as many
/// numbers, it can return nothing, or a place past the end of the offers.
pub open spec fn passed<C: Fn(&Vec<usize>, &Vec<u64>) -> Option<usize>>(
    pick: &C,
    ts: Seq<TransitionSpec>,
    state: Seq<VasValue>,
) -> bool {
    exists|offers: Vec<usize>, bits: Vec<u64>, answer: Option<usize>|
        {
            &&& #[trigger] call_ensures(pick, (&offers, &bits), answer)
            &&& offers@.to_multiset() == enabled_ids(ts, state, ts.len()).to_multiset()
            &&& bits.len() == offers.len()
            &&& answer matches Some(place) ==> place >= offers.len()
        }
}

/// The ids fired in the first `upto` of `rounds`, in order. A round says
/// which id was fired in it, or nothing when it passed.
pub open spec fn fired_in(rounds: Seq<Option<usize>>, upto: nat) -> Seq<usize>
    decreases upto,
{
    if upto == 0 {
        Seq::empty()
    } else {
        match rounds[upto - 1] {
            Some(id) => fired_in(rounds, (upto - 1) as nat).push(id),
            None => fired_in(rounds, (upto - 1) as nat),
        }
    }
}

/// Whether round `j` of `rounds` was played as the rules say: the trace
/// before it was below the length limit, its state did not satisfy the
/// target and let some transition fire, and the round fired an id that
/// `pick` can choose there, with a step within `VasValue`, or passed as
/// `pick` can let it.
pub open spec fn round_played<C: Fn(&Vec<usize>, &Vec<u64>) -> Option<usize>>(
    pick: &C,
    ts: Seq<TransitionSpec>,
    target: VasProperty,
    init: Seq<VasValue>,
    rounds: Seq<Option<usize>>,
    j: int,
) -> bool {
    let trace = fired_in(rounds, j as nat);
    let state = state_along(ts, init, trace, trace.len());
    &&& trace.len() < MAX_TRACE_LENGTH
    &&& !target.holds_at(state)
    &&& enabled_ids(ts, state, ts.len()).len() > 0
    &&& match rounds[j] {
        Some(id) => {
            &&& picked(pick, ts, state, id)
            &&& 0 <= position_of_id(ts, id) < ts.len()
            &&& step_fits(state, ts[position_of_id(ts, id)])
        },
        None => passed(pick, ts, state),
    }
}

/// Whether `rounds` lists rounds that were played as the rules say, one
/// after the other from `init`.
pub open spec fn rounds_played<C: Fn(&Vec<usize>, &Vec<u64>) -> Option<usize>>(
    pick: &C,
    ts: Seq<TransitionSpec>,
    target: VasProperty,
    init: Seq<VasValue>,
    rounds: Seq<Option<usize>>,
) -> bool {
    forall|j: int|
        0 <= j < rounds.len() ==> #[trigger] round_played(pick, ts, target, init, rounds, j)
}

/// What was fired in the first rounds does not depend on the rounds
/// after them.
pub proof fn lemma_fired_in_unchanged(
    fewer: Seq<Option<usize>>,
    more: Seq<Option<usize>>,
    upto: nat,
)
    requires
        upto <= fewer.len(),
        upto <= more.len(),
        forall|i: int| 0 <= i < upto ==> fewer[i] == more[i],
    ensures
        fired_in(more, upto) == fired_in(fewer, upto),
    decreases upto,
{
    if upto > 0 {
        lemma_fired_in_unchanged(fewer, more, (upto - 1) as nat);
        assert(fewer[upto - 1] == more[upto - 1]);
    }
}

/// One more round: rounds that were played stay so when a round that was
/// played after them is added.
pub proof fn lemma_round_added<C: Fn(&Vec<usize>, &Vec<u64>) -> Option<usize>>(
    pick: &C,
    ts: Seq<TransitionSpec>,
    target: VasProperty,
    init: Seq<VasValue>,
    rounds: Seq<Option<usize>>,
    round: Option<usize>,
)
    requires
        rounds_played(pick, ts, target, init, rounds),
        ({
            let trace = fired_in(rounds, rounds.len());
            let state = state_along(ts, init, trace, trace.len());
            &&& trace.len() < MAX_TRACE_LENGTH
            &&& !target.holds_at(state)
            &&& enabled_ids(ts, state, ts.len()).len() > 0
            &&& match round {
                Some(id) => {
                    &&& picked(pick, ts, state, id)
                    &&& 0 <= position_of_id(ts, id) < ts.len()
                    &&& step_fits(state, ts[position_of_id(ts, id)])
                },
                None => passed(pick, ts, state),
            }
        }),
    ensures
        rounds_played(pick, ts, target, init, rounds.push(round)),
        fired_in(rounds.push(round), rounds.len() + 1) == (match round {
            Some(id) => fired_in(rounds, rounds.len()).push(id),
            None => fired_in(rounds, rounds.len()),
        }),
{
    let more = rounds.push(round);
    assert forall|j: int| 0 <= j < more.len() implies #[trigger] round_played(
        pick,
        ts,
        target,
        init,
        more,
        j,
    ) by {
        lemma_fired_in_unchanged(rounds, more, j as nat);
        if j < rounds.len() {
            assert(round_played(pick, ts, target, init, rounds, j));
            assert(more[j] == rounds[j]);
        }
    }
    lemma_fired_in_unchanged(rounds, more, rounds.len());
}

/// Every id in the list of the enabled transitions is on offer.
pub proof fn lemma_enabled_ids_on_offer(ts: Seq<TransitionSpec>, state: Seq<VasValue>, upto: nat)
    requires
        upto <= ts.len(),
    ensures
        forall|j: int|
            0 <= j < enabled_ids(ts, state, upto).len() ==> on_offer(
                ts,
                state,
                #[trigger] enabled_ids(ts, state, upto)[j],
            ),
    decreases upto,
{
    if upto > 0 {
        lemma_enabled_ids_on_offer(ts, state, (upto - 1) as nat);
        let before = enabled_ids(ts, state, (upto - 1) as nat);
        assert forall|j: int| 0 <= j < enabled_ids(ts, state, upto).len() implies on_offer(
            ts,
            state,
            #[trigger] enabled_ids(ts, state, upto)[j],
        ) by {
            if j < before.len() {
                assert(on_offer(ts, state, before[j]));
            } else {
                assert(ts[upto - 1].id == enabled_ids(ts, state, upto)[j]);
            }
        }
    }
}

impl<'a> RagtimerBuilder<'a> {
    /// Generates one trace from the initial state, with a generator
    /// seeded with `seed`.
    ///
    /// In every round the transitions that may fire are offered to
    /// `pick`, in random order and with 64 random bits for each; what
    /// `pick` returns is the place in that order of the transition to
    /// fire, or nothing, which lets the round pass. The trace ends when it
    /// reaches the length limit, when its state satisfies the target, when
    /// no transition may fire, when a step leaves the range of `VasValue`,
    /// and after `max_rounds` rounds.
    pub fn generate_single_trace<C: Fn(&Vec<usize>, &Vec<u64>) -> Option<usize>>(
        &self,
        seed: u64,
        max_rounds: usize,
        pick: &C,
    ) -> (r: (Vec<usize>, WalkEnd))
        requires
            forall|offers: &Vec<usize>, bits: &Vec<u64>| call_requires(pick, (offers, bits)),
            self.abstract_model@.well_formed(),
        ensures
            taken_from_offers(
                self.abstract_model@.transitions,
                self.abstract_model@.initial[0],
                r.0@,
                r.0@.len(),
            ),
            chosen_by(
                pick,
                self.abstract_model@.transitions,
                self.abstract_model@.initial[0],
                r.0@,
                r.0@.len(),
            ),
            exists|rounds: Seq<Option<usize>>|
                {
                    &&& #[trigger] rounds_played(
                        pick,
                        self.abstract_model@.transitions,
                        self.abstract_model@.target,
                        self.abstract_model@.initial[0],
                        rounds,
                    )
                    &&& r.0@ == fired_in(rounds, rounds.len())
                    &&& rounds.len() <= max_rounds
                    &&& r.1 == WalkEnd::OutOfRounds ==> rounds.len() == max_rounds
                },
            r.0.len() <= MAX_TRACE_LENGTH,
            r.1 == WalkEnd::LengthLimit ==> r.0.len() == MAX_TRACE_LENGTH,
            r.1 == WalkEnd::Overflow ==> exists|id: usize|
                {
                    &&& #[trigger] picked(
                        pick,
                        self.abstract_model@.transitions,
                        state_along(
                            self.abstract_model@.transitions,
                            self.abstract_model@.initial[0],
                            r.0@,
                            r.0@.len(),
                        ),
                        id,
                    )
                    &&& position_of_id(self.abstract_model@.transitions, id)
                        < self.abstract_model@.transitions.len()
                    &&& !step_fits(
                        state_along(
                            self.abstract_model@.transitions,
                            self.abstract_model@.initial[0],
                            r.0@,
                            r.0@.len(),
                        ),
                        self.abstract_model@.transitions[position_of_id(
                            self.abstract_model@.transitions,
                            id,
                        )],
                    )
                },
            r.1 == WalkEnd::TargetReached ==> r.0.len() < MAX_TRACE_LENGTH
                && self.abstract_model.target.holds_at(
                state_along(
                    self.abstract_model@.transitions,
                    self.abstract_model@.initial[0],
                    r.0@,
                    r.0@.len(),
                ),
            ),
            r.1 == WalkEnd::Stuck ==> r.0.len() < MAX_TRACE_LENGTH && enabled_ids(
                self.abstract_model@.transitions,
                state_along(
                    self.abstract_model@.transitions,
                    self.abstract_model@.initial[0],
                    r.0@,
                    r.0@.len(),
                ),
                self.abstract_model@.transitions.len(),
            ).len() == 0,
            r.1 == WalkEnd::OutOfRounds || r.1 == WalkEnd::Overflow ==> r.0.len()
                < MAX_TRACE_LENGTH,
            r.1 != WalkEnd::TargetReached && r.0.len() < MAX_TRACE_LENGTH
                ==> !self.abstract_model.target.holds_at(
                state_along(
                    self.abstract_model@.transitions,
                    self.abstract_model@.initial[0],
                    r.0@,
                    r.0@.len(),
                ),
            ),
    {
        let ghost ts = self.abstract_model@.transitions;
        let ghost init = self.abstract_model@.initial[0];
        let ghost target = self.abstract_model@.target;
        let ghost mut rounds: Seq<Option<usize>> = Seq::empty();
        let mut walk = self.begin_trace(seed);
        let mut round: usize = 0;
        proof {
            assert(init.len() == self.abstract_model@.dimension());
        }
        while round < max_rounds
            invariant
                round <= max_rounds,
                forall|offers: &Vec<usize>, bits: &Vec<u64>| call_requires(pick, (offers, bits)),
                ts == self.abstract_model@.transitions,
                init == self.abstract_model@.initial[0],
                self.abstract_model@.well_formed(),
                walk.current_state@ == state_along(ts, init, walk.trace@, walk.trace@.len()),
                walk.current_state.len() == self.abstract_model@.dimension(),
                walk.trace.len() <= MAX_TRACE_LENGTH,
                taken_from_offers(ts, init, walk.trace@, walk.trace@.len()),
                chosen_by(pick, ts, init, walk.trace@, walk.trace@.len()),
                walk.trace.len() < MAX_TRACE_LENGTH && round > 0
                    ==> !self.abstract_model.target.holds_at(walk.current_state@),
                target == self.abstract_model@.target,
                rounds.len() == round,
                rounds_played(pick, ts, target, init, rounds),
                walk.trace@ == fired_in(rounds, rounds.len()),
            decreases max_rounds - round,
        {
            let offers = match self.candidates(&mut walk) {
                WalkStatus::LengthLimit => {
                    return (walk.trace, WalkEnd::LengthLimit);
                },
                WalkStatus::TargetReached => {
                    return (walk.trace, WalkEnd::TargetReached);
                },
                WalkStatus::Stuck => {
                    return (walk.trace, WalkEnd::Stuck);
                },
                WalkStatus::Choose(offers) => offers,
            };
            let mut bits: Vec<u64> = Vec::new();
            let mut i: usize = 0;
            while i < offers.len()
                invariant
                    i <= offers.len(),
                    bits.len() == i,
                    offers@.to_multiset() == enabled_ids(
                        ts,
                        walk.current_state@,
                        ts.len(),
                    ).to_multiset(),
                    walk.current_state@ == state_along(ts, init, walk.trace@, walk.trace@.len()),
                    walk.current_state.len() == self.abstract_model@.dimension(),
                    walk.trace.len() < MAX_TRACE_LENGTH,
                    taken_from_offers(ts, init, walk.trace@, walk.trace@.len()),
                    chosen_by(pick, ts, init, walk.trace@, walk.trace@.len()),
                    !self.abstract_model.target.holds_at(walk.current_state@),
                    walk.trace@ == fired_in(rounds, rounds.len()),
                decreases offers.len() - i,
            {
                let drawn = self.random_bits(&mut walk);
                bits.push(drawn);
                i += 1;
            }
            let ghost state = walk.current_state@;
            let ghost before = walk.trace@;
            proof {
                offers@.to_multiset_ensures();
                enabled_ids(ts, state, ts.len()).to_multiset_ensures();
                assert(enabled_ids(ts, state, ts.len()).len() > 0);
            }
            let answer = pick(&offers, &bits);
            proof {
                if answer matches Some(place) && place < offers.len() {
                } else {
                    assert(call_ensures(pick, (&offers, &bits), answer));
                    assert(passed(pick, ts, state));
                    lemma_round_added(pick, ts, target, init, rounds, None);
                    rounds = rounds.push(None);
                }
            }
            match answer {
                None => {},
                Some(place) => {
                    if place < offers.len() {
                        let id = offers[place];
                        proof {
                            let listed = enabled_ids(ts, state, ts.len());
                            lemma_enabled_ids_on_offer(ts, state, ts.len());
                            offers@.to_multiset_ensures();
                            listed.to_multiset_ensures();
                            assert(offers@.contains(id));
                            assert(listed.to_multiset().count(id) > 0);
                            assert(listed.contains(id));
                            let j = choose|j: int| 0 <= j < listed.len() && listed[j] == id;
                            assert(on_offer(ts, state, listed[j]));
                            assert(call_ensures(pick, (&offers, &bits), Some(place)));
                            assert(picked(pick, ts, state, id));
                        }
                        match self.fire(&mut walk, id) {
                            Ok(()) => {
                                proof {
                                    crate::model::vas_model::lemma_position_of_id(ts, id);
                                    lemma_round_added(pick, ts, target, init, rounds, Some(id));
                                    rounds = rounds.push(Some(id));
                                    let now = walk.trace@;
                                    assert(now.len() == before.len() + 1);
                                    assert(before =~= now.subrange(0, before.len() as int));
                                    lemma_state_along_prefix(ts, init, before, now, before.len());
                                    assert(state_along(ts, init, now, before.len()) == state);
                                    assert(now[before.len() as int] == id);
                                    assert forall|m: nat| m < now.len() implies {
                                        &&& on_offer(
                                            ts,
                                            #[trigger] state_along(ts, init, now, m),
                                            now[m as int],
                                        )
                                        &&& position_of_id(ts, now[m as int]) < ts.len()
                                        &&& step_fits(
                                            state_along(ts, init, now, m),
                                            ts[position_of_id(ts, now[m as int])],
                                        )
                                    } by {
                                        lemma_state_along_prefix(ts, init, before, now, m);
                                        if m < before.len() {
                                            assert(now[m as int] == before[m as int]);
                                            assert(on_offer(
                                                ts,
                                                state_along(ts, init, before, m),
                                                before[m as int],
                                            ));
                                        }
                                    }
                                    assert forall|m: nat| m < now.len() implies picked(
                                        pick,
                                        ts,
                                        #[trigger] state_along(ts, init, now, m),
                                        now[m as int],
                                    ) by {
                                        lemma_state_along_prefix(ts, init, before, now, m);
                                        if m < before.len() {
                                            assert(now[m as int] == before[m as int]);
                                            assert(picked(
                                                pick,
                                                ts,
                                                state_along(ts, init, before, m),
                                                before[m as int],
                                            ));
                                        }
                                    }
                                }
                            },
                            Err(e) => {
                                proof {
                                    let k = choose|k: int|
                                        0 <= k < ts.len() && (#[trigger] ts[k]).id == id
                                            && ts[k].enabled_at(state);
                                    crate::model::vas_model::lemma_position_of_id(ts, id);
                                    if position_of_id(ts, id) >= ts.len() {
                                        assert(ts[k].id != id);
                                    }
                                    assert(e == TraceError::Overflow);
                                    assert(walk.trace@ == before);
                                    assert(state_along(ts, init, walk.trace@, walk.trace@.len())
                                        == state);
                                    assert(picked(pick, ts, state, id));
                                    assert(!step_fits(state, ts[position_of_id(ts, id)]));
                                }
                                return (walk.trace, WalkEnd::Overflow);
                            },
                        }
                    }
                },
            }
            round += 1;
            if walk.trace.len() < MAX_TRACE_LENGTH && self.abstract_model.target.satisfied_by(
                &walk.current_state,
            ) {
                return (walk.trace, WalkEnd::TargetReached);
            }
        }
        let end = if walk.trace.len() >= MAX_TRACE_LENGTH {
            WalkEnd::LengthLimit
        } else if max_rounds == 0 && self.abstract_model.target.satisfied_by(&walk.current_state) {
            WalkEnd::TargetReached
        } else {
            WalkEnd::OutOfRounds
        };
        (walk.trace, end)
    }
}

/// The states along a trace do not depend on the steps after them.
pub proof fn lemma_state_along_prefix(
    ts: Seq<TransitionSpec>,
    init: Seq<VasValue>,
    fewer: Seq<usize>,
    more: Seq<usize>,
    upto: nat,
)
    requires
        fewer.is_prefix_of(more),
        upto <= fewer.len(),
    ensures
        state_along(ts, init, more, upto) == state_along(ts, init, fewer, upto),
    decreases upto,
{
    if upto > 0 {
        lemma_state_along_prefix(ts, init, fewer, more, (upto - 1) as nat);
        assert(fewer =~= more.subrange(0, fewer.len() as int));
        assert(fewer[upto - 1] == more[upto - 1]);
    }
}

/// The traces of `s`.
pub open spec fn traces_of(s: Seq<Vec<usize>>) -> Seq<Seq<usize>> {
    Seq::new(s.len(), |i: int| s[i]@)
}

/// The state space after the walks along the first `upto` of `traces`, one
/// after the other, each from the initial state `init` as far as it can be
/// stored.
pub open spec fn seeded(
    g: GraphSpec,
    ts: Seq<TransitionSpec>,
    target: VasProperty,
    init: Seq<VasValue>,
    traces: Seq<Seq<usize>>,
    upto: nat,
) -> GraphSpec
    decreases upto,
{
    if upto == 0 {
        g
    } else {
        walked(
            seeded(g, ts, target, init, traces, (upto - 1) as nat),
            ts,
            target,
            init,
            1,
            traces[upto - 1],
            0,
            false,
        ).0
    }
}

/// Whether no trace of `traces` is empty and no two of them are the same.
pub open spec fn all_new(traces: Seq<Seq<usize>>) -> bool {
    &&& forall|j: int| 0 <= j < traces.len() ==> (#[trigger] traces[j]).len() > 0
    &&& forall|i: int, j: int|
        0 <= i < j < traces.len() ==> #[trigger] traces[i] != #[trigger] traces[j]
}

/// Whether `trace` is a trace that `generate` can give on some attempt.
pub open spec fn generated_by<G: Fn(usize, bool) -> Vec<usize>>(generate: &G, trace: Seq<usize>) -> bool {
    exists|attempt: usize, stored: bool, given: Vec<usize>|
        #[trigger] call_ensures(generate, (attempt, stored), given) && given@ == trace
}

/// Whether `trace` is new after the traces `before`: it is not empty and
/// not one of `before`.
#[verifier::opaque]
pub open spec fn is_new(before: Seq<Seq<usize>>, trace: Seq<usize>) -> bool {
    trace.len() > 0 && !before.contains(trace)
}

/// The traces that are taken in among the first `upto` of `given`, in
/// order: every trace that is new after those taken in before it.
pub open spec fn taken_in(given: Seq<Seq<usize>>, upto: nat) -> Seq<Seq<usize>>
    decreases upto,
{
    if upto == 0 {
        Seq::empty()
    } else {
        let before = taken_in(given, (upto - 1) as nat);
        if is_new(before, given[upto - 1]) {
            before.push(given[upto - 1])
        } else {
            before
        }
    }
}

/// Whether the trace of the attempt before attempt `a` was taken in.
pub open spec fn taken_before(given: Seq<Seq<usize>>, a: int) -> bool {
    a > 0 && is_new(taken_in(given, (a - 1) as nat), given[a - 1])
}

/// Whether attempt `a` of `given` was made while fewer than `num_traces`
/// traces were taken in, and its trace is one that `generate` can give
/// when it is told the number of the attempt and whether the trace of the
/// attempt before was taken in.
pub open spec fn attempt_made<G: Fn(usize, bool) -> Vec<usize>>(
    generate: &G,
    given: Seq<Vec<usize>>,
    num_traces: nat,
    a: int,
) -> bool {
    &&& taken_in(traces_of(given), a as nat).len() < num_traces
    &&& call_ensures(generate, (a as usize, taken_before(traces_of(given), a)), given[a])
}

/// Whether `given` lists the traces of the attempts, attempt by attempt.
pub open spec fn attempts_of<G: Fn(usize, bool) -> Vec<usize>>(
    generate: &G,
    given: Seq<Vec<usize>>,
    num_traces: nat,
) -> bool {
    forall|a: int| 0 <= a < given.len() ==> #[trigger] attempt_made(generate, given, num_traces, a)
}

/// What is taken in among the first traces does not depend on the traces
/// after them.
pub proof fn lemma_taken_in_unchanged(fewer: Seq<Seq<usize>>, more: Seq<Seq<usize>>, upto: nat)
    requires
        upto <= fewer.len(),
        upto <= more.len(),
        forall|i: int| 0 <= i < upto ==> fewer[i] == more[i],
    ensures
        taken_in(more, upto) == taken_in(fewer, upto),
    decreases upto,
{
    if upto > 0 {
        lemma_taken_in_unchanged(fewer, more, (upto - 1) as nat);
        assert(fewer[upto - 1] == more[upto - 1]);
    }
}

/// One more attempt: a list of attempts stays one when the trace that
/// `generate` gives next is added, and what was taken in before stays.
pub proof fn lemma_attempt_added<G: Fn(usize, bool) -> Vec<usize>>(
    generate: &G,
    asked: Seq<Vec<usize>>,
    trace: Vec<usize>,
    num_traces: nat,
    stored: bool,
)
    requires
        asked.len() <= usize::MAX,
        attempts_of(generate, asked, num_traces),
        taken_in(traces_of(asked), asked.len()).len() < num_traces,
        stored == taken_before(traces_of(asked), asked.len() as int),
        call_ensures(generate, (asked.len() as usize, stored), trace),
    ensures
        attempts_of(generate, asked.push(trace), num_traces),
        traces_of(asked.push(trace))[asked.len() as int] == trace@,
        taken_in(traces_of(asked.push(trace)), asked.len()) == taken_in(
            traces_of(asked),
            asked.len(),
        ),
{
    let given = asked.push(trace);
    let fewer = traces_of(asked);
    let more = traces_of(given);
    assert forall|i: int| 0 <= i < fewer.len() implies fewer[i] == more[i] by {
        assert(given[i] == asked[i]);
    }
    assert forall|a: int| 0 <= a < given.len() implies #[trigger] attempt_made(
        generate,
        given,
        num_traces,
        a,
    ) by {
        lemma_taken_in_unchanged(fewer, more, a as nat);
        if a > 0 {
            lemma_taken_in_unchanged(fewer, more, (a - 1) as nat);
            assert(fewer[a - 1] == more[a - 1]);
        }
        assert(taken_before(more, a) == taken_before(fewer, a));
        if a < asked.len() {
            assert(attempt_made(generate, asked, num_traces, a));
            assert(given[a] == asked[a]);
        }
    }
    lemma_taken_in_unchanged(fewer, more, asked.len());
}

impl<'a> RagtimerBuilder<'a> {
    /// Collects traces into `explicit_model` until `num_traces` new ones
    /// are taken in or `max_attempts` traces were asked for.
    ///
    /// `generate` gives the trace of each attempt; it is told the number
    /// of the attempt and whether the trace of the attempt before was
    /// taken in. A trace is taken in when it is not empty and was not
    /// taken in before; it is then stored as far as it can be. The result lists the traces taken in, in order, and the
    /// number of attempts made.
    pub fn add_rl_traces<G: Fn(usize, bool) -> Vec<usize>>(
        &mut self,
        explicit_model: &mut PrismVasModel,
        num_traces: usize,
        max_attempts: usize,
        generate: &G,
    ) -> (r: (Vec<Vec<usize>>, usize))
        requires
            forall|attempt: usize, stored: bool| call_requires(generate, (attempt, stored)),
            old(self).abstract_model@.well_formed(),
            old(explicit_model).well_formed(),
            old(explicit_model).dimension() == old(self).abstract_model@.dimension(),
            old(explicit_model).vectors()[1] == old(self).abstract_model@.initial[0],
        ensures
            final(self).abstract_model == old(self).abstract_model,
            final(self).model_built == old(self).model_built,
            final(explicit_model).well_formed(),
            final(explicit_model).variable_names == old(explicit_model).variable_names,
            final(explicit_model).m_type == old(explicit_model).m_type,
            r.0.len() <= num_traces,
            r.1 <= max_attempts,
            r.0.len() == num_traces || r.1 == max_attempts,
            all_new(traces_of(r.0@)),
            forall|j: int| 0 <= j < r.0.len() ==> generated_by(generate, #[trigger] r.0[j]@),
            exists|given: Seq<Vec<usize>>|
                {
                    &&& given.len() == r.1
                    &&& #[trigger] attempts_of(generate, given, num_traces as nat)
                    &&& traces_of(r.0@) == taken_in(traces_of(given), r.1 as nat)
                },
            final(explicit_model).graph() == seeded(
                old(explicit_model).graph(),
                old(self).abstract_model@.transitions,
                old(self).abstract_model@.target,
                old(self).abstract_model@.initial[0],
                traces_of(r.0@),
                r.0@.len(),
            ),
    {
        let ghost g0 = explicit_model.graph();
        let ghost mut given: Seq<Vec<usize>> = Seq::empty();
        let ghost ts = self.abstract_model@.transitions;
        let ghost target = self.abstract_model@.target;
        let ghost init = self.abstract_model@.initial[0];
        let mut seen = TraceTrieNode::new();
        let mut accepted: Vec<Vec<usize>> = Vec::new();
        let mut attempt: usize = 0;
        let mut stored = false;
        while accepted.len() < num_traces && attempt < max_attempts
            invariant
                attempt <= max_attempts,
                accepted.len() <= num_traces,
                forall|a: usize, b: bool| call_requires(generate, (a, b)),
                self.abstract_model == old(self).abstract_model,
                self.model_built == old(self).model_built,
                ts == self.abstract_model@.transitions,
                target == self.abstract_model@.target,
                init == self.abstract_model@.initial[0],
                g0 == old(explicit_model).graph(),
                self.abstract_model@.well_formed(),
                explicit_model.well_formed(),
                explicit_model.dimension() == self.abstract_model@.dimension(),
                explicit_model.vectors()[1] == init,
                explicit_model.variable_names == old(explicit_model).variable_names,
                explicit_model.m_type == old(explicit_model).m_type,
                seen.stored() == traces_of(accepted@).to_set(),
                all_new(traces_of(accepted@)),
                forall|j: int|
                    0 <= j < accepted.len() ==> generated_by(generate, #[trigger] accepted[j]@),
                explicit_model.graph() == seeded(
                    g0,
                    ts,
                    target,
                    init,
                    traces_of(accepted@),
                    accepted@.len(),
                ),
                given.len() == attempt,
                attempts_of(generate, given, num_traces as nat),
                traces_of(accepted@) == taken_in(traces_of(given), attempt as nat),
                stored == taken_before(traces_of(given), attempt as int),
            decreases max_attempts - attempt,
        {
            let trace = generate(attempt, stored);
            let ghost before = traces_of(accepted@);
            let ghost held = seen;
            let ghost asked = given;
            proof {
                lemma_attempt_added(generate, asked, trace, num_traces as nat, stored);
                given = given.push(trace);
                assert(is_new(before, trace@) == (trace@.len() > 0 && !held.stored().contains(
                    trace@,
                ))) by {
                    reveal(is_new);
                    assert(before.to_set().contains(trace@) == before.contains(trace@));
                }
            }
            let verdict = self.offer_trace(&mut seen, explicit_model, &trace);
            stored = match verdict {
                TraceVerdict::RejectedEmpty => false,
                TraceVerdict::RejectedKnown => false,
                _ => true,
            };
            proof {
                assert(stored == is_new(before, trace@));
                assert(stored == taken_before(traces_of(given), attempt + 1));
            }
            if stored {
                proof {
                    assert(generated_by(generate, trace@));
                }
                accepted.push(trace);
                proof {
                    let now = traces_of(accepted@);
                    assert(now =~= before.push(trace@));
                    reveal(is_new);
                    assert forall|i: int, j: int| 0 <= i < j < now.len() implies #[trigger] now[i]
                        != #[trigger] now[j] by {
                        if j == before.len() {
                            assert(before[i] == now[i]);
                            assert(before.contains(before[i]));
                        } else {
                            assert(before[i] == now[i] && before[j] == now[j]);
                        }
                    }
                    assert(seen.stored() =~= now.to_set()) by {
                        assert forall|other: Seq<usize>|
                            now.to_set().contains(other) == (other == trace@ || before.to_set().contains(
                                other,
                            )) by {
                            if now.contains(other) {
                                let i = choose|i: int| 0 <= i < now.len() && now[i] == other;
                                if i < before.len() {
                                    assert(before[i] == other);
                                    assert(before.contains(other));
                                }
                            }
                            if before.contains(other) {
                                let i = choose|i: int| 0 <= i < before.len() && before[i] == other;
                                assert(now[i] == other);
                            }
                            if other == trace@ {
                                assert(now[before.len() as int] == other);
                            }
                        }
                    }
                    lemma_seeded_unchanged(g0, ts, target, init, before, now, before.len());
                    assert forall|j: int| 0 <= j < accepted.len() implies generated_by(
                        generate,
                        #[trigger] accepted[j]@,
                    ) by {
                        if j < before.len() {
                            assert(accepted[j]@ == before[j]);
                        }
                    }
                }
            } else {
                proof {
                    assert(traces_of(accepted@) =~= before);
                    reveal(is_new);
                    assert(seen.stored() =~= before.to_set()) by {
                        if trace@.len() > 0 {
                            assert(before.contains(trace@));
                            assert(before.to_set().insert(trace@) =~= before.to_set());
                        }
                    }
                }
            }
            attempt += 1;
        }
        (accepted, attempt)
    }

    /// Builds the state space once: sets `explicit_model` up for the
    /// model and collects traces into it as `add_rl_traces` does. A
    /// builder that has built does nothing.
    pub fn build<G: Fn(usize, bool) -> Vec<usize>>(
        &mut self,
        explicit_model: &mut PrismVasModel,
        num_traces: usize,
        max_attempts: usize,
        generate: &G,
    ) -> (r: (Vec<Vec<usize>>, usize))
        requires
            forall|attempt: usize, stored: bool| call_requires(generate, (attempt, stored)),
            old(self).abstract_model@.well_formed(),
        ensures
            final(self).abstract_model == old(self).abstract_model,
            final(self).model_built,
            old(self).model_built ==> *final(explicit_model) == *old(explicit_model) && r.0.len() == 0
                && r.1 == 0,
            !old(self).model_built ==> {
                &&& final(explicit_model).well_formed()
                &&& name_specs(final(explicit_model).variable_names@) == old(
                    self,
                ).abstract_model@.names
                &&& final(explicit_model).m_type == old(self).abstract_model@.m_type
                &&& r.0.len() <= num_traces
                &&& r.1 <= max_attempts
                &&& (r.0.len() == num_traces || r.1 == max_attempts)
                &&& all_new(traces_of(r.0@))
                &&& forall|j: int| 0 <= j < r.0.len() ==> generated_by(generate, #[trigger] r.0[j]@)
                &&& exists|given: Seq<Vec<usize>>|
                    {
                        &&& given.len() == r.1
                        &&& #[trigger] attempts_of(generate, given, num_traces as nat)
                        &&& traces_of(r.0@) == taken_in(traces_of(given), r.1 as nat)
                    }
                &&& final(explicit_model).graph() == seeded(
                    initial_graph(
                        old(self).abstract_model@.dimension(),
                        old(self).abstract_model@.initial[0],
                    ),
                    old(self).abstract_model@.transitions,
                    old(self).abstract_model@.target,
                    old(self).abstract_model@.initial[0],
                    traces_of(r.0@),
                    r.0@.len(),
                )
            },
    {
        if self.model_built {
            return (Vec::new(), 0);
        }
        *explicit_model = self.prepare();
        proof {
            assert(name_specs(explicit_model.variable_names@).len()
                == explicit_model.variable_names.len());
        }
        let r = self.add_rl_traces(explicit_model, num_traces, max_attempts, generate);
        self.model_built = true;
        r
    }
}

/// Seeding from the first traces does not depend on the traces after them.
pub proof fn lemma_seeded_unchanged(
    g: GraphSpec,
    ts: Seq<TransitionSpec>,
    target: VasProperty,
    init: Seq<VasValue>,
    fewer: Seq<Seq<usize>>,
    more: Seq<Seq<usize>>,
    upto: nat,
)
    requires
        upto <= fewer.len(),
        fewer.is_prefix_of(more),
    ensures
        seeded(g, ts, target, init, more, upto) == seeded(g, ts, target, init, fewer, upto),
    decreases upto,
{
    if upto > 0 {
        lemma_seeded_unchanged(g, ts, target, init, fewer, more, (upto - 1) as nat);
        assert(fewer =~= more.subrange(0, fewer.len() as int));
        assert(fewer[upto - 1] == more[upto - 1]);
    }
}

} // verus!
