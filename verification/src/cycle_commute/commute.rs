//! The cycle-and-commute construction: a state space seeded from traces is
//! grown by firing, from the states of each trace, the transitions that are
//! enabled all along it, and by firing from every state the cycles that
//! can fire there.

use crate::builder::ragtimer::{has_negative, store_step, TraceError};
use crate::model::explicit_model::{initial_graph, GraphSpec, PrismVasModel};
use crate::model::vas_model::{
    name_specs, position_of_name, step_fits, stepped, AbstractVas, ModelSpec, TransitionSpec,
};
use crate::model::vector::{as_ints, checked_combine, combine, copy_of, filled, VasValue};
use itertools::Itertools;
use vstd::prelude::*;
use vstd::seq_lib::{commutative_foldl, lemma_fold_left_permutation};

verus! {

/// How deep the commute expansion goes.
pub const MAX_DEPTH: usize = 2;

/// The longest cycles that are looked for.
pub const MAX_CYCLE_LENGTH: usize = 2;

/// The lists of `lists`, each read as a sequence.
pub open spec fn rows(lists: Seq<Vec<usize>>) -> Seq<Seq<usize>> {
    Seq::new(lists.len(), |j: int| lists[j]@)
}

/// Whether `s` never falls from one entry to the next.
pub open spec fn rising(s: Seq<usize>) -> bool {
    forall|a: int, b: int| 0 <= a <= b < s.len() ==> s[a] <= s[b]
}

/// Whether `s` is a choice of `size` numbers below `n`, repeats allowed,
/// written in rising order.
pub open spec fn is_choice(s: Seq<usize>, n: nat, size: nat) -> bool {
    &&& s.len() == size
    &&& rising(s)
    &&& forall|a: int| 0 <= a < s.len() ==> s[a] < n
}

/// What `combinations_with_replacement` of itertools yields for the
/// numbers below `n` and the size `size`, in the order in which it yields
/// it.
pub uninterp spec fn choices_in_order(n: nat, size: nat) -> Seq<Seq<usize>>;

/// What `permutations` of itertools yields for `items` at full length, in
/// the order in which it yields it.
pub uninterp spec fn arrangements_in_order(items: Seq<usize>) -> Seq<Seq<usize>>;

/// The entries of `s` without those that occurred before, in the order of
/// their first occurrence.
pub open spec fn first_occurrences(s: Seq<Seq<usize>>) -> Seq<Seq<usize>>
    decreases s.len(),
{
    if s.len() == 0 {
        Seq::empty()
    } else {
        let before = first_occurrences(s.drop_last());
        if s.drop_last().contains(s.last()) {
            before
        } else {
            before.push(s.last())
        }
    }
}

/// All choices of `size` numbers below `n`, repeats allowed. Wraps
/// `combinations_with_replacement` of itertools on the range `0..n`. The
/// claims: the result is what that function yields; every entry is such a
/// choice, in rising order; and every such choice is an entry.
#[verifier::external_body]
fn choices(n: usize, size: usize) -> (r: Vec<Vec<usize>>)
    ensures
        rows(r@) == choices_in_order(n as nat, size as nat),
        forall|j: int| 0 <= j < r.len() ==> is_choice(#[trigger] r[j]@, n as nat, size as nat),
        forall|s: Seq<usize>|
            is_choice(s, n as nat, size as nat) ==> #[trigger] rows(r@).contains(s),
{
    (0..n).combinations_with_replacement(size).collect()
}

/// All arrangements of `items`. Wraps `permutations` of itertools at the
/// full length of `items`. The claims: the result is what that function
/// yields; every entry holds the same numbers as `items`, each as often;
/// and every sequence that does is an entry.
#[verifier::external_body]
fn arrangements(items: &Vec<usize>) -> (r: Vec<Vec<usize>>)
    ensures
        rows(r@) == arrangements_in_order(items@),
        forall|j: int| 0 <= j < r.len() ==> (#[trigger] r[j]@).to_multiset() == items@.to_multiset(),
        forall|s: Seq<usize>|
            s.to_multiset() == items@.to_multiset() ==> #[trigger] rows(r@).contains(s),
{
    items.iter().copied().permutations(items.len()).collect()
}

/// `lists` without the entries that occurred before. Wraps `unique` of
/// itertools, which keeps the first of equal items and the order.
#[verifier::external_body]
fn without_repeats(lists: Vec<Vec<usize>>) -> (r: Vec<Vec<usize>>)
    ensures
        rows(r@) == first_occurrences(rows(lists@)),
{
    lists.into_iter().unique().collect()
}

/// The state after the first `m` steps along `order` from `v`, where
/// `order` lists positions in `ts`.
pub open spec fn state_at(ts: Seq<TransitionSpec>, v: Seq<VasValue>, order: Seq<usize>, m: nat) -> Seq<
    VasValue,
>
    decreases m,
{
    if m == 0 {
        v
    } else {
        stepped(state_at(ts, v, order, (m - 1) as nat), ts[order[m - 1] as int])
    }
}

/// Whether `v` has a negative component.
pub open spec fn negative(v: Seq<VasValue>) -> bool {
    exists|i: int| 0 <= i < v.len() && #[trigger] v[i] < 0
}

/// Whether the first `upto` steps along `order` from `v` can be taken:
/// each stays within `VasValue` and leads to a state without a negative
/// value.
pub open spec fn path_clear(ts: Seq<TransitionSpec>, v: Seq<VasValue>, order: Seq<usize>, upto: nat) -> bool
    decreases upto,
{
    if upto == 0 {
        true
    } else {
        &&& path_clear(ts, v, order, (upto - 1) as nat)
        &&& step_fits(state_at(ts, v, order, (upto - 1) as nat), ts[order[upto - 1] as int])
        &&& !negative(state_at(ts, v, order, upto))
    }
}

/// Whether every entry of `order` is a position in a list of `n`
/// transitions.
pub open spec fn positions_within(order: Seq<usize>, n: nat) -> bool {
    forall|a: int| 0 <= a < order.len() ==> #[trigger] order[a] < n
}

/// Whether the transitions at the positions `order`, fired one after the
/// other from the zero vector, stay within `VasValue` and end on the zero
/// vector again: whether their updates add up to nothing.
pub open spec fn adds_to_zero(ts: Seq<TransitionSpec>, order: Seq<usize>, n: nat) -> bool {
    let zero = Seq::new(n, |i: int| 0i128);
    &&& forall|m: nat|
        m < order.len() ==> step_fits(#[trigger] state_at(ts, zero, order, m), ts[order[m as int] as int])
    &&& state_at(ts, zero, order, order.len()) == zero
}

/// The vector that firing the transition at position `k` leads to from
/// `v`, or `None` when a value leaves the range of `VasValue`.
fn fire_position(model: &AbstractVas, v: &Vec<VasValue>, k: usize) -> (r: Option<Vec<VasValue>>)
    requires
        model@.well_formed(),
        v.len() == model@.dimension(),
        k < model.transitions.len(),
    ensures
        r is Some <==> step_fits(v@, model@.transitions[k as int]),
        r matches Some(next) ==> next@ == stepped(v@, model@.transitions[k as int]),
{
    let t = &model.transitions[k];
    proof {
        assert(t@ == model@.transitions[k as int]);
        assert(model@.transitions[k as int].has_dimension(model@.dimension()));
    }
    match checked_combine(v, &t.update_vector, 1) {
        Some(next) => {
            proof {
                let sum = combine(v@, t@.update, 1);
                assert(as_ints(next@) == sum);
                assert(as_ints(next@).len() == next.len());
                assert(sum.len() == v.len());
                assert forall|i: int| 0 <= i < next.len() implies next@[i] == stepped(v@, t@)[i] by {
                    assert(as_ints(next@)[i] == next@[i]);
                    assert(sum[i] == v@[i] + t@.update[i] * 1);
                }
                assert(next@ =~= stepped(v@, t@));
            }
            Some(next)
        },
        None => None,
    }
}

/// Whether all steps along `order` from `v` can be taken.
fn ordering_clear(model: &AbstractVas, v: &Vec<VasValue>, order: &Vec<usize>) -> (r: bool)
    requires
        model@.well_formed(),
        v.len() == model@.dimension(),
        positions_within(order@, model@.transitions.len()),
    ensures
        r == path_clear(model@.transitions, v@, order@, order@.len()),
{
    let ghost ts = model@.transitions;
    let mut current = copy_of(v);
    let mut m: usize = 0;
    while m < order.len()
        invariant
            m <= order.len(),
            ts == model@.transitions,
            model@.well_formed(),
            positions_within(order@, ts.len()),
            current.len() == model@.dimension(),
            current@ == state_at(ts, v@, order@, m as nat),
            path_clear(ts, v@, order@, m as nat),
        decreases order.len() - m,
    {
        let k = order[m];
        assert(order@[m as int] < ts.len());
        let next = match fire_position(model, &current, k) {
            Some(next) => next,
            None => {
                proof {
                    lemma_blocked_stays_blocked(ts, v@, order@, (m + 1) as nat, order@.len());
                }
                return false;
            },
        };
        if has_negative(&next) {
            proof {
                assert(negative(state_at(ts, v@, order@, (m + 1) as nat)));
                lemma_blocked_stays_blocked(ts, v@, order@, (m + 1) as nat, order@.len());
            }
            return false;
        }
        current = next;
        m += 1;
    }
    true
}

/// A path that cannot be taken for some steps cannot be taken for more.
pub proof fn lemma_blocked_stays_blocked(
    ts: Seq<TransitionSpec>,
    v: Seq<VasValue>,
    order: Seq<usize>,
    upto: nat,
    total: nat,
)
    requires
        upto <= total,
        !path_clear(ts, v, order, upto),
    ensures
        !path_clear(ts, v, order, total),
    decreases total,
{
    if upto < total {
        lemma_blocked_stays_blocked(ts, v, order, upto, (total - 1) as nat);
    }
}

/// Whether the updates of the transitions at the positions `order` add up
/// to nothing.
fn is_cycle(model: &AbstractVas, order: &Vec<usize>) -> (r: bool)
    requires
        model@.well_formed(),
        positions_within(order@, model@.transitions.len()),
    ensures
        r == adds_to_zero(model@.transitions, order@, model@.dimension()),
{
    let ghost ts = model@.transitions;
    let n = model.variable_names.len();
    let zero = filled(n, 0);
    let mut current = filled(n, 0);
    let mut m: usize = 0;
    while m < order.len()
        invariant
            m <= order.len(),
            ts == model@.transitions,
            n == model@.dimension(),
            model@.well_formed(),
            positions_within(order@, ts.len()),
            zero@ == Seq::new(n as nat, |i: int| 0i128),
            current.len() == n,
            current@ == state_at(ts, zero@, order@, m as nat),
            forall|j: nat|
                j < m ==> step_fits(
                    #[trigger] state_at(ts, zero@, order@, j),
                    ts[order@[j as int] as int],
                ),
        decreases order.len() - m,
    {
        let k = order[m];
        assert(order@[m as int] < ts.len());
        match fire_position(model, &current, k) {
            Some(next) => {
                current = next;
            },
            None => {
                assert(!step_fits(state_at(ts, zero@, order@, m as nat), ts[order@[m as int] as int]));
                return false;
            },
        }
        m += 1;
    }
    let mut i: usize = 0;
    while i < n
        invariant
            i <= n,
            n == model@.dimension(),
            ts == model@.transitions,
            zero@ == Seq::new(n as nat, |i: int| 0i128),
            current.len() == n,
            current@ == state_at(ts, zero@, order@, order@.len()),
            forall|j: int| 0 <= j < i ==> current[j] == 0,
        decreases n - i,
    {
        if current[i] != 0 {
            assert(current@ != Seq::new(n as nat, |i: int| 0i128)) by {
                assert(Seq::new(n as nat, |i: int| 0i128)[i as int] == 0);
            }
            return false;
        }
        i += 1;
    }
    assert(current@ =~= Seq::new(n as nat, |i: int| 0i128));
    true
}

impl GraphSpec {
    /// Whether no two states other than the sink have the same vector.
    pub open spec fn distinct(self) -> bool {
        forall|a: int, b: int|
            1 <= a < self.vectors.len() && 1 <= b < self.vectors.len() && #[trigger] self.vectors[a]
                == #[trigger] self.vectors[b] ==> a == b
    }
}

/// Whether `g` has the states and the edges of the first `upto` steps
/// along `order` from `v`.
pub open spec fn path_present(
    g: GraphSpec,
    ts: Seq<TransitionSpec>,
    v: Seq<VasValue>,
    order: Seq<usize>,
    upto: nat,
) -> bool
    decreases upto,
{
    if upto == 0 {
        g.has_vector(v)
    } else {
        &&& path_present(g, ts, v, order, (upto - 1) as nat)
        &&& g.has_vector(state_at(ts, v, order, upto))
        &&& g.has_edge(
            g.id_of(state_at(ts, v, order, (upto - 1) as nat)),
            g.id_of(state_at(ts, v, order, upto)),
        )
    }
}

/// A vector that a state space has, it has at the same id in every
/// extension without repeated vectors.
pub proof fn lemma_id_kept(g: GraphSpec, later: GraphSpec, v: Seq<VasValue>)
    requires
        g.extended_by(later),
        later.distinct(),
        later.vectors.len() <= usize::MAX,
        g.has_vector(v),
    ensures
        later.has_vector(v),
        later.id_of(v) == g.id_of(v),
        1 <= g.id_of(v) < g.vectors.len(),
{
    let chosen = choose|id: int| 1 <= id < g.vectors.len() && #[trigger] g.vectors[id] == v;
    assert(g.vectors.len() <= later.vectors.len());
    let id = g.id_of(v);
    assert(id == chosen);
    assert(g.vectors =~= later.vectors.subrange(0, g.vectors.len() as int));
    assert(later.vectors[id as int] == g.vectors[id as int]);
    let picked = choose|id: int| 1 <= id < later.vectors.len() && #[trigger] later.vectors[id] == v;
    let other = later.id_of(v);
    assert(other == picked);
    assert(later.vectors[other as int] == v);
}

/// A path that a state space has, every extension without repeated vectors
/// has too.
pub proof fn lemma_path_kept(
    g: GraphSpec,
    later: GraphSpec,
    ts: Seq<TransitionSpec>,
    v: Seq<VasValue>,
    order: Seq<usize>,
    upto: nat,
)
    requires
        g.extended_by(later),
        later.distinct(),
        later.vectors.len() <= usize::MAX,
        path_present(g, ts, v, order, upto),
    ensures
        path_present(later, ts, v, order, upto),
    decreases upto,
{
    if upto == 0 {
        lemma_id_kept(g, later, v);
    } else {
        lemma_path_kept(g, later, ts, v, order, (upto - 1) as nat);
        let a = state_at(ts, v, order, (upto - 1) as nat);
        let b = state_at(ts, v, order, upto);
        lemma_path_has_states(g, ts, v, order, (upto - 1) as nat);
        lemma_id_kept(g, later, a);
        lemma_id_kept(g, later, b);
        let e = choose|e: int|
            0 <= e < g.edges.len() && (#[trigger] g.edges[e]).from_state == g.id_of(a)
                && g.edges[e].to_state == g.id_of(b);
        assert(g.edges =~= later.edges.subrange(0, g.edges.len() as int));
        assert(later.edges[e] == g.edges[e]);
    }
}

/// A state space that has a path has the state that the path ends on.
pub proof fn lemma_path_has_states(
    g: GraphSpec,
    ts: Seq<TransitionSpec>,
    v: Seq<VasValue>,
    order: Seq<usize>,
    upto: nat,
)
    requires
        path_present(g, ts, v, order, upto),
    ensures
        g.has_vector(state_at(ts, v, order, upto)),
{
}

impl PrismVasModel {
    /// In a well-formed state space no two states other than the sink
    /// have the same vector.
    pub proof fn lemma_graph_distinct(&self)
        requires
            self.well_formed(),
        ensures
            self.graph().distinct(),
    {
        assert forall|a: int, b: int|
            1 <= a < self.graph().vectors.len() && 1 <= b < self.graph().vectors.len()
                && #[trigger] self.graph().vectors[a]
                == #[trigger] self.graph().vectors[b] implies a == b by {
            self.lemma_vectors_distinct(a, b);
        }
    }
}

/// The state space `g` after the first `upto` steps along `order` from
/// `v` were stored in it, each with the state that it leads to where the
/// state space had none for it, and with its edge where the two states
/// were not joined.
pub open spec fn with_path(
    g: GraphSpec,
    ts: Seq<TransitionSpec>,
    v: Seq<VasValue>,
    order: Seq<usize>,
    upto: nat,
) -> GraphSpec
    decreases upto,
{
    if upto == 0 {
        g
    } else {
        let before = with_path(g, ts, v, order, (upto - 1) as nat);
        before.with_step(
            before.id_of(state_at(ts, v, order, (upto - 1) as nat)),
            state_at(ts, v, order, upto),
            ts[order[upto - 1] as int].id,
            None,
        )
    }
}

/// The state space `g` after the paths from `v` along the first `upto`
/// of `orders` were stored in it, one after the other, leaving out every
/// path that cannot be taken to its end.
pub open spec fn with_orders(
    g: GraphSpec,
    ts: Seq<TransitionSpec>,
    v: Seq<VasValue>,
    orders: Seq<Seq<usize>>,
    upto: nat,
) -> GraphSpec
    decreases upto,
{
    if upto == 0 {
        g
    } else {
        let before = with_orders(g, ts, v, orders, (upto - 1) as nat);
        let order = orders[upto - 1];
        if path_clear(ts, v, order, order.len()) {
            with_path(before, ts, v, order, order.len())
        } else {
            before
        }
    }
}

/// The state space `g` after the paths along `orders` were stored in it
/// from each of the states `1..upto` of `base`, state after state.
pub open spec fn with_orders_from_all(
    g: GraphSpec,
    ts: Seq<TransitionSpec>,
    base: Seq<Seq<VasValue>>,
    upto: nat,
    orders: Seq<Seq<usize>>,
) -> GraphSpec
    decreases upto,
{
    if upto <= 1 {
        g
    } else {
        with_orders(
            with_orders_from_all(g, ts, base, (upto - 1) as nat, orders),
            ts,
            base[upto - 1],
            orders,
            orders.len(),
        )
    }
}

/// Fires the transitions at the positions `order` one after the other
/// from the state `start` and stores every state and edge on the way that
/// `explicit_model` does not have yet.
fn fire_ordering(
    model: &AbstractVas,
    explicit_model: &mut PrismVasModel,
    start: usize,
    order: &Vec<usize>,
)
    requires
        model@.well_formed(),
        old(explicit_model).well_formed(),
        old(explicit_model).dimension() == model@.dimension(),
        1 <= start < old(explicit_model).states.len(),
        positions_within(order@, model@.transitions.len()),
        path_clear(
            model@.transitions,
            old(explicit_model).vectors()[start as int],
            order@,
            order@.len(),
        ),
    ensures
        final(explicit_model).well_formed(),
        final(explicit_model).variable_names == old(explicit_model).variable_names,
        final(explicit_model).m_type == old(explicit_model).m_type,
        old(explicit_model).graph().fires_only(model@.transitions)
            ==> final(explicit_model).graph().fires_only(model@.transitions),
        old(explicit_model).graph().extended_by(final(explicit_model).graph()),
        path_present(
            final(explicit_model).graph(),
            model@.transitions,
            old(explicit_model).vectors()[start as int],
            order@,
            order@.len(),
        ),
        final(explicit_model).graph() == with_path(
            old(explicit_model).graph(),
            model@.transitions,
            old(explicit_model).vectors()[start as int],
            order@,
            order@.len(),
        ),
{
    let ghost ts = model@.transitions;
    let ghost g0 = explicit_model.graph();
    let ghost v = explicit_model.vectors()[start as int];
    let mut current = copy_of(&explicit_model.states[start].vector);
    let mut current_id = start;
    let mut m: usize = 0;
    proof {
        assert(g0.vectors[start as int] == v);
        assert(g0.has_vector(v));
        assert(g0.vectors =~= g0.vectors.subrange(0, g0.vectors.len() as int));
        assert(g0.edges =~= g0.edges.subrange(0, g0.edges.len() as int));
    }
    while m < order.len()
        invariant
            m <= order.len(),
            ts == model@.transitions,
            g0 == old(explicit_model).graph(),
            v == old(explicit_model).vectors()[start as int],
            model@.well_formed(),
            explicit_model.well_formed(),
            explicit_model.dimension() == model@.dimension(),
            explicit_model.variable_names == old(explicit_model).variable_names,
            explicit_model.m_type == old(explicit_model).m_type,
            g0.fires_only(ts) ==> explicit_model.graph().fires_only(ts),
            g0.extended_by(explicit_model.graph()),
            positions_within(order@, ts.len()),
            path_clear(ts, v, order@, order@.len()),
            current@ == state_at(ts, v, order@, m as nat),
            1 <= current_id < explicit_model.states.len(),
            explicit_model.vectors()[current_id as int] == current@,
            path_present(explicit_model.graph(), ts, v, order@, m as nat),
            explicit_model.graph() == with_path(g0, ts, v, order@, m as nat),
        decreases order.len() - m,
    {
        let k = order[m];
        proof {
            assert(order@[m as int] < ts.len());
            lemma_clear_prefix(ts, v, order@, (m + 1) as nat, order@.len());
        }
        let next = match fire_position(model, &current, k) {
            Some(next) => next,
            None => {
                return ;
            },
        };
        let ghost before = explicit_model.graph();
        proof {
            assert(before.vectors[current_id as int] == current@);
            assert(before.has_vector(current@));
            explicit_model.lemma_vectors_distinct(before.id_of(current@) as int, current_id as int);
            assert(model.transitions[k as int]@ == ts[k as int]);
        }
        let (id, _) = store_step(
            explicit_model,
            current_id,
            &next,
            model.transitions[k].transition_id,
            None,
        );
        proof {
            let now = explicit_model.graph();
            assert(model.transitions[k as int]@ == ts[k as int]);
            if before.fires_only(ts) {
                assert(0 <= k < ts.len());
                assert(now.fires_only(ts));
            }
            g0.lemma_extended_twice(before, now);
            explicit_model.lemma_graph_distinct();
            lemma_path_kept(before, now, ts, v, order@, m as nat);
            assert(now.vectors[id as int] == next@);
            assert(now.has_vector(next@));
            assert(now.vectors[current_id as int] == current@) by {
                assert(before.vectors =~= now.vectors.subrange(0, before.vectors.len() as int));
            }
            assert(now.has_vector(current@));
            explicit_model.lemma_vectors_distinct(now.id_of(current@) as int, current_id as int);
            explicit_model.lemma_vectors_distinct(now.id_of(next@) as int, id as int);
            assert(now.has_edge(current_id, id)) by {
                let e = choose|e: int|
                    0 <= e < explicit_model.edges().len() && (
                    #[trigger] explicit_model.edges()[e]).from_state == current_id
                        && explicit_model.edges()[e].to_state == id;
                assert(now.edges[e].from_state == current_id);
            }
        }
        current = next;
        current_id = id;
        m += 1;
    }
}

/// A path that can be taken to its end can be taken for fewer steps.
pub proof fn lemma_clear_prefix(
    ts: Seq<TransitionSpec>,
    v: Seq<VasValue>,
    order: Seq<usize>,
    upto: nat,
    total: nat,
)
    requires
        upto <= total,
        path_clear(ts, v, order, total),
    ensures
        path_clear(ts, v, order, upto),
    decreases total,
{
    if upto < total {
        lemma_clear_prefix(ts, v, order, upto, (total - 1) as nat);
    }
}

/// Whether `g` has the path along every one of the first `upto` of
/// `orders` that can be taken from `v`.
pub open spec fn covered(
    g: GraphSpec,
    ts: Seq<TransitionSpec>,
    v: Seq<VasValue>,
    orders: Seq<Seq<usize>>,
    upto: nat,
) -> bool {
    forall|a: int|
        0 <= a < upto && path_clear(ts, v, #[trigger] orders[a], orders[a].len()) ==> path_present(
            g,
            ts,
            v,
            orders[a],
            orders[a].len(),
        )
}

/// Whether `g` has, from each of the states `1..upto` of `base`, the path
/// along every one of `orders` that can be taken from it.
pub open spec fn covered_from_all(
    g: GraphSpec,
    ts: Seq<TransitionSpec>,
    base: Seq<Seq<VasValue>>,
    upto: nat,
    orders: Seq<Seq<usize>>,
) -> bool {
    forall|s: int| 1 <= s < upto ==> covered(g, ts, #[trigger] base[s], orders, orders.len())
}

/// What is covered stays covered in every extension without repeated
/// vectors.
pub proof fn lemma_covered_kept(
    g: GraphSpec,
    later: GraphSpec,
    ts: Seq<TransitionSpec>,
    v: Seq<VasValue>,
    orders: Seq<Seq<usize>>,
    upto: nat,
)
    requires
        g.extended_by(later),
        later.distinct(),
        later.vectors.len() <= usize::MAX,
        covered(g, ts, v, orders, upto),
    ensures
        covered(later, ts, v, orders, upto),
{
    assert forall|a: int|
        0 <= a < upto && path_clear(ts, v, #[trigger] orders[a], orders[a].len()) implies path_present(
        later,
        ts,
        v,
        orders[a],
        orders[a].len(),
    ) by {
        lemma_path_kept(g, later, ts, v, orders[a], orders[a].len());
    }
}

/// What is covered from all states stays covered in every extension
/// without repeated vectors.
pub proof fn lemma_covered_from_all_kept(
    g: GraphSpec,
    later: GraphSpec,
    ts: Seq<TransitionSpec>,
    base: Seq<Seq<VasValue>>,
    upto: nat,
    orders: Seq<Seq<usize>>,
)
    requires
        g.extended_by(later),
        later.distinct(),
        later.vectors.len() <= usize::MAX,
        covered_from_all(g, ts, base, upto, orders),
    ensures
        covered_from_all(later, ts, base, upto, orders),
{
    assert forall|s: int| 1 <= s < upto implies covered(
        later,
        ts,
        #[trigger] base[s],
        orders,
        orders.len(),
    ) by {
        lemma_covered_kept(g, later, ts, base[s], orders, orders.len());
    }
}

/// Fires from the state `start` every one of `orders` that can be taken
/// from it.
fn fire_from_state(
    model: &AbstractVas,
    explicit_model: &mut PrismVasModel,
    start: usize,
    orders: &Vec<Vec<usize>>,
)
    requires
        model@.well_formed(),
        old(explicit_model).well_formed(),
        old(explicit_model).dimension() == model@.dimension(),
        1 <= start < old(explicit_model).states.len(),
        forall|a: int|
            0 <= a < orders.len() ==> positions_within(
                #[trigger] orders[a]@,
                model@.transitions.len(),
            ),
    ensures
        final(explicit_model).well_formed(),
        final(explicit_model).variable_names == old(explicit_model).variable_names,
        final(explicit_model).m_type == old(explicit_model).m_type,
        old(explicit_model).graph().fires_only(model@.transitions)
            ==> final(explicit_model).graph().fires_only(model@.transitions),
        old(explicit_model).graph().extended_by(final(explicit_model).graph()),
        covered(
            final(explicit_model).graph(),
            model@.transitions,
            old(explicit_model).vectors()[start as int],
            rows(orders@),
            orders@.len(),
        ),
        final(explicit_model).graph() == with_orders(
            old(explicit_model).graph(),
            model@.transitions,
            old(explicit_model).vectors()[start as int],
            rows(orders@),
            orders@.len(),
        ),
{
    let ghost ts = model@.transitions;
    let ghost g0 = explicit_model.graph();
    let ghost v = explicit_model.vectors()[start as int];
    let vector = copy_of(&explicit_model.states[start].vector);
    let mut a: usize = 0;
    proof {
        assert(g0.vectors =~= g0.vectors.subrange(0, g0.vectors.len() as int));
        assert(g0.edges =~= g0.edges.subrange(0, g0.edges.len() as int));
    }
    while a < orders.len()
        invariant
            a <= orders.len(),
            ts == model@.transitions,
            g0 == old(explicit_model).graph(),
            v == old(explicit_model).vectors()[start as int],
            vector@ == v,
            model@.well_formed(),
            explicit_model.well_formed(),
            explicit_model.dimension() == model@.dimension(),
            explicit_model.variable_names == old(explicit_model).variable_names,
            explicit_model.m_type == old(explicit_model).m_type,
            g0.fires_only(ts) ==> explicit_model.graph().fires_only(ts),
            g0.extended_by(explicit_model.graph()),
            1 <= start < old(explicit_model).states.len(),
            forall|b: int| 0 <= b < orders.len() ==> positions_within(#[trigger] orders[b]@, ts.len()),
            covered(explicit_model.graph(), ts, v, rows(orders@), a as nat),
            explicit_model.graph() == with_orders(g0, ts, v, rows(orders@), a as nat),
        decreases orders.len() - a,
    {
        let order = &orders[a];
        proof {
            assert(rows(orders@)[a as int] == orders[a as int]@);
            assert(positions_within(orders[a as int]@, ts.len()));
            assert(g0.vectors =~= explicit_model.graph().vectors.subrange(
                0,
                g0.vectors.len() as int,
            ));
            assert(explicit_model.vectors()[start as int] == v);
        }
        if ordering_clear(model, &vector, order) {
            let ghost before = explicit_model.graph();
            fire_ordering(model, explicit_model, start, order);
            proof {
                let now = explicit_model.graph();
                g0.lemma_extended_twice(before, now);
                explicit_model.lemma_graph_distinct();
                lemma_covered_kept(before, now, ts, v, rows(orders@), a as nat);
            }
        }
        proof {
            assert(rows(orders@)[a as int] == orders[a as int]@);
        }
        a += 1;
    }
}

/// Fires from each of the states `1..upto` every one of `orders` that can
/// be taken from it.
fn fire_from_all(
    model: &AbstractVas,
    explicit_model: &mut PrismVasModel,
    upto: usize,
    orders: &Vec<Vec<usize>>,
)
    requires
        model@.well_formed(),
        old(explicit_model).well_formed(),
        old(explicit_model).dimension() == model@.dimension(),
        upto <= old(explicit_model).states.len(),
        forall|a: int|
            0 <= a < orders.len() ==> positions_within(
                #[trigger] orders[a]@,
                model@.transitions.len(),
            ),
    ensures
        final(explicit_model).well_formed(),
        final(explicit_model).variable_names == old(explicit_model).variable_names,
        final(explicit_model).m_type == old(explicit_model).m_type,
        old(explicit_model).graph().fires_only(model@.transitions)
            ==> final(explicit_model).graph().fires_only(model@.transitions),
        old(explicit_model).graph().extended_by(final(explicit_model).graph()),
        covered_from_all(
            final(explicit_model).graph(),
            model@.transitions,
            old(explicit_model).vectors(),
            upto as nat,
            rows(orders@),
        ),
        final(explicit_model).graph() == with_orders_from_all(
            old(explicit_model).graph(),
            model@.transitions,
            old(explicit_model).vectors(),
            upto as nat,
            rows(orders@),
        ),
{
    let ghost ts = model@.transitions;
    let ghost g0 = explicit_model.graph();
    let mut s: usize = 1;
    proof {
        assert(g0.vectors =~= g0.vectors.subrange(0, g0.vectors.len() as int));
        assert(g0.edges =~= g0.edges.subrange(0, g0.edges.len() as int));
    }
    while s < upto
        invariant
            1 <= s,
            s == 1 || s <= upto,
            ts == model@.transitions,
            g0 == old(explicit_model).graph(),
            upto <= old(explicit_model).states.len(),
            model@.well_formed(),
            explicit_model.well_formed(),
            explicit_model.dimension() == model@.dimension(),
            explicit_model.variable_names == old(explicit_model).variable_names,
            explicit_model.m_type == old(explicit_model).m_type,
            g0.fires_only(ts) ==> explicit_model.graph().fires_only(ts),
            g0.extended_by(explicit_model.graph()),
            forall|b: int| 0 <= b < orders.len() ==> positions_within(#[trigger] orders[b]@, ts.len()),
            covered_from_all(explicit_model.graph(), ts, g0.vectors, s as nat, rows(orders@)),
            explicit_model.graph() == with_orders_from_all(
                g0,
                ts,
                g0.vectors,
                s as nat,
                rows(orders@),
            ),
        decreases upto - s,
    {
        let ghost before = explicit_model.graph();
        proof {
            assert(g0.vectors =~= before.vectors.subrange(0, g0.vectors.len() as int));
            assert(before.vectors[s as int] == g0.vectors[s as int]);
        }
        fire_from_state(model, explicit_model, s, orders);
        proof {
            let now = explicit_model.graph();
            g0.lemma_extended_twice(before, now);
            explicit_model.lemma_graph_distinct();
            lemma_covered_from_all_kept(before, now, ts, g0.vectors, s as nat, rows(orders@));
        }
        s += 1;
    }
}

/// Every entry that `first_occurrences` keeps is an entry of the list.
pub proof fn lemma_first_occurrences_members(s: Seq<Seq<usize>>)
    ensures
        forall|j: int|
            0 <= j < first_occurrences(s).len() ==> s.contains(#[trigger] first_occurrences(s)[j]),
    decreases s.len(),
{
    if s.len() > 0 {
        lemma_first_occurrences_members(s.drop_last());
        let before = first_occurrences(s.drop_last());
        assert forall|j: int| 0 <= j < first_occurrences(s).len() implies s.contains(
            #[trigger] first_occurrences(s)[j],
        ) by {
            if j < before.len() {
                let x = before[j];
                let i = choose|i: int| 0 <= i < s.drop_last().len() && s.drop_last()[i] == x;
                assert(s[i] == x);
            } else {
                assert(s[s.len() - 1] == s.last());
            }
        }
    }
}

/// A sequence that holds the same numbers as one of positions below `n`
/// holds positions below `n`.
pub proof fn lemma_same_numbers_within(s: Seq<usize>, t: Seq<usize>, n: nat)
    requires
        s.to_multiset() == t.to_multiset(),
        positions_within(t, n),
    ensures
        positions_within(s, n),
{
    s.to_multiset_ensures();
    t.to_multiset_ensures();
    assert forall|a: int| 0 <= a < s.len() implies #[trigger] s[a] < n by {
        assert(s.contains(s[a]));
        assert(t.to_multiset().count(s[a]) > 0);
        assert(t.contains(s[a]));
        let b = choose|b: int| 0 <= b < t.len() && t[b] == s[a];
        assert(t[b] < n);
    }
}

/// Whether `g` has, for every cycle of length `length`, from each of the
/// states `1..upto` of `base`, the path along every arrangement of the
/// cycle that can be taken from it.
///
/// The cycles are the choices of `length` positions among `count`
/// transitions whose updates add up to nothing; the arrangements of a
/// cycle are its distinct orderings.
pub open spec fn cycles_covered(
    g: GraphSpec,
    ts: Seq<TransitionSpec>,
    dimension: nat,
    base: Seq<Seq<VasValue>>,
    upto: nat,
    length: nat,
    seen: nat,
) -> bool {
    forall|j: int|
        0 <= j < seen && adds_to_zero(ts, #[trigger] choices_in_order(ts.len(), length)[j], dimension)
            ==> covered_from_all(
            g,
            ts,
            base,
            upto,
            first_occurrences(arrangements_in_order(choices_in_order(ts.len(), length)[j])),
        )
}

/// What holds of the cycles covered stays so in every extension without
/// repeated vectors.
pub proof fn lemma_cycles_covered_kept(
    g: GraphSpec,
    later: GraphSpec,
    ts: Seq<TransitionSpec>,
    dimension: nat,
    base: Seq<Seq<VasValue>>,
    upto: nat,
    length: nat,
    seen: nat,
)
    requires
        g.extended_by(later),
        later.distinct(),
        later.vectors.len() <= usize::MAX,
        cycles_covered(g, ts, dimension, base, upto, length, seen),
    ensures
        cycles_covered(later, ts, dimension, base, upto, length, seen),
{
    assert forall|j: int|
        0 <= j < seen && adds_to_zero(
            ts,
            #[trigger] choices_in_order(ts.len(), length)[j],
            dimension,
        ) implies covered_from_all(
        later,
        ts,
        base,
        upto,
        first_occurrences(arrangements_in_order(choices_in_order(ts.len(), length)[j])),
    ) by {
        lemma_covered_from_all_kept(
            g,
            later,
            ts,
            base,
            upto,
            first_occurrences(arrangements_in_order(choices_in_order(ts.len(), length)[j])),
        );
    }
}

/// Whether `order` fires a cycle: whether the positions that it holds,
/// written in rising order, are a choice of transitions of `ts` whose
/// updates add up to nothing.
pub open spec fn is_cycle_ordering(ts: Seq<TransitionSpec>, dimension: nat, order: Seq<usize>) -> bool {
    exists|choice: Seq<usize>|
        {
            &&& #[trigger] is_choice(choice, ts.len(), order.len())
            &&& choice.to_multiset() == order.to_multiset()
            &&& adds_to_zero(ts, choice, dimension)
        }
}

/// Whether `g` has the path along `order` from each of the states
/// `1..upto` of `base` from which all its steps can be taken.
pub open spec fn cycle_laid(
    g: GraphSpec,
    ts: Seq<TransitionSpec>,
    base: Seq<Seq<VasValue>>,
    upto: nat,
    order: Seq<usize>,
) -> bool {
    forall|s: int|
        1 <= s < upto && path_clear(ts, #[trigger] base[s], order, order.len()) ==> path_present(
            g,
            ts,
            base[s],
            order,
            order.len(),
        )
}

/// A path that is laid stays so in every extension without repeated
/// vectors.
pub proof fn lemma_cycle_laid_kept(
    g: GraphSpec,
    later: GraphSpec,
    ts: Seq<TransitionSpec>,
    base: Seq<Seq<VasValue>>,
    upto: nat,
    order: Seq<usize>,
)
    requires
        g.extended_by(later),
        later.distinct(),
        later.vectors.len() <= usize::MAX,
        cycle_laid(g, ts, base, upto, order),
    ensures
        cycle_laid(later, ts, base, upto, order),
{
    assert forall|s: int|
        1 <= s < upto && path_clear(ts, #[trigger] base[s], order, order.len()) implies path_present(
        later,
        ts,
        base[s],
        order,
        order.len(),
    ) by {
        lemma_path_kept(g, later, ts, base[s], order, order.len());
    }
}

/// Every entry of a list is among its first occurrences.
pub proof fn lemma_first_occurrences_has(s: Seq<Seq<usize>>, x: Seq<usize>)
    requires
        s.contains(x),
    ensures
        first_occurrences(s).contains(x),
    decreases s.len(),
{
    let i = choose|i: int| 0 <= i < s.len() && s[i] == x;
    let before = first_occurrences(s.drop_last());
    if s.drop_last().contains(x) {
        lemma_first_occurrences_has(s.drop_last(), x);
        let a = choose|a: int| 0 <= a < before.len() && before[a] == x;
        assert(first_occurrences(s)[a] == x);
    } else {
        if i < s.len() - 1 {
            assert(s.drop_last()[i] == x);
        }
        assert(s.last() == x);
        assert(first_occurrences(s)[before.len() as int] == x);
    }
}

/// A path that can be taken to its end stays within `VasValue` at every
/// step.
pub proof fn lemma_clear_steps_fit(ts: Seq<TransitionSpec>, v: Seq<VasValue>, order: Seq<usize>)
    requires
        path_clear(ts, v, order, order.len()),
    ensures
        steps_fit(ts, v, order),
{
    assert forall|m: nat| m < order.len() implies step_fits(
        #[trigger] state_at(ts, v, order, m),
        ts[order[m as int] as int],
    ) by {
        lemma_clear_prefix(ts, v, order, m + 1, order.len());
    }
}

/// Firing a cycle in any order that can be taken leads back to the start.
pub proof fn lemma_cycle_ordering_returns(ts: Seq<TransitionSpec>, v: Seq<VasValue>, order: Seq<usize>)
    requires
        forall|k: int| 0 <= k < ts.len() ==> (#[trigger] ts[k]).update.len() == v.len(),
        is_cycle_ordering(ts, v.len(), order),
        path_clear(ts, v, order, order.len()),
    ensures
        state_at(ts, v, order, order.len()) == v,
{
    let choice = choose|choice: Seq<usize>|
        #[trigger] is_choice(choice, ts.len(), order.len()) && choice.to_multiset()
            == order.to_multiset() && adds_to_zero(ts, choice, v.len());
    lemma_clear_steps_fit(ts, v, order);
    lemma_cycle_returns(ts, v, choice, order);
}

/// The state space `g` after the cycles among the first `upto` choices of
/// `length` transitions were added to it, choice after choice: where the
/// updates of a choice add up to nothing, the paths along its distinct
/// orderings are stored from every state that the state space has by
/// then.
pub open spec fn with_cycles_of_length(
    g: GraphSpec,
    ts: Seq<TransitionSpec>,
    dimension: nat,
    length: nat,
    upto: nat,
) -> GraphSpec
    decreases upto,
{
    if upto == 0 {
        g
    } else {
        let before = with_cycles_of_length(g, ts, dimension, length, (upto - 1) as nat);
        let choice = choices_in_order(ts.len(), length)[upto - 1];
        if adds_to_zero(ts, choice, dimension) {
            with_orders_from_all(
                before,
                ts,
                before.vectors,
                before.vectors.len(),
                first_occurrences(arrangements_in_order(choice)),
            )
        } else {
            before
        }
    }
}

/// The state space `g` after the cycles of every length from 2 to
/// `max_length` were added to it, the shorter ones first.
pub open spec fn with_cycles(
    g: GraphSpec,
    ts: Seq<TransitionSpec>,
    dimension: nat,
    max_length: nat,
) -> GraphSpec
    decreases max_length,
{
    if max_length < 2 {
        g
    } else {
        with_cycles_of_length(
            with_cycles(g, ts, dimension, (max_length - 1) as nat),
            ts,
            dimension,
            max_length,
            choices_in_order(ts.len(), max_length).len(),
        )
    }
}

/// Adds the cycles of `length` transitions: for every choice of that many
/// transitions whose updates add up to nothing, every distinct ordering of
/// the choice is fired from every state that the state space had when the
/// choice came up, wherever all its steps can be taken.
fn add_cycles_of_length(model: &AbstractVas, explicit_model: &mut PrismVasModel, length: usize)
    requires
        model@.well_formed(),
        old(explicit_model).well_formed(),
        old(explicit_model).dimension() == model@.dimension(),
    ensures
        final(explicit_model).well_formed(),
        final(explicit_model).variable_names == old(explicit_model).variable_names,
        final(explicit_model).m_type == old(explicit_model).m_type,
        old(explicit_model).graph().fires_only(model@.transitions)
            ==> final(explicit_model).graph().fires_only(model@.transitions),
        old(explicit_model).graph().extended_by(final(explicit_model).graph()),
        cycles_covered(
            final(explicit_model).graph(),
            model@.transitions,
            model@.dimension(),
            old(explicit_model).vectors(),
            old(explicit_model).states.len() as nat,
            length as nat,
            choices_in_order(model@.transitions.len(), length as nat).len(),
        ),
        forall|order: Seq<usize>|
            order.len() == length && is_cycle_ordering(
                model@.transitions,
                model@.dimension(),
                order,
            ) ==> #[trigger] cycle_laid(
                final(explicit_model).graph(),
                model@.transitions,
                old(explicit_model).vectors(),
                old(explicit_model).states.len() as nat,
                order,
            ),
        final(explicit_model).graph() == with_cycles_of_length(
            old(explicit_model).graph(),
            model@.transitions,
            model@.dimension(),
            length as nat,
            choices_in_order(model@.transitions.len(), length as nat).len(),
        ),
{
    let ghost ts = model@.transitions;
    let ghost g0 = explicit_model.graph();
    let ghost dim = model@.dimension();
    let cycles = choices(model.transitions.len(), length);
    let ghost all = choices_in_order(ts.len(), length as nat);
    let mut j: usize = 0;
    proof {
        assert(g0.vectors =~= g0.vectors.subrange(0, g0.vectors.len() as int));
        assert(g0.edges =~= g0.edges.subrange(0, g0.edges.len() as int));
        assert(all.len() == cycles.len());
    }
    while j < cycles.len()
        invariant
            j <= cycles.len(),
            ts == model@.transitions,
            dim == model@.dimension(),
            g0 == old(explicit_model).graph(),
            all == choices_in_order(ts.len(), length as nat),
            rows(cycles@) == all,
            forall|c: int|
                0 <= c < cycles.len() ==> is_choice(#[trigger] cycles[c]@, ts.len(), length as nat),
            model@.well_formed(),
            explicit_model.well_formed(),
            explicit_model.dimension() == model@.dimension(),
            explicit_model.variable_names == old(explicit_model).variable_names,
            explicit_model.m_type == old(explicit_model).m_type,
            g0.fires_only(ts) ==> explicit_model.graph().fires_only(ts),
            g0.extended_by(explicit_model.graph()),
            cycles_covered(
                explicit_model.graph(),
                ts,
                dim,
                g0.vectors,
                g0.vectors.len(),
                length as nat,
                j as nat,
            ),
            explicit_model.graph() == with_cycles_of_length(g0, ts, dim, length as nat, j as nat),
            forall|choice: Seq<usize>|
                is_choice(choice, ts.len(), length as nat) ==> #[trigger] all.contains(choice),
            forall|c: int, order: Seq<usize>|
                0 <= c < j && adds_to_zero(ts, all[c], dim) && order.to_multiset()
                    == all[c].to_multiset() ==> #[trigger] arrangements_in_order(all[c]).contains(
                    order,
                ),
        decreases cycles.len() - j,
    {
        let cycle = &cycles[j];
        proof {
            assert(is_choice(cycles[j as int]@, ts.len(), length as nat));
            assert(positions_within(cycle@, ts.len()));
            assert(all[j as int] == cycle@);
        }
        let ghost before = explicit_model.graph();
        if is_cycle(model, cycle) {
            let arranged = arrangements(cycle);
            proof {
                assert forall|order: Seq<usize>|
                    order.to_multiset() == cycle@.to_multiset() implies arrangements_in_order(
                    cycle@,
                ).contains(order) by {
                    assert(rows(arranged@).contains(order));
                }
            }
            let orders = without_repeats(arranged);
            proof {
                let listed = arrangements_in_order(cycle@);
                lemma_first_occurrences_members(listed);
                assert forall|a: int| 0 <= a < orders.len() implies positions_within(
                    #[trigger] orders[a]@,
                    ts.len(),
                ) by {
                    assert(rows(orders@)[a] == orders[a]@);
                    let x = first_occurrences(listed)[a];
                    assert(listed.contains(x));
                    let i = choose|i: int| 0 <= i < listed.len() && listed[i] == x;
                    lemma_same_numbers_within(x, cycle@, ts.len());
                }
                assert(g0.vectors =~= before.vectors.subrange(0, g0.vectors.len() as int));
            }
            let upto = explicit_model.states.len();
            proof {
                assert(before.vectors.len() == upto);
                assert(rows(orders@) == first_occurrences(arrangements_in_order(cycle@)));
            }
            fire_from_all(model, explicit_model, upto, &orders);
            proof {
                let now = explicit_model.graph();
                g0.lemma_extended_twice(before, now);
                explicit_model.lemma_graph_distinct();
                lemma_cycles_covered_kept(
                    before,
                    now,
                    ts,
                    dim,
                    g0.vectors,
                    g0.vectors.len(),
                    length as nat,
                    j as nat,
                );
                assert forall|s: int| 1 <= s < g0.vectors.len() implies covered(
                    now,
                    ts,
                    #[trigger] g0.vectors[s],
                    rows(orders@),
                    rows(orders@).len(),
                ) by {
                    assert(before.vectors[s] == g0.vectors[s]);
                    assert(covered(now, ts, before.vectors[s], rows(orders@), orders@.len()));
                }
            }
        }
        j += 1;
    }
    proof {
        assert(g0.vectors.len() == old(explicit_model).states.len());
        let now = explicit_model.graph();
        assert forall|order: Seq<usize>|
            order.len() == length && is_cycle_ordering(ts, dim, order) implies #[trigger] cycle_laid(
            now,
            ts,
            g0.vectors,
            g0.vectors.len(),
            order,
        ) by {
            let choice = choose|choice: Seq<usize>|
                #[trigger] is_choice(choice, ts.len(), order.len()) && choice.to_multiset()
                    == order.to_multiset() && adds_to_zero(ts, choice, dim);
            assert(all.contains(choice));
            let c = choose|c: int| 0 <= c < all.len() && all[c] == choice;
            let listed = arrangements_in_order(all[c]);
            assert(listed.contains(order));
            lemma_first_occurrences_has(listed, order);
            let orders = first_occurrences(listed);
            let a = choose|a: int| 0 <= a < orders.len() && orders[a] == order;
            assert(covered_from_all(now, ts, g0.vectors, g0.vectors.len(), orders));
            assert forall|s: int|
                1 <= s < g0.vectors.len() && path_clear(
                    ts,
                    #[trigger] g0.vectors[s],
                    order,
                    order.len(),
                ) implies path_present(now, ts, g0.vectors[s], order, order.len()) by {
                assert(covered(now, ts, g0.vectors[s], orders, orders.len()));
                assert(path_clear(ts, g0.vectors[s], orders[a], orders[a].len()));
            }
        }
    }
}

/// Adds cycles of transitions to the state space.
///
/// For every length from 2 to `max_cycle_length` and every choice of that
/// many transitions whose updates add up to nothing, every distinct
/// ordering of the choice is fired from the states of the state space
/// wherever all its steps can be taken: none leaves the range of
/// `VasValue` or leads to a negative value.
pub fn add_cycles(model: &AbstractVas, explicit_model: &mut PrismVasModel, max_cycle_length: usize)
    requires
        model@.well_formed(),
        old(explicit_model).well_formed(),
        old(explicit_model).dimension() == model@.dimension(),
    ensures
        final(explicit_model).well_formed(),
        final(explicit_model).variable_names == old(explicit_model).variable_names,
        final(explicit_model).m_type == old(explicit_model).m_type,
        old(explicit_model).graph().fires_only(model@.transitions)
            ==> final(explicit_model).graph().fires_only(model@.transitions),
        old(explicit_model).graph().extended_by(final(explicit_model).graph()),
        forall|length: nat|
            2 <= length <= max_cycle_length ==> #[trigger] cycles_covered(
                final(explicit_model).graph(),
                model@.transitions,
                model@.dimension(),
                old(explicit_model).vectors(),
                old(explicit_model).states.len() as nat,
                length,
                choices_in_order(model@.transitions.len(), length).len(),
            ),
        forall|order: Seq<usize>|
            2 <= order.len() <= max_cycle_length && is_cycle_ordering(
                model@.transitions,
                model@.dimension(),
                order,
            ) ==> #[trigger] cycle_laid(
                final(explicit_model).graph(),
                model@.transitions,
                old(explicit_model).vectors(),
                old(explicit_model).states.len() as nat,
                order,
            ),
        final(explicit_model).graph() == with_cycles(
            old(explicit_model).graph(),
            model@.transitions,
            model@.dimension(),
            max_cycle_length as nat,
        ),
{
    let ghost ts = model@.transitions;
    let ghost g0 = explicit_model.graph();
    let ghost dim = model@.dimension();
    let mut length: usize = 2;
    let ghost mut done: nat = 2;
    proof {
        assert(g0.vectors =~= g0.vectors.subrange(0, g0.vectors.len() as int));
        assert(g0.edges =~= g0.edges.subrange(0, g0.edges.len() as int));
    }
    while length <= max_cycle_length
        invariant_except_break
            done == length,
        invariant
            2 <= length,
            ts == model@.transitions,
            dim == model@.dimension(),
            g0 == old(explicit_model).graph(),
            model@.well_formed(),
            explicit_model.well_formed(),
            explicit_model.dimension() == model@.dimension(),
            explicit_model.variable_names == old(explicit_model).variable_names,
            explicit_model.m_type == old(explicit_model).m_type,
            g0.fires_only(ts) ==> explicit_model.graph().fires_only(ts),
            g0.extended_by(explicit_model.graph()),
            forall|l: nat|
                2 <= l < done ==> #[trigger] cycles_covered(
                    explicit_model.graph(),
                    ts,
                    dim,
                    g0.vectors,
                    g0.vectors.len(),
                    l,
                    choices_in_order(ts.len(), l).len(),
                ),
            2 <= done,
            done == 2 || done <= max_cycle_length + 1,
            explicit_model.graph() == with_cycles(g0, ts, dim, (done - 1) as nat),
            forall|order: Seq<usize>|
                2 <= order.len() < done && is_cycle_ordering(ts, dim, order) ==> #[trigger] cycle_laid(
                    explicit_model.graph(),
                    ts,
                    g0.vectors,
                    g0.vectors.len(),
                    order,
                ),
        ensures
            done > max_cycle_length,
        decreases max_cycle_length + 1 - length,
    {
        let ghost before = explicit_model.graph();
        add_cycles_of_length(model, explicit_model, length);
        proof {
            let now = explicit_model.graph();
            g0.lemma_extended_twice(before, now);
            explicit_model.lemma_graph_distinct();
            assert forall|l: nat| 2 <= l < length + 1 implies #[trigger] cycles_covered(
                now,
                ts,
                dim,
                g0.vectors,
                g0.vectors.len(),
                l,
                choices_in_order(ts.len(), l).len(),
            ) by {
                if l < length {
                    lemma_cycles_covered_kept(
                        before,
                        now,
                        ts,
                        dim,
                        g0.vectors,
                        g0.vectors.len(),
                        l,
                        choices_in_order(ts.len(), l).len(),
                    );
                } else {
                    lemma_cycles_cover_fewer_states(
                        now,
                        ts,
                        dim,
                        before.vectors,
                        g0.vectors,
                        l,
                        choices_in_order(ts.len(), l).len(),
                    );
                }
            }
        }
        proof {
            let now = explicit_model.graph();
            assert forall|order: Seq<usize>|
                2 <= order.len() < length + 1 && is_cycle_ordering(
                    ts,
                    dim,
                    order,
                ) implies #[trigger] cycle_laid(now, ts, g0.vectors, g0.vectors.len(), order) by {
                if order.len() < length {
                    lemma_cycle_laid_kept(before, now, ts, g0.vectors, g0.vectors.len(), order);
                } else {
                    assert(cycle_laid(now, ts, before.vectors, before.vectors.len(), order));
                    assert(g0.vectors =~= before.vectors.subrange(0, g0.vectors.len() as int));
                    assert forall|s: int|
                        1 <= s < g0.vectors.len() && path_clear(
                            ts,
                            #[trigger] g0.vectors[s],
                            order,
                            order.len(),
                        ) implies path_present(now, ts, g0.vectors[s], order, order.len()) by {
                        assert(before.vectors[s] == g0.vectors[s]);
                    }
                }
            }
            done = done + 1;
        }
        if length == usize::MAX {
            break ;
        }
        length += 1;
    }
    proof {
        assert(g0.vectors.len() == old(explicit_model).states.len());
    }
}

/// Cycles covered from the states of a table are covered from the states
/// of every table that the first starts with.
pub proof fn lemma_cycles_cover_fewer_states(
    g: GraphSpec,
    ts: Seq<TransitionSpec>,
    dimension: nat,
    more: Seq<Seq<VasValue>>,
    fewer: Seq<Seq<VasValue>>,
    length: nat,
    seen: nat,
)
    requires
        fewer.is_prefix_of(more),
        cycles_covered(g, ts, dimension, more, more.len(), length, seen),
    ensures
        cycles_covered(g, ts, dimension, fewer, fewer.len(), length, seen),
{
    assert(fewer =~= more.subrange(0, fewer.len() as int));
    assert forall|j: int|
        0 <= j < seen && adds_to_zero(
            ts,
            #[trigger] choices_in_order(ts.len(), length)[j],
            dimension,
        ) implies covered_from_all(
        g,
        ts,
        fewer,
        fewer.len(),
        first_occurrences(arrangements_in_order(choices_in_order(ts.len(), length)[j])),
    ) by {
        let orders = first_occurrences(
            arrangements_in_order(choices_in_order(ts.len(), length)[j]),
        );
        assert(covered_from_all(g, ts, more, more.len(), orders));
        assert forall|s: int| 1 <= s < fewer.len() implies covered(
            g,
            ts,
            #[trigger] fewer[s],
            orders,
            orders.len(),
        ) by {
            assert(fewer[s] == more[s]);
        }
    }
}

/// What the transitions at the positions `order` add to component `i`,
/// all together.
pub open spec fn total_update(ts: Seq<TransitionSpec>, order: Seq<usize>, i: int) -> int {
    order.fold_left(0int, |sum: int, k: usize| sum + ts[k as int].update[i])
}

/// Whether every step along `order` from `v` stays within `VasValue`.
pub open spec fn steps_fit(ts: Seq<TransitionSpec>, v: Seq<VasValue>, order: Seq<usize>) -> bool {
    forall|m: nat|
        m < order.len() ==> step_fits(#[trigger] state_at(ts, v, order, m), ts[order[m as int] as int])
}

/// While the steps stay within `VasValue`, the state after some of them is
/// the start plus what their transitions add.
pub proof fn lemma_state_is_start_plus_total(
    ts: Seq<TransitionSpec>,
    v: Seq<VasValue>,
    order: Seq<usize>,
    m: nat,
    i: int,
)
    requires
        m <= order.len(),
        0 <= i < v.len(),
        positions_within(order, ts.len()),
        forall|k: int| 0 <= k < ts.len() ==> (#[trigger] ts[k]).update.len() == v.len(),
        steps_fit(ts, v, order),
    ensures
        state_at(ts, v, order, m).len() == v.len(),
        state_at(ts, v, order, m)[i] == v[i] + total_update(ts, order.take(m as int), i),
    decreases m,
{
    if m == 0 {
        assert(order.take(0) =~= Seq::<usize>::empty());
    } else {
        lemma_state_is_start_plus_total(ts, v, order, (m - 1) as nat, i);
        let before = state_at(ts, v, order, (m - 1) as nat);
        let t = ts[order[m - 1] as int];
        assert(step_fits(before, t));
        assert(t.update.len() == v.len());
        assert(order.take(m as int).drop_last() =~= order.take(m - 1));
        assert(order.take(m as int).last() == order[m - 1]);
        assert(before[i] + t.update[i] * 1 == before[i] + t.update[i]);
    }
}

/// Firing a cycle in any order leads back to the start.
///
/// Let the updates of the transitions at the positions `cycle` add up to
/// nothing, and let `order` hold the same positions, each as often. Then
/// firing along `order` from `v` ends on `v`, provided no step leaves the
/// range of `VasValue`.
pub proof fn lemma_cycle_returns(
    ts: Seq<TransitionSpec>,
    v: Seq<VasValue>,
    cycle: Seq<usize>,
    order: Seq<usize>,
)
    requires
        forall|k: int| 0 <= k < ts.len() ==> (#[trigger] ts[k]).update.len() == v.len(),
        positions_within(cycle, ts.len()),
        adds_to_zero(ts, cycle, v.len()),
        order.to_multiset() == cycle.to_multiset(),
        steps_fit(ts, v, order),
    ensures
        state_at(ts, v, order, order.len()) == v,
{
    let n = v.len();
    let zero = Seq::new(n, |i: int| 0i128);
    lemma_same_numbers_within(order, cycle, ts.len());
    let end = state_at(ts, v, order, order.len());
    assert(order.take(order.len() as int) =~= order);
    assert(cycle.take(cycle.len() as int) =~= cycle);
    assert forall|i: int| 0 <= i < n implies end[i] == v[i] by {
        lemma_state_is_start_plus_total(ts, v, order, order.len(), i);
        lemma_state_is_start_plus_total(ts, zero, cycle, cycle.len(), i);
        let f = |sum: int, k: usize| sum + ts[k as int].update[i];
        assert(commutative_foldl(f));
        lemma_fold_left_permutation(order, cycle, f, 0int);
        assert(total_update(ts, cycle, i) == 0);
    }
    if n > 0 {
        lemma_state_is_start_plus_total(ts, v, order, order.len(), 0);
    } else {
        lemma_state_length(ts, v, order, order.len());
    }
    assert(end =~= v);
}

/// Every state along a path has as many components as the start.
pub proof fn lemma_state_length(ts: Seq<TransitionSpec>, v: Seq<VasValue>, order: Seq<usize>, m: nat)
    ensures
        state_at(ts, v, order, m).len() == v.len(),
    decreases m,
{
    if m > 0 {
        lemma_state_length(ts, v, order, (m - 1) as nat);
    }
}

/// Whether the transition at position `k` may fire at every one of
/// `states`.
pub open spec fn enabled_throughout(t: TransitionSpec, states: Seq<Seq<VasValue>>) -> bool {
    forall|i: int| 0 <= i < states.len() ==> t.enabled_at(#[trigger] states[i])
}

/// The states that a walk along `trace` from `v` visits: `v` itself and
/// the state after each step, up to the first step that leaves the range of
/// `VasValue`.
pub open spec fn visited(ts: Seq<TransitionSpec>, v: Seq<VasValue>, trace: Seq<usize>, upto: nat) -> Seq<
    Seq<VasValue>,
>
    decreases upto,
{
    if upto == 0 {
        seq![v]
    } else {
        let before = visited(ts, v, trace, (upto - 1) as nat);
        if before.len() == upto && step_fits(before.last(), ts[trace[upto - 1] as int]) {
            before.push(stepped(before.last(), ts[trace[upto - 1] as int]))
        } else {
            before
        }
    }
}

/// Whether `g` has, from each of the first `upto` of `states`, the step
/// that fires the transition at position `k`, wherever that step stays
/// within `VasValue` and leads to no negative value.
pub open spec fn step_covered(
    g: GraphSpec,
    ts: Seq<TransitionSpec>,
    states: Seq<Seq<VasValue>>,
    upto: nat,
    k: usize,
) -> bool {
    forall|i: int|
        0 <= i < upto && path_clear(ts, #[trigger] states[i], seq![k], 1) ==> path_present(
            g,
            ts,
            states[i],
            seq![k],
            1,
        )
}

/// What holds of the steps covered stays so in every extension without
/// repeated vectors.
pub proof fn lemma_step_covered_kept(
    g: GraphSpec,
    later: GraphSpec,
    ts: Seq<TransitionSpec>,
    states: Seq<Seq<VasValue>>,
    upto: nat,
    k: usize,
)
    requires
        g.extended_by(later),
        later.distinct(),
        later.vectors.len() <= usize::MAX,
        step_covered(g, ts, states, upto, k),
    ensures
        step_covered(later, ts, states, upto, k),
{
    assert forall|i: int|
        0 <= i < upto && path_clear(ts, #[trigger] states[i], seq![k], 1) implies path_present(
        later,
        ts,
        states[i],
        seq![k],
        1,
    ) by {
        lemma_path_kept(g, later, ts, states[i], seq![k], 1);
    }
}

/// A walk visits at most one state more than it has steps.
pub proof fn lemma_visited_length(ts: Seq<TransitionSpec>, v: Seq<VasValue>, trace: Seq<usize>, upto: nat)
    ensures
        1 <= visited(ts, v, trace, upto).len() <= upto + 1,
    decreases upto,
{
    if upto > 0 {
        lemma_visited_length(ts, v, trace, (upto - 1) as nat);
    }
}

/// The trace `trace` with the step `k` put in after its first `at` steps.
pub open spec fn spliced(trace: Seq<usize>, at: int, k: usize) -> Seq<usize> {
    trace.take(at).push(k) + trace.skip(at)
}

/// The state space `g` after the transitions that commute with `trace`
/// were fired, at the level `depth` of `max_depth` levels.
///
/// At a level below the last nothing is done. Otherwise the transitions
/// are tried in model order.
pub open spec fn commuted(
    g: GraphSpec,
    ts: Seq<TransitionSpec>,
    init: Seq<VasValue>,
    trace: Seq<usize>,
    depth: nat,
    max_depth: nat,
) -> GraphSpec
    decreases max_depth - depth, 2nat, 0nat,
{
    if depth >= max_depth {
        g
    } else {
        commuted_through(g, ts, init, trace, depth, max_depth, ts.len())
    }
}

/// The state space `g` after the first `upto` transitions were tried: a
/// transition that may fire at every state that the walk along `trace`
/// visits is fired from each of them, and any other is passed over.
pub open spec fn commuted_through(
    g: GraphSpec,
    ts: Seq<TransitionSpec>,
    init: Seq<VasValue>,
    trace: Seq<usize>,
    depth: nat,
    max_depth: nat,
    upto: nat,
) -> GraphSpec
    decreases max_depth - depth, 1nat, upto,
{
    if depth >= max_depth || upto == 0 {
        g
    } else {
        let before = commuted_through(g, ts, init, trace, depth, max_depth, (upto - 1) as nat);
        let seen = visited(ts, init, trace, trace.len());
        if enabled_throughout(ts[upto - 1], seen) {
            commuted_from(
                before,
                ts,
                init,
                trace,
                depth,
                max_depth,
                (upto - 1) as usize,
                seen.len(),
            )
        } else {
            before
        }
    }
}

/// The state space `g` after the transition at position `k` was fired
/// from the first `upto` states that the walk along `trace` visits.
///
/// A step that leaves the range of `VasValue` or leads to a negative
/// value is passed over. Any other is stored, with the state that it
/// starts from where the state space had none for it; then the
/// transitions that commute with the trace that has the step put in at
/// that state are fired in turn, one level deeper.
pub open spec fn commuted_from(
    g: GraphSpec,
    ts: Seq<TransitionSpec>,
    init: Seq<VasValue>,
    trace: Seq<usize>,
    depth: nat,
    max_depth: nat,
    k: usize,
    upto: nat,
) -> GraphSpec
    decreases max_depth - depth, 0nat, upto,
{
    if depth >= max_depth || upto == 0 {
        g
    } else {
        let before = commuted_from(g, ts, init, trace, depth, max_depth, k, (upto - 1) as nat);
        let s = visited(ts, init, trace, trace.len())[upto - 1];
        let next = stepped(s, ts[k as int]);
        if step_fits(s, ts[k as int]) && !negative(next) {
            let there = before.with_state(s, None);
            let stored = there.with_step(there.id_of(s), next, ts[k as int].id, None);
            commuted(stored, ts, init, spliced(trace, upto - 1, k), depth + 1, max_depth)
        } else {
            before
        }
    }
}

/// The states that a walk along `trace` from the initial state visits.
fn visited_states(model: &AbstractVas, trace: &Vec<usize>) -> (r: Vec<Vec<VasValue>>)
    requires
        model@.well_formed(),
        positions_within(trace@, model@.transitions.len()),
    ensures
        Seq::new(r.len() as nat, |i: int| r[i]@) == visited(
            model@.transitions,
            model@.initial[0],
            trace@,
            trace@.len(),
        ),
        r.len() >= 1,
        forall|i: int| 0 <= i < r.len() ==> (#[trigger] r[i]).len() == model@.dimension(),
{
    let ghost ts = model@.transitions;
    let ghost init = model@.initial[0];
    assert(model@.initial[0] == model.initial_states[0]@);
    let mut out: Vec<Vec<VasValue>> = Vec::new();
    out.push(copy_of(&model.initial_states[0].vector));
    let mut m: usize = 0;
    proof {
        assert(Seq::new(out.len() as nat, |i: int| out[i]@) =~= visited(ts, init, trace@, 0));
    }
    while m < trace.len()
        invariant
            m <= trace.len(),
            ts == model@.transitions,
            init == model@.initial[0],
            model@.well_formed(),
            positions_within(trace@, ts.len()),
            out.len() == m + 1,
            forall|i: int| 0 <= i < out.len() ==> (#[trigger] out[i]).len() == model@.dimension(),
            Seq::new(out.len() as nat, |i: int| out[i]@) == visited(ts, init, trace@, m as nat),
        decreases trace.len() - m,
    {
        let k = trace[m];
        assert(trace@[m as int] < ts.len());
        let ghost before = Seq::new(out.len() as nat, |i: int| out[i]@);
        assert(before.last() == out[m as int]@);
        match fire_position(model, &out[m], k) {
            Some(next) => {
                out.push(next);
                proof {
                    assert(Seq::new(out.len() as nat, |i: int| out[i]@) =~= before.push(
                        stepped(before.last(), ts[k as int]),
                    ));
                }
            },
            None => {
                proof {
                    lemma_visited_stops(ts, init, trace@, (m + 1) as nat, trace@.len());
                }
                return out;
            },
        }
        m += 1;
    }
    out
}

/// Once a walk has stopped it visits no further state.
proof fn lemma_visited_stops(
    ts: Seq<TransitionSpec>,
    v: Seq<VasValue>,
    trace: Seq<usize>,
    upto: nat,
    total: nat,
)
    requires
        upto <= total,
        visited(ts, v, trace, upto).len() <= upto,
    ensures
        visited(ts, v, trace, total) == visited(ts, v, trace, upto),
    decreases total,
{
    if upto < total {
        lemma_visited_stops(ts, v, trace, upto, (total - 1) as nat);
    }
}

/// Whether the transition at position `k` may fire at every one of
/// `states`.
fn fires_throughout(model: &AbstractVas, k: usize, states: &Vec<Vec<VasValue>>) -> (r: bool)
    requires
        k < model.transitions.len(),
    ensures
        r == enabled_throughout(
            model@.transitions[k as int],
            Seq::new(states.len() as nat, |i: int| states[i]@),
        ),
{
    let ghost all = Seq::new(states.len() as nat, |i: int| states[i]@);
    let t = &model.transitions[k];
    assert(t@ == model@.transitions[k as int]);
    let mut i: usize = 0;
    while i < states.len()
        invariant
            i <= states.len(),
            k < model.transitions.len(),
            t@ == model@.transitions[k as int],
            all == Seq::new(states.len() as nat, |i: int| states[i]@),
            forall|j: int| 0 <= j < i ==> t@.enabled_at(#[trigger] all[j]),
        decreases states.len() - i,
    {
        if !t.enabled_vector(&states[i]) {
            assert(!t@.enabled_at(all[i as int]));
            return false;
        }
        i += 1;
    }
    true
}

/// The trace `trace` with the step `k` put in after its first `at` steps.
fn splice(trace: &Vec<usize>, at: usize, k: usize) -> (r: Vec<usize>)
    requires
        at <= trace.len(),
    ensures
        r@ == spliced(trace@, at as int, k),
{
    let mut out: Vec<usize> = Vec::new();
    let mut j: usize = 0;
    while j < at
        invariant
            j <= at <= trace.len(),
            out@ == trace@.take(j as int),
        decreases at - j,
    {
        out.push(trace[j]);
        proof {
            assert(out@ =~= trace@.take(j + 1));
        }
        j += 1;
    }
    out.push(k);
    while j < trace.len()
        invariant
            at <= j <= trace.len(),
            out@ == trace@.take(at as int).push(k) + trace@.subrange(at as int, j as int),
        decreases trace.len() - j,
    {
        out.push(trace[j]);
        proof {
            assert(out@ =~= trace@.take(at as int).push(k) + trace@.subrange(at as int, j + 1));
        }
        j += 1;
    }
    proof {
        assert(trace@.subrange(at as int, trace.len() as int) =~= trace@.skip(at as int));
    }
    out
}

/// Grows the state space by the transitions that commute with `trace`.
///
/// `trace` lists positions of transitions; the walk along it from the
/// initial state visits a list of states. Every transition that may fire
/// at all of them is fired from each of them, wherever the step stays
/// within `VasValue` and leads to no negative value. After every step
/// that is fired the same is done, one level deeper, for the trace that
/// has the step put in at the state fired from. Below `max_depth` levels
/// nothing is done.
#[verifier::rlimit(30)]
pub fn commute(
    model: &AbstractVas,
    explicit_model: &mut PrismVasModel,
    trace: &Vec<usize>,
    depth: usize,
    max_depth: usize,
)
    requires
        model@.well_formed(),
        old(explicit_model).well_formed(),
        old(explicit_model).dimension() == model@.dimension(),
        positions_within(trace@, model@.transitions.len()),
    ensures
        final(explicit_model).well_formed(),
        final(explicit_model).variable_names == old(explicit_model).variable_names,
        final(explicit_model).m_type == old(explicit_model).m_type,
        old(explicit_model).graph().fires_only(model@.transitions)
            ==> final(explicit_model).graph().fires_only(model@.transitions),
        old(explicit_model).graph().extended_by(final(explicit_model).graph()),
        depth < max_depth ==> forall|k: int|
            0 <= k < model@.transitions.len() && enabled_throughout(
                #[trigger] model@.transitions[k],
                visited(model@.transitions, model@.initial[0], trace@, trace@.len()),
            ) ==> step_covered(
                final(explicit_model).graph(),
                model@.transitions,
                visited(model@.transitions, model@.initial[0], trace@, trace@.len()),
                visited(model@.transitions, model@.initial[0], trace@, trace@.len()).len(),
                k as usize,
            ),
        final(explicit_model).graph() == commuted(
            old(explicit_model).graph(),
            model@.transitions,
            model@.initial[0],
            trace@,
            depth as nat,
            max_depth as nat,
        ),
    decreases max_depth - depth,
{
    let ghost ts = model@.transitions;
    let ghost init = model@.initial[0];
    let ghost g0 = explicit_model.graph();
    proof {
        assert(g0.vectors =~= g0.vectors.subrange(0, g0.vectors.len() as int));
        assert(g0.edges =~= g0.edges.subrange(0, g0.edges.len() as int));
    }
    if depth >= max_depth {
        return ;
    }
    let states = visited_states(model, trace);
    let ghost seen = Seq::new(states.len() as nat, |i: int| states[i]@);
    let mut k: usize = 0;
    while k < model.transitions.len()
        invariant
            k <= model.transitions.len(),
            depth < max_depth,
            ts == model@.transitions,
            g0 == old(explicit_model).graph(),
            seen == Seq::new(states.len() as nat, |i: int| states[i]@),
            seen == visited(ts, model@.initial[0], trace@, trace@.len()),
            forall|i: int| 0 <= i < states.len() ==> (#[trigger] states[i]).len() == model@.dimension(),
            model@.well_formed(),
            explicit_model.well_formed(),
            explicit_model.dimension() == model@.dimension(),
            explicit_model.variable_names == old(explicit_model).variable_names,
            explicit_model.m_type == old(explicit_model).m_type,
            g0.fires_only(ts) ==> explicit_model.graph().fires_only(ts),
            g0.extended_by(explicit_model.graph()),
            positions_within(trace@, ts.len()),
            forall|a: int|
                0 <= a < k && enabled_throughout(#[trigger] ts[a], seen) ==> step_covered(
                    explicit_model.graph(),
                    ts,
                    seen,
                    seen.len(),
                    a as usize,
                ),
            init == model@.initial[0],
            explicit_model.graph() == commuted_through(
                g0,
                ts,
                init,
                trace@,
                depth as nat,
                max_depth as nat,
                k as nat,
            ),
        decreases model.transitions.len() - k,
    {
        let ghost tried = explicit_model.graph();
        if fires_throughout(model, k, &states) {
            let mut i: usize = 0;
            while i < states.len()
                invariant
                    i <= states.len(),
                    k < model.transitions.len(),
                    depth < max_depth,
                    ts == model@.transitions,
                    g0 == old(explicit_model).graph(),
                    seen == Seq::new(states.len() as nat, |i: int| states[i]@),
                    forall|j: int|
                        0 <= j < states.len() ==> (#[trigger] states[j]).len()
                            == model@.dimension(),
                    model@.well_formed(),
                    explicit_model.well_formed(),
                    explicit_model.dimension() == model@.dimension(),
                    explicit_model.variable_names == old(explicit_model).variable_names,
                    explicit_model.m_type == old(explicit_model).m_type,
                    g0.fires_only(ts) ==> explicit_model.graph().fires_only(ts),
                    g0.extended_by(explicit_model.graph()),
                    positions_within(trace@, ts.len()),
                    forall|a: int|
                        0 <= a < k && enabled_throughout(#[trigger] ts[a], seen) ==> step_covered(
                            explicit_model.graph(),
                            ts,
                            seen,
                            seen.len(),
                            a as usize,
                        ),
                    step_covered(explicit_model.graph(), ts, seen, i as nat, k),
                    init == model@.initial[0],
                    seen == visited(ts, init, trace@, trace@.len()),
                    explicit_model.graph() == commuted_from(
                        tried,
                        ts,
                        init,
                        trace@,
                        depth as nat,
                        max_depth as nat,
                        k,
                        i as nat,
                    ),
                decreases states.len() - i,
            {
                let ghost before = explicit_model.graph();
                let ghost s = states[i as int]@;
                assert(seen[i as int] == s);
                proof {
                    lemma_visited_length(ts, init, trace@, trace@.len());
                }
                let mut fired = false;
                match fire_position(model, &states[i], k) {
                    None => {
                        proof {
                            assert(state_at(ts, s, seq![k], 0) == s);
                            assert(!path_clear(ts, s, seq![k], 1)) by {
                                reveal_with_fuel(path_clear, 2);
                            }
                        }
                    },
                    Some(next) => {
                        proof {
                            reveal_with_fuel(state_at, 2);
                            assert(state_at(ts, s, seq![k], 1) == next@);
                        }
                        if has_negative(&next) {
                            proof {
                                assert(negative(next@));
                                assert(!path_clear(ts, s, seq![k], 1)) by {
                                    reveal_with_fuel(path_clear, 2);
                                }
                            }
                        } else {
                            let (from, _) = explicit_model.find_or_add_state(&states[i], None);
                            let ghost middle = explicit_model.graph();
                            proof {
                                assert(middle == before.with_state(s, None));
                                assert(middle.vectors[from as int] == s);
                                assert(middle.has_vector(s));
                                explicit_model.lemma_vectors_distinct(
                                    middle.id_of(s) as int,
                                    from as int,
                                );
                                assert(before.vectors =~= middle.vectors.subrange(
                                    0,
                                    before.vectors.len() as int,
                                ));
                                assert(before.edges =~= middle.edges.subrange(
                                    0,
                                    before.edges.len() as int,
                                ));
                                if before.fires_only(ts) {
                                    lemma_sink_edge_keeps_firing(before, middle, ts);
                                }
                            }
                            let (to, _) = store_step(
                                explicit_model,
                                from,
                                &next,
                                model.transitions[k].transition_id,
                                None,
                            );
                            fired = true;
                            proof {
                                let now = explicit_model.graph();
                                assert(model.transitions[k as int]@ == ts[k as int]);
                                if middle.fires_only(ts) {
                                    assert(0 <= k < ts.len());
                                    assert(now.fires_only(ts));
                                }
                                before.lemma_extended_twice(middle, now);
                                explicit_model.lemma_graph_distinct();
                                assert(middle.vectors =~= now.vectors.subrange(
                                    0,
                                    middle.vectors.len() as int,
                                ));
                                assert(now.vectors[from as int] == s);
                                assert(now.vectors[to as int] == next@);
                                assert(now.has_vector(s));
                                assert(now.has_vector(next@));
                                explicit_model.lemma_vectors_distinct(
                                    now.id_of(s) as int,
                                    from as int,
                                );
                                explicit_model.lemma_vectors_distinct(
                                    now.id_of(next@) as int,
                                    to as int,
                                );
                                assert(now.has_edge(from, to)) by {
                                    let e = choose|e: int|
                                        0 <= e < explicit_model.edges().len() && (
                                        #[trigger] explicit_model.edges()[e]).from_state == from
                                            && explicit_model.edges()[e].to_state == to;
                                    assert(now.edges[e].from_state == from);
                                }
                                assert(path_present(now, ts, s, seq![k], 1)) by {
                                    reveal_with_fuel(path_present, 2);
                                }
                            }
                        }
                    },
                }
                proof {
                    let now = explicit_model.graph();
                    g0.lemma_extended_twice(before, now);
                    explicit_model.lemma_graph_distinct();
                    lemma_step_covered_kept(before, now, ts, seen, i as nat, k);
                    assert forall|a: int|
                        0 <= a < k && enabled_throughout(#[trigger] ts[a], seen) implies step_covered(
                        now,
                        ts,
                        seen,
                        seen.len(),
                        a as usize,
                    ) by {
                        lemma_step_covered_kept(before, now, ts, seen, seen.len(), a as usize);
                    }
                }
                proof {
                    if fired && depth + 1 >= max_depth {
                        let stored = explicit_model.graph();
                        assert(commuted(
                            stored,
                            ts,
                            init,
                            spliced(trace@, i as int, k),
                            (depth + 1) as nat,
                            max_depth as nat,
                        ) == stored);
                    }
                }
                if fired && depth + 1 < max_depth {
                    let branch = splice(trace, i, k);
                    proof {
                        assert(positions_within(branch@, ts.len())) by {
                            assert forall|a: int| 0 <= a < branch@.len() implies #[trigger] branch@[a]
                                < ts.len() by {
                                if a < i {
                                    assert(branch@[a] == trace@[a]);
                                } else if a > i {
                                    assert(branch@[a] == trace@[a - 1]);
                                }
                            }
                        }
                    }
                    let ghost middle = explicit_model.graph();
                    commute(model, explicit_model, &branch, depth + 1, max_depth);
                    proof {
                        let now = explicit_model.graph();
                        g0.lemma_extended_twice(middle, now);
                        explicit_model.lemma_graph_distinct();
                        lemma_step_covered_kept(middle, now, ts, seen, (i + 1) as nat, k);
                        assert forall|a: int|
                            0 <= a < k && enabled_throughout(
                                #[trigger] ts[a],
                                seen,
                            ) implies step_covered(now, ts, seen, seen.len(), a as usize) by {
                            lemma_step_covered_kept(middle, now, ts, seen, seen.len(), a as usize);
                        }
                    }
                }
                i += 1;
            }
        }
        k += 1;
    }
}

/// A state space that grows by a state and its edge to the sink alone
/// keeps firing transitions only.
pub proof fn lemma_sink_edge_keeps_firing(g: GraphSpec, later: GraphSpec, ts: Seq<TransitionSpec>)
    requires
        g.fires_only(ts),
        g.extended_by(later),
        forall|e: int|
            0 <= e < g.edges.len() ==> (#[trigger] g.edges[e]).from_state < g.vectors.len()
                && g.edges[e].to_state < g.vectors.len(),
        later.edges == g.edges || (later.edges.len() == g.edges.len() + 1
            && later.edges.last().to_state == 0 && later.edges.last().transition_id
            == usize::MAX),
    ensures
        later.fires_only(ts),
{
    assert(g.vectors =~= later.vectors.subrange(0, g.vectors.len() as int));
    assert(g.edges =~= later.edges.subrange(0, g.edges.len() as int));
    assert forall|e: int| 0 <= e < later.edges.len() implies #[trigger] later.edge_fires(ts, e) by {
        if e < g.edges.len() {
            assert(g.edge_fires(ts, e));
            assert(later.edges[e] == g.edges[e]);
            let edge = g.edges[e];
            assert(later.vectors[edge.from_state as int] == g.vectors[edge.from_state as int]);
            assert(later.vectors[edge.to_state as int] == g.vectors[edge.to_state as int]);
            if !(edge.to_state == 0 && edge.transition_id == usize::MAX) {
                let j = choose|j: int|
                    0 <= j < ts.len() && edge.transition_id == (#[trigger] ts[j]).id && step_fits(
                        g.vectors[edge.from_state as int],
                        ts[j],
                    ) && g.vectors[edge.to_state as int] == stepped(
                        g.vectors[edge.from_state as int],
                        ts[j],
                    );
                assert(ts[j].id == edge.transition_id);
            }
        }
    }
}

/// The positions of the transitions called `names`, name by name.
pub open spec fn resolved(ts: Seq<TransitionSpec>, names: Seq<String>) -> Seq<usize> {
    Seq::new(names.len(), |i: int| position_of_name(ts, names[i]@) as usize)
}

/// Whether every one of `names` is the name of a transition.
pub open spec fn all_known(ts: Seq<TransitionSpec>, names: Seq<String>) -> bool {
    forall|i: int| 0 <= i < names.len() ==> position_of_name(ts, (#[trigger] names[i])@) < ts.len()
}

/// The positions of the transitions called `names`, or `None` when one of
/// the names is not the name of a transition.
fn resolve(model: &AbstractVas, names: &Vec<String>) -> (r: Option<Vec<usize>>)
    ensures
        r is Some <==> all_known(model@.transitions, names@),
        r matches Some(p) ==> p@ == resolved(model@.transitions, names@) && positions_within(
            p@,
            model@.transitions.len(),
        ),
{
    let ghost ts = model@.transitions;
    let mut out: Vec<usize> = Vec::new();
    let mut i: usize = 0;
    while i < names.len()
        invariant
            i <= names.len(),
            ts == model@.transitions,
            out.len() == i,
            forall|j: int| 0 <= j < i ==> position_of_name(ts, (#[trigger] names[j])@) < ts.len(),
            forall|j: int| 0 <= j < i ==> out[j] == position_of_name(ts, names[j]@),
        decreases names.len() - i,
    {
        let p = model.find_transition_by_name(names[i].as_str());
        if p >= model.transitions.len() {
            assert(!(position_of_name(ts, names[i as int]@) < ts.len()));
            return None;
        }
        out.push(p);
        i += 1;
    }
    proof {
        assert(out@ =~= resolved(ts, names@));
    }
    Some(out)
}

/// Why the path along `order` from `v` cannot be taken for `upto` steps:
/// the reason at the first step that cannot be taken.
pub open spec fn blocked_by(ts: Seq<TransitionSpec>, v: Seq<VasValue>, order: Seq<usize>, upto: nat) -> Option<
    TraceError,
>
    decreases upto,
{
    if upto == 0 {
        None
    } else {
        match blocked_by(ts, v, order, (upto - 1) as nat) {
            Some(e) => Some(e),
            None => if !step_fits(state_at(ts, v, order, (upto - 1) as nat), ts[order[upto - 1] as int]) {
                Some(TraceError::Overflow)
            } else if negative(state_at(ts, v, order, upto)) {
                Some(TraceError::NegativeState)
            } else {
                None
            },
        }
    }
}

/// A path is blocked by something exactly when it cannot be taken.
pub proof fn lemma_blocked_iff_not_clear(
    ts: Seq<TransitionSpec>,
    v: Seq<VasValue>,
    order: Seq<usize>,
    upto: nat,
)
    ensures
        blocked_by(ts, v, order, upto) is None <==> path_clear(ts, v, order, upto),
    decreases upto,
{
    if upto > 0 {
        lemma_blocked_iff_not_clear(ts, v, order, (upto - 1) as nat);
    }
}

/// Once a path is blocked, it is blocked by the same however far one
/// looks.
pub proof fn lemma_blocked_by_stays(
    ts: Seq<TransitionSpec>,
    v: Seq<VasValue>,
    order: Seq<usize>,
    upto: nat,
    total: nat,
)
    requires
        upto <= total,
        blocked_by(ts, v, order, upto) is Some,
    ensures
        blocked_by(ts, v, order, total) == blocked_by(ts, v, order, upto),
    decreases total,
{
    if upto < total {
        lemma_blocked_by_stays(ts, v, order, upto, (total - 1) as nat);
    }
}

/// Why the path along `order` from `v` cannot be taken, if it cannot.
fn check_path(model: &AbstractVas, v: &Vec<VasValue>, order: &Vec<usize>) -> (r: Option<TraceError>)
    requires
        model@.well_formed(),
        v.len() == model@.dimension(),
        positions_within(order@, model@.transitions.len()),
    ensures
        r == blocked_by(model@.transitions, v@, order@, order@.len()),
        r is None <==> path_clear(model@.transitions, v@, order@, order@.len()),
{
    let ghost ts = model@.transitions;
    let mut current = copy_of(v);
    let mut m: usize = 0;
    proof {
        lemma_blocked_iff_not_clear(ts, v@, order@, order@.len());
    }
    while m < order.len()
        invariant
            m <= order.len(),
            ts == model@.transitions,
            model@.well_formed(),
            positions_within(order@, ts.len()),
            current.len() == model@.dimension(),
            current@ == state_at(ts, v@, order@, m as nat),
            blocked_by(ts, v@, order@, m as nat) is None,
            blocked_by(ts, v@, order@, order@.len()) is None <==> path_clear(
                ts,
                v@,
                order@,
                order@.len(),
            ),
        decreases order.len() - m,
    {
        let k = order[m];
        assert(order@[m as int] < ts.len());
        let next = match fire_position(model, &current, k) {
            Some(next) => next,
            None => {
                proof {
                    lemma_blocked_by_stays(ts, v@, order@, (m + 1) as nat, order@.len());
                }
                return Some(TraceError::Overflow);
            },
        };
        if has_negative(&next) {
            proof {
                assert(negative(state_at(ts, v@, order@, (m + 1) as nat)));
                lemma_blocked_by_stays(ts, v@, order@, (m + 1) as nat, order@.len());
            }
            return Some(TraceError::NegativeState);
        }
        current = next;
        m += 1;
    }
    None
}

/// What stops the seeding from the first `upto` of `traces`: a name that
/// is not the name of a transition, or what blocks the path of a trace
/// from the initial state.
pub open spec fn first_failure(
    ts: Seq<TransitionSpec>,
    init: Seq<VasValue>,
    traces: Seq<Vec<String>>,
    upto: nat,
) -> Option<TraceError>
    decreases upto,
{
    if upto == 0 {
        None
    } else {
        match first_failure(ts, init, traces, (upto - 1) as nat) {
            Some(e) => Some(e),
            None => {
                let names = traces[upto - 1]@;
                if !all_known(ts, names) {
                    Some(TraceError::UnknownTransition)
                } else {
                    blocked_by(ts, init, resolved(ts, names), names.len())
                }
            },
        }
    }
}

/// Whether `g` holds what the seeding and the commute expansion owe to
/// the first `upto` of `traces`: the path of each trace from the initial
/// state, and from every state on it the step of every transition that
/// may fire at all of them.
pub open spec fn traces_covered(
    g: GraphSpec,
    ts: Seq<TransitionSpec>,
    init: Seq<VasValue>,
    traces: Seq<Vec<String>>,
    upto: nat,
) -> bool {
    forall|j: int|
        0 <= j < upto ==> {
            let order = resolved(ts, (#[trigger] traces[j])@);
            &&& path_present(g, ts, init, order, order.len())
            &&& forall|k: int|
                0 <= k < ts.len() && enabled_throughout(
                    #[trigger] ts[k],
                    visited(ts, init, order, order.len()),
                ) ==> step_covered(
                    g,
                    ts,
                    visited(ts, init, order, order.len()),
                    visited(ts, init, order, order.len()).len(),
                    k as usize,
                )
        }
}

/// What is owed to the traces stays in every extension without repeated
/// vectors.
pub proof fn lemma_traces_covered_kept(
    g: GraphSpec,
    later: GraphSpec,
    ts: Seq<TransitionSpec>,
    init: Seq<VasValue>,
    traces: Seq<Vec<String>>,
    upto: nat,
)
    requires
        g.extended_by(later),
        later.distinct(),
        later.vectors.len() <= usize::MAX,
        traces_covered(g, ts, init, traces, upto),
    ensures
        traces_covered(later, ts, init, traces, upto),
{
    assert forall|j: int| 0 <= j < upto implies {
        let order = resolved(ts, (#[trigger] traces[j])@);
        &&& path_present(later, ts, init, order, order.len())
        &&& forall|k: int|
            0 <= k < ts.len() && enabled_throughout(
                #[trigger] ts[k],
                visited(ts, init, order, order.len()),
            ) ==> step_covered(
                later,
                ts,
                visited(ts, init, order, order.len()),
                visited(ts, init, order, order.len()).len(),
                k as usize,
            )
    } by {
        let order = resolved(ts, traces[j]@);
        lemma_path_kept(g, later, ts, init, order, order.len());
        let seen = visited(ts, init, order, order.len());
        assert forall|k: int|
            0 <= k < ts.len() && enabled_throughout(#[trigger] ts[k], seen) implies step_covered(
            later,
            ts,
            seen,
            seen.len(),
            k as usize,
        ) by {
            lemma_step_covered_kept(g, later, ts, seen, seen.len(), k as usize);
        }
    }
}

/// The state space `g` after the first `upto` of `traces` were taken in,
/// trace after trace: the path of the trace from `init` is stored, and
/// then the transitions that commute with it are fired, to the depth
/// `MAX_DEPTH`.
pub open spec fn with_traces(
    g: GraphSpec,
    ts: Seq<TransitionSpec>,
    init: Seq<VasValue>,
    traces: Seq<Vec<String>>,
    upto: nat,
) -> GraphSpec
    decreases upto,
{
    if upto == 0 {
        g
    } else {
        let before = with_traces(g, ts, init, traces, (upto - 1) as nat);
        let order = resolved(ts, traces[upto - 1]@);
        commuted(
            with_path(before, ts, init, order, order.len()),
            ts,
            init,
            order,
            0,
            MAX_DEPTH as nat,
        )
    }
}

/// The state space of the cycle-and-commute construction for `model` and
/// `traces`, before the cycles are added.
pub open spec fn seeded_space(model: ModelSpec, traces: Seq<Vec<String>>) -> GraphSpec {
    with_traces(
        initial_graph(model.dimension(), model.initial[0]),
        model.transitions,
        model.initial[0],
        traces,
        traces.len(),
    )
}

/// The state space of the cycle-and-commute construction for `model` and
/// `traces`.
pub open spec fn closure_of(model: ModelSpec, traces: Seq<Vec<String>>) -> GraphSpec {
    with_cycles(
        seeded_space(model, traces),
        model.transitions,
        model.dimension(),
        MAX_CYCLE_LENGTH as nat,
    )
}

/// Whether `r` is what the cycle-and-commute construction comes to for
/// `model` and `traces`.
///
/// It fails with the first failure among the traces. Otherwise it gives
/// the state space `closure_of(model, traces)`, with the variables and
/// the type of the model, and the number of states before the cycles
/// were added. That state space is well formed, its state 1 is the first
/// initial state, and its edges fire transitions of the model; it holds
/// the path of every trace with the steps that commute with it, and,
/// from every state that was there before the cycles, the path along
/// every ordering of a cycle that can be taken from it.
pub open spec fn closure_result(
    model: ModelSpec,
    traces: Seq<Vec<String>>,
    r: Result<(PrismVasModel, usize), TraceError>,
) -> bool {
    match r {
        Ok((space, seeded)) => {
            &&& first_failure(model.transitions, model.initial[0], traces, traces.len()) is None
            &&& space.well_formed()
            &&& name_specs(space.variable_names@) == model.names
            &&& space.m_type == model.m_type
            &&& space.vectors()[1] == model.initial[0]
            &&& space.graph().fires_only(model.transitions)
            &&& 2 <= seeded <= space.states.len()
            &&& space.graph() == closure_of(model, traces)
            &&& seeded == seeded_space(model, traces).vectors.len()
            &&& traces_covered(
                space.graph(),
                model.transitions,
                model.initial[0],
                traces,
                traces.len(),
            )
            &&& forall|length: nat|
                2 <= length <= MAX_CYCLE_LENGTH ==> #[trigger] cycles_covered(
                    space.graph(),
                    model.transitions,
                    model.dimension(),
                    space.vectors(),
                    seeded as nat,
                    length,
                    choices_in_order(model.transitions.len(), length).len(),
                )
            &&& forall|order: Seq<usize>|
                2 <= order.len() <= MAX_CYCLE_LENGTH && is_cycle_ordering(
                    model.transitions,
                    model.dimension(),
                    order,
                ) ==> #[trigger] cycle_laid(
                    space.graph(),
                    model.transitions,
                    space.vectors(),
                    seeded as nat,
                    order,
                )
        },
        Err(e) => first_failure(model.transitions, model.initial[0], traces, traces.len())
            == Some(e),
    }
}

/// Builds the state space of the cycle-and-commute construction.
///
/// Every trace lists transition names. Its path from the initial state is
/// stored, then the transitions that commute with it are fired, to the
/// depth `MAX_DEPTH`; when all traces are done, the cycles up to the
/// length `MAX_CYCLE_LENGTH` are fired from every state. The second part
/// of the result is the number of states before the cycles were added.
///
/// Fails on the first trace that names no transition of the model or
/// whose path leaves the range of `VasValue` or leads to a negative
/// value.
pub fn cycle_commute(model: &AbstractVas, traces: &Vec<Vec<String>>) -> (r: Result<
    (PrismVasModel, usize),
    TraceError,
>)
    requires
        model@.well_formed(),
    ensures
        closure_result(model@, traces@, r),
{
    let ghost ts = model@.transitions;
    let ghost init = model@.initial[0];
    assert(model@.initial[0] == model.initial_states[0]@);
    let mut space = PrismVasModel::from_abstract_model(model);
    proof {
        assert(name_specs(space.variable_names@).len() == space.variable_names.len());
    }
    space.initialize(&model.initial_states[0].vector);
    proof {
        assert(space.vectors().len() == space.states.len());
        assert(space.graph().fires_only(ts)) by {
            assert forall|e: int| 0 <= e < space.graph().edges.len() implies #[trigger] space.graph().edge_fires(
                ts,
                e,
            ) by {}
        }
    }
    let mut j: usize = 0;
    while j < traces.len()
        invariant
            j <= traces.len(),
            ts == model@.transitions,
            init == model@.initial[0],
            model@.well_formed(),
            space.well_formed(),
            space.dimension() == model@.dimension(),
            name_specs(space.variable_names@) == model@.names,
            space.m_type == model@.m_type,
            space.vectors()[1] == init,
            space.graph().fires_only(ts),
            first_failure(ts, init, traces@, j as nat) is None,
            traces_covered(space.graph(), ts, init, traces@, j as nat),
            space.graph() == with_traces(
                initial_graph(model@.dimension(), init),
                ts,
                init,
                traces@,
                j as nat,
            ),
        decreases traces.len() - j,
    {
        let order = match resolve(model, &traces[j]) {
            Some(order) => order,
            None => {
                proof {
                    lemma_failure_stays(ts, init, traces@, (j + 1) as nat, traces@.len());
                }
                return Err(TraceError::UnknownTransition);
            },
        };
        match check_path(model, &model.initial_states[0].vector, &order) {
            Some(e) => {
                proof {
                    lemma_failure_stays(ts, init, traces@, (j + 1) as nat, traces@.len());
                }
                return Err(e);
            },
            None => {},
        }
        let ghost before = space.graph();
        fire_ordering(model, &mut space, 1, &order);
        let ghost seeded = space.graph();
        commute(model, &mut space, &order, 0, MAX_DEPTH);
        proof {
            let now = space.graph();
            before.lemma_extended_twice(seeded, now);
            space.lemma_graph_distinct();
            assert(before.vectors =~= now.vectors.subrange(0, before.vectors.len() as int));
            assert(now.vectors[1] == init);
            lemma_traces_covered_kept(before, now, ts, init, traces@, j as nat);
            lemma_path_kept(seeded, now, ts, init, order@, order@.len());
        }
        j += 1;
    }
    let seeded = space.states.len();
    let ghost before = space.graph();
    add_cycles(model, &mut space, MAX_CYCLE_LENGTH);
    proof {
        let now = space.graph();
        space.lemma_graph_distinct();
        assert(before.vectors =~= now.vectors.subrange(0, before.vectors.len() as int));
        assert(now.vectors[1] == init);
        lemma_traces_covered_kept(before, now, ts, init, traces@, traces@.len());
        assert forall|length: nat| 2 <= length <= MAX_CYCLE_LENGTH implies #[trigger] cycles_covered(
            now,
            ts,
            model@.dimension(),
            now.vectors,
            seeded as nat,
            length,
            choices_in_order(ts.len(), length).len(),
        ) by {
            lemma_cycles_base_extended(
                now,
                ts,
                model@.dimension(),
                before.vectors,
                now.vectors,
                length,
                choices_in_order(ts.len(), length).len(),
            );
        }
        assert forall|order: Seq<usize>|
            2 <= order.len() <= MAX_CYCLE_LENGTH && is_cycle_ordering(
                ts,
                model@.dimension(),
                order,
            ) implies #[trigger] cycle_laid(now, ts, now.vectors, seeded as nat, order) by {
            assert(cycle_laid(now, ts, before.vectors, before.vectors.len(), order));
            assert forall|s: int|
                1 <= s < seeded && path_clear(
                    ts,
                    #[trigger] now.vectors[s],
                    order,
                    order.len(),
                ) implies path_present(now, ts, now.vectors[s], order, order.len()) by {
                assert(before.vectors[s] == now.vectors[s]);
            }
        }
    }
    Ok((space, seeded))
}

/// A failure among the first traces remains the failure however many more
/// traces are taken in.
pub proof fn lemma_failure_stays(
    ts: Seq<TransitionSpec>,
    init: Seq<VasValue>,
    traces: Seq<Vec<String>>,
    upto: nat,
    total: nat,
)
    requires
        upto <= total,
        first_failure(ts, init, traces, upto) is Some,
    ensures
        first_failure(ts, init, traces, total) == first_failure(ts, init, traces, upto),
    decreases total,
{
    if upto < total {
        lemma_failure_stays(ts, init, traces, upto, (total - 1) as nat);
    }
}

/// Cycles covered from the states of a table are covered from the same
/// states read off a longer table.
pub proof fn lemma_cycles_base_extended(
    g: GraphSpec,
    ts: Seq<TransitionSpec>,
    dimension: nat,
    base: Seq<Seq<VasValue>>,
    longer: Seq<Seq<VasValue>>,
    length: nat,
    seen: nat,
)
    requires
        base.is_prefix_of(longer),
        cycles_covered(g, ts, dimension, base, base.len(), length, seen),
    ensures
        cycles_covered(g, ts, dimension, longer, base.len(), length, seen),
{
    assert(base =~= longer.subrange(0, base.len() as int));
    assert forall|j: int|
        0 <= j < seen && adds_to_zero(
            ts,
            #[trigger] choices_in_order(ts.len(), length)[j],
            dimension,
        ) implies covered_from_all(
        g,
        ts,
        longer,
        base.len(),
        first_occurrences(arrangements_in_order(choices_in_order(ts.len(), length)[j])),
    ) by {
        let orders = first_occurrences(
            arrangements_in_order(choices_in_order(ts.len(), length)[j]),
        );
        assert(covered_from_all(g, ts, base, base.len(), orders));
        assert forall|s: int| 1 <= s < base.len() implies covered(
            g,
            ts,
            #[trigger] longer[s],
            orders,
            orders.len(),
        ) by {
            assert(longer[s] == base[s]);
        }
    }
}

} // verus!
