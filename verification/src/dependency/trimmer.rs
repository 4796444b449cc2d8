//! Projection of a model onto the variables and transitions that its
//! dependency graph uses.

use crate::dependency::graph::DependencyGraph;
use crate::model::vas_model::{
    enabled_in, end_of, fireable, fired, name_specs, transition_specs, AbstractVas, ModelSpec,
    TransitionSpec, VasProperty, VasState, VasTransition,
};
use crate::model::vector::{as_ints, VasValue};
use vstd::prelude::*;

verus! {

/// Whether one of `ts` changes or inspects the variable at `i`.
pub open spec fn touched_by_any(ts: Seq<TransitionSpec>, i: int) -> bool {
    exists|k: int| 0 <= k < ts.len() && (#[trigger] ts[k]).touches(i)
}

/// The variables below `upto` that one of `ts` touches, in rising order.
pub open spec fn kept_indices(ts: Seq<TransitionSpec>, upto: nat) -> Seq<int>
    decreases upto,
{
    if upto == 0 {
        Seq::empty()
    } else {
        let before = kept_indices(ts, (upto - 1) as nat);
        if touched_by_any(ts, upto - 1) {
            before.push(upto - 1)
        } else {
            before
        }
    }
}

/// The components of `v` at the positions `kept`.
pub open spec fn project<A>(v: Seq<A>, kept: Seq<int>) -> Seq<A> {
    Seq::new(kept.len(), |j: int| v[kept[j]])
}

/// `t` with both vectors projected onto `kept`.
pub open spec fn project_transition(t: TransitionSpec, kept: Seq<int>) -> TransitionSpec {
    TransitionSpec { update: project(t.update, kept), bounds: project(t.bounds, kept), ..t }
}

/// Position of `i` in `kept`, or 0 when `i` does not occur.
pub open spec fn position_in(kept: Seq<int>, i: int) -> int {
    if kept.contains(i) {
        kept.index_of(i)
    } else {
        0
    }
}

/// The model that `used` leave of `model`: the variables that one of them
/// touches, the first initial state and the transitions `used` projected
/// onto those variables, and the target moved to its variable's new
/// place; to place 0 when its variable is not kept.
pub open spec fn trimmed(model: ModelSpec, used: Seq<TransitionSpec>) -> ModelSpec {
    let kept = kept_indices(used, model.dimension());
    ModelSpec {
        names: project(model.names, kept),
        initial: seq![project(model.initial[0], kept)],
        transitions: project_all(used, kept),
        m_type: model.m_type,
        target: VasProperty {
            variable_index: position_in(kept, model.target.variable_index as int) as usize,
            target_value: model.target.target_value,
        },
    }
}

/// `kept_indices` lists exactly the touched variables below `upto`, each
/// once and in rising order.
pub proof fn lemma_kept_indices(ts: Seq<TransitionSpec>, upto: nat)
    ensures
        kept_indices(ts, upto).len() <= upto,
        forall|j: int|
            0 <= j < kept_indices(ts, upto).len() ==> 0 <= (#[trigger] kept_indices(ts, upto)[j])
                < upto && touched_by_any(ts, kept_indices(ts, upto)[j]),
        forall|a: int, b: int|
            0 <= a < b < kept_indices(ts, upto).len() ==> kept_indices(ts, upto)[a]
                < kept_indices(ts, upto)[b],
        forall|i: int|
            0 <= i < upto && touched_by_any(ts, i) ==> kept_indices(ts, upto).contains(i),
    decreases upto,
{
    if upto > 0 {
        lemma_kept_indices(ts, (upto - 1) as nat);
        let before = kept_indices(ts, (upto - 1) as nat);
        let now = kept_indices(ts, upto);
        assert forall|i: int| 0 <= i < upto && touched_by_any(ts, i) implies now.contains(i) by {
            if i < upto - 1 {
                let j = before.index_of(i);
                assert(now[j] == i);
            } else {
                assert(now[now.len() - 1] == i);
            }
        }
    }
}

/// The transitions `used`, each projected onto `kept`.
pub open spec fn project_all(used: Seq<TransitionSpec>, kept: Seq<int>) -> Seq<TransitionSpec> {
    Seq::new(used.len(), |k: int| project_transition(used[k], kept))
}

/// Firing on the kept variables alone goes as firing on all of them.
///
/// Let `s` be a state of `n` variables that is not negative where none of
/// `used` touches it. Then a path over `used` can fire from `s` exactly
/// when it can fire from the projection of `s` with the projected
/// transitions, and the two end states agree on the kept variables.
pub proof fn lemma_projection_follows(used: Seq<TransitionSpec>, n: nat, s: Seq<int>, path: Seq<int>)
    requires
        s.len() == n,
        forall|k: int| 0 <= k < used.len() ==> (#[trigger] used[k]).has_dimension(n),
        forall|i: int| 0 <= i < n && !touched_by_any(used, i) ==> #[trigger] s[i] >= 0,
    ensures
        fireable(used, s, path) <==> fireable(
            project_all(used, kept_indices(used, n)),
            project(s, kept_indices(used, n)),
            path,
        ),
        fireable(used, s, path) ==> end_of(
            project_all(used, kept_indices(used, n)),
            project(s, kept_indices(used, n)),
            path,
        ) == project(end_of(used, s, path), kept_indices(used, n)),
        fireable(used, s, path) ==> end_of(used, s, path).len() == n,
    decreases path.len(),
{
    let kept = kept_indices(used, n);
    let small = project_all(used, kept);
    lemma_kept_indices(used, n);
    if path.len() > 0 && 0 <= path[0] < used.len() {
        let k = path[0];
        let t = used[k];
        let p = small[k];
        assert(t.has_dimension(n));
        assert(enabled_in(t, s) <==> enabled_in(p, project(s, kept))) by {
            if enabled_in(p, project(s, kept)) {
                assert forall|i: int| 0 <= i < t.bounds.len() && i < s.len() implies s[i]
                    >= t.bounds[i] by {
                    if touched_by_any(used, i) {
                        let j = kept.index_of(i);
                        assert(project(s, kept)[j] >= p.bounds[j]);
                    } else {
                        assert(!t.touches(i));
                    }
                }
            }
            if enabled_in(t, s) {
                assert forall|j: int|
                    0 <= j < p.bounds.len() && j < project(s, kept).len() implies project(
                    s,
                    kept,
                )[j] >= p.bounds[j] by {
                    assert(0 <= kept[j] < n);
                }
            }
        }
        let next = fired(t, s);
        assert(project(next, kept) =~= fired(p, project(s, kept)));
        assert forall|i: int| 0 <= i < n && !touched_by_any(used, i) implies #[trigger] next[i]
            >= 0 by {
            assert(!t.touches(i));
            assert(s[i] >= 0);
        }
        lemma_projection_follows(used, n, next, path.drop_first());
    }
}

/// Trimming preserves the runs of the kept transitions and whether they
/// reach the target.
///
/// Let the first initial state be non-negative and the target variable be
/// touched by one of `used`. Then a path over `used` can fire in `model`
/// from its first initial state exactly when it can fire in the trimmed
/// model from the trimmed initial state, and it ends on the target in the
/// one exactly when it does so in the other.
pub proof fn lemma_trim_preserves_reachability(
    model: ModelSpec,
    used: Seq<TransitionSpec>,
    path: Seq<int>,
)
    requires
        model.well_formed(),
        forall|k: int| 0 <= k < used.len() ==> (#[trigger] used[k]).has_dimension(model.dimension()),
        forall|i: int| 0 <= i < model.dimension() ==> (#[trigger] model.initial[0][i]) >= 0,
        model.target.variable_index < model.dimension(),
        model.dimension() <= usize::MAX,
        touched_by_any(used, model.target.variable_index as int),
    ensures
        fireable(used, as_ints(model.initial[0]), path) <==> fireable(
            trimmed(model, used).transitions,
            as_ints(trimmed(model, used).initial[0]),
            path,
        ),
        fireable(used, as_ints(model.initial[0]), path) ==> (end_of(
            used,
            as_ints(model.initial[0]),
            path,
        )[model.target.variable_index as int] == model.target.target_value <==> end_of(
            trimmed(model, used).transitions,
            as_ints(trimmed(model, used).initial[0]),
            path,
        )[trimmed(model, used).target.variable_index as int] == trimmed(
            model,
            used,
        ).target.target_value),
{
    let n = model.dimension();
    let kept = kept_indices(used, n);
    let s = as_ints(model.initial[0]);
    let small = trimmed(model, used);
    lemma_kept_indices(used, n);
    assert(model.initial[0].len() == n);
    assert(small.transitions =~= project_all(used, kept));
    assert(as_ints(small.initial[0]) =~= project(s, kept));
    assert forall|i: int| 0 <= i < n && !touched_by_any(used, i) implies #[trigger] s[i] >= 0 by {
        assert(model.initial[0][i] >= 0);
    }
    lemma_projection_follows(used, n, s, path);
    let tv = model.target.variable_index as int;
    assert(kept.contains(tv));
    let j = kept.index_of(tv);
    assert(kept[j] == tv);
    assert(small.target.variable_index == j);
    if fireable(used, s, path) {
        let end = end_of(used, s, path);
        assert(project(end, kept)[j] == end[tv]);
    }
}

/// What can fire on all variables can fire on the kept variables alone.
///
/// A path over `used` that can fire from a state `s` of `n` variables can
/// fire from the projection of `s` with the projected transitions; the
/// two end states agree on the kept variables, and a variable that none
/// of `used` touches is at the end what it was in `s`.
pub proof fn lemma_projection_forward(used: Seq<TransitionSpec>, n: nat, s: Seq<int>, path: Seq<int>)
    requires
        s.len() == n,
        forall|k: int| 0 <= k < used.len() ==> (#[trigger] used[k]).has_dimension(n),
        fireable(used, s, path),
    ensures
        fireable(project_all(used, kept_indices(used, n)), project(s, kept_indices(used, n)), path),
        end_of(project_all(used, kept_indices(used, n)), project(s, kept_indices(used, n)), path)
            == project(end_of(used, s, path), kept_indices(used, n)),
        end_of(used, s, path).len() == n,
        forall|i: int|
            0 <= i < n && !touched_by_any(used, i) ==> end_of(used, s, path)[i] == #[trigger] s[i],
    decreases path.len(),
{
    let kept = kept_indices(used, n);
    let small = project_all(used, kept);
    lemma_kept_indices(used, n);
    if path.len() > 0 {
        let k = path[0];
        let t = used[k];
        let p = small[k];
        assert(t.has_dimension(n));
        assert(enabled_in(p, project(s, kept))) by {
            assert forall|j: int|
                0 <= j < p.bounds.len() && j < project(s, kept).len() implies project(s, kept)[j]
                >= p.bounds[j] by {
                assert(0 <= kept[j] < n);
            }
        }
        let next = fired(t, s);
        assert(project(next, kept) =~= fired(p, project(s, kept)));
        lemma_projection_forward(used, n, next, path.drop_first());
        assert forall|i: int| 0 <= i < n && !touched_by_any(used, i) implies end_of(
            used,
            s,
            path,
        )[i] == #[trigger] s[i] by {
            assert(!t.touches(i));
            assert(next[i] == s[i]);
        }
    }
}

/// Trimming keeps the target within reach.
///
/// Let the first initial state of `model` not satisfy the target, as in
/// every model that has a dependency graph. Then a path over `used` that
/// fires in `model` from its first initial state and ends on the target
/// fires in the trimmed model from the trimmed initial state and ends on
/// the trimmed target.
pub proof fn lemma_trim_keeps_target_in_reach(
    model: ModelSpec,
    used: Seq<TransitionSpec>,
    path: Seq<int>,
)
    requires
        model.well_formed(),
        forall|k: int| 0 <= k < used.len() ==> (#[trigger] used[k]).has_dimension(model.dimension()),
        model.dimension() <= usize::MAX,
        model.target.variable_index < model.dimension(),
        !model.target.holds_at(model.initial[0]),
        fireable(used, as_ints(model.initial[0]), path),
        end_of(used, as_ints(model.initial[0]), path)[model.target.variable_index as int]
            == model.target.target_value,
    ensures
        fireable(
            trimmed(model, used).transitions,
            as_ints(trimmed(model, used).initial[0]),
            path,
        ),
        trimmed(model, used).target.variable_index < trimmed(model, used).dimension(),
        end_of(
            trimmed(model, used).transitions,
            as_ints(trimmed(model, used).initial[0]),
            path,
        )[trimmed(model, used).target.variable_index as int] == trimmed(
            model,
            used,
        ).target.target_value,
{
    let n = model.dimension();
    let kept = kept_indices(used, n);
    let s = as_ints(model.initial[0]);
    let small = trimmed(model, used);
    lemma_kept_indices(used, n);
    assert(model.initial[0].len() == n);
    assert(small.transitions =~= project_all(used, kept));
    assert(as_ints(small.initial[0]) =~= project(s, kept));
    lemma_projection_forward(used, n, s, path);
    let tv = model.target.variable_index as int;
    if !touched_by_any(used, tv) {
        assert(end_of(used, s, path)[tv] == s[tv]);
        assert(model.initial[0][tv] == model.target.target_value);
    }
    assert(kept.contains(tv));
    let j = kept.index_of(tv);
    assert(kept[j] == tv);
    assert(small.target.variable_index == j);
    let end = end_of(used, s, path);
    assert(project(end, kept)[j] == end[tv]);
}

/// Whether one of the first `upto` of `ts` has the id `id`.
pub open spec fn has_id(ts: Seq<TransitionSpec>, upto: int, id: usize) -> bool {
    exists|j: int| 0 <= j < upto && j < ts.len() && (#[trigger] ts[j]).id == id
}

/// The first `upto` of `ts` without those whose id a transition before
/// them has: of the transitions that share an id the first stays, at its
/// place among the others.
pub open spec fn first_of_each_id(ts: Seq<TransitionSpec>, upto: nat) -> Seq<TransitionSpec>
    decreases upto,
{
    if upto == 0 {
        Seq::empty()
    } else {
        let before = first_of_each_id(ts, (upto - 1) as nat);
        if has_id(ts, upto - 1, ts[upto - 1].id) {
            before
        } else {
            before.push(ts[upto - 1])
        }
    }
}

/// The transitions that a graph with the transitions `met` uses: each of
/// them once.
pub open spec fn used_once(met: Seq<TransitionSpec>) -> Seq<TransitionSpec> {
    first_of_each_id(met, met.len())
}

/// Whether no two of `ts` have the same id.
pub open spec fn ids_distinct(ts: Seq<TransitionSpec>) -> bool {
    forall|a: int, b: int| 0 <= a < b < ts.len() ==> (#[trigger] ts[a]).id != (#[trigger] ts[b]).id
}

/// What `first_of_each_id` keeps: transitions of the list, with the ids of
/// the list, each id once.
pub proof fn lemma_first_of_each_id(ts: Seq<TransitionSpec>, upto: nat)
    requires
        upto <= ts.len(),
    ensures
        ids_distinct(first_of_each_id(ts, upto)),
        forall|a: int|
            0 <= a < first_of_each_id(ts, upto).len() ==> exists|j: int|
                0 <= j < upto && ts[j] == #[trigger] first_of_each_id(ts, upto)[a],
        forall|j: int|
            0 <= j < upto ==> has_id(
                first_of_each_id(ts, upto),
                first_of_each_id(ts, upto).len() as int,
                (#[trigger] ts[j]).id,
            ),
    decreases upto,
{
    if upto > 0 {
        lemma_first_of_each_id(ts, (upto - 1) as nat);
        let before = first_of_each_id(ts, (upto - 1) as nat);
        let now = first_of_each_id(ts, upto);
        let last = ts[upto - 1];
        assert forall|a: int| 0 <= a < now.len() implies exists|j: int|
            0 <= j < upto && ts[j] == #[trigger] now[a] by {
            if a < before.len() {
                let j = choose|j: int| 0 <= j < upto - 1 && ts[j] == before[a];
                assert(ts[j] == now[a]);
            } else {
                assert(ts[upto - 1] == now[a]);
            }
        }
        assert forall|a: int, b: int| 0 <= a < b < now.len() implies (#[trigger] now[a]).id != (
        #[trigger] now[b]).id by {
            if b == before.len() {
                let j = choose|j: int| 0 <= j < upto - 1 && ts[j] == before[a];
                if now[a].id == now[b].id {
                    assert(ts[j].id == last.id);
                    assert(has_id(ts, upto - 1, last.id));
                }
            }
        }
        assert forall|j: int| 0 <= j < upto implies has_id(
            now,
            now.len() as int,
            (#[trigger] ts[j]).id,
        ) by {
            if j < upto - 1 {
                assert(has_id(before, before.len() as int, ts[j].id));
                let a = choose|a: int|
                    0 <= a < before.len() && (#[trigger] before[a]).id == ts[j].id;
                assert(now[a].id == ts[j].id);
            } else if has_id(ts, upto - 1, last.id) {
                let k = choose|k: int| 0 <= k < upto - 1 && k < ts.len() && (#[trigger] ts[k]).id == last.id;
                assert(has_id(before, before.len() as int, ts[k].id));
                let a = choose|a: int|
                    0 <= a < before.len() && (#[trigger] before[a]).id == ts[k].id;
                assert(now[a].id == last.id);
            } else {
                assert(now[now.len() - 1].id == last.id);
            }
        }
    }
}

/// The transitions `met` without those whose id a transition before them
/// has.
fn keep_first_of_each_id(met: Vec<VasTransition>) -> (r: Vec<VasTransition>)
    ensures
        transition_specs(r@) == used_once(transition_specs(met@)),
{
    let ghost all = transition_specs(met@);
    let mut out: Vec<VasTransition> = Vec::new();
    let mut k: usize = 0;
    proof {
        assert(transition_specs(out@) =~= first_of_each_id(all, 0));
    }
    while k < met.len()
        invariant
            k <= met.len(),
            all == transition_specs(met@),
            transition_specs(out@) == first_of_each_id(all, k as nat),
        decreases met.len() - k,
    {
        let id = met[k].transition_id;
        assert(all[k as int] == met[k as int]@);
        let mut seen = false;
        let mut j: usize = 0;
        while j < k && !seen
            invariant
                j <= k < met.len(),
                all == transition_specs(met@),
                id == all[k as int].id,
                seen ==> has_id(all, k as int, id),
                !seen ==> forall|a: int| 0 <= a < j ==> (#[trigger] all[a]).id != id,
            decreases k - j + (if seen { 0int } else { 1int }),
        {
            assert(all[j as int] == met[j as int]@);
            if met[j].transition_id == id {
                seen = true;
            } else {
                j += 1;
            }
        }
        assert(seen == has_id(all, k as int, id));
        if !seen {
            let ghost before = transition_specs(out@);
            out.push(met[k].duplicate());
            proof {
                assert(transition_specs(out@) =~= before.push(all[k as int]));
            }
        }
        k += 1;
    }
    out
}

/// Whether one of `ts` changes or inspects variable `i`.
fn is_used(ts: &Vec<VasTransition>, i: usize) -> (r: bool)
    requires
        forall|k: int|
            0 <= k < ts.len() ==> i < (#[trigger] ts[k])@.update.len() && i < ts[k]@.bounds.len(),
    ensures
        r == touched_by_any(transition_specs(ts@), i as int),
{
    let ghost specs = transition_specs(ts@);
    let mut k: usize = 0;
    while k < ts.len()
        invariant
            k <= ts.len(),
            specs == transition_specs(ts@),
            forall|j: int|
                0 <= j < ts.len() ==> i < (#[trigger] ts[j])@.update.len() && i
                    < ts[j]@.bounds.len(),
            forall|j: int| 0 <= j < k ==> !(#[trigger] specs[j]).touches(i as int),
        decreases ts.len() - k,
    {
        assert(ts[k as int]@ == specs[k as int]);
        if ts[k].update_vector[i] != 0 || ts[k].enabled_bounds[i] != 0 {
            assert(specs[k as int].touches(i as int));
            return true;
        }
        k += 1;
    }
    false
}

/// The components of `v` at the positions `kept`.
fn project_vector(v: &Vec<VasValue>, kept: &Vec<usize>) -> (r: Vec<VasValue>)
    requires
        forall|j: int| 0 <= j < kept.len() ==> (#[trigger] kept[j]) < v.len(),
    ensures
        r@ == project(v@, kept@.map_values(|i: usize| i as int)),
{
    let ghost want = project(v@, kept@.map_values(|i: usize| i as int));
    let mut r: Vec<VasValue> = Vec::new();
    let mut j: usize = 0;
    while j < kept.len()
        invariant
            j <= kept.len(),
            want == project(v@, kept@.map_values(|i: usize| i as int)),
            forall|a: int| 0 <= a < kept.len() ==> (#[trigger] kept[a]) < v.len(),
            r.len() == j,
            forall|a: int| 0 <= a < j ==> r[a] == want[a],
        decreases kept.len() - j,
    {
        r.push(v[kept[j]]);
        j += 1;
    }
    proof {
        assert(r@ =~= want);
    }
    r
}

/// Trims `model` to what the dependency graph `dg` uses.
///
/// The result keeps the variables that a transition of the graph touches,
/// in model order, with their names and their values in the first initial
/// state. Its transitions are those of the graph, each once, in the order
/// in which a walk first meets them, projected onto the kept variables. The target keeps its value and moves to the
/// new place of its variable.
pub fn trim_model(model: &AbstractVas, dg: DependencyGraph) -> (r: AbstractVas)
    requires
        model@.well_formed(),
        dg.root@.fits_dimension(model@.dimension()),
    ensures
        r@ == trimmed(model@, used_once(dg.root@.transitions_in())),
        ids_distinct(r@.transitions),
{
    let n = model.variable_names.len();
    let used = keep_first_of_each_id(dg.get_transitions());
    let ghost specs = transition_specs(used@);
    proof {
        let met = dg.root@.transitions_in();
        dg.root@.lemma_transitions_have_dimension(n as nat);
        lemma_first_of_each_id(met, met.len());
        assert forall|k: int| 0 <= k < specs.len() implies (#[trigger] specs[k]).has_dimension(
            n as nat,
        ) by {
            let j = choose|j: int| 0 <= j < met.len() && met[j] == specs[k];
            assert(met[j].has_dimension(n as nat));
        }
    }
    let mut kept: Vec<usize> = Vec::new();
    let mut variable_names: Vec<String> = Vec::new();
    let mut initial_state: Vec<VasValue> = Vec::new();
    let mut target_index: usize = 0;
    let mut i: usize = 0;
    assert(model@.initial[0] == model.initial_states[0]@);
    while i < n
        invariant
            i <= n,
            n == model.variable_names.len(),
            model.initial_states.len() >= 1,
            model.initial_states[0]@.len() == n,
            specs == transition_specs(used@),
            forall|k: int| 0 <= k < specs.len() ==> (#[trigger] specs[k]).has_dimension(n as nat),
            kept@.map_values(|a: usize| a as int) == kept_indices(specs, i as nat),
            forall|j: int| 0 <= j < kept.len() ==> (#[trigger] kept[j]) < i,
            name_specs(variable_names@) == project(
                name_specs(model.variable_names@),
                kept_indices(specs, i as nat),
            ),
            initial_state@ == project(model.initial_states[0]@, kept_indices(specs, i as nat)),
            target_index == position_in(
                kept_indices(specs, i as nat),
                model.target.variable_index as int,
            ) || (model.target.variable_index >= i && target_index == 0),
            model.target.variable_index < i ==> target_index == position_in(
                kept_indices(specs, i as nat),
                model.target.variable_index as int,
            ),
        decreases n - i,
    {
        proof {
            lemma_kept_indices(specs, i as nat);
            lemma_kept_indices(specs, (i + 1) as nat);
            assert forall|k: int| 0 <= k < used.len() implies i < (#[trigger] used[k])@.update.len()
                && i < used[k]@.bounds.len() by {
                assert(specs[k].has_dimension(n as nat));
            }
        }
        let ghost before = kept_indices(specs, i as nat);
        if is_used(&used, i) {
            if i == model.target.variable_index {
                target_index = kept.len();
            }
            kept.push(i);
            let ghost names_before = name_specs(variable_names@);
            variable_names.push(model.variable_names[i].clone());
            initial_state.push(model.initial_states[0].vector[i]);
            proof {
                let now = kept_indices(specs, (i + 1) as nat);
                assert(now == before.push(i as int));
                assert(kept@.map_values(|a: usize| a as int) =~= now);
                assert(name_specs(variable_names@) =~= names_before.push(
                    model.variable_names[i as int]@,
                ));
                assert(name_specs(model.variable_names@)[i as int] == model.variable_names[i as int]@);
                assert(name_specs(variable_names@) =~= project(
                    name_specs(model.variable_names@),
                    now,
                ));
                assert(initial_state@ =~= project(model.initial_states[0]@, now));
                let tv = model.target.variable_index as int;
                if tv == i {
                    assert(now[before.len() as int] == tv);
                    assert(now.contains(tv));
                    assert(now.index_of(tv) == before.len());
                } else if tv < i {
                    if before.contains(tv) {
                        let j = before.index_of(tv);
                        assert(now[j] == tv);
                        assert(now.contains(tv));
                        assert(now.index_of(tv) == j);
                    } else {
                        assert(!now.contains(tv));
                    }
                }
            }
        } else {
            proof {
                let tv = model.target.variable_index as int;
                if tv == i {
                    assert(!before.contains(tv));
                }
            }
        }
        i += 1;
    }
    let ghost kept_spec = kept_indices(specs, n as nat);
    proof {
        lemma_kept_indices(specs, n as nat);
        let tv = model.target.variable_index as int;
        if tv >= n {
            assert(!kept_spec.contains(tv));
        }
    }
    let mut transitions: Vec<VasTransition> = Vec::new();
    let mut k: usize = 0;
    while k < used.len()
        invariant
            k <= used.len(),
            specs == transition_specs(used@),
            kept_spec == kept@.map_values(|a: usize| a as int),
            forall|j: int| 0 <= j < kept.len() ==> (#[trigger] kept[j]) < n,
            forall|j: int| 0 <= j < specs.len() ==> (#[trigger] specs[j]).has_dimension(n as nat),
            transitions.len() == k,
            forall|j: int|
                0 <= j < k ==> (#[trigger] transitions[j])@ == project_transition(
                    specs[j],
                    kept_spec,
                ),
        decreases used.len() - k,
    {
        let t = &used[k];
        proof {
            assert(t@ == specs[k as int]);
            assert(specs[k as int].has_dimension(n as nat));
        }
        let projected = VasTransition {
            transition_id: t.transition_id,
            transition_name: t.transition_name.clone(),
            update_vector: project_vector(&t.update_vector, &kept),
            enabled_bounds: project_vector(&t.enabled_bounds, &kept),
            rate_const_bits: t.rate_const_bits,
        };
        transitions.push(projected);
        k += 1;
    }
    let mut initial_states: Vec<VasState> = Vec::new();
    initial_states.push(VasState::new(initial_state));
    let r = AbstractVas {
        variable_names,
        initial_states,
        transitions,
        m_type: model.m_type,
        target: VasProperty {
            variable_index: target_index,
            target_value: model.target.target_value,
        },
    };
    proof {
        let want = trimmed(model@, used_once(dg.root@.transitions_in()));
        assert(r@.names =~= want.names);
        assert(r@.initial =~= want.initial);
        assert(r@.transitions =~= want.transitions);
        assert(r@.target == want.target);
    }
    r
}

} // verus!
