//! The dependency graph: a tree of transitions with multiplicities, grown
//! backwards from the target.

use crate::model::vas_model::{
    same_text, transition_specs, AbstractVas, ModelSpec, TransitionSpec, VasProperty, VasState,
    VasTransition,
};
use crate::model::vector::{copy_of, filled, fits, VasValue};
use vstd::prelude::*;

verus! {

/// Nodes deeper than this are not expanded; the construction fails instead.
pub const DEBUG_DEPTH_LIMIT: usize = 5000;

/// Name of the transition that the root of every dependency graph carries.
pub open spec fn artificial_name() -> Seq<char> {
    "ARTIFICIAL"@
}

/// Why a dependency graph could not be built.
#[derive(Clone, Copy, Debug, PartialEq, Eq, Structural)]
pub enum DependencyGraphError {
    /// The initial state already satisfies the target.
    InitiallySatisfied,
    /// A node lies deeper than `DEBUG_DEPTH_LIMIT`.
    DepthLimitExceeded,
    /// The target names a variable that the initial state does not have.
    CannotEvaluateProperty,
    /// A count left the range of `VasValue`.
    Overflow,
}

/// What a node of the graph is, apart from how it is stored.
pub struct NodeSpec {
    pub transition: TransitionSpec,
    pub children: Seq<NodeSpec>,
    pub parents: Seq<Seq<char>>,
    pub executions: VasValue,
    pub enabled: bool,
    pub init: Seq<VasValue>,
    pub targets: Seq<VasProperty>,
    pub decrement: bool,
}

/// A node of the dependency graph.
///
/// `executions` says how often `transition` has to fire. `parents` holds
/// the names of the transitions on the path from the root to this node, the
/// node's own excluded. `node_init` is the state that the ancestors leave
/// behind, and `node_target` lists what this node was created to change:
/// a positive amount is to be produced, a negative one consumed.
#[derive(Debug)]
pub struct GraphNode {
    pub transition: VasTransition,
    pub children: Vec<GraphNode>,
    pub parents: Vec<String>,
    pub executions: VasValue,
    pub enabled: bool,
    pub node_init: Vec<VasValue>,
    pub node_target: Vec<VasProperty>,
    pub decrement: bool,
}

/// The views of the first `upto` nodes of `nodes`.
pub open spec fn views_of(nodes: Seq<GraphNode>, upto: nat) -> Seq<NodeSpec>
    decreases nodes, upto,
{
    if upto == 0 || upto > nodes.len() {
        Seq::empty()
    } else {
        views_of(nodes, (upto - 1) as nat).push(nodes[upto - 1]@)
    }
}

impl View for GraphNode {
    type V = NodeSpec;

    open spec fn view(&self) -> NodeSpec
        decreases self,
    {
        NodeSpec {
            transition: self.transition@,
            children: views_of(self.children@, self.children.len() as nat),
            parents: Seq::new(self.parents.len() as nat, |i: int| self.parents[i]@),
            executions: self.executions,
            enabled: self.enabled,
            init: self.node_init@,
            targets: self.node_target@,
            decrement: self.decrement,
        }
    }
}

/// The views of the nodes in `s`.
pub open spec fn node_specs(s: Seq<GraphNode>) -> Seq<NodeSpec> {
    Seq::new(s.len(), |i: int| s[i]@)
}

impl NodeSpec {
    /// Whether the node and everything below it is laid out for a model
    /// of `n` variables: vectors have `n` entries and targets name one of
    /// the `n` variables.
    pub open spec fn fits_dimension(self, n: nat) -> bool
        decreases self,
    {
        &&& self.transition.has_dimension(n)
        &&& self.init.len() == n
        &&& forall|j: int|
            0 <= j < self.targets.len() ==> (#[trigger] self.targets[j]).variable_index < n
        &&& forall|j: int|
            0 <= j < self.children.len() ==> (#[trigger] self.children[j]).fits_dimension(n)
    }

    /// Component `i` of the state that the node's children start from:
    /// the node's own start, plus its update times its multiplicity, less
    /// what the transition must find in place where that is not exactly
    /// what it consumes.
    pub open spec fn child_init_at(self, i: int) -> int {
        let t = self.transition;
        self.init[i] + t.update[i] * self.executions - (if t.update[i] + t.bounds[i] != 0 {
            t.bounds[i] as int
        } else {
            0
        })
    }

    /// Whether the children's start can be computed within `VasValue`.
    pub open spec fn child_init_fits(self) -> bool {
        let t = self.transition;
        forall|i: int|
            0 <= i < self.init.len() ==> {
                &&& fits(#[trigger] t.update[i] * self.executions)
                &&& fits(self.init[i] + t.update[i] * self.executions)
                &&& fits(t.update[i] + t.bounds[i])
                &&& fits(self.child_init_at(i))
            }
    }

    /// The state that the node's children start from.
    pub open spec fn child_init(self) -> Seq<VasValue> {
        Seq::new(self.init.len(), |i: int| self.child_init_at(i) as VasValue)
    }

    /// What is left of target `j` once the node's transition has fired
    /// `executions` times.
    pub open spec fn residual_at(self, j: int) -> int {
        let g = self.targets[j];
        g.target_value - self.transition.update[g.variable_index as int] * self.executions
    }

    /// Whether every residual can be computed within `VasValue`.
    pub open spec fn residuals_fit(self) -> bool {
        forall|j: int|
            0 <= j < self.targets.len() ==> {
                &&& fits(
                    self.transition.update[(#[trigger] self.targets[j]).variable_index as int]
                        * self.executions,
                )
                &&& fits(self.residual_at(j))
            }
    }

    /// The non-zero residuals of the first `upto` targets, in order.
    pub open spec fn residuals(self, upto: nat) -> Seq<VasProperty>
        decreases upto,
    {
        if upto == 0 {
            Seq::empty()
        } else {
            let before = self.residuals((upto - 1) as nat);
            let r = self.residual_at(upto - 1);
            if r != 0 {
                before.push(
                    VasProperty {
                        variable_index: self.targets[upto - 1].variable_index,
                        target_value: r as VasValue,
                    },
                )
            } else {
                before
            }
        }
    }

    /// The amounts that must be produced before the children can start,
    /// one for each of the first `upto` variables where `start` is negative.
    pub open spec fn shortfalls(start: Seq<VasValue>, upto: nat) -> Seq<VasProperty>
        decreases upto,
    {
        if upto == 0 {
            Seq::empty()
        } else {
            let before = Self::shortfalls(start, (upto - 1) as nat);
            if start[upto - 1] < 0 {
                before.push(
                    VasProperty {
                        variable_index: (upto - 1) as usize,
                        target_value: (-start[upto - 1]) as VasValue,
                    },
                )
            } else {
                before
            }
        }
    }

    /// Whether every shortfall of `start` is representable.
    pub open spec fn shortfalls_fit(start: Seq<VasValue>) -> bool {
        forall|i: int| 0 <= i < start.len() ==> fits(-(#[trigger] start[i]))
    }

    /// All targets that the node leaves to its children: the non-zero
    /// residuals first, then the shortfalls of the children's start.
    pub open spec fn open_targets(self) -> Seq<VasProperty> {
        self.residuals(self.targets.len()) + Self::shortfalls(
            self.child_init(),
            self.child_init().len(),
        )
    }

    /// Whether the node's own arithmetic stays within `VasValue`.
    pub open spec fn arithmetic_fits(self) -> bool {
        &&& self.child_init_fits()
        &&& self.residuals_fit()
        &&& Self::shortfalls_fit(self.child_init())
    }
}

/// Whether `t` moves the target variable in the direction that `target`
/// asks for.
pub open spec fn moves_towards(target: VasProperty, t: TransitionSpec) -> bool {
    let u = t.update[target.variable_index as int];
    (target.target_value > 0 && u > 0) || (target.target_value < 0 && u < 0)
}

/// How often `t` fires to cover `target`: the quotient of the two amounts,
/// rounded towards zero.
pub open spec fn multiplicity(target: VasProperty, t: TransitionSpec) -> int {
    let u = t.update[target.variable_index as int];
    if target.target_value > 0 {
        target.target_value / u
    } else {
        (-target.target_value) / (-u)
    }
}

/// Whether `t` becomes a child for `target` below a node whose ancestors
/// are `parents`: it is not an ancestor, moves the right way, and fires at
/// least once.
pub open spec fn admitted(parents: Seq<Seq<char>>, target: VasProperty, t: TransitionSpec) -> bool {
    &&& !parents.contains(t.name)
    &&& moves_towards(target, t)
    &&& multiplicity(target, t) > 0
}

/// Whether the multiplicity of every transition that would move towards
/// `target` is representable.
pub open spec fn multiplicities_fit(
    parents: Seq<Seq<char>>,
    target: VasProperty,
    transitions: Seq<TransitionSpec>,
) -> bool {
    forall|k: int|
        0 <= k < transitions.len() && !parents.contains((#[trigger] transitions[k]).name)
            && moves_towards(target, transitions[k]) ==> fits(
            multiplicity(target, transitions[k]),
        )
}

impl NodeSpec {
    /// The child that `t` gives for `target`.
    pub open spec fn child_for(self, target: VasProperty, t: TransitionSpec) -> NodeSpec {
        NodeSpec {
            transition: t,
            children: Seq::empty(),
            parents: self.parents.push(self.transition.name),
            executions: multiplicity(target, t) as VasValue,
            enabled: false,
            init: self.child_init(),
            targets: seq![target],
            decrement: false,
        }
    }

    /// The children for `target` among the first `upto` transitions, in
    /// model order.
    pub open spec fn candidates_for(
        self,
        target: VasProperty,
        transitions: Seq<TransitionSpec>,
        upto: nat,
    ) -> Seq<NodeSpec>
        decreases upto,
    {
        if upto == 0 {
            Seq::empty()
        } else {
            let before = self.candidates_for(target, transitions, (upto - 1) as nat);
            let t = transitions[upto - 1];
            if admitted(self.parents, target, t) {
                before.push(self.child_for(target, t))
            } else {
                before
            }
        }
    }

    /// The children for the first `upto` of `targets`, target by target.
    pub open spec fn candidates(
        self,
        targets: Seq<VasProperty>,
        transitions: Seq<TransitionSpec>,
        upto: nat,
    ) -> Seq<NodeSpec>
        decreases upto,
    {
        if upto == 0 {
            Seq::empty()
        } else {
            self.candidates(targets, transitions, (upto - 1) as nat) + self.candidates_for(
                targets[upto - 1],
                transitions,
                transitions.len(),
            )
        }
    }

    /// Whether every multiplicity that the open targets ask for is
    /// representable.
    pub open spec fn candidates_fit(self, transitions: Seq<TransitionSpec>) -> bool {
        forall|j: int|
            0 <= j < self.open_targets().len() ==> multiplicities_fit(
                self.parents,
                #[trigger] self.open_targets()[j],
                transitions,
            )
    }
}

/// Position of the first node in `s` whose transition is called `name`, or
/// the length of `s` when there is none.
pub open spec fn first_named(s: Seq<NodeSpec>, name: Seq<char>) -> int
    decreases s.len(),
{
    if s.len() == 0 {
        0
    } else if s[0].transition.name == name {
        0
    } else {
        1 + first_named(s.drop_first(), name)
    }
}

/// `s` with one node per transition name: of the nodes that share a name,
/// the one with the largest multiplicity stays, the earliest of them on a
/// tie, at the place where the name first occurred.
pub open spec fn merged(s: Seq<NodeSpec>) -> Seq<NodeSpec>
    decreases s.len(),
{
    if s.len() == 0 {
        Seq::empty()
    } else {
        let before = merged(s.drop_last());
        let c = s.last();
        let p = first_named(before, c.transition.name);
        if p < before.len() {
            if c.executions > before[p].executions {
                before.update(p, c)
            } else {
                before
            }
        } else {
            before.push(c)
        }
    }
}

/// Twice the number of levels from `depth` down to the deepest level that
/// is still expanded.
pub open spec fn levels_left(depth: nat) -> nat {
    if depth <= DEBUG_DEPTH_LIMIT {
        (2 * (DEBUG_DEPTH_LIMIT + 1 - depth)) as nat
    } else {
        0
    }
}

/// Whether every node of `s` is enabled.
pub open spec fn all_enabled(s: Seq<NodeSpec>) -> bool {
    forall|j: int| 0 <= j < s.len() ==> (#[trigger] s[j]).enabled
}

impl NodeSpec {
    /// The node after its expansion at `depth`.
    ///
    /// A node deeper than the limit fails the construction. An enabled node
    /// stays as it is. Otherwise the node gets a child for every open
    /// target and every transition admitted for it, merged by name and
    /// expanded in turn one level down; the first failure among them fails
    /// the node. A node that ends up without children is enabled exactly
    /// when it has no open target; one with children, when all of them
    /// are.
    pub open spec fn expanded(self, model: ModelSpec, depth: nat) -> Result<
        NodeSpec,
        DependencyGraphError,
    >
        decreases levels_left(depth), 0nat,
    {
        if depth > DEBUG_DEPTH_LIMIT {
            Err(DependencyGraphError::DepthLimitExceeded)
        } else if self.enabled {
            Ok(self)
        } else if !self.arithmetic_fits() || !self.candidates_fit(model.transitions) {
            Err(DependencyGraphError::Overflow)
        } else {
            let found = self.candidates(
                self.open_targets(),
                model.transitions,
                self.open_targets().len(),
            );
            let kids = merged(self.children + found);
            match Self::expanded_all(kids, model, depth + 1, kids.len()) {
                Err(e) => Err(e),
                Ok(grown) => Ok(
                    NodeSpec {
                        children: grown,
                        enabled: if grown.len() == 0 {
                            self.open_targets().len() == 0
                        } else {
                            all_enabled(grown)
                        },
                        ..self
                    },
                ),
            }
        }
    }

    /// The first `upto` nodes of `kids`, each expanded at `depth`; the
    /// failure of the earliest node that fails, if any does.
    pub open spec fn expanded_all(kids: Seq<NodeSpec>, model: ModelSpec, depth: nat, upto: nat) -> Result<
        Seq<NodeSpec>,
        DependencyGraphError,
    >
        decreases levels_left(depth) + 1, upto,
    {
        if upto == 0 {
            Ok(Seq::empty())
        } else {
            match Self::expanded_all(kids, model, depth, (upto - 1) as nat) {
                Err(e) => Err(e),
                Ok(before) => match kids[upto as int - 1].expanded(model, depth) {
                    Err(e) => Err(e),
                    Ok(k) => Ok(before.push(k)),
                },
            }
        }
    }
}

/// Whether `name` is one of `names`.
fn name_among(names: &Vec<String>, name: &String) -> (r: bool)
    ensures
        r == Seq::new(names.len() as nat, |i: int| names[i]@).contains(name@),
{
    let ghost views = Seq::new(names.len() as nat, |i: int| names[i]@);
    let mut i: usize = 0;
    while i < names.len()
        invariant
            i <= names.len(),
            views == Seq::new(names.len() as nat, |i: int| names[i]@),
            forall|j: int| 0 <= j < i ==> views[j] != name@,
        decreases names.len() - i,
    {
        if names[i] == *name {
            assert(views[i as int] == name@);
            return true;
        }
        i += 1;
    }
    false
}

/// A list with the same names as `names`.
fn copy_names(names: &Vec<String>) -> (r: Vec<String>)
    ensures
        r.len() == names.len(),
        forall|i: int| 0 <= i < names.len() ==> r[i]@ == names[i]@,
{
    let mut r: Vec<String> = Vec::new();
    let mut i: usize = 0;
    while i < names.len()
        invariant
            i <= names.len(),
            r.len() == i,
            forall|j: int| 0 <= j < i ==> r[j]@ == names[j]@,
        decreases names.len() - i,
    {
        r.push(names[i].clone());
        i += 1;
    }
    r
}

impl GraphNode {
    /// The state that the node's children start from, or `None` when it
    /// cannot be computed within `VasValue`.
    fn compute_child_init(&self) -> (r: Option<Vec<VasValue>>)
        requires
            self@.transition.has_dimension(self@.init.len()),
        ensures
            r is Some <==> self@.child_init_fits(),
            r matches Some(v) ==> v@ == self@.child_init(),
    {
        let n = self.node_init.len();
        let mut out: Vec<VasValue> = Vec::new();
        let mut i: usize = 0;
        while i < n
            invariant
                i <= n,
                n == self.node_init.len(),
                self@.transition.has_dimension(n as nat),
                out.len() == i,
                forall|j: int|
                    0 <= j < i ==> {
                        &&& fits(#[trigger] self@.transition.update[j] * self.executions)
                        &&& fits(self@.init[j] + self@.transition.update[j] * self.executions)
                        &&& fits(self@.transition.update[j] + self@.transition.bounds[j])
                        &&& fits(self@.child_init_at(j))
                        &&& out[j] == self@.child_init_at(j)
                    },
            decreases n - i,
        {
            let u = self.transition.update_vector[i];
            let b = self.transition.enabled_bounds[i];
            let moved = match u.checked_mul(self.executions) {
                Some(p) => match self.node_init[i].checked_add(p) {
                    Some(s) => s,
                    None => {
                        assert(!fits(self@.init[i as int] + self@.transition.update[i as int] * self.executions));
                        return None;
                    },
                },
                None => {
                    assert(!fits(self@.transition.update[i as int] * self.executions));
                    return None;
                },
            };
            let adjusted = match u.checked_add(b) {
                Some(d) => if d != 0 {
                    match moved.checked_sub(b) {
                        Some(a) => a,
                        None => {
                            assert(!fits(self@.child_init_at(i as int)));
                            return None;
                        },
                    }
                } else {
                    moved
                },
                None => {
                    assert(!fits(self@.transition.update[i as int] + self@.transition.bounds[i as int]));
                    return None;
                },
            };
            out.push(adjusted);
            i += 1;
        }
        proof {
            assert(out@ =~= self@.child_init());
        }
        Some(out)
    }

    /// The non-zero residuals of the node's targets, or `None` when one
    /// cannot be computed within `VasValue`.
    fn compute_residuals(&self) -> (r: Option<Vec<VasProperty>>)
        requires
            forall|j: int|
                0 <= j < self@.targets.len() ==> (#[trigger] self@.targets[j]).variable_index
                    < self@.transition.update.len(),
        ensures
            r is Some <==> self@.residuals_fit(),
            r matches Some(v) ==> v@ == self@.residuals(self@.targets.len()),
    {
        let mut out: Vec<VasProperty> = Vec::new();
        let mut j: usize = 0;
        while j < self.node_target.len()
            invariant
                j <= self.node_target.len(),
                forall|k: int|
                    0 <= k < self@.targets.len() ==> (#[trigger] self@.targets[k]).variable_index
                        < self@.transition.update.len(),
                forall|k: int|
                    0 <= k < j ==> {
                        &&& fits(
                            self@.transition.update[(#[trigger] self@.targets[k]).variable_index as int]
                                * self.executions,
                        )
                        &&& fits(self@.residual_at(k))
                    },
                out@ == self@.residuals(j as nat),
            decreases self.node_target.len() - j,
        {
            let g = self.node_target[j];
            assert(g == self@.targets[j as int]);
            let u = self.transition.update_vector[g.variable_index];
            let left = match u.checked_mul(self.executions) {
                Some(p) => match g.target_value.checked_sub(p) {
                    Some(d) => d,
                    None => {
                        assert(!fits(self@.residual_at(j as int)));
                        return None;
                    },
                },
                None => {
                    assert(!fits(self@.transition.update[self@.targets[j as int].variable_index as int] * self.executions));
                    return None;
                },
            };
            if left != 0 {
                out.push(VasProperty { variable_index: g.variable_index, target_value: left });
            }
            j += 1;
        }
        Some(out)
    }

    /// The shortfalls of `start`, or `None` when one is not representable.
    fn compute_shortfalls(start: &Vec<VasValue>) -> (r: Option<Vec<VasProperty>>)
        ensures
            r is Some <==> NodeSpec::shortfalls_fit(start@),
            r matches Some(v) ==> v@ == NodeSpec::shortfalls(start@, start@.len()),
    {
        let mut out: Vec<VasProperty> = Vec::new();
        let mut i: usize = 0;
        while i < start.len()
            invariant
                i <= start.len(),
                forall|k: int| 0 <= k < i ==> fits(-(#[trigger] start[k])),
                out@ == NodeSpec::shortfalls(start@, i as nat),
            decreases start.len() - i,
        {
            if start[i] < 0 {
                match 0i128.checked_sub(start[i]) {
                    Some(needed) => {
                        out.push(VasProperty { variable_index: i, target_value: needed });
                    },
                    None => {
                        assert(!fits(-start[i as int]));
                        return None;
                    },
                }
            }
            i += 1;
        }
        Some(out)
    }
}

impl GraphNode {
    /// Appends to `out` the children for `target`, in model order.
    /// Returns false, with `out` in no particular state, when a
    /// multiplicity is not representable.
    fn push_candidates_for(
        &self,
        out: &mut Vec<GraphNode>,
        child_init: &Vec<VasValue>,
        target: VasProperty,
        vas: &AbstractVas,
    ) -> (ok: bool)
        requires
            child_init@ == self@.child_init(),
            forall|k: int|
                0 <= k < vas@.transitions.len() ==> target.variable_index < (
                #[trigger] vas@.transitions[k]).update.len(),
        ensures
            ok == multiplicities_fit(self@.parents, target, vas@.transitions),
            ok ==> node_specs(final(out)@) == node_specs(old(out)@) + self@.candidates_for(
                target,
                vas@.transitions,
                vas@.transitions.len(),
            ),
    {
        let ghost before = node_specs(out@);
        let ghost ts = vas@.transitions;
        let mut k: usize = 0;
        proof {
            assert(node_specs(out@) =~= before + self@.candidates_for(target, ts, 0));
        }
        while k < vas.transitions.len()
            invariant
                k <= vas.transitions.len(),
                ts == vas@.transitions,
                child_init@ == self@.child_init(),
                forall|i: int|
                    0 <= i < ts.len() ==> target.variable_index < (#[trigger] ts[i]).update.len(),
                forall|i: int|
                    0 <= i < k && !self@.parents.contains((#[trigger] ts[i]).name)
                        && moves_towards(target, ts[i]) ==> fits(multiplicity(target, ts[i])),
                node_specs(out@) == before + self@.candidates_for(target, ts, k as nat),
            decreases vas.transitions.len() - k,
        {
            let trans = &vas.transitions[k];
            assert(trans@ == ts[k as int]);
            let ghost grown = self@.candidates_for(target, ts, (k + 1) as nat);
            if !name_among(&self.parents, &trans.transition_name) {
                assert(self@.parents =~= Seq::new(
                    self.parents.len() as nat,
                    |i: int| self.parents[i]@,
                ));
                let u = trans.update_vector[target.variable_index];
                if (target.target_value > 0 && u > 0) || (target.target_value < 0 && u < 0) {
                    match target.target_value.checked_div(u) {
                        None => {
                            assert(!fits(multiplicity(target, ts[k as int])));
                            return false;
                        },
                        Some(executions) => {
                            assert(executions == multiplicity(target, ts[k as int]));
                            if executions > 0 {
                                let mut parents = copy_names(&self.parents);
                                parents.push(self.transition.transition_name.clone());
                                let mut node_target: Vec<VasProperty> = Vec::new();
                                node_target.push(target);
                                let child = GraphNode {
                                    transition: trans.duplicate(),
                                    children: Vec::new(),
                                    parents,
                                    executions,
                                    enabled: false,
                                    node_init: copy_of(child_init),
                                    node_target,
                                    decrement: false,
                                };
                                proof {
                                    let want = self@.child_for(target, ts[k as int]);
                                    assert(child@.children =~= want.children);
                                    assert(child@.parents =~= want.parents);
                                    assert(child@.targets =~= want.targets);
                                    assert(child@ == want);
                                }
                                let ghost prev = node_specs(out@);
                                out.push(child);
                                proof {
                                    assert(node_specs(out@) =~= prev.push(child@));
                                    assert(before + self@.candidates_for(target, ts, k as nat).push(
                                        child@,
                                    ) =~= (before + self@.candidates_for(
                                        target,
                                        ts,
                                        k as nat,
                                    )).push(child@));
                                }
                            }
                        },
                    }
                }
            } else {
                assert(self@.parents =~= Seq::new(
                    self.parents.len() as nat,
                    |i: int| self.parents[i]@,
                ));
            }
            k += 1;
        }
        true
    }

    /// The children for all of `targets`, target by target, or `None` when
    /// a multiplicity is not representable.
    fn find_candidates(
        &self,
        child_init: &Vec<VasValue>,
        targets: &Vec<VasProperty>,
        vas: &AbstractVas,
    ) -> (r: Option<Vec<GraphNode>>)
        requires
            child_init@ == self@.child_init(),
            targets@ == self@.open_targets(),
            forall|j: int, k: int|
                0 <= j < targets.len() && 0 <= k < vas@.transitions.len() ==> (
                #[trigger] targets[j]).variable_index < (
                #[trigger] vas@.transitions[k]).update.len(),
        ensures
            r is Some <==> self@.candidates_fit(vas@.transitions),
            r matches Some(v) ==> node_specs(v@) == self@.candidates(
                targets@,
                vas@.transitions,
                targets@.len(),
            ),
    {
        let mut out: Vec<GraphNode> = Vec::new();
        let mut j: usize = 0;
        proof {
            assert(node_specs(out@) =~= self@.candidates(targets@, vas@.transitions, 0));
        }
        while j < targets.len()
            invariant
                j <= targets.len(),
                child_init@ == self@.child_init(),
                targets@ == self@.open_targets(),
                forall|a: int, b: int|
                    0 <= a < targets.len() && 0 <= b < vas@.transitions.len() ==> (
                    #[trigger] targets[a]).variable_index < (
                    #[trigger] vas@.transitions[b]).update.len(),
                forall|a: int|
                    0 <= a < j ==> multiplicities_fit(
                        self@.parents,
                        #[trigger] targets[a],
                        vas@.transitions,
                    ),
                node_specs(out@) == self@.candidates(targets@, vas@.transitions, j as nat),
            decreases targets.len() - j,
        {
            let target = targets[j];
            let ok = self.push_candidates_for(&mut out, child_init, target, vas);
            if !ok {
                assert(!multiplicities_fit(
                    self@.parents,
                    self@.open_targets()[j as int],
                    vas@.transitions,
                ));
                return None;
            }
            j += 1;
        }
        Some(out)
    }
}

/// Position of the first node in `nodes` whose transition is called `name`,
/// or the length of `nodes` when there is none.
fn position_named(nodes: &Vec<GraphNode>, name: &String) -> (p: usize)
    ensures
        p == first_named(node_specs(nodes@), name@),
        p <= nodes.len(),
{
    let ghost all = node_specs(nodes@);
    let mut i: usize = 0;
    proof {
        assert(all.skip(0) =~= all);
    }
    while i < nodes.len()
        invariant
            i <= nodes.len(),
            all == node_specs(nodes@),
            first_named(all, name@) == i + first_named(all.skip(i as int), name@),
        decreases nodes.len() - i,
    {
        if nodes[i].transition.transition_name == *name {
            assert(all.skip(i as int)[0].transition.name == name@);
            return i;
        }
        proof {
            assert(all.skip(i as int)[0] == nodes[i as int]@);
            assert(all.skip(i as int).drop_first() =~= all.skip(i + 1));
        }
        i += 1;
    }
    i
}

/// Keeps one node per transition name: of the nodes that share a name, the
/// one with the largest multiplicity, at the place where the name first
/// occurred.
fn merge_children(kids: Vec<GraphNode>) -> (r: Vec<GraphNode>)
    ensures
        node_specs(r@) == merged(node_specs(kids@)),
{
    let ghost all = node_specs(kids@);
    let ghost items = kids@;
    let ghost mut done: int = 0;
    let mut out: Vec<GraphNode> = Vec::new();
    proof {
        assert(all.subrange(0, 0) =~= Seq::<NodeSpec>::empty());
        assert(node_specs(out@) =~= merged(all.subrange(0, 0)));
    }
    for child in it: kids
        invariant
            it.seq() == items,
            all == node_specs(items),
            done == it.index(),
            0 <= done <= all.len(),
            node_specs(out@) == merged(all.subrange(0, done)),
    {
        proof {
            assert(all.subrange(0, done + 1).drop_last() =~= all.subrange(0, done));
            assert(all.subrange(0, done + 1).last() == child@);
        }
        let p = position_named(&out, &child.transition.transition_name);
        let ghost prev = node_specs(out@);
        let ghost c = child@;
        if p < out.len() {
            if child.executions > out[p].executions {
                out.set(p, child);
                proof {
                    assert(node_specs(out@) =~= prev.update(p as int, c));
                }
            }
        } else {
            out.push(child);
            proof {
                assert(node_specs(out@) =~= prev.push(c));
            }
        }
        proof {
            done = done + 1;
        }
    }
    proof {
        assert(all.subrange(0, all.len() as int) =~= all);
    }
    out
}

/// `views_of` lists the views of a prefix.
pub proof fn lemma_views_of(nodes: Seq<GraphNode>, upto: nat)
    requires
        upto <= nodes.len(),
    ensures
        views_of(nodes, upto) == node_specs(nodes.subrange(0, upto as int)),
    decreases upto,
{
    if upto > 0 {
        lemma_views_of(nodes, (upto - 1) as nat);
        assert(node_specs(nodes.subrange(0, upto as int)) =~= node_specs(
            nodes.subrange(0, upto - 1),
        ).push(nodes[upto - 1]@));
    } else {
        assert(node_specs(nodes.subrange(0, 0)) =~= Seq::<NodeSpec>::empty());
    }
}

/// The position that `first_named` gives lies within `s` or just past it.
pub proof fn lemma_first_named_bounds(s: Seq<NodeSpec>, name: Seq<char>)
    ensures
        0 <= first_named(s, name) <= s.len(),
        first_named(s, name) < s.len() ==> s[first_named(s, name)].transition.name == name,
    decreases s.len(),
{
    if s.len() > 0 && s[0].transition.name != name {
        lemma_first_named_bounds(s.drop_first(), name);
    }
}

/// Every node that survives the merge was there before it.
pub proof fn lemma_merged_members(s: Seq<NodeSpec>)
    ensures
        forall|j: int| 0 <= j < merged(s).len() ==> s.contains(#[trigger] merged(s)[j]),
    decreases s.len(),
{
    if s.len() > 0 {
        let before = merged(s.drop_last());
        lemma_merged_members(s.drop_last());
        assert forall|j: int| 0 <= j < merged(s).len() implies s.contains(
            #[trigger] merged(s)[j],
        ) by {
            let m = merged(s)[j];
            let c = s.last();
            let p = first_named(before, c.transition.name);
            lemma_first_named_bounds(before, c.transition.name);
            if m == c {
                assert(s[s.len() - 1] == m);
            } else {
                if p < before.len() && c.executions > before[p].executions {
                    assert(merged(s) == before.update(p, c));
                    assert(j != p);
                } else if p < before.len() {
                    assert(merged(s) == before);
                } else {
                    assert(merged(s) == before.push(c));
                }
                assert(0 <= j < before.len() && before[j] == m);
                assert(s.drop_last().contains(before[j]));
                let i = choose|i: int| 0 <= i < s.drop_last().len() && s.drop_last()[i] == m;
                assert(s[i] == m);
            }
        }
    }
}

/// A failure among the first nodes remains the result however many more
/// nodes are taken in.
pub proof fn lemma_failure_persists(
    kids: Seq<NodeSpec>,
    model: ModelSpec,
    depth: nat,
    upto: nat,
    total: nat,
)
    requires
        upto <= total,
        NodeSpec::expanded_all(kids, model, depth, upto) is Err,
    ensures
        NodeSpec::expanded_all(kids, model, depth, total) == NodeSpec::expanded_all(
            kids,
            model,
            depth,
            upto,
        ),
    decreases total,
{
    if upto < total {
        lemma_failure_persists(kids, model, depth, upto, (total - 1) as nat);
    }
}

impl NodeSpec {
    /// Open targets name variables of the model.
    pub proof fn lemma_open_targets_in_range(self, n: nat)
        requires
            self.init.len() == n,
            forall|j: int|
                0 <= j < self.targets.len() ==> (#[trigger] self.targets[j]).variable_index < n,
            n <= usize::MAX,
        ensures
            forall|j: int|
                0 <= j < self.open_targets().len() ==> (
                #[trigger] self.open_targets()[j]).variable_index < n,
    {
        self.lemma_residuals_in_range(self.targets.len(), n);
        Self::lemma_shortfalls_in_range(self.child_init(), n);
    }

    /// Residuals name the variables that the node's targets name.
    proof fn lemma_residuals_in_range(self, upto: nat, n: nat)
        requires
            upto <= self.targets.len(),
            forall|j: int|
                0 <= j < self.targets.len() ==> (#[trigger] self.targets[j]).variable_index < n,
        ensures
            forall|j: int|
                0 <= j < self.residuals(upto).len() ==> (
                #[trigger] self.residuals(upto)[j]).variable_index < n,
        decreases upto,
    {
        if upto > 0 {
            self.lemma_residuals_in_range((upto - 1) as nat, n);
            assert(self.targets[upto - 1].variable_index < n);
            let before = self.residuals((upto - 1) as nat);
            assert forall|j: int| 0 <= j < self.residuals(upto).len() implies (
            #[trigger] self.residuals(upto)[j]).variable_index < n by {
                if j < before.len() {
                    assert(before[j].variable_index < n);
                }
            }
        }
    }

    /// Shortfalls name variables among the first `upto`.
    proof fn lemma_shortfalls_in_range(start: Seq<VasValue>, upto: nat)
        requires
            upto <= start.len(),
            upto <= usize::MAX,
        ensures
            forall|j: int|
                0 <= j < Self::shortfalls(start, upto).len() ==> (#[trigger] Self::shortfalls(
                    start,
                    upto,
                )[j]).variable_index < upto,
        decreases upto,
    {
        if upto > 0 {
            Self::lemma_shortfalls_in_range(start, (upto - 1) as nat);
            let before = Self::shortfalls(start, (upto - 1) as nat);
            assert forall|j: int| 0 <= j < Self::shortfalls(start, upto).len() implies (
            #[trigger] Self::shortfalls(start, upto)[j]).variable_index < upto by {
                if j < before.len() {
                    assert(before[j].variable_index < upto - 1);
                }
            }
        }
    }

    /// Children found for targets within range are laid out for the model.
    pub proof fn lemma_candidates_fit_dimension(
        self,
        targets: Seq<VasProperty>,
        transitions: Seq<TransitionSpec>,
        upto: nat,
        n: nat,
    )
        requires
            upto <= targets.len(),
            self.init.len() == n,
            forall|j: int| 0 <= j < targets.len() ==> (#[trigger] targets[j]).variable_index < n,
            forall|k: int|
                0 <= k < transitions.len() ==> (#[trigger] transitions[k]).has_dimension(n),
        ensures
            forall|j: int|
                0 <= j < self.candidates(targets, transitions, upto).len() ==> (
                #[trigger] self.candidates(targets, transitions, upto)[j]).fits_dimension(n),
        decreases upto,
    {
        if upto > 0 {
            self.lemma_candidates_fit_dimension(targets, transitions, (upto - 1) as nat, n);
            assert(targets[upto - 1].variable_index < n);
            self.lemma_candidates_for_fit_dimension(
                targets[upto - 1],
                transitions,
                transitions.len(),
                n,
            );
            let before = self.candidates(targets, transitions, (upto - 1) as nat);
            let added = self.candidates_for(targets[upto - 1], transitions, transitions.len());
            assert forall|j: int|
                0 <= j < self.candidates(targets, transitions, upto).len() implies (
            #[trigger] self.candidates(targets, transitions, upto)[j]).fits_dimension(n) by {
                if j < before.len() {
                    assert(before[j].fits_dimension(n));
                } else {
                    assert(added[j - before.len()].fits_dimension(n));
                }
            }
        }
    }

    /// Children found for one target within range are laid out for the
    /// model.
    proof fn lemma_candidates_for_fit_dimension(
        self,
        target: VasProperty,
        transitions: Seq<TransitionSpec>,
        upto: nat,
        n: nat,
    )
        requires
            upto <= transitions.len(),
            self.init.len() == n,
            target.variable_index < n,
            forall|k: int|
                0 <= k < transitions.len() ==> (#[trigger] transitions[k]).has_dimension(n),
        ensures
            forall|j: int|
                0 <= j < self.candidates_for(target, transitions, upto).len() ==> (
                #[trigger] self.candidates_for(target, transitions, upto)[j]).fits_dimension(n),
        decreases upto,
    {
        if upto > 0 {
            self.lemma_candidates_for_fit_dimension(target, transitions, (upto - 1) as nat, n);
            assert(transitions[upto - 1].has_dimension(n));
            let before = self.candidates_for(target, transitions, (upto - 1) as nat);
            let child = self.child_for(target, transitions[upto - 1]);
            assert(child.targets[0] == target);
            assert(child.fits_dimension(n));
            assert forall|j: int|
                0 <= j < self.candidates_for(target, transitions, upto).len() implies (
            #[trigger] self.candidates_for(target, transitions, upto)[j]).fits_dimension(n) by {
                if j < before.len() {
                    assert(before[j].fits_dimension(n));
                }
            }
        }
    }
}

impl GraphNode {
    /// The view of a node lists the views of its children and the names
    /// of its ancestors.
    pub proof fn lemma_view_parts(node: &GraphNode)
        ensures
            node@.children == node_specs(node.children@),
            node@.parents == Seq::new(node.parents.len() as nat, |i: int| node.parents[i]@),
    {
        lemma_views_of(node.children@, node.children@.len());
        assert(node.children@.subrange(0, node.children@.len() as int) =~= node.children@);
    }

    /// Expands the node: finds the children that its open targets ask for
    /// and expands them in turn, one level further down.
    ///
    /// On success the node is what `expanded` says. A node that lies deeper
    /// than the limit is left as it was, and so is a node whose own
    /// arithmetic leaves the range of `VasValue`; where a node below fails,
    /// the node is left without its children.
    pub fn rec_build_graph(&mut self, vas: &AbstractVas, depth: usize) -> (r: Result<
        (),
        DependencyGraphError,
    >)
        requires
            old(self)@.fits_dimension(vas@.dimension()),
            forall|k: int|
                0 <= k < vas@.transitions.len() ==> (#[trigger] vas@.transitions[k]).has_dimension(
                    vas@.dimension(),
                ),
        ensures
            match r {
                Ok(()) => old(self)@.expanded(vas@, depth as nat) == Ok::<
                    NodeSpec,
                    DependencyGraphError,
                >(final(self)@),
                Err(e) => old(self)@.expanded(vas@, depth as nat) == Err::<
                    NodeSpec,
                    DependencyGraphError,
                >(e),
            },
            depth > DEBUG_DEPTH_LIMIT || old(self)@.enabled || !old(self)@.arithmetic_fits()
                || !old(self)@.candidates_fit(vas@.transitions) ==> final(self)@ == old(self)@,
            r is Err && depth <= DEBUG_DEPTH_LIMIT && !old(self)@.enabled && old(
                self,
            )@.arithmetic_fits() && old(self)@.candidates_fit(vas@.transitions) ==> final(self)@
                == (NodeSpec { children: Seq::empty(), ..old(self)@ }),
        decreases DEBUG_DEPTH_LIMIT + 1 - depth,
    {
        let ghost me = self@;
        let ghost n = vas@.dimension();
        proof {
            assert(n == vas.variable_names.len());
            Self::lemma_view_parts(self);
        }
        if depth > DEBUG_DEPTH_LIMIT {
            return Err(DependencyGraphError::DepthLimitExceeded);
        }
        if self.enabled {
            return Ok(());
        }
        let child_init = match self.compute_child_init() {
            Some(v) => v,
            None => {
                return Err(DependencyGraphError::Overflow);
            },
        };
        let mut targets = match self.compute_residuals() {
            Some(v) => v,
            None => {
                return Err(DependencyGraphError::Overflow);
            },
        };
        let mut shortfalls = match Self::compute_shortfalls(&child_init) {
            Some(v) => v,
            None => {
                return Err(DependencyGraphError::Overflow);
            },
        };
        targets.append(&mut shortfalls);
        proof {
            assert(targets@ =~= me.open_targets());
            me.lemma_open_targets_in_range(n);
        }
        let mut found = match self.find_candidates(&child_init, &targets, vas) {
            Some(v) => v,
            None => {
                return Err(DependencyGraphError::Overflow);
            },
        };
        let mut kids: Vec<GraphNode> = Vec::new();
        std::mem::swap(&mut self.children, &mut kids);
        proof {
            Self::lemma_view_parts(self);
            assert(self@.children =~= Seq::<NodeSpec>::empty());
            assert(self@.parents =~= me.parents);
        }
        let ghost joined = node_specs(kids@) + node_specs(found@);
        kids.append(&mut found);
        proof {
            assert(node_specs(kids@) =~= joined);
            me.lemma_candidates_fit_dimension(
                me.open_targets(),
                vas@.transitions,
                me.open_targets().len(),
                n,
            );
            lemma_merged_members(joined);
        }
        let kids = merge_children(kids);
        let ghost items = kids@;
        let ghost wanted = node_specs(items);
        let ghost mut done: int = 0;
        let mut grown: Vec<GraphNode> = Vec::new();
        let mut all_on = true;
        proof {
            assert(wanted == merged(me.children + me.candidates(
                me.open_targets(),
                vas@.transitions,
                me.open_targets().len(),
            )));
            assert(node_specs(grown@) =~= Seq::<NodeSpec>::empty());
        }
        for child in it: kids
            invariant
                it.seq() == items,
                wanted == node_specs(items),
                done == it.index(),
                0 <= done <= wanted.len(),
                depth <= DEBUG_DEPTH_LIMIT,
                me == old(self)@,
                !me.enabled,
                me.arithmetic_fits(),
                me.candidates_fit(vas@.transitions),
                self@ == (NodeSpec { children: Seq::empty(), ..me }),
                NodeSpec::expanded_all(wanted, vas@, (depth + 1) as nat, wanted.len()) matches Err(
                    e,
                ) ==> me.expanded(vas@, depth as nat) == Err::<NodeSpec, DependencyGraphError>(e),
                n == vas@.dimension(),
                forall|k: int|
                    0 <= k < vas@.transitions.len() ==> (
                    #[trigger] vas@.transitions[k]).has_dimension(n),
                forall|j: int| 0 <= j < wanted.len() ==> (#[trigger] wanted[j]).fits_dimension(n),
                NodeSpec::expanded_all(wanted, vas@, (depth + 1) as nat, done as nat) == Ok::<
                    Seq<NodeSpec>,
                    DependencyGraphError,
                >(node_specs(grown@)),
                all_on == all_enabled(node_specs(grown@)),
        {
            let mut child = child;
            assert(child@ == wanted[done]);
            let ghost prev = node_specs(grown@);
            match child.rec_build_graph(vas, depth + 1) {
                Err(e) => {
                    proof {
                        assert(NodeSpec::expanded_all(
                            wanted,
                            vas@,
                            (depth + 1) as nat,
                            (done + 1) as nat,
                        ) == Err::<Seq<NodeSpec>, DependencyGraphError>(e));
                        lemma_failure_persists(
                            wanted,
                            vas@,
                            (depth + 1) as nat,
                            (done + 1) as nat,
                            wanted.len(),
                        );
                    }
                    return Err(e);
                },
                Ok(()) => {},
            }
            if !child.enabled {
                all_on = false;
            }
            let ghost c = child@;
            grown.push(child);
            proof {
                let now = node_specs(grown@);
                assert(now =~= prev.push(c));
                if all_enabled(prev) && c.enabled {
                    assert forall|j: int| 0 <= j < now.len() implies (#[trigger] now[j]).enabled by {
                        if j < prev.len() {
                            assert(prev[j].enabled);
                        }
                    }
                } else if !c.enabled {
                    assert(!now[prev.len() as int].enabled);
                } else {
                    let j = choose|j: int| 0 <= j < prev.len() && !(#[trigger] prev[j]).enabled;
                    assert(!now[j].enabled);
                }
                done = done + 1;
            }
        }
        self.enabled = if grown.len() == 0 {
            targets.len() == 0
        } else {
            all_on
        };
        self.children = grown;
        proof {
            let want = me.expanded(vas@, depth as nat)->Ok_0;
            Self::lemma_view_parts(self);
            assert(self@.children =~= want.children);
            assert(self@.parents =~= want.parents);
            assert(self@ == want);
        }
        Ok(())
    }
}

impl NodeSpec {
    /// Whether the node and every node below it fires its transition at
    /// least once.
    pub open spec fn all_positive(self) -> bool
        decreases self,
    {
        &&& self.executions > 0
        &&& forall|j: int|
            0 <= j < self.children.len() ==> (#[trigger] self.children[j]).all_positive()
    }

    /// Every child found for a target fires at least once.
    pub proof fn lemma_candidates_positive(
        self,
        targets: Seq<VasProperty>,
        transitions: Seq<TransitionSpec>,
        upto: nat,
    )
        requires
            upto <= targets.len(),
            forall|j: int|
                0 <= j < targets.len() ==> multiplicities_fit(
                    self.parents,
                    #[trigger] targets[j],
                    transitions,
                ),
        ensures
            forall|j: int|
                0 <= j < self.candidates(targets, transitions, upto).len() ==> (
                #[trigger] self.candidates(targets, transitions, upto)[j]).all_positive(),
        decreases upto,
    {
        if upto > 0 {
            self.lemma_candidates_positive(targets, transitions, (upto - 1) as nat);
            assert(multiplicities_fit(self.parents, targets[upto - 1], transitions));
            self.lemma_candidates_for_positive(targets[upto - 1], transitions, transitions.len());
            let before = self.candidates(targets, transitions, (upto - 1) as nat);
            let added = self.candidates_for(targets[upto - 1], transitions, transitions.len());
            assert forall|j: int|
                0 <= j < self.candidates(targets, transitions, upto).len() implies (
            #[trigger] self.candidates(targets, transitions, upto)[j]).all_positive() by {
                if j < before.len() {
                    assert(before[j].all_positive());
                } else {
                    assert(added[j - before.len()].all_positive());
                }
            }
        }
    }

    /// Every child found for one target fires at least once.
    proof fn lemma_candidates_for_positive(
        self,
        target: VasProperty,
        transitions: Seq<TransitionSpec>,
        upto: nat,
    )
        requires
            upto <= transitions.len(),
            multiplicities_fit(self.parents, target, transitions),
        ensures
            forall|j: int|
                0 <= j < self.candidates_for(target, transitions, upto).len() ==> (
                #[trigger] self.candidates_for(target, transitions, upto)[j]).all_positive(),
        decreases upto,
    {
        if upto > 0 {
            self.lemma_candidates_for_positive(target, transitions, (upto - 1) as nat);
            let before = self.candidates_for(target, transitions, (upto - 1) as nat);
            let t = transitions[upto - 1];
            if admitted(self.parents, target, t) {
                assert(fits(multiplicity(target, t)));
                assert(self.child_for(target, t).all_positive());
            }
            assert forall|j: int|
                0 <= j < self.candidates_for(target, transitions, upto).len() implies (
            #[trigger] self.candidates_for(target, transitions, upto)[j]).all_positive() by {
                if j < before.len() {
                    assert(before[j].all_positive());
                }
            }
        }
    }

    /// Expansion keeps multiplicities positive: if every node fires at
    /// least once before, so does every node of the expanded tree.
    pub proof fn lemma_expanded_positive(self, model: ModelSpec, depth: nat)
        requires
            self.all_positive(),
        ensures
            self.expanded(model, depth) matches Ok(g) ==> g.all_positive(),
        decreases levels_left(depth), 0nat,
    {
        if depth <= DEBUG_DEPTH_LIMIT && !self.enabled && self.arithmetic_fits()
            && self.candidates_fit(model.transitions) {
            let found = self.candidates(
                self.open_targets(),
                model.transitions,
                self.open_targets().len(),
            );
            let kids = merged(self.children + found);
            self.lemma_candidates_positive(
                self.open_targets(),
                model.transitions,
                self.open_targets().len(),
            );
            lemma_merged_members(self.children + found);
            assert forall|j: int| 0 <= j < kids.len() implies (#[trigger] kids[j]).all_positive() by {
                let i = choose|i: int|
                    0 <= i < (self.children + found).len() && (self.children + found)[i] == kids[j];
                if i < self.children.len() {
                    assert(self.children[i].all_positive());
                } else {
                    assert(found[i - self.children.len()].all_positive());
                }
            }
            Self::lemma_expanded_all_positive(kids, model, depth + 1, kids.len());
        }
    }

    /// Expanding a list of nodes keeps multiplicities positive.
    pub proof fn lemma_expanded_all_positive(
        kids: Seq<NodeSpec>,
        model: ModelSpec,
        depth: nat,
        upto: nat,
    )
        requires
            upto <= kids.len(),
            forall|j: int| 0 <= j < kids.len() ==> (#[trigger] kids[j]).all_positive(),
        ensures
            Self::expanded_all(kids, model, depth, upto) matches Ok(grown) ==> grown.len() == upto
                && forall|j: int| 0 <= j < grown.len() ==> (#[trigger] grown[j]).all_positive(),
        decreases levels_left(depth) + 1, upto,
    {
        if upto > 0 {
            Self::lemma_expanded_all_positive(kids, model, depth, (upto - 1) as nat);
            kids[upto - 1].lemma_expanded_positive(model, depth);
            if let Ok(grown) = Self::expanded_all(kids, model, depth, upto) {
                let before = Self::expanded_all(kids, model, depth, (upto - 1) as nat)->Ok_0;
                assert forall|j: int| 0 <= j < grown.len() implies (
                #[trigger] grown[j]).all_positive() by {
                    if j < before.len() {
                        assert(before[j].all_positive());
                    }
                }
            }
        }
    }

    /// Expansion keeps the layout: a tree laid out for the model's
    /// variables stays so.
    pub proof fn lemma_expanded_fits_dimension(self, model: ModelSpec, depth: nat)
        requires
            self.fits_dimension(model.dimension()),
            model.dimension() <= usize::MAX,
            forall|k: int|
                0 <= k < model.transitions.len() ==> (#[trigger] model.transitions[k]).has_dimension(
                    model.dimension(),
                ),
        ensures
            self.expanded(model, depth) matches Ok(g) ==> g.fits_dimension(model.dimension()),
        decreases levels_left(depth), 0nat,
    {
        let n = model.dimension();
        if depth <= DEBUG_DEPTH_LIMIT && !self.enabled && self.arithmetic_fits()
            && self.candidates_fit(model.transitions) {
            let found = self.candidates(
                self.open_targets(),
                model.transitions,
                self.open_targets().len(),
            );
            let kids = merged(self.children + found);
            self.lemma_open_targets_in_range(n);
            self.lemma_candidates_fit_dimension(
                self.open_targets(),
                model.transitions,
                self.open_targets().len(),
                n,
            );
            lemma_merged_members(self.children + found);
            assert forall|j: int| 0 <= j < kids.len() implies (#[trigger] kids[j]).fits_dimension(
                n,
            ) by {
                let i = choose|i: int|
                    0 <= i < (self.children + found).len() && (self.children + found)[i] == kids[j];
                if i < self.children.len() {
                    assert(self.children[i].fits_dimension(n));
                } else {
                    assert(found[i - self.children.len()].fits_dimension(n));
                }
            }
            Self::lemma_expanded_all_fits_dimension(kids, model, depth + 1, kids.len());
        }
    }

    /// Expanding a list of nodes keeps the layout.
    pub proof fn lemma_expanded_all_fits_dimension(
        kids: Seq<NodeSpec>,
        model: ModelSpec,
        depth: nat,
        upto: nat,
    )
        requires
            upto <= kids.len(),
            model.dimension() <= usize::MAX,
            forall|j: int|
                0 <= j < kids.len() ==> (#[trigger] kids[j]).fits_dimension(model.dimension()),
            forall|k: int|
                0 <= k < model.transitions.len() ==> (#[trigger] model.transitions[k]).has_dimension(
                    model.dimension(),
                ),
        ensures
            Self::expanded_all(kids, model, depth, upto) matches Ok(grown) ==> grown.len() == upto
                && forall|j: int|
                0 <= j < grown.len() ==> (#[trigger] grown[j]).fits_dimension(model.dimension()),
        decreases levels_left(depth) + 1, upto,
    {
        if upto > 0 {
            Self::lemma_expanded_all_fits_dimension(kids, model, depth, (upto - 1) as nat);
            kids[upto - 1].lemma_expanded_fits_dimension(model, depth);
            if let Ok(grown) = Self::expanded_all(kids, model, depth, upto) {
                let before = Self::expanded_all(kids, model, depth, (upto - 1) as nat)->Ok_0;
                assert forall|j: int| 0 <= j < grown.len() implies (
                #[trigger] grown[j]).fits_dimension(model.dimension()) by {
                    if j < before.len() {
                        assert(before[j].fits_dimension(model.dimension()));
                    }
                }
            }
        }
    }

    /// A node that is not enabled, has no children yet and no open target
    /// is enabled by its expansion and stays without children.
    pub proof fn lemma_no_open_target_enables(self, model: ModelSpec, depth: nat)
        requires
            depth <= DEBUG_DEPTH_LIMIT,
            !self.enabled,
            self.children.len() == 0,
            self.arithmetic_fits(),
            self.open_targets().len() == 0,
        ensures
            self.expanded(model, depth) == Ok::<NodeSpec, DependencyGraphError>(
                NodeSpec { enabled: true, children: Seq::empty(), ..self },
            ),
    {
        let found = self.candidates(self.open_targets(), model.transitions, 0);
        assert(found =~= Seq::<NodeSpec>::empty());
        assert(self.children + found =~= Seq::<NodeSpec>::empty());
        assert(merged(Seq::<NodeSpec>::empty()) =~= Seq::<NodeSpec>::empty());
    }
}

impl NodeSpec {
    /// The transitions of the tree in the order in which a walk meets
    /// them, parents before children, leaving out every node that carries
    /// the artificial name.
    pub open spec fn transitions_in(self) -> Seq<TransitionSpec>
        decreases self,
    {
        (if self.transition.name != artificial_name() {
            seq![self.transition]
        } else {
            Seq::empty()
        }) + Self::transitions_below(self.children, self.children.len())
    }

    /// The transitions of the first `upto` trees of `kids`, tree after
    /// tree.
    pub open spec fn transitions_below(kids: Seq<NodeSpec>, upto: nat) -> Seq<TransitionSpec>
        decreases kids, upto,
    {
        if upto == 0 || upto > kids.len() {
            Seq::empty()
        } else {
            Self::transitions_below(kids, (upto - 1) as nat) + kids[upto - 1].transitions_in()
        }
    }
}

impl NodeSpec {
    /// The transitions of a tree laid out for `n` variables have `n`
    /// entries in both vectors.
    pub proof fn lemma_transitions_have_dimension(self, n: nat)
        requires
            self.fits_dimension(n),
        ensures
            forall|k: int|
                0 <= k < self.transitions_in().len() ==> (
                #[trigger] self.transitions_in()[k]).has_dimension(n),
        decreases self, 0nat,
    {
        Self::lemma_transitions_below_have_dimension(self.children, self.children.len(), n);
        let below = Self::transitions_below(self.children, self.children.len());
        assert forall|k: int| 0 <= k < self.transitions_in().len() implies (
        #[trigger] self.transitions_in()[k]).has_dimension(n) by {
            if self.transition.name != artificial_name() {
                if k > 0 {
                    assert(below[k - 1].has_dimension(n));
                }
            } else {
                assert(below[k].has_dimension(n));
            }
        }
    }

    /// The transitions collected below nodes that are laid out for the
    /// model have one entry per variable.
    proof fn lemma_transitions_below_have_dimension(kids: Seq<NodeSpec>, upto: nat, n: nat)
        requires
            upto <= kids.len(),
            forall|j: int| 0 <= j < kids.len() ==> (#[trigger] kids[j]).fits_dimension(n),
        ensures
            forall|k: int|
                0 <= k < Self::transitions_below(kids, upto).len() ==> (
                #[trigger] Self::transitions_below(kids, upto)[k]).has_dimension(n),
        decreases kids, upto,
    {
        if upto > 0 {
            Self::lemma_transitions_below_have_dimension(kids, (upto - 1) as nat, n);
            kids[upto - 1].lemma_transitions_have_dimension(n);
            let before = Self::transitions_below(kids, (upto - 1) as nat);
            let last = kids[upto - 1].transitions_in();
            assert forall|k: int|
                0 <= k < Self::transitions_below(kids, upto).len() implies (
            #[trigger] Self::transitions_below(kids, upto)[k]).has_dimension(n) by {
                if k < before.len() {
                    assert(before[k].has_dimension(n));
                } else {
                    assert(last[k - before.len()].has_dimension(n));
                }
            }
        }
    }
}

/// The value of the target variable in the first initial state.
pub open spec fn initial_target_value(model: ModelSpec) -> VasValue {
    model.initial[0][model.target.variable_index as int]
}

/// How far the target value lies above the initial value of its variable.
pub open spec fn target_difference(model: ModelSpec) -> int {
    model.target.target_value - initial_target_value(model)
}

/// The amount that the root asks its children for: the difference, and
/// for a target below the initial value the difference less that initial
/// value.
pub open spec fn root_target_value(model: ModelSpec) -> int {
    if target_difference(model) < 0 {
        target_difference(model) - initial_target_value(model)
    } else {
        target_difference(model)
    }
}

/// Whether the amounts on the root are representable.
pub open spec fn root_amounts_fit(model: ModelSpec) -> bool {
    &&& fits(target_difference(model))
    &&& fits(-target_difference(model))
    &&& fits(root_target_value(model))
}

/// The root that the construction starts from: an artificial transition
/// that changes nothing, as often as the target is away from the initial
/// value, asking for the target variable alone.
pub open spec fn root_of(model: ModelSpec) -> NodeSpec {
    let d = target_difference(model);
    NodeSpec {
        transition: TransitionSpec {
            id: usize::MAX,
            name: artificial_name(),
            update: Seq::new(model.dimension(), |i: int| 0i128),
            bounds: Seq::new(model.dimension(), |i: int| 0i128),
            rate_bits: 0,
        },
        children: Seq::empty(),
        parents: Seq::empty(),
        executions: (if d < 0 {
            -d
        } else {
            d
        }) as VasValue,
        enabled: false,
        init: model.initial[0],
        targets: seq![
            VasProperty {
                variable_index: model.target.variable_index,
                target_value: root_target_value(model) as VasValue,
            },
        ],
        decrement: d < 0,
    }
}

/// The dependency graph of `model`, or the reason why it has none.
pub open spec fn dependency_graph_of(model: ModelSpec) -> Result<NodeSpec, DependencyGraphError> {
    if model.target.variable_index >= model.dimension() {
        Err(DependencyGraphError::CannotEvaluateProperty)
    } else if target_difference(model) == 0 {
        Err(DependencyGraphError::InitiallySatisfied)
    } else if !root_amounts_fit(model) {
        Err(DependencyGraphError::Overflow)
    } else {
        root_of(model).expanded(model, 1)
    }
}

/// In every dependency graph each node is laid out for the model and fires
/// its transition at least once.
pub proof fn lemma_graph_sound(model: ModelSpec)
    requires
        model.well_formed(),
        model.dimension() <= usize::MAX,
    ensures
        dependency_graph_of(model) matches Ok(g) ==> g.all_positive() && g.fits_dimension(
            model.dimension(),
        ),
{
    if dependency_graph_of(model) is Ok {
        let root = root_of(model);
        assert(root.targets[0].variable_index < model.dimension());
        assert(root.fits_dimension(model.dimension()));
        assert(root.all_positive());
        root.lemma_expanded_positive(model, 1);
        root.lemma_expanded_fits_dimension(model, 1);
    }
}

/// A dependency graph, held by its root.
#[derive(Debug)]
pub struct DependencyGraph {
    pub root: GraphNode,
}

/// Whether `state` satisfies `prop`, or `CannotEvaluateProperty` when
/// `prop` names a variable that `state` does not have.
pub fn property_sat(prop: &VasProperty, state: &VasState) -> (r: Result<bool, DependencyGraphError>)
    ensures
        match r {
            Ok(sat) => prop.variable_index < state@.len() && sat == prop.holds_at(state@),
            Err(e) => prop.variable_index >= state@.len()
                && e == DependencyGraphError::CannotEvaluateProperty,
        },
{
    if prop.variable_index >= state.vector.len() {
        return Err(DependencyGraphError::CannotEvaluateProperty);
    }
    Ok(state.vector[prop.variable_index] == prop.target_value)
}

/// Builds the dependency graph of `vas`.
///
/// Fails when the target names no variable of the model, when the first
/// initial state already satisfies the target, when a node would lie deeper
/// than `DEBUG_DEPTH_LIMIT`, and when a count leaves the range of
/// `VasValue`.
pub fn make_dependency_graph(vas: &AbstractVas) -> (r: Result<DependencyGraph, DependencyGraphError>)
    requires
        vas@.well_formed(),
    ensures
        match r {
            Ok(g) => dependency_graph_of(vas@) == Ok::<NodeSpec, DependencyGraphError>(g.root@),
            Err(e) => dependency_graph_of(vas@) == Err::<NodeSpec, DependencyGraphError>(e),
        },
        r matches Ok(g) ==> g.root@.all_positive() && g.root@.fits_dimension(vas@.dimension()),
{
    let n = vas.variable_names.len();
    let v = vas.target.variable_index;
    assert(vas@.initial[0] == vas.initial_states[0]@);
    assert(vas@.initial[0].len() == n);
    match property_sat(&vas.target, &vas.initial_states[0]) {
        Err(e) => {
            return Err(e);
        },
        Ok(true) => {
            return Err(DependencyGraphError::InitiallySatisfied);
        },
        Ok(false) => {},
    }
    let initial_value = vas.initial_states[0].vector[v];
    let target_value = vas.target.target_value;
    let difference = match target_value.checked_sub(initial_value) {
        Some(d) => d,
        None => {
            return Err(DependencyGraphError::Overflow);
        },
    };
    let decrement = difference < 0;
    let executions = match 0i128.checked_sub(difference) {
        Some(m) => if decrement {
            m
        } else {
            difference
        },
        None => {
            return Err(DependencyGraphError::Overflow);
        },
    };
    let asked = if decrement {
        match difference.checked_sub(initial_value) {
            Some(a) => a,
            None => {
                return Err(DependencyGraphError::Overflow);
            },
        }
    } else {
        difference
    };
    let mut node_target: Vec<VasProperty> = Vec::new();
    node_target.push(VasProperty { variable_index: v, target_value: asked });
    let mut root = GraphNode {
        transition: VasTransition {
            transition_id: usize::MAX,
            transition_name: "ARTIFICIAL".to_owned(),
            update_vector: filled(n, 0),
            enabled_bounds: filled(n, 0),
            rate_const_bits: 0,
        },
        children: Vec::new(),
        parents: Vec::new(),
        executions,
        enabled: false,
        node_init: copy_of(&vas.initial_states[0].vector),
        node_target,
        decrement,
    };
    proof {
        let want = root_of(vas@);
        GraphNode::lemma_view_parts(&root);
        assert(root@.children =~= want.children);
        assert(root@.parents =~= want.parents);
        assert(root@.targets =~= want.targets);
        assert(root@.transition.update =~= want.transition.update);
        assert(root@.transition.bounds =~= want.transition.bounds);
        assert(root@ == want);
        assert(root@.targets[0].variable_index < n);
        assert(root@.fits_dimension(n as nat));
        assert forall|k: int| 0 <= k < vas@.transitions.len() implies (
        #[trigger] vas@.transitions[k]).has_dimension(vas@.dimension()) by {}
        lemma_graph_sound(vas@);
    }
    match root.rec_build_graph(vas, 1) {
        Ok(()) => Ok(DependencyGraph { root }),
        Err(e) => Err(e),
    }
}

impl GraphNode {
    /// Appends the transitions of the tree to `out`, parents before
    /// children, leaving out the nodes that carry the artificial name.
    fn collect_transitions(&self, out: &mut Vec<VasTransition>)
        ensures
            transition_specs(final(out)@) == transition_specs(old(out)@) + self@.transitions_in(),
        decreases self,
    {
        let ghost before = transition_specs(out@);
        proof {
            Self::lemma_view_parts(self);
        }
        if !same_text(self.transition.transition_name.as_str(), "ARTIFICIAL") {
            out.push(self.transition.duplicate());
        }
        let ghost own = if self@.transition.name != artificial_name() {
            seq![self@.transition]
        } else {
            Seq::empty()
        };
        proof {
            assert(transition_specs(out@) =~= before + own + NodeSpec::transitions_below(
                self@.children,
                0,
            ));
        }
        let mut i: usize = 0;
        while i < self.children.len()
            invariant
                i <= self.children.len(),
                self@.children == node_specs(self.children@),
                transition_specs(out@) == before + own + NodeSpec::transitions_below(
                    self@.children,
                    i as nat,
                ),
            decreases self.children.len() - i,
        {
            let ghost prev = transition_specs(out@);
            self.children[i].collect_transitions(out);
            proof {
                let kid = self@.children[i as int].transitions_in();
                assert(self@.children[i as int] == self.children[i as int]@);
                assert(before + own + NodeSpec::transitions_below(self@.children, i as nat) + kid
                    =~= before + own + (NodeSpec::transitions_below(self@.children, i as nat)
                    + kid));
            }
            i += 1;
        }
        proof {
            assert(before + own + NodeSpec::transitions_below(
                self@.children,
                self@.children.len(),
            ) =~= before + self@.transitions_in());
        }
    }
}

impl GraphNode {
    /// A tree with the same nodes.
    pub fn duplicate(&self) -> (r: Self)
        ensures
            r@ == self@,
        decreases self,
    {
        let mut children: Vec<GraphNode> = Vec::new();
        let mut i: usize = 0;
        while i < self.children.len()
            invariant
                i <= self.children.len(),
                children.len() == i,
                forall|j: int| 0 <= j < i ==> children[j]@ == self.children[j]@,
            decreases self.children.len() - i,
        {
            children.push(self.children[i].duplicate());
            i += 1;
        }
        let mut node_target: Vec<VasProperty> = Vec::new();
        let mut k: usize = 0;
        while k < self.node_target.len()
            invariant
                k <= self.node_target.len(),
                node_target@ == self.node_target@.subrange(0, k as int),
            decreases self.node_target.len() - k,
        {
            node_target.push(self.node_target[k]);
            proof {
                assert(node_target@ =~= self.node_target@.subrange(0, k + 1));
            }
            k += 1;
        }
        let r = GraphNode {
            transition: self.transition.duplicate(),
            children,
            parents: copy_names(&self.parents),
            executions: self.executions,
            enabled: self.enabled,
            node_init: copy_of(&self.node_init),
            node_target,
            decrement: self.decrement,
        };
        proof {
            Self::lemma_view_parts(self);
            Self::lemma_view_parts(&r);
            assert(node_specs(r.children@) =~= node_specs(self.children@));
            assert(r@.parents =~= self@.parents);
            assert(self.node_target@.subrange(0, self.node_target.len() as int)
                =~= self.node_target@);
        }
        r
    }
}

impl DependencyGraph {
    /// A graph with the same nodes.
    pub fn duplicate(&self) -> (r: Self)
        ensures
            r.root@ == self.root@,
    {
        DependencyGraph { root: self.root.duplicate() }
    }

    /// The transitions that the graph uses, in the order in which a walk
    /// from the root meets them. The artificial root is left out; a
    /// transition that occurs at several nodes occurs as often here.
    pub fn get_transitions(&self) -> (r: Vec<VasTransition>)
        ensures
            transition_specs(r@) == self.root@.transitions_in(),
    {
        let mut out: Vec<VasTransition> = Vec::new();
        self.root.collect_transitions(&mut out);
        proof {
            assert(transition_specs(Seq::<VasTransition>::empty()) =~= Seq::<
                TransitionSpec,
            >::empty());
            assert(Seq::<TransitionSpec>::empty() + self.root@.transitions_in()
                =~= self.root@.transitions_in());
        }
        out
    }
}

} // verus!
