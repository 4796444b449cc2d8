//! The explicit state space: a table of states, a table of edges, a trie
//! from state vectors to state ids, and the edges of each state.

use crate::model::vas_model::{
    name_specs, step_fits, stepped, AbstractVas, ModelType, TransitionSpec, VasState,
};
use crate::model::vas_trie::VasTrieNode;
use crate::model::vector::{copy_of, filled, same_vector, VasValue};
use vstd::prelude::*;

verus! {

/// Id of the absorbing state that stands for everything left unexplored.
pub const SINK_ID: usize = 0;

/// Id of the initial state.
pub const INITIAL_ID: usize = 1;

/// What an edge to the sink carries in place of a transition id.
pub const NO_TRANSITION: usize = usize::MAX;

/// An edge of the explicit state space. `transition_id` names the
/// transition of the model that the edge fires; an edge to the sink
/// carries `NO_TRANSITION`.
#[derive(Clone, Copy, Debug, PartialEq, Eq, Structural)]
pub struct PrismVasTransition {
    pub transition_id: usize,
    pub from_state: usize,
    pub to_state: usize,
}

/// A state of the explicit state space.
#[derive(Clone, Debug, PartialEq, Eq)]
pub struct PrismVasState {
    pub state_id: usize,
    pub vector: Vec<VasValue>,
    pub label: Option<String>,
}

/// The explicit state space.
///
/// `transition_map` lists for each state id its edges as pairs of the
/// destination and the edge's place in `transitions`.
pub struct PrismVasModel {
    pub variable_names: Vec<String>,
    pub states: Vec<PrismVasState>,
    pub transitions: Vec<PrismVasTransition>,
    pub m_type: ModelType,
    pub state_trie: VasTrieNode,
    pub transition_map: Vec<Vec<(usize, usize)>>,
}

impl Default for PrismVasModel {
    /// An empty state space without variables, in continuous time.
    fn default() -> (r: Self)
        ensures
            r.variable_names.len() == 0,
            r.states.len() == 0,
            r.transitions.len() == 0,
            r.transition_map.len() == 0,
            r.m_type == ModelType::ContinuousTime,
            r.state_trie.is_empty(),
    {
        PrismVasModel {
            variable_names: Vec::new(),
            states: Vec::new(),
            transitions: Vec::new(),
            m_type: ModelType::ContinuousTime,
            state_trie: VasTrieNode::new(),
            transition_map: Vec::new(),
        }
    }
}

/// The vector of the sink in a model of `n` variables.
pub open spec fn sink_vector(n: nat) -> Seq<VasValue> {
    Seq::new(n, |i: int| -1i128)
}

impl PrismVasModel {
    /// The number of variables.
    pub open spec fn dimension(&self) -> nat {
        self.variable_names.len() as nat
    }

    /// The vectors of the states, by state id.
    pub open spec fn vectors(&self) -> Seq<Seq<VasValue>> {
        Seq::new(self.states.len() as nat, |i: int| self.states[i].vector@)
    }

    /// The labels of the states, by state id.
    pub open spec fn labels(&self) -> Seq<Option<Seq<char>>> {
        Seq::new(
            self.states.len() as nat,
            |i: int|
                match self.states[i].label {
                    Some(text) => Some(text@),
                    None => None,
                },
        )
    }

    /// The edges, in the order in which they were added.
    pub open spec fn edges(&self) -> Seq<PrismVasTransition> {
        self.transitions@
    }

    /// Whether there is an edge from `from` to `to`.
    pub open spec fn has_edge(&self, from: usize, to: usize) -> bool {
        exists|e: int|
            0 <= e < self.edges().len() && (#[trigger] self.edges()[e]).from_state == from
                && self.edges()[e].to_state == to
    }

    /// Whether a state other than the sink has the vector `v`.
    pub open spec fn has_vector(&self, v: Seq<VasValue>) -> bool {
        exists|id: int| 1 <= id < self.states.len() && #[trigger] self.vectors()[id] == v
    }

    /// The id of the state other than the sink that has the vector `v`.
    pub open spec fn id_of(&self, v: Seq<VasValue>) -> usize {
        (choose|id: int| 1 <= id < self.states.len() && #[trigger] self.vectors()[id] == v) as usize
    }

    /// The tables agree with each other: there are a sink and an initial
    /// state, every state sits at the place of its id and has one value
    /// per variable, the trie leads from the vector of every state but the
    /// sink to its id and nowhere else, and every edge joins two states.
    pub open spec fn tables_agree(&self) -> bool {
        &&& self.states.len() >= 2
        &&& self.transition_map.len() == self.states.len()
        &&& forall|i: int|
            0 <= i < self.states.len() ==> (#[trigger] self.states[i]).state_id == i
                && self.states[i].vector.len() == self.dimension()
        &&& self.vectors()[0] == sink_vector(self.dimension())
        &&& forall|id: int|
            1 <= id < self.states.len() ==> self.state_trie.lookup(#[trigger] self.vectors()[id])
                == Some(id as usize)
        &&& forall|key: Seq<VasValue>|
            key.len() == self.dimension() && (#[trigger] self.state_trie.lookup(key)) is Some
                ==> 1 <= self.state_trie.lookup(key)->Some_0 < self.states.len()
                && self.vectors()[self.state_trie.lookup(key)->Some_0 as int] == key
        &&& forall|e: int|
            0 <= e < self.edges().len() ==> 1 <= (#[trigger] self.edges()[e]).from_state
                < self.states.len() && self.edges()[e].to_state < self.states.len()
    }

    /// Whether the entry `entry` in the list of state `s` is an edge that
    /// leaves `s` for the destination that the entry names.
    pub open spec fn entry_sound(&self, s: int, entry: (usize, usize)) -> bool {
        &&& entry.1 < self.edges().len()
        &&& self.edges()[entry.1 as int].from_state == s
        &&& self.edges()[entry.1 as int].to_state == entry.0
    }

    /// Whether edge `e` is in the list of the state that it leaves.
    pub open spec fn listed(&self, e: int) -> bool {
        exists|j: int|
            0 <= j < self.transition_map[self.edges()[e].from_state as int].len()
                && #[trigger] self.transition_map[self.edges()[e].from_state as int][j] == (
                self.edges()[e].to_state,
                e as usize,
            )
    }

    /// The edges of each state are exactly the edges that leave it.
    pub open spec fn edges_listed(&self) -> bool {
        &&& forall|s: int, j: int|
            0 <= s < self.transition_map.len() && 0 <= j < self.transition_map[s].len()
                ==> self.entry_sound(s, #[trigger] self.transition_map[s][j])
        &&& forall|e: int| 0 <= e < self.edges().len() ==> #[trigger] self.listed(e)
    }

    /// No two edges join the same states in the same direction, and every
    /// state but the sink has an edge to the sink.
    pub open spec fn edges_proper(&self) -> bool {
        &&& forall|a: int, b: int|
            0 <= a < b < self.edges().len() ==> !((#[trigger] self.edges()[a]).from_state == (
            #[trigger] self.edges()[b]).from_state && self.edges()[a].to_state
                == self.edges()[b].to_state)
        &&& forall|s: int| 1 <= s < self.states.len() ==> #[trigger] self.has_edge(s as usize, 0)
    }

    /// The invariant of a state space under construction.
    pub open spec fn well_formed(&self) -> bool {
        &&& self.tables_agree()
        &&& self.edges_listed()
        &&& self.edges_proper()
    }

    /// In a well-formed state space two states other than the sink that
    /// have the same vector are the same state.
    pub proof fn lemma_vectors_distinct(&self, a: int, b: int)
        requires
            self.well_formed(),
            1 <= a < self.states.len(),
            1 <= b < self.states.len(),
            self.vectors()[a] == self.vectors()[b],
        ensures
            a == b,
    {
        assert(self.state_trie.lookup(self.vectors()[a]) == Some(a as usize));
        assert(self.state_trie.lookup(self.vectors()[b]) == Some(b as usize));
    }

    /// An empty state space without variables.
    pub fn new() -> (r: Self)
        ensures
            r.variable_names.len() == 0,
            r.states.len() == 0,
            r.transitions.len() == 0,
            r.transition_map.len() == 0,
            r.m_type == ModelType::ContinuousTime,
            r.state_trie.is_empty(),
    {
        Self::default()
    }

    /// Whether the state space has neither states nor edges.
    pub fn is_empty(&self) -> (r: bool)
        ensures
            r == (self.states.len() == 0 && self.transitions.len() == 0),
    {
        self.states.len() == 0 && self.transitions.len() == 0
    }

    /// Whether a state in the table, the sink included, has the vector `v`.
    pub open spec fn lists(&self, v: Seq<VasValue>) -> bool {
        exists|i: int| 0 <= i < self.states.len() && #[trigger] self.vectors()[i] == v
    }

    /// Whether `id` is the id of the first state in the table that has the
    /// vector `v`.
    pub open spec fn first_listed(&self, v: Seq<VasValue>, id: usize) -> bool {
        exists|i: int|
            {
                &&& 0 <= i < self.states.len()
                &&& #[trigger] self.vectors()[i] == v
                &&& self.states[i].state_id == id
                &&& forall|j: int| 0 <= j < i ==> #[trigger] self.vectors()[j] != v
            }
    }

    /// The id of the first state in the table with the vector of `state`,
    /// the sink included, if there is one.
    pub fn state_to_index(&self, state: &VasState) -> (r: Option<usize>)
        ensures
            r is Some <==> self.lists(state@),
            r matches Some(id) ==> self.first_listed(state@, id),
    {
        let mut i: usize = 0;
        while i < self.states.len()
            invariant
                i <= self.states.len(),
                forall|j: int| 0 <= j < i ==> #[trigger] self.vectors()[j] != state@,
            decreases self.states.len() - i,
        {
            if same_vector(&self.states[i].vector, &state.vector) {
                assert(self.vectors()[i as int] == state@);
                return Some(self.states[i].state_id);
            }
            assert(self.vectors()[i as int] != state@);
            i += 1;
        }
        None
    }

    /// Whether a state in the table, the sink included, has the vector of
    /// `state`.
    pub fn has_state(&self, state: &VasState) -> (r: bool)
        ensures
            r == self.lists(state@),
    {
        self.state_to_index(state).is_some()
    }

    /// The id of the first state in the table with the vector of `state`.
    /// When there is none, a state with that vector and without a label
    /// is appended to the table, as it is: the trie and the edges stay as
    /// they are.
    pub fn find_or_add_index(&mut self, state: &VasState) -> (r: usize)
        ensures
            final(self).variable_names == old(self).variable_names,
            final(self).transitions == old(self).transitions,
            final(self).m_type == old(self).m_type,
            final(self).state_trie == old(self).state_trie,
            final(self).transition_map == old(self).transition_map,
            old(self).lists(state@) ==> final(self).states == old(self).states && old(
                self,
            ).first_listed(state@, r),
            !old(self).lists(state@) ==> {
                &&& r == old(self).states.len()
                &&& final(self).states@.len() == old(self).states@.len() + 1
                &&& final(self).states@.drop_last() == old(self).states@
                &&& final(self).states@.last().state_id == r
                &&& final(self).states@.last().vector@ == state@
                &&& final(self).states@.last().label is None
            },
    {
        match self.state_to_index(state) {
            Some(id) => id,
            None => {
                let id = self.states.len();
                self.states.push(
                    PrismVasState { state_id: id, vector: copy_of(&state.vector), label: None },
                );
                proof {
                    assert(self.states@.drop_last() =~= old(self).states@);
                }
                id
            },
        }
    }

    /// An empty state space with the variables and the type of
    /// `abstract_model`.
    pub fn from_abstract_model(abstract_model: &AbstractVas) -> (r: Self)
        ensures
            name_specs(r.variable_names@) == abstract_model@.names,
            r.m_type == abstract_model@.m_type,
            r.states.len() == 0,
            r.transitions.len() == 0,
            r.transition_map.len() == 0,
            r.state_trie.is_empty(),
    {
        let mut names: Vec<String> = Vec::new();
        let mut i: usize = 0;
        while i < abstract_model.variable_names.len()
            invariant
                i <= abstract_model.variable_names.len(),
                names.len() == i,
                forall|j: int| 0 <= j < i ==> names[j]@ == abstract_model.variable_names[j]@,
            decreases abstract_model.variable_names.len() - i,
        {
            names.push(abstract_model.variable_names[i].clone());
            i += 1;
        }
        proof {
            assert(name_specs(names@) =~= abstract_model@.names);
        }
        PrismVasModel {
            variable_names: names,
            states: Vec::new(),
            transitions: Vec::new(),
            m_type: abstract_model.m_type,
            state_trie: VasTrieNode::new(),
            transition_map: Vec::new(),
        }
    }

    /// Sets up the sink and the initial state, with the initial state's
    /// edge to the sink.
    pub fn initialize(&mut self, initial: &Vec<VasValue>)
        requires
            old(self).states.len() == 0,
            old(self).transitions.len() == 0,
            old(self).transition_map.len() == 0,
            old(self).state_trie.is_empty(),
            initial.len() == old(self).dimension(),
        ensures
            final(self).well_formed(),
            final(self).variable_names == old(self).variable_names,
            final(self).m_type == old(self).m_type,
            final(self).vectors() == seq![sink_vector(old(self).dimension()), initial@],
            final(self).labels() == seq![Some("sink"@), Some("init"@)],
            final(self).edges() == seq![
                PrismVasTransition {
                    transition_id: NO_TRANSITION,
                    from_state: INITIAL_ID,
                    to_state: SINK_ID,
                },
            ],
    {
        let n = initial.len();
        let start = copy_of(initial);
        self.states.push(
            PrismVasState {
                state_id: SINK_ID,
                vector: filled(n, -1),
                label: Some("sink".to_owned()),
            },
        );
        self.states.push(
            PrismVasState { state_id: INITIAL_ID, vector: start, label: Some("init".to_owned()) },
        );
        let stored = self.state_trie.insert_checked(initial, INITIAL_ID);
        self.transitions.push(
            PrismVasTransition {
                transition_id: NO_TRANSITION,
                from_state: INITIAL_ID,
                to_state: SINK_ID,
            },
        );
        self.transition_map.push(Vec::new());
        let mut row: Vec<(usize, usize)> = Vec::new();
        row.push((SINK_ID, 0));
        self.transition_map.push(row);
        proof {
            assert(self.vectors() =~= seq![sink_vector(old(self).dimension()), initial@]);
            assert(self.labels() =~= seq![Some("sink"@), Some("init"@)]);
            assert(self.vectors()[1] == initial@);
            assert(initial@.is_prefix_of(initial@));
            assert forall|key: Seq<VasValue>|
                key.len() == self.dimension() && (#[trigger] self.state_trie.lookup(key)) is Some
                implies 1 <= self.state_trie.lookup(key)->Some_0 < self.states.len()
                && self.vectors()[self.state_trie.lookup(key)->Some_0 as int] == key by {
                assert(old(self).state_trie.lookup(key) is None);
                assert(initial@.is_prefix_of(key));
                assert(key =~= initial@);
            }
            assert(self.edges()[0].from_state == 1 && self.edges()[0].to_state == 0);
            assert(self.has_edge(1, 0));
            assert(self.transition_map[1][0] == (0usize, 0usize));
            assert(self.listed(0));
        }
    }

    /// Whether `state` has an edge to `to`.
    pub fn edge_exists(&self, state: usize, to: usize) -> (r: bool)
        requires
            self.well_formed(),
            state < self.states.len(),
        ensures
            r == self.has_edge(state, to),
    {
        let row = &self.transition_map[state];
        let mut j: usize = 0;
        while j < row.len()
            invariant
                j <= row.len(),
                self.well_formed(),
                state < self.states.len(),
                *row == self.transition_map[state as int],
                forall|k: int| 0 <= k < j ==> (#[trigger] row[k]).0 != to,
            decreases row.len() - j,
        {
            if row[j].0 == to {
                proof {
                    assert(self.entry_sound(
                        state as int,
                        self.transition_map[state as int][j as int],
                    ));
                    let e = self.transition_map[state as int][j as int].1;
                    assert(self.edges()[e as int].from_state == state);
                }
                return true;
            }
            j += 1;
        }
        proof {
            if self.has_edge(state, to) {
                let e = choose|e: int|
                    0 <= e < self.edges().len() && (#[trigger] self.edges()[e]).from_state == state
                        && self.edges()[e].to_state == to;
                assert(self.listed(e));
                let k = choose|k: int|
                    0 <= k < self.transition_map[self.edges()[e].from_state as int].len()
                        && #[trigger] self.transition_map[self.edges()[e].from_state as int][k]
                        == (self.edges()[e].to_state, e as usize);
                assert(row[k].0 == to);
            }
        }
        false
    }

    /// Adds the edge from `from` to `to` that fires `transition_id`,
    /// unless the two states are joined in that direction already.
    /// Returns whether the edge was added.
    pub fn add_edge_once(&mut self, from: usize, to: usize, transition_id: usize) -> (added: bool)
        requires
            old(self).well_formed(),
            1 <= from < old(self).states.len(),
            to < old(self).states.len(),
        ensures
            final(self).well_formed(),
            added == !old(self).has_edge(from, to),
            final(self).edges() == (if added {
                old(self).edges().push(
                    (PrismVasTransition { transition_id, from_state: from, to_state: to }),
                )
            } else {
                old(self).edges()
            }),
            final(self).states == old(self).states,
            final(self).state_trie == old(self).state_trie,
            final(self).variable_names == old(self).variable_names,
            final(self).m_type == old(self).m_type,
    {
        if self.edge_exists(from, to) {
            return false;
        }
        let e = self.transitions.len();
        let edge = PrismVasTransition { transition_id, from_state: from, to_state: to };
        self.transitions.push(edge);
        self.transition_map[from].push((to, e));
        proof {
            assert(self.vectors() =~= old(self).vectors());
            assert forall|x: int| 0 <= x < self.edges().len() implies 1 <= (
            #[trigger] self.edges()[x]).from_state < self.states.len()
                && self.edges()[x].to_state < self.states.len() by {
                if x < e {
                    assert(old(self).edges()[x] == self.edges()[x]);
                }
            }
            assert forall|k: int| 1 <= k < self.states.len() implies self.state_trie.lookup(
                #[trigger] self.vectors()[k],
            ) == Some(k as usize) by {
                assert(old(self).state_trie.lookup(old(self).vectors()[k]) == Some(k as usize));
            }
            assert forall|i: int| 0 <= i < self.states.len() implies (
            #[trigger] self.states[i]).state_id == i && self.states[i].vector.len()
                == self.dimension() by {
                assert(old(self).states[i].state_id == i);
            }
            assert(self.tables_agree());
            assert forall|s: int, j: int|
                0 <= s < self.transition_map.len() && 0 <= j
                    < self.transition_map[s].len() implies self.entry_sound(
                s,
                #[trigger] self.transition_map[s][j],
            ) by {
                if s == from && j == old(self).transition_map[s].len() {
                } else {
                    assert(old(self).entry_sound(s, old(self).transition_map[s][j]));
                }
            }
            assert forall|x: int| 0 <= x < self.edges().len() implies #[trigger] self.listed(
                x,
            ) by {
                if x < e {
                    assert(old(self).listed(x));
                    let f = old(self).edges()[x].from_state as int;
                    let j = choose|j: int|
                        0 <= j < old(self).transition_map[f].len() && #[trigger] old(
                            self,
                        ).transition_map[f][j] == (old(self).edges()[x].to_state, x as usize);
                    assert(self.transition_map[f][j] == (self.edges()[x].to_state, x as usize));
                } else {
                    let j = old(self).transition_map[from as int].len() as int;
                    assert(self.transition_map[from as int][j] == (to, e));
                }
            }
            assert forall|a: int, b: int| 0 <= a < b < self.edges().len() implies !((
            #[trigger] self.edges()[a]).from_state == (#[trigger] self.edges()[b]).from_state
                && self.edges()[a].to_state == self.edges()[b].to_state) by {
                if b == e {
                    assert(old(self).edges()[a] == self.edges()[a]);
                } else {
                    assert(old(self).edges()[a] == self.edges()[a]);
                    assert(old(self).edges()[b] == self.edges()[b]);
                }
            }
            assert forall|s: int| 1 <= s < self.states.len() implies #[trigger] self.has_edge(
                s as usize,
                0,
            ) by {
                assert(old(self).has_edge(s as usize, 0));
                let x = choose|x: int|
                    0 <= x < old(self).edges().len() && (#[trigger] old(self).edges()[x]).from_state
                        == s as usize && old(self).edges()[x].to_state == 0;
                assert(self.edges()[x] == old(self).edges()[x]);
            }
            assert(self.edges_listed());
            assert(self.edges_proper());
        }
        true
    }

    /// Looks up the state with the vector `vector` and adds it, with its
    /// edge to the sink, when there is none. Returns the state's id and
    /// whether the state was added.
    pub fn find_or_add_state(&mut self, vector: &Vec<VasValue>, label: Option<String>) -> (r: (
        usize,
        bool,
    ))
        requires
            old(self).well_formed(),
            vector.len() == old(self).dimension(),
        ensures
            final(self).well_formed(),
            final(self).variable_names == old(self).variable_names,
            final(self).m_type == old(self).m_type,
            r.1 == !old(self).has_vector(vector@),
            1 <= r.0 < final(self).states.len(),
            final(self).vectors()[r.0 as int] == vector@,
            !r.1 ==> final(self).vectors() == old(self).vectors() && final(self).edges() == old(
                self,
            ).edges() && final(self).labels() == old(self).labels(),
            r.1 ==> final(self).labels() == old(self).labels().push(
                match label {
                    Some(text) => Some(text@),
                    None => None,
                },
            ),
            r.1 ==> r.0 == old(self).states.len() && final(self).vectors() == old(
                self,
            ).vectors().push(vector@) && final(self).edges() == old(self).edges().push(
                (PrismVasTransition {
                    transition_id: NO_TRANSITION,
                    from_state: r.0,
                    to_state: SINK_ID,
                }),
            ),
    {
        let id = self.states.len();
        let found = match self.state_trie.insert_checked(vector, id) {
            Ok(found) => found,
            Err(_) => unreached(),
        };
        match found {
            Some(existing) => {
                proof {
                    assert(self.vectors() =~= old(self).vectors());
                    assert(self.labels() =~= old(self).labels());
                    assert(old(self).vectors()[existing as int] == vector@);
                    assert(self.state_trie.lookup(vector@) == Some(existing));
                    assert forall|key: Seq<VasValue>|
                        key.len() == self.dimension() && (#[trigger] self.state_trie.lookup(
                            key,
                        )) is Some implies 1 <= self.state_trie.lookup(key)->Some_0
                        < self.states.len() && self.vectors()[self.state_trie.lookup(
                        key,
                    )->Some_0 as int] == key by {
                        assert(old(self).state_trie.lookup(key) == self.state_trie.lookup(key));
                    }
                    assert forall|k: int| 1 <= k < self.states.len() implies self.state_trie.lookup(
                        #[trigger] self.vectors()[k],
                    ) == Some(k as usize) by {
                        assert(old(self).state_trie.lookup(old(self).vectors()[k]) == Some(
                            k as usize,
                        ));
                    }
                    assert forall|i: int| 0 <= i < self.states.len() implies (
                    #[trigger] self.states[i]).state_id == i && self.states[i].vector.len()
                        == self.dimension() by {
                        assert(old(self).states[i].state_id == i);
                    }
                    assert forall|x: int| 0 <= x < self.edges().len() implies 1 <= (
                    #[trigger] self.edges()[x]).from_state < self.states.len()
                        && self.edges()[x].to_state < self.states.len() by {
                        assert(old(self).edges()[x] == self.edges()[x]);
                    }
                    assert(self.tables_agree());
                    assert(self.transitions == old(self).transitions);
                    assert(self.transition_map == old(self).transition_map);
                    assert(old(self).edges_proper());
                    assert(self.edges() == old(self).edges());
                    assert forall|s: int| 1 <= s < self.states.len() implies #[trigger] self.has_edge(
                        s as usize,
                        0,
                    ) by {
                        assert(old(self).has_edge(s as usize, 0));
                    }
                    assert(self.edges_proper());
                    assert forall|x: int| 0 <= x < self.edges().len() implies #[trigger] self.listed(
                        x,
                    ) by {
                        assert(old(self).listed(x));
                    }
                    assert forall|s: int, j: int|
                        0 <= s < self.transition_map.len() && 0 <= j
                            < self.transition_map[s].len() implies self.entry_sound(
                        s,
                        #[trigger] self.transition_map[s][j],
                    ) by {
                        assert(old(self).entry_sound(s, old(self).transition_map[s][j]));
                    }
                    assert(self.edges_listed());
                }
                (existing, false)
            },
            None => {
                self.states.push(PrismVasState { state_id: id, vector: copy_of(vector), label });
                let e = self.transitions.len();
                self.transitions.push(
                    PrismVasTransition {
                        transition_id: NO_TRANSITION,
                        from_state: id,
                        to_state: SINK_ID,
                    },
                );
                let mut row: Vec<(usize, usize)> = Vec::new();
                row.push((SINK_ID, e));
                self.transition_map.push(row);
                proof {
                    assert(self.vectors() =~= old(self).vectors().push(vector@));
                    assert(self.labels() =~= old(self).labels().push(
                        match label {
                            Some(text) => Some(text@),
                            None => None,
                        },
                    ));
                    assert(!old(self).has_vector(vector@)) by {
                        if old(self).has_vector(vector@) {
                            let k = choose|k: int|
                                1 <= k < old(self).states.len() && #[trigger] old(
                                    self,
                                ).vectors()[k] == vector@;
                            assert(old(self).state_trie.lookup(old(self).vectors()[k]) == Some(
                                k as usize,
                            ));
                        }
                    }
                    assert forall|k: int| 1 <= k < self.states.len() implies self.state_trie.lookup(
                        #[trigger] self.vectors()[k],
                    ) == Some(k as usize) by {
                        if k < id {
                            let key = old(self).vectors()[k];
                            assert(old(self).state_trie.lookup(key) == Some(k as usize));
                            assert(key.len() == vector@.len());
                            if vector@.is_prefix_of(key) {
                                assert(key =~= vector@);
                            }
                        } else {
                            assert(vector@.is_prefix_of(vector@));
                        }
                    }
                    assert forall|key: Seq<VasValue>|
                        key.len() == self.dimension() && (#[trigger] self.state_trie.lookup(
                            key,
                        )) is Some implies 1 <= self.state_trie.lookup(key)->Some_0
                        < self.states.len() && self.vectors()[self.state_trie.lookup(
                        key,
                    )->Some_0 as int] == key by {
                        if vector@.is_prefix_of(key) {
                            assert(key =~= vector@);
                        } else {
                            assert(old(self).state_trie.lookup(key) == self.state_trie.lookup(key));
                        }
                    }
                    assert(self.tables_agree());
                    assert forall|s: int, j: int|
                        0 <= s < self.transition_map.len() && 0 <= j
                            < self.transition_map[s].len() implies self.entry_sound(
                        s,
                        #[trigger] self.transition_map[s][j],
                    ) by {
                        if s < id {
                            assert(old(self).entry_sound(s, old(self).transition_map[s][j]));
                        }
                    }
                    assert forall|x: int| 0 <= x < self.edges().len() implies #[trigger] self.listed(
                        x,
                    ) by {
                        if x < e {
                            assert(old(self).listed(x));
                            let f = old(self).edges()[x].from_state as int;
                            let j = choose|j: int|
                                0 <= j < old(self).transition_map[f].len() && #[trigger] old(
                                    self,
                                ).transition_map[f][j] == (
                                    old(self).edges()[x].to_state,
                                    x as usize,
                                );
                            assert(self.transition_map[f][j] == (
                                self.edges()[x].to_state,
                                x as usize,
                            ));
                        } else {
                            assert(self.transition_map[id as int][0] == (SINK_ID, e));
                        }
                    }
                    assert forall|a: int, b: int| 0 <= a < b < self.edges().len() implies !((
                    #[trigger] self.edges()[a]).from_state == (
                    #[trigger] self.edges()[b]).from_state && self.edges()[a].to_state
                        == self.edges()[b].to_state) by {
                        assert(old(self).edges()[a] == self.edges()[a]);
                        if b < e {
                            assert(old(self).edges()[b] == self.edges()[b]);
                        }
                    }
                    assert forall|s: int| 1 <= s < self.states.len() implies #[trigger] self.has_edge(
                        s as usize,
                        0,
                    ) by {
                        if s < id {
                            assert(old(self).has_edge(s as usize, 0));
                            let x = choose|x: int|
                                0 <= x < old(self).edges().len() && (#[trigger] old(
                                    self,
                                ).edges()[x]).from_state == s as usize && old(
                                    self,
                                ).edges()[x].to_state == 0;
                            assert(self.edges()[x] == old(self).edges()[x]);
                        } else {
                            assert(self.edges()[e as int].from_state == id);
                        }
                    }
                    assert(self.edges_listed());
                    assert(self.edges_proper());
                }
                (id, true)
            },
        }
    }

    /// Appends `transition` to the table of edges, as it is.
    pub fn add_transition(&mut self, transition: PrismVasTransition)
        ensures
            final(self).transitions@ == old(self).transitions@.push(transition),
            final(self).states == old(self).states,
            final(self).variable_names == old(self).variable_names,
            final(self).m_type == old(self).m_type,
            final(self).state_trie == old(self).state_trie,
            final(self).transition_map == old(self).transition_map,
    {
        self.transitions.push(transition);
    }

    /// Appends `state` to the table of states, as it is.
    pub fn add_state(&mut self, state: PrismVasState)
        ensures
            final(self).states@ == old(self).states@.push(state),
            final(self).transitions == old(self).transitions,
            final(self).variable_names == old(self).variable_names,
            final(self).m_type == old(self).m_type,
            final(self).state_trie == old(self).state_trie,
            final(self).transition_map == old(self).transition_map,
    {
        self.states.push(state);
    }
}

/// The tables of a state space: the vectors and the labels of its states,
/// by state id, and its edges.
pub struct GraphSpec {
    pub vectors: Seq<Seq<VasValue>>,
    pub labels: Seq<Option<Seq<char>>>,
    pub edges: Seq<PrismVasTransition>,
}

impl GraphSpec {
    /// Whether a state other than the sink has the vector `v`.
    pub open spec fn has_vector(self, v: Seq<VasValue>) -> bool {
        exists|id: int| 1 <= id < self.vectors.len() && #[trigger] self.vectors[id] == v
    }

    /// The id of the state other than the sink that has the vector `v`.
    pub open spec fn id_of(self, v: Seq<VasValue>) -> usize {
        (choose|id: int| 1 <= id < self.vectors.len() && #[trigger] self.vectors[id] == v) as usize
    }

    /// Whether there is an edge from `from` to `to`.
    pub open spec fn has_edge(self, from: usize, to: usize) -> bool {
        exists|e: int|
            0 <= e < self.edges.len() && (#[trigger] self.edges[e]).from_state == from
                && self.edges[e].to_state == to
    }

    /// The state space with a state for `v`: as it is when it has one,
    /// and with a new state labelled `label` and that state's edge to the
    /// sink otherwise.
    pub open spec fn with_state(self, v: Seq<VasValue>, label: Option<Seq<char>>) -> GraphSpec {
        if self.has_vector(v) {
            self
        } else {
            GraphSpec {
                vectors: self.vectors.push(v),
                labels: self.labels.push(label),
                edges: self.edges.push(
                    PrismVasTransition {
                        transition_id: NO_TRANSITION,
                        from_state: self.vectors.len() as usize,
                        to_state: SINK_ID,
                    },
                ),
            }
        }
    }

    /// The state space with an edge from `from` to `to`: as it is when it
    /// has one, and with a new edge that fires `transition_id` otherwise.
    pub open spec fn with_edge(self, from: usize, to: usize, transition_id: usize) -> GraphSpec {
        if self.has_edge(from, to) {
            self
        } else {
            GraphSpec {
                edges: self.edges.push(
                    PrismVasTransition { transition_id, from_state: from, to_state: to },
                ),
                ..self
            }
        }
    }

    /// The state space after one step of a walk: from the state `from`
    /// to the state with the vector `next`, firing `transition_id`. A
    /// state that the step adds gets the label `label`.
    pub open spec fn with_step(
        self,
        from: usize,
        next: Seq<VasValue>,
        transition_id: usize,
        label: Option<Seq<char>>,
    ) -> GraphSpec {
        self.with_state(next, label).with_edge(
            from,
            self.with_state(next, label).id_of(next),
            transition_id,
        )
    }
}

/// The state space that a model of `n` variables starts with: the sink,
/// the state of `init`, and the edge from that state to the sink.
pub open spec fn initial_graph(n: nat, init: Seq<VasValue>) -> GraphSpec {
    GraphSpec {
        vectors: seq![sink_vector(n), init],
        labels: seq![Some("sink"@), Some("init"@)],
        edges: seq![
            PrismVasTransition {
                transition_id: NO_TRANSITION,
                from_state: INITIAL_ID,
                to_state: SINK_ID,
            },
        ],
    }
}

impl PrismVasModel {
    /// The tables of the state space, apart from how they are stored.
    pub open spec fn graph(&self) -> GraphSpec {
        GraphSpec { vectors: self.vectors(), labels: self.labels(), edges: self.edges() }
    }
}

impl GraphSpec {
    /// Whether `later` has every state and every edge of this state space
    /// at the same place, and possibly more after them.
    pub open spec fn extended_by(self, later: GraphSpec) -> bool {
        &&& self.vectors.is_prefix_of(later.vectors)
        &&& self.labels.is_prefix_of(later.labels)
        &&& self.edges.is_prefix_of(later.edges)
    }

    /// Whether the edge at `e` is the edge of its state to the sink, or
    /// fires a transition of `ts` from the vector of the one state to the
    /// vector of the other.
    pub open spec fn edge_fires(self, ts: Seq<TransitionSpec>, e: int) -> bool {
        let edge = self.edges[e];
        ||| edge.to_state == SINK_ID && edge.transition_id == NO_TRANSITION
        ||| exists|k: int|
            0 <= k < ts.len() && edge.transition_id == (#[trigger] ts[k]).id && step_fits(
                self.vectors[edge.from_state as int],
                ts[k],
            ) && self.vectors[edge.to_state as int] == stepped(
                self.vectors[edge.from_state as int],
                ts[k],
            )
    }

    /// Whether every edge is the edge of a state to the sink or fires a
    /// transition of `ts`.
    pub open spec fn fires_only(self, ts: Seq<TransitionSpec>) -> bool {
        forall|e: int| 0 <= e < self.edges.len() ==> #[trigger] self.edge_fires(ts, e)
    }

    /// Extension is transitive.
    pub proof fn lemma_extended_twice(self, middle: GraphSpec, later: GraphSpec)
        requires
            self.extended_by(middle),
            middle.extended_by(later),
        ensures
            self.extended_by(later),
    {
        assert(self.vectors =~= later.vectors.subrange(0, self.vectors.len() as int)) by {
            assert(self.vectors =~= middle.vectors.subrange(0, self.vectors.len() as int));
            assert(middle.vectors =~= later.vectors.subrange(0, middle.vectors.len() as int));
        }
        assert(self.labels =~= later.labels.subrange(0, self.labels.len() as int)) by {
            assert(self.labels =~= middle.labels.subrange(0, self.labels.len() as int));
            assert(middle.labels =~= later.labels.subrange(0, middle.labels.len() as int));
        }
        assert(self.edges =~= later.edges.subrange(0, self.edges.len() as int)) by {
            assert(self.edges =~= middle.edges.subrange(0, self.edges.len() as int));
            assert(middle.edges =~= later.edges.subrange(0, middle.edges.len() as int));
        }
    }
}

} // verus!
