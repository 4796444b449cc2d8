use vas_reach::bmc::bounds::BMCBounds;
use vas_reach::bmc::encoding::BMCEncoding;
use vas_reach::bmc::formula::{Formula, Term};
use vas_reach::bmc::vas_bmc::{BmcFailure, MAX_BMC_STEPS, NUM_BITS};
use vas_reach::builder::ragtimer::RagtimerBuilder;
use vas_reach::cycle_commute::commute::{commute, cycle_commute};
use vas_reach::dependency::graph::{make_dependency_graph, DependencyGraphError};
use vas_reach::dependency::trimmer::trim_model;
use vas_reach::model::explicit_model::PrismVasModel;
use vas_reach::model::vas_model::{AbstractVas, VasProperty, VasState, VasTransition};
use vas_reach::parser::vas_file_reader::build_model;

fn model(
    variables: &[(&str, i128)],
    transitions: &[(&str, Vec<i128>, Vec<i128>)],
    target: (usize, i128),
) -> AbstractVas {
    let names: Vec<String> = variables.iter().map(|v| v.0.to_string()).collect();
    let init: Vec<i128> = variables.iter().map(|v| v.1).collect();
    let ts: Vec<VasTransition> = transitions
        .iter()
        .enumerate()
        .map(|(id, t)| {
            VasTransition::new(id, t.0.to_string(), t.1.clone(), t.2.clone(), 1.0f64.to_bits())
        })
        .collect();
    AbstractVas::new(
        names,
        vec![VasState::new(init)],
        ts,
        VasProperty { variable_index: target.0, target_value: target.1 },
    )
}

fn two_to_b() -> AbstractVas {
    model(&[("A", 2), ("B", 0)], &[("r1", vec![0, 1], vec![1, 0])], (1, 2))
}

fn max_time(term: &Term) -> u32 {
    match term {
        Term::At(_, t) => *t,
        Term::Add(a, b) | Term::Sub(a, b) => max_time(a).max(max_time(b)),
        _ => 0,
    }
}

fn horizon(f: &Formula) -> u32 {
    match f {
        Formula::True | Formula::False => 0,
        Formula::Eq(a, b) | Formula::Uge(a, b) | Formula::Ule(a, b) => max_time(a).max(max_time(b)),
        Formula::And(a, b) | Formula::Or(a, b) => horizon(a).max(horizon(b)),
    }
}

fn value(term: &Term, at: &Vec<Vec<i128>>, bits: u32) -> i128 {
    let modulus: i128 = 1 << bits;
    match term {
        Term::Current(_) | Term::Next(_) => panic!("a query is about numbered times only"),
        Term::At(i, t) => at[*t as usize][*i],
        Term::Const(c) => c.rem_euclid(modulus),
        Term::Add(a, b) => (value(a, at, bits) + value(b, at, bits)).rem_euclid(modulus),
        Term::Sub(a, b) => (value(a, at, bits) - value(b, at, bits)).rem_euclid(modulus),
    }
}

fn holds(f: &Formula, at: &Vec<Vec<i128>>, bits: u32) -> bool {
    match f {
        Formula::True => true,
        Formula::False => false,
        Formula::Eq(a, b) => value(a, at, bits) == value(b, at, bits),
        Formula::Uge(a, b) => value(a, at, bits) >= value(b, at, bits),
        Formula::Ule(a, b) => value(a, at, bits) <= value(b, at, bits),
        Formula::And(a, b) => holds(a, at, bits) && holds(b, at, bits),
        Formula::Or(a, b) => holds(a, at, bits) || holds(b, at, bits),
    }
}

/// Decides a query by trying every sequence of transitions of the length
/// that the query looks at, each from the initial state.
fn satisfiable(model: &AbstractVas, f: &Formula, bits: u32) -> bool {
    let steps = horizon(f) as usize;
    let modulus: i128 = 1 << bits;
    let start: Vec<i128> =
        model.initial_states[0].vector.iter().map(|v| v.rem_euclid(modulus)).collect();
    let mut runs: Vec<Vec<Vec<i128>>> = vec![vec![start]];
    for _ in 0..steps {
        let mut longer = Vec::new();
        for run in &runs {
            for t in &model.transitions {
                let last = run.last().unwrap();
                let next: Vec<i128> = last
                    .iter()
                    .zip(t.update_vector.iter())
                    .map(|(v, u)| (v + u).rem_euclid(modulus))
                    .collect();
                let mut extended = run.clone();
                extended.push(next);
                longer.push(extended);
            }
        }
        runs = longer;
    }
    runs.iter().any(|run| holds(f, run, bits))
}

#[test]
fn moving_two_to_b_takes_the_root_twice_and_r1_twice() {
    let m = two_to_b();
    let graph = make_dependency_graph(&m).unwrap();
    let root = &graph.root;
    assert_eq!(root.transition.transition_name, "ARTIFICIAL");
    assert_eq!(root.executions, 2);
    assert!(!root.decrement);
    assert_eq!(root.children.len(), 1);
    let child = &root.children[0];
    assert_eq!(child.transition.transition_name, "r1");
    assert_eq!(child.executions, 2);
    assert!(child.enabled);
    assert!(child.children.is_empty());
    assert!(root.enabled);
    let used = graph.get_transitions();
    assert_eq!(used.len(), 1);
    assert_eq!(used[0].transition_name, "r1");
}

#[test]
fn moving_two_to_b_trims_to_the_same_model() {
    let m = two_to_b();
    let graph = make_dependency_graph(&m).unwrap();
    let trimmed = trim_model(&m, graph);
    assert_eq!(trimmed.variable_names, m.variable_names);
    assert_eq!(trimmed.initial_states.len(), 1);
    assert_eq!(trimmed.initial_states[0].vector, m.initial_states[0].vector);
    assert_eq!(trimmed.transitions.len(), 1);
    assert_eq!(trimmed.transitions[0].transition_name, "r1");
    assert_eq!(trimmed.transitions[0].transition_id, 0);
    assert_eq!(trimmed.transitions[0].update_vector, vec![-1, 1]);
    assert_eq!(trimmed.transitions[0].enabled_bounds, vec![1, 0]);
    assert_eq!(trimmed.transitions[0].rate_const_bits, 1.0f64.to_bits());
    assert_eq!(trimmed.target, m.target);
    assert_eq!(trimmed.m_type, m.m_type);
}

#[test]
fn moving_two_to_b_reaches_the_target_in_two_steps() {
    let m = two_to_b();
    let encoding = BMCEncoding::from_vas(&m);
    let solver = |f: &Formula| satisfiable(&m, f, NUM_BITS);
    let (_, k) = encoding.run_bmc(&solver, MAX_BMC_STEPS).unwrap();
    assert_eq!(k, 2);
}

#[test]
fn moving_two_to_b_bounds_b_by_zero_and_two() {
    let m = two_to_b();
    let encoding = m.bmc_encoding();
    let solver = |f: &Formula| satisfiable(&m, f, NUM_BITS);
    let bounds = BMCBounds::from_encoding(&m, &encoding, &solver, NUM_BITS).unwrap();
    assert_eq!(bounds.lb_loose[1], 0);
    assert_eq!(bounds.lb_tight[1], 0);
    assert_eq!(bounds.ub_tight[1], 2);
    assert_eq!(bounds.ub_loose[1], 2);
}

#[test]
fn moving_two_to_b_bounds_a_by_zero_and_two() {
    let m = two_to_b();
    let encoding = m.bmc_encoding();
    let solver = |f: &Formula| satisfiable(&m, f, NUM_BITS);
    let bounds = BMCBounds::from_encoding(&m, &encoding, &solver, NUM_BITS).unwrap();
    assert_eq!(bounds.lb_loose[0], 0);
    assert_eq!(bounds.lb_tight[0], 0);
    assert_eq!(bounds.ub_tight[0], 2);
    assert_eq!(bounds.ub_loose[0], 2);
}

#[test]
fn a_target_that_holds_at_once_has_no_graph() {
    let m = model(&[("A", 5)], &[], (0, 5));
    let r = make_dependency_graph(&m);
    assert_eq!(r.err(), Some(DependencyGraphError::InitiallySatisfied));
}

#[test]
fn a_file_whose_target_holds_at_once_declares_no_transition_and_has_no_graph() {
    let text: Vec<String> =
        ["species A init 5", "target A = 5"].iter().map(|l| l.to_string()).collect();
    let rate = |word: &str| word.parse::<f64>().ok().map(|x| x.to_bits());
    let m = build_model(&text, &rate).unwrap();
    assert!(m.transitions.is_empty());
    assert_eq!(m, model(&[("A", 5)], &[], (0, 5)));
    assert_eq!(make_dependency_graph(&m).err(), Some(DependencyGraphError::InitiallySatisfied));
}

#[test]
fn a_target_that_holds_at_once_fails_bounding() {
    let m = model(&[("A", 5)], &[], (0, 5));
    let encoding = m.bmc_encoding();
    let solver = |f: &Formula| satisfiable(&m, f, NUM_BITS);
    let r = BMCBounds::from_encoding(&m, &encoding, &solver, NUM_BITS);
    assert_eq!(r.err(), Some(BmcFailure::TargetHoldsInitially));
}

#[test]
fn a_target_below_the_initial_value_asks_for_consumption() {
    let m = model(&[("A", 3)], &[("t1", vec![0], vec![1])], (0, 0));
    let graph = make_dependency_graph(&m).unwrap();
    let root = &graph.root;
    assert!(root.decrement);
    assert_eq!(root.executions, 3);
    assert_eq!(root.node_target.len(), 1);
    assert_eq!(root.node_target[0].variable_index, 0);
    // The amount asked for is the difference less the initial value.
    assert_eq!(root.node_target[0].target_value, -3 - 3);
    assert_eq!(root.children.len(), 1);
    let child = &root.children[0];
    assert_eq!(child.transition.transition_name, "t1");
    assert_eq!(child.executions, 6);
    assert!(!child.decrement);
    // Six firings leave three of A to be made good, which nothing produces.
    assert!(child.children.is_empty());
    assert!(!child.enabled);
    assert!(!root.enabled);
}

#[test]
fn cycle_closure_adds_the_edge_back() {
    let m = model(
        &[("X", 1), ("Y", 0)],
        &[("f", vec![0, 1], vec![1, 0]), ("g", vec![1, 0], vec![0, 1])],
        (1, 1),
    );
    let (space, seeded) = cycle_commute(&m, &vec![vec!["f".to_string()]]).unwrap();
    assert_eq!(space.states[1].vector, vec![1, 0]);
    let after_f = space.states.iter().find(|s| s.vector == vec![0, 1]).unwrap().state_id;
    assert!(after_f >= 2 && after_f < seeded);
    let back = space
        .transitions
        .iter()
        .find(|e| e.from_state == after_f && e.to_state == 1)
        .expect("the edge from {X:0,Y:1} to {X:1,Y:0}");
    assert_eq!(back.transition_id, 1);
    let forth =
        space.transitions.iter().find(|e| e.from_state == 1 && e.to_state == after_f).unwrap();
    assert_eq!(forth.transition_id, 0);
}

#[test]
fn commute_at_depth_one_finds_both_orders() {
    let m = model(
        &[("A", 1), ("B", 1), ("C", 0), ("D", 0)],
        &[("p", vec![0, 0, 1, 0], vec![1, 0, 0, 0]), ("q", vec![0, 0, 0, 1], vec![0, 1, 0, 0])],
        (2, 1),
    );
    let builder = RagtimerBuilder::new(&m);
    let mut space: PrismVasModel = builder.prepare();
    builder.store_explicit_trace(&mut space, &vec![0]).unwrap();
    let before = space.states.len();
    commute(&m, &mut space, &vec![0], 0, 1);
    assert!(space.states.len() > before);
    // The state of the trace [p, q].
    assert!(space.states.iter().any(|s| s.vector == vec![0, 0, 1, 1]));
    // The state after q fired before p.
    assert!(space.states.iter().any(|s| s.vector == vec![1, 0, 0, 1]));
}

#[test]
fn bounds_are_ordered_for_every_variable() {
    let m = model(
        &[("A", 3), ("B", 1), ("C", 0)],
        &[("r1", vec![0, 1, 0], vec![1, 0, 0]), ("r2", vec![0, 0, 1], vec![0, 1, 0])],
        (2, 2),
    );
    let encoding = m.bmc_encoding();
    let solver = |f: &Formula| satisfiable(&m, f, NUM_BITS);
    let bounds = BMCBounds::from_encoding(&m, &encoding, &solver, NUM_BITS).unwrap();
    for v in 0..3 {
        let initial = m.initial_states[0].vector[v];
        assert!(bounds.lb_loose[v] <= bounds.lb_tight[v]);
        assert!(bounds.lb_tight[v] <= initial);
        assert!(initial <= bounds.ub_tight[v]);
        assert!(bounds.ub_tight[v] <= bounds.ub_loose[v]);
    }
}

#[test]
fn a_model_is_checked_and_bounded_through_its_own_methods() {
    let m = two_to_b();
    let encoding = m.bmc_encoding();
    let solver = |f: &Formula| satisfiable(&m, f, NUM_BITS);
    let (formula, k) = m.run_bmc(&encoding, &solver).unwrap();
    assert_eq!(k, 2);
    assert!(satisfiable(&m, &formula, NUM_BITS));
    let bounds = m.variable_bounds(&encoding, &solver).unwrap();
    assert_eq!(bounds, BMCBounds::from_encoding(&m, &encoding, &solver, NUM_BITS).unwrap());
    assert_eq!(bounds.ub_tight, vec![2, 2]);
    assert_eq!(bounds.lb_tight, vec![0, 0]);
}

#[test]
fn cycle_closure_builds_these_states_and_edges_and_no_others() {
    let m = model(
        &[("X", 1), ("Y", 0)],
        &[("f", vec![0, 1], vec![1, 0]), ("g", vec![1, 0], vec![0, 1])],
        (1, 1),
    );
    let (space, seeded) = cycle_commute(&m, &vec![vec!["f".to_string()]]).unwrap();
    assert_eq!(seeded, 3);
    let vectors: Vec<Vec<i128>> = space.states.iter().map(|s| s.vector.clone()).collect();
    assert_eq!(vectors, vec![vec![-1, -1], vec![1, 0], vec![0, 1]]);
    let labels: Vec<Option<String>> = space.states.iter().map(|s| s.label.clone()).collect();
    assert_eq!(labels, vec![Some("sink".to_string()), Some("init".to_string()), None]);
    let edges: Vec<(usize, usize, usize)> =
        space.transitions.iter().map(|e| (e.from_state, e.to_state, e.transition_id)).collect();
    assert_eq!(edges, vec![(1, 0, usize::MAX), (2, 0, usize::MAX), (1, 2, 0), (2, 1, 1)]);
    assert_eq!(space.transition_map[0], vec![]);
    assert_eq!(space.transition_map[1], vec![(0, 0), (2, 2)]);
    assert_eq!(space.transition_map[2], vec![(0, 1), (1, 3)]);
}

#[test]
fn commute_builds_these_states_and_edges_and_no_others() {
    let m = model(
        &[("A", 1), ("B", 1), ("C", 0), ("D", 0)],
        &[("p", vec![0, 0, 1, 0], vec![1, 0, 0, 0]), ("q", vec![0, 0, 0, 1], vec![0, 1, 0, 0])],
        (2, 1),
    );
    let builder = RagtimerBuilder::new(&m);
    let mut space: PrismVasModel = builder.prepare();
    builder.store_explicit_trace(&mut space, &vec![0]).unwrap();
    commute(&m, &mut space, &vec![0], 0, 1);
    let vectors: Vec<Vec<i128>> = space.states.iter().map(|s| s.vector.clone()).collect();
    // q may fire at both states of the trace: from the initial state and
    // from the state after p.
    assert_eq!(
        vectors,
        vec![
            vec![-1, -1, -1, -1],
            vec![1, 1, 0, 0],
            vec![0, 1, 1, 0],
            vec![1, 0, 0, 1],
            vec![0, 0, 1, 1],
        ]
    );
    let edges: Vec<(usize, usize, usize)> =
        space.transitions.iter().map(|e| (e.from_state, e.to_state, e.transition_id)).collect();
    assert_eq!(
        edges,
        vec![
            (1, 0, usize::MAX),
            (2, 0, usize::MAX),
            (1, 2, 0),
            (3, 0, usize::MAX),
            (1, 3, 1),
            (4, 0, usize::MAX),
            (2, 4, 1),
        ]
    );
}

#[test]
fn commute_goes_two_levels_deep_along_the_spliced_traces() {
    let m = model(
        &[("X", 0), ("Y", 0)],
        &[("r", vec![1, 0], vec![0, 0]), ("s", vec![0, 1], vec![0, 0])],
        (0, 5),
    );
    let (space, seeded) = cycle_commute(&m, &vec![vec!["r".to_string()]]).unwrap();
    let vectors: Vec<Vec<i128>> = space.states.iter().map(|s| s.vector.clone()).collect();
    assert_eq!(
        vectors,
        vec![
            vec![-1, -1],
            vec![0, 0],
            // The trace.
            vec![1, 0],
            // One level down, along r r: r from its last two states, then s
            // from all three.
            vec![2, 0],
            vec![3, 0],
            vec![0, 1],
            vec![1, 1],
            vec![2, 1],
            // One level down, along s r: s from its last two states.
            vec![0, 2],
            vec![1, 2],
        ]
    );
    assert_eq!(seeded, 10);
    let edges: Vec<(usize, usize, usize)> =
        space.transitions.iter().map(|e| (e.from_state, e.to_state, e.transition_id)).collect();
    let none = usize::MAX;
    assert_eq!(
        edges,
        vec![
            (1, 0, none),
            (2, 0, none),
            (1, 2, 0),
            (3, 0, none),
            (2, 3, 0),
            (4, 0, none),
            (3, 4, 0),
            (5, 0, none),
            (1, 5, 1),
            (6, 0, none),
            (2, 6, 1),
            (7, 0, none),
            (3, 7, 1),
            (5, 6, 0),
            (6, 7, 0),
            (8, 0, none),
            (5, 8, 1),
            (9, 0, none),
            (6, 9, 1),
        ]
    );
}
