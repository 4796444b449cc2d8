use vas_reach::dependency::graph::{
    make_dependency_graph, DependencyGraphError, GraphNode, DEBUG_DEPTH_LIMIT,
};
use vas_reach::dependency::trimmer::trim_model;
use vas_reach::model::vas_model::{
    AbstractVas, AllowedRelation, ModelType, VasProperty, VasState, VasTransition,
};

fn model(
    variables: &[(&str, i128)],
    transitions: &[(&str, Vec<i128>, Vec<i128>)],
    target: (usize, i128),
) -> AbstractVas {
    let names: Vec<String> = variables.iter().map(|v| v.0.to_string()).collect();
    let init: Vec<i128> = variables.iter().map(|v| v.1).collect();
    let ts: Vec<VasTransition> = transitions
        .iter()
        .enumerate()
        .map(|(id, t)| VasTransition::new(id, t.0.to_string(), t.1.clone(), t.2.clone(), 0))
        .collect();
    AbstractVas::new(
        names,
        vec![VasState::new(init)],
        ts,
        VasProperty { variable_index: target.0, target_value: target.1 },
    )
}

fn all_positive(node: &GraphNode) -> bool {
    node.executions > 0 && node.children.iter().all(all_positive)
}

#[test]
fn transition_new_takes_the_difference() {
    let t = VasTransition::new(3, "t".to_string(), vec![0, 2, 1], vec![1, 0, 1], 9);
    assert_eq!(t.transition_id, 3);
    assert_eq!(t.update_vector, vec![-1, 2, 0]);
    assert_eq!(t.enabled_bounds, vec![1, 0, 1]);
    assert_eq!(t.rate_const_bits, 9);
    assert!(t.enabled_vector(&vec![1, 0, 1]));
    assert!(!t.enabled_vector(&vec![0, 5, 5]));
}

#[test]
fn enabledness_ignores_the_update() {
    let t = VasTransition::new(0, "t".to_string(), vec![2], vec![0], 0);
    assert!(t.enabled_vector(&vec![0]));
}

#[test]
fn model_lookups_find_the_first_match() {
    let m = model(
        &[("A", 0)],
        &[("x", vec![1], vec![0]), ("y", vec![2], vec![0]), ("x", vec![3], vec![0])],
        (0, 1),
    );
    assert_eq!(m.get_transition_from_name("x").unwrap().transition_id, 0);
    assert_eq!(m.get_transition_from_name("y").unwrap().transition_id, 1);
    assert!(m.get_transition_from_name("z").is_none());
    assert_eq!(m.get_transition_from_id(2).unwrap().update_vector, vec![3]);
    assert!(m.get_transition_from_id(3).is_none());
    assert_eq!(m.find_transition(1), 1);
    assert_eq!(m.find_transition(9), 3);
    assert_eq!(m.m_type, ModelType::ContinuousTime);
    assert!(m.is_well_formed());
}

#[test]
fn relation_symbols() {
    assert_eq!(AllowedRelation::Equal.symbol(), '=');
    assert_eq!(AllowedRelation::LessThan.symbol(), '<');
    assert_eq!(AllowedRelation::GreaterThan.symbol(), '>');
}

#[test]
fn target_outside_the_state_cannot_be_evaluated() {
    let m = model(&[("A", 1)], &[], (1, 5));
    assert_eq!(
        make_dependency_graph(&m).err(),
        Some(DependencyGraphError::CannotEvaluateProperty)
    );
}

#[test]
fn difference_that_does_not_fit_is_an_overflow() {
    let m = model(&[("A", -2)], &[], (0, i128::MAX));
    assert_eq!(make_dependency_graph(&m).err(), Some(DependencyGraphError::Overflow));
}

#[test]
fn children_of_one_name_merge_to_the_larger_multiplicity() {
    let m = model(
        &[("X", 0), ("Y", 0), ("Z", 0)],
        &[("t1", vec![0, 0, 1], vec![2, 3, 0]), ("p", vec![1, 1, 0], vec![0, 0, 0])],
        (2, 1),
    );
    let graph = make_dependency_graph(&m).unwrap();
    let root = &graph.root;
    assert_eq!(root.executions, 1);
    assert_eq!(root.children.len(), 1);
    let t1 = &root.children[0];
    assert_eq!(t1.transition.transition_name, "t1");
    assert_eq!(t1.executions, 1);
    assert_eq!(t1.parents, vec!["ARTIFICIAL".to_string()]);
    assert_eq!(t1.node_init, vec![0, 0, 0]);
    assert_eq!(t1.children.len(), 1);
    let p = &t1.children[0];
    assert_eq!(p.transition.transition_name, "p");
    assert_eq!(p.executions, 3);
    assert_eq!(p.node_target, vec![VasProperty { variable_index: 1, target_value: 3 }]);
    assert_eq!(p.node_init, vec![-2, -3, 1]);
    assert_eq!(p.parents, vec!["ARTIFICIAL".to_string(), "t1".to_string()]);
    assert!(p.enabled);
    assert!(p.children.is_empty());
    assert!(t1.enabled);
    assert!(root.enabled);
    assert!(all_positive(root));
}

#[test]
fn multiplicity_rounds_towards_zero() {
    // Five are asked for and the transition makes two at a time.
    let m = model(&[("A", 0)], &[("two", vec![2], vec![0])], (0, 5));
    let graph = make_dependency_graph(&m).unwrap();
    let child = &graph.root.children[0];
    assert_eq!(child.executions, 2);
    // One is left over, too little for the transition to fire once more.
    assert!(child.children.is_empty());
    assert!(!child.enabled);
    assert!(!graph.root.enabled);
    assert!(all_positive(&graph.root));
}

#[test]
fn a_target_too_small_for_a_transition_admits_no_child() {
    let m = model(&[("A", 0)], &[("three", vec![3], vec![0])], (0, 2));
    let graph = make_dependency_graph(&m).unwrap();
    assert!(graph.root.children.is_empty());
    assert!(!graph.root.enabled);
    assert!(graph.get_transitions().is_empty());
}

#[test]
fn a_node_without_open_targets_is_enabled_without_children() {
    let m = model(&[("A", 0)], &[("make", vec![1], vec![0])], (0, 4));
    let graph = make_dependency_graph(&m).unwrap();
    let child = &graph.root.children[0];
    assert_eq!(child.executions, 4);
    assert!(child.enabled);
    assert!(child.children.is_empty());
}

#[test]
fn expanding_an_enabled_node_changes_nothing() {
    let m = model(&[("A", 0)], &[("make", vec![1], vec![0])], (0, 4));
    let mut graph = make_dependency_graph(&m).unwrap();
    assert!(graph.root.enabled);
    let before = format!("{:?}", graph.root);
    assert_eq!(graph.root.rec_build_graph(&m, 1), Ok(()));
    assert_eq!(format!("{:?}", graph.root), before);
}

#[test]
fn a_node_below_the_limit_fails() {
    let m = model(&[("A", 0)], &[("make", vec![1], vec![0])], (0, 4));
    let mut graph = make_dependency_graph(&m).unwrap();
    graph.root.enabled = false;
    let before = format!("{:?}", graph.root);
    assert_eq!(
        graph.root.rec_build_graph(&m, DEBUG_DEPTH_LIMIT + 1),
        Err(DependencyGraphError::DepthLimitExceeded)
    );
    // The node is left as it was.
    assert_eq!(format!("{:?}", graph.root), before);
}

#[test]
fn a_child_at_the_limit_fails_its_parent() {
    let m = model(&[("A", 0)], &[("make", vec![1], vec![0])], (0, 4));
    let mut graph = make_dependency_graph(&m).unwrap();
    graph.root.enabled = false;
    graph.root.children.clear();
    assert_eq!(
        graph.root.rec_build_graph(&m, DEBUG_DEPTH_LIMIT),
        Err(DependencyGraphError::DepthLimitExceeded)
    );
    // The node is left without children and not enabled.
    assert!(graph.root.children.is_empty());
    assert!(!graph.root.enabled);
    assert_eq!(graph.root.executions, 4);
}

#[test]
fn walk_lists_transitions_parents_first_and_repeats() {
    let m = model(
        &[("X", 0), ("Y", 0), ("Z", 0)],
        &[
            ("z", vec![0, 0, 1], vec![1, 1, 0]),
            ("x", vec![1, 0, 0], vec![0, 0, 0]),
            ("y", vec![0, 1, 0], vec![0, 0, 0]),
        ],
        (2, 1),
    );
    let graph = make_dependency_graph(&m).unwrap();
    let names: Vec<String> =
        graph.get_transitions().iter().map(|t| t.transition_name.clone()).collect();
    // Below x the shortfall of Y is still open, and below y that of X.
    assert_eq!(
        names,
        vec!["z".to_string(), "x".to_string(), "y".to_string(), "y".to_string(), "x".to_string()]
    );
    let copy = graph.duplicate();
    assert_eq!(format!("{:?}", copy), format!("{:?}", graph));
    // The trimmed model holds each of them once, where the walk first
    // met it.
    let trimmed = trim_model(&m, copy);
    let kept: Vec<(usize, String)> = trimmed
        .transitions
        .iter()
        .map(|t| (t.transition_id, t.transition_name.clone()))
        .collect();
    assert_eq!(kept, vec![(0, "z".to_string()), (1, "x".to_string()), (2, "y".to_string())]);
    assert_eq!(trimmed.variable_names, m.variable_names);
    for (t, whole) in trimmed.transitions.iter().zip(m.transitions.iter()) {
        assert_eq!(t, whole);
    }
}

#[test]
fn trimming_drops_untouched_variables_and_moves_the_target() {
    let m = model(
        &[("Idle", 7), ("A", 2), ("Other", 1), ("B", 0)],
        &[
            ("r1", vec![0, 0, 0, 1], vec![0, 1, 0, 0]),
            ("unused", vec![0, 0, 1, 0], vec![0, 0, 0, 0]),
        ],
        (3, 2),
    );
    let graph = make_dependency_graph(&m).unwrap();
    let trimmed = trim_model(&m, graph);
    assert_eq!(trimmed.variable_names, vec!["A".to_string(), "B".to_string()]);
    assert_eq!(trimmed.initial_states[0].vector, vec![2, 0]);
    assert_eq!(trimmed.transitions.len(), 1);
    assert_eq!(trimmed.transitions[0].transition_name, "r1");
    assert_eq!(trimmed.transitions[0].update_vector, vec![-1, 1]);
    assert_eq!(trimmed.transitions[0].enabled_bounds, vec![1, 0]);
    assert_eq!(trimmed.target, VasProperty { variable_index: 1, target_value: 2 });
    assert!(trimmed.is_well_formed());
}

#[test]
fn trimming_with_an_empty_graph_keeps_nothing() {
    let m = model(&[("A", 0)], &[("three", vec![3], vec![0])], (0, 2));
    let graph = make_dependency_graph(&m).unwrap();
    let trimmed = trim_model(&m, graph);
    assert!(trimmed.variable_names.is_empty());
    assert!(trimmed.transitions.is_empty());
    assert_eq!(trimmed.initial_states[0].vector, Vec::<i128>::new());
    assert_eq!(trimmed.target, VasProperty { variable_index: 0, target_value: 2 });
}

#[test]
fn trimmed_model_reaches_the_target_as_the_model_does() {
    let m = model(
        &[("Idle", 7), ("A", 2), ("B", 0)],
        &[("r1", vec![0, 0, 1], vec![0, 1, 0])],
        (2, 2),
    );
    let graph = make_dependency_graph(&m).unwrap();
    let trimmed = trim_model(&m, graph);
    let run = |model: &AbstractVas| -> (bool, Vec<i128>) {
        let mut state = model.initial_states[0].vector.clone();
        for _ in 0..2 {
            let t = &model.transitions[0];
            if !t.enabled_vector(&state) {
                return (false, state);
            }
            state = state.iter().zip(t.update_vector.iter()).map(|(v, u)| v + u).collect();
        }
        (true, state)
    };
    let (fired, end) = run(&m);
    let (fired_trimmed, end_trimmed) = run(&trimmed);
    assert!(fired && fired_trimmed);
    assert!(m.target.satisfied_by(&end));
    assert!(trimmed.target.satisfied_by(&end_trimmed));
}
