use vas_reach::builder::ragtimer::{walk_trace, RagtimerBuilder, TraceError, MAX_TRACE_LENGTH};
use vas_reach::builder::rl_traces::{TraceVerdict, WalkEnd, WalkStatus};
use vas_reach::cycle_commute::commute::{add_cycles, commute, cycle_commute, MAX_CYCLE_LENGTH, MAX_DEPTH};
use vas_reach::model::explicit_model::{
    PrismVasModel, PrismVasState, PrismVasTransition, INITIAL_ID, NO_TRANSITION, SINK_ID,
};
use vas_reach::model::vas_model::{AbstractVas, ModelType, VasProperty, VasState, VasTransition};
use vas_reach::trace::trace_trie::TraceTrieNode;

fn model(
    variables: &[(&str, i128)],
    transitions: &[(&str, Vec<i128>, Vec<i128>)],
    target: (usize, i128),
) -> AbstractVas {
    let names: Vec<String> = variables.iter().map(|v| v.0.to_string()).collect();
    let init: Vec<i128> = variables.iter().map(|v| v.1).collect();
    let ts: Vec<VasTransition> = transitions
        .iter()
        .enumerate()
        .map(|(id, t)| VasTransition::new(id, t.0.to_string(), t.1.clone(), t.2.clone(), 0))
        .collect();
    AbstractVas::new(
        names,
        vec![VasState::new(init)],
        ts,
        VasProperty { variable_index: target.0, target_value: target.1 },
    )
}

fn two_step() -> AbstractVas {
    model(&[("A", 2), ("B", 0)], &[("r1", vec![0, 1], vec![1, 0])], (1, 2))
}

fn edge(from: usize, to: usize, id: usize) -> PrismVasTransition {
    PrismVasTransition { transition_id: id, from_state: from, to_state: to }
}

/// Every state but the sink sits at its id, has one edge to the sink, and
/// no other state has its vector; no two edges join the same states.
fn check_tables(space: &PrismVasModel) {
    assert!(space.states.len() >= 2);
    assert_eq!(space.transition_map.len(), space.states.len());
    for (i, s) in space.states.iter().enumerate() {
        assert_eq!(s.state_id, i);
        assert_eq!(s.vector.len(), space.variable_names.len());
    }
    assert!(space.states[0].vector.iter().all(|v| *v == -1));
    for a in 1..space.states.len() {
        for b in (a + 1)..space.states.len() {
            assert_ne!(space.states[a].vector, space.states[b].vector);
        }
        let to_sink = space
            .transitions
            .iter()
            .filter(|e| e.from_state == a && e.to_state == SINK_ID)
            .count();
        assert_eq!(to_sink, 1);
    }
    for (i, a) in space.transitions.iter().enumerate() {
        assert!(a.from_state >= 1 && a.from_state < space.states.len());
        assert!(a.to_state < space.states.len());
        for b in &space.transitions[i + 1..] {
            assert!(!(a.from_state == b.from_state && a.to_state == b.to_state));
        }
        assert!(space.transition_map[a.from_state].contains(&(a.to_state, i)));
    }
    let listed: usize = space.transition_map.iter().map(|row| row.len()).sum();
    assert_eq!(listed, space.transitions.len());
}

#[test]
fn a_prepared_state_space_has_the_sink_and_the_initial_state() {
    let m = two_step();
    let builder = RagtimerBuilder::new(&m);
    assert!(builder.is_abstracted());
    assert!(builder.creates_pmin());
    assert!(!builder.creates_pmax());
    assert!(!builder.finished());
    assert_eq!(builder.get_abstract_model(), &m);
    let space = builder.prepare();
    assert_eq!(SINK_ID, 0);
    assert_eq!(INITIAL_ID, 1);
    assert_eq!(space.variable_names, m.variable_names);
    assert_eq!(space.m_type, ModelType::ContinuousTime);
    assert_eq!(
        space.states,
        vec![
            PrismVasState { state_id: 0, vector: vec![-1, -1], label: Some("sink".to_string()) },
            PrismVasState { state_id: 1, vector: vec![2, 0], label: Some("init".to_string()) },
        ]
    );
    assert_eq!(space.transitions, vec![edge(1, 0, NO_TRANSITION)]);
    check_tables(&space);
}

#[test]
fn the_plain_constructors_start_empty() {
    let m = two_step();
    let blank = PrismVasModel::new();
    assert!(blank.states.is_empty() && blank.transitions.is_empty());
    assert!(blank.variable_names.is_empty());
    let mut named = PrismVasModel::from_abstract_model(&m);
    assert_eq!(named.variable_names, m.variable_names);
    assert!(named.states.is_empty());
    named.add_state(PrismVasState { state_id: 0, vector: vec![0, 0], label: None });
    named.add_transition(edge(0, 0, 5));
    assert_eq!(named.states.len(), 1);
    assert_eq!(named.transitions, vec![edge(0, 0, 5)]);
}

#[test]
fn a_trace_is_stored_state_by_state() {
    let m = two_step();
    let builder = RagtimerBuilder::new(&m);
    let mut space = builder.prepare();
    assert_eq!(builder.store_explicit_trace(&mut space, &vec![0, 0]), Ok(()));
    let vectors: Vec<Vec<i128>> = space.states.iter().map(|s| s.vector.clone()).collect();
    assert_eq!(vectors, vec![vec![-1, -1], vec![2, 0], vec![1, 1], vec![0, 2]]);
    assert_eq!(space.states[2].label, None);
    assert_eq!(space.states[3].label, Some("target".to_string()));
    assert_eq!(
        space.transitions,
        vec![
            edge(1, 0, NO_TRANSITION),
            edge(2, 0, NO_TRANSITION),
            edge(1, 2, 0),
            edge(3, 0, NO_TRANSITION),
            edge(2, 3, 0),
        ]
    );
    check_tables(&space);
    let states = space.states.len();
    let edges = space.transitions.len();
    assert_eq!(builder.store_explicit_trace(&mut space, &vec![0, 0]), Ok(()));
    assert_eq!(builder.store_explicit_trace(&mut space, &vec![0]), Ok(()));
    assert_eq!(space.states.len(), states);
    assert_eq!(space.transitions.len(), edges);
    assert!(space.edge_exists(1, 2));
    assert!(space.edge_exists(2, 0));
    assert!(!space.edge_exists(2, 1));
    assert!(!space.add_edge_once(1, 2, 9));
    assert_eq!(space.find_or_add_state(&vec![0, 2], None), (3, false));
}

#[test]
fn one_edge_per_pair_of_states() {
    let m = model(
        &[("A", 0)],
        &[("up", vec![1], vec![0]), ("also_up", vec![1], vec![0])],
        (0, 9),
    );
    let builder = RagtimerBuilder::new(&m);
    let mut space = builder.prepare();
    builder.store_explicit_trace(&mut space, &vec![0]).unwrap();
    builder.store_explicit_trace(&mut space, &vec![1]).unwrap();
    let joined: Vec<&PrismVasTransition> =
        space.transitions.iter().filter(|e| e.from_state == 1 && e.to_state == 2).collect();
    assert_eq!(joined.len(), 1);
    assert_eq!(joined[0].transition_id, 0);
    check_tables(&space);
}

#[test]
fn a_trace_stops_at_what_cannot_be_stored() {
    let m = two_step();
    let builder = RagtimerBuilder::new(&m);
    let mut space = builder.prepare();
    assert_eq!(
        builder.store_explicit_trace(&mut space, &vec![0, 7, 0]),
        Err(TraceError::UnknownTransition)
    );
    assert_eq!(space.states.len(), 3);
    // Without the check, a step below zero is stored like any other.
    assert_eq!(builder.store_explicit_trace(&mut space, &vec![0, 0, 0]), Ok(()));
    assert_eq!(space.states.last().unwrap().vector, vec![-1, 3]);
    let mut checked = builder.prepare();
    assert_eq!(
        walk_trace(&m, &mut checked, &vec![0, 0, 0], true),
        Err(TraceError::NegativeState)
    );
    assert_eq!(checked.states.len(), 4);
    let edgy = model(&[("A", i128::MAX)], &[("up", vec![1], vec![0])], (0, 0));
    let mut space = RagtimerBuilder::new(&edgy).prepare();
    assert_eq!(walk_trace(&edgy, &mut space, &vec![0], false), Err(TraceError::Overflow));
    check_tables(&space);
}

#[test]
fn offered_traces_are_stored_once() {
    let m = two_step();
    let builder = RagtimerBuilder::new(&m);
    let mut space = builder.prepare();
    let mut seen = TraceTrieNode::new();
    assert_eq!(builder.offer_trace(&mut seen, &mut space, &vec![]), TraceVerdict::RejectedEmpty);
    assert_eq!(builder.offer_trace(&mut seen, &mut space, &vec![0]), TraceVerdict::Stored);
    assert_eq!(space.states.len(), 3);
    assert_eq!(builder.offer_trace(&mut seen, &mut space, &vec![0]), TraceVerdict::RejectedKnown);
    // A trace that goes on from a stored trace is new.
    assert_eq!(builder.offer_trace(&mut seen, &mut space, &vec![0, 0]), TraceVerdict::Stored);
    assert_eq!(
        builder.offer_trace(&mut seen, &mut space, &vec![0, 0]),
        TraceVerdict::RejectedKnown
    );
    assert_eq!(space.states.len(), 4);
    assert_eq!(
        builder.offer_trace(&mut seen, &mut space, &vec![4]),
        TraceVerdict::Failed(TraceError::UnknownTransition)
    );
    // An empty trace is not recorded, so others are still new after it.
    let mut fresh = TraceTrieNode::new();
    assert_eq!(builder.offer_trace(&mut fresh, &mut space, &vec![]), TraceVerdict::RejectedEmpty);
    assert_eq!(builder.offer_trace(&mut fresh, &mut space, &vec![0, 0]), TraceVerdict::Stored);
    check_tables(&space);
}

#[test]
fn available_transitions_come_in_model_order() {
    let m = model(
        &[("A", 1), ("B", 0)],
        &[
            ("a", vec![0, 1], vec![1, 0]),
            ("b", vec![1, 0], vec![0, 1]),
            ("free", vec![1, 0], vec![0, 0]),
            ("two", vec![0, 0], vec![2, 0]),
        ],
        (1, 5),
    );
    let builder = RagtimerBuilder::new(&m);
    assert_eq!(builder.get_available_transitions(&vec![1, 0]), vec![0, 2]);
    assert_eq!(builder.get_available_transitions(&vec![2, 1]), vec![0, 1, 2, 3]);
    assert_eq!(builder.get_available_transitions(&vec![0, 0]), vec![2]);
}

#[test]
fn a_trace_is_generated_step_by_step() {
    let m = two_step();
    let builder = RagtimerBuilder::new(&m);
    let mut walk = builder.begin_trace(11);
    assert_eq!(walk.current_state, vec![2, 0]);
    assert!(walk.trace.is_empty());
    assert_eq!(builder.candidates(&mut walk), WalkStatus::Choose(vec![0]));
    assert_eq!(builder.fire(&mut walk, 0), Ok(()));
    assert_eq!(walk.current_state, vec![1, 1]);
    assert_eq!(builder.fire(&mut walk, 3), Err(TraceError::UnknownTransition));
    assert_eq!(walk.current_state, vec![1, 1]);
    assert_eq!(builder.fire(&mut walk, 0), Ok(()));
    assert_eq!(walk.trace, vec![0, 0]);
    assert_eq!(builder.candidates(&mut walk), WalkStatus::TargetReached);
    let stuck = model(&[("A", 0), ("B", 0)], &[("r1", vec![0, 1], vec![1, 0])], (1, 2));
    let builder = RagtimerBuilder::new(&stuck);
    let mut walk = builder.begin_trace(11);
    assert_eq!(builder.candidates(&mut walk), WalkStatus::Stuck);
    walk.trace = vec![0; MAX_TRACE_LENGTH];
    assert_eq!(builder.candidates(&mut walk), WalkStatus::LengthLimit);
    let _ = builder.random_bits(&mut walk);
}

#[test]
fn candidates_are_shuffled() {
    let transitions: Vec<(String, Vec<i128>, Vec<i128>)> =
        (0..8).map(|i| (format!("t{}", i), vec![1], vec![0])).collect();
    let borrowed: Vec<(&str, Vec<i128>, Vec<i128>)> =
        transitions.iter().map(|t| (t.0.as_str(), t.1.clone(), t.2.clone())).collect();
    let m = model(&[("A", 0)], &borrowed, (0, 100));
    let builder = RagtimerBuilder::new(&m);
    let in_order: Vec<usize> = (0..8).collect();
    let mut moved = false;
    for seed in 0..20 {
        let mut walk = builder.begin_trace(seed);
        match builder.candidates(&mut walk) {
            WalkStatus::Choose(ids) => {
                let mut sorted = ids.clone();
                sorted.sort();
                assert_eq!(sorted, in_order);
                moved = moved || ids != in_order;
            }
            other => panic!("{:?}", other),
        }
    }
    assert!(moved);
    let mut first = builder.begin_trace(5);
    let mut second = builder.begin_trace(5);
    assert_eq!(builder.candidates(&mut first), builder.candidates(&mut second));
    assert_eq!(builder.random_bits(&mut first), builder.random_bits(&mut second));
}

fn swap_model() -> AbstractVas {
    model(
        &[("X", 1), ("Y", 0)],
        &[("f", vec![0, 1], vec![1, 0]), ("g", vec![1, 0], vec![0, 1])],
        (1, 1),
    )
}

#[test]
fn cycles_are_fired_from_every_state() {
    let m = swap_model();
    let builder = RagtimerBuilder::new(&m);
    let mut space = builder.prepare();
    add_cycles(&m, &mut space, 2);
    // From {X:1,Y:0} the cycle can start with f only.
    let vectors: Vec<Vec<i128>> = space.states.iter().map(|s| s.vector.clone()).collect();
    assert_eq!(vectors, vec![vec![-1, -1], vec![1, 0], vec![0, 1]]);
    assert!(space.transitions.contains(&edge(1, 2, 0)));
    assert!(space.transitions.contains(&edge(2, 1, 1)));
    check_tables(&space);
    let edges = space.transitions.len();
    add_cycles(&m, &mut space, 2);
    assert_eq!(space.transitions.len(), edges);
    let mut none = builder.prepare();
    add_cycles(&m, &mut none, 1);
    assert_eq!(none.states.len(), 2);
}

#[test]
fn longer_cycles_need_a_longer_limit() {
    let m = model(
        &[("A", 1), ("B", 0), ("C", 0)],
        &[
            ("ab", vec![0, 1, 0], vec![1, 0, 0]),
            ("bc", vec![0, 0, 1], vec![0, 1, 0]),
            ("ca", vec![1, 0, 0], vec![0, 0, 1]),
        ],
        (2, 1),
    );
    let builder = RagtimerBuilder::new(&m);
    let mut short = builder.prepare();
    add_cycles(&m, &mut short, 2);
    assert_eq!(short.states.len(), 2);
    let mut long = builder.prepare();
    add_cycles(&m, &mut long, 3);
    let vectors: Vec<Vec<i128>> = long.states.iter().map(|s| s.vector.clone()).collect();
    assert_eq!(vectors, vec![vec![-1, -1, -1], vec![1, 0, 0], vec![0, 1, 0], vec![0, 0, 1]]);
    assert!(long.transitions.contains(&edge(3, 1, 2)));
    check_tables(&long);
}

#[test]
fn commute_goes_no_deeper_than_asked() {
    let m = model(
        &[("A", 1), ("B", 1), ("C", 0), ("D", 0)],
        &[("p", vec![0, 0, 1, 0], vec![1, 0, 0, 0]), ("q", vec![0, 0, 0, 1], vec![0, 1, 0, 0])],
        (2, 1),
    );
    let builder = RagtimerBuilder::new(&m);
    let mut space = builder.prepare();
    builder.store_explicit_trace(&mut space, &vec![0]).unwrap();
    let seeded = space.states.len();
    commute(&m, &mut space, &vec![0], 0, 0);
    assert_eq!(space.states.len(), seeded);
    commute(&m, &mut space, &vec![0], 2, 2);
    assert_eq!(space.states.len(), seeded);
    commute(&m, &mut space, &vec![0], 0, MAX_DEPTH);
    assert!(space.states.iter().any(|s| s.vector == vec![0, 0, 1, 1]));
    assert!(space.states.iter().any(|s| s.vector == vec![1, 0, 0, 1]));
    assert!(space.states.iter().all(|s| s.state_id == 0 || s.vector.iter().all(|v| *v >= 0)));
    check_tables(&space);
}

#[test]
fn cycle_commute_fails_on_the_first_bad_trace() {
    let m = swap_model();
    let named = |names: &[&str]| names.iter().map(|n| n.to_string()).collect::<Vec<String>>();
    assert_eq!(
        cycle_commute(&m, &vec![named(&["f"]), named(&["h"])]).err(),
        Some(TraceError::UnknownTransition)
    );
    assert_eq!(
        cycle_commute(&m, &vec![named(&["f", "f"])]).err(),
        Some(TraceError::NegativeState)
    );
    let (space, seeded) = cycle_commute(&m, &vec![]).unwrap();
    assert_eq!(seeded, 2);
    assert_eq!(space.states.len(), 3);
    assert_eq!(MAX_CYCLE_LENGTH, 2);
    check_tables(&space);
}

#[test]
fn traces_are_collected_until_enough_are_new() {
    let m = two_step();
    let script: Vec<Vec<usize>> =
        vec![vec![], vec![0], vec![0], vec![0, 0], vec![4], vec![], vec![4, 0], vec![0]];
    let told = std::cell::RefCell::new(Vec::new());
    let generate = |attempt: usize, stored: bool| -> Vec<usize> {
        told.borrow_mut().push(stored);
        script[attempt % script.len()].clone()
    };
    let mut builder = RagtimerBuilder::new(&m);
    let mut space = PrismVasModel::new();
    let (accepted, attempts) = builder.build(&mut space, 2, 100, &generate);
    // The empty trace and the repeat are passed over; the trace that goes
    // on from a trace taken in before is new.
    assert_eq!(accepted, vec![vec![0], vec![0, 0]]);
    assert_eq!(attempts, 4);
    assert_eq!(*told.borrow(), vec![false, false, true, false]);
    assert!(builder.finished());
    assert_eq!(space.states.len(), 4);
    check_tables(&space);
    let again = builder.build(&mut space, 2, 100, &generate);
    assert_eq!(again, (vec![], 0));
    assert_eq!(space.states.len(), 4);
    // A trace with an unknown transition is new and is taken in.
    let mut third = RagtimerBuilder::new(&m);
    let mut wide = PrismVasModel::new();
    let (accepted, attempts) = third.build(&mut wide, 3, 100, &generate);
    assert_eq!(accepted, vec![vec![0], vec![0, 0], vec![4]]);
    assert_eq!(attempts, 5);
    assert_eq!(wide.states.len(), 4);
    let mut short = RagtimerBuilder::new(&m);
    let mut other = PrismVasModel::new();
    let (accepted, attempts) = short.build(&mut other, 5, 3, &generate);
    assert_eq!(accepted, vec![vec![0]]);
    assert_eq!(attempts, 3);
    let mut direct = RagtimerBuilder::new(&m);
    let mut prepared = direct.prepare();
    let (accepted, _) = direct.add_rl_traces(&mut prepared, 1, 10, &|_, _| vec![0, 0]);
    assert_eq!(accepted, vec![vec![0, 0]]);
    assert_eq!(prepared.states.len(), 4);
    assert!(!direct.finished());
}

#[test]
fn a_whole_trace_is_generated_from_choices() {
    let m = model(
        &[("A", 2), ("B", 0)],
        &[("r1", vec![0, 1], vec![1, 0]), ("back", vec![1, 0], vec![0, 1])],
        (1, 2),
    );
    let builder = RagtimerBuilder::new(&m);
    // Always the forward transition, wherever it stands among the offers.
    let forward = |offers: &Vec<usize>, bits: &Vec<u64>| -> Option<usize> {
        assert_eq!(offers.len(), bits.len());
        offers.iter().position(|id| *id == 0)
    };
    assert_eq!(
        builder.generate_single_trace(3, 1000, &forward),
        (vec![0, 0], WalkEnd::TargetReached)
    );
    assert_eq!(builder.generate_single_trace(3, 1, &forward), (vec![0], WalkEnd::OutOfRounds));
    assert_eq!(builder.generate_single_trace(3, 0, &forward), (vec![], WalkEnd::OutOfRounds));
    let never = |_: &Vec<usize>, _: &Vec<u64>| -> Option<usize> { None };
    assert_eq!(builder.generate_single_trace(3, 50, &never), (vec![], WalkEnd::OutOfRounds));
    let outside = |offers: &Vec<usize>, _: &Vec<u64>| -> Option<usize> { Some(offers.len()) };
    assert_eq!(builder.generate_single_trace(3, 50, &outside), (vec![], WalkEnd::OutOfRounds));
    // Back and forth until the length limit.
    let swing = |offers: &Vec<usize>, _: &Vec<u64>| -> Option<usize> {
        if offers.contains(&1) {
            offers.iter().position(|id| *id == 1)
        } else {
            Some(0)
        }
    };
    let (trace, end) = builder.generate_single_trace(3, usize::MAX, &swing);
    assert_eq!(end, WalkEnd::LengthLimit);
    assert_eq!(trace.len(), MAX_TRACE_LENGTH);
    let dead = model(&[("A", 0), ("B", 0)], &[("r1", vec![0, 1], vec![1, 0])], (1, 2));
    assert_eq!(
        RagtimerBuilder::new(&dead).generate_single_trace(3, 50, &forward),
        (vec![], WalkEnd::Stuck)
    );
    let done = model(&[("A", 0), ("B", 2)], &[("r1", vec![0, 1], vec![1, 0])], (1, 2));
    assert_eq!(
        RagtimerBuilder::new(&done).generate_single_trace(3, 0, &forward),
        (vec![], WalkEnd::TargetReached)
    );
}
