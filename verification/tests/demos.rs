use vas_reach::bmc::formula::{Formula, Term};
use vas_reach::bmc::vas_bmc::{BmcFailure, NUM_BITS};
use vas_reach::builder::ragtimer::TraceError;
use vas_reach::demos::bmc_demo::bmc_demo;
use vas_reach::demos::cycle_commute_demo::{cycle_commute_demo, DemoFailure};
use vas_reach::dependency::graph::DependencyGraphError;
use vas_reach::model::vas_model::{AbstractVas, VasProperty, VasState, VasTransition};
use vas_reach::parser::vas_file_reader::ModelParseErrorType;

fn rate(word: &str) -> Option<u64> {
    word.parse::<f64>().ok().map(|x| x.to_bits())
}

fn lines(text: &[&str]) -> Vec<String> {
    text.iter().map(|l| l.to_string()).collect()
}

fn trace(names: &[&str]) -> Vec<String> {
    names.iter().map(|n| n.to_string()).collect()
}

fn two_to_b() -> AbstractVas {
    AbstractVas::new(
        vec!["A".to_string(), "B".to_string()],
        vec![VasState::new(vec![2, 0])],
        vec![VasTransition::new(0, "r1".to_string(), vec![0, 1], vec![1, 0], 1.0f64.to_bits())],
        VasProperty { variable_index: 1, target_value: 2 },
    )
}

fn max_time(term: &Term) -> u32 {
    match term {
        Term::At(_, t) => *t,
        Term::Add(a, b) | Term::Sub(a, b) => max_time(a).max(max_time(b)),
        _ => 0,
    }
}

fn horizon(f: &Formula) -> u32 {
    match f {
        Formula::True | Formula::False => 0,
        Formula::Eq(a, b) | Formula::Uge(a, b) | Formula::Ule(a, b) => max_time(a).max(max_time(b)),
        Formula::And(a, b) | Formula::Or(a, b) => horizon(a).max(horizon(b)),
    }
}

fn value(term: &Term, at: &Vec<Vec<i128>>, bits: u32) -> i128 {
    let modulus: i128 = 1 << bits;
    match term {
        Term::Current(_) | Term::Next(_) => panic!("a query is about numbered times only"),
        Term::At(i, t) => at[*t as usize][*i],
        Term::Const(c) => c.rem_euclid(modulus),
        Term::Add(a, b) => (value(a, at, bits) + value(b, at, bits)).rem_euclid(modulus),
        Term::Sub(a, b) => (value(a, at, bits) - value(b, at, bits)).rem_euclid(modulus),
    }
}

fn holds(f: &Formula, at: &Vec<Vec<i128>>, bits: u32) -> bool {
    match f {
        Formula::True => true,
        Formula::False => false,
        Formula::Eq(a, b) => value(a, at, bits) == value(b, at, bits),
        Formula::Uge(a, b) => value(a, at, bits) >= value(b, at, bits),
        Formula::Ule(a, b) => value(a, at, bits) <= value(b, at, bits),
        Formula::And(a, b) => holds(a, at, bits) && holds(b, at, bits),
        Formula::Or(a, b) => holds(a, at, bits) || holds(b, at, bits),
    }
}

/// Decides a query by trying every sequence of transitions of the length
/// that the query looks at, each from the initial state.
fn satisfiable(model: &AbstractVas, f: &Formula, bits: u32) -> bool {
    let steps = horizon(f) as usize;
    let modulus: i128 = 1 << bits;
    let start: Vec<i128> =
        model.initial_states[0].vector.iter().map(|v| v.rem_euclid(modulus)).collect();
    let mut runs: Vec<Vec<Vec<i128>>> = vec![vec![start]];
    for _ in 0..steps {
        let mut longer = Vec::new();
        for run in &runs {
            for t in &model.transitions {
                let last = run.last().unwrap();
                let next: Vec<i128> = last
                    .iter()
                    .zip(t.update_vector.iter())
                    .map(|(v, u)| (v + u).rem_euclid(modulus))
                    .collect();
                let mut extended = run.clone();
                extended.push(next);
                longer.push(extended);
            }
        }
        runs = longer;
    }
    runs.iter().any(|run| holds(f, run, bits))
}

#[test]
fn the_bounding_demonstration_bounds_the_model_and_its_trimming() {
    let m = two_to_b();
    let solver = |f: &Formula| satisfiable(&m, f, NUM_BITS);
    let found = bmc_demo(&m, &solver).unwrap();
    assert_eq!(found.graph.root.executions, 2);
    assert_eq!(found.graph.root.children.len(), 1);
    assert_eq!(found.trimmed_model, m);
    let bounds = found.bounds.unwrap();
    assert_eq!(bounds.lb_loose, vec![0, 0]);
    assert_eq!(bounds.lb_tight, vec![0, 0]);
    assert_eq!(bounds.ub_tight, vec![2, 2]);
    assert_eq!(bounds.ub_loose, vec![2, 2]);
    assert_eq!(found.trimmed_bounds, Some(Ok(bounds)));
}

#[test]
fn the_bounding_demonstration_stops_without_a_graph() {
    let m = AbstractVas::new(
        vec!["A".to_string()],
        vec![VasState::new(vec![5])],
        vec![],
        VasProperty { variable_index: 0, target_value: 5 },
    );
    let solver = |f: &Formula| satisfiable(&m, f, NUM_BITS);
    assert_eq!(bmc_demo(&m, &solver).err(), Some(DependencyGraphError::InitiallySatisfied));
}

#[test]
fn the_bounding_demonstration_leaves_an_empty_trimming_unbounded() {
    // Nothing produces B, so the graph uses no transition and the trimmed
    // model keeps no variable.
    let m = AbstractVas::new(
        vec!["A".to_string(), "B".to_string()],
        vec![VasState::new(vec![1, 0])],
        vec![VasTransition::new(0, "eat".to_string(), vec![0, 0], vec![1, 0], 1.0f64.to_bits())],
        VasProperty { variable_index: 1, target_value: 1 },
    );
    let never = |_: &Formula| false;
    let found = bmc_demo(&m, &never).unwrap();
    assert!(found.graph.root.children.is_empty());
    assert!(found.trimmed_model.variable_names.is_empty());
    assert!(found.trimmed_model.transitions.is_empty());
    assert_eq!(found.bounds, Err(BmcFailure::NoTargetWithinSteps));
    assert_eq!(found.trimmed_bounds, None);
}

#[test]
fn the_cycle_commute_demonstration_reads_the_model_and_builds_the_space() {
    let text = lines(&[
        "species X init 1",
        "species Y init 0",
        "reaction f",
        "consume X 1",
        "produce Y 1",
        "rate 1.0",
        "reaction g",
        "consume Y 1",
        "produce X 1",
        "rate 2.0",
        "check Y = 1",
    ]);
    let found = cycle_commute_demo(&text, &rate, &vec![trace(&["f"])]).unwrap();
    assert_eq!(found.model.variable_names, vec!["X", "Y"]);
    assert_eq!(found.model.transitions.len(), 2);
    assert_eq!(found.space.states[1].vector, vec![1, 0]);
    let after_f = found.space.states.iter().find(|s| s.vector == vec![0, 1]).unwrap().state_id;
    assert!(after_f >= 2 && after_f < found.seeded);
    assert!(found
        .space
        .transitions
        .iter()
        .any(|e| e.from_state == after_f && e.to_state == 1 && e.transition_id == 1));
}

#[test]
fn the_cycle_commute_demonstration_hands_on_both_kinds_of_failure() {
    let broken = lines(&["species X init 1", "nonsense"]);
    match cycle_commute_demo(&broken, &rate, &vec![trace(&["f"])]) {
        Err(DemoFailure::Model(e)) => {
            assert_eq!(e.line, 1);
            assert_eq!(e.etype, ModelParseErrorType::UnexpextedTokenError("nonsense".to_string()));
        }
        _ => panic!("the model has a line that declares nothing"),
    }
    let text = lines(&[
        "species X init 1",
        "reaction f",
        "consume X 1",
        "rate 1.0",
        "check X = 0",
    ]);
    match cycle_commute_demo(&text, &rate, &vec![trace(&["h"])]) {
        Err(DemoFailure::Trace(e)) => assert_eq!(e, TraceError::UnknownTransition),
        _ => panic!("the trace names no transition of the model"),
    }
    match cycle_commute_demo(&text, &rate, &vec![trace(&["f", "f"])]) {
        Err(DemoFailure::Trace(e)) => assert_eq!(e, TraceError::NegativeState),
        _ => panic!("the second step takes X below zero"),
    }
}
