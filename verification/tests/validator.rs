use vas_reach::model::vas_model::{AbstractVas, VasProperty, VasState, VasTransition};
use vas_reach::validator::vas_validator::{
    check_sck_assumption, check_variable_names, initial_state_neq_target, repeated_variables,
    unnamed_variables, validate_vas, validate_vas_property, ValidationReport,
};

fn names(all: &[&str]) -> Vec<String> {
    all.iter().map(|n| n.to_string()).collect()
}

fn model(variable_names: &[&str], init: Vec<i128>, updates: &[Vec<i128>]) -> AbstractVas {
    let n = variable_names.len();
    let ts = updates
        .iter()
        .enumerate()
        .map(|(id, u)| VasTransition {
            transition_id: id,
            transition_name: format!("t{}", id),
            update_vector: u.clone(),
            enabled_bounds: vec![0; n],
            rate_const_bits: 0,
        })
        .collect();
    AbstractVas::new(
        names(variable_names),
        vec![VasState::new(init)],
        ts,
        VasProperty { variable_index: 0, target_value: 1 },
    )
}

#[test]
fn unnamed_and_repeated_variables_are_listed() {
    let all = names(&["A", "", "A", "B", ""]);
    assert_eq!(unnamed_variables(&all), vec![1, 4]);
    assert_eq!(repeated_variables(&all), vec![2, 4]);
    assert!(unnamed_variables(&names(&["A", "B"])).is_empty());
    assert!(repeated_variables(&names(&["A", "B"])).is_empty());
}

#[test]
fn a_sound_model_passes_every_check() {
    let m = model(&["A", "B"], vec![0, 0], &[vec![1, -1], vec![2, 1], vec![-2, -1]]);
    let report = validate_vas(&m, &m.target);
    assert_eq!(
        report,
        ValidationReport {
            unnamed: vec![],
            repeated: vec![],
            initially_satisfied: false,
            large_total: vec![],
            large_single: vec![],
        }
    );
    assert_eq!(m.validate_model(m.target), report);
}

#[test]
fn large_updates_are_listed() {
    let m = model(
        &["A", "B"],
        vec![1, 0],
        &[vec![2, 2], vec![3, -3], vec![-4, 0], vec![2, 1], vec![i128::MAX, 1]],
    );
    let report = validate_vas(&m, &m.target);
    assert!(report.initially_satisfied);
    assert_eq!(report.large_total, vec![0, 2, 4]);
    assert_eq!(report.large_single, vec![1, 4]);
}

#[test]
fn a_target_outside_the_state_is_not_satisfied() {
    let m = model(&["A"], vec![1], &[]);
    let report = validate_vas(&m, &VasProperty { variable_index: 3, target_value: 1 });
    assert!(!report.initially_satisfied);
}

#[test]
fn the_checks_of_the_names_come_together() {
    let all = names(&["A", "", "A", "B", ""]);
    assert_eq!(check_variable_names(&all), (vec![1, 4], vec![2, 4]));
    assert_eq!(check_variable_names(&names(&["A", "B"])), (vec![], vec![]));
    assert_eq!(check_variable_names(&names(&[])), (vec![], vec![]));
}

#[test]
fn the_initial_state_is_held_against_the_target() {
    let target = VasProperty { variable_index: 1, target_value: 4 };
    assert!(initial_state_neq_target(&vec![4, 0], &target));
    assert!(!initial_state_neq_target(&vec![0, 4], &target));
    assert!(initial_state_neq_target(&vec![4], &target));
}

#[test]
fn large_updates_are_listed_by_transition() {
    let t = |id: usize, increment: Vec<i128>, decrement: Vec<i128>| {
        VasTransition::new(id, format!("t{}", id), increment, decrement, 1.0f64.to_bits())
    };
    let all = vec![
        t(0, vec![1, 1, 1], vec![0, 0, 0]),
        t(1, vec![2, 2, 0], vec![0, 0, 0]),
        t(2, vec![3, 0, 0], vec![0, 0, 3]),
        t(3, vec![0, 0, 0], vec![2, 2, 0]),
        t(4, vec![0, 0, 0], vec![0, 0, 3]),
    ];
    // Totals: 3, 4, 0, -4, -3. Largest single rises: 1, 2, 3, -2, -3.
    assert_eq!(check_sck_assumption(&all), (vec![1, 3], vec![2]));
    assert_eq!(check_sck_assumption(&vec![]), (vec![], vec![]));
}

#[test]
fn a_property_alone_passes() {
    let target = VasProperty { variable_index: 9, target_value: -4 };
    assert_eq!(validate_vas_property(target), Ok("Property validation successful".to_string()));
}
