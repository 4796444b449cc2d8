use vas_reach::model::explicit_model::{PrismVasModel, PrismVasState};
use vas_reach::model::vas_model::{
    same_text, AbstractVas, AllowedRelation, ModelType, VasProperty, VasState, VasTransition,
};
use vas_reach::model::vector::{checked_combine, copy_of, filled, meets, same_vector};

fn move_one() -> VasTransition {
    VasTransition::new(3, "move".to_string(), vec![0, 1], vec![1, 0], 2.5f64.to_bits())
}

fn small_model() -> AbstractVas {
    AbstractVas::new(
        vec!["A".to_string(), "B".to_string()],
        vec![VasState::new(vec![2, 0]), VasState::new(vec![0, 2])],
        vec![
            move_one(),
            VasTransition::new(7, "back".to_string(), vec![1, 0], vec![0, 1], 1.0f64.to_bits()),
        ],
        VasProperty { variable_index: 1, target_value: 2 },
    )
}

#[test]
fn a_transition_is_what_it_produces_less_what_it_consumes() {
    let t = move_one();
    assert_eq!(t.transition_id, 3);
    assert_eq!(t.transition_name, "move");
    assert_eq!(t.update_vector, vec![-1, 1]);
    assert_eq!(t.enabled_bounds, vec![1, 0]);
    assert_eq!(t.rate_const_bits, 2.5f64.to_bits());
    assert_eq!(t.duplicate(), t);
}

#[test]
fn a_transition_is_enabled_where_every_minimum_is_met() {
    let t = move_one();
    assert!(t.enabled(&VasState::new(vec![1, 0])));
    assert!(t.enabled(&VasState::new(vec![5, 3])));
    assert!(!t.enabled(&VasState::new(vec![5, -3])));
    assert!(!t.enabled(&VasState::new(vec![0, 9])));
    assert!(t.enabled_vector(&vec![1, 0]));
    assert!(!t.enabled_vector(&vec![0, 0]));
    // Positions past the end of the shorter vector are not looked at.
    assert!(t.enabled_vector(&vec![1]));
    assert!(t.enabled_vector(&vec![]));
}

#[test]
fn the_next_state_adds_the_update_where_the_transition_is_enabled() {
    let t = move_one();
    assert_eq!(t.next_state(&VasState::new(vec![2, 0])), Some(VasState::new(vec![1, 1])));
    assert_eq!(t.next_state(&VasState::new(vec![1, 7])), Some(VasState::new(vec![0, 8])));
    assert_eq!(t.next_state(&VasState::new(vec![0, 0])), None);
    assert_eq!(t.next_state(&VasState::new(vec![1, i128::MAX])), None);
}

#[test]
fn a_model_lists_its_transitions_and_initial_states() {
    let m = small_model();
    assert_eq!(m.transitions(), m.transitions);
    let initial = m.initial_states();
    assert_eq!(initial.len(), 2);
    assert_eq!(initial[0], (VasState::new(vec![2, 0]), 0));
    assert_eq!(initial[1], (VasState::new(vec![0, 2]), 1));
    assert_eq!(m.model_type(), ModelType::ContinuousTime);
    assert!(m.is_well_formed());
}

#[test]
fn transitions_are_found_by_id_and_by_name() {
    let m = small_model();
    assert_eq!(m.find_transition(7), 1);
    assert_eq!(m.find_transition(3), 0);
    assert_eq!(m.find_transition(0), 2);
    assert_eq!(m.find_transition_by_name("back"), 1);
    assert_eq!(m.find_transition_by_name("none"), 2);
    assert_eq!(m.get_transition_from_id(7).unwrap().transition_name, "back");
    assert!(m.get_transition_from_id(1).is_none());
    assert_eq!(m.get_transition_from_name("move").unwrap().transition_id, 3);
    assert!(m.get_transition_from_name("Move").is_none());
}

#[test]
fn a_model_with_a_short_vector_is_not_well_formed() {
    let mut m = small_model();
    m.transitions[1].enabled_bounds.pop();
    assert!(!m.is_well_formed());
    let mut m = small_model();
    m.initial_states[0].vector.push(1);
    assert!(!m.is_well_formed());
    let mut m = small_model();
    m.initial_states.clear();
    assert!(!m.is_well_formed());
}

#[test]
fn the_target_holds_where_its_variable_has_its_value() {
    let p = VasProperty { variable_index: 1, target_value: 2 };
    assert!(p.satisfied_by(&vec![0, 2]));
    assert!(!p.satisfied_by(&vec![2, 0]));
    assert!(!p.satisfied_by(&vec![2]));
}

#[test]
fn relations_have_their_symbols() {
    assert_eq!(AllowedRelation::Equal.symbol(), '=');
    assert_eq!(AllowedRelation::LessThan.symbol(), '<');
    assert_eq!(AllowedRelation::GreaterThan.symbol(), '>');
}

#[test]
fn vectors_are_combined_component_by_component() {
    assert_eq!(checked_combine(&vec![1, 2, 3], &vec![1, 0, -1], 4), Some(vec![5, 2, -1]));
    assert_eq!(checked_combine(&vec![], &vec![], 4), Some(vec![]));
    assert_eq!(checked_combine(&vec![i128::MAX], &vec![1], 1), None);
    assert_eq!(checked_combine(&vec![0], &vec![i128::MAX], 2), None);
    assert_eq!(checked_combine(&vec![i128::MIN], &vec![1], 1), Some(vec![i128::MIN + 1]));
    assert_eq!(filled(3, -1), vec![-1, -1, -1]);
    assert_eq!(filled(0, 9), Vec::<i128>::new());
    assert_eq!(copy_of(&vec![4, 5]), vec![4, 5]);
    assert!(same_vector(&vec![4, 5], &vec![4, 5]));
    assert!(!same_vector(&vec![4, 5], &vec![4, 6]));
    assert!(!same_vector(&vec![4, 5], &vec![4]));
    assert!(meets(&vec![1, 1], &vec![1, 2]));
    assert!(!meets(&vec![1, 3], &vec![1, 2]));
    assert!(same_text("abc", "abc"));
    assert!(!same_text("abc", "abd"));
}

#[test]
fn an_empty_state_space_has_nothing() {
    let space = PrismVasModel::new();
    assert!(space.is_empty());
    assert!(space.variable_names.is_empty());
    assert_eq!(space.m_type, ModelType::ContinuousTime);
    let other = PrismVasModel::default();
    assert!(other.is_empty());
    assert!(other.transition_map.is_empty());
    let mut discrete = small_model();
    discrete.m_type = ModelType::DiscreteTime;
    let from = PrismVasModel::from_abstract_model(&discrete);
    assert!(from.is_empty());
    assert_eq!(from.variable_names, vec!["A", "B"]);
    assert_eq!(from.m_type, ModelType::DiscreteTime);
}

#[test]
fn states_are_looked_up_in_table_order() {
    let mut space = PrismVasModel::from_abstract_model(&small_model());
    space.initialize(&vec![2, 0]);
    assert!(!space.is_empty());
    assert_eq!(space.state_to_index(&VasState::new(vec![2, 0])), Some(1));
    assert_eq!(space.state_to_index(&VasState::new(vec![-1, -1])), Some(0));
    assert_eq!(space.state_to_index(&VasState::new(vec![1, 1])), None);
    assert!(space.has_state(&VasState::new(vec![2, 0])));
    assert!(!space.has_state(&VasState::new(vec![1, 1])));
    assert_eq!(space.find_or_add_index(&VasState::new(vec![2, 0])), 1);
    assert_eq!(space.states.len(), 2);
    assert_eq!(space.find_or_add_index(&VasState::new(vec![1, 1])), 2);
    assert_eq!(
        space.states[2],
        PrismVasState { state_id: 2, vector: vec![1, 1], label: None }
    );
    assert_eq!(space.transitions.len(), 1);
    assert_eq!(space.find_or_add_index(&VasState::new(vec![1, 1])), 2);
    assert_eq!(space.states.len(), 3);
}

#[test]
fn the_first_of_two_states_with_one_vector_is_found() {
    let mut space = PrismVasModel::new();
    space.add_state(PrismVasState { state_id: 4, vector: vec![7], label: None });
    space.add_state(PrismVasState { state_id: 9, vector: vec![7], label: None });
    assert_eq!(space.state_to_index(&VasState::new(vec![7])), Some(4));
}
