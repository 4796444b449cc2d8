use vas_reach::model::vas_model::{ModelType, VasProperty};
use vas_reach::parser::vas_file_reader::{
    build_model, build_property, ModelParseError, ModelParseErrorType,
};
use vas_reach::parser::words::{parse_value, separates, split_words};

fn rate(word: &str) -> Option<u64> {
    word.parse::<f64>().ok().map(|x| x.to_bits())
}

fn lines(text: &[&str]) -> Vec<String> {
    text.iter().map(|l| l.to_string()).collect()
}

fn error_of(text: &[&str]) -> ModelParseError {
    build_model(&lines(text), &rate).unwrap_err()
}

#[test]
fn words_are_the_stretches_between_separators() {
    assert_eq!(split_words("  consume\tA  2 "), vec!["consume", "A", "2"]);
    assert_eq!(split_words(""), Vec::<String>::new());
    assert_eq!(split_words(" \t "), Vec::<String>::new());
    assert_eq!(split_words("one"), vec!["one"]);
    assert_eq!(split_words("α β"), vec!["α", "β"]);
    assert!(separates(' ') && separates('\t') && separates('\r') && separates('\n'));
    assert!(!separates('a') && !separates('='));
}

#[test]
fn white_space_is_what_unicode_calls_so() {
    let mut c = '\0';
    loop {
        assert_eq!(separates(c), c.is_whitespace(), "at {:?}", c);
        if c == char::MAX {
            break;
        }
        c = char::from_u32(c as u32 + 1).unwrap_or('\u{e000}');
    }
    assert_eq!(split_words("consume\u{a0}A\u{2003}2\u{3000}"), vec!["consume", "A", "2"]);
    assert_eq!(split_words("a\u{200b}b"), vec!["a\u{200b}b"]);
}

#[test]
fn numbers_are_signed_decimals_that_fit() {
    assert_eq!(parse_value("0"), Some(0));
    assert_eq!(parse_value("42"), Some(42));
    assert_eq!(parse_value("+42"), Some(42));
    assert_eq!(parse_value("-42"), Some(-42));
    assert_eq!(parse_value("007"), Some(7));
    assert_eq!(parse_value("170141183460469231731687303715884105727"), Some(i128::MAX));
    assert_eq!(parse_value("-170141183460469231731687303715884105728"), Some(i128::MIN));
    assert_eq!(parse_value("170141183460469231731687303715884105728"), None);
    assert_eq!(parse_value("-170141183460469231731687303715884105729"), None);
    assert_eq!(parse_value("9999999999999999999999999999999999999999999"), None);
    assert_eq!(parse_value(""), None);
    assert_eq!(parse_value("-"), None);
    assert_eq!(parse_value("+"), None);
    assert_eq!(parse_value("1.0"), None);
    assert_eq!(parse_value("--1"), None);
    assert_eq!(parse_value("1a"), None);
    assert_eq!(parse_value("١"), None);
    for word in ["0", "-1", "+5", "12x", "", "-", "340282366920938463463374607431768211456"] {
        assert_eq!(parse_value(word), word.parse::<i128>().ok());
    }
}

#[test]
fn a_model_file_is_read() {
    let m = build_model(
        &lines(&[
            "species A init 2",
            "var B",
            "",
            "reaction r1",
            "consume A",
            "produce B",
            "rate 1.0",
            "transition r2",
            "increase A 2",
            "decrement B 3",
            "const 0.5",
            "target B = 2",
        ]),
        &rate,
    )
    .unwrap();
    assert_eq!(m.variable_names, vec!["A".to_string(), "B".to_string()]);
    assert_eq!(m.initial_states.len(), 1);
    assert_eq!(m.initial_states[0].vector, vec![2, 0]);
    assert_eq!(m.m_type, ModelType::ContinuousTime);
    assert_eq!(m.target, VasProperty { variable_index: 1, target_value: 2 });
    assert_eq!(m.transitions.len(), 2);
    let r1 = &m.transitions[0];
    assert_eq!(r1.transition_id, 0);
    assert_eq!(r1.transition_name, "r1");
    assert_eq!(r1.update_vector, vec![-1, 1]);
    assert_eq!(r1.enabled_bounds, vec![1, 0]);
    assert_eq!(r1.rate_const_bits, 1.0f64.to_bits());
    let r2 = &m.transitions[1];
    assert_eq!(r2.transition_id, 1);
    assert_eq!(r2.transition_name, "r2");
    assert_eq!(r2.update_vector, vec![2, -3]);
    assert_eq!(r2.enabled_bounds, vec![0, 3]);
    assert_eq!(r2.rate_const_bits, 0.5f64.to_bits());
    assert!(m.is_well_formed());
}

#[test]
fn a_file_without_transitions_gives_a_model_without_transitions() {
    let m = build_model(&lines(&["species A init 5", "target A = 5"]), &rate).unwrap();
    assert_eq!(m.variable_names, vec!["A"]);
    assert_eq!(m.initial_states.len(), 1);
    assert_eq!(m.initial_states[0].vector, vec![5]);
    assert_eq!(m.target, VasProperty { variable_index: 0, target_value: 5 });
    assert!(m.transitions.is_empty());
    assert!(m.is_well_formed());
    let other = build_model(&lines(&["variable A initial 1", "goal A = 3"]), &rate).unwrap();
    assert!(other.transitions.is_empty());
}

#[test]
fn the_last_transition_of_a_file_is_read_like_the_others() {
    let m = build_model(
        &lines(&["species A", "reaction r", "consume A", "reaction s", "produce A", "check A = 1"]),
        &rate,
    )
    .unwrap();
    assert_eq!(m.transitions.len(), 2);
    assert_eq!(m.transitions[0].transition_name, "r");
    assert_eq!(m.transitions[1].transition_name, "s");
    assert_eq!(m.transitions[1].transition_id, 1);
    assert_eq!(m.transitions[1].update_vector, vec![1]);
}

#[test]
fn an_amount_is_set_once_for_a_variable_whatever_it_is() {
    let twice = error_of(&["species A", "reaction r", "consume A 0", "consume A 2", "check A = 1"]);
    assert_eq!(twice.line, 3);
    assert_eq!(
        twice.etype,
        ModelParseErrorType::GeneralParseError(
            "Model parsing error: variable A decreases by multiple declared values in the same transition."
                .to_string()
        )
    );
    let again = error_of(&["species A", "reaction r", "produce A 0", "produce A 0", "check A = 1"]);
    assert_eq!(again.line, 3);
    assert_eq!(
        again.etype,
        ModelParseErrorType::GeneralParseError(
            "Model parsing error: variable A increases by multiple declared values in the same transition."
                .to_string()
        )
    );
    // One amount consumed and one produced of the same variable are no
    // duplicates, nor is the same variable in another transition.
    let m = build_model(
        &lines(&[
            "species A",
            "reaction r",
            "consume A 0",
            "produce A 2",
            "reaction s",
            "consume A 1",
            "check A = 1",
        ]),
        &rate,
    )
    .unwrap();
    assert_eq!(m.transitions[0].update_vector, vec![2]);
    assert_eq!(m.transitions[0].enabled_bounds, vec![0]);
    assert_eq!(m.transitions[1].enabled_bounds, vec![1]);
}

#[test]
fn unknown_first_word_names_the_line() {
    let e = error_of(&["species A", "target A = 1", "", "bogus line here"]);
    assert_eq!(e.line(), (3, "Unexpexted token: `bogus line here`.".to_string()));
    assert_eq!(e.column(), None);
    assert_eq!(
        e.etype,
        ModelParseErrorType::UnexpextedTokenError("bogus line here".to_string())
    );
    let blank = error_of(&["species A", "   "]);
    assert_eq!(blank.line, 1);
    assert_eq!(blank.etype, ModelParseErrorType::UnexpextedTokenError("   ".to_string()));
}

#[test]
fn variable_errors() {
    let e = error_of(&["species A init x"]);
    assert_eq!(e.etype, ModelParseErrorType::InvalidInitialVariableCount("x".to_string()));
    assert_eq!(e.line, 0);
    let e = error_of(&["target A = 1", "species A start 3"]);
    assert_eq!(e.etype, ModelParseErrorType::InitUnspecified("A".to_string()));
    assert_eq!(e.line, 1);
    let e = error_of(&["species"]);
    assert_eq!(e.etype, ModelParseErrorType::UnexpextedTokenError("species".to_string()));
    let e = error_of(&["species A init"]);
    assert_eq!(e.etype, ModelParseErrorType::UnexpextedTokenError("species A init".to_string()));
}

#[test]
fn target_errors() {
    let message = "Model parsing error: property must be a single line.".to_string();
    let e = error_of(&["species A"]);
    assert_eq!(e.line, 0);
    assert_eq!(e.etype, ModelParseErrorType::GeneralParseError(message.clone()));
    let e = error_of(&["species A", "target A = 1", "goal A = 2"]);
    assert_eq!(e.etype, ModelParseErrorType::GeneralParseError(message));
    let e = error_of(&["species A", "target B = 1"]);
    assert_eq!(e.line, 1);
    assert_eq!(e.etype, ModelParseErrorType::UnspecifiedVariableError("B".to_string()));
    let e = error_of(&["species A", "target"]);
    assert_eq!(e.etype, ModelParseErrorType::UnspecifiedVariableError("".to_string()));
    let e = error_of(&["species A", "target A = x"]);
    assert_eq!(e.etype, ModelParseErrorType::ExpectedInteger("=".to_string()));
    let e = error_of(&["species A", "target A = 1 2"]);
    assert_eq!(e.etype, ModelParseErrorType::UnexpextedTokenError("target A = 1 2".to_string()));
}

#[test]
fn transition_errors() {
    let head = ["species A", "target A = 1"];
    let with = |rest: &[&str]| {
        let mut all = head.to_vec();
        all.extend_from_slice(rest);
        error_of(&all)
    };
    let e = with(&["reaction"]);
    assert_eq!(e.line, 2);
    assert_eq!(e.etype, ModelParseErrorType::UnexpextedTokenError("reaction".to_string()));
    let e = with(&["reaction r", "consume C"]);
    assert_eq!(e.line, 3);
    assert_eq!(e.etype, ModelParseErrorType::UnspecifiedVariableError("C".to_string()));
    let e = with(&["reaction r", "consume A -1"]);
    assert_eq!(e.etype, ModelParseErrorType::UnexpextedTokenError("consume A -1".to_string()));
    let e = with(&["reaction r", "produce A x"]);
    assert_eq!(e.etype, ModelParseErrorType::UnexpextedTokenError("produce A x".to_string()));
    let e = with(&["reaction r", "produce A 1 2"]);
    assert_eq!(e.etype, ModelParseErrorType::UnexpextedTokenError("produce A 1 2".to_string()));
    let e = with(&["reaction r", "consume A 2", "consume A 3"]);
    assert_eq!(e.line, 4);
    assert_eq!(
        e.etype,
        ModelParseErrorType::GeneralParseError(
            "Model parsing error: variable A decreases by multiple declared values in the same transition."
                .to_string()
        )
    );
    let e = with(&["reaction r", "produce A", "increment A"]);
    assert_eq!(
        e.etype,
        ModelParseErrorType::GeneralParseError(
            "Model parsing error: variable A increases by multiple declared values in the same transition."
                .to_string()
        )
    );
    let e = with(&["reaction r", "rate fast"]);
    assert_eq!(e.etype, ModelParseErrorType::ExpectedFloat("fast".to_string()));
    let e = with(&["reaction r", "rate 1 2"]);
    assert_eq!(e.etype, ModelParseErrorType::UnexpextedTokenError("rate 1 2".to_string()));
}

#[test]
fn sorting_errors_come_before_all_others() {
    let e = error_of(&["species A init x", "what"]);
    assert_eq!(e.line, 1);
    assert_eq!(e.etype, ModelParseErrorType::UnexpextedTokenError("what".to_string()));
    let e = error_of(&["reaction r", "rate fast", "species A init x"]);
    assert_eq!(e.etype, ModelParseErrorType::InvalidInitialVariableCount("x".to_string()));
}

#[test]
fn property_alone() {
    let all = lines(&["target B = 7"]);
    let names = vec!["A".to_string(), "B".to_string()];
    let p = build_property(&all, &vec![0], &names).unwrap();
    assert_eq!(p, VasProperty { variable_index: 1, target_value: 7 });
    assert!(build_property(&all, &vec![], &names).is_err());
}

#[test]
fn errors_are_built_by_kind() {
    let e = ModelParseError::expected_float(4, "x");
    assert_eq!(e.line, 4);
    assert_eq!(e.etype, ModelParseErrorType::ExpectedFloat("x".to_string()));
    assert_eq!(
        ModelParseError::invalid_init(1, "two").etype,
        ModelParseErrorType::InvalidInitialVariableCount("two".to_string())
    );
    assert_eq!(
        ModelParseError::init_unspecified(2, "A").etype,
        ModelParseErrorType::InitUnspecified("A".to_string())
    );
    assert_eq!(
        ModelParseError::unexpected_token(3, "?").etype,
        ModelParseErrorType::UnexpextedTokenError("?".to_string())
    );
    assert_eq!(
        ModelParseError::expected_integer(5, "1.5").etype,
        ModelParseErrorType::ExpectedInteger("1.5".to_string())
    );
    assert_eq!(
        ModelParseError::unspecified_transition(6, "r").etype,
        ModelParseErrorType::UnspecifiedTransitionError("r".to_string())
    );
    assert_eq!(
        ModelParseError::unspecified_variable(7, "Z").etype,
        ModelParseErrorType::UnspecifiedVariableError("Z".to_string())
    );
    assert_eq!(
        ModelParseError::general(8, "no").etype,
        ModelParseErrorType::GeneralParseError("no".to_string())
    );
    assert_eq!(ModelParseError::general(8, "no").line, 8);
}

#[test]
fn every_kind_of_error_has_its_message() {
    let text = |e: ModelParseError| e.etype.to_string();
    assert_eq!(text(ModelParseError::invalid_init(0, "two")), "Invalid initial count: `two`.");
    assert_eq!(
        text(ModelParseError::init_unspecified(0, "A")),
        "The initial value for `A` is unspecified."
    );
    assert_eq!(text(ModelParseError::unexpected_token(0, "?")), "Unexpexted token: `?`.");
    assert_eq!(text(ModelParseError::expected_integer(0, "1.5")), "Expected integer, got `1.5`.");
    assert_eq!(text(ModelParseError::expected_float(0, "x")), "Expected float, got `x`.");
    assert_eq!(text(ModelParseError::unspecified_transition(0, "r")), "Unspecified transition: `r`.");
    assert_eq!(text(ModelParseError::unspecified_variable(0, "Z")), "Unspecified variable: `Z`");
    assert_eq!(text(ModelParseError::general(0, "no")), "General Parse Error: no");
    assert_eq!(ModelParseError::general(9, "no").line(), (9, "General Parse Error: no".to_string()));
}
