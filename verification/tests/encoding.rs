use vas_reach::bmc::encoding::BMCEncoding;
use vas_reach::bmc::formula::{Formula, Term};
use vas_reach::bmc::unroller::Unroller;
use vas_reach::bmc::vas_bmc::{BmcFailure, MAX_BMC_STEPS, NUM_BITS};
use vas_reach::model::vas_model::{AbstractVas, VasProperty, VasState, VasTransition};

fn model(init: Vec<i128>, transitions: &[(Vec<i128>, Vec<i128>)], target: (usize, i128)) -> AbstractVas {
    let names = (0..init.len()).map(|i| format!("v{}", i)).collect();
    let ts = transitions
        .iter()
        .enumerate()
        .map(|(id, t)| VasTransition::new(id, format!("t{}", id), t.0.clone(), t.1.clone(), 0))
        .collect();
    AbstractVas::new(
        names,
        vec![VasState::new(init)],
        ts,
        VasProperty { variable_index: target.0, target_value: target.1 },
    )
}

fn and(a: Formula, b: Formula) -> Formula {
    Formula::And(Box::new(a), Box::new(b))
}

fn or(a: Formula, b: Formula) -> Formula {
    Formula::Or(Box::new(a), Box::new(b))
}

fn text(f: &Formula) -> String {
    format!("{:?}", f)
}

#[test]
fn constants() {
    assert_eq!(NUM_BITS, 9);
    assert_eq!(MAX_BMC_STEPS, 1000);
}

#[test]
fn encoding_of_consume_and_produce() {
    let m = model(vec![2, 0], &[(vec![0, 1], vec![1, 0])], (1, 2));
    assert!(m.is_encodable());
    let e = BMCEncoding::from_vas(&m);
    let init = and(
        and(Formula::True, Formula::Eq(Term::Current(0), Term::Const(2))),
        Formula::Eq(Term::Current(1), Term::Const(0)),
    );
    assert_eq!(text(&e.init_formula), text(&init));
    assert_eq!(text(&e.target_formula), text(&Formula::Eq(Term::Current(1), Term::Const(2))));
    let step = and(
        and(
            and(Formula::True, Formula::Uge(Term::Current(0), Term::Const(1))),
            Formula::Eq(
                Term::Next(0),
                Term::Sub(Box::new(Term::Current(0)), Box::new(Term::Const(1))),
            ),
        ),
        Formula::Eq(Term::Next(1), Term::Add(Box::new(Term::Current(1)), Box::new(Term::Const(1)))),
    );
    assert_eq!(text(&e.transition_formula), text(&or(Formula::False, step)));
    assert_eq!(e.unroller, Unroller::new(2));
}

#[test]
fn a_transition_that_does_nothing_is_the_identity() {
    let m = model(vec![1, 1], &[(vec![0, 0], vec![0, 0])], (0, 5));
    let e = BMCEncoding::from_vas(&m);
    let identity = and(
        and(Formula::True, Formula::Eq(Term::Next(0), Term::Current(0))),
        Formula::Eq(Term::Next(1), Term::Current(1)),
    );
    assert_eq!(text(&e.transition_formula), text(&or(Formula::False, identity)));
}

#[test]
fn a_catalyst_is_guarded_and_kept() {
    // The transition needs one of the variable and gives it back.
    let m = model(vec![1], &[(vec![1], vec![1])], (0, 5));
    let e = BMCEncoding::from_vas(&m);
    let step = and(
        and(Formula::True, Formula::Uge(Term::Current(0), Term::Const(1))),
        Formula::Eq(Term::Next(0), Term::Sub(Box::new(Term::Current(0)), Box::new(Term::Const(0)))),
    );
    assert_eq!(text(&e.transition_formula), text(&or(Formula::False, step)));
}

#[test]
fn a_model_is_encodable_when_its_target_has_a_variable() {
    let good = model(vec![1], &[], (0, 5));
    let bad = model(vec![1], &[], (1, 5));
    assert!(good.is_encodable());
    assert!(!bad.is_encodable());
    let too_far = AbstractVas::new(
        vec!["A".to_string()],
        vec![VasState::new(vec![0])],
        vec![VasTransition {
            transition_id: 0,
            transition_name: "t".to_string(),
            update_vector: vec![i128::MIN],
            enabled_bounds: vec![0],
            rate_const_bits: 0,
        }],
        VasProperty { variable_index: 0, target_value: 1 },
    );
    assert!(!too_far.is_encodable());
}

#[test]
fn unrolling_moves_now_and_next_to_numbered_times() {
    let u = Unroller::new(2);
    let f = Formula::Eq(
        Term::Next(0),
        Term::Add(Box::new(Term::Current(1)), Box::new(Term::At(0, 9))),
    );
    let moved = Formula::Eq(
        Term::At(0, 4),
        Term::Add(Box::new(Term::At(1, 3)), Box::new(Term::At(0, 9))),
    );
    assert_eq!(text(&u.at_time(&f, 3)), text(&moved));
    assert_eq!(text(&f.duplicate()), text(&f));
    assert_eq!(format!("{:?}", u.get_var(1, 7)), format!("{:?}", Some(Term::At(1, 7))));
    assert!(u.get_var(2, 7).is_none());
}

#[test]
fn unrolling_over_all_times() {
    let u = Unroller::new(1);
    let f = Formula::Uge(Term::Current(0), Term::Const(3));
    let at = |t: u32| Formula::Uge(Term::At(0, t), Term::Const(3));
    assert_eq!(text(&u.at_all_times_or(&f, 2)), text(&or(or(or(Formula::False, at(0)), at(1)), at(2))));
    assert_eq!(
        text(&u.at_all_times_and(&f, 2)),
        text(&and(and(and(Formula::True, at(0)), at(1)), at(2)))
    );
    assert_eq!(text(&u.at_all_times_or(&f, 0)), text(&or(Formula::False, at(0))));
}

#[test]
fn bmc_stops_at_the_first_yes() {
    let m = model(vec![0], &[(vec![1], vec![0])], (0, 3));
    let e = m.bmc_encoding();
    let asked = std::cell::RefCell::new(Vec::new());
    let solver = |f: &Formula| {
        asked.borrow_mut().push(text(f));
        asked.borrow().len() == 4
    };
    let (formula, k) = e.run_bmc(&solver, MAX_BMC_STEPS).unwrap();
    assert_eq!(k, 3);
    assert_eq!(asked.borrow().len(), 4);
    assert_eq!(text(&formula), asked.borrow()[3]);
    let u = Unroller::new(1);
    let mut unrolled = u.at_time(&e.init_formula, 0);
    for t in 0..3 {
        unrolled = and(unrolled, u.at_time(&e.transition_formula, t));
    }
    let reaching = and(unrolled, u.at_time(&e.target_formula, 3));
    assert_eq!(text(&formula), text(&reaching));
}

#[test]
fn bmc_failures() {
    let m = model(vec![0], &[(vec![1], vec![0])], (0, 3));
    let e = m.bmc_encoding();
    let always = |_: &Formula| true;
    assert_eq!(e.run_bmc(&always, 10).err(), Some(BmcFailure::TargetHoldsInitially));
    let never = |_: &Formula| false;
    assert_eq!(e.run_bmc(&never, 10).err(), Some(BmcFailure::NoTargetWithinSteps));
    assert_eq!(e.run_bmc(&always, 0).err(), Some(BmcFailure::NoTargetWithinSteps));
    let second = std::cell::Cell::new(0);
    let late = |_: &Formula| {
        second.set(second.get() + 1);
        second.get() == 10
    };
    let (_, k) = e.run_bmc(&late, 10).unwrap();
    assert_eq!(k, 9);
    assert!(0 < k && k < 10);
}
