use vas_reach::bmc::bounds::{
    halved, largest_value, search_bound, BoundKind, SearchMove, SearchState,
};
use vas_reach::bmc::formula::{Formula, Term};
use vas_reach::bmc::unroller::Unroller;
use vas_reach::bmc::vas_bmc::BmcFailure;

const TOP: i128 = 511;

fn run(kind: BoundKind, initial: i128, answer: &dyn Fn(i128) -> bool) -> (SearchMove, usize) {
    let mut state = SearchState::start(kind, initial, TOP);
    let mut asked = 0;
    loop {
        if let Some(bound) = state.settled(kind) {
            return (SearchMove::Found(bound), asked);
        }
        asked += 1;
        assert!(asked < 100, "the search does not settle");
        match state.advance(kind, answer(state.bound), TOP) {
            SearchMove::Ask(next) => state = next,
            end => return (end, asked),
        }
    }
}

#[test]
fn halving_rounds_towards_zero() {
    assert_eq!(halved(7), 3);
    assert_eq!(halved(-7), -3);
    assert_eq!(halved(-1), 0);
    assert_eq!(halved(0), 0);
}

#[test]
fn largest_value_of_a_width() {
    assert_eq!(largest_value(9), 511);
    assert_eq!(largest_value(0), 0);
    assert_eq!(largest_value(1), 1);
    assert_eq!(largest_value(64), u64::MAX as i128);
}

#[test]
fn searches_start_where_they_should() {
    assert_eq!(
        SearchState::start(BoundKind::LooseUpper, 2, TOP),
        SearchState { min_bound: 2, max_bound: 511, bound: 0 }
    );
    assert_eq!(
        SearchState::start(BoundKind::TightUpper, 2, TOP),
        SearchState { min_bound: 2, max_bound: 511, bound: 511 }
    );
    assert_eq!(
        SearchState::start(BoundKind::LooseLower, 2, TOP),
        SearchState { min_bound: 0, max_bound: 2, bound: 2 }
    );
    assert_eq!(
        SearchState::start(BoundKind::TightLower, 2, TOP),
        SearchState { min_bound: 0, max_bound: 2, bound: 0 }
    );
}

#[test]
fn one_move_of_each_kind() {
    let up = SearchState { min_bound: 0, max_bound: 511, bound: 256 };
    assert_eq!(
        up.advance(BoundKind::LooseUpper, true, TOP),
        SearchMove::Ask(SearchState { min_bound: 256, max_bound: 511, bound: 384 })
    );
    assert_eq!(
        up.advance(BoundKind::LooseUpper, false, TOP),
        SearchMove::Ask(SearchState { min_bound: 0, max_bound: 256, bound: 128 })
    );
    let down = SearchState { min_bound: 2, max_bound: 511, bound: 511 };
    assert_eq!(
        down.advance(BoundKind::TightUpper, true, TOP),
        SearchMove::Ask(SearchState { min_bound: 2, max_bound: 511, bound: 256 })
    );
    let low = SearchState { min_bound: 2, max_bound: 511, bound: 256 };
    assert_eq!(
        low.advance(BoundKind::TightUpper, false, TOP),
        SearchMove::Ask(SearchState { min_bound: 256, max_bound: 511, bound: 383 })
    );
    let one = SearchState { min_bound: 0, max_bound: 3, bound: 1 };
    assert_eq!(
        one.advance(BoundKind::LooseLower, true, TOP),
        SearchMove::Ask(SearchState { min_bound: 0, max_bound: 1, bound: 0 })
    );
}

#[test]
fn moves_that_end_a_search() {
    let at_max = SearchState { min_bound: 4, max_bound: 5, bound: 5 };
    assert_eq!(at_max.advance(BoundKind::LooseUpper, true, TOP), SearchMove::Found(5));
    assert_eq!(at_max.advance(BoundKind::TightLower, true, TOP), SearchMove::Found(5));
    assert_eq!(at_max.advance(BoundKind::TightLower, false, TOP), SearchMove::Found(4));
    assert_eq!(
        at_max.advance(BoundKind::LooseUpper, false, TOP),
        SearchMove::Ask(SearchState { min_bound: 4, max_bound: 4, bound: 4 })
    );
    let at_min = SearchState { min_bound: 4, max_bound: 5, bound: 4 };
    assert_eq!(at_min.advance(BoundKind::TightUpper, true, TOP), SearchMove::Found(4));
    assert_eq!(at_min.advance(BoundKind::TightUpper, false, TOP), SearchMove::Found(5));
    assert_eq!(at_min.advance(BoundKind::LooseLower, true, TOP), SearchMove::Found(4));
    assert_eq!(at_min.advance(BoundKind::LooseLower, false, TOP), SearchMove::Found(5));
}

#[test]
fn every_search_finds_every_threshold() {
    for initial in [0i128, 1, 2, 7, 100, 510, 511] {
        for t in 0..=TOP {
            let (end, _) = run(BoundKind::LooseUpper, initial, &|c| c <= t);
            assert_eq!(end, SearchMove::Found(t));
            if t >= initial {
                let (end, _) = run(BoundKind::TightUpper, initial, &|c| c >= t);
                assert_eq!(end, SearchMove::Found(t));
            }
            if t <= initial {
                let (end, _) = run(BoundKind::LooseLower, initial, &|c| c >= t);
                assert_eq!(end, SearchMove::Found(t));
                let (end, _) = run(BoundKind::TightLower, initial, &|c| c <= t);
                assert_eq!(end, SearchMove::Found(t));
            }
        }
    }
}

#[test]
fn lower_searches_settle_at_once_on_an_initial_value_of_zero() {
    for kind in [BoundKind::LooseLower, BoundKind::TightLower] {
        let start = SearchState::start(kind, 0, TOP);
        assert_eq!(start.settled(kind), Some(0));
        let (end, asked) = run(kind, 0, &|_| panic!("nothing is to be asked"));
        assert_eq!(end, SearchMove::Found(0));
        assert_eq!(asked, 0);
    }
    for kind in [BoundKind::LooseUpper, BoundKind::TightUpper] {
        assert_eq!(SearchState::start(kind, 0, TOP).settled(kind), None);
    }
    assert_eq!(SearchState::start(BoundKind::LooseLower, 3, TOP).settled(BoundKind::LooseLower), None);
}

#[test]
fn answers_that_cannot_be_true_together_are_a_contradiction() {
    // Nothing is at least 0 although something was at least the initial 5.
    let start = SearchState::start(BoundKind::LooseUpper, 5, TOP);
    assert_eq!(start.advance(BoundKind::LooseUpper, false, TOP), SearchMove::Contradiction);
    let (end, _) = run(BoundKind::LooseUpper, 0, &|_| false);
    assert_eq!(end, SearchMove::Contradiction);
}

#[test]
fn search_bound_asks_about_every_candidate() {
    let unroller = Unroller::new(2);
    let reachable = Formula::True;
    let threshold = 37;
    let solver = |f: &Formula| -> bool {
        // The candidate is the constant of the first comparison.
        fn candidate(f: &Formula) -> Option<i128> {
            match f {
                Formula::Uge(_, Term::Const(c)) | Formula::Ule(_, Term::Const(c)) => Some(*c),
                Formula::And(a, b) | Formula::Or(a, b) => candidate(a).or(candidate(b)),
                _ => None,
            }
        }
        candidate(f).unwrap() <= threshold
    };
    let found =
        search_bound(&solver, BoundKind::LooseUpper, 1, 3, TOP, 4, &reachable, &unroller);
    assert_eq!(found, Ok(37));
    let never = |_: &Formula| false;
    let failed =
        search_bound(&never, BoundKind::LooseUpper, 1, 3, TOP, 4, &reachable, &unroller);
    assert_eq!(failed, Err(BmcFailure::UnsatisfiableEncoding));
}

#[test]
fn constant_answers_settle_on_these_bounds() {
    let found = |kind: BoundKind, answer: bool| run(kind, 5, &|_| answer).0;
    assert_eq!(found(BoundKind::LooseUpper, true), SearchMove::Found(511));
    assert_eq!(found(BoundKind::LooseUpper, false), SearchMove::Contradiction);
    assert_eq!(found(BoundKind::TightUpper, true), SearchMove::Found(5));
    assert_eq!(found(BoundKind::TightUpper, false), SearchMove::Found(512));
    assert_eq!(found(BoundKind::LooseLower, true), SearchMove::Found(0));
    assert_eq!(found(BoundKind::TightLower, true), SearchMove::Found(5));
    assert_eq!(found(BoundKind::TightLower, false), SearchMove::Found(0));
    // A no to every question about the loose lower bound is no answer that
    // a run from the initial value 5 can give: the bound lands above it.
    assert_eq!(found(BoundKind::LooseLower, false), SearchMove::Found(6));
}
