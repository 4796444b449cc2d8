//! Bounds on the values that each variable takes along the runs that reach
//! the target: four binary searches per variable.

use crate::bmc::encoding::{
    init_formula_of, lemma_init_formula_holds, starts_at, BMCEncoding,
};
use crate::bmc::formula::{window, Formula, Term, Valuation};
use crate::bmc::unroller::{
    at_every_time, at_some_time, lemma_at_every_time, lemma_at_some_time, Unroller,
};
use crate::bmc::vas_bmc::{reaching, unrolled, BmcFailure, MAX_BMC_STEPS};
use vstd::arithmetic::div_mod::lemma_small_mod;
use crate::model::vas_model::AbstractVas;
use crate::model::vector::VasValue;
use vstd::arithmetic::power2::{lemma2_to64, lemma_pow2_adds, lemma_pow2_pos, pow2};
use vstd::prelude::*;

verus! {

/// The four bounds that are searched for.
#[derive(Clone, Copy, Debug, PartialEq, Eq, Structural)]
pub enum BoundKind {
    /// The largest value that the variable has at some time.
    LooseUpper,
    /// The smallest value that the variable can stay at or below throughout.
    TightUpper,
    /// The smallest value that the variable has at some time.
    LooseLower,
    /// The largest value that the variable can stay at or above throughout.
    TightLower,
}

/// Where a search stands: the next candidate and the interval around it.
#[derive(Clone, Copy, Debug, PartialEq, Eq, Structural)]
pub struct SearchState {
    pub min_bound: VasValue,
    pub max_bound: VasValue,
    pub bound: VasValue,
}

/// What a search does after an answer.
#[derive(Clone, Copy, Debug, PartialEq, Eq, Structural)]
pub enum SearchMove {
    /// Ask about the candidate of this state next.
    Ask(SearchState),
    /// The search has settled on this bound.
    Found(VasValue),
    /// The answer cannot be true together with the earlier ones.
    Contradiction,
}

impl BoundKind {
    /// Whether the search moves its candidate up while the answer is yes.
    pub open spec fn upward(self) -> bool {
        self == BoundKind::LooseUpper || self == BoundKind::TightLower
    }

    /// Whether the search starts from the interval below the initial value.
    pub open spec fn lower(self) -> bool {
        self == BoundKind::LooseLower || self == BoundKind::TightLower
    }
}

/// Half of `x`, rounded towards zero.
pub open spec fn half(x: int) -> int {
    if x >= 0 {
        x / 2
    } else {
        -((-x) / 2)
    }
}

impl SearchState {
    /// Whether the candidate lies in the interval and the interval within
    /// `0..=top`.
    pub open spec fn ordered(self, top: int) -> bool {
        0 <= self.min_bound <= self.bound <= self.max_bound <= top
    }

    /// The state that the search for `kind` starts from, for a variable
    /// that is `initial` at first and values up to `top`.
    pub open spec fn start_spec(kind: BoundKind, initial: VasValue, top: VasValue) -> SearchState {
        match kind {
            BoundKind::LooseUpper => SearchState { min_bound: initial, max_bound: top, bound: 0 },
            BoundKind::TightUpper => SearchState { min_bound: initial, max_bound: top, bound: top },
            BoundKind::LooseLower => SearchState { min_bound: 0, max_bound: initial, bound: initial },
            BoundKind::TightLower => SearchState { min_bound: 0, max_bound: initial, bound: 0 },
        }
    }

    /// The bound that the search has without asking: a search from the
    /// interval below the initial value settles on 0 once that interval
    /// ends at 0.
    pub open spec fn settled_spec(self, kind: BoundKind) -> Option<VasValue> {
        if kind.lower() && self.max_bound == 0 {
            Some(0)
        } else {
            None
        }
    }

    /// The state after the answer `sat` when the search goes on, before
    /// it is checked against the interval.
    pub open spec fn follow(self, kind: BoundKind, sat: bool, top: int) -> (int, int, int) {
        let (lo, hi, b) = (self.min_bound as int, self.max_bound as int, self.bound as int);
        if kind.upward() {
            if sat {
                (b, hi, b + (hi - b + 1) / 2)
            } else {
                let c = if b >= hi {
                    b - 1
                } else {
                    b
                };
                (lo, c, if c == top {
                    c - 1
                } else {
                    c - half(c - lo)
                })
            }
        } else {
            if sat {
                (lo, b, if b == 1 {
                    0
                } else {
                    b - half(b - lo + 1)
                })
            } else {
                (b, hi, b + half(hi - b))
            }
        }
    }

    /// The bound that the search ends on with the answer `sat`, if it ends.
    pub open spec fn ends_on(self, kind: BoundKind, sat: bool) -> Option<int> {
        let (lo, hi, b) = (self.min_bound as int, self.max_bound as int, self.bound as int);
        if kind.upward() {
            if b >= hi {
                if sat {
                    Some(b)
                } else if kind == BoundKind::TightLower {
                    Some(b - 1)
                } else {
                    None
                }
            } else {
                None
            }
        } else {
            if b <= lo {
                if sat {
                    Some(b)
                } else {
                    Some(b + 1)
                }
            } else {
                None
            }
        }
    }

    /// What the search does after the answer `sat` to its candidate.
    ///
    /// It ends where `ends_on` says. Otherwise it goes on from the state
    /// that `follow` gives, provided the candidate there lies in the
    /// interval and the interval within `0..=top`; an answer that leads
    /// anywhere else contradicts the earlier ones.
    pub open spec fn next_move(self, kind: BoundKind, sat: bool, top: VasValue) -> SearchMove {
        match self.ends_on(kind, sat) {
            Some(v) => SearchMove::Found(v as VasValue),
            None => {
                let (lo, hi, b) = self.follow(kind, sat, top as int);
                if 0 <= lo <= b <= hi <= top {
                    SearchMove::Ask(
                        SearchState {
                            min_bound: lo as VasValue,
                            max_bound: hi as VasValue,
                            bound: b as VasValue,
                        },
                    )
                } else {
                    SearchMove::Contradiction
                }
            },
        }
    }

    /// Whether the state can be advanced without a count leaving the
    /// range of `VasValue`.
    pub open spec fn tame(self, top: VasValue) -> bool {
        &&& 0 <= top <= 0x2000_0000_0000_0000_0000_0000_0000_0000
        &&& -1 <= self.min_bound <= top + 1
        &&& -1 <= self.max_bound <= top + 1
        &&& -1 <= self.bound <= top + 1
    }

    /// The state that the search for `kind` starts from.
    pub fn start(kind: BoundKind, initial: VasValue, top: VasValue) -> (r: SearchState)
        ensures
            r == Self::start_spec(kind, initial, top),
    {
        match kind {
            BoundKind::LooseUpper => SearchState { min_bound: initial, max_bound: top, bound: 0 },
            BoundKind::TightUpper => SearchState { min_bound: initial, max_bound: top, bound: top },
            BoundKind::LooseLower => SearchState { min_bound: 0, max_bound: initial, bound: initial },
            BoundKind::TightLower => SearchState { min_bound: 0, max_bound: initial, bound: 0 },
        }
    }

    /// The bound that the search has without asking, if any.
    pub fn settled(&self, kind: BoundKind) -> (r: Option<VasValue>)
        ensures
            r == self.settled_spec(kind),
    {
        let lower = match kind {
            BoundKind::LooseLower => true,
            BoundKind::TightLower => true,
            _ => false,
        };
        if lower && self.max_bound == 0 {
            Some(0)
        } else {
            None
        }
    }

    /// What the search does after the answer `sat` to its candidate.
    pub fn advance(&self, kind: BoundKind, sat: bool, top: VasValue) -> (r: SearchMove)
        requires
            self.tame(top),
        ensures
            r == self.next_move(kind, sat, top),
    {
        let lo = self.min_bound;
        let hi = self.max_bound;
        let b = self.bound;
        let upward = match kind {
            BoundKind::LooseUpper => true,
            BoundKind::TightLower => true,
            _ => false,
        };
        let (new_lo, new_hi, new_b) = if upward {
            if sat {
                if b >= hi {
                    return SearchMove::Found(b);
                }
                (b, hi, b + (hi - b + 1) / 2)
            } else {
                let c = if b >= hi {
                    match kind {
                        BoundKind::TightLower => {
                            return SearchMove::Found(b - 1);
                        },
                        _ => b - 1,
                    }
                } else {
                    b
                };
                (lo, c, if c == top {
                    c - 1
                } else {
                    c - halved(c - lo)
                })
            }
        } else {
            if sat {
                if b <= lo {
                    return SearchMove::Found(b);
                }
                (lo, b, if b == 1 {
                    0
                } else {
                    b - halved(b - lo + 1)
                })
            } else {
                if b <= lo {
                    return SearchMove::Found(b + 1);
                }
                (b, hi, b + halved(hi - b))
            }
        };
        if 0 <= new_lo && new_lo <= new_b && new_b <= new_hi && new_hi <= top {
            SearchMove::Ask(SearchState { min_bound: new_lo, max_bound: new_hi, bound: new_b })
        } else {
            SearchMove::Contradiction
        }
    }
}

impl SearchState {
    /// Whether the candidate is at most the end of the interval and all
    /// three lie within `0..=top`.
    pub open spec fn proper(self, top: int) -> bool {
        &&& 0 <= self.min_bound <= top
        &&& 0 <= self.bound <= self.max_bound <= top
    }

    /// Two numbers that get smaller, the first before the second, with
    /// every move that goes on.
    pub open spec fn rank(self, kind: BoundKind) -> (int, int) {
        let (lo, hi, b) = (self.min_bound as int, self.max_bound as int, self.bound as int);
        if kind.upward() {
            (hi - (if lo < b {
                lo
            } else {
                b
            }), hi - b)
        } else {
            (hi - lo, b - lo)
        }
    }

    /// A move that goes on leads to an ordered state of smaller rank.
    pub proof fn lemma_move_descends(self, kind: BoundKind, sat: bool, top: VasValue)
        requires
            self.proper(top as int),
            !kind.upward() ==> self.ordered(top as int),
            self.next_move(kind, sat, top) is Ask,
        ensures
            self.next_move(kind, sat, top)->Ask_0.ordered(top as int),
            self.rank(kind).0 >= 0,
            self.rank(kind).1 >= 0,
            self.next_move(kind, sat, top)->Ask_0.rank(kind).0 < self.rank(kind).0 || (
            self.next_move(kind, sat, top)->Ask_0.rank(kind).0 == self.rank(kind).0
                && self.next_move(kind, sat, top)->Ask_0.rank(kind).1 < self.rank(kind).1),
    {
    }
}

/// What is asked of variable `variable` about the candidate `bound`: that
/// it is at least the candidate, in a search that moves up, and at most
/// the candidate otherwise.
pub open spec fn candidate_formula(kind: BoundKind, variable: usize, bound: VasValue) -> Formula {
    if kind.upward() {
        Formula::Uge(Term::Current(variable), Term::Const(bound))
    } else {
        Formula::Ule(Term::Current(variable), Term::Const(bound))
    }
}

/// The question about the candidate `bound`: whether a run described by
/// `reachable` has the variable as `candidate_formula` says, at one of the
/// times `0..=steps` for a loose bound and at all of them for a tight
/// one.
pub open spec fn bound_query(
    kind: BoundKind,
    variable: usize,
    bound: VasValue,
    steps: u32,
    reachable: Formula,
) -> Formula {
    let asked = candidate_formula(kind, variable, bound);
    let over_time = if kind == BoundKind::LooseUpper || kind == BoundKind::LooseLower {
        at_some_time(asked, (steps + 1) as nat)
    } else {
        at_every_time(asked, (steps + 1) as nat)
    };
    Formula::And(Box::new(over_time), Box::new(reachable))
}

/// The state that the search is in after the answers `answers`, if it
/// goes on after each of them.
pub open spec fn state_after(
    kind: BoundKind,
    start: SearchState,
    top: VasValue,
    answers: Seq<bool>,
) -> Option<SearchState>
    decreases answers.len(),
{
    if answers.len() == 0 {
        Some(start)
    } else {
        match state_after(kind, start, top, answers.drop_last()) {
            Some(s) => if s.settled_spec(kind) is None {
                match s.next_move(kind, answers.last(), top) {
                    SearchMove::Ask(n) => Some(n),
                    _ => None,
                }
            } else {
                None
            },
            None => None,
        }
    }
}

/// Whether the search that gets the answers `answers` ends with the last
/// of them, or without asking when there is none, and ends on `r`.
pub open spec fn ends_with(
    kind: BoundKind,
    start: SearchState,
    top: VasValue,
    answers: Seq<bool>,
    r: Result<VasValue, BmcFailure>,
) -> bool {
    if answers.len() == 0 {
        start.settled_spec(kind) matches Some(v) && r == Ok::<VasValue, BmcFailure>(v)
    } else {
        match state_after(kind, start, top, answers.drop_last()) {
            Some(s) => s.settled_spec(kind) is None && (match s.next_move(
                kind,
                answers.last(),
                top,
            ) {
                SearchMove::Found(v) => r == Ok::<VasValue, BmcFailure>(v),
                SearchMove::Contradiction => r == Err::<VasValue, BmcFailure>(
                    BmcFailure::UnsatisfiableEncoding,
                ),
                SearchMove::Ask(n) => n.settled_spec(kind) matches Some(v) && r == Ok::<
                    VasValue,
                    BmcFailure,
                >(v),
            }),
            None => false,
        }
    }
}

/// Whether each of `answers` is an answer that `solver` can give to the
/// question that the search asks at that point.
pub open spec fn answered_by<S: Fn(&Formula) -> bool>(
    solver: &S,
    kind: BoundKind,
    variable: usize,
    steps: u32,
    reachable: Formula,
    start: SearchState,
    top: VasValue,
    answers: Seq<bool>,
) -> bool {
    forall|i: int|
        0 <= i < answers.len() ==> can_answer(
            solver,
            kind,
            variable,
            steps,
            reachable,
            state_after(kind, start, top, #[trigger] answers.take(i)),
            answers[i],
        )
}

/// Whether the search is at a state and `answer` is an answer that
/// `solver` can give to the question asked there.
pub open spec fn can_answer<S: Fn(&Formula) -> bool>(
    solver: &S,
    kind: BoundKind,
    variable: usize,
    steps: u32,
    reachable: Formula,
    at: Option<SearchState>,
    answer: bool,
) -> bool {
    match at {
        Some(s) => call_ensures(
            solver,
            (&bound_query(kind, variable, s.bound, steps, reachable),),
            answer,
        ),
        None => false,
    }
}

/// Whether `r` is what the search for `kind` on `variable` comes to with
/// answers that `solver` can give.
pub open spec fn searched<S: Fn(&Formula) -> bool>(
    solver: &S,
    kind: BoundKind,
    variable: usize,
    initial: VasValue,
    top: VasValue,
    steps: u32,
    reachable: Formula,
    r: Result<VasValue, BmcFailure>,
) -> bool {
    exists|answers: Seq<bool>|
        {
            &&& #[trigger] answered_by(
                solver,
                kind,
                variable,
                steps,
                reachable,
                SearchState::start_spec(kind, initial, top),
                top,
                answers,
            )
            &&& ends_with(kind, SearchState::start_spec(kind, initial, top), top, answers, r)
        }
}

/// The largest value at width `bits`.
pub open spec fn top_value(bits: nat) -> int {
    pow2(bits) - 1
}

/// The largest value at width `bits`.
pub fn largest_value(bits: u32) -> (r: VasValue)
    requires
        bits <= 64,
    ensures
        r == top_value(bits as nat),
        0 <= r < 0x1_0000_0000_0000_0000,
{
    let mut p: VasValue = 1;
    let mut i: u32 = 0;
    proof {
        lemma2_to64();
    }
    while i < bits
        invariant
            i <= bits <= 64,
            p == pow2(i as nat),
            1 <= p <= pow2(64),
            pow2(64) == 0x1_0000_0000_0000_0000,
        decreases bits - i,
    {
        proof {
            lemma_pow2_adds(i as nat, 1);
            lemma2_to64();
            lemma_pow2_strictly_grows(i as nat, 64);
        }
        p = p * 2;
        i += 1;
    }
    p - 1
}

/// `pow2` grows with its argument.
proof fn lemma_pow2_strictly_grows(a: nat, b: nat)
    requires
        a < b,
    ensures
        2 * pow2(a) <= pow2(b),
    decreases b - a,
{
    lemma_pow2_adds(a, 1);
    vstd::arithmetic::power2::lemma2_to64();
    if a + 1 < b {
        lemma_pow2_strictly_grows(a + 1, b);
        lemma_pow2_pos(a);
    }
}

/// Runs the search for the bound `kind` of `variable`.
///
/// `reachable` describes the runs of `steps` steps that end on the target;
/// `initial` is the variable's initial value, within `0..=top`. Every
/// candidate is put to `solver`. The result is the bound that the search
/// settles on, or `UnsatisfiableEncoding` when an answer contradicts the
/// earlier ones.
pub fn search_bound<S: Fn(&Formula) -> bool>(
    solver: &S,
    kind: BoundKind,
    variable: usize,
    initial: VasValue,
    top: VasValue,
    steps: u32,
    reachable: &Formula,
    unroller: &Unroller,
) -> (r: Result<VasValue, BmcFailure>)
    requires
        forall|f: Formula| call_requires(solver, (&f,)),
        0 <= initial <= top <= 0x2000_0000_0000_0000_0000_0000_0000_0000,
        steps < u32::MAX,
    ensures
        searched(solver, kind, variable, initial, top, steps, *reachable, r),
{
    let ghost start = SearchState::start_spec(kind, initial, top);
    let ghost mut answers: Seq<bool> = Seq::empty();
    let mut st = SearchState::start(kind, initial, top);
    let upward = match kind {
        BoundKind::LooseUpper => true,
        BoundKind::TightLower => true,
        _ => false,
    };
    let loose = match kind {
        BoundKind::LooseUpper => true,
        BoundKind::LooseLower => true,
        _ => false,
    };
    loop
        invariant
            forall|f: Formula| call_requires(solver, (&f,)),
            0 <= top <= 0x2000_0000_0000_0000_0000_0000_0000_0000,
            steps < u32::MAX,
            start == SearchState::start_spec(kind, initial, top),
            upward == kind.upward(),
            loose == (kind == BoundKind::LooseUpper || kind == BoundKind::LooseLower),
            st.proper(top as int),
            !kind.upward() ==> st.ordered(top as int),
            state_after(kind, start, top, answers) == Some(st),
            answered_by(solver, kind, variable, steps, *reachable, start, top, answers),
            answers.len() > 0 ==> (state_after(kind, start, top, answers.drop_last()) matches Some(
                s,
            ) && s.settled_spec(kind) is None && s.next_move(kind, answers.last(), top)
                == SearchMove::Ask(st)),
        decreases st.rank(kind).0, st.rank(kind).1,
    {
        match st.settled(kind) {
            Some(v) => {
                proof {
                    assert(ends_with(kind, start, top, answers, Ok::<VasValue, BmcFailure>(v)));
                    assert(answered_by(
                        solver,
                        kind,
                        variable,
                        steps,
                        *reachable,
                        start,
                        top,
                        answers,
                    ));
                }
                return Ok(v);
            },
            None => {},
        }
        let asked = if upward {
            Formula::Uge(Term::Current(variable), Term::Const(st.bound))
        } else {
            Formula::Ule(Term::Current(variable), Term::Const(st.bound))
        };
        let over_time = if loose {
            unroller.at_all_times_or(&asked, steps)
        } else {
            unroller.at_all_times_and(&asked, steps)
        };
        let query = Formula::and(over_time, reachable.duplicate());
        assert(query == bound_query(kind, variable, st.bound, steps, *reachable));
        let sat = solver(&query);
        let ghost before = answers;
        proof {
            answers = answers.push(sat);
            assert(answers.drop_last() =~= before);
            assert forall|i: int| 0 <= i < answers.len() implies can_answer(
                solver,
                kind,
                variable,
                steps,
                *reachable,
                state_after(kind, start, top, #[trigger] answers.take(i)),
                answers[i],
            ) by {
                if i < before.len() {
                    assert(answers.take(i) =~= before.take(i));
                } else {
                    assert(answers.take(i) =~= before);
                }
            }
        }
        match st.advance(kind, sat, top) {
            SearchMove::Found(v) => {
                proof {
                    assert(ends_with(kind, start, top, answers, Ok::<VasValue, BmcFailure>(v)));
                    assert(answered_by(
                        solver,
                        kind,
                        variable,
                        steps,
                        *reachable,
                        start,
                        top,
                        answers,
                    ));
                }
                return Ok(v);
            },
            SearchMove::Contradiction => {
                proof {
                    assert(ends_with(
                        kind,
                        start,
                        top,
                        answers,
                        Err::<VasValue, BmcFailure>(BmcFailure::UnsatisfiableEncoding),
                    ));
                    assert(answered_by(
                        solver,
                        kind,
                        variable,
                        steps,
                        *reachable,
                        start,
                        top,
                        answers,
                    ));
                }
                return Err(BmcFailure::UnsatisfiableEncoding);
            },
            SearchMove::Ask(n) => {
                proof {
                    st.lemma_move_descends(kind, sat, top);
                }
                st = n;
            },
        }
    }
}

/// The answer about candidate `c` when `threshold` is the last value for
/// which the answer is yes: the largest one in a search that moves up,
/// the smallest one otherwise.
pub open spec fn says(kind: BoundKind, c: int, threshold: int) -> bool {
    if kind.upward() {
        c <= threshold
    } else {
        c >= threshold
    }
}

/// Whether every one of `answers` is the answer that `threshold` gives to
/// the candidate asked about at that point.
pub open spec fn follows_threshold(
    kind: BoundKind,
    start: SearchState,
    top: VasValue,
    threshold: int,
    answers: Seq<bool>,
) -> bool {
    forall|i: int|
        0 <= i < answers.len() ==> (match state_after(
            kind,
            start,
            top,
            #[trigger] answers.take(i),
        ) {
            Some(s) => answers[i] == says(kind, s.bound as int, threshold),
            None => true,
        })
}

/// Whether `threshold` can be the boundary that the search for `kind`
/// looks for: within `0..=top`, and on the side of `initial` that the
/// search starts from.
pub open spec fn threshold_in_range(
    kind: BoundKind,
    initial: VasValue,
    top: VasValue,
    threshold: int,
) -> bool {
    match kind {
        BoundKind::LooseUpper => 0 <= threshold <= top,
        BoundKind::TightUpper => initial <= threshold <= top,
        BoundKind::LooseLower => 0 <= threshold <= initial,
        BoundKind::TightLower => 0 <= threshold <= initial,
    }
}

impl SearchState {
    /// What holds of every state of a search whose answers come from
    /// `threshold`: the threshold lies in the interval, and the candidate
    /// sits on the end it moves towards only when the interval has at
    /// most two values.
    pub open spec fn encloses(self, kind: BoundKind, top: VasValue, threshold: int) -> bool {
        &&& self.ordered(top as int)
        &&& self.min_bound <= threshold <= self.max_bound
        &&& kind.upward() && self.bound == self.max_bound ==> self.max_bound - self.min_bound <= 1
        &&& !kind.upward() && self.bound == self.min_bound ==> self.max_bound - self.min_bound
            <= 1
    }

    /// With an answer that comes from the threshold, a state that
    /// encloses it either ends on the threshold or leads to a state that
    /// encloses it.
    pub proof fn lemma_move_keeps_threshold(self, kind: BoundKind, top: VasValue, threshold: int)
        requires
            self.encloses(kind, top, threshold),
        ensures
            match self.next_move(kind, says(kind, self.bound as int, threshold), top) {
                SearchMove::Found(v) => v == threshold,
                SearchMove::Ask(n) => n.encloses(kind, top, threshold),
                SearchMove::Contradiction => false,
            },
    {
    }
}

/// A search whose answers come from a threshold passes only through states
/// that enclose it, once it has had its first answer.
pub proof fn lemma_states_enclose_threshold(
    kind: BoundKind,
    initial: VasValue,
    top: VasValue,
    threshold: int,
    answers: Seq<bool>,
)
    requires
        0 <= initial <= top,
        threshold_in_range(kind, initial, top, threshold),
        follows_threshold(kind, SearchState::start_spec(kind, initial, top), top, threshold, answers),
    ensures
        state_after(kind, SearchState::start_spec(kind, initial, top), top, answers) matches Some(
            s,
        ) ==> (s.encloses(kind, top, threshold) || (kind == BoundKind::LooseUpper && answers.len()
            == 0)),
    decreases answers.len(),
{
    let start = SearchState::start_spec(kind, initial, top);
    if answers.len() > 0 {
        let before = answers.drop_last();
        assert forall|i: int| 0 <= i < before.len() implies (match state_after(
            kind,
            start,
            top,
            #[trigger] before.take(i),
        ) {
            Some(s) => before[i] == says(kind, s.bound as int, threshold),
            None => true,
        }) by {
            assert(before.take(i) =~= answers.take(i));
        }
        lemma_states_enclose_threshold(kind, initial, top, threshold, before);
        assert(answers.take(answers.len() - 1) =~= before);
        if let Some(s) = state_after(kind, start, top, before) {
            assert(answers.last() == says(kind, s.bound as int, threshold));
            if s.encloses(kind, top, threshold) {
                s.lemma_move_keeps_threshold(kind, top, threshold);
            }
        }
    }
}

/// A search whose answers come from a threshold settles on that threshold.
///
/// Let `threshold` lie in the range that the search for `kind` covers, and
/// let every answer be yes exactly for the candidates on the near side of
/// the threshold. Then however long the search goes, the bound that it
/// ends on is the threshold, and no answer counts as a contradiction.
pub proof fn lemma_search_finds_threshold(
    kind: BoundKind,
    initial: VasValue,
    top: VasValue,
    threshold: int,
    answers: Seq<bool>,
    r: Result<VasValue, BmcFailure>,
)
    requires
        0 <= initial <= top,
        threshold_in_range(kind, initial, top, threshold),
        follows_threshold(kind, SearchState::start_spec(kind, initial, top), top, threshold, answers),
        ends_with(kind, SearchState::start_spec(kind, initial, top), top, answers, r),
    ensures
        r == Ok::<VasValue, BmcFailure>(threshold as VasValue),
{
    let start = SearchState::start_spec(kind, initial, top);
    if answers.len() > 0 {
        let before = answers.drop_last();
        assert forall|i: int| 0 <= i < before.len() implies (match state_after(
            kind,
            start,
            top,
            #[trigger] before.take(i),
        ) {
            Some(s) => before[i] == says(kind, s.bound as int, threshold),
            None => true,
        }) by {
            assert(before.take(i) =~= answers.take(i));
        }
        lemma_states_enclose_threshold(kind, initial, top, threshold, before);
        assert(answers.take(answers.len() - 1) =~= before);
        let s = state_after(kind, start, top, before)->Some_0;
        assert(answers.last() == says(kind, s.bound as int, threshold));
        if s.encloses(kind, top, threshold) {
            s.lemma_move_keeps_threshold(kind, top, threshold);
        }
    }
}

/// A search from the interval below an initial value of 0 asks nothing and
/// ends on 0.
pub proof fn lemma_zero_initial_settles(
    kind: BoundKind,
    top: VasValue,
    answers: Seq<bool>,
    r: Result<VasValue, BmcFailure>,
)
    requires
        kind.lower(),
        ends_with(kind, SearchState::start_spec(kind, 0, top), top, answers, r),
    ensures
        answers.len() == 0,
        r == Ok::<VasValue, BmcFailure>(0),
{
    let start = SearchState::start_spec(kind, 0, top);
    if answers.len() > 0 {
        lemma_settled_start_goes_nowhere(kind, start, top, answers.drop_last());
    }
}

/// After an answer, a search that had settled before asking is in no state.
proof fn lemma_settled_start_goes_nowhere(
    kind: BoundKind,
    start: SearchState,
    top: VasValue,
    answers: Seq<bool>,
)
    requires
        start.settled_spec(kind) is Some,
    ensures
        answers.len() > 0 ==> state_after(kind, start, top, answers) is None,
    decreases answers.len(),
{
    if answers.len() > 1 {
        lemma_settled_start_goes_nowhere(kind, start, top, answers.drop_last());
    } else if answers.len() == 1 {
        assert(state_after(kind, start, top, answers.drop_last()) == Some(start));
    }
}

/// Whether the values `run` of a variable over time answer the question
/// about candidate `c` with yes: some value, for a loose bound, or every
/// value, for a tight one, is at least `c` in a search that moves up and
/// at most `c` otherwise.
pub open spec fn run_agrees(kind: BoundKind, run: Seq<int>, c: int) -> bool {
    match kind {
        BoundKind::LooseUpper => exists|t: int| 0 <= t < run.len() && #[trigger] run[t] >= c,
        BoundKind::TightUpper => forall|t: int| 0 <= t < run.len() ==> #[trigger] run[t] <= c,
        BoundKind::LooseLower => exists|t: int| 0 <= t < run.len() && #[trigger] run[t] <= c,
        BoundKind::TightLower => forall|t: int| 0 <= t < run.len() ==> #[trigger] run[t] >= c,
    }
}

/// The true answer about candidate `c` when `runs` holds, run by run, the
/// values that the variable takes: whether one of the runs agrees.
pub open spec fn truth(kind: BoundKind, runs: Set<Seq<int>>, c: int) -> bool {
    exists|run: Seq<int>| runs.contains(run) && #[trigger] run_agrees(kind, run, c)
}

/// Whether `runs` can be the values of a variable along the runs that
/// reach the target: there is a run, and every run starts at `initial`
/// and stays within `0..=top`.
pub open spec fn plausible(runs: Set<Seq<int>>, initial: int, top: int) -> bool {
    &&& exists|run: Seq<int>| runs.contains(run)
    &&& forall|run: Seq<int>| #[trigger]
        runs.contains(run) ==> run.len() >= 1 && run[0] == initial && forall|t: int|
            0 <= t < run.len() ==> 0 <= #[trigger] run[t] <= top
}

/// Whether every one of `answers` is the true answer about the candidate
/// asked about at that point.
pub open spec fn truthful(
    kind: BoundKind,
    start: SearchState,
    top: VasValue,
    runs: Set<Seq<int>>,
    answers: Seq<bool>,
) -> bool {
    forall|i: int|
        0 <= i < answers.len() ==> (match state_after(
            kind,
            start,
            top,
            #[trigger] answers.take(i),
        ) {
            Some(s) => answers[i] == truth(kind, runs, s.bound as int),
            None => true,
        })
}

/// Between a value where `p` holds and a larger one where it does not
/// lies a value where `p` holds while it does not hold at the next one.
proof fn lemma_boundary(p: spec_fn(int) -> bool, lo: int, hi: int) -> (t: int)
    requires
        lo < hi,
        p(lo),
        !p(hi),
    ensures
        lo <= t < hi,
        p(t),
        !p(t + 1),
    decreases hi - lo,
{
    if p(hi - 1) {
        hi - 1
    } else {
        lemma_boundary(p, lo, hi - 1)
    }
}

/// The true answers have a threshold: a value in the range of the search
/// such that the answer is yes exactly on its near side.
pub proof fn lemma_truth_has_threshold(
    kind: BoundKind,
    runs: Set<Seq<int>>,
    initial: VasValue,
    top: VasValue,
) -> (threshold: int)
    requires
        0 <= initial <= top,
        plausible(runs, initial as int, top as int),
    ensures
        threshold_in_range(kind, initial, top, threshold),
        forall|c: int| truth(kind, runs, c) == says(kind, c, threshold),
{
    let some_run = choose|run: Seq<int>| runs.contains(run);
    assert(some_run[0] == initial);
    if kind.upward() {
        let p = |c: int| truth(kind, runs, c);
        let hi: int = if kind == BoundKind::LooseUpper {
            top + 1
        } else {
            initial + 1
        };
        assert(p(0)) by {
            assert(0 <= some_run[0]);
            assert(run_agrees(kind, some_run, 0));
        }
        assert(!p(hi)) by {
            if truth(kind, runs, hi) {
                let run = choose|run: Seq<int>| runs.contains(run) && run_agrees(kind, run, hi);
                if kind == BoundKind::LooseUpper {
                    let t = choose|t: int| 0 <= t < run.len() && run[t] >= hi;
                    assert(run[t] <= top);
                } else {
                    assert(run[0] >= hi);
                }
            }
        }
        let t = lemma_boundary(p, 0, hi);
        assert forall|c: int| truth(kind, runs, c) == says(kind, c, t) by {
            if c <= t {
                let run = choose|run: Seq<int>| runs.contains(run) && run_agrees(kind, run, t);
                if kind == BoundKind::LooseUpper {
                    let at = choose|at: int| 0 <= at < run.len() && run[at] >= t;
                    assert(run[at] >= c);
                } else {
                    assert forall|at: int| 0 <= at < run.len() implies #[trigger] run[at]
                        >= c by {
                        assert(run[at] >= t);
                    }
                }
                assert(run_agrees(kind, run, c));
            } else if truth(kind, runs, c) {
                let run = choose|run: Seq<int>| runs.contains(run) && run_agrees(kind, run, c);
                if kind == BoundKind::LooseUpper {
                    let at = choose|at: int| 0 <= at < run.len() && run[at] >= c;
                    assert(run[at] >= t + 1);
                } else {
                    assert forall|at: int| 0 <= at < run.len() implies #[trigger] run[at] >= t
                        + 1 by {
                        assert(run[at] >= c);
                    }
                }
                assert(run_agrees(kind, run, t + 1));
            }
        }
        t
    } else {
        let p = |c: int| !truth(kind, runs, c);
        let lo: int = if kind == BoundKind::TightUpper {
            initial - 1
        } else {
            -1
        };
        let hi: int = if kind == BoundKind::TightUpper {
            top as int
        } else {
            initial as int
        };
        assert(p(lo)) by {
            if truth(kind, runs, lo) {
                let run = choose|run: Seq<int>| runs.contains(run) && run_agrees(kind, run, lo);
                if kind == BoundKind::TightUpper {
                    assert(run[0] <= lo);
                } else {
                    let t = choose|t: int| 0 <= t < run.len() && run[t] <= lo;
                    assert(run[t] >= 0);
                }
            }
        }
        assert(!p(hi)) by {
            if kind == BoundKind::TightUpper {
                assert forall|t: int| 0 <= t < some_run.len() implies #[trigger] some_run[t]
                    <= hi by {}
            } else {
                assert(some_run[0] <= hi);
            }
            assert(run_agrees(kind, some_run, hi));
        }
        let below = lemma_boundary(p, lo, hi);
        let t = below + 1;
        assert forall|c: int| truth(kind, runs, c) == says(kind, c, t) by {
            if c >= t {
                let run = choose|run: Seq<int>| runs.contains(run) && run_agrees(kind, run, t);
                if kind == BoundKind::TightUpper {
                    assert forall|at: int| 0 <= at < run.len() implies #[trigger] run[at]
                        <= c by {
                        assert(run[at] <= t);
                    }
                } else {
                    let at = choose|at: int| 0 <= at < run.len() && run[at] <= t;
                    assert(run[at] <= c);
                }
                assert(run_agrees(kind, run, c));
            } else if truth(kind, runs, c) {
                let run = choose|run: Seq<int>| runs.contains(run) && run_agrees(kind, run, c);
                if kind == BoundKind::TightUpper {
                    assert forall|at: int| 0 <= at < run.len() implies #[trigger] run[at]
                        <= below by {
                        assert(run[at] <= c);
                    }
                } else {
                    let at = choose|at: int| 0 <= at < run.len() && run[at] <= c;
                    assert(run[at] <= below);
                }
                assert(run_agrees(kind, run, below));
            }
        }
        t
    }
}

/// With true answers a search settles on the threshold of the truth.
pub proof fn lemma_truthful_search(
    kind: BoundKind,
    initial: VasValue,
    top: VasValue,
    runs: Set<Seq<int>>,
    answers: Seq<bool>,
    r: Result<VasValue, BmcFailure>,
) -> (threshold: int)
    requires
        0 <= initial <= top,
        plausible(runs, initial as int, top as int),
        truthful(kind, SearchState::start_spec(kind, initial, top), top, runs, answers),
        ends_with(kind, SearchState::start_spec(kind, initial, top), top, answers, r),
    ensures
        r == Ok::<VasValue, BmcFailure>(threshold as VasValue),
        threshold_in_range(kind, initial, top, threshold),
        forall|c: int| truth(kind, runs, c) == says(kind, c, threshold),
{
    let threshold = lemma_truth_has_threshold(kind, runs, initial, top);
    let start = SearchState::start_spec(kind, initial, top);
    assert forall|i: int| 0 <= i < answers.len() implies (match state_after(
        kind,
        start,
        top,
        #[trigger] answers.take(i),
    ) {
        Some(s) => answers[i] == says(kind, s.bound as int, threshold),
        None => true,
    }) by {
        if let Some(s) = state_after(kind, start, top, answers.take(i)) {
            assert(truth(kind, runs, s.bound as int) == says(kind, s.bound as int, threshold));
        }
    }
    lemma_search_finds_threshold(kind, initial, top, threshold, answers, r);
    threshold
}

/// With true answers the four bounds of a variable are ordered: the loose
/// lower bound is at most the tight lower bound, that at most the initial
/// value, that at most the tight upper bound, and that at most the loose
/// upper bound.
pub proof fn lemma_bounds_ordered(
    initial: VasValue,
    top: VasValue,
    runs: Set<Seq<int>>,
    answers: spec_fn(BoundKind) -> Seq<bool>,
    found: spec_fn(BoundKind) -> Result<VasValue, BmcFailure>,
)
    requires
        0 <= initial <= top,
        plausible(runs, initial as int, top as int),
        forall|kind: BoundKind|
            truthful(
                kind,
                SearchState::start_spec(kind, initial, top),
                top,
                runs,
                #[trigger] answers(kind),
            ),
        forall|kind: BoundKind|
            ends_with(
                kind,
                SearchState::start_spec(kind, initial, top),
                top,
                answers(kind),
                #[trigger] found(kind),
            ),
    ensures
        found(BoundKind::LooseLower) is Ok,
        found(BoundKind::TightLower) is Ok,
        found(BoundKind::TightUpper) is Ok,
        found(BoundKind::LooseUpper) is Ok,
        found(BoundKind::LooseLower)->Ok_0 <= found(BoundKind::TightLower)->Ok_0,
        found(BoundKind::TightLower)->Ok_0 <= initial,
        initial <= found(BoundKind::TightUpper)->Ok_0,
        found(BoundKind::TightUpper)->Ok_0 <= found(BoundKind::LooseUpper)->Ok_0,
{
    let lu_kind = BoundKind::LooseUpper;
    let tu_kind = BoundKind::TightUpper;
    let ll_kind = BoundKind::LooseLower;
    let tl_kind = BoundKind::TightLower;
    assert(truthful(lu_kind, SearchState::start_spec(lu_kind, initial, top), top, runs, answers(lu_kind)));
    assert(truthful(tu_kind, SearchState::start_spec(tu_kind, initial, top), top, runs, answers(tu_kind)));
    assert(truthful(ll_kind, SearchState::start_spec(ll_kind, initial, top), top, runs, answers(ll_kind)));
    assert(truthful(tl_kind, SearchState::start_spec(tl_kind, initial, top), top, runs, answers(tl_kind)));
    assert(ends_with(lu_kind, SearchState::start_spec(lu_kind, initial, top), top, answers(lu_kind), found(lu_kind)));
    assert(ends_with(tu_kind, SearchState::start_spec(tu_kind, initial, top), top, answers(tu_kind), found(tu_kind)));
    assert(ends_with(ll_kind, SearchState::start_spec(ll_kind, initial, top), top, answers(ll_kind), found(ll_kind)));
    assert(ends_with(tl_kind, SearchState::start_spec(tl_kind, initial, top), top, answers(tl_kind), found(tl_kind)));
    let lu = lemma_truthful_search(lu_kind, initial, top, runs, answers(lu_kind), found(lu_kind));
    let tu = lemma_truthful_search(tu_kind, initial, top, runs, answers(tu_kind), found(tu_kind));
    let ll = lemma_truthful_search(ll_kind, initial, top, runs, answers(ll_kind), found(ll_kind));
    let tl = lemma_truthful_search(tl_kind, initial, top, runs, answers(tl_kind), found(tl_kind));
    let some_run = choose|run: Seq<int>| runs.contains(run);
    // The loose lower bound is below every value, the tight lower bound
    // above the least value of every run.
    assert(ll <= tl) by {
        assert(truth(tl_kind, runs, tl + 1) == says(tl_kind, tl + 1, tl));
        assert(!run_agrees(tl_kind, some_run, tl + 1));
        let t = choose|t: int| 0 <= t < some_run.len() && !(#[trigger] some_run[t] >= tl + 1);
        assert(truth(ll_kind, runs, ll - 1) == says(ll_kind, ll - 1, ll));
        assert(!run_agrees(ll_kind, some_run, ll - 1));
        assert(!(some_run[t] <= ll - 1));
    }
    assert(tu <= lu) by {
        assert(truth(tu_kind, runs, tu - 1) == says(tu_kind, tu - 1, tu));
        assert(!run_agrees(tu_kind, some_run, tu - 1));
        let t = choose|t: int| 0 <= t < some_run.len() && !(#[trigger] some_run[t] <= tu - 1);
        assert(truth(lu_kind, runs, lu + 1) == says(lu_kind, lu + 1, lu));
        assert(!run_agrees(lu_kind, some_run, lu + 1));
        assert(!(some_run[t] >= lu + 1));
    }
}

/// Whether every value that `env` gives at a numbered time lies within the
/// width `bits`.
pub open spec fn in_range(env: Valuation, bits: nat) -> bool {
    forall|i: int, t: int| 0 <= #[trigger] (env.at)(i, t) < pow2(bits)
}

/// Whether some valuation within the width satisfies `f`.
pub open spec fn satisfiable(f: Formula, bits: nat) -> bool {
    exists|env: Valuation| in_range(env, bits) && #[trigger] f.holds(env, bits)
}

/// The values that `env` gives `variable` at the times `0..=steps`.
pub open spec fn values_over_time(env: Valuation, variable: usize, steps: u32) -> Seq<int> {
    Seq::new((steps + 1) as nat, |t: int| (env.at)(variable as int, t))
}

/// Whether `run` holds the values of `variable` over time under a
/// valuation within the width that satisfies `reachable`.
pub open spec fn is_run(
    reachable: Formula,
    variable: usize,
    steps: u32,
    bits: nat,
    run: Seq<int>,
) -> bool {
    exists|env: Valuation|
        in_range(env, bits) && #[trigger] reachable.holds(env, bits) && run == values_over_time(
            env,
            variable,
            steps,
        )
}

/// The values that `variable` takes over time, one sequence for every
/// valuation within the width that satisfies `reachable`.
pub open spec fn runs_of(reachable: Formula, variable: usize, steps: u32, bits: nat) -> Set<
    Seq<int>,
> {
    Set::new(|run: Seq<int>| is_run(reachable, variable, steps, bits, run))
}

/// Whether `env` has `variable` as the search for `kind` asks about the
/// candidate `c`, at one of the times `0..=steps` for a loose bound and
/// at all of them for a tight one.
pub open spec fn env_agrees(kind: BoundKind, env: Valuation, variable: usize, steps: u32, c: int) -> bool {
    run_agrees(kind, values_over_time(env, variable, steps), c)
}

/// The question about a candidate within the width holds under a
/// valuation exactly when the runs described hold and the variable is as
/// asked.
pub proof fn lemma_bound_query_holds(
    kind: BoundKind,
    variable: usize,
    c: VasValue,
    steps: u32,
    reachable: Formula,
    env: Valuation,
    bits: nat,
)
    requires
        0 <= c < pow2(bits),
        steps < u32::MAX,
    ensures
        bound_query(kind, variable, c, steps, reachable).holds(env, bits) <==> reachable.holds(
            env,
            bits,
        ) && env_agrees(kind, env, variable, steps, c as int),
{
    reveal_with_fuel(Formula::holds, 3);
    reveal_with_fuel(Term::value, 2);
    reveal_with_fuel(Formula::within, 2);
    reveal_with_fuel(Term::within, 2);
    let n = (variable + 1) as nat;
    let asked = candidate_formula(kind, variable, c);
    let upto = (steps + 1) as nat;
    let run = values_over_time(env, variable, steps);
    lemma_small_mod(c as nat, pow2(bits));
    assert(asked.within(n));
    assert forall|t: int| 0 <= t < upto implies #[trigger] asked.holds(window(env, t, n), bits) == (
    if kind.upward() {
        run[t] >= c
    } else {
        run[t] <= c
    }) by {
        assert(window(env, t, n).current[variable as int] == (env.at)(variable as int, t));
    }
    if kind == BoundKind::LooseUpper || kind == BoundKind::LooseLower {
        lemma_at_some_time(asked, upto, env, bits, n);
        if at_some_time(asked, upto).holds(env, bits) {
            let t = choose|t: int| 0 <= t < upto && #[trigger] asked.holds(window(env, t, n), bits);
            if kind.upward() {
                assert(run[t] >= c);
            } else {
                assert(run[t] <= c);
            }
        }
        if run_agrees(kind, run, c as int) {
            if kind.upward() {
                let t = choose|t: int| 0 <= t < run.len() && #[trigger] run[t] >= c;
                assert(asked.holds(window(env, t, n), bits));
            } else {
                let t = choose|t: int| 0 <= t < run.len() && #[trigger] run[t] <= c;
                assert(asked.holds(window(env, t, n), bits));
            }
        }
    } else {
        lemma_at_every_time(asked, upto, env, bits, n);
        if at_every_time(asked, upto).holds(env, bits) {
            if kind.upward() {
                assert forall|t: int| 0 <= t < run.len() implies #[trigger] run[t] >= c by {
                    assert(asked.holds(window(env, t, n), bits));
                }
            } else {
                assert forall|t: int| 0 <= t < run.len() implies #[trigger] run[t] <= c by {
                    assert(asked.holds(window(env, t, n), bits));
                }
            }
        }
        if run_agrees(kind, run, c as int) {
            assert forall|t: int| 0 <= t < upto implies #[trigger] asked.holds(
                window(env, t, n),
                bits,
            ) by {
                if kind.upward() {
                    assert(run[t] >= c);
                } else {
                    assert(run[t] <= c);
                }
            }
        }
    }
}

/// The question about a candidate within the width can be satisfied
/// exactly when the true answer about the runs is yes.
pub proof fn lemma_satisfiable_is_truth(
    kind: BoundKind,
    variable: usize,
    c: VasValue,
    steps: u32,
    reachable: Formula,
    bits: nat,
)
    requires
        0 <= c < pow2(bits),
        steps < u32::MAX,
    ensures
        satisfiable(bound_query(kind, variable, c, steps, reachable), bits) <==> truth(
            kind,
            runs_of(reachable, variable, steps, bits),
            c as int,
        ),
{
    let query = bound_query(kind, variable, c, steps, reachable);
    let runs = runs_of(reachable, variable, steps, bits);
    if satisfiable(query, bits) {
        let env = choose|env: Valuation| in_range(env, bits) && #[trigger] query.holds(env, bits);
        lemma_bound_query_holds(kind, variable, c, steps, reachable, env, bits);
        let run = values_over_time(env, variable, steps);
        assert(is_run(reachable, variable, steps, bits, run));
        assert(runs.contains(run));
        assert(run_agrees(kind, run, c as int));
    }
    if truth(kind, runs, c as int) {
        let run = choose|run: Seq<int>| runs.contains(run) && #[trigger] run_agrees(kind, run, c as int);
        assert(is_run(reachable, variable, steps, bits, run));
        let env = choose|env: Valuation|
            in_range(env, bits) && #[trigger] reachable.holds(env, bits) && run
                == values_over_time(env, variable, steps);
        lemma_bound_query_holds(kind, variable, c, steps, reachable, env, bits);
        assert(query.holds(env, bits));
    }
}

/// The initial formula mentions the first `upto` variables only.
pub proof fn lemma_init_formula_within(init: Seq<VasValue>, upto: nat, n: nat)
    requires
        upto <= n,
        upto <= usize::MAX,
    ensures
        init_formula_of(init, upto).within(n),
    decreases upto,
{
    reveal_with_fuel(Formula::within, 3);
    reveal_with_fuel(Term::within, 2);
    if upto > 0 {
        lemma_init_formula_within(init, (upto - 1) as nat, n);
    }
}

/// Every valuation that satisfies the unrolled formulas has the initial
/// formula at time 0.
pub proof fn lemma_unrolled_starts(enc: BMCEncoding, k: nat, env: Valuation, bits: nat)
    requires
        unrolled(enc, k).holds(env, bits),
    ensures
        enc.init_formula.at_time_spec(0).holds(env, bits),
    decreases k,
{
    if k > 0 {
        lemma_unrolled_starts(enc, (k - 1) as nat, env, bits);
    }
}

/// The runs that reach the target are plausible: when there is one, each
/// starts at the variable's initial value and stays within the width.
pub proof fn lemma_runs_plausible(
    enc: BMCEncoding,
    init: Seq<VasValue>,
    variable: usize,
    steps: u32,
    bits: nat,
)
    requires
        enc.init_formula == init_formula_of(init, init.len()),
        init.len() <= usize::MAX,
        variable < init.len(),
        0 <= init[variable as int] < pow2(bits),
        satisfiable(reaching(enc, steps as nat), bits),
    ensures
        plausible(
            runs_of(reaching(enc, steps as nat), variable, steps, bits),
            init[variable as int] as int,
            pow2(bits) - 1,
        ),
{
    let reachable = reaching(enc, steps as nat);
    let runs = runs_of(reachable, variable, steps, bits);
    let n = init.len();
    let witness = choose|env: Valuation| in_range(env, bits) && #[trigger] reachable.holds(env, bits);
    assert(is_run(reachable, variable, steps, bits, values_over_time(witness, variable, steps)));
    assert(runs.contains(values_over_time(witness, variable, steps)));
    assert forall|run: Seq<int>| #[trigger] runs.contains(run) implies run.len() >= 1 && run[0]
        == init[variable as int] && forall|t: int|
        0 <= t < run.len() ==> 0 <= #[trigger] run[t] <= pow2(bits) - 1 by {
        assert(is_run(reachable, variable, steps, bits, run));
        let env = choose|env: Valuation|
            in_range(env, bits) && #[trigger] reachable.holds(env, bits) && run
                == values_over_time(env, variable, steps);
        lemma_unrolled_starts(enc, steps as nat, env, bits);
        lemma_init_formula_within(init, n, n);
        enc.init_formula.lemma_at_time_holds(0, env, bits, n);
        lemma_init_formula_holds(init, n, window(env, 0, n), bits);
        assert(starts_at(init, variable as int, window(env, 0, n), bits));
        lemma_small_mod(init[variable as int] as nat, pow2(bits));
        assert(window(env, 0, n).current[variable as int] == (env.at)(variable as int, 0));
        assert forall|t: int| 0 <= t < run.len() implies 0 <= #[trigger] run[t] <= pow2(bits)
            - 1 by {
            assert(0 <= (env.at)(variable as int, t) < pow2(bits));
        }
    }
}

/// A search that starts from an initial value within `0..=top` asks about
/// candidates within `0..=top` only.
pub proof fn lemma_candidates_in_range(
    kind: BoundKind,
    initial: VasValue,
    top: VasValue,
    answers: Seq<bool>,
)
    requires
        0 <= initial <= top,
    ensures
        state_after(kind, SearchState::start_spec(kind, initial, top), top, answers) matches Some(
            s,
        ) ==> 0 <= s.bound <= top,
    decreases answers.len(),
{
    if answers.len() > 0 {
        lemma_candidates_in_range(kind, initial, top, answers.drop_last());
    }
}

/// Whether every one of `answers` says whether the question asked at
/// that point can be satisfied.
pub open spec fn answers_satisfiability(
    kind: BoundKind,
    variable: usize,
    steps: u32,
    reachable: Formula,
    bits: nat,
    start: SearchState,
    top: VasValue,
    answers: Seq<bool>,
) -> bool {
    forall|i: int|
        0 <= i < answers.len() ==> (match state_after(
            kind,
            start,
            top,
            #[trigger] answers.take(i),
        ) {
            Some(s) => answers[i] == satisfiable(
                bound_query(kind, variable, s.bound, steps, reachable),
                bits,
            ),
            None => true,
        })
}

/// With a solver that decides satisfiability the four bounds of a
/// variable are ordered.
///
/// Let the target be reachable in `steps` steps, the variable's initial
/// value lie within the width, and every answer in the four searches say
/// whether the question asked can be satisfied within the width. Then
/// every search settles, and the loose lower bound is at most the tight
/// lower bound, that at most the initial value, that at most the tight
/// upper bound, and that at most the loose upper bound.
pub proof fn lemma_decided_bounds_ordered(
    enc: BMCEncoding,
    init: Seq<VasValue>,
    variable: usize,
    steps: u32,
    bits: nat,
    answers: spec_fn(BoundKind) -> Seq<bool>,
    found: spec_fn(BoundKind) -> Result<VasValue, BmcFailure>,
)
    requires
        enc.init_formula == init_formula_of(init, init.len()),
        init.len() <= usize::MAX,
        variable < init.len(),
        steps < u32::MAX,
        0 <= init[variable as int] < pow2(bits),
        pow2(bits) - 1 <= i128::MAX,
        satisfiable(reaching(enc, steps as nat), bits),
        forall|kind: BoundKind|
            answers_satisfiability(
                kind,
                variable,
                steps,
                reaching(enc, steps as nat),
                bits,
                SearchState::start_spec(kind, init[variable as int], top_value(bits) as VasValue),
                top_value(bits) as VasValue,
                #[trigger] answers(kind),
            ),
        forall|kind: BoundKind|
            ends_with(
                kind,
                SearchState::start_spec(kind, init[variable as int], top_value(bits) as VasValue),
                top_value(bits) as VasValue,
                answers(kind),
                #[trigger] found(kind),
            ),
    ensures
        found(BoundKind::LooseLower) is Ok,
        found(BoundKind::TightLower) is Ok,
        found(BoundKind::TightUpper) is Ok,
        found(BoundKind::LooseUpper) is Ok,
        found(BoundKind::LooseLower)->Ok_0 <= found(BoundKind::TightLower)->Ok_0,
        found(BoundKind::TightLower)->Ok_0 <= init[variable as int],
        init[variable as int] <= found(BoundKind::TightUpper)->Ok_0,
        found(BoundKind::TightUpper)->Ok_0 <= found(BoundKind::LooseUpper)->Ok_0,
{
    let initial = init[variable as int];
    let top = top_value(bits) as VasValue;
    let reachable = reaching(enc, steps as nat);
    let runs = runs_of(reachable, variable, steps, bits);
    lemma_runs_plausible(enc, init, variable, steps, bits);
    assert forall|kind: BoundKind|
        truthful(
            kind,
            SearchState::start_spec(kind, initial, top),
            top,
            runs,
            #[trigger] answers(kind),
        ) by {
        let start = SearchState::start_spec(kind, initial, top);
        let given = answers(kind);
        assert(answers_satisfiability(kind, variable, steps, reachable, bits, start, top, given));
        assert forall|i: int| 0 <= i < given.len() implies (match state_after(
            kind,
            start,
            top,
            #[trigger] given.take(i),
        ) {
            Some(s) => given[i] == truth(kind, runs, s.bound as int),
            None => true,
        }) by {
            if let Some(s) = state_after(kind, start, top, given.take(i)) {
                lemma_candidates_in_range(kind, initial, top, given.take(i));
                lemma_satisfiable_is_truth(kind, variable, s.bound, steps, reachable, bits);
            }
        }
    }
    lemma_bounds_ordered(initial, top, runs, answers, found);
}

/// The bounds of all variables, each list indexed like the variables of
/// the model.
#[derive(Clone, Debug, PartialEq, Eq)]
pub struct BMCBounds {
    pub lb_loose: Vec<VasValue>,
    pub lb_tight: Vec<VasValue>,
    pub ub_loose: Vec<VasValue>,
    pub ub_tight: Vec<VasValue>,
}

/// Whether bounded model checking with `solver` stops at `k`: the target
/// can hold after `k` steps and not after fewer, and `k` lies strictly
/// between 0 and `max_steps`.
pub open spec fn bmc_stops_at<S: Fn(&Formula) -> bool>(
    enc: BMCEncoding,
    solver: &S,
    max_steps: u32,
    k: u32,
) -> bool {
    &&& 0 < k < max_steps
    &&& call_ensures(solver, (&reaching(enc, k as nat),), true)
    &&& forall|j: nat| j < k ==> call_ensures(solver, (&#[trigger] reaching(enc, j),), false)
}

/// Whether `found` lists, variable by variable, what the searches for
/// `kind` come to.
pub open spec fn all_searched<S: Fn(&Formula) -> bool>(
    solver: &S,
    kind: BoundKind,
    initial: Seq<VasValue>,
    top: VasValue,
    steps: u32,
    reachable: Formula,
    found: Seq<VasValue>,
) -> bool {
    &&& found.len() == initial.len()
    &&& forall|v: int|
        0 <= v < initial.len() ==> searched(
            solver,
            kind,
            v as usize,
            initial[v],
            top,
            steps,
            reachable,
            Ok::<VasValue, BmcFailure>(#[trigger] found[v]),
        )
}

/// Whether the search for `kind` on one of the variables comes to a
/// contradiction.
pub open spec fn some_search_fails<S: Fn(&Formula) -> bool>(
    solver: &S,
    kind: BoundKind,
    initial: Seq<VasValue>,
    top: VasValue,
    steps: u32,
    reachable: Formula,
) -> bool {
    exists|v: int|
        0 <= v < initial.len() && #[trigger] searched(
            solver,
            kind,
            v as usize,
            initial[v],
            top,
            steps,
            reachable,
            Err::<VasValue, BmcFailure>(BmcFailure::UnsatisfiableEncoding),
        )
}

/// Whether every value of `initial` lies within `0..=top`.
pub open spec fn all_within(initial: Seq<VasValue>, top: int) -> bool {
    forall|v: int| 0 <= v < initial.len() ==> 0 <= #[trigger] initial[v] <= top
}

/// Runs the search for `kind` on every variable, in model order.
fn search_all<S: Fn(&Formula) -> bool>(
    solver: &S,
    kind: BoundKind,
    initial: &Vec<VasValue>,
    top: VasValue,
    steps: u32,
    reachable: &Formula,
    unroller: &Unroller,
) -> (r: Result<Vec<VasValue>, BmcFailure>)
    requires
        forall|f: Formula| call_requires(solver, (&f,)),
        0 <= top <= 0x2000_0000_0000_0000_0000_0000_0000_0000,
        all_within(initial@, top as int),
        steps < u32::MAX,
    ensures
        match r {
            Ok(found) => all_searched(solver, kind, initial@, top, steps, *reachable, found@),
            Err(e) => e == BmcFailure::UnsatisfiableEncoding && some_search_fails(
                solver,
                kind,
                initial@,
                top,
                steps,
                *reachable,
            ),
        },
{
    let mut found: Vec<VasValue> = Vec::new();
    let mut v: usize = 0;
    while v < initial.len()
        invariant
            v <= initial.len(),
            forall|f: Formula| call_requires(solver, (&f,)),
            0 <= top <= 0x2000_0000_0000_0000_0000_0000_0000_0000,
            all_within(initial@, top as int),
            steps < u32::MAX,
            found.len() == v,
            forall|i: int|
                0 <= i < v ==> searched(
                    solver,
                    kind,
                    i as usize,
                    initial[i],
                    top,
                    steps,
                    *reachable,
                    Ok::<VasValue, BmcFailure>(#[trigger] found[i]),
                ),
        decreases initial.len() - v,
    {
        assert(0 <= initial[v as int] <= top);
        match search_bound(solver, kind, v, initial[v], top, steps, reachable, unroller) {
            Ok(bound) => {
                found.push(bound);
            },
            Err(e) => {
                assert(e == BmcFailure::UnsatisfiableEncoding) by {
                    let answers = choose|answers: Seq<bool>|
                        #[trigger] answered_by(
                            solver,
                            kind,
                            v,
                            steps,
                            *reachable,
                            SearchState::start_spec(kind, initial[v as int], top),
                            top,
                            answers,
                        ) && ends_with(
                            kind,
                            SearchState::start_spec(kind, initial[v as int], top),
                            top,
                            answers,
                            Err::<VasValue, BmcFailure>(e),
                        );
                }
                assert(searched(
                    solver,
                    kind,
                    v as int as usize,
                    initial[v as int],
                    top,
                    steps,
                    *reachable,
                    Err::<VasValue, BmcFailure>(BmcFailure::UnsatisfiableEncoding),
                ));
                return Err(e);
            },
        }
        v += 1;
    }
    Ok(found)
}

/// Whether `r` is what bounding comes to for the initial state `initial`
/// when `solver` answers.
///
/// A failure of bounded model checking is the result. Otherwise, with `k`
/// the time at which it stopped: the failure `InitialValueOutOfRange`
/// when an initial value lies outside the width; the failure
/// `UnsatisfiableEncoding` when one of the searches meets answers that
/// contradict each other; and else the bounds that the four searches
/// come to for every variable.
pub open spec fn bounds_result<S: Fn(&Formula) -> bool>(
    initial: Seq<VasValue>,
    enc: BMCEncoding,
    solver: &S,
    bits: nat,
    r: Result<BMCBounds, BmcFailure>,
) -> bool {
    match r {
        Ok(b) => exists|k: u32|
            {
                &&& #[trigger] bmc_stops_at(enc, solver, MAX_BMC_STEPS, k)
                &&& all_within(initial, top_value(bits))
                &&& all_searched(
                    solver,
                    BoundKind::LooseUpper,
                    initial,
                    top_value(bits) as VasValue,
                    k,
                    reaching(enc, k as nat),
                    b.ub_loose@,
                )
                &&& all_searched(
                    solver,
                    BoundKind::TightUpper,
                    initial,
                    top_value(bits) as VasValue,
                    k,
                    reaching(enc, k as nat),
                    b.ub_tight@,
                )
                &&& all_searched(
                    solver,
                    BoundKind::LooseLower,
                    initial,
                    top_value(bits) as VasValue,
                    k,
                    reaching(enc, k as nat),
                    b.lb_loose@,
                )
                &&& all_searched(
                    solver,
                    BoundKind::TightLower,
                    initial,
                    top_value(bits) as VasValue,
                    k,
                    reaching(enc, k as nat),
                    b.lb_tight@,
                )
            },
        Err(BmcFailure::TargetHoldsInitially) => call_ensures(
            solver,
            (&reaching(enc, 0),),
            true,
        ),
        Err(BmcFailure::NoTargetWithinSteps) => forall|j: nat|
            j < MAX_BMC_STEPS ==> call_ensures(
                solver,
                (&#[trigger] reaching(enc, j),),
                false,
            ),
        Err(BmcFailure::InitialValueOutOfRange) => !all_within(
            initial,
            top_value(bits),
        ) && exists|k: u32| #[trigger] bmc_stops_at(enc, solver, MAX_BMC_STEPS, k),
        Err(BmcFailure::UnsatisfiableEncoding) => exists|k: u32, kind: BoundKind|
            {
                &&& #[trigger] bmc_stops_at(enc, solver, MAX_BMC_STEPS, k)
                &&& #[trigger] some_search_fails(
                    solver,
                    kind,
                    initial,
                    top_value(bits) as VasValue,
                    k,
                    reaching(enc, k as nat),
                )
            },
    }
}

impl BMCBounds {
    /// Computes the four bounds of every variable of `model`.
    ///
    /// Bounded model checking with `encoding` gives the number of steps
    /// and the formula of the runs that reach the target; its failures
    /// are handed on. Then every initial value must lie within the width
    /// `bits`, and the four searches run for every variable, the loose
    /// upper bounds first, then the tight upper, the loose lower and the
    /// tight lower ones.
    pub fn from_encoding<S: Fn(&Formula) -> bool>(
        model: &AbstractVas,
        encoding: &BMCEncoding,
        solver: &S,
        bits: u32,
    ) -> (r: Result<BMCBounds, BmcFailure>)
        requires
            forall|f: Formula| call_requires(solver, (&f,)),
            model@.initial.len() >= 1,
            bits <= 64,
        ensures
            bounds_result(model@.initial[0], *encoding, solver, bits as nat, r),
    {
        let (reachable, steps) = match encoding.run_bmc(solver, MAX_BMC_STEPS) {
            Ok(found) => found,
            Err(e) => {
                return Err(e);
            },
        };
        assert(bmc_stops_at(*encoding, solver, MAX_BMC_STEPS, steps));
        let top = largest_value(bits);
        let initial = &model.initial_states[0].vector;
        assert(model@.initial[0] == initial@);
        let mut v: usize = 0;
        while v < initial.len()
            invariant
                v <= initial.len(),
                model@.initial[0] == initial@,
                top == top_value(bits as nat),
                bmc_stops_at(*encoding, solver, MAX_BMC_STEPS, steps),
                forall|i: int| 0 <= i < v ==> 0 <= #[trigger] initial[i] <= top,
            decreases initial.len() - v,
        {
            if initial[v] < 0 || initial[v] > top {
                assert(!(0 <= initial@[v as int] <= top));
                return Err(BmcFailure::InitialValueOutOfRange);
            }
            v += 1;
        }
        let unroller = &encoding.unroller;
        let ub_loose = match search_all(
            solver,
            BoundKind::LooseUpper,
            initial,
            top,
            steps,
            &reachable,
            unroller,
        ) {
            Ok(found) => found,
            Err(e) => {
                assert(some_search_fails(
                    solver,
                    BoundKind::LooseUpper,
                    model@.initial[0],
                    top_value(bits as nat) as VasValue,
                    steps,
                    reaching(*encoding, steps as nat),
                ));
                return Err(e);
            },
        };
        let ub_tight = match search_all(
            solver,
            BoundKind::TightUpper,
            initial,
            top,
            steps,
            &reachable,
            unroller,
        ) {
            Ok(found) => found,
            Err(e) => {
                assert(some_search_fails(
                    solver,
                    BoundKind::TightUpper,
                    model@.initial[0],
                    top_value(bits as nat) as VasValue,
                    steps,
                    reaching(*encoding, steps as nat),
                ));
                return Err(e);
            },
        };
        let lb_loose = match search_all(
            solver,
            BoundKind::LooseLower,
            initial,
            top,
            steps,
            &reachable,
            unroller,
        ) {
            Ok(found) => found,
            Err(e) => {
                assert(some_search_fails(
                    solver,
                    BoundKind::LooseLower,
                    model@.initial[0],
                    top_value(bits as nat) as VasValue,
                    steps,
                    reaching(*encoding, steps as nat),
                ));
                return Err(e);
            },
        };
        let lb_tight = match search_all(
            solver,
            BoundKind::TightLower,
            initial,
            top,
            steps,
            &reachable,
            unroller,
        ) {
            Ok(found) => found,
            Err(e) => {
                assert(some_search_fails(
                    solver,
                    BoundKind::TightLower,
                    model@.initial[0],
                    top_value(bits as nat) as VasValue,
                    steps,
                    reaching(*encoding, steps as nat),
                ));
                return Err(e);
            },
        };
        Ok(BMCBounds { lb_loose, lb_tight, ub_loose, ub_tight })
    }
}

/// Half of `x`, rounded towards zero.
pub fn halved(x: VasValue) -> (r: VasValue)
    requires
        x > i128::MIN,
    ensures
        r == half(x as int),
{
    if x >= 0 {
        x / 2
    } else {
        -((-x) / 2)
    }
}

} // verus!
