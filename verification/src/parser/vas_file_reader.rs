//! The model file format.
//!
//! A model file is read line by line. The first word of a line says what
//! the line declares: a variable, the start of a transition, a change that
//! the transition makes, its rate, or the target. The lines are sorted by
//! that first, then the variables are read, then the target, then the
//! transitions.

use crate::model::vas_model::{
    same_text, transition_specs, AbstractVas, ModelSpec, ModelType, TransitionSpec, VasProperty,
    VasState, VasTransition,
};
use crate::model::vector::{filled, VasValue};
use crate::parser::words::{parse_value, split_words, texts, value_of, words_of};
use vstd::prelude::*;
use vstd::string::StringExecFns;

verus! {

/// What went wrong, with the text that the message quotes.
#[derive(Clone, Debug, PartialEq, Eq)]
pub enum ModelParseErrorType {
    InvalidInitialVariableCount(String),
    InitUnspecified(String),
    UnexpextedTokenError(String),
    ExpectedInteger(String),
    ExpectedFloat(String),
    UnspecifiedTransitionError(String),
    UnspecifiedVariableError(String),
    GeneralParseError(String),
}

/// The kinds of parse errors.
#[derive(Clone, Copy, Debug, PartialEq, Eq, Structural)]
pub enum ParseFault {
    InvalidInitialVariableCount,
    InitUnspecified,
    UnexpextedTokenError,
    ExpectedInteger,
    ExpectedFloat,
    UnspecifiedTransitionError,
    UnspecifiedVariableError,
    GeneralParseError,
}

/// A parse error: the line it is about, counted from 0, and what went
/// wrong there.
#[derive(Clone, Debug, PartialEq, Eq)]
pub struct ModelParseError {
    pub line: usize,
    pub etype: ModelParseErrorType,
}

/// What a parse error is, apart from how it is stored.
pub struct FaultSpec {
    pub line: usize,
    pub kind: ParseFault,
    pub text: Seq<char>,
}

impl View for ModelParseErrorType {
    type V = (ParseFault, Seq<char>);

    open spec fn view(&self) -> (ParseFault, Seq<char>) {
        match self {
            ModelParseErrorType::InvalidInitialVariableCount(t) => (
                ParseFault::InvalidInitialVariableCount,
                t@,
            ),
            ModelParseErrorType::InitUnspecified(t) => (ParseFault::InitUnspecified, t@),
            ModelParseErrorType::UnexpextedTokenError(t) => (ParseFault::UnexpextedTokenError, t@),
            ModelParseErrorType::ExpectedInteger(t) => (ParseFault::ExpectedInteger, t@),
            ModelParseErrorType::ExpectedFloat(t) => (ParseFault::ExpectedFloat, t@),
            ModelParseErrorType::UnspecifiedTransitionError(t) => (
                ParseFault::UnspecifiedTransitionError,
                t@,
            ),
            ModelParseErrorType::UnspecifiedVariableError(t) => (
                ParseFault::UnspecifiedVariableError,
                t@,
            ),
            ModelParseErrorType::GeneralParseError(t) => (ParseFault::GeneralParseError, t@),
        }
    }
}

impl View for ModelParseError {
    type V = FaultSpec;

    open spec fn view(&self) -> FaultSpec {
        FaultSpec { line: self.line, kind: self.etype@.0, text: self.etype@.1 }
    }
}

impl ModelParseErrorType {
    /// What the error says.
    pub open spec fn message(self) -> Seq<char> {
        match self {
            ModelParseErrorType::InvalidInitialVariableCount(count) => "Invalid initial count: `"@
                + count@ + "`."@,
            ModelParseErrorType::InitUnspecified(name) => "The initial value for `"@ + name@
                + "` is unspecified."@,
            ModelParseErrorType::UnexpextedTokenError(token) => "Unexpexted token: `"@ + token@
                + "`."@,
            ModelParseErrorType::ExpectedInteger(value) => "Expected integer, got `"@ + value@
                + "`."@,
            ModelParseErrorType::ExpectedFloat(value) => "Expected float, got `"@ + value@ + "`."@,
            ModelParseErrorType::UnspecifiedTransitionError(name) => "Unspecified transition: `"@
                + name@ + "`."@,
            ModelParseErrorType::UnspecifiedVariableError(name) => "Unspecified variable: `"@
                + name@ + "`"@,
            ModelParseErrorType::GeneralParseError(text) => "General Parse Error: "@ + text@,
        }
    }

    /// What the error says.
    pub fn to_string(&self) -> (r: String)
        ensures
            r@ == self.message(),
    {
        match self {
            ModelParseErrorType::InvalidInitialVariableCount(count) => String::from_str(
                "Invalid initial count: `",
            ).concat(count.as_str()).concat("`."),
            ModelParseErrorType::InitUnspecified(name) => String::from_str(
                "The initial value for `",
            ).concat(name.as_str()).concat("` is unspecified."),
            ModelParseErrorType::UnexpextedTokenError(token) => String::from_str(
                "Unexpexted token: `",
            ).concat(token.as_str()).concat("`."),
            ModelParseErrorType::ExpectedInteger(value) => String::from_str(
                "Expected integer, got `",
            ).concat(value.as_str()).concat("`."),
            ModelParseErrorType::ExpectedFloat(value) => String::from_str(
                "Expected float, got `",
            ).concat(value.as_str()).concat("`."),
            ModelParseErrorType::UnspecifiedTransitionError(name) => String::from_str(
                "Unspecified transition: `",
            ).concat(name.as_str()).concat("`."),
            ModelParseErrorType::UnspecifiedVariableError(name) => String::from_str(
                "Unspecified variable: `",
            ).concat(name.as_str()).concat("`"),
            ModelParseErrorType::GeneralParseError(text) => String::from_str(
                "General Parse Error: ",
            ).concat(text.as_str()),
        }
    }
}

impl ModelParseError {
    /// The line that the error is about, counted from 0, and what the
    /// error says.
    pub fn line(&self) -> (r: (usize, String))
        ensures
            r.0 == self@.line,
            r.1@ == self.etype.message(),
    {
        (self.line, self.etype.to_string())
    }

    /// The column that the error is about. No error says.
    pub fn column(&self) -> (r: Option<u32>)
        ensures
            r is None,
    {
        None
    }

    /// An initial value that is no count: `count` is what stands in its
    /// place.
    pub fn invalid_init(line: usize, count: &str) -> (r: Self)
        ensures
            r@ == (FaultSpec {
                line,
                kind: ParseFault::InvalidInitialVariableCount,
                text: count@,
            }),
    {
        ModelParseError {
            line,
            etype: ModelParseErrorType::InvalidInitialVariableCount(count.to_owned()),
        }
    }

    /// The variable `name` is declared without an initial value.
    pub fn init_unspecified(line: usize, name: &str) -> (r: Self)
        ensures
            r@ == (FaultSpec { line, kind: ParseFault::InitUnspecified, text: name@ }),
    {
        ModelParseError { line, etype: ModelParseErrorType::InitUnspecified(name.to_owned()) }
    }

    /// The text `token` stands where nothing of its kind may stand.
    pub fn unexpected_token(line: usize, token: &str) -> (r: Self)
        ensures
            r@ == (FaultSpec { line, kind: ParseFault::UnexpextedTokenError, text: token@ }),
    {
        ModelParseError { line, etype: ModelParseErrorType::UnexpextedTokenError(token.to_owned()) }
    }

    /// The word `value` stands in the place of a whole number.
    pub fn expected_integer(line: usize, value: &str) -> (r: Self)
        ensures
            r@ == (FaultSpec { line, kind: ParseFault::ExpectedInteger, text: value@ }),
    {
        ModelParseError { line, etype: ModelParseErrorType::ExpectedInteger(value.to_owned()) }
    }

    /// The word `value` stands in the place of a rate.
    pub fn expected_float(line: usize, value: &str) -> (r: Self)
        ensures
            r@ == (FaultSpec { line, kind: ParseFault::ExpectedFloat, text: value@ }),
    {
        ModelParseError { line, etype: ModelParseErrorType::ExpectedFloat(value.to_owned()) }
    }

    /// The transition `name` is not declared in full.
    pub fn unspecified_transition(line: usize, name: &str) -> (r: Self)
        ensures
            r@ == (FaultSpec {
                line,
                kind: ParseFault::UnspecifiedTransitionError,
                text: name@,
            }),
    {
        ModelParseError {
            line,
            etype: ModelParseErrorType::UnspecifiedTransitionError(name.to_owned()),
        }
    }

    /// The name `name` is the name of no variable.
    pub fn unspecified_variable(line: usize, name: &str) -> (r: Self)
        ensures
            r@ == (FaultSpec { line, kind: ParseFault::UnspecifiedVariableError, text: name@ }),
    {
        ModelParseError {
            line,
            etype: ModelParseErrorType::UnspecifiedVariableError(name.to_owned()),
        }
    }

    /// Another error, which `description` describes.
    pub fn general(line: usize, description: &str) -> (r: Self)
        ensures
            r@ == (FaultSpec { line, kind: ParseFault::GeneralParseError, text: description@ }),
    {
        ModelParseError {
            line,
            etype: ModelParseErrorType::GeneralParseError(description.to_owned()),
        }
    }
}

/// Whether `w` starts the declaration of a variable.
pub open spec fn is_variable_term(w: Seq<char>) -> bool {
    w == "species"@ || w == "variable"@ || w == "var"@
}

/// Whether `w` stands before an initial value.
pub open spec fn is_initial_term(w: Seq<char>) -> bool {
    w == "initial"@ || w == "init"@
}

/// Whether `w` starts the declaration of a transition.
pub open spec fn is_transition_term(w: Seq<char>) -> bool {
    w == "reaction"@ || w == "transition"@
}

/// Whether `w` declares that a transition consumes a variable.
pub open spec fn is_decrease_term(w: Seq<char>) -> bool {
    w == "consume"@ || w == "decrease"@ || w == "decrement"@
}

/// Whether `w` declares that a transition produces a variable.
pub open spec fn is_increase_term(w: Seq<char>) -> bool {
    w == "produce"@ || w == "increase"@ || w == "increment"@
}

/// Whether `w` declares the rate of a transition.
pub open spec fn is_rate_term(w: Seq<char>) -> bool {
    w == "rate"@ || w == "const"@
}

/// Whether `w` declares the target.
pub open spec fn is_target_term(w: Seq<char>) -> bool {
    w == "target"@ || w == "goal"@ || w == "prop"@ || w == "check"@
}

/// Whether `w` starts the declaration of a variable.
fn variable_term(w: &str) -> (r: bool)
    ensures
        r == is_variable_term(w@),
{
    same_text(w, "species") || same_text(w, "variable") || same_text(w, "var")
}

/// Whether `w` stands before an initial value.
fn initial_term(w: &str) -> (r: bool)
    ensures
        r == is_initial_term(w@),
{
    same_text(w, "initial") || same_text(w, "init")
}

/// Whether `w` starts the declaration of a transition.
fn transition_term(w: &str) -> (r: bool)
    ensures
        r == is_transition_term(w@),
{
    same_text(w, "reaction") || same_text(w, "transition")
}

/// Whether `w` declares that a transition consumes a variable.
fn decrease_term(w: &str) -> (r: bool)
    ensures
        r == is_decrease_term(w@),
{
    same_text(w, "consume") || same_text(w, "decrease") || same_text(w, "decrement")
}

/// Whether `w` declares that a transition produces a variable.
fn increase_term(w: &str) -> (r: bool)
    ensures
        r == is_increase_term(w@),
{
    same_text(w, "produce") || same_text(w, "increase") || same_text(w, "increment")
}

/// Whether `w` declares the rate of a transition.
fn rate_term(w: &str) -> (r: bool)
    ensures
        r == is_rate_term(w@),
{
    same_text(w, "rate") || same_text(w, "const")
}

/// Whether `w` declares the target.
fn target_term(w: &str) -> (r: bool)
    ensures
        r == is_target_term(w@),
{
    same_text(w, "target") || same_text(w, "goal") || same_text(w, "prop") || same_text(w, "check")
}

/// The first word of `line`, or the empty text when it has no word.
pub open spec fn first_word(line: Seq<char>) -> Seq<char> {
    if words_of(line).len() > 0 {
        words_of(line)[0]
    } else {
        Seq::empty()
    }
}

/// The lines of a model file, sorted by what they declare. Every list
/// holds line numbers, counted from 0.
pub struct SortedSpec {
    pub variables: Seq<usize>,
    pub groups: Seq<Seq<usize>>,
    pub current: Seq<usize>,
    pub targets: Seq<usize>,
}

/// The first `upto` lines sorted by their first words, or the error about
/// the first line that is not empty and starts with no known word.
///
/// A line that starts a transition closes the group of the transition
/// before it, if that has any line, and opens a new one; a change or a
/// rate joins the open group.
pub open spec fn sorted(lines: Seq<Seq<char>>, upto: nat) -> Result<SortedSpec, FaultSpec>
    decreases upto,
{
    if upto == 0 {
        Ok(
            SortedSpec {
                variables: Seq::empty(),
                groups: Seq::empty(),
                current: Seq::empty(),
                targets: Seq::empty(),
            },
        )
    } else {
        match sorted(lines, (upto - 1) as nat) {
            Err(e) => Err(e),
            Ok(s) => {
                let n = (upto - 1) as usize;
                let line = lines[upto - 1];
                let w = first_word(line);
                if is_variable_term(w) {
                    Ok(SortedSpec { variables: s.variables.push(n), ..s })
                } else if is_transition_term(w) {
                    if s.current.len() == 0 {
                        Ok(SortedSpec { current: seq![n], ..s })
                    } else {
                        Ok(SortedSpec { groups: s.groups.push(s.current), current: seq![n], ..s })
                    }
                } else if is_decrease_term(w) || is_increase_term(w) || is_rate_term(w) {
                    Ok(SortedSpec { current: s.current.push(n), ..s })
                } else if is_target_term(w) {
                    Ok(SortedSpec { targets: s.targets.push(n), ..s })
                } else if line.len() != 0 {
                    Err(FaultSpec { line: n, kind: ParseFault::UnexpextedTokenError, text: line })
                } else {
                    Ok(s)
                }
            },
        }
    }
}

/// The lines of a model file, sorted by what they declare.
pub struct SortedLines {
    pub variables: Vec<usize>,
    pub groups: Vec<Vec<usize>>,
    pub current: Vec<usize>,
    pub targets: Vec<usize>,
}

impl View for SortedLines {
    type V = SortedSpec;

    open spec fn view(&self) -> SortedSpec {
        SortedSpec {
            variables: self.variables@,
            groups: Seq::new(self.groups.len() as nat, |i: int| self.groups[i]@),
            current: self.current@,
            targets: self.targets@,
        }
    }
}

/// Sorts `lines` by their first words.
fn sort_lines(lines: &Vec<String>) -> (r: Result<SortedLines, ModelParseError>)
    ensures
        match r {
            Ok(s) => sorted(texts(lines@), lines@.len()) == Ok::<SortedSpec, FaultSpec>(s@),
            Err(e) => sorted(texts(lines@), lines@.len()) == Err::<SortedSpec, FaultSpec>(e@),
        },
{
    let ghost all = texts(lines@);
    let mut s = SortedLines {
        variables: Vec::new(),
        groups: Vec::new(),
        current: Vec::new(),
        targets: Vec::new(),
    };
    let mut n: usize = 0;
    proof {
        assert(s@.groups =~= Seq::<Seq<usize>>::empty());
    }
    while n < lines.len()
        invariant
            n <= lines.len(),
            all == texts(lines@),
            sorted(all, n as nat) == Ok::<SortedSpec, FaultSpec>(s@),
        decreases lines.len() - n,
    {
        let line = lines[n].as_str();
        assert(all[n as int] == line@);
        let words = split_words(line);
        let ghost before = s@;
        let ghost w = first_word(line@);
        let first: &str = if words.len() > 0 {
            assert(texts(words@)[0] == words[0]@);
            words[0].as_str()
        } else {
            ""
        };
        proof {
            reveal_strlit("");
            assert(first@ == w);
        }
        if variable_term(first) {
            s.variables.push(n);
            proof {
                assert(s@.groups =~= before.groups);
            }
        } else if transition_term(first) {
            if s.current.len() == 0 {
                s.current.push(n);
                proof {
                    assert(s@.groups =~= before.groups);
                    assert(s@.current =~= seq![n]);
                }
            } else {
                let mut fresh: Vec<usize> = Vec::new();
                fresh.push(n);
                std::mem::swap(&mut s.current, &mut fresh);
                s.groups.push(fresh);
                proof {
                    assert(s@.groups =~= before.groups.push(before.current));
                    assert(s@.current =~= seq![n]);
                }
            }
        } else if decrease_term(first) || increase_term(first) || rate_term(first) {
            s.current.push(n);
            proof {
                assert(s@.groups =~= before.groups);
            }
        } else if target_term(first) {
            s.targets.push(n);
            proof {
                assert(s@.groups =~= before.groups);
            }
        } else if line.unicode_len() != 0 {
            proof {
                lemma_sort_failure_stays(all, (n + 1) as nat, lines@.len());
            }
            return Err(ModelParseError::unexpected_token(n, line));
        } else {
            proof {
                assert(s@.groups =~= before.groups);
            }
        }
        n += 1;
    }
    Ok(s)
}

/// An error among the first lines remains the error however many more
/// lines are sorted.
pub proof fn lemma_sort_failure_stays(lines: Seq<Seq<char>>, upto: nat, total: nat)
    requires
        upto <= total,
        sorted(lines, upto) is Err,
    ensures
        sorted(lines, total) == sorted(lines, upto),
    decreases total,
{
    if upto < total {
        lemma_sort_failure_stays(lines, upto, (total - 1) as nat);
    }
}

/// Whether every line number in the sorted lists is below `bound`.
pub open spec fn numbers_below(s: SortedSpec, bound: nat) -> bool {
    &&& forall|i: int| 0 <= i < s.variables.len() ==> #[trigger] s.variables[i] < bound
    &&& forall|i: int| 0 <= i < s.current.len() ==> #[trigger] s.current[i] < bound
    &&& forall|i: int| 0 <= i < s.targets.len() ==> #[trigger] s.targets[i] < bound
    &&& forall|g: int, i: int|
        0 <= g < s.groups.len() && 0 <= i < s.groups[g].len() ==> #[trigger] s.groups[g][i] < bound
}

/// Every line number in the sorted lists is the number of one of the lines
/// sorted.
pub proof fn lemma_sorted_within(lines: Seq<Seq<char>>, upto: nat)
    requires
        upto <= usize::MAX,
    ensures
        sorted(lines, upto) is Ok ==> numbers_below(sorted(lines, upto)->Ok_0, upto),
    decreases upto,
{
    if upto > 0 {
        lemma_sorted_within(lines, (upto - 1) as nat);
        if sorted(lines, upto) is Ok {
            let before = sorted(lines, (upto - 1) as nat)->Ok_0;
            let now = sorted(lines, upto)->Ok_0;
            assert(numbers_below(before, (upto - 1) as nat));
            assert forall|g: int, i: int|
                0 <= g < now.groups.len() && 0 <= i < now.groups[g].len() implies #[trigger] now.groups[g][i]
                < upto by {
                if g < before.groups.len() {
                    assert(now.groups[g] == before.groups[g]);
                    assert(before.groups[g][i] < upto - 1);
                } else {
                    assert(now.groups[g] == before.current);
                    assert(before.current[i] < upto - 1);
                }
            }
            assert forall|i: int| 0 <= i < now.variables.len() implies #[trigger] now.variables[i]
                < upto by {
                if i < before.variables.len() {
                    assert(before.variables[i] < upto - 1);
                }
            }
            assert forall|i: int| 0 <= i < now.targets.len() implies #[trigger] now.targets[i]
                < upto by {
                if i < before.targets.len() {
                    assert(before.targets[i] < upto - 1);
                }
            }
            assert forall|i: int| 0 <= i < now.current.len() implies #[trigger] now.current[i]
                < upto by {
                if i < before.current.len() && now.current.len() >= before.current.len() {
                    assert(before.current[i] < upto - 1);
                }
            }
        }
    }
}

/// Position of the first of `names` that is `name`, or the number of
/// names when none is.
pub open spec fn position_of_text(names: Seq<Seq<char>>, name: Seq<char>) -> int
    decreases names.len(),
{
    if names.len() == 0 {
        0
    } else if names[0] == name {
        0
    } else {
        1 + position_of_text(names.drop_first(), name)
    }
}

/// `position_of_text` gives a place within the names or just past them.
pub proof fn lemma_position_of_text(names: Seq<Seq<char>>, name: Seq<char>)
    ensures
        0 <= position_of_text(names, name) <= names.len(),
    decreases names.len(),
{
    if names.len() > 0 && names[0] != name {
        lemma_position_of_text(names.drop_first(), name);
    }
}

/// Position of the first of `names` that is `name`, or the number of
/// names when none is.
fn get_variable_id(names: &Vec<String>, name: &str) -> (r: usize)
    ensures
        r == position_of_text(texts(names@), name@),
        r <= names.len(),
{
    let ghost all = texts(names@);
    let mut i: usize = 0;
    proof {
        assert(all.skip(0) =~= all);
    }
    while i < names.len()
        invariant
            i <= names.len(),
            all == texts(names@),
            position_of_text(all, name@) == i + position_of_text(all.skip(i as int), name@),
        decreases names.len() - i,
    {
        assert(all.skip(i as int)[0] == names[i as int]@);
        if same_text(names[i].as_str(), name) {
            return i;
        }
        proof {
            assert(all.skip(i as int).drop_first() =~= all.skip(i + 1));
        }
        i += 1;
    }
    i
}

/// The error that quotes a whole line as an unexpected token.
pub open spec fn unexpected(n: usize, line: Seq<char>) -> FaultSpec {
    FaultSpec { line: n, kind: ParseFault::UnexpextedTokenError, text: line }
}

/// The names and initial values that the first `upto` of the variable
/// lines `numbers` declare, or the error of the first line that declares
/// none.
///
/// A line of two words declares the variable named by the second, with the
/// initial value 0. A line of four words, the third of which announces an
/// initial value, declares the variable with the value that the fourth
/// word writes.
pub open spec fn variables_read(lines: Seq<Seq<char>>, numbers: Seq<usize>, upto: nat) -> Result<
    (Seq<Seq<char>>, Seq<VasValue>),
    FaultSpec,
>
    decreases upto,
{
    if upto == 0 {
        Ok((Seq::empty(), Seq::empty()))
    } else {
        match variables_read(lines, numbers, (upto - 1) as nat) {
            Err(e) => Err(e),
            Ok((names, init)) => {
                let n = numbers[upto - 1];
                let line = lines[n as int];
                let w = words_of(line);
                if w.len() == 2 {
                    Ok((names.push(w[1]), init.push(0)))
                } else if w.len() == 4 {
                    if is_initial_term(w[2]) {
                        match value_of(w[3]) {
                            Some(v) => Ok((names.push(w[1]), init.push(v))),
                            None => Err(
                                FaultSpec {
                                    line: n,
                                    kind: ParseFault::InvalidInitialVariableCount,
                                    text: w[3],
                                },
                            ),
                        }
                    } else {
                        Err(FaultSpec { line: n, kind: ParseFault::InitUnspecified, text: w[1] })
                    }
                } else {
                    Err(unexpected(n, line))
                }
            },
        }
    }
}

/// An error among the first variable lines remains the error.
pub proof fn lemma_variables_failure_stays(
    lines: Seq<Seq<char>>,
    numbers: Seq<usize>,
    upto: nat,
    total: nat,
)
    requires
        upto <= total,
        variables_read(lines, numbers, upto) is Err,
    ensures
        variables_read(lines, numbers, total) == variables_read(lines, numbers, upto),
    decreases total,
{
    if upto < total {
        lemma_variables_failure_stays(lines, numbers, upto, (total - 1) as nat);
    }
}

/// Reads the variables that the lines `numbers` declare.
fn build_variables(lines: &Vec<String>, numbers: &Vec<usize>) -> (r: Result<
    (Vec<String>, Vec<VasValue>),
    ModelParseError,
>)
    requires
        forall|i: int| 0 <= i < numbers.len() ==> #[trigger] numbers[i] < lines.len(),
    ensures
        match r {
            Ok((names, init)) => variables_read(texts(lines@), numbers@, numbers@.len()) == Ok::<
                (Seq<Seq<char>>, Seq<VasValue>),
                FaultSpec,
            >((texts(names@), init@)),
            Err(e) => variables_read(texts(lines@), numbers@, numbers@.len()) == Err::<
                (Seq<Seq<char>>, Seq<VasValue>),
                FaultSpec,
            >(e@),
        },
{
    let ghost all = texts(lines@);
    let mut names: Vec<String> = Vec::new();
    let mut init: Vec<VasValue> = Vec::new();
    let mut i: usize = 0;
    proof {
        assert(texts(names@) =~= Seq::<Seq<char>>::empty());
    }
    while i < numbers.len()
        invariant
            i <= numbers.len(),
            all == texts(lines@),
            forall|k: int| 0 <= k < numbers.len() ==> #[trigger] numbers[k] < lines.len(),
            variables_read(all, numbers@, i as nat) == Ok::<
                (Seq<Seq<char>>, Seq<VasValue>),
                FaultSpec,
            >((texts(names@), init@)),
        decreases numbers.len() - i,
    {
        let n = numbers[i];
        assert(numbers@[i as int] < lines.len());
        let line = lines[n].as_str();
        assert(all[n as int] == line@);
        let words = split_words(line);
        let ghost w = words_of(line@);
        let ghost before = texts(names@);
        proof {
            assert(texts(words@).len() == words.len());
        }
        if words.len() == 2 {
            assert(texts(words@)[1] == words[1]@);
            names.push(words[1].clone());
            init.push(0);
            proof {
                assert(texts(names@) =~= before.push(w[1]));
            }
        } else if words.len() == 4 {
            assert(texts(words@)[1] == words[1]@);
            assert(texts(words@)[2] == words[2]@);
            assert(texts(words@)[3] == words[3]@);
            if initial_term(words[2].as_str()) {
                match parse_value(words[3].as_str()) {
                    Some(v) => {
                        names.push(words[1].clone());
                        init.push(v);
                        proof {
                            assert(texts(names@) =~= before.push(w[1]));
                        }
                    },
                    None => {
                        proof {
                            lemma_variables_failure_stays(
                                all,
                                numbers@,
                                (i + 1) as nat,
                                numbers@.len(),
                            );
                        }
                        return Err(
                            ModelParseError::invalid_init(n, words[3].as_str()),
                        );
                    },
                }
            } else {
                proof {
                    lemma_variables_failure_stays(all, numbers@, (i + 1) as nat, numbers@.len());
                }
                return Err(
                    ModelParseError::init_unspecified(n, words[1].as_str()),
                );
            }
        } else {
            proof {
                lemma_variables_failure_stays(all, numbers@, (i + 1) as nat, numbers@.len());
            }
            return Err(ModelParseError::unexpected_token(n, line));
        }
        i += 1;
    }
    Ok((names, init))
}

/// What is said of a model with no target line, or with more than one.
pub open spec fn single_line_message() -> Seq<char> {
    "Model parsing error: property must be a single line."@
}

/// The target that the target lines `numbers` declare for the variables
/// `names`, or the error.
///
/// There must be one target line. Its second word names the variable; its
/// fourth word, which must be its last, writes the value.
pub open spec fn property_read(lines: Seq<Seq<char>>, numbers: Seq<usize>, names: Seq<Seq<char>>) -> Result<
    VasProperty,
    FaultSpec,
> {
    if numbers.len() != 1 {
        Err(FaultSpec { line: 0, kind: ParseFault::GeneralParseError, text: single_line_message() })
    } else {
        let n = numbers[0];
        let line = lines[n as int];
        let w = words_of(line);
        let name = if w.len() > 1 {
            w[1]
        } else {
            Seq::empty()
        };
        let p = position_of_text(names, name);
        if p >= names.len() {
            Err(FaultSpec { line: n, kind: ParseFault::UnspecifiedVariableError, text: name })
        } else if w.len() == 4 {
            match value_of(w[3]) {
                Some(v) => Ok(VasProperty { variable_index: p as usize, target_value: v }),
                None => Err(FaultSpec { line: n, kind: ParseFault::ExpectedInteger, text: w[2] }),
            }
        } else {
            Err(unexpected(n, line))
        }
    }
}

/// Reads the target that the lines `numbers` declare.
pub fn build_property(lines: &Vec<String>, numbers: &Vec<usize>, names: &Vec<String>) -> (r: Result<
    VasProperty,
    ModelParseError,
>)
    requires
        forall|i: int| 0 <= i < numbers.len() ==> #[trigger] numbers[i] < lines.len(),
    ensures
        match r {
            Ok(p) => property_read(texts(lines@), numbers@, texts(names@)) == Ok::<
                VasProperty,
                FaultSpec,
            >(p),
            Err(e) => property_read(texts(lines@), numbers@, texts(names@)) == Err::<
                VasProperty,
                FaultSpec,
            >(e@),
        },
{
    if numbers.len() != 1 {
        return Err(
            ModelParseError::general(0, "Model parsing error: property must be a single line."),
        );
    }
    let n = numbers[0];
    let line = lines[n].as_str();
    assert(texts(lines@)[n as int] == line@);
    let words = split_words(line);
    proof {
        assert(texts(words@).len() == words.len());
        reveal_strlit("");
    }
    let name: &str = if words.len() > 1 {
        assert(texts(words@)[1] == words[1]@);
        words[1].as_str()
    } else {
        ""
    };
    proof {
        let w = words_of(line@);
        assert(w == texts(words@));
        assert(name@ == (if w.len() > 1 {
            w[1]
        } else {
            Seq::<char>::empty()
        }));
        assert(numbers@[0] == n);
        lemma_position_of_text(texts(names@), name@);
    }
    let p = get_variable_id(names, name);
    if p >= names.len() {
        return Err(ModelParseError::unspecified_variable(n, name));
    }
    if words.len() == 4 {
        assert(texts(words@)[2] == words[2]@);
        assert(texts(words@)[3] == words[3]@);
        match parse_value(words[3].as_str()) {
            Some(v) => Ok(VasProperty { variable_index: p, target_value: v }),
            None => Err(
                ModelParseError::expected_integer(n, words[2].as_str())),
        }
    } else {
        Err(ModelParseError::unexpected_token(n, line))
    }
}

/// A transition while its lines are read.
pub struct DraftSpec {
    pub name: Seq<char>,
    pub increment: Seq<VasValue>,
    pub decrement: Seq<VasValue>,
    pub produced: Seq<bool>,
    pub consumed: Seq<bool>,
    pub rate_bits: u64,
}

/// What is said of a variable that a transition consumes twice.
pub open spec fn decreases_twice_message(name: Seq<char>) -> Seq<char> {
    "Model parsing error: variable "@ + name
        + " decreases by multiple declared values in the same transition."@
}

/// What is said of a variable that a transition produces twice.
pub open spec fn increases_twice_message(name: Seq<char>) -> Seq<char> {
    "Model parsing error: variable "@ + name
        + " increases by multiple declared values in the same transition."@
}

/// The amount that the words `w` of a change declare: 1 when no amount is
/// given, and the amount that the third word writes, which must not be
/// negative, when it is the last.
pub open spec fn count_read(w: Seq<Seq<char>>, n: usize, line: Seq<char>) -> Result<
    VasValue,
    FaultSpec,
> {
    if w.len() == 2 {
        Ok(1)
    } else if w.len() == 3 {
        match value_of(w[2]) {
            Some(c) => if c < 0 {
                Err(unexpected(n, line))
            } else {
                Ok(c)
            },
            None => Err(unexpected(n, line)),
        }
    } else {
        Err(unexpected(n, line))
    }
}

/// Whether line `line` hands a rate to be read: it declares a rate and has
/// one word after that.
pub open spec fn asks_rate(line: Seq<char>) -> bool {
    is_rate_term(first_word(line)) && words_of(line).len() == 2
}

/// The draft after line `n` is read, or the error of that line.
///
/// A line that starts a transition gives the name; a change sets the
/// amount consumed or produced of its variable, once per variable; a
/// rate line sets the rate to what `rates` holds for the line.
pub open spec fn line_read(
    draft: DraftSpec,
    lines: Seq<Seq<char>>,
    n: usize,
    names: Seq<Seq<char>>,
    rates: Seq<Option<u64>>,
) -> Result<DraftSpec, FaultSpec> {
    let line = lines[n as int];
    let w = words_of(line);
    let first = first_word(line);
    if is_transition_term(first) {
        if w.len() == 2 {
            Ok(DraftSpec { name: w[1], ..draft })
        } else {
            Err(unexpected(n, line))
        }
    } else if is_decrease_term(first) {
        match count_read(w, n, line) {
            Err(e) => Err(e),
            Ok(c) => {
                let p = position_of_text(names, w[1]);
                if p < names.len() {
                    if draft.consumed[p] {
                        Err(
                            FaultSpec {
                                line: n,
                                kind: ParseFault::GeneralParseError,
                                text: decreases_twice_message(w[1]),
                            },
                        )
                    } else {
                        Ok(
                            DraftSpec {
                                decrement: draft.decrement.update(p, c),
                                consumed: draft.consumed.update(p, true),
                                ..draft
                            },
                        )
                    }
                } else {
                    Err(
                        FaultSpec {
                            line: n,
                            kind: ParseFault::UnspecifiedVariableError,
                            text: w[1],
                        },
                    )
                }
            },
        }
    } else if is_increase_term(first) {
        match count_read(w, n, line) {
            Err(e) => Err(e),
            Ok(c) => {
                let p = position_of_text(names, w[1]);
                if p < names.len() {
                    if draft.produced[p] {
                        Err(
                            FaultSpec {
                                line: n,
                                kind: ParseFault::GeneralParseError,
                                text: increases_twice_message(w[1]),
                            },
                        )
                    } else {
                        Ok(
                            DraftSpec {
                                increment: draft.increment.update(p, c),
                                produced: draft.produced.update(p, true),
                                ..draft
                            },
                        )
                    }
                } else {
                    Err(
                        FaultSpec {
                            line: n,
                            kind: ParseFault::UnspecifiedVariableError,
                            text: w[1],
                        },
                    )
                }
            },
        }
    } else if is_rate_term(first) {
        if w.len() == 2 {
            match rates[n as int] {
                Some(bits) => Ok(DraftSpec { rate_bits: bits, ..draft }),
                None => Err(FaultSpec { line: n, kind: ParseFault::ExpectedFloat, text: w[1] }),
            }
        } else {
            Err(unexpected(n, line))
        }
    } else {
        Err(unexpected(n, line))
    }
}

/// The draft that no line has touched: no name, nothing consumed or
/// produced, and the rate whose bits are all 0.
pub open spec fn blank_draft(dimension: nat) -> DraftSpec {
    DraftSpec {
        name: Seq::empty(),
        increment: Seq::new(dimension, |i: int| 0i128),
        decrement: Seq::new(dimension, |i: int| 0i128),
        produced: Seq::new(dimension, |i: int| false),
        consumed: Seq::new(dimension, |i: int| false),
        rate_bits: 0,
    }
}

/// The draft after the first `upto` lines of `group`, or the error of the
/// first line that has one.
pub open spec fn group_read(
    lines: Seq<Seq<char>>,
    group: Seq<usize>,
    names: Seq<Seq<char>>,
    rates: Seq<Option<u64>>,
    upto: nat,
) -> Result<DraftSpec, FaultSpec>
    decreases upto,
{
    if upto == 0 {
        Ok(blank_draft(names.len()))
    } else {
        match group_read(lines, group, names, rates, (upto - 1) as nat) {
            Err(e) => Err(e),
            Ok(draft) => line_read(draft, lines, group[upto - 1], names, rates),
        }
    }
}

/// The transition that `draft` gives when it gets the id `id`: it
/// consumes what it takes away, needs at least that to fire, and changes
/// every variable by what it produces less what it consumes.
pub open spec fn finished(draft: DraftSpec, id: usize) -> TransitionSpec {
    TransitionSpec {
        id,
        name: draft.name,
        update: Seq::new(
            draft.increment.len(),
            |i: int| (draft.increment[i] - draft.decrement[i]) as VasValue,
        ),
        bounds: draft.decrement,
        rate_bits: draft.rate_bits,
    }
}

/// The transitions that the first `upto` of `groups` declare, each with
/// its place among the groups as its id, or the error of the first group
/// that has one.
pub open spec fn transitions_read(
    lines: Seq<Seq<char>>,
    groups: Seq<Seq<usize>>,
    names: Seq<Seq<char>>,
    rates: Seq<Option<u64>>,
    upto: nat,
) -> Result<Seq<TransitionSpec>, FaultSpec>
    decreases upto,
{
    if upto == 0 {
        Ok(Seq::empty())
    } else {
        match transitions_read(lines, groups, names, rates, (upto - 1) as nat) {
            Err(e) => Err(e),
            Ok(ts) => match group_read(lines, groups[upto - 1], names, rates, groups[upto - 1].len()) {
                Err(e) => Err(e),
                Ok(draft) => Ok(ts.push(finished(draft, (upto - 1) as usize))),
            },
        }
    }
}

/// An error among the first lines of a group remains the error.
pub proof fn lemma_group_failure_stays(
    lines: Seq<Seq<char>>,
    group: Seq<usize>,
    names: Seq<Seq<char>>,
    rates: Seq<Option<u64>>,
    upto: nat,
    total: nat,
)
    requires
        upto <= total,
        group_read(lines, group, names, rates, upto) is Err,
    ensures
        group_read(lines, group, names, rates, total) == group_read(
            lines,
            group,
            names,
            rates,
            upto,
        ),
    decreases total,
{
    if upto < total {
        lemma_group_failure_stays(lines, group, names, rates, upto, (total - 1) as nat);
    }
}

/// An error among the first groups remains the error.
pub proof fn lemma_transitions_failure_stays(
    lines: Seq<Seq<char>>,
    groups: Seq<Seq<usize>>,
    names: Seq<Seq<char>>,
    rates: Seq<Option<u64>>,
    upto: nat,
    total: nat,
)
    requires
        upto <= total,
        transitions_read(lines, groups, names, rates, upto) is Err,
    ensures
        transitions_read(lines, groups, names, rates, total) == transitions_read(
            lines,
            groups,
            names,
            rates,
            upto,
        ),
    decreases total,
{
    if upto < total {
        lemma_transitions_failure_stays(lines, groups, names, rates, upto, (total - 1) as nat);
    }
}

/// The amount that the words of a change declare.
fn read_count(words: &Vec<String>, n: usize, line: &str) -> (r: Result<VasValue, ModelParseError>)
    ensures
        match r {
            Ok(c) => count_read(texts(words@), n, line@) == Ok::<VasValue, FaultSpec>(c) && c >= 0,
            Err(e) => count_read(texts(words@), n, line@) == Err::<VasValue, FaultSpec>(e@),
        },
{
    proof {
        assert(texts(words@).len() == words.len());
    }
    if words.len() == 2 {
        Ok(1)
    } else if words.len() == 3 {
        assert(texts(words@)[2] == words[2]@);
        match parse_value(words[2].as_str()) {
            Some(c) => if c < 0 {
                Err(ModelParseError::unexpected_token(n, line))
            } else {
                Ok(c)
            },
            None => Err(ModelParseError::unexpected_token(n, line)),
        }
    } else {
        Err(ModelParseError::unexpected_token(n, line))
    }
}

/// A transition while its lines are read.
pub struct Draft {
    pub name: String,
    pub increment: Vec<VasValue>,
    pub decrement: Vec<VasValue>,
    pub produced: Vec<bool>,
    pub consumed: Vec<bool>,
    pub rate_bits: u64,
}

impl View for Draft {
    type V = DraftSpec;

    open spec fn view(&self) -> DraftSpec {
        DraftSpec {
            name: self.name@,
            increment: self.increment@,
            decrement: self.decrement@,
            produced: self.produced@,
            consumed: self.consumed@,
            rate_bits: self.rate_bits,
        }
    }
}

/// Whether `draft` has one amount per variable and no negative amount.
pub open spec fn draft_sound(draft: DraftSpec, dimension: nat) -> bool {
    &&& draft.increment.len() == dimension
    &&& draft.decrement.len() == dimension
    &&& draft.produced.len() == dimension
    &&& draft.consumed.len() == dimension
    &&& forall|i: int| 0 <= i < dimension ==> draft.increment[i] >= 0
    &&& forall|i: int| 0 <= i < dimension ==> draft.decrement[i] >= 0
}

/// A list of `len` marks, none of them set.
fn unset(len: usize) -> (r: Vec<bool>)
    ensures
        r@ == Seq::new(len as nat, |i: int| false),
{
    let mut r: Vec<bool> = Vec::new();
    let mut i: usize = 0;
    while i < len
        invariant
            i <= len,
            r@ == Seq::new(i as nat, |j: int| false),
        decreases len - i,
    {
        r.push(false);
        i += 1;
    }
    r
}

/// Reads line `n` into `draft`.
fn read_line(
    draft: &mut Draft,
    lines: &Vec<String>,
    n: usize,
    names: &Vec<String>,
    rates: &Vec<Option<u64>>,
) -> (r: Result<(), ModelParseError>)
    requires
        n < lines.len(),
        rates.len() == lines.len(),
        draft_sound(old(draft)@, names.len() as nat),
    ensures
        match r {
            Ok(()) => line_read(old(draft)@, texts(lines@), n, texts(names@), rates@) == Ok::<
                DraftSpec,
                FaultSpec,
            >(final(draft)@) && draft_sound(final(draft)@, names.len() as nat),
            Err(e) => line_read(old(draft)@, texts(lines@), n, texts(names@), rates@) == Err::<
                DraftSpec,
                FaultSpec,
            >(e@),
        },
{
    let line = lines[n].as_str();
    assert(texts(lines@)[n as int] == line@);
    let words = split_words(line);
    let ghost w = words_of(line@);
    proof {
        assert(w == texts(words@));
        assert(w.len() == words.len());
        assert(texts(names@).len() == names.len());
        reveal_strlit("");
    }
    let first: &str = if words.len() > 0 {
        assert(texts(words@)[0] == words[0]@);
        words[0].as_str()
    } else {
        ""
    };
    assert(first@ == first_word(line@));
    if transition_term(first) {
        if words.len() == 2 {
            assert(texts(words@)[1] == words[1]@);
            draft.name = words[1].clone();
            Ok(())
        } else {
            Err(ModelParseError::unexpected_token(n, line))
        }
    } else if decrease_term(first) {
        let count = match read_count(&words, n, line) {
            Ok(c) => c,
            Err(e) => {
                return Err(e);
            },
        };
        assert(texts(words@)[1] == words[1]@);
        let name = words[1].as_str();
        let p = get_variable_id(names, name);
        if p < names.len() {
            if draft.consumed[p] {
                let message = String::from_str("Model parsing error: variable ").concat(
                    name,
                ).concat(" decreases by multiple declared values in the same transition.");
                Err(ModelParseError::general(n, message.as_str()))
            } else {
                draft.decrement.set(p, count);
                draft.consumed.set(p, true);
                Ok(())
            }
        } else {
            Err(ModelParseError::unspecified_variable(n, name))
        }
    } else if increase_term(first) {
        let count = match read_count(&words, n, line) {
            Ok(c) => c,
            Err(e) => {
                return Err(e);
            },
        };
        assert(texts(words@)[1] == words[1]@);
        let name = words[1].as_str();
        let p = get_variable_id(names, name);
        if p < names.len() {
            if draft.produced[p] {
                let message = String::from_str("Model parsing error: variable ").concat(
                    name,
                ).concat(" increases by multiple declared values in the same transition.");
                Err(ModelParseError::general(n, message.as_str()))
            } else {
                draft.increment.set(p, count);
                draft.produced.set(p, true);
                Ok(())
            }
        } else {
            Err(ModelParseError::unspecified_variable(n, name))
        }
    } else if rate_term(first) {
        if words.len() == 2 {
            assert(texts(words@)[1] == words[1]@);
            match rates[n] {
                Some(bits) => {
                    draft.rate_bits = bits;
                    Ok(())
                },
                None => Err(
                    ModelParseError::expected_float(n, words[1].as_str())),
            }
        } else {
            Err(ModelParseError::unexpected_token(n, line))
        }
    } else {
        Err(ModelParseError::unexpected_token(n, line))
    }
}

/// Reads the transitions that `groups` declare.
fn build_transitions(
    lines: &Vec<String>,
    groups: &Vec<Vec<usize>>,
    names: &Vec<String>,
    rates: &Vec<Option<u64>>,
) -> (r: Result<Vec<VasTransition>, ModelParseError>)
    requires
        rates.len() == lines.len(),
        forall|g: int, i: int|
            0 <= g < groups.len() && 0 <= i < groups[g].len() ==> #[trigger] groups[g][i]
                < lines.len(),
    ensures
        match r {
            Ok(ts) => transitions_read(
                texts(lines@),
                Seq::new(groups.len() as nat, |g: int| groups[g]@),
                texts(names@),
                rates@,
                groups.len() as nat,
            ) == Ok::<Seq<TransitionSpec>, FaultSpec>(transition_specs(ts@)),
            Err(e) => transitions_read(
                texts(lines@),
                Seq::new(groups.len() as nat, |g: int| groups[g]@),
                texts(names@),
                rates@,
                groups.len() as nat,
            ) == Err::<Seq<TransitionSpec>, FaultSpec>(e@),
        },
{
    let ghost all = texts(lines@);
    let ghost grouped = Seq::new(groups.len() as nat, |g: int| groups[g]@);
    let ghost named = texts(names@);
    let dimension = names.len();
    let mut out: Vec<VasTransition> = Vec::new();
    let mut g: usize = 0;
    proof {
        assert(transition_specs(out@) =~= Seq::<TransitionSpec>::empty());
        assert(named.len() == names.len());
    }
    while g < groups.len()
        invariant
            g <= groups.len(),
            all == texts(lines@),
            grouped == Seq::new(groups.len() as nat, |g: int| groups[g]@),
            named == texts(names@),
            dimension == names.len(),
            rates.len() == lines.len(),
            forall|a: int, i: int|
                0 <= a < groups.len() && 0 <= i < groups[a].len() ==> #[trigger] groups[a][i]
                    < lines.len(),
            transitions_read(all, grouped, named, rates@, g as nat) == Ok::<
                Seq<TransitionSpec>,
                FaultSpec,
            >(transition_specs(out@)),
        decreases groups.len() - g,
    {
        let group = &groups[g];
        assert(grouped[g as int] == group@);
        let mut draft = Draft {
            name: String::new(),
            increment: filled(dimension, 0),
            decrement: filled(dimension, 0),
            produced: unset(dimension),
            consumed: unset(dimension),
            rate_bits: 0,
        };
        proof {
            assert(draft@.name =~= blank_draft(named.len()).name);
            assert(draft@ == blank_draft(named.len()));
        }
        let mut i: usize = 0;
        while i < group.len()
            invariant
                i <= group.len(),
                g < groups.len(),
                *group == groups[g as int],
                all == texts(lines@),
                named == texts(names@),
                dimension == names.len(),
                rates.len() == lines.len(),
                forall|a: int, k: int|
                    0 <= a < groups.len() && 0 <= k < groups[a].len() ==> #[trigger] groups[a][k]
                        < lines.len(),
                draft_sound(draft@, dimension as nat),
                group_read(all, group@, named, rates@, i as nat) == Ok::<DraftSpec, FaultSpec>(
                    draft@,
                ),
                grouped == Seq::new(groups.len() as nat, |g: int| groups[g]@),
                transitions_read(all, grouped, named, rates@, g as nat) == Ok::<
                    Seq<TransitionSpec>,
                    FaultSpec,
                >(transition_specs(out@)),
            decreases group.len() - i,
        {
            let n = group[i];
            assert(groups[g as int][i as int] < lines.len());
            match read_line(&mut draft, lines, n, names, rates) {
                Ok(()) => {},
                Err(e) => {
                    proof {
                        lemma_group_failure_stays(
                            all,
                            group@,
                            named,
                            rates@,
                            (i + 1) as nat,
                            group@.len(),
                        );
                        lemma_transitions_failure_stays(
                            all,
                            grouped,
                            named,
                            rates@,
                            (g + 1) as nat,
                            grouped.len(),
                        );
                    }
                    return Err(e);
                },
            }
            i += 1;
        }
        let ghost done = draft@;
        let ghost before = transition_specs(out@);
        let Draft { name, increment, decrement, produced: _, consumed: _, rate_bits } = draft;
        let t = VasTransition::new(g, name, increment, decrement, rate_bits);
        proof {
            assert(t@.update =~= finished(done, g).update);
            assert(t@ == finished(done, g));
        }
        out.push(t);
        proof {
            assert(transition_specs(out@) =~= before.push(finished(done, g)));
        }
        g += 1;
    }
    Ok(out)
}

/// The model that `lines` declare when `rates` holds, line by line, what
/// the rate words stand for; or the first error.
///
/// The groups of lines that declare transitions: the groups that were
/// closed, and after them the group that is still open at the end of the
/// file, when it has a line.
pub open spec fn all_groups(s: SortedSpec) -> Seq<Seq<usize>> {
    if s.current.len() == 0 {
        s.groups
    } else {
        s.groups.push(s.current)
    }
}

/// The lines are sorted first. Then the variables are read, then the
/// target, then the transitions, group by group. The model is in
/// continuous time and has one initial state.
pub open spec fn model_read(lines: Seq<Seq<char>>, rates: Seq<Option<u64>>) -> Result<
    ModelSpec,
    FaultSpec,
> {
    match sorted(lines, lines.len()) {
        Err(e) => Err(e),
        Ok(s) => match variables_read(lines, s.variables, s.variables.len()) {
            Err(e) => Err(e),
            Ok((names, init)) => match property_read(lines, s.targets, names) {
                Err(e) => Err(e),
                Ok(target) => match transitions_read(
                    lines,
                    all_groups(s),
                    names,
                    rates,
                    all_groups(s).len(),
                ) {
                    Err(e) => Err(e),
                    Ok(transitions) => Ok(
                        ModelSpec {
                            names,
                            initial: seq![init],
                            transitions,
                            m_type: ModelType::ContinuousTime,
                            target,
                        },
                    ),
                },
            },
        },
    }
}

/// Whether `answer` is an answer that `parse_rate` can give for a word
/// that reads `word`.
pub open spec fn rate_answered<R: Fn(&str) -> Option<u64>>(
    parse_rate: &R,
    word: Seq<char>,
    answer: Option<u64>,
) -> bool {
    exists|text: &str| #[trigger] text@ == word && call_ensures(parse_rate, (text,), answer)
}

/// Whether `rates` holds, for every line that hands a rate to be read, an
/// answer of `parse_rate` for the word after the first, and nothing for
/// any other line.
pub open spec fn rates_read<R: Fn(&str) -> Option<u64>>(
    parse_rate: &R,
    lines: Seq<Seq<char>>,
    rates: Seq<Option<u64>>,
) -> bool {
    &&& rates.len() == lines.len()
    &&& forall|n: int|
        0 <= n < lines.len() ==> if asks_rate(lines[n]) {
            rate_answered(parse_rate, words_of(lines[n])[1], #[trigger] rates[n])
        } else {
            rates[n] is None
        }
}

/// Hands every rate word to `parse_rate`.
fn read_rates<R: Fn(&str) -> Option<u64>>(lines: &Vec<String>, parse_rate: &R) -> (r: Vec<
    Option<u64>,
>)
    requires
        forall|text: &str| call_requires(parse_rate, (text,)),
    ensures
        rates_read(parse_rate, texts(lines@), r@),
{
    let ghost all = texts(lines@);
    let mut out: Vec<Option<u64>> = Vec::new();
    let mut n: usize = 0;
    while n < lines.len()
        invariant
            n <= lines.len(),
            all == texts(lines@),
            forall|text: &str| call_requires(parse_rate, (text,)),
            out.len() == n,
            forall|k: int|
                0 <= k < n ==> if asks_rate(all[k]) {
                    rate_answered(parse_rate, words_of(all[k])[1], #[trigger] out[k])
                } else {
                    out[k] is None
                },
        decreases lines.len() - n,
    {
        let line = lines[n].as_str();
        assert(all[n as int] == line@);
        let words = split_words(line);
        proof {
            assert(texts(words@).len() == words.len());
            reveal_strlit("");
        }
        let first: &str = if words.len() > 0 {
            assert(texts(words@)[0] == words[0]@);
            words[0].as_str()
        } else {
            ""
        };
        assert(first@ == first_word(line@));
        if rate_term(first) && words.len() == 2 {
            assert(texts(words@)[1] == words[1]@);
            let word = words[1].as_str();
            let answer = parse_rate(word);
            proof {
                assert(word@ == words_of(all[n as int])[1]);
                assert(rate_answered(parse_rate, words_of(all[n as int])[1], answer));
            }
            out.push(answer);
        } else {
            out.push(None);
        }
        n += 1;
    }
    out
}

/// Whether `r` is what reading `lines` comes to when `parse_rate` reads
/// the rates: the model that `model_read` gives for answers of
/// `parse_rate`, or its first error.
pub open spec fn read_result<R: Fn(&str) -> Option<u64>>(
    parse_rate: &R,
    lines: Seq<Seq<char>>,
    r: Result<AbstractVas, ModelParseError>,
) -> bool {
    exists|rates: Seq<Option<u64>>|
        {
            &&& #[trigger] rates_read(parse_rate, lines, rates)
            &&& match r {
                Ok(model) => model_read(lines, rates) == Ok::<ModelSpec, FaultSpec>(model@),
                Err(e) => model_read(lines, rates) == Err::<ModelSpec, FaultSpec>(e@),
            }
        }
}

/// Reads a model from the lines of a model file.
///
/// `parse_rate` turns the word of a rate into the bits of the rate, or
/// into nothing when the word writes no number. It is asked about every
/// line that declares a rate with one word after it, whatever else the
/// file holds. The result is the model that `model_read` gives for the
/// answers, or its first error.
pub fn build_model<R: Fn(&str) -> Option<u64>>(lines: &Vec<String>, parse_rate: &R) -> (r: Result<
    AbstractVas,
    ModelParseError,
>)
    requires
        forall|text: &str| call_requires(parse_rate, (text,)),
    ensures
        read_result(parse_rate, texts(lines@), r),
        r matches Ok(model) ==> model@.well_formed(),
{
    let ghost all = texts(lines@);
    let rates = read_rates(lines, parse_rate);
    let sorted_lines = match sort_lines(lines) {
        Ok(s) => s,
        Err(e) => {
            assert(rates_read(parse_rate, all, rates@));
            return Err(e);
        },
    };
    let ghost s = sorted_lines@;
    proof {
        assert(lines@.len() == lines.len());
        assert(sorted(all, lines@.len()) == Ok::<SortedSpec, FaultSpec>(s));
        lemma_sorted_within(all, lines@.len());
        assert(all.len() == lines.len());
        assert(numbers_below(s, lines@.len()));
    }
    let SortedLines { variables, groups, current, targets } = sorted_lines;
    proof {
        assert(variables@ == s.variables);
        assert(targets@ == s.targets);
        assert(current@ == s.current);
        assert forall|i: int| 0 <= i < variables.len() implies #[trigger] variables[i]
            < lines.len() by {
            assert(s.variables[i] < lines.len());
        }
        assert forall|i: int| 0 <= i < targets.len() implies #[trigger] targets[i]
            < lines.len() by {
            assert(s.targets[i] < lines.len());
        }
    }
    let (names, init) = match build_variables(lines, &variables) {
        Ok(found) => found,
        Err(e) => {
            assert(rates_read(parse_rate, all, rates@));
            return Err(e);
        },
    };
    let target = match build_property(lines, &targets, &names) {
        Ok(found) => found,
        Err(e) => {
            assert(rates_read(parse_rate, all, rates@));
            return Err(e);
        },
    };
    let mut groups = groups;
    let ghost closed = Seq::new(groups.len() as nat, |g: int| groups[g]@);
    if current.len() > 0 {
        groups.push(current);
    }
    proof {
        assert(closed =~= s.groups);
        assert(Seq::new(groups.len() as nat, |g: int| groups[g]@) =~= all_groups(s));
        assert forall|g: int, i: int|
            0 <= g < groups.len() && 0 <= i < groups[g].len() implies #[trigger] groups[g][i]
            < lines.len() by {
            if g < s.groups.len() {
                assert(groups[g]@ == s.groups[g]);
                assert(s.groups[g][i] < lines.len());
            } else {
                assert(groups[g]@ == s.current);
                assert(s.current[i] < lines.len());
            }
        }
    }
    let transitions = match build_transitions(lines, &groups, &names, &rates) {
        Ok(found) => found,
        Err(e) => {
            assert(rates_read(parse_rate, all, rates@));
            return Err(e);
        },
    };
    let ghost read = transitions_read(
        all,
        all_groups(s),
        texts(names@),
        rates@,
        all_groups(s).len(),
    )->Ok_0;
    proof {
        lemma_variables_dimension(all, s.variables, s.variables.len());
        lemma_transitions_dimension(
            all,
            all_groups(s),
            texts(names@),
            rates@,
            all_groups(s).len(),
        );
    }
    let mut initial_states: Vec<VasState> = Vec::new();
    initial_states.push(VasState::new(init));
    let model = AbstractVas::new(names, initial_states, transitions, target);
    proof {
        assert(model@.initial =~= seq![init@]);
        assert(model@.names == texts(names@));
        assert(rates_read(parse_rate, all, rates@));
        assert(model@.well_formed()) by {
            assert forall|k: int| 0 <= k < model@.transitions.len() implies (
            #[trigger] model@.transitions[k]).has_dimension(model@.dimension()) by {
                assert(read[k].has_dimension(texts(names@).len()));
            }
        }
    }
    Ok(model)
}

/// The variables read come with one initial value each.
pub proof fn lemma_variables_dimension(lines: Seq<Seq<char>>, numbers: Seq<usize>, upto: nat)
    ensures
        variables_read(lines, numbers, upto) matches Ok(found) ==> found.0.len() == found.1.len(),
    decreases upto,
{
    if upto > 0 {
        lemma_variables_dimension(lines, numbers, (upto - 1) as nat);
    }
}

/// A draft has one amount per variable however many lines are read.
pub proof fn lemma_group_dimension(
    lines: Seq<Seq<char>>,
    group: Seq<usize>,
    names: Seq<Seq<char>>,
    rates: Seq<Option<u64>>,
    upto: nat,
)
    ensures
        group_read(lines, group, names, rates, upto) matches Ok(draft) ==> draft.increment.len()
            == names.len() && draft.decrement.len() == names.len(),
    decreases upto,
{
    if upto > 0 {
        lemma_group_dimension(lines, group, names, rates, (upto - 1) as nat);
        let words = words_of(lines[group[upto - 1] as int]);
        lemma_position_of_text(names, words[1]);
    }
}

/// The transitions read have one entry per variable in both vectors.
pub proof fn lemma_transitions_dimension(
    lines: Seq<Seq<char>>,
    groups: Seq<Seq<usize>>,
    names: Seq<Seq<char>>,
    rates: Seq<Option<u64>>,
    upto: nat,
)
    ensures
        transitions_read(lines, groups, names, rates, upto) matches Ok(ts) ==> ts.len() == upto
            && forall|k: int| 0 <= k < ts.len() ==> (#[trigger] ts[k]).has_dimension(names.len()),
    decreases upto,
{
    if upto > 0 {
        lemma_transitions_dimension(lines, groups, names, rates, (upto - 1) as nat);
        lemma_group_dimension(lines, groups[upto - 1], names, rates, groups[upto - 1].len());
        if let Ok(ts) = transitions_read(lines, groups, names, rates, upto) {
            let before = transitions_read(lines, groups, names, rates, (upto - 1) as nat)->Ok_0;
            assert forall|k: int| 0 <= k < ts.len() implies (#[trigger] ts[k]).has_dimension(
                names.len(),
            ) by {
                if k < before.len() {
                    assert(before[k].has_dimension(names.len()));
                }
            }
        }
    }
}

} // verus!
