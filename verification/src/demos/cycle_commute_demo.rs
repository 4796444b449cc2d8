//! The cycle-and-commute demonstration: a model is read from the lines of
//! its file and its state space is built from traces.

use crate::builder::ragtimer::TraceError;
use crate::cycle_commute::commute::{closure_result, cycle_commute};
use crate::model::explicit_model::PrismVasModel;
use crate::model::vas_model::AbstractVas;
use crate::parser::vas_file_reader::{build_model, read_result, ModelParseError};
use crate::parser::words::texts;
use vstd::prelude::*;

verus! {

/// What the demonstration builds.
pub struct CycleCommuteDemo {
    /// The model that was read.
    pub model: AbstractVas,
    /// The state space of the model.
    pub space: PrismVasModel,
    /// The number of states that the traces and the steps that commute
    /// with them gave, before the cycles were added.
    pub seeded: usize,
}

/// Why the demonstration built no state space.
#[derive(Clone, Debug, PartialEq, Eq)]
pub enum DemoFailure {
    /// The lines declare no model.
    Model(ModelParseError),
    /// A trace cannot be followed in the model that was read.
    Trace(TraceError),
}

/// Whether `r` is what the demonstration comes to: the first error of
/// reading the model, or what the cycle-and-commute construction comes
/// to for the model read and `traces`.
pub open spec fn demo_result<R: Fn(&str) -> Option<u64>>(
    parse_rate: &R,
    lines: Seq<Seq<char>>,
    traces: Seq<Vec<String>>,
    r: Result<CycleCommuteDemo, DemoFailure>,
) -> bool {
    match r {
        Err(DemoFailure::Model(e)) => read_result(
            parse_rate,
            lines,
            Err::<AbstractVas, ModelParseError>(e),
        ),
        Err(DemoFailure::Trace(e)) => exists|model: AbstractVas|
            {
                &&& #[trigger] read_result(
                    parse_rate,
                    lines,
                    Ok::<AbstractVas, ModelParseError>(model),
                )
                &&& closure_result(
                    model@,
                    traces,
                    Err::<(PrismVasModel, usize), TraceError>(e),
                )
            },
        Ok(found) => {
            &&& read_result(parse_rate, lines, Ok::<AbstractVas, ModelParseError>(found.model))
            &&& closure_result(
                found.model@,
                traces,
                Ok::<(PrismVasModel, usize), TraceError>((found.space, found.seeded)),
            )
        },
    }
}

/// Reads the model that `model_lines` declare and builds its state space
/// from `traces`, each a list of transition names.
pub fn cycle_commute_demo<R: Fn(&str) -> Option<u64>>(
    model_lines: &Vec<String>,
    parse_rate: &R,
    traces: &Vec<Vec<String>>,
) -> (r: Result<CycleCommuteDemo, DemoFailure>)
    requires
        forall|text: &str| call_requires(parse_rate, (text,)),
    ensures
        demo_result(parse_rate, texts(model_lines@), traces@, r),
{
    let model = match build_model(model_lines, parse_rate) {
        Ok(model) => model,
        Err(e) => {
            return Err(DemoFailure::Model(e));
        },
    };
    match cycle_commute(&model, traces) {
        Ok((space, seeded)) => Ok(CycleCommuteDemo { model, space, seeded }),
        Err(e) => Err(DemoFailure::Trace(e)),
    }
}

} // verus!
