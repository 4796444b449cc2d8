//! The bounding demonstration: the bounds of a model as it is, and of the
//! model trimmed to its dependency graph.

use crate::bmc::bounds::{bounds_result, BMCBounds};
use crate::bmc::encoding::{encodable, encoding_of};
use crate::bmc::formula::Formula;
use crate::bmc::vas_bmc::{BmcFailure, NUM_BITS};
use crate::dependency::graph::{
    dependency_graph_of, make_dependency_graph, DependencyGraph, DependencyGraphError, NodeSpec,
};
use crate::dependency::trimmer::{trim_model, trimmed, used_once};
use crate::model::vas_model::{AbstractVas, ModelSpec};
use vstd::prelude::*;

verus! {

/// What the demonstration finds for one model.
#[derive(Debug)]
pub struct BmcDemo {
    /// The dependency graph of the model.
    pub graph: DependencyGraph,
    /// The bounds of the model as it is, or why it has none.
    pub bounds: Result<BMCBounds, BmcFailure>,
    /// The model trimmed to the graph.
    pub trimmed_model: AbstractVas,
    /// The bounds of the trimmed model, or why it has none; nothing when
    /// the trimmed model cannot be encoded.
    pub trimmed_bounds: Option<Result<BMCBounds, BmcFailure>>,
}

/// Whether `found` is what the demonstration finds for `model` when
/// `solver` answers: the dependency graph of the model, its bounds at the
/// width `NUM_BITS`, the model trimmed to the graph, and the bounds of the
/// trimmed model when that can be encoded.
pub open spec fn demonstrated<S: Fn(&Formula) -> bool>(
    model: ModelSpec,
    solver: &S,
    found: BmcDemo,
) -> bool {
    &&& dependency_graph_of(model) == Ok::<NodeSpec, DependencyGraphError>(found.graph.root@)
    &&& bounds_result(model.initial[0], encoding_of(model), solver, NUM_BITS as nat, found.bounds)
    &&& found.trimmed_model@ == trimmed(model, used_once(found.graph.root@.transitions_in()))
    &&& match found.trimmed_bounds {
        None => !encodable(found.trimmed_model@),
        Some(bounds) => {
            &&& encodable(found.trimmed_model@)
            &&& bounds_result(
                found.trimmed_model@.initial[0],
                encoding_of(found.trimmed_model@),
                solver,
                NUM_BITS as nat,
                bounds,
            )
        },
    }
}

/// Bounds the variables of `model`, trims the model to its dependency
/// graph, and bounds the variables of the trimmed model.
///
/// A model without a dependency graph is bounded in neither form: the
/// result is the reason why it has no graph.
pub fn bmc_demo<S: Fn(&Formula) -> bool>(model: &AbstractVas, solver: &S) -> (r: Result<
    BmcDemo,
    DependencyGraphError,
>)
    requires
        forall|f: Formula| call_requires(solver, (&f,)),
        encodable(model@),
    ensures
        match r {
            Ok(found) => demonstrated(model@, solver, found),
            Err(e) => dependency_graph_of(model@) == Err::<NodeSpec, DependencyGraphError>(e),
        },
{
    let graph = match make_dependency_graph(model) {
        Ok(graph) => graph,
        Err(e) => {
            return Err(e);
        },
    };
    let encoding = model.bmc_encoding();
    let bounds = model.variable_bounds(&encoding, solver);
    let trimmed_model = trim_model(model, graph.duplicate());
    let trimmed_bounds = if trimmed_model.is_encodable() {
        let trimmed_encoding = trimmed_model.bmc_encoding();
        Some(trimmed_model.variable_bounds(&trimmed_encoding, solver))
    } else {
        None
    };
    Ok(BmcDemo { graph, bounds, trimmed_model, trimmed_bounds })
}

} // verus!
