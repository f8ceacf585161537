//! The symbolic engine: a network as a graph of states and colors, its fixed
//! points, and sets of states and of colors, with what each call into the
//! engine is taken to do. A state gives each component a value; a color is
//! one choice of all the functions that the network leaves open.

use crate::engine_limits::{count_views, end_views, function_views, list_views, network_fits};
use crate::text::names;
use biodivine_lib_param_bn::biodivine_std::traits::Set as SymbolicSet;
use biodivine_lib_param_bn::fixed_points::FixedPoints;
use biodivine_lib_param_bn::symbolic_async_graph::{
    GraphColoredVertices, GraphColors, GraphVertices, SymbolicAsyncGraph,
};
use biodivine_lib_param_bn::{BooleanNetwork, VariableId};
use vstd::prelude::*;

verus! {

/// A network of the engine.
#[verifier::external_type_specification]
#[verifier::external_body]
pub struct ExBooleanNetwork(BooleanNetwork);

/// The graph of the states and colors of a network.
#[verifier::external_type_specification]
#[verifier::external_body]
pub struct ExSymbolicAsyncGraph(SymbolicAsyncGraph);

/// A set of pairs of a state and a color.
#[verifier::external_type_specification]
#[verifier::external_body]
pub struct ExGraphColoredVertices(GraphColoredVertices);

/// A set of states.
#[verifier::external_type_specification]
#[verifier::external_body]
pub struct ExGraphVertices(GraphVertices);

/// A set of colors.
#[verifier::external_type_specification]
#[verifier::external_body]
pub struct ExGraphColors(GraphColors);

/// The names of the components of a network, each at its index.
pub uninterp spec fn network_variables(network: BooleanNetwork) -> Seq<Seq<char>>;

/// The uninterpreted functions of a network, each with its name and arity.
pub uninterp spec fn network_functions(network: BooleanNetwork) -> Seq<(Seq<char>, nat)>;

/// For each component of a network, whether it has an update function.
pub uninterp spec fn network_has_update(network: BooleanNetwork) -> Seq<bool>;

/// For each component of a network, the number of its regulators.
pub uninterp spec fn network_regulator_counts(network: BooleanNetwork) -> Seq<nat>;

/// For each component of a network, the indices of the uninterpreted
/// functions that its update function applies; none for a component without
/// an update function.
pub uninterp spec fn network_applied_functions(network: BooleanNetwork) -> Seq<Seq<nat>>;

/// For each component of a network, the indices of the components that its
/// update function reads; none for a component without an update function.
pub uninterp spec fn network_arguments(network: BooleanNetwork) -> Seq<Seq<nat>>;

/// The regulations of a network, each as the indices of regulator and target.
pub uninterp spec fn network_regulation_ends(network: BooleanNetwork) -> Seq<(nat, nat)>;

/// The graph that the engine makes of a network, or what it says against the
/// network.
pub uninterp spec fn symbolic_graph_of(network: BooleanNetwork) -> Result<
    SymbolicAsyncGraph,
    Seq<char>,
>;

/// The number of components of the network of a graph.
pub uninterp spec fn graph_variables(graph: SymbolicAsyncGraph) -> nat;

/// All pairs of a state and a color of a graph.
pub uninterp spec fn graph_unit(graph: SymbolicAsyncGraph) -> Set<(Seq<bool>, Seq<bool>)>;

/// The pairs of a state and a color of a graph in which the state is a fixed
/// point of the network under the color.
pub uninterp spec fn graph_fixed_points(graph: SymbolicAsyncGraph) -> Set<(Seq<bool>, Seq<bool>)>;

/// The pairs that a set of states and colors holds.
pub uninterp spec fn colored_set(set: GraphColoredVertices) -> Set<(Seq<bool>, Seq<bool>)>;

/// The states that a set of states holds.
pub uninterp spec fn vertex_set(set: GraphVertices) -> Set<Seq<bool>>;

/// The colors that a set of colors holds.
pub uninterp spec fn color_set(set: GraphColors) -> Set<Seq<bool>>;

/// Whether a set of states and colors is one of the given graph: over the
/// symbolic variables of the graph, with those that stand for the components
/// and those that stand for the functions being the graph's.
pub uninterp spec fn colored_in(set: GraphColoredVertices, graph: SymbolicAsyncGraph) -> bool;

/// Whether a set of states is one of the given graph: over the symbolic
/// variables of the graph, with those that stand for the components being
/// the graph's.
pub uninterp spec fn vertices_in(set: GraphVertices, graph: SymbolicAsyncGraph) -> bool;

/// Whether a set of colors is one of the given graph: over the symbolic
/// variables of the graph, with those that stand for the functions being
/// the graph's.
pub uninterp spec fn colors_in(set: GraphColors, graph: SymbolicAsyncGraph) -> bool;

/// Whether a state has the given values at the given components.
pub open spec fn agrees(state: Seq<bool>, values: Seq<(usize, bool)>) -> bool {
    forall|i: int|
        0 <= i < values.len() ==> (#[trigger] values[i]).0 < state.len() && state[values[i].0 as int]
            == values[i].1
}

/// The outcome of making a graph, with the text of the error as a
/// mathematical value.
pub open spec fn graph_outcome(r: Result<SymbolicAsyncGraph, String>) -> Result<
    SymbolicAsyncGraph,
    Seq<char>,
> {
    match r {
        Ok(graph) => Ok(graph),
        Err(message) => Err(message@),
    }
}

/// `BooleanNetwork::variables` and `BooleanNetwork::get_variable_name`: the
/// names of the components, in the order of their indices.
#[verifier::external_body]
pub(crate) fn network_variable_names(network: &BooleanNetwork) -> (r: Vec<String>)
    ensures
        names(r@) == network_variables(*network),
{
    network.variables().map(|id| network.get_variable_name(id).clone()).collect()
}

/// `BooleanNetwork::parameters` and `BooleanNetwork::get_parameter`: the
/// uninterpreted functions, each with its name and arity, in the order of
/// their indices.
#[verifier::external_body]
pub(crate) fn network_function_list(network: &BooleanNetwork) -> (r: Vec<(String, usize)>)
    ensures
        function_views(r@) == network_functions(*network),
{
    network
        .parameters()
        .map(|id| network.get_parameter(id))
        .map(|p| (p.get_name().clone(), p.get_arity() as usize))
        .collect()
}

/// `BooleanNetwork::get_update_function`, for each component: whether it has
/// an update function.
#[verifier::external_body]
pub(crate) fn network_update_flags(network: &BooleanNetwork) -> (r: Vec<bool>)
    ensures
        r@ == network_has_update(*network),
{
    network.variables().map(|id| network.get_update_function(id).is_some()).collect()
}

/// `BooleanNetwork::regulators`, for each component: the number of its
/// regulators.
#[verifier::external_body]
pub(crate) fn network_regulator_numbers(network: &BooleanNetwork) -> (r: Vec<usize>)
    ensures
        count_views(r@) == network_regulator_counts(*network),
{
    network.variables().map(|id| network.regulators(id).len()).collect()
}

/// `BooleanNetwork::get_update_function` and `FnUpdate::collect_parameters`,
/// for each component: the indices of the uninterpreted functions that its
/// update function applies.
#[verifier::external_body]
pub(crate) fn network_applied_function_list(network: &BooleanNetwork) -> (r: Vec<Vec<usize>>)
    ensures
        list_views(r@) == network_applied_functions(*network),
{
    network
        .variables()
        .map(|id| network.get_update_function(id).iter().flat_map(|f| f.collect_parameters()))
        .map(|ids| ids.map(|p| p.to_index()).collect())
        .collect()
}

/// `BooleanNetwork::get_update_function` and `FnUpdate::collect_arguments`,
/// for each component: the indices of the components that its update
/// function reads.
#[verifier::external_body]
pub(crate) fn network_argument_list(network: &BooleanNetwork) -> (r: Vec<Vec<usize>>)
    ensures
        list_views(r@) == network_arguments(*network),
{
    network
        .variables()
        .map(|id| network.get_update_function(id).iter().flat_map(|f| f.collect_arguments()))
        .map(|ids| ids.map(|v| v.to_index()).collect())
        .collect()
}

/// `RegulatoryGraph::regulations`: the regulations, each as the indices of
/// regulator and target.
#[verifier::external_body]
pub(crate) fn network_regulation_list(network: &BooleanNetwork) -> (r: Vec<(usize, usize)>)
    ensures
        end_views(r@) == network_regulation_ends(*network),
{
    network
        .as_graph()
        .regulations()
        .map(|r| (r.regulator.to_index(), r.target.to_index()))
        .collect()
}

/// `SymbolicAsyncGraph::new`: the graph of a network, which has the
/// components of the network, or the engine's error. The engine gives a
/// symbolic variable to every component and to every row of the truth table
/// of every function that is applied. It panics on a name that it cannot
/// use, on more variables than it can hold, and on an index of a component
/// or of a function that the network does not have, in an update function or
/// a regulation: the network must fit.
#[verifier::external_body]
pub(crate) fn symbolic_graph(network: &BooleanNetwork) -> (r: Result<SymbolicAsyncGraph, String>)
    requires
        network_fits(*network),
    ensures
        graph_outcome(r) == symbolic_graph_of(*network),
        r matches Ok(graph) ==> graph_variables(graph) == network_variables(*network).len(),
{
    SymbolicAsyncGraph::new(network)
}

/// `SymbolicAsyncGraph::mk_unit_colored_vertices`: all states and colors of
/// the graph.
#[verifier::external_body]
pub(crate) fn unit_colored_vertices(graph: &SymbolicAsyncGraph) -> (r: GraphColoredVertices)
    ensures
        colored_set(r) == graph_unit(*graph),
        colored_in(r, *graph),
{
    graph.mk_unit_colored_vertices()
}

/// `FixedPoints::symbolic`: the fixed points of the graph among the states
/// and colors of `restriction`.
#[verifier::external_body]
pub(crate) fn symbolic_fixed_points(
    graph: &SymbolicAsyncGraph,
    restriction: &GraphColoredVertices,
) -> (r: GraphColoredVertices)
    requires
        colored_in(*restriction, *graph),
    ensures
        colored_set(r) == graph_fixed_points(*graph).intersect(colored_set(*restriction)),
        colored_in(r, *graph),
{
    FixedPoints::symbolic(graph, restriction)
}

/// `SymbolicAsyncGraph::mk_subspace`: the states and colors of the graph in
/// which the state has the given values at the given components. These must
/// be components of the graph, on which the call panics otherwise, and none
/// may be given twice: of two values for one component the engine takes the
/// later one only.
#[verifier::external_body]
pub(crate) fn subspace(graph: &SymbolicAsyncGraph, values: &Vec<(usize, bool)>) -> (r:
    GraphColoredVertices)
    requires
        forall|i: int| 0 <= i < values@.len() ==> (#[trigger] values@[i]).0 < graph_variables(*graph),
        forall|i: int, j: int|
            0 <= i < j < values@.len() ==> (#[trigger] values@[i]).0 != (#[trigger] values@[j]).0,
    ensures
        colored_set(r) == Set::new(
            |p: (Seq<bool>, Seq<bool>)| graph_unit(*graph).contains(p) && agrees(p.0, values@),
        ),
        colored_in(r, *graph),
{
    let values: Vec<(VariableId, bool)> = values
        .iter()
        .map(|(index, value)| (VariableId::from_index(*index), *value))
        .collect();
    graph.mk_subspace(&values)
}

/// `GraphColoredVertices::vertices`: the states that occur in the set with
/// some color. The graph is the one that the set is of.
#[verifier::external_body]
pub(crate) fn vertices_of(set: &GraphColoredVertices, graph: &SymbolicAsyncGraph) -> (r:
    GraphVertices)
    requires
        colored_in(*set, *graph),
    ensures
        vertex_set(r) == Set::new(
            |s: Seq<bool>| exists|c: Seq<bool>| colored_set(*set).contains((s, c)),
        ),
        vertices_in(r, *graph),
{
    set.vertices()
}

/// `GraphColoredVertices::colors`: the colors that occur in the set with some
/// state. The graph is the one that the set is of.
#[verifier::external_body]
pub(crate) fn colors_of(set: &GraphColoredVertices, graph: &SymbolicAsyncGraph) -> (r: GraphColors)
    requires
        colored_in(*set, *graph),
    ensures
        color_set(r) == Set::new(
            |c: Seq<bool>| exists|s: Seq<bool>| colored_set(*set).contains((s, c)),
        ),
        colors_in(r, *graph),
{
    set.colors()
}

/// `GraphColoredVertices::intersect_vertices`: the pairs of the set whose
/// state is among `vertices`. Both sets must be of one graph: the call panics
/// on sets over different numbers of symbolic variables.
#[verifier::external_body]
pub(crate) fn intersect_vertices(
    set: &GraphColoredVertices,
    vertices: &GraphVertices,
    graph: &SymbolicAsyncGraph,
) -> (r: GraphColoredVertices)
    requires
        colored_in(*set, *graph),
        vertices_in(*vertices, *graph),
    ensures
        colored_set(r) == Set::new(
            |p: (Seq<bool>, Seq<bool>)|
                colored_set(*set).contains(p) && vertex_set(*vertices).contains(p.0),
        ),
        colored_in(r, *graph),
{
    set.intersect_vertices(vertices)
}

/// `Set::intersect` of the engine, on sets of colors: the colors that both
/// sets hold. Both sets must be of one graph: the call panics on sets over
/// different numbers of symbolic variables.
#[verifier::external_body]
pub(crate) fn intersect_colors(a: &GraphColors, b: &GraphColors, graph: &SymbolicAsyncGraph) -> (r:
    GraphColors)
    requires
        colors_in(*a, *graph),
        colors_in(*b, *graph),
    ensures
        color_set(r) == color_set(*a).intersect(color_set(*b)),
        colors_in(r, *graph),
{
    a.intersect(b)
}

/// `Set::is_empty` of the engine, on a set of colors: whether the set holds no
/// color.
#[verifier::external_body]
pub(crate) fn colors_empty(set: &GraphColors) -> (b: bool)
    ensures
        b <==> forall|c: Seq<bool>| !color_set(*set).contains(c),
{
    set.is_empty()
}

} // verus!
