use vstd::prelude::*;

pub mod node;
pub mod store;
pub mod resolver;
pub mod neighborhood;
pub mod graph;
pub mod file;
pub mod dot_read;

pub use graph::{Graph, GraphType};
pub use node::{GraphError, MetaData, Node};
pub use neighborhood::neighborhood;
pub use resolver::tree;
pub use store::resolve;

use crate::graph::{dot_text, edge_list, entry_views, node_entries};
use crate::neighborhood::{expanded, neighborhood_of, wf_nodes};
use crate::node::{deps_of, strs, Failure};
use crate::resolver::{first_missing, first_unresolved, fully_linked};
use crate::store::{admission, focal_view, fresh_nodes};

verus! {

/// Identifier of a node: its position in the node set.
pub type DefaultIx = usize;

/// What a run over the admitted node set `ns` hands back: in full-graph mode
/// the whole resolved graph, in focal mode the neighbourhood of node 0 up to
/// `max` hops; either as the graph `g`.
pub open spec fn graph_outcome(ns: Seq<Node>, focused: bool, max: nat, r: Result<Graph<String>, GraphError>) -> bool {
    if !focused {
        match first_unresolved(ns, ns.len() as int) {
            Some((from, dep)) => r matches Err(e) && e@ == Failure::UnresolvedDependency(from, dep),
            None => r matches Ok(g) && exists|out: Seq<Node>|
                #![trigger fully_linked(ns, out)]
                fully_linked(ns, out) && g.graph_type == (GraphType::DiGraph { is_strict: true })
                    && entry_views(g.nodes@) == node_entries(out, None) && g.edges@
                    == edge_list(out),
        }
    } else {
        &&& (r is Err <==> exists|j: int|
            0 <= j < ns.len() && expanded(ns, 0, j, max) && first_missing(ns, deps_of(#[trigger] ns[j].body)) is Some)
        &&& match r {
            Err(e) => exists|j: int|
                0 <= j < ns.len() && expanded(ns, 0, j, max) && e@
                    == Failure::UnresolvedDependency(
                    (#[trigger] ns[j]).body.title@,
                    first_missing(ns, deps_of(ns[j].body)).unwrap(),
                ) && first_missing(ns, deps_of(ns[j].body)) is Some,
            Ok(g) => exists|out: Seq<Node>|
                #![trigger neighborhood_of(ns, 0, max, out)]
                neighborhood_of(ns, 0, max, out) && g.graph_type == (GraphType::DiGraph {
                    is_strict: true,
                }) && entry_views(g.nodes@) == node_entries(out, Some(0usize))
                    && g.edges@ == edge_list(out),
        }
    }
}

/// `r` is the outcome `gr` of building a graph, the graph written as DOT text.
pub open spec fn written(gr: Result<Graph<String>, GraphError>, config: Seq<char>, r: Result<String, GraphError>) -> bool {
    match (gr, r) {
        (Err(e), Err(x)) => x@ == e@,
        (Ok(g), Ok(t)) => t@ == dot_text(g.graph_type, config, entry_views(g.nodes@), g.edges@),
        _ => false,
    }
}

/// The graph of a corpus: admits `records` (see [`resolve`]), then resolves
/// the whole graph ([`tree`]) when no focal title is given, or the
/// neighbourhood of the focal record up to `depth` hops ([`neighborhood`]).
pub fn build_graph(records: Vec<MetaData>, filter: &Vec<String>, focal: &Option<String>, depth: usize) -> (r: Result<
    Graph<String>,
    GraphError,
>)
    ensures
        match admission(records@, strs(filter@), focal_view(*focal)) {
            Err(e) => r matches Err(x) && x@ == e,
            Ok(order) => exists|ns: Seq<Node>|
                #![trigger fresh_nodes(ns, order)]
                fresh_nodes(ns, order) && graph_outcome(ns, focal is Some, depth as nat, r),
        },
{
    let nodes = resolve(records, filter, focal)?;
    let ghost ns = nodes@;
    match focal {
        None => {
            let linked = tree(nodes)?;
            let g = Graph::from_nodes(&linked, None);
            assert(fully_linked(ns, linked@));
            Ok(g)
        },
        Some(_) => {
            assert(wf_nodes(ns));
            let near = neighborhood(nodes, 0, depth)?;
            let g = Graph::from_nodes(&near, Some(0));
            assert(neighborhood_of(ns, 0, depth as nat, near@));
            Ok(g)
        },
    }
}

/// The DOT description of the graph of a corpus (see [`build_graph`]), with
/// `config` written after the opening line.
pub fn run(records: Vec<MetaData>, filter: &Vec<String>, focal: &Option<String>, depth: usize, config: &str) -> (r:
    Result<String, GraphError>)
    ensures
        match admission(records@, strs(filter@), focal_view(*focal)) {
            Err(e) => r matches Err(x) && x@ == e,
            Ok(order) => exists|ns: Seq<Node>, gr: Result<Graph<String>, GraphError>|
                #![trigger fresh_nodes(ns, order), graph_outcome(ns, focal is Some, depth as nat, gr)]
                fresh_nodes(ns, order) && graph_outcome(ns, focal is Some, depth as nat, gr) && written(gr, config@, r),
        },
{
    let gr = build_graph(records, filter, focal, depth);
    let r = match &gr {
        Ok(g) => Ok(g.to_dot_file(config)),
        Err(e) => Err(e.duplicate()),
    };
    r
}

} // verus!
