//! Laws that relate the graph operations to one another, stated over
//! `GraphModel`, the model that every operation of `Graph` is proved to follow.
use vstd::prelude::*;
use crate::graph::{GraphError, GraphModel};
use crate::value::{Fields, id_of};

verus! {

/// Adding a second node with the identifier of a first fails with
/// `DuplicateIdentifier` and leaves the graph, its node index included,
/// as the first addition left it.
pub proof fn lemma_duplicate_refused(g: GraphModel, a: Fields, b: Fields)
    requires
        id_of(a) is Some,
        id_of(a) == id_of(b),
    ensures
        ({
            let g1 = g.add_node(a).0;
            g1.add_node(b) == (g1, Err::<(), GraphError>(GraphError::DuplicateIdentifier))
        }),
{
    let id = id_of(a)->Some_0;
    let g1 = g.add_node(a).0;
    if g.has_node(id) {
        let i = choose|i: int| 0 <= i < g.nodes.len() && #[trigger] g.nodes[i].0 == id;
        assert(g1.nodes[i].0 == id);
    } else {
        assert(g1.nodes[g.nodes.len() as int].0 == id);
    }
}

/// After a node is added, looking up its identifier gives back exactly
/// that node's data.
pub proof fn lemma_added_node_found(g: GraphModel, n: Fields)
    requires
        g.wf(),
        g.add_node(n).1 is Ok,
    ensures
        g.add_node(n).0.node(id_of(n)->Some_0) == Some(n),
{
    let id = id_of(n)->Some_0;
    let g1 = g.add_node(n).0;
    let last = g.nodes.len() as int;
    assert(g1.nodes[last].0 == id);
    let c = g1.index_of(id);
    assert(g1.nodes[c].0 == id);
    if c < last {
        assert(g.nodes[c].0 == id);
    }
}

/// Removing a stored node leaves no edge that starts or ends at it, and no
/// traversal, from any start and with any filter, visits it afterwards.
pub proof fn lemma_removal_cascades(g: GraphModel, id: Seq<char>)
    requires
        g.wf(),
        g.has_node(id),
    ensures
        ({
            let g1 = g.remove_by_id(id).0;
            &&& forall|k: int| 0 <= k < g1.edges.len() ==> (#[trigger] g1.edges[k]).0 != id && g1.edges[k].1 != id
            &&& forall|s: Option<Seq<char>>, f: Option<Seq<char>>| !(#[trigger] g1.visit_set(s, f)).contains(id)
        }),
{
    broadcast use vstd::seq_lib::group_filter_ensures;

    let g1 = g.remove_by_id(id).0;
    let i = g.index_of(id);
    assert(g.nodes[i].0 == id);
    assert(!g1.has_node(id)) by {
        if g1.has_node(id) {
            let j = choose|j: int| 0 <= j < g1.nodes.len() && #[trigger] g1.nodes[j].0 == id;
            let j1 = if j < i { j } else { j + 1 };
            assert(g1.nodes[j] == g.nodes[j1]);
        }
    }
    assert forall|s: Option<Seq<char>>, f: Option<Seq<char>>| !(#[trigger] g1.visit_set(s, f)).contains(id) by {
        if s is Some && g1.has_node(s->Some_0) && g1.reaches(f, s->Some_0, id) {
            let p = choose|p: Seq<Seq<char>>| #[trigger] g1.is_path(f, p) && p[0] == s->Some_0 && p.last() == id;
            if p.len() > 1 {
                assert(g1.step(f, p[p.len() - 2], p[p.len() - 1]));
            }
        }
    }
}

/// With the root set from `r`, a traversal with no start visits the same
/// nodes as one that starts at `r`.
pub proof fn lemma_root_fallback(g: GraphModel, r: Fields, kind: Option<Seq<char>>)
    requires
        id_of(r) is Some,
    ensures
        ({
            let g1 = g.set_root_node(r).0;
            g1.visit_set(g1.start_id(None), kind) == g1.visit_set(g1.start_id(Some(r)), kind)
        }),
{
}

} // verus!
