//! The graph engine: a node index keyed by identifier, a set of typed
//! directed edges, an optional root, and breadth-first traversal.
use vstd::prelude::*;
use crate::value::{Fields, Value, id_of, id_key};

verus! {

/// Why a mutation was refused.
#[derive(Debug, Clone, Copy, PartialEq, Eq, Structural)]
pub enum GraphError {
    /// A node with that identifier is already stored.
    DuplicateIdentifier,
    /// The mapping has no string-valued identifier field.
    MissingIdentifier,
    /// An edge endpoint is an empty identifier.
    InvalidEdge,
}

/// An edge as the model sees it: source, destination, and edge type
/// (`None` is the default type, distinct from every named one).
pub type EdgeModel = (Seq<char>, Seq<char>, Option<Seq<char>>);

/// The abstract state of a graph.
pub struct GraphModel {
    /// The node index: identifier and data, in order of insertion.
    pub nodes: Seq<(Seq<char>, Fields)>,
    /// The edges, in order of insertion.
    pub edges: Seq<EdgeModel>,
    /// The root reference.
    pub root: Option<Seq<char>>,
}

/// The edges that neither start nor end at `id`, in their order.
pub open spec fn edges_away_from(edges: Seq<EdgeModel>, id: Seq<char>) -> Seq<EdgeModel> {
    edges.filter(|e: EdgeModel| e.0 != id && e.1 != id)
}

pub open spec fn opt_view(o: Option<String>) -> Option<Seq<char>> {
    match o {
        Some(s) => Some(s@),
        None => None,
    }
}

/// Whether an edge of type `kind` passes the filter `filter`: no filter
/// passes every type, a named filter only that exact type.
pub open spec fn kind_passes(filter: Option<Seq<char>>, kind: Option<Seq<char>>) -> bool {
    match filter {
        Some(f) => kind == Some(f),
        None => true,
    }
}

impl GraphModel {
    pub open spec fn has_node(self, id: Seq<char>) -> bool {
        exists|i: int| 0 <= i < self.nodes.len() && #[trigger] self.nodes[i].0 == id
    }

    /// Where the node `id` stands in the node index.
    pub open spec fn index_of(self, id: Seq<char>) -> int {
        choose|i: int| 0 <= i < self.nodes.len() && #[trigger] self.nodes[i].0 == id
    }

    /// The data stored under `id`, if any.
    pub open spec fn node(self, id: Seq<char>) -> Option<Fields> {
        if self.has_node(id) {
            Some(self.nodes[self.index_of(id)].1)
        } else {
            None
        }
    }

    /// Identifiers are unique and each node's data carries its own identifier.
    pub open spec fn wf(self) -> bool {
        &&& forall|i: int, j: int|
            0 <= i < self.nodes.len() && 0 <= j < self.nodes.len() && i != j ==> #[trigger] self.nodes[i].0
                != #[trigger] self.nodes[j].0
        &&& forall|i: int| 0 <= i < self.nodes.len() ==> id_of(#[trigger] self.nodes[i].1) == Some(self.nodes[i].0)
    }

    /// The effect and result of adding `node`.
    pub open spec fn add_node(self, node: Fields) -> (GraphModel, Result<(), GraphError>) {
        match id_of(node) {
            None => (self, Err(GraphError::MissingIdentifier)),
            Some(id) => if self.has_node(id) {
                (self, Err(GraphError::DuplicateIdentifier))
            } else {
                (GraphModel { nodes: self.nodes.push((id, node)), ..self }, Ok(()))
            },
        }
    }

    /// The effect and result of making `node` the root.
    pub open spec fn set_root_node(self, node: Fields) -> (GraphModel, Result<(), GraphError>) {
        match id_of(node) {
            None => (self, Err(GraphError::MissingIdentifier)),
            Some(id) => (GraphModel { root: Some(id), ..self }, Ok(())),
        }
    }

    /// The effect and result of adding the edge `source` to `target` of type `kind`.
    pub open spec fn add_edge(self, source: Seq<char>, target: Seq<char>, kind: Option<Seq<char>>) -> (
        GraphModel,
        Result<(), GraphError>,
    ) {
        if source.len() == 0 || target.len() == 0 {
            (self, Err(GraphError::InvalidEdge))
        } else if self.edges.contains((source, target, kind)) {
            (self, Ok(()))
        } else {
            (GraphModel { edges: self.edges.push((source, target, kind)), ..self }, Ok(()))
        }
    }

    /// One step of a walk: both ends are stored and an edge from `a` to `b`
    /// passes the filter.
    pub open spec fn step(self, filter: Option<Seq<char>>, a: Seq<char>, b: Seq<char>) -> bool {
        &&& self.has_node(a)
        &&& self.has_node(b)
        &&& exists|k: int|
            0 <= k < self.edges.len() && (#[trigger] self.edges[k]).0 == a && self.edges[k].1 == b
                && kind_passes(filter, self.edges[k].2)
    }

    /// `p` is a walk through stored nodes along edges that pass the filter.
    pub open spec fn is_path(self, filter: Option<Seq<char>>, p: Seq<Seq<char>>) -> bool {
        &&& p.len() > 0
        &&& self.has_node(p[0])
        &&& forall|i: int| 0 <= i < p.len() - 1 ==> self.step(filter, #[trigger] p[i], p[i + 1])
    }

    /// A walk leads from `from` to `to`.
    pub open spec fn reaches(self, filter: Option<Seq<char>>, from: Seq<char>, to: Seq<char>) -> bool {
        exists|p: Seq<Seq<char>>| #[trigger] self.is_path(filter, p) && p[0] == from && p.last() == to
    }

    /// Where a traversal starts: the identifier of the given node, or else the root.
    pub open spec fn start_id(self, start: Option<Fields>) -> Option<Seq<char>> {
        match start {
            Some(n) => id_of(n),
            None => self.root,
        }
    }

    /// The identifiers that a traversal from `start` visits: every node that
    /// a walk from a stored start reaches, and none if the start is not stored.
    pub open spec fn visit_set(self, start: Option<Seq<char>>, filter: Option<Seq<char>>) -> Set<Seq<char>> {
        match start {
            Some(s) => if self.has_node(s) {
                Set::new(|x: Seq<char>| self.reaches(filter, s, x))
            } else {
                Set::empty()
            },
            None => Set::empty(),
        }
    }

    /// The graph without the node at `i` and without every edge that
    /// touches its identifier; the root is kept as it is.
    pub open spec fn remove_at(self, i: int) -> GraphModel {
        let id = self.nodes[i].0;
        GraphModel {
            nodes: self.nodes.remove(i),
            edges: edges_away_from(self.edges, id),
            root: self.root,
        }
    }

    /// The effect and result of removing the node `id`.
    pub open spec fn remove_by_id(self, id: Seq<char>) -> (GraphModel, Option<Fields>) {
        if self.has_node(id) {
            (self.remove_at(self.index_of(id)), Some(self.nodes[self.index_of(id)].1))
        } else {
            (self, None)
        }
    }
}

/// A property graph.
pub struct Graph {
    nodes: Vec<(String, Fields)>,
    edges: Vec<(String, String, Option<String>)>,
    root: Option<String>,
}

pub open spec fn opt_ref_view(o: Option<&String>) -> Option<Seq<char>> {
    match o {
        Some(s) => Some(s@),
        None => None,
    }
}

pub open spec fn deref_fields(o: Option<&Fields>) -> Option<Fields> {
    match o {
        Some(f) => Some(*f),
        None => None,
    }
}

pub open spec fn node_view(p: (String, Fields)) -> (Seq<char>, Fields) {
    (p.0@, p.1)
}

pub open spec fn edge_view(e: (String, String, Option<String>)) -> EdgeModel {
    (e.0@, e.1@, opt_view(e.2))
}

impl View for Graph {
    type V = GraphModel;

    closed spec fn view(&self) -> GraphModel {
        GraphModel {
            nodes: self.nodes@.map_values(|p: (String, Fields)| node_view(p)),
            edges: self.edges@.map_values(|e: (String, String, Option<String>)| edge_view(e)),
            root: opt_view(self.root),
        }
    }
}

/// The name of the identifier field.
fn id_field_name() -> (r: String)
    ensures
        r@ == id_key(),
{
    proof {
        reveal_strlit("id");
    }
    "id".to_owned()
}

/// The identifier of `node`: the string in its identifier field.
pub fn node_id(node: &Fields) -> (r: Result<String, GraphError>)
    ensures
        match id_of(*node) {
            Some(id) => r is Ok && r->Ok_0@ == id,
            None => r == Err::<String, GraphError>(GraphError::MissingIdentifier),
        },
{
    match node.get(&id_field_name()) {
        Some(Value::Text(s)) => Ok(s.clone()),
        _ => Err(GraphError::MissingIdentifier),
    }
}

impl Graph {
    /// An empty graph with no root.
    pub fn new() -> (g: Graph)
        ensures
            g@.wf(),
            g@.nodes.len() == 0,
            g@.edges.len() == 0,
            g@.root is None,
    {
        let g = Graph { nodes: Vec::new(), edges: Vec::new(), root: None };
        proof {
            assert(g@.nodes =~= Seq::empty());
            assert(g@.edges =~= Seq::empty());
        }
        g
    }

    /// Where the node `id` stands in the node index, if it is there.
    fn find(&self, id: &String) -> (r: Option<usize>)
        requires
            self@.wf(),
        ensures
            match r {
                Some(i) => i < self@.nodes.len() && i == self@.index_of(id@) && self@.has_node(id@)
                    && self@.nodes[i as int].0 == id@,
                None => !self@.has_node(id@),
            },
    {
        let mut i: usize = 0;
        while i < self.nodes.len()
            invariant
                i <= self.nodes@.len(),
                self@.wf(),
                self@.nodes.len() == self.nodes@.len(),
                forall|k: int| 0 <= k < i ==> #[trigger] self@.nodes[k].0 != id@,
            decreases self.nodes@.len() - i,
        {
            if self.nodes[i].0 == *id {
                proof {
                    assert(self@.nodes[i as int].0 == id@);
                    assert(self@.has_node(id@));
                    let c = self@.index_of(id@);
                    assert(self@.nodes[c].0 == id@);
                }
                return Some(i);
            }
            i = i + 1;
        }
        None
    }

    /// Adds `node` under its identifier and returns it. Fails if it has no
    /// identifier or if a node with that identifier is already stored; the
    /// graph is then unchanged.
    pub fn add_node(&mut self, node: Fields) -> (r: Result<Fields, GraphError>)
        requires
            old(self)@.wf(),
        ensures
            final(self)@.wf(),
            final(self)@ == old(self)@.add_node(node).0,
            match old(self)@.add_node(node).1 {
                Ok(_) => r is Ok && crate::value::same_fields(r->Ok_0, node),
                Err(e) => r == Err::<Fields, GraphError>(e),
            },
    {
        let id = match node_id(&node) {
            Ok(id) => id,
            Err(e) => return Err(e),
        };
        if self.find(&id).is_some() {
            return Err(GraphError::DuplicateIdentifier);
        }
        let ghost before = self@;
        let copy = node.duplicate();
        self.nodes.push((id, node));
        proof {
            assert(self@.nodes =~= before.nodes.push((id@, node)));
        }
        Ok(copy)
    }

    /// A copy of the data stored under `id`, if any.
    pub fn get_node(&self, id: &String) -> (r: Option<Fields>)
        requires
            self@.wf(),
        ensures
            match self@.node(id@) {
                Some(d) => r is Some && crate::value::same_fields(r->Some_0, d),
                None => r is None,
            },
    {
        match self.find(id) {
            Some(i) => Some(self.nodes[i].1.duplicate()),
            None => None,
        }
    }

    /// Makes the identifier of `node` the root reference. The node need not
    /// be stored. Fails if `node` has no identifier.
    pub fn set_root_node(&mut self, node: &Fields) -> (r: Result<(), GraphError>)
        requires
            old(self)@.wf(),
        ensures
            final(self)@.wf(),
            (final(self)@, r) == old(self)@.set_root_node(*node),
    {
        match node_id(node) {
            Ok(id) => {
                self.root = Some(id);
                Ok(())
            },
            Err(e) => Err(e),
        }
    }
}


/// Distinct indices below `n` that leave out some index below `n` are fewer than `n`.
proof fn lemma_distinct_below(s: Seq<usize>, n: int, v: int)
    requires
        s.no_duplicates(),
        forall|k: int| 0 <= k < s.len() ==> (#[trigger] s[k] as int) < n,
        0 <= v < n,
        forall|k: int| 0 <= k < s.len() ==> #[trigger] s[k] as int != v,
    ensures
        s.len() < n,
{
    let si = Seq::new(s.len(), |k: int| s[k] as int);
    assert(si.no_duplicates()) by {
        assert forall|a: int, b: int| 0 <= a < si.len() && 0 <= b < si.len() && a != b implies si[a] != si[b] by {
            assert(s[a] != s[b]);
        }
    }
    si.unique_seq_to_set();
    let range = vstd::set_lib::set_int_range(0, n);
    vstd::set_lib::lemma_int_range(0, n);
    let rest = range.remove(v);
    assert(si.to_set().subset_of(rest)) by {
        assert forall|x: int| si.to_set().contains(x) implies rest.contains(x) by {
            let k = choose|k: int| 0 <= k < si.len() && si[k] == x;
            assert(s[k] as int == x);
        }
    }
    vstd::set_lib::lemma_len_subset(si.to_set(), rest);
}

/// A walk that reaches `a` goes on to `b` in one more step.
proof fn lemma_reach_step(g: GraphModel, f: Option<Seq<char>>, s: Seq<char>, a: Seq<char>, b: Seq<char>)
    requires
        g.reaches(f, s, a),
        g.step(f, a, b),
    ensures
        g.reaches(f, s, b),
{
    let p = choose|p: Seq<Seq<char>>| #[trigger] g.is_path(f, p) && p[0] == s && p.last() == a;
    let q = p.push(b);
    assert forall|i: int| 0 <= i < q.len() - 1 implies g.step(f, #[trigger] q[i], q[i + 1]) by {
        if i < p.len() - 1 {
            assert(q[i] == p[i] && q[i + 1] == p[i + 1]);
        } else {
            assert(q[i] == a);
        }
    }
    assert(g.is_path(f, q) && q[0] == s && q.last() == b);
}

/// A stored node reaches itself.
proof fn lemma_reach_self(g: GraphModel, f: Option<Seq<char>>, s: Seq<char>)
    requires
        g.has_node(s),
    ensures
        g.reaches(f, s, s),
{
    let p = seq![s];
    assert(g.is_path(f, p) && p[0] == s && p.last() == s);
}

/// A set closed under steps that holds the start of a walk holds its end.
proof fn lemma_closed_path(g: GraphModel, f: Option<Seq<char>>, set: Set<Seq<char>>, p: Seq<Seq<char>>)
    requires
        g.is_path(f, p),
        set.contains(p[0]),
        forall|a: Seq<char>, b: Seq<char>| set.contains(a) && #[trigger] g.step(f, a, b) ==> set.contains(b),
    ensures
        set.contains(p.last()),
    decreases p.len(),
{
    if p.len() > 1 {
        let q = p.drop_last();
        assert forall|i: int| 0 <= i < q.len() - 1 implies g.step(f, #[trigger] q[i], q[i + 1]) by {
            assert(q[i] == p[i] && q[i + 1] == p[i + 1]);
        }
        lemma_closed_path(g, f, set, q);
        assert(g.step(f, p[p.len() - 2], p[p.len() - 1]));
    }
}

/// Whether an edge of type `kind` passes the filter `filter`.
fn passes(filter: Option<&String>, kind: &Option<String>) -> (r: bool)
    ensures
        r == kind_passes(opt_ref_view(filter), opt_view(*kind)),
{
    match filter {
        Some(f) => match kind {
            Some(k) => *k == *f,
            None => false,
        },
        None => true,
    }
}

impl Graph {
    /// The indices of the nodes reached from the node at `start`, in
    /// breadth-first order.
    fn bfs(&self, start: usize, filter: Option<&String>) -> (order: Vec<usize>)
        requires
            self@.wf(),
            start < self@.nodes.len(),
        ensures
            order@.len() > 0,
            order@[0] == start,
            order@.no_duplicates(),
            forall|k: int| 0 <= k < order@.len() ==> (#[trigger] order@[k]) < self@.nodes.len(),
            forall|k: int|
                0 <= k < order@.len() ==> self@.reaches(
                    opt_ref_view(filter),
                    self@.nodes[start as int].0,
                    self@.nodes[#[trigger] order@[k] as int].0,
                ),
            forall|x: Seq<char>|
                self@.reaches(opt_ref_view(filter), self@.nodes[start as int].0, x) ==> exists|k: int|
                    0 <= k < order@.len() && self@.nodes[#[trigger] order@[k] as int].0 == x,
            forall|k: int|
                0 < k < order@.len() ==> exists|j: int|
                    0 <= j < k && self@.step(
                        opt_ref_view(filter),
                        self@.nodes[order@[j] as int].0,
                        self@.nodes[#[trigger] order@[k] as int].0,
                    ),
            forall|k1: int, k2: int, j: int|
                #![trigger self@.step(opt_ref_view(filter), self@.nodes[order@[j] as int].0, self@.nodes[order@[k2] as int].0), order@[k1]]
                0 < k1 < k2 < order@.len() && 0 <= j < order@.len() && self@.step(
                    opt_ref_view(filter),
                    self@.nodes[order@[j] as int].0,
                    self@.nodes[order@[k2] as int].0,
                ) ==> exists|j2: int|
                    0 <= j2 <= j && self@.step(
                        opt_ref_view(filter),
                        self@.nodes[#[trigger] order@[j2] as int].0,
                        self@.nodes[order@[k1] as int].0,
                    ),
    {
        let ghost g = self@;
        let ghost f = opt_ref_view(filter);
        let ghost s = g.nodes[start as int].0;
        let n = self.nodes.len();
        let mut visited: Vec<bool> = Vec::new();
        let mut i: usize = 0;
        while i < n
            invariant
                n == self.nodes@.len(),
                i <= n,
                visited@.len() == i,
                forall|k: int| 0 <= k < i ==> !(#[trigger] visited@[k]),
            decreases n - i,
        {
            visited.push(false);
            i = i + 1;
        }
        visited.set(start, true);
        let mut order: Vec<usize> = Vec::new();
        order.push(start);
        proof {
            assert(g.nodes[start as int].0 == s);
            assert(g.has_node(s));
            lemma_reach_self(g, f, s);
            assert forall|v: int| 0 <= v < n implies (#[trigger] visited@[v] <==> order@.contains(v as usize)) by {
                if v == start as int {
                    assert(order@[0] == start);
                }
            }
        }
        let mut h: usize = 0;
        while h < order.len()
            invariant
                g == self@,
                f == opt_ref_view(filter),
                s == g.nodes[start as int].0,
                start < n,
                g.wf(),
                n == g.nodes.len(),
                visited@.len() == n,
                h <= order@.len() <= n,
                order@.len() > 0,
                order@[0] == start,
                order@.no_duplicates(),
                forall|k: int| 0 <= k < order@.len() ==> (#[trigger] order@[k]) < n,
                forall|v: int| 0 <= v < n ==> (#[trigger] visited@[v] <==> order@.contains(v as usize)),
                forall|k: int| 0 <= k < order@.len() ==> g.reaches(f, s, g.nodes[#[trigger] order@[k] as int].0),
                forall|k: int|
                    0 < k < order@.len() ==> exists|j: int|
                        0 <= j < k && j <= h && g.step(f, g.nodes[order@[j] as int].0, g.nodes[#[trigger] order@[k] as int].0),
                forall|k1: int, k2: int, j: int|
                    #![trigger g.step(f, g.nodes[order@[j] as int].0, g.nodes[order@[k2] as int].0), order@[k1]]
                    0 < k1 < k2 < order@.len() && 0 <= j < order@.len() && g.step(
                        f,
                        g.nodes[order@[j] as int].0,
                        g.nodes[order@[k2] as int].0,
                    ) ==> exists|j2: int|
                        0 <= j2 <= j && g.step(f, g.nodes[#[trigger] order@[j2] as int].0, g.nodes[order@[k1] as int].0),
                forall|k: int, v: int|
                    0 <= k < h && 0 <= v < n && #[trigger] g.step(f, g.nodes[#[trigger] order@[k] as int].0, g.nodes[v].0)
                        ==> visited@[v],
            decreases n - h,
        {
            let u = order[h];
            let mut t: usize = 0;
            while t < self.edges.len()
                invariant
                    g == self@,
                    f == opt_ref_view(filter),
                    s == g.nodes[start as int].0,
                    start < n,
                    g.wf(),
                    n == g.nodes.len(),
                    visited@.len() == n,
                    h < order@.len() <= n,
                    u == order@[h as int],
                    order@[0] == start,
                    order@.no_duplicates(),
                    forall|k: int| 0 <= k < order@.len() ==> (#[trigger] order@[k]) < n,
                    forall|v: int| 0 <= v < n ==> (#[trigger] visited@[v] <==> order@.contains(v as usize)),
                    forall|k: int| 0 <= k < order@.len() ==> g.reaches(f, s, g.nodes[#[trigger] order@[k] as int].0),
                    forall|k: int|
                        0 < k < order@.len() ==> exists|j: int|
                            0 <= j < k && j <= h && g.step(f, g.nodes[order@[j] as int].0, g.nodes[#[trigger] order@[k] as int].0),
                    forall|k1: int, k2: int, j: int|
                        #![trigger g.step(f, g.nodes[order@[j] as int].0, g.nodes[order@[k2] as int].0), order@[k1]]
                        0 < k1 < k2 < order@.len() && 0 <= j < order@.len() && g.step(
                            f,
                            g.nodes[order@[j] as int].0,
                            g.nodes[order@[k2] as int].0,
                        ) ==> exists|j2: int|
                            0 <= j2 <= j && g.step(f, g.nodes[#[trigger] order@[j2] as int].0, g.nodes[order@[k1] as int].0),
                    forall|k: int, v: int|
                        0 <= k < h && 0 <= v < n && #[trigger] g.step(f, g.nodes[#[trigger] order@[k] as int].0, g.nodes[v].0)
                            ==> visited@[v],
                    t <= g.edges.len(),
                    forall|t2: int|
                        0 <= t2 < t && (#[trigger] g.edges[t2]).0 == g.nodes[u as int].0 && kind_passes(f, g.edges[t2].2)
                            && g.has_node(g.edges[t2].1) ==> visited@[g.index_of(g.edges[t2].1)],
                decreases g.edges.len() - t,
            {
                proof {
                    assert(g.edges[t as int] == edge_view(self.edges@[t as int]));
                    assert(g.nodes[u as int] == node_view(self.nodes@[u as int]));
                }
                let ghost visited0 = visited@;
                if self.edges[t].0 == self.nodes[u].0 && passes(filter, &self.edges[t].2) {
                    match self.find(&self.edges[t].1) {
                        Some(v) => {
                            if !visited[v] {
                                proof {
                                    lemma_distinct_below(order@, n as int, v as int);
                                    assert(g.has_node(g.nodes[u as int].0));
                                    assert(g.has_node(g.nodes[v as int].0));
                                    assert(g.edges[t as int].0 == g.nodes[u as int].0);
                                    assert(g.edges[t as int].1 == g.nodes[v as int].0);
                                    assert(kind_passes(f, g.edges[t as int].2));
                                    assert(g.step(f, g.nodes[u as int].0, g.nodes[v as int].0));
                                    lemma_reach_step(g, f, s, g.nodes[u as int].0, g.nodes[v as int].0);
                                }
                                let ghost old_order = order@;
                                let ghost old_visited = visited@;
                                visited.set(v, true);
                                order.push(v);
                                proof {
                                    assert forall|w: int| 0 <= w < n implies (#[trigger] visited@[w] <==> order@.contains(w as usize)) by {
                                        vstd::seq_lib::lemma_seq_contains_after_push(old_order, v, w as usize);
                                        if w != v as int {
                                            assert(visited@[w] == old_visited[w]);
                                        }
                                    }
                                    assert forall|k: int| 0 <= k < order@.len() implies g.reaches(f, s, g.nodes[#[trigger] order@[k] as int].0) by {
                                        if k < old_order.len() {
                                            assert(order@[k] == old_order[k]);
                                        }
                                    }
                                    let m = old_order.len() as int;
                                    assert(forall|k: int| 0 <= k < m ==> order@[k] == old_order[k]);
                                    assert(order@[m] == v);
                                    assert forall|k: int| 0 < k < order@.len() implies exists|j: int|
                                        0 <= j < k && j <= h && g.step(f, g.nodes[order@[j] as int].0, g.nodes[#[trigger] order@[k] as int].0) by {
                                        if k < m {
                                            let j = choose|j: int|
                                                0 <= j < k && j <= h && g.step(f, g.nodes[old_order[j] as int].0, g.nodes[#[trigger] old_order[k] as int].0);
                                        } else {
                                            assert(g.step(f, g.nodes[order@[h as int] as int].0, g.nodes[order@[k] as int].0));
                                        }
                                    }
                                    assert forall|k1: int, k2: int, j: int|
                                        #![trigger g.step(f, g.nodes[order@[j] as int].0, g.nodes[order@[k2] as int].0), order@[k1]]
                                        0 < k1 < k2 < order@.len() && 0 <= j < order@.len() && g.step(
                                            f,
                                            g.nodes[order@[j] as int].0,
                                            g.nodes[order@[k2] as int].0,
                                        ) implies exists|j2: int|
                                            0 <= j2 <= j && g.step(f, g.nodes[#[trigger] order@[j2] as int].0, g.nodes[order@[k1] as int].0) by {
                                        let j1 = choose|j1: int|
                                            0 <= j1 < k1 && j1 <= h && g.step(f, g.nodes[old_order[j1] as int].0, g.nodes[#[trigger] old_order[k1] as int].0);
                                        if k2 < m && j < m {
                                            let j2 = choose|j2: int|
                                                0 <= j2 <= j && g.step(f, g.nodes[#[trigger] old_order[j2] as int].0, g.nodes[old_order[k1] as int].0);
                                            assert(order@[j2] == old_order[j2]);
                                        } else if k2 == m && j < h {
                                            assert(old_visited[v as int]);
                                        } else {
                                            assert(order@[j1] == old_order[j1]);
                                            assert(j1 <= j);
                                        }
                                    }
                                    assert(order@.no_duplicates()) by {
                                        assert forall|a: int, b: int| 0 <= a < order@.len() && 0 <= b < order@.len() && a != b implies order@[a] != order@[b] by {
                                            if a < old_order.len() && b < old_order.len() {
                                                assert(old_order[a] != old_order[b]);
                                            } else if a < old_order.len() {
                                                assert(old_order.contains(old_order[a]));
                                            } else if b < old_order.len() {
                                                assert(old_order.contains(old_order[b]));
                                            }
                                        }
                                    }
                                }
                            }
                            proof {
                                assert(visited@[v as int]);
                                assert(v as int == g.index_of(g.edges[t as int].1));
                            }
                        },
                        None => {},
                    }
                }
                proof {
                    assert(forall|w: int| 0 <= w < n && visited0[w] ==> visited@[w]);
                    let e = g.edges[t as int];
                    if e.0 == g.nodes[u as int].0 && kind_passes(f, e.2) && g.has_node(e.1) {
                        let c = g.index_of(e.1);
                        assert(g.nodes[c].0 == e.1);
                        assert(visited@[c]);
                    }
                }
                t = t + 1;
            }
            proof {
                assert forall|v: int| 0 <= v < n && #[trigger] g.step(f, g.nodes[u as int].0, g.nodes[v].0) implies visited@[v] by {
                    let k = choose|k: int|
                        0 <= k < g.edges.len() && (#[trigger] g.edges[k]).0 == g.nodes[u as int].0 && g.edges[k].1
                            == g.nodes[v].0 && kind_passes(f, g.edges[k].2);
                    let c = g.index_of(g.nodes[v].0);
                    assert(g.nodes[c].0 == g.nodes[v].0);
                }
            }
            h = h + 1;
        }
        proof {
            let set = Set::new(|x: Seq<char>| exists|k: int| 0 <= k < order@.len() && g.nodes[#[trigger] order@[k] as int].0 == x);
            assert forall|a: Seq<char>, b: Seq<char>| set.contains(a) && #[trigger] g.step(f, a, b) implies set.contains(b) by {
                let k = choose|k: int| 0 <= k < order@.len() && g.nodes[#[trigger] order@[k] as int].0 == a;
                let v = g.index_of(b);
                assert(g.nodes[v].0 == b);
                assert(g.step(f, g.nodes[order@[k] as int].0, g.nodes[v].0));
                assert(visited@[v]);
                let j = choose|j: int| 0 <= j < order@.len() && order@[j] == v as usize;
                assert(g.nodes[order@[j] as int].0 == b);
            }
            assert(set.contains(s)) by {
                assert(g.nodes[order@[0] as int].0 == s);
            }
            assert forall|x: Seq<char>| g.reaches(f, s, x) implies exists|k: int|
                0 <= k < order@.len() && g.nodes[#[trigger] order@[k] as int].0 == x by {
                let p = choose|p: Seq<Seq<char>>| #[trigger] g.is_path(f, p) && p[0] == s && p.last() == x;
                lemma_closed_path(g, f, set, p);
            }
        }
        order
    }
}

impl Graph {
    /// Walks the graph breadth-first and returns a copy of each node visited,
    /// in the order of visiting. The walk starts at the stored node whose
    /// identifier `start` carries, or at the root when `start` is `None`, and
    /// follows edges forward, only those of type `kind` when that is given.
    /// Each node is visited once; an unknown start visits nothing.
    pub fn traverse(&self, start: Option<&Fields>, kind: Option<&String>) -> (r: Vec<Fields>)
        requires
            self@.wf(),
        ensures
            ({
                let s = self@.start_id(deref_fields(start));
                let seen = self@.visit_set(s, opt_ref_view(kind));
                &&& forall|i: int|
                    0 <= i < r@.len() ==> {
                        let id = id_of(#[trigger] r@[i]);
                        &&& id is Some
                        &&& seen.contains(id->Some_0)
                        &&& crate::value::same_fields(r@[i], self@.node(id->Some_0)->Some_0)
                    }
                &&& forall|x: Seq<char>|
                    seen.contains(x) ==> exists|i: int| 0 <= i < r@.len() && id_of(#[trigger] r@[i]) == Some(x)
                &&& forall|i: int, j: int|
                    0 <= i < r@.len() && 0 <= j < r@.len() && i != j ==> id_of(#[trigger] r@[i]) != id_of(
                        #[trigger] r@[j],
                    )
                &&& r@.len() > 0 ==> id_of(r@[0]) == s
                &&& forall|i: int|
                    0 < i < r@.len() ==> exists|j: int|
                        0 <= j < i && self@.step(
                            opt_ref_view(kind),
                            id_of(r@[j])->Some_0,
                            id_of(#[trigger] r@[i])->Some_0,
                        )
                &&& forall|i1: int, i2: int, j: int|
                    #![trigger self@.step(opt_ref_view(kind), id_of(r@[j])->Some_0, id_of(r@[i2])->Some_0), r@[i1]]
                    0 < i1 < i2 < r@.len() && 0 <= j < r@.len() && self@.step(
                        opt_ref_view(kind),
                        id_of(r@[j])->Some_0,
                        id_of(r@[i2])->Some_0,
                    ) ==> exists|j2: int|
                        0 <= j2 <= j && self@.step(
                            opt_ref_view(kind),
                            id_of(#[trigger] r@[j2])->Some_0,
                            id_of(r@[i1])->Some_0,
                        )
            }),
    {
        let ghost g = self@;
        let ghost f = opt_ref_view(kind);
        let ghost s = g.start_id(deref_fields(start));
        let mut out: Vec<Fields> = Vec::new();
        let sid = match start {
            Some(n) => match node_id(n) {
                Ok(id) => id,
                Err(_) => return out,
            },
            None => match &self.root {
                Some(id) => id.clone(),
                None => return out,
            },
        };
        let first = match self.find(&sid) {
            Some(i) => i,
            None => return out,
        };
        let order = self.bfs(first, kind);
        let ghost seen = g.visit_set(s, f);
        proof {
            assert(sid@ == s->Some_0);
            assert(g.nodes[first as int].0 == s->Some_0);
        }
        let mut k: usize = 0;
        while k < order.len()
            invariant
                g == self@,
                g.wf(),
                f == opt_ref_view(kind),
                s is Some,
                g.has_node(s->Some_0),
                g.nodes[first as int].0 == s->Some_0,
                seen == g.visit_set(s, f),
                k <= order@.len(),
                out@.len() == k,
                order@.len() > 0,
                order@[0] == first,
                order@.no_duplicates(),
                forall|j: int| 0 <= j < order@.len() ==> (#[trigger] order@[j]) < g.nodes.len(),
                forall|j: int| 0 <= j < order@.len() ==> g.reaches(f, s->Some_0, g.nodes[#[trigger] order@[j] as int].0),
                forall|k1: int, k2: int, j: int|
                    #![trigger g.step(f, g.nodes[order@[j] as int].0, g.nodes[order@[k2] as int].0), order@[k1]]
                    0 < k1 < k2 < order@.len() && 0 <= j < order@.len() && g.step(
                        f,
                        g.nodes[order@[j] as int].0,
                        g.nodes[order@[k2] as int].0,
                    ) ==> exists|j2: int|
                        0 <= j2 <= j && g.step(f, g.nodes[#[trigger] order@[j2] as int].0, g.nodes[order@[k1] as int].0),
                forall|k: int|
                    0 < k < order@.len() ==> exists|j: int|
                        0 <= j < k && g.step(f, g.nodes[order@[j] as int].0, g.nodes[#[trigger] order@[k] as int].0),
                forall|j: int|
                    0 <= j < k ==> id_of(#[trigger] out@[j]) == Some(g.nodes[order@[j] as int].0)
                        && crate::value::same_fields(out@[j], g.nodes[order@[j] as int].1),
            decreases order@.len() - k,
        {
            let d = self.nodes[order[k]].1.duplicate();
            proof {
                let v = order@[k as int] as int;
                assert(g.nodes[v] == node_view(self.nodes@[v]));
                assert(id_of(g.nodes[v].1) == Some(g.nodes[v].0));
            }
            let ghost out0 = out@;
            out.push(d);
            proof {
                assert forall|j: int| 0 <= j < k + 1 implies id_of(#[trigger] out@[j]) == Some(g.nodes[order@[j] as int].0)
                    && crate::value::same_fields(out@[j], g.nodes[order@[j] as int].1) by {
                    if j < k {
                        assert(out@[j] == out0[j]);
                    }
                }
            }
            k = k + 1;
        }
        proof {
            assert forall|i: int| 0 <= i < out@.len() implies {
                let id = id_of(#[trigger] out@[i]);
                &&& id is Some
                &&& seen.contains(id->Some_0)
                &&& crate::value::same_fields(out@[i], g.node(id->Some_0)->Some_0)
            } by {
                let v = order@[i] as int;
                let c = g.index_of(g.nodes[v].0);
                assert(g.nodes[c].0 == g.nodes[v].0);
                assert(g.reaches(f, s->Some_0, g.nodes[v].0));
            }
            assert forall|x: Seq<char>| seen.contains(x) implies exists|i: int|
                0 <= i < out@.len() && id_of(#[trigger] out@[i]) == Some(x) by {
                let j = choose|j: int| 0 <= j < order@.len() && g.nodes[#[trigger] order@[j] as int].0 == x;
                assert(id_of(out@[j]) == Some(x));
            }
            assert forall|i: int, j: int|
                0 <= i < out@.len() && 0 <= j < out@.len() && i != j implies id_of(#[trigger] out@[i]) != id_of(
                    #[trigger] out@[j],
                ) by {
                assert(order@[i] != order@[j]);
            }
            assert forall|i: int| 0 < i < out@.len() implies exists|j: int|
                0 <= j < i && g.step(f, id_of(out@[j])->Some_0, id_of(#[trigger] out@[i])->Some_0) by {
                let j = choose|j: int|
                    0 <= j < i && g.step(f, g.nodes[order@[j] as int].0, g.nodes[#[trigger] order@[i] as int].0);
                assert(id_of(out@[j]) == Some(g.nodes[order@[j] as int].0));
            }
            assert forall|i1: int, i2: int, j: int|
                #![trigger g.step(f, id_of(out@[j])->Some_0, id_of(out@[i2])->Some_0), out@[i1]]
                0 < i1 < i2 < out@.len() && 0 <= j < out@.len() && g.step(
                    f,
                    id_of(out@[j])->Some_0,
                    id_of(out@[i2])->Some_0,
                ) implies exists|j2: int|
                    0 <= j2 <= j && g.step(f, id_of(#[trigger] out@[j2])->Some_0, id_of(out@[i1])->Some_0) by {
                assert(g.step(f, g.nodes[order@[j] as int].0, g.nodes[order@[i2] as int].0));
                let j2 = choose|j2: int|
                    0 <= j2 <= j && g.step(f, g.nodes[#[trigger] order@[j2] as int].0, g.nodes[order@[i1] as int].0);
                assert(id_of(out@[j2]) == Some(g.nodes[order@[j2] as int].0));
            }
        }
        out
    }
}

/// A copy of an edge.
fn clone_edge(e: &(String, String, Option<String>)) -> (r: (String, String, Option<String>))
    ensures
        edge_view(r) == edge_view(*e),
{
    let kind = match &e.2 {
        Some(k) => Some(k.clone()),
        None => None,
    };
    (e.0.clone(), e.1.clone(), kind)
}

/// Whether two edge types are the same.
fn same_kind(a: &Option<String>, b: &Option<String>) -> (r: bool)
    ensures
        r == (opt_view(*a) == opt_view(*b)),
{
    match (a, b) {
        (Some(x), Some(y)) => *x == *y,
        (None, None) => true,
        _ => false,
    }
}

impl Graph {
    /// Adds the edge from `source` to `target` of type `kind`. Adding an edge
    /// that is already there changes nothing. Fails, changing nothing, if an
    /// endpoint is the empty identifier.
    pub fn add_edge(&mut self, source: String, target: String, kind: Option<String>) -> (r: Result<(), GraphError>)
        requires
            old(self)@.wf(),
        ensures
            final(self)@.wf(),
            (final(self)@, r) == old(self)@.add_edge(source@, target@, opt_view(kind)),
    {
        let empty = String::new();
        if source == empty || target == empty {
            return Err(GraphError::InvalidEdge);
        }
        proof {
            if source@.len() == 0 {
                assert(source@ =~= empty@);
            }
            if target@.len() == 0 {
                assert(target@ =~= empty@);
            }
        }
        let ghost g = self@;
        let ghost e = (source@, target@, opt_view(kind));
        let mut t: usize = 0;
        while t < self.edges.len()
            invariant
                g == self@,
                g.wf(),
                source@.len() != 0,
                target@.len() != 0,
                e == (source@, target@, opt_view(kind)),
                t <= g.edges.len(),
                forall|k: int| 0 <= k < t ==> #[trigger] g.edges[k] != e,
            decreases g.edges.len() - t,
        {
            proof {
                assert(g.edges[t as int] == edge_view(self.edges@[t as int]));
            }
            if self.edges[t].0 == source && self.edges[t].1 == target && same_kind(&self.edges[t].2, &kind) {
                proof {
                    assert(g.edges[t as int] == e);
                    assert(g.edges.contains(e));
                }
                return Ok(());
            }
            t = t + 1;
        }
        proof {
            assert(!g.edges.contains(e));
        }
        self.edges.push((source, target, kind));
        proof {
            assert(self@.edges =~= g.edges.push(e));
            assert(self@.nodes =~= g.nodes);
        }
        Ok(())
    }

    /// Drops every edge that starts or ends at `id`.
    fn purge_edges(&mut self, id: &String)
        ensures
            final(self)@ == (GraphModel {
                edges: edges_away_from(old(self)@.edges, id@),
                ..old(self)@
            }),
    {
        let ghost g = self@;
        let ghost keep = |e: EdgeModel| e.0 != id@ && e.1 != id@;
        let mut kept: Vec<(String, String, Option<String>)> = Vec::new();
        let mut old_edges: Vec<(String, String, Option<String>)> = Vec::new();
        std::mem::swap(&mut old_edges, &mut self.edges);
        proof {
            assert(old_edges@.map_values(|e: (String, String, Option<String>)| edge_view(e)) == g.edges);
        }
        let mut t: usize = 0;
        while t < old_edges.len()
            invariant
                keep == (|e: EdgeModel| e.0 != id@ && e.1 != id@),
                g.edges == old_edges@.map_values(|e: (String, String, Option<String>)| edge_view(e)),
                t <= old_edges@.len(),
                kept@.map_values(|e: (String, String, Option<String>)| edge_view(e)) == g.edges.take(t as int).filter(
                    keep,
                ),
            decreases old_edges@.len() - t,
        {
            let ghost before = kept@;
            proof {
                assert(g.edges[t as int] == edge_view(old_edges@[t as int]));
                assert(g.edges.take(t as int + 1).drop_last() =~= g.edges.take(t as int));
                reveal_with_fuel(Seq::filter, 1);
            }
            if old_edges[t].0 != *id && old_edges[t].1 != *id {
                kept.push(clone_edge(&old_edges[t]));
                proof {
                    assert(kept@.map_values(|e: (String, String, Option<String>)| edge_view(e)) =~= before.map_values(
                        |e: (String, String, Option<String>)| edge_view(e),
                    ).push(g.edges[t as int]));
                }
            }
            t = t + 1;
        }
        proof {
            assert(g.edges.take(old_edges@.len() as int) =~= g.edges);
        }
        self.edges = kept;
        proof {
            assert(self@.nodes == g.nodes);
        }
    }
}

/// Removing the node at `i` keeps the graph well formed.
proof fn lemma_remove_at_wf(g: GraphModel, i: int)
    requires
        g.wf(),
        0 <= i < g.nodes.len(),
    ensures
        g.remove_at(i).wf(),
{
    let r = g.remove_at(i).nodes;
    assert forall|a: int| 0 <= a < r.len() implies #[trigger] r[a] == g.nodes[if a < i { a } else { a + 1 }] by {}
    assert forall|a: int, b: int| 0 <= a < r.len() && 0 <= b < r.len() && a != b implies #[trigger] r[a].0
        != #[trigger] r[b].0 by {
        let a1 = if a < i { a } else { a + 1 };
        let b1 = if b < i { b } else { b + 1 };
        assert(r[a] == g.nodes[a1] && r[b] == g.nodes[b1]);
    }
    assert forall|a: int| 0 <= a < r.len() implies id_of(#[trigger] r[a].1) == Some(r[a].0) by {
        let a1 = if a < i { a } else { a + 1 };
        assert(r[a] == g.nodes[a1]);
    }
}

impl Graph {
    /// Removes the node at `i` and every edge that touches its identifier.
    fn remove_at(&mut self, i: usize) -> (r: Fields)
        requires
            old(self)@.wf(),
            i < old(self)@.nodes.len(),
        ensures
            final(self)@ == old(self)@.remove_at(i as int),
            r == old(self)@.nodes[i as int].1,
    {
        let ghost g = self@;
        let (key, data) = self.nodes.remove(i);
        proof {
            assert(self@.nodes =~= g.nodes.remove(i as int));
            assert(key@ == g.nodes[i as int].0);
        }
        self.purge_edges(&key);
        data
    }

    /// Removes the node stored under `id`, and every edge that starts or
    /// ends there, and returns its data; `None`, changing nothing, if no
    /// node has that identifier. The root is left as it is.
    pub fn remove_by_id(&mut self, id: &String) -> (r: Option<Fields>)
        requires
            old(self)@.wf(),
        ensures
            final(self)@.wf(),
            (final(self)@, r) == old(self)@.remove_by_id(id@),
    {
        match self.find(id) {
            Some(i) => {
                proof {
                    lemma_remove_at_wf(self@, i as int);
                }
                Some(self.remove_at(i))
            },
            None => None,
        }
    }

    /// Removes the stored node whose data is structurally equal to `node`,
    /// with every edge that starts or ends at its identifier, and returns its
    /// data; `None`, changing nothing, if no stored node is equal to it.
    pub fn remove_node(&mut self, node: &Fields) -> (r: Option<Fields>)
        requires
            old(self)@.wf(),
        ensures
            final(self)@.wf(),
            match r {
                Some(d) => exists|i: int|
                    0 <= i < old(self)@.nodes.len() && crate::value::same_fields(#[trigger] old(self)@.nodes[i].1, *node)
                        && final(self)@ == old(self)@.remove_at(i) && d == old(self)@.nodes[i].1,
                None => final(self)@ == old(self)@ && forall|i: int|
                    0 <= i < old(self)@.nodes.len() ==> !crate::value::same_fields(
                        #[trigger] old(self)@.nodes[i].1,
                        *node,
                    ),
            },
    {
        let ghost g = self@;
        let mut i: usize = 0;
        while i < self.nodes.len()
            invariant
                g == self@,
                g == old(self)@,
                g.wf(),
                i <= g.nodes.len(),
                g.nodes.len() == self.nodes@.len(),
                forall|k: int| 0 <= k < i ==> !crate::value::same_fields(#[trigger] g.nodes[k].1, *node),
            decreases g.nodes.len() - i,
        {
            proof {
                assert(g.nodes[i as int] == node_view(self.nodes@[i as int]));
            }
            if self.nodes[i].1.same_as(node) {
                proof {
                    lemma_remove_at_wf(g, i as int);
                }
                let d = self.remove_at(i);
                proof {
                    assert(crate::value::same_fields(g.nodes[i as int].1, *node));
                    assert(self@ == g.remove_at(i as int) && d == g.nodes[i as int].1);
                }
                return Some(d);
            }
            i = i + 1;
        }
        None
    }
}
} // verus!
