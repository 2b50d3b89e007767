//! The in-memory store: an ontology-validated graph with adjacency indexes.

use vstd::hash_map::StringHashMap;
use vstd::prelude::*;

use crate::error::{GraphError, GraphIssue};
use crate::graph::{confidence_in_range, is_valid_confidence, Edge, Node};
use crate::names::names_equal;
use crate::ontology::{name_views, EdgeTypeDef, Ontology};

verus! {

/// The abstract state of a [`Graph`].
pub struct GraphView {
    /// The ontology the graph is constrained by.
    pub ontology: Ontology,
    /// The nodes, by id.
    pub nodes: Map<Seq<char>, Node>,
    /// The node ids, in the order the nodes were inserted.
    pub node_order: Seq<Seq<char>>,
    /// The edges, by id.
    pub edges: Map<Seq<char>, Edge>,
    /// The edge ids, in the order the edges were inserted.
    pub edge_order: Seq<Seq<char>>,
}

/// The end of `e` that an adjacency index keys it by: its source for the
/// outgoing index, its target for the incoming one.
pub open spec fn endpoint(e: Edge, by_source: bool) -> Seq<char> {
    if by_source {
        e.source@
    } else {
        e.target@
    }
}

/// The ids in `order` of the edges whose source (`by_source`) or target
/// (otherwise) is `n`, in the order of `order`.
pub open spec fn edges_at(order: Seq<Seq<char>>, edges: Map<Seq<char>, Edge>, n: Seq<char>, by_source: bool) -> Seq<Seq<char>>
    decreases order.len(),
{
    if order.len() == 0 {
        Seq::empty()
    } else {
        let rest = edges_at(order.drop_last(), edges, n, by_source);
        if endpoint(edges[order.last()], by_source) == n {
            rest.push(order.last())
        } else {
            rest
        }
    }
}

/// `s` with every occurrence of `x` taken out, the rest in order.
pub open spec fn drop_name(s: Seq<Seq<char>>, x: Seq<char>) -> Seq<Seq<char>>
    decreases s.len(),
{
    if s.len() == 0 {
        s
    } else {
        let rest = drop_name(s.drop_last(), x);
        if s.last() == x {
            rest
        } else {
            rest.push(s.last())
        }
    }
}

/// `actual` satisfies a domain or range constraint listing `allowed`: the
/// list is empty, or `actual` is one of its types or a subtype of one.
pub open spec fn permits(o: Ontology, allowed: Seq<String>, actual: Seq<char>) -> bool {
    allowed.len() == 0 || exists|i: int| 0 <= i < allowed.len() && o.subtype_of(actual, #[trigger] allowed[i]@)
}

impl GraphView {
    /// Ids of the edges leaving `n`, oldest first.
    pub open spec fn outgoing(self, n: Seq<char>) -> Seq<Seq<char>> {
        edges_at(self.edge_order, self.edges, n, true)
    }

    /// Ids of the edges entering `n`, oldest first.
    pub open spec fn incoming(self, n: Seq<char>) -> Seq<Seq<char>> {
        edges_at(self.edge_order, self.edges, n, false)
    }

    /// What inserting `node` is refused with, if it is refused.
    pub open spec fn insert_node_issue(self, node: Node) -> Option<GraphIssue> {
        if !self.ontology.node_types.names().contains(node.node_type@) {
            Some(GraphIssue::UnknownNodeType { node: node.id@, node_type: node.node_type@ })
        } else if self.nodes.contains_key(node.id@) {
            Some(GraphIssue::DuplicateId(node.id@))
        } else {
            None
        }
    }

    /// The graph with `node` added.
    pub open spec fn with_node(self, node: Node) -> GraphView {
        GraphView {
            nodes: self.nodes.insert(node.id@, node),
            node_order: self.node_order.push(node.id@),
            ..self
        }
    }

    /// What inserting `edge` is refused with, if it is refused. The checks
    /// come in this order: the edge type is defined; the id is new among
    /// edges; the confidence lies in `0.0..=1.0`; the source and then the
    /// target node exist; the source's type satisfies the domain and the
    /// target's type the range of the edge type.
    pub open spec fn insert_edge_issue(self, edge: Edge) -> Option<GraphIssue> {
        let o = self.ontology;
        if !o.edge_types.names().contains(edge.edge_type@) {
            Some(GraphIssue::UnknownEdgeType { edge: edge.id@, edge_type: edge.edge_type@ })
        } else if self.edges.contains_key(edge.id@) {
            Some(GraphIssue::DuplicateId(edge.id@))
        } else if !confidence_in_range(edge.confidence) {
            Some(GraphIssue::InvalidConfidence { edge: edge.id@, confidence: edge.confidence })
        } else if !self.nodes.contains_key(edge.source@) {
            Some(GraphIssue::MissingEndpoint { edge: edge.id@, node: edge.source@ })
        } else if !self.nodes.contains_key(edge.target@) {
            Some(GraphIssue::MissingEndpoint { edge: edge.id@, node: edge.target@ })
        } else {
            let def = o.edge_types.lookup(edge.edge_type@)->0;
            let source_type = self.nodes[edge.source@].node_type@;
            let target_type = self.nodes[edge.target@].node_type@;
            if !permits(o, def.source_types@, source_type) {
                Some(GraphIssue::DomainViolation { edge: edge.id@, edge_type: edge.edge_type@, source_type })
            } else if !permits(o, def.target_types@, target_type) {
                Some(GraphIssue::RangeViolation { edge: edge.id@, edge_type: edge.edge_type@, target_type })
            } else {
                None
            }
        }
    }

    /// Each id of `ids` with its edge and the node at the edge's far end:
    /// the target when `outgoing`, else the source.
    pub open spec fn resolved(self, ids: Seq<Seq<char>>, outgoing: bool) -> Seq<(Edge, Node)> {
        ids.map_values(|e: Seq<char>| (self.edges[e], self.nodes[endpoint(self.edges[e], !outgoing)]))
    }

    /// The nodes, in `order`, whose type is `ty` or a subtype of it.
    pub open spec fn nodes_typed(self, order: Seq<Seq<char>>, ty: Seq<char>) -> Seq<Node>
        decreases order.len(),
    {
        if order.len() == 0 {
            Seq::empty()
        } else {
            let rest = self.nodes_typed(order.drop_last(), ty);
            let n = self.nodes[order.last()];
            if self.ontology.subtype_of(n.node_type@, ty) {
                rest.push(n)
            } else {
                rest
            }
        }
    }

    /// What removing the node `id` is refused with, if it is refused.
    pub open spec fn remove_node_issue(self, id: Seq<char>) -> Option<GraphIssue> {
        if !self.nodes.contains_key(id) {
            Some(GraphIssue::UnknownNode(id))
        } else if self.outgoing(id).len() > 0 || self.incoming(id).len() > 0 {
            Some(GraphIssue::NodeHasEdges(id))
        } else {
            None
        }
    }

    /// The graph without the node `id`.
    pub open spec fn without_node(self, id: Seq<char>) -> GraphView {
        GraphView { nodes: self.nodes.remove(id), node_order: drop_name(self.node_order, id), ..self }
    }

    /// The graph without the edge `id`.
    pub open spec fn without_edge(self, id: Seq<char>) -> GraphView {
        GraphView { edges: self.edges.remove(id), edge_order: drop_name(self.edge_order, id), ..self }
    }

    /// The graph with `edge` added.
    pub open spec fn with_edge(self, edge: Edge) -> GraphView {
        GraphView {
            edges: self.edges.insert(edge.id@, edge),
            edge_order: self.edge_order.push(edge.id@),
            ..self
        }
    }
}

/// An in-memory property graph whose contents are constrained by an
/// [`Ontology`].
///
/// Every node and edge inserted is checked against the ontology: types must
/// be defined, edge endpoints must exist, and edge domain/range constraints
/// are enforced honoring the subtype hierarchy.
pub struct Graph {
    ontology: Ontology,
    nodes: StringHashMap<Node>,
    /// node ids in insertion order
    node_ids: Vec<String>,
    edges: StringHashMap<Edge>,
    /// edge ids in insertion order
    edge_ids: Vec<String>,
    /// node id -> ids of edges whose source is that node
    outgoing: StringHashMap<Vec<String>>,
    /// node id -> ids of edges whose target is that node
    incoming: StringHashMap<Vec<String>>,
}

/// The list that an adjacency index holds for `n`: empty where it has none.
pub open spec fn index_list(index: Map<Seq<char>, Vec<String>>, n: Seq<char>) -> Seq<Seq<char>> {
    if index.contains_key(n) {
        name_views(index[n]@)
    } else {
        Seq::empty()
    }
}


/// Adding an edge that `order` does not list leaves what `order` lists at
/// every node unchanged.
pub(crate) proof fn lemma_edges_at_insert(
    order: Seq<Seq<char>>,
    edges: Map<Seq<char>, Edge>,
    id: Seq<char>,
    e: Edge,
    n: Seq<char>,
    by_source: bool,
)
    requires
        !order.contains(id),
    ensures
        edges_at(order, edges.insert(id, e), n, by_source) == edges_at(order, edges, n, by_source),
    decreases order.len(),
{
    if order.len() > 0 {
        assert(!order.drop_last().contains(id)) by {
            if order.drop_last().contains(id) {
                let i = choose|i: int| 0 <= i < order.drop_last().len() && order.drop_last()[i] == id;
                assert(order[i] == id);
            }
        }
        lemma_edges_at_insert(order.drop_last(), edges, id, e, n, by_source);
        assert(order.last() != id) by {
            assert(order[order.len() - 1] == order.last());
        }
    }
}

/// Taking an edge out of the order and the map takes it out of what the
/// order lists at every node, the rest in order.
proof fn lemma_edges_at_remove(order: Seq<Seq<char>>, edges: Map<Seq<char>, Edge>, id: Seq<char>, n: Seq<char>, by_source: bool)
    ensures
        edges_at(drop_name(order, id), edges.remove(id), n, by_source) == drop_name(
            edges_at(order, edges, n, by_source),
            id,
        ),
    decreases order.len(),
{
    if order.len() > 0 {
        let dl = order.drop_last();
        lemma_edges_at_remove(dl, edges, id, n, by_source);
        let prev = edges_at(dl, edges, n, by_source);
        if order.last() == id {
            assert(drop_name(order, id) == drop_name(dl, id));
            if endpoint(edges[order.last()], by_source) == n {
                assert(prev.push(id).drop_last() =~= prev);
            }
        } else {
            let dn = drop_name(dl, id);
            assert(drop_name(order, id) == dn.push(order.last()));
            assert(dn.push(order.last()).drop_last() =~= dn);
            if endpoint(edges[order.last()], by_source) == n {
                assert(prev.push(order.last()).drop_last() =~= prev);
            }
        }
    } else {
        assert(drop_name(order, id) =~= order);
    }
}


/// Every id that `order` lists at `n` is in `order` and has `n` as its end.
pub(crate) proof fn lemma_edges_at_members(order: Seq<Seq<char>>, edges: Map<Seq<char>, Edge>, n: Seq<char>, by_source: bool, x: Seq<char>)
    ensures
        edges_at(order, edges, n, by_source).contains(x) <==> (order.contains(x) && endpoint(edges[x], by_source) == n),
    decreases order.len(),
{
    if order.len() > 0 {
        let dl = order.drop_last();
        lemma_edges_at_members(dl, edges, n, by_source, x);
        let prev = edges_at(dl, edges, n, by_source);
        assert(order =~= dl.push(order.last()));
        if order.contains(x) {
            let i = choose|i: int| 0 <= i < order.len() && order[i] == x;
            if i < dl.len() {
                assert(dl[i] == x);
            }
        }
        if dl.contains(x) {
            let i = choose|i: int| 0 <= i < dl.len() && dl[i] == x;
            assert(order[i] == x);
        }
        if endpoint(edges[order.last()], by_source) == n {
            if prev.push(order.last()).contains(x) {
                let i = choose|i: int| 0 <= i < prev.len() + 1 && prev.push(order.last())[i] == x;
                if i < prev.len() {
                    assert(prev[i] == x);
                }
            }
            if prev.contains(x) {
                let i = choose|i: int| 0 <= i < prev.len() && prev[i] == x;
                assert(prev.push(order.last())[i] == x);
            }
            assert(prev.push(order.last())[prev.len() as int] == order.last());
        }
    }
}

/// What `drop_name` keeps: every other name, and each no more often.
pub(crate) proof fn lemma_drop_name(s: Seq<Seq<char>>, x: Seq<char>)
    ensures
        forall|y: Seq<char>| #[trigger] drop_name(s, x).contains(y) <==> (s.contains(y) && y != x),
        s.no_duplicates() ==> drop_name(s, x).no_duplicates(),
        !s.contains(x) ==> drop_name(s, x) == s,
    decreases s.len(),
{
    if s.len() == 0 {
    } else {
        let dl = s.drop_last();
        lemma_drop_name(dl, x);
        let prev = drop_name(dl, x);
        assert(s =~= dl.push(s.last()));
        assert forall|y: Seq<char>| #[trigger] s.contains(y) <==> (dl.contains(y) || y == s.last()) by {
            if s.contains(y) {
                let i = choose|i: int| 0 <= i < s.len() && s[i] == y;
                if i < dl.len() {
                    assert(dl[i] == y);
                }
            }
            if dl.contains(y) {
                let i = choose|i: int| 0 <= i < dl.len() && dl[i] == y;
                assert(s[i] == y);
            }
            if y == s.last() {
                assert(s[s.len() - 1] == y);
            }
        }
        if s.last() != x {
            let r = prev.push(s.last());
            assert forall|y: Seq<char>| #[trigger] r.contains(y) <==> (prev.contains(y) || y == s.last()) by {
                if r.contains(y) {
                    let i = choose|i: int| 0 <= i < r.len() && r[i] == y;
                    if i < prev.len() {
                        assert(prev[i] == y);
                    }
                }
                if prev.contains(y) {
                    let i = choose|i: int| 0 <= i < prev.len() && prev[i] == y;
                    assert(r[i] == y);
                }
                assert(r[prev.len() as int] == s.last());
            }
            if s.no_duplicates() {
                assert(!dl.contains(s.last())) by {
                    if dl.contains(s.last()) {
                        let i = choose|i: int| 0 <= i < dl.len() && dl[i] == s.last();
                        assert(s[i] == s[s.len() - 1]);
                    }
                }
                assert(dl.no_duplicates()) by {
                    assert forall|i: int, j: int| 0 <= i < dl.len() && 0 <= j < dl.len() && i != j implies dl[i] != dl[j] by {
                        assert(s[i] == dl[i] && s[j] == dl[j]);
                    }
                }
                assert(r.no_duplicates()) by {
                    assert forall|i: int, j: int| 0 <= i < r.len() && 0 <= j < r.len() && i != j implies r[i] != r[j] by {
                        if i == prev.len() {
                            assert(prev.contains(r[j]));
                        } else if j == prev.len() {
                            assert(prev.contains(r[i]));
                        } else {
                            assert(r[i] == prev[i] && r[j] == prev[j]);
                        }
                    }
                }
            }
            if !s.contains(x) {
                assert(!dl.contains(x));
            }
        } else {
            if s.no_duplicates() {
                assert(dl.no_duplicates()) by {
                    assert forall|i: int, j: int| 0 <= i < dl.len() && 0 <= j < dl.len() && i != j implies dl[i] != dl[j] by {
                        assert(s[i] == dl[i] && s[j] == dl[j]);
                    }
                }
            }
            assert(s.contains(x));
        }
    }
}

/// Copies a list of names.
fn copy_names(v: &Vec<String>) -> (r: Vec<String>)
    ensures
        name_views(r@) == name_views(v@),
{
    let mut r: Vec<String> = Vec::new();
    let mut i: usize = 0;
    while i < v.len()
        invariant
            i <= v@.len(),
            name_views(r@) == name_views(v@.take(i as int)),
        decreases v@.len() - i,
    {
        let ghost before = r@;
        let name = v[i].clone();
        r.push(name);
        assert(v@.take(i + 1) =~= v@.take(i as int).push(v@[i as int]));
        assert(name_views(r@) =~= name_views(before).push(name@));
        assert(name_views(v@.take(i + 1)) =~= name_views(v@.take(i as int)).push(v@[i as int]@));
        i = i + 1;
    }
    assert(v@.take(v@.len() as int) =~= v@);
    r
}

/// Appends `id` to the list that `index` holds for `key`.
fn index_push(index: &mut StringHashMap<Vec<String>>, key: &str, id: &str)
    ensures
        index_list(final(index)@, key@) == index_list(old(index)@, key@).push(id@),
        forall|n: Seq<char>| n != key@ ==> #[trigger] index_list(final(index)@, n) == index_list(old(index)@, n),
{
    let mut list: Vec<String> = match index.get(key) {
        Some(v) => copy_names(v),
        None => Vec::new(),
    };
    let ghost before = name_views(list@);
    list.push(id.to_owned());
    assert(name_views(list@) =~= before.push(id@));
    index.insert(key.to_owned(), list);
}

/// Takes `id` out of the list that `index` holds for `key`.
fn index_remove(index: &mut StringHashMap<Vec<String>>, key: &str, id: &str)
    ensures
        index_list(final(index)@, key@) == drop_name(index_list(old(index)@, key@), id@),
        forall|n: Seq<char>| n != key@ ==> #[trigger] index_list(final(index)@, n) == index_list(old(index)@, n),
{
    match index.get(key) {
        Some(v) => {
            let list = without_name(v, id);
            index.insert(key.to_owned(), list);
        },
        None => {},
    }
}

/// The names of `v` other than `id`, in order.
fn without_name(v: &Vec<String>, id: &str) -> (r: Vec<String>)
    ensures
        name_views(r@) == drop_name(name_views(v@), id@),
{
    let mut r: Vec<String> = Vec::new();
    let mut i: usize = 0;
    while i < v.len()
        invariant
            i <= v@.len(),
            name_views(r@) == drop_name(name_views(v@.take(i as int)), id@),
        decreases v@.len() - i,
    {
        let ghost before = name_views(r@);
        let ghost t = name_views(v@.take(i + 1));
        assert(t.drop_last() =~= name_views(v@.take(i as int)));
        assert(t.last() == v@[i as int]@);
        if !names_equal(v[i].as_str(), id) {
            r.push(v[i].clone());
            assert(name_views(r@) =~= before.push(v@[i as int]@));
        }
        i = i + 1;
    }
    assert(v@.take(v@.len() as int) =~= v@);
    r
}

impl View for Graph {
    type V = GraphView;

    closed spec fn view(&self) -> GraphView {
        GraphView {
            ontology: self.ontology,
            nodes: self.nodes@,
            node_order: name_views(self.node_ids@),
            edges: self.edges@,
            edge_order: name_views(self.edge_ids@),
        }
    }
}

impl GraphView {
    /// What holds of every graph: its ontology is well formed and valid;
    /// each id order lists every id of its map once; every element is
    /// stored under its own id; every node's type is a declared node type;
    /// every edge has a declared edge type, existing endpoints, a
    /// confidence in `0.0..=1.0`, and endpoints whose types satisfy the
    /// edge type's domain and range.
    pub open spec fn consistent(self) -> bool {
        let o = self.ontology;
        &&& o.wf()
        &&& o.validation_issue() is None
        &&& self.node_order.no_duplicates()
        &&& forall|k: Seq<char>| #[trigger] self.nodes.contains_key(k) <==> self.node_order.contains(k)
        &&& self.edge_order.no_duplicates()
        &&& forall|k: Seq<char>| #[trigger] self.edges.contains_key(k) <==> self.edge_order.contains(k)
        &&& forall|k: Seq<char>| #[trigger] self.nodes.contains_key(k) ==> {
            let n = self.nodes[k];
            &&& n.id@ == k
            &&& o.node_types.names().contains(n.node_type@)
        }
        &&& forall|k: Seq<char>| #[trigger] self.edges.contains_key(k) ==> {
            let e = self.edges[k];
            &&& e.id@ == k
            &&& o.edge_types.names().contains(e.edge_type@)
            &&& confidence_in_range(e.confidence)
            &&& self.nodes.contains_key(e.source@)
            &&& self.nodes.contains_key(e.target@)
            &&& permits(o, o.edge_types.lookup(e.edge_type@)->0.source_types@, self.nodes[e.source@].node_type@)
            &&& permits(o, o.edge_types.lookup(e.edge_type@)->0.target_types@, self.nodes[e.target@].node_type@)
        }
    }
}

impl Clone for Graph {
    /// Rebuilds the graph over a copy of its ontology, inserting copies of
    /// its nodes and then of its edges, each in insertion order.
    fn clone(&self) -> (r: Self)
        ensures
            self.wf() ==> {
                &&& r.wf()
                &&& r@.nodes == self@.nodes
                &&& r@.node_order == self@.node_order
                &&& r@.edges == self@.edges
                &&& r@.edge_order == self@.edge_order
                &&& r@.ontology.meta == self@.ontology.meta
                &&& r@.ontology.node_types.names() == self@.ontology.node_types.names()
                &&& r@.ontology.edge_types.names() == self@.ontology.edge_types.names()
                &&& forall|ty: Seq<char>, ancestor: Seq<char>|
                    #[trigger] r@.ontology.subtype_of(ty, ancestor) == self@.ontology.subtype_of(ty, ancestor)
            },
    {
        let ontology = self.ontology.clone();
        let ghost o2 = ontology;
        if !(ontology.node_types.is_ordered() && ontology.edge_types.is_ordered()) {
            return Graph::placeholder();
        }
        let mut g = match Graph::new(ontology) {
            Ok(g) => g,
            Err(_) => {
                return Graph::placeholder();
            },
        };
        let ghost nodes = self@.nodes;
        let ghost norder = self@.node_order;
        let mut i: usize = 0;
        while i < self.node_ids.len()
            invariant
                g.wf(),
                g@.ontology == o2,
                i <= self.node_ids@.len(),
                norder == self@.node_order,
                nodes == self@.nodes,
                self.wf() ==> {
                    &&& g@.node_order == norder.take(i as int)
                    &&& g@.nodes == nodes.restrict(norder.take(i as int).to_set())
                    &&& g@.edge_order.len() == 0
                    &&& g@.edges == Map::<Seq<char>, Edge>::empty()
                    &&& o2.node_types.names() == self.ontology.node_types.names()
                },
            decreases self.node_ids@.len() - i,
        {
            let id = &self.node_ids[i];
            match self.nodes.get(id.as_str()) {
                Some(n) => {
                    let copy = n.clone();
                    let ghost before = g@;
                    proof {
                        if self.wf() {
                            assert(norder[i as int] == id@);
                            assert(norder.contains(id@));
                            assert(!norder.take(i as int).contains(id@)) by {
                                if norder.take(i as int).contains(id@) {
                                    let j = choose|j: int| 0 <= j < i && norder.take(i as int)[j] == id@;
                                    assert(norder[j] == norder[i as int]);
                                }
                            }
                            assert(before.insert_node_issue(copy) is None);
                        }
                    }
                    let _ = g.insert_node(copy);
                    proof {
                        if self.wf() {
                            assert(norder.take(i + 1) =~= norder.take(i as int).push(id@));
                            assert(g@.nodes =~= nodes.restrict(norder.take(i + 1).to_set()));
                        }
                    }
                },
                None => {},
            }
            i = i + 1;
        }
        proof {
            if self.wf() {
                assert(norder.take(norder.len() as int) =~= norder);
                assert(g@.nodes =~= nodes);
            }
        }
        let ghost edges = self@.edges;
        let ghost eorder = self@.edge_order;
        let mut k: usize = 0;
        while k < self.edge_ids.len()
            invariant
                g.wf(),
                g@.ontology == o2,
                k <= self.edge_ids@.len(),
                eorder == self@.edge_order,
                edges == self@.edges,
                self.wf() ==> {
                    &&& self@.consistent()
                    &&& g@.node_order == self@.node_order
                    &&& g@.nodes == self@.nodes
                    &&& g@.edge_order == eorder.take(k as int)
                    &&& g@.edges == edges.restrict(eorder.take(k as int).to_set())
                    &&& o2.node_types.names() == self.ontology.node_types.names()
                    &&& o2.edge_types.names() == self.ontology.edge_types.names()
                    &&& forall|ty: Seq<char>, ancestor: Seq<char>|
                        #[trigger] o2.subtype_of(ty, ancestor) == self.ontology.subtype_of(ty, ancestor)
                    &&& forall|t: Seq<char>|
                        #[trigger] o2.edge_types.lookup(t) is Some ==> {
                            &&& self.ontology.edge_types.lookup(t) is Some
                            &&& o2.edge_types.lookup(t)->0.source_types@
                                == self.ontology.edge_types.lookup(t)->0.source_types@
                            &&& o2.edge_types.lookup(t)->0.target_types@
                                == self.ontology.edge_types.lookup(t)->0.target_types@
                        }
                },
            decreases self.edge_ids@.len() - k,
        {
            let id = &self.edge_ids[k];
            match self.edges.get(id.as_str()) {
                Some(e) => {
                    let copy = e.clone();
                    let ghost before = g@;
                    proof {
                        if self.wf() {
                            assert(eorder[k as int] == id@);
                            assert(eorder.contains(id@));
                            assert(!eorder.take(k as int).contains(id@)) by {
                                if eorder.take(k as int).contains(id@) {
                                    let j = choose|j: int| 0 <= j < k && eorder.take(k as int)[j] == id@;
                                    assert(eorder[j] == eorder[k as int]);
                                }
                            }
                            let o = self.ontology;
                            let t = copy.edge_type@;
                            assert(o2.edge_types.names().contains(t));
                            o2.edge_types.lemma_lengths();
                            let p = choose|p: int| 0 <= p < o2.edge_types.names().len() && o2.edge_types.names()[p] == t;
                            o2.edge_types.lemma_entry(p);
                            assert(o2.edge_types.lookup(t) is Some);
                            let st = self@.nodes[copy.source@].node_type@;
                            let tt = self@.nodes[copy.target@].node_type@;
                            let src1 = o.edge_types.lookup(t)->0.source_types@;
                            let tgt1 = o.edge_types.lookup(t)->0.target_types@;
                            assert(permits(o, src1, st));
                            assert(permits(o, tgt1, tt));
                            assert(permits(o2, src1, st)) by {
                                if src1.len() > 0 {
                                    let j = choose|j: int| 0 <= j < src1.len() && o.subtype_of(st, #[trigger] src1[j]@);
                                    assert(o2.subtype_of(st, src1[j]@));
                                }
                            }
                            assert(permits(o2, tgt1, tt)) by {
                                if tgt1.len() > 0 {
                                    let j = choose|j: int| 0 <= j < tgt1.len() && o.subtype_of(tt, #[trigger] tgt1[j]@);
                                    assert(o2.subtype_of(tt, tgt1[j]@));
                                }
                            }
                            assert(before.insert_edge_issue(copy) is None);
                        }
                    }
                    let _ = g.insert_edge(copy);
                    proof {
                        if self.wf() {
                            assert(eorder.take(k + 1) =~= eorder.take(k as int).push(id@));
                            assert(g@.edges =~= edges.restrict(eorder.take(k + 1).to_set()));
                        }
                    }
                },
                None => {},
            }
            k = k + 1;
        }
        proof {
            if self.wf() {
                assert(eorder.take(eorder.len() as int) =~= eorder);
                assert(g@.edges =~= edges);
            }
        }
        g
    }
}

impl Graph {
    /// What a clone of a graph that is not well formed gives: an empty
    /// graph over the default ontology.
    fn placeholder() -> Graph {
        Graph {
            ontology: Ontology::default(),
            nodes: StringHashMap::new(),
            node_ids: Vec::new(),
            edges: StringHashMap::new(),
            edge_ids: Vec::new(),
            outgoing: StringHashMap::new(),
            incoming: StringHashMap::new(),
        }
    }

    /// The representation invariant: the abstract state is consistent and
    /// each adjacency index lists, for every node, the edges at that node
    /// in insertion order.
    pub closed spec fn wf(&self) -> bool {
        &&& self@.consistent()
        &&& forall|n: Seq<char>| #[trigger] index_list(self.outgoing@, n) == self@.outgoing(n)
        &&& forall|n: Seq<char>| #[trigger] index_list(self.incoming@, n) == self@.incoming(n)
    }

    /// Every graph that operations produce is consistent.
    pub proof fn lemma_consistent(&self)
        requires
            self.wf(),
        ensures
            self@.consistent(),
    {
    }

    /// Create an empty graph over the given ontology.
    ///
    /// The ontology is validated first; an invalid ontology is rejected.
    pub fn new(ontology: Ontology) -> (r: Result<Self, GraphError>)
        requires
            ontology.wf(),
        ensures
            match r {
                Ok(g) => {
                    &&& ontology.validation_issue() is None
                    &&& g.wf()
                    &&& g@.ontology == ontology
                    &&& g@.nodes.is_empty()
                    &&& g@.edges.is_empty()
                    &&& g@.node_order.len() == 0
                    &&& g@.edge_order.len() == 0
                },
                Err(e) => ontology.validation_issue() matches Some(issue) && e@ == GraphIssue::Ontology(issue),
            },
    {
        match ontology.validate() {
            Err(e) => {
                return Err(GraphError::from(e));
            },
            Ok(()) => {},
        }
        let g = Graph {
            ontology,
            nodes: StringHashMap::new(),
            node_ids: Vec::new(),
            edges: StringHashMap::new(),
            edge_ids: Vec::new(),
            outgoing: StringHashMap::new(),
            incoming: StringHashMap::new(),
        };
        assert(g@.node_order =~= Seq::<Seq<char>>::empty());
        assert(g@.edge_order =~= Seq::<Seq<char>>::empty());
        Ok(g)
    }

    /// The ontology this graph is constrained by.
    pub fn ontology(&self) -> (o: &Ontology)
        ensures
            *o == self@.ontology,
    {
        &self.ontology
    }

    /// Look up a node by id.
    pub fn node(&self, id: &str) -> (r: Option<&Node>)
        ensures
            match r {
                Some(n) => self@.nodes.contains_key(id@) && *n == self@.nodes[id@],
                None => !self@.nodes.contains_key(id@),
            },
    {
        self.nodes.get(id)
    }

    /// Look up an edge by id.
    pub fn edge(&self, id: &str) -> (r: Option<&Edge>)
        ensures
            match r {
                Some(e) => self@.edges.contains_key(id@) && *e == self@.edges[id@],
                None => !self@.edges.contains_key(id@),
            },
    {
        self.edges.get(id)
    }

    /// Number of nodes in the graph.
    pub fn node_count(&self) -> (n: usize)
        ensures
            n == self@.nodes.len(),
    {
        self.nodes.len()
    }

    /// Number of edges in the graph.
    pub fn edge_count(&self) -> (n: usize)
        ensures
            n == self@.edges.len(),
    {
        self.edges.len()
    }

    /// True if the graph contains no nodes and no edges.
    pub fn is_empty(&self) -> (b: bool)
        ensures
            b == (self@.nodes.is_empty() && self@.edges.is_empty()),
    {
        self.nodes.is_empty() && self.edges.is_empty()
    }


    /// Whether `actual` satisfies a constraint listing `allowed`.
    fn satisfies(&self, actual: &str, allowed: &Vec<String>) -> (b: bool)
        requires
            self.ontology.wf(),
        ensures
            b == permits(self.ontology, allowed@, actual@),
    {
        if allowed.len() == 0 {
            return true;
        }
        let mut i: usize = 0;
        while i < allowed.len()
            invariant
                self.ontology.wf(),
                i <= allowed@.len(),
                allowed@.len() > 0,
                forall|j: int| 0 <= j < i ==> !self.ontology.subtype_of(actual@, #[trigger] allowed@[j]@),
            decreases allowed@.len() - i,
        {
            if self.ontology.is_subtype_of(actual, allowed[i].as_str()) {
                return true;
            }
            i = i + 1;
        }
        false
    }

    /// Insert an edge.
    ///
    /// Fails if the edge type is undefined, an edge with the same id exists,
    /// the confidence is outside `0.0..=1.0`, either endpoint is missing, or
    /// the endpoints violate the edge type's domain/range constraints
    /// (satisfied by any declared type or a subtype of it).
    pub fn insert_edge(&mut self, edge: Edge) -> (r: Result<(), GraphError>)
        requires
            old(self).wf(),
        ensures
            final(self).wf(),
            match r {
                Ok(()) => old(self)@.insert_edge_issue(edge) is None && final(self)@ == old(self)@.with_edge(edge),
                Err(e) => old(self)@.insert_edge_issue(edge) == Some(e@) && final(self)@ == old(self)@,
            },
    {
        let def: &EdgeTypeDef = match self.ontology.edge_types.get(edge.edge_type.as_str()) {
            Some(d) => d,
            None => {
                return Err(GraphError::UnknownEdgeType { edge: edge.id.clone(), edge_type: edge.edge_type.clone() });
            },
        };
        if self.edges.contains_key(edge.id.as_str()) {
            return Err(GraphError::DuplicateId(edge.id));
        }
        if !is_valid_confidence(edge.confidence) {
            return Err(GraphError::InvalidConfidence { edge: edge.id.clone(), confidence: edge.confidence });
        }
        let source: &Node = match self.nodes.get(edge.source.as_str()) {
            Some(n) => n,
            None => {
                return Err(GraphError::MissingEndpoint { edge: edge.id.clone(), node: edge.source.clone() });
            },
        };
        let target: &Node = match self.nodes.get(edge.target.as_str()) {
            Some(n) => n,
            None => {
                return Err(GraphError::MissingEndpoint { edge: edge.id.clone(), node: edge.target.clone() });
            },
        };
        if !self.satisfies(source.node_type.as_str(), &def.source_types) {
            return Err(
                GraphError::DomainViolation {
                    edge: edge.id.clone(),
                    edge_type: edge.edge_type.clone(),
                    source_type: source.node_type.clone(),
                },
            );
        }
        if !self.satisfies(target.node_type.as_str(), &def.target_types) {
            return Err(
                GraphError::RangeViolation {
                    edge: edge.id.clone(),
                    edge_type: edge.edge_type.clone(),
                    target_type: target.node_type.clone(),
                },
            );
        }
        let ghost old_view = self@;
        index_push(&mut self.outgoing, edge.source.as_str(), edge.id.as_str());
        index_push(&mut self.incoming, edge.target.as_str(), edge.id.as_str());
        self.edge_ids.push(edge.id.clone());
        self.edges.insert(edge.id.clone(), edge);
        proof {
            let id = edge.id@;
            let order = old_view.edge_order;
            assert(self@.edge_order =~= order.push(id));
            assert(self@ == old_view.with_edge(edge));
            assert(!order.contains(id));
            assert(order.push(id).drop_last() =~= order);
            assert forall|n: Seq<char>| #[trigger] index_list(self.outgoing@, n) == self@.outgoing(n) by {
                lemma_edges_at_insert(order, old_view.edges, id, edge, n, true);
            }
            assert forall|n: Seq<char>| #[trigger] index_list(self.incoming@, n) == self@.incoming(n) by {
                lemma_edges_at_insert(order, old_view.edges, id, edge, n, false);
            }
            assert forall|k: Seq<char>| #[trigger] self@.edges.contains_key(k) <==> self@.edge_order.contains(k) by {
                if k == id {
                    assert(self@.edge_order[self@.edge_order.len() - 1] == k);
                } else if order.contains(k) {
                    let i = choose|i: int| 0 <= i < order.len() && order[i] == k;
                    assert(self@.edge_order[i] == k);
                } else if self@.edge_order.contains(k) {
                    let i = choose|i: int| 0 <= i < self@.edge_order.len() && self@.edge_order[i] == k;
                    assert(order[i] == k);
                }
            }
            assert(self@.edge_order.no_duplicates()) by {
                assert forall|i: int, j: int| 0 <= i < j < self@.edge_order.len() implies self@.edge_order[i]
                    != self@.edge_order[j] by {
                    if j == order.len() {
                        assert(order[i] == self@.edge_order[i]);
                    }
                }
            }
        }
        Ok(())
    }


    /// Remove an edge by id, returning it if it existed.
    pub fn remove_edge(&mut self, id: &str) -> (r: Option<Edge>)
        requires
            old(self).wf(),
        ensures
            final(self).wf(),
            match r {
                Some(e) => {
                    &&& old(self)@.edges.contains_key(id@)
                    &&& e == old(self)@.edges[id@]
                    &&& final(self)@ == old(self)@.without_edge(id@)
                },
                None => !old(self)@.edges.contains_key(id@) && final(self)@ == old(self)@,
            },
    {
        let edge: Edge = match self.edges.get(id) {
            Some(e) => e.clone(),
            None => {
                return None;
            },
        };
        let ghost old_view = self@;
        self.edges.remove(id);
        self.edge_ids = without_name(&self.edge_ids, id);
        index_remove(&mut self.outgoing, edge.source.as_str(), id);
        index_remove(&mut self.incoming, edge.target.as_str(), id);
        proof {
            let order = old_view.edge_order;
            assert(self@ == old_view.without_edge(id@));
            lemma_drop_name(order, id@);
            assert forall|n: Seq<char>| #[trigger] index_list(self.outgoing@, n) == self@.outgoing(n) by {
                lemma_edges_at_remove(order, old_view.edges, id@, n, true);
                if n != edge.source@ {
                    lemma_edges_at_members(order, old_view.edges, n, true, id@);
                    lemma_drop_name(old_view.outgoing(n), id@);
                }
            }
            assert forall|n: Seq<char>| #[trigger] index_list(self.incoming@, n) == self@.incoming(n) by {
                lemma_edges_at_remove(order, old_view.edges, id@, n, false);
                if n != edge.target@ {
                    lemma_edges_at_members(order, old_view.edges, n, false, id@);
                    lemma_drop_name(old_view.incoming(n), id@);
                }
            }
        }
        Some(edge)
    }

    /// Remove a node by id, returning it.
    ///
    /// Fails if the node does not exist or if any edges are still attached
    /// (removal does not cascade).
    pub fn remove_node(&mut self, id: &str) -> (r: Result<Node, GraphError>)
        requires
            old(self).wf(),
        ensures
            final(self).wf(),
            match r {
                Ok(n) => {
                    &&& old(self)@.remove_node_issue(id@) is None
                    &&& n == old(self)@.nodes[id@]
                    &&& final(self)@ == old(self)@.without_node(id@)
                },
                Err(e) => old(self)@.remove_node_issue(id@) == Some(e@) && final(self)@ == old(self)@,
            },
    {
        if !self.nodes.contains_key(id) {
            return Err(GraphError::UnknownNode(id.to_owned()));
        }
        assert(index_list(self.outgoing@, id@) == self@.outgoing(id@));
        assert(index_list(self.incoming@, id@) == self@.incoming(id@));
        let has_outgoing = match self.outgoing.get(id) {
            Some(e) => e.len() > 0,
            None => false,
        };
        let has_incoming = match self.incoming.get(id) {
            Some(e) => e.len() > 0,
            None => false,
        };
        assert(has_outgoing == (self@.outgoing(id@).len() > 0));
        assert(has_incoming == (self@.incoming(id@).len() > 0));
        if has_outgoing || has_incoming {
            return Err(GraphError::NodeHasEdges(id.to_owned()));
        }
        let ghost old_view = self@;
        let ghost old_out = self.outgoing@;
        let ghost old_inc = self.incoming@;
        let node: Node = match self.nodes.get(id) {
            Some(n) => n.clone(),
            None => {
                return Err(GraphError::UnknownNode(id.to_owned()));
            },
        };
        self.outgoing.remove(id);
        self.incoming.remove(id);
        self.nodes.remove(id);
        self.node_ids = without_name(&self.node_ids, id);
        proof {
            assert(self@ == old_view.without_node(id@));
            lemma_drop_name(old_view.node_order, id@);
            assert forall|n: Seq<char>| #[trigger] index_list(self.outgoing@, n) == self@.outgoing(n) by {
                if n == id@ {
                    assert(old_view.outgoing(n) =~= Seq::<Seq<char>>::empty());
                } else {
                    assert(index_list(old_out, n) == index_list(self.outgoing@, n));
                }
            }
            assert forall|n: Seq<char>| #[trigger] index_list(self.incoming@, n) == self@.incoming(n) by {
                if n == id@ {
                    assert(old_view.incoming(n) =~= Seq::<Seq<char>>::empty());
                } else {
                    assert(index_list(old_inc, n) == index_list(self.incoming@, n));
                }
            }
            assert forall|k: Seq<char>| #[trigger] self@.edges.contains_key(k) implies {
                let e = self@.edges[k];
                &&& e.source@ != id@
                &&& e.target@ != id@
            } by {
                let e = self@.edges[k];
                lemma_edges_at_members(old_view.edge_order, old_view.edges, id@, true, k);
                lemma_edges_at_members(old_view.edge_order, old_view.edges, id@, false, k);
                if e.source@ == id@ {
                    let s = old_view.outgoing(id@);
                    assert(s.contains(k));
                }
                if e.target@ == id@ {
                    let s = old_view.incoming(id@);
                    assert(s.contains(k));
                }
            }
        }
        Ok(node)
    }

    /// The edges listed by `ids`, each with the node at its far end.
    fn resolve<'a>(&'a self, ids: &Vec<String>, outgoing: bool) -> (r: Vec<(&'a Edge, &'a Node)>)
        requires
            self.wf(),
            forall|i: int| 0 <= i < ids@.len() ==> self@.edge_order.contains(#[trigger] ids@[i]@),
        ensures
            r@.len() == ids@.len(),
            forall|i: int|
                0 <= i < r@.len() ==> (*(#[trigger] r@[i]).0, *r@[i].1) == self@.resolved(name_views(ids@), outgoing)[i],
    {
        let mut r: Vec<(&'a Edge, &'a Node)> = Vec::new();
        let mut i: usize = 0;
        while i < ids.len()
            invariant
                self.wf(),
                i <= ids@.len(),
                r@.len() == i,
                forall|j: int| 0 <= j < ids@.len() ==> self@.edge_order.contains(#[trigger] ids@[j]@),
                forall|j: int|
                    0 <= j < i ==> (*(#[trigger] r@[j]).0, *r@[j].1) == self@.resolved(name_views(ids@), outgoing)[j],
            decreases ids@.len() - i,
        {
            let eid = &ids[i];
            assert(self@.edge_order.contains(eid@));
            match self.edges.get(eid.as_str()) {
                Some(edge) => {
                    let far: &String = if outgoing {
                        &edge.target
                    } else {
                        &edge.source
                    };
                    match self.nodes.get(far.as_str()) {
                        Some(node) => {
                            r.push((edge, node));
                        },
                        None => {
                            assert(false);
                        },
                    }
                },
                None => {
                    assert(false);
                },
            }
            i = i + 1;
        }
        r
    }

    /// Outgoing neighbors of a node: each outgoing edge paired with its
    /// target node. Returns an empty list for unknown ids.
    pub fn neighbors(&self, id: &str) -> (r: Vec<(&Edge, &Node)>)
        requires
            self.wf(),
        ensures
            r@.len() == self@.outgoing(id@).len(),
            forall|i: int|
                0 <= i < r@.len() ==> (*(#[trigger] r@[i]).0, *r@[i].1) == self@.resolved(self@.outgoing(id@), true)[i],
    {
        assert(index_list(self.outgoing@, id@) == self@.outgoing(id@));
        match self.outgoing.get(id) {
            Some(ids) => {
                proof {
                    assert(name_views(ids@) == self@.outgoing(id@));
                    assert forall|i: int| 0 <= i < ids@.len() implies self@.edge_order.contains(#[trigger] ids@[i]@) by {
                        assert(name_views(ids@)[i] == ids@[i]@);
                        lemma_edges_at_members(self@.edge_order, self@.edges, id@, true, ids@[i]@);
                    }
                }
                self.resolve(ids, true)
            },
            None => Vec::new(),
        }
    }

    /// Incoming neighbors of a node: each incoming edge paired with its
    /// source node. Returns an empty list for unknown ids.
    pub fn incoming(&self, id: &str) -> (r: Vec<(&Edge, &Node)>)
        requires
            self.wf(),
        ensures
            r@.len() == self@.incoming(id@).len(),
            forall|i: int|
                0 <= i < r@.len() ==> (*(#[trigger] r@[i]).0, *r@[i].1) == self@.resolved(self@.incoming(id@), false)[i],
    {
        assert(index_list(self.incoming@, id@) == self@.incoming(id@));
        match self.incoming.get(id) {
            Some(ids) => {
                proof {
                    assert(name_views(ids@) == self@.incoming(id@));
                    assert forall|i: int| 0 <= i < ids@.len() implies self@.edge_order.contains(#[trigger] ids@[i]@) by {
                        assert(name_views(ids@)[i] == ids@[i]@);
                        lemma_edges_at_members(self@.edge_order, self@.edges, id@, false, ids@[i]@);
                    }
                }
                self.resolve(ids, false)
            },
            None => Vec::new(),
        }
    }


    /// All nodes whose type is `ty` or a subtype of it, in insertion order.
    pub fn nodes_of_type(&self, ty: &str) -> (r: Vec<&Node>)
        requires
            self.wf(),
        ensures
            r@.map_values(|n: &Node| *n) == self@.nodes_typed(self@.node_order, ty@),
    {
        let mut r: Vec<&Node> = Vec::new();
        let mut i: usize = 0;
        while i < self.node_ids.len()
            invariant
                self.wf(),
                i <= self.node_ids@.len(),
                r@.map_values(|n: &Node| *n) == self@.nodes_typed(self@.node_order.take(i as int), ty@),
            decreases self.node_ids@.len() - i,
        {
            let id = &self.node_ids[i];
            let ghost order = self@.node_order;
            assert(order[i as int] == id@);
            assert(order.take(i + 1).drop_last() =~= order.take(i as int));
            assert(order.take(i + 1).last() == id@);
            assert(order.contains(id@));
            let ghost before = r@;
            match self.nodes.get(id.as_str()) {
                Some(node) => {
                    if self.ontology.is_subtype_of(node.node_type.as_str(), ty) {
                        r.push(node);
                        assert(r@.map_values(|n: &Node| *n) =~= before.map_values(|n: &Node| *n).push(*node));
                    }
                },
                None => {
                    assert(false);
                },
            }
            i = i + 1;
        }
        assert(self@.node_order.take(self.node_ids@.len() as int) =~= self@.node_order);
        r
    }

    /// All nodes, in insertion order.
    pub fn nodes(&self) -> (r: Vec<&Node>)
        requires
            self.wf(),
        ensures
            r@.map_values(|n: &Node| *n) == self@.node_order.map_values(|k: Seq<char>| self@.nodes[k]),
    {
        let mut r: Vec<&Node> = Vec::new();
        let mut i: usize = 0;
        while i < self.node_ids.len()
            invariant
                self.wf(),
                i <= self.node_ids@.len(),
                r@.map_values(|n: &Node| *n) == self@.node_order.take(i as int).map_values(|k: Seq<char>| self@.nodes[k]),
            decreases self.node_ids@.len() - i,
        {
            let id = &self.node_ids[i];
            let ghost order = self@.node_order;
            assert(order[i as int] == id@);
            assert(order.contains(id@));
            let ghost before = r@;
            match self.nodes.get(id.as_str()) {
                Some(node) => {
                    r.push(node);
                    assert(r@.map_values(|n: &Node| *n) =~= before.map_values(|n: &Node| *n).push(*node));
                    assert(order.take(i + 1).map_values(|k: Seq<char>| self@.nodes[k]) =~= order.take(
                        i as int,
                    ).map_values(|k: Seq<char>| self@.nodes[k]).push(self@.nodes[id@]));
                },
                None => {
                    assert(false);
                },
            }
            i = i + 1;
        }
        assert(self@.node_order.take(self.node_ids@.len() as int) =~= self@.node_order);
        r
    }

    /// All edges, in insertion order.
    pub fn edges(&self) -> (r: Vec<&Edge>)
        requires
            self.wf(),
        ensures
            r@.map_values(|e: &Edge| *e) == self@.edge_order.map_values(|k: Seq<char>| self@.edges[k]),
    {
        let mut r: Vec<&Edge> = Vec::new();
        let mut i: usize = 0;
        while i < self.edge_ids.len()
            invariant
                self.wf(),
                i <= self.edge_ids@.len(),
                r@.map_values(|e: &Edge| *e) == self@.edge_order.take(i as int).map_values(|k: Seq<char>| self@.edges[k]),
            decreases self.edge_ids@.len() - i,
        {
            let id = &self.edge_ids[i];
            let ghost order = self@.edge_order;
            assert(order[i as int] == id@);
            assert(order.contains(id@));
            let ghost before = r@;
            match self.edges.get(id.as_str()) {
                Some(edge) => {
                    r.push(edge);
                    assert(r@.map_values(|e: &Edge| *e) =~= before.map_values(|e: &Edge| *e).push(*edge));
                    assert(order.take(i + 1).map_values(|k: Seq<char>| self@.edges[k]) =~= order.take(
                        i as int,
                    ).map_values(|k: Seq<char>| self@.edges[k]).push(self@.edges[id@]));
                },
                None => {
                    assert(false);
                },
            }
            i = i + 1;
        }
        assert(self@.edge_order.take(self.edge_ids@.len() as int) =~= self@.edge_order);
        r
    }

    /// Insert a node.
    ///
    /// Fails if the node's type is not defined in the ontology or if a node
    /// with the same id already exists.
    pub fn insert_node(&mut self, node: Node) -> (r: Result<(), GraphError>)
        requires
            old(self).wf(),
        ensures
            final(self).wf(),
            match r {
                Ok(()) => old(self)@.insert_node_issue(node) is None && final(self)@ == old(self)@.with_node(node),
                Err(e) => old(self)@.insert_node_issue(node) == Some(e@) && final(self)@ == old(self)@,
            },
    {
        if !self.ontology.node_types.contains_key(node.node_type.as_str()) {
            return Err(GraphError::UnknownNodeType { node: node.id.clone(), node_type: node.node_type.clone() });
        }
        if self.nodes.contains_key(node.id.as_str()) {
            return Err(GraphError::DuplicateId(node.id));
        }
        let ghost old_view = self@;
        self.node_ids.push(node.id.clone());
        self.nodes.insert(node.id.clone(), node);
        proof {
            assert(self@.node_order =~= old_view.node_order.push(node.id@));
            assert(self@ == old_view.with_node(node));
            assert forall|k: Seq<char>| #[trigger] self@.nodes.contains_key(k) <==> self@.node_order.contains(k) by {
                if k == node.id@ {
                    assert(self@.node_order[self@.node_order.len() - 1] == k);
                } else if old_view.node_order.contains(k) {
                    let i = choose|i: int| 0 <= i < old_view.node_order.len() && old_view.node_order[i] == k;
                    assert(self@.node_order[i] == k);
                } else if self@.node_order.contains(k) {
                    let i = choose|i: int| 0 <= i < self@.node_order.len() && self@.node_order[i] == k;
                    assert(old_view.node_order[i] == k);
                }
            }
            assert forall|k: Seq<char>| #[trigger] self@.edges.contains_key(k) implies {
                let e = self@.edges[k];
                let o = self@.ontology;
                &&& self@.nodes.contains_key(e.source@)
                &&& self@.nodes.contains_key(e.target@)
                &&& permits(o, o.edge_types.lookup(e.edge_type@)->0.source_types@, self@.nodes[e.source@].node_type@)
                &&& permits(o, o.edge_types.lookup(e.edge_type@)->0.target_types@, self@.nodes[e.target@].node_type@)
            } by {
                let e = self@.edges[k];
                assert(old_view.edges.contains_key(k));
                assert(old_view.nodes.contains_key(e.source@));
                assert(old_view.nodes.contains_key(e.target@));
            }
        }
        Ok(())
    }
}

} // verus!
