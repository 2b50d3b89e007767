//! Properties of the library as a whole: how its operations relate to one
//! another, and what holds of every ontology and graph.

use vstd::prelude::*;

use crate::graph::{confidence_in_range, Edge, Node};
use crate::ontology::{
    cycle_from, dangling_edge_reference, dangling_parent, first_cycle, lemma_link_chain_ends, link_at, repeats_at,
    EdgeTypeDef, HasParent, Ontology,
};
use crate::store::{drop_name, GraphView};
use crate::table::NameTable;

verus! {

/// Every type is a subtype of itself.
pub proof fn law_subtype_reflexive(o: Ontology, ty: Seq<char>)
    ensures
        o.subtype_of(ty, ty),
{
}

/// Subtyping is transitive: a subtype of a subtype of `c` is a subtype of `c`.
pub proof fn law_subtype_transitive(o: Ontology, a: Seq<char>, b: Seq<char>, c: Seq<char>)
    requires
        o.subtype_of(a, b),
        o.subtype_of(b, c),
    ensures
        o.subtype_of(a, c),
{
    o.lemma_subtype_reach(a, b);
    o.lemma_subtype_reach(b, c);
    o.lemma_subtype_reach(a, c);
    let k = choose|k: nat| #[trigger] o.ancestor_at(a, k) == Some(b);
    let m = choose|m: nat| #[trigger] o.ancestor_at(b, m) == Some(c);
    o.lemma_ancestor_shift(a, b, k, m);
}

/// The two hierarchies are consulted independently: one step up from a
/// node type is its parent among node types, whatever edge type shares its
/// name; only names that are no node type step up among edge types.
pub proof fn law_hierarchies_independent(o: Ontology, ty: Seq<char>)
    ensures
        o.node_types.names().contains(ty) ==> o.ancestor_at(ty, 1) == crate::ontology::parent_in(o.node_types, ty),
        !o.node_types.names().contains(ty) ==> o.ancestor_at(ty, 1) == crate::ontology::parent_in(o.edge_types, ty),
{
    assert(o.ancestor_at(ty, 0) == Some(ty));
}

/// A name that is neither a node type nor an edge type is a subtype of
/// itself only.
pub proof fn law_unknown_type_subtypes(o: Ontology, ty: Seq<char>, ancestor: Seq<char>)
    requires
        !o.node_types.names().contains(ty),
        !o.edge_types.names().contains(ty),
    ensures
        o.subtype_of(ty, ancestor) <==> ty == ancestor,
{
    assert(o.node_types.lookup(ty) is None);
    assert(o.edge_types.lookup(ty) is None);
    assert(o.ancestor_at(ty, 0) == Some(ty));
    assert(o.ancestor_at(ty, 1) is None);
    if o.subtype_of(ty, ancestor) && ty != ancestor {
        let k = choose|k: nat| k >= 1 && #[trigger] o.ancestor_at(ty, k) == Some(ancestor) && o.chain_distinct(ty, k);
        o.lemma_chain_ends(ty, 1, k);
    }
}

/// A node that was inserted is found under its id.
pub proof fn law_node_lookup_after_insert(g: GraphView, n: Node)
    ensures
        g.with_node(n).nodes.contains_key(n.id@),
        g.with_node(n).nodes[n.id@] == n,
        forall|k: Seq<char>| k != n.id@ ==> #[trigger] g.with_node(n).nodes.contains_key(k) == g.nodes.contains_key(k),
{
}

/// An edge that was inserted is found under its id, and it comes last
/// among the outgoing edges of its source and the incoming edges of its
/// target; the edges at every other node stay as they were.
pub proof fn law_edge_lookup_after_insert(g: GraphView, e: Edge, n: Seq<char>)
    requires
        g.consistent(),
        g.insert_edge_issue(e) is None,
    ensures
        g.with_edge(e).edges.contains_key(e.id@),
        g.with_edge(e).edges[e.id@] == e,
        g.with_edge(e).outgoing(n) == if n == e.source@ {
            g.outgoing(n).push(e.id@)
        } else {
            g.outgoing(n)
        },
        g.with_edge(e).incoming(n) == if n == e.target@ {
            g.incoming(n).push(e.id@)
        } else {
            g.incoming(n)
        },
{
    let order = g.edge_order;
    assert(!order.contains(e.id@));
    assert(order.push(e.id@).drop_last() =~= order);
    crate::store::lemma_edges_at_insert(order, g.edges, e.id@, e, n, true);
    crate::store::lemma_edges_at_insert(order, g.edges, e.id@, e, n, false);
}

/// Removing an edge right after inserting it gives back the graph.
pub proof fn law_remove_edge_undoes_insert(g: GraphView, e: Edge)
    requires
        g.consistent(),
        g.insert_edge_issue(e) is None,
    ensures
        g.with_edge(e).without_edge(e.id@) == g,
{
    let order = g.edge_order;
    assert(!order.contains(e.id@));
    assert(order.push(e.id@).drop_last() =~= order);
    crate::store::lemma_drop_name(order, e.id@);
    assert(drop_name(order.push(e.id@), e.id@) == drop_name(order, e.id@));
    assert(g.edges.insert(e.id@, e).remove(e.id@) =~= g.edges);
}

/// Removing a node right after inserting it gives back the graph.
pub proof fn law_remove_node_undoes_insert(g: GraphView, n: Node)
    requires
        g.consistent(),
        g.insert_node_issue(n) is None,
    ensures
        g.with_node(n).remove_node_issue(n.id@) is None,
        g.with_node(n).without_node(n.id@) == g,
{
    let order = g.node_order;
    assert(!order.contains(n.id@));
    assert(order.push(n.id@).drop_last() =~= order);
    crate::store::lemma_drop_name(order, n.id@);
    assert(drop_name(order.push(n.id@), n.id@) == drop_name(order, n.id@));
    assert(g.nodes.insert(n.id@, n).remove(n.id@) =~= g.nodes);
    assert(g.outgoing(n.id@).len() == 0) by {
        if g.outgoing(n.id@).len() > 0 {
            let x = g.outgoing(n.id@)[0];
            assert(g.outgoing(n.id@).contains(x));
            crate::store::lemma_edges_at_members(g.edge_order, g.edges, n.id@, true, x);
            assert(g.edges.contains_key(x));
        }
    }
    assert(g.incoming(n.id@).len() == 0) by {
        if g.incoming(n.id@).len() > 0 {
            let x = g.incoming(n.id@)[0];
            assert(g.incoming(n.id@).contains(x));
            crate::store::lemma_edges_at_members(g.edge_order, g.edges, n.id@, false, x);
            assert(g.edges.contains_key(x));
        }
    }
}

/// Each pair that `neighbors(n)` gives is an edge leaving `n` with the
/// node it enters; each pair that `incoming(n)` gives is an edge entering
/// `n` with the node it leaves.
pub proof fn law_neighbor_pairs(g: GraphView, n: Seq<char>, i: int)
    requires
        g.consistent(),
    ensures
        0 <= i < g.outgoing(n).len() ==> {
            let (e, m) = g.resolved(g.outgoing(n), true)[i];
            &&& e.source@ == n
            &&& m.id@ == e.target@
            &&& g.edges.contains_key(e.id@)
        },
        0 <= i < g.incoming(n).len() ==> {
            let (e, m) = g.resolved(g.incoming(n), false)[i];
            &&& e.target@ == n
            &&& m.id@ == e.source@
            &&& g.edges.contains_key(e.id@)
        },
{
    if 0 <= i < g.outgoing(n).len() {
        let x = g.outgoing(n)[i];
        assert(g.outgoing(n).contains(x));
        crate::store::lemma_edges_at_members(g.edge_order, g.edges, n, true, x);
        assert(g.edges.contains_key(x));
        assert(g.nodes.contains_key(g.edges[x].target@));
    }
    if 0 <= i < g.incoming(n).len() {
        let x = g.incoming(n)[i];
        assert(g.incoming(n).contains(x));
        crate::store::lemma_edges_at_members(g.edge_order, g.edges, n, false, x);
        assert(g.edges.contains_key(x));
        assert(g.nodes.contains_key(g.edges[x].source@));
    }
}

/// A name that is not a node of the graph has no edges, outgoing or
/// incoming, so `neighbors` and `incoming` give it empty lists.
pub proof fn law_unknown_node_has_no_edges(g: GraphView, n: Seq<char>)
    requires
        g.consistent(),
        !g.nodes.contains_key(n),
    ensures
        g.outgoing(n).len() == 0,
        g.incoming(n).len() == 0,
{
    if g.outgoing(n).len() > 0 {
        let x = g.outgoing(n)[0];
        assert(g.outgoing(n).contains(x));
        crate::store::lemma_edges_at_members(g.edge_order, g.edges, n, true, x);
        assert(g.edges.contains_key(x));
    }
    if g.incoming(n).len() > 0 {
        let x = g.incoming(n)[0];
        assert(g.incoming(n).contains(x));
        crate::store::lemma_edges_at_members(g.edge_order, g.edges, n, false, x);
        assert(g.edges.contains_key(x));
    }
}

/// A node is accepted exactly when its type is a declared node type and no
/// node has its id yet; edges, whatever their ids, play no part.
pub proof fn law_insert_node_admitted(g: GraphView, n: Node)
    ensures
        g.insert_node_issue(n) is None <==> (g.ontology.node_types.names().contains(n.node_type@)
            && !g.nodes.contains_key(n.id@)),
{
}

/// An edge is accepted exactly when its type is a declared edge type, no
/// edge has its id yet, its confidence lies in `0.0..=1.0`, both endpoints
/// are nodes, and each end with a non-empty list of permitted types has a
/// type that is a subtype of at least one of them: one match suffices.
pub proof fn law_insert_edge_admitted(g: GraphView, e: Edge)
    ensures
        g.insert_edge_issue(e) is None <==> {
            let o = g.ontology;
            let d = o.edge_types.lookup(e.edge_type@)->0;
            let st = g.nodes[e.source@].node_type@;
            let tt = g.nodes[e.target@].node_type@;
            &&& o.edge_types.names().contains(e.edge_type@)
            &&& !g.edges.contains_key(e.id@)
            &&& confidence_in_range(e.confidence)
            &&& g.nodes.contains_key(e.source@)
            &&& g.nodes.contains_key(e.target@)
            &&& (d.source_types@.len() == 0 || exists|i: int|
                0 <= i < d.source_types@.len() && o.subtype_of(st, #[trigger] d.source_types@[i]@))
            &&& (d.target_types@.len() == 0 || exists|i: int|
                0 <= i < d.target_types@.len() && o.subtype_of(tt, #[trigger] d.target_types@[i]@))
        },
{
}

proof fn lemma_no_dangling_parent<D: HasParent>(t: NameTable<D>, k: int, i: int)
    requires
        dangling_parent(t, k) is None,
        0 <= k <= i < t.spec_len(),
    ensures
        t.values()[i].parent_name() matches Some(p) ==> t.names().contains(p),
    decreases i - k,
{
    if k < i {
        lemma_no_dangling_parent(t, k + 1, i);
    }
}

proof fn lemma_no_dangling_edge_reference(t: NameTable<EdgeTypeDef>, k: int, i: int)
    requires
        dangling_edge_reference(t, k) is None,
        0 <= k <= i < t.spec_len(),
    ensures
        t.values()[i].parent_name() matches Some(p) ==> t.names().contains(p),
        t.values()[i].inverse_name() matches Some(v) ==> t.names().contains(v),
    decreases i - k,
{
    if k < i {
        lemma_no_dangling_edge_reference(t, k + 1, i);
    }
}

/// In an ontology that validates, every parent a node type names is a node
/// type, and every parent and every inverse an edge type names is an edge
/// type; the inverse is checked whether or not the edge type has a parent.
pub proof fn law_valid_ontology_references(o: Ontology, name: Seq<char>)
    requires
        o.validation_issue() is None,
    ensures
        o.node_types.lookup(name) matches Some(d) ==> (d.parent_name() matches Some(p) ==> o.node_types.names().contains(
            p,
        )),
        o.edge_types.lookup(name) matches Some(d) ==> (d.parent_name() matches Some(p) ==> o.edge_types.names().contains(
            p,
        )),
        o.edge_types.lookup(name) matches Some(d) ==> (d.inverse_name() matches Some(v) ==> o.edge_types.names().contains(
            v,
        )),
{
    if o.node_types.names().contains(name) {
        let i = o.node_types.position(name);
        o.node_types.lemma_lengths();
        lemma_no_dangling_parent(o.node_types, 0, i);
    }
    if o.edge_types.names().contains(name) {
        let i = o.edge_types.position(name);
        o.edge_types.lemma_lengths();
        lemma_no_dangling_edge_reference(o.edge_types, 0, i);
    }
}

/// A walk up the parent links that meets a name twice has a first repeat.
proof fn lemma_some_repeat<D: HasParent>(t: NameTable<D>, s: Seq<char>, i: nat, j: nat) -> (m: nat)
    requires
        i < j,
        link_at(t, s, j) is Some,
        link_at(t, s, i) == link_at(t, s, j),
    ensures
        m <= j,
        repeats_at(t, s, m),
    decreases j,
{
    if exists|a: nat, b: nat| a < b < j && #[trigger] link_at(t, s, a) == #[trigger] link_at(t, s, b) {
        let (a, b) = choose|a: nat, b: nat| a < b < j && #[trigger] link_at(t, s, a) == #[trigger] link_at(t, s, b);
        if link_at(t, s, b) is None {
            lemma_link_chain_ends(t, s, b, j);
        }
        lemma_some_repeat(t, s, a, b)
    } else {
        if link_at(t, s, i + 1) is None {
            lemma_link_chain_ends(t, s, i + 1, j);
        }
        assert(((i + 1) - 1) as nat == i);
        assert(link_at(t, s, i + 1) == parent_in_of(t, link_at(t, s, i)->0));
        j
    }
}

spec fn parent_in_of<D: HasParent>(t: NameTable<D>, c: Seq<char>) -> Option<Seq<char>> {
    crate::ontology::parent_in(t, c)
}

proof fn lemma_no_cycle_from<D: HasParent>(t: NameTable<D>, k: int, i: int)
    requires
        first_cycle(t, k) is None,
        0 <= k <= i < t.spec_len(),
    ensures
        cycle_from(t, t.names()[i]) is None,
    decreases i - k,
{
    if k < i {
        lemma_no_cycle_from(t, k + 1, i);
    }
}

proof fn lemma_table_acyclic<D: HasParent>(t: NameTable<D>, s: Seq<char>, i: nat, j: nat)
    requires
        first_cycle(t, 0) is None,
        i < j,
        link_at(t, s, j) is Some,
    ensures
        link_at(t, s, i) != link_at(t, s, j),
{
    if link_at(t, s, i) == link_at(t, s, j) {
        if t.names().contains(s) {
            let k = t.position(s);
            lemma_no_cycle_from(t, 0, k);
            let m = lemma_some_repeat(t, s, i, j);
            assert(exists|m: nat| #[trigger] repeats_at(t, s, m));
        } else {
            assert(t.lookup(s) is None);
            assert(link_at(t, s, 0) == Some(s));
            assert(link_at(t, s, 1) is None);
            lemma_link_chain_ends(t, s, 1, j);
        }
    }
}

/// In an ontology that validates, no walk up the parent links of node types,
/// nor of edge types, from any name meets a name twice: no type lies on or
/// leads into a parent cycle.
pub proof fn law_valid_ontology_acyclic(o: Ontology, s: Seq<char>, i: nat, j: nat)
    requires
        o.validation_issue() is None,
        i < j,
    ensures
        link_at(o.node_types, s, j) is Some ==> link_at(o.node_types, s, i) != link_at(o.node_types, s, j),
        link_at(o.edge_types, s, j) is Some ==> link_at(o.edge_types, s, i) != link_at(o.edge_types, s, j),
{
    if link_at(o.node_types, s, j) is Some {
        lemma_table_acyclic(o.node_types, s, i, j);
    }
    if link_at(o.edge_types, s, j) is Some {
        lemma_table_acyclic(o.edge_types, s, i, j);
    }
}

proof fn lemma_nodes_typed(g: GraphView, order: Seq<Seq<char>>, ty: Seq<char>)
    ensures
        forall|x: Node|
            #[trigger] g.nodes_typed(order, ty).contains(x) ==> exists|k: Seq<char>|
                order.contains(k) && x == #[trigger] g.nodes[k] && g.ontology.subtype_of(x.node_type@, ty),
        forall|k: Seq<char>|
            order.contains(k) && g.ontology.subtype_of((#[trigger] g.nodes[k]).node_type@, ty) ==> g.nodes_typed(
                order,
                ty,
            ).contains(g.nodes[k]),
    decreases order.len(),
{
    if order.len() > 0 {
        let dl = order.drop_last();
        lemma_nodes_typed(g, dl, ty);
        let rest = g.nodes_typed(dl, ty);
        let last = order.last();
        assert(order =~= dl.push(last));
        assert forall|k: Seq<char>| #[trigger] order.contains(k) implies dl.contains(k) || k == last by {
            let i = choose|i: int| 0 <= i < order.len() && order[i] == k;
            if i < dl.len() {
                assert(dl[i] == k);
            }
        }
        assert forall|k: Seq<char>| #[trigger] dl.contains(k) implies order.contains(k) by {
            let i = choose|i: int| 0 <= i < dl.len() && dl[i] == k;
            assert(order[i] == k);
        }
        assert(order[order.len() - 1] == last);
        let n = g.nodes[last];
        if g.ontology.subtype_of(n.node_type@, ty) {
            let r = rest.push(n);
            assert forall|x: Node| #[trigger] r.contains(x) implies rest.contains(x) || x == n by {
                let i = choose|i: int| 0 <= i < r.len() && r[i] == x;
                if i < rest.len() {
                    assert(rest[i] == x);
                }
            }
            assert forall|x: Node| #[trigger] rest.contains(x) implies r.contains(x) by {
                let i = choose|i: int| 0 <= i < rest.len() && rest[i] == x;
                assert(r[i] == x);
            }
            assert(r[rest.len() as int] == n);
        }
    }
}

/// `nodes_of_type(ty)` lists exactly the nodes whose type is a subtype of
/// `ty`, at any depth of the hierarchy.
pub proof fn law_nodes_of_type_members(g: GraphView, ty: Seq<char>)
    ensures
        forall|x: Node|
            #[trigger] g.nodes_typed(g.node_order, ty).contains(x) ==> exists|k: Seq<char>|
                g.node_order.contains(k) && x == #[trigger] g.nodes[k] && g.ontology.subtype_of(x.node_type@, ty),
        forall|k: Seq<char>|
            g.node_order.contains(k) && g.ontology.subtype_of((#[trigger] g.nodes[k]).node_type@, ty)
                ==> g.nodes_typed(g.node_order, ty).contains(g.nodes[k]),
{
    lemma_nodes_typed(g, g.node_order, ty);
}

/// In a consistent graph, the outgoing (incoming) edges of `n` are exactly
/// the edges whose source (target) is `n`, each listed once.
pub proof fn law_adjacency_members(g: GraphView, n: Seq<char>, k: Seq<char>)
    requires
        g.consistent(),
    ensures
        g.outgoing(n).contains(k) <==> (g.edges.contains_key(k) && g.edges[k].source@ == n),
        g.incoming(n).contains(k) <==> (g.edges.contains_key(k) && g.edges[k].target@ == n),
{
    crate::store::lemma_edges_at_members(g.edge_order, g.edges, n, true, k);
    crate::store::lemma_edges_at_members(g.edge_order, g.edges, n, false, k);
}

/// In a consistent graph a node can be removed exactly when it exists and
/// no edge starts or ends at it; a missing node is refused as unknown.
pub proof fn law_remove_node_admitted(g: GraphView, id: Seq<char>)
    requires
        g.consistent(),
    ensures
        g.remove_node_issue(id) is None <==> (g.nodes.contains_key(id) && forall|k: Seq<char>|
            #[trigger] g.edges.contains_key(k) ==> g.edges[k].source@ != id && g.edges[k].target@ != id),
        !g.nodes.contains_key(id) ==> g.remove_node_issue(id) == Some(crate::error::GraphIssue::UnknownNode(id)),
{
    if g.outgoing(id).len() > 0 {
        let k = g.outgoing(id)[0];
        assert(g.outgoing(id).contains(k));
        law_adjacency_members(g, id, k);
    }
    if g.incoming(id).len() > 0 {
        let k = g.incoming(id)[0];
        assert(g.incoming(id).contains(k));
        law_adjacency_members(g, id, k);
    }
    assert forall|k: Seq<char>| #[trigger] g.edges.contains_key(k) && (g.edges[k].source@ == id || g.edges[k].target@ == id)
        implies g.outgoing(id).len() > 0 || g.incoming(id).len() > 0 by {
        law_adjacency_members(g, id, k);
    }
}

} // verus!
