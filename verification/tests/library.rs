//! Tests of the library's own guarantees on concrete values.

use omnigraph::{
    compare_names, is_valid_confidence, names_equal, Edge, EdgeTypeDef, Graph, GraphError, NameOrder,
    NameTable, Node, NodeTypeDef, Ontology, OntologyError, PropertyDef, Provenance, CONFIDENCE_ONE,
    NEGATIVE_ZERO,
};

fn workplace() -> Ontology {
    Ontology::new("workplace")
        .with_node_type("entity", NodeTypeDef::new("Entity", "Root"))
        .with_node_type("person", NodeTypeDef::new("Person", "A human").with_parent("entity"))
        .with_node_type("org", NodeTypeDef::new("Org", "An organization").with_parent("entity"))
        .with_node_type("employee", NodeTypeDef::new("Employee", "").with_parent("person"))
        .with_edge_type(
            "works_at",
            EdgeTypeDef::new("works at", "").with_source("person").with_target("org"),
        )
        .with_edge_type("knows", EdgeTypeDef::new("knows", "").with_source("person").with_target("person"))
        .with_edge_type("related_to", EdgeTypeDef::new("related to", "").with_inverse("related_to"))
}

fn staffed() -> Graph {
    let mut g = Graph::new(workplace()).unwrap();
    g.insert_node(Node::new("ada", "person", "Ada")).unwrap();
    g.insert_node(Node::new("bob", "employee", "Bob")).unwrap();
    g.insert_node(Node::new("acme", "org", "Acme")).unwrap();
    g
}

#[test]
fn names_compare_as_utf8_bytes() {
    assert_eq!(compare_names("a", "b"), NameOrder::Less);
    assert_eq!(compare_names("b", "a"), NameOrder::Greater);
    assert_eq!(compare_names("same", "same"), NameOrder::Equal);
    assert_eq!(compare_names("ab", "a"), NameOrder::Greater);
    assert_eq!(compare_names("", "a"), NameOrder::Less);
    assert_eq!(compare_names("B", "a"), NameOrder::Less);
    assert_eq!(compare_names("é", "z"), NameOrder::Greater);
    for (x, y) in [("a", "b"), ("ab", "a"), ("Z", "z"), ("é", "e"), ("", ""), ("x1", "x10")] {
        let expected = match x.cmp(y) {
            std::cmp::Ordering::Less => NameOrder::Less,
            std::cmp::Ordering::Equal => NameOrder::Equal,
            std::cmp::Ordering::Greater => NameOrder::Greater,
        };
        assert_eq!(compare_names(x, y), expected);
    }
    assert!(names_equal("person", "person"));
    assert!(!names_equal("person", "persons"));
}

#[test]
fn confidence_range_matches_floating_point() {
    let samples = [
        0.0f64, -0.0, 1.0, 0.5, 0.95, 1e-300, f64::MIN_POSITIVE, 5e-324, 1.0000000000000002,
        1.5, -0.1, -5e-324, f64::INFINITY, f64::NEG_INFINITY, f64::NAN, -f64::NAN, 2.0, -1.0,
    ];
    for x in samples {
        assert_eq!(is_valid_confidence(x.to_bits()), (0.0..=1.0).contains(&x), "{x}");
    }
    assert_eq!(CONFIDENCE_ONE, 1.0f64.to_bits());
    assert_eq!(NEGATIVE_ZERO, (-0.0f64).to_bits());
}

#[test]
fn name_table_keeps_names_in_order() {
    let mut t: NameTable<u32> = NameTable::new();
    assert!(t.is_empty());
    t.insert("delta".to_string(), 4);
    t.insert("alpha".to_string(), 1);
    t.insert("charlie".to_string(), 3);
    t.insert("bravo".to_string(), 2);
    t.insert("alpha".to_string(), 10);
    assert_eq!(t.len(), 4);
    let names: Vec<&str> = (0..t.len()).map(|i| t.entry(i).0.as_str()).collect();
    assert_eq!(names, vec!["alpha", "bravo", "charlie", "delta"]);
    assert_eq!(t.get("alpha"), Some(&10));
    assert_eq!(t.get("charlie"), Some(&3));
    assert_eq!(t.get("echo"), None);
    assert!(t.contains_key("bravo"));
    assert!(!t.contains_key("brav"));
}

#[test]
fn subtype_queries() {
    let o = workplace();
    assert!(o.is_subtype_of("employee", "entity"));
    assert!(o.is_subtype_of("employee", "person"));
    assert!(o.is_subtype_of("person", "entity"));
    assert!(!o.is_subtype_of("entity", "person"));
    assert!(!o.is_subtype_of("org", "person"));
    // reflexive, also for names the ontology does not know
    assert!(o.is_subtype_of("org", "org"));
    assert!(o.is_subtype_of("spaceship", "spaceship"));
    // unknown names are subtypes of themselves only
    assert!(!o.is_subtype_of("spaceship", "entity"));
}

#[test]
fn subtype_queries_on_edge_types_and_cycles() {
    let o = Ontology::new("edges")
        .with_edge_type("related_to", EdgeTypeDef::new("related", ""))
        .with_edge_type("knows", EdgeTypeDef::new("knows", "").with_parent("related_to"))
        .with_edge_type("loop_a", EdgeTypeDef::new("a", "").with_parent("loop_b"))
        .with_edge_type("loop_b", EdgeTypeDef::new("b", "").with_parent("loop_a"));
    assert!(o.is_subtype_of("knows", "related_to"));
    assert!(!o.is_subtype_of("related_to", "knows"));
    // an unvalidated cyclic hierarchy still answers
    assert!(o.is_subtype_of("loop_a", "loop_b"));
    assert!(!o.is_subtype_of("loop_a", "knows"));
    // a name that is a node type is looked up among node types only
    let mixed = o.with_node_type("knows", NodeTypeDef::new("Knows", ""));
    assert!(!mixed.is_subtype_of("knows", "related_to"));
    let mixed = Ontology::new("x")
        .with_node_type("t", NodeTypeDef::new("T", ""))
        .with_edge_type("t", EdgeTypeDef::new("T", "").with_parent("u"))
        .with_edge_type("u", EdgeTypeDef::new("U", ""));
    assert!(!mixed.is_subtype_of("t", "u"));
    let edges_only = Ontology::new("x")
        .with_edge_type("t", EdgeTypeDef::new("T", "").with_parent("u"))
        .with_edge_type("u", EdgeTypeDef::new("U", ""));
    assert!(edges_only.is_subtype_of("t", "u"));
}

#[test]
fn validation_reports_first_problem_in_name_order() {
    let o = Ontology::new("bad")
        .with_node_type("b", NodeTypeDef::new("B", "").with_parent("zz"))
        .with_node_type("a", NodeTypeDef::new("A", "").with_parent("yy"))
        .with_edge_type("e", EdgeTypeDef::new("E", "").with_parent("nope"));
    assert_eq!(
        o.validate().unwrap_err(),
        OntologyError::UnknownParent { child: "a".into(), parent: "yy".into() }
    );
    // edge parent is checked before edge inverse
    let o = Ontology::new("bad")
        .with_edge_type("e", EdgeTypeDef::new("E", "").with_parent("p").with_inverse("i"));
    assert_eq!(
        o.validate().unwrap_err(),
        OntologyError::UnknownParent { child: "e".into(), parent: "p".into() }
    );
    // an edge type's parent must be an edge type, not a node type
    let o = Ontology::new("bad")
        .with_node_type("thing", NodeTypeDef::new("Thing", ""))
        .with_edge_type("e", EdgeTypeDef::new("E", "").with_parent("thing"));
    assert!(matches!(o.validate(), Err(OntologyError::UnknownParent { .. })));
    assert!(workplace().validate().is_ok());
}

#[test]
fn validation_names_where_a_cycle_closes() {
    let o = Ontology::new("cyclic")
        .with_node_type("a", NodeTypeDef::new("A", "").with_parent("b"))
        .with_node_type("b", NodeTypeDef::new("B", "").with_parent("a"));
    assert_eq!(o.validate().unwrap_err(), OntologyError::ParentCycle("a".into()));
    // from "a" the walk a -> b -> c -> b first meets "b" again
    let o = Ontology::new("lasso")
        .with_node_type("a", NodeTypeDef::new("A", "").with_parent("b"))
        .with_node_type("b", NodeTypeDef::new("B", "").with_parent("c"))
        .with_node_type("c", NodeTypeDef::new("C", "").with_parent("b"));
    assert_eq!(o.validate().unwrap_err(), OntologyError::ParentCycle("b".into()));
    // a self-parent is a cycle
    let o = Ontology::new("self").with_edge_type("x", EdgeTypeDef::new("X", "").with_parent("x"));
    assert_eq!(o.validate().unwrap_err(), OntologyError::ParentCycle("x".into()));
    match Graph::new(o) {
        Err(err) => assert_eq!(err, GraphError::Ontology(OntologyError::ParentCycle("x".into()))),
        Ok(_) => panic!("a cyclic ontology was accepted"),
    }
}

#[test]
fn graph_starts_empty() {
    let g = Graph::new(workplace()).unwrap();
    assert!(g.is_empty());
    assert_eq!(g.node_count(), 0);
    assert_eq!(g.edge_count(), 0);
    assert!(g.nodes().is_empty());
    assert!(g.edges().is_empty());
    assert_eq!(g.ontology().meta.label, "workplace");
    assert_eq!(g.ontology().meta.version, 1);
}

#[test]
fn inserted_node_is_found_and_refusals_change_nothing() {
    let mut g = staffed();
    let node = Node::new("carol", "person", "Carol").with_description("CTO").with_external_id("x-1");
    g.insert_node(node.clone()).unwrap();
    assert_eq!(g.node("carol"), Some(&node));
    assert_eq!(g.node_count(), 4);
    let err = g.insert_node(Node::new("carol", "org", "Other")).unwrap_err();
    assert_eq!(err, GraphError::DuplicateId("carol".into()));
    let err = g.insert_node(Node::new("dan", "robot", "Dan")).unwrap_err();
    assert_eq!(err, GraphError::UnknownNodeType { node: "dan".into(), node_type: "robot".into() });
    assert_eq!(g.node_count(), 4);
    assert_eq!(g.node("carol").unwrap().name, "Carol");
    assert!(g.node("dan").is_none());
}

#[test]
fn edge_errors_carry_their_details() {
    let mut g = staffed();
    assert_eq!(
        g.insert_edge(Edge::new("e1", "ada", "acme", "pilots")).unwrap_err(),
        GraphError::UnknownEdgeType { edge: "e1".into(), edge_type: "pilots".into() }
    );
    let bits = 1.5f64.to_bits();
    assert_eq!(
        g.insert_edge(Edge::new("e1", "ada", "acme", "works_at").with_confidence(bits)).unwrap_err(),
        GraphError::InvalidConfidence { edge: "e1".into(), confidence: bits }
    );
    assert_eq!(
        g.insert_edge(Edge::new("e1", "acme", "ada", "works_at")).unwrap_err(),
        GraphError::DomainViolation { edge: "e1".into(), edge_type: "works_at".into(), source_type: "org".into() }
    );
    assert_eq!(
        g.insert_edge(Edge::new("e1", "bob", "ada", "works_at")).unwrap_err(),
        GraphError::RangeViolation { edge: "e1".into(), edge_type: "works_at".into(), target_type: "person".into() }
    );
    assert_eq!(
        g.insert_edge(Edge::new("e1", "nobody", "ghost", "works_at")).unwrap_err(),
        GraphError::MissingEndpoint { edge: "e1".into(), node: "nobody".into() }
    );
    // the confidence is checked before the endpoints
    assert!(matches!(
        g.insert_edge(Edge::new("e1", "nobody", "acme", "works_at").with_confidence(f64::NAN.to_bits())),
        Err(GraphError::InvalidConfidence { .. })
    ));
    assert_eq!(g.edge_count(), 0);
    // a subtype of the domain's type is accepted, and -0.0 is a valid confidence
    g.insert_edge(Edge::new("e1", "bob", "acme", "works_at").with_confidence((-0.0f64).to_bits())).unwrap();
    assert_eq!(g.edge_count(), 1);
    // edge ids and node ids live apart: an edge may share a node's id
    g.insert_edge(Edge::new("ada", "ada", "acme", "works_at")).unwrap();
    assert_eq!(g.edge_count(), 2);
}

#[test]
fn adjacency_lists_keep_insertion_order() {
    let mut g = staffed();
    g.insert_edge(Edge::new("e2", "ada", "acme", "works_at")).unwrap();
    g.insert_edge(Edge::new("e1", "ada", "bob", "knows")).unwrap();
    g.insert_edge(Edge::new("e3", "ada", "ada", "related_to")).unwrap();
    let out: Vec<(&str, &str)> = g.neighbors("ada").iter().map(|(e, n)| (e.id.as_str(), n.id.as_str())).collect();
    assert_eq!(out, vec![("e2", "acme"), ("e1", "bob"), ("e3", "ada")]);
    let inc: Vec<(&str, &str)> = g.incoming("ada").iter().map(|(e, n)| (e.id.as_str(), n.id.as_str())).collect();
    assert_eq!(inc, vec![("e3", "ada")]);
    assert!(g.neighbors("nobody").is_empty());
    assert!(g.incoming("nobody").is_empty());
    // removing the middle edge keeps the others in order
    let removed = g.remove_edge("e1").unwrap();
    assert_eq!(removed.target, "bob");
    let out: Vec<&str> = g.neighbors("ada").iter().map(|(e, _)| e.id.as_str()).collect();
    assert_eq!(out, vec!["e2", "e3"]);
    assert!(g.incoming("bob").is_empty());
    assert!(g.remove_edge("e1").is_none());
}

#[test]
fn remove_edge_undoes_insert_edge() {
    let mut g = staffed();
    g.insert_edge(Edge::new("e1", "ada", "acme", "works_at")).unwrap();
    let edge = Edge::new("e2", "bob", "acme", "works_at")
        .with_confidence(0.25f64.to_bits())
        .with_provenance(Provenance::new("notes", "ivan"))
        .with_created_at("today");
    g.insert_edge(edge.clone()).unwrap();
    assert_eq!(g.edge("e2"), Some(&edge));
    assert_eq!(g.remove_edge("e2"), Some(edge));
    assert_eq!(g.edge_count(), 1);
    assert_eq!(g.incoming("acme").len(), 1);
    assert!(g.neighbors("bob").is_empty());
}

#[test]
fn remove_node_undoes_insert_node() {
    let mut g = staffed();
    let node = Node::new("eve", "org", "Eve Inc").with_timestamps("t0", "t1");
    g.insert_node(node.clone()).unwrap();
    assert_eq!(g.remove_node("eve"), Ok(node));
    assert_eq!(g.node_count(), 3);
    let ids: Vec<&str> = g.nodes().iter().map(|n| n.id.as_str()).collect();
    assert_eq!(ids, vec!["ada", "bob", "acme"]);
    // a node with only incoming edges cannot go either
    g.insert_edge(Edge::new("e1", "ada", "acme", "works_at")).unwrap();
    assert_eq!(g.remove_node("acme"), Err(GraphError::NodeHasEdges("acme".into())));
    assert_eq!(g.remove_node("zed"), Err(GraphError::UnknownNode("zed".into())));
}

#[test]
fn node_and_edge_listings() {
    let mut g = staffed();
    g.insert_edge(Edge::new("e1", "ada", "acme", "works_at")).unwrap();
    g.insert_edge(Edge::new("e0", "bob", "acme", "works_at")).unwrap();
    let ids: Vec<&str> = g.edges().iter().map(|e| e.id.as_str()).collect();
    assert_eq!(ids, vec!["e1", "e0"]);
    let people: Vec<&str> = g.nodes_of_type("person").iter().map(|n| n.id.as_str()).collect();
    assert_eq!(people, vec!["ada", "bob"]);
    let entities: Vec<&str> = g.nodes_of_type("entity").iter().map(|n| n.id.as_str()).collect();
    assert_eq!(entities, vec!["ada", "bob", "acme"]);
    assert_eq!(g.nodes_of_type("employee").len(), 1);
}

#[test]
fn builders_set_their_fields() {
    let n = Node::new("n", "person", "N");
    assert_eq!(n.metadata, serde_json::Value::Null);
    assert_eq!(n.description, "");
    assert_eq!(n.external_id, None);
    let n = n.with_metadata(serde_json::from_str("{\"k\": 1}").unwrap());
    assert_eq!(n.metadata["k"], 1);
    assert_eq!(n.clone(), n);

    let e = Edge::new("e", "a", "b", "t");
    assert_eq!(e.confidence, 1.0f64.to_bits());
    assert_eq!(e.properties, serde_json::Value::Null);
    assert_eq!(e.annotations, serde_json::Value::Null);
    assert_eq!(e.provenance, Provenance::default());
    let e = e
        .with_properties(serde_json::from_str("{\"role\": \"x\"}").unwrap())
        .with_annotations(serde_json::from_str("[1]").unwrap());
    assert_eq!(e.properties["role"], "x");
    assert_eq!(e.annotations[0], 1);
    assert_eq!(e.clone(), e);

    let p = Provenance::new("src", "me").with_location("p. 3");
    assert_eq!(p.location.as_deref(), Some("p. 3"));
    assert_eq!(p.clone(), p);

    let d = EdgeTypeDef::new("l", "d")
        .with_parent("p")
        .with_inverse("i")
        .with_source("s1")
        .with_source("s2")
        .with_target("t")
        .with_property("weight", PropertyDef { prop_type: "number".into(), ..PropertyDef::default() });
    assert_eq!(d.source_types, vec!["s1".to_string(), "s2".to_string()]);
    assert_eq!(d.target_types, vec!["t".to_string()]);
    assert_eq!(d.properties.get("weight").unwrap().prop_type, "number");
    assert_eq!(d.inverse.as_deref(), Some("i"));
    let nd = NodeTypeDef::new("L", "D").with_property("age", PropertyDef::default());
    assert!(nd.properties.contains_key("age"));

    let o = Ontology::new("x")
        .with_node_type("t", NodeTypeDef::new("T1", ""))
        .with_node_type("t", NodeTypeDef::new("T2", ""));
    assert_eq!(o.node_types.len(), 1);
    assert_eq!(o.node_types.get("t").unwrap().label, "T2");
}

#[test]
fn defaults_and_error_conversion() {
    let o = Ontology::default();
    assert_eq!(o.meta.version, 0);
    assert!(o.node_types.is_empty() && o.edge_types.is_empty());
    assert!(o.validate().is_ok());
    let d = EdgeTypeDef::default();
    assert!(d.source_types.is_empty() && d.parent.is_none());
    assert!(NodeTypeDef::default().properties.is_empty());
    assert_eq!(
        GraphError::from(OntologyError::ParentCycle("a".into())),
        GraphError::Ontology(OntologyError::ParentCycle("a".into()))
    );
}

#[test]
fn subtyping_is_transitive_on_a_chain() {
    let o = workplace();
    // employee -> person -> entity
    assert!(o.is_subtype_of("employee", "person") && o.is_subtype_of("person", "entity"));
    assert!(o.is_subtype_of("employee", "entity"));
    let mut g = staffed();
    // a node of a subtype is listed under every ancestor type
    assert_eq!(g.nodes_of_type("employee").len(), 1);
    g.insert_node(Node::new("zed", "employee", "Zed")).unwrap();
    assert_eq!(g.nodes_of_type("entity").len(), 4);
}

#[test]
fn clones_copy_tables_ontologies_and_graphs() {
    let mut t: NameTable<u32> = NameTable::new();
    t.insert("b".to_string(), 2);
    t.insert("a".to_string(), 1);
    let u = t.clone();
    assert_eq!(u, t);
    assert_eq!(u.entry(0).0, "a");

    let o = workplace().with_node_type(
        "tool",
        NodeTypeDef::new("Tool", "").with_property("weight", PropertyDef { required: true, ..PropertyDef::default() }),
    );
    let p = o.clone();
    assert_eq!(p, o);
    assert!(p.validate().is_ok());
    assert!(p.is_subtype_of("employee", "entity"));

    let mut g = staffed();
    g.insert_edge(Edge::new("e2", "bob", "acme", "works_at").with_confidence(0.5f64.to_bits())).unwrap();
    g.insert_edge(Edge::new("e1", "ada", "bob", "knows")).unwrap();
    let mut h = g.clone();
    assert_eq!(h.node_count(), 3);
    assert_eq!(h.edge_count(), 2);
    let ids: Vec<&str> = h.nodes().iter().map(|n| n.id.as_str()).collect();
    assert_eq!(ids, vec!["ada", "bob", "acme"]);
    let ids: Vec<&str> = h.edges().iter().map(|e| e.id.as_str()).collect();
    assert_eq!(ids, vec!["e2", "e1"]);
    assert_eq!(h.edge("e2"), g.edge("e2"));
    assert_eq!(h.neighbors("bob").len(), 1);
    assert_eq!(h.incoming("bob").len(), 1);
    // the copy is independent of the graph it was made from
    h.remove_edge("e1").unwrap();
    assert_eq!(h.edge_count(), 1);
    assert_eq!(g.edge_count(), 2);
}

#[test]
fn confidences_compare_as_numbers() {
    let samples = [0.0f64, -0.0, 1.0, 0.5, 5e-324, -5e-324, f64::INFINITY, f64::NEG_INFINITY, f64::NAN, -f64::NAN, 1.5];
    for a in samples {
        for b in samples {
            assert_eq!(omnigraph::confidences_equal(a.to_bits(), b.to_bits()), a == b, "{a} {b}");
        }
    }
    let zero = Edge::new("e", "a", "b", "t").with_confidence(0.0f64.to_bits());
    let negative_zero = Edge::new("e", "a", "b", "t").with_confidence((-0.0f64).to_bits());
    assert_eq!(zero, negative_zero);
    let nan = Edge::new("e", "a", "b", "t").with_confidence(f64::NAN.to_bits());
    assert!(nan != nan.clone());
    assert!(zero != nan);
    let e1 = GraphError::InvalidConfidence { edge: "e".into(), confidence: f64::NAN.to_bits() };
    assert!(e1 != e1.clone());
    let e2 = GraphError::InvalidConfidence { edge: "e".into(), confidence: 0.0f64.to_bits() };
    let e3 = GraphError::InvalidConfidence { edge: "e".into(), confidence: (-0.0f64).to_bits() };
    assert_eq!(e2, e3);
    assert!(e2 != GraphError::DuplicateId("e".into()));
    assert_eq!(OntologyError::ParentCycle("a".into()), OntologyError::ParentCycle("a".into()));
    assert!(OntologyError::ParentCycle("a".into()) != OntologyError::ParentCycle("b".into()));
}
