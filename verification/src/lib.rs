//! A typed property-graph substrate for agent knowledge representation.
//!
//! An [`Ontology`] declares the vocabulary — node types, edge types,
//! subtype hierarchies, and domain/range constraints — and a [`Graph`]
//! stores nodes and edges validated against that vocabulary. Edges carry
//! [`Provenance`], a confidence score, semantic `properties`, and
//! assertion-level `annotations`.
//!
//! Every operation is verified against a contract over an abstract state:
//! [`GraphView`] for graphs, the ordered name tables of [`NameTable`] for
//! ontologies. The contracts say, for every input, what is returned, which
//! error is reported, and how the state changes.

mod error;
mod graph;
mod json;
mod laws;
mod names;
mod ontology;
mod store;
mod table;

pub use error::{GraphError, GraphIssue, OntologyError, OntologyIssue};
pub use graph::{
    confidence_eq, confidence_in_range, confidences_equal, is_valid_confidence, Edge, Node, Provenance, CONFIDENCE_ONE,
    INFINITY, MAGNITUDE_MASK, NEGATIVE_ZERO,
};
pub use laws::{
    law_adjacency_members, law_edge_lookup_after_insert, law_remove_node_admitted, law_insert_edge_admitted, law_insert_node_admitted, law_nodes_of_type_members, law_valid_ontology_acyclic, law_valid_ontology_references, law_hierarchies_independent, law_neighbor_pairs, law_node_lookup_after_insert, law_remove_edge_undoes_insert,
    law_remove_node_undoes_insert, law_subtype_reflexive, law_subtype_transitive, law_unknown_node_has_no_edges,
    law_unknown_type_subtypes,
};
pub use names::{
    bytes_lt, compare_names, lemma_encoding_injective, lemma_name_lt_irreflexive, lemma_name_lt_total,
    lemma_name_lt_transitive, name_lt, names_equal, NameOrder,
};
pub use ontology::{
    cycle_from, dangling_edge_reference, dangling_parent, first_cycle, link_at, name_views, parent_in, repeats_at,
    EdgeTypeDef, HasParent, NodeTypeDef, Ontology, OntologyMeta, PropertyDef,
};
pub use store::{drop_name, edges_at, endpoint, index_list, permits, Graph, GraphView};
pub use table::{names_increasing, NameTable};
