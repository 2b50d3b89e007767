//! Error types for ontology validation and graph mutation.

use vstd::prelude::*;

use crate::graph::{confidence_eq, confidences_equal};

verus! {

/// Errors produced while validating an [`Ontology`](crate::Ontology).
#[derive(Debug, Clone, Eq)]
pub enum OntologyError {
    /// A type references a parent that is not defined in the ontology.
    UnknownParent {
        /// The type whose `parent` field is dangling.
        child: String,
        /// The missing parent type name.
        parent: String,
    },
    /// An edge type references an inverse edge type that is not defined.
    UnknownInverse {
        /// The edge type whose `inverse` field is dangling.
        edge_type: String,
        /// The missing inverse edge type name.
        inverse: String,
    },
    /// A parent chain loops back on itself.
    ParentCycle(String),
}

/// An [`OntologyError`] with its names taken as character sequences.
pub enum OntologyIssue {
    UnknownParent { child: Seq<char>, parent: Seq<char> },
    UnknownInverse { edge_type: Seq<char>, inverse: Seq<char> },
    ParentCycle(Seq<char>),
}

impl View for OntologyError {
    type V = OntologyIssue;

    open spec fn view(&self) -> OntologyIssue {
        match self {
            OntologyError::UnknownParent { child, parent } => OntologyIssue::UnknownParent {
                child: child@,
                parent: parent@,
            },
            OntologyError::UnknownInverse { edge_type, inverse } => OntologyIssue::UnknownInverse {
                edge_type: edge_type@,
                inverse: inverse@,
            },
            OntologyError::ParentCycle(name) => OntologyIssue::ParentCycle(name@),
        }
    }
}

/// Two ontology errors are equal when they are the same variant with equal
/// names.
impl PartialEq for OntologyError {
    fn eq(&self, other: &Self) -> (r: bool) {
        match (self, other) {
            (
                OntologyError::UnknownParent { child: c1, parent: p1 },
                OntologyError::UnknownParent { child: c2, parent: p2 },
            ) => c1.eq(c2) && p1.eq(p2),
            (
                OntologyError::UnknownInverse { edge_type: e1, inverse: i1 },
                OntologyError::UnknownInverse { edge_type: e2, inverse: i2 },
            ) => e1.eq(e2) && i1.eq(i2),
            (OntologyError::ParentCycle(a), OntologyError::ParentCycle(b)) => a.eq(b),
            _ => false,
        }
    }
}

impl vstd::std_specs::cmp::PartialEqSpecImpl for OntologyError {
    open spec fn obeys_eq_spec() -> bool {
        true
    }

    open spec fn eq_spec(&self, other: &OntologyError) -> bool {
        self@ == other@
    }
}

/// Errors produced while mutating a [`Graph`](crate::Graph).
#[derive(Debug, Clone)]
pub enum GraphError {
    /// The graph's ontology failed validation.
    Ontology(OntologyError),
    /// A node's type is not defined in the ontology.
    UnknownNodeType {
        /// The offending node id.
        node: String,
        /// The undefined node type name.
        node_type: String,
    },
    /// An edge's type is not defined in the ontology.
    UnknownEdgeType {
        /// The offending edge id.
        edge: String,
        /// The undefined edge type name.
        edge_type: String,
    },
    /// An edge references a source or target node that is not in the graph.
    MissingEndpoint {
        /// The offending edge id.
        edge: String,
        /// The missing node id.
        node: String,
    },
    /// An edge's source node violates the edge type's domain constraint.
    DomainViolation {
        /// The offending edge id.
        edge: String,
        /// The edge type whose domain was violated.
        edge_type: String,
        /// The actual type of the source node.
        source_type: String,
    },
    /// An edge's target node violates the edge type's range constraint.
    RangeViolation {
        /// The offending edge id.
        edge: String,
        /// The edge type whose range was violated.
        edge_type: String,
        /// The actual type of the target node.
        target_type: String,
    },
    /// A node or edge with the same id already exists in the graph.
    DuplicateId(String),
    /// An edge's confidence lies outside the closed interval `0.0..=1.0`.
    InvalidConfidence {
        /// The offending edge id.
        edge: String,
        /// The IEEE-754 binary64 encoding of the out-of-range confidence.
        confidence: u64,
    },
    /// A node cannot be removed because edges are still attached to it.
    NodeHasEdges(String),
    /// The referenced node does not exist in the graph.
    UnknownNode(String),
}

impl From<OntologyError> for GraphError {
    fn from(e: OntologyError) -> (r: Self) {
        GraphError::Ontology(e)
    }
}

impl vstd::std_specs::convert::FromSpecImpl<OntologyError> for GraphError {
    open spec fn obeys_from_spec() -> bool {
        true
    }

    open spec fn from_spec(v: OntologyError) -> Self {
        GraphError::Ontology(v)
    }
}

/// Two graph errors are equal when they are the same variant with equal
/// fields, confidences compared as the numbers they encode.
impl PartialEq for GraphError {
    fn eq(&self, other: &Self) -> (r: bool) {
        match (self, other) {
            (GraphError::Ontology(a), GraphError::Ontology(b)) => a.eq(b),
            (
                GraphError::UnknownNodeType { node: n1, node_type: t1 },
                GraphError::UnknownNodeType { node: n2, node_type: t2 },
            ) => n1.eq(n2) && t1.eq(t2),
            (
                GraphError::UnknownEdgeType { edge: e1, edge_type: t1 },
                GraphError::UnknownEdgeType { edge: e2, edge_type: t2 },
            ) => e1.eq(e2) && t1.eq(t2),
            (
                GraphError::MissingEndpoint { edge: e1, node: n1 },
                GraphError::MissingEndpoint { edge: e2, node: n2 },
            ) => e1.eq(e2) && n1.eq(n2),
            (
                GraphError::DomainViolation { edge: e1, edge_type: t1, source_type: s1 },
                GraphError::DomainViolation { edge: e2, edge_type: t2, source_type: s2 },
            ) => e1.eq(e2) && t1.eq(t2) && s1.eq(s2),
            (
                GraphError::RangeViolation { edge: e1, edge_type: t1, target_type: s1 },
                GraphError::RangeViolation { edge: e2, edge_type: t2, target_type: s2 },
            ) => e1.eq(e2) && t1.eq(t2) && s1.eq(s2),
            (GraphError::DuplicateId(a), GraphError::DuplicateId(b)) => a.eq(b),
            (
                GraphError::InvalidConfidence { edge: e1, confidence: c1 },
                GraphError::InvalidConfidence { edge: e2, confidence: c2 },
            ) => e1.eq(e2) && confidences_equal(*c1, *c2),
            (GraphError::NodeHasEdges(a), GraphError::NodeHasEdges(b)) => a.eq(b),
            (GraphError::UnknownNode(a), GraphError::UnknownNode(b)) => a.eq(b),
            _ => false,
        }
    }
}

impl vstd::std_specs::cmp::PartialEqSpecImpl for GraphError {
    open spec fn obeys_eq_spec() -> bool {
        true
    }

    open spec fn eq_spec(&self, other: &GraphError) -> bool {
        match (self, other) {
            (
                GraphError::InvalidConfidence { edge: e1, confidence: c1 },
                GraphError::InvalidConfidence { edge: e2, confidence: c2 },
            ) => e1@ == e2@ && confidence_eq(*c1, *c2),
            _ => self@ == other@,
        }
    }
}

/// A [`GraphError`] with its names taken as character sequences.
pub enum GraphIssue {
    Ontology(OntologyIssue),
    UnknownNodeType { node: Seq<char>, node_type: Seq<char> },
    UnknownEdgeType { edge: Seq<char>, edge_type: Seq<char> },
    MissingEndpoint { edge: Seq<char>, node: Seq<char> },
    DomainViolation { edge: Seq<char>, edge_type: Seq<char>, source_type: Seq<char> },
    RangeViolation { edge: Seq<char>, edge_type: Seq<char>, target_type: Seq<char> },
    DuplicateId(Seq<char>),
    InvalidConfidence { edge: Seq<char>, confidence: u64 },
    NodeHasEdges(Seq<char>),
    UnknownNode(Seq<char>),
}

impl View for GraphError {
    type V = GraphIssue;

    open spec fn view(&self) -> GraphIssue {
        match self {
            GraphError::Ontology(e) => GraphIssue::Ontology(e@),
            GraphError::UnknownNodeType { node, node_type } => GraphIssue::UnknownNodeType {
                node: node@,
                node_type: node_type@,
            },
            GraphError::UnknownEdgeType { edge, edge_type } => GraphIssue::UnknownEdgeType {
                edge: edge@,
                edge_type: edge_type@,
            },
            GraphError::MissingEndpoint { edge, node } => GraphIssue::MissingEndpoint {
                edge: edge@,
                node: node@,
            },
            GraphError::DomainViolation { edge, edge_type, source_type } => GraphIssue::DomainViolation {
                edge: edge@,
                edge_type: edge_type@,
                source_type: source_type@,
            },
            GraphError::RangeViolation { edge, edge_type, target_type } => GraphIssue::RangeViolation {
                edge: edge@,
                edge_type: edge_type@,
                target_type: target_type@,
            },
            GraphError::DuplicateId(id) => GraphIssue::DuplicateId(id@),
            GraphError::InvalidConfidence { edge, confidence } => GraphIssue::InvalidConfidence {
                edge: edge@,
                confidence: *confidence,
            },
            GraphError::NodeHasEdges(id) => GraphIssue::NodeHasEdges(id@),
            GraphError::UnknownNode(id) => GraphIssue::UnknownNode(id@),
        }
    }
}

} // verus!
