//! The data layer: typed nodes and edges with provenance.
//!
//! A [`Node`] is a typed entity; an [`Edge`] is a typed, directed assertion
//! between two nodes. Edge `properties` carry semantic data belonging to the
//! relationship itself, while `annotations` carry metadata *about the
//! assertion* (the AnnotatedAxiom pattern).
//!
//! An edge's confidence is a binary64 floating-point number in `0.0..=1.0`.
//! The library holds it by its IEEE-754 encoding (`f64::to_bits`) and
//! decides the range on that encoding.

use vstd::prelude::*;

use crate::json::null_json;

verus! {

/// The encoding of `1.0_f64`.
pub const CONFIDENCE_ONE: u64 = 0x3ff0_0000_0000_0000u64;

/// The encoding of `-0.0_f64`.
pub const NEGATIVE_ZERO: u64 = 0x8000_0000_0000_0000u64;

/// Whether the binary64 number with encoding `bits` lies in `0.0..=1.0`.
///
/// A number with the sign bit clear orders as its encoding does, and every
/// NaN with the sign bit clear encodes above `1.0`; of the numbers with the
/// sign bit set only `-0.0`, which equals `0.0`, lies in the interval.
pub open spec fn confidence_in_range(bits: u64) -> bool {
    bits <= CONFIDENCE_ONE || bits == NEGATIVE_ZERO
}

/// Decides [`confidence_in_range`].
pub fn is_valid_confidence(bits: u64) -> (b: bool)
    ensures
        b == confidence_in_range(bits),
{
    bits <= CONFIDENCE_ONE || bits == NEGATIVE_ZERO
}

/// Clears the sign bit of a binary64 encoding.
pub const MAGNITUDE_MASK: u64 = 0x7fff_ffff_ffff_ffffu64;

/// The encoding of positive infinity; magnitudes above it encode NaN.
pub const INFINITY: u64 = 0x7ff0_0000_0000_0000u64;

/// Whether the binary64 numbers with encodings `a` and `b` compare equal
/// under `==`: both are zeros of either sign, or the encodings are equal
/// and encode no NaN.
pub open spec fn confidence_eq(a: u64, b: u64) -> bool {
    ((a & MAGNITUDE_MASK) == 0 && (b & MAGNITUDE_MASK) == 0) || (a == b && (a & MAGNITUDE_MASK) <= INFINITY)
}

/// Decides [`confidence_eq`].
pub fn confidences_equal(a: u64, b: u64) -> (r: bool)
    ensures
        r == confidence_eq(a, b),
{
    ((a & MAGNITUDE_MASK) == 0 && (b & MAGNITUDE_MASK) == 0) || (a == b && (a & MAGNITUDE_MASK) <= INFINITY)
}

pub(crate) fn copy_text(s: &Option<String>) -> (r: Option<String>)
    ensures
        r == *s,
{
    match s {
        Some(t) => Some(t.clone()),
        None => None,
    }
}

/// A typed entity in the graph.
#[derive(Debug, PartialEq)]
pub struct Node {
    /// Unique identifier within the graph.
    pub id: String,
    /// The node's type; must name a `NodeTypeDef` in the graph's ontology.
    pub node_type: String,
    /// Human-readable name.
    pub name: String,
    /// Human-readable description.
    pub description: String,
    /// Optional identifier in an external system.
    pub external_id: Option<String>,
    /// Arbitrary structured metadata.
    pub metadata: serde_json::Value,
    /// Creation timestamp (opaque string; the crate does not impose a format).
    pub created_at: String,
    /// Last-update timestamp (opaque string).
    pub updated_at: String,
}

impl Clone for Node {
    fn clone(&self) -> (r: Self)
        ensures
            r == *self,
    {
        Node {
            id: self.id.clone(),
            node_type: self.node_type.clone(),
            name: self.name.clone(),
            description: self.description.clone(),
            external_id: copy_text(&self.external_id),
            metadata: self.metadata.clone(),
            created_at: self.created_at.clone(),
            updated_at: self.updated_at.clone(),
        }
    }
}

impl Node {
    /// Create a node with the given id, type, and name.
    ///
    /// Description and timestamps are empty, there is no external id, and
    /// the metadata is JSON `null`; use the `with_*` builders to set them.
    pub fn new(id: &str, node_type: &str, name: &str) -> (n: Self)
        ensures
            n.id@ == id@,
            n.node_type@ == node_type@,
            n.name@ == name@,
            n.description@ == Seq::<char>::empty(),
            n.external_id is None,
            n.created_at@ == Seq::<char>::empty(),
            n.updated_at@ == Seq::<char>::empty(),
    {
        Node {
            id: id.to_owned(),
            node_type: node_type.to_owned(),
            name: name.to_owned(),
            description: String::new(),
            external_id: None,
            metadata: null_json(),
            created_at: String::new(),
            updated_at: String::new(),
        }
    }

    /// Set the description.
    pub fn with_description(self, description: &str) -> (n: Self)
        ensures
            n.description@ == description@,
            n == (Node { description: n.description, ..self }),
    {
        Node { description: description.to_owned(), ..self }
    }

    /// Set the external identifier.
    pub fn with_external_id(self, external_id: &str) -> (n: Self)
        ensures
            n.external_id matches Some(e) && e@ == external_id@,
            n == (Node { external_id: n.external_id, ..self }),
    {
        Node { external_id: Some(external_id.to_owned()), ..self }
    }

    /// Set the metadata value.
    pub fn with_metadata(self, metadata: serde_json::Value) -> (n: Self)
        ensures
            n == (Node { metadata, ..self }),
    {
        Node { metadata, ..self }
    }

    /// Set the creation and update timestamps.
    pub fn with_timestamps(self, created_at: &str, updated_at: &str) -> (n: Self)
        ensures
            n.created_at@ == created_at@,
            n.updated_at@ == updated_at@,
            n == (Node { created_at: n.created_at, updated_at: n.updated_at, ..self }),
    {
        Node { created_at: created_at.to_owned(), updated_at: updated_at.to_owned(), ..self }
    }
}

/// Where an assertion came from.
#[derive(Debug, PartialEq, Eq)]
pub struct Provenance {
    /// The originating source (document, conversation, tool, ...).
    pub source: String,
    /// Optional location within the source (page, offset, message id, ...).
    pub location: Option<String>,
    /// The agent or user that created the assertion.
    pub created_by: String,
}

impl Clone for Provenance {
    fn clone(&self) -> (r: Self)
        ensures
            r == *self,
    {
        Provenance {
            source: self.source.clone(),
            location: copy_text(&self.location),
            created_by: self.created_by.clone(),
        }
    }
}

impl Default for Provenance {
    fn default() -> (p: Self)
        ensures
            p.source@ == Seq::<char>::empty(),
            p.location is None,
            p.created_by@ == Seq::<char>::empty(),
    {
        Provenance { source: String::new(), location: None, created_by: String::new() }
    }
}

impl Provenance {
    /// Create provenance from a source and creator.
    pub fn new(source: &str, created_by: &str) -> (p: Self)
        ensures
            p.source@ == source@,
            p.location is None,
            p.created_by@ == created_by@,
    {
        Provenance { source: source.to_owned(), location: None, created_by: created_by.to_owned() }
    }

    /// Set the location within the source.
    pub fn with_location(self, location: &str) -> (p: Self)
        ensures
            p.location matches Some(l) && l@ == location@,
            p == (Provenance { location: p.location, ..self }),
    {
        Provenance { location: Some(location.to_owned()), ..self }
    }
}

/// A typed, directed assertion between two nodes.
#[derive(Debug)]
pub struct Edge {
    /// Unique identifier within the graph.
    pub id: String,
    /// Id of the source node.
    pub source: String,
    /// Id of the target node.
    pub target: String,
    /// The edge's type; must name an `EdgeTypeDef` in the graph's ontology.
    pub edge_type: String,
    /// Semantic edge data — properties of the relationship itself.
    pub properties: serde_json::Value,
    /// Where this assertion came from.
    pub provenance: Provenance,
    /// Confidence in the assertion, a binary64 number in `0.0..=1.0`,
    /// held by its IEEE-754 encoding (`f64::to_bits`).
    pub confidence: u64,
    /// Metadata about the assertion itself (the AnnotatedAxiom pattern).
    pub annotations: serde_json::Value,
    /// Creation timestamp (opaque string).
    pub created_at: String,
}

fn same_text(a: &Option<String>, b: &Option<String>) -> (r: bool)
    ensures
        r == (match (a, b) {
            (Some(x), Some(y)) => x@ == y@,
            (None, None) => true,
            _ => false,
        }),
{
    match (a, b) {
        (Some(x), Some(y)) => x.eq(y),
        (None, None) => true,
        _ => false,
    }
}

/// Two edges are equal when their fields are, the confidences compared as
/// the numbers they encode.
impl PartialEq for Edge {
    fn eq(&self, other: &Self) -> (r: bool) {
        self.id == other.id && self.source == other.source && self.target == other.target && self.edge_type
            == other.edge_type && self.properties == other.properties && self.provenance.source
            == other.provenance.source && same_text(&self.provenance.location, &other.provenance.location)
            && self.provenance.created_by == other.provenance.created_by && confidences_equal(
            self.confidence,
            other.confidence,
        ) && self.annotations == other.annotations && self.created_at == other.created_at
    }
}

impl vstd::std_specs::cmp::PartialEqSpecImpl for Edge {
    open spec fn obeys_eq_spec() -> bool {
        true
    }

    open spec fn eq_spec(&self, other: &Edge) -> bool {
        &&& self.id@ == other.id@
        &&& self.source@ == other.source@
        &&& self.target@ == other.target@
        &&& self.edge_type@ == other.edge_type@
        &&& self.properties == other.properties
        &&& self.provenance.source@ == other.provenance.source@
        &&& match (self.provenance.location, other.provenance.location) {
            (Some(x), Some(y)) => x@ == y@,
            (None, None) => true,
            _ => false,
        }
        &&& self.provenance.created_by@ == other.provenance.created_by@
        &&& confidence_eq(self.confidence, other.confidence)
        &&& self.annotations == other.annotations
        &&& self.created_at@ == other.created_at@
    }
}

impl Clone for Edge {
    fn clone(&self) -> (r: Self)
        ensures
            r == *self,
    {
        Edge {
            id: self.id.clone(),
            source: self.source.clone(),
            target: self.target.clone(),
            edge_type: self.edge_type.clone(),
            properties: self.properties.clone(),
            provenance: self.provenance.clone(),
            confidence: self.confidence,
            annotations: self.annotations.clone(),
            created_at: self.created_at.clone(),
        }
    }
}

impl Edge {
    /// Create an edge with the given id, endpoints, and type.
    ///
    /// Confidence is `1.0`; provenance and the timestamp are empty, and
    /// properties and annotations are JSON `null`. Use the `with_*` builders.
    pub fn new(id: &str, source: &str, target: &str, edge_type: &str) -> (e: Self)
        ensures
            e.id@ == id@,
            e.source@ == source@,
            e.target@ == target@,
            e.edge_type@ == edge_type@,
            e.provenance.source@ == Seq::<char>::empty(),
            e.provenance.location is None,
            e.provenance.created_by@ == Seq::<char>::empty(),
            e.confidence == CONFIDENCE_ONE,
            e.created_at@ == Seq::<char>::empty(),
    {
        Edge {
            id: id.to_owned(),
            source: source.to_owned(),
            target: target.to_owned(),
            edge_type: edge_type.to_owned(),
            properties: null_json(),
            provenance: Provenance::default(),
            confidence: CONFIDENCE_ONE,
            annotations: null_json(),
            created_at: String::new(),
        }
    }

    /// Set the semantic properties.
    pub fn with_properties(self, properties: serde_json::Value) -> (e: Self)
        ensures
            e == (Edge { properties, ..self }),
    {
        Edge { properties, ..self }
    }

    /// Set the provenance.
    pub fn with_provenance(self, provenance: Provenance) -> (e: Self)
        ensures
            e == (Edge { provenance, ..self }),
    {
        Edge { provenance, ..self }
    }

    /// Set the confidence, given by its binary64 encoding (validated on
    /// insertion into a graph).
    pub fn with_confidence(self, confidence: u64) -> (e: Self)
        ensures
            e == (Edge { confidence, ..self }),
    {
        Edge { confidence, ..self }
    }

    /// Set the annotations.
    pub fn with_annotations(self, annotations: serde_json::Value) -> (e: Self)
        ensures
            e == (Edge { annotations, ..self }),
    {
        Edge { annotations, ..self }
    }

    /// Set the creation timestamp.
    pub fn with_created_at(self, created_at: &str) -> (e: Self)
        ensures
            e.created_at@ == created_at@,
            e == (Edge { created_at: e.created_at, ..self }),
    {
        Edge { created_at: created_at.to_owned(), ..self }
    }
}

} // verus!
