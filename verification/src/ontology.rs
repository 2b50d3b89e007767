//! The schema vocabulary: node types, edge types, and property definitions.
//!
//! An [`Ontology`] declares what may exist in a [`Graph`](crate::Graph):
//! which node types are known, which edge types connect them, and what
//! properties each carries. Node and edge types form independent
//! single-inheritance hierarchies via their `parent` fields.

use vstd::prelude::*;
use vstd::seq_lib::seq_to_set_is_finite;
use vstd::set_lib::{lemma_len_subset, lemma_len_union};

use crate::error::{OntologyError, OntologyIssue};
use crate::graph::copy_text;
use crate::names::names_equal;
use crate::table::NameTable;

verus! {

/// Metadata identifying an ontology.
#[derive(Debug, PartialEq, Eq)]
pub struct OntologyMeta {
    /// Monotonically increasing schema version.
    pub version: u32,
    /// Human-readable label for the ontology.
    pub label: String,
    /// Optional namespace (e.g. a URI prefix) for the ontology's terms.
    pub namespace: Option<String>,
}

impl Default for OntologyMeta {
    fn default() -> (m: Self)
        ensures
            m.version == 0,
            m.label@ == Seq::<char>::empty(),
            m.namespace is None,
    {
        OntologyMeta { version: 0, label: String::new(), namespace: None }
    }
}

/// Definition of a single property on a node or edge type.
#[derive(Debug, PartialEq)]
pub struct PropertyDef {
    /// The property's value type (e.g. `"string"`, `"number"`, `"boolean"`).
    pub prop_type: String,
    /// If non-empty, the closed set of permitted values.
    pub enum_values: Vec<String>,
    /// Optional human-readable description.
    pub description: Option<String>,
    /// Whether the property must be present.
    pub required: bool,
    /// Optional default value applied when the property is absent.
    pub default: Option<serde_json::Value>,
}

impl Default for PropertyDef {
    fn default() -> (d: Self)
        ensures
            d.prop_type@ == Seq::<char>::empty(),
            d.enum_values@.len() == 0,
            d.description is None,
            !d.required,
            d.default is None,
    {
        PropertyDef {
            prop_type: String::new(),
            enum_values: Vec::new(),
            description: None,
            required: false,
            default: None,
        }
    }
}

/// A type definition that may name a parent type.
pub trait HasParent {
    /// The parent's name, if the definition names one.
    spec fn parent_name(&self) -> Option<Seq<char>>;

    /// The parent named by the definition.
    fn parent_ref(&self) -> (r: Option<&String>)
        ensures
            match r {
                Some(p) => self.parent_name() == Some(p@),
                None => self.parent_name() is None,
            },
    ;
}

/// Definition of a node type in the ontology.
#[derive(Debug, PartialEq)]
pub struct NodeTypeDef {
    /// Optional parent node type for subtype inheritance.
    pub parent: Option<String>,
    /// Human-readable label.
    pub label: String,
    /// Human-readable description.
    pub description: String,
    /// Properties declared on this node type.
    pub properties: NameTable<PropertyDef>,
}

impl HasParent for NodeTypeDef {
    open spec fn parent_name(&self) -> Option<Seq<char>> {
        match self.parent {
            Some(p) => Some(p@),
            None => None,
        }
    }

    fn parent_ref(&self) -> (r: Option<&String>) {
        match &self.parent {
            Some(p) => Some(p),
            None => None,
        }
    }
}

impl Default for NodeTypeDef {
    fn default() -> (d: Self)
        ensures
            d.parent is None,
            d.label@ == Seq::<char>::empty(),
            d.description@ == Seq::<char>::empty(),
            d.properties.wf(),
            d.properties.spec_len() == 0,
    {
        NodeTypeDef { parent: None, label: String::new(), description: String::new(), properties: NameTable::new() }
    }
}

impl NodeTypeDef {
    /// Create a node type definition with the given label and description.
    pub fn new(label: &str, description: &str) -> (d: Self)
        ensures
            d.parent is None,
            d.label@ == label@,
            d.description@ == description@,
            d.properties.wf(),
            d.properties.spec_len() == 0,
    {
        NodeTypeDef {
            parent: None,
            label: label.to_owned(),
            description: description.to_owned(),
            properties: NameTable::new(),
        }
    }

    /// Set the parent node type.
    pub fn with_parent(self, parent: &str) -> (d: Self)
        ensures
            d.parent matches Some(p) && p@ == parent@,
            d == (NodeTypeDef { parent: d.parent, ..self }),
    {
        NodeTypeDef { parent: Some(parent.to_owned()), ..self }
    }

    /// Add a property definition.
    pub fn with_property(self, name: &str, def: PropertyDef) -> (d: Self)
        requires
            self.properties.wf(),
        ensures
            d.properties.wf(),
            d.properties.lookup(name@) == Some(def),
            forall|k: Seq<char>| k != name@ ==> #[trigger] d.properties.lookup(k) == self.properties.lookup(k),
            d.parent == self.parent,
            d.label == self.label,
            d.description == self.description,
    {
        let mut d = self;
        d.properties.insert(name.to_owned(), def);
        d
    }
}

/// Definition of an edge type in the ontology.
#[derive(Debug, PartialEq)]
pub struct EdgeTypeDef {
    /// Optional parent edge type for subtype inheritance.
    pub parent: Option<String>,
    /// Human-readable label.
    pub label: String,
    /// Human-readable description.
    pub description: String,
    /// Optional inverse edge type (e.g. `works_at` / `employs`).
    pub inverse: Option<String>,
    /// Properties declared on this edge type.
    pub properties: NameTable<PropertyDef>,
    /// Permitted source node types (domain). Empty means unconstrained.
    pub source_types: Vec<String>,
    /// Permitted target node types (range). Empty means unconstrained.
    pub target_types: Vec<String>,
}

impl HasParent for EdgeTypeDef {
    open spec fn parent_name(&self) -> Option<Seq<char>> {
        match self.parent {
            Some(p) => Some(p@),
            None => None,
        }
    }

    fn parent_ref(&self) -> (r: Option<&String>) {
        match &self.parent {
            Some(p) => Some(p),
            None => None,
        }
    }
}

/// The names in a list of type names.
pub open spec fn name_views(names: Seq<String>) -> Seq<Seq<char>> {
    names.map_values(|s: String| s@)
}

impl Default for EdgeTypeDef {
    fn default() -> (d: Self)
        ensures
            d.parent is None,
            d.label@ == Seq::<char>::empty(),
            d.description@ == Seq::<char>::empty(),
            d.inverse is None,
            d.properties.wf(),
            d.properties.spec_len() == 0,
            d.source_types@.len() == 0,
            d.target_types@.len() == 0,
    {
        EdgeTypeDef {
            parent: None,
            label: String::new(),
            description: String::new(),
            inverse: None,
            properties: NameTable::new(),
            source_types: Vec::new(),
            target_types: Vec::new(),
        }
    }
}

impl EdgeTypeDef {
    /// The inverse's name, if the definition names one.
    pub open spec fn inverse_name(&self) -> Option<Seq<char>> {
        match self.inverse {
            Some(p) => Some(p@),
            None => None,
        }
    }

    /// Create an edge type definition with the given label and description.
    pub fn new(label: &str, description: &str) -> (d: Self)
        ensures
            d.parent is None,
            d.label@ == label@,
            d.description@ == description@,
            d.inverse is None,
            d.properties.wf(),
            d.properties.spec_len() == 0,
            d.source_types@.len() == 0,
            d.target_types@.len() == 0,
    {
        EdgeTypeDef {
            parent: None,
            label: label.to_owned(),
            description: description.to_owned(),
            inverse: None,
            properties: NameTable::new(),
            source_types: Vec::new(),
            target_types: Vec::new(),
        }
    }

    /// Set the parent edge type.
    pub fn with_parent(self, parent: &str) -> (d: Self)
        ensures
            d.parent matches Some(p) && p@ == parent@,
            d == (EdgeTypeDef { parent: d.parent, ..self }),
    {
        EdgeTypeDef { parent: Some(parent.to_owned()), ..self }
    }

    /// Set the inverse edge type.
    pub fn with_inverse(self, inverse: &str) -> (d: Self)
        ensures
            d.inverse matches Some(p) && p@ == inverse@,
            d == (EdgeTypeDef { inverse: d.inverse, ..self }),
    {
        EdgeTypeDef { inverse: Some(inverse.to_owned()), ..self }
    }

    /// Add a permitted source node type (domain constraint).
    pub fn with_source(self, ty: &str) -> (d: Self)
        ensures
            name_views(d.source_types@) == name_views(self.source_types@).push(ty@),
            d == (EdgeTypeDef { source_types: d.source_types, ..self }),
    {
        let mut d = self;
        d.source_types.push(ty.to_owned());
        assert(name_views(d.source_types@) =~= name_views(self.source_types@).push(ty@));
        d
    }

    /// Add a permitted target node type (range constraint).
    pub fn with_target(self, ty: &str) -> (d: Self)
        ensures
            name_views(d.target_types@) == name_views(self.target_types@).push(ty@),
            d == (EdgeTypeDef { target_types: d.target_types, ..self }),
    {
        let mut d = self;
        d.target_types.push(ty.to_owned());
        assert(name_views(d.target_types@) =~= name_views(self.target_types@).push(ty@));
        d
    }

    /// Add a property definition.
    pub fn with_property(self, name: &str, def: PropertyDef) -> (d: Self)
        requires
            self.properties.wf(),
        ensures
            d.properties.wf(),
            d.properties.lookup(name@) == Some(def),
            forall|k: Seq<char>| k != name@ ==> #[trigger] d.properties.lookup(k) == self.properties.lookup(k),
            d.parent == self.parent,
            d.label == self.label,
            d.description == self.description,
            d.inverse == self.inverse,
            d.source_types == self.source_types,
            d.target_types == self.target_types,
    {
        let mut d = self;
        d.properties.insert(name.to_owned(), def);
        d
    }
}

/// The parent that table `t` gives `name`: `None` when `t` has no entry
/// named `name` or the entry names no parent.
pub open spec fn parent_in<D: HasParent>(t: NameTable<D>, name: Seq<char>) -> Option<Seq<char>> {
    match t.lookup(name) {
        Some(d) => d.parent_name(),
        None => None,
    }
}

/// The `i`-th name met walking up parent links from `start` within `t`.
pub open spec fn link_at<D: HasParent>(t: NameTable<D>, start: Seq<char>, i: nat) -> Option<Seq<char>>
    decreases i,
{
    if i == 0 {
        Some(start)
    } else {
        match link_at(t, start, (i - 1) as nat) {
            Some(c) => parent_in(t, c),
            None => None,
        }
    }
}

/// Walking up from `start` within `t`, the name at step `i` has a parent
/// and was met before, while the names before it are all different.
pub open spec fn repeats_at<D: HasParent>(t: NameTable<D>, start: Seq<char>, i: nat) -> bool {
    &&& link_at(t, start, i) is Some
    &&& parent_in(t, link_at(t, start, i)->0) is Some
    &&& exists|j: nat| j < i && #[trigger] link_at(t, start, j) == link_at(t, start, i)
    &&& forall|a: nat, b: nat| a < b < i ==> #[trigger] link_at(t, start, a) != #[trigger] link_at(t, start, b)
}

/// The name at which the walk up from `start` within `t` first comes back
/// to a name it met before, if it does.
pub open spec fn cycle_from<D: HasParent>(t: NameTable<D>, start: Seq<char>) -> Option<Seq<char>> {
    if exists|i: nat| #[trigger] repeats_at(t, start, i) {
        link_at(t, start, choose|i: nat| #[trigger] repeats_at(t, start, i))
    } else {
        None
    }
}

/// The first cycle found walking up from the names of `t`, taken in order
/// from position `k` on.
pub open spec fn first_cycle<D: HasParent>(t: NameTable<D>, k: int) -> Option<Seq<char>>
    decreases t.spec_len() - k,
{
    if 0 <= k < t.spec_len() {
        match cycle_from(t, t.names()[k]) {
            Some(c) => Some(c),
            None => first_cycle(t, k + 1),
        }
    } else {
        None
    }
}

/// The first entry of `t`, from position `k` on, whose parent is not an
/// entry of `t`.
pub open spec fn dangling_parent<D: HasParent>(t: NameTable<D>, k: int) -> Option<OntologyIssue>
    decreases t.spec_len() - k,
{
    if 0 <= k < t.spec_len() {
        match t.values()[k].parent_name() {
            Some(p) => if !t.names().contains(p) {
                Some(OntologyIssue::UnknownParent { child: t.names()[k], parent: p })
            } else {
                dangling_parent(t, k + 1)
            },
            None => dangling_parent(t, k + 1),
        }
    } else {
        None
    }
}

/// The first edge type of `t`, from position `k` on, whose parent or
/// inverse is not an edge type of `t`; the parent is checked first.
pub open spec fn dangling_edge_reference(t: NameTable<EdgeTypeDef>, k: int) -> Option<OntologyIssue>
    decreases t.spec_len() - k,
{
    if 0 <= k < t.spec_len() {
        let d = t.values()[k];
        if d.parent_name() is Some && !t.names().contains(d.parent_name()->0) {
            Some(OntologyIssue::UnknownParent { child: t.names()[k], parent: d.parent_name()->0 })
        } else if d.inverse_name() is Some && !t.names().contains(d.inverse_name()->0) {
            Some(OntologyIssue::UnknownInverse { edge_type: t.names()[k], inverse: d.inverse_name()->0 })
        } else {
            dangling_edge_reference(t, k + 1)
        }
    } else {
        None
    }
}

pub(crate) proof fn lemma_link_chain_ends<D: HasParent>(t: NameTable<D>, start: Seq<char>, i: nat, k: nat)
    requires
        i <= k,
        link_at(t, start, i) is None,
    ensures
        link_at(t, start, k) is None,
    decreases k - i,
{
    if i < k {
        lemma_link_chain_ends(t, start, i, (k - 1) as nat);
    }
}

proof fn lemma_repeat_unique<D: HasParent>(t: NameTable<D>, start: Seq<char>, m1: nat, m2: nat)
    requires
        repeats_at(t, start, m1),
        repeats_at(t, start, m2),
    ensures
        m1 == m2,
{
    if m1 < m2 {
        let j = choose|j: nat| j < m1 && #[trigger] link_at(t, start, j) == link_at(t, start, m1);
        assert(link_at(t, start, j) != link_at(t, start, m1));
    } else if m2 < m1 {
        let j = choose|j: nat| j < m2 && #[trigger] link_at(t, start, j) == link_at(t, start, m2);
        assert(link_at(t, start, j) != link_at(t, start, m2));
    }
}

/// Walks up parent links from `start` within `t` and returns the first name
/// met twice, if any.
fn cycle_entry<D: HasParent>(t: &NameTable<D>, start: &str) -> (r: Option<String>)
    requires
        t.wf(),
    ensures
        match r {
            Some(c) => cycle_from(*t, start@) == Some(c@),
            None => cycle_from(*t, start@) is None,
        },
{
    let mut seen: NameTable<()> = NameTable::new();
    let mut current: &str = start;
    let ghost mut i: nat = 0;
    loop
        invariant
            t.wf(),
            seen.wf(),
            link_at(*t, start@, i) == Some(current@),
            forall|j: nat| j <= i ==> #[trigger] link_at(*t, start@, j) is Some,
            forall|j: nat| j < i ==> parent_in(*t, #[trigger] link_at(*t, start@, j)->0) is Some,
            forall|j: nat| j < i ==> seen.names().contains(#[trigger] link_at(*t, start@, j)->0),
            forall|x: Seq<char>|
                #[trigger] seen.names().contains(x) ==> exists|j: nat|
                    j < i && #[trigger] link_at(*t, start@, j) == Some(x),
            forall|x: Seq<char>| #[trigger] seen.names().contains(x) ==> t.names().contains(x),
            forall|a: nat, b: nat|
                a < b < i ==> #[trigger] link_at(*t, start@, a) != #[trigger] link_at(*t, start@, b),
        decreases t.spec_len() - seen.spec_len(),
    {
        let parent = match t.get(current) {
            Some(d) => d.parent_ref(),
            None => None,
        };
        match parent {
            None => {
                proof {
                    assert(parent_in(*t, current@) is None);
                    assert(link_at(*t, start@, i + 1) is None);
                    assert(!exists|m: nat| #[trigger] repeats_at(*t, start@, m)) by {
                        if exists|m: nat| #[trigger] repeats_at(*t, start@, m) {
                            let m = choose|m: nat| #[trigger] repeats_at(*t, start@, m);
                            if m < i {
                                let j = choose|j: nat|
                                    j < m && #[trigger] link_at(*t, start@, j) == link_at(*t, start@, m);
                                assert(link_at(*t, start@, j) != link_at(*t, start@, m));
                            } else if m > i {
                                lemma_link_chain_ends(*t, start@, i + 1, m);
                            }
                        }
                    }
                }
                return None;
            },
            Some(p) => {
                if seen.contains_key(current) {
                    proof {
                        let j = choose|j: nat| j < i && #[trigger] link_at(*t, start@, j) == Some(current@);
                        assert(repeats_at(*t, start@, i));
                        let m = choose|m: nat| #[trigger] repeats_at(*t, start@, m);
                        lemma_repeat_unique(*t, start@, m, i);
                    }
                    return Some(current.to_owned());
                }
                let ghost old_seen = seen;
                seen.insert(current.to_owned(), ());
                proof {
                    assert(link_at(*t, start@, i + 1) == Some(p@));
                    assert forall|a: nat, b: nat| a < b < i + 1 implies #[trigger] link_at(*t, start@, a)
                        != #[trigger] link_at(*t, start@, b) by {
                        if b == i {
                            assert(old_seen.names().contains(link_at(*t, start@, a)->0));
                        }
                    }
                    assert forall|j: nat| j < i + 1 implies seen.names().contains(
                        #[trigger] link_at(*t, start@, j)->0,
                    ) by {
                        assert(seen.names().to_set().contains(link_at(*t, start@, j)->0));
                    }
                    assert forall|x: Seq<char>| #[trigger] seen.names().contains(x) implies exists|j: nat|
                        j < i + 1 && #[trigger] link_at(*t, start@, j) == Some(x) by {
                        assert(seen.names().to_set().contains(x));
                        if x != current@ {
                            assert(old_seen.names().to_set().contains(x));
                            assert(old_seen.names().contains(x));
                        } else {
                            assert(link_at(*t, start@, i) == Some(x));
                        }
                    }
                    assert forall|x: Seq<char>| #[trigger] seen.names().contains(x) implies t.names().contains(x) by {
                        assert(seen.names().to_set().contains(x));
                        if x != current@ {
                            assert(old_seen.names().to_set().contains(x));
                        }
                    }
                    lemma_seen_bound(seen, t.names(), Seq::empty());
                }
                current = p.as_str();
                proof {
                    i = i + 1;
                }
            },
        }
    }
}

/// Detects a cycle among the parent links of `t`, trying the names of `t`
/// in order as starting points.
fn check_cycles<D: HasParent>(t: &NameTable<D>) -> (r: Result<(), OntologyError>)
    requires
        t.wf(),
    ensures
        match r {
            Ok(()) => first_cycle(*t, 0) is None,
            Err(e) => first_cycle(*t, 0) matches Some(c) && e@ == OntologyIssue::ParentCycle(c),
        },
{
    let n = t.len();
    let mut k: usize = 0;
    while k < n
        invariant
            t.wf(),
            n == t.spec_len(),
            k <= n,
            first_cycle(*t, 0) == first_cycle(*t, k as int),
        decreases n - k,
    {
        let (start, _) = t.entry(k);
        match cycle_entry(t, start.as_str()) {
            Some(c) => {
                return Err(OntologyError::ParentCycle(c));
            },
            None => {},
        }
        k = k + 1;
    }
    Ok(())
}

/// A complete schema: node type and edge type vocabularies plus metadata.
#[derive(Debug, PartialEq)]
pub struct Ontology {
    /// Ontology metadata (version, label, namespace).
    pub meta: OntologyMeta,
    /// Node type definitions, keyed by type name.
    pub node_types: NameTable<NodeTypeDef>,
    /// Edge type definitions, keyed by type name.
    pub edge_types: NameTable<EdgeTypeDef>,
}

/// Copies a list of names.
fn copy_strings(v: &Vec<String>) -> (r: Vec<String>)
    ensures
        r@ == v@,
{
    let mut r: Vec<String> = Vec::new();
    let mut i: usize = 0;
    while i < v.len()
        invariant
            i <= v@.len(),
            r@ == v@.take(i as int),
        decreases v@.len() - i,
    {
        r.push(v[i].clone());
        assert(v@.take(i + 1) =~= v@.take(i as int).push(v@[i as int]));
        i = i + 1;
    }
    assert(v@.take(v@.len() as int) =~= v@);
    r
}

/// Two well-formed tables with the same names, whose entries at each
/// position name the same parent.
pub open spec fn same_parents<D: HasParent>(t1: NameTable<D>, t2: NameTable<D>) -> bool {
    &&& t1.wf()
    &&& t2.wf()
    &&& t1.names() == t2.names()
    &&& forall|i: int|
        0 <= i < t1.spec_len() ==> (#[trigger] t1.values()[i]).parent_name() == t2.values()[i].parent_name()
}

proof fn lemma_same_lookup_parent<D: HasParent>(t1: NameTable<D>, t2: NameTable<D>, c: Seq<char>)
    requires
        same_parents(t1, t2),
    ensures
        parent_in(t1, c) == parent_in(t2, c),
        t1.lookup(c) is Some <==> t2.lookup(c) is Some,
        t1.lookup(c) is Some ==> t1.lookup(c)->0.parent_name() == t2.lookup(c)->0.parent_name(),
{
    if t1.names().contains(c) {
        let i = choose|i: int| 0 <= i < t1.names().len() && t1.names()[i] == c;
        t1.lemma_entry(i);
        t2.lemma_entry(i);
        assert(t1.values()[i].parent_name() == t2.values()[i].parent_name());
    }
}

proof fn lemma_same_links<D: HasParent>(t1: NameTable<D>, t2: NameTable<D>, start: Seq<char>, i: nat)
    requires
        same_parents(t1, t2),
    ensures
        link_at(t1, start, i) == link_at(t2, start, i),
    decreases i,
{
    if i > 0 {
        lemma_same_links(t1, t2, start, (i - 1) as nat);
        if let Some(c) = link_at(t1, start, (i - 1) as nat) {
            lemma_same_lookup_parent(t1, t2, c);
        }
    }
}

proof fn lemma_same_cycle_from<D: HasParent>(t1: NameTable<D>, t2: NameTable<D>, start: Seq<char>)
    requires
        same_parents(t1, t2),
    ensures
        cycle_from(t1, start) == cycle_from(t2, start),
{
    assert forall|i: nat| #[trigger] link_at(t1, start, i) == link_at(t2, start, i) by {
        lemma_same_links(t1, t2, start, i);
    }
    assert forall|i: nat| #[trigger] repeats_at(t1, start, i) == repeats_at(t2, start, i) by {
        if let Some(c) = link_at(t1, start, i) {
            lemma_same_lookup_parent(t1, t2, c);
        }
        if repeats_at(t1, start, i) {
            let j = choose|j: nat| j < i && #[trigger] link_at(t1, start, j) == link_at(t1, start, i);
            assert(link_at(t2, start, j) == link_at(t2, start, i));
            assert forall|a: nat, b: nat| a < b < i implies #[trigger] link_at(t2, start, a) != #[trigger] link_at(
                t2,
                start,
                b,
            ) by {
                assert(link_at(t1, start, a) != link_at(t1, start, b));
            }
        }
        if repeats_at(t2, start, i) {
            let j = choose|j: nat| j < i && #[trigger] link_at(t2, start, j) == link_at(t2, start, i);
            assert(link_at(t1, start, j) == link_at(t1, start, i));
            assert forall|a: nat, b: nat| a < b < i implies #[trigger] link_at(t1, start, a) != #[trigger] link_at(
                t1,
                start,
                b,
            ) by {
                assert(link_at(t2, start, a) != link_at(t2, start, b));
            }
        }
    }
    if exists|i: nat| #[trigger] repeats_at(t1, start, i) {
        let m1 = choose|i: nat| #[trigger] repeats_at(t1, start, i);
        let m2 = choose|i: nat| #[trigger] repeats_at(t2, start, i);
        assert(repeats_at(t1, start, m2));
        lemma_repeat_unique(t1, start, m1, m2);
        assert(link_at(t1, start, m1) == link_at(t2, start, m1));
    } else {
        assert(!exists|i: nat| #[trigger] repeats_at(t2, start, i)) by {
            if exists|i: nat| #[trigger] repeats_at(t2, start, i) {
                let i = choose|i: nat| #[trigger] repeats_at(t2, start, i);
                assert(repeats_at(t1, start, i));
            }
        }
    }
}

proof fn lemma_same_first_cycle<D: HasParent>(t1: NameTable<D>, t2: NameTable<D>, k: int)
    requires
        same_parents(t1, t2),
    ensures
        first_cycle(t1, k) == first_cycle(t2, k),
        dangling_parent(t1, k) == dangling_parent(t2, k),
    decreases t1.spec_len() - k,
{
    if 0 <= k < t1.spec_len() {
        lemma_same_first_cycle(t1, t2, k + 1);
        lemma_same_cycle_from(t1, t2, t1.names()[k]);
        assert(t1.values()[k].parent_name() == t2.values()[k].parent_name());
    }
}

proof fn lemma_same_edge_references(t1: NameTable<EdgeTypeDef>, t2: NameTable<EdgeTypeDef>, k: int)
    requires
        same_parents(t1, t2),
        forall|i: int|
            0 <= i < t1.spec_len() ==> (#[trigger] t1.values()[i]).inverse_name() == t2.values()[i].inverse_name(),
    ensures
        dangling_edge_reference(t1, k) == dangling_edge_reference(t2, k),
    decreases t1.spec_len() - k,
{
    if 0 <= k < t1.spec_len() {
        lemma_same_edge_references(t1, t2, k + 1);
        assert(t1.values()[k].parent_name() == t2.values()[k].parent_name());
        assert(t1.values()[k].inverse_name() == t2.values()[k].inverse_name());
    }
}

impl Clone for OntologyMeta {
    fn clone(&self) -> (r: Self)
        ensures
            r == *self,
    {
        OntologyMeta { version: self.version, label: self.label.clone(), namespace: copy_text(&self.namespace) }
    }
}

impl Clone for PropertyDef {
    fn clone(&self) -> (r: Self)
        ensures
            r.prop_type == self.prop_type,
            r.enum_values@ == self.enum_values@,
            r.description == self.description,
            r.required == self.required,
            r.default == self.default,
    {
        PropertyDef {
            prop_type: self.prop_type.clone(),
            enum_values: copy_strings(&self.enum_values),
            description: copy_text(&self.description),
            required: self.required,
            default: match &self.default {
                Some(v) => Some(v.clone()),
                None => None,
            },
        }
    }
}

impl Clone for NodeTypeDef {
    fn clone(&self) -> (r: Self)
        ensures
            r.parent == self.parent,
            r.label == self.label,
            r.description == self.description,
            r.properties.names() == self.properties.names(),
            r.properties.values().len() == self.properties.values().len(),
            forall|i: int|
                0 <= i < self.properties.values().len() ==> cloned::<PropertyDef>(
                    self.properties.values()[i],
                    #[trigger] r.properties.values()[i],
                ),
    {
        NodeTypeDef {
            parent: copy_text(&self.parent),
            label: self.label.clone(),
            description: self.description.clone(),
            properties: self.properties.clone(),
        }
    }
}

impl Clone for EdgeTypeDef {
    fn clone(&self) -> (r: Self)
        ensures
            r.parent == self.parent,
            r.label == self.label,
            r.description == self.description,
            r.inverse == self.inverse,
            r.properties.names() == self.properties.names(),
            r.properties.values().len() == self.properties.values().len(),
            forall|i: int|
                0 <= i < self.properties.values().len() ==> cloned::<PropertyDef>(
                    self.properties.values()[i],
                    #[trigger] r.properties.values()[i],
                ),
            r.source_types@ == self.source_types@,
            r.target_types@ == self.target_types@,
    {
        EdgeTypeDef {
            parent: copy_text(&self.parent),
            label: self.label.clone(),
            description: self.description.clone(),
            inverse: copy_text(&self.inverse),
            properties: self.properties.clone(),
            source_types: copy_strings(&self.source_types),
            target_types: copy_strings(&self.target_types),
        }
    }
}

impl Clone for Ontology {
    /// A copy with the same metadata and the same type names, each
    /// definition a clone of the definition copied; it is well formed when
    /// the ontology copied is.
    fn clone(&self) -> (r: Self)
        ensures
            r.meta == self.meta,
            r.node_types.names() == self.node_types.names(),
            r.node_types.values().len() == self.node_types.values().len(),
            forall|i: int|
                0 <= i < self.node_types.values().len() ==> cloned::<NodeTypeDef>(
                    self.node_types.values()[i],
                    #[trigger] r.node_types.values()[i],
                ),
            r.edge_types.names() == self.edge_types.names(),
            r.edge_types.values().len() == self.edge_types.values().len(),
            forall|i: int|
                0 <= i < self.edge_types.values().len() ==> cloned::<EdgeTypeDef>(
                    self.edge_types.values()[i],
                    #[trigger] r.edge_types.values()[i],
                ),
            r.wf() == self.wf(),
            self.wf() ==> r.validation_issue() == self.validation_issue(),
            self.wf() ==> forall|ty: Seq<char>, ancestor: Seq<char>|
                #[trigger] r.subtype_of(ty, ancestor) == self.subtype_of(ty, ancestor),
            self.wf() ==> forall|t: Seq<char>|
                #[trigger] r.edge_types.lookup(t) is Some ==> {
                    &&& self.edge_types.lookup(t) is Some
                    &&& r.edge_types.lookup(t)->0.source_types@ == self.edge_types.lookup(t)->0.source_types@
                    &&& r.edge_types.lookup(t)->0.target_types@ == self.edge_types.lookup(t)->0.target_types@
                },
    {
        let r = Ontology {
            meta: self.meta.clone(),
            node_types: self.node_types.clone(),
            edge_types: self.edge_types.clone(),
        };
        proof {
            self.node_types.lemma_lengths();
            self.edge_types.lemma_lengths();
            r.node_types.lemma_lengths();
            r.edge_types.lemma_lengths();
            if self.wf() {
                assert(same_parents(self.node_types, r.node_types)) by {
                    assert forall|i: int| 0 <= i < self.node_types.spec_len() implies
                        (#[trigger] self.node_types.values()[i]).parent_name() == r.node_types.values()[i].parent_name() by {
                        assert(cloned::<NodeTypeDef>(self.node_types.values()[i], r.node_types.values()[i]));
                    }
                }
                assert(same_parents(self.edge_types, r.edge_types)) by {
                    assert forall|i: int| 0 <= i < self.edge_types.spec_len() implies
                        (#[trigger] self.edge_types.values()[i]).parent_name() == r.edge_types.values()[i].parent_name() by {
                        assert(cloned::<EdgeTypeDef>(self.edge_types.values()[i], r.edge_types.values()[i]));
                    }
                }
                assert forall|i: int| 0 <= i < self.edge_types.spec_len() implies
                    (#[trigger] self.edge_types.values()[i]).inverse_name() == r.edge_types.values()[i].inverse_name() by {
                    assert(cloned::<EdgeTypeDef>(self.edge_types.values()[i], r.edge_types.values()[i]));
                }
                lemma_same_first_cycle(self.node_types, r.node_types, 0);
                lemma_same_first_cycle(self.edge_types, r.edge_types, 0);
                lemma_same_edge_references(self.edge_types, r.edge_types, 0);
                assert forall|c: Seq<char>| #[trigger] r.parent_of(c) == self.parent_of(c) by {
                    lemma_same_lookup_parent(self.node_types, r.node_types, c);
                    lemma_same_lookup_parent(self.edge_types, r.edge_types, c);
                }
                assert forall|t: Seq<char>| #[trigger] r.edge_types.lookup(t) is Some implies {
                    &&& self.edge_types.lookup(t) is Some
                    &&& r.edge_types.lookup(t)->0.source_types@ == self.edge_types.lookup(t)->0.source_types@
                    &&& r.edge_types.lookup(t)->0.target_types@ == self.edge_types.lookup(t)->0.target_types@
                } by {
                    let i = choose|i: int| 0 <= i < r.edge_types.names().len() && r.edge_types.names()[i] == t;
                    r.edge_types.lemma_entry(i);
                    self.edge_types.lemma_entry(i);
                    assert(cloned::<EdgeTypeDef>(self.edge_types.values()[i], r.edge_types.values()[i]));
                }
                assert forall|ty: Seq<char>, ancestor: Seq<char>|
                    #[trigger] r.subtype_of(ty, ancestor) == self.subtype_of(ty, ancestor) by {
                    r.lemma_subtype_reach(ty, ancestor);
                    self.lemma_subtype_reach(ty, ancestor);
                    if exists|k: nat| #[trigger] self.ancestor_at(ty, k) == Some(ancestor) {
                        let k = choose|k: nat| #[trigger] self.ancestor_at(ty, k) == Some(ancestor);
                        r.lemma_same_ancestors(*self, ty, k);
                    }
                    if exists|k: nat| #[trigger] r.ancestor_at(ty, k) == Some(ancestor) {
                        let k = choose|k: nat| #[trigger] r.ancestor_at(ty, k) == Some(ancestor);
                        r.lemma_same_ancestors(*self, ty, k);
                    }
                }
            }
        }
        r
    }
}

impl Default for Ontology {
    fn default() -> (o: Self)
        ensures
            o.wf(),
            o.meta.version == 0,
            o.meta.label@ == Seq::<char>::empty(),
            o.meta.namespace is None,
            o.node_types.spec_len() == 0,
            o.edge_types.spec_len() == 0,
    {
        Ontology { meta: OntologyMeta::default(), node_types: NameTable::new(), edge_types: NameTable::new() }
    }
}

impl Ontology {
    /// Both tables are well formed.
    pub open spec fn wf(&self) -> bool {
        self.node_types.wf() && self.edge_types.wf()
    }

    /// One step up the hierarchy from `name`, as subtype queries take it.
    /// The two hierarchies are consulted independently: a node type named
    /// `name` gives its parent, or none; only a name that is no node type
    /// is looked up among edge types.
    pub open spec fn parent_of(&self, name: Seq<char>) -> Option<Seq<char>> {
        match self.node_types.lookup(name) {
            Some(d) => d.parent_name(),
            None => parent_in(self.edge_types, name),
        }
    }

    /// The type `i` steps up the hierarchy from `ty`.
    pub open spec fn ancestor_at(&self, ty: Seq<char>, i: nat) -> Option<Seq<char>>
        decreases i,
    {
        if i == 0 {
            Some(ty)
        } else {
            match self.ancestor_at(ty, (i - 1) as nat) {
                Some(c) => self.parent_of(c),
                None => None,
            }
        }
    }

    /// The first `k` types up the hierarchy from `ty` are all different.
    pub open spec fn chain_distinct(&self, ty: Seq<char>, k: nat) -> bool {
        forall|i: nat, j: nat|
            i < j < k ==> #[trigger] self.ancestor_at(ty, i) != #[trigger] self.ancestor_at(ty, j)
    }

    /// `ty` is `ancestor`, or walking up the hierarchy from `ty` reaches
    /// `ancestor` before any type repeats.
    pub open spec fn subtype_of(&self, ty: Seq<char>, ancestor: Seq<char>) -> bool {
        ty == ancestor || exists|k: nat|
            k >= 1 && #[trigger] self.ancestor_at(ty, k) == Some(ancestor) && self.chain_distinct(ty, k)
    }

    proof fn lemma_same_ancestors(&self, other: Ontology, ty: Seq<char>, i: nat)
        requires
            forall|c: Seq<char>| #[trigger] self.parent_of(c) == other.parent_of(c),
        ensures
            self.ancestor_at(ty, i) == other.ancestor_at(ty, i),
        decreases i,
    {
        if i > 0 {
            self.lemma_same_ancestors(other, ty, (i - 1) as nat);
        }
    }

    pub(crate) proof fn lemma_chain_ends(&self, ty: Seq<char>, i: nat, k: nat)
        requires
            i <= k,
            self.ancestor_at(ty, i) is None,
        ensures
            self.ancestor_at(ty, k) is None,
        decreases k - i,
    {
        if i < k {
            self.lemma_chain_ends(ty, i, (k - 1) as nat);
        }
    }

    /// What validation reports: the first node type, in name order, whose
    /// parent is not a node type; else the first edge type whose parent or
    /// inverse is not an edge type; else a parent cycle among node types,
    /// then among edge types; else nothing.
    pub open spec fn validation_issue(&self) -> Option<OntologyIssue> {
        match dangling_parent(self.node_types, 0) {
            Some(e) => Some(e),
            None => match dangling_edge_reference(self.edge_types, 0) {
                Some(e) => Some(e),
                None => match first_cycle(self.node_types, 0) {
                    Some(c) => Some(OntologyIssue::ParentCycle(c)),
                    None => match first_cycle(self.edge_types, 0) {
                        Some(c) => Some(OntologyIssue::ParentCycle(c)),
                        None => None,
                    },
                },
            },
        }
    }

    /// Check the ontology for structural soundness.
    ///
    /// Verifies that every `parent` reference names an existing type of the
    /// same kind, that every edge `inverse` names an existing edge type, and
    /// that no parent chain forms a cycle.
    pub fn validate(&self) -> (r: Result<(), OntologyError>)
        requires
            self.wf(),
        ensures
            match r {
                Ok(()) => self.validation_issue() is None,
                Err(e) => self.validation_issue() == Some(e@),
            },
    {
        let n = self.node_types.len();
        let mut k: usize = 0;
        while k < n
            invariant
                self.wf(),
                n == self.node_types.spec_len(),
                k <= n,
                dangling_parent(self.node_types, 0) == dangling_parent(self.node_types, k as int),
            decreases n - k,
        {
            let (name, def) = self.node_types.entry(k);
            match def.parent_ref() {
                Some(parent) => {
                    if !self.node_types.contains_key(parent.as_str()) {
                        return Err(OntologyError::UnknownParent { child: name.clone(), parent: parent.clone() });
                    }
                },
                None => {},
            }
            k = k + 1;
        }
        let n = self.edge_types.len();
        let mut k: usize = 0;
        while k < n
            invariant
                self.wf(),
                n == self.edge_types.spec_len(),
                k <= n,
                dangling_parent(self.node_types, 0) is None,
                dangling_edge_reference(self.edge_types, 0) == dangling_edge_reference(self.edge_types, k as int),
            decreases n - k,
        {
            let (name, def) = self.edge_types.entry(k);
            match def.parent_ref() {
                Some(parent) => {
                    if !self.edge_types.contains_key(parent.as_str()) {
                        return Err(OntologyError::UnknownParent { child: name.clone(), parent: parent.clone() });
                    }
                },
                None => {},
            }
            match &def.inverse {
                Some(inverse) => {
                    if !self.edge_types.contains_key(inverse.as_str()) {
                        return Err(OntologyError::UnknownInverse { edge_type: name.clone(), inverse: inverse.clone() });
                    }
                },
                None => {},
            }
            k = k + 1;
        }
        match check_cycles(&self.node_types) {
            Err(e) => {
                return Err(e);
            },
            Ok(()) => {},
        }
        check_cycles(&self.edge_types)
    }


    /// Walking `k` steps up to `b`, then `m` more, is walking `m` steps up from `b`.
    pub proof fn lemma_ancestor_shift(&self, ty: Seq<char>, b: Seq<char>, k: nat, m: nat)
        requires
            self.ancestor_at(ty, k) == Some(b),
        ensures
            self.ancestor_at(ty, k + m) == self.ancestor_at(b, m),
        decreases m,
    {
        if m > 0 {
            self.lemma_ancestor_shift(ty, b, k, (m - 1) as nat);
            assert((k + m - 1) as nat == k + (m - 1) as nat);
        }
    }

    /// A type reached at step `k` is first reached at some step `t <= k`
    /// before which no type repeats.
    proof fn lemma_first_reach(&self, ty: Seq<char>, x: Seq<char>, k: nat) -> (t: nat)
        requires
            self.ancestor_at(ty, k) == Some(x),
        ensures
            t <= k,
            self.ancestor_at(ty, t) == Some(x),
            forall|u: nat| u < t ==> #[trigger] self.ancestor_at(ty, u) != Some(x),
            self.chain_distinct(ty, t),
        decreases k,
    {
        let t = if exists|u: nat| u < k && #[trigger] self.ancestor_at(ty, u) == Some(x) {
            let u = choose|u: nat| u < k && #[trigger] self.ancestor_at(ty, u) == Some(x);
            self.lemma_first_reach(ty, x, u)
        } else {
            k
        };
        assert forall|i: nat, j: nat| i < j < t implies #[trigger] self.ancestor_at(ty, i) != #[trigger] self.ancestor_at(
            ty,
            j,
        ) by {
            if self.ancestor_at(ty, i) == self.ancestor_at(ty, j) {
                let d = (t - j) as nat;
                match self.ancestor_at(ty, i) {
                    Some(c) => {
                        self.lemma_ancestor_shift(ty, c, i, d);
                        self.lemma_ancestor_shift(ty, c, j, d);
                        assert(j + d == t);
                        assert(self.ancestor_at(ty, i + d) == Some(x));
                    },
                    None => {
                        self.lemma_chain_ends(ty, j, t);
                    },
                }
            }
        }
        t
    }

    /// `ty` is a subtype of `ancestor` exactly when walking up from `ty`
    /// reaches `ancestor`, whether or not a type repeats on the way.
    pub proof fn lemma_subtype_reach(&self, ty: Seq<char>, ancestor: Seq<char>)
        ensures
            self.subtype_of(ty, ancestor) <==> exists|k: nat| #[trigger] self.ancestor_at(ty, k) == Some(ancestor),
    {
        if exists|k: nat| #[trigger] self.ancestor_at(ty, k) == Some(ancestor) {
            let k = choose|k: nat| #[trigger] self.ancestor_at(ty, k) == Some(ancestor);
            let t = self.lemma_first_reach(ty, ancestor, k);
            if t == 0 {
                assert(ty == ancestor);
            }
        }
        if self.subtype_of(ty, ancestor) {
            if ty == ancestor {
                assert(self.ancestor_at(ty, 0) == Some(ancestor));
            }
        }
    }

    /// Create an empty ontology with the given label at version 1.
    pub fn new(label: &str) -> (o: Self)
        ensures
            o.wf(),
            o.meta.version == 1,
            o.meta.label@ == label@,
            o.meta.namespace is None,
            o.node_types.spec_len() == 0,
            o.edge_types.spec_len() == 0,
    {
        Ontology {
            meta: OntologyMeta { version: 1, label: label.to_owned(), namespace: None },
            node_types: NameTable::new(),
            edge_types: NameTable::new(),
        }
    }

    /// Define (or replace) a node type.
    pub fn with_node_type(self, name: &str, def: NodeTypeDef) -> (o: Self)
        requires
            self.wf(),
        ensures
            o.wf(),
            o.node_types.lookup(name@) == Some(def),
            forall|k: Seq<char>| k != name@ ==> #[trigger] o.node_types.lookup(k) == self.node_types.lookup(k),
            o.edge_types == self.edge_types,
            o.meta == self.meta,
    {
        let mut o = self;
        o.node_types.insert(name.to_owned(), def);
        o
    }

    /// Define (or replace) an edge type.
    pub fn with_edge_type(self, name: &str, def: EdgeTypeDef) -> (o: Self)
        requires
            self.wf(),
        ensures
            o.wf(),
            o.edge_types.lookup(name@) == Some(def),
            forall|k: Seq<char>| k != name@ ==> #[trigger] o.edge_types.lookup(k) == self.edge_types.lookup(k),
            o.node_types == self.node_types,
            o.meta == self.meta,
    {
        let mut o = self;
        o.edge_types.insert(name.to_owned(), def);
        o
    }

    fn parent_step(&self, name: &str) -> (r: Option<&String>)
        requires
            self.wf(),
        ensures
            match r {
                Some(p) => self.parent_of(name@) == Some(p@),
                None => self.parent_of(name@) is None,
            },
    {
        match self.node_types.get(name) {
            Some(d) => d.parent_ref(),
            None => match self.edge_types.get(name) {
                Some(d) => d.parent_ref(),
                None => None,
            },
        }
    }

    /// True if `ty` is `ancestor` or a (transitive) subtype of it.
    ///
    /// Node type and edge type hierarchies are consulted independently;
    /// a name is looked up first among node types, then among edge types.
    /// Unknown types are only subtypes of themselves.
    pub fn is_subtype_of(&self, ty: &str, ancestor: &str) -> (b: bool)
        requires
            self.wf(),
        ensures
            b == self.subtype_of(ty@, ancestor@),
    {
        if names_equal(ty, ancestor) {
            return true;
        }
        let mut seen: NameTable<()> = NameTable::new();
        let mut current: &str = ty;
        let ghost mut i: nat = 0;
        loop
            invariant
                self.wf(),
                seen.wf(),
                ty@ != ancestor@,
                self.ancestor_at(ty@, i) == Some(current@),
                forall|j: nat| j <= i ==> #[trigger] self.ancestor_at(ty@, j) is Some,
                forall|j: nat| j < i ==> seen.names().contains(#[trigger] self.ancestor_at(ty@, j)->0),
                forall|x: Seq<char>|
                    #[trigger] seen.names().contains(x) ==> exists|j: nat|
                        j < i && #[trigger] self.ancestor_at(ty@, j) == Some(x),
                forall|x: Seq<char>|
                    #[trigger] seen.names().contains(x) ==> self.node_types.names().contains(x)
                        || self.edge_types.names().contains(x),
                self.chain_distinct(ty@, i),
                forall|j: nat| 1 <= j <= i ==> #[trigger] self.ancestor_at(ty@, j) != Some(ancestor@),
            decreases self.node_types.spec_len() + self.edge_types.spec_len() - seen.spec_len(),
        {
            if seen.contains_key(current) {
                proof {
                    let j = choose|j: nat| j < i && #[trigger] self.ancestor_at(ty@, j) == Some(current@);
                    assert(!self.subtype_of(ty@, ancestor@)) by {
                        if exists|k: nat|
                            k >= 1 && #[trigger] self.ancestor_at(ty@, k) == Some(ancestor@)
                                && self.chain_distinct(ty@, k) {
                            let k = choose|k: nat|
                                k >= 1 && #[trigger] self.ancestor_at(ty@, k) == Some(ancestor@)
                                    && self.chain_distinct(ty@, k);
                            if k > i {
                                assert(self.ancestor_at(ty@, j) == self.ancestor_at(ty@, i));
                            }
                        }
                    }
                }
                return false;
            }
            let ghost old_seen = seen;
            seen.insert(current.to_owned(), ());
            match self.parent_step(current) {
                Some(p) => {
                    assert(self.ancestor_at(ty@, i + 1) == Some(p@));
                    proof {
                        assert forall|a: nat, b: nat| a < b < i + 1 implies #[trigger] self.ancestor_at(ty@, a)
                            != #[trigger] self.ancestor_at(ty@, b) by {
                            if b == i {
                                assert(old_seen.names().contains(self.ancestor_at(ty@, a)->0));
                            }
                        }
                    }
                    if names_equal(p.as_str(), ancestor) {
                        assert(self.chain_distinct(ty@, i + 1));
                        assert(self.subtype_of(ty@, ancestor@));
                        return true;
                    }
                    proof {
                        assert forall|j: nat| j < i + 1 implies seen.names().contains(
                            #[trigger] self.ancestor_at(ty@, j)->0,
                        ) by {
                            assert(seen.names().to_set().contains(self.ancestor_at(ty@, j)->0));
                        }
                        assert forall|x: Seq<char>| #[trigger] seen.names().contains(x) implies exists|j: nat|
                            j < i + 1 && #[trigger] self.ancestor_at(ty@, j) == Some(x) by {
                            assert(seen.names().to_set().contains(x));
                            if x != current@ {
                                assert(old_seen.names().to_set().contains(x));
                                assert(old_seen.names().contains(x));
                            } else {
                                assert(self.ancestor_at(ty@, i) == Some(x));
                            }
                        }
                        assert forall|x: Seq<char>| #[trigger] seen.names().contains(x) implies self.node_types.names().contains(x)
                            || self.edge_types.names().contains(x) by {
                            assert(seen.names().to_set().contains(x));
                            if x != current@ {
                                assert(old_seen.names().to_set().contains(x));
                            } else {
                                if self.node_types.lookup(x) is Some {
                                    assert(self.node_types.names().contains(x));
                                } else {
                                    assert(self.edge_types.names().contains(x));
                                }
                            }
                        }
                        lemma_seen_bound(seen, self.node_types.names(), self.edge_types.names());
                    }
                    current = p.as_str();
                    proof {
                        i = i + 1;
                    }
                },
                None => {
                    proof {
                        assert(self.ancestor_at(ty@, i + 1) is None);
                        assert(!self.subtype_of(ty@, ancestor@)) by {
                            if exists|k: nat|
                                k >= 1 && #[trigger] self.ancestor_at(ty@, k) == Some(ancestor@)
                                    && self.chain_distinct(ty@, k) {
                                let k = choose|k: nat|
                                    k >= 1 && #[trigger] self.ancestor_at(ty@, k) == Some(ancestor@)
                                        && self.chain_distinct(ty@, k);
                                if k > i {
                                    self.lemma_chain_ends(ty@, i + 1, k);
                                }
                            }
                        }
                    }
                    return false;
                },
            }
        }
    }
}

/// A table of distinct names, each drawn from `a` or `b`, is no longer than
/// `a` and `b` together.
proof fn lemma_seen_bound(seen: NameTable<()>, a: Seq<Seq<char>>, b: Seq<Seq<char>>)
    requires
        seen.wf(),
        forall|x: Seq<char>| #[trigger] seen.names().contains(x) ==> a.contains(x) || b.contains(x),
    ensures
        seen.spec_len() <= a.len() + b.len(),
{
    broadcast use seq_to_set_is_finite;

    seen.lemma_names_distinct();
    seen.names().unique_seq_to_set();
    a.lemma_cardinality_of_set();
    b.lemma_cardinality_of_set();
    lemma_len_union(a.to_set(), b.to_set());
    assert(seen.names().to_set().subset_of(a.to_set().union(b.to_set())));
    lemma_len_subset(seen.names().to_set(), a.to_set().union(b.to_set()));
}

} // verus!
