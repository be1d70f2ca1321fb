//! The decisions the HTTP API makes about a request's content before anything reaches
//! the store: bounds from the configured limits, well-formed labels, properties,
//! provenance and embeddings, resolvable names, and the caller's rights.

use crate::app_config::{append_decimal, decimal, LimitsConfig};
use crate::authorization::{role_permits, AuthenticatedPrincipal, Operation};
use crate::hnsw::Distance;
use crate::id::{LabelId, NodeId, RelationId};
use crate::identity::{now_unix_seconds, NamespaceId};
use crate::ontology::{found_id, opt_label_raw, opt_relation_raw, string_views, StringTable, StringTableExt};
use crate::provenance::{blank, f32_bits_negative, f32_bits_unit_interval, is_blank, Provenance, ProvenanceView};
use crate::store::Store;
use crate::value::{f32_bits_finite, f32_bits_is_finite};
use crate::graph_maps::{node_entries, node_get, node_keys};
use vstd::prelude::*;
use vstd::string::StringSliceAdditionalSpecFns;
use vstd::string::StringExecFns;

verus! {

/// Longest label, in UTF-8 bytes.
pub const MAX_LABEL_BYTES: usize = 1024;

/// Most properties one request may carry.
pub const MAX_PROPERTIES: usize = 1024;

/// Most evidence items one provenance may carry.
pub const MAX_EVIDENCE: usize = 1024;

/// How many vector hits a search returns when the request names no count.
pub const DEFAULT_VECTOR_RESULTS: usize = 10;

/// The bit pattern of the `f32` value `1.0`.
pub const F32_ONE: u32 = 0x3f80_0000;

/// Why a request is refused.
#[derive(Clone, Copy, Debug, PartialEq, Eq, Structural)]
pub enum RequestError {
    EmptyLabel,
    LabelTooLong,
    TooManyProperties,
    EmptyPropertyKey,
    BlankProvenanceIdentity,
    ConfidenceOutOfRange,
    CostInvalid,
    TooMuchEvidence,
    EmptyEmbedding,
    EmbeddingTooLarge { limit: usize },
    EmbeddingNotFinite,
    EmbeddingDimensionMismatch { expected: usize, actual: usize },
    UnknownSourceNode { id: u64 },
    UnknownTargetNode { id: u64 },
    IngestNodesOverLimit { limit: usize },
    IngestEdgesOverLimit { limit: usize },
    EdgesWithoutNodes,
    DepthOverLimit { limit: usize },
    MinConfidenceNotFinite,
    UnknownRelation,
    EmptyQuery,
    QueryTooLarge { limit: usize },
    QueryNotFinite,
    UnknownMetric,
    QueryDimensionMismatch { expected: usize, actual: usize },
    UnknownLabel,
    ResultCountOutOfRange { limit: usize },
    EfOutOfRange { limit: usize },
    MissingNamespaceHeader,
    InvalidNamespaceHeader,
    NamespaceHeaderMismatch,
    Forbidden,
}

/// The text a request refused for `e` is answered with.
pub open spec fn refusal_message(e: RequestError) -> Seq<char> {
    match e {
        RequestError::EmptyLabel => "label must not be empty"@,
        RequestError::LabelTooLong => "label exceeds 1024 UTF-8 bytes"@,
        RequestError::TooManyProperties => "property count exceeds 1024"@,
        RequestError::EmptyPropertyKey => "property keys must not be empty"@,
        RequestError::BlankProvenanceIdentity => "provenance agent and model must not be empty"@,
        RequestError::ConfidenceOutOfRange => "confidence must be finite and between 0 and 1"@,
        RequestError::CostInvalid => "cost must be finite and non-negative"@,
        RequestError::TooMuchEvidence => "evidence item count exceeds 1024"@,
        RequestError::EmptyEmbedding => "embedding must not be empty"@,
        RequestError::EmbeddingTooLarge { limit } => "embedding dimension exceeds "@ + decimal(limit as nat),
        RequestError::EmbeddingNotFinite => "embedding values must be finite"@,
        RequestError::EmbeddingDimensionMismatch { expected, actual } => "embedding dimension "@ + decimal(
            actual as nat,
        ) + " does not match graph dimension "@ + decimal(expected as nat),
        RequestError::UnknownSourceNode { id } => "src node "@ + decimal(id as nat) + " not found"@,
        RequestError::UnknownTargetNode { id } => "dst node "@ + decimal(id as nat) + " not found"@,
        RequestError::IngestNodesOverLimit { limit } => "nodes exceeds configured limit "@ + decimal(limit as nat),
        RequestError::IngestEdgesOverLimit { limit } => "edges exceeds configured limit "@ + decimal(limit as nat),
        RequestError::EdgesWithoutNodes => "edges require at least one node"@,
        RequestError::DepthOverLimit { limit } => "depth exceeds configured limit "@ + decimal(limit as nat),
        RequestError::MinConfidenceNotFinite => "min_confidence must be finite"@,
        RequestError::UnknownRelation => "unknown relation"@,
        RequestError::EmptyQuery => "query embedding must not be empty"@,
        RequestError::QueryTooLarge { limit } => "query dimension exceeds configured limit "@ + decimal(limit as nat),
        RequestError::QueryNotFinite => "query embedding values must be finite"@,
        RequestError::UnknownMetric => "unknown metric (expected euclidean|cosine)"@,
        RequestError::QueryDimensionMismatch { expected, actual } => "query dimension "@ + decimal(actual as nat)
            + " does not match graph dimension "@ + decimal(expected as nat),
        RequestError::UnknownLabel => "unknown label"@,
        RequestError::ResultCountOutOfRange { limit } => "k must be between 1 and "@ + decimal(limit as nat),
        RequestError::EfOutOfRange { limit } => "ef must be between 1 and "@ + decimal(limit as nat),
        RequestError::MissingNamespaceHeader => "x-padagonia-namespace header is required"@,
        RequestError::InvalidNamespaceHeader => "x-padagonia-namespace header is invalid"@,
        RequestError::NamespaceHeaderMismatch => "namespace header does not match transaction namespace"@,
        RequestError::Forbidden => "credential is not authorized for this namespace or operation"@,
    }
}

/// The text a request refused for `e` is answered with, where `name` is the relation,
/// label or metric the request named: those three refusals quote it.
pub open spec fn named_refusal_message(e: RequestError, name: Seq<char>) -> Seq<char> {
    match e {
        RequestError::UnknownRelation => "unknown relation '"@ + name + "'"@,
        RequestError::UnknownLabel => "unknown label '"@ + name + "'"@,
        RequestError::UnknownMetric => "unknown metric '"@ + name + "' (expected euclidean|cosine)"@,
        _ => refusal_message(e),
    }
}

/// `prefix`, `middle`, then `suffix`.
fn text_around(prefix: &str, middle: &str, suffix: &str) -> (r: String)
    ensures
        r@ == prefix@ + middle@ + suffix@,
{
    let mut out = String::from_str(prefix);
    out.append(middle);
    out.append(suffix);
    out
}

/// `prefix` followed by `n` in decimal.
fn text_then_number(prefix: &str, n: u64) -> (r: String)
    ensures
        r@ == prefix@ + decimal(n as nat),
{
    let mut out = String::from_str(prefix);
    append_decimal(&mut out, n as u128);
    out
}

/// `prefix`, `n` in decimal, then `suffix`.
fn text_number_text(prefix: &str, n: u64, suffix: &str) -> (r: String)
    ensures
        r@ == prefix@ + decimal(n as nat) + suffix@,
{
    let mut out = text_then_number(prefix, n);
    out.append(suffix);
    out
}

impl RequestError {
    /// The text a request refused for this reason is answered with.
    pub fn message(&self) -> (r: String)
        ensures
            r@ == refusal_message(*self),
    {
        match *self {
            RequestError::EmptyLabel => String::from_str("label must not be empty"),
            RequestError::LabelTooLong => String::from_str("label exceeds 1024 UTF-8 bytes"),
            RequestError::TooManyProperties => String::from_str("property count exceeds 1024"),
            RequestError::EmptyPropertyKey => String::from_str("property keys must not be empty"),
            RequestError::BlankProvenanceIdentity => String::from_str("provenance agent and model must not be empty"),
            RequestError::ConfidenceOutOfRange => String::from_str("confidence must be finite and between 0 and 1"),
            RequestError::CostInvalid => String::from_str("cost must be finite and non-negative"),
            RequestError::TooMuchEvidence => String::from_str("evidence item count exceeds 1024"),
            RequestError::EmptyEmbedding => String::from_str("embedding must not be empty"),
            RequestError::EmbeddingTooLarge { limit } => text_then_number("embedding dimension exceeds ", limit as u64),
            RequestError::EmbeddingNotFinite => String::from_str("embedding values must be finite"),
            RequestError::EmbeddingDimensionMismatch { expected, actual } => {
                let mut out = text_number_text("embedding dimension ", actual as u64, " does not match graph dimension ");
                append_decimal(&mut out, expected as u128);
                out
            },
            RequestError::UnknownSourceNode { id } => text_number_text("src node ", id, " not found"),
            RequestError::UnknownTargetNode { id } => text_number_text("dst node ", id, " not found"),
            RequestError::IngestNodesOverLimit { limit } => text_then_number("nodes exceeds configured limit ", limit as u64),
            RequestError::IngestEdgesOverLimit { limit } => text_then_number("edges exceeds configured limit ", limit as u64),
            RequestError::EdgesWithoutNodes => String::from_str("edges require at least one node"),
            RequestError::DepthOverLimit { limit } => text_then_number("depth exceeds configured limit ", limit as u64),
            RequestError::MinConfidenceNotFinite => String::from_str("min_confidence must be finite"),
            RequestError::UnknownRelation => String::from_str("unknown relation"),
            RequestError::EmptyQuery => String::from_str("query embedding must not be empty"),
            RequestError::QueryTooLarge { limit } => text_then_number("query dimension exceeds configured limit ", limit as u64),
            RequestError::QueryNotFinite => String::from_str("query embedding values must be finite"),
            RequestError::UnknownMetric => String::from_str("unknown metric (expected euclidean|cosine)"),
            RequestError::QueryDimensionMismatch { expected, actual } => {
                let mut out = text_number_text("query dimension ", actual as u64, " does not match graph dimension ");
                append_decimal(&mut out, expected as u128);
                out
            },
            RequestError::UnknownLabel => String::from_str("unknown label"),
            RequestError::ResultCountOutOfRange { limit } => text_then_number("k must be between 1 and ", limit as u64),
            RequestError::EfOutOfRange { limit } => text_then_number("ef must be between 1 and ", limit as u64),
            RequestError::MissingNamespaceHeader => String::from_str("x-padagonia-namespace header is required"),
            RequestError::InvalidNamespaceHeader => String::from_str("x-padagonia-namespace header is invalid"),
            RequestError::NamespaceHeaderMismatch => String::from_str("namespace header does not match transaction namespace"),
            RequestError::Forbidden => String::from_str("credential is not authorized for this namespace or operation"),
        }
    }

    /// The text a request refused for this reason is answered with, quoting `name`, the
    /// relation, label or metric the request named, where the reason is that name.
    pub fn message_naming(&self, name: &str) -> (r: String)
        ensures
            r@ == named_refusal_message(*self, name@),
    {
        match *self {
            RequestError::UnknownRelation => text_around("unknown relation '", name, "'"),
            RequestError::UnknownLabel => text_around("unknown label '", name, "'"),
            RequestError::UnknownMetric => text_around("unknown metric '", name, "' (expected euclidean|cosine)"),
            _ => self.message(),
        }
    }

    /// The HTTP status a request refused for this reason is answered with: 403 when the
    /// caller lacks the right, 400 otherwise.
    pub fn status(&self) -> (r: u16)
        ensures
            r == (if *self == RequestError::Forbidden { 403u16 } else { 400u16 }),
    {
        match *self {
            RequestError::Forbidden => 403,
            _ => 400,
        }
    }
}

/// Compares two strings for equality.
pub fn str_equals(a: &str, b: &str) -> (r: bool)
    ensures
        r == (a@ == b@),
{
    let x = a.to_owned();
    let y = b.to_owned();
    x == y
}

/// A label is refused when it is blank, then when it is longer than `MAX_LABEL_BYTES`
/// bytes.
pub open spec fn label_verdict(label: Seq<char>, byte_len: nat) -> Result<(), RequestError> {
    if blank(label) {
        Err(RequestError::EmptyLabel)
    } else if byte_len > MAX_LABEL_BYTES {
        Err(RequestError::LabelTooLong)
    } else {
        Ok(())
    }
}

/// Checks the label of a node or an edge.
pub fn validate_label(label: &str) -> (r: Result<(), RequestError>)
    ensures
        r == label_verdict(label@, label.spec_bytes().len()),
{
    if is_blank(label) {
        return Err(RequestError::EmptyLabel);
    }
    if label.as_bytes().len() > MAX_LABEL_BYTES {
        return Err(RequestError::LabelTooLong);
    }
    Ok(())
}

/// Properties are refused when there are more than `MAX_PROPERTIES` of them, then when
/// any key is blank.
pub open spec fn properties_verdict(keys: Seq<Seq<char>>) -> Result<(), RequestError> {
    if keys.len() > MAX_PROPERTIES {
        Err(RequestError::TooManyProperties)
    } else if exists|i: int| 0 <= i < keys.len() && blank(#[trigger] keys[i]) {
        Err(RequestError::EmptyPropertyKey)
    } else {
        Ok(())
    }
}

/// Checks the property keys of a request.
pub fn validate_properties(keys: &Vec<String>) -> (r: Result<(), RequestError>)
    ensures
        r == properties_verdict(string_views(keys@)),
{
    if keys.len() > MAX_PROPERTIES {
        return Err(RequestError::TooManyProperties);
    }
    let ghost views = string_views(keys@);
    let mut i: usize = 0;
    while i < keys.len()
        invariant
            i <= keys@.len(),
            keys@.len() <= MAX_PROPERTIES,
            views == string_views(keys@),
            forall|j: int| 0 <= j < i ==> !blank(#[trigger] views[j]),
        decreases keys@.len() - i,
    {
        if is_blank(keys[i].as_str()) {
            proof {
                assert(views[i as int] == keys@[i as int]@);
                assert(blank(views[i as int]));
                assert(0 <= i < views.len());
                assert(keys@.len() <= MAX_PROPERTIES);
                assert(views.len() == keys@.len());
                assert(exists|j: int| 0 <= j < views.len() && blank(#[trigger] views[j]));
            }
            return Err(RequestError::EmptyPropertyKey);
        }
        proof {
            assert(views[i as int] == keys@[i as int]@);
        }
        i = i + 1;
    }
    Ok(())
}

/// Provenance as a request supplies it; the numbers are `f32` bit patterns.
#[derive(Debug)]
pub struct ProvenanceInput {
    pub agent: String,
    pub model: String,
    pub confidence: Option<u32>,
    pub cost: Option<u32>,
    pub evidence: Option<Vec<String>>,
}

/// A supplied confidence must be finite and within `0.0..=1.0`.
pub open spec fn confidence_ok(c: Option<u32>) -> bool {
    match c {
        Some(bits) => f32_bits_finite(bits) && f32_bits_unit_interval(bits),
        None => true,
    }
}

/// A traversal's confidence floor, when given, must be finite.
pub open spec fn min_confidence_ok(c: Option<u32>) -> bool {
    match c {
        Some(bits) => f32_bits_finite(bits),
        None => true,
    }
}

/// A supplied cost must be finite and not below zero.
pub open spec fn cost_ok(c: Option<u32>) -> bool {
    match c {
        Some(bits) => f32_bits_finite(bits) && !f32_bits_negative(bits),
        None => true,
    }
}

/// Supplied evidence may hold at most `MAX_EVIDENCE` items.
pub open spec fn evidence_ok(e: Option<Vec<String>>) -> bool {
    match e {
        Some(items) => items@.len() <= MAX_EVIDENCE,
        None => true,
    }
}

/// The verdict on supplied provenance: blank agent or model, then a bad confidence,
/// then a bad cost, then too much evidence.
pub open spec fn provenance_input_verdict(p: ProvenanceInput) -> Result<(), RequestError> {
    if blank(p.agent@) || blank(p.model@) {
        Err(RequestError::BlankProvenanceIdentity)
    } else if !confidence_ok(p.confidence) {
        Err(RequestError::ConfidenceOutOfRange)
    } else if !cost_ok(p.cost) {
        Err(RequestError::CostInvalid)
    } else if !evidence_ok(p.evidence) {
        Err(RequestError::TooMuchEvidence)
    } else {
        Ok(())
    }
}

/// Checks supplied provenance; a request without provenance passes.
pub fn validate_provenance(provenance: Option<&ProvenanceInput>) -> (r: Result<(), RequestError>)
    ensures
        r == (match provenance {
            Some(p) => provenance_input_verdict(*p),
            None => Ok(()),
        }),
{
    let p = match provenance {
        Some(p) => p,
        None => {
            return Ok(());
        },
    };
    if is_blank(p.agent.as_str()) || is_blank(p.model.as_str()) {
        return Err(RequestError::BlankProvenanceIdentity);
    }
    match p.confidence {
        Some(bits) => {
            if !f32_bits_is_finite(bits) || !(bits <= F32_ONE || bits == 0x8000_0000u32) {
                return Err(RequestError::ConfidenceOutOfRange);
            }
        },
        None => {},
    }
    match p.cost {
        Some(bits) => {
            if !f32_bits_is_finite(bits) || (bits > 0x8000_0000u32 && bits <= 0xff80_0000u32) {
                return Err(RequestError::CostInvalid);
            }
        },
        None => {},
    }
    match &p.evidence {
        Some(items) => {
            if items.len() > MAX_EVIDENCE {
                return Err(RequestError::TooMuchEvidence);
            }
        },
        None => {},
    }
    Ok(())
}

impl ProvenanceInput {
    /// The provenance this input stands for at time `timestamp`: a missing confidence is
    /// `1.0`, a missing cost `0.0`, missing evidence none.
    pub open spec fn provenance_at(self, timestamp: u64) -> ProvenanceView {
        ProvenanceView {
            agent: self.agent@,
            model: self.model@,
            confidence: match self.confidence {
                Some(c) => c,
                None => F32_ONE,
            },
            cost: match self.cost {
                Some(c) => c,
                None => 0,
            },
            timestamp,
            evidence: match self.evidence {
                Some(e) => string_views(e@),
                None => Seq::empty(),
            },
        }
    }

    /// Turns the input into provenance stamped with `timestamp`.
    pub fn into_provenance_at(self, timestamp: u64) -> (p: Provenance)
        ensures
            p@ == self.provenance_at(timestamp),
    {
        let ghost input = self;
        let evidence = match self.evidence {
            Some(e) => e,
            None => Vec::new(),
        };
        let p = Provenance {
            agent: self.agent,
            model: self.model,
            confidence: match self.confidence {
                Some(c) => c,
                None => F32_ONE,
            },
            cost: match self.cost {
                Some(c) => c,
                None => 0,
            },
            timestamp,
            evidence,
        };
        proof {
            assert(p@.evidence =~= input.provenance_at(timestamp).evidence);
        }
        p
    }

    /// Turns the input into provenance stamped with the current time by the system clock.
    pub fn into_provenance(self) -> (p: Provenance)
        ensures
            p@ == self.provenance_at(p.timestamp),
    {
        let now = now_unix_seconds();
        self.into_provenance_at(now)
    }
}

/// The provenance of a request that supplies none, at time `timestamp`: agent
/// `http-api`, model `unknown`, confidence `1.0`, cost `0.0`, no evidence.
pub fn default_provenance_at(timestamp: u64) -> (p: Provenance)
    ensures
        p.agent@ == "http-api"@,
        p.model@ == "unknown"@,
        p.confidence == F32_ONE,
        p.cost == 0,
        p.timestamp == timestamp,
        p.evidence@.len() == 0,
{
    Provenance {
        agent: "http-api".to_owned(),
        model: "unknown".to_owned(),
        confidence: F32_ONE,
        cost: 0,
        timestamp,
        evidence: Vec::new(),
    }
}

/// The provenance of a request that supplies none, stamped with the current time.
pub fn default_provenance() -> (p: Provenance)
    ensures
        p.agent@ == "http-api"@,
        p.model@ == "unknown"@,
        p.confidence == F32_ONE,
        p.cost == 0,
        p.evidence@.len() == 0,
{
    default_provenance_at(now_unix_seconds())
}

/// Whether every value is a finite `f32` bit pattern.
pub open spec fn all_finite(v: Seq<u32>) -> bool {
    forall|i: int| 0 <= i < v.len() ==> f32_bits_finite(#[trigger] v[i])
}

/// Whether every value is a finite `f32` bit pattern.
fn all_finite_exec(v: &[u32]) -> (r: bool)
    ensures
        r == all_finite(v@),
{
    let mut i: usize = 0;
    while i < v.len()
        invariant
            i <= v@.len(),
            forall|j: int| 0 <= j < i ==> f32_bits_finite(#[trigger] v@[j]),
        decreases v@.len() - i,
    {
        if !f32_bits_is_finite(v[i]) {
            return false;
        }
        i = i + 1;
    }
    true
}

/// An embedding is refused when empty, then when longer than `max_dimensions`, then
/// when any value is not finite.
pub open spec fn embedding_verdict(e: Seq<u32>, max_dimensions: usize) -> Result<(), RequestError> {
    if e.len() == 0 {
        Err(RequestError::EmptyEmbedding)
    } else if e.len() > max_dimensions {
        Err(RequestError::EmbeddingTooLarge { limit: max_dimensions })
    } else if !all_finite(e) {
        Err(RequestError::EmbeddingNotFinite)
    } else {
        Ok(())
    }
}

/// Checks a supplied embedding against the configured limits; none passes.
pub fn validate_embedding(embedding: Option<&[u32]>, limits: &LimitsConfig) -> (r: Result<(), RequestError>)
    ensures
        r == (match embedding {
            Some(e) => embedding_verdict(e@, limits.max_vector_dimensions),
            None => Ok(()),
        }),
{
    let e = match embedding {
        Some(e) => e,
        None => {
            return Ok(());
        },
    };
    if e.len() == 0 {
        return Err(RequestError::EmptyEmbedding);
    }
    if e.len() > limits.max_vector_dimensions {
        return Err(RequestError::EmbeddingTooLarge { limit: limits.max_vector_dimensions });
    }
    if !all_finite_exec(e) {
        return Err(RequestError::EmbeddingNotFinite);
    }
    Ok(())
}

/// Whether some node of the store carries an embedding of `dimension` values.
pub open spec fn has_embedding_of(nodes: Map<u64, crate::node::NodeView>, dimension: nat) -> bool {
    exists|k: u64| #[trigger] nodes.contains_key(k) && embedding_len_is(nodes[k].embedding, dimension)
}

/// Whether an optional embedding is present with `dimension` values.
pub open spec fn embedding_len_is(e: Option<Seq<u32>>, dimension: nat) -> bool {
    match e {
        Some(v) => v.len() == dimension,
        None => false,
    }
}

/// Whether no node of the store carries an embedding.
pub open spec fn no_embeddings(nodes: Map<u64, crate::node::NodeView>) -> bool {
    forall|k: u64| #[trigger] nodes.contains_key(k) ==> nodes[k].embedding is None
}

/// The dimension of the store's embeddings, read off the first node that carries one
/// in the node map's own order; `None` when no node carries one. In a valid store every
/// embedding has this dimension.
pub fn expected_embedding_dimension(store: &Store) -> (r: Option<usize>)
    requires
        store.wf(),
    ensures
        r is None <==> no_embeddings(store@.nodes),
        r matches Some(d) ==> has_embedding_of(store@.nodes, d as nat),
{
    proof {
        store.lemma_view_fields();
    }
    let keys = node_keys(&store.nodes);
    let mut i: usize = 0;
    while i < keys.len()
        invariant
            i <= keys@.len(),
            store@.nodes == node_entries(store.nodes),
            forall|j: int| 0 <= j < keys@.len() ==> node_entries(store.nodes).contains_key(#[trigger] keys@[j].0),
            forall|k: u64| node_entries(store.nodes).contains_key(k) ==> exists|j: int| 0 <= j < keys@.len() && #[trigger] keys@[j].0 == k,
            forall|j: int| 0 <= j < i ==> (#[trigger] node_entries(store.nodes)[keys@[j].0]).embedding is None,
        decreases keys@.len() - i,
    {
        let k = keys[i];
        match node_get(&store.nodes, &k) {
            Some(node) => {
                match &node.embedding {
                    Some(e) => {
                        let d = e.len();
                        proof {
                            assert(store@.nodes.contains_key(k.0));
                        }
                        return Some(d);
                    },
                    None => {},
                }
            },
            None => {},
        }
        i = i + 1;
    }
    proof {
        assert forall|k: u64| #[trigger] store@.nodes.contains_key(k) implies store@.nodes[k].embedding is None by {
            let j = choose|j: int| 0 <= j < keys@.len() && #[trigger] keys@[j].0 == k;
            assert(node_entries(store.nodes)[keys@[j].0].embedding is None);
        }
    }
    None
}

/// Refuses a node embedding whose length differs from the store's dimension, when
/// both are known.
pub fn check_embedding_dimension(expected: Option<usize>, actual: Option<usize>) -> (r: Result<(), RequestError>)
    ensures
        r == (match (expected, actual) {
            (Some(e), Some(a)) => if e != a {
                Err(RequestError::EmbeddingDimensionMismatch { expected: e, actual: a })
            } else {
                Ok(())
            },
            _ => Ok(()),
        }),
{
    match (expected, actual) {
        (Some(e), Some(a)) => {
            if e != a {
                Err(RequestError::EmbeddingDimensionMismatch { expected: e, actual: a })
            } else {
                Ok(())
            }
        },
        _ => Ok(()),
    }
}

/// Refuses an edge whose source, then whose target, is not a node of the store.
pub fn check_edge_endpoints(store: &Store, src: u64, dst: u64) -> (r: Result<(), RequestError>)
    requires
        store.wf(),
    ensures
        r == (if !store@.nodes.contains_key(src) {
            Err(RequestError::UnknownSourceNode { id: src })
        } else if !store@.nodes.contains_key(dst) {
            Err(RequestError::UnknownTargetNode { id: dst })
        } else {
            Ok(())
        }),
{
    proof {
        store.lemma_view_fields();
    }
    if node_get(&store.nodes, &NodeId(src)).is_none() {
        return Err(RequestError::UnknownSourceNode { id: src });
    }
    if node_get(&store.nodes, &NodeId(dst)).is_none() {
        return Err(RequestError::UnknownTargetNode { id: dst });
    }
    Ok(())
}

/// The verdict on a request for a synthetic graph of `nodes` nodes and `edges` edges.
pub open spec fn ingest_verdict(nodes: usize, edges: usize, limits: LimitsConfig) -> Result<(), RequestError> {
    if nodes > limits.max_ingest_nodes {
        Err(RequestError::IngestNodesOverLimit { limit: limits.max_ingest_nodes })
    } else if edges > limits.max_ingest_edges {
        Err(RequestError::IngestEdgesOverLimit { limit: limits.max_ingest_edges })
    } else if nodes == 0 && edges != 0 {
        Err(RequestError::EdgesWithoutNodes)
    } else {
        Ok(())
    }
}

/// Checks a request for a synthetic graph against the configured limits.
pub fn check_ingest(nodes: usize, edges: usize, limits: &LimitsConfig) -> (r: Result<(), RequestError>)
    ensures
        r == ingest_verdict(nodes, edges, *limits),
{
    if nodes > limits.max_ingest_nodes {
        return Err(RequestError::IngestNodesOverLimit { limit: limits.max_ingest_nodes });
    }
    if edges > limits.max_ingest_edges {
        return Err(RequestError::IngestEdgesOverLimit { limit: limits.max_ingest_edges });
    }
    if nodes == 0 && edges != 0 {
        return Err(RequestError::EdgesWithoutNodes);
    }
    Ok(())
}

/// Checks a traversal request: the depth within the configured limit, a minimum
/// confidence (an `f32` bit pattern) that is finite (any finite floor is accepted: one
/// above every confidence simply prunes every edge), and a named relation that the
/// string table knows; gives back that relation's id.
pub fn check_bfs_request(
    table: &StringTable,
    depth: usize,
    relation: Option<&str>,
    min_confidence: Option<u32>,
    limits: &LimitsConfig,
) -> (r: Result<Option<RelationId>, RequestError>)
    requires
        table.wf(),
    ensures
        depth > limits.max_bfs_depth ==> r == Err::<Option<RelationId>, _>(
            RequestError::DepthOverLimit { limit: limits.max_bfs_depth },
        ),
        depth <= limits.max_bfs_depth && !min_confidence_ok(min_confidence) ==> r == Err::<Option<RelationId>, _>(
            RequestError::MinConfidenceNotFinite,
        ),
        depth <= limits.max_bfs_depth && min_confidence_ok(min_confidence) ==> match relation {
            None => r == Ok::<Option<RelationId>, RequestError>(None),
            Some(name) => if table@.contains(name@) {
                r matches Ok(Some(rel)) && found_id(table@, name@, Some(rel.0))
            } else {
                r == Err::<Option<RelationId>, _>(RequestError::UnknownRelation)
            },
        },
{
    if depth > limits.max_bfs_depth {
        return Err(RequestError::DepthOverLimit { limit: limits.max_bfs_depth });
    }
    match min_confidence {
        Some(bits) => {
            if !f32_bits_is_finite(bits) {
                return Err(RequestError::MinConfidenceNotFinite);
            }
        },
        None => {},
    }
    match relation {
        None => Ok(None),
        Some(name) => {
            let found = table.relation_id(name);
            proof {
                assert(found_id(table@, name@, opt_relation_raw(found)));
            }
            match found {
                Some(rel) => Ok(Some(rel)),
                None => Err(RequestError::UnknownRelation),
            }
        },
    }
}

/// The metric a request names: Euclidean when it names none.
pub open spec fn metric_verdict(metric: Option<Seq<char>>) -> Result<Distance, RequestError> {
    match metric {
        None => Ok(Distance::Euclidean),
        Some(m) => if m == "euclidean"@ {
            Ok(Distance::Euclidean)
        } else if m == "cosine"@ {
            Ok(Distance::Cosine)
        } else {
            Err(RequestError::UnknownMetric)
        },
    }
}

/// Reads the metric a request names: `euclidean` or `cosine`.
pub fn parse_metric(metric: Option<&str>) -> (r: Result<Distance, RequestError>)
    ensures
        r == metric_verdict(match metric {
            Some(m) => Some(m@),
            None => None,
        }),
{
    match metric {
        None => Ok(Distance::Euclidean),
        Some(m) => {
            if str_equals(m, "euclidean") {
                Ok(Distance::Euclidean)
            } else if str_equals(m, "cosine") {
                Ok(Distance::Cosine)
            } else {
                Err(RequestError::UnknownMetric)
            }
        },
    }
}

/// What a vector search is run with once its request has passed the checks.
#[derive(Clone, Copy, Debug, PartialEq, Eq, Structural)]
pub struct VectorSearchPlan {
    pub distance: Distance,
    pub label: Option<LabelId>,
    pub k: usize,
    pub ef: usize,
}

/// The verdict on a query vector: empty, longer than the limit, or not finite.
pub open spec fn query_verdict(query: Seq<u32>, max_dimensions: usize) -> Result<(), RequestError> {
    if query.len() == 0 {
        Err(RequestError::EmptyQuery)
    } else if query.len() > max_dimensions {
        Err(RequestError::QueryTooLarge { limit: max_dimensions })
    } else if !all_finite(query) {
        Err(RequestError::QueryNotFinite)
    } else {
        Ok(())
    }
}

/// The number of hits a request asks for, `DEFAULT_VECTOR_RESULTS` when it names none.
pub open spec fn requested_k(k: Option<usize>) -> usize {
    match k {
        Some(k) => k,
        None => DEFAULT_VECTOR_RESULTS,
    }
}

/// The search breadth a request asks for, the configured default when it names none.
pub open spec fn requested_ef(ef: Option<usize>, default_ef: usize) -> usize {
    match ef {
        Some(ef) => ef,
        None => default_ef,
    }
}

/// Checks a vector search request, in this order: the query vector, the metric, the
/// query's dimension against `expected_dimension` (the store's, when it has one), the
/// named label, the number of hits, and the search breadth.
pub fn check_vector_search(
    table: &StringTable,
    expected_dimension: Option<usize>,
    query: &[u32],
    k: Option<usize>,
    ef: Option<usize>,
    label: Option<&str>,
    metric: Option<&str>,
    limits: &LimitsConfig,
    default_ef: usize,
) -> (r: Result<VectorSearchPlan, RequestError>)
    requires
        table.wf(),
    ensures
        query_verdict(query@, limits.max_vector_dimensions) matches Err(e) ==> r == Err::<VectorSearchPlan, _>(e),
        query_verdict(query@, limits.max_vector_dimensions) is Ok ==> match metric_verdict(
            match metric {
                Some(m) => Some(m@),
                None => None,
            },
        ) {
            Err(e) => r == Err::<VectorSearchPlan, _>(e),
            Ok(distance) => if expected_dimension is Some && expected_dimension->0 != query@.len() {
                r == Err::<VectorSearchPlan, _>(
                    RequestError::QueryDimensionMismatch { expected: expected_dimension->0, actual: query@.len() as usize },
                )
            } else if label is Some && !table@.contains(label->0@) {
                r == Err::<VectorSearchPlan, _>(RequestError::UnknownLabel)
            } else if requested_k(k) == 0 || requested_k(k) > limits.max_vector_results {
                r == Err::<VectorSearchPlan, _>(RequestError::ResultCountOutOfRange { limit: limits.max_vector_results })
            } else if requested_ef(ef, default_ef) == 0 || requested_ef(ef, default_ef) > limits.max_vector_ef {
                r == Err::<VectorSearchPlan, _>(RequestError::EfOutOfRange { limit: limits.max_vector_ef })
            } else {
                r matches Ok(plan) && plan.distance == distance && plan.k == requested_k(k)
                    && plan.ef == requested_ef(ef, default_ef) && match label {
                    None => plan.label is None,
                    Some(name) => plan.label matches Some(l) && found_id(table@, name@, Some(l.0)),
                }
            },
        },
{
    if query.len() == 0 {
        return Err(RequestError::EmptyQuery);
    }
    if query.len() > limits.max_vector_dimensions {
        return Err(RequestError::QueryTooLarge { limit: limits.max_vector_dimensions });
    }
    if !all_finite_exec(query) {
        return Err(RequestError::QueryNotFinite);
    }
    let distance = match parse_metric(metric) {
        Ok(d) => d,
        Err(e) => {
            return Err(e);
        },
    };
    match expected_dimension {
        Some(d) => {
            if query.len() != d {
                return Err(RequestError::QueryDimensionMismatch { expected: d, actual: query.len() });
            }
        },
        None => {},
    }
    let label_id = match label {
        Some(name) => {
            let found = table.label_id(name);
            proof {
                assert(found_id(table@, name@, opt_label_raw(found)));
            }
            match found {
                Some(l) => Some(l),
                None => {
                    return Err(RequestError::UnknownLabel);
                },
            }
        },
        None => None,
    };
    let k = match k {
        Some(k) => k,
        None => DEFAULT_VECTOR_RESULTS,
    };
    if k == 0 || k > limits.max_vector_results {
        return Err(RequestError::ResultCountOutOfRange { limit: limits.max_vector_results });
    }
    let ef = match ef {
        Some(ef) => ef,
        None => default_ef,
    };
    if ef == 0 || ef > limits.max_vector_ef {
        return Err(RequestError::EfOutOfRange { limit: limits.max_vector_ef });
    }
    Ok(VectorSearchPlan { distance, label: label_id, k, ef })
}

/// The verdict on a batch of mutations: the namespace header must be present, readable
/// and the transaction's own namespace, and the caller must hold write rights in it.
pub open spec fn transaction_access_verdict(
    principal_namespace: Seq<char>,
    principal_role: crate::authorization::Role,
    header: Option<Result<Seq<char>, ()>>,
    namespace: Seq<char>,
) -> Result<(), RequestError> {
    match header {
        None => Err(RequestError::MissingNamespaceHeader),
        Some(Err(())) => Err(RequestError::InvalidNamespaceHeader),
        Some(Ok(h)) => if h != namespace {
            Err(RequestError::NamespaceHeaderMismatch)
        } else if principal_namespace != namespace || !role_permits(principal_role, Operation::Write) {
            Err(RequestError::Forbidden)
        } else {
            Ok(())
        },
    }
}

/// Checks that a batch of mutations may be committed by `principal`: `namespace_header`
/// is the namespace header as received (absent, or unreadable as text).
pub fn authorize_transaction(
    principal: &AuthenticatedPrincipal,
    namespace_header: Option<Result<&str, ()>>,
    namespace: &NamespaceId,
) -> (r: Result<(), RequestError>)
    ensures
        r == transaction_access_verdict(
            principal.namespace@,
            principal.role,
            match namespace_header {
                None => None,
                Some(Err(())) => Some(Err(())),
                Some(Ok(h)) => Some(Ok(h@)),
            },
            namespace@,
        ),
{
    let header = match namespace_header {
        None => {
            return Err(RequestError::MissingNamespaceHeader);
        },
        Some(Err(())) => {
            return Err(RequestError::InvalidNamespaceHeader);
        },
        Some(Ok(h)) => h,
    };
    if !str_equals(header, namespace.as_str()) {
        return Err(RequestError::NamespaceHeaderMismatch);
    }
    if principal.namespace != *namespace || !principal.role.permits(Operation::Write) {
        return Err(RequestError::Forbidden);
    }
    Ok(())
}

/// The external id given to a record created over HTTP without one:
/// `http-{kind}-{nanos}`, with `nanos` the creation time in nanoseconds since the epoch.
pub fn generated_external_id(kind: &str, nanos: u128) -> (r: String)
    ensures
        r@ == "http-"@ + kind@ + "-"@ + decimal(nanos as nat),
{
    let mut out = "http-".to_owned();
    out.append(kind);
    out.append("-");
    append_decimal(&mut out, nanos);
    out
}

/// The idempotency key of a single-node request that names none:
/// `create-node:{namespace}:{external id}`.
pub fn node_idempotency_key(namespace: &NamespaceId, external_id: &str) -> (r: String)
    ensures
        r@ == "create-node:"@ + namespace@ + ":"@ + external_id@,
{
    let mut out = "create-node:".to_owned();
    out.append(namespace.as_str());
    out.append(":");
    out.append(external_id);
    out
}

/// The idempotency key of a single-edge request that names none:
/// `create-edge:{namespace}:{external id}`.
pub fn edge_idempotency_key(namespace: &NamespaceId, external_id: &str) -> (r: String)
    ensures
        r@ == "create-edge:"@ + namespace@ + ":"@ + external_id@,
{
    let mut out = "create-edge:".to_owned();
    out.append(namespace.as_str());
    out.append(":");
    out.append(external_id);
    out
}

} // verus!
