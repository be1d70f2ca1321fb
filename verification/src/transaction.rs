//! Replayable mutation batches, and the bookkeeping of the journal that makes them
//! durable.

use crate::checksum::{compute_checksum, crc32};
use crate::edge::EdgeView;
use crate::fact::FactSubject;
use crate::id::{EdgeId, LabelId, NodeId, RelationId};
use crate::identity::{IdentityError, NamespaceId};
use crate::keyed::{KeyedMap, Keyed};
use crate::node::{embedding_view, NodeView};
use crate::provenance::{blank, is_blank, Provenance, ProvenanceView};
use crate::store::{
    endpoints_in_namespace, intern_all, new_edge_view, new_node_view, prop_names, push_under, string_index,
    Store, StoreView,
};
use crate::value::{clone_u32s, Scalar, ScalarView};
use crate::snapshot_laws::built_by_adding;
use vstd::prelude::*;

verus! {

/// Largest journal record payload accepted, in bytes.
pub const MAX_RECORD_BYTES: u64 = 67108864;

/// One change a transaction makes: a node or an edge to add.
#[derive(Debug)]
pub enum Mutation {
    AddNode {
        namespace: NamespaceId,
        external_id: String,
        label: String,
        properties: Vec<(String, Scalar)>,
        embedding: Option<Vec<u32>>,
        provenance: Provenance,
    },
    AddEdge {
        namespace: NamespaceId,
        external_id: String,
        src: NodeId,
        dst: NodeId,
        label: String,
        properties: Vec<(String, Scalar)>,
        embedding: Option<Vec<u32>>,
        provenance: Provenance,
    },
}

/// The abstract value of a `Mutation`.
pub enum MutationView {
    AddNode {
        namespace: Seq<char>,
        external_id: Seq<char>,
        label: Seq<char>,
        properties: Seq<(Seq<char>, ScalarView)>,
        embedding: Option<Seq<u32>>,
        provenance: ProvenanceView,
    },
    AddEdge {
        namespace: Seq<char>,
        external_id: Seq<char>,
        src: NodeId,
        dst: NodeId,
        label: Seq<char>,
        properties: Seq<(Seq<char>, ScalarView)>,
        embedding: Option<Seq<u32>>,
        provenance: ProvenanceView,
    },
}

/// A property list with owned names, viewed abstractly.
pub open spec fn owned_props_view(props: Seq<(String, Scalar)>) -> Seq<(Seq<char>, ScalarView)> {
    Seq::new(props.len(), |i: int| (props[i].0@, props[i].1@))
}

impl View for Mutation {
    type V = MutationView;

    open spec fn view(&self) -> MutationView {
        match self {
            Mutation::AddNode { namespace, external_id, label, properties, embedding, provenance } => MutationView::AddNode {
                namespace: namespace@,
                external_id: external_id@,
                label: label@,
                properties: owned_props_view(properties@),
                embedding: embedding_view(*embedding),
                provenance: provenance@,
            },
            Mutation::AddEdge { namespace, external_id, src, dst, label, properties, embedding, provenance } => MutationView::AddEdge {
                namespace: namespace@,
                external_id: external_id@,
                src: *src,
                dst: *dst,
                label: label@,
                properties: owned_props_view(properties@),
                embedding: embedding_view(*embedding),
                provenance: provenance@,
            },
        }
    }
}

/// The abstract values of a list of mutations.
pub open spec fn mutations_view(ms: Seq<Mutation>) -> Seq<MutationView> {
    ms.map_values(|m: Mutation| m@)
}

/// Copies a property list with owned names.
fn clone_owned_props(props: &Vec<(String, Scalar)>) -> (r: Vec<(String, Scalar)>)
    ensures
        owned_props_view(r@) == owned_props_view(props@),
{
    let mut out: Vec<(String, Scalar)> = Vec::new();
    let mut i: usize = 0;
    while i < props.len()
        invariant
            i <= props@.len(),
            out@.len() == i,
            forall|j: int| 0 <= j < i ==> #[trigger] out@[j].0@ == props@[j].0@ && out@[j].1@ == props@[j].1@,
        decreases props@.len() - i,
    {
        out.push((props[i].0.clone(), props[i].1.clone()));
        i = i + 1;
    }
    proof {
        assert(owned_props_view(out@) =~= owned_props_view(props@));
    }
    out
}

impl Clone for Mutation {
    fn clone(&self) -> (r: Self)
        ensures
            r@ == self@,
    {
        match self {
            Mutation::AddNode { namespace, external_id, label, properties, embedding, provenance } => Mutation::AddNode {
                namespace: namespace.clone(),
                external_id: external_id.clone(),
                label: label.clone(),
                properties: clone_owned_props(properties),
                embedding: crate::node::clone_embedding(embedding),
                provenance: provenance.clone(),
            },
            Mutation::AddEdge { namespace, external_id, src, dst, label, properties, embedding, provenance } => Mutation::AddEdge {
                namespace: namespace.clone(),
                external_id: external_id.clone(),
                src: *src,
                dst: *dst,
                label: label.clone(),
                properties: clone_owned_props(properties),
                embedding: crate::node::clone_embedding(embedding),
                provenance: provenance.clone(),
            },
        }
    }
}

/// A batch of mutations under an idempotency key.
#[derive(Debug)]
pub struct Transaction {
    pub idempotency_key: String,
    pub mutations: Vec<Mutation>,
}

/// Copies a list of mutations.
fn clone_mutations(ms: &Vec<Mutation>) -> (r: Vec<Mutation>)
    ensures
        mutations_view(r@) == mutations_view(ms@),
{
    let mut out: Vec<Mutation> = Vec::new();
    let mut i: usize = 0;
    while i < ms.len()
        invariant
            i <= ms@.len(),
            out@.len() == i,
            forall|j: int| 0 <= j < i ==> #[trigger] out@[j]@ == ms@[j]@,
        decreases ms@.len() - i,
    {
        out.push(ms[i].clone());
        i = i + 1;
    }
    proof {
        assert(mutations_view(out@) =~= mutations_view(ms@));
    }
    out
}

impl Clone for Transaction {
    fn clone(&self) -> (r: Self)
        ensures
            r.idempotency_key@ == self.idempotency_key@,
            mutations_view(r.mutations@) == mutations_view(self.mutations@),
    {
        Transaction { idempotency_key: self.idempotency_key.clone(), mutations: clone_mutations(&self.mutations) }
    }
}

/// What committing a transaction produced: its sequence number and the ids it created.
#[derive(Debug, PartialEq)]
pub struct CommitResult {
    pub sequence: u64,
    pub node_ids: Vec<NodeId>,
    pub edge_ids: Vec<EdgeId>,
}

impl Clone for CommitResult {
    fn clone(&self) -> (r: Self)
        ensures
            r.sequence == self.sequence,
            r.node_ids@ == self.node_ids@,
            r.edge_ids@ == self.edge_ids@,
    {
        CommitResult { sequence: self.sequence, node_ids: self.node_ids.clone(), edge_ids: self.edge_ids.clone() }
    }
}

/// What committing a batch asks for next.
#[derive(Debug)]
pub enum CommitStep {
    /// The batch was committed before under its key: answer with the recorded result.
    Answered(CommitResult),
    /// The store's id counters or string table, or the journal's sequence numbers,
    /// cannot take the batch.
    NoRoom,
    /// Make the prepare record durable, then call `prepare_and_stage`.
    WritePrepare,
}

/// Why a journal operation failed.
#[derive(Debug)]
pub enum JournalError {
    Io(std::io::Error),
    Encode(rmp_serde::encode::Error),
    Decode(rmp_serde::decode::Error),
    CorruptRecord,
    RecordTooLarge(u64),
    EmptyIdempotencyKey,
    EmptyBatch,
    Identity(IdentityError),
    MissingPreparedTransaction,
}

/// A transaction is accepted when its idempotency key is not blank and it holds at least
/// one mutation.
pub open spec fn transaction_verdict(key: Seq<char>, mutation_count: nat) -> Result<(), JournalError> {
    if blank(key) {
        Err(JournalError::EmptyIdempotencyKey)
    } else if mutation_count == 0 {
        Err(JournalError::EmptyBatch)
    } else {
        Ok(())
    }
}

/// Checks a transaction before it is journaled or applied.
pub fn validate_transaction(transaction: &Transaction) -> (r: Result<(), JournalError>)
    ensures
        r == transaction_verdict(transaction.idempotency_key@, transaction.mutations@.len()),
{
    if is_blank(transaction.idempotency_key.as_str()) {
        return Err(JournalError::EmptyIdempotencyKey);
    }
    if transaction.mutations.len() == 0 {
        return Err(JournalError::EmptyBatch);
    }
    Ok(())
}

/// Refuses a journal record whose declared length exceeds `MAX_RECORD_BYTES`.
pub fn check_record_length(length: u64) -> (r: Result<(), JournalError>)
    ensures
        r == (if length > MAX_RECORD_BYTES { Err(JournalError::RecordTooLarge(length)) } else { Ok(()) }),
{
    if length > MAX_RECORD_BYTES {
        Err(JournalError::RecordTooLarge(length))
    } else {
        Ok(())
    }
}

/// Refuses a journal record whose payload does not match its checksum.
pub fn check_record_checksum(payload: &[u8], checksum: u32) -> (r: Result<(), JournalError>)
    ensures
        r == (if crc32(payload@) != checksum { Err(JournalError::CorruptRecord) } else { Ok(()) }),
{
    if compute_checksum(payload) != checksum {
        Err(JournalError::CorruptRecord)
    } else {
        Ok(())
    }
}

/// The id a mutation created.
pub enum CreatedId {
    Node(NodeId),
    Edge(EdgeId),
}

/// Adding a node as a mutation does, given the store's state.
pub open spec fn add_node_step(
    s: StoreView,
    namespace: Seq<char>,
    external_id: Seq<char>,
    label: Seq<char>,
    props: Seq<(Seq<char>, ScalarView)>,
    embedding: Option<Seq<u32>>,
    provenance: ProvenanceView,
) -> Result<(StoreView, NodeId), IdentityError> {
    if external_id.len() == 0 {
        Err(IdentityError::EmptyExternalId)
    } else if s.node_external.contains_key((namespace, external_id)) {
        Err(IdentityError::DuplicateExternalId)
    } else {
        let id = NodeId(s.next_node_id);
        let strings = intern_all(s.strings, seq![label] + prop_names(props));
        Ok((StoreView {
            strings,
            nodes: s.nodes.insert(id.0, new_node_view(strings, id, namespace, external_id, label, props, embedding, provenance)),
            facts: push_under(s.facts, FactSubject::Node(id), provenance),
            node_label_index: push_under(s.node_label_index, string_index(strings, label) as u32, id),
            node_external: s.node_external.insert((namespace, external_id), id.0),
            next_node_id: (s.next_node_id + 1) as u64,
            ..s
        }, id))
    }
}

/// Adding an edge as a mutation does, given the store's state.
pub open spec fn add_edge_step(
    s: StoreView,
    namespace: Seq<char>,
    external_id: Seq<char>,
    src: NodeId,
    dst: NodeId,
    label: Seq<char>,
    props: Seq<(Seq<char>, ScalarView)>,
    embedding: Option<Seq<u32>>,
    provenance: ProvenanceView,
) -> Result<(StoreView, EdgeId), IdentityError> {
    if external_id.len() == 0 {
        Err(IdentityError::EmptyExternalId)
    } else if !endpoints_in_namespace(s, src, dst, namespace) {
        Err(IdentityError::NamespaceMismatch)
    } else if s.edge_external.contains_key((namespace, external_id)) {
        Err(IdentityError::DuplicateExternalId)
    } else {
        let id = EdgeId(s.next_edge_id);
        let strings = intern_all(s.strings, seq![label] + prop_names(props));
        Ok((StoreView {
            strings,
            edges: s.edges.insert(id.0, new_edge_view(strings, id, namespace, external_id, src, dst, label, props, embedding, provenance)),
            facts: push_under(s.facts, FactSubject::Edge(id), provenance),
            edge_label_index: push_under(s.edge_label_index, string_index(strings, label) as u32, id),
            outgoing: push_under(s.outgoing, src.0, id),
            incoming: push_under(s.incoming, dst.0, id),
            edge_external: s.edge_external.insert((namespace, external_id), id.0),
            next_edge_id: (s.next_edge_id + 1) as u64,
            ..s
        }, id))
    }
}

/// What applying one mutation does to the store's state, and the id it creates. With
/// `skip_present`, a record whose external identity the store already holds is not
/// added again, and its existing id counts as created.
pub open spec fn mutation_step(s: StoreView, m: MutationView, skip_present: bool) -> Result<(StoreView, CreatedId), IdentityError> {
    match m {
        MutationView::AddNode { namespace, external_id, label, properties, embedding, provenance } => if skip_present
            && s.node_external.contains_key((namespace, external_id)) {
            Ok((s, CreatedId::Node(NodeId(s.node_external[(namespace, external_id)]))))
        } else {
            match add_node_step(s, namespace, external_id, label, properties, embedding, provenance) {
                Ok((s2, id)) => Ok((s2, CreatedId::Node(id))),
                Err(e) => Err(e),
            }
        },
        MutationView::AddEdge { namespace, external_id, src, dst, label, properties, embedding, provenance } => if skip_present
            && s.edge_external.contains_key((namespace, external_id)) {
            Ok((s, CreatedId::Edge(EdgeId(s.edge_external[(namespace, external_id)]))))
        } else {
            match add_edge_step(s, namespace, external_id, src, dst, label, properties, embedding, provenance) {
                Ok((s2, id)) => Ok((s2, CreatedId::Edge(id))),
                Err(e) => Err(e),
            }
        },
    }
}

/// Applying mutations in order: the store's state when they are done or the first fails,
/// and the node and edge ids created, or the error.
pub open spec fn apply_all(s: StoreView, ms: Seq<MutationView>, skip_present: bool) -> (StoreView, Result<(Seq<NodeId>, Seq<EdgeId>), IdentityError>)
    decreases ms.len(),
{
    if ms.len() == 0 {
        (s, Ok((Seq::empty(), Seq::empty())))
    } else {
        let (s1, r1) = apply_all(s, ms.drop_last(), skip_present);
        match r1 {
            Err(e) => (s1, Err(e)),
            Ok((ns, es)) => match mutation_step(s1, ms.last(), skip_present) {
                Err(e) => (s1, Err(e)),
                Ok((s2, CreatedId::Node(id))) => (s2, Ok((ns.push(id), es))),
                Ok((s2, CreatedId::Edge(id))) => (s2, Ok((ns, es.push(id)))),
            },
        }
    }
}

/// How many names a list of mutations may intern at most: its labels and property names.
pub open spec fn names_in(ms: Seq<MutationView>) -> nat
    decreases ms.len(),
{
    if ms.len() == 0 {
        0
    } else {
        names_in(ms.drop_last()) + 1 + match ms.last() {
            MutationView::AddNode { properties, .. } => properties.len(),
            MutationView::AddEdge { properties, .. } => properties.len(),
        }
    }
}

/// Room for the mutations within the id counters and the string table's id space.
pub open spec fn room_for(s: StoreView, ms: Seq<MutationView>) -> bool {
    &&& s.next_node_id + ms.len() < u64::MAX
    &&& s.next_edge_id + ms.len() < u64::MAX
    &&& s.strings.len() + names_in(ms) <= u32::MAX
}

/// Names are counted additively over concatenated lists.
proof fn lemma_names_in_append(a: Seq<MutationView>, b: Seq<MutationView>)
    ensures
        names_in(a + b) == names_in(a) + names_in(b),
    decreases b.len(),
{
    if b.len() == 0 {
        assert(a + b =~= a);
    } else {
        lemma_names_in_append(a, b.drop_last());
        assert((a + b).drop_last() =~= a + b.drop_last());
        assert((a + b).last() == b.last());
    }
}

/// How many names one mutation may intern: its label and its property names.
fn names_of(m: &Mutation) -> (r: usize)
    ensures
        r + 1 == names_in(seq![m@]),
{
    proof {
        assert(seq![m@].drop_last() =~= Seq::<MutationView>::empty());
        assert(names_in(Seq::<MutationView>::empty()) == 0);
        assert(seq![m@].last() == m@);
    }
    match m {
        Mutation::AddNode { properties, .. } => properties.len(),
        Mutation::AddEdge { properties, .. } => properties.len(),
    }
}

/// Adds a batch's mutations and names to running totals, refusing as soon as either
/// would pass its limit.
fn add_batch(count: u64, names: u64, count_limit: u64, names_limit: u64, ms: &Vec<Mutation>) -> (r: Option<(u64, u64)>)
    requires
        count <= count_limit,
        names <= names_limit <= u32::MAX,
    ensures
        match r {
            Some((c, n)) => c == count + ms@.len() && n == names + names_in(mutations_view(ms@)) && c <= count_limit
                && n <= names_limit,
            None => count + ms@.len() > count_limit || names + names_in(mutations_view(ms@)) > names_limit,
        },
{
    let ghost all = mutations_view(ms@);
    let mut c = count;
    let mut n = names;
    let mut i: usize = 0;
    while i < ms.len()
        invariant
            i <= ms@.len(),
            all == mutations_view(ms@),
            c == count + i,
            n == names + names_in(all.take(i as int)),
            c <= count_limit,
            n <= names_limit <= u32::MAX,
        decreases ms@.len() - i,
    {
        let k = names_of(&ms[i]);
        proof {
            assert(all.take(i + 1) =~= all.take(i as int) + seq![ms@[i as int]@]);
            lemma_names_in_append(all.take(i as int), seq![ms@[i as int]@]);
            assert(all =~= all.take(i + 1) + all.skip(i + 1));
            lemma_names_in_append(all.take(i + 1), all.skip(i + 1));
        }
        if c == count_limit {
            return None;
        }
        let room = (names_limit - n) as usize;
        if k >= room {
            return None;
        }
        c = c + 1;
        n = n + 1 + k as u64;
        i = i + 1;
    }
    proof {
        assert(all.take(ms@.len() as int) =~= all);
    }
    Some((c, n))
}

/// The limits a store's counters and string table put on more mutations: how many more
/// records either id counter can give out, and how many more names the table can take;
/// `None` when a counter is spent.
fn room_limits(store: &Store) -> (r: Option<(u64, u64)>)
    requires
        store.wf(),
    ensures
        match r {
            Some((count_limit, names_limit)) => names_limit <= u32::MAX && names_limit == u32::MAX - store@.strings.len()
                && forall|k: nat| (#[trigger] room_count(store@, k)) <==> k <= count_limit,
            None => forall|ms: Seq<MutationView>| !room_for(store@, ms),
        },
{
    let table = store.string_table();
    proof {
        table.lemma_distinct();
    }
    let strings = table.len();
    let next_node = store.next_node_id();
    let next_edge = store.next_edge_id();
    if next_node == u64::MAX || next_edge == u64::MAX {
        return None;
    }
    let node_room = u64::MAX - 1 - next_node;
    let edge_room = u64::MAX - 1 - next_edge;
    let count_limit = if node_room < edge_room { node_room } else { edge_room };
    Some((count_limit, (u32::MAX as usize - strings) as u64))
}

/// `k` more records fit under both id counters.
pub open spec fn room_count(s: StoreView, k: nat) -> bool {
    s.next_node_id + k < u64::MAX && s.next_edge_id + k < u64::MAX
}

/// Whether the store has room for `mutations`: both id counters and the string table's
/// id space can take every record and name they may add.
pub fn has_room(store: &Store, mutations: &Vec<Mutation>) -> (r: bool)
    requires
        store.wf(),
    ensures
        r == room_for(store@, mutations_view(mutations@)),
{
    match room_limits(store) {
        None => false,
        Some((count_limit, names_limit)) => {
            proof {
                assert(room_count(store@, mutations_view(mutations@).len()) <==> mutations_view(mutations@).len() <= count_limit);
            }
            add_batch(0, 0, count_limit, names_limit, mutations).is_some()
        },
    }
}

/// Whether the store has room for every mutation of `commits`, in order.
pub fn has_room_for_commits(store: &Store, commits: &Vec<(Transaction, CommitResult)>) -> (r: bool)
    requires
        store.wf(),
    ensures
        r == room_for(store@, all_mutations(commits_view(commits@))),
{
    let ghost cv = commits_view(commits@);
    let ghost total = all_mutations(cv);
    match room_limits(store) {
        None => false,
        Some((count_limit, names_limit)) => {
            proof {
                assert(room_count(store@, total.len()) <==> total.len() <= count_limit);
            }
            let mut c: u64 = 0;
            let mut n: u64 = 0;
            let mut j: usize = 0;
            while j < commits.len()
                invariant
                    j <= commits@.len(),
                    cv == commits_view(commits@),
                    total == all_mutations(cv),
                    c == all_mutations(cv.take(j as int)).len(),
                    n == names_in(all_mutations(cv.take(j as int))),
                    c <= count_limit,
                    n <= names_limit <= u32::MAX,
                    names_limit == u32::MAX - store@.strings.len(),
                    forall|k: nat| (#[trigger] room_count(store@, k)) <==> k <= count_limit,
                decreases commits@.len() - j,
            {
                let ghost before = all_mutations(cv.take(j as int));
                proof {
                    assert(cv.take(j + 1).drop_last() =~= cv.take(j as int));
                    assert(cv.take(j + 1).last() == cv[j as int]);
                    assert(all_mutations(cv.take(j + 1)) == before + mutations_view(commits@[j as int].0.mutations@));
                    lemma_names_in_append(before, mutations_view(commits@[j as int].0.mutations@));
                    lemma_all_mutations_grow(cv, j + 1);
                }
                match add_batch(c, n, count_limit, names_limit, &commits[j].0.mutations) {
                    None => {
                        proof {
                            assert(room_count(store@, total.len()) <==> total.len() <= count_limit);
                        }
                        return false;
                    },
                    Some((c2, n2)) => {
                        c = c2;
                        n = n2;
                    },
                }
                j = j + 1;
            }
            proof {
                assert(cv.take(commits@.len() as int) =~= cv);
                assert(room_count(store@, total.len()) <==> total.len() <= count_limit);
            }
            true
        },
    }
}

/// The mutations of the first `i` commits are a prefix of all of them: no longer, and
/// with no more names.
proof fn lemma_all_mutations_grow(cv: Seq<(Seq<MutationView>, (u64, Seq<NodeId>, Seq<EdgeId>))>, i: int)
    requires
        0 <= i <= cv.len(),
    ensures
        all_mutations(cv.take(i)).len() <= all_mutations(cv).len(),
        names_in(all_mutations(cv.take(i))) <= names_in(all_mutations(cv)),
    decreases cv.len() - i,
{
    if i < cv.len() {
        lemma_all_mutations_grow(cv, i + 1);
        assert(cv.take(i + 1).drop_last() =~= cv.take(i));
        lemma_names_in_append(all_mutations(cv.take(i)), cv.take(i + 1).last().0);
    } else {
        assert(cv.take(i) =~= cv);
    }
}

/// Borrows a property list with owned names as one with borrowed names.
fn borrow_props(props: &Vec<(String, Scalar)>) -> (r: Vec<(&str, Scalar)>)
    ensures
        crate::store::named_props(r@) == owned_props_view(props@),
{
    let mut out: Vec<(&str, Scalar)> = Vec::new();
    let mut i: usize = 0;
    while i < props.len()
        invariant
            i <= props@.len(),
            out@.len() == i,
            forall|j: int| 0 <= j < i ==> #[trigger] out@[j].0@ == props@[j].0@ && out@[j].1@ == props@[j].1@,
        decreases props@.len() - i,
    {
        out.push((props[i].0.as_str(), props[i].1.clone()));
        i = i + 1;
    }
    proof {
        assert(crate::store::named_props(out@) =~= owned_props_view(props@));
    }
    out
}

/// The store's counters and table keep room for the rest of the mutations after one more.
proof fn lemma_room_step(s: StoreView, s2: StoreView, ms: Seq<MutationView>, i: int)
    requires
        0 <= i < ms.len(),
        room_for(s, ms.skip(i)),
        s2.next_node_id <= s.next_node_id + 1,
        s2.next_edge_id <= s.next_edge_id + 1,
        s2.strings.len() <= s.strings.len() + 1 + match ms[i] {
            MutationView::AddNode { properties, .. } => properties.len(),
            MutationView::AddEdge { properties, .. } => properties.len(),
        },
    ensures
        room_for(s2, ms.skip(i + 1)),
{
    lemma_names_in_front(ms.skip(i));
    assert(ms.skip(i).drop_first() =~= ms.skip(i + 1));
}

/// Counting names from the front.
proof fn lemma_names_in_front(ms: Seq<MutationView>)
    requires
        ms.len() > 0,
    ensures
        names_in(ms) == names_in(ms.drop_first()) + 1 + match ms[0] {
            MutationView::AddNode { properties, .. } => properties.len(),
            MutationView::AddEdge { properties, .. } => properties.len(),
        },
    decreases ms.len(),
{
    if ms.len() > 1 {
        lemma_names_in_front(ms.drop_last());
        assert(ms.drop_last().drop_first() =~= ms.drop_first().drop_last());
        assert(ms.drop_last()[0] == ms[0]);
        assert(ms.drop_first().last() == ms.last());
    } else {
        assert(ms.drop_first() =~= Seq::<MutationView>::empty());
        assert(ms.drop_last() =~= Seq::<MutationView>::empty());
    }
}

/// Applies mutations to `store` in order, stopping at the first that fails (the ones
/// before it stay applied). With `skip_present`, a record whose external identity the
/// store already holds is reused instead of added.
fn apply_in_order(store: &mut Store, mutations: &Vec<Mutation>, skip_present: bool) -> (r: Result<(Vec<NodeId>, Vec<EdgeId>), JournalError>)
    requires
        old(store).wf(),
        room_for(old(store)@, mutations_view(mutations@)),
    ensures
        final(store).wf(),
        final(store)@ == apply_all(old(store)@, mutations_view(mutations@), skip_present).0,
        match apply_all(old(store)@, mutations_view(mutations@), skip_present).1 {
            Ok((ns, es)) => r matches Ok((n, e)) && n@ == ns && e@ == es,
            Err(e) => r matches Err(JournalError::Identity(err)) && err == e,
        },
        built_by_adding(old(store)@) ==> built_by_adding(final(store)@),
{
    let ghost mv = mutations_view(mutations@);
    let ghost start = store@;
    let mut nodes: Vec<NodeId> = Vec::new();
    let mut edges: Vec<EdgeId> = Vec::new();
    proof {
        assert(mv.take(0) =~= Seq::<MutationView>::empty());
        assert(mv.skip(0) =~= mv);
    }
    let mut i: usize = 0;
    while i < mutations.len()
        invariant
            i <= mutations@.len(),
            mv == mutations_view(mutations@),
            start == old(store)@,
            store.wf(),
            room_for(store@, mv.skip(i as int)),
            apply_all(start, mv.take(i as int), skip_present) == (store@, Ok::<(Seq<NodeId>, Seq<EdgeId>), IdentityError>((nodes@, edges@))),
            built_by_adding(start) ==> built_by_adding(store@),
        decreases mutations@.len() - i,
    {
        let ghost before = store@;
        proof {
            assert(mv.take(i + 1).drop_last() =~= mv.take(i as int));
            assert(mv.take(i + 1).last() == mv[i as int]);
            assert(mv[i as int] == mutations@[i as int]@);
            lemma_names_in_front(mv.skip(i as int));
            assert(mv.skip(i as int)[0] == mv[i as int]);
            assert(mv.skip(i as int).len() >= 1);
        }
        match &mutations[i] {
            Mutation::AddNode { namespace, external_id, label, properties, embedding, provenance } => {
                let existing = if skip_present {
                    store.node_by_external_id(namespace, external_id.as_str())
                } else {
                    None
                };
                match existing {
                    Some(id) => {
                        nodes.push(id);
                    },
                    None => {
                        let props = borrow_props(properties);
                        match store.add_node_in_namespace(
                            namespace.clone(),
                            external_id.as_str(),
                            label.as_str(),
                            props,
                            crate::node::clone_embedding(embedding),
                            provenance.clone(),
                        ) {
                            Ok(id) => {
                                nodes.push(id);
                                proof {
                                    crate::store::lemma_intern_all(before.strings, seq![label@] + prop_names(owned_props_view(properties@)));
                                }
                            },
                            Err(e) => {
                                proof {
                                    lemma_apply_all_stops(start, mv, i as int, skip_present);
                                }
                                return Err(JournalError::Identity(e));
                            },
                        }
                    },
                }
            },
            Mutation::AddEdge { namespace, external_id, src, dst, label, properties, embedding, provenance } => {
                let existing = if skip_present {
                    store.edge_by_external_id(namespace, external_id.as_str())
                } else {
                    None
                };
                match existing {
                    Some(id) => {
                        edges.push(id);
                    },
                    None => {
                        let props = borrow_props(properties);
                        match store.add_edge_in_namespace(
                            namespace.clone(),
                            external_id.as_str(),
                            *src,
                            *dst,
                            label.as_str(),
                            props,
                            crate::node::clone_embedding(embedding),
                            provenance.clone(),
                        ) {
                            Ok(id) => {
                                edges.push(id);
                                proof {
                                    crate::store::lemma_intern_all(before.strings, seq![label@] + prop_names(owned_props_view(properties@)));
                                }
                            },
                            Err(e) => {
                                proof {
                                    lemma_apply_all_stops(start, mv, i as int, skip_present);
                                }
                                return Err(JournalError::Identity(e));
                            },
                        }
                    },
                }
            },
        }
        proof {
            lemma_room_step(before, store@, mv, i as int);
        }
        i = i + 1;
    }
    proof {
        assert(mv.take(i as int) =~= mv);
    }
    Ok((nodes, edges))
}

/// Once a mutation fails, applying more mutations keeps the failure and the state.
proof fn lemma_apply_all_stops(s: StoreView, ms: Seq<MutationView>, i: int, skip_present: bool)
    requires
        0 <= i < ms.len(),
        apply_all(s, ms.take(i + 1), skip_present).1 is Err,
    ensures
        apply_all(s, ms, skip_present) == apply_all(s, ms.take(i + 1), skip_present),
    decreases ms.len() - i,
{
    if i + 1 < ms.len() {
        assert(ms.take(ms.len() - 1).take(i + 1) =~= ms.take(i + 1));
        lemma_apply_all_stops(s, ms.take(ms.len() - 1), i, skip_present);
        assert(ms.drop_last() =~= ms.take(ms.len() - 1));
    } else {
        assert(ms.take(i + 1) =~= ms);
    }
}

/// Applies a batch of mutations to `store` in order. The store keeps the mutations that
/// succeeded before the first failure; the result lists the node and edge ids created,
/// or that failure.
pub fn apply_mutations(store: &mut Store, mutations: &Vec<Mutation>) -> (r: Result<(Vec<NodeId>, Vec<EdgeId>), JournalError>)
    requires
        old(store).wf(),
        room_for(old(store)@, mutations_view(mutations@)),
    ensures
        final(store).wf(),
        final(store)@ == apply_all(old(store)@, mutations_view(mutations@), false).0,
        match apply_all(old(store)@, mutations_view(mutations@), false).1 {
            Ok((ns, es)) => r matches Ok((n, e)) && n@ == ns && e@ == es,
            Err(e) => r matches Err(JournalError::Identity(err)) && err == e,
        },
        built_by_adding(old(store)@) ==> built_by_adding(final(store)@),
{
    apply_in_order(store, mutations, false)
}

/// Applies a batch of mutations to `store` in order, reusing every record whose external
/// identity the store already holds, so that a batch a snapshot already reflects changes
/// nothing. The result lists the ids of the records, reused or created.
pub fn apply_missing_mutations(store: &mut Store, mutations: &Vec<Mutation>) -> (r: Result<(Vec<NodeId>, Vec<EdgeId>), JournalError>)
    requires
        old(store).wf(),
        room_for(old(store)@, mutations_view(mutations@)),
    ensures
        final(store).wf(),
        final(store)@ == apply_all(old(store)@, mutations_view(mutations@), true).0,
        match apply_all(old(store)@, mutations_view(mutations@), true).1 {
            Ok((ns, es)) => r matches Ok((n, e)) && n@ == ns && e@ == es,
            Err(e) => r matches Err(JournalError::Identity(err)) && err == e,
        },
        built_by_adding(old(store)@) ==> built_by_adding(final(store)@),
{
    apply_in_order(store, mutations, true)
}


impl Keyed for String {
    type KeyView = Seq<char>;

    open spec fn key(&self) -> Seq<char> {
        self@
    }

    fn same_key(&self, other: &Self) -> (r: bool) {
        *self == *other
    }
}

/// A record of the journal: a transaction about to be applied, or one applied with what
/// it produced.
#[derive(Debug)]
pub enum JournalRecord {
    Prepare(Transaction),
    Commit { transaction: Transaction, result: CommitResult },
}

/// The abstract value of a commit result: its sequence and the ids it created.
pub open spec fn commit_view(r: CommitResult) -> (u64, Seq<NodeId>, Seq<EdgeId>) {
    (r.sequence, r.node_ids@, r.edge_ids@)
}

/// The abstract state of a journal: the next sequence, the committed transactions (their
/// mutations and results) and the prepared ones, by idempotency key.
pub struct JournalView {
    pub next_sequence: u64,
    pub committed: Map<Seq<char>, (Seq<MutationView>, (u64, Seq<NodeId>, Seq<EdgeId>))>,
    pub prepared: Map<Seq<char>, Seq<MutationView>>,
}

/// The journal after a batch is noted committed under `key` with its mutations and
/// result: the next sequence moves on, the batch is committed and no longer prepared.
pub open spec fn noted_committed(
    j: JournalView,
    key: Seq<char>,
    mutations: Seq<MutationView>,
    result: (u64, Seq<NodeId>, Seq<EdgeId>),
) -> JournalView {
    JournalView {
        next_sequence: (j.next_sequence + 1) as u64,
        committed: j.committed.insert(key, (mutations, result)),
        prepared: j.prepared.remove(key),
    }
}

/// What the journal keeps in memory about its records.
pub struct JournalState {
    next_sequence: u64,
    committed: KeyedMap<String, (Transaction, CommitResult)>,
    prepared: KeyedMap<String, Transaction>,
}

impl JournalState {
    /// The abstract state.
    pub closed spec fn view(&self) -> JournalView {
        JournalView {
            next_sequence: self.next_sequence,
            committed: self.committed@.map_values(|v: (Transaction, CommitResult)| (mutations_view(v.0.mutations@), commit_view(v.1))),
            prepared: self.prepared@.map_values(|t: Transaction| mutations_view(t.mutations@)),
        }
    }

    /// Both maps keep their keys distinct, and each transaction sits under its own key.
    pub closed spec fn wf(&self) -> bool {
        &&& self.committed.wf()
        &&& self.prepared.wf()
        &&& forall|k: Seq<char>| #[trigger] self.committed@.contains_key(k) ==> self.committed@[k].0.idempotency_key@ == k
        &&& forall|k: Seq<char>| #[trigger] self.prepared@.contains_key(k) ==> self.prepared@[k].idempotency_key@ == k
    }

    /// An empty journal.
    pub fn new() -> (j: Self)
        ensures
            j.wf(),
            j@.next_sequence == 0,
            j@.committed == Map::<Seq<char>, (Seq<MutationView>, (u64, Seq<NodeId>, Seq<EdgeId>))>::empty(),
            j@.prepared == Map::<Seq<char>, Seq<MutationView>>::empty(),
    {
        let j = JournalState { next_sequence: 0, committed: KeyedMap::new(), prepared: KeyedMap::new() };
        proof {
            assert(j@.committed =~= Map::empty());
            assert(j@.prepared =~= Map::empty());
        }
        j
    }

    /// The number of committed transactions.
    pub fn committed_len(&self) -> (n: usize)
        requires
            self.wf(),
        ensures
            n == self@.committed.dom().len(),
    {
        proof {
            assert(self@.committed.dom() =~= self.committed@.dom());
        }
        self.committed.len()
    }

    /// The number of prepared transactions not yet committed.
    pub fn prepared_len(&self) -> (n: usize)
        requires
            self.wf(),
        ensures
            n == self@.prepared.dom().len(),
    {
        proof {
            assert(self@.prepared.dom() =~= self.prepared@.dom());
        }
        self.prepared.len()
    }

    /// The next sequence number a commit receives.
    pub fn next_sequence(&self) -> (n: u64)
        ensures
            n == self@.next_sequence,
    {
        self.next_sequence
    }

    /// The result of the transaction committed under `key`, if any.
    pub fn committed_result(&self, key: &str) -> (r: Option<&CommitResult>)
        requires
            self.wf(),
        ensures
            match r {
                Some(res) => self@.committed.contains_key(key@) && commit_view(*res) == self@.committed[key@].1,
                None => !self@.committed.contains_key(key@),
            },
    {
        let k = key.to_string();
        match self.committed.get(&k) {
            Some(entry) => Some(&entry.1),
            None => None,
        }
    }

    /// Takes in one record read back from the journal file: a prepared transaction is
    /// noted; a committed one must have been prepared, and moves from prepared to
    /// committed, keeping the next sequence above its own.
    pub fn replay_record(&mut self, record: JournalRecord) -> (r: Result<(), JournalError>)
        requires
            old(self).wf(),
            record matches JournalRecord::Commit { result, .. } ==> result.sequence < u64::MAX,
        ensures
            final(self).wf(),
            match record {
                JournalRecord::Prepare(t) => match transaction_verdict(t.idempotency_key@, t.mutations@.len()) {
                    Err(e) => r == Err::<(), JournalError>(e) && final(self)@ == old(self)@,
                    Ok(()) => r is Ok && final(self)@ == (JournalView {
                        prepared: old(self)@.prepared.insert(t.idempotency_key@, mutations_view(t.mutations@)),
                        ..old(self)@
                    }),
                },
                JournalRecord::Commit { transaction: t, result } => match transaction_verdict(t.idempotency_key@, t.mutations@.len()) {
                    Err(e) => r == Err::<(), JournalError>(e) && final(self)@ == old(self)@,
                    Ok(()) => if !old(self)@.prepared.contains_key(t.idempotency_key@) {
                        r == Err::<(), JournalError>(JournalError::MissingPreparedTransaction) && final(self)@ == old(self)@
                    } else {
                        r is Ok && final(self)@ == (JournalView {
                            next_sequence: if old(self)@.next_sequence > result.sequence { old(self)@.next_sequence } else { (result.sequence + 1) as u64 },
                            committed: old(self)@.committed.insert(t.idempotency_key@, (mutations_view(t.mutations@), commit_view(result))),
                            prepared: old(self)@.prepared.remove(t.idempotency_key@),
                        })
                    },
                },
            },
    {
        match record {
            JournalRecord::Prepare(transaction) => {
                match validate_transaction(&transaction) {
                    Err(e) => {
                        return Err(e);
                    },
                    Ok(()) => {},
                }
                let key = transaction.idempotency_key.clone();
                let ghost old_prepared = self.prepared@;
                let ghost tv = mutations_view(transaction.mutations@);
                self.prepared.insert(key, transaction);
                proof {
                    assert(self@.prepared =~= old(self)@.prepared.insert(key@, tv));
                }
                Ok(())
            },
            JournalRecord::Commit { transaction, result } => {
                match validate_transaction(&transaction) {
                    Err(e) => {
                        return Err(e);
                    },
                    Ok(()) => {},
                }
                if !self.prepared.contains_key(&transaction.idempotency_key) {
                    return Err(JournalError::MissingPreparedTransaction);
                }
                if self.next_sequence <= result.sequence {
                    self.next_sequence = result.sequence + 1;
                }
                let ghost tv = mutations_view(transaction.mutations@);
                let ghost rv = commit_view(result);
                let key = transaction.idempotency_key.clone();
                self.prepared.remove(&key);
                self.committed.insert(key, (transaction, result));
                proof {
                    assert(self@.prepared =~= old(self)@.prepared.remove(key@));
                    assert(self@.committed =~= old(self)@.committed.insert(key@, (tv, rv)));
                }
                Ok(())
            },
        }
    }

    /// Before a commit: checks the transaction, and gives back the result of the
    /// transaction already committed under its key, if any.
    pub fn prior_result(&self, transaction: &Transaction) -> (r: Result<Option<CommitResult>, JournalError>)
        requires
            self.wf(),
        ensures
            match transaction_verdict(transaction.idempotency_key@, transaction.mutations@.len()) {
                Err(e) => r == Err::<Option<CommitResult>, JournalError>(e),
                Ok(()) => r matches Ok(found) && match found {
                    Some(res) => self@.committed.contains_key(transaction.idempotency_key@)
                        && commit_view(res) == self@.committed[transaction.idempotency_key@].1,
                    None => !self@.committed.contains_key(transaction.idempotency_key@),
                },
            },
    {
        match validate_transaction(transaction) {
            Err(e) => {
                return Err(e);
            },
            Ok(()) => {},
        }
        match self.committed.get(&transaction.idempotency_key) {
            Some(entry) => Ok(Some(entry.1.clone())),
            None => Ok(None),
        }
    }

    /// The first step of a commit: checks the batch, answers one already committed under
    /// its key, refuses one there is no room for, and otherwise asks for its prepare
    /// record to be written.
    pub fn begin_commit(&self, store: &Store, transaction: &Transaction) -> (r: Result<CommitStep, JournalError>)
        requires
            self.wf(),
            store.wf(),
        ensures
            match transaction_verdict(transaction.idempotency_key@, transaction.mutations@.len()) {
                Err(e) => r == Err::<CommitStep, JournalError>(e),
                Ok(()) => r matches Ok(step) && match step {
                    CommitStep::Answered(res) => self@.committed.contains_key(transaction.idempotency_key@)
                        && commit_view(res) == self@.committed[transaction.idempotency_key@].1,
                    CommitStep::NoRoom => !self@.committed.contains_key(transaction.idempotency_key@) && (!room_for(
                        store@,
                        mutations_view(transaction.mutations@),
                    ) || self@.next_sequence == u64::MAX),
                    CommitStep::WritePrepare => !self@.committed.contains_key(transaction.idempotency_key@) && room_for(
                        store@,
                        mutations_view(transaction.mutations@),
                    ) && self@.next_sequence < u64::MAX,
                },
            },
    {
        match self.prior_result(transaction) {
            Err(e) => Err(e),
            Ok(Some(result)) => Ok(CommitStep::Answered(result)),
            Ok(None) => {
                if !has_room(store, &transaction.mutations) || self.next_sequence == u64::MAX {
                    Ok(CommitStep::NoRoom)
                } else {
                    Ok(CommitStep::WritePrepare)
                }
            },
        }
    }

    /// The second step, once the prepare record is durable: notes the batch prepared
    /// and applies it to a copy of `store`, giving the copy and the result the commit
    /// record will hold, or the failure (the batch then stays prepared).
    pub fn prepare_and_stage(&mut self, store: &Store, transaction: &Transaction) -> (r: Result<(Store, CommitResult), JournalError>)
        requires
            old(self).wf(),
            store.wf(),
            room_for(store@, mutations_view(transaction.mutations@)),
        ensures
            final(self).wf(),
            final(self)@ == (JournalView {
                prepared: old(self)@.prepared.insert(transaction.idempotency_key@, mutations_view(transaction.mutations@)),
                ..old(self)@
            }),
            match apply_all(store@, mutations_view(transaction.mutations@), false) {
                (after, Ok((ns, es))) => r matches Ok((working, result)) && working.wf() && working@ == after
                    && commit_view(result) == (old(self)@.next_sequence, ns, es),
                (_, Err(e)) => r matches Err(JournalError::Identity(err)) && err == e,
            },
            built_by_adding(store@) ==> (r matches Ok((working, _)) ==> built_by_adding(working@)),
    {
        self.note_prepared(transaction.clone());
        self.stage(store, transaction)
    }

    /// The last step, once the commit record is durable: notes the batch committed
    /// with its result and makes the staged copy the store.
    pub fn finish_commit(&mut self, store: &mut Store, transaction: Transaction, working: Store, result: CommitResult)
        requires
            old(self).wf(),
            old(self)@.next_sequence < u64::MAX,
            working.wf(),
        ensures
            final(self).wf(),
            final(self)@ == noted_committed(
                old(self)@,
                transaction.idempotency_key@,
                mutations_view(transaction.mutations@),
                commit_view(result),
            ),
            final(store).wf(),
            final(store)@ == working@,
    {
        self.note_committed(transaction, result);
        *store = working;
    }

    /// Notes a transaction as prepared, once its prepare record is durable.
    pub fn note_prepared(&mut self, transaction: Transaction)
        requires
            old(self).wf(),
        ensures
            final(self).wf(),
            final(self)@ == (JournalView {
                prepared: old(self)@.prepared.insert(transaction.idempotency_key@, mutations_view(transaction.mutations@)),
                ..old(self)@
            }),
    {
        let key = transaction.idempotency_key.clone();
        let ghost tv = mutations_view(transaction.mutations@);
        self.prepared.insert(key, transaction);
        proof {
            assert(self@.prepared =~= old(self)@.prepared.insert(key@, tv));
        }
    }

    /// Applies a transaction to a copy of `store`: the copy and the result the commit will
    /// record, with the next sequence number; or the failure.
    pub fn stage(&self, store: &Store, transaction: &Transaction) -> (r: Result<(Store, CommitResult), JournalError>)
        requires
            store.wf(),
            room_for(store@, mutations_view(transaction.mutations@)),
        ensures
            match apply_all(store@, mutations_view(transaction.mutations@), false) {
                (after, Ok((ns, es))) => r matches Ok((working, result)) && working.wf() && working@ == after
                    && commit_view(result) == (self@.next_sequence, ns, es),
                (_, Err(e)) => r matches Err(JournalError::Identity(err)) && err == e,
            },
            built_by_adding(store@) ==> (r matches Ok((working, _)) ==> built_by_adding(working@)),
    {
        let mut working = store.clone();
        match apply_mutations(&mut working, &transaction.mutations) {
            Ok((node_ids, edge_ids)) => Ok((working, CommitResult { sequence: self.next_sequence, node_ids, edge_ids })),
            Err(e) => Err(e),
        }
    }

    /// Notes a transaction as committed with its result, once its commit record is durable.
    pub fn note_committed(&mut self, transaction: Transaction, result: CommitResult)
        requires
            old(self).wf(),
            old(self)@.next_sequence < u64::MAX,
        ensures
            final(self).wf(),
            final(self)@ == noted_committed(
                old(self)@,
                transaction.idempotency_key@,
                mutations_view(transaction.mutations@),
                commit_view(result),
            ),
    {
        self.next_sequence = self.next_sequence + 1;
        let ghost tv = mutations_view(transaction.mutations@);
        let ghost rv = commit_view(result);
        let key = transaction.idempotency_key.clone();
        self.prepared.remove(&key);
        self.committed.insert(key, (transaction, result));
        proof {
            assert(self@.prepared =~= old(self)@.prepared.remove(key@));
            assert(self@.committed =~= old(self)@.committed.insert(key@, (tv, rv)));
        }
    }

    /// Forgets every record, once a snapshot has become the checkpoint.
    pub fn clear(&mut self)
        ensures
            final(self).wf(),
            final(self)@.next_sequence == 0,
            final(self)@.committed == Map::<Seq<char>, (Seq<MutationView>, (u64, Seq<NodeId>, Seq<EdgeId>))>::empty(),
            final(self)@.prepared == Map::<Seq<char>, Seq<MutationView>>::empty(),
    {
        *self = JournalState::new();
    }
}


/// The mutations of a list of commits, one commit after another.
pub open spec fn all_mutations(commits: Seq<(Seq<MutationView>, (u64, Seq<NodeId>, Seq<EdgeId>))>) -> Seq<MutationView>
    decreases commits.len(),
{
    if commits.len() == 0 {
        Seq::empty()
    } else {
        all_mutations(commits.drop_last()) + commits.last().0
    }
}

/// The abstract values of a list of committed transactions with their results.
pub open spec fn commits_view(commits: Seq<(Transaction, CommitResult)>) -> Seq<(Seq<MutationView>, (u64, Seq<NodeId>, Seq<EdgeId>))> {
    commits.map_values(|c: (Transaction, CommitResult)| (mutations_view(c.0.mutations@), commit_view(c.1)))
}

/// Replaying commits in order: each batch is applied to the store as it stands; the
/// first failure stops the replay, keeping what was applied.
pub open spec fn replay_all(s: StoreView, commits: Seq<(Seq<MutationView>, (u64, Seq<NodeId>, Seq<EdgeId>))>) -> (StoreView, Result<Seq<(u64, Seq<NodeId>, Seq<EdgeId>)>, IdentityError>)
    decreases commits.len(),
{
    if commits.len() == 0 {
        (s, Ok(Seq::empty()))
    } else {
        let (s1, r1) = replay_all(s, commits.drop_last());
        match r1 {
            Err(e) => (s1, Err(e)),
            Ok(done) => {
                let (s2, r2) = apply_all(s1, commits.last().0, false);
                match r2 {
                    Err(e) => (s2, Err(e)),
                    Ok(_) => (s2, Ok(done.push(commits.last().1))),
                }
            },
        }
    }
}

/// Replaying only what a store lacks: each batch is applied to a copy with records
/// already present reused; a failure stops the replay and leaves the store as it was
/// before that batch; a batch that produced no ids is skipped; otherwise the copy
/// becomes the store and the commit is listed.
pub open spec fn replay_missing_all(s: StoreView, commits: Seq<(Seq<MutationView>, (u64, Seq<NodeId>, Seq<EdgeId>))>) -> (StoreView, Result<Seq<(u64, Seq<NodeId>, Seq<EdgeId>)>, IdentityError>)
    decreases commits.len(),
{
    if commits.len() == 0 {
        (s, Ok(Seq::empty()))
    } else {
        let (s1, r1) = replay_missing_all(s, commits.drop_last());
        match r1 {
            Err(e) => (s1, Err(e)),
            Ok(done) => {
                let (s2, r2) = apply_all(s1, commits.last().0, true);
                match r2 {
                    Err(e) => (s1, Err(e)),
                    Ok((ns, es)) => if ns.len() == 0 && es.len() == 0 {
                        (s1, Ok(done))
                    } else {
                        (s2, Ok(done.push(commits.last().1)))
                    },
                }
            },
        }
    }
}

proof fn lemma_names_in_add(a: Seq<MutationView>, b: Seq<MutationView>)
    ensures
        names_in(a + b) == names_in(a) + names_in(b),
    decreases b.len(),
{
    if b.len() == 0 {
        assert(a + b =~= a);
    } else {
        assert((a + b).drop_last() =~= a + b.drop_last());
        lemma_names_in_add(a, b.drop_last());
    }
}

/// Applying mutations moves each id counter by at most their number, and grows the
/// string table by at most the names they carry.
proof fn lemma_apply_growth(s: StoreView, ms: Seq<MutationView>, skip_present: bool)
    ensures
        apply_all(s, ms, skip_present).0.next_node_id <= s.next_node_id + ms.len(),
        apply_all(s, ms, skip_present).0.next_edge_id <= s.next_edge_id + ms.len(),
        apply_all(s, ms, skip_present).0.strings.len() <= s.strings.len() + names_in(ms),
    decreases ms.len(),
{
    if ms.len() > 0 {
        lemma_apply_growth(s, ms.drop_last(), skip_present);
        let s1 = apply_all(s, ms.drop_last(), skip_present).0;
        match ms.last() {
            MutationView::AddNode { label, properties, .. } => {
                crate::store::lemma_intern_all(s1.strings, seq![label] + prop_names(properties));
            },
            MutationView::AddEdge { label, properties, .. } => {
                crate::store::lemma_intern_all(s1.strings, seq![label] + prop_names(properties));
            },
        }
    }
}

/// Room for two batches in turn leaves, after the first, room for the second.
proof fn lemma_room_after(s: StoreView, a: Seq<MutationView>, b: Seq<MutationView>, skip_present: bool)
    requires
        room_for(s, a + b),
    ensures
        room_for(apply_all(s, a, skip_present).0, b),
        room_for(s, a),
{
    lemma_names_in_add(a, b);
    lemma_apply_growth(s, a, skip_present);
}

proof fn lemma_all_mutations_push(commits: Seq<(Seq<MutationView>, (u64, Seq<NodeId>, Seq<EdgeId>))>, j: int)
    requires
        0 <= j < commits.len(),
    ensures
        all_mutations(commits) == all_mutations(commits.take(j)) + commits[j].0 + all_mutations(commits.skip(j + 1)),
    decreases commits.len(),
{
    if j + 1 < commits.len() {
        lemma_all_mutations_push(commits.drop_last(), j);
        assert(commits.drop_last().take(j) =~= commits.take(j));
        assert(commits.drop_last().skip(j + 1) =~= commits.skip(j + 1).drop_last());
        assert(commits.skip(j + 1).last() == commits.last());
        assert(all_mutations(commits.skip(j + 1)) == all_mutations(commits.skip(j + 1).drop_last()) + commits.last().0);
        assert(all_mutations(commits) =~= all_mutations(commits.take(j)) + commits[j].0 + all_mutations(commits.skip(j + 1)));
    } else {
        assert(commits.drop_last() =~= commits.take(j));
        assert(commits.skip(j + 1) =~= Seq::<(Seq<MutationView>, (u64, Seq<NodeId>, Seq<EdgeId>))>::empty());
        assert(all_mutations(commits) =~= all_mutations(commits.take(j)) + commits[j].0 + all_mutations(commits.skip(j + 1)));
    }
}

/// Replays committed transactions into `store` in the order given, stopping at the first
/// failure (what was applied before it stays). Lists the results replayed.
pub fn replay_commits(store: &mut Store, commits: &Vec<(Transaction, CommitResult)>) -> (r: Result<Vec<CommitResult>, JournalError>)
    requires
        old(store).wf(),
        room_for(old(store)@, all_mutations(commits_view(commits@))),
    ensures
        final(store).wf(),
        final(store)@ == replay_all(old(store)@, commits_view(commits@)).0,
        match replay_all(old(store)@, commits_view(commits@)).1 {
            Ok(done) => r matches Ok(v) && v@.map_values(|c: CommitResult| commit_view(c)) == done,
            Err(e) => r matches Err(JournalError::Identity(err)) && err == e,
        },
        built_by_adding(old(store)@) ==> built_by_adding(final(store)@),
{
    let ghost cv = commits_view(commits@);
    let ghost start = store@;
    let mut results: Vec<CommitResult> = Vec::new();
    let mut j: usize = 0;
    proof {
        assert(cv.take(0) =~= Seq::empty());
        assert(cv.skip(0) =~= cv);
        assert(all_mutations(cv.take(0)) =~= Seq::empty());
        assert(results@.map_values(|c: CommitResult| commit_view(c)) =~= Seq::empty());
    }
    while j < commits.len()
        invariant
            j <= commits@.len(),
            cv == commits_view(commits@),
            start == old(store)@,
            store.wf(),
            room_for(store@, all_mutations(cv.skip(j as int))),
            replay_all(start, cv.take(j as int)) == (store@, Ok::<Seq<(u64, Seq<NodeId>, Seq<EdgeId>)>, IdentityError>(results@.map_values(|c: CommitResult| commit_view(c)))),
            built_by_adding(start) ==> built_by_adding(store@),
        decreases commits@.len() - j,
    {
        let ghost before = store@;
        proof {
            assert(cv.take(j + 1).drop_last() =~= cv.take(j as int));
            assert(cv.take(j + 1).last() == cv[j as int]);
            assert(cv[j as int] == (mutations_view(commits@[j as int].0.mutations@), commit_view(commits@[j as int].1)));
            lemma_all_mutations_push(cv.skip(j as int), 0);
            assert(cv.skip(j as int).take(0) =~= Seq::empty());
            assert(all_mutations(cv.skip(j as int).take(0)) =~= Seq::empty());
            assert(cv.skip(j as int).skip(1) =~= cv.skip(j + 1));
            assert(cv.skip(j as int)[0] == cv[j as int]);
            assert(all_mutations(cv.skip(j as int)) =~= cv[j as int].0 + all_mutations(cv.skip(j + 1)));
            lemma_room_after(before, cv[j as int].0, all_mutations(cv.skip(j + 1)), false);
        }
        let commit = &commits[j];
        match apply_mutations(store, &commit.0.mutations) {
            Ok(_) => {},
            Err(e) => {
                proof {
                    lemma_replay_stops(start, cv, j as int);
                }
                return Err(e);
            },
        }
        let ghost old_results = results@;
        results.push(commit.1.clone());
        proof {
            assert(results@.map_values(|c: CommitResult| commit_view(c)) =~= old_results.map_values(|c: CommitResult| commit_view(c)).push(cv[j as int].1));
        }
        j = j + 1;
    }
    proof {
        assert(cv.take(j as int) =~= cv);
    }
    Ok(results)
}

proof fn lemma_replay_stops(s: StoreView, cv: Seq<(Seq<MutationView>, (u64, Seq<NodeId>, Seq<EdgeId>))>, j: int)
    requires
        0 <= j < cv.len(),
        replay_all(s, cv.take(j + 1)).1 is Err,
    ensures
        replay_all(s, cv) == replay_all(s, cv.take(j + 1)),
    decreases cv.len() - j,
{
    if j + 1 < cv.len() {
        assert(cv.take(cv.len() - 1).take(j + 1) =~= cv.take(j + 1));
        lemma_replay_stops(s, cv.take(cv.len() - 1), j);
        assert(cv.drop_last() =~= cv.take(cv.len() - 1));
    } else {
        assert(cv.take(j + 1) =~= cv);
    }
}

proof fn lemma_replay_missing_stops(s: StoreView, cv: Seq<(Seq<MutationView>, (u64, Seq<NodeId>, Seq<EdgeId>))>, j: int)
    requires
        0 <= j < cv.len(),
        replay_missing_all(s, cv.take(j + 1)).1 is Err,
    ensures
        replay_missing_all(s, cv) == replay_missing_all(s, cv.take(j + 1)),
    decreases cv.len() - j,
{
    if j + 1 < cv.len() {
        assert(cv.take(cv.len() - 1).take(j + 1) =~= cv.take(j + 1));
        lemma_replay_missing_stops(s, cv.take(cv.len() - 1), j);
        assert(cv.drop_last() =~= cv.take(cv.len() - 1));
    } else {
        assert(cv.take(j + 1) =~= cv);
    }
}

/// Replays, in the order given, only what `store` lacks: each batch goes to a copy with
/// records already present reused; the first failure stops the replay with the store as
/// it was before that batch. Lists the results of the batches that took effect.
pub fn replay_missing_commits(store: &mut Store, commits: &Vec<(Transaction, CommitResult)>) -> (r: Result<Vec<CommitResult>, JournalError>)
    requires
        old(store).wf(),
        room_for(old(store)@, all_mutations(commits_view(commits@))),
    ensures
        final(store).wf(),
        final(store)@ == replay_missing_all(old(store)@, commits_view(commits@)).0,
        match replay_missing_all(old(store)@, commits_view(commits@)).1 {
            Ok(done) => r matches Ok(v) && v@.map_values(|c: CommitResult| commit_view(c)) == done,
            Err(e) => r matches Err(JournalError::Identity(err)) && err == e,
        },
        built_by_adding(old(store)@) ==> built_by_adding(final(store)@),
{
    let ghost cv = commits_view(commits@);
    let ghost start = store@;
    let mut results: Vec<CommitResult> = Vec::new();
    let mut j: usize = 0;
    proof {
        assert(cv.take(0) =~= Seq::empty());
        assert(cv.skip(0) =~= cv);
        assert(results@.map_values(|c: CommitResult| commit_view(c)) =~= Seq::empty());
    }
    while j < commits.len()
        invariant
            j <= commits@.len(),
            cv == commits_view(commits@),
            start == old(store)@,
            store.wf(),
            room_for(store@, all_mutations(cv.skip(j as int))),
            replay_missing_all(start, cv.take(j as int)) == (store@, Ok::<Seq<(u64, Seq<NodeId>, Seq<EdgeId>)>, IdentityError>(results@.map_values(|c: CommitResult| commit_view(c)))),
            built_by_adding(start) ==> built_by_adding(store@),
        decreases commits@.len() - j,
    {
        let ghost before = store@;
        proof {
            assert(cv.take(j + 1).drop_last() =~= cv.take(j as int));
            assert(cv.take(j + 1).last() == cv[j as int]);
            assert(cv[j as int] == (mutations_view(commits@[j as int].0.mutations@), commit_view(commits@[j as int].1)));
            lemma_all_mutations_push(cv.skip(j as int), 0);
            assert(cv.skip(j as int).take(0) =~= Seq::empty());
            assert(all_mutations(cv.skip(j as int).take(0)) =~= Seq::empty());
            assert(cv.skip(j as int).skip(1) =~= cv.skip(j + 1));
            assert(cv.skip(j as int)[0] == cv[j as int]);
            assert(all_mutations(cv.skip(j as int)) =~= cv[j as int].0 + all_mutations(cv.skip(j + 1)));
            lemma_room_after(before, cv[j as int].0, all_mutations(cv.skip(j + 1)), true);
            lemma_apply_growth(before, cv[j as int].0, true);
            lemma_names_in_add(cv[j as int].0, all_mutations(cv.skip(j + 1)));
        }
        let commit = &commits[j];
        let mut working = store.clone();
        match apply_missing_mutations(&mut working, &commit.0.mutations) {
            Ok((nodes, edges)) => {
                if nodes.len() == 0 && edges.len() == 0 {
                    j = j + 1;
                    continue;
                }
                *store = working;
            },
            Err(e) => {
                proof {
                    lemma_replay_missing_stops(start, cv, j as int);
                }
                return Err(e);
            },
        }
        let ghost old_results = results@;
        results.push(commit.1.clone());
        proof {
            assert(results@.map_values(|c: CommitResult| commit_view(c)) =~= old_results.map_values(|c: CommitResult| commit_view(c)).push(cv[j as int].1));
        }
        j = j + 1;
    }
    proof {
        assert(cv.take(j as int) =~= cv);
    }
    Ok(results)
}


impl JournalState {
    /// Every committed transaction with its result, cloned, in order of sequence number.
    pub fn commits_in_order(&self) -> (r: Vec<(Transaction, CommitResult)>)
        requires
            self.wf(),
        ensures
            r@.len() == self@.committed.dom().len(),
            forall|i: int| 0 <= i < r@.len() ==> {
                let k = (#[trigger] r@[i]).0.idempotency_key@;
                self@.committed.contains_key(k) && self@.committed[k] == (mutations_view(r@[i].0.mutations@), commit_view(r@[i].1))
            },
            forall|i: int, j: int| 0 <= i < r@.len() && 0 <= j < r@.len() && i != j ==> (#[trigger] r@[i]).0.idempotency_key@ != (#[trigger] r@[j]).0.idempotency_key@,
            forall|i: int, j: int| 0 <= i < j < r@.len() ==> (#[trigger] r@[i]).1.sequence <= (#[trigger] r@[j]).1.sequence,
    {
        proof {
            self.committed.lemma_view_entries();
        }
        let ghost es = self.committed.entries();
        let n = self.committed.len();
        let mut pairs: Vec<(u64, u64)> = Vec::new();
        let mut i: usize = 0;
        while i < n
            invariant
                i <= n,
                n == es.len(),
                es == self.committed.entries(),
                self.wf(),
                pairs@.len() == i,
                forall|m: int| 0 <= m < i ==> #[trigger] pairs@[m] == (es[m].1.1.sequence, m as u64),
            decreases n - i,
        {
            let e = self.committed.entry_at(i);
            pairs.push((e.1.1.sequence, i as u64));
            i = i + 1;
        }
        let ghost unsorted = pairs@;
        proof {
            assert(unsorted.no_duplicates()) by {
                assert forall|a: int, b: int| 0 <= a < unsorted.len() && 0 <= b < unsorted.len() && a != b implies unsorted[a] != unsorted[b] by {
                    assert(unsorted[a].1 == a as u64);
                    assert(unsorted[b].1 == b as u64);
                }
            }
        }
        crate::query::sort_positions(&mut pairs);
        let ghost sorted = pairs@;
        proof {
            crate::query::lemma_permutation_facts(unsorted, sorted);
            vstd::seq_lib::to_multiset_len(unsorted);
            vstd::seq_lib::to_multiset_len(sorted);
        }
        let mut out: Vec<(Transaction, CommitResult)> = Vec::new();
        let mut j: usize = 0;
        while j < pairs.len()
            invariant
                j <= pairs@.len(),
                pairs@ == sorted,
                sorted.len() == n,
                n == es.len(),
                es == self.committed.entries(),
                self.wf(),
                sorted.no_duplicates(),
                forall|x: (u64, u64)| unsorted.contains(x) <==> sorted.contains(x),
                unsorted.len() == n,
                forall|m: int| 0 <= m < n ==> #[trigger] unsorted[m] == (es[m].1.1.sequence, m as u64),
                forall|a: int, b: int| 0 <= a < b < sorted.len() ==> crate::query::key_le(sorted[a], sorted[b]),
                out@.len() == j,
                forall|m: int| 0 <= m < j ==> (#[trigger] out@[m]).0.idempotency_key@ == es[sorted[m].1 as int].0@
                    && mutations_view(out@[m].0.mutations@) == mutations_view(es[sorted[m].1 as int].1.0.mutations@)
                    && commit_view(out@[m].1) == commit_view(es[sorted[m].1 as int].1.1)
                    && sorted[m].1 < n && sorted[m].0 == es[sorted[m].1 as int].1.1.sequence,
            decreases pairs@.len() - j,
        {
            let p = pairs[j];
            proof {
                assert(sorted.contains(p));
                assert(unsorted.contains(p));
                let m = choose|m: int| 0 <= m < unsorted.len() && unsorted[m] == p;
                assert(unsorted[m] == (es[m].1.1.sequence, m as u64));
            }
            let e = self.committed.entry_at(p.1 as usize);
            let t = e.1.0.clone();
            let res = e.1.1.clone();
            proof {
                assert(t.idempotency_key@ == e.1.0.idempotency_key@);
            }
            out.push((t, res));
            proof {
                assert(self@.committed.contains_key(es[p.1 as int].0.key()));
            }
            j = j + 1;
        }
        proof {
            assert(out@.len() == j);
            assert(j == pairs@.len());
            let c = self.committed@;
            assert forall|q: int| 0 <= q < out@.len() implies self@.committed.contains_key((#[trigger] out@[q]).0.idempotency_key@)
                && self@.committed[out@[q].0.idempotency_key@] == (mutations_view(out@[q].0.mutations@), commit_view(out@[q].1)) by {
                assert(0 <= q < j);
                assert(out@[q].0.idempotency_key@ == es[sorted[q].1 as int].0@);
                assert(sorted[q].1 < n);
                let idx = sorted[q].1 as int;
                assert(0 <= idx < es.len());
                assert(c.contains_key(es[idx].0.key()));
                assert(c[es[idx].0.key()] == es[idx].1);
                assert(es[idx].0@ == es[idx].0.key());
            }
            assert forall|a: int, b: int| 0 <= a < out@.len() && 0 <= b < out@.len() && a != b implies (#[trigger] out@[a]).0.idempotency_key@ != (#[trigger] out@[b]).0.idempotency_key@ by {
                assert(out@[a].0.idempotency_key@ == es[sorted[a].1 as int].0@);
                assert(out@[b].0.idempotency_key@ == es[sorted[b].1 as int].0@);
                assert(sorted[a].1 < n && sorted[b].1 < n);
                let ia = sorted[a].1 as int;
                let ib = sorted[b].1 as int;
                if ia == ib {
                    assert(sorted[a] == sorted[b]);
                } else {
                    assert(es[ia].0.key() != es[ib].0.key());
                }
            }
            assert forall|a: int, b: int| 0 <= a < b < out@.len() implies (#[trigger] out@[a]).1.sequence <= (#[trigger] out@[b]).1.sequence by {
                assert(crate::query::key_le(sorted[a], sorted[b]));
            }
            assert(self@.committed.dom() =~= c.dom());
        }
        out
    }
}

/// Recovery gives back what was committed: when each batch, applied to the store left by
/// the batches before it, succeeded with the ids its commit record holds, replaying the
/// commit records in order from the same starting store rebuilds the final store and
/// reports those records' results.
pub proof fn replay_rebuilds_committed_state(
    states: Seq<StoreView>,
    commits: Seq<(Seq<MutationView>, (u64, Seq<NodeId>, Seq<EdgeId>))>,
)
    requires
        states.len() == commits.len() + 1,
        forall|i: int| 0 <= i < commits.len() ==> #[trigger] apply_all(states[i], commits[i].0, false) == (
            states[i + 1],
            Ok::<(Seq<NodeId>, Seq<EdgeId>), IdentityError>((commits[i].1.1, commits[i].1.2)),
        ),
    ensures
        replay_all(states[0], commits) == (
            states[commits.len() as int],
            Ok::<Seq<(u64, Seq<NodeId>, Seq<EdgeId>)>, IdentityError>(commits.map_values(|c: (Seq<MutationView>, (u64, Seq<NodeId>, Seq<EdgeId>))| c.1)),
        ),
    decreases commits.len(),
{
    if commits.len() > 0 {
        let n = commits.len() - 1;
        let front = commits.drop_last();
        assert forall|i: int| 0 <= i < front.len() implies #[trigger] apply_all(states.drop_last()[i], front[i].0, false) == (
            states.drop_last()[i + 1],
            Ok::<(Seq<NodeId>, Seq<EdgeId>), IdentityError>((front[i].1.1, front[i].1.2)),
        ) by {
            assert(front[i] == commits[i]);
            assert(states.drop_last()[i] == states[i]);
            assert(states.drop_last()[i + 1] == states[i + 1]);
            assert(apply_all(states[i], commits[i].0, false) == (states[i + 1], Ok::<(Seq<NodeId>, Seq<EdgeId>), IdentityError>((commits[i].1.1, commits[i].1.2))));
        }
        replay_rebuilds_committed_state(states.drop_last(), front);
        assert(states.drop_last()[0] == states[0]);
        assert(states.drop_last()[n] == states[n]);
        assert(apply_all(states[n], commits[n].0, false) == (states[n + 1], Ok::<(Seq<NodeId>, Seq<EdgeId>), IdentityError>((commits[n].1.1, commits[n].1.2))));
        assert(commits.last() == commits[n]);
        assert(front.map_values(|c: (Seq<MutationView>, (u64, Seq<NodeId>, Seq<EdgeId>))| c.1).push(commits[n].1)
            =~= commits.map_values(|c: (Seq<MutationView>, (u64, Seq<NodeId>, Seq<EdgeId>))| c.1));
    } else {
        assert(commits.map_values(|c: (Seq<MutationView>, (u64, Seq<NodeId>, Seq<EdgeId>))| c.1) =~= Seq::<(u64, Seq<NodeId>, Seq<EdgeId>)>::empty());
    }
}

/// A batch is applied at most once: once a batch is noted committed under its key, every
/// later commit attempt with that key finds it committed (so `prior_result` answers it
/// with the recorded result and nothing is applied again), and it is no longer pending.
pub proof fn committed_batch_is_not_applied_again(
    j: JournalView,
    key: Seq<char>,
    mutations: Seq<MutationView>,
    result: (u64, Seq<NodeId>, Seq<EdgeId>),
)
    ensures
        noted_committed(j, key, mutations, result).committed.contains_key(key),
        noted_committed(j, key, mutations, result).committed[key].1 == result,
        !noted_committed(j, key, mutations, result).prepared.contains_key(key),
{
}

} // verus!
