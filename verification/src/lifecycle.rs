//! Retention, correction, and deletion primitives for tenant data.

use crate::identity::NamespaceId;
use crate::keyed::{KeyedMap, Keyed};
use vstd::prelude::*;

verus! {

/// A record's identity within its tenant: namespace plus external id.
#[derive(Debug, Eq, Hash)]
pub struct RecordKey {
    pub namespace: NamespaceId,
    pub external_id: String,
}

impl RecordKey {
    /// The abstract identity of the record.
    pub open spec fn id(&self) -> (Seq<char>, Seq<char>) {
        (self.namespace@, self.external_id@)
    }
}

impl Clone for RecordKey {
    fn clone(&self) -> (r: Self)
        ensures
            r == *self,
    {
        RecordKey { namespace: self.namespace.clone(), external_id: self.external_id.clone() }
    }
}

impl PartialEq for RecordKey {
    fn eq(&self, other: &Self) -> (r: bool) {
        self.namespace == other.namespace && self.external_id == other.external_id
    }
}

impl vstd::std_specs::cmp::PartialEqSpecImpl for RecordKey {
    open spec fn obeys_eq_spec() -> bool {
        true
    }

    open spec fn eq_spec(&self, other: &Self) -> bool {
        self.id() == other.id()
    }
}

impl Keyed for RecordKey {
    type KeyView = (Seq<char>, Seq<char>);

    open spec fn key(&self) -> (Seq<char>, Seq<char>) {
        self.id()
    }

    fn same_key(&self, other: &Self) -> (r: bool) {
        self == other
    }
}

#[derive(Debug)]
pub struct Tombstone {
    pub key: RecordKey,
    pub deleted_at: u64,
    pub reason: String,
    pub schema_version: u16,
}

impl Clone for Tombstone {
    fn clone(&self) -> (r: Self)
        ensures
            r == *self,
    {
        Tombstone {
            key: self.key.clone(),
            deleted_at: self.deleted_at,
            reason: self.reason.clone(),
            schema_version: self.schema_version,
        }
    }
}

#[derive(Clone, Copy, Debug)]
pub struct RetentionPolicy {
    pub retention_seconds: u64,
    pub preserve_audit: bool,
}

#[derive(Clone, Copy, Debug, PartialEq, Eq, Structural)]
pub enum LifecycleError {
    EmptyId,
    Tombstoned,
    SelfSupersession,
}

/// The keys of `keys` that a deletion in `namespace` would act on, in order: those in
/// the namespace that are not tombstoned yet.
pub open spec fn deletion_plan_spec(
    tombstones: Map<(Seq<char>, Seq<char>), Tombstone>,
    namespace: Seq<char>,
    keys: Seq<RecordKey>,
) -> Seq<RecordKey>
    decreases keys.len(),
{
    if keys.len() == 0 {
        Seq::empty()
    } else {
        let rest = deletion_plan_spec(tombstones, namespace, keys.drop_last());
        let k = keys.last();
        if k.namespace@ == namespace && !tombstones.contains_key(k.id()) {
            rest.push(k)
        } else {
            rest
        }
    }
}

/// A replayed write of `key` is refused when the key is tombstoned.
pub open spec fn replay_verdict(tombstones: Map<(Seq<char>, Seq<char>), Tombstone>, key: RecordKey) -> Result<(), LifecycleError> {
    if tombstones.contains_key(key.id()) {
        Err(LifecycleError::Tombstoned)
    } else {
        Ok(())
    }
}

/// Whether a tombstone deleted at `deleted_at` may be compacted at `now`.
pub open spec fn compaction_due(deleted_at: u64, now: u64, retention_seconds: u64) -> bool {
    (if now >= deleted_at { now - deleted_at } else { 0 }) >= retention_seconds
}

/// Tombstones, retractions, and supersessions of tenant records.
pub struct LifecycleRegistry {
    tombstones: KeyedMap<RecordKey, Tombstone>,
    retractions: KeyedMap<RecordKey, ()>,
    superseded_by: KeyedMap<RecordKey, RecordKey>,
}

impl LifecycleRegistry {
    /// The maps are well formed and each tombstone is stored under its own key.
    pub closed spec fn wf(&self) -> bool {
        &&& self.tombstones.wf()
        &&& self.retractions.wf()
        &&& self.superseded_by.wf()
        &&& forall|k: (Seq<char>, Seq<char>)| #[trigger]
            self.tombstones@.contains_key(k) ==> self.tombstones@[k].key.id() == k
    }

    /// Tombstones by record.
    pub closed spec fn tombstone_map(&self) -> Map<(Seq<char>, Seq<char>), Tombstone> {
        self.tombstones@
    }

    /// Retracted records.
    pub closed spec fn retracted(&self) -> Set<(Seq<char>, Seq<char>)> {
        self.retractions@.dom()
    }

    /// Replacement of each superseded record.
    pub closed spec fn replacements(&self) -> Map<(Seq<char>, Seq<char>), RecordKey> {
        self.superseded_by@
    }

    pub fn new() -> (r: Self)
        ensures
            r.wf(),
            r.tombstone_map().is_empty(),
            r.retracted().is_empty(),
            r.replacements().is_empty(),
    {
        let r = LifecycleRegistry {
            tombstones: KeyedMap::new(),
            retractions: KeyedMap::new(),
            superseded_by: KeyedMap::new(),
        };
        assert(r.retracted() =~= Set::empty());
        r
    }

    /// Marks `key` retracted; `Ok(true)` when it was not retracted before.
    pub fn retract(&mut self, key: RecordKey) -> (r: Result<bool, LifecycleError>)
        requires
            old(self).wf(),
        ensures
            final(self).wf(),
            final(self).tombstone_map() == old(self).tombstone_map(),
            final(self).replacements() == old(self).replacements(),
            key.external_id@.len() == 0 ==> r == Err::<bool, _>(LifecycleError::EmptyId)
                && final(self).retracted() == old(self).retracted(),
            key.external_id@.len() > 0 ==> r == Ok::<bool, LifecycleError>(
                !old(self).retracted().contains(key.id()),
            ) && final(self).retracted() == old(self).retracted().insert(key.id()),
    {
        if key.external_id.as_str().is_empty() {
            return Err(LifecycleError::EmptyId);
        }
        let fresh = !self.retractions.contains_key(&key);
        self.retractions.insert(key, ());
        Ok(fresh)
    }

    /// Records that `old_key` is superseded by `replacement`.
    pub fn supersede(&mut self, old_key: RecordKey, replacement: RecordKey) -> (r: Result<(), LifecycleError>)
        requires
            old(self).wf(),
        ensures
            final(self).wf(),
            final(self).tombstone_map() == old(self).tombstone_map(),
            final(self).retracted() == old(self).retracted(),
            r == (if old_key.external_id@.len() == 0 || replacement.external_id@.len() == 0 {
                Err(LifecycleError::EmptyId)
            } else if old_key.id() == replacement.id() {
                Err(LifecycleError::SelfSupersession)
            } else {
                Ok(())
            }),
            r is Ok ==> final(self).replacements() == old(self).replacements().insert(old_key.id(), replacement),
            r is Err ==> final(self).replacements() == old(self).replacements(),
    {
        if old_key.external_id.as_str().is_empty() || replacement.external_id.as_str().is_empty() {
            return Err(LifecycleError::EmptyId);
        }
        if old_key == replacement {
            return Err(LifecycleError::SelfSupersession);
        }
        self.superseded_by.insert(old_key, replacement);
        Ok(())
    }

    /// Records a tombstone for its key, replacing any earlier one.
    pub fn tombstone(&mut self, tombstone: Tombstone) -> (r: Result<(), LifecycleError>)
        requires
            old(self).wf(),
        ensures
            final(self).wf(),
            final(self).retracted() == old(self).retracted(),
            final(self).replacements() == old(self).replacements(),
            tombstone.key.external_id@.len() == 0 ==> r == Err::<(), _>(LifecycleError::EmptyId)
                && final(self).tombstone_map() == old(self).tombstone_map(),
            tombstone.key.external_id@.len() > 0 ==> r == Ok::<(), LifecycleError>(())
                && final(self).tombstone_map() == old(self).tombstone_map().insert(tombstone.key.id(), tombstone),
    {
        if tombstone.key.external_id.as_str().is_empty() {
            return Err(LifecycleError::EmptyId);
        }
        let key = tombstone.key.clone();
        self.tombstones.insert(key, tombstone);
        Ok(())
    }

    /// A tombstoned record must not be resurrected by a replayed write.
    pub fn accepts_replay(&self, key: &RecordKey) -> (r: Result<(), LifecycleError>)
        requires
            self.wf(),
        ensures
            r == replay_verdict(self.tombstone_map(), *key),
    {
        if self.tombstones.contains_key(key) {
            Err(LifecycleError::Tombstoned)
        } else {
            Ok(())
        }
    }

    pub fn is_retracted(&self, key: &RecordKey) -> (r: bool)
        requires
            self.wf(),
        ensures
            r == self.retracted().contains(key.id()),
    {
        self.retractions.contains_key(key)
    }

    pub fn replacement(&self, key: &RecordKey) -> (r: Option<&RecordKey>)
        requires
            self.wf(),
        ensures
            match r {
                Some(k) => self.replacements().contains_key(key.id()) && *k == self.replacements()[key.id()],
                None => !self.replacements().contains_key(key.id()),
            },
    {
        self.superseded_by.get(key)
    }

    pub fn get_tombstone(&self, key: &RecordKey) -> (r: Option<&Tombstone>)
        requires
            self.wf(),
        ensures
            match r {
                Some(t) => self.tombstone_map().contains_key(key.id()) && *t == self.tombstone_map()[key.id()],
                None => !self.tombstone_map().contains_key(key.id()),
            },
    {
        self.tombstones.get(key)
    }

    /// The keys that a deletion in `namespace` acts on: those in the namespace and not
    /// already tombstoned, in the given order.
    pub fn deletion_plan(&self, namespace: &NamespaceId, keys: Vec<RecordKey>) -> (r: Vec<RecordKey>)
        requires
            self.wf(),
        ensures
            r@ == deletion_plan_spec(self.tombstone_map(), namespace@, keys@),
            forall|i: int| 0 <= i < r@.len() ==> keys@.contains(#[trigger] r@[i]) && r@[i].namespace@ == namespace@
                && !self.tombstone_map().contains_key(r@[i].id()),
            forall|j: int| 0 <= j < keys@.len() && (#[trigger] keys@[j]).namespace@ == namespace@
                && !self.tombstone_map().contains_key(keys@[j].id()) ==> r@.contains(keys@[j]),
    {
        proof {
            deletion_plan_is_the_live_keys_of_the_namespace(self.tombstone_map(), namespace@, keys@);
        }
        let mut out: Vec<RecordKey> = Vec::new();
        let mut i: usize = 0;
        while i < keys.len()
            invariant
                self.wf(),
                0 <= i <= keys@.len(),
                out@ == deletion_plan_spec(self.tombstone_map(), namespace@, keys@.take(i as int)),
            decreases keys@.len() - i,
        {
            let key = &keys[i];
            proof {
                assert(keys@.take(i + 1).drop_last() =~= keys@.take(i as int));
                assert(keys@.take(i + 1).last() == keys@[i as int]);
            }
            if &key.namespace == namespace && !self.tombstones.contains_key(key) {
                out.push(key.clone());
            }
            i = i + 1;
        }
        proof {
            assert(keys@.take(keys@.len() as int) =~= keys@);
        }
        out
    }

    /// A tombstoned record may be compacted once its retention period has elapsed.
    pub fn eligible_for_compaction(&self, key: &RecordKey, now: u64, policy: &RetentionPolicy) -> (r: bool)
        requires
            self.wf(),
        ensures
            r == (self.tombstone_map().contains_key(key.id()) && compaction_due(
                self.tombstone_map()[key.id()].deleted_at,
                now,
                policy.retention_seconds,
            )),
    {
        match self.tombstones.get(key) {
            Some(t) => now.saturating_sub(t.deleted_at) >= policy.retention_seconds,
            None => false,
        }
    }

    /// Every tombstone, each once, in the order they were first recorded.
    pub fn tombstones(&self) -> (r: Vec<Tombstone>)
        requires
            self.wf(),
        ensures
            r@.len() == self.tombstone_map().dom().len(),
            forall|i: int| 0 <= i < r@.len() ==> self.tombstone_map().contains_key(#[trigger] r@[i].key.id())
                && self.tombstone_map()[r@[i].key.id()] == r@[i],
            forall|i: int, j: int| 0 <= i < r@.len() && 0 <= j < r@.len() && i != j ==> #[trigger] r@[i].key.id() != #[trigger] r@[j].key.id(),
    {
        let n = self.tombstones.len();
        let mut out: Vec<Tombstone> = Vec::new();
        let mut i: usize = 0;
        proof {
            self.tombstones.lemma_view_entries();
        }
        while i < n
            invariant
                self.wf(),
                n == self.tombstones.entries().len(),
                0 <= i <= n,
                out@.len() == i,
                forall|j: int| 0 <= j < i ==> #[trigger] out@[j] == self.tombstones.entries()[j].1,
                forall|j: int| 0 <= j < n ==> self.tombstones@.contains_key(#[trigger] self.tombstones.entries()[j].0.key())
                    && self.tombstones@[self.tombstones.entries()[j].0.key()] == self.tombstones.entries()[j].1,
                crate::keyed::keys_distinct(self.tombstones.entries()),
            decreases n - i,
        {
            let entry = self.tombstones.entry_at(i);
            out.push(entry.1.clone());
            i = i + 1;
        }
        proof {
            assert forall|i: int| 0 <= i < out@.len() implies self.tombstone_map().contains_key(#[trigger] out@[i].key.id())
                && self.tombstone_map()[out@[i].key.id()] == out@[i] by {
                let k = self.tombstones.entries()[i].0.key();
                assert(self.tombstones@[k].key.id() == k);
            }
            assert forall|i: int, j: int| 0 <= i < out@.len() && 0 <= j < out@.len() && i != j implies #[trigger] out@[i].key.id() != #[trigger] out@[j].key.id() by {
                let ki = self.tombstones.entries()[i].0.key();
                let kj = self.tombstones.entries()[j].0.key();
                assert(self.tombstones@[ki].key.id() == ki);
                assert(self.tombstones@[kj].key.id() == kj);
            }
        }
        out
    }
}

impl Default for LifecycleRegistry {
    fn default() -> (r: Self)
        ensures
            r.wf(),
            r.tombstone_map().is_empty(),
            r.retracted().is_empty(),
            r.replacements().is_empty(),
    {
        LifecycleRegistry::new()
    }
}

/// A tombstoned record is refused on replay: after a tombstone is recorded for a key,
/// a replayed write of that key is refused as tombstoned.
pub proof fn tombstoned_record_is_not_replayed(tombstones: Map<(Seq<char>, Seq<char>), Tombstone>, tombstone: Tombstone)
    ensures
        replay_verdict(tombstones.insert(tombstone.key.id(), tombstone), tombstone.key)
            == Err::<(), LifecycleError>(LifecycleError::Tombstoned),
{
}

/// Once a tombstone may be compacted, it stays so: compaction is due at every later time.
pub proof fn compaction_stays_due(deleted_at: u64, now: u64, later: u64, retention_seconds: u64)
    requires
        compaction_due(deleted_at, now, retention_seconds),
        now <= later,
    ensures
        compaction_due(deleted_at, later, retention_seconds),
{
}

/// A deletion plan acts on exactly the live records of its namespace among the keys
/// given: every planned key is one of them, lies in the namespace and is not
/// tombstoned, and every given key in the namespace that is not tombstoned is planned.
pub proof fn deletion_plan_is_the_live_keys_of_the_namespace(
    tombstones: Map<(Seq<char>, Seq<char>), Tombstone>,
    namespace: Seq<char>,
    keys: Seq<RecordKey>,
)
    ensures
        forall|i: int| 0 <= i < deletion_plan_spec(tombstones, namespace, keys).len() ==> {
            let k = #[trigger] deletion_plan_spec(tombstones, namespace, keys)[i];
            &&& keys.contains(k)
            &&& k.namespace@ == namespace
            &&& !tombstones.contains_key(k.id())
        },
        forall|j: int| 0 <= j < keys.len() && (#[trigger] keys[j]).namespace@ == namespace && !tombstones.contains_key(
            keys[j].id(),
        ) ==> deletion_plan_spec(tombstones, namespace, keys).contains(keys[j]),
    decreases keys.len(),
{
    if keys.len() > 0 {
        let front = keys.drop_last();
        deletion_plan_is_the_live_keys_of_the_namespace(tombstones, namespace, front);
        let rest = deletion_plan_spec(tombstones, namespace, front);
        let plan = deletion_plan_spec(tombstones, namespace, keys);
        let k = keys.last();
        assert forall|i: int| 0 <= i < plan.len() implies {
            let x = #[trigger] plan[i];
            &&& keys.contains(x)
            &&& x.namespace@ == namespace
            &&& !tombstones.contains_key(x.id())
        } by {
            if i < rest.len() {
                assert(plan[i] == rest[i]);
                let x = rest[i];
                assert(front.contains(x));
                let m = choose|m: int| 0 <= m < front.len() && front[m] == x;
                assert(keys[m] == x);
            } else {
                assert(plan[i] == k);
                assert(keys[keys.len() - 1] == k);
            }
        }
        assert forall|j: int| 0 <= j < keys.len() && (#[trigger] keys[j]).namespace@ == namespace && !tombstones.contains_key(
            keys[j].id(),
        ) implies plan.contains(keys[j]) by {
            if j < keys.len() - 1 {
                assert(front[j] == keys[j]);
                assert(rest.contains(keys[j]));
                let m = choose|m: int| 0 <= m < rest.len() && rest[m] == keys[j];
                assert(plan[m] == keys[j]);
            } else {
                assert(plan[plan.len() - 1] == k);
            }
        }
    }
}

} // verus!
