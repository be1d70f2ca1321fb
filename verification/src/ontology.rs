//! Interned string table for ontology strings (labels, relations, property keys).

use crate::id::{KeyId, LabelId, RelationId};
use vstd::prelude::*;

verus! {

/// Declares `ahash::AHashMap`, the hash map the string table and the graph store use.
#[verifier::external_type_specification]
#[verifier::external_body]
#[verifier::reject_recursive_types(K)]
#[verifier::reject_recursive_types(V)]
#[verifier::reject_recursive_types(S)]
pub struct ExAHashMap<K, V, S>(ahash::AHashMap<K, V, S>);

/// Declares `ahash::RandomState`, the default hasher state of `AHashMap`.
#[verifier::external_type_specification]
#[verifier::external_body]
pub struct ExAHashRandomState(ahash::RandomState);

/// What an `AHashMap<String, u32>` holds: each string, by its characters, mapped to its id.
pub uninterp spec fn string_ids(m: ahash::AHashMap<String, u32>) -> Map<Seq<char>, u32>;

/// Calls `AHashMap::new`: the new map is empty.
#[verifier::external_body]
fn string_ids_new() -> (m: ahash::AHashMap<String, u32>)
    ensures
        string_ids(m).is_empty(),
{
    ahash::AHashMap::new()
}

/// Calls `AHashMap::get` with a string key and copies the value out: the id stored
/// under `s`, if any.
#[verifier::external_body]
fn string_ids_get(m: &ahash::AHashMap<String, u32>, s: &str) -> (r: Option<u32>)
    ensures
        match r {
            Some(id) => string_ids(*m).contains_key(s@) && string_ids(*m)[s@] == id,
            None => !string_ids(*m).contains_key(s@),
        },
{
    m.get(s).copied()
}

/// Calls `AHashMap::insert`: afterwards `s` maps to `id` and every other entry is kept.
#[verifier::external_body]
fn string_ids_insert(m: &mut ahash::AHashMap<String, u32>, s: String, id: u32)
    ensures
        string_ids(*final(m)) == string_ids(*old(m)).insert(s@, id),
{
    m.insert(s, id);
}

/// Calls `AHashMap::clone`: the copy holds the same entries.
#[verifier::external_body]
fn string_ids_clone(m: &ahash::AHashMap<String, u32>) -> (r: ahash::AHashMap<String, u32>)
    ensures
        string_ids(r) == string_ids(*m),
{
    m.clone()
}

/// Clones a vector of strings.
pub fn clone_strings(v: &Vec<String>) -> (r: Vec<String>)
    ensures
        r@.len() == v@.len(),
        forall|i: int| 0 <= i < v@.len() ==> #[trigger] r@[i] == v@[i],
{
    let mut out: Vec<String> = Vec::new();
    let mut i: usize = 0;
    while i < v.len()
        invariant
            0 <= i <= v@.len(),
            out@.len() == i,
            forall|j: int| 0 <= j < i ==> #[trigger] out@[j] == v@[j],
        decreases v@.len() - i,
    {
        out.push(v[i].clone());
        i = i + 1;
    }
    out
}

/// Interned string table: strings by id, and ids by string.
/// Serializable so it can be stored as the global dictionary in a PADAGONIA file.
#[derive(Debug)]
pub struct StringTable {
    by_id: Vec<String>,
    by_str: ahash::AHashMap<String, u32>,
}

/// The strings of `s` as character sequences.
pub open spec fn string_views(s: Seq<String>) -> Seq<Seq<char>> {
    Seq::new(s.len(), |i: int| s[i]@)
}

impl StringTable {
    /// The interned strings, by id.
    pub closed spec fn view(&self) -> Seq<Seq<char>> {
        string_views(self.by_id@)
    }

    /// Ids fit in `u32`, no string is interned twice, and the reverse map sends each
    /// string to its id.
    pub closed spec fn wf(&self) -> bool {
        &&& self.by_id@.len() <= u32::MAX
        &&& forall|i: int, j: int|
            0 <= i < self.by_id@.len() && 0 <= j < self.by_id@.len() && i != j ==> #[trigger] self.by_id@[i]@
                != #[trigger] self.by_id@[j]@
        &&& forall|k: Seq<char>| #[trigger]
            string_ids(self.by_str).contains_key(k) <==> exists|i: int|
                0 <= i < self.by_id@.len() && #[trigger] self.by_id@[i]@ == k
        &&& forall|i: int| 0 <= i < self.by_id@.len() ==> #[trigger] string_ids(self.by_str)[self.by_id@[i]@] == i
    }

    /// The strings of a well-formed table are distinct and number at most `u32::MAX`.
    pub proof fn lemma_distinct(&self)
        requires
            self.wf(),
        ensures
            self@.len() <= u32::MAX,
            forall|i: int, j: int| 0 <= i < self@.len() && 0 <= j < self@.len() && i != j ==> self@[i] != self@[j],
    {
        assert forall|i: int, j: int| 0 <= i < self@.len() && 0 <= j < self@.len() && i != j implies self@[i] != self@[j] by {
            assert(self.by_id@[i]@ != self.by_id@[j]@);
        }
    }

    /// Builds a table from strings by id, as stored on disk; `None` when a string
    /// occurs twice or there are more than `u32::MAX` of them.
    pub fn from_strings(strings: Vec<String>) -> (r: Option<Self>)
        ensures
            match r {
                Some(t) => t.wf() && t@ == string_views(strings@),
                None => strings@.len() > u32::MAX || exists|i: int, j: int|
                    0 <= i < j < strings@.len() && strings@[i]@ == strings@[j]@,
            },
    {
        if strings.len() > 0xffff_ffff {
            return None;
        }
        let mut table = StringTable::new();
        let mut i: usize = 0;
        while i < strings.len()
            invariant
                0 <= i <= strings@.len(),
                strings@.len() <= u32::MAX,
                table.wf(),
                table@ == string_views(strings@.take(i as int)),
                forall|a: int, b: int| 0 <= a < b < i ==> strings@[a]@ != strings@[b]@,
            decreases strings@.len() - i,
        {
            let s = strings[i].as_str();
            if table.lookup(s).is_some() {
                proof {
                    let a = choose|a: int| 0 <= a < table@.len() && table@[a] == s@;
                    assert(strings@[a]@ == strings@[i as int]@);
                }
                return None;
            }
            proof {
                assert forall|a: int| 0 <= a < i implies strings@[a]@ != strings@[i as int]@ by {
                    assert(table@[a] == strings@.take(i as int)[a]@);
                }
            }
            let _ = table.intern(s);
            proof {
                assert(string_views(strings@.take(i + 1)) =~= string_views(strings@.take(i as int)).push(strings@[i as int]@));
            }
            i = i + 1;
        }
        proof {
            assert(strings@.take(strings@.len() as int) =~= strings@);
        }
        Some(table)
    }

    /// The strings by id, as stored on disk.
    pub fn strings(&self) -> (r: Vec<String>)
        ensures
            string_views(r@) == self@,
    {
        let r = clone_strings(&self.by_id);
        assert(string_views(r@) =~= self@);
        r
    }

    pub fn new() -> (t: Self)
        ensures
            t.wf(),
            t@ == Seq::<Seq<char>>::empty(),
    {
        let t = StringTable { by_id: Vec::new(), by_str: string_ids_new() };
        assert(t@ =~= Seq::<Seq<char>>::empty());
        t
    }

    /// The id of `s`, if it is interned.
    pub fn lookup(&self, s: &str) -> (r: Option<u32>)
        requires
            self.wf(),
        ensures
            match r {
                Some(id) => id < self@.len() && self@[id as int] == s@,
                None => !self@.contains(s@),
            },
    {
        let r = string_ids_get(&self.by_str, s);
        proof {
            match r {
                Some(id) => {
                    let i = choose|i: int| 0 <= i < self.by_id@.len() && #[trigger] self.by_id@[i]@ == s@;
                    assert(string_ids(self.by_str)[self.by_id@[i]@] == i);
                    assert(self@[i] == s@);
                },
                None => {
                    if self@.contains(s@) {
                        let i = choose|i: int| 0 <= i < self@.len() && self@[i] == s@;
                        assert(self.by_id@[i]@ == s@);
                    }
                },
            }
        }
        r
    }

    /// Intern a string and return its compact id. Existing strings return the same id;
    /// a new string receives the next id.
    pub fn intern(&mut self, s: &str) -> (id: u32)
        requires
            old(self).wf(),
            old(self)@.contains(s@) || old(self)@.len() < u32::MAX,
        ensures
            final(self).wf(),
            old(self)@.contains(s@) ==> final(self)@ == old(self)@ && id < old(self)@.len()
                && old(self)@[id as int] == s@,
            !old(self)@.contains(s@) ==> final(self)@ == old(self)@.push(s@) && id == old(self)@.len(),
    {
        if let Some(id) = self.lookup(s) {
            return id;
        }
        let id = self.by_id.len() as u32;
        let owned = s.to_owned();
        let ghost old_ids = self.by_id@;
        let ghost old_map = string_ids(self.by_str);
        string_ids_insert(&mut self.by_str, owned.clone(), id);
        self.by_id.push(owned);
        proof {
            let n = old_ids.len() as int;
            assert(self@ =~= old(self)@.push(s@));
            assert forall|i: int, j: int|
                0 <= i < self.by_id@.len() && 0 <= j < self.by_id@.len() && i != j implies #[trigger] self.by_id@[i]@
                    != #[trigger] self.by_id@[j]@ by {
                if i < n && j < n {
                    assert(old_ids[i]@ != old_ids[j]@);
                } else if i < n {
                    assert(old(self)@[i] == old_ids[i]@);
                } else {
                    assert(old(self)@[j] == old_ids[j]@);
                }
            }
            assert forall|k: Seq<char>| #[trigger]
                string_ids(self.by_str).contains_key(k) <==> exists|i: int|
                    0 <= i < self.by_id@.len() && #[trigger] self.by_id@[i]@ == k by {
                if string_ids(self.by_str).contains_key(k) && k != s@ {
                    let i = choose|i: int| 0 <= i < old_ids.len() && #[trigger] old_ids[i]@ == k;
                    assert(self.by_id@[i]@ == k);
                }
                if k == s@ {
                    assert(self.by_id@[n]@ == k);
                }
                if exists|i: int| 0 <= i < self.by_id@.len() && #[trigger] self.by_id@[i]@ == k {
                    let i = choose|i: int| 0 <= i < self.by_id@.len() && #[trigger] self.by_id@[i]@ == k;
                    if i < n {
                        assert(old_ids[i]@ == k);
                    }
                }
            }
            assert forall|i: int| 0 <= i < self.by_id@.len() implies #[trigger] string_ids(self.by_str)[self.by_id@[i]@] == i by {
                if i < n {
                    assert(old_ids[i]@ != s@) by {
                        assert(old(self)@[i] == old_ids[i]@);
                    }
                    assert(old_map[old_ids[i]@] == i);
                }
            }
        }
        id
    }

    /// The string an id was interned for.
    pub fn resolve(&self, id: u32) -> (r: Option<&str>)
        requires
            self.wf(),
        ensures
            match r {
                Some(s) => id < self@.len() && s@ == self@[id as int],
                None => id >= self@.len(),
            },
    {
        if (id as usize) < self.by_id.len() {
            Some(self.by_id[id as usize].as_str())
        } else {
            None
        }
    }

    pub fn len(&self) -> (n: usize)
        ensures
            n == self@.len(),
    {
        self.by_id.len()
    }

    pub fn is_empty(&self) -> (r: bool)
        ensures
            r == (self@.len() == 0),
    {
        self.by_id.len() == 0
    }
}

impl Clone for StringTable {
    fn clone(&self) -> (r: Self)
        ensures
            r@ == self@,
            self.wf() ==> r.wf(),
    {
        let r = StringTable { by_id: clone_strings(&self.by_id), by_str: string_ids_clone(&self.by_str) };
        proof {
            assert(r.by_id@ =~= self.by_id@);
            assert(r@ =~= self@);
            assert forall|i: int| 0 <= i < r.by_id@.len() implies #[trigger] r.by_id@[i]@ == self.by_id@[i]@ by {}
        }
        r
    }
}

impl PartialEq for StringTable {
    fn eq(&self, other: &Self) -> (r: bool) {
        if self.by_id.len() != other.by_id.len() {
            assert(self@.len() != other@.len());
            return false;
        }
        let mut i: usize = 0;
        while i < self.by_id.len()
            invariant
                0 <= i <= self.by_id@.len(),
                self.by_id@.len() == other.by_id@.len(),
                forall|j: int| 0 <= j < i ==> self@[j] == other@[j],
            decreases self.by_id@.len() - i,
        {
            if self.by_id[i] != other.by_id[i] {
                assert(self@[i as int] != other@[i as int]);
                return false;
            }
            i = i + 1;
        }
        proof {
            assert(self@ =~= other@);
        }
        true
    }
}

impl vstd::std_specs::cmp::PartialEqSpecImpl for StringTable {
    open spec fn obeys_eq_spec() -> bool {
        true
    }

    open spec fn eq_spec(&self, other: &Self) -> bool {
        self@ == other@
    }
}

impl Default for StringTable {
    fn default() -> (t: Self)
        ensures
            t.wf(),
            t@ == Seq::<Seq<char>>::empty(),
    {
        StringTable::new()
    }
}

/// Convenience trait for types that can be interned into the ontology.
pub trait Internable: Sized {
    spec fn raw(&self) -> u32;

    fn from_raw(id: u32) -> (r: Self)
        ensures
            r.raw() == id,
    ;
}

impl Internable for LabelId {
    open spec fn raw(&self) -> u32 {
        self.0
    }

    fn from_raw(id: u32) -> (r: Self) {
        LabelId(id)
    }
}

impl Internable for RelationId {
    open spec fn raw(&self) -> u32 {
        self.0
    }

    fn from_raw(id: u32) -> (r: Self) {
        RelationId(id)
    }
}

impl Internable for KeyId {
    open spec fn raw(&self) -> u32 {
        self.0
    }

    fn from_raw(id: u32) -> (r: Self) {
        KeyId(id)
    }
}

/// Typed interning and lookup of labels, relations, and property keys. All three
/// kinds share one table of strings, so a string has the same id in every role.
pub trait StringTableExt: Sized {
    /// The interned strings by id.
    spec fn table(&self) -> Seq<Seq<char>>;

    /// The table is well formed.
    spec fn table_wf(&self) -> bool;

    fn intern_label(&mut self, s: &str) -> (r: LabelId)
        requires
            old(self).table_wf(),
            old(self).table().contains(s@) || old(self).table().len() < u32::MAX,
        ensures
            final(self).table_wf(),
            interned(old(self).table(), final(self).table(), s@, r.0),
    ;

    fn intern_relation(&mut self, s: &str) -> (r: RelationId)
        requires
            old(self).table_wf(),
            old(self).table().contains(s@) || old(self).table().len() < u32::MAX,
        ensures
            final(self).table_wf(),
            interned(old(self).table(), final(self).table(), s@, r.0),
    ;

    fn intern_key(&mut self, s: &str) -> (r: KeyId)
        requires
            old(self).table_wf(),
            old(self).table().contains(s@) || old(self).table().len() < u32::MAX,
        ensures
            final(self).table_wf(),
            interned(old(self).table(), final(self).table(), s@, r.0),
    ;

    fn label_id(&self, s: &str) -> (r: Option<LabelId>)
        requires
            self.table_wf(),
        ensures
            found_id(self.table(), s@, opt_label_raw(r)),
    ;

    fn relation_id(&self, s: &str) -> (r: Option<RelationId>)
        requires
            self.table_wf(),
        ensures
            found_id(self.table(), s@, opt_relation_raw(r)),
    ;

    fn key_id(&self, s: &str) -> (r: Option<KeyId>)
        requires
            self.table_wf(),
        ensures
            found_id(self.table(), s@, opt_key_raw(r)),
    ;

    fn resolve_label(&self, id: LabelId) -> (r: Option<&str>)
        requires
            self.table_wf(),
        ensures
            resolved(self.table(), id.0, r),
    ;

    fn resolve_relation(&self, id: RelationId) -> (r: Option<&str>)
        requires
            self.table_wf(),
        ensures
            resolved(self.table(), id.0, r),
    ;

    fn resolve_key(&self, id: KeyId) -> (r: Option<&str>)
        requires
            self.table_wf(),
        ensures
            resolved(self.table(), id.0, r),
    ;
}

/// Interning `s` into table `before` gave table `after` and id `id`: an interned string
/// keeps its id and the table; a new one is appended and receives the next id.
pub open spec fn interned(before: Seq<Seq<char>>, after: Seq<Seq<char>>, s: Seq<char>, id: u32) -> bool {
    if before.contains(s) {
        after == before && id < before.len() && before[id as int] == s
    } else {
        after == before.push(s) && id == before.len()
    }
}

pub open spec fn opt_label_raw(r: Option<LabelId>) -> Option<u32> {
    match r {
        Some(l) => Some(l.0),
        None => None,
    }
}

pub open spec fn opt_relation_raw(r: Option<RelationId>) -> Option<u32> {
    match r {
        Some(l) => Some(l.0),
        None => None,
    }
}

pub open spec fn opt_key_raw(r: Option<KeyId>) -> Option<u32> {
    match r {
        Some(l) => Some(l.0),
        None => None,
    }
}

/// `r` is the id of `s` in `table`, or `None` when `s` is not interned.
pub open spec fn found_id(table: Seq<Seq<char>>, s: Seq<char>, r: Option<u32>) -> bool {
    match r {
        Some(id) => id < table.len() && table[id as int] == s,
        None => !table.contains(s),
    }
}

/// `r` is the string of id `id` in `table`, or `None` when there is no such id.
pub open spec fn resolved(table: Seq<Seq<char>>, id: u32, r: Option<&str>) -> bool {
    match r {
        Some(s) => id < table.len() && s@ == table[id as int],
        None => id >= table.len(),
    }
}

impl StringTableExt for StringTable {
    open spec fn table(&self) -> Seq<Seq<char>> {
        self@
    }

    open spec fn table_wf(&self) -> bool {
        self.wf()
    }

    fn intern_label(&mut self, s: &str) -> (r: LabelId) {
        LabelId(self.intern(s))
    }

    fn intern_relation(&mut self, s: &str) -> (r: RelationId) {
        RelationId(self.intern(s))
    }

    fn intern_key(&mut self, s: &str) -> (r: KeyId) {
        KeyId(self.intern(s))
    }

    fn label_id(&self, s: &str) -> (r: Option<LabelId>) {
        match self.lookup(s) {
            Some(id) => Some(LabelId(id)),
            None => None,
        }
    }

    fn relation_id(&self, s: &str) -> (r: Option<RelationId>) {
        match self.lookup(s) {
            Some(id) => Some(RelationId(id)),
            None => None,
        }
    }

    fn key_id(&self, s: &str) -> (r: Option<KeyId>) {
        match self.lookup(s) {
            Some(id) => Some(KeyId(id)),
            None => None,
        }
    }

    fn resolve_label(&self, id: LabelId) -> (r: Option<&str>) {
        self.resolve(id.0)
    }

    fn resolve_relation(&self, id: RelationId) -> (r: Option<&str>) {
        self.resolve(id.0)
    }

    fn resolve_key(&self, id: KeyId) -> (r: Option<&str>) {
        self.resolve(id.0)
    }
}

/// Interning is idempotent: interning a string a second time gives the id it got the
/// first time and leaves the table as it was.
pub proof fn interning_is_idempotent(
    before: Seq<Seq<char>>,
    after: Seq<Seq<char>>,
    again: Seq<Seq<char>>,
    s: Seq<char>,
    first: u32,
    second: u32,
)
    requires
        before.no_duplicates(),
        interned(before, after, s, first),
        interned(after, again, s, second),
    ensures
        again == after,
        second == first,
{
    assert(after.contains(s)) by {
        if before.contains(s) {
        } else {
            assert(after[before.len() as int] == s);
        }
    }
    assert(after.no_duplicates()) by {
        if !before.contains(s) {
            assert forall|i: int, j: int| 0 <= i < after.len() && 0 <= j < after.len() && i != j implies after[i] != after[j] by {
                if i < before.len() && j < before.len() {
                    assert(after[i] == before[i] && after[j] == before[j]);
                } else if i < before.len() {
                    assert(after[i] == before[i]);
                    assert(before.contains(before[i]));
                } else if j < before.len() {
                    assert(after[j] == before[j]);
                    assert(before.contains(before[j]));
                }
            }
        }
    }
    if !before.contains(s) {
        assert(after[first as int] == s);
    }
}

/// Interning names a string by its id for good: after `s1` and then `s2` are interned,
/// the table resolves each id to its string, a string new to the table got the id
/// equal to the table's length before and grew it by one, and two different strings
/// got different ids.
pub proof fn interned_ids_resolve_and_differ(
    before: Seq<Seq<char>>,
    mid: Seq<Seq<char>>,
    after: Seq<Seq<char>>,
    s1: Seq<char>,
    s2: Seq<char>,
    id1: u32,
    id2: u32,
)
    requires
        before.no_duplicates(),
        interned(before, mid, s1, id1),
        interned(mid, after, s2, id2),
    ensures
        id1 < after.len() && after[id1 as int] == s1,
        id2 < after.len() && after[id2 as int] == s2,
        !before.contains(s1) ==> id1 == before.len() && mid.len() == before.len() + 1,
        !mid.contains(s2) ==> id2 == mid.len() && after.len() == mid.len() + 1,
        s1 != s2 ==> id1 != id2,
{
    assert(id1 < mid.len() && mid[id1 as int] == s1);
    if !mid.contains(s2) {
        assert(after[id1 as int] == mid[id1 as int]);
    }
}

} // verus!
