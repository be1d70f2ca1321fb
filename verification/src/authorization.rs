//! Tenant authorization and quota primitives.

use crate::identity::NamespaceId;
use crate::keyed::{KeyedMap, Keyed};
use crate::auth::constant_time_eq;
use vstd::prelude::*;
use vstd::string::*;

verus! {

#[derive(Clone, Copy, Debug, PartialEq, Eq, Structural, Hash)]
pub enum Role {
    Reader,
    Writer,
    Analyst,
    Administrator,
    Billing,
}

#[derive(Clone, Copy, Debug, PartialEq, Eq, Structural)]
pub enum Operation {
    Read,
    Write,
    Analyze,
    Administer,
    Bill,
}

/// Which operations each role may perform.
pub open spec fn role_permits(role: Role, operation: Operation) -> bool {
    match role {
        Role::Reader => operation == Operation::Read,
        Role::Writer => operation == Operation::Read || operation == Operation::Write,
        Role::Analyst => operation == Operation::Read || operation == Operation::Analyze,
        Role::Administrator => true,
        Role::Billing => operation == Operation::Read || operation == Operation::Bill,
    }
}

impl Role {
    pub fn permits(self, operation: Operation) -> (r: bool)
        ensures
            r == role_permits(self, operation),
            r <==> (operation == Operation::Read || self == Role::Administrator || (self == Role::Writer && operation
                == Operation::Write) || (self == Role::Analyst && operation == Operation::Analyze) || (self == Role::Billing
                && operation == Operation::Bill)),
    {
        proof {
            roles_grant_their_table(self, operation);
        }
        match self {
            Role::Reader => matches!(operation, Operation::Read),
            Role::Writer => matches!(operation, Operation::Read | Operation::Write),
            Role::Analyst => matches!(operation, Operation::Read | Operation::Analyze),
            Role::Administrator => true,
            Role::Billing => matches!(operation, Operation::Read | Operation::Bill),
        }
    }
}

/// The SHA-256 digest of `data`.
pub uninterp spec fn sha256(data: Seq<u8>) -> Seq<u8>;

/// Calls `sha2::Sha256::digest` on `data`: the result is the 32-byte SHA-256 digest
/// of `data`, named `sha256`.
#[verifier::external_body]
fn sha256_digest(data: &[u8]) -> (h: [u8; 32])
    ensures
        h@ == sha256(data@),
{
    <sha2::Sha256 as sha2::Digest>::digest(data).into()
}

/// The stored fingerprint of an API token.
pub fn hash_token(token: &str) -> (h: [u8; 32])
    ensures
        h@ == sha256(token.spec_bytes()),
{
    sha256_digest(token.as_bytes())
}


impl Keyed for [u8; 32] {
    type KeyView = Seq<u8>;

    open spec fn key(&self) -> Seq<u8> {
        self@
    }

    fn same_key(&self, other: &Self) -> (r: bool) {
        constant_time_eq(self, other)
    }
}

impl Keyed for NamespaceId {
    type KeyView = Seq<char>;

    open spec fn key(&self) -> Seq<char> {
        self@
    }

    fn same_key(&self, other: &Self) -> (r: bool) {
        self == other
    }
}

#[derive(Debug)]
pub struct Credential {
    pub token_hash: [u8; 32],
    pub namespace: NamespaceId,
    pub role: Role,
    pub revoked: bool,
}

impl Clone for Credential {
    fn clone(&self) -> (r: Self)
        ensures
            r == *self,
    {
        Credential {
            token_hash: self.token_hash,
            namespace: self.namespace.clone(),
            role: self.role,
            revoked: self.revoked,
        }
    }
}

#[derive(Debug, Eq)]
pub struct AuthenticatedPrincipal {
    pub namespace: NamespaceId,
    pub role: Role,
}

impl Clone for AuthenticatedPrincipal {
    fn clone(&self) -> (r: Self)
        ensures
            r == *self,
    {
        AuthenticatedPrincipal { namespace: self.namespace.clone(), role: self.role }
    }
}

impl PartialEq for AuthenticatedPrincipal {
    fn eq(&self, other: &Self) -> (r: bool) {
        self.namespace == other.namespace && self.role == other.role
    }
}

impl vstd::std_specs::cmp::PartialEqSpecImpl for AuthenticatedPrincipal {
    open spec fn obeys_eq_spec() -> bool {
        true
    }

    open spec fn eq_spec(&self, other: &Self) -> bool {
        self.namespace@ == other.namespace@ && self.role == other.role
    }
}

#[derive(Clone, Copy, Debug, PartialEq, Eq, Structural)]
pub enum AuthorizationError {
    Unauthenticated,
    Forbidden,
}

#[derive(Clone, Copy, Debug, PartialEq, Eq, Structural)]
pub enum QuotaError {
    Requests,
    Storage,
}

/// The principal, if any, that a registry with contents `creds` authenticates for a
/// token with fingerprint `hash` acting in `namespace`: the stored credential must be
/// unrevoked, and belong to `namespace` unless it is an administrator's, who acts in
/// whatever namespace is requested.
pub open spec fn authenticate_spec(
    creds: Map<Seq<u8>, Credential>,
    hash: Seq<u8>,
    namespace: Seq<char>,
) -> Option<(Seq<char>, Role)> {
    if creds.contains_key(hash) && !creds[hash].revoked && (creds[hash].namespace@ == namespace
        || creds[hash].role == Role::Administrator) {
        let c = creds[hash];
        Some((if c.role == Role::Administrator { namespace } else { c.namespace@ }, c.role))
    } else {
        None
    }
}

impl AuthorizationError {
    /// The text the error is shown with.
    pub fn message(&self) -> (r: &'static str)
        ensures
            r@ == (match self {
                AuthorizationError::Unauthenticated => "unauthenticated"@,
                AuthorizationError::Forbidden => "forbidden"@,
            }),
    {
        match self {
            AuthorizationError::Unauthenticated => "unauthenticated",
            AuthorizationError::Forbidden => "forbidden",
        }
    }
}

impl QuotaError {
    /// The text the error is shown with.
    pub fn message(&self) -> (r: &'static str)
        ensures
            r@ == (match self {
                QuotaError::Requests => "request quota exceeded"@,
                QuotaError::Storage => "storage quota exceeded"@,
            }),
    {
        match self {
            QuotaError::Requests => "request quota exceeded",
            QuotaError::Storage => "storage quota exceeded",
        }
    }
}

/// Registry of credentials keyed by token fingerprint.
pub struct CredentialRegistry {
    credentials: KeyedMap<[u8; 32], Credential>,
}

impl CredentialRegistry {
    /// Every credential is stored under its own fingerprint.
    pub closed spec fn wf(&self) -> bool {
        &&& self.credentials.wf()
        &&& forall|k: Seq<u8>| #[trigger]
            self.credentials@.contains_key(k) ==> self.credentials@[k].token_hash@ == k
    }

    /// The credentials by token fingerprint.
    pub closed spec fn view(&self) -> Map<Seq<u8>, Credential> {
        self.credentials@
    }

    pub fn new() -> (r: Self)
        ensures
            r.wf(),
            r@ == Map::<Seq<u8>, Credential>::empty(),
    {
        CredentialRegistry { credentials: KeyedMap::new() }
    }

    /// Stores `credential` under its fingerprint, replacing any credential stored there.
    pub fn insert(&mut self, credential: Credential)
        requires
            old(self).wf(),
        ensures
            final(self).wf(),
            final(self)@ == old(self)@.insert(credential.token_hash@, credential),
    {
        let h = credential.token_hash;
        self.credentials.insert(h, credential);
    }

    /// Issues an unrevoked credential for `token` in `namespace` with `role`.
    pub fn insert_token(&mut self, token: &str, namespace: NamespaceId, role: Role)
        requires
            old(self).wf(),
        ensures
            final(self).wf(),
            final(self)@ == old(self)@.insert(
                sha256(token.spec_bytes()),
                Credential {
                    token_hash: final(self)@[sha256(token.spec_bytes())].token_hash,
                    namespace,
                    role,
                    revoked: false,
                },
            ),
            final(self)@[sha256(token.spec_bytes())].token_hash@ == sha256(token.spec_bytes()),
    {
        let h = hash_token(token);
        self.insert(Credential { token_hash: h, namespace, role, revoked: false });
    }

    /// Marks the credential of `token` revoked; true when there was one.
    pub fn revoke(&mut self, token: &str) -> (r: bool)
        requires
            old(self).wf(),
        ensures
            final(self).wf(),
            r == old(self)@.contains_key(sha256(token.spec_bytes())),
            r ==> final(self)@ == old(self)@.insert(
                sha256(token.spec_bytes()),
                Credential { revoked: true, ..old(self)@[sha256(token.spec_bytes())] },
            ),
            !r ==> final(self)@ == old(self)@,
    {
        let h = hash_token(token);
        match self.credentials.get(&h) {
            Some(c) => {
                let mut updated = c.clone();
                updated.revoked = true;
                self.credentials.insert(h, updated);
                true
            },
            None => false,
        }
    }

    /// The principal that `token` authenticates as in `namespace`, if any.
    pub fn authenticate(&self, token: &str, namespace: &NamespaceId) -> (r: Option<
        AuthenticatedPrincipal,
    >)
        requires
            self.wf(),
        ensures
            match authenticate_spec(self@, sha256(token.spec_bytes()), namespace@) {
                Some((ns, role)) => r matches Some(p) && p.namespace@ == ns && p.role == role,
                None => r is None,
            },
    {
        let token_hash = hash_token(token);
        let ghost k = token_hash@;
        proof {
            self.credentials.lemma_view_entries();
        }
        let n = self.credentials.len();
        let mut i: usize = 0;
        while i < n
            invariant
                self.wf(),
                n == self.credentials.entries().len(),
                0 <= i <= n,
                k == sha256(token.spec_bytes()),
                k == token_hash@,
                forall|j: int|
                    0 <= j < i ==> #[trigger] self.credentials.entries()[j].0@ != k || {
                        let c = self.credentials.entries()[j].1;
                        c.revoked || (c.namespace@ != namespace@ && c.role != Role::Administrator)
                    },
            decreases n - i,
        {
            let entry = self.credentials.entry_at(i);
            let credential = &entry.1;
            proof {
                assert(self.credentials@.contains_key(entry.0@));
                assert(self.credentials@[entry.0@] == *credential);
                assert(credential.token_hash@ == entry.0@);
            }
            let same_ns = &credential.namespace == namespace;
            if constant_time_eq(&credential.token_hash, &token_hash) && !credential.revoked
                && (same_ns || credential.role == Role::Administrator) {
                let ns = if credential.role == Role::Administrator {
                    namespace.clone()
                } else {
                    credential.namespace.clone()
                };
                return Some(AuthenticatedPrincipal { namespace: ns, role: credential.role });
            }
            i = i + 1;
        }
        proof {
            if self@.contains_key(k) {
                let j = choose|j: int|
                    0 <= j < self.credentials.entries().len() && #[trigger] self.credentials.entries()[j].0.key() == k;
                assert(self.credentials.entries()[j].0@ == k);
                assert(self@[k] == self.credentials.entries()[j].1);
            }
        }
        None
    }

    /// Authenticates `token` in `namespace`, then checks that its role permits `operation`.
    pub fn authorize(&self, token: &str, namespace: &NamespaceId, operation: Operation) -> (r:
        Result<AuthenticatedPrincipal, AuthorizationError>)
        requires
            self.wf(),
        ensures
            match authenticate_spec(self@, sha256(token.spec_bytes()), namespace@) {
                Some((ns, role)) => if role_permits(role, operation) {
                    r matches Ok(p) && p.namespace@ == ns && p.role == role
                } else {
                    r == Err::<AuthenticatedPrincipal, _>(AuthorizationError::Forbidden)
                },
                None => r == Err::<AuthenticatedPrincipal, _>(AuthorizationError::Unauthenticated),
            },
            ({
                let h = sha256(token.spec_bytes());
                self@.contains_key(h) && !self@[h].revoked && self@[h].namespace@ == namespace@ && (operation
                    == Operation::Read || self@[h].role == Role::Administrator || (self@[h].role == Role::Writer
                    && operation == Operation::Write) || (self@[h].role == Role::Analyst && operation == Operation::Analyze)
                    || (self@[h].role == Role::Billing && operation == Operation::Bill))
            }) ==> (r matches Ok(p) && p.namespace@ == namespace@ && p.role == self@[sha256(token.spec_bytes())].role),
    {
        proof {
            let h = sha256(token.spec_bytes());
            if self@.contains_key(h) && !self@[h].revoked && self@[h].namespace@ == namespace@ && (operation
                == Operation::Read || self@[h].role == Role::Administrator || (self@[h].role == Role::Writer
                && operation == Operation::Write) || (self@[h].role == Role::Analyst && operation == Operation::Analyze)
                || (self@[h].role == Role::Billing && operation == Operation::Bill)) {
                credential_authorizes_what_its_role_grants(self@, h, operation);
            }
        }
        let principal = match self.authenticate(token, namespace) {
            Some(p) => p,
            None => return Err(AuthorizationError::Unauthenticated),
        };
        if !principal.role.permits(operation) {
            return Err(AuthorizationError::Forbidden);
        }
        Ok(principal)
    }
}

impl Default for CredentialRegistry {
    fn default() -> (r: Self)
        ensures
            r.wf(),
            r@ == Map::<Seq<u8>, Credential>::empty(),
    {
        CredentialRegistry::new()
    }
}


/// Per-tenant limits; a limit of zero means unlimited.
#[derive(Clone, Copy, Debug)]
pub struct TenantQuota {
    pub max_nodes: usize,
    pub max_edges: usize,
    pub max_bytes: u64,
    pub max_requests: u64,
}

impl Default for TenantQuota {
    fn default() -> (r: Self)
        ensures
            r == (TenantQuota { max_nodes: 0, max_edges: 0, max_bytes: 0, max_requests: 0 }),
    {
        TenantQuota { max_nodes: 0, max_edges: 0, max_bytes: 0, max_requests: 0 }
    }
}

/// What a tenant has consumed so far.
#[derive(Clone, Copy, Debug)]
pub struct QuotaUsage {
    pub nodes: usize,
    pub edges: usize,
    pub bytes: u64,
    pub requests: u64,
}

impl Default for QuotaUsage {
    fn default() -> (r: Self)
        ensures
            r == QuotaUsage::zero(),
    {
        QuotaUsage { nodes: 0, edges: 0, bytes: 0, requests: 0 }
    }
}

impl QuotaUsage {
    pub open spec fn zero() -> QuotaUsage {
        QuotaUsage { nodes: 0, edges: 0, bytes: 0, requests: 0 }
    }
}

/// The quota of `namespace`: the configured one, or the unlimited default.
pub open spec fn quota_of(quotas: Map<Seq<char>, TenantQuota>, namespace: Seq<char>) -> TenantQuota {
    if quotas.contains_key(namespace) {
        quotas[namespace]
    } else {
        TenantQuota { max_nodes: 0, max_edges: 0, max_bytes: 0, max_requests: 0 }
    }
}

/// The usage of `namespace`: the recorded one, or zero.
pub open spec fn usage_of(usage: Map<Seq<char>, QuotaUsage>, namespace: Seq<char>) -> QuotaUsage {
    if usage.contains_key(namespace) {
        usage[namespace]
    } else {
        QuotaUsage::zero()
    }
}

/// `a + b`, saturating at `max`.
pub open spec fn sat_add(a: int, b: int, max: int) -> int {
    if a + b > max {
        max
    } else {
        a + b
    }
}

/// Whether reserving the given amounts on top of `usage` would pass a positive limit of
/// `quota` (sums saturate at the type's maximum, as the comparison does).
pub open spec fn reservation_exceeds(quota: TenantQuota, usage: QuotaUsage, nodes: usize, edges: usize, bytes: u64) -> bool {
    ||| (quota.max_nodes > 0 && sat_add(usage.nodes as int, nodes as int, usize::MAX as int) > quota.max_nodes)
    ||| (quota.max_edges > 0 && sat_add(usage.edges as int, edges as int, usize::MAX as int) > quota.max_edges)
    ||| (quota.max_bytes > 0 && sat_add(usage.bytes as int, bytes as int, u64::MAX as int) > quota.max_bytes)
}

/// Per-namespace quotas and the usage recorded against them.
pub struct QuotaRegistry {
    quotas: KeyedMap<NamespaceId, TenantQuota>,
    usage: KeyedMap<NamespaceId, QuotaUsage>,
}

impl QuotaRegistry {
    pub closed spec fn wf(&self) -> bool {
        self.quotas.wf() && self.usage.wf()
    }

    /// The configured quotas by namespace.
    pub closed spec fn quotas(&self) -> Map<Seq<char>, TenantQuota> {
        self.quotas@
    }

    /// The recorded usage by namespace.
    pub closed spec fn usages(&self) -> Map<Seq<char>, QuotaUsage> {
        self.usage@
    }

    pub fn new() -> (r: Self)
        ensures
            r.wf(),
            r.quotas() == Map::<Seq<char>, TenantQuota>::empty(),
            r.usages() == Map::<Seq<char>, QuotaUsage>::empty(),
    {
        QuotaRegistry { quotas: KeyedMap::new(), usage: KeyedMap::new() }
    }

    pub fn set_quota(&mut self, namespace: NamespaceId, quota: TenantQuota)
        requires
            old(self).wf(),
        ensures
            final(self).wf(),
            final(self).quotas() == old(self).quotas().insert(namespace@, quota),
            final(self).usages() == old(self).usages(),
    {
        self.quotas.insert(namespace, quota);
    }

    fn current_usage(&self, namespace: &NamespaceId) -> (u: QuotaUsage)
        requires
            self.wf(),
        ensures
            u == usage_of(self.usages(), namespace@),
    {
        match self.usage.get(namespace) {
            Some(u) => *u,
            None => QuotaUsage::default(),
        }
    }

    /// Counts one request against `namespace`. When a positive request limit would be
    /// passed, the count is taken back and `Requests` is returned. Either way the
    /// namespace has a usage record afterwards.
    pub fn record_request(&mut self, namespace: &NamespaceId) -> (r: Result<(), QuotaError>)
        requires
            old(self).wf(),
        ensures
            final(self).wf(),
            final(self).quotas() == old(self).quotas(),
            ({
                let u = usage_of(old(self).usages(), namespace@);
                let n = sat_add(u.requests as int, 1, u64::MAX as int);
                let limited = old(self).quotas().contains_key(namespace@)
                    && old(self).quotas()[namespace@].max_requests > 0
                    && n > old(self).quotas()[namespace@].max_requests;
                &&& (r is Err) == limited
                &&& r matches Err(e) ==> e == QuotaError::Requests
                &&& final(self).usages() == old(self).usages().insert(
                    namespace@,
                    QuotaUsage { requests: (if limited { n - 1 } else { n }) as u64, ..u },
                )
            }),
    {
        let mut usage = self.current_usage(namespace);
        usage.requests = usage.requests.saturating_add(1);
        let limited = match self.quotas.get(namespace) {
            Some(quota) => quota.max_requests > 0 && usage.requests > quota.max_requests,
            None => false,
        };
        if limited {
            usage.requests = usage.requests - 1;
            self.usage.insert(namespace.clone(), usage);
            return Err(QuotaError::Requests);
        }
        self.usage.insert(namespace.clone(), usage);
        Ok(())
    }

    /// Reserves graph capacity for `namespace` all at once: when any positive limit would
    /// be passed nothing is added and `Storage` is returned. Either way the namespace has
    /// a usage record afterwards.
    pub fn reserve_graph(&mut self, namespace: &NamespaceId, nodes: usize, edges: usize, bytes: u64) -> (r: Result<(), QuotaError>)
        requires
            old(self).wf(),
            ({
                let u = usage_of(old(self).usages(), namespace@);
                reservation_exceeds(quota_of(old(self).quotas(), namespace@), u, nodes, edges, bytes)
                    || (u.nodes + nodes <= usize::MAX && u.edges + edges <= usize::MAX && u.bytes + bytes <= u64::MAX)
            }),
        ensures
            final(self).wf(),
            final(self).quotas() == old(self).quotas(),
            ({
                let u = usage_of(old(self).usages(), namespace@);
                let exceeds = reservation_exceeds(quota_of(old(self).quotas(), namespace@), u, nodes, edges, bytes);
                &&& (r is Err) == exceeds
                &&& r matches Err(e) ==> e == QuotaError::Storage
                &&& exceeds ==> final(self).usages() == old(self).usages().insert(namespace@, u)
                &&& !exceeds ==> final(self).usages() == old(self).usages().insert(
                    namespace@,
                    QuotaUsage {
                        nodes: (u.nodes + nodes) as usize,
                        edges: (u.edges + edges) as usize,
                        bytes: (u.bytes + bytes) as u64,
                        ..u
                    },
                )
            }),
    {
        let quota = match self.quotas.get(namespace) {
            Some(q) => *q,
            None => TenantQuota::default(),
        };
        let mut usage = self.current_usage(namespace);
        let exceeds = (quota.max_nodes > 0 && usage.nodes.saturating_add(nodes) > quota.max_nodes)
            || (quota.max_edges > 0 && usage.edges.saturating_add(edges) > quota.max_edges)
            || (quota.max_bytes > 0 && usage.bytes.saturating_add(bytes) > quota.max_bytes);
        if exceeds {
            self.usage.insert(namespace.clone(), usage);
            return Err(QuotaError::Storage);
        }
        usage.nodes = usage.nodes + nodes;
        usage.edges = usage.edges + edges;
        usage.bytes = usage.bytes + bytes;
        self.usage.insert(namespace.clone(), usage);
        Ok(())
    }

    /// The usage recorded for `namespace`, or zero.
    pub fn usage(&self, namespace: &NamespaceId) -> (u: QuotaUsage)
        requires
            self.wf(),
        ensures
            u == usage_of(self.usages(), namespace@),
    {
        self.current_usage(namespace)
    }
}

impl Default for QuotaRegistry {
    fn default() -> (r: Self)
        ensures
            r.wf(),
            r.quotas() == Map::<Seq<char>, TenantQuota>::empty(),
            r.usages() == Map::<Seq<char>, QuotaUsage>::empty(),
    {
        QuotaRegistry::new()
    }
}

/// A revoked token is refused: once the credential under a token's fingerprint is marked
/// revoked, the token authenticates in no namespace.
pub proof fn revoked_token_is_refused(creds: Map<Seq<u8>, Credential>, hash: Seq<u8>, namespace: Seq<char>)
    requires
        creds.contains_key(hash),
    ensures
        authenticate_spec(creds.insert(hash, Credential { revoked: true, ..creds[hash] }), hash, namespace) is None,
{
}

/// Revocation touches no other credential: every other fingerprint authenticates as before.
pub proof fn revocation_leaves_other_tokens(
    creds: Map<Seq<u8>, Credential>,
    hash: Seq<u8>,
    other: Seq<u8>,
    namespace: Seq<char>,
)
    requires
        creds.contains_key(hash),
        other != hash,
    ensures
        authenticate_spec(creds.insert(hash, Credential { revoked: true, ..creds[hash] }), other, namespace)
            == authenticate_spec(creds, other, namespace),
{
}

/// A granted reservation keeps a tenant within its quota: when a reservation is not
/// refused, the tenant's usage after it stays within every limit its quota sets (a limit
/// of zero sets none).
pub proof fn granted_reservation_stays_within_quota(
    quota: TenantQuota,
    usage: QuotaUsage,
    nodes: usize,
    edges: usize,
    bytes: u64,
)
    requires
        !reservation_exceeds(quota, usage, nodes, edges, bytes),
        usage.nodes + nodes <= usize::MAX,
        usage.edges + edges <= usize::MAX,
        usage.bytes + bytes <= u64::MAX,
    ensures
        quota.max_nodes > 0 ==> usage.nodes + nodes <= quota.max_nodes,
        quota.max_edges > 0 ==> usage.edges + edges <= quota.max_edges,
        quota.max_bytes > 0 ==> usage.bytes + bytes <= quota.max_bytes,
{
}

/// The role table: every role may read; a Writer may also write, an Analyst analyze,
/// a Billing role bill; an Administrator may do anything; nothing else is granted.
pub proof fn roles_grant_their_table(role: Role, operation: Operation)
    ensures
        role_permits(role, operation) <==> (operation == Operation::Read || role == Role::Administrator || (role
            == Role::Writer && operation == Operation::Write) || (role == Role::Analyst && operation == Operation::Analyze)
            || (role == Role::Billing && operation == Operation::Bill)),
{
}

/// An unrevoked credential authorizes its holder in its own namespace for every
/// operation its role grants: authentication gives back that namespace and role, and
/// the role permits the operation (so `authorize` answers `Ok` with that principal).
/// In particular an Analyst may read and analyze, a Writer read and write, a Billing
/// role read and bill, and an Administrator anything.
pub proof fn credential_authorizes_what_its_role_grants(
    creds: Map<Seq<u8>, Credential>,
    hash: Seq<u8>,
    operation: Operation,
)
    requires
        creds.contains_key(hash),
        !creds[hash].revoked,
        operation == Operation::Read || creds[hash].role == Role::Administrator || (creds[hash].role == Role::Writer
            && operation == Operation::Write) || (creds[hash].role == Role::Analyst && operation == Operation::Analyze)
            || (creds[hash].role == Role::Billing && operation == Operation::Bill),
    ensures
        authenticate_spec(creds, hash, creds[hash].namespace@) == Some((creds[hash].namespace@, creds[hash].role)),
        role_permits(creds[hash].role, operation),
{
}

} // verus!
