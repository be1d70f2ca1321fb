//! Authentication of API requests by bearer token and namespace.

use crate::authorization::{authenticate_spec, sha256, AuthenticatedPrincipal, CredentialRegistry, Role};
use crate::identity::{is_valid_namespace, NamespaceId};
use vstd::prelude::*;
use vstd::string::*;

verus! {

/// Compares two byte strings without an early exit: true exactly when they are equal.
pub fn constant_time_eq(a: &[u8], b: &[u8]) -> (r: bool)
    ensures
        r == (a@ == b@),
{
    let mut diff: usize = a.len() ^ b.len();
    proof {
        let (x, y) = (a.len(), b.len());
        assert((x ^ y == 0usize) == (x == y)) by (bit_vector);
    }
    let n = if a.len() < b.len() { a.len() } else { b.len() };
    let mut i: usize = 0;
    while i < n
        invariant
            0 <= i <= n,
            n <= a@.len(),
            n <= b@.len(),
            n == a@.len() || n == b@.len(),
            (diff == 0) == (a@.len() == b@.len() && forall|j: int| 0 <= j < i ==> a@[j] == b@[j]),
        decreases n - i,
    {
        let x = a[i] ^ b[i];
        let old_diff = diff;
        diff = diff | (x as usize);
        proof {
            let (l, r) = (a@[i as int], b@[i as int]);
            assert(x == l ^ r);
            assert((l ^ r == 0u8) == (l == r)) by (bit_vector);
            assert((diff == 0usize) == (old_diff == 0usize && x == 0u8)) by (bit_vector)
                requires diff == old_diff | (x as usize);
        }
        i = i + 1;
    }
    proof {
        if diff == 0 {
            assert(a@ =~= b@);
        }
    }
    diff == 0
}

/// The status a request is refused with when its credentials are missing or wrong.
pub const UNAUTHORIZED: u16 = 401;

/// The status a request is refused with when its namespace is malformed.
pub const BAD_REQUEST: u16 = 400;

/// The bytes every bearer authorization header starts with: `Bearer ` and a space.
pub open spec fn bearer_prefix() -> Seq<u8> {
    seq![66u8, 101u8, 97u8, 114u8, 101u8, 114u8, 32u8]
}

/// The token bytes of an authorization header, when it is a bearer header.
pub open spec fn bearer_token(header: Seq<u8>) -> Option<Seq<u8>> {
    if header.len() >= 7 && header.subrange(0, 7) == bearer_prefix() && vstd::utf8::is_char_boundary(header, 7) {
        Some(header.subrange(7, header.len() as int))
    } else {
        None
    }
}

/// What authenticating a request gives: without a readable bearer header, 401; with a
/// malformed namespace, 400; else the principal the registry finds for the token's hash
/// in that namespace, or 401.
pub open spec fn request_authentication(
    creds: Map<Seq<u8>, crate::authorization::Credential>,
    header: Option<Option<Seq<u8>>>,
    namespace_bytes: Seq<u8>,
    namespace: Seq<char>,
) -> Result<(Seq<char>, Role), u16> {
    match header {
        Some(Some(h)) => match bearer_token(h) {
            Some(token) => if !is_valid_namespace(namespace_bytes) {
                Err(BAD_REQUEST)
            } else {
                match authenticate_spec(creds, sha256(token), namespace) {
                    Some(found) => Ok(found),
                    None => Err(UNAUTHORIZED),
                }
            },
            None => Err(UNAUTHORIZED),
        },
        _ => Err(UNAUTHORIZED),
    }
}

/// The namespace a request names, `default` when it names none.
pub open spec fn requested_namespace(namespace_header: Option<&str>) -> (Seq<u8>, Seq<char>) {
    match namespace_header {
        Some(n) => (n.spec_bytes(), n@),
        None => ("default".spec_bytes(), "default"@),
    }
}

/// Authenticates a protected request from its authorization header (absent, unreadable,
/// or its text) and namespace header: the principal, or the status to refuse it with.
pub fn authenticate_request(
    registry: &CredentialRegistry,
    authorization: Option<Result<&str, ()>>,
    namespace_header: Option<&str>,
) -> (r: Result<AuthenticatedPrincipal, u16>)
    requires
        registry.wf(),
    ensures
        match request_authentication(
            registry@,
            match authorization {
                Some(Ok(h)) => Some(Some(h.spec_bytes())),
                Some(Err(_)) => Some(None),
                None => None,
            },
            requested_namespace(namespace_header).0,
            requested_namespace(namespace_header).1,
        ) {
            Ok((ns, role)) => r matches Ok(p) && p.namespace@ == ns && p.role == role,
            Err(status) => r == Err::<AuthenticatedPrincipal, u16>(status),
        },
{
    let header = match authorization {
        Some(Ok(h)) => h,
        _ => {
            return Err(UNAUTHORIZED);
        },
    };
    let bytes = header.as_bytes();
    if bytes.len() < 7 {
        return Err(UNAUTHORIZED);
    }
    let mut i: usize = 0;
    let prefix: [u8; 7] = [66, 101, 97, 114, 101, 114, 32];
    proof {
        assert(prefix@ == bearer_prefix());
    }
    while i < 7
        invariant
            i <= 7,
            bytes@ == header.spec_bytes(),
            authorization == Some(Ok::<&str, ()>(header)),
            bytes@.len() >= 7,
            prefix@ == bearer_prefix(),
            forall|j: int| 0 <= j < i ==> bytes@[j] == bearer_prefix()[j],
        decreases 7 - i,
    {
        if bytes[i] != prefix[i] {
            proof {
                assert(bytes@.subrange(0, 7)[i as int] != bearer_prefix()[i as int]);
            }
            return Err(UNAUTHORIZED);
        }
        i = i + 1;
    }
    proof {
        assert(bytes@.subrange(0, 7) =~= bearer_prefix());
    }
    if !header.is_char_boundary(7) {
        return Err(UNAUTHORIZED);
    }
    let (_, token) = header.split_at(7);
    let namespace_text = match namespace_header {
        Some(n) => n,
        None => "default",
    };
    let namespace = match NamespaceId::new(namespace_text) {
        Ok(ns) => ns,
        Err(_) => {
            return Err(BAD_REQUEST);
        },
    };
    match registry.authenticate(token, &namespace) {
        Some(p) => Ok(p),
        None => Err(UNAUTHORIZED),
    }
}

} // verus!
