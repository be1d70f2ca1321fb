//! Stable, tenant-scoped identities for persisted graph records.

use vstd::prelude::*;
use vstd::string::*;

verus! {

pub const CURRENT_SCHEMA_VERSION: u16 = 1;

/// Multiplier of the 64-bit FNV-1a hash.
pub const FNV_PRIME: u64 = 0x100000001b3;

/// Initial state of the first hash lane.
pub const FIRST_SEED: u64 = 0xcbf29ce484222325;

/// Initial state of the second hash lane.
pub const SECOND_SEED: u64 = 0x84222325cbf29ce4;

/// A byte that may appear in a namespace: ASCII letters, digits, `-`, `_`, `.` and `:`.
pub open spec fn is_namespace_byte(b: u8) -> bool {
    ||| (48 <= b <= 57)  // '0'..='9'
    ||| (97 <= b <= 122)  // 'a'..='z'
    ||| (65 <= b <= 90)  // 'A'..='Z'
    ||| b == 45  // '-'
    ||| b == 95  // '_'
    ||| b == 46  // '.'
    ||| b == 58  // ':'
}

/// The UTF-8 bytes of a valid namespace: between 1 and 256 of them, each allowed.
pub open spec fn is_valid_namespace(bytes: Seq<u8>) -> bool {
    &&& 1 <= bytes.len() <= 256
    &&& forall|i: int| 0 <= i < bytes.len() ==> is_namespace_byte(#[trigger] bytes[i])
}

/// A validated account/workspace namespace.
#[derive(Debug, Eq, Hash, PartialOrd, Ord)]
pub struct NamespaceId(String);

impl Clone for NamespaceId {
    fn clone(&self) -> (r: Self)
        ensures
            r == *self,
    {
        NamespaceId(self.0.clone())
    }
}

impl View for NamespaceId {
    type V = Seq<char>;

    closed spec fn view(&self) -> Seq<char> {
        self.0@
    }
}

impl PartialEq for NamespaceId {
    fn eq(&self, other: &Self) -> (r: bool) {
        self.0 == other.0
    }
}

impl vstd::std_specs::cmp::PartialEqSpecImpl for NamespaceId {
    open spec fn obeys_eq_spec() -> bool {
        true
    }

    open spec fn eq_spec(&self, other: &Self) -> bool {
        self@ == other@
    }
}

#[derive(Clone, Copy, Debug, PartialEq, Eq, Structural)]
pub enum IdentityError {
    InvalidNamespace,
    EmptyExternalId,
    NamespaceMismatch,
    DuplicateExternalId,
}

impl IdentityError {
    /// The text the error is shown with.
    pub fn message(&self) -> (r: &'static str)
        ensures
            r@ == (match self {
                IdentityError::InvalidNamespace => "namespace is empty, too long, or contains invalid characters"@,
                IdentityError::EmptyExternalId => "external id must not be empty"@,
                IdentityError::NamespaceMismatch => "record endpoints must share the requested namespace"@,
                IdentityError::DuplicateExternalId => "external id already exists in the namespace"@,
            }),
    {
        match self {
            IdentityError::InvalidNamespace => "namespace is empty, too long, or contains invalid characters",
            IdentityError::EmptyExternalId => "external id must not be empty",
            IdentityError::NamespaceMismatch => "record endpoints must share the requested namespace",
            IdentityError::DuplicateExternalId => "external id already exists in the namespace",
        }
    }
}

fn is_namespace_byte_exec(b: u8) -> (r: bool)
    ensures
        r == is_namespace_byte(b),
{
    (48 <= b && b <= 57) || (97 <= b && b <= 122) || (65 <= b && b <= 90) || b == 45 || b == 95
        || b == 46 || b == 58
}

impl NamespaceId {
    /// The namespace used when a request names none.
    pub open spec fn default_name() -> Seq<char> {
        seq!['d', 'e', 'f', 'a', 'u', 'l', 't']
    }

    /// Validates `value` as a namespace: non-empty, at most 256 bytes, and made only of
    /// ASCII letters, digits, `-`, `_`, `.` and `:`.
    pub fn new(value: &str) -> (r: Result<Self, IdentityError>)
        ensures
            r is Ok <==> is_valid_namespace(value.spec_bytes()),
            r matches Ok(ns) ==> ns@ == value@,
            r matches Err(e) ==> e == IdentityError::InvalidNamespace,
            1 <= value@.len() <= 256 && (forall|i: int| 0 <= i < value@.len() ==> documented_namespace_char(
                #[trigger] value@[i],
            )) ==> r is Ok,
    {
        let ghost documented = 1 <= value@.len() <= 256 && (forall|i: int| 0 <= i < value@.len() ==> documented_namespace_char(
            #[trigger] value@[i],
        ));
        proof {
            if documented {
                documented_namespaces_are_valid(value@);
                assert(value.spec_bytes() == vstd::utf8::encode_utf8(value@));
            }
        }
        assert(documented ==> is_valid_namespace(value.spec_bytes()));
        let bytes = value.as_bytes();
        if bytes.len() == 0 || bytes.len() > 256 {
            proof {
                if documented {
                    assert(value.spec_bytes().len() == bytes@.len());
                }
            }
            return Err(IdentityError::InvalidNamespace);
        }
        let mut i: usize = 0;
        while i < bytes.len()
            invariant
                0 <= i <= bytes@.len(),
                bytes@ == value.spec_bytes(),
                forall|j: int| 0 <= j < i ==> is_namespace_byte(#[trigger] bytes@[j]),
                documented ==> is_valid_namespace(value.spec_bytes()),
                documented == (1 <= value@.len() <= 256 && (forall|k: int| 0 <= k < value@.len() ==> documented_namespace_char(
                    #[trigger] value@[k],
                ))),
            decreases bytes@.len() - i,
        {
            if !is_namespace_byte_exec(bytes[i]) {
                proof {
                    if documented {
                        assert(is_namespace_byte(value.spec_bytes()[i as int]));
                    }
                }
                return Err(IdentityError::InvalidNamespace);
            }
            i = i + 1;
        }
        Ok(NamespaceId(value.to_owned()))
    }

    pub fn as_str(&self) -> (r: &str)
        ensures
            r@ == self@,
    {
        self.0.as_str()
    }

    /// A namespace read back as stored or sent, with its text taken as it is and not
    /// validated, as a transparent decoding of the wrapped string gives it.
    pub fn from_raw(value: String) -> (r: Self)
        ensures
            r@ == value@,
    {
        NamespaceId(value)
    }
}

impl Default for NamespaceId {
    fn default() -> (r: Self)
        ensures
            r@ == NamespaceId::default_name(),
    {
        let s = String::from_str("default");
        proof {
            reveal_strlit("default");
        }
        NamespaceId(s)
    }
}


/// Rotates `x` left by 17 bits.
pub open spec fn rotl17(x: u64) -> u64 {
    (x << 17u64) | (x >> 47u64)
}

/// One step of the two-lane hash: both lanes absorb the byte with an FNV-1a round,
/// then the second lane is mixed with the rotated first lane.
pub open spec fn mix_step(state: (u64, u64), b: u8) -> (u64, u64) {
    let first = vstd::wrapping::u64_specs::wrapping_mul(state.0 ^ (b as u64), FNV_PRIME);
    let second = vstd::wrapping::u64_specs::wrapping_mul(state.1 ^ (b as u64), FNV_PRIME);
    (first, second ^ rotl17(first))
}

/// The state after absorbing every byte of `bytes`, in order, starting from `state`.
pub open spec fn mix_all(state: (u64, u64), bytes: Seq<u8>) -> (u64, u64)
    decreases bytes.len(),
{
    if bytes.len() == 0 {
        state
    } else {
        mix_step(mix_all(state, bytes.drop_last()), bytes.last())
    }
}

/// The bytes hashed for an external id: namespace, a zero byte, kind, a zero byte, canonical.
pub open spec fn external_id_input(namespace: Seq<u8>, kind: Seq<u8>, canonical: Seq<u8>) -> Seq<u8> {
    namespace + seq![0u8] + kind + seq![0u8] + canonical
}

/// The lowercase hexadecimal digit for `d < 16`.
pub open spec fn hex_char(d: u64) -> char {
    if d < 10 {
        ((48 + d) as u8) as char
    } else {
        ((87 + d) as u8) as char
    }
}

/// The 16-digit, zero-padded, lowercase hexadecimal rendering of `x`.
pub open spec fn hex16(x: u64) -> Seq<char> {
    Seq::new(16, |i: int| hex_char((x >> ((60 - 4 * i) as u64)) & 15u64))
}

/// The external id derived from the given namespace, kind and canonical input:
/// `{kind}_{first:016x}{second:016x}` over the two hash lanes.
pub open spec fn stable_external_id_spec(namespace: Seq<u8>, kind_chars: Seq<char>, kind: Seq<u8>, canonical: Seq<u8>) -> Seq<char> {
    let h = mix_all((FIRST_SEED, SECOND_SEED), external_id_input(namespace, kind, canonical));
    kind_chars + seq!['_'] + hex16(h.0) + hex16(h.1)
}

proof fn lemma_mix_all_append(state: (u64, u64), a: Seq<u8>, b: Seq<u8>)
    ensures
        mix_all(state, a + b) == mix_all(mix_all(state, a), b),
    decreases b.len(),
{
    if b.len() == 0 {
        assert(a + b =~= a);
    } else {
        lemma_mix_all_append(state, a, b.drop_last());
        assert((a + b).drop_last() =~= a + b.drop_last());
        assert((a + b).last() == b.last());
    }
}

fn mix_bytes(state: (u64, u64), bytes: &[u8]) -> (r: (u64, u64))
    ensures
        r == mix_all(state, bytes@),
{
    let mut st = state;
    let mut i: usize = 0;
    while i < bytes.len()
        invariant
            0 <= i <= bytes@.len(),
            st == mix_all(state, bytes@.take(i as int)),
        decreases bytes@.len() - i,
    {
        let b = bytes[i];
        let first = (st.0 ^ (b as u64)).wrapping_mul(FNV_PRIME);
        let second0 = (st.1 ^ (b as u64)).wrapping_mul(FNV_PRIME);
        let rot = (first << 17u64) | (first >> 47u64);
        st = (first, second0 ^ rot);
        proof {
            assert(bytes@.take(i + 1).drop_last() =~= bytes@.take(i as int));
        }
        i = i + 1;
    }
    proof {
        assert(bytes@.take(bytes@.len() as int) =~= bytes@);
    }
    st
}

fn zero_byte_mix(state: (u64, u64)) -> (r: (u64, u64))
    ensures
        r == mix_all(state, seq![0u8]),
{
    let first = (state.0 ^ 0u64).wrapping_mul(FNV_PRIME);
    let second0 = (state.1 ^ 0u64).wrapping_mul(FNV_PRIME);
    let rot = (first << 17u64) | (first >> 47u64);
    proof {
        let z = seq![0u8];
        assert(z.drop_last() =~= Seq::<u8>::empty());
        assert(mix_all(state, z.drop_last()) == state);
        assert(z.last() == 0u8);
        assert(mix_all(state, z) == mix_step(state, 0u8));
    }
    (first, second0 ^ rot)
}

fn hex_digit(d: u64) -> (s: &'static str)
    requires
        d < 16,
    ensures
        s@ == seq![hex_char(d)],
{
    proof {
        reveal_strlit("0"); reveal_strlit("1"); reveal_strlit("2"); reveal_strlit("3");
        reveal_strlit("4"); reveal_strlit("5"); reveal_strlit("6"); reveal_strlit("7");
        reveal_strlit("8"); reveal_strlit("9"); reveal_strlit("a"); reveal_strlit("b");
        reveal_strlit("c"); reveal_strlit("d"); reveal_strlit("e"); reveal_strlit("f");
    }
    if d == 0 { "0" } else if d == 1 { "1" } else if d == 2 { "2" } else if d == 3 { "3" }
    else if d == 4 { "4" } else if d == 5 { "5" } else if d == 6 { "6" } else if d == 7 { "7" }
    else if d == 8 { "8" } else if d == 9 { "9" } else if d == 10 { "a" } else if d == 11 { "b" }
    else if d == 12 { "c" } else if d == 13 { "d" } else if d == 14 { "e" } else { "f" }
}

pub fn append_hex16(out: &mut String, x: u64)
    ensures
        final(out)@ == old(out)@ + hex16(x),
{
    let ghost start = out@;
    let mut i: u64 = 0;
    while i < 16
        invariant
            0 <= i <= 16,
            out@ == start + hex16(x).take(i as int),
        decreases 16 - i,
    {
        let sh: u64 = 60 - 4 * i;
        let d = (x >> sh) & 15u64;
        assert(d < 16) by (bit_vector)
            requires d == (x >> sh) & 15u64;
        out.append(hex_digit(d));
        proof {
            assert(hex16(x).take(i + 1) =~= hex16(x).take(i as int) + seq![hex_char(d)]);
        }
        i = i + 1;
    }
    proof {
        assert(hex16(x).take(16) =~= hex16(x));
    }
}

/// Deterministically derives an externally safe identity from canonical input:
/// `{kind}_` followed by the two 64-bit hash lanes in 16-digit lowercase hexadecimal.
/// The result depends only on the namespace, kind and canonical text.
pub fn stable_external_id(namespace: &NamespaceId, kind: &str, canonical: &str) -> (r: String)
    ensures
        r@ == stable_external_id_spec(vstd::utf8::encode_utf8(namespace@), kind@, kind.spec_bytes(), canonical.spec_bytes()),
{
    let ns_bytes = namespace.as_str().as_bytes();
    let kind_bytes = kind.as_bytes();
    let canonical_bytes = canonical.as_bytes();
    let st0 = (FIRST_SEED, SECOND_SEED);
    let st1 = mix_bytes(st0, ns_bytes);
    let st2 = zero_byte_mix(st1);
    let st3 = mix_bytes(st2, kind_bytes);
    let st4 = zero_byte_mix(st3);
    let st5 = mix_bytes(st4, canonical_bytes);
    proof {
        let z = seq![0u8];
        lemma_mix_all_append(st0, ns_bytes@, z);
        lemma_mix_all_append(st0, ns_bytes@ + z, kind_bytes@);
        lemma_mix_all_append(st0, ns_bytes@ + z + kind_bytes@, z);
        lemma_mix_all_append(st0, ns_bytes@ + z + kind_bytes@ + z, canonical_bytes@);
    }
    let mut out = kind.to_owned();
    out.append("_");
    proof {
        reveal_strlit("_");
    }
    append_hex16(&mut out, st5.0);
    append_hex16(&mut out, st5.1);
    out
}


/// Declares `std::time::SystemTime` so that the clock can be read from verified code.
#[verifier::external_type_specification]
#[verifier::external_body]
pub struct ExSystemTime(std::time::SystemTime);

/// Declares `std::time::SystemTimeError`, the error of a clock reading before the epoch.
#[verifier::external_type_specification]
#[verifier::external_body]
pub struct ExSystemTimeError(std::time::SystemTimeError);

/// Calls `std::time::SystemTime::now`. The reading depends on the machine's clock, so
/// nothing is promised about it.
#[verifier::external_body]
fn clock_now() -> (t: std::time::SystemTime) {
    std::time::SystemTime::now()
}

/// Calls `SystemTime::duration_since` with `UNIX_EPOCH`: the time elapsed since the
/// epoch, or an error when the clock reads earlier than the epoch. Nothing is
/// promised about which outcome comes back, since it depends on the clock.
#[verifier::external_body]
fn elapsed_since_unix_epoch(t: &std::time::SystemTime) -> (r: Result<
    std::time::Duration,
    std::time::SystemTimeError,
>) {
    t.duration_since(std::time::UNIX_EPOCH)
}

/// The whole seconds of a duration, as `Duration::as_secs` gives them.
pub uninterp spec fn duration_whole_seconds(d: std::time::Duration) -> u64;

/// Calls `Duration::as_secs`: the whole seconds of the duration, a function of the
/// duration alone.
#[verifier::external_body]
fn whole_seconds(d: &std::time::Duration) -> (secs: u64)
    ensures
        secs == duration_whole_seconds(*d),
{
    d.as_secs()
}

/// The whole seconds of the time elapsed since the Unix epoch, or 0 when the clock
/// read earlier than the epoch (`elapsed` is what `duration_since(UNIX_EPOCH)` gave).
pub fn seconds_since_epoch(elapsed: Result<std::time::Duration, std::time::SystemTimeError>) -> (secs: u64)
    ensures
        elapsed matches Ok(d) ==> secs == duration_whole_seconds(d),
        elapsed is Err ==> secs == 0,
{
    match elapsed {
        Ok(d) => whole_seconds(&d),
        Err(_) => 0,
    }
}

/// Seconds since the Unix epoch by the system clock, or 0 when the clock reads
/// earlier than the epoch. What the clock reads is not stated; what is made of the
/// reading is `seconds_since_epoch`.
pub fn now_unix_seconds() -> (secs: u64) {
    let now = clock_now();
    seconds_since_epoch(elapsed_since_unix_epoch(&now))
}

/// The schema version stamped on records that carry none.
pub fn default_schema_version() -> (v: u16)
    ensures
        v == CURRENT_SCHEMA_VERSION,
{
    CURRENT_SCHEMA_VERSION
}

/// The external id of records that carry none: the empty string.
pub fn default_external_id() -> (s: String)
    ensures
        s@ == Seq::<char>::empty(),
{
    String::new()
}

/// A character the documentation allows in a namespace: an ASCII letter or digit, or
/// one of `-`, `_`, `.` and `:`.
pub open spec fn documented_namespace_char(c: char) -> bool {
    ('a' <= c <= 'z') || ('A' <= c <= 'Z') || ('0' <= c <= '9') || c == '-' || c == '_' || c == '.' || c == ':'
}

/// Every namespace the documentation allows is valid, and `NamespaceId::new` accepts
/// it: any text of 1 to 256 characters, each an ASCII letter or digit or one of `-`,
/// `_`, `.` and `:`, passes the byte check.
pub proof fn documented_namespaces_are_valid(s: Seq<char>)
    requires
        1 <= s.len() <= 256,
        forall|i: int| 0 <= i < s.len() ==> documented_namespace_char(#[trigger] s[i]),
    ensures
        is_valid_namespace(vstd::utf8::encode_utf8(s)),
{
    assert(vstd::utf8::is_ascii_chars(s)) by {
        assert forall|i: int| 0 <= i < s.len() implies '\0' <= #[trigger] s[i] <= '\u{7f}' by {
            assert(documented_namespace_char(s[i]));
        }
    }
    vstd::utf8::is_ascii_chars_encode_utf8(s);
    let bytes = vstd::utf8::encode_utf8(s);
    assert forall|i: int| 0 <= i < bytes.len() implies is_namespace_byte(#[trigger] bytes[i]) by {
        assert(bytes[i] == s[i] as u8);
        assert(documented_namespace_char(s[i]));
    }
}

/// The bytes allowed in a namespace are exactly those of the documented characters:
/// ASCII letters and digits, `-`, `_`, `.` and `:`.
pub proof fn namespace_bytes_are_the_documented_ones(b: u8)
    ensures
        is_namespace_byte(b) <==> documented_namespace_char(b as char),
{
}

} // verus!
