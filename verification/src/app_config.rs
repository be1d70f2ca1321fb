//! Application settings: defaults, accessors, and validation.

use vstd::prelude::*;
use vstd::std_specs::iter::IteratorSpec;
use vstd::string::*;

verus! {

/// Top-level application settings.
#[derive(Debug)]
pub struct Settings {
    pub server: ServerConfig,
    pub storage: StorageConfig,
    pub logging: LoggingConfig,
    pub hnsw: HnswConfig,
    pub limits: LimitsConfig,
}

#[derive(Debug)]
pub struct ServerConfig {
    pub host: String,
    pub port: u16,
    pub metrics_path: String,
    pub listen_addr: String,
    pub api_key: String,
    pub data_dir: String,
}

#[derive(Debug)]
pub struct StorageConfig {
    pub data_dir: String,
    pub default_graph: String,
}

#[derive(Debug)]
pub struct LoggingConfig {
    pub level: String,
}

#[derive(Clone, Copy, Debug)]
pub struct HnswConfig {
    pub m: usize,
    pub ef_construction: usize,
    pub ef: usize,
}

/// Resource-governance settings for untrusted HTTP requests.
#[derive(Clone, Copy, Debug)]
pub struct LimitsConfig {
    pub request_body_bytes: usize,
    pub request_timeout_seconds: u64,
    pub requests_per_second: u32,
    pub request_burst: u32,
    pub max_ingest_nodes: usize,
    pub max_ingest_edges: usize,
    pub max_bfs_depth: usize,
    pub max_vector_dimensions: usize,
    pub max_vector_results: usize,
    pub max_vector_ef: usize,
}

impl Default for ServerConfig {
    fn default() -> (r: Self)
        ensures
            r.host@ == "127.0.0.1"@,
            r.port == 7373,
            r.metrics_path@ == "/metrics"@,
            r.listen_addr@.len() == 0,
            r.api_key@.len() == 0,
            r.data_dir@.len() == 0,
    {
        ServerConfig {
            host: String::from_str("127.0.0.1"),
            port: 7373,
            metrics_path: String::from_str("/metrics"),
            listen_addr: String::new(),
            api_key: String::new(),
            data_dir: String::new(),
        }
    }
}

impl Clone for ServerConfig {
    fn clone(&self) -> (r: Self)
        ensures
            r == *self,
    {
        ServerConfig {
            host: self.host.clone(),
            port: self.port,
            metrics_path: self.metrics_path.clone(),
            listen_addr: self.listen_addr.clone(),
            api_key: self.api_key.clone(),
            data_dir: self.data_dir.clone(),
        }
    }
}

impl Default for StorageConfig {
    fn default() -> (r: Self)
        ensures
            r.data_dir@ == "data"@,
            r.default_graph@ == "graph.pad"@,
    {
        StorageConfig { data_dir: String::from_str("data"), default_graph: String::from_str("graph.pad") }
    }
}

impl Clone for StorageConfig {
    fn clone(&self) -> (r: Self)
        ensures
            r == *self,
    {
        StorageConfig { data_dir: self.data_dir.clone(), default_graph: self.default_graph.clone() }
    }
}

impl Default for LoggingConfig {
    fn default() -> (r: Self)
        ensures
            r.level@ == "info"@,
    {
        LoggingConfig { level: String::from_str("info") }
    }
}

impl Clone for LoggingConfig {
    fn clone(&self) -> (r: Self)
        ensures
            r == *self,
    {
        LoggingConfig { level: self.level.clone() }
    }
}

impl Default for HnswConfig {
    fn default() -> (r: Self)
        ensures
            r == (HnswConfig { m: 16, ef_construction: 200, ef: 50 }),
    {
        HnswConfig { m: 16, ef_construction: 200, ef: 50 }
    }
}

impl LimitsConfig {
    /// The default limits.
    pub open spec fn defaults() -> LimitsConfig {
        LimitsConfig {
            request_body_bytes: 1_048_576,
            request_timeout_seconds: 30,
            requests_per_second: 100,
            request_burst: 200,
            max_ingest_nodes: 100_000,
            max_ingest_edges: 500_000,
            max_bfs_depth: 64,
            max_vector_dimensions: 4_096,
            max_vector_results: 1_000,
            max_vector_ef: 10_000,
        }
    }

    /// Every limit is positive.
    pub open spec fn all_positive(&self) -> bool {
        &&& self.request_body_bytes > 0
        &&& self.request_timeout_seconds > 0
        &&& self.requests_per_second > 0
        &&& self.request_burst > 0
        &&& self.max_ingest_nodes > 0
        &&& self.max_ingest_edges > 0
        &&& self.max_bfs_depth > 0
        &&& self.max_vector_dimensions > 0
        &&& self.max_vector_results > 0
        &&& self.max_vector_ef > 0
    }
}

impl Default for LimitsConfig {
    fn default() -> (r: Self)
        ensures
            r == LimitsConfig::defaults(),
    {
        LimitsConfig {
            request_body_bytes: 1_048_576,
            request_timeout_seconds: 30,
            requests_per_second: 100,
            request_burst: 200,
            max_ingest_nodes: 100_000,
            max_ingest_edges: 500_000,
            max_bfs_depth: 64,
            max_vector_dimensions: 4_096,
            max_vector_results: 1_000,
            max_vector_ef: 10_000,
        }
    }
}

impl Default for Settings {
    fn default() -> (r: Self)
        ensures
            r.server.host@ == "127.0.0.1"@,
            r.server.port == 7373,
            r.server.metrics_path@ == "/metrics"@,
            r.server.listen_addr@.len() == 0,
            r.server.api_key@.len() == 0,
            r.server.data_dir@.len() == 0,
            r.storage.data_dir@ == "data"@,
            r.storage.default_graph@ == "graph.pad"@,
            r.logging.level@ == "info"@,
            r.hnsw == (HnswConfig { m: 16, ef_construction: 200, ef: 50 }),
            r.limits == LimitsConfig::defaults(),
    {
        Settings {
            server: ServerConfig::default(),
            storage: StorageConfig::default(),
            logging: LoggingConfig::default(),
            hnsw: HnswConfig::default(),
            limits: LimitsConfig::default(),
        }
    }
}

impl Clone for Settings {
    fn clone(&self) -> (r: Self)
        ensures
            r == *self,
    {
        Settings {
            server: self.server.clone(),
            storage: self.storage.clone(),
            logging: self.logging.clone(),
            hnsw: self.hnsw,
            limits: self.limits,
        }
    }
}

/// Whether `c` has the Unicode `White_Space` property, as `char::is_whitespace` tests.
pub open spec fn is_unicode_whitespace(c: char) -> bool {
    let n = c as u32;
    ||| (9 <= n <= 13)
    ||| n == 32
    ||| n == 0x85
    ||| n == 0xA0
    ||| n == 0x1680
    ||| (0x2000 <= n <= 0x200A)
    ||| n == 0x2028
    ||| n == 0x2029
    ||| n == 0x202F
    ||| n == 0x205F
    ||| n == 0x3000
}

pub fn is_unicode_whitespace_exec(c: char) -> (r: bool)
    ensures
        r == is_unicode_whitespace(c),
{
    let n = c as u32;
    (9 <= n && n <= 13) || n == 32 || n == 0x85 || n == 0xA0 || n == 0x1680 || (0x2000 <= n && n
        <= 0x200A) || n == 0x2028 || n == 0x2029 || n == 0x202F || n == 0x205F || n == 0x3000
}

/// Trimming `s` would change it: it starts or ends with whitespace.
pub open spec fn has_surrounding_whitespace(s: Seq<char>) -> bool {
    s.len() > 0 && (is_unicode_whitespace(s[0]) || is_unicode_whitespace(s.last()))
}

/// Whether `s` starts or ends with whitespace, so that trimming would change it.
pub fn has_surrounding_whitespace_exec(s: &str) -> (r: bool)
    ensures
        r == has_surrounding_whitespace(s@),
{
    let mut first: Option<char> = None;
    let mut last: Option<char> = None;
    let mut chars = s.chars();
    let ghost total = s@;
    let ghost mut seen: int = 0;
    loop
        invariant
            chars.obeys_prophetic_iter_laws(),
            0 <= seen <= total.len(),
            chars.remaining() == total.skip(seen),
            seen == 0 ==> first is None && last is None,
            seen > 0 ==> first == Some(total[0]) && last == Some(total[seen - 1]),
        ensures
            seen == total.len(),
            seen == 0 ==> first is None && last is None,
            seen > 0 ==> first == Some(total[0]) && last == Some(total[seen - 1]),
        decreases total.len() - seen,
    {
        let ghost before = chars.remaining();
        match chars.next() {
            Some(c) => {
                proof {
                    assert(before.len() > 0);
                    assert(c == total[seen]);
                    seen = seen + 1;
                    assert(total.skip(seen) =~= before.drop_first());
                }
                if first.is_none() {
                    first = Some(c);
                }
                last = Some(c);
            },
            None => {
                proof {
                    assert(before.len() == 0);
                    assert(seen == total.len());
                }
                break;
            },
        }
    }
    match (first, last) {
        (Some(f), Some(l)) => is_unicode_whitespace_exec(f) || is_unicode_whitespace_exec(l),
        _ => false,
    }
}

/// Why a configuration is refused: the API key is too short or padded with whitespace.
pub open spec fn api_key_message() -> Seq<char> {
    "server.api_key must contain at least 16 bytes with no surrounding whitespace"@
}

/// Why a configuration is refused: some limit is zero.
pub open spec fn limits_message() -> Seq<char> {
    "all limits must be greater than zero"@
}

/// Why a configuration is refused: some HNSW parameter is zero.
pub open spec fn hnsw_message() -> Seq<char> {
    "all HNSW parameters must be greater than zero"@
}

/// The outcome of validating `settings`: the first failed check, in the order API key,
/// limits, HNSW parameters.
pub open spec fn validation_outcome(settings: Settings) -> Option<Seq<char>> {
    if (vstd::utf8::encode_utf8(settings.server.api_key@).len() as usize) < 16 || has_surrounding_whitespace(settings.server.api_key@) {
        Some(api_key_message())
    } else if !settings.limits.all_positive() {
        Some(limits_message())
    } else if settings.hnsw.m == 0 || settings.hnsw.ef_construction == 0 || settings.hnsw.ef == 0 {
        Some(hnsw_message())
    } else {
        None
    }
}

/// `n` in decimal, without leading zeros.
pub open spec fn decimal(n: nat) -> Seq<char>
    decreases n,
{
    if n < 10 {
        seq![((48 + n) as u8) as char]
    } else {
        decimal(n / 10).push(((48 + n % 10) as u8) as char)
    }
}

fn digit_str(d: u16) -> (s: &'static str)
    requires
        d < 10,
    ensures
        s@ == seq![((48 + d) as u8) as char],
{
    proof {
        reveal_strlit("0"); reveal_strlit("1"); reveal_strlit("2"); reveal_strlit("3");
        reveal_strlit("4"); reveal_strlit("5"); reveal_strlit("6"); reveal_strlit("7");
        reveal_strlit("8"); reveal_strlit("9");
    }
    if d == 0 { "0" } else if d == 1 { "1" } else if d == 2 { "2" } else if d == 3 { "3" }
    else if d == 4 { "4" } else if d == 5 { "5" } else if d == 6 { "6" } else if d == 7 { "7" }
    else if d == 8 { "8" } else { "9" }
}

/// Appends `n` in decimal.
pub fn append_decimal(out: &mut String, n: u128)
    ensures
        final(out)@ == old(out)@ + decimal(n as nat),
    decreases n,
{
    if n >= 10 {
        append_decimal(out, n / 10);
    }
    out.append(digit_str((n % 10) as u16));
    proof {
        if n >= 10 {
            assert(decimal(n as nat) == decimal((n / 10) as nat).push(((48 + n % 10) as u8) as char));
        }
    }
}

#[verifier::external_type_specification]
#[verifier::external_body]
pub struct ExPathBuf(std::path::PathBuf);

/// The text a `PathBuf` holds (every path here is built from UTF-8 text).
pub uninterp spec fn path_text(p: std::path::PathBuf) -> Seq<char>;

/// Calls `PathBuf::from` on a string slice: the path holds exactly that text.
#[verifier::external_body]
fn path_from(s: &str) -> (p: std::path::PathBuf)
    ensures
        path_text(p) == s@,
{
    std::path::PathBuf::from(s)
}

/// A plain file name: non-empty, neither `.` nor `..`, and free of `/`, `\` and `:`,
/// so relative on every platform and without a prefix, root or parent step.
pub open spec fn is_plain_name(s: Seq<char>) -> bool {
    &&& s.len() > 0
    &&& s != seq!['.']
    &&& s != seq!['.', '.']
    &&& forall|i: int| 0 <= i < s.len() ==> #[trigger] s[i] != '/' && s[i] != '\\' && s[i] != ':'
}

/// `joined` is `base` followed by `part`, with at most one path separator (`/` or `\`)
/// between them.
pub open spec fn joined_as(base: Seq<char>, part: Seq<char>, joined: Seq<char>) -> bool {
    joined == base + part || exists|c: char| (c == '/' || c == '\\') && joined == base + seq![c] + part
}

/// Calls `Path::join`. For a plain file name, which is relative on every platform, the
/// result is the base's text, then at most one separator (none when the base is empty
/// or already ends in one), then the name. Which separator that is depends on the
/// platform, so only that it is `/` or `\` is stated; of other parts nothing is stated.
#[verifier::external_body]
fn path_join(base: &std::path::PathBuf, part: &str) -> (p: std::path::PathBuf)
    ensures
        is_plain_name(part@) ==> joined_as(path_text(*base), part@, path_text(p)),
{
    base.join(part)
}

impl Settings {
    /// The socket address the HTTP server binds to: `server.listen_addr` when set,
    /// otherwise `host:port`.
    pub fn listen_addr(&self) -> (r: String)
        ensures
            self.server.listen_addr@.len() > 0 ==> r@ == self.server.listen_addr@,
            self.server.listen_addr@.len() == 0 ==> r@ == self.server.host@ + seq![':'] + decimal(
                self.server.port as nat,
            ),
    {
        if self.server.listen_addr.as_str().is_empty() {
            let mut out = self.server.host.clone();
            out.append(":");
            proof {
                reveal_strlit(":");
            }
            append_decimal(&mut out, self.server.port as u128);
            out
        } else {
            self.server.listen_addr.clone()
        }
    }

    /// What the store file's path is built from when `server.data_dir` is not set: the
    /// storage directory and, inside it, the default graph's file name; `None` when
    /// `server.data_dir` names the file itself.
    pub fn data_dir_parts(&self) -> (r: Option<(String, String)>)
        ensures
            self.server.data_dir@.len() > 0 ==> r is None,
            self.server.data_dir@.len() == 0 ==> (r matches Some((dir, file)) && dir@ == self.storage.data_dir@
                && file@ == self.storage.default_graph@),
    {
        if self.server.data_dir.as_str().is_empty() {
            Some((self.storage.data_dir.clone(), self.storage.default_graph.clone()))
        } else {
            None
        }
    }

    /// The path of the store file the HTTP server loads and persists:
    /// `server.data_dir` verbatim when set, otherwise the two parts `data_dir_parts`
    /// gives, the file name joined onto the directory by `Path::join`: for a plain file
    /// name, the directory's text, at most one separator, then the name.
    pub fn data_dir(&self) -> (r: std::path::PathBuf)
        ensures
            self.server.data_dir@.len() > 0 ==> path_text(r) == self.server.data_dir@,
            self.server.data_dir@.len() == 0 && is_plain_name(self.storage.default_graph@) ==> joined_as(
                self.storage.data_dir@,
                self.storage.default_graph@,
                path_text(r),
            ),
    {
        match self.data_dir_parts() {
            Some((dir, file)) => {
                let base = path_from(dir.as_str());
                path_join(&base, file.as_str())
            },
            None => path_from(self.server.data_dir.as_str()),
        }
    }

    /// The configured API key for protected endpoints.
    pub fn api_key(&self) -> (r: &str)
        ensures
            r@ == self.server.api_key@,
    {
        self.server.api_key.as_str()
    }

    /// The metrics scrape path, defaulting to `/metrics`.
    pub fn metrics_path(&self) -> (r: &str)
        ensures
            self.server.metrics_path@.len() == 0 ==> r@ == "/metrics"@,
            self.server.metrics_path@.len() > 0 ==> r@ == self.server.metrics_path@,
    {
        if self.server.metrics_path.as_str().is_empty() {
            "/metrics"
        } else {
            self.server.metrics_path.as_str()
        }
    }

    /// The default tracing/log level.
    pub fn log_level(&self) -> (r: &str)
        ensures
            r@ == self.logging.level@,
    {
        self.logging.level.as_str()
    }

    /// HNSW index parameters as `(m, ef_construction, ef)`.
    pub fn hnsw_params(&self) -> (r: (usize, usize, usize))
        ensures
            r == (self.hnsw.m, self.hnsw.ef_construction, self.hnsw.ef),
    {
        (self.hnsw.m, self.hnsw.ef_construction, self.hnsw.ef)
    }

    /// The operational limits applied by the HTTP server.
    pub fn limits(&self) -> (r: &LimitsConfig)
        ensures
            *r == self.limits,
    {
        &self.limits
    }

    /// Validate security- and resource-sensitive settings before binding a socket.
    pub fn validate(&self) -> (r: Result<(), String>)
        ensures
            match validation_outcome(*self) {
                Some(message) => r matches Err(e) && e@ == message,
                None => r is Ok,
            },
    {
        let api_key = self.api_key();
        if api_key.len() < 16 || has_surrounding_whitespace_exec(api_key) {
            return Err(String::from_str("server.api_key must contain at least 16 bytes with no surrounding whitespace"));
        }
        let limits = &self.limits;
        if limits.request_body_bytes == 0 || limits.request_timeout_seconds == 0
            || limits.requests_per_second == 0 || limits.request_burst == 0
            || limits.max_ingest_nodes == 0 || limits.max_ingest_edges == 0
            || limits.max_bfs_depth == 0 || limits.max_vector_dimensions == 0
            || limits.max_vector_results == 0 || limits.max_vector_ef == 0 {
            return Err(String::from_str("all limits must be greater than zero"));
        }
        if self.hnsw.m == 0 || self.hnsw.ef_construction == 0 || self.hnsw.ef == 0 {
            return Err(String::from_str("all HNSW parameters must be greater than zero"));
        }
        Ok(())
    }
}

} // verus!
