//! Configuration: built-in defaults, overridden by the configuration file, overridden by the
//! environment.

use crate::digits::{parse_unsigned, unsigned_of};
use crate::graph::csr::opt_text;
use crate::text::{arg_text, comma_list, same_text, split_list, texts};
use vstd::hash_map::StringHashMap;
use vstd::prelude::*;
use vstd::string::*;

verus! {

// ── environment ──────────────────────────────────────────────────────────────

/// The environment variables.
pub struct Environment {
    pub vars: StringHashMap<String>,
}

impl Environment {
    /// The value of a variable.
    pub open spec fn var(&self, name: Seq<char>) -> Option<Seq<char>> {
        if self.vars@.contains_key(name) {
            Some(self.vars@[name]@)
        } else {
            None
        }
    }

    pub fn new() -> (r: Self)
        ensures
            forall|name: Seq<char>| (#[trigger] r.var(name)) is None,
    {
        Environment { vars: StringHashMap::new() }
    }

    pub fn set(&mut self, name: &str, value: &str)
        ensures
            final(self).var(name@) == Some(value@),
            forall|other: Seq<char>|
                other != name@ ==> #[trigger] final(self).var(other) == old(self).var(other),
    {
        self.vars.insert(name.to_owned(), value.to_owned());
    }

    pub fn get(&self, name: &str) -> (r: Option<&str>)
        ensures
            match r {
                Some(value) => self.var(name@) == Some(value@),
                None => self.var(name@) is None,
            },
    {
        match self.vars.get(name) {
            Some(value) => Some(value.as_str()),
            None => None,
        }
    }
}

// ── order of precedence ──────────────────────────────────────────────────────

/// A text: of the environment, or else of the file, or else the default.
pub open spec fn text_setting(env: Option<Seq<char>>, file: Option<Seq<char>>, default: Seq<char>) -> Seq<
    char,
> {
    match (env, file) {
        (Some(s), _) => s,
        (None, Some(s)) => s,
        (None, None) => default,
    }
}

fn choose_text(env: Option<&str>, file: &Option<String>, default: &str) -> (r: String)
    ensures
        r@ == text_setting(
            arg_text(env),
            opt_text(*file),
            default@,
        ),
{
    match env {
        Some(s) => s.to_owned(),
        None => match file {
            Some(s) => s.as_str().to_owned(),
            None => default.to_owned(),
        },
    }
}

/// A number: of the environment, where it is one and no larger than `max`, or else of the file, or
/// else the default.
pub open spec fn number_setting(env: Option<Seq<char>>, max: nat, file: Option<nat>, default: nat) -> nat {
    match (env, file) {
        (Some(s), _) if unsigned_of(s, max) is Some => unsigned_of(s, max)->0,
        (_, Some(n)) => n,
        _ => default,
    }
}

/// A file's number.
pub open spec fn file_size(n: Option<usize>) -> Option<nat> {
    match n {
        Some(n) => Some(n as nat),
        None => None,
    }
}

impl Environment {
    fn size(&self, name: &str, file: Option<usize>, default: usize) -> (r: usize)
        ensures
            r == number_setting(
                self.var(name@),
                usize::MAX as nat,
                file_size(file),
                default as nat,
            ),
    {
        let otherwise: usize = match file {
            Some(n) => n,
            None => default,
        };
        match self.get(name) {
            Some(s) => match parse_unsigned(s, usize::MAX as u64) {
                Some(n) => n as usize,
                None => otherwise,
            },
            None => otherwise,
        }
    }

    fn seconds(&self, name: &str, file: Option<u64>, default: u64) -> (r: u64)
        ensures
            r == number_setting(
                self.var(name@),
                u64::MAX as nat,
                (match file {
                    Some(n) => Some(n as nat),
                    None => None,
                }),
                default as nat,
            ),
    {
        let otherwise: u64 = match file {
            Some(n) => n,
            None => default,
        };
        match self.get(name) {
            Some(s) => match parse_unsigned(s, u64::MAX) {
                Some(n) => n,
                None => otherwise,
            },
            None => otherwise,
        }
    }

    fn flag(&self, name: &str, file: Option<bool>, default: bool) -> (r: bool)
        ensures
            r == flag_setting(self.var(name@), file, default),
    {
        let otherwise: bool = match file {
            Some(b) => b,
            None => default,
        };
        match self.get(name) {
            Some(s) => if same_text(s, "true") {
                true
            } else if same_text(s, "false") {
                false
            } else {
                otherwise
            },
            None => otherwise,
        }
    }
}

/// A flag: of the environment, where it is `true` or `false`, or else of the file, or else the
/// default.
pub open spec fn flag_setting(env: Option<Seq<char>>, file: Option<bool>, default: bool) -> bool {
    if env == Some("true"@) {
        true
    } else if env == Some("false"@) {
        false
    } else {
        match file {
            Some(b) => b,
            None => default,
        }
    }
}

/// A number with a fraction, as its bits: of the environment, or else of the file, or else the
/// default.
pub open spec fn bits_setting(env: Option<u32>, file: Option<u32>, default: u32) -> u32 {
    match (env, file) {
        (Some(x), _) => x,
        (None, Some(x)) => x,
        (None, None) => default,
    }
}

fn choose_bits(env: Option<u32>, file: Option<u32>, default: u32) -> (r: u32)
    ensures
        r == bits_setting(env, file, default),
{
    match env {
        Some(x) => x,
        None => match file {
            Some(x) => x,
            None => default,
        },
    }
}

// ── server ───────────────────────────────────────────────────────────────────

pub struct FileServerConfig {
    pub bind_addr: Option<String>,
    pub log_level: Option<String>,
}

pub struct ServerConfig {
    /// Address of the HTTP server.
    pub bind_addr: String,
    /// Log level filter.
    pub log_level: String,
}

impl ServerConfig {
    pub fn resolve(file: &FileServerConfig, env: &Environment) -> (r: Self)
        ensures
            r.bind_addr@ == text_setting(
                env.var("BIND_ADDR"@),
                opt_text(file.bind_addr),
                "0.0.0.0:8000"@,
            ),
            r.log_level@ == text_setting(env.var("RUST_LOG"@), opt_text(file.log_level), "info"@),
    {
        ServerConfig {
            bind_addr: choose_text(env.get("BIND_ADDR"), &file.bind_addr, "0.0.0.0:8000"),
            log_level: choose_text(env.get("RUST_LOG"), &file.log_level, "info"),
        }
    }
}

// ── data ─────────────────────────────────────────────────────────────────────

pub struct FileDataConfig {
    pub dir: Option<String>,
}

pub struct DataConfig {
    /// Directory of the graph, the vectors and the log.
    pub dir: String,
}

impl DataConfig {
    pub fn resolve(file: &FileDataConfig, env: &Environment, default_dir: &str) -> (r: Self)
        ensures
            r.dir@ == text_setting(env.var("DATA_DIR"@), opt_text(file.dir), default_dir@),
    {
        DataConfig { dir: choose_text(env.get("DATA_DIR"), &file.dir, default_dir) }
    }
}

/// The directory of default file paths: next to the binary, unless that is a build directory; or
/// else the workspace root; or else the working directory.
pub open spec fn base_dir(
    exe_dir: Option<Seq<char>>,
    exe_dir_name: Option<Seq<char>>,
    workspace: Option<Seq<char>>,
    working_dir: Option<Seq<char>>,
) -> Seq<char> {
    if exe_dir is Some && exe_dir_name != Some("debug"@) && exe_dir_name != Some("release"@) {
        exe_dir->0
    } else {
        match (workspace, working_dir) {
            (Some(dir), _) => dir,
            (None, Some(dir)) => dir,
            (None, None) => "."@,
        }
    }
}

/// Picks the directory of default file paths.
pub fn default_base_dir(
    exe_dir: Option<&str>,
    exe_dir_name: Option<&str>,
    workspace: Option<&str>,
    working_dir: Option<&str>,
) -> (r: String)
    ensures
        r@ == base_dir(
            arg_text(exe_dir),
            arg_text(exe_dir_name),
            arg_text(workspace),
            arg_text(working_dir),
        ),
{
    let built: bool = match exe_dir_name {
        Some(name) => same_text(name, "debug") || same_text(name, "release"),
        None => false,
    };
    match exe_dir {
        Some(dir) => if !built {
            return dir.to_owned();
        },
        None => {},
    }
    match workspace {
        Some(dir) => dir.to_owned(),
        None => match working_dir {
            Some(dir) => dir.to_owned(),
            None => ".".to_owned(),
        },
    }
}

// ── plugins ──────────────────────────────────────────────────────────────────

pub struct FilePluginEntry {
    /// `http` or `unix`
    pub transport: Option<String>,
    pub url: Option<String>,
    pub socket: Option<String>,
    /// Bearer token; unused over a socket.
    pub auth_token: Option<String>,
}

pub struct FilePluginsConfig {
    pub embed_text: FilePluginEntry,
    pub embed_image: FilePluginEntry,
    pub image_store: FilePluginEntry,
    pub extract: FilePluginEntry,
    pub generate: FilePluginEntry,
}

pub enum PluginEndpoint {
    /// HTTP or HTTPS; a token is sent as a bearer token.
    Http { url: String, auth_token: Option<String> },
    /// Unix domain socket, without a token.
    Unix { socket: String },
}

/// An endpoint: a URL with a token, or a socket.
pub ghost enum EndpointView {
    Http { url: Seq<char>, auth_token: Option<Seq<char>> },
    Unix { socket: Seq<char> },
}

impl View for PluginEndpoint {
    type V = EndpointView;

    open spec fn view(&self) -> EndpointView {
        match *self {
            PluginEndpoint::Http { url, auth_token } => EndpointView::Http {
                url: url@,
                auth_token: opt_text(auth_token),
            },
            PluginEndpoint::Unix { socket } => EndpointView::Unix { socket: socket@ },
        }
    }
}

/// The endpoint of an operation: the URL of its variable, or else of the common variable, or else
/// what the file says, or else the default URL.
///
/// In the file a socket counts where the transport is `unix`, or where neither a transport nor a
/// URL is given.
pub open spec fn endpoint(
    specific: Option<Seq<char>>,
    common: Option<Seq<char>>,
    file: FilePluginEntry,
    default_url: Seq<char>,
) -> EndpointView {
    match (specific, common) {
        (Some(url), _) => EndpointView::Http { url, auth_token: None },
        (None, Some(url)) => EndpointView::Http { url, auth_token: None },
        (None, None) => match (opt_text(file.transport), opt_text(file.socket), opt_text(file.url)) {
            (Some(t), Some(socket), _) if t == "unix"@ => EndpointView::Unix { socket },
            (_, _, Some(url)) => EndpointView::Http { url, auth_token: opt_text(file.auth_token) },
            (None, Some(socket), None) => EndpointView::Unix { socket },
            _ => EndpointView::Http { url: default_url, auth_token: None },
        },
    }
}

fn copy_text(s: &Option<String>) -> (r: Option<String>)
    ensures
        opt_text(r) == opt_text(*s),
{
    match s {
        Some(t) => Some(t.as_str().to_owned()),
        None => None,
    }
}

impl Clone for PluginEndpoint {
    fn clone(&self) -> (r: Self)
        ensures
            r@ == self@,
    {
        match self {
            PluginEndpoint::Http { url, auth_token } => PluginEndpoint::Http {
                url: url.as_str().to_owned(),
                auth_token: copy_text(auth_token),
            },
            PluginEndpoint::Unix { socket } => PluginEndpoint::Unix {
                socket: socket.as_str().to_owned(),
            },
        }
    }
}

impl PluginEndpoint {
    /// The base URL; for a socket a placeholder.
    pub fn url(&self) -> (r: &str)
        ensures
            match self@ {
                EndpointView::Http { url, .. } => r@ == url,
                EndpointView::Unix { .. } => r@ == "http://localhost"@,
            },
    {
        match self {
            PluginEndpoint::Http { url, .. } => url.as_str(),
            PluginEndpoint::Unix { .. } => "http://localhost",
        }
    }

    /// The bearer token; none for a socket.
    pub fn auth_token(&self) -> (r: Option<&str>)
        ensures
            match self@ {
                EndpointView::Http { auth_token, .. } => arg_text(r) == auth_token,
                EndpointView::Unix { .. } => r is None,
            },
    {
        match self {
            PluginEndpoint::Http { auth_token, .. } => match auth_token {
                Some(token) => Some(token.as_str()),
                None => None,
            },
            PluginEndpoint::Unix { .. } => None,
        }
    }

    /// The path of the socket; none for a URL.
    pub fn socket(&self) -> (r: Option<&str>)
        ensures
            match self@ {
                EndpointView::Unix { socket } => arg_text(r) == Some(socket),
                EndpointView::Http { .. } => r is None,
            },
    {
        match self {
            PluginEndpoint::Unix { socket } => Some(socket.as_str()),
            PluginEndpoint::Http { .. } => None,
        }
    }

    pub fn resolve(
        file: &FilePluginEntry,
        env: &Environment,
        specific: &str,
        common: &str,
        default_url: &str,
    ) -> (r: Self)
        ensures
            r@ == endpoint(env.var(specific@), env.var(common@), *file, default_url@),
    {
        match env.get(specific) {
            Some(url) => {
                return PluginEndpoint::Http { url: url.to_owned(), auth_token: None };
            },
            None => {},
        }
        match env.get(common) {
            Some(url) => {
                return PluginEndpoint::Http { url: url.to_owned(), auth_token: None };
            },
            None => {},
        }
        let unix: bool = match &file.transport {
            Some(t) => same_text(t.as_str(), "unix"),
            None => file.url.is_none(),
        };
        match &file.socket {
            Some(socket) => if unix {
                return PluginEndpoint::Unix { socket: socket.as_str().to_owned() };
            },
            None => {},
        }
        match &file.url {
            Some(url) => PluginEndpoint::Http {
                url: url.as_str().to_owned(),
                auth_token: copy_text(&file.auth_token),
            },
            None => PluginEndpoint::Http { url: default_url.to_owned(), auth_token: None },
        }
    }
}

pub struct PluginsConfig {
    pub embed_text: PluginEndpoint,
    pub embed_image: PluginEndpoint,
    pub image_store: PluginEndpoint,
    pub extract: PluginEndpoint,
    pub generate: PluginEndpoint,
}

impl PluginsConfig {
    pub fn resolve(file: &FilePluginsConfig, env: &Environment) -> (r: Self)
        ensures
            ({
                let common = env.var("PLUGIN_URL"@);
                let text_url = "http://localhost:8001"@;
                let image_url = "http://localhost:8002"@;
                &&& r.embed_text@ == endpoint(
                    env.var("PLUGIN_EMBED_TEXT_URL"@),
                    common,
                    file.embed_text,
                    text_url,
                )
                &&& r.embed_image@ == endpoint(
                    env.var("PLUGIN_EMBED_IMAGE_URL"@),
                    common,
                    file.embed_image,
                    image_url,
                )
                &&& r.image_store@ == endpoint(
                    env.var("PLUGIN_IMAGE_STORE_URL"@),
                    common,
                    file.image_store,
                    image_url,
                )
                &&& r.extract@ == endpoint(
                    env.var("PLUGIN_EXTRACT_URL"@),
                    common,
                    file.extract,
                    text_url,
                )
                &&& r.generate@ == endpoint(
                    env.var("PLUGIN_GENERATE_URL"@),
                    common,
                    file.generate,
                    text_url,
                )
            }),
    {
        let text_url = "http://localhost:8001";
        let image_url = "http://localhost:8002";
        PluginsConfig {
            embed_text: PluginEndpoint::resolve(
                &file.embed_text,
                env,
                "PLUGIN_EMBED_TEXT_URL",
                "PLUGIN_URL",
                text_url,
            ),
            embed_image: PluginEndpoint::resolve(
                &file.embed_image,
                env,
                "PLUGIN_EMBED_IMAGE_URL",
                "PLUGIN_URL",
                image_url,
            ),
            image_store: PluginEndpoint::resolve(
                &file.image_store,
                env,
                "PLUGIN_IMAGE_STORE_URL",
                "PLUGIN_URL",
                image_url,
            ),
            extract: PluginEndpoint::resolve(
                &file.extract,
                env,
                "PLUGIN_EXTRACT_URL",
                "PLUGIN_URL",
                text_url,
            ),
            generate: PluginEndpoint::resolve(
                &file.generate,
                env,
                "PLUGIN_GENERATE_URL",
                "PLUGIN_URL",
                text_url,
            ),
        }
    }

    /// All operations at one URL, without a token.
    pub fn from_single_url(url: &str) -> (r: Self)
        ensures
            ({
                let at = EndpointView::Http { url: url@, auth_token: None };
                &&& r.embed_text@ == at
                &&& r.embed_image@ == at
                &&& r.image_store@ == at
                &&& r.extract@ == at
                &&& r.generate@ == at
            }),
    {
        let at = PluginEndpoint::Http { url: url.to_owned(), auth_token: None };
        PluginsConfig {
            embed_text: at.clone(),
            embed_image: at.clone(),
            image_store: at.clone(),
            extract: at.clone(),
            generate: at,
        }
    }
}

// ── cache ────────────────────────────────────────────────────────────────────

pub struct FileCacheConfig {
    pub embed_cache_size: Option<usize>,
    pub query_cache_size: Option<usize>,
    pub query_cache_ttl_secs: Option<u64>,
}

pub struct CacheConfig {
    /// Most entries in the cache of embedding vectors.
    pub embed_cache_size: usize,
    /// Most entries in the cache of query results.
    pub query_cache_size: usize,
    /// How long a query result is kept, in seconds.
    pub query_cache_ttl_secs: u64,
}

impl CacheConfig {
    pub fn resolve(file: &FileCacheConfig, env: &Environment) -> (r: Self)
        ensures
            r.embed_cache_size == number_setting(
                env.var("EMBED_CACHE_SIZE"@),
                usize::MAX as nat,
                file_size(file.embed_cache_size),
                50_000,
            ),
            r.query_cache_size == number_setting(
                env.var("QUERY_CACHE_SIZE"@),
                usize::MAX as nat,
                file_size(file.query_cache_size),
                10_000,
            ),
            r.query_cache_ttl_secs == number_setting(
                env.var("QUERY_CACHE_TTL_SECS"@),
                u64::MAX as nat,
                (match file.query_cache_ttl_secs {
                    Some(n) => Some(n as nat),
                    None => None,
                }),
                300,
            ),
    {
        CacheConfig {
            embed_cache_size: env.size("EMBED_CACHE_SIZE", file.embed_cache_size, 50_000),
            query_cache_size: env.size("QUERY_CACHE_SIZE", file.query_cache_size, 10_000),
            query_cache_ttl_secs: env.seconds(
                "QUERY_CACHE_TTL_SECS",
                file.query_cache_ttl_secs,
                300,
            ),
        }
    }
}

// ── delta ────────────────────────────────────────────────────────────────────

pub struct FileDeltaConfig {
    pub merge_threshold: Option<usize>,
}

pub struct DeltaConfig {
    /// A delta with this many entries is merged.
    pub merge_threshold: usize,
}

impl DeltaConfig {
    pub fn resolve(file: &FileDeltaConfig, env: &Environment) -> (r: Self)
        ensures
            r.merge_threshold == number_setting(
                env.var("DELTA_MERGE_THRESHOLD"@),
                usize::MAX as nat,
                file_size(file.merge_threshold),
                500,
            ),
    {
        DeltaConfig {
            merge_threshold: env.size("DELTA_MERGE_THRESHOLD", file.merge_threshold, 500),
        }
    }
}

// ── auth ─────────────────────────────────────────────────────────────────────

pub struct AuthConfig {
    /// Allowed CORS origins; with none all are allowed.
    pub cors_origins: Vec<String>,
}

impl AuthConfig {
    pub fn resolve(env: &Environment) -> (r: Self)
        ensures
            match env.var("CORS_ALLOWED_ORIGINS"@) {
                Some(list) => texts(r.cors_origins@) == comma_list(list),
                None => r.cors_origins@.len() == 0,
            },
    {
        let cors_origins = match env.get("CORS_ALLOWED_ORIGINS") {
            Some(list) => split_list(list),
            None => Vec::new(),
        };
        AuthConfig { cors_origins }
    }
}

// ── query ────────────────────────────────────────────────────────────────────

pub struct FileQueryConfig {
    pub hnsw_k: Option<usize>,
    pub bfs_depth: Option<u8>,
    pub bfs_max_nodes: Option<usize>,
    pub context_top_n: Option<usize>,
    pub context_min_score: Option<u32>,
    pub hnsw_m: Option<usize>,
    pub hnsw_ef_construction: Option<usize>,
}

/// Parameters of the query pipeline, where a request does not give its own.
pub struct QueryConfig {
    /// Seed nodes of the vector search.
    pub hnsw_k: usize,
    /// Depth of the expansion from the seeds.
    pub bfs_depth: u8,
    /// Most nodes of the expansion.
    pub bfs_max_nodes: usize,
    /// Most nodes in the context of an answer.
    pub context_top_n: usize,
    /// Least score of a node in the context of an answer, as bits.
    pub context_min_score: u32,
    /// Most connections of a node in the vector index.
    pub hnsw_m: usize,
    /// Beam width while the vector index is built.
    pub hnsw_ef_construction: usize,
}

/// The least score, as bits: 0.3.
pub const DEFAULT_MIN_SCORE: u32 = 0x3e99_999a;

/// The similarity from which two entities are one, as bits: 0.92.
pub const DEFAULT_RESOLUTION_THRESHOLD: u32 = 0x3f6b_851f;

impl Environment {
    fn depth(&self, name: &str, file: Option<u8>, default: u8) -> (r: u8)
        ensures
            r == number_setting(
                self.var(name@),
                255,
                (match file {
                    Some(n) => Some(n as nat),
                    None => None,
                }),
                default as nat,
            ),
    {
        let otherwise: u8 = match file {
            Some(n) => n,
            None => default,
        };
        match self.get(name) {
            Some(s) => match parse_unsigned(s, 255) {
                Some(n) => n as u8,
                None => otherwise,
            },
            None => otherwise,
        }
    }
}

impl QueryConfig {
    /// `min_score` is what the environment gives for `CONTEXT_MIN_SCORE`, as bits.
    pub fn resolve(file: &FileQueryConfig, env: &Environment, min_score: Option<u32>) -> (r: Self)
        ensures
            r.hnsw_k == number_setting(
                env.var("HNSW_K"@),
                usize::MAX as nat,
                file_size(file.hnsw_k),
                20,
            ),
            r.bfs_depth == number_setting(
                env.var("BFS_DEPTH"@),
                255,
                (match file.bfs_depth {
                    Some(n) => Some(n as nat),
                    None => None,
                }),
                2,
            ),
            r.bfs_max_nodes == number_setting(
                env.var("BFS_MAX_NODES"@),
                usize::MAX as nat,
                file_size(file.bfs_max_nodes),
                500,
            ),
            r.context_top_n == number_setting(
                env.var("CONTEXT_TOP_N"@),
                usize::MAX as nat,
                file_size(file.context_top_n),
                50,
            ),
            r.context_min_score == bits_setting(
                min_score,
                file.context_min_score,
                DEFAULT_MIN_SCORE,
            ),
            r.hnsw_m == number_setting(
                env.var("HNSW_M"@),
                usize::MAX as nat,
                file_size(file.hnsw_m),
                16,
            ),
            r.hnsw_ef_construction == number_setting(
                env.var("HNSW_EF_CONSTRUCTION"@),
                usize::MAX as nat,
                file_size(file.hnsw_ef_construction),
                200,
            ),
    {
        QueryConfig {
            hnsw_k: env.size("HNSW_K", file.hnsw_k, 20),
            bfs_depth: env.depth("BFS_DEPTH", file.bfs_depth, 2),
            bfs_max_nodes: env.size("BFS_MAX_NODES", file.bfs_max_nodes, 500),
            context_top_n: env.size("CONTEXT_TOP_N", file.context_top_n, 50),
            context_min_score: choose_bits(min_score, file.context_min_score, DEFAULT_MIN_SCORE),
            hnsw_m: env.size("HNSW_M", file.hnsw_m, 16),
            hnsw_ef_construction: env.size("HNSW_EF_CONSTRUCTION", file.hnsw_ef_construction, 200),
        }
    }
}

// ── ingest ───────────────────────────────────────────────────────────────────

pub struct FileIngestConfig {
    pub resolution_mode: Option<String>,
    pub resolution_threshold: Option<u32>,
    pub resolution_match_type: Option<bool>,
}

pub struct IngestConfig {
    /// How entities are matched with known ones: `none` or `embedding`.
    pub resolution_mode: String,
    /// The similarity from which two entities are one, as bits.
    pub resolution_threshold: u32,
    /// Whether only entities of one type are matched.
    pub resolution_match_type: bool,
}

impl IngestConfig {
    /// `threshold` is what the environment gives for `RESOLUTION_THRESHOLD`, as bits.
    pub fn resolve(file: &FileIngestConfig, env: &Environment, threshold: Option<u32>) -> (r: Self)
        ensures
            r.resolution_mode@ == text_setting(
                env.var("RESOLUTION_MODE"@),
                opt_text(file.resolution_mode),
                "embedding"@,
            ),
            r.resolution_threshold == bits_setting(
                threshold,
                file.resolution_threshold,
                DEFAULT_RESOLUTION_THRESHOLD,
            ),
            r.resolution_match_type == flag_setting(
                env.var("RESOLUTION_MATCH_TYPE"@),
                file.resolution_match_type,
                false,
            ),
    {
        IngestConfig {
            resolution_mode: choose_text(
                env.get("RESOLUTION_MODE"),
                &file.resolution_mode,
                "embedding",
            ),
            resolution_threshold: choose_bits(
                threshold,
                file.resolution_threshold,
                DEFAULT_RESOLUTION_THRESHOLD,
            ),
            resolution_match_type: env.flag(
                "RESOLUTION_MATCH_TYPE",
                file.resolution_match_type,
                false,
            ),
        }
    }
}

// ── image ────────────────────────────────────────────────────────────────────

pub struct FileImageConfig {
    pub auto_store: Option<bool>,
}

pub struct ImageConfig {
    /// Whether an ingested image is stored before it is embedded.
    pub auto_store: bool,
}

impl ImageConfig {
    pub fn resolve(file: &FileImageConfig, env: &Environment) -> (r: Self)
        ensures
            r.auto_store == flag_setting(env.var("IMAGE_AUTO_STORE"@), file.auto_store, false),
    {
        ImageConfig { auto_store: env.flag("IMAGE_AUTO_STORE", file.auto_store, false) }
    }
}

// ── all of it ────────────────────────────────────────────────────────────────

/// What the configuration file holds.
pub struct FileConfig {
    pub server: FileServerConfig,
    pub data: FileDataConfig,
    pub plugins: FilePluginsConfig,
    pub cache: FileCacheConfig,
    pub delta: FileDeltaConfig,
    pub ingest: FileIngestConfig,
    pub query: FileQueryConfig,
    pub image: FileImageConfig,
}

pub struct AppConfig {
    pub server: ServerConfig,
    pub data: DataConfig,
    pub plugins: PluginsConfig,
    pub cache: CacheConfig,
    pub delta: DeltaConfig,
    pub auth: AuthConfig,
    pub ingest: IngestConfig,
    pub query: QueryConfig,
    pub image: ImageConfig,
}

impl AppConfig {
    /// The configuration from the file and the environment.
    pub fn load(
        file: &FileConfig,
        env: &Environment,
        default_dir: &str,
        min_score: Option<u32>,
        threshold: Option<u32>,
    ) -> (r: Self)
        ensures
            call_ensures(ServerConfig::resolve, (&file.server, env), r.server),
            call_ensures(DataConfig::resolve, (&file.data, env, default_dir), r.data),
            call_ensures(PluginsConfig::resolve, (&file.plugins, env), r.plugins),
            call_ensures(CacheConfig::resolve, (&file.cache, env), r.cache),
            call_ensures(DeltaConfig::resolve, (&file.delta, env), r.delta),
            call_ensures(AuthConfig::resolve, (env,), r.auth),
            call_ensures(IngestConfig::resolve, (&file.ingest, env, threshold), r.ingest),
            call_ensures(QueryConfig::resolve, (&file.query, env, min_score), r.query),
            call_ensures(ImageConfig::resolve, (&file.image, env), r.image),
    {
        AppConfig {
            server: ServerConfig::resolve(&file.server, env),
            data: DataConfig::resolve(&file.data, env, default_dir),
            plugins: PluginsConfig::resolve(&file.plugins, env),
            cache: CacheConfig::resolve(&file.cache, env),
            delta: DeltaConfig::resolve(&file.delta, env),
            auth: AuthConfig::resolve(env),
            ingest: IngestConfig::resolve(&file.ingest, env, threshold),
            query: QueryConfig::resolve(&file.query, env, min_score),
            image: ImageConfig::resolve(&file.image, env),
        }
    }
}

// ── where settings come from ─────────────────────────────────────────────────

/// A setting comes from the environment, or else from the file, or else it is the default. A number
/// or a flag of the environment that cannot be read counts as missing.
pub proof fn law_environment_comes_before_the_file(
    env: Option<Seq<char>>,
    file_text: Option<Seq<char>>,
    default_text: Seq<char>,
    max: nat,
    file_number: Option<nat>,
    default_number: nat,
    file_flag: Option<bool>,
    default_flag: bool,
)
    ensures
        text_setting(env, file_text, default_text) == (if env is Some {
            env->0
        } else if file_text is Some {
            file_text->0
        } else {
            default_text
        }),
        number_setting(env, max, file_number, default_number) == (if env is Some && unsigned_of(
            env->0,
            max,
        ) is Some {
            unsigned_of(env->0, max)->0
        } else if file_number is Some {
            file_number->0
        } else {
            default_number
        }),
        flag_setting(env, file_flag, default_flag) == (if env is Some && env->0 == "true"@ {
            true
        } else if env is Some && env->0 == "false"@ {
            false
        } else if file_flag is Some {
            file_flag->0
        } else {
            default_flag
        }),
{
}

/// The same for a number that was read before.
pub proof fn law_given_bits_come_before_the_file(
    env: Option<u32>,
    file: Option<u32>,
    default: u32,
)
    ensures
        bits_setting(env, file, default) == (if env is Some {
            env->0
        } else if file is Some {
            file->0
        } else {
            default
        }),
{
}

/// A plugin is reached at the address that the environment gives for it, or else for all of them.
/// Otherwise the file decides: by its socket where it says `unix`, by its address and token where it
/// has one, by its socket where it has nothing else, and at the default address where it has none of
/// these.
pub proof fn law_plugin_is_where_it_is_set(
    specific: Option<Seq<char>>,
    common: Option<Seq<char>>,
    file: FilePluginEntry,
    default_url: Seq<char>,
)
    ensures
        ({
            let r = endpoint(specific, common, file, default_url);
            let unix = file.transport is Some && file.transport->0@ == "unix"@ && file.socket is Some;
            if specific is Some {
                r == (EndpointView::Http { url: specific->0, auth_token: None })
            } else if common is Some {
                r == (EndpointView::Http { url: common->0, auth_token: None })
            } else if unix {
                r == (EndpointView::Unix { socket: file.socket->0@ })
            } else if file.url is Some {
                r == (EndpointView::Http {
                    url: file.url->0@,
                    auth_token: opt_text(file.auth_token),
                })
            } else if file.transport is None && file.socket is Some {
                r == (EndpointView::Unix { socket: file.socket->0@ })
            } else {
                r == (EndpointView::Http { url: default_url, auth_token: None })
            }
        }),
{
}

/// Data stand by default beside the program. A program in a directory of a build has none of its
/// own: then it is the workspace, or else the directory that it runs in.
pub proof fn law_data_stand_beside_the_program(
    exe_dir: Option<Seq<char>>,
    exe_dir_name: Option<Seq<char>>,
    workspace: Option<Seq<char>>,
    working_dir: Option<Seq<char>>,
)
    ensures
        ({
            let r = base_dir(exe_dir, exe_dir_name, workspace, working_dir);
            let built = exe_dir_name is Some && (exe_dir_name->0 == "debug"@ || exe_dir_name->0
                == "release"@);
            if exe_dir is Some && !built {
                r == exe_dir->0
            } else if workspace is Some {
                r == workspace->0
            } else if working_dir is Some {
                r == working_dir->0
            } else {
                r == "."@
            }
        }),
{
}

/// An endpoint reads as what it is: an address with its token, or a socket.
pub proof fn law_endpoint_reads_as_what_it_is(e: PluginEndpoint)
    ensures
        match e {
            PluginEndpoint::Http { url, auth_token } => e@ == (EndpointView::Http {
                url: url@,
                auth_token: opt_text(auth_token),
            }),
            PluginEndpoint::Unix { socket } => e@ == (EndpointView::Unix { socket: socket@ }),
        },
{
}

} // verus!
