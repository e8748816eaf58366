//! Settings: environment before file before default.

use ai_graph_engine::config::{
    default_base_dir, AppConfig, AuthConfig, CacheConfig, DataConfig, Environment, FileCacheConfig,
    FileConfig, FileDataConfig, FileDeltaConfig, FileImageConfig, FileIngestConfig,
    FilePluginEntry, FilePluginsConfig, FileQueryConfig, FileServerConfig, IngestConfig,
    PluginEndpoint, PluginsConfig, QueryConfig, ServerConfig,
};
use ai_graph_engine::plugin::{
    is_ready_reply, split_chunks, store_request, HealthCache, PluginRoute, PluginTimeouts,
};

fn env(pairs: &[(&str, &str)]) -> Environment {
    let mut e = Environment::new();
    for (name, value) in pairs {
        e.set(name, value);
    }
    e
}

fn entry() -> FilePluginEntry {
    FilePluginEntry { transport: None, url: None, socket: None, auth_token: None }
}

fn plugins() -> FilePluginsConfig {
    FilePluginsConfig {
        embed_text: entry(),
        embed_image: entry(),
        image_store: entry(),
        extract: entry(),
        generate: entry(),
    }
}

fn no_file() -> FileConfig {
    FileConfig {
        server: FileServerConfig { bind_addr: None, log_level: None },
        data: FileDataConfig { dir: None },
        plugins: plugins(),
        cache: FileCacheConfig {
            embed_cache_size: None,
            query_cache_size: None,
            query_cache_ttl_secs: None,
        },
        delta: FileDeltaConfig { merge_threshold: None },
        ingest: FileIngestConfig {
            resolution_mode: None,
            resolution_threshold: None,
            resolution_match_type: None,
        },
        query: FileQueryConfig {
            hnsw_k: None,
            bfs_depth: None,
            bfs_max_nodes: None,
            context_top_n: None,
            context_min_score: None,
            hnsw_m: None,
            hnsw_ef_construction: None,
        },
        image: FileImageConfig { auto_store: None },
    }
}

#[test]
fn environment_goes_before_file_and_file_before_default() {
    let file = FileServerConfig { bind_addr: Some("f:1".into()), log_level: None };
    let c = ServerConfig::resolve(&file, &env(&[("BIND_ADDR", "e:2")]));
    assert_eq!((c.bind_addr.as_str(), c.log_level.as_str()), ("e:2", "info"));
    let c = ServerConfig::resolve(&file, &env(&[]));
    assert_eq!(c.bind_addr, "f:1");
}

#[test]
fn defaults_hold_without_any_setting() {
    let c = AppConfig::load(&no_file(), &env(&[]), "/srv/data", None, None);
    assert_eq!(c.server.bind_addr, "0.0.0.0:8000");
    assert_eq!(c.data.dir, "/srv/data");
    assert_eq!(c.plugins.embed_text.url(), "http://localhost:8001");
    assert_eq!(c.query.hnsw_k, 20);
    assert_eq!(f32::from_bits(c.query.context_min_score), 0.3);
    assert_eq!(f32::from_bits(c.ingest.resolution_threshold), 0.92);
    assert!(c.auth.cors_origins.is_empty());
}

#[test]
fn numbers_that_cannot_be_read_are_passed_over() {
    let file = FileCacheConfig {
        embed_cache_size: Some(7),
        query_cache_size: None,
        query_cache_ttl_secs: None,
    };
    let c = CacheConfig::resolve(&file, &env(&[("EMBED_CACHE_SIZE", "x"), ("QUERY_CACHE_SIZE", "12")]));
    assert_eq!(c.embed_cache_size, 7);
    assert_eq!(c.query_cache_size, 12);
}

#[test]
fn float_settings_come_as_numbers() {
    let file = FileQueryConfig { context_min_score: Some(0.5f32.to_bits()), ..no_file().query };
    let c = QueryConfig::resolve(&file, &env(&[]), Some(0.25f32.to_bits()));
    assert_eq!(f32::from_bits(c.context_min_score), 0.25);
    let c = QueryConfig::resolve(&file, &env(&[]), None);
    assert_eq!(f32::from_bits(c.context_min_score), 0.5);
    let c = IngestConfig::resolve(&no_file().ingest, &env(&[]), Some(0.8f32.to_bits()));
    assert_eq!(f32::from_bits(c.resolution_threshold), 0.8);
}

#[test]
fn data_directory_is_found_next_to_the_program() {
    let c = DataConfig::resolve(&FileDataConfig { dir: None }, &env(&[("DATA_DIR", "/d")]), "/x");
    assert_eq!(c.dir, "/d");
    assert_eq!(default_base_dir(None, None, None, Some("/cwd")), "/cwd");
}

#[test]
fn origins_are_a_list() {
    let c = AuthConfig::resolve(&env(&[("CORS_ALLOWED_ORIGINS", "https://a.io, https://b.io,")]));
    assert_eq!(c.cors_origins, vec!["https://a.io", "https://b.io"]);
}

#[test]
fn sockets_are_endpoints_too() {
    let file = FilePluginsConfig {
        extract: FilePluginEntry { socket: Some("/run/x.sock".into()), ..entry() },
        ..plugins()
    };
    let c = PluginsConfig::resolve(&file, &env(&[]));
    assert_eq!(c.extract.socket(), Some("/run/x.sock"));
    assert!(c.embed_text.socket().is_none());
    let http = PluginEndpoint::Http { url: "http://h:1/".into(), auth_token: Some("t".into()) };
    assert_eq!(http.auth_token(), Some("t"));
    assert_eq!(http.clone().url(), "http://h:1/");
}

#[test]
fn one_url_serves_all_operations() {
    let c = PluginsConfig::from_single_url("http://h:9");
    for e in [&c.embed_text, &c.embed_image, &c.image_store, &c.extract, &c.generate] {
        assert_eq!(e.url(), "http://h:9");
    }
}

// ── the plugin client ────────────────────────────────────────────────────────

#[test]
fn addresses_have_one_slash() {
    let e = PluginEndpoint::Http { url: "http://h:1/".into(), auth_token: None };
    assert_eq!(PluginRoute::new(&e).address("/embed/text"), "http://h:1/embed/text");
}

#[test]
fn timeouts_have_a_common_default() {
    let t = PluginTimeouts::resolve(&env(&[]));
    assert_eq!((t.connect, t.embed, t.extract, t.generate, t.health), (5, 60, 60, 60, 3));
    let t = PluginTimeouts::resolve(&env(&[("PLUGIN_TIMEOUT_SECS", "7")]));
    assert_eq!((t.embed, t.generate), (7, 7));
}

#[test]
fn server_is_ready_only_if_it_says_so() {
    assert!(is_ready_reply(true, "{\"status\":\"ok\"}"));
    assert!(!is_ready_reply(true, "{\"status\":\"loading\"}"));
    assert!(!is_ready_reply(true, "ok"));
    assert!(!is_ready_reply(false, "{\"status\":\"ok\"}"));
}

#[test]
fn health_is_remembered_for_five_seconds() {
    let mut cache = HealthCache::new();
    assert_eq!(cache.get(0), None);
    cache.put(true, 0);
    assert_eq!(cache.get(4_999_999_999), Some(true));
    assert_eq!(cache.get(5_000_000_001), None);
}

#[test]
fn images_are_stored_by_address_or_content() {
    let by_url = store_request("https://a/b.png");
    assert_eq!((by_url.url.as_deref(), by_url.data.as_deref()), (Some("https://a/b.png"), None));
    let inline = store_request("data:image/png;base64,xx");
    assert_eq!((inline.url, inline.data.as_deref()), (None, Some("data:image/png;base64,xx")));
}

#[test]
fn texts_are_embedded_in_chunks() {
    let list: Vec<String> = (0..5).map(|i| i.to_string()).collect();
    let chunks = split_chunks(&list, 2);
    assert_eq!(chunks, vec![vec!["0", "1"], vec!["2", "3"], vec!["4"]]);
    assert_eq!(chunks.concat(), list);
}
