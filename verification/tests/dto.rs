//! Requests, responses and errors.

use ai_graph_engine::api::dto::ingest::{IngestJsonReq, IngestTextReq, ResolutionOverride};
use ai_graph_engine::api::dto::query::{
    build_stats, default_max_hops, validate_max_hops, validate_mode, PipelineControl,
    QueryImageReq, QueryMultihopReq, QueryNodeReq, QueryReq, QueryResponse, QueryTextReq,
    QueryVectorReq, ResponseProfile,
};
use ai_graph_engine::api::error::ApiError;
use ai_graph_engine::api::validation::{validation_error, FieldError};
use ai_graph_engine::plugin::LlmHints;
use ai_graph_engine::query::{QueryResult, QueryStats, Subgraph};

fn make_stats() -> QueryStats {
    QueryStats {
        seed_nodes: 5,
        subgraph_nodes: 20,
        context_nodes: 10,
        total_ms: 100,
        embed_ms: 10,
        search_ms: 5,
        bfs_ms: 15,
        score_ms: 8,
        llm_ms: 62,
        cache_hit: false,
    }
}

fn make_result() -> QueryResult {
    QueryResult {
        answer: "test answer".into(),
        subgraph: Subgraph { nodes: vec![], edges: vec![] },
        stats: make_stats(),
    }
}

#[test]
fn minimal_profile_strips_subgraph_and_stats() {
    let r = QueryResponse::from_result(make_result(), &ResponseProfile::Minimal);
    assert!(r.subgraph.is_none());
    assert!(r.stats.seed_nodes.is_none());
    assert!(r.stats.llm_ms.is_none());
    assert_eq!(r.stats.total_ms, 100);
}

#[test]
fn standard_profile_has_nodes_no_edges() {
    let r = QueryResponse::from_result(make_result(), &ResponseProfile::Standard);
    let sub = r.subgraph.expect("standard must include subgraph");
    assert!(sub.edges.is_none());
    assert!(r.stats.seed_nodes.is_some());
    assert!(r.stats.search_ms.is_none(), "standard omits search_ms");
}

#[test]
fn full_profile_has_all_fields() {
    let r = QueryResponse::from_result(make_result(), &ResponseProfile::Full);
    let sub = r.subgraph.expect("full must include subgraph");
    assert!(sub.edges.is_some());
    assert!(r.stats.search_ms.is_some());
    assert!(r.stats.bfs_ms.is_some());
    assert!(r.stats.score_ms.is_some());
    assert!(r.stats.llm_ms.is_some());
    assert_eq!(r.stats.bfs_ms, Some(15));
    assert_eq!(r.answer, "test answer");
}

#[test]
fn cached_results_show_no_times() {
    let s = build_stats(QueryStats { cache_hit: true, ..make_stats() }, ResponseProfile::Full);
    assert_eq!(s.seed_nodes, Some(5));
    assert_eq!(s.embed_ms, None);
    assert_eq!(s.llm_ms, None);
    assert_eq!(s.total_ms, 100);
    assert!(s.cache_hit);
}

#[test]
fn max_hops_zero_is_invalid() {
    assert!(validate_max_hops(0).is_err());
}

#[test]
fn max_hops_five_is_valid() {
    assert!(validate_max_hops(5).is_ok());
}

#[test]
fn max_hops_six_is_invalid() {
    assert!(validate_max_hops(6).is_err());
}

#[test]
fn valid_modes_pass() {
    for m in &["semantic", "relationship", "entity", "balanced"] {
        assert!(validate_mode(&m.to_string()).is_ok(), "mode '{m}' should be valid");
    }
}

#[test]
fn unknown_mode_fails() {
    assert!(validate_mode(&"hybrid".to_string()).is_err());
}

#[test]
fn llm_hints_default_is_empty() {
    let h = LlmHints::default();
    assert!(h.is_empty());
}

#[test]
fn llm_hints_with_rules_not_empty() {
    let h = LlmHints { rules: vec!["Answer in French".into()], ..Default::default() };
    assert!(!h.is_empty());
}

#[test]
fn empty_query_text_fails_validation() {
    let req = QueryTextReq {
        query: String::new(),
        pipeline: None,
        mode: None,
        options: None,
        response: None,
    };
    assert!(req.validate().is_err());
}

#[test]
fn valid_query_text_passes() {
    let req = QueryTextReq {
        query: "Who is Alice?".into(),
        pipeline: None,
        mode: None,
        options: None,
        response: None,
    };
    assert!(req.validate().is_ok());
}

fn fields(r: Result<(), Vec<FieldError>>) -> Vec<&'static str> {
    match r {
        Ok(()) => vec![],
        Err(errors) => errors.iter().map(|e| e.field).collect(),
    }
}

#[test]
fn every_request_names_its_wrong_fields() {
    let vector = QueryVectorReq {
        vector: vec![],
        pipeline: None,
        mode: Some("x".into()),
        options: None,
        response: None,
    };
    assert_eq!(fields(vector.validate()), vec!["vector", "mode"]);
    let multihop = QueryMultihopReq {
        query: "q".into(),
        max_hops: 9,
        mode: None,
        options: None,
        response: None,
    };
    assert_eq!(fields(multihop.validate()), vec!["max_hops"]);
    let node = QueryNodeReq { node_id: 0, mode: Some("entity".into()), options: None, response: None };
    assert!(node.validate().is_ok());
    let image = QueryImageReq {
        image_url: String::new(),
        pipeline: None,
        mode: None,
        options: None,
        response: None,
    };
    assert_eq!(fields(image.validate()), vec!["image_url"]);
    let both = QueryReq {
        query: None,
        vector: None,
        pipeline: None,
        mode: Some("semantic".into()),
        options: None,
        response: None,
    };
    assert!(both.validate().is_ok());
    assert_eq!(default_max_hops(), 2);
    assert!(PipelineControl::default().llm_generate);
}

#[test]
fn ingest_requests_are_validated() {
    let text = IngestTextReq { text: String::new(), resolution: None, hints: None };
    assert_eq!(fields(text.validate()), vec!["text"]);
    let empty = IngestJsonReq { entities: vec![], relations: vec![], resolution: None };
    assert_eq!(fields(empty.validate()), vec!["entities"]);
    let over = IngestTextReq {
        text: "t".into(),
        resolution: Some(ResolutionOverride {
            mode: Some("embedding".into()),
            threshold: Some(1.5f32.to_bits()),
            match_type: None,
        }),
        hints: None,
    };
    assert!(over.validate().is_err());
}

#[test]
fn complaints_become_a_bad_request() {
    let errors = vec![
        FieldError { field: "query", message: "must not be empty".into() },
        FieldError { field: "mode", message: "unknown".into() },
    ];
    let reply = validation_error(&errors).reply();
    assert_eq!(reply.status, 400);
    assert_eq!(reply.message, "query: must not be empty\nmode: unknown");
}

#[test]
fn errors_have_status_and_code() {
    let cases = [
        (ApiError::bad_request("m"), 400, "bad_request"),
        (ApiError::unprocessable("m"), 422, "unprocessable_entity"),
        (ApiError::not_found("m"), 404, "not_found"),
        (ApiError::ServiceUnavailable("m".into()), 503, "plugin_unavailable"),
        (ApiError::BadGateway("m".into()), 502, "bad_gateway"),
    ];
    for (e, status, code) in cases {
        let reply = e.reply();
        assert_eq!((reply.status, reply.code, reply.message.as_str()), (status, code, "m"));
    }
    assert_eq!(ApiError::internal("m").reply().status, 500);
    assert_eq!(ApiError::plugin("embed", "down").reply().message, "embed failed: down");
}
