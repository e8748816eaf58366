//! Requests and responses of queries.

use crate::api::validation::{
    complaints, expect, is_verdict, unless, verdict, Complaint, FieldError,
};
use crate::graph::csr::opt_text;
use crate::plugin::LlmHints;
use crate::query::{QueryResult, QueryStats, ScoredNode, SubgraphEdge};
use crate::text::same_text;
use vstd::prelude::*;
use vstd::string::*;

verus! {

// ── checks of single fields ──────────────────────────────────────────────────

/// Hops of a query in several hops, where the request does not say.
pub fn default_max_hops() -> (r: u8)
    ensures
        r == 2,
{
    2
}

/// 1 to 5 hops.
pub fn validate_max_hops(v: u8) -> (r: Result<(), String>)
    ensures
        match r {
            Ok(()) => 1 <= v <= 5,
            Err(m) => !(1 <= v <= 5) && m@ == "max_hops must be 1–5"@,
        },
{
    if v == 0 || v > 5 {
        return Err("max_hops must be 1–5".to_owned());
    }
    Ok(())
}

/// A name of a way of scoring.
pub open spec fn is_mode(mode: Seq<char>) -> bool {
    mode == "semantic"@ || mode == "relationship"@ || mode == "entity"@ || mode == "balanced"@
}

/// Why a mode is not accepted.
pub open spec fn mode_complaint(mode: Seq<char>) -> Seq<char> {
    "unknown mode '"@ + mode + "'; valid: semantic, relationship, entity, balanced"@
}

/// A name of a way of scoring, or why it is none.
pub fn validate_mode(mode: &str) -> (r: Result<(), String>)
    ensures
        match r {
            Ok(()) => is_mode(mode@),
            Err(m) => !is_mode(mode@) && m@ == mode_complaint(mode@),
        },
{
    if same_text(mode, "semantic") || same_text(mode, "relationship") || same_text(mode, "entity")
        || same_text(mode, "balanced") {
        return Ok(());
    }
    let mut m: String = "unknown mode '".to_owned();
    m.append(mode);
    m.append("'; valid: semantic, relationship, entity, balanced");
    Err(m)
}

/// What is wrong about a mode that may be missing.
pub open spec fn mode_problems(mode: Option<String>) -> Seq<Complaint> {
    match opt_text(mode) {
        Some(m) => unless(is_mode(m), "mode"@, mode_complaint(m)),
        None => Seq::empty(),
    }
}

fn expect_mode(errors: &mut Vec<FieldError>, mode: &Option<String>)
    ensures
        complaints(final(errors)@) == complaints(old(errors)@) + mode_problems(*mode),
{
    match mode {
        Some(m) => match validate_mode(m.as_str()) {
            Ok(()) => expect(errors, true, "mode", ""),
            Err(message) => expect(errors, false, "mode", message.as_str()),
        },
        None => {},
    }
    proof {
        assert(complaints(errors@) =~= complaints(old(errors)@) + mode_problems(*mode));
    }
}

/// What is wrong about a text of 1 to 4096 characters.
pub open spec fn text_problems(s: Seq<char>, field: Seq<char>, message: Seq<char>) -> Seq<Complaint> {
    unless(1 <= s.len() <= 4_096, field, message)
}

fn expect_text(errors: &mut Vec<FieldError>, s: &str, field: &'static str, message: &str)
    ensures
        complaints(final(errors)@) == complaints(old(errors)@) + text_problems(
            s@,
            field@,
            message@,
        ),
{
    let n: usize = s.unicode_len();
    expect(errors, 1 <= n && n <= 4_096, field, message);
}

// ── requests ─────────────────────────────────────────────────────────────────

/// Which parts of the pipeline run.
pub struct PipelineControl {
    /// Whether an answer is asked for, or only the subgraph.
    pub llm_generate: bool,
    /// The question, where the query itself is none.
    pub prompt: Option<String>,
    /// How the LLM is to be asked.
    pub hints: Option<LlmHints>,
}

impl Default for PipelineControl {
    fn default() -> (r: Self)
        ensures
            r.llm_generate,
            r.prompt is None,
            r.hints is None,
    {
        PipelineControl { llm_generate: true, prompt: None, hints: None }
    }
}

/// Weights of a request, where they differ from those of its mode.
#[derive(Clone, Copy, PartialEq, Eq, Structural, Debug)]
pub struct WeightsOverride {
    pub alpha: Option<u32>,
    pub beta: Option<u32>,
    pub gamma: Option<u32>,
}

/// Options of a request, where they differ from the configuration and the mode.
#[derive(Clone, Copy, PartialEq, Eq, Structural, Debug)]
pub struct OptionsOverride {
    pub hnsw_k: Option<usize>,
    pub bfs_depth: Option<u8>,
    pub bfs_max_nodes: Option<usize>,
    pub context_top_n: Option<usize>,
    pub context_min_score: Option<u32>,
    pub weights: Option<WeightsOverride>,
    pub bidirectional: Option<bool>,
}

/// How much of a result a response holds.
#[derive(Clone, Copy, PartialEq, Eq, Structural, Debug)]
pub enum ResponseProfile {
    /// The answer, the total time and whether it came from the cache.
    Minimal,
    /// Also the nodes and the main statistics.
    Standard,
    /// Everything.
    Full,
}

impl Default for ResponseProfile {
    fn default() -> (r: Self)
        ensures
            r == ResponseProfile::Standard,
    {
        ResponseProfile::Standard
    }
}

/// `POST /query/text`
pub struct QueryTextReq {
    pub query: String,
    pub pipeline: Option<PipelineControl>,
    pub mode: Option<String>,
    pub options: Option<OptionsOverride>,
    pub response: Option<ResponseProfile>,
}

impl QueryTextReq {
    pub open spec fn problems(&self) -> Seq<Complaint> {
        text_problems(self.query@, "query"@, "query must be 1–4096 characters"@) + mode_problems(
            self.mode,
        )
    }

    pub fn validate(&self) -> (r: Result<(), Vec<FieldError>>)
        ensures
            is_verdict(r, self.problems()),
    {
        let mut errors: Vec<FieldError> = Vec::new();
        expect_text(
            &mut errors,
            self.query.as_str(),
            "query",
            "query must be 1–4096 characters",
        );
        expect_mode(&mut errors, &self.mode);
        proof {
            assert(complaints(errors@) =~= self.problems());
        }
        verdict(errors)
    }
}

/// `POST /query/vector`
pub struct QueryVectorReq {
    /// The bits of single-precision numbers.
    pub vector: Vec<u32>,
    pub pipeline: Option<PipelineControl>,
    pub mode: Option<String>,
    pub options: Option<OptionsOverride>,
    pub response: Option<ResponseProfile>,
}

impl QueryVectorReq {
    pub open spec fn problems(&self) -> Seq<Complaint> {
        unless(self.vector@.len() >= 1, "vector"@, "vector must not be empty"@) + mode_problems(
            self.mode,
        )
    }

    pub fn validate(&self) -> (r: Result<(), Vec<FieldError>>)
        ensures
            is_verdict(r, self.problems()),
    {
        let mut errors: Vec<FieldError> = Vec::new();
        expect(&mut errors, !self.vector.is_empty(), "vector", "vector must not be empty");
        expect_mode(&mut errors, &self.mode);
        proof {
            assert(complaints(errors@) =~= self.problems());
        }
        verdict(errors)
    }
}

/// `POST /query/multihop`
pub struct QueryMultihopReq {
    pub query: String,
    pub max_hops: u8,
    pub mode: Option<String>,
    pub options: Option<OptionsOverride>,
    pub response: Option<ResponseProfile>,
}

impl QueryMultihopReq {
    pub open spec fn problems(&self) -> Seq<Complaint> {
        text_problems(self.query@, "query"@, "query must be 1–4096 characters"@) + unless(
            1 <= self.max_hops <= 5,
            "max_hops"@,
            "max_hops must be 1–5"@,
        ) + mode_problems(self.mode)
    }

    pub fn validate(&self) -> (r: Result<(), Vec<FieldError>>)
        ensures
            is_verdict(r, self.problems()),
    {
        let mut errors: Vec<FieldError> = Vec::new();
        expect_text(
            &mut errors,
            self.query.as_str(),
            "query",
            "query must be 1–4096 characters",
        );
        match validate_max_hops(self.max_hops) {
            Ok(()) => {},
            Err(message) => expect(&mut errors, false, "max_hops", message.as_str()),
        }
        expect_mode(&mut errors, &self.mode);
        proof {
            assert(complaints(errors@) =~= self.problems());
        }
        verdict(errors)
    }
}

/// `POST /query/node`
pub struct QueryNodeReq {
    pub node_id: u32,
    pub mode: Option<String>,
    pub options: Option<OptionsOverride>,
    pub response: Option<ResponseProfile>,
}

impl QueryNodeReq {
    pub open spec fn problems(&self) -> Seq<Complaint> {
        mode_problems(self.mode)
    }

    pub fn validate(&self) -> (r: Result<(), Vec<FieldError>>)
        ensures
            is_verdict(r, self.problems()),
    {
        let mut errors: Vec<FieldError> = Vec::new();
        expect_mode(&mut errors, &self.mode);
        proof {
            assert(complaints(errors@) =~= self.problems());
        }
        verdict(errors)
    }
}

/// `POST /query/image`
pub struct QueryImageReq {
    /// URL or base64 data-URI
    pub image_url: String,
    pub pipeline: Option<PipelineControl>,
    pub mode: Option<String>,
    pub options: Option<OptionsOverride>,
    pub response: Option<ResponseProfile>,
}

impl QueryImageReq {
    pub open spec fn problems(&self) -> Seq<Complaint> {
        text_problems(self.image_url@, "image_url"@, "image_url must be 1–4096 characters"@)
            + mode_problems(self.mode)
    }

    pub fn validate(&self) -> (r: Result<(), Vec<FieldError>>)
        ensures
            is_verdict(r, self.problems()),
    {
        let mut errors: Vec<FieldError> = Vec::new();
        expect_text(
            &mut errors,
            self.image_url.as_str(),
            "image_url",
            "image_url must be 1–4096 characters",
        );
        expect_mode(&mut errors, &self.mode);
        proof {
            assert(complaints(errors@) =~= self.problems());
        }
        verdict(errors)
    }
}

/// `POST /query`: a text or a vector.
pub struct QueryReq {
    pub query: Option<String>,
    pub vector: Option<Vec<u32>>,
    pub pipeline: Option<PipelineControl>,
    pub mode: Option<String>,
    pub options: Option<OptionsOverride>,
    pub response: Option<ResponseProfile>,
}

impl QueryReq {
    pub open spec fn problems(&self) -> Seq<Complaint> {
        (match opt_text(self.query) {
            Some(q) => text_problems(q, "query"@, "query must be 1–4096 characters"@),
            None => Seq::empty(),
        }) + mode_problems(self.mode)
    }

    pub fn validate(&self) -> (r: Result<(), Vec<FieldError>>)
        ensures
            is_verdict(r, self.problems()),
    {
        let mut errors: Vec<FieldError> = Vec::new();
        match &self.query {
            Some(q) => expect_text(
                &mut errors,
                q.as_str(),
                "query",
                "query must be 1–4096 characters",
            ),
            None => {},
        }
        expect_mode(&mut errors, &self.mode);
        proof {
            assert(complaints(errors@) =~= self.problems());
        }
        verdict(errors)
    }
}

// ── responses ────────────────────────────────────────────────────────────────

pub struct SubgraphResponse {
    pub nodes: Vec<ScoredNode>,
    pub edges: Option<Vec<SubgraphEdge>>,
}

#[derive(Clone, Copy, PartialEq, Eq, Structural, Debug)]
pub struct StatsResponse {
    pub total_ms: u64,
    pub cache_hit: bool,
    pub seed_nodes: Option<usize>,
    pub subgraph_nodes: Option<usize>,
    pub context_nodes: Option<usize>,
    pub embed_ms: Option<u64>,
    pub search_ms: Option<u64>,
    pub bfs_ms: Option<u64>,
    pub score_ms: Option<u64>,
    pub llm_ms: Option<u64>,
}

pub struct QueryResponse {
    pub answer: String,
    pub subgraph: Option<SubgraphResponse>,
    pub stats: StatsResponse,
}

/// A number, where it is shown.
pub open spec fn shown<A>(when: bool, x: A) -> Option<A> {
    if when {
        Some(x)
    } else {
        None
    }
}

/// The statistics that a response holds. Counts are shown unless the profile is minimal, times of
/// parts as the profile says and only where the result was computed for this request.
pub open spec fn shown_stats(s: QueryStats, profile: ResponseProfile) -> StatsResponse {
    let counts = profile != ResponseProfile::Minimal;
    let times = counts && !s.cache_hit;
    let all_times = profile == ResponseProfile::Full && !s.cache_hit;
    StatsResponse {
        total_ms: s.total_ms,
        cache_hit: s.cache_hit,
        seed_nodes: shown(counts, s.seed_nodes),
        subgraph_nodes: shown(counts, s.subgraph_nodes),
        context_nodes: shown(counts, s.context_nodes),
        embed_ms: shown(times, s.embed_ms),
        search_ms: shown(all_times, s.search_ms),
        bfs_ms: shown(all_times, s.bfs_ms),
        score_ms: shown(all_times, s.score_ms),
        llm_ms: shown(times, s.llm_ms),
    }
}

/// Picks the statistics that a response holds.
pub fn build_stats(s: QueryStats, profile: ResponseProfile) -> (r: StatsResponse)
    ensures
        r == shown_stats(s, profile),
{
    let counts: bool = match profile {
        ResponseProfile::Minimal => false,
        _ => true,
    };
    let full: bool = match profile {
        ResponseProfile::Full => true,
        _ => false,
    };
    let times: bool = counts && !s.cache_hit;
    let all_times: bool = full && !s.cache_hit;
    StatsResponse {
        total_ms: s.total_ms,
        cache_hit: s.cache_hit,
        seed_nodes: if counts {
            Some(s.seed_nodes)
        } else {
            None
        },
        subgraph_nodes: if counts {
            Some(s.subgraph_nodes)
        } else {
            None
        },
        context_nodes: if counts {
            Some(s.context_nodes)
        } else {
            None
        },
        embed_ms: if times {
            Some(s.embed_ms)
        } else {
            None
        },
        search_ms: if all_times {
            Some(s.search_ms)
        } else {
            None
        },
        bfs_ms: if all_times {
            Some(s.bfs_ms)
        } else {
            None
        },
        score_ms: if all_times {
            Some(s.score_ms)
        } else {
            None
        },
        llm_ms: if times {
            Some(s.llm_ms)
        } else {
            None
        },
    }
}

impl QueryResponse {
    /// What of a result the profile shows.
    pub fn from_result(result: QueryResult, profile: &ResponseProfile) -> (r: Self)
        ensures
            r.answer == result.answer,
            r.stats == shown_stats(result.stats, *profile),
            match *profile {
                ResponseProfile::Minimal => r.subgraph is None,
                ResponseProfile::Standard => r.subgraph matches Some(g) && g.nodes
                    == result.subgraph.nodes && g.edges is None,
                ResponseProfile::Full => r.subgraph matches Some(g) && g.nodes
                    == result.subgraph.nodes && g.edges == Some(result.subgraph.edges),
            },
    {
        let stats = build_stats(result.stats, *profile);
        let subgraph = match profile {
            ResponseProfile::Minimal => None,
            ResponseProfile::Standard => Some(
                SubgraphResponse { nodes: result.subgraph.nodes, edges: None },
            ),
            ResponseProfile::Full => Some(
                SubgraphResponse {
                    nodes: result.subgraph.nodes,
                    edges: Some(result.subgraph.edges),
                },
            ),
        };
        QueryResponse { answer: result.answer, subgraph, stats }
    }
}

// ── what is accepted ─────────────────────────────────────────────────────────

/// A mode is one of the four, where there is one.
pub open spec fn mode_fits(mode: Option<String>) -> bool {
    mode matches Some(m) ==> m@ == "semantic"@ || m@ == "relationship"@ || m@ == "entity"@ || m@
        == "balanced"@
}

/// A text query is accepted exactly with a text of 1 to 4096 characters and a known mode.
pub proof fn law_text_query_is_accepted(req: &QueryTextReq)
    ensures
        req.problems().len() == 0 <==> 1 <= req.query@.len() <= 4_096 && mode_fits(req.mode),
{
}

/// A vector query is accepted exactly with a vector and a known mode.
pub proof fn law_vector_query_is_accepted(req: &QueryVectorReq)
    ensures
        req.problems().len() == 0 <==> req.vector@.len() > 0 && mode_fits(req.mode),
{
}

/// A query in several hops is accepted exactly with a text of 1 to 4096 characters, 1 to 5 hops and
/// a known mode.
pub proof fn law_multihop_query_is_accepted(req: &QueryMultihopReq)
    ensures
        req.problems().len() == 0 <==> 1 <= req.query@.len() <= 4_096 && 1 <= req.max_hops <= 5
            && mode_fits(req.mode),
{
}

/// A query from a node is accepted exactly with a known mode.
pub proof fn law_node_query_is_accepted(req: &QueryNodeReq)
    ensures
        req.problems().len() == 0 <==> mode_fits(req.mode),
{
}

/// A query by image is accepted exactly with an address of 1 to 4096 characters and a known mode.
pub proof fn law_image_query_is_accepted(req: &QueryImageReq)
    ensures
        req.problems().len() == 0 <==> 1 <= req.image_url@.len() <= 4_096 && mode_fits(req.mode),
{
}

/// A query that may have a text is accepted exactly where the text, if there is one, has 1 to 4096
/// characters, and with a known mode.
pub proof fn law_query_is_accepted(req: &QueryReq)
    ensures
        req.problems().len() == 0 <==> (req.query matches Some(q) ==> 1 <= q@.len() <= 4_096)
            && mode_fits(req.mode),
{
}

/// A response always says how long the request took and whether it was served from the cache. The
/// counts are there unless the profile is minimal, times of embedding and answering where moreover
/// it was not served from the cache, and the other times where moreover everything is asked for.
pub proof fn law_response_shows_what_its_profile_asks_for(s: QueryStats, profile: ResponseProfile)
    ensures
        ({
            let r = shown_stats(s, profile);
            let counts = profile == ResponseProfile::Standard || profile == ResponseProfile::Full;
            let fresh = !s.cache_hit;
            &&& r.total_ms == s.total_ms
            &&& r.cache_hit == s.cache_hit
            &&& r.seed_nodes == (if counts {
                Some(s.seed_nodes)
            } else {
                None
            })
            &&& r.subgraph_nodes == (if counts {
                Some(s.subgraph_nodes)
            } else {
                None
            })
            &&& r.context_nodes == (if counts {
                Some(s.context_nodes)
            } else {
                None
            })
            &&& r.embed_ms == (if counts && fresh {
                Some(s.embed_ms)
            } else {
                None
            })
            &&& r.llm_ms == (if counts && fresh {
                Some(s.llm_ms)
            } else {
                None
            })
            &&& r.search_ms == (if profile == ResponseProfile::Full && fresh {
                Some(s.search_ms)
            } else {
                None
            })
            &&& r.bfs_ms == (if profile == ResponseProfile::Full && fresh {
                Some(s.bfs_ms)
            } else {
                None
            })
            &&& r.score_ms == (if profile == ResponseProfile::Full && fresh {
                Some(s.score_ms)
            } else {
                None
            })
        }),
{
}

} // verus!
