//! Queries: from seed nodes to a ranked context and an answer.

use crate::digits::{decimal, decimal_text, is_digit, lemma_decimal_round_trip};
use crate::float::{
    at_least, f32_at_least, f32_is_nan, f32_less, f32_magnitude, f32_rank, less, F32_INFINITY,
};
use crate::graph::between::{
    best_edge, is_edges_between, law_best_edge_is_heaviest, lists_pair, RawEdge,
};
use crate::graph::csr::{node_views, opt_text, CsrGraph, NodeInfo, NodeView};
use crate::graph::traverse::{expansion, hop_is_distance, law_hops_are_distances, within, Visit};
use crate::json::json_tree;
use crate::plugin::{
    build_edges, context_edge_views, context_edges, in_context, is_name_of,
    law_context_edges_are_shown_by_name, ContextEdgeView, ReasonResponse,
};
use crate::text::{contains, has_substring, lowercase, to_lower, trim, trimmed};
use crate::vector::store::{brute_search, descending_order, is_descending_order, ranks_before};
use moka::sync::Cache;
use std::collections::{HashMap, HashSet};
use vstd::prelude::*;
use vstd::string::*;

verus! {

broadcast use vstd::std_specs::hash::group_hash_axioms;

// ── weights and options ──────────────────────────────────────────────────────

/// How the three signals of a score are blended, each as the bits of a single-precision number.
#[derive(Clone, Copy, PartialEq, Eq, Structural, Debug)]
pub struct ScoringWeights {
    /// similarity to the query
    pub alpha: u32,
    /// proximity to the seeds, by the weights of the edges on the way
    pub beta: u32,
    /// importance by in- and out-degree
    pub gamma: u32,
}

impl ScoringWeights {
    /// 0.5, 0.3, 0.2
    pub fn balanced() -> (r: Self)
        ensures
            r == (ScoringWeights { alpha: 0x3f00_0000, beta: 0x3e99_999a, gamma: 0x3e4c_cccd }),
    {
        ScoringWeights { alpha: 0x3f00_0000, beta: 0x3e99_999a, gamma: 0x3e4c_cccd }
    }

    /// 0.7, 0.2, 0.1
    pub fn semantic_search() -> (r: Self)
        ensures
            r == (ScoringWeights { alpha: 0x3f33_3333, beta: 0x3e4c_cccd, gamma: 0x3dcc_cccd }),
    {
        ScoringWeights { alpha: 0x3f33_3333, beta: 0x3e4c_cccd, gamma: 0x3dcc_cccd }
    }

    /// 0.3, 0.6, 0.1
    pub fn relationship() -> (r: Self)
        ensures
            r == (ScoringWeights { alpha: 0x3e99_999a, beta: 0x3f19_999a, gamma: 0x3dcc_cccd }),
    {
        ScoringWeights { alpha: 0x3e99_999a, beta: 0x3f19_999a, gamma: 0x3dcc_cccd }
    }

    /// 0.4, 0.2, 0.4
    pub fn entity_lookup() -> (r: Self)
        ensures
            r == (ScoringWeights { alpha: 0x3ecc_cccd, beta: 0x3e4c_cccd, gamma: 0x3ecc_cccd }),
    {
        ScoringWeights { alpha: 0x3ecc_cccd, beta: 0x3e4c_cccd, gamma: 0x3ecc_cccd }
    }
}

impl Default for ScoringWeights {
    fn default() -> (r: Self)
        ensures
            r == (ScoringWeights { alpha: 0x3f00_0000, beta: 0x3e99_999a, gamma: 0x3e4c_cccd }),
    {
        ScoringWeights::balanced()
    }
}

#[derive(Clone, Copy, PartialEq, Eq, Structural, Debug)]
pub struct QueryOptions {
    /// seed nodes of the vector search
    pub hnsw_k: usize,
    /// depth of the expansion from the seeds
    pub bfs_depth: u8,
    /// most nodes of the expansion
    pub bfs_max_nodes: usize,
    /// most nodes in the context
    pub context_top_n: usize,
    /// least score of a node in the context, as the bits of a single-precision number; 0 for all
    pub context_min_score: u32,
    pub weights: ScoringWeights,
    /// whether the expansion also runs against the direction of edges
    pub bidirectional: bool,
}

impl Default for QueryOptions {
    fn default() -> (r: Self)
        ensures
            r.hnsw_k == 20,
            r.bfs_depth == 2,
            r.bfs_max_nodes == 500,
            r.context_top_n == 50,
            r.context_min_score == 0x3e99_999a,
            r.weights == (ScoringWeights {
                alpha: 0x3f00_0000,
                beta: 0x3e99_999a,
                gamma: 0x3e4c_cccd,
            }),
            !r.bidirectional,
    {
        QueryOptions {
            hnsw_k: 20,
            bfs_depth: 2,
            bfs_max_nodes: 500,
            context_top_n: 50,
            context_min_score: 0x3e99_999a,
            weights: ScoringWeights::balanced(),
            bidirectional: false,
        }
    }
}

// ── results ──────────────────────────────────────────────────────────────────

/// A node of the result with its scores, which are bits of single-precision numbers.
pub struct ScoredNode {
    pub id: u32,
    pub name: String,
    pub node_type: String,
    pub props: serde_json::Value,
    pub full_context: String,
    pub score: u32,
    pub vector_sim: u32,
    pub hop: u8,
    /// found by the search itself, not by expansion
    pub is_seed: bool,
}

impl Clone for ScoredNode {
    fn clone(&self) -> (r: Self)
        ensures
            r == *self,
    {
        ScoredNode {
            id: self.id,
            name: self.name.clone(),
            node_type: self.node_type.clone(),
            props: self.props.clone(),
            full_context: self.full_context.clone(),
            score: self.score,
            vector_sim: self.vector_sim,
            hop: self.hop,
            is_seed: self.is_seed,
        }
    }
}

/// An edge of the result, between the names of two nodes.
pub struct SubgraphEdge {
    pub from: String,
    pub to: String,
    /// The bits of a single-precision number.
    pub weight: u32,
    pub edge_type: String,
}

impl Clone for SubgraphEdge {
    fn clone(&self) -> (r: Self)
        ensures
            r == *self,
    {
        SubgraphEdge {
            from: self.from.clone(),
            to: self.to.clone(),
            weight: self.weight,
            edge_type: self.edge_type.clone(),
        }
    }
}

pub struct Subgraph {
    pub nodes: Vec<ScoredNode>,
    pub edges: Vec<SubgraphEdge>,
}

#[derive(Clone, Copy, PartialEq, Eq, Structural, Debug)]
pub struct QueryStats {
    pub seed_nodes: usize,
    pub subgraph_nodes: usize,
    pub context_nodes: usize,
    /// Time of the whole request.
    pub total_ms: u64,
    pub embed_ms: u64,
    pub search_ms: u64,
    pub bfs_ms: u64,
    pub score_ms: u64,
    pub llm_ms: u64,
    /// Served from the cache; the times of the parts are then 0.
    pub cache_hit: bool,
}

pub struct QueryResult {
    pub answer: String,
    pub subgraph: Subgraph,
    pub stats: QueryStats,
}

/// Two results hold the same.
pub open spec fn same_result(a: QueryResult, b: QueryResult) -> bool {
    &&& a.answer == b.answer
    &&& a.subgraph.nodes@ == b.subgraph.nodes@
    &&& a.subgraph.edges@ == b.subgraph.edges@
    &&& a.stats == b.stats
}

impl Clone for QueryResult {
    fn clone(&self) -> (r: Self)
        ensures
            same_result(r, *self),
    {
        let mut nodes: Vec<ScoredNode> = Vec::new();
        let mut i: usize = 0;
        while i < self.subgraph.nodes.len()
            invariant
                i <= self.subgraph.nodes@.len(),
                nodes@ == self.subgraph.nodes@.take(i as int),
            decreases self.subgraph.nodes@.len() - i,
        {
            nodes.push(self.subgraph.nodes[i].clone());
            proof {
                assert(nodes@ =~= self.subgraph.nodes@.take(i + 1));
            }
            i += 1;
        }
        let mut edges: Vec<SubgraphEdge> = Vec::new();
        let mut j: usize = 0;
        while j < self.subgraph.edges.len()
            invariant
                j <= self.subgraph.edges@.len(),
                edges@ == self.subgraph.edges@.take(j as int),
            decreases self.subgraph.edges@.len() - j,
        {
            edges.push(self.subgraph.edges[j].clone());
            proof {
                assert(edges@ =~= self.subgraph.edges@.take(j + 1));
            }
            j += 1;
        }
        proof {
            assert(nodes@ =~= self.subgraph.nodes@);
            assert(edges@ =~= self.subgraph.edges@);
        }
        QueryResult {
            answer: self.answer.clone(),
            subgraph: Subgraph { nodes, edges },
            stats: self.stats,
        }
    }
}

/// The result as it is served from the cache: with the time of this request alone.
pub fn mark_cache_hit(result: QueryResult, total_ms: u64) -> (r: QueryResult)
    ensures
        r.answer == result.answer,
        r.subgraph == result.subgraph,
        r.stats == (QueryStats {
            total_ms,
            embed_ms: 0,
            search_ms: 0,
            bfs_ms: 0,
            score_ms: 0,
            llm_ms: 0,
            cache_hit: true,
            ..result.stats
        }),
{
    let mut r = result;
    r.stats.cache_hit = true;
    r.stats.total_ms = total_ms;
    r.stats.embed_ms = 0;
    r.stats.search_ms = 0;
    r.stats.bfs_ms = 0;
    r.stats.score_ms = 0;
    r.stats.llm_ms = 0;
    r
}

// ── query cache ──────────────────────────────────────────────────────────────

/// What was last inserted into a cache under each key since it was made or last invalidated. The
/// cache may have evicted some of it.
pub uninterp spec fn cached_results(cache: Cache<String, QueryResult>) -> Map<Seq<char>, QueryResult>;

/// `moka::sync::Cache::builder` with a capacity and a time to live: a cache into which nothing has
/// been inserted. Building panics beyond a thousand years.
#[verifier::external_body]
fn new_cache(max_capacity: u64, ttl_secs: u64) -> (r: Cache<String, QueryResult>)
    requires
        ttl_secs <= MAX_TTL_SECS,
    ensures
        cached_results(r).dom() == Set::<Seq<char>>::empty(),
{
    Cache::builder()
        .max_capacity(max_capacity)
        .time_to_live(std::time::Duration::from_secs(ttl_secs))
        .build()
}

/// `moka::sync::Cache::get`: a clone of the value last inserted under the key, or nothing. It may
/// find nothing at any time, since entries are evicted and expire.
#[verifier::external_body]
fn cache_get(cache: &Cache<String, QueryResult>, key: &str) -> (r: Option<QueryResult>)
    ensures
        r matches Some(v) ==> cached_results(*cache).contains_key(key@) && same_result(
            v,
            cached_results(*cache)[key@],
        ),
{
    cache.get(key)
}

/// `moka::sync::Cache::insert`: from now on the key stands for this value.
#[verifier::external_body]
fn cache_insert(cache: &mut Cache<String, QueryResult>, key: String, result: QueryResult)
    ensures
        cached_results(*final(cache)) == cached_results(*old(cache)).insert(key@, result),
{
    cache.insert(key, result);
}

/// `moka::sync::Cache::invalidate_all`: nothing that was inserted before is found any more.
#[verifier::external_body]
fn cache_invalidate_all(cache: &mut Cache<String, QueryResult>)
    ensures
        cached_results(*final(cache)).dom() == Set::<Seq<char>>::empty(),
{
    cache.invalidate_all();
}

/// The longest time to live: a thousand years of 365 days.
pub const MAX_TTL_SECS: u64 = 31_536_000_000;

/// The cache of query results.
pub struct QueryCache {
    pub inner: Cache<String, QueryResult>,
}

/// A flag as text.
pub open spec fn flag_text(b: bool) -> Seq<char> {
    if b {
        "true"@
    } else {
        "false"@
    }
}

/// The fractional numbers of options as JSON writes them.
pub struct NumberTexts {
    pub context_min_score: String,
    pub alpha: String,
    pub beta: String,
    pub gamma: String,
}

/// A member of an object: what stands before its value, the value, and what follows it.
pub open spec fn member_text(head: Seq<char>, value: Seq<char>, rest: Seq<char>) -> Seq<char> {
    head + value + rest
}

/// The options as a JSON object.
pub open spec fn options_text(o: QueryOptions, n: NumberTexts) -> Seq<char> {
    member_text(
        "{\"hnsw_k\":"@,
        decimal_text(o.hnsw_k as nat),
        member_text(
            ",\"bfs_depth\":"@,
            decimal_text(o.bfs_depth as nat),
            member_text(
                ",\"bfs_max_nodes\":"@,
                decimal_text(o.bfs_max_nodes as nat),
                member_text(
                    ",\"context_top_n\":"@,
                    decimal_text(o.context_top_n as nat),
                    member_text(
                        ",\"context_min_score\":"@,
                        n.context_min_score@,
                        weights_text(n, member_text(
                            "},\"bidirectional\":"@,
                            flag_text(o.bidirectional),
                            "}"@,
                        )),
                    ),
                ),
            ),
        ),
    )
}

/// The weights as the next member of an object that is still open, and what follows their last
/// number.
pub open spec fn weights_text(n: NumberTexts, rest: Seq<char>) -> Seq<char> {
    member_text(
        ",\"weights\":{\"alpha\":"@,
        n.alpha@,
        member_text(",\"beta\":"@, n.beta@, member_text(",\"gamma\":"@, n.gamma@, rest)),
    )
}

/// The key of a request.
pub open spec fn key_text(
    prefix: Seq<char>,
    id: Seq<char>,
    o: QueryOptions,
    n: NumberTexts,
    llm_generate: bool,
) -> Seq<char> {
    prefix + "||"@ + id + "||"@ + flag_text(llm_generate) + "||"@ + options_text(o, n)
}

/// All numbers of the options are finite.
pub open spec fn options_finite(o: QueryOptions) -> bool {
    &&& is_finite(o.context_min_score)
    &&& is_finite(o.weights.alpha)
    &&& is_finite(o.weights.beta)
    &&& is_finite(o.weights.gamma)
}

/// Neither an infinity nor not a number.
pub open spec fn is_finite(bits: u32) -> bool {
    f32_magnitude(bits) < F32_INFINITY
}

fn finite(bits: u32) -> (r: bool)
    ensures
        r == is_finite(bits),
{
    let magnitude: u32 = if bits >= 0x8000_0000u32 {
        bits - 0x8000_0000u32
    } else {
        bits
    };
    magnitude < F32_INFINITY
}

fn write_flag(b: bool) -> (r: &'static str)
    ensures
        r@ == flag_text(b),
{
    if b {
        "true"
    } else {
        "false"
    }
}

fn with_member(head: &str, value: &str, rest: &str) -> (r: String)
    ensures
        r@ == member_text(head@, value@, rest@),
{
    let mut s: String = head.to_owned();
    s.append(value);
    s.append(rest);
    s
}

fn write_options(o: &QueryOptions, n: &NumberTexts) -> (r: String)
    ensures
        r@ == options_text(*o, *n),
{
    let s = with_member("},\"bidirectional\":", write_flag(o.bidirectional), "}");
    let s = with_member(",\"gamma\":", n.gamma.as_str(), s.as_str());
    let s = with_member(",\"beta\":", n.beta.as_str(), s.as_str());
    let s = with_member(",\"weights\":{\"alpha\":", n.alpha.as_str(), s.as_str());
    let s = with_member(",\"context_min_score\":", n.context_min_score.as_str(), s.as_str());
    let top_n = decimal(o.context_top_n as u64);
    let s = with_member(",\"context_top_n\":", top_n.as_str(), s.as_str());
    let max_nodes = decimal(o.bfs_max_nodes as u64);
    let s = with_member(",\"bfs_max_nodes\":", max_nodes.as_str(), s.as_str());
    let depth = decimal(o.bfs_depth as u64);
    let s = with_member(",\"bfs_depth\":", depth.as_str(), s.as_str());
    let k = decimal(o.hnsw_k as u64);
    with_member("{\"hnsw_k\":", k.as_str(), s.as_str())
}

impl QueryCache {
    /// The results that the cache may hold, by key.
    pub open spec fn contents(&self) -> Map<Seq<char>, QueryResult> {
        cached_results(self.inner)
    }

    pub fn new(capacity: u64, ttl_secs: u64) -> (r: Self)
        requires
            ttl_secs <= MAX_TTL_SECS,
        ensures
            r.contents() == Map::<Seq<char>, QueryResult>::empty(),
    {
        QueryCache { inner: new_cache(capacity, ttl_secs) }
    }

    /// The key of a request; none where a number of the options is not finite, which JSON cannot
    /// write. The texts of the fractional numbers are given.
    pub fn make_key(
        prefix: &str,
        id: &str,
        opts: &QueryOptions,
        numbers: &NumberTexts,
        llm_generate: bool,
    ) -> (r: Option<String>)
        ensures
            match r {
                Some(key) => options_finite(*opts) && key@ == key_text(
                    prefix@,
                    id@,
                    *opts,
                    *numbers,
                    llm_generate,
                ),
                None => !options_finite(*opts),
            },
    {
        if !(finite(opts.context_min_score) && finite(opts.weights.alpha) && finite(
            opts.weights.beta,
        ) && finite(opts.weights.gamma)) {
            return None;
        }
        let mut key: String = prefix.to_owned();
        key.append("||");
        key.append(id);
        key.append("||");
        key.append(write_flag(llm_generate));
        key.append("||");
        key.append(write_options(opts, numbers).as_str());
        Some(key)
    }

    /// The result under a key. It is the one last inserted under it since the cache was last
    /// invalidated; the cache may have dropped it.
    pub fn get_by_key(&self, key: &str) -> (r: Option<QueryResult>)
        ensures
            r matches Some(v) ==> self.contents().contains_key(key@) && same_result(
                v,
                self.contents()[key@],
            ),
    {
        cache_get(&self.inner, key)
    }

    pub fn insert_by_key(&mut self, key: String, result: QueryResult)
        ensures
            final(self).contents() == old(self).contents().insert(key@, result),
    {
        cache_insert(&mut self.inner, key, result);
    }

    pub fn invalidate_all(&mut self)
        ensures
            final(self).contents() == Map::<Seq<char>, QueryResult>::empty(),
    {
        cache_invalidate_all(&mut self.inner);
    }

    /// The answer of an earlier request with this key, as it is served from the cache. The cache may
    /// have dropped it; a request without a key has none.
    pub fn recall(&self, key: &Option<String>, total_ms: u64) -> (r: Option<QueryResult>)
        ensures
            r matches Some(v) ==> key matches Some(k) && self.contents().contains_key(k@)
                && is_cached_answer(v, self.contents()[k@], total_ms),
    {
        match key {
            Some(k) => served(self.get_by_key(k.as_str()), total_ms),
            None => None,
        }
    }

    /// Keeps a result for later requests with this key; without a key it is not kept.
    pub fn remember(&mut self, key: Option<String>, result: &QueryResult)
        ensures
            match key {
                Some(k) => exists|kept: QueryResult| same_result(kept, *result)
                    && final(self).contents() == #[trigger] old(self).contents().insert(k@, kept),
                None => final(self).contents() == old(self).contents(),
            },
    {
        match key {
            Some(k) => {
                let kept = result.clone();
                self.insert_by_key(k, kept);
            },
            None => {},
        }
    }
}

/// `r` is `stored` as it is served from the cache: the same answer and subgraph, with the time of
/// this request alone.
pub open spec fn is_cached_answer(r: QueryResult, stored: QueryResult, total_ms: u64) -> bool {
    &&& r.answer == stored.answer
    &&& r.subgraph.nodes@ == stored.subgraph.nodes@
    &&& r.subgraph.edges@ == stored.subgraph.edges@
    &&& r.stats == (QueryStats {
        total_ms,
        embed_ms: 0,
        search_ms: 0,
        bfs_ms: 0,
        score_ms: 0,
        llm_ms: 0,
        cache_hit: true,
        ..stored.stats
    })
}

/// What was found in the cache, as it is served.
pub fn served(found: Option<QueryResult>, total_ms: u64) -> (r: Option<QueryResult>)
    ensures
        match found {
            Some(stored) => r matches Some(v) && is_cached_answer(v, stored, total_ms),
            None => r is None,
        },
{
    match found {
        Some(stored) => Some(mark_cache_hit(stored, total_ms)),
        None => None,
    }
}

/// The character `c` does not occur.
pub open spec fn without(s: Seq<char>, c: char) -> bool {
    forall|i: int| 0 <= i < s.len() ==> #[trigger] s[i] != c
}

proof fn lemma_split_at_first(a: Seq<char>, b: Seq<char>, sep: Seq<char>, s: Seq<char>, t: Seq<char>)
    requires
        sep.len() > 0,
        without(a, sep[0]),
        without(b, sep[0]),
        a + sep + s == b + sep + t,
    ensures
        a == b,
        s == t,
{
    let x = a + sep + s;
    let y = b + sep + t;
    if a.len() < b.len() {
        assert(x[a.len() as int] == sep[0]);
        assert(y[a.len() as int] == b[a.len() as int]);
    } else if b.len() < a.len() {
        assert(y[b.len() as int] == sep[0]);
        assert(x[b.len() as int] == a[b.len() as int]);
    }
    assert(a =~= x.take(a.len() as int));
    assert(b =~= y.take(b.len() as int));
    assert(s =~= x.skip((a.len() + sep.len()) as int));
    assert(t =~= y.skip((b.len() + sep.len()) as int));
}

proof fn lemma_split_at_last(a: Seq<char>, b: Seq<char>, sep: Seq<char>, s: Seq<char>, t: Seq<char>)
    requires
        sep.len() > 0,
        without(s, sep.last()),
        without(t, sep.last()),
        a + sep + s == b + sep + t,
    ensures
        a == b,
        s == t,
{
    let x = a + sep + s;
    let y = b + sep + t;
    let n = x.len();
    if s.len() < t.len() {
        let p = n - s.len() - 1;
        assert(x[p] == sep.last());
        assert(y[p] == t[p - b.len() - sep.len()]);
    } else if t.len() < s.len() {
        let p = n - t.len() - 1;
        assert(y[p] == sep.last());
        assert(x[p] == s[p - a.len() - sep.len()]);
    }
    assert(a =~= x.take(a.len() as int));
    assert(b =~= y.take(b.len() as int));
    assert(s =~= x.skip((a.len() + sep.len()) as int));
    assert(t =~= y.skip((b.len() + sep.len()) as int));
}

proof fn lemma_member_apart(
    head: Seq<char>,
    a: Seq<char>,
    b: Seq<char>,
    s: Seq<char>,
    t: Seq<char>,
    end: char,
)
    requires
        s.len() > 0,
        t.len() > 0,
        s[0] == end,
        t[0] == end,
        without(a, end),
        without(b, end),
        member_text(head, a, s) == member_text(head, b, t),
    ensures
        a == b,
        s == t,
{
    let x = member_text(head, a, s).skip(head.len() as int);
    let y = member_text(head, b, t).skip(head.len() as int);
    assert(x =~= a + s);
    assert(y =~= b + t);
    if a.len() < b.len() {
        assert(x[a.len() as int] == end);
        assert(y[a.len() as int] == b[a.len() as int]);
    } else if b.len() < a.len() {
        assert(y[b.len() as int] == end);
        assert(x[b.len() as int] == a[b.len() as int]);
    }
    assert(a =~= x.take(a.len() as int));
    assert(b =~= y.take(b.len() as int));
    assert(s =~= x.skip(a.len() as int));
    assert(t =~= y.skip(b.len() as int));
}

proof fn lemma_decimal_without(n: nat, c: char)
    requires
        !is_digit(c),
    ensures
        without(decimal_text(n), c),
{
    lemma_decimal_round_trip(n);
    assert forall|i: int| 0 <= i < decimal_text(n).len() implies #[trigger] decimal_text(n)[i] != c by {
        assert(is_digit(decimal_text(n)[i]));
    }
}

proof fn lemma_decimals_apart(head: Seq<char>, m: nat, n: nat, s: Seq<char>, t: Seq<char>)
    requires
        s.len() > 0,
        t.len() > 0,
        s[0] == ',',
        t[0] == ',',
        member_text(head, decimal_text(m), s) == member_text(head, decimal_text(n), t),
    ensures
        m == n,
        s == t,
{
    lemma_decimal_without(m, ',');
    lemma_decimal_without(n, ',');
    lemma_member_apart(head, decimal_text(m), decimal_text(n), s, t, ',');
    lemma_decimal_round_trip(m);
    lemma_decimal_round_trip(n);
}

/// A way to write numbers by which they can be told apart inside an object: finite numbers have
/// different texts, without commas, closing braces or bars.
pub open spec fn tells_apart(write: spec_fn(u32) -> Seq<char>) -> bool {
    &&& forall|a: u32, b: u32|
        is_finite(a) && is_finite(b) && #[trigger] write(a) == #[trigger] write(b) ==> a == b
    &&& forall|a: u32|
        is_finite(a) ==> without(#[trigger] write(a), ',') && without(write(a), '}') && without(
            write(a),
            '|',
        )
}

/// The texts are those of the numbers of the options.
pub open spec fn are_texts_of(
    n: NumberTexts,
    o: QueryOptions,
    write: spec_fn(u32) -> Seq<char>,
) -> bool {
    &&& n.context_min_score@ == write(o.context_min_score)
    &&& n.alpha@ == write(o.weights.alpha)
    &&& n.beta@ == write(o.weights.beta)
    &&& n.gamma@ == write(o.weights.gamma)
}

proof fn lemma_weights_apart(n: NumberTexts, m: NumberTexts, s: Seq<char>, t: Seq<char>)
    requires
        s.len() > 0,
        t.len() > 0,
        s[0] == '}',
        t[0] == '}',
        without(n.alpha@, ','),
        without(m.alpha@, ','),
        without(n.beta@, ','),
        without(m.beta@, ','),
        without(n.gamma@, '}'),
        without(m.gamma@, '}'),
        weights_text(n, s) == weights_text(m, t),
    ensures
        n.alpha@ == m.alpha@,
        n.beta@ == m.beta@,
        n.gamma@ == m.gamma@,
        s == t,
{
    reveal_strlit(",\"beta\":");
    reveal_strlit(",\"gamma\":");
    let n2 = member_text(",\"gamma\":"@, n.gamma@, s);
    let m2 = member_text(",\"gamma\":"@, m.gamma@, t);
    let n1 = member_text(",\"beta\":"@, n.beta@, n2);
    let m1 = member_text(",\"beta\":"@, m.beta@, m2);
    lemma_member_apart(",\"weights\":{\"alpha\":"@, n.alpha@, m.alpha@, n1, m1, ',');
    lemma_member_apart(",\"beta\":"@, n.beta@, m.beta@, n2, m2, ',');
    lemma_member_apart(",\"gamma\":"@, n.gamma@, m.gamma@, s, t, '}');
}

proof fn lemma_flags_apart(a: bool, b: bool)
    ensures
        flag_text(a) == flag_text(b) ==> a == b,
        without(flag_text(a), '|'),
        without(flag_text(a), '}'),
{
    reveal_strlit("true");
    reveal_strlit("false");
    if a != b {
        assert(flag_text(a).len() != flag_text(b).len());
    }
}

proof fn lemma_options_apart(
    a: QueryOptions,
    n: NumberTexts,
    b: QueryOptions,
    m: NumberTexts,
    write: spec_fn(u32) -> Seq<char>,
)
    requires
        tells_apart(write),
        options_finite(a),
        options_finite(b),
        are_texts_of(n, a, write),
        are_texts_of(m, b, write),
        options_text(a, n) == options_text(b, m),
    ensures
        a == b,
{
    reveal_strlit(",\"bfs_depth\":");
    reveal_strlit(",\"bfs_max_nodes\":");
    reveal_strlit(",\"context_top_n\":");
    reveal_strlit(",\"context_min_score\":");
    reveal_strlit(",\"weights\":{\"alpha\":");
    reveal_strlit("},\"bidirectional\":");
    reveal_strlit("}");
    let a6 = member_text("},\"bidirectional\":"@, flag_text(a.bidirectional), "}"@);
    let b6 = member_text("},\"bidirectional\":"@, flag_text(b.bidirectional), "}"@);
    let a5 = weights_text(n, a6);
    let b5 = weights_text(m, b6);
    let a4 = member_text(",\"context_min_score\":"@, n.context_min_score@, a5);
    let b4 = member_text(",\"context_min_score\":"@, m.context_min_score@, b5);
    let a3 = member_text(",\"context_top_n\":"@, decimal_text(a.context_top_n as nat), a4);
    let b3 = member_text(",\"context_top_n\":"@, decimal_text(b.context_top_n as nat), b4);
    let a2 = member_text(",\"bfs_max_nodes\":"@, decimal_text(a.bfs_max_nodes as nat), a3);
    let b2 = member_text(",\"bfs_max_nodes\":"@, decimal_text(b.bfs_max_nodes as nat), b3);
    let a1 = member_text(",\"bfs_depth\":"@, decimal_text(a.bfs_depth as nat), a2);
    let b1 = member_text(",\"bfs_depth\":"@, decimal_text(b.bfs_depth as nat), b2);
    lemma_decimals_apart("{\"hnsw_k\":"@, a.hnsw_k as nat, b.hnsw_k as nat, a1, b1);
    lemma_decimals_apart(",\"bfs_depth\":"@, a.bfs_depth as nat, b.bfs_depth as nat, a2, b2);
    lemma_decimals_apart(
        ",\"bfs_max_nodes\":"@,
        a.bfs_max_nodes as nat,
        b.bfs_max_nodes as nat,
        a3,
        b3,
    );
    lemma_decimals_apart(
        ",\"context_top_n\":"@,
        a.context_top_n as nat,
        b.context_top_n as nat,
        a4,
        b4,
    );
    lemma_member_apart(
        ",\"context_min_score\":"@,
        n.context_min_score@,
        m.context_min_score@,
        a5,
        b5,
        ',',
    );
    lemma_weights_apart(n, m, a6, b6);
    lemma_flags_apart(a.bidirectional, b.bidirectional);
    lemma_flags_apart(b.bidirectional, a.bidirectional);
    lemma_member_apart(
        "},\"bidirectional\":"@,
        flag_text(a.bidirectional),
        flag_text(b.bidirectional),
        "}"@,
        "}"@,
        '}',
    );
}

proof fn lemma_no_bar(head: Seq<char>, value: Seq<char>, rest: Seq<char>)
    requires
        without(head, '|'),
        without(value, '|'),
        without(rest, '|'),
    ensures
        without(member_text(head, value, rest), '|'),
{
    let t = member_text(head, value, rest);
    assert forall|i: int| 0 <= i < t.len() implies #[trigger] t[i] != '|' by {
        if i < head.len() {
            assert(t[i] == head[i]);
        } else if i < head.len() + value.len() {
            assert(t[i] == value[i - head.len()]);
        } else {
            assert(t[i] == rest[i - head.len() - value.len()]);
        }
    }
}

proof fn lemma_heads_without_bar()
    ensures
        without("{\"hnsw_k\":"@, '|'),
        without(",\"bfs_depth\":"@, '|'),
        without(",\"bfs_max_nodes\":"@, '|'),
        without(",\"context_top_n\":"@, '|'),
        without(",\"context_min_score\":"@, '|'),
        without(",\"weights\":{\"alpha\":"@, '|'),
        without(",\"beta\":"@, '|'),
        without(",\"gamma\":"@, '|'),
        without("},\"bidirectional\":"@, '|'),
        without("}"@, '|'),
{
    reveal_strlit("{\"hnsw_k\":");
    reveal_strlit(",\"bfs_depth\":");
    reveal_strlit(",\"bfs_max_nodes\":");
    reveal_strlit(",\"context_top_n\":");
    reveal_strlit(",\"context_min_score\":");
    reveal_strlit(",\"weights\":{\"alpha\":");
    reveal_strlit(",\"beta\":");
    reveal_strlit(",\"gamma\":");
    reveal_strlit("},\"bidirectional\":");
    reveal_strlit("}");
}

proof fn lemma_options_without_bar(
    o: QueryOptions,
    n: NumberTexts,
    write: spec_fn(u32) -> Seq<char>,
)
    requires
        tells_apart(write),
        options_finite(o),
        are_texts_of(n, o, write),
    ensures
        without(options_text(o, n), '|'),
{
    lemma_heads_without_bar();
    lemma_flags_apart(o.bidirectional, o.bidirectional);
    lemma_decimal_without(o.hnsw_k as nat, '|');
    lemma_decimal_without(o.bfs_depth as nat, '|');
    lemma_decimal_without(o.bfs_max_nodes as nat, '|');
    lemma_decimal_without(o.context_top_n as nat, '|');
    let t8 = member_text("},\"bidirectional\":"@, flag_text(o.bidirectional), "}"@);
    lemma_no_bar("},\"bidirectional\":"@, flag_text(o.bidirectional), "}"@);
    let t7 = member_text(",\"gamma\":"@, n.gamma@, t8);
    lemma_no_bar(",\"gamma\":"@, n.gamma@, t8);
    let t6 = member_text(",\"beta\":"@, n.beta@, t7);
    lemma_no_bar(",\"beta\":"@, n.beta@, t7);
    let t5 = member_text(",\"weights\":{\"alpha\":"@, n.alpha@, t6);
    lemma_no_bar(",\"weights\":{\"alpha\":"@, n.alpha@, t6);
    let t4 = member_text(",\"context_min_score\":"@, n.context_min_score@, t5);
    lemma_no_bar(",\"context_min_score\":"@, n.context_min_score@, t5);
    let t3 = member_text(",\"context_top_n\":"@, decimal_text(o.context_top_n as nat), t4);
    lemma_no_bar(",\"context_top_n\":"@, decimal_text(o.context_top_n as nat), t4);
    let t2 = member_text(",\"bfs_max_nodes\":"@, decimal_text(o.bfs_max_nodes as nat), t3);
    lemma_no_bar(",\"bfs_max_nodes\":"@, decimal_text(o.bfs_max_nodes as nat), t3);
    let t1 = member_text(",\"bfs_depth\":"@, decimal_text(o.bfs_depth as nat), t2);
    lemma_no_bar(",\"bfs_depth\":"@, decimal_text(o.bfs_depth as nat), t2);
    lemma_no_bar("{\"hnsw_k\":"@, decimal_text(o.hnsw_k as nat), t1);
}

/// Different requests have different keys, whatever the text of the query holds, where the numbers
/// of their options are written so that they can be told apart. A prefix has no `|` in it.
pub proof fn law_keys_do_not_collide(
    prefix: Seq<char>,
    id: Seq<char>,
    o: QueryOptions,
    n: NumberTexts,
    llm: bool,
    prefix2: Seq<char>,
    id2: Seq<char>,
    o2: QueryOptions,
    n2: NumberTexts,
    llm2: bool,
    write: spec_fn(u32) -> Seq<char>,
)
    requires
        without(prefix, '|'),
        without(prefix2, '|'),
        tells_apart(write),
        options_finite(o),
        options_finite(o2),
        are_texts_of(n, o, write),
        are_texts_of(n2, o2, write),
        key_text(prefix, id, o, n, llm) == key_text(prefix2, id2, o2, n2, llm2),
    ensures
        prefix == prefix2,
        id == id2,
        o == o2,
        llm == llm2,
{
    reveal_strlit("||");
    let bars = "||"@;
    lemma_options_without_bar(o, n, write);
    lemma_options_without_bar(o2, n2, write);
    let a = prefix + bars + id;
    let b = prefix2 + bars + id2;
    lemma_split_at_last(
        a + bars + flag_text(llm),
        b + bars + flag_text(llm2),
        bars,
        options_text(o, n),
        options_text(o2, n2),
    );
    lemma_flags_apart(llm, llm2);
    lemma_flags_apart(llm2, llm);
    lemma_split_at_last(a, b, bars, flag_text(llm), flag_text(llm2));
    lemma_split_at_first(prefix, prefix2, bars, id, id2);
    lemma_options_apart(o, n, o2, n2, write);
}

// ── seeds ────────────────────────────────────────────────────────────────────

/// The ids in order of first occurrence.
pub open spec fn first_occurrences(list: Seq<u32>) -> Seq<u32>
    decreases list.len(),
{
    if list.len() == 0 {
        Seq::empty()
    } else {
        let before = first_occurrences(list.drop_last());
        if before.contains(list.last()) {
            before
        } else {
            before.push(list.last())
        }
    }
}

/// The ids of node hits.
pub open spec fn hit_ids(hits: Seq<(u32, u32)>) -> Seq<u32> {
    hits.map_values(|h: (u32, u32)| h.0)
}

/// The ends of edge hits.
pub open spec fn hit_ends(hits: Seq<(u32, u32, u32)>) -> Seq<u32>
    decreases hits.len(),
{
    if hits.len() == 0 {
        Seq::empty()
    } else {
        hit_ends(hits.drop_last()).push(hits.last().0).push(hits.last().1)
    }
}

fn add_new(seen: &mut HashSet<u32>, ids: &mut Vec<u32>, id: u32, Ghost(list): Ghost<Seq<u32>>)
    requires
        old(ids)@ == first_occurrences(list),
        forall|x: u32| old(seen)@.contains(x) <==> #[trigger] old(ids)@.contains(x),
    ensures
        final(ids)@ == first_occurrences(list.push(id)),
        forall|x: u32| final(seen)@.contains(x) <==> #[trigger] final(ids)@.contains(x),
{
    proof {
        assert(list.push(id).drop_last() =~= list);
    }
    if seen.insert(id) {
        let ghost before = ids@;
        ids.push(id);
        proof {
            assert(ids@ == before.push(id));
            assert forall|x: u32| seen@.contains(x) <==> #[trigger] ids@.contains(x) by {
                if before.contains(x) {
                    let j = before.index_of(x);
                    assert(ids@[j] == x);
                }
                assert(ids@[before.len() as int] == id);
            }
        }
    }
}

/// The seeds of an expansion: the nodes found, then the ends of the edges found, each once.
pub fn merge_seeds(seed_hits: &Vec<(u32, u32)>, edge_hits: &Vec<(u32, u32, u32)>) -> (r: Vec<u32>)
    ensures
        r@ == first_occurrences(hit_ids(seed_hits@) + hit_ends(edge_hits@)),
{
    let mut seen: HashSet<u32> = HashSet::new();
    let mut ids: Vec<u32> = Vec::new();
    let mut i: usize = 0;
    proof {
        assert(hit_ids(seed_hits@.take(0)) =~= Seq::empty());
        assert(ids@ =~= first_occurrences(hit_ids(seed_hits@.take(0))));
    }
    while i < seed_hits.len()
        invariant
            i <= seed_hits@.len(),
            ids@ == first_occurrences(hit_ids(seed_hits@.take(i as int))),
            forall|x: u32| seen@.contains(x) <==> #[trigger] ids@.contains(x),
        decreases seed_hits@.len() - i,
    {
        proof {
            assert(hit_ids(seed_hits@.take(i + 1)) =~= hit_ids(seed_hits@.take(i as int)).push(
                seed_hits@[i as int].0,
            ));
        }
        add_new(
            &mut seen,
            &mut ids,
            seed_hits[i].0,
            Ghost(hit_ids(seed_hits@.take(i as int))),
        );
        i += 1;
    }
    let ghost head = hit_ids(seed_hits@);
    let mut j: usize = 0;
    proof {
        assert(seed_hits@.take(i as int) =~= seed_hits@);
        assert(head + hit_ends(edge_hits@.take(0)) =~= head);
    }
    while j < edge_hits.len()
        invariant
            j <= edge_hits@.len(),
            ids@ == first_occurrences(head + hit_ends(edge_hits@.take(j as int))),
            forall|x: u32| seen@.contains(x) <==> #[trigger] ids@.contains(x),
        decreases edge_hits@.len() - j,
    {
        let ghost list = head + hit_ends(edge_hits@.take(j as int));
        let (from, to, _) = edge_hits[j];
        proof {
            assert(edge_hits@.take(j + 1).drop_last() =~= edge_hits@.take(j as int));
            assert(edge_hits@.take(j + 1).last() == edge_hits@[j as int]);
            assert(head + hit_ends(edge_hits@.take(j + 1)) =~= list.push(from).push(to));
        }
        add_new(&mut seen, &mut ids, from, Ghost(list));
        add_new(&mut seen, &mut ids, to, Ghost(list.push(from)));
        j += 1;
    }
    proof {
        assert(edge_hits@.take(j as int) =~= edge_hits@);
    }
    ids
}

// ── scoring ──────────────────────────────────────────────────────────────────

/// What the score of a visited node is computed from. Numbers with a fraction are bits.
#[derive(Clone, Copy, PartialEq, Eq, Structural, Debug)]
pub struct ScoreInput {
    /// place of the node in the graph
    pub place: u32,
    pub hop: u8,
    /// weight of the edge by which the node was reached
    pub path_weight: u32,
    pub node_weight: u32,
    /// for a seed its distance from the query
    pub seed_distance: Option<u32>,
}

/// The distance of the last seed with this id.
pub open spec fn seed_distance(seeds: Seq<(u32, u32)>, id: u32) -> Option<u32>
    decreases seeds.len(),
{
    if seeds.len() == 0 {
        None
    } else if seeds.last().0 == id {
        Some(seeds.last().1)
    } else {
        seed_distance(seeds.drop_last(), id)
    }
}

/// What the scores of the visited nodes are computed from; what is no node of the graph is passed
/// over.
pub open spec fn score_inputs(nodes: Seq<NodeInfo>, visits: Seq<Visit>, seeds: Seq<(u32, u32)>) -> Seq<
    ScoreInput,
>
    decreases visits.len(),
{
    if visits.len() == 0 {
        Seq::empty()
    } else {
        let before = score_inputs(nodes, visits.drop_last(), seeds);
        let (id, hop, path_weight) = visits.last();
        if id < nodes.len() {
            before.push(
                ScoreInput {
                    place: id,
                    hop,
                    path_weight,
                    node_weight: nodes[id as int].weight,
                    seed_distance: seed_distance(seeds, id),
                },
            )
        } else {
            before
        }
    }
}

/// Whether a map holds for each seed its distance, and nothing else.
spec fn holds_distances(map: Map<u32, u32>, seeds: Seq<(u32, u32)>) -> bool {
    forall|id: u32| #[trigger]
        seed_distance(seeds, id) == (if map.contains_key(id) {
            Some(map[id])
        } else {
            None
        })
}

fn distances_by_id(seeds: &Vec<(u32, u32)>) -> (r: HashMap<u32, u32>)
    ensures
        holds_distances(r@, seeds@),
{
    let mut map: HashMap<u32, u32> = HashMap::new();
    let mut i: usize = 0;
    while i < seeds.len()
        invariant
            i <= seeds@.len(),
            holds_distances(map@, seeds@.take(i as int)),
        decreases seeds@.len() - i,
    {
        proof {
            assert(seeds@.take(i + 1).drop_last() =~= seeds@.take(i as int));
            assert(seeds@.take(i + 1).last() == seeds@[i as int]);
        }
        let (id, distance) = seeds[i];
        let ghost before = map@;
        map.insert(id, distance);
        proof {
            assert forall|other: u32| #[trigger]
                seed_distance(seeds@.take(i + 1), other) == (if map@.contains_key(other) {
                    Some(map@[other])
                } else {
                    None
                }) by {
                assert(seed_distance(seeds@.take(i as int), other) == (if before.contains_key(
                    other,
                ) {
                    Some(before[other])
                } else {
                    None
                }));
            }
        }
        i += 1;
    }
    proof {
        assert(seeds@.take(i as int) =~= seeds@);
    }
    map
}

/// Collects what the scores of the visited nodes are computed from. `seeds` are the hits of the
/// search with their distances.
pub fn plan_scores(graph: &CsrGraph, visits: &Vec<Visit>, seeds: &Vec<(u32, u32)>) -> (r: Vec<
    ScoreInput,
>)
    ensures
        r@ == score_inputs(graph.nodes@, visits@, seeds@),
        forall|i: int| 0 <= i < r@.len() ==> (#[trigger] r@[i]).place < graph.nodes@.len(),
{
    let distances = distances_by_id(seeds);
    let mut inputs: Vec<ScoreInput> = Vec::new();
    let mut i: usize = 0;
    proof {
        assert(inputs@ =~= score_inputs(graph.nodes@, visits@.take(0), seeds@));
    }
    while i < visits.len()
        invariant
            i <= visits@.len(),
            inputs@ == score_inputs(graph.nodes@, visits@.take(i as int), seeds@),
            holds_distances(distances@, seeds@),
        decreases visits@.len() - i,
    {
        proof {
            assert(visits@.take(i + 1).drop_last() =~= visits@.take(i as int));
            assert(visits@.take(i + 1).last() == visits@[i as int]);
        }
        let (id, hop, path_weight) = visits[i];
        if (id as usize) < graph.nodes.len() {
            let distance: Option<u32> = match distances.get(&id) {
                Some(d) => Some(*d),
                None => None,
            };
            proof {
                assert(seed_distance(seeds@, id) == distance);
            }
            inputs.push(
                ScoreInput {
                    place: id,
                    hop,
                    path_weight,
                    node_weight: graph.nodes[id as usize].weight,
                    seed_distance: distance,
                },
            );
        }
        i += 1;
    }
    proof {
        assert(visits@.take(i as int) =~= visits@);
        lemma_planned_places(graph.nodes@, visits@, seeds@);
    }
    inputs
}

/// A node with its similarity and its score.
pub open spec fn is_scored(n: ScoredNode, node: NodeInfo, input: ScoreInput, value: (u32, u32)) -> bool {
    &&& n.id == node.id
    &&& n.name == node.name
    &&& n.node_type == node.node_type
    &&& n.props == node.props
    &&& n.full_context == node.full_context
    &&& n.vector_sim == value.0
    &&& n.score == value.1
    &&& n.hop == input.hop
    &&& n.is_seed == (input.seed_distance is Some)
}

/// Joins nodes with their similarities and scores, which stand in the order of the inputs.
pub fn score_nodes(graph: &CsrGraph, inputs: &Vec<ScoreInput>, values: &Vec<(u32, u32)>) -> (r: Vec<
    ScoredNode,
>)
    requires
        inputs@.len() == values@.len(),
        forall|i: int|
            0 <= i < inputs@.len() ==> (#[trigger] inputs@[i]).place < graph.nodes@.len(),
    ensures
        r@.len() == inputs@.len(),
        forall|i: int|
            0 <= i < r@.len() ==> is_scored(
                #[trigger] r@[i],
                graph.nodes@[inputs@[i].place as int],
                inputs@[i],
                values@[i],
            ),
{
    let mut r: Vec<ScoredNode> = Vec::new();
    let mut i: usize = 0;
    while i < inputs.len()
        invariant
            i <= inputs@.len() == values@.len(),
            forall|j: int|
                0 <= j < inputs@.len() ==> (#[trigger] inputs@[j]).place < graph.nodes@.len(),
            r@.len() == i,
            forall|j: int|
                0 <= j < i ==> is_scored(
                    #[trigger] r@[j],
                    graph.nodes@[inputs@[j].place as int],
                    inputs@[j],
                    values@[j],
                ),
        decreases inputs@.len() - i,
    {
        let input = inputs[i];
        let (vector_sim, score) = values[i];
        let node = &graph.nodes[input.place as usize];
        r.push(
            ScoredNode {
                id: node.id,
                name: node.name.clone(),
                node_type: node.node_type.clone(),
                props: node.props.clone(),
                full_context: node.full_context.clone(),
                score,
                vector_sim,
                hop: input.hop,
                is_seed: input.seed_distance.is_some(),
            },
        );
        i += 1;
    }
    r
}

/// The places that are planned are places of the graph.
proof fn lemma_planned_places(nodes: Seq<NodeInfo>, visits: Seq<Visit>, seeds: Seq<(u32, u32)>)
    ensures
        forall|i: int|
            0 <= i < score_inputs(nodes, visits, seeds).len() ==> (#[trigger] score_inputs(
                nodes,
                visits,
                seeds,
            )[i]).place < nodes.len(),
    decreases visits.len(),
{
    if visits.len() > 0 {
        lemma_planned_places(nodes, visits.drop_last(), seeds);
    }
}

// ── context ──────────────────────────────────────────────────────────────────

/// The score suffices for the context. A least score that is not positive asks for nothing.
pub open spec fn suffices(score: u32, min_score: u32) -> bool {
    f32_less(0, min_score) ==> f32_at_least(score, min_score)
}

/// The scores of nodes.
pub open spec fn scores(nodes: Seq<ScoredNode>) -> Seq<u32> {
    nodes.map_values(|n: ScoredNode| n.score)
}

/// The places of the nodes whose scores suffice.
pub open spec fn sufficing(nodes: Seq<ScoredNode>, min_score: u32) -> spec_fn(usize) -> bool {
    |p: usize| suffices(nodes[p as int].score, min_score)
}

/// At most `n` elements from the start.
pub open spec fn at_most<A>(s: Seq<A>, n: nat) -> Seq<A> {
    if n < s.len() {
        s.take(n as int)
    } else {
        s
    }
}

/// The places of the context: those of the order whose scores suffice, at most `top_n`.
pub open spec fn context_places(
    nodes: Seq<ScoredNode>,
    order: Seq<usize>,
    min_score: u32,
    top_n: nat,
) -> Seq<usize> {
    at_most(order.filter(sufficing(nodes, min_score)), top_n)
}

/// `r` is the context among `nodes`: the nodes of sufficient score, by descending score, at most
/// `top_n`.
pub open spec fn is_context(
    nodes: Seq<ScoredNode>,
    min_score: u32,
    top_n: nat,
    r: Seq<ScoredNode>,
) -> bool {
    exists|order: Seq<usize>|
        is_descending_order(scores(nodes), order) && r == (#[trigger] context_places(
            nodes,
            order,
            min_score,
            top_n,
        )).map_values(|p: usize| nodes[p as int])
}

/// Picks the nodes of the context.
pub fn rank_nodes(nodes: &Vec<ScoredNode>, min_score: u32, top_n: usize) -> (r: Vec<ScoredNode>)
    ensures
        is_context(nodes@, min_score, top_n as nat, r@),
{
    let mut keys: Vec<u32> = Vec::new();
    let mut i: usize = 0;
    while i < nodes.len()
        invariant
            i <= nodes@.len(),
            keys@ == scores(nodes@.take(i as int)),
        decreases nodes@.len() - i,
    {
        keys.push(nodes[i].score);
        proof {
            assert(keys@ =~= scores(nodes@.take(i + 1)));
        }
        i += 1;
    }
    proof {
        assert(nodes@.take(i as int) =~= nodes@);
    }
    let order = descending_order(&keys);
    let ghost keep = sufficing(nodes@, min_score);
    let mut kept: Vec<usize> = Vec::new();
    let mut j: usize = 0;
    proof {
        reveal(Seq::filter);
        assert(kept@ =~= order@.take(0).filter(keep));
    }
    while j < order.len()
        invariant
            j <= order@.len(),
            keep == sufficing(nodes@, min_score),
            order@.len() == nodes@.len(),
            forall|k: int| 0 <= k < order@.len() ==> #[trigger] order@[k] < nodes@.len(),
            kept@ == order@.take(j as int).filter(keep),
            forall|k: int| 0 <= k < kept@.len() ==> #[trigger] kept@[k] < nodes@.len(),
        decreases order@.len() - j,
    {
        let p: usize = order[j];
        proof {
            reveal(Seq::filter);
            assert(order@.take(j + 1).drop_last() =~= order@.take(j as int));
            assert(order@.take(j + 1).last() == p);
        }
        if !less(0, min_score) || at_least(nodes[p].score, min_score) {
            kept.push(p);
        }
        j += 1;
    }
    proof {
        assert(order@.take(j as int) =~= order@);
    }
    if top_n < kept.len() {
        kept.truncate(top_n);
    }
    let ghost places = context_places(nodes@, order@, min_score, top_n as nat);
    proof {
        assert(kept@ =~= places);
    }
    let mut r: Vec<ScoredNode> = Vec::new();
    let mut k: usize = 0;
    while k < kept.len()
        invariant
            k <= kept@.len(),
            forall|q: int| 0 <= q < kept@.len() ==> #[trigger] kept@[q] < nodes@.len(),
            r@.len() == k,
            forall|q: int| 0 <= q < k ==> #[trigger] r@[q] == nodes@[kept@[q] as int],
        decreases kept@.len() - k,
    {
        r.push(nodes[kept[k]].clone());
        k += 1;
    }
    proof {
        assert(r@ =~= places.map_values(|p: usize| nodes@[p as int]));
    }
    r
}

proof fn lemma_filter_keeps<A>(s: Seq<A>, pred: spec_fn(A) -> bool)
    ensures
        forall|i: int| 0 <= i < s.filter(pred).len() ==> pred(#[trigger] s.filter(pred)[i]),
        forall|i: int| 0 <= i < s.filter(pred).len() ==> s.contains(#[trigger] s.filter(pred)[i]),
    decreases s.len(),
{
    reveal(Seq::filter);
    if s.len() > 0 {
        lemma_filter_keeps(s.drop_last(), pred);
        assert forall|i: int| 0 <= i < s.filter(pred).len() implies s.contains(
            #[trigger] s.filter(pred)[i],
        ) by {
            let x = s.filter(pred)[i];
            let before = s.drop_last().filter(pred);
            if i < before.len() {
                assert(before[i] == x);
                let j = s.drop_last().index_of(x);
                assert(s[j] == x);
            } else {
                assert(s[s.len() - 1] == x);
            }
        }
    }
}

proof fn lemma_filter_order(keys: Seq<u32>, order: Seq<usize>, pred: spec_fn(usize) -> bool)
    requires
        forall|i: int, j: int|
            0 <= i < j < order.len() ==> ranks_before(
                keys,
                (#[trigger] order[i]) as int,
                (#[trigger] order[j]) as int,
            ),
    ensures
        forall|i: int, j: int|
            0 <= i < j < order.filter(pred).len() ==> ranks_before(
                keys,
                (#[trigger] order.filter(pred)[i]) as int,
                (#[trigger] order.filter(pred)[j]) as int,
            ),
    decreases order.len(),
{
    reveal(Seq::filter);
    if order.len() > 0 {
        let rest = order.drop_last();
        lemma_filter_order(keys, rest, pred);
        lemma_filter_keeps(rest, pred);
        let kept = order.filter(pred);
        let before = rest.filter(pred);
        assert forall|i: int, j: int| 0 <= i < j < kept.len() implies ranks_before(
            keys,
            (#[trigger] kept[i]) as int,
            (#[trigger] kept[j]) as int,
        ) by {
            assert(kept[i] == before[i]);
            if j < before.len() {
                assert(kept[j] == before[j]);
            } else {
                assert(rest.contains(before[i]));
                let p = rest.index_of(before[i]);
                assert(order[p] == kept[i]);
                assert(order[order.len() - 1] == kept[j]);
            }
        }
    }
}

/// The context stands by descending score, each score suffices, and there are at most `top_n`.
pub proof fn law_context_is_ranked(
    nodes: Seq<ScoredNode>,
    min_score: u32,
    top_n: nat,
    r: Seq<ScoredNode>,
)
    requires
        is_context(nodes, min_score, top_n, r),
    ensures
        r.len() <= top_n,
        forall|i: int| 0 <= i < r.len() ==> suffices((#[trigger] r[i]).score, min_score),
        forall|i: int, j: int|
            0 <= i < j < r.len() ==> f32_rank((#[trigger] r[i]).score) >= f32_rank(
                (#[trigger] r[j]).score,
            ),
{
    let order = choose|order: Seq<usize>|
        is_descending_order(scores(nodes), order) && r == (#[trigger] context_places(
            nodes,
            order,
            min_score,
            top_n,
        )).map_values(|p: usize| nodes[p as int]);
    let pred = sufficing(nodes, min_score);
    let places = context_places(nodes, order, min_score, top_n);
    lemma_filter_keeps(order, pred);
    lemma_filter_order(scores(nodes), order, pred);
    let kept = order.filter(pred);
    assert forall|i: int| 0 <= i < r.len() implies suffices((#[trigger] r[i]).score, min_score) by {
        assert(places[i] == kept[i]);
        assert(pred(kept[i]));
    }
    assert forall|i: int, j: int| 0 <= i < j < r.len() implies f32_rank((#[trigger] r[i]).score)
        >= f32_rank((#[trigger] r[j]).score) by {
        assert(ranks_before(scores(nodes), kept[i] as int, kept[j] as int));
        assert(order.contains(kept[i]));
        assert(order.contains(kept[j]));
        let a = order.index_of(kept[i]);
        let b = order.index_of(kept[j]);
        assert(order[a] < nodes.len());
        assert(order[b] < nodes.len());
        assert(places[i] == kept[i] && places[j] == kept[j]);
    }
}

/// Each input was made from a visit.
proof fn lemma_inputs_have_visits(nodes: Seq<NodeInfo>, visits: Seq<Visit>, seeds: Seq<(u32, u32)>)
    ensures
        forall|i: int|
            0 <= i < score_inputs(nodes, visits, seeds).len() ==> is_visited(
                nodes,
                visits,
                #[trigger] score_inputs(nodes, visits, seeds)[i],
            ),
    decreases visits.len(),
{
    let inputs = score_inputs(nodes, visits, seeds);
    if visits.len() > 0 {
        let before = score_inputs(nodes, visits.drop_last(), seeds);
        lemma_inputs_have_visits(nodes, visits.drop_last(), seeds);
        assert forall|i: int| 0 <= i < inputs.len() implies is_visited(
            nodes,
            visits,
            #[trigger] inputs[i],
        ) by {
            if i < before.len() {
                assert(inputs[i] == before[i]);
                let j = choose|j: int|
                    0 <= j < visits.drop_last().len() && (#[trigger] visits.drop_last()[j]).0
                        == before[i].place && visits.drop_last()[j].1 == before[i].hop;
                assert(visits[j].0 == inputs[i].place);
            } else {
                assert(visits[visits.len() - 1].0 == inputs[i].place);
            }
        }
    }
}

/// The input stands for a node of the graph that one of the visits found, with its hop.
pub open spec fn is_visited(nodes: Seq<NodeInfo>, visits: Seq<Visit>, input: ScoreInput) -> bool {
    &&& input.place < nodes.len()
    &&& exists|j: int|
        0 <= j < visits.len() && (#[trigger] visits[j]).0 == input.place && visits[j].1
            == input.hop
}

/// The node stands in the graph, and its hop is the distance of its place from the seeds, at most
/// `max_depth`.
pub open spec fn stands_near(
    g: &CsrGraph,
    seeds: Seq<u32>,
    max_depth: u8,
    bidirectional: bool,
    n: ScoredNode,
) -> bool {
    exists|place: u32|
        place < g.nodes@.len() && n.id == g.nodes@[place as int].id && n.hop <= max_depth
            && #[trigger] within(g, seeds, bidirectional, place, n.hop as nat) && (forall|d: nat|
            d < n.hop ==> !within(g, seeds, bidirectional, place, d))
}

/// A context holds only nodes of the graph that can be reached from the seeds in at most
/// `max_depth` steps, each with the number of steps that it takes.
pub proof fn law_context_is_near_the_seeds(
    g: &CsrGraph,
    seeds: Seq<u32>,
    max_depth: u8,
    limit: nat,
    bidirectional: bool,
    visits: Seq<Visit>,
    hits: Seq<(u32, u32)>,
    values: Seq<(u32, u32)>,
    scored: Seq<ScoredNode>,
    min_score: u32,
    top_n: nat,
    r: Seq<ScoredNode>,
)
    requires
        g.wf(),
        visits == expansion(g, seeds, max_depth, limit, bidirectional, visits.len()),
        scored.len() == score_inputs(g.nodes@, visits, hits).len(),
        values.len() == scored.len(),
        forall|i: int|
            0 <= i < scored.len() ==> is_scored(
                #[trigger] scored[i],
                g.nodes@[score_inputs(g.nodes@, visits, hits)[i].place as int],
                score_inputs(g.nodes@, visits, hits)[i],
                values[i],
            ),
        is_context(scored, min_score, top_n, r),
    ensures
        forall|i: int|
            0 <= i < r.len() ==> stands_near(g, seeds, max_depth, bidirectional, #[trigger] r[i]),
{
    let inputs = score_inputs(g.nodes@, visits, hits);
    lemma_inputs_have_visits(g.nodes@, visits, hits);
    law_hops_are_distances(g, seeds, max_depth, limit, bidirectional, visits);
    let order = choose|order: Seq<usize>|
        is_descending_order(scores(scored), order) && r == (#[trigger] context_places(
            scored,
            order,
            min_score,
            top_n,
        )).map_values(|p: usize| scored[p as int]);
    let pred = sufficing(scored, min_score);
    let places = context_places(scored, order, min_score, top_n);
    lemma_filter_keeps(order, pred);
    assert forall|i: int| 0 <= i < r.len() implies stands_near(
        g,
        seeds,
        max_depth,
        bidirectional,
        #[trigger] r[i],
    ) by {
        assert(places[i] == order.filter(pred)[i]);
        let at = order.index_of(places[i]);
        assert(order[at] < scores(scored).len());
        let p = places[i] as int;
        assert(r[i] == scored[p]);
        assert(is_visited(g.nodes@, visits, inputs[p]));
        let j = choose|j: int|
            0 <= j < visits.len() && (#[trigger] visits[j]).0 == inputs[p].place && visits[j].1
                == inputs[p].hop;
        assert(hop_is_distance(g, seeds, bidirectional, visits[j]));
        assert(within(g, seeds, bidirectional, inputs[p].place, r[i].hop as nat));
    }
}

/// A node of sufficient score that is not in the context has no higher score than those that are,
/// and then the context is full.
pub proof fn law_context_holds_the_best(
    nodes: Seq<ScoredNode>,
    min_score: u32,
    top_n: nat,
    r: Seq<ScoredNode>,
    p: int,
)
    requires
        is_context(nodes, min_score, top_n, r),
        0 <= p < nodes.len(),
        p <= usize::MAX,
        suffices(nodes[p].score, min_score),
        !r.contains(nodes[p]),
    ensures
        r.len() == top_n,
        forall|i: int| 0 <= i < r.len() ==> f32_rank((#[trigger] r[i]).score) >= f32_rank(
            nodes[p].score,
        ),
{
    let order = choose|order: Seq<usize>|
        is_descending_order(scores(nodes), order) && r == (#[trigger] context_places(
            nodes,
            order,
            min_score,
            top_n,
        )).map_values(|p: usize| nodes[p as int]);
    let pred = sufficing(nodes, min_score);
    let places = context_places(nodes, order, min_score, top_n);
    let kept = order.filter(pred);
    lemma_filter_keeps(order, pred);
    lemma_filter_order(scores(nodes), order, pred);
    assert(order.contains(p as usize));
    let q = order.index_of(p as usize);
    lemma_filter_finds(order, pred, q);
    let k = kept.index_of(p as usize);
    assert(kept[k] == p as usize);
    if k < places.len() {
        assert(places[k] == p as usize);
        assert(r[k] == nodes[p]);
    }
    assert forall|i: int| 0 <= i < r.len() implies f32_rank((#[trigger] r[i]).score) >= f32_rank(
        nodes[p].score,
    ) by {
        assert(places[i] == kept[i]);
        assert(ranks_before(scores(nodes), kept[i] as int, kept[k] as int));
        assert(order.contains(kept[i]));
        let a = order.index_of(kept[i]);
        assert(order[a] < nodes.len());
    }
}

proof fn lemma_filter_finds<A>(s: Seq<A>, pred: spec_fn(A) -> bool, q: int)
    requires
        0 <= q < s.len(),
        pred(s[q]),
    ensures
        s.filter(pred).contains(s[q]),
    decreases s.len(),
{
    reveal(Seq::filter);
    let rest = s.drop_last();
    if q < rest.len() {
        lemma_filter_finds(rest, pred, q);
        let j = rest.filter(pred).index_of(s[q]);
        assert(s.filter(pred)[j] == s[q]);
    } else {
        assert(s.filter(pred)[s.filter(pred).len() - 1] == s[q]);
    }
}

// ── pipeline ─────────────────────────────────────────────────────────────────

/// A scored node as the context of a question shows it: its score stands for its weight.
pub open spec fn context_info(n: ScoredNode) -> NodeView {
    NodeView {
        id: n.id,
        name: n.name@,
        node_type: n.node_type@,
        weight: n.score,
        props: json_tree(n.props),
        full_context: n.full_context@,
        embed_context: None,
        external_id: Seq::empty(),
        image_url: None,
    }
}

/// Shows scored nodes as the context of a question.
pub fn node_infos(nodes: &Vec<ScoredNode>) -> (r: Vec<NodeInfo>)
    ensures
        node_views(r@) == nodes@.map_values(|n: ScoredNode| context_info(n)),
{
    let mut r: Vec<NodeInfo> = Vec::new();
    let mut i: usize = 0;
    while i < nodes.len()
        invariant
            i <= nodes@.len(),
            r@.len() == i,
            forall|j: int| 0 <= j < i ==> (#[trigger] r@[j])@ == context_info(nodes@[j]),
        decreases nodes@.len() - i,
    {
        let n = &nodes[i];
        let info = NodeInfo {
            id: n.id,
            name: n.name.clone(),
            node_type: n.node_type.clone(),
            weight: n.score,
            props: n.props.clone(),
            full_context: n.full_context.clone(),
            embed_context: None,
            external_id: String::new(),
            image_url: None,
        };
        proof {
            assert(info@ =~= context_info(nodes@[i as int]));
        }
        r.push(info);
        i += 1;
    }
    proof {
        assert(node_views(r@) =~= nodes@.map_values(|n: ScoredNode| context_info(n)));
    }
    r
}

/// The ids of nodes.
pub open spec fn id_set(nodes: Seq<ScoredNode>) -> Set<u32> {
    Set::new(|id: u32| exists|j: int| 0 <= j < nodes.len() && (#[trigger] nodes[j]).id == id)
}

fn collect_ids(nodes: &Vec<ScoredNode>) -> (r: HashSet<u32>)
    ensures
        r@ == id_set(nodes@),
{
    let mut ids: HashSet<u32> = HashSet::new();
    let mut i: usize = 0;
    while i < nodes.len()
        invariant
            i <= nodes@.len(),
            forall|id: u32| #[trigger]
                ids@.contains(id) <==> exists|j: int|
                    0 <= j < i && (#[trigger] nodes@[j]).id == id,
        decreases nodes@.len() - i,
    {
        let ghost before = ids@;
        ids.insert(nodes[i].id);
        proof {
            assert forall|id: u32| #[trigger] ids@.contains(id) <==> exists|j: int|
                0 <= j < i + 1 && (#[trigger] nodes@[j]).id == id by {
                if before.contains(id) {
                    let j = choose|j: int| 0 <= j < i && (#[trigger] nodes@[j]).id == id;
                    assert(nodes@[j].id == id);
                }
                if id == nodes@[i as int].id {
                    assert(ids@.contains(id));
                }
            }
        }
        i += 1;
    }
    proof {
        assert(ids@ =~= id_set(nodes@));
    }
    ids
}

/// The context of a question: the ranked nodes, as they are shown, and the edges between them.
pub struct Context {
    pub nodes: Vec<ScoredNode>,
    pub infos: Vec<NodeInfo>,
    pub edges: Vec<RawEdge>,
}

/// Picks the context among scored nodes.
pub fn select_context(graph: &CsrGraph, scored: &Vec<ScoredNode>, opts: &QueryOptions) -> (r:
    Context)
    requires
        graph.wf(),
    ensures
        is_context(scored@, opts.context_min_score, opts.context_top_n as nat, r.nodes@),
        node_views(r.infos@) == r.nodes@.map_values(|n: ScoredNode| context_info(n)),
        is_edges_between(graph, id_set(r.nodes@), r.edges@),
{
    let nodes = rank_nodes(scored, opts.context_min_score, opts.context_top_n);
    let ids = collect_ids(&nodes);
    let edges = graph.edges_between(&ids);
    let infos = node_infos(&nodes);
    Context { nodes, infos, edges }
}

/// An edge of the result as the context shows it.
pub open spec fn edge_view(e: SubgraphEdge) -> ContextEdgeView {
    ContextEdgeView {
        from_node: e.from@,
        to_node: e.to@,
        weight: e.weight,
        edge_type: e.edge_type@,
    }
}

/// The edges of the result as the context shows them.
pub open spec fn subgraph_edge_views(list: Seq<SubgraphEdge>) -> Seq<ContextEdgeView> {
    list.map_values(|e: SubgraphEdge| edge_view(e))
}

/// The edges between the nodes of the context, by name.
pub fn subgraph_edges(infos: &Vec<NodeInfo>, edges: &Vec<RawEdge>) -> (r: Vec<SubgraphEdge>)
    ensures
        subgraph_edge_views(r@) == context_edges(infos@, edges@),
{
    let named = build_edges(infos, edges);
    let mut r: Vec<SubgraphEdge> = Vec::new();
    let mut i: usize = 0;
    while i < named.len()
        invariant
            i <= named@.len(),
            r@.len() == i,
            forall|j: int| 0 <= j < i ==> edge_view(#[trigger] r@[j]) == named@[j]@,
        decreases named@.len() - i,
    {
        let e = &named[i];
        r.push(
            SubgraphEdge {
                from: e.from_node.clone(),
                to: e.to_node.clone(),
                weight: e.weight,
                edge_type: e.edge_type.clone(),
            },
        );
        i += 1;
    }
    proof {
        assert(subgraph_edge_views(r@) =~= context_edge_views(named@));
    }
    r
}

/// Times of the parts of a query, in milliseconds.
#[derive(Clone, Copy, PartialEq, Eq, Structural, Debug)]
pub struct Timings {
    pub total_ms: u64,
    pub embed_ms: u64,
    pub search_ms: u64,
    pub bfs_ms: u64,
    pub score_ms: u64,
    pub llm_ms: u64,
}

/// The result of a query from its context and the answer.
pub fn finish_query(
    answer: String,
    context: Context,
    seed_nodes: usize,
    subgraph_nodes: usize,
    times: Timings,
) -> (r: QueryResult)
    ensures
        r.answer == answer,
        r.subgraph.nodes == context.nodes,
        subgraph_edge_views(r.subgraph.edges@) == context_edges(context.infos@, context.edges@),
        r.stats == (QueryStats {
            seed_nodes,
            subgraph_nodes,
            context_nodes: r.stats.context_nodes,
            total_ms: times.total_ms,
            embed_ms: times.embed_ms,
            search_ms: times.search_ms,
            bfs_ms: times.bfs_ms,
            score_ms: times.score_ms,
            llm_ms: times.llm_ms,
            cache_hit: false,
        }),
        r.stats.context_nodes == context.infos@.len(),
{
    let edges = subgraph_edges(&context.infos, &context.edges);
    let context_nodes: usize = context.infos.len();
    QueryResult {
        answer,
        subgraph: Subgraph { nodes: context.nodes, edges },
        stats: QueryStats {
            seed_nodes,
            subgraph_nodes,
            context_nodes,
            total_ms: times.total_ms,
            embed_ms: times.embed_ms,
            search_ms: times.search_ms,
            bfs_ms: times.bfs_ms,
            score_ms: times.score_ms,
            llm_ms: times.llm_ms,
            cache_hit: false,
        },
    }
}

/// The key under which the result of a text query is cached: none where the request says how the
/// LLM is to be asked, since then the answer is its own, or where a number of the options is not
/// finite.
pub open spec fn text_key(
    query: Seq<char>,
    opts: QueryOptions,
    numbers: NumberTexts,
    llm_generate: bool,
    hinted: bool,
) -> Option<Seq<char>> {
    if hinted || !options_finite(opts) {
        None
    } else {
        Some(key_text("text"@, trimmed(query), opts, numbers, llm_generate))
    }
}

/// The key under which the result of a text query is cached.
pub fn text_cache_key(
    query: &str,
    opts: &QueryOptions,
    numbers: &NumberTexts,
    llm_generate: bool,
    hinted: bool,
) -> (r: Option<String>)
    ensures
        opt_text(r) == text_key(query@, *opts, *numbers, llm_generate, hinted),
{
    if hinted {
        None
    } else {
        QueryCache::make_key("text", trim(query).as_str(), opts, numbers, llm_generate)
    }
}

/// The key under which the result of a node query is cached.
pub fn node_cache_key(
    node_id: u32,
    opts: &QueryOptions,
    numbers: &NumberTexts,
    llm_generate: bool,
    hinted: bool,
) -> (r: Option<String>)
    ensures
        match r {
            Some(key) => !hinted && options_finite(*opts) && key@ == key_text(
                "node"@,
                decimal_text(node_id as nat),
                *opts,
                *numbers,
                llm_generate,
            ),
            None => hinted || !options_finite(*opts),
        },
{
    if hinted {
        None
    } else {
        QueryCache::make_key("node", decimal(node_id as u64).as_str(), opts, numbers, llm_generate)
    }
}

/// A text query that is asked again, but for white space around it, is served the first answer with
/// the first subgraph, as a cache hit without times of its parts, wherever the cache still has it.
/// A query with hints is never served from the cache, and nothing is after an invalidation.
pub proof fn law_repeated_query_gets_the_first_answer(
    query: Seq<char>,
    again: Seq<char>,
    opts: QueryOptions,
    numbers: NumberTexts,
    llm_generate: bool,
    before: Map<Seq<char>, QueryResult>,
    first: QueryResult,
    kept: QueryResult,
    served: QueryResult,
    total_ms: u64,
)
    requires
        options_finite(opts),
        trimmed(query) == trimmed(again),
        same_result(kept, first),
        ({
            let key = text_key(query, opts, numbers, llm_generate, false)->0;
            let asked = text_key(again, opts, numbers, llm_generate, false)->0;
            let cached = before.insert(key, kept);
            cached.contains_key(asked) ==> is_cached_answer(served, cached[asked], total_ms)
        }),
    ensures
        text_key(again, opts, numbers, llm_generate, false) is Some,
        text_key(again, opts, numbers, llm_generate, false) == text_key(
            query,
            opts,
            numbers,
            llm_generate,
            false,
        ),
        served.answer == first.answer,
        served.subgraph.nodes@ == first.subgraph.nodes@,
        served.subgraph.edges@ == first.subgraph.edges@,
        served.stats == (QueryStats {
            total_ms,
            embed_ms: 0,
            search_ms: 0,
            bfs_ms: 0,
            score_ms: 0,
            llm_ms: 0,
            cache_hit: true,
            ..first.stats
        }),
        text_key(again, opts, numbers, llm_generate, true) is None,
        !Map::<Seq<char>, QueryResult>::empty().contains_key(
            text_key(again, opts, numbers, llm_generate, false)->0,
        ),
{
}

// ── several hops ─────────────────────────────────────────────────────────────

/// The nodes, and those of `extra` with ids that are not there yet, each id once.
pub open spec fn merged_context(base: Seq<NodeInfo>, extra: Seq<NodeInfo>) -> Seq<NodeInfo>
    decreases extra.len(),
{
    if extra.len() == 0 {
        base
    } else {
        let before = merged_context(base, extra.drop_last());
        if has_id(before, extra.last().id) {
            before
        } else {
            before.push(extra.last())
        }
    }
}

/// Some node has this id.
pub open spec fn has_id(nodes: Seq<NodeInfo>, id: u32) -> bool {
    exists|j: int| 0 <= j < nodes.len() && (#[trigger] nodes[j]).id == id
}

/// Adds the nodes of `extra` that are not there yet.
pub fn merge_context(base: &mut Vec<NodeInfo>, extra: Vec<NodeInfo>)
    ensures
        final(base)@ == merged_context(old(base)@, extra@),
{
    let ghost start = base@;
    let ghost all = extra@;
    let mut ids: HashSet<u32> = HashSet::new();
    let mut i: usize = 0;
    while i < base.len()
        invariant
            base@ == start,
            i <= base@.len(),
            forall|id: u32| #[trigger] ids@.contains(id) <==> has_id(base@.take(i as int), id),
        decreases base@.len() - i,
    {
        let ghost known = base@.take(i as int);
        let id: u32 = base[i].id;
        ids.insert(id);
        proof {
            assert(base@.take(i + 1) =~= known.push(base@[i as int]));
            lemma_has_id_push(known, base@[i as int]);
        }
        i += 1;
    }
    proof {
        assert(base@.take(i as int) =~= base@);
        assert(all.take(0) =~= Seq::empty());
    }
    for node in it: extra
        invariant
            it.seq() == all,
            base@ == merged_context(start, all.take(it.index())),
            forall|id: u32| #[trigger] ids@.contains(id) <==> has_id(base@, id),
    {
        let ghost k = it.index();
        proof {
            assert(all.take(k + 1).drop_last() =~= all.take(k));
            assert(all.take(k + 1).last() == all[k]);
        }
        let id: u32 = node.id;
        if ids.insert(id) {
            let ghost known = base@;
            base.push(node);
            proof {
                lemma_has_id_push(known, node);
            }
        }
    }
    proof {
        assert(all.take(all.len() as int) =~= all);
    }
}

proof fn lemma_has_id_push(nodes: Seq<NodeInfo>, n: NodeInfo)
    ensures
        forall|id: u32| #[trigger] has_id(nodes.push(n), id) <==> has_id(nodes, id) || id == n.id,
{
    let next = nodes.push(n);
    assert forall|id: u32| #[trigger] has_id(next, id) <==> has_id(nodes, id) || id == n.id by {
        if has_id(nodes, id) {
            let j = choose|j: int| 0 <= j < nodes.len() && (#[trigger] nodes[j]).id == id;
            assert(next[j].id == id);
        }
        assert(next[nodes.len() as int] == n);
        if has_id(next, id) && id != n.id {
            let j = choose|j: int| 0 <= j < next.len() && (#[trigger] next[j]).id == id;
            assert(nodes[j].id == id);
        }
    }
}

/// The edges, and those of `extra` between pairs of nodes that have none yet.
pub open spec fn merged_edges(base: Seq<RawEdge>, extra: Seq<RawEdge>) -> Seq<RawEdge>
    decreases extra.len(),
{
    if extra.len() == 0 {
        base
    } else {
        let before = merged_edges(base, extra.drop_last());
        if has_pair(before, extra.last().0, extra.last().1) {
            before
        } else {
            before.push(extra.last())
        }
    }
}

/// Some edge runs from `from` to `to`.
pub open spec fn has_pair(edges: Seq<RawEdge>, from: u32, to: u32) -> bool {
    exists|j: int| 0 <= j < edges.len() && (#[trigger] edges[j]).0 == from && edges[j].1 == to
}

fn find_pair(edges: &Vec<RawEdge>, from: u32, to: u32) -> (r: bool)
    ensures
        r == has_pair(edges@, from, to),
{
    let mut i: usize = 0;
    while i < edges.len()
        invariant
            i <= edges@.len(),
            forall|j: int|
                0 <= j < i ==> !((#[trigger] edges@[j]).0 == from && edges@[j].1 == to),
        decreases edges@.len() - i,
    {
        if edges[i].0 == from && edges[i].1 == to {
            return true;
        }
        i += 1;
    }
    false
}

/// Adds the edges of `extra` between pairs of nodes that have none yet.
pub fn merge_edges(base: &mut Vec<RawEdge>, extra: Vec<RawEdge>)
    ensures
        final(base)@ == merged_edges(old(base)@, extra@),
{
    let ghost start = base@;
    let ghost all = extra@;
    proof {
        assert(all.take(0) =~= Seq::empty());
    }
    for edge in it: extra
        invariant
            it.seq() == all,
            base@ == merged_edges(start, all.take(it.index())),
    {
        let ghost k = it.index();
        proof {
            assert(all.take(k + 1).drop_last() =~= all.take(k));
            assert(all.take(k + 1).last() == all[k]);
        }
        if !find_pair(base, edge.0, edge.1) {
            base.push(edge);
        }
    }
    proof {
        assert(all.take(all.len() as int) =~= all);
    }
}

/// What comes after a step of reasoning.
#[derive(Clone, Copy, PartialEq, Eq, Structural, Debug)]
pub enum HopStep {
    /// The reply is the answer.
    Answer,
    /// The names in the reply are looked up.
    LookUp,
    /// The answer is asked for with the context as it is.
    Generate,
}

/// What comes after a look-up.
#[derive(Clone, Copy, PartialEq, Eq, Structural, Debug)]
pub enum LookUpStep {
    /// Nothing was found: the answer is asked for with the context as it is.
    Generate,
    /// The context is expanded from the nodes that were found.
    Expand,
}

/// A query that reasons in several hops, with the context gathered so far.
pub struct Multihop {
    pub nodes: Vec<NodeInfo>,
    pub edges: Vec<RawEdge>,
    pub hops_used: u8,
    pub max_hops: u8,
}

/// The weights of nodes.
pub open spec fn node_weights(nodes: Seq<NodeInfo>) -> Seq<u32> {
    nodes.map_values(|n: NodeInfo| n.weight)
}

/// `r` holds the nodes by descending weight, at most `top_n`.
pub open spec fn is_heaviest(nodes: Seq<NodeInfo>, top_n: nat, r: Seq<NodeInfo>) -> bool {
    exists|order: Seq<usize>| #[trigger]
        is_descending_order(node_weights(nodes), order) && r == at_most(order, top_n).map_values(
            |p: usize| nodes[p as int],
        )
}

fn keep_heaviest(nodes: &Vec<NodeInfo>, top_n: usize) -> (r: Vec<NodeInfo>)
    ensures
        is_heaviest(nodes@, top_n as nat, r@),
{
    let mut keys: Vec<u32> = Vec::new();
    let mut i: usize = 0;
    while i < nodes.len()
        invariant
            i <= nodes@.len(),
            keys@ == node_weights(nodes@.take(i as int)),
        decreases nodes@.len() - i,
    {
        keys.push(nodes[i].weight);
        proof {
            assert(keys@ =~= node_weights(nodes@.take(i + 1)));
        }
        i += 1;
    }
    proof {
        assert(nodes@.take(i as int) =~= nodes@);
    }
    let mut order = descending_order(&keys);
    let ghost whole = order@;
    if top_n < order.len() {
        order.truncate(top_n);
    }
    let mut r: Vec<NodeInfo> = Vec::new();
    let mut k: usize = 0;
    while k < order.len()
        invariant
            k <= order@.len(),
            forall|q: int| 0 <= q < order@.len() ==> #[trigger] order@[q] < nodes@.len(),
            r@.len() == k,
            forall|q: int| 0 <= q < k ==> #[trigger] r@[q] == nodes@[order@[q] as int],
        decreases order@.len() - k,
    {
        r.push(nodes[order[k]].clone());
        k += 1;
    }
    proof {
        assert(order@ =~= at_most(whole, top_n as nat));
        assert(r@ =~= at_most(whole, top_n as nat).map_values(|p: usize| nodes@[p as int]));
    }
    r
}

impl Multihop {
    /// No more hops were made than are allowed.
    pub open spec fn wf(&self) -> bool {
        self.hops_used <= self.max_hops
    }

    pub fn new(nodes: Vec<NodeInfo>, edges: Vec<RawEdge>, max_hops: u8) -> (r: Self)
        ensures
            r.wf(),
            r.nodes == nodes,
            r.edges == edges,
            r.hops_used == 0,
            r.max_hops == max_hops,
    {
        Multihop { nodes, edges, hops_used: 0, max_hops }
    }

    /// What follows on a reply: it is the answer where it says so. Otherwise the names in it are
    /// looked up, unless there are none or all hops are used.
    pub open spec fn step_after(&self, reply: &ReasonResponse) -> HopStep {
        if reply.done {
            HopStep::Answer
        } else if reply.follow_ups@.len() == 0 || self.hops_used >= self.max_hops {
            HopStep::Generate
        } else {
            HopStep::LookUp
        }
    }

    /// Decides on the reply to a step of reasoning. A look-up uses one hop.
    pub fn after_reason(&mut self, reply: &ReasonResponse) -> (r: HopStep)
        requires
            old(self).wf(),
        ensures
            final(self).wf(),
            final(self).nodes == old(self).nodes,
            final(self).edges == old(self).edges,
            final(self).max_hops == old(self).max_hops,
            r == old(self).step_after(reply),
            final(self).hops_used == (if r == HopStep::LookUp {
                old(self).hops_used + 1
            } else {
                old(self).hops_used as int
            }),
    {
        if reply.done {
            HopStep::Answer
        } else if reply.follow_ups.is_empty() || self.hops_used >= self.max_hops {
            HopStep::Generate
        } else {
            self.hops_used = self.hops_used + 1;
            HopStep::LookUp
        }
    }

    /// Decides on the nodes that were found.
    pub fn after_look_up(&self, found: &Vec<u32>) -> (r: LookUpStep)
        ensures
            r == (if found@.len() == 0 {
                LookUpStep::Generate
            } else {
                LookUpStep::Expand
            }),
    {
        if found.is_empty() {
            LookUpStep::Generate
        } else {
            LookUpStep::Expand
        }
    }

    /// Adds to the context, and keeps the heaviest nodes of it.
    pub fn expand(&mut self, nodes: Vec<NodeInfo>, edges: Vec<RawEdge>, top_n: usize)
        ensures
            is_heaviest(
                merged_context(old(self).nodes@, nodes@),
                top_n as nat,
                final(self).nodes@,
            ),
            final(self).edges@ == merged_edges(old(self).edges@, edges@),
            final(self).hops_used == old(self).hops_used,
            final(self).max_hops == old(self).max_hops,
    {
        merge_context(&mut self.nodes, nodes);
        merge_edges(&mut self.edges, edges);
        self.nodes = keep_heaviest(&self.nodes, top_n);
    }

    /// The result: the context without similarities or hops. `elapsed_ms` is the time when the
    /// answer was there; what neither embedding nor search took of it went to the LLM.
    pub fn finish(
        self,
        answer: String,
        elapsed_ms: u64,
        total_ms: u64,
        embed_ms: u64,
        search_ms: u64,
    ) -> (r: QueryResult)
        requires
            embed_ms + search_ms <= elapsed_ms,
        ensures
            r.answer == answer,
            r.subgraph.nodes@.len() == self.nodes@.len(),
            forall|i: int|
                0 <= i < self.nodes@.len() ==> is_gathered(
                    #[trigger] r.subgraph.nodes@[i],
                    self.nodes@[i],
                ),
            subgraph_edge_views(r.subgraph.edges@) == context_edges(self.nodes@, self.edges@),
            r.stats == (QueryStats {
                seed_nodes: 0,
                subgraph_nodes: r.stats.subgraph_nodes,
                context_nodes: r.stats.context_nodes,
                total_ms,
                embed_ms,
                search_ms,
                bfs_ms: 0,
                score_ms: 0,
                llm_ms: (elapsed_ms - embed_ms - search_ms) as u64,
                cache_hit: false,
            }),
            r.stats.subgraph_nodes == self.nodes@.len(),
            r.stats.context_nodes == self.nodes@.len(),
    {
        let edges = subgraph_edges(&self.nodes, &self.edges);
        let mut nodes: Vec<ScoredNode> = Vec::new();
        let mut i: usize = 0;
        while i < self.nodes.len()
            invariant
                i <= self.nodes@.len(),
                nodes@.len() == i,
                forall|j: int| 0 <= j < i ==> is_gathered(#[trigger] nodes@[j], self.nodes@[j]),
            decreases self.nodes@.len() - i,
        {
            let n = &self.nodes[i];
            nodes.push(
                ScoredNode {
                    id: n.id,
                    name: n.name.clone(),
                    node_type: n.node_type.clone(),
                    props: n.props.clone(),
                    full_context: n.full_context.clone(),
                    score: n.weight,
                    vector_sim: 0,
                    hop: 0,
                    is_seed: false,
                },
            );
            i += 1;
        }
        let count: usize = self.nodes.len();
        QueryResult {
            answer,
            subgraph: Subgraph { nodes, edges },
            stats: QueryStats {
                seed_nodes: 0,
                subgraph_nodes: count,
                context_nodes: count,
                total_ms,
                embed_ms,
                search_ms,
                bfs_ms: 0,
                score_ms: 0,
                llm_ms: elapsed_ms - embed_ms - search_ms,
                cache_hit: false,
            },
        }
    }
}

/// A node of the result of a query in several hops.
pub open spec fn is_gathered(n: ScoredNode, node: NodeInfo) -> bool {
    &&& n.id == node.id
    &&& n.name == node.name
    &&& n.node_type == node.node_type
    &&& n.props == node.props
    &&& n.full_context == node.full_context
    &&& n.score == node.weight
    &&& n.vector_sim == 0
    &&& n.hop == 0
    &&& !n.is_seed
}

/// A merged context keeps what was there, in its place, has every id of both, and none twice.
pub proof fn law_merged_context_has_each_node_once(base: Seq<NodeInfo>, extra: Seq<NodeInfo>)
    requires
        forall|i: int, j: int|
            0 <= i < j < base.len() ==> (#[trigger] base[i]).id != (#[trigger] base[j]).id,
    ensures
        base.is_prefix_of(merged_context(base, extra)),
        forall|i: int, j: int|
            0 <= i < j < merged_context(base, extra).len() ==> (#[trigger] merged_context(
                base,
                extra,
            )[i]).id != (#[trigger] merged_context(base, extra)[j]).id,
        forall|i: int|
            0 <= i < extra.len() ==> has_id(merged_context(base, extra), (#[trigger] extra[i]).id),
    decreases extra.len(),
{
    if extra.len() > 0 {
        let before = merged_context(base, extra.drop_last());
        let r = merged_context(base, extra);
        law_merged_context_has_each_node_once(base, extra.drop_last());
        if has_id(before, extra.last().id) {
        } else {
            lemma_has_id_push(before, extra.last());
            assert forall|i: int, j: int| 0 <= i < j < r.len() implies (#[trigger] r[i]).id != (
            #[trigger] r[j]).id by {
                assert(r[i] == before[i]);
                if j < before.len() {
                    assert(r[j] == before[j]);
                } else {
                    assert(before[i].id != extra.last().id);
                }
            }
        }
        assert forall|i: int| 0 <= i < extra.len() implies has_id(r, (#[trigger] extra[i]).id) by {
            if i < extra.len() - 1 {
                assert(extra.drop_last()[i] == extra[i]);
                assert(has_id(before, extra[i].id));
            }
        }
    }
}

/// Once all hops are used, no reply leads to another one: it is the answer, or the answer is asked
/// for with what was gathered.
pub proof fn law_last_hop_answers(query: &Multihop, reply: &ReasonResponse)
    requires
        query.wf(),
        query.hops_used == query.max_hops,
    ensures
        query.step_after(reply) == (if reply.done {
            HopStep::Answer
        } else {
            HopStep::Generate
        }),
{
}

// ── names to look up ─────────────────────────────────────────────────────────

/// One of two names contains the other, whatever the case of their letters.
pub open spec fn names_overlap(a: Seq<char>, b: Seq<char>) -> bool {
    has_substring(lowercase(b), lowercase(a)) || has_substring(lowercase(a), lowercase(b))
}

/// Whether one of two names, already in lower case, contains the other.
pub fn lower_names_overlap(a: &str, b: &str) -> (r: bool)
    ensures
        r == (has_substring(b@, a@) || has_substring(a@, b@)),
{
    contains(b, a) || contains(a, b)
}

/// The first of the hits, at most five of them, whose name overlaps with `name`.
pub open spec fn name_hit(name: Seq<char>, nodes: Seq<NodeInfo>, hits: Seq<u32>) -> Option<u32>
    decreases hits.len(),
{
    if hits.len() == 0 {
        None
    } else {
        let id = hits[0];
        if id < nodes.len() && names_overlap(name, nodes[id as int].name@) {
            Some(id)
        } else {
            name_hit(name, nodes, hits.skip(1))
        }
    }
}

fn find_name_hit(name: &str, graph: &CsrGraph, hits: &Vec<u32>, count: usize) -> (r: Option<u32>)
    requires
        count <= hits@.len(),
    ensures
        r == name_hit(name@, graph.nodes@, hits@.take(count as int)),
{
    let lower = to_lower(name);
    let ghost all = hits@.take(count as int);
    let mut i: usize = 0;
    proof {
        assert(all.skip(0) =~= all);
    }
    while i < count
        invariant
            i <= count <= hits@.len(),
            all == hits@.take(count as int),
            lower@ == lowercase(name@),
            name_hit(name@, graph.nodes@, all.skip(i as int)) == name_hit(
                name@,
                graph.nodes@,
                all,
            ),
        decreases count - i,
    {
        let id: u32 = hits[i];
        proof {
            assert(all.skip(i as int)[0] == id);
            assert(all.skip(i as int).skip(1) =~= all.skip(i + 1));
        }
        if (id as usize) < graph.nodes.len() {
            let other = to_lower(graph.nodes[id as usize].name.as_str());
            if lower_names_overlap(lower.as_str(), other.as_str()) {
                return Some(id);
            }
        }
        i += 1;
    }
    None
}

/// The nodes that names were found to mean, in order of first occurrence.
pub open spec fn named_nodes(
    names: Seq<String>,
    nodes: Seq<NodeInfo>,
    hits: Seq<Vec<u32>>,
    k: nat,
) -> Seq<u32>
    decreases names.len(),
{
    if names.len() == 0 {
        Seq::empty()
    } else {
        let before = named_nodes(names.drop_last(), nodes, hits, k);
        let i = names.len() - 1;
        if i < hits.len() {
            match name_hit(names[i]@, nodes, at_most(hits[i]@, k)) {
                Some(id) => if before.contains(id) {
                    before
                } else {
                    before.push(id)
                },
                None => before,
            }
        } else {
            before
        }
    }
}

/// How many hits of a name are looked at: `k`, and at most five.
pub open spec fn hits_looked_at(k: nat) -> nat {
    if k < 5 {
        k
    } else {
        5
    }
}

/// Picks for each name the first near node whose name overlaps with it. `hits` are the nodes near
/// each name, the nearest first.
pub fn resolve_entity_names(
    names: &Vec<String>,
    hits: &Vec<Vec<u32>>,
    k: usize,
    graph: &CsrGraph,
) -> (r: Vec<u32>)
    ensures
        r@ == named_nodes(names@, graph.nodes@, hits@, hits_looked_at(k as nat)),
{
    let limit: usize = if k < 5 {
        k
    } else {
        5
    };
    let mut found: Vec<u32> = Vec::new();
    let mut seen: HashSet<u32> = HashSet::new();
    let mut i: usize = 0;
    proof {
        assert(found@ =~= named_nodes(names@.take(0), graph.nodes@, hits@, limit as nat));
    }
    while i < names.len()
        invariant
            i <= names@.len(),
            limit == hits_looked_at(k as nat),
            found@ == named_nodes(names@.take(i as int), graph.nodes@, hits@, limit as nat),
            forall|x: u32| seen@.contains(x) <==> #[trigger] found@.contains(x),
        decreases names@.len() - i,
    {
        proof {
            assert(names@.take(i + 1).drop_last() =~= names@.take(i as int));
        }
        if i < hits.len() {
            let near = &hits[i];
            let count: usize = if limit < near.len() {
                limit
            } else {
                near.len()
            };
            proof {
                assert(near@.take(count as int) =~= at_most(near@, limit as nat));
            }
            match find_name_hit(names[i].as_str(), graph, near, count) {
                Some(id) => {
                    let ghost before = found@;
                    if seen.insert(id) {
                        found.push(id);
                        proof {
                            assert forall|x: u32| seen@.contains(x) <==> #[trigger] found@.contains(
                                x,
                            ) by {
                                if before.contains(x) {
                                    let j = before.index_of(x);
                                    assert(found@[j] == x);
                                }
                                assert(found@[before.len() as int] == id);
                            }
                        }
                    }
                },
                None => {},
            }
        }
        i += 1;
    }
    proof {
        assert(names@.take(i as int) =~= names@);
    }
    found
}

// ── new nodes in queries ─────────────────────────────────────────────────────

/// The id of the node at a place of the graph and the delta together: behind the `base` nodes of
/// the graph stand the new nodes, which keep the ids they were given.
pub open spec fn id_at(new_nodes: Seq<NodeInfo>, base: int, place: u32) -> u32 {
    if base <= place < base + new_nodes.len() {
        new_nodes[place - base].id
    } else {
        place
    }
}

/// The place of the node with this id.
pub open spec fn place_of(new_nodes: Seq<NodeInfo>, base: int, id: u32) -> Option<u32> {
    if id < base {
        Some(id)
    } else {
        match new_place(new_nodes, id) {
            Some(j) => Some((base + j) as u32),
            None => None,
        }
    }
}

/// The place of the first new node with this id.
pub open spec fn new_place(new_nodes: Seq<NodeInfo>, id: u32) -> Option<int>
    decreases new_nodes.len(),
{
    if new_nodes.len() == 0 {
        None
    } else {
        match new_place(new_nodes.drop_last(), id) {
            Some(j) => Some(j),
            None => if new_nodes.last().id == id {
                Some(new_nodes.len() - 1)
            } else {
                None
            },
        }
    }
}

proof fn lemma_new_place(new_nodes: Seq<NodeInfo>, id: u32)
    ensures
        match new_place(new_nodes, id) {
            Some(j) => 0 <= j < new_nodes.len() && new_nodes[j].id == id,
            None => !has_id(new_nodes, id),
        },
    decreases new_nodes.len(),
{
    if new_nodes.len() > 0 {
        let rest = new_nodes.drop_last();
        lemma_new_place(rest, id);
        if has_id(new_nodes, id) {
            let j = choose|j: int| 0 <= j < new_nodes.len() && (#[trigger] new_nodes[j]).id == id;
            if j < rest.len() {
                assert(rest[j].id == id);
            }
        }
    }
}

proof fn lemma_new_place_prefix(new_nodes: Seq<NodeInfo>, id: u32, k: int)
    requires
        0 <= k <= new_nodes.len(),
        new_place(new_nodes.take(k), id) is Some,
    ensures
        new_place(new_nodes, id) == new_place(new_nodes.take(k), id),
    decreases new_nodes.len(),
{
    if k < new_nodes.len() {
        assert(new_nodes.drop_last().take(k) =~= new_nodes.take(k));
        lemma_new_place_prefix(new_nodes.drop_last(), id, k);
    } else {
        assert(new_nodes.take(k) =~= new_nodes);
    }
}

/// The place of the node with this id, in the graph of `base` nodes and the delta together.
pub fn find_place(new_nodes: &Vec<NodeInfo>, base: usize, id: u32) -> (r: Option<u32>)
    requires
        base + new_nodes@.len() < u32::MAX,
    ensures
        r == place_of(new_nodes@, base as int, id),
{
    if (id as usize) < base {
        return Some(id);
    }
    let mut i: usize = 0;
    while i < new_nodes.len()
        invariant
            i <= new_nodes@.len(),
            base <= id,
            base + new_nodes@.len() < u32::MAX,
            new_place(new_nodes@.take(i as int), id) is None,
        decreases new_nodes@.len() - i,
    {
        proof {
            assert(new_nodes@.take(i + 1).drop_last() =~= new_nodes@.take(i as int));
            assert(new_nodes@.take(i + 1).last() == new_nodes@[i as int]);
        }
        if new_nodes[i].id == id {
            proof {
                assert(new_place(new_nodes@.take(i + 1), id) == Some(i as int));
                lemma_new_place_prefix(new_nodes@, id, i + 1);
            }
            return Some((base + i) as u32);
        }
        i += 1;
    }
    proof {
        assert(new_nodes@.take(i as int) =~= new_nodes@);
    }
    None
}

/// The node that is found for an id has that id.
pub proof fn law_place_has_its_id(new_nodes: Seq<NodeInfo>, base: int, id: u32)
    requires
        0 <= base,
        base + new_nodes.len() < u32::MAX,
        place_of(new_nodes, base, id) is Some,
    ensures
        id_at(new_nodes, base, place_of(new_nodes, base, id)->0) == id,
{
    lemma_new_place(new_nodes, id);
}

/// Where the embedding of a node stands.
#[derive(Clone, Copy, PartialEq, Eq, Structural, Debug)]
pub enum VectorSource {
    /// Among those of the new nodes.
    New(usize),
    /// In the vector store.
    Stored(u32),
    Missing,
}

/// Where the embedding of the node at a place stands: behind `base` nodes of the graph come
/// `new_vecs` new ones; the store holds `stored` vectors.
pub fn vector_source(place: u32, base: usize, new_vecs: usize, stored: usize) -> (r: VectorSource)
    ensures
        r == (if place >= base && place - base < new_vecs {
            VectorSource::New((place - base) as usize)
        } else if place < base && place < stored {
            VectorSource::Stored(place)
        } else {
            VectorSource::Missing
        }),
{
    let at: usize = place as usize;
    if at >= base {
        if at - base < new_vecs {
            VectorSource::New(at - base)
        } else {
            VectorSource::Missing
        }
    } else if at < stored {
        VectorSource::Stored(place)
    } else {
        VectorSource::Missing
    }
}

/// The new nodes most similar to a query, at most five, with their places and similarities.
pub fn delta_hits(sims: &Vec<u32>, base: usize) -> (r: Vec<(u32, u32)>)
    requires
        base + sims@.len() < u32::MAX,
    ensures
        exists|order: Seq<usize>| #[trigger]
            is_descending_order(sims@, order) && r@ == Seq::new(
                at_most(order, 5).len(),
                |i: int| ((base + order[i]) as u32, sims@[order[i] as int]),
            ),
{
    let hits = brute_search(sims, 5);
    let ghost order = choose|order: Seq<usize>| #[trigger]
        is_descending_order(sims@, order) && hits@ == Seq::new(
            if 5 < order.len() {
                5
            } else {
                order.len()
            },
            |i: int| (order[i] as u32, sims@[order[i] as int]),
        );
    let mut r: Vec<(u32, u32)> = Vec::new();
    let mut i: usize = 0;
    while i < hits.len()
        invariant
            i <= hits@.len() <= order.len(),
            base + sims@.len() < u32::MAX,
            is_descending_order(sims@, order),
            hits@ == Seq::new(
                if 5 < order.len() {
                    5
                } else {
                    order.len()
                },
                |i: int| (order[i] as u32, sims@[order[i] as int]),
            ),
            r@.len() == i,
            forall|j: int|
                0 <= j < i ==> #[trigger] r@[j] == (
                    (base + order[j]) as u32,
                    sims@[order[j] as int],
                ),
        decreases hits@.len() - i,
    {
        proof {
            assert(order[i as int] < sims@.len());
            assert(hits@[i as int].0 == order[i as int] as u32);
        }
        r.push((base as u32 + hits[i].0, hits[i].1));
        i += 1;
    }
    proof {
        assert(r@ =~= Seq::new(
            at_most(order, 5).len(),
            |i: int| ((base + order[i]) as u32, sims@[order[i] as int]),
        ));
    }
    r
}

/// A node of a result with its own id in place of its place.
pub open spec fn with_own_id(n: ScoredNode, new_nodes: Seq<NodeInfo>, base: int) -> ScoredNode {
    ScoredNode { id: id_at(new_nodes, base, n.id), ..n }
}

/// Gives the nodes of a result their own ids in place of their places.
pub fn restore_ids(nodes: &Vec<ScoredNode>, new_nodes: &Vec<NodeInfo>, base: usize) -> (r: Vec<
    ScoredNode,
>)
    requires
        base + new_nodes@.len() < u32::MAX,
    ensures
        r@ == nodes@.map_values(|n: ScoredNode| with_own_id(n, new_nodes@, base as int)),
{
    let mut r: Vec<ScoredNode> = Vec::new();
    let mut i: usize = 0;
    while i < nodes.len()
        invariant
            i <= nodes@.len(),
            base + new_nodes@.len() < u32::MAX,
            r@.len() == i,
            forall|j: int|
                0 <= j < i ==> #[trigger] r@[j] == with_own_id(nodes@[j], new_nodes@, base as int),
        decreases nodes@.len() - i,
    {
        let mut n = nodes[i].clone();
        let place: usize = n.id as usize;
        if base <= place && place - base < new_nodes.len() {
            n.id = new_nodes[place - base].id;
        }
        r.push(n);
        i += 1;
    }
    proof {
        assert(r@ =~= nodes@.map_values(|n: ScoredNode| with_own_id(n, new_nodes@, base as int)));
    }
    r
}

// ── what the steps of a query give ───────────────────────────────────────────

proof fn lemma_seed_distance(seeds: Seq<(u32, u32)>, id: u32)
    ensures
        match seed_distance(seeds, id) {
            Some(d) => exists|k: int|
                0 <= k < seeds.len() && #[trigger] seeds[k] == (id, d) && (forall|m: int|
                    k < m < seeds.len() ==> (#[trigger] seeds[m]).0 != id),
            None => forall|k: int| 0 <= k < seeds.len() ==> (#[trigger] seeds[k]).0 != id,
        },
    decreases seeds.len(),
{
    if seeds.len() > 0 {
        let rest = seeds.drop_last();
        let last = seeds.len() - 1;
        lemma_seed_distance(rest, id);
        if seeds[last].0 == id {
            assert(seeds[last] == (id, seeds[last].1));
        } else {
            match seed_distance(rest, id) {
                Some(d) => {
                    let k = choose|k: int|
                        0 <= k < rest.len() && #[trigger] rest[k] == (id, d) && (forall|m: int|
                            k < m < rest.len() ==> (#[trigger] rest[m]).0 != id);
                    assert(seeds[k] == (id, d));
                    assert forall|m: int| k < m < seeds.len() implies (#[trigger] seeds[m]).0
                        != id by {
                        if m < last {
                            assert(rest[m] == seeds[m]);
                        }
                    }
                },
                None => {
                    assert forall|k: int| 0 <= k < seeds.len() implies (#[trigger] seeds[k]).0
                        != id by {
                        if k < last {
                            assert(rest[k] == seeds[k]);
                        }
                    }
                },
            }
        }
    }
}

/// There is one input for each visit of a node of the graph, in the order of the visits. It holds
/// the hop and the weight of the visit, the importance of the node itself, and for a seed the
/// distance that was last given for it.
pub proof fn law_inputs_are_of_the_visited_nodes(
    nodes: Seq<NodeInfo>,
    visits: Seq<Visit>,
    seeds: Seq<(u32, u32)>,
)
    ensures
        score_inputs(nodes, visits, seeds).map_values(
            |input: ScoreInput| (input.place, input.hop, input.path_weight),
        ) == visits.filter(|v: Visit| v.0 < nodes.len()),
        forall|i: int|
            0 <= i < score_inputs(nodes, visits, seeds).len() ==> {
                let input = #[trigger] score_inputs(nodes, visits, seeds)[i];
                &&& input.place < nodes.len()
                &&& input.node_weight == nodes[input.place as int].weight
                &&& match input.seed_distance {
                    Some(d) => exists|k: int|
                        0 <= k < seeds.len() && #[trigger] seeds[k] == (input.place, d) && (forall|
                            m: int,
                        |
                            k < m < seeds.len() ==> (#[trigger] seeds[m]).0 != input.place),
                    None => forall|k: int|
                        0 <= k < seeds.len() ==> (#[trigger] seeds[k]).0 != input.place,
                }
            },
    decreases visits.len(),
{
    reveal(Seq::filter);
    let of_visit = |input: ScoreInput| (input.place, input.hop, input.path_weight);
    let known = |v: Visit| v.0 < nodes.len();
    let inputs = score_inputs(nodes, visits, seeds);
    if visits.len() == 0 {
        assert(inputs.map_values(of_visit) =~= visits.filter(known));
    } else {
        let rest = visits.drop_last();
        let before = score_inputs(nodes, rest, seeds);
        law_inputs_are_of_the_visited_nodes(nodes, rest, seeds);
        lemma_seed_distance(seeds, visits.last().0);
        assert(before.map_values(of_visit) == rest.filter(known));
        if known(visits.last()) {
            assert(inputs.map_values(of_visit) =~= before.map_values(of_visit).push(visits.last()));
        }
        assert(inputs.map_values(of_visit) =~= visits.filter(known));
        assert forall|i: int| 0 <= i < inputs.len() implies {
            let input = #[trigger] inputs[i];
            &&& input.place < nodes.len()
            &&& input.node_weight == nodes[input.place as int].weight
            &&& match input.seed_distance {
                Some(d) => exists|k: int|
                    0 <= k < seeds.len() && #[trigger] seeds[k] == (input.place, d) && (forall|
                        m: int,
                    |
                        k < m < seeds.len() ==> (#[trigger] seeds[m]).0 != input.place),
                None => forall|k: int|
                    0 <= k < seeds.len() ==> (#[trigger] seeds[k]).0 != input.place,
            }
        } by {
            if i < before.len() {
                assert(inputs[i] == before[i]);
            }
        }
    }
}

/// A context holds scored nodes, none of them twice, the higher scores first and equal ones in the
/// order in which they were given. Where a positive least score is asked for, every score reaches
/// it; there are at most `top_n` nodes, and a node is only left out for a score below the least one
/// or for `top_n` nodes before it.
pub proof fn law_context_is_the_head_of_the_ranking(
    nodes: Seq<ScoredNode>,
    min_score: u32,
    top_n: nat,
    r: Seq<ScoredNode>,
) -> (places: Seq<int>)
    requires
        nodes.len() <= usize::MAX,
        is_context(nodes, min_score, top_n, r),
    ensures
        places.len() == r.len() <= top_n,
        forall|i: int|
            0 <= i < r.len() ==> 0 <= #[trigger] places[i] < nodes.len() && r[i]
                == nodes[places[i]],
        forall|i: int|
            0 <= i < r.len() && f32_less(0, min_score) ==> f32_at_least(
                (#[trigger] r[i]).score,
                min_score,
            ),
        forall|i: int, j: int|
            0 <= i < j < r.len() ==> {
                let (a, b) = (#[trigger] places[i], #[trigger] places[j]);
                ||| f32_rank(nodes[a].score) > f32_rank(nodes[b].score)
                ||| f32_rank(nodes[a].score) == f32_rank(nodes[b].score) && a < b
            },
        forall|p: int|
            0 <= p < nodes.len() && !(#[trigger] places.contains(p)) && (f32_less(0, min_score)
                ==> f32_at_least(nodes[p].score, min_score)) ==> r.len() == top_n && forall|i: int|
                0 <= i < r.len() ==> f32_rank((#[trigger] r[i]).score) > f32_rank(nodes[p].score)
                    || f32_rank(r[i].score) == f32_rank(nodes[p].score) && places[i] < p,
{
    let order = choose|order: Seq<usize>|
        is_descending_order(scores(nodes), order) && r == (#[trigger] context_places(
            nodes,
            order,
            min_score,
            top_n,
        )).map_values(|p: usize| nodes[p as int]);
    let pred = sufficing(nodes, min_score);
    let kept = order.filter(pred);
    let picked = context_places(nodes, order, min_score, top_n);
    let places = picked.map_values(|p: usize| p as int);
    lemma_filter_keeps(order, pred);
    lemma_filter_order(scores(nodes), order, pred);
    assert forall|i: int| 0 <= i < r.len() implies 0 <= #[trigger] places[i] < nodes.len() && r[i]
        == nodes[places[i]] && pred(picked[i]) && picked[i] == kept[i] by {
        assert(picked[i] == kept[i]);
        let at = order.index_of(kept[i]);
        assert(order[at] < scores(nodes).len());
    }
    assert forall|i: int| 0 <= i < r.len() && f32_less(0, min_score) implies f32_at_least(
        (#[trigger] r[i]).score,
        min_score,
    ) by {
        assert(0 <= places[i] < nodes.len());
    }
    assert forall|i: int, j: int| 0 <= i < j < r.len() implies {
        let (a, b) = (#[trigger] places[i], #[trigger] places[j]);
        ||| f32_rank(nodes[a].score) > f32_rank(nodes[b].score)
        ||| f32_rank(nodes[a].score) == f32_rank(nodes[b].score) && a < b
    } by {
        assert(ranks_before(scores(nodes), kept[i] as int, kept[j] as int));
    }
    assert forall|p: int|
        0 <= p < nodes.len() && !(#[trigger] places.contains(p)) && (f32_less(0, min_score)
            ==> f32_at_least(nodes[p].score, min_score)) implies r.len() == top_n && forall|i: int|
        0 <= i < r.len() ==> f32_rank((#[trigger] r[i]).score) > f32_rank(nodes[p].score)
            || f32_rank(r[i].score) == f32_rank(nodes[p].score) && places[i] < p by {
        assert(order.contains(p as usize));
        let q = order.index_of(p as usize);
        assert(pred(order[q]));
        lemma_filter_finds(order, pred, q);
        let k = kept.index_of(p as usize);
        assert(kept[k] == p as usize);
        if k < picked.len() {
            assert(places[k] == p);
        }
        assert forall|i: int| 0 <= i < r.len() implies f32_rank((#[trigger] r[i]).score) > f32_rank(
            nodes[p].score,
        ) || f32_rank(r[i].score) == f32_rank(nodes[p].score) && places[i] < p by {
            assert(0 <= places[i] < nodes.len());
            assert(ranks_before(scores(nodes), kept[i] as int, kept[k] as int));
        }
    }
    places
}

/// Each node of a context is a node of the graph that was visited, shown with its own id, name,
/// type, properties and text, with the hop of the visit and the score that was computed for it. It
/// counts as a seed where the search had found it.
pub proof fn law_context_shows_nodes_of_the_graph(
    nodes: Seq<NodeInfo>,
    visits: Seq<Visit>,
    hits: Seq<(u32, u32)>,
    values: Seq<(u32, u32)>,
    scored: Seq<ScoredNode>,
    min_score: u32,
    top_n: nat,
    r: Seq<ScoredNode>,
    i: int,
) -> (k: int)
    requires
        scored.len() <= usize::MAX,
        scored.len() == score_inputs(nodes, visits, hits).len(),
        values.len() == scored.len(),
        forall|j: int|
            0 <= j < scored.len() ==> is_scored(
                #[trigger] scored[j],
                nodes[score_inputs(nodes, visits, hits)[j].place as int],
                score_inputs(nodes, visits, hits)[j],
                values[j],
            ),
        is_context(scored, min_score, top_n, r),
        0 <= i < r.len(),
    ensures
        ({
            let (place, hop, _) = visits.filter(|v: Visit| v.0 < nodes.len())[k];
            let node = nodes[place as int];
            &&& 0 <= k < values.len() == visits.filter(|v: Visit| v.0 < nodes.len()).len()
            &&& place < nodes.len()
            &&& r[i].id == node.id
            &&& r[i].name@ == node.name@
            &&& r[i].node_type@ == node.node_type@
            &&& r[i].props == node.props
            &&& r[i].full_context@ == node.full_context@
            &&& r[i].vector_sim == values[k].0
            &&& r[i].score == values[k].1
            &&& r[i].hop == hop
            &&& r[i].is_seed <==> exists|m: int|
                0 <= m < hits.len() && (#[trigger] hits[m]).0 == place
        }),
{
    let inputs = score_inputs(nodes, visits, hits);
    let of_visit = |input: ScoreInput| (input.place, input.hop, input.path_weight);
    let places = law_context_is_the_head_of_the_ranking(scored, min_score, top_n, r);
    law_inputs_are_of_the_visited_nodes(nodes, visits, hits);
    let k = places[i];
    assert(r[i] == scored[k]);
    assert(inputs.map_values(of_visit)[k] == of_visit(inputs[k]));
    assert(inputs[k].place < nodes.len());
    assert(is_scored(scored[k], nodes[inputs[k].place as int], inputs[k], values[k]));
    match inputs[k].seed_distance {
        Some(d) => {
            let m = choose|m: int|
                0 <= m < hits.len() && #[trigger] hits[m] == (inputs[k].place, d) && (forall|n: int|
                    m < n < hits.len() ==> (#[trigger] hits[n]).0 != inputs[k].place);
            assert(hits[m].0 == inputs[k].place);
        },
        None => {},
    }
    k
}

/// The seeds of an expansion are the nodes that were found and the ends of the edges that were
/// found, each once: first the nodes in the order of their hits, then the ends, the start of an
/// edge before its end. A seed stands where it first occurs.
pub proof fn law_seeds_are_the_hits(nodes: Seq<(u32, u32)>, edges: Seq<(u32, u32, u32)>)
    ensures
        ({
            let seeds = first_occurrences(hit_ids(nodes) + hit_ends(edges));
            &&& forall|i: int, j: int|
                0 <= i < j < seeds.len() ==> #[trigger] seeds[i] != #[trigger] seeds[j]
            &&& forall|i: int| 0 <= i < nodes.len() ==> seeds.contains((#[trigger] nodes[i]).0)
            &&& forall|i: int|
                0 <= i < edges.len() ==> seeds.contains((#[trigger] edges[i]).0)
                    && seeds.contains(edges[i].1)
            &&& forall|i: int|
                0 <= i < seeds.len() ==> (exists|j: int|
                    0 <= j < nodes.len() && (#[trigger] nodes[j]).0 == #[trigger] seeds[i]) || (
                exists|j: int|
                    0 <= j < edges.len() && ((#[trigger] edges[j]).0 == seeds[i] || edges[j].1
                        == seeds[i]))
            &&& nodes.len() > 0 ==> seeds[0] == nodes[0].0
            &&& nodes.len() == 0 && edges.len() > 0 ==> seeds[0] == edges[0].0
        }),
{
    let ids = hit_ids(nodes);
    let ends = hit_ends(edges);
    let list = ids + ends;
    let seeds = first_occurrences(list);
    lemma_first_occurrences(list);
    lemma_hit_ends(edges);
    assert forall|i: int| 0 <= i < nodes.len() implies seeds.contains((#[trigger] nodes[i]).0) by {
        assert(list[i] == nodes[i].0);
    }
    assert forall|i: int| 0 <= i < edges.len() implies seeds.contains((#[trigger] edges[i]).0)
        && seeds.contains(edges[i].1) by {
        assert(ends[2 * i] == edges[i].0 && ends[2 * i + 1] == edges[i].1);
        assert(list[ids.len() + 2 * i] == edges[i].0);
        assert(list[ids.len() + 2 * i + 1] == edges[i].1);
    }
    assert forall|i: int| 0 <= i < seeds.len() implies (exists|j: int|
        0 <= j < nodes.len() && (#[trigger] nodes[j]).0 == #[trigger] seeds[i]) || (exists|j: int|
        0 <= j < edges.len() && ((#[trigger] edges[j]).0 == seeds[i] || edges[j].1 == seeds[i])) by {
        assert(list.contains(seeds[i]));
        let q = list.index_of(seeds[i]);
        if q < ids.len() {
            assert(nodes[q].0 == seeds[i]);
        } else {
            let at = q - ids.len();
            assert(ends[at] == seeds[i]);
            let j = at / 2;
            assert(ends[2 * j] == edges[j].0 && ends[2 * j + 1] == edges[j].1);
            assert(edges[j].0 == seeds[i] || edges[j].1 == seeds[i]);
        }
    }
    if nodes.len() > 0 {
        assert(list[0] == nodes[0].0);
    } else if edges.len() > 0 {
        assert(ends[2 * 0int] == edges[0].0);
        assert(list[0] == edges[0].0);
    }
}

proof fn lemma_hit_ends(edges: Seq<(u32, u32, u32)>)
    ensures
        hit_ends(edges).len() == 2 * edges.len(),
        forall|i: int|
            0 <= i < edges.len() ==> hit_ends(edges)[2 * i] == (#[trigger] edges[i]).0 && hit_ends(
                edges,
            )[2 * i + 1] == edges[i].1,
    decreases edges.len(),
{
    if edges.len() > 0 {
        lemma_hit_ends(edges.drop_last());
        assert forall|i: int| 0 <= i < edges.len() implies hit_ends(edges)[2 * i] == (
        #[trigger] edges[i]).0 && hit_ends(edges)[2 * i + 1] == edges[i].1 by {
            if i < edges.len() - 1 {
                assert(edges.drop_last()[i] == edges[i]);
            }
        }
    }
}

pub proof fn lemma_first_occurrences(list: Seq<u32>)
    ensures
        ({
            let r = first_occurrences(list);
            &&& forall|i: int, j: int| 0 <= i < j < r.len() ==> #[trigger] r[i] != #[trigger] r[j]
            &&& forall|i: int| 0 <= i < list.len() ==> r.contains(#[trigger] list[i])
            &&& forall|i: int| 0 <= i < r.len() ==> list.contains(#[trigger] r[i])
            &&& list.len() > 0 ==> r.len() > 0 && r[0] == list[0]
        }),
    decreases list.len(),
{
    if list.len() > 0 {
        let rest = list.drop_last();
        let before = first_occurrences(rest);
        let r = first_occurrences(list);
        lemma_first_occurrences(rest);
        assert(list[list.len() - 1] == list.last());
        assert forall|i: int| 0 <= i < list.len() implies r.contains(#[trigger] list[i]) by {
            if i < rest.len() {
                assert(rest[i] == list[i]);
                let j = before.index_of(list[i]);
                assert(r[j] == list[i]);
            } else if !before.contains(list.last()) {
                assert(r[before.len() as int] == list.last());
            }
        }
        assert forall|i: int| 0 <= i < r.len() implies list.contains(#[trigger] r[i]) by {
            if i < before.len() {
                assert(before[i] == r[i]);
                let j = rest.index_of(r[i]);
                assert(list[j] == r[i]);
            }
        }
        assert forall|i: int, j: int| 0 <= i < j < r.len() implies #[trigger] r[i]
            != #[trigger] r[j] by {
            assert(r[i] == before[i]);
            if j < before.len() {
                assert(r[j] == before[j]);
            }
        }
        if rest.len() > 0 {
            assert(list[0] == rest[0]);
            assert(r[0] == before[0]);
        } else {
            assert(before =~= Seq::empty());
        }
    }
}

/// The context that the LLM is shown says of each node what the node says of itself; its score
/// stands for its weight.
pub proof fn law_shown_nodes_are_the_context(nodes: Seq<ScoredNode>, infos: Seq<NodeInfo>, i: int)
    requires
        node_views(infos) == nodes.map_values(|n: ScoredNode| context_info(n)),
        0 <= i < nodes.len(),
    ensures
        infos.len() == nodes.len(),
        infos[i].id == nodes[i].id,
        infos[i].name@ == nodes[i].name@,
        infos[i].node_type@ == nodes[i].node_type@,
        json_tree(infos[i].props) == json_tree(nodes[i].props),
        infos[i].full_context@ == nodes[i].full_context@,
        infos[i].weight == nodes[i].score,
{
    assert(node_views(infos).len() == infos.len());
    assert(node_views(infos)[i] == infos[i]@);
    assert(nodes.map_values(|n: ScoredNode| context_info(n))[i] == context_info(nodes[i]));
}

/// The edges of a context run between nodes of the context. Each is an edge of the graph, no edge
/// between the same two nodes is heavier, and every two nodes that an edge joins have one.
pub proof fn law_context_has_its_edges(
    g: &CsrGraph,
    nodes: Seq<ScoredNode>,
    edges: Seq<RawEdge>,
)
    requires
        is_edges_between(g, id_set(nodes), edges),
    ensures
        forall|i: int|
            0 <= i < edges.len() ==> {
                let e = #[trigger] edges[i];
                &&& exists|j: int| 0 <= j < nodes.len() && (#[trigger] nodes[j]).id == e.0
                &&& exists|j: int| 0 <= j < nodes.len() && (#[trigger] nodes[j]).id == e.1
                &&& exists|k: int|
                    0 <= k < g.out_edges(e.0 as int).len() && {
                        let own = #[trigger] g.out_edges(e.0 as int)[k];
                        own.to == e.1 && own.weight == e.2 && own.edge_type == e.3
                    }
                &&& (forall|k: int|
                    0 <= k < g.out_edges(e.0 as int).len() ==> !f32_is_nan(
                        (#[trigger] g.out_edges(e.0 as int)[k]).weight,
                    )) ==> forall|k: int|
                    0 <= k < g.out_edges(e.0 as int).len() && (#[trigger] g.out_edges(
                        e.0 as int,
                    )[k]).to == e.1 ==> f32_rank(g.out_edges(e.0 as int)[k].weight) <= f32_rank(e.2)
            },
        forall|i: int, j: int|
            0 <= i < j < edges.len() ==> (#[trigger] edges[i]).0 != (#[trigger] edges[j]).0
                || edges[i].1 != edges[j].1,
        forall|a: int, b: int, k: int|
            0 <= a < nodes.len() && 0 <= b < nodes.len() && 0 <= k < g.out_edges(
                nodes[a].id as int,
            ).len() && (#[trigger] g.out_edges((#[trigger] nodes[a]).id as int)[k]).to == (
            #[trigger] nodes[b]).id ==> exists|i: int|
                0 <= i < edges.len() && (#[trigger] edges[i]).0 == nodes[a].id && edges[i].1
                    == nodes[b].id,
{
    assert forall|i: int| 0 <= i < edges.len() implies {
        let e = #[trigger] edges[i];
        &&& exists|j: int| 0 <= j < nodes.len() && (#[trigger] nodes[j]).id == e.0
        &&& exists|j: int| 0 <= j < nodes.len() && (#[trigger] nodes[j]).id == e.1
        &&& exists|k: int|
            0 <= k < g.out_edges(e.0 as int).len() && {
                let own = #[trigger] g.out_edges(e.0 as int)[k];
                own.to == e.1 && own.weight == e.2 && own.edge_type == e.3
            }
        &&& (forall|k: int|
            0 <= k < g.out_edges(e.0 as int).len() ==> !f32_is_nan(
                (#[trigger] g.out_edges(e.0 as int)[k]).weight,
            )) ==> forall|k: int|
            0 <= k < g.out_edges(e.0 as int).len() && (#[trigger] g.out_edges(e.0 as int)[k]).to
                == e.1 ==> f32_rank(g.out_edges(e.0 as int)[k].weight) <= f32_rank(e.2)
    } by {
        let e = edges[i];
        assert(id_set(nodes).contains(e.0));
        assert(id_set(nodes).contains(e.1));
        law_best_edge_is_heaviest(g.out_edges(e.0 as int), e.1);
        let own = best_edge(g.out_edges(e.0 as int), e.1)->0;
        let k = g.out_edges(e.0 as int).index_of(own);
        assert(g.out_edges(e.0 as int)[k] == own);
    }
    assert forall|a: int, b: int, k: int|
        0 <= a < nodes.len() && 0 <= b < nodes.len() && 0 <= k < g.out_edges(
            nodes[a].id as int,
        ).len() && (#[trigger] g.out_edges((#[trigger] nodes[a]).id as int)[k]).to == (
        #[trigger] nodes[b]).id implies exists|i: int|
        0 <= i < edges.len() && (#[trigger] edges[i]).0 == nodes[a].id && edges[i].1
            == nodes[b].id by {
        let from = nodes[a].id;
        let to = nodes[b].id;
        law_best_edge_is_heaviest(g.out_edges(from as int), to);
        assert(id_set(nodes).contains(from));
        assert(id_set(nodes).contains(to));
        assert(lists_pair(edges, from, to));
    }
}

/// Merged edges keep what was there, in its place. For every edge of `extra` some edge of the
/// result has the same ends. What stands behind the old edges comes from `extra`, runs between two
/// nodes that had no edge before, and is the first edge of `extra` that does.
pub proof fn law_merged_edges_join_every_pair_once(base: Seq<RawEdge>, extra: Seq<RawEdge>)
    ensures
        base.is_prefix_of(merged_edges(base, extra)),
        forall|k: int|
            0 <= k < extra.len() ==> exists|i: int|
                0 <= i < merged_edges(base, extra).len() && (#[trigger] merged_edges(
                    base,
                    extra,
                )[i]).0 == (#[trigger] extra[k]).0 && merged_edges(base, extra)[i].1 == extra[k].1,
        forall|i: int|
            base.len() <= i < merged_edges(base, extra).len() ==> {
                let e = #[trigger] merged_edges(base, extra)[i];
                &&& forall|j: int|
                    0 <= j < base.len() ==> (#[trigger] base[j]).0 != e.0 || base[j].1 != e.1
                &&& exists|k: int|
                    0 <= k < extra.len() && #[trigger] extra[k] == e && (forall|j: int|
                        0 <= j < k ==> (#[trigger] extra[j]).0 != e.0 || extra[j].1 != e.1)
            },
        forall|i: int, j: int|
            base.len() <= i < j < merged_edges(base, extra).len() ==> (#[trigger] merged_edges(
                base,
                extra,
            )[i]).0 != (#[trigger] merged_edges(base, extra)[j]).0 || merged_edges(base, extra)[i].1
                != merged_edges(base, extra)[j].1,
    decreases extra.len(),
{
    if extra.len() > 0 {
        let rest = extra.drop_last();
        let last = extra[extra.len() - 1];
        let before = merged_edges(base, rest);
        let r = merged_edges(base, extra);
        law_merged_edges_join_every_pair_once(base, rest);
        assert forall|k: int| 0 <= k < extra.len() implies exists|i: int|
            0 <= i < r.len() && (#[trigger] r[i]).0 == (#[trigger] extra[k]).0 && r[i].1
                == extra[k].1 by {
            if k < rest.len() {
                assert(rest[k] == extra[k]);
                let i = choose|i: int|
                    0 <= i < before.len() && (#[trigger] before[i]).0 == rest[k].0 && before[i].1
                        == rest[k].1;
                assert(r[i] == before[i]);
            } else if has_pair(before, last.0, last.1) {
                let i = choose|i: int|
                    0 <= i < before.len() && (#[trigger] before[i]).0 == last.0 && before[i].1
                        == last.1;
                assert(r[i] == before[i]);
            } else {
                assert(r[before.len() as int] == last);
            }
        }
        assert forall|i: int| base.len() <= i < r.len() implies {
            let e = #[trigger] r[i];
            &&& forall|j: int|
                0 <= j < base.len() ==> (#[trigger] base[j]).0 != e.0 || base[j].1 != e.1
            &&& exists|k: int|
                0 <= k < extra.len() && #[trigger] extra[k] == e && (forall|j: int|
                    0 <= j < k ==> (#[trigger] extra[j]).0 != e.0 || extra[j].1 != e.1)
        } by {
            let e = r[i];
            if i < before.len() {
                assert(before[i] == e);
                let k = choose|k: int|
                    0 <= k < rest.len() && #[trigger] rest[k] == e && (forall|j: int|
                        0 <= j < k ==> (#[trigger] rest[j]).0 != e.0 || rest[j].1 != e.1);
                assert(extra[k] == e);
                assert forall|j: int| 0 <= j < k implies (#[trigger] extra[j]).0 != e.0
                    || extra[j].1 != e.1 by {
                    assert(rest[j] == extra[j]);
                }
            } else {
                assert(extra[extra.len() - 1] == e);
                assert forall|j: int| 0 <= j < base.len() implies (#[trigger] base[j]).0 != e.0
                    || base[j].1 != e.1 by {
                    assert(before[j] == base[j]);
                }
                assert forall|j: int| 0 <= j < extra.len() - 1 implies (#[trigger] extra[j]).0
                    != e.0 || extra[j].1 != e.1 by {
                    assert(rest[j] == extra[j]);
                    let q = choose|q: int|
                        0 <= q < before.len() && (#[trigger] before[q]).0 == rest[j].0
                            && before[q].1 == rest[j].1;
                    assert(before[q].0 != e.0 || before[q].1 != e.1);
                }
            }
        }
        assert forall|i: int, j: int| base.len() <= i < j < r.len() implies (#[trigger] r[i]).0 != (
        #[trigger] r[j]).0 || r[i].1 != r[j].1 by {
            assert(r[i] == before[i]);
            if j < before.len() {
                assert(r[j] == before[j]);
            }
        }
    }
}

/// A merged context keeps what was there, in its place. Every node of `extra` is there by its id,
/// and what stands behind the old nodes comes from `extra`, has an id that was not there, and is the
/// first node of `extra` with it.
pub proof fn law_merged_context_adds_unknown_nodes(base: Seq<NodeInfo>, extra: Seq<NodeInfo>)
    ensures
        base.is_prefix_of(merged_context(base, extra)),
        forall|k: int|
            0 <= k < extra.len() ==> exists|i: int|
                0 <= i < merged_context(base, extra).len() && (#[trigger] merged_context(
                    base,
                    extra,
                )[i]).id == (#[trigger] extra[k]).id,
        forall|i: int|
            base.len() <= i < merged_context(base, extra).len() ==> {
                let n = #[trigger] merged_context(base, extra)[i];
                &&& forall|j: int| 0 <= j < base.len() ==> (#[trigger] base[j]).id != n.id
                &&& exists|k: int|
                    0 <= k < extra.len() && #[trigger] extra[k] == n && (forall|j: int|
                        0 <= j < k ==> (#[trigger] extra[j]).id != n.id)
            },
        forall|i: int, j: int|
            base.len() <= i < j < merged_context(base, extra).len() ==> (#[trigger] merged_context(
                base,
                extra,
            )[i]).id != (#[trigger] merged_context(base, extra)[j]).id,
    decreases extra.len(),
{
    if extra.len() > 0 {
        let rest = extra.drop_last();
        let last = extra[extra.len() - 1];
        let before = merged_context(base, rest);
        let r = merged_context(base, extra);
        law_merged_context_adds_unknown_nodes(base, rest);
        assert forall|k: int| 0 <= k < extra.len() implies exists|i: int|
            0 <= i < r.len() && (#[trigger] r[i]).id == (#[trigger] extra[k]).id by {
            if k < rest.len() {
                assert(rest[k] == extra[k]);
                let i = choose|i: int|
                    0 <= i < before.len() && (#[trigger] before[i]).id == rest[k].id;
                assert(r[i] == before[i]);
            } else if has_id(before, last.id) {
                let i = choose|i: int|
                    0 <= i < before.len() && (#[trigger] before[i]).id == last.id;
                assert(r[i] == before[i]);
            } else {
                assert(r[before.len() as int] == last);
            }
        }
        assert forall|i: int| base.len() <= i < r.len() implies {
            let n = #[trigger] r[i];
            &&& forall|j: int| 0 <= j < base.len() ==> (#[trigger] base[j]).id != n.id
            &&& exists|k: int|
                0 <= k < extra.len() && #[trigger] extra[k] == n && (forall|j: int|
                    0 <= j < k ==> (#[trigger] extra[j]).id != n.id)
        } by {
            let n = r[i];
            if i < before.len() {
                assert(before[i] == n);
                let k = choose|k: int|
                    0 <= k < rest.len() && #[trigger] rest[k] == n && (forall|j: int|
                        0 <= j < k ==> (#[trigger] rest[j]).id != n.id);
                assert(extra[k] == n);
                assert forall|j: int| 0 <= j < k implies (#[trigger] extra[j]).id != n.id by {
                    assert(rest[j] == extra[j]);
                }
            } else {
                assert(extra[extra.len() - 1] == n);
                assert forall|j: int| 0 <= j < base.len() implies (#[trigger] base[j]).id != n.id by {
                    assert(before[j] == base[j]);
                }
                assert forall|j: int| 0 <= j < extra.len() - 1 implies (#[trigger] extra[j]).id
                    != n.id by {
                    assert(rest[j] == extra[j]);
                    let q = choose|q: int|
                        0 <= q < before.len() && (#[trigger] before[q]).id == rest[j].id;
                    assert(before[q].id != n.id);
                }
            }
        }
        assert forall|i: int, j: int| base.len() <= i < j < r.len() implies (#[trigger] r[i]).id != (
        #[trigger] r[j]).id by {
            assert(r[i] == before[i]);
            if j < before.len() {
                assert(r[j] == before[j]);
            }
        }
    }
}

/// Of a context that was added to, at most `top_n` nodes are kept, none of them twice and the
/// heavier ones first; a node is only left out for `top_n` nodes that are no lighter.
pub proof fn law_kept_nodes_are_the_heaviest(
    nodes: Seq<NodeInfo>,
    top_n: nat,
    r: Seq<NodeInfo>,
) -> (places: Seq<int>)
    requires
        nodes.len() <= usize::MAX,
        is_heaviest(nodes, top_n, r),
    ensures
        places.len() == r.len(),
        r.len() == (if nodes.len() < top_n {
            nodes.len()
        } else {
            top_n
        }),
        forall|i: int|
            0 <= i < r.len() ==> 0 <= #[trigger] places[i] < nodes.len() && r[i]
                == nodes[places[i]],
        forall|i: int, j: int|
            0 <= i < j < r.len() ==> {
                let (a, b) = (#[trigger] places[i], #[trigger] places[j]);
                ||| f32_rank(nodes[a].weight) > f32_rank(nodes[b].weight)
                ||| f32_rank(nodes[a].weight) == f32_rank(nodes[b].weight) && a < b
            },
        forall|p: int, i: int|
            0 <= p < nodes.len() && !(#[trigger] places.contains(p)) && 0 <= i < r.len()
                ==> f32_rank((#[trigger] r[i]).weight) >= f32_rank(nodes[p].weight),
{
    let order = choose|order: Seq<usize>| #[trigger]
        is_descending_order(node_weights(nodes), order) && r == at_most(order, top_n).map_values(
            |p: usize| nodes[p as int],
        );
    let picked = at_most(order, top_n);
    let places = picked.map_values(|p: usize| p as int);
    assert forall|i: int| 0 <= i < r.len() implies 0 <= #[trigger] places[i] < nodes.len() && r[i]
        == nodes[places[i]] && picked[i] == order[i] by {
        assert(order[i] < node_weights(nodes).len());
    }
    assert forall|i: int, j: int| 0 <= i < j < r.len() implies {
        let (a, b) = (#[trigger] places[i], #[trigger] places[j]);
        ||| f32_rank(nodes[a].weight) > f32_rank(nodes[b].weight)
        ||| f32_rank(nodes[a].weight) == f32_rank(nodes[b].weight) && a < b
    } by {
        assert(ranks_before(node_weights(nodes), order[i] as int, order[j] as int));
    }
    assert forall|p: int, i: int|
        0 <= p < nodes.len() && !(#[trigger] places.contains(p)) && 0 <= i < r.len() implies f32_rank(
        (#[trigger] r[i]).weight,
    ) >= f32_rank(nodes[p].weight) by {
        assert(order.contains(p as usize));
        let q = order.index_of(p as usize);
        if q < picked.len() {
            assert(places[q] == p);
        }
        assert(0 <= places[i] < nodes.len());
        assert(ranks_before(node_weights(nodes), order[i] as int, order[q] as int));
    }
    places
}

/// A reply that says so is the answer. Any other reply is followed up exactly where it names
/// something and a hop is left; otherwise the answer is asked for with what was gathered.
pub proof fn law_reply_is_followed_up(query: &Multihop, reply: &ReasonResponse)
    ensures
        query.step_after(reply) == HopStep::Answer <==> reply.done,
        query.step_after(reply) == HopStep::LookUp <==> !reply.done && reply.follow_ups@.len() > 0
            && query.hops_used < query.max_hops,
{
}

proof fn lemma_name_hit(name: Seq<char>, nodes: Seq<NodeInfo>, hits: Seq<u32>)
    ensures
        match name_hit(name, nodes, hits) {
            Some(id) => exists|j: int|
                0 <= j < hits.len() && #[trigger] hits[j] == id && id < nodes.len()
                    && names_overlap(name, nodes[id as int].name@) && (forall|m: int|
                    0 <= m < j && (#[trigger] hits[m]) < nodes.len() ==> !names_overlap(
                        name,
                        nodes[hits[m] as int].name@,
                    )),
            None => forall|m: int|
                0 <= m < hits.len() && (#[trigger] hits[m]) < nodes.len() ==> !names_overlap(
                    name,
                    nodes[hits[m] as int].name@,
                ),
        },
    decreases hits.len(),
{
    if hits.len() > 0 {
        let rest = hits.skip(1);
        lemma_name_hit(name, nodes, rest);
        if hits[0] < nodes.len() && names_overlap(name, nodes[hits[0] as int].name@) {
            assert(hits[0] == name_hit(name, nodes, hits)->0);
        } else {
            match name_hit(name, nodes, rest) {
                Some(id) => {
                    let j = choose|j: int|
                        0 <= j < rest.len() && #[trigger] rest[j] == id && id < nodes.len()
                            && names_overlap(name, nodes[id as int].name@) && (forall|m: int|
                            0 <= m < j && (#[trigger] rest[m]) < nodes.len() ==> !names_overlap(
                                name,
                                nodes[rest[m] as int].name@,
                            ));
                    assert(hits[j + 1] == id);
                    assert forall|m: int|
                        0 <= m < j + 1 && (#[trigger] hits[m]) < nodes.len() implies !names_overlap(
                        name,
                        nodes[hits[m] as int].name@,
                    ) by {
                        if m > 0 {
                            assert(rest[m - 1] == hits[m]);
                        }
                    }
                },
                None => {
                    assert forall|m: int|
                        0 <= m < hits.len() && (#[trigger] hits[m])
                            < nodes.len() implies !names_overlap(
                        name,
                        nodes[hits[m] as int].name@,
                    ) by {
                        if m > 0 {
                            assert(rest[m - 1] == hits[m]);
                        }
                    }
                },
            }
        }
    }
}

/// The node at `id` is meant by the name at `i`: it is the first of the nodes near the name, among
/// the nearest five and at most `k`, of whose name and the name one contains the other in lower
/// case.
pub open spec fn is_meant_by(
    names: Seq<String>,
    nodes: Seq<NodeInfo>,
    hits: Seq<Vec<u32>>,
    k: nat,
    id: u32,
    i: int,
) -> bool {
    let near = |m: int|
        hits[i]@[m] < nodes.len() && {
            let a = lowercase(names[i]@);
            let b = lowercase(nodes[hits[i]@[m] as int].name@);
            has_substring(a, b) || has_substring(b, a)
        };
    exists|j: int|
        0 <= j < hits[i]@.len() && j < k && j < 5 && #[trigger] hits[i]@[j] == id && near(j) && (
        forall|m: int| 0 <= m < j ==> !#[trigger] near(m))
}

/// Every node that is picked for names is meant by one of them, none is picked twice, and a node
/// that is meant by a name is picked.
pub proof fn law_named_nodes_are_meant(
    names: Seq<String>,
    nodes: Seq<NodeInfo>,
    hits: Seq<Vec<u32>>,
    k: nat,
)
    requires
        names.len() == hits.len(),
    ensures
        ({
            let r = named_nodes(names, nodes, hits, hits_looked_at(k));
            &&& forall|i: int, j: int| 0 <= i < j < r.len() ==> #[trigger] r[i] != #[trigger] r[j]
            &&& forall|x: u32|
                #[trigger] r.contains(x) <==> exists|i: int|
                    0 <= i < names.len() && #[trigger] is_meant_by(names, nodes, hits, k, x, i)
        }),
{
    lemma_named_nodes(names, nodes, hits, k, names.len() as int);
    assert(names.take(names.len() as int) =~= names);
}

proof fn lemma_named_nodes(
    names: Seq<String>,
    nodes: Seq<NodeInfo>,
    hits: Seq<Vec<u32>>,
    k: nat,
    count: int,
)
    requires
        names.len() == hits.len(),
        0 <= count <= names.len(),
    ensures
        ({
            let r = named_nodes(names.take(count), nodes, hits, hits_looked_at(k));
            &&& forall|i: int, j: int| 0 <= i < j < r.len() ==> #[trigger] r[i] != #[trigger] r[j]
            &&& forall|x: u32|
                #[trigger] r.contains(x) <==> exists|i: int|
                    0 <= i < count && #[trigger] is_meant_by(names, nodes, hits, k, x, i)
        }),
    decreases count,
{
    let limit = hits_looked_at(k);
    let r = named_nodes(names.take(count), nodes, hits, limit);
    if count > 0 {
        let i = count - 1;
        let before = named_nodes(names.take(i), nodes, hits, limit);
        lemma_named_nodes(names, nodes, hits, k, i);
        assert(names.take(count).drop_last() =~= names.take(i));
        assert(names.take(count)[i] == names[i]);
        let looked = at_most(hits[i]@, limit);
        let found = name_hit(names[i]@, nodes, looked);
        lemma_name_hit(names[i]@, nodes, looked);
        lemma_meant(names, nodes, hits, k, i);
        assert forall|x: u32| #[trigger] r.contains(x) <==> exists|j: int|
            0 <= j < count && #[trigger] is_meant_by(names, nodes, hits, k, x, j) by {
            if r.contains(x) {
                let q = r.index_of(x);
                if before.contains(x) {
                    let j = choose|j: int|
                        0 <= j < i && #[trigger] is_meant_by(names, nodes, hits, k, x, j);
                    assert(is_meant_by(names, nodes, hits, k, x, j));
                } else {
                    if q < before.len() {
                        assert(before[q] == x);
                    }
                    assert(found == Some(x));
                    assert(is_meant_by(names, nodes, hits, k, x, i));
                }
            }
            if exists|j: int| 0 <= j < count && #[trigger] is_meant_by(names, nodes, hits, k, x, j) {
                let j = choose|j: int|
                    0 <= j < count && #[trigger] is_meant_by(names, nodes, hits, k, x, j);
                if j < i {
                    assert(before.contains(x));
                    let q = before.index_of(x);
                    assert(r[q] == x);
                } else {
                    assert(found == Some(x));
                    if before.contains(x) {
                        let q = before.index_of(x);
                        assert(r[q] == x);
                    } else {
                        assert(r[before.len() as int] == x);
                    }
                }
            }
        }
        assert forall|a: int, b: int| 0 <= a < b < r.len() implies #[trigger] r[a]
            != #[trigger] r[b] by {
            assert(r[a] == before[a]);
            if b < before.len() {
                assert(r[b] == before[b]);
            }
        }
    } else {
        assert(names.take(count) =~= Seq::empty());
        assert(r =~= Seq::empty());
    }
}

/// What is found for a name is what is meant by it.
proof fn lemma_meant(
    names: Seq<String>,
    nodes: Seq<NodeInfo>,
    hits: Seq<Vec<u32>>,
    k: nat,
    i: int,
)
    requires
        0 <= i < names.len() == hits.len(),
    ensures
        forall|x: u32|
            name_hit(names[i]@, nodes, at_most(hits[i]@, hits_looked_at(k))) == Some(x)
                <==> #[trigger] is_meant_by(names, nodes, hits, k, x, i),
{
    let near = |m: int|
        hits[i]@[m] < nodes.len() && {
            let a = lowercase(names[i]@);
            let b = lowercase(nodes[hits[i]@[m] as int].name@);
            has_substring(a, b) || has_substring(b, a)
        };
    let looked = at_most(hits[i]@, hits_looked_at(k));
    let found = name_hit(names[i]@, nodes, looked);
    lemma_name_hit(names[i]@, nodes, looked);
    assert forall|m: int| 0 <= m < looked.len() implies hits[i]@[m] == #[trigger] looked[m] && (
    #[trigger] near(m) <==> looked[m] < nodes.len() && names_overlap(
        names[i]@,
        nodes[looked[m] as int].name@,
    )) by {}
    match found {
        Some(id) => {
            let j = choose|j: int|
                0 <= j < looked.len() && #[trigger] looked[j] == id && id < nodes.len()
                    && names_overlap(names[i]@, nodes[id as int].name@) && (forall|m: int|
                    0 <= m < j && (#[trigger] looked[m]) < nodes.len() ==> !names_overlap(
                        names[i]@,
                        nodes[looked[m] as int].name@,
                    ));
            assert(hits[i]@[j] == id);
            assert(near(j));
            assert forall|m: int| 0 <= m < j implies !#[trigger] near(m) by {
                assert(looked[m] == hits[i]@[m]);
            }
            assert(is_meant_by(names, nodes, hits, k, id, i));
        },
        None => {},
    }
    assert forall|x: u32| #[trigger] is_meant_by(names, nodes, hits, k, x, i) implies found == Some(
        x,
    ) by {
        let j = choose|j: int|
            0 <= j < hits[i]@.len() && j < k && j < 5 && #[trigger] hits[i]@[j] == x && near(j) && (
            forall|m: int| 0 <= m < j ==> !#[trigger] near(m));
        assert(looked[j] == x);
        match found {
            Some(id) => {
                let q = choose|q: int|
                    0 <= q < looked.len() && #[trigger] looked[q] == id && id < nodes.len()
                        && names_overlap(names[i]@, nodes[id as int].name@) && (forall|m: int|
                        0 <= m < q && (#[trigger] looked[m]) < nodes.len() ==> !names_overlap(
                            names[i]@,
                            nodes[looked[m] as int].name@,
                        ));
                assert(near(q));
                assert(near(j));
                if q < j {
                    assert(!near(q));
                }
                if j < q {
                    assert(looked[j] < nodes.len());
                }
            },
            None => {
                assert(near(j));
            },
        }
    }
}

/// A node of the graph has its place for its id; a new node that is the first with its id, where no
/// node of the graph has it, is found at its place behind the graph.
pub proof fn law_id_leads_to_its_node(new_nodes: Seq<NodeInfo>, base: int, id: u32, j: int)
    requires
        0 <= base,
        base + new_nodes.len() < u32::MAX,
        0 <= j < new_nodes.len(),
    ensures
        id < base ==> place_of(new_nodes, base, id) == Some(id),
        id < base ==> id_at(new_nodes, base, id) == id,
        id_at(new_nodes, base, (base + j) as u32) == new_nodes[j].id,
        base <= new_nodes[j].id && (forall|m: int|
            0 <= m < j ==> (#[trigger] new_nodes[m]).id != new_nodes[j].id) ==> place_of(
            new_nodes,
            base,
            new_nodes[j].id,
        ) == Some((base + j) as u32),
        base <= id && (forall|m: int|
            0 <= m < new_nodes.len() ==> (#[trigger] new_nodes[m]).id != id) ==> place_of(
            new_nodes,
            base,
            id,
        ) is None,
{
    lemma_new_place(new_nodes, id);
    if forall|m: int| 0 <= m < j ==> (#[trigger] new_nodes[m]).id != new_nodes[j].id {
        let head = new_nodes.take(j + 1);
        assert(head.drop_last() =~= new_nodes.take(j));
        lemma_new_place(new_nodes.take(j), new_nodes[j].id);
        lemma_new_place_prefix(new_nodes, new_nodes[j].id, j + 1);
    }
}

/// Giving the nodes of a result their own ids changes nothing else of them.
pub proof fn law_own_ids_change_only_ids(
    nodes: Seq<ScoredNode>,
    new_nodes: Seq<NodeInfo>,
    base: int,
    r: Seq<ScoredNode>,
    i: int,
)
    requires
        r == nodes.map_values(|n: ScoredNode| with_own_id(n, new_nodes, base)),
        0 <= i < nodes.len(),
    ensures
        r.len() == nodes.len(),
        r[i].name == nodes[i].name,
        r[i].node_type == nodes[i].node_type,
        r[i].props == nodes[i].props,
        r[i].full_context == nodes[i].full_context,
        r[i].score == nodes[i].score,
        r[i].vector_sim == nodes[i].vector_sim,
        r[i].hop == nodes[i].hop,
        r[i].is_seed == nodes[i].is_seed,
        nodes[i].id < base ==> r[i].id == nodes[i].id,
        base <= nodes[i].id < base + new_nodes.len() ==> r[i].id == new_nodes[nodes[i].id
            - base].id,
{
}

/// A result of a query in several hops shows the nodes of its context as they are, with their
/// weights for scores and as if no search had found them.
pub proof fn law_gathered_nodes_are_the_context(shown: ScoredNode, node: NodeInfo)
    requires
        is_gathered(shown, node),
    ensures
        shown.id == node.id,
        shown.name@ == node.name@,
        shown.node_type@ == node.node_type@,
        shown.props == node.props,
        shown.full_context@ == node.full_context@,
        shown.score == node.weight,
        shown.vector_sim == 0,
        shown.hop == 0,
        !shown.is_seed,
{
}

/// Requests that differ only in white space around the text have one key; those with hints have
/// none.
pub proof fn law_white_space_does_not_matter(
    query: Seq<char>,
    again: Seq<char>,
    opts: QueryOptions,
    numbers: NumberTexts,
    llm_generate: bool,
)
    requires
        trimmed(query) == trimmed(again),
    ensures
        text_key(query, opts, numbers, llm_generate, true) is None,
        text_key(query, opts, numbers, llm_generate, false) == text_key(
            again,
            opts,
            numbers,
            llm_generate,
            false,
        ),
{
}

/// What was found at place `k` of a search: the nodes, and then for each edge its start and its end.
pub open spec fn found_at(
    nodes: Seq<(u32, u32)>,
    edges: Seq<(u32, u32, u32)>,
    k: int,
) -> u32 {
    let m = k - nodes.len();
    if m < 0 {
        nodes[k].0
    } else if m % 2 == 0 {
        edges[m / 2].0
    } else {
        edges[m / 2].1
    }
}

/// The seeds stand in the order in which a search found them, each at the first of the places `at`
/// where it was found.
pub proof fn law_seeds_stand_in_order(
    nodes: Seq<(u32, u32)>,
    edges: Seq<(u32, u32, u32)>,
) -> (at: Seq<int>)
    ensures
        ({
            let seeds = first_occurrences(hit_ids(nodes) + hit_ends(edges));
            &&& at.len() == seeds.len()
            &&& forall|i: int|
                0 <= i < at.len() ==> {
                    let k = #[trigger] at[i];
                    &&& 0 <= k < nodes.len() + 2 * edges.len()
                    &&& seeds[i] == found_at(nodes, edges, k)
                    &&& forall|m: int|
                        0 <= m < k ==> #[trigger] found_at(nodes, edges, m) != seeds[i]
                }
            &&& forall|i: int, j: int|
                0 <= i < j < at.len() ==> #[trigger] at[i] < #[trigger] at[j]
        }),
{
    let ids = hit_ids(nodes);
    let ends = hit_ends(edges);
    let list = ids + ends;
    lemma_hit_ends(edges);
    let at = lemma_first_places(list);
    assert forall|k: int| 0 <= k < list.len() implies #[trigger] list[k] == found_at(
        nodes,
        edges,
        k,
    ) by {
        let m = k - nodes.len();
        if m >= 0 {
            let j = m / 2;
            assert(ends[2 * j] == edges[j].0 && ends[2 * j + 1] == edges[j].1);
        }
    }
    let seeds = first_occurrences(list);
    assert forall|i: int| 0 <= i < at.len() implies {
        let k = #[trigger] at[i];
        &&& 0 <= k < nodes.len() + 2 * edges.len()
        &&& seeds[i] == found_at(nodes, edges, k)
        &&& forall|m: int| 0 <= m < k ==> #[trigger] found_at(nodes, edges, m) != seeds[i]
    } by {
        let k = at[i];
        assert(list[k] == seeds[i]);
        assert forall|m: int| 0 <= m < k implies #[trigger] found_at(nodes, edges, m)
            != seeds[i] by {
            assert(list[m] != seeds[i]);
        }
    }
    at
}

proof fn lemma_first_places(list: Seq<u32>) -> (at: Seq<int>)
    ensures
        ({
            let r = first_occurrences(list);
            &&& at.len() == r.len()
            &&& forall|i: int|
                0 <= i < at.len() ==> 0 <= #[trigger] at[i] < list.len() && list[at[i]] == r[i] && (
                forall|m: int| 0 <= m < at[i] ==> #[trigger] list[m] != r[i])
            &&& forall|i: int, j: int|
                0 <= i < j < at.len() ==> #[trigger] at[i] < #[trigger] at[j]
        }),
    decreases list.len(),
{
    if list.len() == 0 {
        Seq::empty()
    } else {
        let rest = list.drop_last();
        let last = list.len() - 1;
        let before = first_occurrences(rest);
        let r = first_occurrences(list);
        let old = lemma_first_places(rest);
        lemma_first_occurrences(rest);
        let at = if before.contains(list[last]) {
            old
        } else {
            old.push(last)
        };
        assert forall|i: int| 0 <= i < at.len() implies 0 <= #[trigger] at[i] < list.len()
            && list[at[i]] == r[i] && (forall|m: int|
            0 <= m < at[i] ==> #[trigger] list[m] != r[i]) by {
            if i < old.len() {
                assert(at[i] == old[i]);
                assert(r[i] == before[i]);
                assert forall|m: int| 0 <= m < at[i] implies #[trigger] list[m] != r[i] by {
                    assert(rest[m] == list[m]);
                }
            } else {
                assert forall|m: int| 0 <= m < at[i] implies #[trigger] list[m] != r[i] by {
                    assert(rest[m] == list[m]);
                    assert(before.contains(rest[m]));
                }
            }
        }
        assert forall|i: int, j: int| 0 <= i < j < at.len() implies #[trigger] at[i]
            < #[trigger] at[j] by {
            assert(at[i] == old[i]);
            if j < old.len() {
                assert(at[j] == old[j]);
            }
        }
        at
    }
}

/// The edges of a result are those between nodes of the context, in order, by the names of their
/// ends, with their weights and their types.
pub proof fn law_result_has_the_edges_of_its_context(
    infos: Seq<NodeInfo>,
    edges: Seq<RawEdge>,
    shown: Seq<SubgraphEdge>,
)
    requires
        subgraph_edge_views(shown) == context_edges(infos, edges),
    ensures
        ({
            let kept = edges.filter(|e: RawEdge| in_context(infos, e.0) && in_context(infos, e.1));
            &&& shown.len() == kept.len()
            &&& forall|i: int|
                0 <= i < shown.len() ==> is_name_of(infos, kept[i].0, (#[trigger] shown[i]).from@)
                    && is_name_of(infos, kept[i].1, shown[i].to@) && shown[i].weight == kept[i].2
                    && shown[i].edge_type@ == kept[i].3@
        }),
{
    law_context_edges_are_shown_by_name(infos, edges);
    let kept = edges.filter(|e: RawEdge| in_context(infos, e.0) && in_context(infos, e.1));
    let said = context_edges(infos, edges);
    assert(subgraph_edge_views(shown).len() == shown.len());
    assert forall|i: int| 0 <= i < shown.len() implies is_name_of(
        infos,
        kept[i].0,
        (#[trigger] shown[i]).from@,
    ) && is_name_of(infos, kept[i].1, shown[i].to@) && shown[i].weight == kept[i].2
        && shown[i].edge_type@ == kept[i].3@ by {
        assert(subgraph_edge_views(shown)[i] == edge_view(shown[i]));
        assert(said[i] == edge_view(shown[i]));
    }
}

} // verus!
