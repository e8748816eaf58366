//! The plugin server: what it is asked and how its replies are read.

use crate::config::{number_setting, Environment, PluginEndpoint};
use crate::config::EndpointView;
use crate::digits::parse_unsigned;
use crate::graph::between::RawEdge;
use crate::graph::csr::{opt_text, NodeInfo, NodeView};
use crate::json::{
    as_text, json_parse, json_tree, member, member_of, parse_value, text_of, JsonTree,
};
use crate::text::{begins_with, same_text, strip_prefix, trim_end_matches, trim_end_of};
use std::collections::HashMap;
use vstd::prelude::*;
use vstd::string::*;

verus! {

broadcast use vstd::std_specs::hash::group_hash_axioms;

// ── hints ────────────────────────────────────────────────────────────────────

/// What a request says about how the LLM is to be asked.
pub struct LlmHints {
    /// Replaces the operation's own system prompt.
    pub system_prompt: Option<String>,
    /// Rules added to the operation's own.
    pub rules: Vec<String>,
    /// Texts added to the context.
    pub extend_context: Vec<String>,
}

impl LlmHints {
    pub fn is_empty(&self) -> (r: bool)
        ensures
            r == (self.system_prompt is None && self.rules@.len() == 0
                && self.extend_context@.len() == 0),
    {
        self.system_prompt.is_none() && self.rules.is_empty() && self.extend_context.is_empty()
    }
}

impl Default for LlmHints {
    fn default() -> (r: Self)
        ensures
            r.system_prompt is None,
            r.rules@.len() == 0,
            r.extend_context@.len() == 0,
    {
        LlmHints { system_prompt: None, rules: Vec::new(), extend_context: Vec::new() }
    }
}

// ── replies ──────────────────────────────────────────────────────────────────

/// Entities and relations found in a text.
pub struct ExtractResponse {
    pub entities: Vec<serde_json::Value>,
    pub relations: Vec<serde_json::Value>,
}

/// One step of reasoning: an answer, or names to look up before the next step.
pub struct ReasonResponse {
    pub answer: String,
    pub follow_ups: Vec<String>,
    pub done: bool,
}

// ── context of a question ────────────────────────────────────────────────────

/// A node of the context.
pub struct ContextNode {
    pub id: u32,
    pub name: String,
    pub node_type: String,
    pub props: serde_json::Value,
    pub full_context: String,
    /// The bits of a single-precision number.
    pub score: u32,
}

/// An edge of the context, between the names of two nodes.
pub struct ContextEdge {
    pub from_node: String,
    pub to_node: String,
    /// The bits of a single-precision number.
    pub weight: u32,
    pub edge_type: String,
}

/// A node of the context as its fields read.
pub struct ContextNodeView {
    pub id: u32,
    pub name: Seq<char>,
    pub node_type: Seq<char>,
    pub props: JsonTree,
    pub full_context: Seq<char>,
    pub score: u32,
}

/// An edge of the context as its fields read.
pub struct ContextEdgeView {
    pub from_node: Seq<char>,
    pub to_node: Seq<char>,
    pub weight: u32,
    pub edge_type: Seq<char>,
}

impl View for ContextNode {
    type V = ContextNodeView;

    open spec fn view(&self) -> ContextNodeView {
        ContextNodeView {
            id: self.id,
            name: self.name@,
            node_type: self.node_type@,
            props: json_tree(self.props),
            full_context: self.full_context@,
            score: self.score,
        }
    }
}

impl View for ContextEdge {
    type V = ContextEdgeView;

    open spec fn view(&self) -> ContextEdgeView {
        ContextEdgeView {
            from_node: self.from_node@,
            to_node: self.to_node@,
            weight: self.weight,
            edge_type: self.edge_type@,
        }
    }
}

/// A node as the context shows it; its weight is its score.
pub open spec fn context_node(n: NodeView) -> ContextNodeView {
    ContextNodeView {
        id: n.id,
        name: n.name,
        node_type: n.node_type,
        props: n.props,
        full_context: n.full_context,
        score: n.weight,
    }
}

/// The context nodes as they read.
pub open spec fn context_node_views(list: Seq<ContextNode>) -> Seq<ContextNodeView> {
    list.map_values(|n: ContextNode| n@)
}

/// The context edges as they read.
pub open spec fn context_edge_views(list: Seq<ContextEdge>) -> Seq<ContextEdgeView> {
    list.map_values(|e: ContextEdge| e@)
}

/// Shows the nodes, in their order.
pub fn build_context(context: &Vec<NodeInfo>) -> (r: Vec<ContextNode>)
    ensures
        context_node_views(r@) == context@.map_values(|n: NodeInfo| context_node(n@)),
{
    let mut list: Vec<ContextNode> = Vec::new();
    let mut i: usize = 0;
    while i < context.len()
        invariant
            i <= context@.len(),
            list@.len() == i,
            forall|j: int| 0 <= j < i ==> (#[trigger] list@[j])@ == context_node(context@[j]@),
        decreases context@.len() - i,
    {
        let n = &context[i];
        list.push(
            ContextNode {
                id: n.id,
                name: n.name.clone(),
                node_type: n.node_type.clone(),
                props: n.props.clone(),
                full_context: n.full_context.clone(),
                score: n.weight,
            },
        );
        i += 1;
    }
    proof {
        assert(context_node_views(list@) =~= context@.map_values(
            |n: NodeInfo| context_node(n@),
        ));
    }
    list
}

/// The name of the last of the nodes with this id.
pub open spec fn name_of(context: Seq<NodeInfo>, id: u32) -> Option<Seq<char>>
    decreases context.len(),
{
    if context.len() == 0 {
        None
    } else if context.last().id == id {
        Some(context.last().name@)
    } else {
        name_of(context.drop_last(), id)
    }
}

/// The edges whose two nodes are among the nodes, in their order, with the names of those nodes.
pub open spec fn context_edges(context: Seq<NodeInfo>, edges: Seq<RawEdge>) -> Seq<ContextEdgeView>
    decreases edges.len(),
{
    if edges.len() == 0 {
        Seq::empty()
    } else {
        let before = context_edges(context, edges.drop_last());
        let e = edges.last();
        match (name_of(context, e.0), name_of(context, e.1)) {
            (Some(from_node), Some(to_node)) => before.push(
                ContextEdgeView { from_node, to_node, weight: e.2, edge_type: e.3@ },
            ),
            _ => before,
        }
    }
}

fn names_by_id(context: &Vec<NodeInfo>) -> (r: HashMap<u32, usize>)
    ensures
        forall|id: u32|
            match name_of(context@, id) {
                Some(name) => #[trigger] r@.contains_key(id) && r@[id] < context@.len()
                    && context@[r@[id] as int].name@ == name,
                None => !r@.contains_key(id),
            },
{
    let mut places: HashMap<u32, usize> = HashMap::new();
    let mut i: usize = 0;
    while i < context.len()
        invariant
            i <= context@.len(),
            forall|id: u32|
                match name_of(context@.take(i as int), id) {
                    Some(name) => #[trigger] places@.contains_key(id) && places@[id] < i
                        && context@[places@[id] as int].name@ == name,
                    None => !places@.contains_key(id),
                },
        decreases context@.len() - i,
    {
        proof {
            assert(context@.take(i + 1).drop_last() =~= context@.take(i as int));
            assert(context@.take(i + 1).last() == context@[i as int]);
        }
        places.insert(context[i].id, i);
        i += 1;
    }
    proof {
        assert(context@.take(i as int) =~= context@);
    }
    places
}

/// Shows the edges between the nodes, by name.
pub fn build_edges(context: &Vec<NodeInfo>, edges: &Vec<RawEdge>) -> (r: Vec<ContextEdge>)
    ensures
        context_edge_views(r@) == context_edges(context@, edges@),
{
    let names = names_by_id(context);
    let mut list: Vec<ContextEdge> = Vec::new();
    let mut i: usize = 0;
    proof {
        assert(context_edge_views(list@) =~= context_edges(context@, edges@.take(0)));
    }
    while i < edges.len()
        invariant
            i <= edges@.len(),
            context_edge_views(list@) == context_edges(context@, edges@.take(i as int)),
            forall|id: u32|
                match name_of(context@, id) {
                    Some(name) => #[trigger] names@.contains_key(id) && names@[id] < context@.len()
                        && context@[names@[id] as int].name@ == name,
                    None => !names@.contains_key(id),
                },
        decreases edges@.len() - i,
    {
        let e = &edges[i];
        proof {
            assert(edges@.take(i + 1).drop_last() =~= edges@.take(i as int));
            assert(edges@.take(i + 1).last() == edges@[i as int]);
            assert(names@.contains_key(e.0) == name_of(context@, e.0) is Some);
            assert(names@.contains_key(e.1) == name_of(context@, e.1) is Some);
        }
        match (names.get(&e.0), names.get(&e.1)) {
            (Some(from), Some(to)) => {
                let edge = ContextEdge {
                    from_node: context[*from].name.clone(),
                    to_node: context[*to].name.clone(),
                    weight: e.2,
                    edge_type: e.3.clone(),
                };
                let ghost before = list@;
                list.push(edge);
                proof {
                    assert(context_edge_views(list@) =~= context_edge_views(before).push(edge@));
                }
            },
            _ => {},
        }
        i += 1;
    }
    proof {
        assert(edges@.take(i as int) =~= edges@);
    }
    list
}

// ── requests ─────────────────────────────────────────────────────────────────

/// What the image store is sent: a URL, or the data itself.
pub struct StoreImageRequest {
    pub url: Option<String>,
    pub data: Option<String>,
}

/// A data-URI goes into `data`, anything else into `url`.
pub fn store_request(image: &str) -> (r: StoreImageRequest)
    ensures
        if begins_with(image@, "data:"@) {
            r.url is None && opt_text(r.data) == Some(image@)
        } else {
            opt_text(r.url) == Some(image@) && r.data is None
        },
{
    match strip_prefix(image, "data:") {
        Some(_) => StoreImageRequest { url: None, data: Some(image.to_owned()) },
        None => StoreImageRequest { url: Some(image.to_owned()), data: None },
    }
}

/// How an operation is reached: a base URL without slashes at its end, a token, a socket.
pub struct PluginRoute {
    pub url: String,
    pub token: Option<String>,
    pub socket: Option<String>,
}

impl PluginRoute {
    pub fn new(endpoint: &PluginEndpoint) -> (r: Self)
        ensures
            match endpoint@ {
                EndpointView::Http { url, auth_token } => {
                    &&& r.url@ == trim_end_of(url, '/')
                    &&& opt_text(r.token) == auth_token
                    &&& r.socket is None
                },
                EndpointView::Unix { socket } => {
                    &&& r.url@ == trim_end_of("http://localhost"@, '/')
                    &&& r.token is None
                    &&& opt_text(r.socket) == Some(socket)
                },
            },
    {
        PluginRoute {
            url: trim_end_matches(endpoint.url(), '/'),
            token: (match endpoint.auth_token() {
                Some(token) => Some(token.to_owned()),
                None => None,
            }),
            socket: (match endpoint.socket() {
                Some(socket) => Some(socket.to_owned()),
                None => None,
            }),
        }
    }

    /// The URL of a path.
    pub fn address(&self, path: &str) -> (r: String)
        ensures
            r@ == self.url@ + path@,
    {
        let mut s = self.url.clone();
        s.append(path);
        s
    }
}

// ── timeouts ─────────────────────────────────────────────────────────────────

/// How long to wait for the plugin server, in seconds.
pub struct PluginTimeouts {
    pub connect: u64,
    pub embed: u64,
    pub extract: u64,
    pub generate: u64,
    pub health: u64,
}

/// The seconds that a variable gives.
pub open spec fn seconds_of(value: Option<Seq<char>>, default: nat) -> nat {
    number_setting(value, u64::MAX as nat, None, default)
}

fn read_seconds(env: &Environment, name: &str, default: u64) -> (r: u64)
    ensures
        r == seconds_of(env.var(name@), default as nat),
{
    match env.get(name) {
        Some(s) => match parse_unsigned(s, u64::MAX) {
            Some(n) => n,
            None => default,
        },
        None => default,
    }
}

impl PluginTimeouts {
    /// `PLUGIN_TIMEOUT_SECS` holds for every call without a variable of its own.
    pub fn resolve(env: &Environment) -> (r: Self)
        ensures
            ({
                let call = seconds_of(env.var("PLUGIN_TIMEOUT_SECS"@), 60);
                &&& r.connect == seconds_of(env.var("PLUGIN_CONNECT_TIMEOUT_SECS"@), 5)
                &&& r.embed == seconds_of(env.var("PLUGIN_EMBED_TIMEOUT_SECS"@), call)
                &&& r.extract == seconds_of(env.var("PLUGIN_EXTRACT_TIMEOUT_SECS"@), call)
                &&& r.generate == seconds_of(env.var("PLUGIN_GENERATE_TIMEOUT_SECS"@), call)
                &&& r.health == seconds_of(env.var("PLUGIN_HEALTH_TIMEOUT_SECS"@), 3)
            }),
    {
        let call: u64 = read_seconds(env, "PLUGIN_TIMEOUT_SECS", 60);
        PluginTimeouts {
            connect: read_seconds(env, "PLUGIN_CONNECT_TIMEOUT_SECS", 5),
            embed: read_seconds(env, "PLUGIN_EMBED_TIMEOUT_SECS", call),
            extract: read_seconds(env, "PLUGIN_EXTRACT_TIMEOUT_SECS", call),
            generate: read_seconds(env, "PLUGIN_GENERATE_TIMEOUT_SECS", call),
            health: read_seconds(env, "PLUGIN_HEALTH_TIMEOUT_SECS", 3),
        }
    }
}

// ── health ───────────────────────────────────────────────────────────────────

/// A reply to a health probe says that the plugin is ready.
pub open spec fn says_ready(success: bool, body: Option<JsonTree>) -> bool {
    success && (body matches Some(tree) && text_of(member_of(tree, "status"@)) == Some("ok"@))
}

/// Reads the reply to a health probe: a success whose body has the status `ok`.
pub fn is_ready_reply(success: bool, body: &str) -> (r: bool)
    ensures
        r == says_ready(success, json_parse(body@)),
{
    if !success {
        return false;
    }
    match parse_value(body) {
        Some(v) => is_ready_body(&v),
        None => false,
    }
}

/// Reads the body of the reply to a health probe.
pub fn is_ready_body(body: &serde_json::Value) -> (r: bool)
    ensures
        r == says_ready(true, Some(json_tree(*body))),
{
    match as_text(member(body, "status")) {
        Some(s) => same_text(s, "ok"),
        None => false,
    }
}

/// How long the outcome of a health probe is used, in nanoseconds.
pub const HEALTH_TTL_NS: u64 = 5_000_000_000;

/// The outcome of the last health probe and when it was made.
pub struct HealthCache {
    pub last: Option<(bool, u64)>,
}

impl HealthCache {
    pub fn new() -> (r: Self)
        ensures
            r.last is None,
    {
        HealthCache { last: None }
    }

    /// The outcome that still counts at a time.
    pub open spec fn known_at(&self, now_ns: u64) -> Option<bool> {
        match self.last {
            Some((ready, checked_ns)) => if now_ns - checked_ns < HEALTH_TTL_NS {
                Some(ready)
            } else {
                None
            },
            None => None,
        }
    }

    /// The outcome of the last probe, unless it is too old.
    pub fn get(&self, now_ns: u64) -> (r: Option<bool>)
        ensures
            r == self.known_at(now_ns),
    {
        match self.last {
            Some((ready, checked_ns)) => if now_ns < checked_ns || now_ns - checked_ns
                < HEALTH_TTL_NS {
                Some(ready)
            } else {
                None
            },
            None => None,
        }
    }

    /// Keeps the outcome of a probe.
    pub fn put(&mut self, ready: bool, now_ns: u64)
        ensures
            final(self).last == Some((ready, now_ns)),
    {
        self.last = Some((ready, now_ns));
    }
}

/// Between two probes at least the time to live passes: after a probe no other is due until then.
pub proof fn law_one_probe_per_ttl(cache: HealthCache, ready: bool, probed_ns: u64, now_ns: u64)
    requires
        cache.last == Some((ready, probed_ns)),
    ensures
        cache.known_at(now_ns) == (if now_ns < probed_ns + HEALTH_TTL_NS {
            Some(ready)
        } else {
            None
        }),
{
}

// ── chunks ───────────────────────────────────────────────────────────────────

/// The texts in pieces of `size`, the last one shorter if need be; a list that fits is one piece.
pub open spec fn chunks_of(list: Seq<Seq<char>>, size: nat) -> Seq<Seq<Seq<char>>>
    decreases list.len(),
{
    if list.len() <= size || size == 0 {
        seq![list]
    } else {
        seq![list.take(size as int)] + chunks_of(list.skip(size as int), size)
    }
}

/// The texts of every piece.
pub open spec fn chunk_texts(chunks: Seq<Vec<String>>) -> Seq<Seq<Seq<char>>> {
    chunks.map_values(|c: Vec<String>| crate::text::texts(c@))
}

/// Splits texts into the pieces of which each is one request.
pub fn split_chunks(list: &Vec<String>, size: usize) -> (r: Vec<Vec<String>>)
    requires
        size > 0,
    ensures
        chunk_texts(r@) == chunks_of(crate::text::texts(list@), size as nat),
{
    let ghost whole = crate::text::texts(list@);
    let mut chunks: Vec<Vec<String>> = Vec::new();
    let mut from: usize = 0;
    proof {
        assert(whole.skip(0) =~= whole);
        assert(chunk_texts(chunks@) + chunks_of(whole, size as nat) =~= chunks_of(
            whole,
            size as nat,
        ));
    }
    while list.len() - from > size
        invariant
            size > 0,
            from <= list@.len(),
            whole == crate::text::texts(list@),
            chunk_texts(chunks@) + chunks_of(whole.skip(from as int), size as nat) == chunks_of(
                whole,
                size as nat,
            ),
        decreases list@.len() - from,
    {
        let chunk = copy_range(list, from, from + size);
        let ghost before = chunks@;
        proof {
            let rest = whole.skip(from as int);
            assert(rest.take(size as int) =~= whole.subrange(from as int, from + size));
            assert(rest.skip(size as int) =~= whole.skip(from + size));
            assert(chunk_texts(before.push(chunk)) =~= chunk_texts(before).push(
                crate::text::texts(chunk@),
            ));
            assert(chunk_texts(before) + chunks_of(rest, size as nat) =~= chunk_texts(before).push(
                rest.take(size as int),
            ) + chunks_of(rest.skip(size as int), size as nat));
        }
        chunks.push(chunk);
        from = from + size;
    }
    let chunk = copy_range(list, from, list.len());
    let ghost before = chunks@;
    chunks.push(chunk);
    proof {
        let rest = whole.skip(from as int);
        assert(rest =~= whole.subrange(from as int, list@.len() as int));
        assert(chunk_texts(chunks@) =~= chunk_texts(before).push(crate::text::texts(chunk@)));
        assert(chunk_texts(before) + seq![rest] =~= chunk_texts(before).push(rest));
    }
    chunks
}

fn copy_range(list: &Vec<String>, from: usize, to: usize) -> (r: Vec<String>)
    requires
        from <= to <= list@.len(),
    ensures
        crate::text::texts(r@) == crate::text::texts(list@).subrange(from as int, to as int),
{
    let mut part: Vec<String> = Vec::new();
    let mut i: usize = from;
    while i < to
        invariant
            from <= i <= to <= list@.len(),
            part@.len() == i - from,
            forall|j: int| 0 <= j < part@.len() ==> (#[trigger] part@[j])@ == list@[from + j]@,
        decreases to - i,
    {
        part.push(list[i].clone());
        i += 1;
    }
    proof {
        assert(crate::text::texts(part@) =~= crate::text::texts(list@).subrange(
            from as int,
            to as int,
        ));
    }
    part
}

/// The pieces, one after the other.
pub open spec fn joined(chunks: Seq<Seq<Seq<char>>>) -> Seq<Seq<char>>
    decreases chunks.len(),
{
    if chunks.len() == 0 {
        Seq::empty()
    } else {
        chunks[0] + joined(chunks.skip(1))
    }
}

/// The pieces together are the whole, in its order, and none is larger than the given size.
pub proof fn law_chunks_make_the_whole(list: Seq<Seq<char>>, size: nat)
    requires
        size > 0,
    ensures
        joined(chunks_of(list, size)) == list,
        forall|i: int|
            0 <= i < chunks_of(list, size).len() ==> (#[trigger] chunks_of(list, size)[i]).len()
                <= size,
    decreases list.len(),
{
    if list.len() <= size {
        assert(seq![list].skip(1) =~= Seq::<Seq<Seq<char>>>::empty());
        assert(joined(seq![list].skip(1)) =~= Seq::<Seq<char>>::empty());
        assert(joined(seq![list]) =~= list);
    } else {
        let rest = list.skip(size as int);
        law_chunks_make_the_whole(rest, size);
        let chunks = chunks_of(list, size);
        assert(chunks.skip(1) =~= chunks_of(rest, size));
        assert(chunks[0] + rest =~= list);
        assert forall|i: int| 0 <= i < chunks.len() implies (#[trigger] chunks[i]).len() <= size by {
            if i > 0 {
                assert(chunks[i] == chunks_of(rest, size)[i - 1]);
            }
        }
    }
}

/// A node of the context is sent with its own id, name, type, properties and text, and its weight
/// for its score.
pub proof fn law_context_is_sent_as_it_is(context: Seq<NodeInfo>, sent: Seq<ContextNode>, i: int)
    requires
        context_node_views(sent) == context.map_values(|n: NodeInfo| context_node(n@)),
        0 <= i < context.len(),
    ensures
        sent.len() == context.len(),
        sent[i].id == context[i].id,
        sent[i].name@ == context[i].name@,
        sent[i].node_type@ == context[i].node_type@,
        json_tree(sent[i].props) == json_tree(context[i].props),
        sent[i].full_context@ == context[i].full_context@,
        sent[i].score == context[i].weight,
{
    assert(context_node_views(sent).len() == sent.len());
    assert(context_node_views(sent)[i] == sent[i]@);
    assert(context.map_values(|n: NodeInfo| context_node(n@))[i] == context_node(context[i]@));
}

/// Some node of the context has this id.
pub open spec fn in_context(context: Seq<NodeInfo>, id: u32) -> bool {
    exists|i: int| 0 <= i < context.len() && (#[trigger] context[i]).id == id
}

/// The name belongs to a node with this id, the last one of several.
pub open spec fn is_name_of(context: Seq<NodeInfo>, id: u32, name: Seq<char>) -> bool {
    exists|i: int|
        0 <= i < context.len() && (#[trigger] context[i]).id == id && context[i].name@ == name && (
        forall|j: int| i < j < context.len() ==> (#[trigger] context[j]).id != id)
}

proof fn lemma_name_of(context: Seq<NodeInfo>, id: u32)
    ensures
        match name_of(context, id) {
            Some(name) => in_context(context, id) && is_name_of(context, id, name),
            None => !in_context(context, id),
        },
    decreases context.len(),
{
    if context.len() > 0 {
        let rest = context.drop_last();
        let last = context.len() - 1;
        lemma_name_of(rest, id);
        if context[last].id == id {
            assert(is_name_of(context, id, context[last].name@));
        } else {
            match name_of(rest, id) {
                Some(name) => {
                    let i = choose|i: int|
                        0 <= i < rest.len() && (#[trigger] rest[i]).id == id && rest[i].name@
                            == name && (forall|j: int|
                            i < j < rest.len() ==> (#[trigger] rest[j]).id != id);
                    assert(context[i].id == id && context[i].name@ == name);
                    assert forall|j: int| i < j < context.len() implies (#[trigger] context[j]).id
                        != id by {
                        if j < last {
                            assert(rest[j] == context[j]);
                        }
                    }
                },
                None => {
                    if in_context(context, id) {
                        let i = choose|i: int|
                            0 <= i < context.len() && (#[trigger] context[i]).id == id;
                        assert(rest[i].id == id);
                    }
                },
            }
        }
    }
}

/// Edges both of whose ends are in the context are shown, in order, with the names of their ends,
/// their weights and their types; others are left out.
pub proof fn law_context_edges_are_shown_by_name(context: Seq<NodeInfo>, edges: Seq<RawEdge>)
    ensures
        ({
            let kept = edges.filter(
                |e: RawEdge| in_context(context, e.0) && in_context(context, e.1),
            );
            let r = context_edges(context, edges);
            &&& r.len() == kept.len()
            &&& forall|i: int|
                0 <= i < r.len() ==> {
                    let e = #[trigger] r[i];
                    &&& is_name_of(context, kept[i].0, e.from_node)
                    &&& is_name_of(context, kept[i].1, e.to_node)
                    &&& e.weight == kept[i].2
                    &&& e.edge_type == kept[i].3@
                }
        }),
    decreases edges.len(),
{
    reveal(Seq::filter);
    let known = |e: RawEdge| in_context(context, e.0) && in_context(context, e.1);
    if edges.len() > 0 {
        let rest = edges.drop_last();
        law_context_edges_are_shown_by_name(context, rest);
        lemma_name_of(context, edges.last().0);
        lemma_name_of(context, edges.last().1);
        let before = context_edges(context, rest);
        let r = context_edges(context, edges);
        let kept = edges.filter(known);
        assert forall|i: int| 0 <= i < r.len() implies {
            let e = #[trigger] r[i];
            &&& is_name_of(context, kept[i].0, e.from_node)
            &&& is_name_of(context, kept[i].1, e.to_node)
            &&& e.weight == kept[i].2
            &&& e.edge_type == kept[i].3@
        } by {
            if i < before.len() {
                assert(r[i] == before[i]);
                assert(kept[i] == rest.filter(known)[i]);
            }
        }
    }
}

/// The plugin server is ready exactly when it answers with success and a JSON object whose `status`
/// is the string `ok`.
pub proof fn law_ready_means_status_ok(success: bool, body: Option<JsonTree>)
    ensures
        says_ready(success, body) <==> success && body is Some && (match body->0 {
            JsonTree::Object(m) => m.contains_key("status"@) && m["status"@] == JsonTree::Text(
                "ok"@,
            ),
            _ => false,
        }),
{
}

/// What a probe said is known for the time that it counts, and no longer.
pub proof fn law_probe_counts_for_its_time(cache: HealthCache, now_ns: u64)
    ensures
        match cache.last {
            Some((ready, at)) => cache.known_at(now_ns) == (if now_ns < at + HEALTH_TTL_NS {
                Some(ready)
            } else {
                None
            }),
            None => cache.known_at(now_ns) is None,
        },
{
}

/// All pieces but the last are of the given size.
pub proof fn law_chunks_are_full(list: Seq<Seq<char>>, size: nat)
    requires
        size > 0,
    ensures
        forall|i: int|
            0 <= i < chunks_of(list, size).len() - 1 ==> (#[trigger] chunks_of(list, size)[i]).len()
                == size,
    decreases list.len(),
{
    if list.len() > size {
        let rest = list.skip(size as int);
        law_chunks_are_full(rest, size);
        let chunks = chunks_of(list, size);
        assert forall|i: int| 0 <= i < chunks.len() - 1 implies (#[trigger] chunks[i]).len()
            == size by {
            if i > 0 {
                assert(chunks[i] == chunks_of(rest, size)[i - 1]);
            }
        }
    }
}

/// What an edge of the context reads as is what its fields hold; the same of a list, in order.
pub proof fn law_context_edges_read_as_their_fields(edges: Seq<ContextEdge>, i: int)
    requires
        0 <= i < edges.len(),
    ensures
        context_edge_views(edges).len() == edges.len(),
        context_edge_views(edges)[i].from_node == edges[i].from_node@,
        context_edge_views(edges)[i].to_node == edges[i].to_node@,
        context_edge_views(edges)[i].weight == edges[i].weight,
        context_edge_views(edges)[i].edge_type == edges[i].edge_type@,
{
}

} // verus!
