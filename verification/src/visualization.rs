//! Visualization of the graph: a node/edge list built from the store, and
//! its DOT and JSON renderings.

use vstd::prelude::*;
use vstd::string::StrSliceExecFns;
use vstd::string::StringExecFns;

use crate::entities::ReferenceView;
use crate::entities::Thought;
use crate::entities::ThoughtView;
use crate::graph::ThoughtGraph;
use crate::graph::views_no_dups;
use crate::ids::ThoughtID;
use crate::ids::id_views;
use crate::ids::ids_contain;
use crate::strutil::dec_str;
use crate::strutil::string_from_chars;
use crate::strutil::u64_to_string;

verus! {

/// The largest value the edge counter can hold. A store can never hold
/// that many references, but the numbering saturates there rather than
/// overflow.
pub const EDGE_NUMBER_LIMIT: u64 = 0xffff_ffff_ffff_ffff;

/// The views of a list of strings.
pub open spec fn string_views(s: Seq<String>) -> Seq<Seq<char>> {
    s.map_values(|x: String| x@)
}

/// A node in the graph visualization, representing a single thought.
#[derive(Debug, Clone)]
pub struct Node {
    /// Unique identifier for the node
    pub id: String,
    /// Display label for the node (typically the thought's title)
    pub label: String,
    /// Tags associated with this node
    pub tags: Vec<String>,
}

/// The mathematical content of a [`Node`].
#[verifier::ext_equal]
pub ghost struct NodeView {
    /// View of the node id
    pub id: Seq<char>,
    /// View of the display label
    pub label: Seq<char>,
    /// Views of the tag names
    pub tags: Seq<Seq<char>>,
}

impl View for Node {
    type V = NodeView;

    open spec fn view(&self) -> NodeView {
        NodeView { id: self.id@, label: self.label@, tags: string_views(self.tags@) }
    }
}

/// An edge in the graph visualization, representing a reference between
/// thoughts.
#[derive(Debug, Clone)]
pub struct Edge {
    /// Unique identifier for the edge
    pub id: String,
    /// Source node ID (the thought containing the reference)
    pub source: String,
    /// Target node ID (the thought being referenced)
    pub target: String,
    /// Label/description of the reference
    pub label: String,
}

/// The mathematical content of an [`Edge`].
#[verifier::ext_equal]
pub ghost struct EdgeView {
    /// View of the edge id
    pub id: Seq<char>,
    /// View of the source node id
    pub source: Seq<char>,
    /// View of the target node id
    pub target: Seq<char>,
    /// View of the label
    pub label: Seq<char>,
}

impl View for Edge {
    type V = EdgeView;

    open spec fn view(&self) -> EdgeView {
        EdgeView {
            id: self.id@,
            source: self.source@,
            target: self.target@,
            label: self.label@,
        }
    }
}

/// The views of a node list.
pub open spec fn node_views(s: Seq<Node>) -> Seq<NodeView> {
    s.map_values(|x: Node| x@)
}

/// The views of an edge list.
pub open spec fn edge_views(s: Seq<Edge>) -> Seq<EdgeView> {
    s.map_values(|x: Edge| x@)
}

/// The id of each node, in order.
pub open spec fn node_ids(s: Seq<NodeView>) -> Seq<Seq<char>> {
    s.map_values(|n: NodeView| n.id)
}

/// What an edge shows: its source, target and label.
pub open spec fn edge_payloads(s: Seq<EdgeView>) -> Seq<(Seq<char>, Seq<char>, Seq<char>)> {
    s.map_values(|e: EdgeView| (e.source, e.target, e.label))
}

/// The edges one stored thought contributes: one per reference edge, in
/// reference order.
pub open spec fn thought_payloads(tv: ThoughtView, sid: Seq<char>) -> Seq<
    (Seq<char>, Seq<char>, Seq<char>),
> {
    tv.references.map_values(|rv: ReferenceView| (sid, rv.id, rv.notes))
}

/// The edges a node list contributes, in node order: the references of
/// each listed thought, one thought after another.
pub open spec fn expected_payloads(tm: Map<Seq<char>, ThoughtView>, ids: Seq<Seq<char>>) -> Seq<
    (Seq<char>, Seq<char>, Seq<char>),
>
    decreases ids.len(),
{
    if ids.len() == 0 {
        Seq::empty()
    } else {
        expected_payloads(tm, ids.drop_last()) + thought_payloads(tm[ids.last()], ids.last())
    }
}

/// The graph for visualization: the thoughts as nodes and their references
/// as edges.
#[derive(Debug, Clone)]
pub struct GraphData {
    /// Nodes in the graph, representing thoughts
    pub nodes: Vec<Node>,
    /// Edges in the graph, representing references between thoughts
    pub edges: Vec<Edge>,
}

/// A label text with every double quote escaped with a backslash.
pub open spec fn escape_quotes(s: Seq<char>) -> Seq<char>
    decreases s.len(),
{
    if s.len() == 0 {
        Seq::empty()
    } else {
        escape_quotes(s.drop_last()) + (if s.last() == '"' {
            seq!['\\', '"']
        } else {
            seq![s.last()]
        })
    }
}

/// Escapes every double quote of a label with a backslash.
fn escape_label(s: &str) -> (r: String)
    ensures
        r@ == escape_quotes(s@),
{
    let n = s.unicode_len();
    let mut buf: Vec<char> = Vec::new();
    let mut i: usize = 0;
    proof {
        assert(s@.subrange(0, 0) =~= Seq::<char>::empty());
        assert(buf@ =~= escape_quotes(s@.subrange(0, 0)));
    }
    while i < n
        invariant
            0 <= i <= n,
            n == s@.len(),
            buf@ == escape_quotes(s@.subrange(0, i as int)),
        decreases n - i,
    {
        let c = s.get_char(i);
        let ghost prev = buf@;
        if c == '"' {
            buf.push('\\');
            buf.push('"');
        } else {
            buf.push(c);
        }
        proof {
            let next = s@.subrange(0, i as int + 1);
            assert(next.drop_last() =~= s@.subrange(0, i as int));
            assert(next.last() == s@[i as int]);
            assert(buf@ =~= escape_quotes(next));
        }
        i = i + 1;
    }
    proof {
        assert(s@.subrange(0, n as int) =~= s@);
    }
    string_from_chars(&buf)
}

/// The DOT line describing a node.
pub open spec fn dot_node_line(n: NodeView) -> Seq<char> {
    "  \""@ + n.id + "\" [label=\""@ + escape_quotes(n.label) + "\"];\n"@
}

/// The DOT lines of a node list, in order.
pub open spec fn dot_nodes(ns: Seq<NodeView>) -> Seq<char>
    decreases ns.len(),
{
    if ns.len() == 0 {
        Seq::empty()
    } else {
        dot_nodes(ns.drop_last()) + dot_node_line(ns.last())
    }
}

/// The DOT line describing an edge.
pub open spec fn dot_edge_line(e: EdgeView) -> Seq<char> {
    "  \""@ + e.source + "\" -> \""@ + e.target + "\" [label=\""@ + escape_quotes(e.label)
        + "\"];\n"@
}

/// The DOT lines of an edge list, in order.
pub open spec fn dot_edges(es: Seq<EdgeView>) -> Seq<char>
    decreases es.len(),
{
    if es.len() == 0 {
        Seq::empty()
    } else {
        dot_edges(es.drop_last()) + dot_edge_line(es.last())
    }
}

/// The whole DOT document of a visualization graph.
pub open spec fn spec_to_dot(nodes: Seq<NodeView>, edges: Seq<EdgeView>) -> Seq<char> {
    "digraph ThoughtGraph {\n"@ + "  node [shape=box, style=filled, fillcolor=lightblue];\n\n"@
        + dot_nodes(nodes) + "\n"@ + dot_edges(edges) + "}\n"@
}

/// The text std's debug formatting prints for a list of strings.
pub uninterp spec fn debug_list_of(s: Seq<Seq<char>>) -> Seq<char>;

/// Renders a list of tag names as debug text.
///
/// Relies on `format!` with std's `Debug` implementation for
/// `Vec<String>`: the rendering depends on the list's contents alone.
#[verifier::external_body]
fn debug_string_list(v: &Vec<String>) -> (r: String)
    ensures
        r@ == debug_list_of(string_views(v@)),
{
    format!("{:?}", v)
}

/// The JSON line describing a node; all but the last line carry a
/// trailing comma.
pub open spec fn json_node_line(n: NodeView, comma: bool) -> Seq<char> {
    "    {\"id\": \""@ + n.id + "\", \"label\": \""@ + n.label + "\", \"tags\": "@ + debug_list_of(
        n.tags,
    ) + "}"@ + (if comma {
        ","@
    } else {
        Seq::<char>::empty()
    }) + "\n"@
}

/// The JSON lines of a node list, in order.
pub open spec fn json_nodes(ns: Seq<NodeView>) -> Seq<char>
    decreases ns.len(),
{
    if ns.len() == 0 {
        Seq::empty()
    } else {
        json_node_line(ns[0], ns.len() > 1) + json_nodes(ns.drop_first())
    }
}

/// The JSON line describing an edge.
pub open spec fn json_edge_line(e: EdgeView, comma: bool) -> Seq<char> {
    "    {\"id\": \""@ + e.id + "\", \"source\": \""@ + e.source + "\", \"target\": \""@ + e.target
        + "\", \"label\": \""@ + e.label + "\"}"@ + (if comma {
        ","@
    } else {
        Seq::<char>::empty()
    }) + "\n"@
}

/// The JSON lines of an edge list, in order.
pub open spec fn json_edges(es: Seq<EdgeView>) -> Seq<char>
    decreases es.len(),
{
    if es.len() == 0 {
        Seq::empty()
    } else {
        json_edge_line(es[0], es.len() > 1) + json_edges(es.drop_first())
    }
}

/// The whole JSON document of a visualization graph.
pub open spec fn spec_to_json(nodes: Seq<NodeView>, edges: Seq<EdgeView>) -> Seq<char> {
    "{\n"@ + "  \"nodes\": [\n"@ + json_nodes(nodes) + "  ],\n"@ + "  \"edges\": [\n"@ + json_edges(
        edges,
    ) + "  ]\n"@ + "}\n"@
}

impl GraphData {
    /// Generates the DOT document of the graph, suitable for rendering
    /// with graph drawing tools.
    pub fn to_dot(&self) -> (r: String)
        ensures
            r@ == spec_to_dot(node_views(self.nodes@), edge_views(self.edges@)),
    {
        let nvs = Ghost(node_views(self.nodes@));
        let evs = Ghost(edge_views(self.edges@));
        let mut dot = String::new();
        dot.append("digraph ThoughtGraph {\n");
        dot.append("  node [shape=box, style=filled, fillcolor=lightblue];\n\n");
        let ghost pre = dot@;
        let mut i: usize = 0;
        proof {
            assert(nvs@.subrange(0, 0) =~= Seq::<NodeView>::empty());
            assert(dot@ =~= pre + dot_nodes(nvs@.subrange(0, 0)));
        }
        while i < self.nodes.len()
            invariant
                0 <= i <= self.nodes@.len(),
                nvs@ == node_views(self.nodes@),
                nvs@.len() == self.nodes@.len(),
                dot@ == pre + dot_nodes(nvs@.subrange(0, i as int)),
            decreases self.nodes@.len() - i,
        {
            let label = escape_label(self.nodes[i].label.as_str());
            dot.append("  \"");
            dot.append(self.nodes[i].id.as_str());
            dot.append("\" [label=\"");
            dot.append(label.as_str());
            dot.append("\"];\n");
            proof {
                let next = nvs@.subrange(0, i as int + 1);
                assert(next.drop_last() =~= nvs@.subrange(0, i as int));
                assert(next.last() == nvs@[i as int]);
                assert(nvs@[i as int] == self.nodes@[i as int]@);
                assert(dot@ =~= pre + dot_nodes(next));
            }
            i = i + 1;
        }
        proof {
            assert(nvs@.subrange(0, nvs@.len() as int) =~= nvs@);
        }
        dot.append("\n");
        let ghost pre2 = dot@;
        let mut k: usize = 0;
        proof {
            assert(evs@.subrange(0, 0) =~= Seq::<EdgeView>::empty());
            assert(dot@ =~= pre2 + dot_edges(evs@.subrange(0, 0)));
        }
        while k < self.edges.len()
            invariant
                0 <= k <= self.edges@.len(),
                evs@ == edge_views(self.edges@),
                evs@.len() == self.edges@.len(),
                dot@ == pre2 + dot_edges(evs@.subrange(0, k as int)),
            decreases self.edges@.len() - k,
        {
            let label = escape_label(self.edges[k].label.as_str());
            dot.append("  \"");
            dot.append(self.edges[k].source.as_str());
            dot.append("\" -> \"");
            dot.append(self.edges[k].target.as_str());
            dot.append("\" [label=\"");
            dot.append(label.as_str());
            dot.append("\"];\n");
            proof {
                let next = evs@.subrange(0, k as int + 1);
                assert(next.drop_last() =~= evs@.subrange(0, k as int));
                assert(next.last() == evs@[k as int]);
                assert(evs@[k as int] == self.edges@[k as int]@);
                assert(dot@ =~= pre2 + dot_edges(next));
            }
            k = k + 1;
        }
        proof {
            assert(evs@.subrange(0, evs@.len() as int) =~= evs@);
        }
        dot.append("}\n");
        proof {
            assert(dot@ =~= spec_to_dot(nvs@, evs@));
        }
        dot
    }

    /// Generates the JSON document of the graph, suitable for web
    /// visualizations.
    #[verifier::rlimit(60)]
    pub fn to_json(&self) -> (r: String)
        ensures
            r@ == spec_to_json(node_views(self.nodes@), edge_views(self.edges@)),
    {
        let nvs = Ghost(node_views(self.nodes@));
        let evs = Ghost(edge_views(self.edges@));
        let mut json = String::new();
        json.append("{\n");
        json.append("  \"nodes\": [\n");
        let ghost pre = json@;
        let mut i: usize = 0;
        proof {
            assert(nvs@.skip(0) =~= nvs@);
        }
        while i < self.nodes.len()
            invariant
                0 <= i <= self.nodes@.len(),
                nvs@ == node_views(self.nodes@),
                nvs@.len() == self.nodes@.len(),
                json@ + json_nodes(nvs@.skip(i as int)) == pre + json_nodes(nvs@),
            decreases self.nodes@.len() - i,
        {
            let comma = i < self.nodes.len() - 1;
            let tags = debug_string_list(&self.nodes[i].tags);
            json.append("    {\"id\": \"");
            json.append(self.nodes[i].id.as_str());
            json.append("\", \"label\": \"");
            json.append(self.nodes[i].label.as_str());
            json.append("\", \"tags\": ");
            json.append(tags.as_str());
            json.append("}");
            if comma {
                json.append(",");
            }
            json.append("\n");
            proof {
                let rest = nvs@.skip(i as int);
                assert(rest[0] == nvs@[i as int]);
                assert(nvs@[i as int] == self.nodes@[i as int]@);
                assert(rest.drop_first() =~= nvs@.skip(i as int + 1));
                assert(json_nodes(rest) == json_node_line(rest[0], rest.len() > 1) + json_nodes(
                    rest.drop_first(),
                ));
                assert((rest.len() > 1) == comma);
                assert(json@ + json_nodes(nvs@.skip(i as int + 1)) =~= pre + json_nodes(nvs@));
            }
            i = i + 1;
        }
        proof {
            assert(nvs@.skip(nvs@.len() as int) =~= Seq::<NodeView>::empty());
            assert(json@ =~= pre + json_nodes(nvs@));
        }
        json.append("  ],\n");
        json.append("  \"edges\": [\n");
        let ghost pre2 = json@;
        let mut k: usize = 0;
        proof {
            assert(evs@.skip(0) =~= evs@);
        }
        while k < self.edges.len()
            invariant
                0 <= k <= self.edges@.len(),
                evs@ == edge_views(self.edges@),
                evs@.len() == self.edges@.len(),
                json@ + json_edges(evs@.skip(k as int)) == pre2 + json_edges(evs@),
            decreases self.edges@.len() - k,
        {
            let comma = k < self.edges.len() - 1;
            json.append("    {\"id\": \"");
            json.append(self.edges[k].id.as_str());
            json.append("\", \"source\": \"");
            json.append(self.edges[k].source.as_str());
            json.append("\", \"target\": \"");
            json.append(self.edges[k].target.as_str());
            json.append("\", \"label\": \"");
            json.append(self.edges[k].label.as_str());
            json.append("\"}");
            if comma {
                json.append(",");
            }
            json.append("\n");
            proof {
                let rest = evs@.skip(k as int);
                assert(rest[0] == evs@[k as int]);
                assert(evs@[k as int] == self.edges@[k as int]@);
                assert(rest.drop_first() =~= evs@.skip(k as int + 1));
                assert(json_edges(rest) == json_edge_line(rest[0], rest.len() > 1) + json_edges(
                    rest.drop_first(),
                ));
                assert((rest.len() > 1) == comma);
                assert(json@ + json_edges(evs@.skip(k as int + 1)) =~= pre2 + json_edges(evs@));
            }
            k = k + 1;
        }
        proof {
            assert(evs@.skip(evs@.len() as int) =~= Seq::<EdgeView>::empty());
            assert(json@ =~= pre2 + json_edges(evs@));
        }
        json.append("  ]\n");
        json.append("}\n");
        proof {
            assert(json@ =~= spec_to_json(nvs@, evs@));
        }
        json
    }
}

/// The display label of a stored thought: its title, or its id when it has
/// no title.
pub open spec fn label_of(tv: crate::entities::ThoughtView, id: Seq<char>) -> Seq<char> {
    match tv.title {
        Some(t) => t,
        None => id,
    }
}

/// The node a visualization shows for a stored thought.
pub open spec fn node_for(g: &ThoughtGraph, id: Seq<char>) -> NodeView {
    NodeView {
        id: id,
        label: label_of(g.thoughts_map()[id], id),
        tags: g.thoughts_map()[id].tags,
    }
}

/// Builds the node a visualization shows for one stored thought.
fn make_node(id: &ThoughtID, thought: &Thought) -> (r: Node)
    ensures
        r@.id == id@,
        r@.label == label_of(thought@, id@),
        r@.tags == thought@.tags,
{
    let label = match &thought.title {
        Some(t) => t.clone(),
        None => id.id.clone(),
    };
    let mut tags: Vec<String> = Vec::new();
    let mut j: usize = 0;
    while j < thought.tags.len()
        invariant
            0 <= j <= thought.tags@.len(),
            string_views(tags@) == crate::entities::tag_views(thought.tags@).subrange(0, j as int),
        decreases thought.tags@.len() - j,
    {
        let ghost prev = string_views(tags@);
        tags.push(thought.tags[j].id.clone());
        proof {
            assert(string_views(tags@) =~= prev.push(tags@.last()@));
            assert(string_views(tags@) =~= crate::entities::tag_views(thought.tags@).subrange(
                0,
                j as int + 1,
            ));
        }
        j = j + 1;
    }
    proof {
        assert(crate::entities::tag_views(thought.tags@).subrange(
            0,
            thought.tags@.len() as int,
        ) =~= crate::entities::tag_views(thought.tags@));
    }
    Node { id: id.id.clone(), label, tags }
}

/// All ids named anywhere in the store: every key, and every reference
/// target of every stored thought.
pub open spec fn id_pool(ts: Seq<(ThoughtID, Thought)>) -> Seq<Seq<char>>
    decreases ts.len(),
{
    if ts.len() == 0 {
        Seq::empty()
    } else {
        id_pool(ts.drop_last()) + seq![ts.last().0@] + crate::entities::ref_targets(
            ts.last().1@.references,
        )
    }
}

/// Every entry's key and reference targets are in the pool.
proof fn lemma_id_pool_member(ts: Seq<(ThoughtID, Thought)>, i: int)
    requires
        0 <= i < ts.len(),
    ensures
        id_pool(ts).contains(ts[i].0@),
        forall|j: int|
            0 <= j < ts[i].1@.references.len() ==> id_pool(ts).contains(
                (#[trigger] ts[i].1@.references[j]).id,
            ),
    decreases ts.len(),
{
    let dl = ts.drop_last();
    let keypart = seq![ts.last().0@];
    let targets = crate::entities::ref_targets(ts.last().1@.references);
    if i == ts.len() - 1 {
        assert(id_pool(ts)[id_pool(dl).len() as int] == ts[i].0@);
        assert forall|j: int|
            0 <= j < ts[i].1@.references.len() implies id_pool(ts).contains(
            (#[trigger] ts[i].1@.references[j]).id,
        ) by {
            assert(targets[j] == ts[i].1@.references[j].id);
            assert(id_pool(ts)[id_pool(dl).len() + 1 + j] == targets[j]);
        }
    } else {
        assert(dl[i] == ts[i]);
        lemma_id_pool_member(dl, i);
        assert forall|x: Seq<char>|
            id_pool(dl).contains(x) implies id_pool(ts).contains(x) by {
            let k = choose|k: int| 0 <= k < id_pool(dl).len() && id_pool(dl)[k] == x;
            assert(id_pool(ts)[k] == x);
        }
    }
}

/// A duplicate-free id list whose members all come from a pool, plus at
/// most one extra id, is no longer than the pool plus one.
proof fn lemma_visited_bound(vs: Seq<Seq<char>>, pool: Seq<Seq<char>>, extra: Seq<char>)
    requires
        crate::graph::views_no_dups(vs),
        forall|k: int| 0 <= k < vs.len() ==> ((#[trigger] vs[k]) == extra || pool.contains(vs[k])),
    ensures
        vs.len() <= pool.len() + 1,
{
    assert(vs.no_duplicates()) by {
        assert forall|a: int, b: int|
            (0 <= a < vs.len() && 0 <= b < vs.len() && a != b) implies vs[a] != vs[b] by {
            if a < b {
                assert(vs[a] != vs[b]);
            } else {
                assert(vs[b] != vs[a]);
            }
        }
    }
    vs.unique_seq_to_set();
    pool.lemma_cardinality_of_set();
    let big = pool.to_set().insert(extra);
    assert(vs.to_set().subset_of(big)) by {
        assert forall|x: Seq<char>| vs.to_set().contains(x) implies big.contains(x) by {
            let k = choose|k: int| 0 <= k < vs.len() && vs[k] == x;
            assert(vs[k] == extra || pool.contains(vs[k]));
        }
    }
    vstd::set_lib::lemma_len_subset(vs.to_set(), big);
}

/// Builds visualization data from the whole graph: one node per stored
/// thought, and one edge per reference edge of every stored thought, with
/// the edges numbered from one in order of creation.
pub fn generate_graph_data(graph: &ThoughtGraph) -> (r: GraphData)
    requires
        graph.wf(),
    ensures
        views_no_dups(node_ids(node_views(r.nodes@))),
        node_ids(node_views(r.nodes@)).to_set() == graph.thoughts_map().dom(),
        edge_payloads(edge_views(r.edges@)) == expected_payloads(
            graph.thoughts_map(),
            node_ids(node_views(r.nodes@)),
        ),
        forall|k: int|
            0 <= k < r.nodes@.len() ==> {
                let nv = #[trigger] node_views(r.nodes@)[k];
                &&& graph.thoughts_map().contains_key(nv.id)
                &&& nv == node_for(graph, nv.id)
            },
        forall|k: int|
            0 <= k < r.edges@.len() ==> {
                let ev = #[trigger] edge_views(r.edges@)[k];
                &&& k < EDGE_NUMBER_LIMIT ==> ev.id == "edge_"@ + dec_str(k + 1)
                &&& graph.thoughts_map().contains_key(ev.source)
                &&& exists|j: int|
                    0 <= j < graph.thoughts_map()[ev.source].references.len() && (
                    #[trigger] graph.thoughts_map()[ev.source].references[j]).id == ev.target
                        && graph.thoughts_map()[ev.source].references[j].notes == ev.label
            },
{
    let mut nodes: Vec<Node> = Vec::new();
    let mut edges: Vec<Edge> = Vec::new();
    let ghost fth = |t: Thought| t@;
    proof {
        graph.lemma_wf_parts();
        graph.lemma_maps_def();
    }
    let mut i: usize = 0;
    proof {
        assert(node_ids(node_views(nodes@)) =~= Seq::<Seq<char>>::empty());
        assert(edge_payloads(edge_views(edges@)) =~= expected_payloads(
            graph.thoughts_map(),
            node_ids(node_views(nodes@)),
        ));
    }
    while i < graph.thoughts.len()
        invariant
            0 <= i <= graph.thoughts@.len(),
            graph.wf(),
            crate::graph::kv_keys_unique(graph.thoughts@),
            graph.thoughts_map() == crate::graph::kv_map(graph.thoughts@, fth),
            fth == (|t: Thought| t@),
            edge_payloads(edge_views(edges@)) == expected_payloads(
                graph.thoughts_map(),
                node_ids(node_views(nodes@)),
            ),
            forall|k: int|
                0 <= k < nodes@.len() ==> {
                    let nv = #[trigger] node_views(nodes@)[k];
                    &&& graph.thoughts_map().contains_key(nv.id)
                    &&& nv == node_for(graph, nv.id)
                },
            nodes@.len() == i,
            forall|k: int|
                0 <= k < i ==> node_views(nodes@)[k].id == (#[trigger] graph.thoughts@[k]).0@,
            forall|k: int|
                0 <= k < edges@.len() ==> {
                    let ev = #[trigger] edge_views(edges@)[k];
                    &&& k < EDGE_NUMBER_LIMIT ==> ev.id == "edge_"@ + dec_str(k + 1)
                    &&& graph.thoughts_map().contains_key(ev.source)
                    &&& exists|j: int|
                        0 <= j < graph.thoughts_map()[ev.source].references.len() && (
                        #[trigger] graph.thoughts_map()[ev.source].references[j]).id == ev.target
                            && graph.thoughts_map()[ev.source].references[j].notes == ev.label
                },
        decreases graph.thoughts@.len() - i,
    {
        proof {
            crate::graph::lemma_kv_map_index(graph.thoughts@, fth, i as int);
        }
        let ghost sid = graph.thoughts@[i as int].0@;
        let ghost tv = graph.thoughts_map()[sid];
        let ghost prev_ids = node_ids(node_views(nodes@));
        let node = make_node(&graph.thoughts[i].0, &graph.thoughts[i].1);
        let ghost nodes_prev = nodes@;
        nodes.push(node);
        proof {
            assert(node_views(nodes@) =~= node_views(nodes_prev).push(nodes@.last()@));
            assert(node_ids(node_views(nodes@)) =~= prev_ids.push(sid));
            assert forall|k: int|
                0 <= k < nodes@.len() implies {
                let nv = #[trigger] node_views(nodes@)[k];
                &&& graph.thoughts_map().contains_key(nv.id)
                &&& nv == node_for(graph, nv.id)
            } by {
                if k < nodes@.len() - 1 {
                    assert(node_views(nodes@)[k] == node_views(nodes_prev)[k]);
                } else {
                    assert(node_views(nodes@)[k] == nodes@.last()@);
                }
            }
        }
        let mut j: usize = 0;
        proof {
            assert(thought_payloads(tv, sid).subrange(0, 0) =~= Seq::<
                (Seq<char>, Seq<char>, Seq<char>),
            >::empty());
            assert(edge_payloads(edge_views(edges@)) =~= expected_payloads(
                graph.thoughts_map(),
                prev_ids,
            ) + thought_payloads(tv, sid).subrange(0, 0));
        }
        while j < graph.thoughts[i].1.references.len()
            invariant
                0 <= i < graph.thoughts@.len(),
                0 <= j <= graph.thoughts@[i as int].1.references@.len(),
                graph.wf(),
                sid == graph.thoughts@[i as int].0@,
                graph.thoughts_map().contains_key(sid),
                tv == graph.thoughts_map()[sid],
                tv == graph.thoughts@[i as int].1@,
                tv.references.len() == graph.thoughts@[i as int].1.references@.len(),
                prev_ids == node_ids(node_views(nodes@)).drop_last(),
                edge_payloads(edge_views(edges@)) == expected_payloads(
                    graph.thoughts_map(),
                    prev_ids,
                ) + thought_payloads(tv, sid).subrange(0, j as int),
                forall|k: int|
                    0 <= k < edges@.len() ==> {
                        let ev = #[trigger] edge_views(edges@)[k];
                        &&& k < EDGE_NUMBER_LIMIT ==> ev.id == "edge_"@ + dec_str(k + 1)
                        &&& graph.thoughts_map().contains_key(ev.source)
                        &&& exists|m: int|
                            0 <= m < graph.thoughts_map()[ev.source].references.len() && (
                            #[trigger] graph.thoughts_map()[ev.source].references[m]).id
                                == ev.target && graph.thoughts_map()[ev.source].references[m].notes
                                == ev.label
                    },
            decreases graph.thoughts@[i as int].1.references@.len() - j,
        {
            let cur = edges.len() as u64;
            let num = u64_to_string(
                if cur < EDGE_NUMBER_LIMIT {
                    cur + 1
                } else {
                    cur
                },
            );
            let mut eid = String::new();
            eid.append("edge_");
            eid.append(num.as_str());
            let r = &graph.thoughts[i].1.references[j];
            let edge = Edge {
                id: eid,
                source: graph.thoughts[i].0.id.clone(),
                target: r.id.id.clone(),
                label: r.notes.clone(),
            };
            let ghost edges_prev = edges@;
            edges.push(edge);
            proof {
                assert(edge_views(edges@) =~= edge_views(edges_prev).push(edges@.last()@));
                assert(tv.references[j as int] == crate::entities::ref_views(
                    graph.thoughts@[i as int].1.references@,
                )[j as int]);
                assert(edge_payloads(edge_views(edges@)) =~= edge_payloads(
                    edge_views(edges_prev),
                ).push((sid, tv.references[j as int].id, tv.references[j as int].notes)));
                assert(thought_payloads(tv, sid)[j as int] == (
                    sid,
                    tv.references[j as int].id,
                    tv.references[j as int].notes,
                ));
                assert(thought_payloads(tv, sid).subrange(0, j as int + 1) =~= thought_payloads(
                    tv,
                    sid,
                ).subrange(0, j as int).push(thought_payloads(tv, sid)[j as int]));
                assert(edge_payloads(edge_views(edges@)) =~= expected_payloads(
                    graph.thoughts_map(),
                    prev_ids,
                ) + thought_payloads(tv, sid).subrange(0, j as int + 1));
                assert forall|k: int|
                    0 <= k < edges@.len() implies {
                    let ev = #[trigger] edge_views(edges@)[k];
                    &&& k < EDGE_NUMBER_LIMIT ==> ev.id == "edge_"@ + dec_str(k + 1)
                    &&& graph.thoughts_map().contains_key(ev.source)
                    &&& exists|m: int|
                        0 <= m < graph.thoughts_map()[ev.source].references.len() && (
                        #[trigger] graph.thoughts_map()[ev.source].references[m]).id == ev.target
                            && graph.thoughts_map()[ev.source].references[m].notes == ev.label
                } by {
                    if k < edges@.len() - 1 {
                        assert(edge_views(edges@)[k] == edge_views(edges_prev)[k]);
                    } else {
                        let ev = edge_views(edges@)[k];
                        assert(ev == edges@.last()@);
                        assert(ev.source == sid);
                        assert(tv.references[j as int].id == ev.target);
                        assert(tv.references[j as int].notes == ev.label);
                    }
                }
            }
            j = j + 1;
        }
        proof {
            let payloads = thought_payloads(tv, sid);
            assert(payloads.subrange(0, payloads.len() as int) =~= payloads);
            let new_ids = node_ids(node_views(nodes@));
            assert(new_ids.drop_last() =~= prev_ids);
            assert(new_ids.last() == sid);
            assert(expected_payloads(graph.thoughts_map(), new_ids) == expected_payloads(
                graph.thoughts_map(),
                prev_ids,
            ) + payloads);
            assert(edge_payloads(edge_views(edges@)) =~= expected_payloads(
                graph.thoughts_map(),
                new_ids,
            ));
        }
        i = i + 1;
    }
    proof {
        assert forall|a: int, b: int|
            0 <= a < b < node_ids(node_views(nodes@)).len() implies node_ids(node_views(nodes@))[a]
            != node_ids(node_views(nodes@))[b] by {
            assert(node_views(nodes@)[a].id == (#[trigger] graph.thoughts@[a]).0@);
            assert(node_views(nodes@)[b].id == (#[trigger] graph.thoughts@[b]).0@);
        }
        assert forall|x: Seq<char>|
            graph.thoughts_map().dom().contains(x) implies node_views(nodes@).map_values(
            |n: NodeView| n.id,
        ).contains(x) by {
            crate::graph::lemma_kv_map_contains(graph.thoughts@, fth, x);
            let j = choose|j: int|
                0 <= j < graph.thoughts@.len() && (#[trigger] graph.thoughts@[j]).0@ == x;
            assert(node_views(nodes@).map_values(|n: NodeView| n.id)[j] == x);
        }
        assert forall|x: Seq<char>|
            node_views(nodes@).map_values(|n: NodeView| n.id).contains(
            x,
        ) implies graph.thoughts_map().dom().contains(x) by {
            assert(exists|j: int|
                0 <= j < node_views(nodes@).len() && (#[trigger] node_views(nodes@)[j]).id == x);
            let j = choose|j: int|
                0 <= j < node_views(nodes@).len() && (#[trigger] node_views(nodes@)[j]).id == x;
            assert(node_views(nodes@)[j].id == x);
        }
        assert(node_ids(node_views(nodes@)).to_set() =~= graph.thoughts_map().dom());
    }
    GraphData { nodes, edges }
}

/// The bookkeeping of the focused walk: every queued id and every shown
/// node id is marked visited, no id is queued twice, no queued id is
/// already shown, and no id is shown twice.
spec fn walk_wf(visited: Seq<Seq<char>>, queue: Seq<(ThoughtID, usize)>, ns: Seq<NodeView>) -> bool {
    &&& forall|a: int| 0 <= a < queue.len() ==> visited.contains((#[trigger] queue[a]).0@)
    &&& forall|k: int| 0 <= k < ns.len() ==> visited.contains((#[trigger] ns[k]).id)
    &&& forall|a: int, b: int|
        #![trigger queue[a], queue[b]]
        0 <= a < b < queue.len() ==> queue[a].0@ != queue[b].0@
    &&& forall|k: int, a: int|
        #![trigger ns[k], queue[a]]
        0 <= k < ns.len() && 0 <= a < queue.len() ==> ns[k].id != queue[a].0@
    &&& views_no_dups(node_ids(ns))
}

/// The center is already shown, or still queued within the depth bound.
spec fn center_pending(
    center: Seq<char>,
    depth: usize,
    queue: Seq<(ThoughtID, usize)>,
    ns: Seq<NodeView>,
) -> bool {
    ||| node_ids(ns).contains(center)
    ||| exists|a: int|
        0 <= a < queue.len() && (#[trigger] queue[a]).0@ == center && queue[a].1 <= depth
}

/// Marking a fresh id visited and queueing it keeps the walk bookkeeping.
proof fn lemma_walk_wf_enqueue(
    visited: Seq<Seq<char>>,
    queue: Seq<(ThoughtID, usize)>,
    ns: Seq<NodeView>,
    entry: (ThoughtID, usize),
)
    requires
        walk_wf(visited, queue, ns),
        !visited.contains(entry.0@),
    ensures
        walk_wf(visited.push(entry.0@), queue.push(entry), ns),
{
    let v2 = visited.push(entry.0@);
    let q2 = queue.push(entry);
    assert forall|a: int| 0 <= a < q2.len() implies v2.contains((#[trigger] q2[a]).0@) by {
        if a < queue.len() {
            assert(q2[a] == queue[a]);
            crate::graph::lemma_push_contains(visited, entry.0@, queue[a].0@);
        } else {
            assert(q2[a] == entry);
            assert(v2[visited.len() as int] == entry.0@);
        }
    }
    assert forall|k: int| 0 <= k < ns.len() implies v2.contains((#[trigger] ns[k]).id) by {
        crate::graph::lemma_push_contains(visited, entry.0@, ns[k].id);
    }
    assert forall|a: int, b: int|
        #![trigger q2[a], q2[b]]
        0 <= a < b < q2.len() implies q2[a].0@ != q2[b].0@ by {
        if b < queue.len() {
            assert(q2[a] == queue[a] && q2[b] == queue[b]);
        } else {
            assert(q2[a] == queue[a]);
            assert(q2[b] == entry);
            assert(visited.contains(queue[a].0@));
        }
    }
    assert forall|k: int, a: int|
        #![trigger ns[k], q2[a]]
        0 <= k < ns.len() && 0 <= a < q2.len() implies ns[k].id != q2[a].0@ by {
        if a < queue.len() {
            assert(q2[a] == queue[a]);
        } else {
            assert(q2[a] == entry);
            assert(visited.contains(ns[k].id));
        }
    }
}

/// Builds a subgraph centered on one thought: the thoughts reached from it
/// within the given depth along references in either direction, walked
/// depth-first. Every node shown is a stored thought; every edge shown
/// joins a stored source to one of its actual reference targets, carrying
/// the reference's annotation.
pub fn generate_focused_graph(graph: &ThoughtGraph, center_id: &ThoughtID, depth: usize) -> (r:
    GraphData)
    requires
        graph.wf(),
    ensures
        forall|k: int|
            0 <= k < r.nodes@.len() ==> {
                let nv = #[trigger] node_views(r.nodes@)[k];
                &&& graph.thoughts_map().contains_key(nv.id)
                &&& nv == node_for(graph, nv.id)
            },
        forall|k: int|
            0 <= k < r.edges@.len() ==> {
                let ev = #[trigger] edge_views(r.edges@)[k];
                &&& graph.thoughts_map().contains_key(ev.source)
                &&& exists|j: int|
                    0 <= j < graph.thoughts_map()[ev.source].references.len() && (
                    #[trigger] graph.thoughts_map()[ev.source].references[j]).id == ev.target
                        && graph.thoughts_map()[ev.source].references[j].notes == ev.label
            },
        views_no_dups(node_ids(node_views(r.nodes@))),
        graph.thoughts_map().contains_key(center_id@) ==> node_ids(node_views(r.nodes@)).contains(
            center_id@,
        ),
        !graph.thoughts_map().contains_key(center_id@) ==> r.nodes@.len() == 0 && r.edges@.len()
            == 0,
{
    let mut visited: Vec<ThoughtID> = Vec::new();
    let mut nodes: Vec<Node> = Vec::new();
    let mut edges: Vec<Edge> = Vec::new();
    let ghost fth = |t: Thought| t@;
    let ghost pool = id_pool(graph.thoughts@);
    proof {
        graph.lemma_wf_parts();
        graph.lemma_maps_def();
    }
    let center_exists = match graph.get_thought(center_id) {
        Some(_) => true,
        None => false,
    };
    if center_exists {
        let mut queue: Vec<(ThoughtID, usize)> = Vec::new();
        queue.push((center_id.clone(), 0));
        visited.push(center_id.clone());
        proof {
            lemma_visited_bound(id_views(visited@), pool, center_id@);
            assert(id_views(visited@)[0] == center_id@);
            assert(queue@[0].0@ == center_id@ && queue@[0].1 <= depth);
            assert(walk_wf(id_views(visited@), queue@, node_views(nodes@)));
            assert(center_pending(center_id@, depth, queue@, node_views(nodes@)));
        }
        while queue.len() > 0
            invariant
                graph.wf(),
                crate::graph::kv_keys_unique(graph.thoughts@),
                graph.thoughts_map() == crate::graph::kv_map(graph.thoughts@, fth),
                fth == (|t: Thought| t@),
                pool == id_pool(graph.thoughts@),
                graph.thoughts_map().contains_key(center_id@),
                crate::graph::views_no_dups(id_views(visited@)),
                forall|k: int|
                    0 <= k < visited@.len() ==> ((#[trigger] id_views(visited@)[k]) == center_id@
                        || pool.contains(id_views(visited@)[k])),
                visited@.len() <= pool.len() + 1,
                walk_wf(id_views(visited@), queue@, node_views(nodes@)),
                center_pending(center_id@, depth, queue@, node_views(nodes@)),
                forall|k: int|
                    0 <= k < nodes@.len() ==> {
                        let nv = #[trigger] node_views(nodes@)[k];
                        &&& graph.thoughts_map().contains_key(nv.id)
                        &&& nv == node_for(graph, nv.id)
                    },
                forall|k: int|
                    0 <= k < edges@.len() ==> {
                        let ev = #[trigger] edge_views(edges@)[k];
                        &&& graph.thoughts_map().contains_key(ev.source)
                        &&& exists|j: int|
                            0 <= j < graph.thoughts_map()[ev.source].references.len() && (
                            #[trigger] graph.thoughts_map()[ev.source].references[j]).id
                                == ev.target && graph.thoughts_map()[
                            ev.source].references[j].notes == ev.label
                    },
            ensures
                queue@.len() == 0,
            decreases pool.len() + 1 - visited@.len(), queue@.len(),
        {
            let ghost v0 = visited@.len();
            let ghost qb = queue@;
            let next = queue.pop();
            let current = match next {
                Some(p) => p,
                None => { break },
            };
            let ghost q1 = queue@.len();
            let current_id = current.0;
            let current_depth = current.1;
            proof {
                assert(queue@ =~= qb.drop_last());
                assert(current == qb.last());
                assert forall|a: int| 0 <= a < queue@.len() implies #[trigger] queue@[a]
                    == qb[a] by {}
                assert(walk_wf(id_views(visited@), queue@, node_views(nodes@)));
            }
            if current_depth > depth {
                proof {
                    assert(center_pending(center_id@, depth, queue@, node_views(nodes@))) by {
                        if !node_ids(node_views(nodes@)).contains(center_id@) {
                            let a = choose|a: int|
                                0 <= a < qb.len() && (#[trigger] qb[a]).0@ == center_id@ && qb[a].1
                                    <= depth;
                            assert(a < qb.len() - 1) by {
                                if a == qb.len() - 1 {
                                    assert(qb[a].1 == current_depth);
                                }
                            }
                            assert(queue@[a] == qb[a]);
                        }
                    }
                }
                continue ;
            }
            match graph.get_thought(&current_id) {
                None => {
                    proof {
                        assert(center_pending(center_id@, depth, queue@, node_views(nodes@))) by {
                            if !node_ids(node_views(nodes@)).contains(center_id@) {
                                let a = choose|a: int|
                                    0 <= a < qb.len() && (#[trigger] qb[a]).0@ == center_id@
                                        && qb[a].1 <= depth;
                                assert(a < qb.len() - 1) by {
                                    if a == qb.len() - 1 {
                                        // the popped id would be the center, which
                                        // names a stored thought
                                        assert(current_id@ == center_id@);
                                    }
                                }
                                assert(queue@[a] == qb[a]);
                            }
                        }
                    }
                },
                Some(thought) => {
                    let ghost tv = graph.thoughts_map()[current_id@];
                    proof {
                        crate::graph::lemma_kv_map_contains(graph.thoughts@, fth, current_id@);
                    }
                    let ghost entry_i = choose|w: int|
                        0 <= w < graph.thoughts@.len() && (#[trigger] graph.thoughts@[w]).0@
                            == current_id@;
                    proof {
                        crate::graph::lemma_kv_map_index(graph.thoughts@, fth, entry_i);
                        lemma_id_pool_member(graph.thoughts@, entry_i);
                    }
                    let node = make_node(&current_id, thought);
                    let ghost nodes_prev = nodes@;
                    nodes.push(node);
                    proof {
                        assert(node_views(nodes@) =~= node_views(nodes_prev).push(nodes@.last()@));
                        assert forall|k: int|
                            0 <= k < nodes@.len() implies {
                            let nv = #[trigger] node_views(nodes@)[k];
                            &&& graph.thoughts_map().contains_key(nv.id)
                            &&& nv == node_for(graph, nv.id)
                        } by {
                            if k < nodes@.len() - 1 {
                                assert(node_views(nodes@)[k] == node_views(nodes_prev)[k]);
                            } else {
                                assert(node_views(nodes@)[k] == nodes@.last()@);
                            }
                        }
                        // the shown id was queued, so it is fresh among the nodes
                        assert(node_ids(node_views(nodes@)) =~= node_ids(
                            node_views(nodes_prev),
                        ).push(current_id@));
                        assert(!node_ids(node_views(nodes_prev)).contains(current_id@)) by {
                            if node_ids(node_views(nodes_prev)).contains(current_id@) {
                                let k = choose|k: int|
                                    0 <= k < node_ids(node_views(nodes_prev)).len() && node_ids(
                                        node_views(nodes_prev),
                                    )[k] == current_id@;
                                assert(node_views(nodes_prev)[k].id != qb[qb.len() - 1].0@);
                            }
                        }
                        crate::graph::lemma_push_no_dups(
                            node_ids(node_views(nodes_prev)),
                            current_id@,
                        );
                        assert(walk_wf(id_views(visited@), queue@, node_views(nodes@))) by {
                            assert forall|k: int, a: int|
                                #![trigger node_views(nodes@)[k], queue@[a]]
                                0 <= k < nodes@.len() && 0 <= a < queue@.len() implies node_views(
                                nodes@,
                            )[k].id != queue@[a].0@ by {
                                if k < nodes@.len() - 1 {
                                    assert(node_views(nodes@)[k] == node_views(nodes_prev)[k]);
                                } else {
                                    assert(node_views(nodes@)[k].id == qb[qb.len() - 1].0@);
                                    assert(queue@[a] == qb[a]);
                                }
                            }
                            assert forall|k: int|
                                0 <= k < nodes@.len() implies id_views(visited@).contains(
                                (#[trigger] node_views(nodes@)[k]).id,
                            ) by {
                                if k < nodes@.len() - 1 {
                                    assert(node_views(nodes@)[k] == node_views(nodes_prev)[k]);
                                }
                            }
                        }
                        assert(center_pending(center_id@, depth, queue@, node_views(nodes@))) by {
                            if current_id@ == center_id@ {
                                assert(node_ids(node_views(nodes@))[nodes@.len() - 1]
                                    == center_id@);
                            } else if !node_ids(node_views(nodes@)).contains(center_id@) {
                                assert(!node_ids(node_views(nodes_prev)).contains(center_id@)) by {
                                    if node_ids(node_views(nodes_prev)).contains(center_id@) {
                                        let k = choose|k: int|
                                            0 <= k < node_ids(node_views(nodes_prev)).len()
                                                && node_ids(node_views(nodes_prev))[k]
                                                == center_id@;
                                        assert(node_ids(node_views(nodes@))[k] == center_id@);
                                    }
                                }
                                let a = choose|a: int|
                                    0 <= a < qb.len() && (#[trigger] qb[a]).0@ == center_id@
                                        && qb[a].1 <= depth;
                                assert(a < qb.len() - 1);
                                assert(queue@[a] == qb[a]);
                            }
                        }
                    }
                    // follow the outgoing references
                    let refs = clone_reference_list(&thought.references);
                    let mut j: usize = 0;
                    while j < refs.len()
                        invariant
                            graph.wf(),
                            0 <= j <= refs@.len(),
                            graph.thoughts_map().contains_key(current_id@),
                            tv == graph.thoughts_map()[current_id@],
                            tv.references.len() == refs@.len(),
                            forall|m: int|
                                0 <= m < refs@.len() ==> (#[trigger] refs@[m])@
                                    == tv.references[m],
                            0 <= entry_i < graph.thoughts@.len(),
                            graph.thoughts@[entry_i].0@ == current_id@,
                            graph.thoughts@[entry_i].1@ == tv,
                            pool == id_pool(graph.thoughts@),
                            crate::graph::views_no_dups(id_views(visited@)),
                            forall|k: int|
                                0 <= k < visited@.len() ==> ((#[trigger] id_views(visited@)[k])
                                    == center_id@ || pool.contains(id_views(visited@)[k])),
                            visited@.len() <= pool.len() + 1,
                            visited@.len() - v0 == queue@.len() - q1,
                            v0 <= visited@.len(),
                            walk_wf(id_views(visited@), queue@, node_views(nodes@)),
                            center_pending(center_id@, depth, queue@, node_views(nodes@)),
                            forall|k: int|
                                0 <= k < edges@.len() ==> {
                                    let ev = #[trigger] edge_views(edges@)[k];
                                    &&& graph.thoughts_map().contains_key(ev.source)
                                    &&& exists|m: int|
                                        0 <= m < graph.thoughts_map()[ev.source].references.len()
                                            && (#[trigger] graph.thoughts_map()[
                                        ev.source].references[m]).id == ev.target
                                            && graph.thoughts_map()[ev.source].references[m].notes
                                            == ev.label
                                },
                        decreases refs@.len() - j,
                    {
                        if !ids_contain(&visited, &refs[j].id) && current_depth < depth {
                            let ghost visited_prev = id_views(visited@);
                            let ghost queue_prev = queue@;
                            queue.push((refs[j].id.clone(), current_depth + 1));
                            visited.push(refs[j].id.clone());
                            proof {
                                let x = refs@[j as int]@.id;
                                assert(id_views(visited@) =~= visited_prev.push(x));
                                assert(pool.contains(tv.references[j as int].id)) by {
                                    lemma_id_pool_member(graph.thoughts@, entry_i);
                                }
                                crate::graph::lemma_push_no_dups(visited_prev, x);
                                lemma_visited_bound(id_views(visited@), pool, center_id@);
                                assert(queue@ =~= queue_prev.push(queue@.last()));
                                assert(queue@.last().0@ == x);
                                lemma_walk_wf_enqueue(
                                    visited_prev,
                                    queue_prev,
                                    node_views(nodes@),
                                    queue@.last(),
                                );
                                assert(center_pending(
                                    center_id@,
                                    depth,
                                    queue@,
                                    node_views(nodes@),
                                )) by {
                                    if !node_ids(node_views(nodes@)).contains(center_id@) {
                                        let a = choose|a: int|
                                            0 <= a < queue_prev.len() && (
                                            #[trigger] queue_prev[a]).0@ == center_id@
                                                && queue_prev[a].1 <= depth;
                                        assert(queue@[a] == queue_prev[a]);
                                    }
                                }
                            }
                        }
                        let cur = edges.len() as u64;
                        let num = u64_to_string(
                            if cur < EDGE_NUMBER_LIMIT {
                                cur + 1
                            } else {
                                cur
                            },
                        );
                        let mut eid = String::new();
                        eid.append("edge_");
                        eid.append(num.as_str());
                        let edge = Edge {
                            id: eid,
                            source: current_id.id.clone(),
                            target: refs[j].id.id.clone(),
                            label: refs[j].notes.clone(),
                        };
                        let ghost edges_prev = edges@;
                        edges.push(edge);
                        proof {
                            assert(edge_views(edges@) =~= edge_views(edges_prev).push(
                                edges@.last()@,
                            ));
                            assert forall|k: int|
                                0 <= k < edges@.len() implies {
                                let ev = #[trigger] edge_views(edges@)[k];
                                &&& graph.thoughts_map().contains_key(ev.source)
                                &&& exists|m: int|
                                    0 <= m < graph.thoughts_map()[ev.source].references.len() && (
                                    #[trigger] graph.thoughts_map()[ev.source].references[m]).id
                                        == ev.target && graph.thoughts_map()[
                                    ev.source].references[m].notes == ev.label
                            } by {
                                if k < edges@.len() - 1 {
                                    assert(edge_views(edges@)[k] == edge_views(edges_prev)[k]);
                                } else {
                                    let ev = edge_views(edges@)[k];
                                    assert(ev.source == current_id@);
                                    assert(tv.references[j as int].id == ev.target);
                                    assert(tv.references[j as int].notes == ev.label);
                                }
                            }
                        }
                        j = j + 1;
                    }
                    // follow the incoming references
                    let backlinks = graph.get_backlinks(&current_id);
                    let ghost blset = graph.backlink_set(current_id@);
                    let mut b: usize = 0;
                    while b < backlinks.len()
                        invariant
                            graph.wf(),
                            crate::graph::kv_keys_unique(graph.thoughts@),
                            graph.thoughts_map() == crate::graph::kv_map(graph.thoughts@, fth),
                            fth == (|t: Thought| t@),
                            0 <= b <= backlinks@.len(),
                            graph.thoughts_map().contains_key(current_id@),
                            id_views(backlinks@) == (if graph.backrefs_map().contains_key(
                                current_id@,
                            ) {
                                graph.backrefs_map()[current_id@]
                            } else {
                                Seq::<Seq<char>>::empty()
                            }),
                            pool == id_pool(graph.thoughts@),
                            crate::graph::views_no_dups(id_views(visited@)),
                            forall|k: int|
                                0 <= k < visited@.len() ==> ((#[trigger] id_views(visited@)[k])
                                    == center_id@ || pool.contains(id_views(visited@)[k])),
                            visited@.len() <= pool.len() + 1,
                            visited@.len() - v0 == queue@.len() - q1,
                            v0 <= visited@.len(),
                            walk_wf(id_views(visited@), queue@, node_views(nodes@)),
                            center_pending(center_id@, depth, queue@, node_views(nodes@)),
                            forall|k: int|
                                0 <= k < edges@.len() ==> {
                                    let ev = #[trigger] edge_views(edges@)[k];
                                    &&& graph.thoughts_map().contains_key(ev.source)
                                    &&& exists|m: int|
                                        0 <= m < graph.thoughts_map()[ev.source].references.len()
                                            && (#[trigger] graph.thoughts_map()[
                                        ev.source].references[m]).id == ev.target
                                            && graph.thoughts_map()[ev.source].references[m].notes
                                            == ev.label
                                },
                        decreases backlinks@.len() - b,
                    {
                        proof {
                            graph.lemma_wf_parts();
                            // a recorded backlink names a stored thought
                            assert(graph.backrefs_map().contains_key(current_id@)) by {
                                if !graph.backrefs_map().contains_key(current_id@) {
                                    assert(id_views(backlinks@).len() == 0);
                                }
                            }
                            assert(graph.backrefs_map()[current_id@].contains(
                                id_views(backlinks@)[b as int],
                            )) by {
                                assert(graph.backrefs_map()[current_id@][b as int] == id_views(
                                    backlinks@,
                                )[b as int]);
                            }
                            assert(crate::graph::referrers_in(
                                graph.thoughts_map(),
                                current_id@,
                            ).contains(id_views(backlinks@)[b as int]));
                            assert(graph.thoughts_map().contains_key(
                                id_views(backlinks@)[b as int],
                            ));
                        }
                        if !ids_contain(&visited, &backlinks[b]) && current_depth < depth {
                            let ghost visited_prev = id_views(visited@);
                            let ghost queue_prev = queue@;
                            queue.push((backlinks[b].clone(), current_depth + 1));
                            visited.push(backlinks[b].clone());
                            proof {
                                let x = backlinks@[b as int]@;
                                assert(id_views(visited@) =~= visited_prev.push(x));
                                assert(pool.contains(x)) by {
                                    crate::graph::lemma_kv_map_contains(
                                        graph.thoughts@,
                                        fth,
                                        x,
                                    );
                                    let w = choose|w: int|
                                        0 <= w < graph.thoughts@.len() && (
                                        #[trigger] graph.thoughts@[w]).0@ == x;
                                    lemma_id_pool_member(graph.thoughts@, w);
                                }
                                crate::graph::lemma_push_no_dups(visited_prev, x);
                                lemma_visited_bound(id_views(visited@), pool, center_id@);
                                assert(queue@ =~= queue_prev.push(queue@.last()));
                                assert(queue@.last().0@ == x);
                                lemma_walk_wf_enqueue(
                                    visited_prev,
                                    queue_prev,
                                    node_views(nodes@),
                                    queue@.last(),
                                );
                                assert(center_pending(
                                    center_id@,
                                    depth,
                                    queue@,
                                    node_views(nodes@),
                                )) by {
                                    if !node_ids(node_views(nodes@)).contains(center_id@) {
                                        let a = choose|a: int|
                                            0 <= a < queue_prev.len() && (
                                            #[trigger] queue_prev[a]).0@ == center_id@
                                                && queue_prev[a].1 <= depth;
                                        assert(queue@[a] == queue_prev[a]);
                                    }
                                }
                            }
                        }
                        if ids_contain(&visited, &backlinks[b]) {
                            match graph.get_thought(&backlinks[b]) {
                                None => {},
                                Some(backlink_thought) => {
                                    let ghost bid = backlinks@[b as int]@;
                                    let ghost bv = graph.thoughts_map()[bid];
                                    let brefs = clone_reference_list(&backlink_thought.references);
                                    let mut m: usize = 0;
                                    while m < brefs.len()
                                        invariant
                                            graph.wf(),
                                            0 <= m <= brefs@.len(),
                                            0 <= b < backlinks@.len(),
                                            bid == backlinks@[b as int]@,
                                            graph.thoughts_map().contains_key(bid),
                                            bv == graph.thoughts_map()[bid],
                                            bv.references.len() == brefs@.len(),
                                            forall|w: int|
                                                0 <= w < brefs@.len() ==> (#[trigger] brefs@[w])@
                                                    == bv.references[w],
                                            forall|k: int|
                                                0 <= k < edges@.len() ==> {
                                                    let ev = #[trigger] edge_views(edges@)[k];
                                                    &&& graph.thoughts_map().contains_key(
                                                        ev.source,
                                                    )
                                                    &&& exists|w: int|
                                                        0 <= w < graph.thoughts_map()[
                                                        ev.source].references.len() && (
                                                        #[trigger] graph.thoughts_map()[
                                                        ev.source].references[w]).id == ev.target
                                                            && graph.thoughts_map()[
                                                        ev.source].references[w].notes == ev.label
                                                },
                                        decreases brefs@.len() - m,
                                    {
                                        if brefs[m].id.id == current_id.id {
                                            let cur = edges.len() as u64;
                                            let num = u64_to_string(
                                                if cur < EDGE_NUMBER_LIMIT {
                                                    cur + 1
                                                } else {
                                                    cur
                                                },
                                            );
                                            let mut eid = String::new();
                                            eid.append("edge_");
                                            eid.append(num.as_str());
                                            let edge = Edge {
                                                id: eid,
                                                source: backlinks[b].id.clone(),
                                                target: current_id.id.clone(),
                                                label: brefs[m].notes.clone(),
                                            };
                                            let ghost edges_prev = edges@;
                                            edges.push(edge);
                                            proof {
                                                assert(edge_views(edges@) =~= edge_views(
                                                    edges_prev,
                                                ).push(edges@.last()@));
                                                assert forall|k: int|
                                                    0 <= k < edges@.len() implies {
                                                    let ev = #[trigger] edge_views(edges@)[k];
                                                    &&& graph.thoughts_map().contains_key(
                                                        ev.source,
                                                    )
                                                    &&& exists|w: int|
                                                        0 <= w < graph.thoughts_map()[
                                                        ev.source].references.len() && (
                                                        #[trigger] graph.thoughts_map()[
                                                        ev.source].references[w]).id == ev.target
                                                            && graph.thoughts_map()[
                                                        ev.source].references[w].notes == ev.label
                                                } by {
                                                    if k < edges@.len() - 1 {
                                                        assert(edge_views(edges@)[k]
                                                            == edge_views(edges_prev)[k]);
                                                    } else {
                                                        let ev = edge_views(edges@)[k];
                                                        assert(ev.source == bid);
                                                        assert(bv.references[m as int].id
                                                            == ev.target);
                                                        assert(bv.references[m as int].notes
                                                            == ev.label);
                                                    }
                                                }
                                            }
                                        }
                                        m = m + 1;
                                    }
                                },
                            }
                        }
                        b = b + 1;
                    }
                },
            }
        }
        proof {
            assert(node_ids(node_views(nodes@)).contains(center_id@)) by {
                if !node_ids(node_views(nodes@)).contains(center_id@) {
                    assert(exists|a: int|
                        0 <= a < queue@.len() && (#[trigger] queue@[a]).0@ == center_id@
                            && queue@[a].1 <= depth);
                    assert(queue@.len() == 0);
                }
            }
        }
    } else {
        proof {
            assert(views_no_dups(node_ids(node_views(nodes@))));
        }
    }
    GraphData { nodes, edges }
}

/// Copy of a reference list.
fn clone_reference_list(v: &Vec<crate::entities::Reference>) -> (r: Vec<crate::entities::Reference>)
    ensures
        r@.len() == v@.len(),
        forall|m: int| 0 <= m < v@.len() ==> (#[trigger] r@[m])@ == v@[m]@,
{
    let mut out: Vec<crate::entities::Reference> = Vec::new();
    let mut m: usize = 0;
    while m < v.len()
        invariant
            0 <= m <= v@.len(),
            out@.len() == m,
            forall|w: int| 0 <= w < m ==> (#[trigger] out@[w])@ == v@[w]@,
        decreases v@.len() - m,
    {
        out.push(v[m].clone());
        m = m + 1;
    }
    out
}

} // verus!
