use thoughtgraph::Command;
use thoughtgraph::Query;
use thoughtgraph::Reference;
use thoughtgraph::Tag;
use thoughtgraph::TagID;
use thoughtgraph::Thought;
use thoughtgraph::ThoughtGraph;
use thoughtgraph::ThoughtID;
use thoughtgraph::Timestamp;
use thoughtgraph::ui::format_column;
use thoughtgraph::visualization::generate_focused_graph;
use thoughtgraph::ui::suggest_title_from_content;
use thoughtgraph::visualization::generate_graph_data;

fn tid(id: &str) -> ThoughtID {
    ThoughtID::new(id.to_string())
}

fn gid(id: &str) -> TagID {
    TagID::new(id.to_string())
}

fn reference(id: &str, notes: &str) -> Reference {
    Reference::new(tid(id), notes.to_string(), Timestamp::new(0, 0))
}

fn put(graph: &mut ThoughtGraph, id: &str, title: &str, body: &str, tags: Vec<TagID>,
    refs: Vec<Reference>) {
    graph.command(&Command::PutThought {
        id: tid(id),
        thought: Thought::new(Some(title.to_string()), body.to_string(), tags, refs),
    });
}

// The backreference invariant on a concrete store: a thought holds a
// reference to a target exactly when the backlink list of the target names
// it.
#[test]
fn test_invariant_concrete() {
    let mut graph = ThoughtGraph::new();
    put(&mut graph, "a", "A", "body a", vec![], vec![]);
    put(&mut graph, "b", "B", "body b", vec![], vec![reference("a", "to a"), reference(
        "c",
        "dangling",
    )]);

    // forward edge b -> a is mirrored
    assert!(graph.get_backlinks(&tid("a")).contains(&tid("b")));
    // the dangling edge b -> c is mirrored too
    assert!(graph.get_backlinks(&tid("c")).contains(&tid("b")));
    // a references nothing, so nothing lists it as a source
    assert!(graph.get_backlinks(&tid("b")).is_empty());
}

// Deleting an id that names no thought and carries no backlink entry
// leaves the observable store state unchanged.
#[test]
fn test_delete_nonexistent_is_noop() {
    let mut graph = ThoughtGraph::new();
    graph.command(&Command::PutTag { id: gid("t"), tag: Tag::new("a tag".to_string()) });
    put(&mut graph, "a", "A", "body", vec![gid("t")], vec![]);

    let thoughts_before = graph.list_thoughts();
    let tags_before = graph.list_tags();
    let backlinks_before = graph.get_backlinks(&tid("a"));

    graph.command(&Command::DeleteThought { id: tid("missing") });

    assert_eq!(graph.list_thoughts().len(), thoughts_before.len());
    assert_eq!(graph.list_tags().len(), tags_before.len());
    assert_eq!(graph.get_backlinks(&tid("a")).len(), backlinks_before.len());
    assert!(graph.get_thought(&tid("a")).is_some());
}

// Overwriting a thought with a disjoint reference set retracts the old
// backlinks, records the new ones, and leaves untouched targets alone.
#[test]
fn test_overwrite_disjoint_references() {
    let mut graph = ThoughtGraph::new();
    put(&mut graph, "x", "X", "x", vec![], vec![]);
    put(&mut graph, "y", "Y", "y", vec![], vec![]);
    put(&mut graph, "z", "Z", "z", vec![], vec![]);
    put(&mut graph, "other", "Other", "other", vec![], vec![reference("z", "stays")]);
    put(&mut graph, "a", "A", "first version", vec![], vec![reference("x", "old")]);

    assert!(graph.get_backlinks(&tid("x")).contains(&tid("a")));

    // overwrite with a disjoint reference set
    put(&mut graph, "a", "A", "second version", vec![], vec![reference("y", "new")]);

    assert!(!graph.get_backlinks(&tid("x")).contains(&tid("a")));
    assert!(graph.get_backlinks(&tid("y")).contains(&tid("a")));
    // the entry of a target untouched by either version is unaffected
    assert_eq!(graph.get_backlinks(&tid("z")), vec![tid("other")]);
}

// The query laws on concrete values: empty conjunction and disjunction
// match nothing; singletons match like their sub-query; the pair forms are
// commutative; the three-element forms associate.
#[test]
fn test_query_laws_concrete() {
    let mut graph = ThoughtGraph::new();
    graph.command(&Command::PutTag { id: gid("t1"), tag: Tag::new("one".to_string()) });
    graph.command(&Command::PutTag { id: gid("t2"), tag: Tag::new("two".to_string()) });
    graph.command(&Command::PutTag { id: gid("t3"), tag: Tag::new("three".to_string()) });
    put(&mut graph, "p", "P", "p", vec![gid("t1"), gid("t2"), gid("t3")], vec![]);
    put(&mut graph, "q", "Q", "q", vec![gid("t1"), gid("t2")], vec![]);
    put(&mut graph, "r", "R", "r", vec![gid("t3")], vec![]);

    assert_eq!(graph.query(&Query::And(vec![])).len(), 0);
    assert_eq!(graph.query(&Query::Or(vec![])).len(), 0);

    let single_and = graph.query(&Query::And(vec![Box::new(Query::Tag(gid("t1")))]));
    let single_or = graph.query(&Query::Or(vec![Box::new(Query::Tag(gid("t1")))]));
    let plain = graph.query(&Query::Tag(gid("t1")));
    assert_eq!(single_and.len(), plain.len());
    assert_eq!(single_or.len(), plain.len());
    for id in &plain {
        assert!(single_and.contains(id));
        assert!(single_or.contains(id));
    }

    // commutativity of the pair forms
    let ab = graph.query(&Query::And(vec![
        Box::new(Query::Tag(gid("t1"))),
        Box::new(Query::Tag(gid("t2"))),
    ]));
    let ba = graph.query(&Query::And(vec![
        Box::new(Query::Tag(gid("t2"))),
        Box::new(Query::Tag(gid("t1"))),
    ]));
    assert_eq!(ab.len(), ba.len());
    for id in &ab {
        assert!(ba.contains(id));
    }

    // associativity of the three-element forms
    let flat = graph.query(&Query::Or(vec![
        Box::new(Query::Tag(gid("t1"))),
        Box::new(Query::Tag(gid("t2"))),
        Box::new(Query::Tag(gid("t3"))),
    ]));
    let nested = graph.query(&Query::Or(vec![
        Box::new(Query::Tag(gid("t1"))),
        Box::new(Query::Or(vec![
            Box::new(Query::Tag(gid("t2"))),
            Box::new(Query::Tag(gid("t3"))),
        ])),
    ]));
    assert_eq!(flat.len(), nested.len());
    for id in &flat {
        assert!(nested.contains(id));
    }
}

// The scenario of two notes: B references A; deleting A empties both
// directions of the lookup even though B still stores the edge.
#[test]
fn test_reference_scenario_with_deletion() {
    let mut graph = ThoughtGraph::new();
    put(&mut graph, "a", "A", "note a", vec![], vec![]);
    put(&mut graph, "b", "B", "note b", vec![], vec![reference("a", "")]);

    let refs_a = graph.query(&Query::References(tid("a")));
    assert_eq!(refs_a, vec![tid("b")]);
    let refd_b = graph.query(&Query::ReferencedBy(tid("b")));
    assert_eq!(refd_b, vec![tid("a")]);

    graph.command(&Command::DeleteThought { id: tid("a") });

    assert_eq!(graph.query(&Query::References(tid("a"))).len(), 0);
    assert_eq!(graph.query(&Query::ReferencedBy(tid("b"))).len(), 0);
    // yet the stored edge is still literally there
    assert_eq!(graph.get_thought(&tid("b")).unwrap().references.len(), 1);
}

// Mention extraction follows the bracketed identifier grammar exactly.
#[test]
fn test_mention_grammar_edges() {
    let thought = Thought::new(
        None,
        "[[abc] then [] then [x y] then [ok_1]".to_string(),
        vec![],
        vec![],
    );
    let refs = thought.extract_references_from_content();
    assert_eq!(refs.len(), 2);
    assert_eq!(refs[0], tid("abc"));
    assert_eq!(refs[1], tid("ok_1"));
}

// Auto-references skip the thought's own id, ids already referenced, ids
// that name no stored thought, and repeated mentions.
#[test]
fn test_auto_reference_skips() {
    let mut graph = ThoughtGraph::new();
    put(&mut graph, "a", "A", "a", vec![], vec![]);
    put(&mut graph, "b", "B", "b", vec![], vec![]);
    put(
        &mut graph,
        "s",
        "S",
        "mentions [s] and [a] and [a] and [b] and [ghost]",
        vec![],
        vec![reference("b", "already there")],
    );

    let added = graph.process_auto_references(&tid("s")).unwrap();
    assert_eq!(added, vec![tid("a")]);

    let s = graph.get_thought(&tid("s")).unwrap();
    assert_eq!(s.references.len(), 2);
    assert_eq!(s.references[1].id, tid("a"));
    assert_eq!(s.references[1].notes, "Auto-reference from [a]");
}

// A freshly built thought or tag carries equal creation and update
// timestamps.
#[test]
fn test_fresh_timestamps_agree() {
    let thought = Thought::new(None, "text".to_string(), vec![], vec![]);
    assert_eq!(thought.created_at, thought.updated_at);
    let tag = Tag::new("descr".to_string());
    assert_eq!(tag.created_at, tag.updated_at);
}

// Creating through the convenience constructors always succeeds and stores
// the value.
#[test]
fn test_create_helpers() {
    let mut graph = ThoughtGraph::new();
    let tag = graph.create_tag(gid("t"), "a tag".to_string()).unwrap();
    assert_eq!(tag.description, "a tag");
    let th = graph
        .create_thought(tid("a"), Some("A".to_string()), "body".to_string(), vec![gid("t")], vec![])
        .unwrap();
    assert_eq!(th.contents, "body");
    assert!(graph.get_thought(&tid("a")).is_some());
    assert!(graph.get_tag(&gid("t")).is_some());
    assert_eq!(graph.list_thoughts(), vec![tid("a")]);
    assert_eq!(graph.list_tags(), vec![gid("t")]);
}

// find_thoughts pairs each matching id with its stored thought.
#[test]
fn test_find_thoughts_pairs() {
    let mut graph = ThoughtGraph::new();
    graph.command(&Command::PutTag { id: gid("t"), tag: Tag::new("tag".to_string()) });
    put(&mut graph, "a", "A", "body a", vec![gid("t")], vec![]);
    put(&mut graph, "b", "B", "body b", vec![], vec![]);

    let found = graph.find_thoughts(&Query::Tag(gid("t")));
    assert_eq!(found.len(), 1);
    assert_eq!(found[0].0, tid("a"));
    assert_eq!(found[0].1.title, Some("A".to_string()));
}

// Column formatting pads with spaces up to the width and leaves wide text
// alone.
#[test]
fn test_format_column_exact() {
    assert_eq!(format_column("ab", 5), "ab   ");
    assert_eq!(format_column("abcdef", 3), "abcdef");
    assert_eq!(format_column("", 2), "  ");
}

// Title suggestion takes the first five whitespace-separated words.
#[test]
fn test_suggest_title_exact() {
    assert_eq!(suggest_title_from_content("one  two\tthree\nfour five six"), "one two three four five");
    assert_eq!(suggest_title_from_content("   "), "");
    assert_eq!(suggest_title_from_content("solo"), "solo");
}

// The DOT rendering escapes double quotes in labels, and the JSON
// rendering prints the tag list in debug form.
#[test]
fn test_renderings_transform_their_input() {
    let mut graph = ThoughtGraph::new();
    graph.command(&Command::PutTag { id: gid("k"), tag: Tag::new("k".to_string()) });
    put(&mut graph, "n", "say \"hi\"", "body", vec![gid("k")], vec![]);
    let data = generate_graph_data(&graph);
    let dot = data.to_dot();
    assert!(dot.contains("\"n\" [label=\"say \\\"hi\\\"\"]"));
    let json = data.to_json();
    assert!(json.contains("\"tags\": [\"k\"]"));
    // the numbering of edges starts at one
    put(&mut graph, "m", "M", "body", vec![], vec![reference("n", "edge note")]);
    let data2 = generate_graph_data(&graph);
    assert_eq!(data2.edges[0].id, "edge_1");
}

// Removing a tag or a reference target the thought does not carry leaves
// the thought untouched, its update timestamp included.
#[test]
fn test_remove_absent_is_noop() {
    let mut thought = Thought::new(
        Some("T".to_string()),
        "body".to_string(),
        vec![gid("t1")],
        vec![reference("a", "n")],
    );
    let updated_before = thought.updated_at;
    thought.remove_tag(&gid("missing"));
    thought.remove_references_to(&tid("missing"));
    assert_eq!(thought.updated_at, updated_before);
    assert_eq!(thought.tags, vec![gid("t1")]);
    assert_eq!(thought.references.len(), 1);
}

// The focused graph shows the center when it is stored, and shows no
// thought twice.
#[test]
fn test_focused_graph_center_and_distinct_nodes() {
    let mut graph = ThoughtGraph::new();
    put(&mut graph, "hub", "Hub", "hub", vec![], vec![reference("leaf", "out")]);
    put(&mut graph, "leaf", "Leaf", "leaf", vec![], vec![reference("hub", "back")]);

    let data = generate_focused_graph(&graph, &tid("hub"), 2);
    assert!(data.nodes.iter().any(|n| n.id == "hub"));
    for a in 0..data.nodes.len() {
        for b in (a + 1)..data.nodes.len() {
            assert_ne!(data.nodes[a].id, data.nodes[b].id);
        }
    }
    // both directions of the cycle are reached
    assert!(data.nodes.iter().any(|n| n.id == "leaf"));
}

// The full visualization emits exactly one edge per stored reference, in
// store order, numbered from one.
#[test]
fn test_graph_data_edge_per_reference() {
    let mut graph = ThoughtGraph::new();
    put(&mut graph, "a", "A", "a", vec![], vec![reference("b", "one"), reference("c", "two")]);
    put(&mut graph, "b", "B", "b", vec![], vec![reference("a", "three")]);

    let data = generate_graph_data(&graph);
    assert_eq!(data.edges.len(), 3);
    let summary: Vec<(String, String, String, String)> = data
        .edges
        .iter()
        .map(|e| (e.id.clone(), e.source.clone(), e.target.clone(), e.label.clone()))
        .collect();
    assert_eq!(summary[0], ("edge_1".to_string(), "a".to_string(), "b".to_string(), "one".to_string()));
    assert_eq!(summary[1], ("edge_2".to_string(), "a".to_string(), "c".to_string(), "two".to_string()));
    assert_eq!(summary[2], ("edge_3".to_string(), "b".to_string(), "a".to_string(), "three".to_string()));
}
