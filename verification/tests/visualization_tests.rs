use thoughtgraph::Command;
use thoughtgraph::Reference;
use thoughtgraph::Tag;
use thoughtgraph::TagID;
use thoughtgraph::Thought;
use thoughtgraph::ThoughtGraph;
use thoughtgraph::ThoughtID;
use thoughtgraph::Timestamp;
use thoughtgraph::visualization::generate_focused_graph;
use thoughtgraph::visualization::generate_graph_data;

fn create_test_graph() -> ThoughtGraph {
    let mut graph = ThoughtGraph::new();

    // Create tags
    let tag1 = TagID::new("programming".to_string());
    let tag2 = TagID::new("concept".to_string());

    graph.command(&Command::PutTag { id: tag1.clone(), tag: Tag::new("Programming".to_string()) });

    graph.command(&Command::PutTag { id: tag2.clone(), tag: Tag::new("Concept".to_string()) });

    // Create thoughts with references
    let thought1_id = ThoughtID::new("rust".to_string());
    let thought2_id = ThoughtID::new("programming".to_string());
    let thought3_id = ThoughtID::new("memory-safety".to_string());

    // Thought 1: Rust
    graph.command(&Command::PutThought {
        id: thought1_id.clone(),
        thought: Thought::new(
            Some("Rust Programming Language".to_string()),
            "Rust is a systems programming language focused on safety and performance."
                .to_string(),
            vec![tag1.clone()],
            vec![Reference::new(
                thought2_id.clone(),
                "Type of programming".to_string(),
                Timestamp::new(0, 0),
            )],
        ),
    });

    // Thought 2: Programming
    graph.command(&Command::PutThought {
        id: thought2_id.clone(),
        thought: Thought::new(
            Some("Programming".to_string()),
            "The process of creating software.".to_string(),
            vec![tag2.clone()],
            vec![],
        ),
    });

    // Thought 3: Memory Safety
    graph.command(&Command::PutThought {
        id: thought3_id.clone(),
        thought: Thought::new(
            Some("Memory Safety".to_string()),
            "A property that ensures memory accesses are always valid.".to_string(),
            vec![tag2.clone()],
            vec![Reference::new(
                thought1_id.clone(),
                "Rust enforces memory safety".to_string(),
                Timestamp::new(0, 0),
            )],
        ),
    });

    graph
}

#[test]
fn test_generate_graph_data() {
    let graph = create_test_graph();
    let graph_data = generate_graph_data(&graph);

    // Check nodes
    assert_eq!(graph_data.nodes.len(), 3);

    // Check edges
    assert_eq!(graph_data.edges.len(), 2);

    // Verify node content
    let rust_node = graph_data.nodes.iter().find(|n| n.id == "rust").unwrap();
    assert_eq!(rust_node.label, "Rust Programming Language");
    assert_eq!(rust_node.tags, vec!["programming"]);

    // Verify edge content
    let rust_to_programming_edge = graph_data
        .edges
        .iter()
        .find(|e| e.source == "rust" && e.target == "programming")
        .unwrap();
    assert_eq!(rust_to_programming_edge.label, "Type of programming");
}

#[test]
fn test_focused_graph() {
    let graph = create_test_graph();
    let center_id = ThoughtID::new("rust".to_string());

    // Depth 1 should include rust and its immediate connections
    let focused_graph_d1 = generate_focused_graph(&graph, &center_id, 1);
    assert_eq!(focused_graph_d1.nodes.len(), 3); // rust, programming, memory-safety

    // Check that memory-safety -> rust edge exists
    let memory_to_rust_edge = focused_graph_d1
        .edges
        .iter()
        .find(|e| e.source == "memory-safety" && e.target == "rust")
        .unwrap();
    assert_eq!(memory_to_rust_edge.label, "Rust enforces memory safety");
}

#[test]
fn test_dot_format() {
    let graph = create_test_graph();
    let graph_data = generate_graph_data(&graph);
    let dot = graph_data.to_dot();

    // Check that DOT format contains all nodes and edges
    assert!(dot.contains("\"rust\" [label=\"Rust Programming Language\"]"));
    assert!(dot.contains("\"programming\" [label=\"Programming\"]"));
    assert!(dot.contains("\"memory-safety\" [label=\"Memory Safety\"]"));
    assert!(dot.contains("\"rust\" -> \"programming\""));
    assert!(dot.contains("\"memory-safety\" -> \"rust\""));
}

#[test]
fn test_json_format() {
    let graph = create_test_graph();
    let graph_data = generate_graph_data(&graph);
    let json = graph_data.to_json();

    // Check that JSON format contains all nodes and edges
    assert!(json.contains("\"id\": \"rust\""));
    assert!(json.contains("\"label\": \"Rust Programming Language\""));
    assert!(json.contains("\"source\": \"rust\", \"target\": \"programming\""));
    assert!(json.contains("\"source\": \"memory-safety\", \"target\": \"rust\""));
}
