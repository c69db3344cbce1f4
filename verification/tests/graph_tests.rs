use thoughtgraph::Command;
use thoughtgraph::Query;
use thoughtgraph::Reference;
use thoughtgraph::Tag;
use thoughtgraph::TagID;
use thoughtgraph::Thought;
use thoughtgraph::ThoughtGraph;
use thoughtgraph::ThoughtID;
use thoughtgraph::Timestamp;

// Helper function to create a thought ID
fn create_thought_id(id: &str) -> ThoughtID {
    ThoughtID::new(id.to_string())
}

// Helper function to create a tag ID
fn create_tag_id(id: &str) -> TagID {
    TagID::new(id.to_string())
}

// Helper function to create a reference
fn create_reference(id: &str, notes: &str) -> Reference {
    Reference::new(create_thought_id(id), notes.to_string(), Timestamp::new(0, 0))
}

#[test]
fn test_extract_references_from_content() {
    // Test extracting references from content
    let thought = Thought::new(
        Some("Test Thought".to_string()),
        "This references [thought1] and [thought2] and [invalid-] but not just plain text."
            .to_string(),
        vec![],
        vec![],
    );

    let refs = thought.extract_references_from_content();
    assert_eq!(refs.len(), 3);
    assert!(refs.contains(&create_thought_id("thought1")));
    assert!(refs.contains(&create_thought_id("thought2")));
    assert!(refs.contains(&create_thought_id("invalid-")));
}

#[test]
fn test_auto_references() {
    // Test automatically adding references from content
    let mut graph = ThoughtGraph::new();

    // Create some thoughts first
    let thought1_id = create_thought_id("thought1");
    let thought2_id = create_thought_id("thought2");
    let thought3_id = create_thought_id("thought3");

    let thought1 = Thought::new(
        Some("First Thought".to_string()),
        "This is the first thought.".to_string(),
        vec![],
        vec![],
    );

    let thought2 = Thought::new(
        Some("Second Thought".to_string()),
        "This is the second thought.".to_string(),
        vec![],
        vec![],
    );

    // Third thought references the first two using [thought_id] format
    let thought3 = Thought::new(
        Some("Third Thought".to_string()),
        "This references [thought1] and [thought2] automatically.".to_string(),
        vec![],
        vec![],
    );

    graph.command(&Command::PutThought { id: thought1_id.clone(), thought: thought1 });

    graph.command(&Command::PutThought { id: thought2_id.clone(), thought: thought2 });

    graph.command(&Command::PutThought { id: thought3_id.clone(), thought: thought3 });

    // Process auto-references
    let added_refs = graph.process_auto_references(&thought3_id).unwrap();

    // Check that references were added
    assert_eq!(added_refs.len(), 2);
    assert!(added_refs.contains(&thought1_id));
    assert!(added_refs.contains(&thought2_id));

    // Check that the references are in the thought
    let updated_thought3 = graph.get_thought(&thought3_id).unwrap();
    assert_eq!(updated_thought3.references.len(), 2);
    assert!(updated_thought3.references.iter().any(|r| r.id == thought1_id));
    assert!(updated_thought3.references.iter().any(|r| r.id == thought2_id));

    // Check that backreferences are correctly set up
    let backlinks_to_thought1 = graph.get_backlinks(&thought1_id);
    let backlinks_to_thought2 = graph.get_backlinks(&thought2_id);

    assert_eq!(backlinks_to_thought1.len(), 1);
    assert_eq!(backlinks_to_thought2.len(), 1);
    assert!(backlinks_to_thought1.contains(&thought3_id));
    assert!(backlinks_to_thought2.contains(&thought3_id));
}

#[test]
fn test_empty_graph() {
    // Test creating an empty graph and querying it
    let graph = ThoughtGraph::new();

    // An empty graph should return empty results for any query
    let result = graph.query(&Query::Tag(create_tag_id("nonexistent")));
    assert_eq!(result.len(), 0);
}

#[test]
fn test_put_and_query_thought() {
    // Test adding a thought and then retrieving it
    let mut graph = ThoughtGraph::new();

    let thought_id = create_thought_id("thought1");
    let tag_id = create_tag_id("tag1");

    // Add a tag first
    let tag = Tag::new("Test tag".to_string());
    graph.command(&Command::PutTag { id: tag_id.clone(), tag });

    // Create and add a thought with the tag
    let thought = Thought::new(
        Some("Test Thought".to_string()),
        "This is a test thought.".to_string(),
        vec![tag_id.clone()],
        vec![],
    );

    graph.command(&Command::PutThought { id: thought_id.clone(), thought });

    // Query for thoughts with the tag
    let result = graph.query(&Query::Tag(tag_id.clone()));
    assert_eq!(result.len(), 1);
    assert!(result.contains(&thought_id));
}

#[test]
fn test_references() {
    // Test adding thoughts with references and querying them
    let mut graph = ThoughtGraph::new();

    let thought1_id = create_thought_id("thought1");
    let thought2_id = create_thought_id("thought2");

    // Create and add the first thought
    let thought1 = Thought::new(
        Some("First Thought".to_string()),
        "This is the first thought.".to_string(),
        vec![],
        vec![],
    );

    graph.command(&Command::PutThought { id: thought1_id.clone(), thought: thought1 });

    // Create and add a second thought that references the first
    let thought2 = Thought::new(
        Some("Second Thought".to_string()),
        "This references the first thought.".to_string(),
        vec![],
        vec![create_reference("thought1", "Important reference")],
    );

    graph.command(&Command::PutThought { id: thought2_id.clone(), thought: thought2 });

    // Query for thoughts that reference thought1
    let references_result = graph.query(&Query::References(thought1_id.clone()));
    assert_eq!(references_result.len(), 1);
    assert!(references_result.contains(&thought2_id));

    // Query for thoughts that are referenced by thought2
    let referenced_by_result = graph.query(&Query::ReferencedBy(thought2_id.clone()));
    assert_eq!(referenced_by_result.len(), 1);
    assert!(referenced_by_result.contains(&thought1_id));
}

#[test]
fn test_delete_thought() {
    // Test deleting a thought
    let mut graph = ThoughtGraph::new();

    let thought_id = create_thought_id("thought1");
    let tag_id = create_tag_id("tag1");

    // Add a tag
    let tag = Tag::new("Test tag".to_string());
    graph.command(&Command::PutTag { id: tag_id.clone(), tag });

    // Add a thought
    let thought = Thought::new(
        Some("Test Thought".to_string()),
        "This is a test thought.".to_string(),
        vec![tag_id.clone()],
        vec![],
    );

    graph.command(&Command::PutThought { id: thought_id.clone(), thought });

    // Delete the thought
    graph.command(&Command::DeleteThought { id: thought_id.clone() });

    // Query should return empty results
    let result = graph.query(&Query::Tag(tag_id.clone()));
    assert_eq!(result.len(), 0);
}

#[test]
fn test_delete_tag() {
    // Test deleting a tag
    let mut graph = ThoughtGraph::new();

    let thought_id = create_thought_id("thought1");
    let tag_id = create_tag_id("tag1");

    // Add a tag
    let tag = Tag::new("Test tag".to_string());
    graph.command(&Command::PutTag { id: tag_id.clone(), tag });

    // Add a thought with the tag
    let thought = Thought::new(
        Some("Test Thought".to_string()),
        "This is a test thought.".to_string(),
        vec![tag_id.clone()],
        vec![],
    );

    graph.command(&Command::PutThought { id: thought_id.clone(), thought });

    // Delete the tag
    graph.command(&Command::DeleteTag { id: tag_id.clone() });

    // The thought should still exist, but query by the tag should return empty results
    let result = graph.query(&Query::Tag(tag_id.clone()));
    assert_eq!(result.len(), 0);
}

#[test]
fn test_complex_queries() {
    // Test complex queries with And and Or
    let mut graph = ThoughtGraph::new();

    // Create two tags
    let tag1_id = create_tag_id("tag1");
    let tag2_id = create_tag_id("tag2");

    graph.command(&Command::PutTag { id: tag1_id.clone(), tag: Tag::new("Tag 1".to_string()) });

    graph.command(&Command::PutTag { id: tag2_id.clone(), tag: Tag::new("Tag 2".to_string()) });

    // Create three thoughts with different tag combinations
    let thought1_id = create_thought_id("thought1"); // has tag1
    let thought2_id = create_thought_id("thought2"); // has tag2
    let thought3_id = create_thought_id("thought3"); // has both tag1 and tag2

    graph.command(&Command::PutThought {
        id: thought1_id.clone(),
        thought: Thought::new(
            Some("Thought 1".to_string()),
            "Has tag1 only".to_string(),
            vec![tag1_id.clone()],
            vec![],
        ),
    });

    graph.command(&Command::PutThought {
        id: thought2_id.clone(),
        thought: Thought::new(
            Some("Thought 2".to_string()),
            "Has tag2 only".to_string(),
            vec![tag2_id.clone()],
            vec![],
        ),
    });

    graph.command(&Command::PutThought {
        id: thought3_id.clone(),
        thought: Thought::new(
            Some("Thought 3".to_string()),
            "Has both tag1 and tag2".to_string(),
            vec![tag1_id.clone(), tag2_id.clone()],
            vec![],
        ),
    });

    // Test OR query: thoughts with either tag1 or tag2
    let or_query = Query::Or(vec![
        Box::new(Query::Tag(tag1_id.clone())),
        Box::new(Query::Tag(tag2_id.clone())),
    ]);

    let or_result = graph.query(&or_query);
    assert_eq!(or_result.len(), 3);
    assert!(or_result.contains(&thought1_id));
    assert!(or_result.contains(&thought2_id));
    assert!(or_result.contains(&thought3_id));

    // Test AND query: thoughts with both tag1 and tag2
    let and_query = Query::And(vec![
        Box::new(Query::Tag(tag1_id.clone())),
        Box::new(Query::Tag(tag2_id.clone())),
    ]);

    let and_result = graph.query(&and_query);
    assert_eq!(and_result.len(), 1);
    assert!(and_result.contains(&thought3_id));
}

#[test]
fn test_circular_references() {
    // Test circular references between thoughts
    let mut graph = ThoughtGraph::new();

    let thought1_id = create_thought_id("thought1");
    let thought2_id = create_thought_id("thought2");

    // Create thought1 that initially doesn't reference anything
    let thought1 = Thought::new(
        Some("First Thought".to_string()),
        "This is the first thought.".to_string(),
        vec![],
        vec![],
    );

    graph.command(&Command::PutThought { id: thought1_id.clone(), thought: thought1 });

    // Create thought2 that references thought1
    let thought2 = Thought::new(
        Some("Second Thought".to_string()),
        "This references the first thought.".to_string(),
        vec![],
        vec![create_reference("thought1", "Reference to thought1")],
    );

    graph.command(&Command::PutThought { id: thought2_id.clone(), thought: thought2 });

    // Now update thought1 to reference thought2, creating a circular reference
    let updated_thought1 = Thought::new(
        Some("Updated First Thought".to_string()),
        "This now references the second thought.".to_string(),
        vec![],
        vec![create_reference("thought2", "Reference to thought2")],
    );

    graph.command(&Command::PutThought { id: thought1_id.clone(), thought: updated_thought1 });

    // Check that references are correctly tracked in both directions
    let references_to_thought1 = graph.query(&Query::References(thought1_id.clone()));
    let references_to_thought2 = graph.query(&Query::References(thought2_id.clone()));

    assert_eq!(references_to_thought1.len(), 1);
    assert_eq!(references_to_thought2.len(), 1);
    assert!(references_to_thought1.contains(&thought2_id));
    assert!(references_to_thought2.contains(&thought1_id));

    // Check backreferences using the accessor method
    let backlinks_to_thought1 = graph.get_backlinks(&thought1_id);
    let backlinks_to_thought2 = graph.get_backlinks(&thought2_id);

    assert_eq!(backlinks_to_thought1.len(), 1);
    assert_eq!(backlinks_to_thought2.len(), 1);
    assert!(backlinks_to_thought1.contains(&thought2_id));
    assert!(backlinks_to_thought2.contains(&thought1_id));
}

#[test]
fn test_updating_references() {
    // Test updating a thought's references
    let mut graph = ThoughtGraph::new();

    let thought1_id = create_thought_id("thought1");
    let thought2_id = create_thought_id("thought2");
    let thought3_id = create_thought_id("thought3");

    // Add three thoughts with no references initially
    let thought1 = Thought::new(
        Some("Thought 1".to_string()),
        "First thought.".to_string(),
        vec![],
        vec![],
    );

    let thought2 = Thought::new(
        Some("Thought 2".to_string()),
        "Second thought.".to_string(),
        vec![],
        vec![],
    );

    let thought3 = Thought::new(
        Some("Thought 3".to_string()),
        "Third thought.".to_string(),
        vec![],
        vec![],
    );

    graph.command(&Command::PutThought { id: thought1_id.clone(), thought: thought1 });

    graph.command(&Command::PutThought { id: thought2_id.clone(), thought: thought2 });

    graph.command(&Command::PutThought { id: thought3_id.clone(), thought: thought3 });

    // Update thought1 to reference thought2
    let updated_thought1 = Thought::new(
        Some("Updated Thought 1".to_string()),
        "Now references thought2.".to_string(),
        vec![],
        vec![create_reference("thought2", "Reference to thought2")],
    );

    graph.command(&Command::PutThought { id: thought1_id.clone(), thought: updated_thought1 });

    // Check that reference and backreference are correctly tracked
    let references_from_thought1 = graph.query(&Query::ReferencedBy(thought1_id.clone()));
    assert_eq!(references_from_thought1.len(), 1);
    assert!(references_from_thought1.contains(&thought2_id));

    let backlinks_to_thought2 = graph.get_backlinks(&thought2_id);
    assert_eq!(backlinks_to_thought2.len(), 1);
    assert!(backlinks_to_thought2.contains(&thought1_id));

    // Update thought1 again to reference thought3 instead of thought2
    let updated_thought1_again = Thought::new(
        Some("Updated Thought 1 Again".to_string()),
        "Now references thought3 instead of thought2.".to_string(),
        vec![],
        vec![create_reference("thought3", "Reference to thought3")],
    );

    graph.command(&Command::PutThought {
        id: thought1_id.clone(),
        thought: updated_thought1_again,
    });

    // Check that old references are removed and new ones are added
    let backlinks_to_thought2_after = graph.get_backlinks(&thought2_id);
    let backlinks_to_thought3 = graph.get_backlinks(&thought3_id);

    assert_eq!(backlinks_to_thought2_after.len(), 0);
    assert_eq!(backlinks_to_thought3.len(), 1);
    assert!(backlinks_to_thought3.contains(&thought1_id));
}

#[test]
fn test_multiple_backreferences() {
    // Test multiple thoughts referencing the same thought
    let mut graph = ThoughtGraph::new();

    let central_thought_id = create_thought_id("central");
    let ref1_id = create_thought_id("ref1");
    let ref2_id = create_thought_id("ref2");
    let ref3_id = create_thought_id("ref3");

    // Create a central thought
    let central_thought = Thought::new(
        Some("Central Thought".to_string()),
        "This thought will be referenced by multiple others.".to_string(),
        vec![],
        vec![],
    );

    graph.command(&Command::PutThought { id: central_thought_id.clone(), thought: central_thought });

    // Create three thoughts that all reference the central thought
    let ref1 = Thought::new(
        Some("Reference 1".to_string()),
        "First reference to central.".to_string(),
        vec![],
        vec![create_reference("central", "First reference")],
    );

    let ref2 = Thought::new(
        Some("Reference 2".to_string()),
        "Second reference to central.".to_string(),
        vec![],
        vec![create_reference("central", "Second reference")],
    );

    let ref3 = Thought::new(
        Some("Reference 3".to_string()),
        "Third reference to central.".to_string(),
        vec![],
        vec![create_reference("central", "Third reference")],
    );

    graph.command(&Command::PutThought { id: ref1_id.clone(), thought: ref1 });

    graph.command(&Command::PutThought { id: ref2_id.clone(), thought: ref2 });

    graph.command(&Command::PutThought { id: ref3_id.clone(), thought: ref3 });

    // Check that all backreferences are tracked
    let references_to_central = graph.query(&Query::References(central_thought_id.clone()));
    let backlinks_to_central = graph.get_backlinks(&central_thought_id);

    assert_eq!(references_to_central.len(), 3);
    assert_eq!(backlinks_to_central.len(), 3);
    assert!(references_to_central.contains(&ref1_id));
    assert!(references_to_central.contains(&ref2_id));
    assert!(references_to_central.contains(&ref3_id));

    // Delete one of the referencing thoughts and ensure backlinks are updated
    graph.command(&Command::DeleteThought { id: ref2_id.clone() });

    let backlinks_after_delete = graph.get_backlinks(&central_thought_id);
    assert_eq!(backlinks_after_delete.len(), 2);
    assert!(backlinks_after_delete.contains(&ref1_id));
    assert!(backlinks_after_delete.contains(&ref3_id));
    assert!(!backlinks_after_delete.contains(&ref2_id));
}

#[test]
fn test_cascading_deletion() {
    // Test what happens when deleting a thought that is referenced by others
    let mut graph = ThoughtGraph::new();

    let central_thought_id = create_thought_id("central");
    let ref1_id = create_thought_id("ref1");
    let ref2_id = create_thought_id("ref2");

    // Create central thought
    let central_thought = Thought::new(
        Some("Central Thought".to_string()),
        "This will be deleted.".to_string(),
        vec![],
        vec![],
    );

    graph.command(&Command::PutThought { id: central_thought_id.clone(), thought: central_thought });

    // Create thoughts that reference the central thought
    let ref1 = Thought::new(
        Some("Reference 1".to_string()),
        "References central.".to_string(),
        vec![],
        vec![create_reference("central", "Reference to central")],
    );

    let ref2 = Thought::new(
        Some("Reference 2".to_string()),
        "Also references central.".to_string(),
        vec![],
        vec![create_reference("central", "Another reference to central")],
    );

    graph.command(&Command::PutThought { id: ref1_id.clone(), thought: ref1 });

    graph.command(&Command::PutThought { id: ref2_id.clone(), thought: ref2 });

    // Verify references before deletion
    let refs_before = graph.query(&Query::References(central_thought_id.clone()));
    assert_eq!(refs_before.len(), 2);

    // Delete the central thought
    graph.command(&Command::DeleteThought { id: central_thought_id.clone() });

    // Verify the referencing thoughts still exist
    assert!(graph.get_thought(&ref1_id).is_some());
    assert!(graph.get_thought(&ref2_id).is_some());

    // Verify the central thought is gone
    assert!(graph.get_thought(&central_thought_id).is_none());

    // Verify that ReferencedBy queries for deleted thought return empty results
    let referenced_by_result = graph.query(&Query::ReferencedBy(central_thought_id.clone()));
    assert_eq!(referenced_by_result.len(), 0);

    // Verify that queries for references to the deleted thought return empty results
    // (even though the referencing thoughts still contain the references)
    let references_result = graph.query(&Query::References(central_thought_id.clone()));
    assert_eq!(references_result.len(), 0);
}

#[test]
fn test_complex_query_combinations() {
    // Test more complex query combinations
    let mut graph = ThoughtGraph::new();

    // Create tags
    let tag1_id = create_tag_id("tag1");
    let tag2_id = create_tag_id("tag2");
    let tag3_id = create_tag_id("tag3");

    graph.command(&Command::PutTag { id: tag1_id.clone(), tag: Tag::new("Tag 1".to_string()) });

    graph.command(&Command::PutTag { id: tag2_id.clone(), tag: Tag::new("Tag 2".to_string()) });

    graph.command(&Command::PutTag { id: tag3_id.clone(), tag: Tag::new("Tag 3".to_string()) });

    // Create thoughts with various combinations of tags and references
    let thought1_id = create_thought_id("thought1"); // tag1, tag2
    let thought2_id = create_thought_id("thought2"); // tag2, tag3, references thought1
    let thought3_id = create_thought_id("thought3"); // tag1, tag3, references thought2
    let thought4_id = create_thought_id("thought4"); // tag3 only
    let thought5_id = create_thought_id("thought5"); // no tags, references thought1

    graph.command(&Command::PutThought {
        id: thought1_id.clone(),
        thought: Thought::new(
            Some("Thought 1".to_string()),
            "Has tag1 and tag2".to_string(),
            vec![tag1_id.clone(), tag2_id.clone()],
            vec![],
        ),
    });

    graph.command(&Command::PutThought {
        id: thought2_id.clone(),
        thought: Thought::new(
            Some("Thought 2".to_string()),
            "Has tag2, tag3, references thought1".to_string(),
            vec![tag2_id.clone(), tag3_id.clone()],
            vec![create_reference("thought1", "Reference to thought1")],
        ),
    });

    graph.command(&Command::PutThought {
        id: thought3_id.clone(),
        thought: Thought::new(
            Some("Thought 3".to_string()),
            "Has tag1, tag3, references thought2".to_string(),
            vec![tag1_id.clone(), tag3_id.clone()],
            vec![create_reference("thought2", "Reference to thought2")],
        ),
    });

    graph.command(&Command::PutThought {
        id: thought4_id.clone(),
        thought: Thought::new(
            Some("Thought 4".to_string()),
            "Has tag3 only".to_string(),
            vec![tag3_id.clone()],
            vec![],
        ),
    });

    graph.command(&Command::PutThought {
        id: thought5_id.clone(),
        thought: Thought::new(
            Some("Thought 5".to_string()),
            "No tags, references thought1".to_string(),
            vec![],
            vec![create_reference("thought1", "Another reference to thought1")],
        ),
    });

    // Test: thoughts with tag1 AND that reference thought2
    let query1 = Query::And(vec![
        Box::new(Query::Tag(tag1_id.clone())),
        Box::new(Query::References(thought2_id.clone())),
    ]);
    let result1 = graph.query(&query1);
    assert_eq!(result1.len(), 1);
    assert!(result1.contains(&thought3_id));

    // Test: thoughts with tag3 OR that reference thought1
    let query2 = Query::Or(vec![
        Box::new(Query::Tag(tag3_id.clone())),
        Box::new(Query::References(thought1_id.clone())),
    ]);
    let result2 = graph.query(&query2);
    assert_eq!(result2.len(), 4);
    assert!(result2.contains(&thought2_id));
    assert!(result2.contains(&thought3_id));
    assert!(result2.contains(&thought4_id));
    assert!(result2.contains(&thought5_id));

    // Test: (thoughts with tag1 AND tag3) OR (thoughts referenced by thought3)
    let query3 = Query::Or(vec![
        Box::new(Query::And(vec![
            Box::new(Query::Tag(tag1_id.clone())),
            Box::new(Query::Tag(tag3_id.clone())),
        ])),
        Box::new(Query::ReferencedBy(thought3_id.clone())),
    ]);
    let result3 = graph.query(&query3);
    assert_eq!(result3.len(), 2);
    assert!(result3.contains(&thought2_id));
    assert!(result3.contains(&thought3_id));
}

#[test]
fn test_empty_queries() {
    // Test edge cases with empty AND/OR queries
    let mut graph = ThoughtGraph::new();

    let thought_id = create_thought_id("thought1");
    let tag_id = create_tag_id("tag1");

    graph.command(&Command::PutTag { id: tag_id.clone(), tag: Tag::new("Tag 1".to_string()) });

    graph.command(&Command::PutThought {
        id: thought_id.clone(),
        thought: Thought::new(
            Some("Test Thought".to_string()),
            "Test content".to_string(),
            vec![tag_id.clone()],
            vec![],
        ),
    });

    // Empty AND query should return empty set
    let empty_and = Query::And(vec![]);
    let and_result = graph.query(&empty_and);
    assert_eq!(and_result.len(), 0);

    // Empty OR query should return empty set
    let empty_or = Query::Or(vec![]);
    let or_result = graph.query(&empty_or);
    assert_eq!(or_result.len(), 0);

    // AND with one subquery should behave like the subquery
    let and_single = Query::And(vec![Box::new(Query::Tag(tag_id.clone()))]);
    let and_single_result = graph.query(&and_single);
    assert_eq!(and_single_result.len(), 1);
    assert!(and_single_result.contains(&thought_id));
}

#[test]
fn test_nonexistent_references() {
    // Test handling of references to thoughts that don't exist
    let mut graph = ThoughtGraph::new();

    let thought_id = create_thought_id("thought1");
    let nonexistent_id = create_thought_id("nonexistent");

    // Create a thought with reference to a nonexistent thought
    let thought = Thought::new(
        Some("Test Thought".to_string()),
        "References a nonexistent thought".to_string(),
        vec![],
        vec![create_reference("nonexistent", "Reference to nowhere")],
    );

    graph.command(&Command::PutThought { id: thought_id.clone(), thought });

    // Test References query - should work normally
    let refs_to_nonexistent = graph.query(&Query::References(nonexistent_id.clone()));
    assert_eq!(refs_to_nonexistent.len(), 1);
    assert!(refs_to_nonexistent.contains(&thought_id));

    // Test ReferencedBy query - should return empty set for nonexistent thought
    let refs_by_nonexistent = graph.query(&Query::ReferencedBy(nonexistent_id.clone()));
    assert_eq!(refs_by_nonexistent.len(), 0);

    // Test get_backlinks - should return empty vector for nonexistent thought
    let backlinks = graph.get_backlinks(&nonexistent_id);
    assert_eq!(backlinks.len(), 1);
    assert!(backlinks.contains(&thought_id));
}

#[test]
fn test_accessor_methods() {
    // Test the get_thought, get_tag, and get_backlinks methods
    let mut graph = ThoughtGraph::new();

    let thought_id = create_thought_id("thought1");
    let tag_id = create_tag_id("tag1");
    let ref_id = create_thought_id("ref1");

    let tag = Tag::new("Test Tag".to_string());
    graph.command(&Command::PutTag { id: tag_id.clone(), tag: tag.clone() });

    let thought = Thought::new(
        Some("Test Thought".to_string()),
        "Test content".to_string(),
        vec![tag_id.clone()],
        vec![],
    );

    let ref_thought = Thought::new(
        Some("Reference Thought".to_string()),
        "References the test thought".to_string(),
        vec![],
        vec![create_reference("thought1", "Test reference")],
    );

    graph.command(&Command::PutThought { id: thought_id.clone(), thought: thought.clone() });

    graph.command(&Command::PutThought { id: ref_id.clone(), thought: ref_thought.clone() });

    // Test get_thought
    let retrieved_thought = graph.get_thought(&thought_id);
    assert!(retrieved_thought.is_some());
    assert_eq!(retrieved_thought.unwrap().title, thought.title);

    // Test get_tag
    let retrieved_tag = graph.get_tag(&tag_id);
    assert!(retrieved_tag.is_some());
    assert_eq!(retrieved_tag.unwrap().description, tag.description);

    // Test get_backlinks
    let backlinks = graph.get_backlinks(&thought_id);
    assert_eq!(backlinks.len(), 1);
    assert!(backlinks.contains(&ref_id));

    // Test nonexistent IDs
    let nonexistent_id = create_thought_id("nonexistent");
    assert!(graph.get_thought(&nonexistent_id).is_none());
    assert!(graph.get_tag(&create_tag_id("nonexistent")).is_none());
}

#[test]
fn test_self_reference() {
    // Test a thought that references itself
    let mut graph = ThoughtGraph::new();

    let thought_id = create_thought_id("self_ref");

    // Create a thought that references itself
    let thought = Thought::new(
        Some("Self-referential".to_string()),
        "This thought references itself.".to_string(),
        vec![],
        vec![create_reference("self_ref", "Self reference")],
    );

    // Try to add the self-referential thought
    graph.command(&Command::PutThought { id: thought_id.clone(), thought: thought.clone() });

    // Verify the thought was added successfully
    let retrieved = graph.get_thought(&thought_id);
    assert!(retrieved.is_some());

    // Check that self-reference is properly tracked
    let refs_to_self = graph.query(&Query::References(thought_id.clone()));
    assert_eq!(refs_to_self.len(), 1);
    assert!(refs_to_self.contains(&thought_id));

    // Check that self-reference appears in backreferences
    let backrefs = graph.get_backlinks(&thought_id);
    assert_eq!(backrefs.len(), 1);
    assert!(backrefs.contains(&thought_id));

    // Check that ReferencedBy also works correctly
    let referenced_by = graph.query(&Query::ReferencedBy(thought_id.clone()));
    assert_eq!(referenced_by.len(), 1);
    assert!(referenced_by.contains(&thought_id));

    // Test updating the self-referential thought
    let updated_thought = Thought::new(
        Some("Updated Self-referential".to_string()),
        "No longer references itself.".to_string(),
        vec![],
        vec![],
    );

    graph.command(&Command::PutThought { id: thought_id.clone(), thought: updated_thought });

    // Verify backlinks were properly updated
    let backrefs_after = graph.get_backlinks(&thought_id);
    assert_eq!(backrefs_after.len(), 0);
}
