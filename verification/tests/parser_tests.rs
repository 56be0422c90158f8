use meraid::{parse_mermaid, DiagramType, EdgeStyle, NodeShape};

#[test]
fn test_parse_flowchart() {
    let source = "graph LR\nA --> B\nB --> C";
    let diagram = parse_mermaid(source).unwrap();
    assert_eq!(diagram.diagram_type, DiagramType::Flowchart);
    assert_eq!(diagram.nodes.len(), 3);
    assert_eq!(diagram.edges.len(), 2);
}

#[test]
fn parser_test_parse_flowchart_chained() {
    let source = "graph LR\nA --> B --> C --> D";
    let diagram = parse_mermaid(source).unwrap();
    assert_eq!(diagram.edges.len(), 3);
}

#[test]
fn parser_test_parse_flowchart_thick_arrow() {
    let source = "graph LR\nA ==> B";
    let diagram = parse_mermaid(source).unwrap();
    assert_eq!(diagram.edges.len(), 1);
    assert_eq!(diagram.edges[0].style, EdgeStyle::Thick);
}

#[test]
fn parser_test_parse_flowchart_dotted_arrow() {
    let source = "graph LR\nA -.-> B";
    let diagram = parse_mermaid(source).unwrap();
    assert_eq!(diagram.edges.len(), 1);
    assert_eq!(diagram.edges[0].style, EdgeStyle::Dotted);
}

#[test]
fn test_flowchart_node_shapes_and_labels() {
    let source = "graph TD\nA[Start] --> B{Is valid?}";
    let diagram = parse_mermaid(source).unwrap();
    assert_eq!(diagram.nodes.len(), 2);
    let a = diagram.nodes.iter().find(|n| n.id == "A").unwrap();
    assert_eq!(a.label, "Start");
    assert_eq!(a.shape, NodeShape::Rectangle);
    let b = diagram.nodes.iter().find(|n| n.id == "B").unwrap();
    assert_eq!(b.label, "Is valid?");
    assert_eq!(b.shape, NodeShape::Diamond);
}

#[test]
fn test_flowchart_all_shapes() {
    let source = "graph LR\nA([Stadium]) --> B[[Sub]]\nC((Circle)) --> D{{Hex}}";
    let diagram = parse_mermaid(source).unwrap();
    let shape = |id: &str| diagram.nodes.iter().find(|n| n.id == id).unwrap().shape;
    assert_eq!(shape("A"), NodeShape::Stadium);
    assert_eq!(shape("B"), NodeShape::Subroutine);
    assert_eq!(shape("C"), NodeShape::Circle);
    assert_eq!(shape("D"), NodeShape::Hexagon);
}

#[test]
fn test_flowchart_edge_label() {
    let source = "graph TD\nB -->|Yes| C\nB -->|No| D";
    let diagram = parse_mermaid(source).unwrap();
    // No phantom nodes from the |label| text.
    assert_eq!(diagram.nodes.len(), 3);
    let labels: Vec<_> = diagram
        .edges
        .iter()
        .filter_map(|e| e.label.clone())
        .collect();
    assert!(labels.contains(&"Yes".to_string()));
    assert!(labels.contains(&"No".to_string()));
}

#[test]
fn test_flowchart_semicolon_separator() {
    let source = "graph LR; A-->B-->C";
    let diagram = parse_mermaid(source).unwrap();
    assert_eq!(diagram.direction, "LR");
    assert_eq!(diagram.nodes.len(), 3);
    assert_eq!(diagram.edges.len(), 2);
}

#[test]
fn test_parse_sequence() {
    let source = "sequenceDiagram\nAlice->>Bob: Hello\nBob-->>Alice: Hi";
    let diagram = parse_mermaid(source).unwrap();
    assert_eq!(diagram.diagram_type, DiagramType::Sequence);
    assert!(diagram.participants.contains(&"Alice".to_string()));
    assert!(diagram.participants.contains(&"Bob".to_string()));
}

#[test]
fn test_sequence_dashed_no_phantom_participant() {
    // 'Bob-->>Alice' must not create a phantom 'Bob-' participant.
    let source = "sequenceDiagram\nAlice->>Bob: Hello\nBob-->>Alice: Hi";
    let diagram = parse_mermaid(source).unwrap();
    assert_eq!(diagram.participants, vec!["Alice", "Bob"]);
    assert_eq!(diagram.edges.len(), 2);
    assert_eq!(diagram.edges[1].from, "Bob");
    assert_eq!(diagram.edges[1].to, "Alice");
    assert_eq!(diagram.edges[1].style, EdgeStyle::Dotted);
}

#[test]
fn test_class_relationship_keeps_target() {
    let source = "classDiagram\nclass Animal\nclass Dog\nAnimal <|-- Dog";
    let diagram = parse_mermaid(source).unwrap();
    assert_eq!(diagram.relationships.len(), 1);
    let rel = &diagram.relationships[0];
    assert_eq!(rel.from, "Animal");
    assert_eq!(rel.to, "Dog");
    assert_eq!(rel.rel_type, "<|--");
}

#[test]
fn test_class_plain_association() {
    let source = "classDiagram\nA -- B";
    let diagram = parse_mermaid(source).unwrap();
    assert_eq!(diagram.relationships.len(), 1);
    assert_eq!(diagram.relationships[0].rel_type, "--");
    assert_eq!(diagram.nodes.len(), 2);
}

#[test]
fn test_class_directed_association_with_cardinality() {
    // Quoted cardinality labels must not become classes.
    let source = "classDiagram\nclass A\nclass B\nA \"1\" --> \"0..*\" B";
    let diagram = parse_mermaid(source).unwrap();
    assert_eq!(diagram.nodes.len(), 2);
    assert_eq!(diagram.relationships.len(), 1);
    assert_eq!(diagram.relationships[0].from, "A");
    assert_eq!(diagram.relationships[0].to, "B");
    assert_eq!(diagram.relationships[0].rel_type, "-->");
}

#[test]
fn test_class_realization_not_mis_split() {
    // 'Dog --|> Animal' must not produce a junk class '> Animal'.
    let source = "classDiagram\nDog --|> Animal";
    let diagram = parse_mermaid(source).unwrap();
    assert_eq!(diagram.relationships[0].rel_type, "--|>");
    assert_eq!(diagram.relationships[0].to, "Animal");
    assert!(diagram.nodes.iter().all(|n| n.id != "> Animal"));
}

#[test]
fn test_state_preserves_start_end_markers() {
    let source = "stateDiagram-v2\n[*] --> Idle\nDone --> [*]";
    let diagram = parse_mermaid(source).unwrap();
    assert_eq!(diagram.edges[0].from, "[*]");
    assert_eq!(diagram.edges[1].to, "[*]");
}

#[test]
fn test_er_many_to_many_cardinality() {
    // The right cardinality '|{' must not be dropped.
    let source = "erDiagram\nA }|--|{ B : two";
    let diagram = parse_mermaid(source).unwrap();
    assert_eq!(diagram.relationships.len(), 1);
    assert_eq!(diagram.relationships[0].rel_type, "}|--|{");
}

#[test]
fn test_er_no_phantom_entity() {
    // Adjacent relationship lines must not fabricate an entity.
    let source = "erDiagram\nA ||--o{ B : one\nC }|--|{ D : two";
    let diagram = parse_mermaid(source).unwrap();
    assert_eq!(diagram.entities.len(), 0);
    assert_eq!(diagram.relationships.len(), 2);
}

#[test]
fn test_er_entities_with_attributes() {
    let source =
        "erDiagram\nCUSTOMER {\nint id PK\nstring name\n}\nCUSTOMER ||--o{ ORDER : places";
    let diagram = parse_mermaid(source).unwrap();
    assert_eq!(diagram.entities.len(), 1);
    assert_eq!(diagram.entities[0].name, "CUSTOMER");
    assert_eq!(diagram.entities[0].attributes.len(), 2);
    assert!(diagram.entities[0].attributes[0].is_primary_key);
    assert_eq!(diagram.relationships.len(), 1);
}

#[test]
fn test_parse_pie() {
    let source = "pie title Pets\n\"Dogs\" : 386\n\"Cats\" : 85";
    let diagram = parse_mermaid(source).unwrap();
    assert_eq!(diagram.diagram_type, DiagramType::Pie);
    assert_eq!(diagram.nodes.len(), 2);
}

#[test]
fn test_pie_label_with_colon() {
    // A quoted label containing ':' must not blank the chart.
    let source = "pie title T\n\"Time: morning\" : 50\n\"Time: evening\" : 50";
    let diagram = parse_mermaid(source).unwrap();
    assert_eq!(diagram.nodes.len(), 2);
    assert_eq!(diagram.nodes[0].label, "Time: morning: 50");
}

#[test]
fn test_empty_input_errors() {
    assert!(parse_mermaid("").is_err());
    assert!(parse_mermaid("%% only a comment").is_err());
}

#[test]
fn test_unsupported_type_errors() {
    assert!(parse_mermaid("gitGraph\ncommit").is_err());
}
