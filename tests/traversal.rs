use pageindex::parser::parse_markdown;
use pageindex::traversal::{get_children, get_node, get_node_with_children, get_tree_outline};

const SAMPLE: &str = r#"
# Introduction
Introductory text.

## Background
Background details.

## Goals
Goal details.

# Methods
Method details.

## Experiment
Experiment details.
"#;

#[test]
fn test_get_node_returns_correct_title() {
    let tree = parse_markdown("doc1", SAMPLE);
    let result = get_node(&tree, "2").unwrap();
    assert_eq!(result.title, "Methods");
}

#[test]
fn test_get_node_returns_correct_text() {
    let tree = parse_markdown("doc1", SAMPLE);
    let result = get_node(&tree, "1.1").unwrap();
    assert_eq!(result.text, "Background details.");
}

#[test]
fn test_get_node_missing_returns_none() {
    let tree = parse_markdown("doc1", SAMPLE);
    assert!(get_node(&tree, "9.9").is_none());
}

#[test]
fn test_breadcrumb_for_nested_node() {
    let tree = parse_markdown("doc1", SAMPLE);
    let result = get_node(&tree, "2.1").unwrap();
    assert_eq!(result.breadcrumb, vec!["Methods", "Experiment"]);
}

#[test]
fn test_breadcrumb_for_top_level_node() {
    let tree = parse_markdown("doc1", SAMPLE);
    let result = get_node(&tree, "1").unwrap();
    assert_eq!(result.breadcrumb, vec!["Introduction"]);
}

#[test]
fn test_get_node_with_children_includes_child_text() {
    let tree = parse_markdown("doc1", SAMPLE);
    let result = get_node_with_children(&tree, "1").unwrap();
    assert!(result.text.contains("Background details."));
    assert!(result.text.contains("Goal details."));
}

#[test]
fn test_get_children_returns_correct_pairs() {
    let tree = parse_markdown("doc1", SAMPLE);
    let children = get_children(&tree, "1");
    assert_eq!(children.len(), 2);
    assert_eq!(children[0], ("1.1".to_string(), "Background".to_string()));
    assert_eq!(children[1], ("1.2".to_string(), "Goals".to_string()));
}

#[test]
fn test_get_children_leaf_node_returns_empty() {
    let tree = parse_markdown("doc1", SAMPLE);
    let children = get_children(&tree, "1.1");
    assert!(children.is_empty());
}

#[test]
fn test_outline_contains_all_nodes() {
    let tree = parse_markdown("doc1", SAMPLE);
    let outline = get_tree_outline(&tree);
    assert!(outline.contains("[1] Introduction"));
    assert!(outline.contains("[1.1] Background"));
    assert!(outline.contains("[2] Methods"));
    assert!(outline.contains("[2.1] Experiment"));
}

#[test]
fn test_outline_indentation() {
    let tree = parse_markdown("doc1", SAMPLE);
    let outline = get_tree_outline(&tree);
    assert!(outline.contains("  [1.1]"));
    assert!(outline.contains("  [2.1]"));
}

#[test]
fn get_node_reports_every_field() {
    let tree = parse_markdown("doc1", SAMPLE);
    let r = get_node(&tree, "1.2").unwrap();
    assert_eq!(r.node_id, "1.2");
    assert_eq!(r.title, "Goals");
    assert_eq!(r.text, "Goal details.");
    assert_eq!(r.depth, 2);
    assert!(r.summary.is_none());
    assert_eq!(r.breadcrumb, vec!["Introduction", "Goals"]);
}

#[test]
fn breadcrumb_length_equals_depth_for_every_node() {
    let tree = parse_markdown("d", "# A\n## B\n### C\n#### D\n## E\n# F");
    for id in tree.all_node_ids() {
        let r = get_node(&tree, &id).unwrap();
        assert_eq!(r.breadcrumb.len(), r.depth);
        assert_eq!(r.breadcrumb.last().unwrap(), &r.title);
    }
}

#[test]
fn breadcrumb_skips_prefixes_without_node() {
    let tree = parse_markdown("d", "## Deep");
    let r = get_node(&tree, "0.1").unwrap();
    assert_eq!(r.breadcrumb, vec!["Deep"]);
}

#[test]
fn subtree_text_exact_layout() {
    let tree = parse_markdown("doc1", SAMPLE);
    let r = get_node_with_children(&tree, "1").unwrap();
    assert_eq!(
        r.text,
        "Introductory text.\n\n## Background\n\nBackground details.\n\n## Goals\n\nGoal details."
    );
    assert_eq!(r.breadcrumb, vec!["Introduction"]);
}

#[test]
fn subtree_text_omits_empty_bodies() {
    let tree = parse_markdown("d", "# A\n## B\n### C\nc text");
    let r = get_node_with_children(&tree, "1").unwrap();
    assert_eq!(r.text, "## B\n\n### C\n\nc text");
    assert!(get_node_with_children(&tree, "7").is_none());
}

#[test]
fn children_of_missing_node_are_empty() {
    let tree = parse_markdown("doc1", SAMPLE);
    assert!(get_children(&tree, "9").is_empty());
    let top = get_children(&tree, "0");
    assert_eq!(top, vec![("1".to_string(), "Introduction".to_string()), ("2".to_string(), "Methods".to_string())]);
}

#[test]
fn outline_indents_two_spaces_per_level() {
    let tree = parse_markdown("d", "# A\n### C\n## B");
    assert_eq!(get_tree_outline(&tree), "[1] A\n    [1.0.1] C\n  [1.1] B");
}

#[test]
fn outline_of_empty_tree_is_empty() {
    let tree = parse_markdown("d", "no headings here");
    assert_eq!(get_tree_outline(&tree), "");
}
