use pageindex::parser::parse_markdown;
use pageindex::traversal::get_tree_outline;

const SAMPLE: &str = r#"
# Introduction
Introductory text.

## Background
Background details.

## Goals
Goal details.

# Methods
Method details.

## Experiment
Experiment details.
"#;

#[test]
fn test_doc_title_from_first_heading() {
    let tree = parse_markdown("doc1", SAMPLE);
    assert_eq!(tree.title, "Introduction");
}

#[test]
fn test_node_ids_are_correct() {
    let tree = parse_markdown("doc1", SAMPLE);
    let ids = tree.all_node_ids();
    assert!(ids.contains(&"1".to_string()));
    assert!(ids.contains(&"1.1".to_string()));
    assert!(ids.contains(&"1.2".to_string()));
    assert!(ids.contains(&"2".to_string()));
    assert!(ids.contains(&"2.1".to_string()));
}

#[test]
fn test_node_body_text() {
    let tree = parse_markdown("doc1", SAMPLE);
    let node = tree.find_node("1.1").unwrap();
    assert_eq!(node.text, "Background details.");
}

#[test]
fn test_child_count_for_introduction() {
    let tree = parse_markdown("doc1", SAMPLE);
    let node = tree.find_node("1").unwrap();
    assert_eq!(node.children.len(), 2);
}

#[test]
fn test_total_node_count() {
    let tree = parse_markdown("doc1", SAMPLE);
    assert_eq!(tree.all_node_ids().len(), 5);
}

#[test]
fn test_empty_markdown_produces_root() {
    let tree = parse_markdown("empty", "");
    assert_eq!(tree.doc_id, "empty");
}

#[test]
fn test_single_heading() {
    let md = "# Only Section\nSome text.";
    let tree = parse_markdown("single", md);
    assert_eq!(tree.title, "Only Section");
    let node = tree.find_node("1").unwrap();
    assert_eq!(node.text, "Some text.");
}

#[test]
fn sample_ids_in_document_order() {
    let tree = parse_markdown("doc1", SAMPLE);
    assert_eq!(tree.all_node_ids(), vec!["1", "1.1", "1.2", "2", "2.1"]);
    assert_eq!(tree.root.node_id, "0");
    assert_eq!(tree.root.title, "");
    assert_eq!(tree.root.depth, 0);
}

#[test]
fn empty_input_gives_empty_aggregator() {
    let tree = parse_markdown("empty", "");
    assert!(tree.all_node_ids().is_empty());
    assert_eq!(tree.root.node_id, "0");
    assert!(tree.root.children.is_empty());
    assert_eq!(tree.title, "empty");
    assert!(tree.description.is_none());
}

#[test]
fn single_section_is_the_root() {
    let tree = parse_markdown("single", "# Only Section\nSome text.");
    assert_eq!(tree.root.node_id, "1");
    assert_eq!(tree.root.text, "Some text.");
    assert_eq!(tree.all_node_ids(), vec!["1"]);
}

#[test]
fn one_top_level_section_with_children_is_the_root() {
    let tree = parse_markdown("d", "# Top\nintro\n## A\na\n### A1\n## B\nb");
    assert_eq!(tree.title, "Top");
    assert_eq!(tree.root.node_id, "1");
    assert_eq!(tree.all_node_ids(), vec!["1", "1.1", "1.1.1", "1.2"]);
}

#[test]
fn first_heading_deeper_than_one_keeps_doc_id_as_title() {
    let tree = parse_markdown("doc", "## Deep\ntext\n## Other");
    assert_eq!(tree.title, "doc");
    assert_eq!(tree.root.node_id, "0");
    assert_eq!(tree.all_node_ids(), vec!["0.1", "0.2"]);
}

#[test]
fn skipped_levels_keep_zero_counters() {
    let tree = parse_markdown("d", "# A\n#### Deep\n## B");
    assert_eq!(tree.all_node_ids(), vec!["1", "1.0.0.1", "1.1"]);
    assert_eq!(tree.find_node("1").unwrap().children.len(), 2);
}

#[test]
fn deeper_than_nine_levels_is_handled() {
    let tree = parse_markdown("d", "# A\n########### Eleven\nbody");
    assert_eq!(tree.all_node_ids(), vec!["1", "1.0.0.0.0.0.0.0.0.0.1"]);
    assert_eq!(tree.find_node("1.0.0.0.0.0.0.0.0.0.1").unwrap().depth, 11);
}

#[test]
fn counters_reset_at_shallower_headings() {
    let tree = parse_markdown("d", "# A\n## A1\n## A2\n# B\n## B1\n### B1a\n## B2");
    assert_eq!(tree.all_node_ids(), vec!["1", "1.1", "1.2", "2", "2.1", "2.1.1", "2.2"]);
}

#[test]
fn ten_siblings_get_two_digit_ids() {
    let mut md = String::new();
    for i in 0..11 {
        md.push_str(&format!("# S{}\n", i));
    }
    let tree = parse_markdown("d", &md);
    let ids = tree.all_node_ids();
    assert_eq!(ids.len(), 11);
    assert_eq!(ids[9], "10");
    assert_eq!(ids[10], "11");
}

#[test]
fn lines_before_first_heading_are_dropped() {
    let tree = parse_markdown("d", "preamble\n\n# H\nbody");
    assert_eq!(tree.all_node_ids(), vec!["1"]);
    assert_eq!(tree.root.text, "body");
}

#[test]
fn hash_only_lines_are_body_text() {
    let tree = parse_markdown("d", "# H\n###   \nafter");
    assert_eq!(tree.all_node_ids(), vec!["1"]);
    assert_eq!(tree.root.text, "###   \nafter");
}

#[test]
fn marker_must_start_the_line() {
    let tree = parse_markdown("d", "# H\n  # not a heading");
    assert_eq!(tree.all_node_ids(), vec!["1"]);
    assert_eq!(tree.root.text, "# not a heading");
}

#[test]
fn titles_and_bodies_are_trimmed() {
    let tree = parse_markdown("d", "#   Spaced Title  \n\n  first\n\tsecond  \n\n");
    assert_eq!(tree.title, "Spaced Title");
    assert_eq!(tree.root.text, "first\n\tsecond");
}

#[test]
fn crlf_line_endings_are_split() {
    let tree = parse_markdown("d", "# A\r\nline one\r\nline two\r\n# B\r\n");
    assert_eq!(tree.find_node("1").unwrap().text, "line one\nline two");
    assert_eq!(tree.find_node("2").unwrap().title, "B");
}

#[test]
fn heading_count_matches_ids_with_aggregator() {
    let tree = parse_markdown("d", "# A\n# B\n## C\n# D");
    assert_eq!(tree.all_node_ids().len(), 4);
    assert_eq!(tree.all_nodes().len(), 4);
}

#[test]
fn outline_of_parsed_sample() {
    let tree = parse_markdown("doc1", SAMPLE);
    assert_eq!(
        get_tree_outline(&tree),
        "[1] Introduction\n  [1.1] Background\n  [1.2] Goals\n[2] Methods\n  [2.1] Experiment"
    );
}
