use pageindex::tree::{DocumentTree, Node};

fn make_tree() -> DocumentTree {
    let child1 = Node::new("1.1".to_string(), "Background".to_string(), 2, "Background text.".to_string());
    let child2 = Node::new("1.2".to_string(), "Goals".to_string(), 2, "Goals text.".to_string());
    let mut root = Node::new("1".to_string(), "Introduction".to_string(), 1, "Intro text.".to_string());
    root.children.push(child1);
    root.children.push(child2);
    DocumentTree::new("doc1".to_string(), "Introduction".to_string(), root)
}

#[test]
fn test_find_root_node() {
    let tree = make_tree();
    let node = tree.find_node("1");
    assert!(node.is_some());
    assert_eq!(node.unwrap().title, "Introduction");
}

#[test]
fn test_find_child_node() {
    let tree = make_tree();
    let node = tree.find_node("1.2");
    assert!(node.is_some());
    assert_eq!(node.unwrap().title, "Goals");
}

#[test]
fn test_find_missing_node_returns_none() {
    let tree = make_tree();
    assert!(tree.find_node("9.9").is_none());
}

#[test]
fn test_all_node_ids() {
    let tree = make_tree();
    let ids = tree.all_node_ids();
    assert_eq!(ids.len(), 3);
    assert!(ids.contains(&"1".to_string()));
    assert!(ids.contains(&"1.1".to_string()));
    assert!(ids.contains(&"1.2".to_string()));
}

#[test]
fn test_flatten_count() {
    let tree = make_tree();
    assert_eq!(tree.all_nodes().len(), 3);
}

#[test]
fn all_ids_are_in_preorder() {
    let tree = make_tree();
    assert_eq!(tree.root.all_ids(), vec!["1", "1.1", "1.2"]);
    let titles: Vec<&str> = tree.root.flatten().iter().map(|n| n.title.as_str()).collect();
    assert_eq!(titles, vec!["Introduction", "Background", "Goals"]);
}

#[test]
fn aggregator_root_is_left_out_of_ids() {
    let mut root = Node::new("0".to_string(), String::new(), 0, String::new());
    root.children.push(Node::new("1".to_string(), "A".to_string(), 1, String::new()));
    root.children.push(Node::new("2".to_string(), "B".to_string(), 1, String::new()));
    let tree = DocumentTree::new("d".to_string(), "d".to_string(), root);
    assert_eq!(tree.all_node_ids(), vec!["1", "2"]);
    assert_eq!(tree.all_nodes().len(), 2);
    assert!(tree.find_node("0").is_some());
}

#[test]
fn find_returns_first_match_in_preorder() {
    let mut root = Node::new("1".to_string(), "A".to_string(), 1, String::new());
    let mut mid = Node::new("1.1".to_string(), "B".to_string(), 2, String::new());
    mid.children.push(Node::new("x".to_string(), "deep".to_string(), 3, String::new()));
    root.children.push(mid);
    root.children.push(Node::new("x".to_string(), "late".to_string(), 2, String::new()));
    assert_eq!(root.find("x").unwrap().title, "deep");
}
