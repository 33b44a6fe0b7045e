use treesize::node::{find_node_by_path, Node};

fn file(name: &str, path: &str, size: u64) -> Node {
    Node::new_file(name.to_string(), path.to_string(), size)
}

fn dir(name: &str, path: &str, children: Vec<Node>) -> Node {
    Node::new_dir(name.to_string(), path.to_string(), children)
}

fn names(nodes: &Vec<Node>) -> Vec<String> {
    nodes.iter().map(|n| n.name().clone()).collect()
}

fn check_aggregates(node: &Node) {
    if node.is_dir() {
        let kids = node.children();
        assert_eq!(node.size(), kids.iter().map(|k| k.size()).sum::<u64>());
        assert_eq!(node.file_count(), kids.iter().map(|k| k.file_count()).sum::<u64>());
        for pair in kids.windows(2) {
            assert!(pair[0].size() >= pair[1].size());
        }
        for kid in kids {
            check_aggregates(kid);
        }
    } else {
        assert_eq!(node.file_count(), 1);
        assert!(node.children().is_empty());
    }
}

#[test]
fn file_is_a_leaf_that_counts_once() {
    let f = file("a.txt", "/r/a.txt", 10);
    assert_eq!(f.name(), "a.txt");
    assert_eq!(f.path(), "/r/a.txt");
    assert!(!f.is_dir());
    assert_eq!(f.size(), 10);
    assert_eq!(f.file_count(), 1);
    assert!(f.children().is_empty());
}

#[test]
fn empty_directory_has_no_size_and_no_files() {
    let d = dir("empty", "/r/empty", vec![]);
    assert!(d.is_dir());
    assert_eq!(d.size(), 0);
    assert_eq!(d.file_count(), 0);
    assert!(d.children().is_empty());
}

#[test]
fn directory_aggregates_and_orders_children() {
    let a = file("a.txt", "/root/a.txt", 10);
    let b = file("b.txt", "/root/sub/b.txt", 20);
    let sub = dir("sub", "/root/sub", vec![b]);
    let root = dir("root", "/root", vec![a, sub]);
    assert_eq!(root.size(), 30);
    assert_eq!(root.file_count(), 2);
    assert!(root.is_dir());
    let kids = root.children();
    assert_eq!(kids.len(), 2);
    assert_eq!(kids[0].name(), "sub");
    assert_eq!(kids[0].size(), 20);
    assert_eq!(kids[1].name(), "a.txt");
    assert_eq!(kids[1].size(), 10);
}

#[test]
fn children_of_equal_size_keep_their_order() {
    let kids = vec![
        file("a", "/r/a", 5),
        file("b", "/r/b", 9),
        file("c", "/r/c", 5),
        file("d", "/r/d", 9),
        file("e", "/r/e", 1),
        file("f", "/r/f", 5),
        file("g", "/r/g", 12),
    ];
    let root = dir("r", "/r", kids);
    assert_eq!(names(root.children()), vec!["g", "b", "d", "a", "c", "f", "e"]);
    assert_eq!(root.size(), 46);
    assert_eq!(root.file_count(), 7);
}

#[test]
fn many_children_are_sorted_and_ties_stay_in_order() {
    let mut kids = Vec::new();
    for i in 0..200u64 {
        kids.push(file(&format!("f{}", i), &format!("/r/f{}", i), (i * 7) % 10));
    }
    let root = dir("r", "/r", kids);
    let sorted = root.children();
    assert_eq!(sorted.len(), 200);
    for pair in sorted.windows(2) {
        assert!(pair[0].size() >= pair[1].size());
        if pair[0].size() == pair[1].size() {
            let first: u64 = pair[0].name()[1..].parse().unwrap();
            let second: u64 = pair[1].name()[1..].parse().unwrap();
            assert!(first < second);
        }
    }
    check_aggregates(&root);
}

#[test]
fn every_directory_of_a_deep_tree_aggregates() {
    let leaf1 = file("x", "/r/a/b/x", 3);
    let leaf2 = file("y", "/r/a/b/y", 4);
    let b = dir("b", "/r/a/b", vec![leaf1, leaf2]);
    let z = file("z", "/r/a/z", 100);
    let a = dir("a", "/r/a", vec![b, z]);
    let w = file("w", "/r/w", 50);
    let root = dir("r", "/r", vec![w, a]);
    assert_eq!(root.size(), 157);
    assert_eq!(root.file_count(), 4);
    assert_eq!(names(root.children()), vec!["a", "w"]);
    check_aggregates(&root);
}

#[test]
fn find_returns_the_node_with_the_path() {
    let b = file("b.txt", "/root/sub/b.txt", 20);
    let sub = dir("sub", "/root/sub", vec![b]);
    let a = file("a.txt", "/root/a.txt", 10);
    let root = dir("root", "/root", vec![a, sub]);
    let found = find_node_by_path(&root, &"/root/sub/b.txt".to_string()).unwrap();
    assert_eq!(found.name(), "b.txt");
    assert_eq!(found.size(), 20);
    let top = find_node_by_path(&root, &"/root".to_string()).unwrap();
    assert_eq!(top.size(), 30);
    assert!(find_node_by_path(&root, &"/root/missing".to_string()).is_none());
}

#[test]
fn find_returns_the_first_match_in_depth_first_order() {
    // Two nodes share a path: the walk meets the one inside the larger
    // directory first, because that directory comes first.
    let deep = file("deep", "/dup", 7);
    let big = dir("big", "/r/big", vec![deep]);
    let shallow = file("shallow", "/dup", 3);
    let root = dir("r", "/r", vec![shallow, big]);
    let found = find_node_by_path(&root, &"/dup".to_string()).unwrap();
    assert_eq!(found.name(), "deep");
}
