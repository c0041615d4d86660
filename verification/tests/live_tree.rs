use elvis::node::{hash, Arena, Node};
use elvis::tree::AttrMap;

fn cv(s: &str) -> Vec<char> {
    s.chars().collect()
}

fn leaf(a: &mut Arena, tag: &str, pre: Option<usize>) -> usize {
    Node::new(a, AttrMap::new(), Vec::new(), pre, cv(tag))
}

#[test]
fn push_then_remove_restores_children() {
    let mut a = Arena { nodes: Vec::new() };
    let root = leaf(&mut a, "root", None);
    let old_kid = leaf(&mut a, "kid", None);
    Node::push(&mut a, root, old_kid);
    let before = a.nodes[root].children.clone();
    let fresh = leaf(&mut a, "fresh", None);
    Node::push(&mut a, root, fresh);
    assert_eq!(a.nodes[root].children.len(), 2);
    Node::remove(&mut a, root, fresh);
    assert_eq!(a.nodes[root].children, before);
}

#[test]
fn remove_takes_first_occurrence_only() {
    let mut a = Arena { nodes: Vec::new() };
    let root = leaf(&mut a, "root", None);
    let kid = leaf(&mut a, "kid", None);
    Node::push(&mut a, root, kid);
    Node::push(&mut a, root, kid);
    assert_eq!(a.nodes[root].children, vec![kid, kid]);
    Node::remove(&mut a, root, kid);
    assert_eq!(a.nodes[root].children, vec![kid]);
}

#[test]
fn replace_preserves_parent_linkage() {
    let mut a = Arena { nodes: Vec::new() };
    let root = leaf(&mut a, "root", None);
    let kid = leaf(&mut a, "kid", Some(root));
    Node::push(&mut a, root, kid);
    let pre_before = a.nodes[kid].pre;
    let position = a.nodes[root].children.iter().position(|&c| c == kid);
    let mut new_attrs = AttrMap::new();
    new_attrs.insert(cv("x"), cv("1"));
    let content = Node { attrs: new_attrs, children: Vec::new(), tag: cv("swapped"), pre: None };
    Node::replace(&mut a, kid, content);
    assert_eq!(a.nodes[kid].pre, pre_before);
    assert_eq!(a.nodes[kid].tag, cv("swapped"));
    assert_eq!(a.nodes[kid].attrs.get(&cv("x")).unwrap(), &cv("1"));
    assert_eq!(a.nodes[root].children.iter().position(|&c| c == kid), position);
}

#[test]
fn drain_detaches_from_parent_and_is_noop_on_root() {
    let mut a = Arena { nodes: Vec::new() };
    let root = leaf(&mut a, "root", None);
    let kid = leaf(&mut a, "kid", None);
    Node::push(&mut a, root, kid);
    assert_eq!(a.nodes[root].children, vec![kid]);
    Node::drain(&mut a, kid);
    assert!(a.nodes[root].children.is_empty());
    let snapshot = a.nodes[root].children.clone();
    Node::drain(&mut a, root);
    assert_eq!(a.nodes[root].children, snapshot);
}

#[test]
fn idx_assigns_ids_in_preorder_and_is_idempotent() {
    let mut a = Arena { nodes: Vec::new() };
    let root = leaf(&mut a, "r", None);
    let left = leaf(&mut a, "l", None);
    let right = leaf(&mut a, "m", None);
    Node::push(&mut a, root, left);
    Node::push(&mut a, root, right);
    let mut path: Vec<u8> = Vec::new();
    Node::idx(&mut a, root, &mut path);
    let root_id = a.nodes[root].attrs.get(&cv("id")).unwrap().clone();
    let left_id = a.nodes[left].attrs.get(&cv("id")).unwrap().clone();
    let right_id = a.nodes[right].attrs.get(&cv("id")).unwrap().clone();
    assert_eq!(root_id, hash(&cv("r"), &[]));
    assert_eq!(left_id, hash(&cv("l"), &[0]));
    assert_ne!(left_id, right_id);
    let snapshot = a.nodes.iter().map(|n| n.attrs.clone()).collect::<Vec<_>>();
    let mut path2: Vec<u8> = Vec::new();
    Node::idx(&mut a, root, &mut path2);
    let again = a.nodes.iter().map(|n| n.attrs.clone()).collect::<Vec<_>>();
    assert_eq!(snapshot, again);
}

#[test]
fn idx_keeps_existing_id() {
    let mut a = Arena { nodes: Vec::new() };
    let mut attrs = AttrMap::new();
    attrs.insert(cv("id"), cv("keep-me"));
    let root = Node::new(&mut a, attrs, Vec::new(), None, cv("r"));
    let mut path: Vec<u8> = Vec::new();
    Node::idx(&mut a, root, &mut path);
    assert_eq!(a.nodes[root].attrs.get(&cv("id")).unwrap(), &cv("keep-me"));
}

#[test]
fn locate_builds_leaf_to_root_path() {
    let mut a = Arena { nodes: Vec::new() };
    let root = leaf(&mut a, "root", None);
    let first = leaf(&mut a, "first", None);
    let second = leaf(&mut a, "second", None);
    let deep = leaf(&mut a, "deep", None);
    Node::push(&mut a, root, first);
    Node::push(&mut a, root, second);
    Node::push(&mut a, second, deep);
    assert_eq!(Node::locate(&a, root, Vec::new()), Vec::<usize>::new());
    assert_eq!(Node::locate(&a, deep, Vec::new()), vec![0, 1]);
    assert_eq!(Node::locate(&a, second, vec![7]), vec![7, 1]);
}

#[test]
fn hash_is_deterministic_and_tag_prefixed() {
    let a = hash(&cv("div"), &[0, 1, 2]);
    let b = hash(&cv("div"), &[0, 1, 2]);
    assert_eq!(a, b);
    let s: String = a.iter().collect();
    assert!(s.starts_with("div-"));
    assert!(s.len() <= "div-".len() + 6);
    let c = hash(&cv("div"), &[0, 1, 3]);
    assert_ne!(a, c);
}

#[test]
fn update_hook_changes_nothing() {
    let mut a = Arena { nodes: Vec::new() };
    let root = leaf(&mut a, "root", None);
    let kid = leaf(&mut a, "kid", None);
    Node::push(&mut a, root, kid);
    let snapshot = a.nodes.iter().map(|n| n.children.clone()).collect::<Vec<_>>();
    Node::update(&mut a, root);
    let after = a.nodes.iter().map(|n| n.children.clone()).collect::<Vec<_>>();
    assert_eq!(snapshot, after);
}
