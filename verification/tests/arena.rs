use nparser::arena::{Arena, NodeData, NodeId};
use nparser::attrs::Attrs;

fn element(tag: &str) -> NodeData {
    NodeData::Element { tag: tag.to_string(), attrs: Attrs::new() }
}

fn text(s: &str) -> NodeData {
    NodeData::Text(s.to_string())
}

/// root > a > (b > "x", "y")
fn sample() -> (Arena, NodeId, NodeId, NodeId, NodeId) {
    let mut arena = Arena::new();
    let root = arena.root;
    let a = arena.alloc_node(element("a"));
    let b = arena.alloc_node(element("b"));
    let x = arena.alloc_node(text("x"));
    let y = arena.alloc_node(text("y"));
    arena.append_child(root, a);
    arena.append_child(a, b);
    arena.append_child(b, x);
    arena.append_child(a, y);
    (arena, a, b, x, y)
}

#[test]
fn new_arena_holds_a_document_node() {
    let arena = Arena::new();
    assert_eq!(arena.root, NodeId(0));
    assert_eq!(arena.nodes.len(), 1);
    assert!(matches!(arena.get(NodeId(0)).data, NodeData::Document));
    assert_eq!(arena.get(NodeId(0)).parent, None);
    assert!(arena.get(NodeId(0)).children.is_empty());
}

#[test]
fn appended_child_knows_its_parent() {
    let (arena, a, b, x, y) = sample();
    assert_eq!(arena.get(arena.root).children, vec![a]);
    assert_eq!(arena.get(a).children, vec![b, y]);
    assert_eq!(arena.get(b).parent, Some(a));
    assert_eq!(arena.get(x).parent, Some(b));
    assert_eq!(arena.get(a).parent, Some(arena.root));
}

#[test]
fn new_nodes_are_numbered_in_order_and_unlinked() {
    let mut arena = Arena::new();
    assert_eq!(arena.alloc_node(text("p")), NodeId(1));
    assert_eq!(arena.alloc_node(text("q")), NodeId(2));
    assert_eq!(arena.get(NodeId(2)).parent, None);
    assert!(arena.get(arena.root).children.is_empty());
}

#[test]
fn get_mut_changes_a_node_in_place() {
    let (mut arena, _, _, x, _) = sample();
    arena.get_mut(x).data = text("changed");
    assert_eq!(arena.text_content(arena.root), "changedy");
}

#[test]
fn clear_children_takes_apart_the_whole_subtree() {
    let (mut arena, a, b, x, y) = sample();
    arena.clear_children(a);
    assert!(arena.get(a).children.is_empty());
    assert_eq!(arena.get(a).parent, Some(arena.root));
    assert_eq!(arena.get(b).parent, None);
    assert!(arena.get(b).children.is_empty());
    assert_eq!(arena.get(x).parent, None);
    assert_eq!(arena.get(y).parent, None);
    assert_eq!(arena.nodes.len(), 5);
    assert_eq!(arena.outer_html(a), "<a></a>");
}

#[test]
fn inner_and_outer_html_of_built_nodes() {
    let (arena, a, b, x, _) = sample();
    assert_eq!(arena.outer_html(a), "<a><b>x</b>y</a>");
    assert_eq!(arena.inner_html(a), "<b>x</b>y");
    assert_eq!(arena.inner_html(b), "x");
    assert_eq!(arena.outer_html(x), "x");
    assert_eq!(arena.inner_html(x), "");
    assert_eq!(arena.outer_html(arena.root), arena.inner_html(arena.root));
}

#[test]
fn void_element_closes_itself_only_without_children() {
    let mut arena = Arena::new();
    let br = arena.alloc_node(element("br"));
    assert_eq!(arena.outer_html(br), "<br/>");
    let t = arena.alloc_node(text("t"));
    arena.append_child(br, t);
    assert_eq!(arena.outer_html(br), "<br>t</br>");
}

#[test]
fn walk_is_in_document_order() {
    let (arena, a, b, x, y) = sample();
    assert_eq!(arena.walk_descendants(arena.root), vec![a, b, x, y]);
    assert_eq!(arena.walk_descendants(b), vec![x]);
    assert_eq!(arena.walk_descendants(y), vec![]);
}

#[test]
fn arena_queries_find_first_and_all() {
    let (arena, a, b, _, _) = sample();
    assert_eq!(arena.query_selector(arena.root, "*"), Some(a));
    assert_eq!(arena.query_selector_all(arena.root, "*"), vec![a, b]);
    assert_eq!(arena.query_selector(a, "a"), None);
    assert_eq!(arena.query_selector_all(arena.root, "zzz"), vec![]);
}
