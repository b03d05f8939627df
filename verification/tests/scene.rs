use tuber::graphics::scene_renderer::draw_directives;
use tuber::scene::{NodeValue, SceneGraph, SceneNode};

#[test]
fn scene_graph_new() {
    let scene_graph = SceneGraph::new();
    let root = scene_graph.root();

    match root.value() {
        NodeValue::AbstractNode => assert!(true),
        _ => assert!(false),
    }
}

#[test]
fn scene_node_add_child() {
    let mut root = SceneNode::new("root", NodeValue::AbstractNode);
    root.add_child(SceneNode::new("a", NodeValue::AbstractNode));
    root.add_child(SceneNode::new("b", NodeValue::AbstractNode));

    assert_eq!(root.children().len(), 2);
}

#[test]
fn scene_node_find() {
    let mut root = SceneNode::new("root", NodeValue::AbstractNode);
    root.add_child(SceneNode::new("a", NodeValue::AbstractNode));
    root.add_child(SceneNode::new("b", NodeValue::AbstractNode));

    if let None = root.find("a") {
        assert!(false);
    }

    root.find_mut("b").unwrap().add_child(SceneNode::new("c", NodeValue::AbstractNode));

    if let None = root.find("c") {
        assert!(false);
    }

    if let None = root.find("b").unwrap().find("c") {
        assert!(false);
    }
}

#[test]
fn traversal_visits_each_node_once_lifo() {
    // root -> {a, b}, a -> {c}: the children of root are pushed as [a, b],
    // so b is popped (and drawn) before a and a's subtree.
    let mut graph = SceneGraph::new();
    let mut a = SceneNode::new("a", NodeValue::AbstractNode);
    a.add_child(SceneNode::new("c", NodeValue::AbstractNode));
    let b = SceneNode::new("b", NodeValue::OpenGLTriangleNode);
    graph.root_mut().add_child(a);
    graph.root_mut().add_child(b);

    let directives = draw_directives(&graph);
    assert_eq!(directives.len(), 4);
    assert!(matches!(directives[0], NodeValue::AbstractNode)); // root
    assert!(matches!(directives[1], NodeValue::OpenGLTriangleNode)); // b first
    assert!(matches!(directives[2], NodeValue::AbstractNode)); // then a
    assert!(matches!(directives[3], NodeValue::AbstractNode)); // then c
}

#[test]
fn find_returns_first_match_in_traversal_order() {
    // Children are popped last-first, so of two siblings sharing an
    // identifier the second one added is found.
    let mut root = SceneNode::new("root", NodeValue::AbstractNode);
    root.add_child(SceneNode::new("t", NodeValue::AbstractNode));
    root.add_child(SceneNode::new("t", NodeValue::OpenGLTriangleNode));

    let found = root.find("t").unwrap();
    assert!(matches!(found.value(), NodeValue::OpenGLTriangleNode));
}

#[test]
fn sibling_identifier_collision_skips_second_node() {
    // Siblings x and y share the identifier "dup"; the traversal marks
    // visited nodes by identifier, so only the first-popped "dup" node is
    // visited and the other one is skipped together with its subtree.
    let mut root = SceneNode::new("root", NodeValue::AbstractNode);
    let mut x = SceneNode::new("dup", NodeValue::AbstractNode);
    x.add_child(SceneNode::new("under", NodeValue::AbstractNode));
    let y = SceneNode::new("dup", NodeValue::OpenGLTriangleNode);
    root.add_child(x);
    root.add_child(y);

    let directives = root.traverse_values();
    assert_eq!(directives.len(), 2);
    assert!(matches!(directives[0], NodeValue::AbstractNode)); // root
    assert!(matches!(directives[1], NodeValue::OpenGLTriangleNode)); // y, popped first

    // x was skipped entirely, so its child is unreachable for the search too
    assert!(root.find("under").is_none());
}

#[test]
fn find_mut_edits_reach_the_tree() {
    let mut root = SceneNode::new("root", NodeValue::AbstractNode);
    root.add_child(SceneNode::new("leaf", NodeValue::AbstractNode));

    let leaf = root.find_mut("leaf").unwrap();
    leaf.add_child(SceneNode::new("grown", NodeValue::OpenGLTriangleNode));

    assert_eq!(root.find("leaf").unwrap().children().len(), 1);
    assert!(root.find("grown").is_some());
}

#[test]
fn fresh_graph_draws_one_directive() {
    let graph = SceneGraph::new();
    let directives = draw_directives(&graph);
    assert_eq!(directives.len(), 1);
    assert!(matches!(directives[0], NodeValue::AbstractNode));
}

#[test]
fn children_mut_edits_are_visible() {
    let mut root = SceneNode::new("root", NodeValue::AbstractNode);
    root.add_child(SceneNode::new("a", NodeValue::AbstractNode));
    root.children_mut()
        .push(SceneNode::new("b", NodeValue::OpenGLTriangleNode));
    assert_eq!(root.children().len(), 2);
    assert_eq!(root.identifier(), "root");
    assert!(root.find("b").is_some());
}

#[test]
fn root_mut_reaches_the_root() {
    let mut graph = SceneGraph::new();
    graph
        .root_mut()
        .add_child(SceneNode::new("a", NodeValue::AbstractNode));
    assert_eq!(graph.root().children().len(), 1);
    assert!(graph.root().find("a").is_some());
}

#[test]
fn find_misses_are_explicit() {
    let root = SceneNode::new("root", NodeValue::AbstractNode);
    assert!(root.find("absent").is_none());
    assert!(root.find_path("absent").is_none());
}
