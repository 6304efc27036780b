use ikat_core::dynamic::kind_from_tag;
use ikat_core::node::NodeKind;
use ikat_core::node::NodeId;
use ikat_core::roving::roving_step;

#[test]
fn kind_from_tag_maps_fence_whitelist() {
    assert!(matches!(kind_from_tag("div").unwrap(), NodeKind::Container));
    assert!(matches!(kind_from_tag("button").unwrap(), NodeKind::Button));
    assert!(matches!(kind_from_tag("img").unwrap(), NodeKind::Image));
    assert!(matches!(kind_from_tag("span").unwrap(), NodeKind::TextNode));
}

#[test]
fn kind_from_tag_unknown_returns_err() {
    assert!(kind_from_tag("ul").is_err());
    assert!(kind_from_tag("l-container").is_err());
    assert!(kind_from_tag("").is_err());
}

#[test]
fn kind_from_tag_error_names_tag() {
    assert_eq!(
        kind_from_tag("ul").unwrap_err(),
        "unknown kind tag: ul（围栏白名单：div/button/img/span）"
    );
}

#[test]
fn roving_step_clamps_without_wrap() {
    let items = [NodeId(1), NodeId(2), NodeId(3)];
    assert_eq!(roving_step(&items, 0, 1), Some(NodeId(2)));
    assert_eq!(roving_step(&items, 0, -1), Some(NodeId(1)));
    assert_eq!(roving_step(&items, 2, 1), Some(NodeId(3)));
    assert_eq!(roving_step(&items, 1, 10), Some(NodeId(3)));
    assert_eq!(roving_step(&[], 0, 1), None);
    // A seed past i64::MAX reads as negative and lands on the first item.
    assert_eq!(roving_step(&items, usize::MAX, 1), Some(NodeId(1)));
}

use ikat_core::dynamic::{add_class, append_child, clone_node_recursive, create_node, create_root, set_src, set_text};
use ikat_core::node::ControlState;
use ikat_core::scene::Scene;

#[test]
fn clone_subtree_copies_structure_text_image_classes() {
    let mut scene = Scene::default();
    let root = create_root(&mut scene, "div", true, false).unwrap();
    let img = create_node(&mut scene, "img", true, false).unwrap();
    set_src(&mut scene, img, "icon.png").unwrap();
    append_child(&mut scene, root, img).unwrap();
    let txt = create_node(&mut scene, "span", true, false).unwrap();
    set_text(&mut scene, txt, "hello").unwrap();
    append_child(&mut scene, root, txt).unwrap();

    let cloned = clone_node_recursive(&mut scene, root);
    assert!(scene.get(cloned).unwrap().parent.is_none(), "cloned root is detached");
    assert_eq!(scene.get(cloned).unwrap().children.len(), 2);
    assert_ne!(cloned, root, "a new handle, not the source's");
    let cloned_kids: Vec<NodeId> = scene.get(cloned).unwrap().children.clone();
    let img_child = cloned_kids
        .iter()
        .copied()
        .find(|&c| scene.get(c).unwrap().kind == NodeKind::Image)
        .unwrap();
    assert_eq!(scene.image_srcs.get(&img_child.0).map(|s| s.as_str()), Some("icon.png"));
    let txt_child = cloned_kids
        .iter()
        .copied()
        .find(|&c| scene.get(c).unwrap().kind == NodeKind::TextNode)
        .unwrap();
    assert_eq!(scene.text_contents.get(&txt_child.0).map(|s| s.as_str()), Some("hello"));
}

#[test]
fn clone_copies_classes_and_leaves_source_and_runtime_state_alone() {
    let mut scene = Scene::default();
    let root = create_root(&mut scene, "div", true, false).unwrap();
    add_class(&mut scene, root, "card").unwrap();
    scene.controls.ensure(root, ControlState::Toggle { checked: true });
    let before = scene.node_count();
    let cloned = clone_node_recursive(&mut scene, root);
    assert_eq!(scene.node_count(), before + 1);
    assert_eq!(scene.get(cloned).unwrap().classes, vec!["card".to_string()]);
    assert_eq!(scene.get(cloned).unwrap().parent, None);
    assert!(scene.controls.get(cloned).is_none(), "runtime control state is not copied");
    assert_eq!(scene.roots, vec![root], "the copy is not a root");
    assert_eq!(scene.get(root).unwrap().children.len(), 0);
}

#[test]
fn clone_keeps_an_entry_already_held_under_the_new_handle() {
    // A text entry left under a handle that no node has yet: the copy of a node that is not
    // a text node and has no entry of its own leaves it there.
    let mut scene = Scene::default();
    let root = create_root(&mut scene, "div", true, false).unwrap();
    let next = NodeId(root.0 + 1);
    scene.text_contents.insert(next.0, "left over".to_string());
    let cloned = clone_node_recursive(&mut scene, root);
    assert_eq!(cloned, next, "the next slot holds the copy");
    assert_eq!(scene.text_contents.get(&cloned.0).map(|s| s.as_str()), Some("left over"));
    assert!(scene.text_contents.get(&root.0).is_none());
}

#[test]
fn try_clone_copies_when_there_is_room_and_refuses_a_dead_source() {
    let mut scene = Scene::default();
    let root = create_root(&mut scene, "div", true, false).unwrap();
    let child = create_node(&mut scene, "span", true, false).unwrap();
    set_text(&mut scene, child, "hi").unwrap();
    append_child(&mut scene, root, child).unwrap();
    let before = scene.node_count();
    let copy = ikat_core::dynamic::try_clone_node_recursive(&mut scene, root).expect("room for two nodes");
    assert_eq!(scene.node_count(), before + 2);
    assert_eq!(scene.get(copy).unwrap().children.len(), 1);
    assert_eq!(ikat_core::dynamic::try_clone_node_recursive(&mut scene, NodeId::invalid()), None);
    assert_eq!(scene.node_count(), before + 2);
}

#[test]
fn append_then_remove_restores_the_tree_with_any_live_handles() {
    // A handle whose version's low bit is clear denotes the same node (the slot map forces
    // the bit on when decoding it).
    let mut scene = Scene::default();
    let root = create_root(&mut scene, "div", true, false).unwrap();
    let child = create_node(&mut scene, "div", true, false).unwrap();
    let other = |id: NodeId| NodeId(id.0 & !(1u64 << 32));
    assert!(scene.get(other(root)).is_some() && scene.get(other(child)).is_some());
    append_child(&mut scene, other(root), other(child)).unwrap();
    assert_eq!(scene.get(root).unwrap().children, vec![other(child)]);
    ikat_core::dynamic::remove_child(&mut scene, other(root), other(child)).unwrap();
    assert!(scene.get(root).unwrap().children.is_empty());
    assert_eq!(scene.get(child).unwrap().parent, None);
}

#[test]
fn create_node_fills_base_style_and_id() {
    let mut scene = Scene::default();
    let id = create_node(&mut scene, "div", true, false).unwrap();
    let n = scene.get(id).unwrap();
    assert_eq!(n.id, id);
    assert!(n.parent.is_none());
    assert!(n.children.is_empty());
    assert_eq!(n.kind, NodeKind::Container);
    assert!(n.dirty_mesh);
    assert_ne!(id, NodeId::invalid());
}
