use ikat_core::scene::paint_order_children;
use ikat_core::dynamic::{
    add_class, append_child, create_node, create_node_from_template, create_root,
    get_child_count, get_children, has_class, insert_before, remove_child, remove_class,
    remove_node, set_reuse_key, set_src, set_text,
};
use ikat_core::node::{NodeFlags, NodeId, NodeKind};
use ikat_core::scene::{Node, NodeEntry, Scene};

fn entry(parent: Option<usize>, kind: NodeKind) -> NodeEntry {
    NodeEntry {
        parent,
        kind,
        touchable: true,
        clipped: false,
        classes: Vec::new(),
        id_attr: None,
        draggable: false,
        tabindex: None,
        content: None,
        src: None,
    }
}

/// root -> child -> grandchild.
fn build_3level() -> (Scene, NodeId, NodeId, NodeId) {
    let entries = vec![
        entry(None, NodeKind::Container),
        entry(Some(0), NodeKind::Container),
        entry(Some(1), NodeKind::Container),
    ];
    let scene = Scene::build(&entries);
    let root = scene.roots[0];
    let child = scene.get(root).unwrap().children[0];
    let grand = scene.get(child).unwrap().children[0];
    (scene, root, child, grand)
}

fn empty_scene() -> Scene {
    Scene::default()
}

#[test]
fn get_children_returns_node_children() {
    let (scene, root, child, grand) = build_3level();
    assert_eq!(get_child_count(&scene, root), Some(1));
    assert_eq!(get_children(&scene, root), Some(vec![child]));
    assert_eq!(get_child_count(&scene, child), Some(1));
    assert_eq!(get_children(&scene, child), Some(vec![grand]));
    assert_eq!(get_child_count(&scene, grand), Some(0));
    assert_eq!(get_children(&scene, grand), Some(vec![]));
    assert_eq!(get_child_count(&scene, NodeId(0xFFFF_FFFF)), None);
    assert_eq!(get_children(&scene, NodeId(0xFFFF_FFFF)), None);
}

#[test]
fn class_ops_mutate_and_flag_dirty() {
    let (mut scene, root, _child, _grand) = build_3level();
    add_class(&mut scene, root, "active").unwrap();
    assert!(has_class(&scene, root, "active").unwrap());
    assert!(scene.get(root).unwrap().dirty_mesh);
    remove_class(&mut scene, root, "active").unwrap();
    assert!(!has_class(&scene, root, "active").unwrap());
    add_class(&mut scene, root, "x").unwrap();
    add_class(&mut scene, root, "x").unwrap();
    assert_eq!(
        scene.get(root).unwrap().classes.iter().filter(|c| **c == "x").count(),
        1
    );
    assert!(add_class(&mut scene, NodeId(0xFFFF_FFFF), "y").is_err());
    assert_eq!(has_class(&scene, NodeId(0xFFFF_FFFF), "y"), None);
}

#[test]
fn remove_node_recurses_children() {
    let (mut scene, root, child, grand) = build_3level();
    remove_node(&mut scene, root);
    assert!(scene.get(root).is_none());
    assert!(scene.get(child).is_none());
    assert!(scene.get(grand).is_none());
    assert!(scene.roots.is_empty());
}

#[test]
fn remove_node_from_middle_clears_subtree_and_keeps_siblings() {
    let entries = vec![
        entry(None, NodeKind::Container),
        entry(Some(0), NodeKind::Container),
        entry(Some(0), NodeKind::Container),
        entry(Some(0), NodeKind::Container),
        entry(Some(2), NodeKind::Container),
    ];
    let mut scene = Scene::build(&entries);
    let root = scene.roots[0];
    let kids = scene.get(root).unwrap().children.clone();
    let (a, b, c) = (kids[0], kids[1], kids[2]);
    let bchild = scene.get(b).unwrap().children[0];
    remove_node(&mut scene, b);
    assert!(scene.get(a).is_some());
    assert!(scene.get(c).is_some());
    assert!(scene.get(b).is_none());
    assert!(scene.get(bchild).is_none());
    let new_kids = scene.get(root).unwrap().children.clone();
    assert!(!new_kids.contains(&b));
    assert!(new_kids.contains(&a) && new_kids.contains(&c));
    assert_eq!(new_kids.len(), 2);
}

#[test]
fn remove_node_already_removed_is_noop() {
    let (mut scene, root, child, _grand) = build_3level();
    remove_node(&mut scene, child);
    remove_node(&mut scene, child);
    assert!(scene.get(child).is_none());
    assert!(scene.get(root).is_some());
}

#[test]
fn remove_node_clears_focused_node() {
    let (mut scene, root, child, _grand) = build_3level();
    scene.focused_node = Some(child);
    remove_node(&mut scene, child);
    assert_eq!(scene.focused_node, None);
    assert!(scene.get(child).is_none());
    assert!(scene.get(root).is_some());
}

#[test]
fn remove_node_keeps_focused_node_when_other_deleted() {
    let (mut scene, root, child, _grand) = build_3level();
    scene.focused_node = Some(root);
    remove_node(&mut scene, child);
    assert_eq!(scene.focused_node, Some(root));
}

#[test]
fn remove_node_recursion_clears_focused_child() {
    let (mut scene, root, _child, grand) = build_3level();
    scene.focused_node = Some(grand);
    remove_node(&mut scene, root);
    assert_eq!(scene.focused_node, None);
}

#[test]
fn remove_node_slot_reuse_invalidates_old_nodeid() {
    let (mut scene, root, child, _grand) = build_3level();
    let child_id_old = child;
    remove_node(&mut scene, child);
    assert!(scene.get(child_id_old).is_none());
    let new_id = create_node_from_template(&mut scene, NodeKind::Container, true, false, None);
    assert!(scene.get(child_id_old).is_none());
    assert!(scene.get(new_id).is_some());
    assert!(scene.get(root).is_some());
}

#[test]
fn create_node_text_marks_dirty_text() {
    let mut scene = empty_scene();
    let id = create_node(&mut scene, "span", true, false).unwrap();
    let n = scene.get(id).unwrap();
    assert!(n.dirty_text);
    assert!(matches!(n.kind, NodeKind::TextNode));
}

#[test]
fn create_node_clip_rect_for_overflow_hidden() {
    let mut scene = empty_scene();
    let id = create_node(&mut scene, "div", true, true).unwrap();
    assert!(scene.get(id).unwrap().clipped);
    let id2 = create_node(&mut scene, "div", true, false).unwrap();
    assert!(!scene.get(id2).unwrap().clipped);
}

#[test]
fn create_node_from_template_text_marks_dirty_text() {
    let mut scene = empty_scene();
    let id = create_node_from_template(&mut scene, NodeKind::TextNode, true, false, None);
    scene.text_contents.insert(id.0, "hi".into());
    let n = scene.get(id).unwrap();
    assert!(n.dirty_text);
    assert_eq!(scene.text_contents.get(&id.0).map(|s| s.as_str()), Some("hi"));
}

#[test]
fn create_node_from_template_id_is_live() {
    let mut scene = empty_scene();
    let id = create_node_from_template(&mut scene, NodeKind::Container, true, false, None);
    assert!(scene.get(id).is_some());
    assert_ne!(id, NodeId::invalid());
}

#[test]
fn create_node_from_template_no_control_init_injects_nothing() {
    let mut scene = empty_scene();
    let id = create_node_from_template(&mut scene, NodeKind::ProgressBar, true, false, None);
    assert!(scene.get(id).unwrap().children.is_empty());
}

#[test]
fn create_root_pushes_to_roots() {
    let mut scene = empty_scene();
    let r = create_root(&mut scene, "div", true, false).unwrap();
    assert_eq!(scene.roots, vec![r]);
}

#[test]
fn append_child_links_parent_and_child() {
    let mut scene = empty_scene();
    let root = create_root(&mut scene, "div", true, false).unwrap();
    let child = create_node(&mut scene, "div", true, false).unwrap();
    append_child(&mut scene, root, child).unwrap();
    assert_eq!(scene.get(root).unwrap().children, vec![child]);
    assert_eq!(scene.get(child).unwrap().parent, Some(root));
}

#[test]
fn append_child_idempotent_same_pair() {
    let mut scene = empty_scene();
    let root = create_root(&mut scene, "div", true, false).unwrap();
    let child = create_node(&mut scene, "div", true, false).unwrap();
    append_child(&mut scene, root, child).unwrap();
    append_child(&mut scene, root, child).unwrap();
    assert_eq!(scene.get(root).unwrap().children.len(), 1);
}

#[test]
fn append_child_rejects_child_with_existing_parent() {
    let mut scene = empty_scene();
    let a = create_root(&mut scene, "div", true, false).unwrap();
    let b = create_node(&mut scene, "div", true, false).unwrap();
    let c = create_node(&mut scene, "div", true, false).unwrap();
    append_child(&mut scene, a, c).unwrap();
    let err = append_child(&mut scene, b, c);
    assert!(err.is_err());
}

#[test]
fn insert_before_inserts_in_middle() {
    let mut scene = empty_scene();
    let root = create_root(&mut scene, "div", true, false).unwrap();
    let a = create_node(&mut scene, "div", true, false).unwrap();
    let b = create_node(&mut scene, "div", true, false).unwrap();
    let c = create_node(&mut scene, "div", true, false).unwrap();
    append_child(&mut scene, root, a).unwrap();
    append_child(&mut scene, root, b).unwrap();
    insert_before(&mut scene, root, c, a).unwrap();
    assert_eq!(scene.get(root).unwrap().children, vec![c, a, b]);
    assert_eq!(scene.get(c).unwrap().parent, Some(root));
}

#[test]
fn insert_before_invalid_ref_appends() {
    let mut scene = empty_scene();
    let root = create_root(&mut scene, "div", true, false).unwrap();
    let a = create_node(&mut scene, "div", true, false).unwrap();
    let b = create_node(&mut scene, "div", true, false).unwrap();
    append_child(&mut scene, root, a).unwrap();
    insert_before(&mut scene, root, b, NodeId::invalid()).unwrap();
    assert_eq!(scene.get(root).unwrap().children, vec![a, b]);
}

#[test]
fn insert_before_missing_ref_returns_err() {
    let mut scene = empty_scene();
    let root = create_root(&mut scene, "div", true, false).unwrap();
    let a = create_node(&mut scene, "div", true, false).unwrap();
    append_child(&mut scene, root, a).unwrap();
    let orphan = create_node(&mut scene, "div", true, false).unwrap();
    let new_child = create_node(&mut scene, "div", true, false).unwrap();
    let err = insert_before(&mut scene, root, new_child, orphan);
    assert!(err.is_err());
}

#[test]
fn remove_child_detaches_but_keeps_node() {
    let mut scene = empty_scene();
    let root = create_root(&mut scene, "div", true, false).unwrap();
    let child = create_node(&mut scene, "div", true, false).unwrap();
    append_child(&mut scene, root, child).unwrap();
    remove_child(&mut scene, root, child).unwrap();
    assert!(scene.get(root).unwrap().children.is_empty());
    assert!(scene.get(child).unwrap().parent.is_none());
    assert!(scene.get(child).is_some());
}

#[test]
fn remove_child_rejects_non_direct_child() {
    let mut scene = empty_scene();
    let root = create_root(&mut scene, "div", true, false).unwrap();
    let a = create_node(&mut scene, "div", true, false).unwrap();
    let b = create_node(&mut scene, "div", true, false).unwrap();
    append_child(&mut scene, root, a).unwrap();
    append_child(&mut scene, root, b).unwrap();
    let err = remove_child(&mut scene, a, b);
    assert!(err.is_err());
    assert_eq!(scene.get(b).unwrap().parent, Some(root));
    assert!(!scene.get(a).unwrap().children.contains(&b));
    assert!(scene.get(root).unwrap().children.contains(&b));
}

#[test]
fn set_text_changes_content_and_marks_dirty() {
    let mut scene = empty_scene();
    let t = create_node(&mut scene, "span", true, false).unwrap();
    scene.get_mut(t).unwrap().dirty_text = false;
    set_text(&mut scene, t, "hello").unwrap();
    assert!(scene.get(t).unwrap().dirty_text);
    assert_eq!(scene.text_contents.get(&t.0).map(|s| s.as_str()), Some("hello"))
}

#[test]
fn set_text_rejects_non_text() {
    let mut scene = empty_scene();
    let d = create_node(&mut scene, "div", true, false).unwrap();
    assert!(set_text(&mut scene, d, "x").is_err());
}

#[test]
fn set_src_changes_src_and_marks_dirty_mesh() {
    let mut scene = empty_scene();
    let img = create_node(&mut scene, "img", true, false).unwrap();
    scene.get_mut(img).unwrap().dirty_mesh = false;
    set_src(&mut scene, img, "icon.png").unwrap();
    assert!(scene.get(img).unwrap().dirty_mesh);
    assert_eq!(scene.image_srcs.get(&img.0).map(|s| s.as_str()), Some("icon.png"))
}

#[test]
fn set_src_rejects_non_image() {
    let mut scene = empty_scene();
    let d = create_node(&mut scene, "div", true, false).unwrap();
    assert!(set_src(&mut scene, d, "x").is_err());
}

#[test]
fn create_node_id_is_live_via_get() {
    let mut scene = empty_scene();
    let id = create_node(&mut scene, "div", true, false).unwrap();
    assert!(scene.get(id).is_some());
    assert_ne!(id, NodeId::invalid());
}

#[test]
fn append_child_builds_multi_level_tree() {
    let mut scene = empty_scene();
    let root = create_root(&mut scene, "div", true, false).unwrap();
    let c1 = create_node(&mut scene, "div", true, false).unwrap();
    let c2 = create_node(&mut scene, "div", true, false).unwrap();
    append_child(&mut scene, root, c1).unwrap();
    append_child(&mut scene, c1, c2).unwrap();
    assert_eq!(scene.get(root).unwrap().children, vec![c1]);
    assert_eq!(scene.get(c1).unwrap().children, vec![c2]);
    assert_eq!(scene.get(c2).unwrap().parent, Some(c1));
}

#[test]
fn scene_nodes_is_slotmap_and_get_by_id() {
    let entries = vec![entry(None, NodeKind::Container), entry(Some(0), NodeKind::Button)];
    let mut scene = Scene::build(&entries);
    let root_id = scene.roots[0];
    assert!(scene.get(root_id).is_some());
    if let Some(n) = scene.get_mut(root_id) {
        n.interaction.flags.insert(NodeFlags::disabled());
    }
    assert!(scene.get(root_id).unwrap().interaction.flags.contains(NodeFlags::disabled()));
}

#[test]
fn node_id_from_key_to_key_roundtrip() {
    let entries = vec![entry(None, NodeKind::Container)];
    let scene = Scene::build(&entries);
    let id = scene.roots[0];
    assert!(scene.get(id).is_some());
    assert_eq!(id.index(), 1);
    assert_eq!(id.gen(), 1);
}

#[test]
fn node_has_runtime_state_fields_default() {
    let n = Node::default();
    assert!(n.interaction.touchable);
    assert!(!n.interaction.flags.contains(NodeFlags::hovered()));
    assert!(!n.interaction.flags.contains(NodeFlags::active()));
    assert!(!n.interaction.flags.contains(NodeFlags::disabled()));
    assert!(n.classes.is_empty());
    assert!(n.id_attr.is_none());
}

#[test]
fn node_has_draggable_field_default_false() {
    let n = Node::default();
    assert!(!n.interaction.draggable);
}

#[test]
fn scene_build_6tuple_sets_draggable() {
    let mut btn = entry(Some(0), NodeKind::Button);
    btn.draggable = true;
    let entries = vec![entry(None, NodeKind::Container), btn];
    let scene = Scene::build(&entries);
    let root_id = scene.roots[0];
    let btn_id = scene.get(root_id).unwrap().children[0];
    assert!(!scene.get(root_id).unwrap().interaction.draggable);
    assert!(scene.get(btn_id).unwrap().interaction.draggable);
}

#[test]
fn node_has_tabindex_focused_defaults() {
    let n = Node::default();
    assert_eq!(n.interaction.tabindex, None);
    assert!(!n.interaction.flags.contains(NodeFlags::focused()));
}

#[test]
fn scene_default_focused_node_none() {
    let s = Scene::default();
    assert_eq!(s.focused_node, None);
}

#[test]
fn scene_build_7tuple_sets_tabindex() {
    let mut b1 = entry(Some(0), NodeKind::Button);
    b1.tabindex = Some(0);
    let mut b2 = entry(Some(0), NodeKind::Button);
    b2.tabindex = Some(3);
    let entries = vec![entry(None, NodeKind::Container), b1, b2];
    let scene = Scene::build(&entries);
    let root_id = scene.roots[0];
    let kids = &scene.get(root_id).unwrap().children;
    let btn1 = kids[0];
    let btn2 = kids[1];
    assert_eq!(scene.get(root_id).unwrap().interaction.tabindex, None);
    assert_eq!(scene.get(btn1).unwrap().interaction.tabindex, Some(0));
    assert_eq!(scene.get(btn2).unwrap().interaction.tabindex, Some(3));
    assert!(!scene.get(root_id).unwrap().interaction.flags.contains(NodeFlags::focused()));
    assert_eq!(scene.focused_node, None);
}

#[test]
fn scene_build_constructs_tree_without_parse() {
    let mut text = entry(Some(0), NodeKind::TextNode);
    text.content = Some("hi".into());
    let entries = vec![entry(None, NodeKind::Container), text];
    let scene = Scene::build(&entries);
    assert_eq!(scene.node_count(), 2);
    assert_eq!(scene.roots.len(), 1);
    let root_id = scene.roots[0];
    let root = scene.get(root_id).unwrap();
    assert!(matches!(root.kind, NodeKind::Container));
    assert_eq!(root.children.len(), 1);
    let text_id = root.children[0];
    assert!(!root.clipped);
    assert!(!root.dirty_text);
    let text = scene.get(text_id).unwrap();
    assert!(matches!(text.kind, NodeKind::TextNode));
    assert_eq!(text.parent, Some(root_id));
    assert!(text.dirty_text);
    assert_eq!(scene.text_contents.get(&text_id.0).map(|s| s.as_str()), Some("hi"));
    let mut clipped = entry(None, NodeKind::Container);
    clipped.clipped = true;
    let scene2 = Scene::build(&vec![clipped]);
    assert!(scene2.get(scene2.roots[0]).unwrap().clipped);
}

// Own tests.

#[test]
fn build_assigns_fresh_handles_in_entry_order() {
    let entries = vec![
        entry(None, NodeKind::Container),
        entry(Some(0), NodeKind::Image),
        entry(None, NodeKind::TextNode),
    ];
    let scene = Scene::build(&entries);
    assert_eq!(scene.roots, vec![NodeId(0x1_0000_0001), NodeId(0x1_0000_0003)]);
    assert_eq!(scene.get(NodeId(0x1_0000_0001)).unwrap().children, vec![NodeId(0x1_0000_0002)]);
    assert_eq!(scene.image_srcs.get(&0x1_0000_0002).map(|s| s.as_str()), Some(""));
    assert_eq!(scene.text_contents.get(&0x1_0000_0003).map(|s| s.as_str()), Some(""));
    assert!(scene.text_contents.get(&0x1_0000_0001).is_none());
}

#[test]
fn create_root_sets_scope_flags() {
    let mut scene = empty_scene();
    let r = create_root(&mut scene, "div", true, false).unwrap();
    let flags = scene.get(r).unwrap().interaction.flags;
    assert!(flags.contains(NodeFlags::scope_root()));
    assert!(flags.contains(NodeFlags::lookup_scope()));
    assert!(create_root(&mut scene, "ul", true, false).is_err());
    assert_eq!(scene.roots, vec![r]);
}

#[test]
fn remove_node_drops_text_and_image_entries() {
    let mut scene = empty_scene();
    let root = create_root(&mut scene, "div", true, false).unwrap();
    let t = create_node(&mut scene, "span", true, false).unwrap();
    let i = create_node(&mut scene, "img", true, false).unwrap();
    append_child(&mut scene, root, t).unwrap();
    append_child(&mut scene, t, i).unwrap();
    set_text(&mut scene, t, "x").unwrap();
    remove_node(&mut scene, t);
    assert!(scene.text_contents.get(&t.0).is_none());
    assert!(scene.image_srcs.get(&i.0).is_none());
    assert!(scene.get(root).unwrap().children.is_empty());
}

#[test]
fn remove_class_removes_every_copy() {
    let (mut scene, root, _c, _g) = build_3level();
    scene.get_mut(root).unwrap().classes = vec!["a".into(), "b".into(), "a".into()];
    remove_class(&mut scene, root, "a").unwrap();
    assert_eq!(scene.get(root).unwrap().classes, vec!["b".to_string()]);
}

#[test]
fn set_reuse_key_on_dead_handle_is_ignored() {
    let (mut scene, root, _c, _g) = build_3level();
    set_reuse_key(&mut scene, root, 7);
    assert_eq!(scene.get(root).unwrap().reuse_key, 7);
    set_reuse_key(&mut scene, NodeId(5), 9);
    assert_eq!(scene.node_count(), 3);
}

#[test]
fn get_live_reads_and_writes_live_nodes() {
    let mut scene = ikat_core::scene::Scene::default();
    let root = ikat_core::dynamic::create_root(&mut scene, "div", true, false).unwrap();
    assert_eq!(scene.get_live(root, "tests/get_live").id, root);
    scene.get_live_mut(root, "tests/get_live_mut").reuse_key = 7;
    assert_eq!(scene.get(root).unwrap().reuse_key, 7);
}

#[test]
fn paint_order_children_sorts_by_z_stable() {
    // root with children a(z=0) b(z=2) c(z=1) paints [a, c, b]; equal z keeps document order.
    let scene = Scene::from_nodes(
        vec![Node::default(), Node::default(), Node::default(), Node::default()],
        vec![(0, 1), (0, 2), (0, 3)],
    );
    let root_id = scene.roots[0];
    let ids: Vec<ikat_core::node::NodeId> = scene.get(root_id).unwrap().children.clone();
    assert_eq!(paint_order_children(&scene, root_id, &[0, 2, 1]), vec![ids[0], ids[2], ids[1]]);
    assert_eq!(paint_order_children(&scene, root_id, &[0, 0, 0]), ids);
    // A negative z paints first.
    let scene2 = Scene::from_nodes(vec![Node::default(), Node::default(), Node::default()], vec![(0, 1), (0, 2)]);
    let root2 = scene2.roots[0];
    let kids2: Vec<ikat_core::node::NodeId> = scene2.get(root2).unwrap().children.clone();
    assert_eq!(paint_order_children(&scene2, root2, &[-5, 0]), vec![kids2[0], kids2[1]]);
    assert_eq!(paint_order_children(&scene2, root2, &[3, -5]), vec![kids2[1], kids2[0]]);
    // A dead node has none.
    assert!(paint_order_children(&scene, ikat_core::node::NodeId(0xFFFF_FFFF), &[]).is_empty());
}
