use ikat_core::dynamic::{append_child, create_node, create_node_from_template, create_root};
use ikat_core::node::{NodeFlags, NodeId, NodeKind, RoleInfo};
use ikat_core::roles::{
    find_child_by_role, find_child_by_role_recursive, find_child_by_slot, ROLE_LISTBOX,
    SLOT_FILL, SLOT_THUMB, SLOT_VALUE,
};
use ikat_core::scene::{Node, Scene};
use ikat_core::text_cursor::line_byte_ranges;

fn make_control(scene: &mut Scene, kind: NodeKind) -> NodeId {
    create_node_from_template(scene, kind, true, false, None)
}

fn make_slot_child(scene: &mut Scene, parent: NodeId, slot: &str) -> NodeId {
    let id = create_node_from_template(scene, NodeKind::Container, true, false, None);
    append_child(scene, parent, id).expect("fresh child has no parent");
    scene.roles.insert(
        id,
        RoleInfo {
            role: None,
            slots: vec![(slot.to_string(), String::new())],
            aria_controls: None,
        },
    );
    id
}

fn make_role_child(scene: &mut Scene, parent: NodeId, role: &str) -> NodeId {
    let id = create_node_from_template(scene, NodeKind::Container, true, false, None);
    append_child(scene, parent, id).expect("fresh child has no parent");
    scene.roles.insert(
        id,
        RoleInfo {
            role: Some(role.to_string()),
            slots: Vec::new(),
            aria_controls: None,
        },
    );
    id
}

fn role_direct_child() {
    let mut scene = Scene::default();
    let root = make_control(&mut scene, NodeKind::Container);
    let listbox = make_role_child(&mut scene, root, ROLE_LISTBOX);
    assert_eq!(find_child_by_role(&scene, root, ROLE_LISTBOX), Some(listbox));
    assert_eq!(find_child_by_role(&scene, root, "combobox"), None);
}

fn slot_direct_child() {
    let mut scene = Scene::default();
    let root = make_control(&mut scene, NodeKind::Container);
    let fill = make_slot_child(&mut scene, root, SLOT_FILL);
    let thumb = make_slot_child(&mut scene, root, SLOT_THUMB);
    assert_eq!(find_child_by_slot(&scene, root, SLOT_FILL), Some(fill));
    assert_eq!(find_child_by_slot(&scene, root, SLOT_THUMB), Some(thumb));
    assert_eq!(find_child_by_slot(&scene, root, SLOT_VALUE), None);
}

fn role_recursive() {
    let mut scene = Scene::default();
    let combobox = make_control(&mut scene, NodeKind::Container);
    let wrapper = make_control(&mut scene, NodeKind::Container);
    append_child(&mut scene, combobox, wrapper).expect("wrapper attach");
    let listbox = make_role_child(&mut scene, wrapper, ROLE_LISTBOX);
    assert_eq!(find_child_by_role(&scene, combobox, ROLE_LISTBOX), None);
    assert_eq!(find_child_by_role_recursive(&scene, combobox, ROLE_LISTBOX), Some(listbox));
}

fn dead_parent() {
    let scene = Scene::default();
    assert_eq!(find_child_by_role(&scene, NodeId::invalid(), "x"), None);
    assert_eq!(find_child_by_slot(&scene, NodeId::invalid(), "x"), None);
    assert_eq!(find_child_by_role_recursive(&scene, NodeId::invalid(), "x"), None);
}

#[test]
fn tests_find_child_by_role_matches_direct_child() {
    role_direct_child();
}

#[test]
fn control_find_child_by_role_matches_direct_child() {
    role_direct_child();
}

#[test]
fn tests_find_child_by_slot_matches_direct_child() {
    slot_direct_child();
}

#[test]
fn control_find_child_by_slot_matches_direct_child() {
    slot_direct_child();
}

#[test]
fn tests_find_child_by_role_recursive_descends_subtree() {
    role_recursive();
}

#[test]
fn control_find_child_by_role_recursive_descends_subtree() {
    role_recursive();
}

#[test]
fn tests_find_child_returns_none_for_dead_parent() {
    dead_parent();
}

#[test]
fn control_find_child_returns_none_for_dead_parent() {
    dead_parent();
}

#[test]
fn find_by_id_attr_global_match_unaffected_by_flag_split() {
    let mut scene = Scene::default();
    let root = create_root(&mut scene, "div", true, false).unwrap();
    let child = create_node(&mut scene, "div", true, false).unwrap();
    append_child(&mut scene, root, child).unwrap();
    scene.get_mut(child).unwrap().id_attr = Some("dup".into());
    assert_eq!(scene.find_by_id_attr("dup"), Some(child));
}

#[test]
fn find_node_by_id_in_subtree_self_exclusive() {
    let mut scene = Scene::default();
    let root = create_root(&mut scene, "div", true, false).unwrap();
    scene.get_mut(root).unwrap().id_attr = Some("me".into());
    assert_eq!(scene.find_node_by_id_in_subtree(root, "me"), None);
}

#[test]
fn find_node_by_id_in_subtree_hits_descendant_not_others() {
    let mut scene = Scene::default();
    let root = create_root(&mut scene, "div", true, false).unwrap();
    let parent_a = create_node(&mut scene, "div", true, false).unwrap();
    let parent_b = create_node(&mut scene, "div", true, false).unwrap();
    append_child(&mut scene, root, parent_a).unwrap();
    append_child(&mut scene, root, parent_b).unwrap();
    let badge_a = create_node(&mut scene, "div", true, false).unwrap();
    let badge_b = create_node(&mut scene, "div", true, false).unwrap();
    append_child(&mut scene, parent_a, badge_a).unwrap();
    append_child(&mut scene, parent_b, badge_b).unwrap();
    scene.get_mut(badge_a).unwrap().id_attr = Some("badge".into());
    scene.get_mut(badge_b).unwrap().id_attr = Some("badge".into());
    assert_eq!(scene.find_node_by_id_in_subtree(parent_a, "badge"), Some(badge_a));
    assert_eq!(scene.find_node_by_id_in_subtree(parent_b, "badge"), Some(badge_b));
    assert_eq!(scene.find_node_by_id_in_subtree(badge_a, "badge"), None);
}

#[test]
fn find_node_by_id_in_subtree_returns_none_for_foreign() {
    let mut scene = Scene::default();
    let root = create_root(&mut scene, "div", true, false).unwrap();
    let child = create_node(&mut scene, "div", true, false).unwrap();
    append_child(&mut scene, root, child).unwrap();
    scene.get_mut(child).unwrap().id_attr = Some("badge".into());
    let other_root = create_root(&mut scene, "div", true, false).unwrap();
    assert_eq!(scene.find_node_by_id_in_subtree(other_root, "badge"), None);
    assert_eq!(scene.find_node_by_id_in_subtree(child, "nonexistent"), None);
}

#[test]
fn find_node_by_id_in_subtree_n_slots_same_internal_id() {
    let mut scene = Scene::default();
    let root = create_root(&mut scene, "div", true, false).unwrap();
    let mut slots = Vec::new();
    for _ in 0..3 {
        let slot = create_node(&mut scene, "div", true, false).unwrap();
        scene.get_mut(slot).unwrap().id_attr = Some("slot".into());
        let badge = create_node(&mut scene, "div", true, false).unwrap();
        scene.get_mut(badge).unwrap().id_attr = Some("badge".into());
        append_child(&mut scene, slot, badge).unwrap();
        append_child(&mut scene, root, slot).unwrap();
        slots.push((slot, badge));
    }
    for &(slot, badge) in &slots {
        assert_eq!(scene.find_node_by_id_in_subtree(slot, "badge"), Some(badge));
    }
    assert_ne!(slots[0].1, slots[1].1);
    assert_ne!(slots[1].1, slots[2].1);
}

#[test]
fn scene_from_nodes_helper_builds_tree() {
    let root = Node::default();
    let child = Node::default();
    let scene = Scene::from_nodes(vec![root, child], vec![(0, 1)]);
    assert_eq!(scene.node_count(), 2);
    assert_eq!(scene.roots.len(), 1);
    let root_id = scene.roots[0];
    let root_node = scene.get(root_id).unwrap();
    assert_eq!(root_node.children.len(), 1);
    let child_id = root_node.children[0];
    assert_eq!(scene.get(child_id).unwrap().parent, Some(root_id));
}

// Own tests.

#[test]
fn subtree_search_stops_at_nested_lookup_scope() {
    let mut scene = Scene::default();
    let root = create_root(&mut scene, "div", true, false).unwrap();
    let host = create_node(&mut scene, "div", true, false).unwrap();
    let inner = create_node(&mut scene, "div", true, false).unwrap();
    append_child(&mut scene, root, host).unwrap();
    append_child(&mut scene, host, inner).unwrap();
    scene.get_mut(host).unwrap().interaction.flags.insert(NodeFlags::lookup_scope());
    scene.get_mut(inner).unwrap().id_attr = Some("x".into());
    assert_eq!(scene.find_node_by_id_in_subtree(root, "x"), None);
    assert_eq!(scene.find_node_by_id_in_subtree(host, "x"), Some(inner));
    scene.get_mut(host).unwrap().id_attr = Some("h".into());
    assert_eq!(scene.find_node_by_id_in_subtree(root, "h"), Some(host));
}

#[test]
fn own_scope_lookup_walks_to_nearest_scope_root() {
    let mut scene = Scene::default();
    let root = create_root(&mut scene, "div", true, false).unwrap();
    let a = create_node(&mut scene, "div", true, false).unwrap();
    let tab = create_node(&mut scene, "div", true, false).unwrap();
    let panel = create_node(&mut scene, "div", true, false).unwrap();
    append_child(&mut scene, root, a).unwrap();
    append_child(&mut scene, a, tab).unwrap();
    append_child(&mut scene, a, panel).unwrap();
    scene.get_mut(panel).unwrap().id_attr = Some("p".into());
    assert_eq!(scene.find_node_by_id_in_own_scope(tab, "p"), Some(panel));
    let loose = create_node(&mut scene, "div", true, false).unwrap();
    assert_eq!(scene.find_node_by_id_in_own_scope(loose, "p"), Some(panel));
    assert_eq!(scene.find_node_by_id_in_own_scope(NodeId(0xFFFF_FFFF), "p"), None);
}

#[test]
fn find_by_id_attr_prefers_lowest_slot() {
    let mut scene = Scene::default();
    let a = create_node(&mut scene, "div", true, false).unwrap();
    let b = create_node(&mut scene, "div", true, false).unwrap();
    scene.get_mut(b).unwrap().id_attr = Some("same".into());
    scene.get_mut(a).unwrap().id_attr = Some("same".into());
    assert_eq!(scene.find_by_id_attr("same"), Some(a));
    assert_eq!(scene.find_by_id_attr("other"), None);
}

#[test]
fn line_byte_ranges_follow_glyph_counts() {
    assert_eq!(line_byte_ranges(&[2, 3], "héllo"), vec![(0, 3), (3, 6)]);
    assert_eq!(line_byte_ranges(&[], "abc"), vec![(0, 0)]);
    assert_eq!(line_byte_ranges(&[2, 5], "abc"), vec![(0, 2), (2, 3)]);
    assert_eq!(line_byte_ranges(&[0, 1], "€x"), vec![(0, 0), (0, 3)]);
}

#[test]
fn recursive_role_search_is_depth_first_preorder() {
    // root ── a ── a1 (listbox)
    //      └─ b (listbox)
    // Depth-first pre-order reaches a1 (inside the first child) before the second child b.
    let mut scene = Scene::default();
    let root = make_control(&mut scene, NodeKind::Container);
    let a = make_control(&mut scene, NodeKind::Container);
    append_child(&mut scene, root, a).expect("attach a");
    let b = make_role_child(&mut scene, root, ROLE_LISTBOX);
    let a1 = make_role_child(&mut scene, a, ROLE_LISTBOX);
    assert_eq!(find_child_by_role_recursive(&scene, root, ROLE_LISTBOX), Some(a1));
    assert_eq!(find_child_by_role_recursive(&scene, a, ROLE_LISTBOX), Some(a1));
    assert_eq!(find_child_by_role_recursive(&scene, b, ROLE_LISTBOX), None);
}

#[test]
fn subtree_id_search_is_depth_first_preorder() {
    let mut scene = Scene::default();
    let root = create_root(&mut scene, "div", true, false).unwrap();
    let a = create_node(&mut scene, "div", true, false).unwrap();
    let b = create_node(&mut scene, "div", true, false).unwrap();
    let a1 = create_node(&mut scene, "div", true, false).unwrap();
    append_child(&mut scene, root, a).unwrap();
    append_child(&mut scene, root, b).unwrap();
    append_child(&mut scene, a, a1).unwrap();
    scene.get_mut(b).unwrap().id_attr = Some("dup".into());
    scene.get_mut(a1).unwrap().id_attr = Some("dup".into());
    assert_eq!(scene.find_node_by_id_in_subtree(root, "dup"), Some(a1));
    // The global lookup goes by slot order instead: b was created first.
    assert_eq!(scene.find_by_id_attr("dup"), Some(b));
}
