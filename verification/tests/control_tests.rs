use ikat_core::animation::{play_state_code, KeyframeStopSelector, PlayerPlayState};
use ikat_core::css::{apply_css, css_declarations, DeclLog, DeclTarget};
use ikat_core::dropdown::{dropdown_option_list, nth_option_text, reparent_options_into_popup};
use ikat_core::dynamic::{append_child, create_node_from_template};
use ikat_core::edit::transform_display_value;
use ikat_core::event::checked_to_u8;
use ikat_core::node::{NodeFlags, NodeId, NodeKind, RoleInfo};
use ikat_core::roles::{find_child_by_role_recursive, find_child_by_slot, ROLE_LISTBOX, SLOT_VALUE};
use ikat_core::scene::{is_whitespace_only_text, Scene};
use ikat_core::tablist::{roving_items, tablist_key_target, FlexAxis, NavKey};

fn make_role_child(scene: &mut Scene, parent: NodeId, role: &str) -> NodeId {
    let id = create_node_from_template(scene, NodeKind::Container, true, false, None);
    append_child(scene, parent, id).expect("fresh child has no parent");
    scene.roles.insert(
        id,
        RoleInfo { role: Some(role.to_string()), slots: Vec::new(), aria_controls: None },
    );
    id
}

fn make_slot_child(scene: &mut Scene, parent: NodeId, slot: &str) -> NodeId {
    let id = create_node_from_template(scene, NodeKind::Container, true, false, None);
    append_child(scene, parent, id).expect("fresh child has no parent");
    scene.roles.insert(
        id,
        RoleInfo { role: None, slots: vec![(slot.to_string(), String::new())], aria_controls: None },
    );
    id
}

fn make_dropdown_with_options(scene: &mut Scene, option_texts: &[&str]) -> NodeId {
    let id = create_node_from_template(scene, NodeKind::Dropdown, true, false, None);
    let value = make_slot_child(scene, id, SLOT_VALUE);
    let value_text_node = create_node_from_template(scene, NodeKind::TextNode, true, false, None);
    append_child(scene, value, value_text_node).expect("value text append");
    let listbox = make_role_child(scene, id, ROLE_LISTBOX);
    for &t in option_texts {
        let opt = create_node_from_template(scene, NodeKind::OptionItem, true, false, None);
        scene.text_contents.insert(opt.0, t.to_string());
        append_child(scene, listbox, opt).expect("option append");
    }
    reparent_options_into_popup(scene, id);
    id
}

fn direct_option_children(scene: &Scene, select: NodeId) -> Vec<NodeId> {
    scene
        .get(select)
        .map(|n| n.children.clone())
        .unwrap_or_default()
        .into_iter()
        .filter(|&cid| scene.get(cid).is_some_and(|c| c.kind == NodeKind::OptionItem))
        .collect()
}

fn popup_option_children(scene: &Scene, select: NodeId) -> Vec<NodeId> {
    let popup = find_child_by_role_recursive(scene, select, ROLE_LISTBOX).expect("listbox present");
    scene
        .get(popup)
        .map(|n| n.children.clone())
        .unwrap_or_default()
        .into_iter()
        .filter(|&cid| scene.get(cid).is_some_and(|c| c.kind == NodeKind::OptionItem))
        .collect()
}

fn reparent_moves() {
    let mut scene = Scene::default();
    let sel = create_node_from_template(&mut scene, NodeKind::Dropdown, true, false, None);
    let listbox = make_role_child(&mut scene, sel, ROLE_LISTBOX);
    let mut opts = vec![];
    for t in ["A", "B", "C"] {
        let opt = create_node_from_template(&mut scene, NodeKind::OptionItem, true, false, None);
        scene.text_contents.insert(opt.0, t.into());
        append_child(&mut scene, sel, opt).unwrap();
        opts.push(opt);
    }
    assert_eq!(direct_option_children(&scene, sel), opts);
    assert!(scene.get(listbox).unwrap().children.is_empty());
    reparent_options_into_popup(&mut scene, sel);
    assert!(direct_option_children(&scene, sel).is_empty());
    assert_eq!(popup_option_children(&scene, sel), opts);
    for &opt in &opts {
        assert_eq!(scene.get(opt).unwrap().parent, Some(listbox));
    }
}

fn reparent_order() {
    let mut scene = Scene::default();
    let sel = create_node_from_template(&mut scene, NodeKind::Dropdown, true, false, None);
    make_role_child(&mut scene, sel, ROLE_LISTBOX);
    let texts = ["alpha", "beta", "gamma", "delta", "epsilon"];
    for t in texts {
        let opt = create_node_from_template(&mut scene, NodeKind::OptionItem, true, false, None);
        scene.text_contents.insert(opt.0, t.into());
        append_child(&mut scene, sel, opt).unwrap();
    }
    reparent_options_into_popup(&mut scene, sel);
    let popup_kids = popup_option_children(&scene, sel);
    assert_eq!(popup_kids.len(), texts.len());
    for (i, &opt) in popup_kids.iter().enumerate() {
        assert_eq!(scene.text_contents.get(&opt.0).map(|s| s.as_str()), Some(texts[i]));
    }
}

fn reparent_idempotent() {
    let mut scene = Scene::default();
    let sel = make_dropdown_with_options(&mut scene, &["A", "B"]);
    let after_first = popup_option_children(&scene, sel);
    reparent_options_into_popup(&mut scene, sel);
    reparent_options_into_popup(&mut scene, sel);
    assert_eq!(popup_option_children(&scene, sel), after_first);
}

fn reparent_no_listbox() {
    let mut scene = Scene::default();
    let sel = create_node_from_template(&mut scene, NodeKind::Dropdown, true, false, None);
    let opt = create_node_from_template(&mut scene, NodeKind::OptionItem, true, false, None);
    append_child(&mut scene, sel, opt).unwrap();
    reparent_options_into_popup(&mut scene, sel);
    assert_eq!(direct_option_children(&scene, sel), vec![opt]);
}

fn nth_reads_popup() {
    let mut scene = Scene::default();
    let sel = make_dropdown_with_options(&mut scene, &["A", "B", "C"]);
    assert_eq!(nth_option_text(&scene, sel, 0).as_deref(), Some("A"));
    assert_eq!(nth_option_text(&scene, sel, 1).as_deref(), Some("B"));
    assert_eq!(nth_option_text(&scene, sel, 2).as_deref(), Some("C"));
    assert!(nth_option_text(&scene, sel, 3).is_none());
}

fn nth_none_for_direct_children() {
    let mut scene = Scene::default();
    let sel = create_node_from_template(&mut scene, NodeKind::Dropdown, true, false, None);
    let opt = create_node_from_template(&mut scene, NodeKind::OptionItem, true, false, None);
    scene.text_contents.insert(opt.0, "A".into());
    append_child(&mut scene, sel, opt).unwrap();
    assert!(nth_option_text(&scene, sel, 0).is_none());
}

#[test]
fn tests_reparent_moves_options_from_combobox_into_listbox() {
    reparent_moves();
}

#[test]
fn control_reparent_moves_options_from_combobox_into_listbox() {
    reparent_moves();
}

#[test]
fn tests_reparent_preserves_option_order() {
    reparent_order();
}

#[test]
fn control_reparent_preserves_option_order() {
    reparent_order();
}

#[test]
fn tests_reparent_is_idempotent() {
    reparent_idempotent();
}

#[test]
fn control_reparent_is_idempotent() {
    reparent_idempotent();
}

#[test]
fn tests_reparent_no_listbox_is_noop() {
    reparent_no_listbox();
}

#[test]
fn control_reparent_no_listbox_is_noop() {
    reparent_no_listbox();
}

#[test]
fn tests_nth_option_text_reads_options_from_popup() {
    nth_reads_popup();
}

#[test]
fn control_nth_option_text_reads_options_from_popup() {
    nth_reads_popup();
}

#[test]
fn tests_nth_option_text_returns_none_when_options_are_select_direct_children() {
    nth_none_for_direct_children();
}

#[test]
fn control_nth_option_text_returns_none_when_options_are_select_direct_children() {
    nth_none_for_direct_children();
}

// Own tests.

#[test]
fn nth_option_text_collects_descendant_text_in_order() {
    let mut scene = Scene::default();
    let sel = make_dropdown_with_options(&mut scene, &["x"]);
    let opt = popup_option_children(&scene, sel)[0];
    let a = create_node_from_template(&mut scene, NodeKind::TextNode, true, false, None);
    let b = create_node_from_template(&mut scene, NodeKind::TextNode, true, false, None);
    append_child(&mut scene, opt, a).unwrap();
    append_child(&mut scene, opt, b).unwrap();
    scene.text_contents.insert(a.0, "y".into());
    scene.text_contents.insert(b.0, "z".into());
    assert_eq!(nth_option_text(&scene, sel, 0).as_deref(), Some("xyz"));
}

#[test]
fn dropdown_option_list_marks_disabled() {
    let mut scene = Scene::default();
    let sel = make_dropdown_with_options(&mut scene, &["A", "B"]);
    let opts = popup_option_children(&scene, sel);
    scene.get_mut(opts[1]).unwrap().interaction.flags.insert(NodeFlags::disabled());
    assert_eq!(dropdown_option_list(&scene, sel), vec![(opts[0], false), (opts[1], true)]);
    let lone = create_node_from_template(&mut scene, NodeKind::Dropdown, true, false, None);
    assert!(dropdown_option_list(&scene, lone).is_empty());
    assert!(find_child_by_slot(&scene, sel, SLOT_VALUE).is_some());
}

#[test]
fn css_declarations_split_trim_and_skip() {
    let d = css_declarations(" width : 100px ;;background:#f00; bogus ;a:b:c;");
    assert_eq!(
        d,
        vec![
            ("width".to_string(), "100px".to_string()),
            ("background".to_string(), "#f00".to_string()),
            ("a".to_string(), "b:c".to_string()),
        ]
    );
    assert!(css_declarations("").is_empty());
    assert_eq!(css_declarations("x:"), vec![("x".to_string(), String::new())]);
}

#[test]
fn apply_css_hands_each_declaration_in_order() {
    let mut r = DeclLog { decls: Vec::new() };
    apply_css(&mut r, "width:100px;background:#f00;oops");
    assert_eq!(
        r.decls,
        vec![
            ("width".to_string(), "100px".to_string()),
            ("background".to_string(), "#f00".to_string()),
        ]
    );
    assert!(r.apply_decl("color", "red"), "the log takes every declaration");
}

#[test]
fn apply_css_ignores_empty_and_malformed() {
    let mut r = DeclLog { decls: Vec::new() };
    apply_css(&mut r, "");
    apply_css(&mut r, "   ;  ; ");
    apply_css(&mut r, "noscolon");
    assert!(r.decls.is_empty(), "empty and colon-less pieces are skipped");
    apply_css(&mut r, "width:200px");
    assert_eq!(r.decls, vec![("width".to_string(), "200px".to_string())]);
}

#[test]
fn transform_display_value_masks_every_character() {
    assert_eq!(transform_display_value("ab\nc", Some('•')), "••••");
    assert_eq!(transform_display_value("ab", Some('•')), "••");
    assert_eq!(transform_display_value("abc", None), "abc");
}

#[test]
fn checked_payload_bytes() {
    assert_eq!(checked_to_u8(true), 1);
    assert_eq!(checked_to_u8(false), 0);
}

#[test]
fn play_state_defaults_to_playing_and_codes_follow_order() {
    assert_eq!(PlayerPlayState::default(), PlayerPlayState::Playing);
    assert_eq!(play_state_code(PlayerPlayState::Playing), 0);
    assert_eq!(play_state_code(PlayerPlayState::Stopped), 3);
    assert_ne!(KeyframeStopSelector::Percent(50), KeyframeStopSelector::From);
}

#[test]
fn whitespace_only_text_detection() {
    let mut scene = Scene::default();
    let t = create_node_from_template(&mut scene, NodeKind::TextNode, true, false, None);
    scene.text_contents.insert(t.0, "\n    ".into());
    assert!(is_whitespace_only_text(&scene, t));
    scene.text_contents.insert(t.0, "".into());
    assert!(!is_whitespace_only_text(&scene, t));
    scene.text_contents.insert(t.0, " a ".into());
    assert!(!is_whitespace_only_text(&scene, t));
    let d = create_node_from_template(&mut scene, NodeKind::Container, true, false, None);
    scene.text_contents.insert(d.0, "  ".into());
    assert!(!is_whitespace_only_text(&scene, d));
}

#[test]
fn tablist_keys_follow_axis_and_clamp() {
    assert_eq!(tablist_key_target(1, FlexAxis::Row, NavKey::Right, 3), Some(2));
    assert_eq!(tablist_key_target(2, FlexAxis::Row, NavKey::Right, 3), Some(2));
    assert_eq!(tablist_key_target(0, FlexAxis::Row, NavKey::Left, 3), Some(0));
    assert_eq!(tablist_key_target(1, FlexAxis::RowReverse, NavKey::Left, 3), Some(2));
    assert_eq!(tablist_key_target(1, FlexAxis::Column, NavKey::Up, 3), Some(0));
    assert_eq!(tablist_key_target(1, FlexAxis::ColumnReverse, NavKey::Down, 3), Some(0));
    assert_eq!(tablist_key_target(1, FlexAxis::Row, NavKey::Up, 3), None);
    assert_eq!(tablist_key_target(0, FlexAxis::Row, NavKey::Right, 0), None);
    assert_eq!(tablist_key_target(9, FlexAxis::Row, NavKey::Left, 3), Some(2));
}

#[test]
fn roving_items_keep_role_children_in_order() {
    let mut scene = Scene::default();
    let list = create_node_from_template(&mut scene, NodeKind::TabList, true, false, None);
    let t1 = make_role_child(&mut scene, list, "tab");
    let _x = make_role_child(&mut scene, list, "note");
    let t2 = make_role_child(&mut scene, list, "tab");
    assert_eq!(roving_items(&scene, list, "tab"), vec![t1, t2]);
    assert!(roving_items(&scene, NodeId(0xFFFF_FFFF), "tab").is_empty());
}

#[test]
fn apply_css_of_joined_text_equals_applying_each_part() {
    let mut joined = DeclLog { decls: Vec::new() };
    apply_css(&mut joined, "width: 1px ;x;height:2px");
    let mut parts = DeclLog { decls: Vec::new() };
    apply_css(&mut parts, "width: 1px ");
    apply_css(&mut parts, "x;height:2px");
    assert_eq!(joined.decls, parts.decls);
    assert_eq!(joined.decls.len(), 2);
}
