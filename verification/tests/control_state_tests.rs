use ikat_core::dropdown::{
    close_dropdown, commit_dropdown_selection, dropdown_popup_shown, dropdown_selected_value,
    on_dropdown_key,
    open_dropdown, option_index, option_selected, option_value, reparent_options_into_popup,
};
use ikat_core::dynamic::{append_child, create_node_from_template, remove_node};
use ikat_core::edit::EditState;
use ikat_core::event::{ControlEvent, EventKind};
use ikat_core::node::{ControlState, NodeFlags, NodeId, NodeKind, RoleInfo};
use ikat_core::pointer::{
    find_control_at, occupies_gesture, on_pointer_down, on_pointer_up, pointer_move_target,
    select_radio, MoveTarget,
};
use ikat_core::roles::{find_child_by_slot, ROLE_LISTBOX, ROLE_TAB, SLOT_FILL, SLOT_THUMB};
use ikat_core::scene::Scene;
use ikat_core::tablist::{
    find_tablist_ancestor, on_tablist_key, set_tablist_selected_index, tab_index,
    tab_panel_visibility, tab_selected, FlexAxis, NavKey,
};

/// A press whose point lies in no node's box that matters to the control.
const NO_HIT: &[NodeId] = &[];

fn bits(v: f32) -> u32 {
    v.to_bits()
}

fn make_control(scene: &mut Scene, kind: NodeKind) -> NodeId {
    create_node_from_template(scene, kind, true, false, None)
}

fn make_role_child(scene: &mut Scene, parent: NodeId, role: &str) -> NodeId {
    let id = create_node_from_template(scene, NodeKind::Container, true, false, None);
    append_child(scene, parent, id).expect("fresh child has no parent");
    scene.roles.insert(
        id,
        RoleInfo { role: Some(role.to_string()), slots: Vec::new(), aria_controls: None },
    );
    id
}

fn make_slot_child(scene: &mut Scene, parent: NodeId, slot: &str) -> NodeId {
    let id = create_node_from_template(scene, NodeKind::Container, true, false, None);
    append_child(scene, parent, id).expect("fresh child has no parent");
    scene.roles.insert(
        id,
        RoleInfo { role: None, slots: vec![(slot.to_string(), String::new())], aria_controls: None },
    );
    id
}

fn make_toggle(scene: &mut Scene, checked: bool) -> NodeId {
    create_node_from_template(scene, NodeKind::Toggle, true, false, Some(ControlState::Toggle { checked }))
}

fn make_radio(scene: &mut Scene, name: &str, checked: bool) -> NodeId {
    create_node_from_template(
        scene,
        NodeKind::RadioButton,
        true,
        false,
        Some(ControlState::Radio { checked, name: name.into() }),
    )
}

fn make_slider(scene: &mut Scene, value: f32, min: f32, max: f32) -> NodeId {
    let id = create_node_from_template(
        scene,
        NodeKind::Slider,
        true,
        false,
        Some(ControlState::Slider {
            value_bits: bits(value),
            min_bits: bits(min),
            max_bits: bits(max),
            step_bits: bits(0.0),
            dragging: false,
        }),
    );
    make_slot_child(scene, id, SLOT_FILL);
    make_slot_child(scene, id, SLOT_THUMB);
    id
}

fn make_progress(scene: &mut Scene, value: f32, max: f32) -> NodeId {
    let id = create_node_from_template(
        scene,
        NodeKind::ProgressBar,
        true,
        false,
        Some(ControlState::Progress { value_bits: bits(value), max_bits: bits(max), indeterminate: false }),
    );
    make_slot_child(scene, id, SLOT_FILL);
    id
}

fn dropdown_state(selected_index: usize) -> ControlState {
    ControlState::Dropdown {
        selected_index,
        open: false,
        value_lock: false,
        open_selected_index: None,
        option_values: Vec::new(),
    }
}

fn make_dropdown_with_options(scene: &mut Scene, option_texts: &[&str], selected: usize) -> NodeId {
    let id = create_node_from_template(scene, NodeKind::Dropdown, true, false, Some(dropdown_state(selected)));
    let listbox = make_role_child(scene, id, ROLE_LISTBOX);
    for &t in option_texts {
        let opt = create_node_from_template(scene, NodeKind::OptionItem, true, false, None);
        scene.text_contents.insert(opt.0, t.to_string());
        append_child(scene, listbox, opt).expect("option append");
    }
    reparent_options_into_popup(scene, id);
    id
}

fn listbox_of(scene: &Scene, sel: NodeId) -> NodeId {
    scene
        .get(sel)
        .unwrap()
        .children
        .iter()
        .copied()
        .find(|&c| scene.roles.role_of(c) == Some(ROLE_LISTBOX))
        .unwrap()
}

fn listbox_options(scene: &Scene, sel: NodeId) -> Vec<NodeId> {
    let listbox = listbox_of(scene, sel);
    scene.get(listbox).unwrap().children.clone()
}

fn selected_of(scene: &Scene, id: NodeId) -> Option<usize> {
    match scene.controls.get(id) {
        Some(ControlState::Dropdown { selected_index, .. }) => Some(*selected_index),
        Some(ControlState::TabList { selected_index }) => Some(*selected_index),
        _ => None,
    }
}

fn is_open(scene: &Scene, id: NodeId) -> bool {
    matches!(scene.controls.get(id), Some(ControlState::Dropdown { open: true, .. }))
}

fn checked_events(events: &[ControlEvent], id: NodeId) -> Vec<u8> {
    events
        .iter()
        .filter_map(|e| match e.kind {
            EventKind::CheckedChanged(p) if e.node == id => Some(p),
            _ => None,
        })
        .collect()
}

// ---- toggles and radios ----

fn toggle_click_flips_checked() {
    let mut scene = Scene::default();
    let id = make_toggle(&mut scene, false);
    let events = on_pointer_down(&mut scene, id, NO_HIT);
    assert!(!events.is_empty(), "toggle down is handled");
    assert!(matches!(scene.controls.get(id), Some(ControlState::Toggle { checked: true })));
}

#[test]
fn tests_toggle_click_flips_checked() {
    toggle_click_flips_checked();
}

#[test]
fn control_toggle_click_flips_checked() {
    toggle_click_flips_checked();
}

fn toggle_click_flips_back_to_unchecked() {
    let mut scene = Scene::default();
    let id = make_toggle(&mut scene, true);
    on_pointer_down(&mut scene, id, NO_HIT);
    assert!(matches!(scene.controls.get(id), Some(ControlState::Toggle { checked: false })));
}

#[test]
fn tests_toggle_click_flips_back_to_unchecked() {
    toggle_click_flips_back_to_unchecked();
}

#[test]
fn control_toggle_click_flips_back_to_unchecked() {
    toggle_click_flips_back_to_unchecked();
}

fn radio_click_mutually_exclusive() {
    let mut scene = Scene::default();
    let a = make_radio(&mut scene, "g", false);
    let b = make_radio(&mut scene, "g", false);
    on_pointer_down(&mut scene, a, NO_HIT);
    assert!(matches!(scene.controls.get(a), Some(ControlState::Radio { checked: true, .. })));
    on_pointer_down(&mut scene, b, NO_HIT);
    assert!(matches!(scene.controls.get(a), Some(ControlState::Radio { checked: false, .. })));
    assert!(matches!(scene.controls.get(b), Some(ControlState::Radio { checked: true, .. })));
}

#[test]
fn tests_radio_click_mutually_exclusive() {
    radio_click_mutually_exclusive();
}

#[test]
fn control_radio_click_mutually_exclusive() {
    radio_click_mutually_exclusive();
}

fn radio_different_names_are_independent() {
    let mut scene = Scene::default();
    let a = make_radio(&mut scene, "g1", false);
    let b = make_radio(&mut scene, "g2", false);
    on_pointer_down(&mut scene, a, NO_HIT);
    on_pointer_down(&mut scene, b, NO_HIT);
    assert!(matches!(scene.controls.get(a), Some(ControlState::Radio { checked: true, .. })));
    assert!(matches!(scene.controls.get(b), Some(ControlState::Radio { checked: true, .. })));
}

#[test]
fn tests_radio_different_names_are_independent() {
    radio_different_names_are_independent();
}

#[test]
fn control_radio_different_names_are_independent() {
    radio_different_names_are_independent();
}

fn on_pointer_down_noop_for_non_control() {
    let mut scene = Scene::default();
    let id = make_control(&mut scene, NodeKind::Container);
    assert!(on_pointer_down(&mut scene, id, NO_HIT).is_empty(), "non-control produces no events");
}

#[test]
fn tests_on_pointer_down_noop_for_non_control() {
    on_pointer_down_noop_for_non_control();
}

#[test]
fn control_on_pointer_down_noop_for_non_control() {
    on_pointer_down_noop_for_non_control();
}

fn toggle_click_emits_checked_changed() {
    let mut scene = Scene::default();
    let id = make_toggle(&mut scene, false);
    let events = on_pointer_down(&mut scene, id, NO_HIT);
    let hits = checked_events(&events, id);
    assert_eq!(hits.len(), 1, "exactly one CheckedChanged for the toggle");
    assert_eq!(hits[0], 1, "payload 1 means checked=true");
}

#[test]
fn tests_toggle_click_emits_checked_changed() {
    toggle_click_emits_checked_changed();
}

#[test]
fn control_toggle_click_emits_checked_changed() {
    toggle_click_emits_checked_changed();
}

fn toggle_uncheck_emits_false_payload() {
    let mut scene = Scene::default();
    let id = make_toggle(&mut scene, true);
    let events = on_pointer_down(&mut scene, id, NO_HIT);
    let hits = checked_events(&events, id);
    assert_eq!(hits[0], 0, "payload 0 means checked=false");
}

#[test]
fn tests_toggle_uncheck_emits_false_payload() {
    toggle_uncheck_emits_false_payload();
}

#[test]
fn control_toggle_uncheck_emits_false_payload() {
    toggle_uncheck_emits_false_payload();
}

fn radio_click_emits_checked_changed() {
    let mut scene = Scene::default();
    let a = make_radio(&mut scene, "g", false);
    let events = on_pointer_down(&mut scene, a, NO_HIT);
    let hits = checked_events(&events, a);
    assert_eq!(hits.len(), 1, "exactly one CheckedChanged for selected radio");
    assert_eq!(hits[0], 1);
}

#[test]
fn tests_radio_click_emits_checked_changed() {
    radio_click_emits_checked_changed();
}

#[test]
fn control_radio_click_emits_checked_changed() {
    radio_click_emits_checked_changed();
}

#[test]
fn disabled_toggle_ignores_press() {
    let mut scene = Scene::default();
    let id = make_toggle(&mut scene, false);
    scene.get_mut(id).unwrap().interaction.flags.insert(NodeFlags::disabled());
    assert!(on_pointer_down(&mut scene, id, NO_HIT).is_empty());
    assert!(matches!(scene.controls.get(id), Some(ControlState::Toggle { checked: false })));
}

#[test]
fn select_radio_unchecks_group_and_reports_once() {
    let mut scene = Scene::default();
    let a = make_radio(&mut scene, "g", true);
    let b = make_radio(&mut scene, "g", false);
    let c = make_radio(&mut scene, "h", true);
    let mut out = Vec::new();
    select_radio(&mut scene, b, "g".to_string(), &mut out);
    assert!(matches!(scene.controls.get(a), Some(ControlState::Radio { checked: false, .. })));
    assert!(matches!(scene.controls.get(b), Some(ControlState::Radio { checked: true, .. })));
    assert!(matches!(scene.controls.get(c), Some(ControlState::Radio { checked: true, .. })));
    assert_eq!(out, vec![ControlEvent { node: b, kind: EventKind::CheckedChanged(1) }]);
}

// ---- sliders ----

fn slider_down_sets_dragging_up_clears() {
    let mut scene = Scene::default();
    let id = make_slider(&mut scene, 50.0, 0.0, 100.0);
    assert!(matches!(scene.controls.get(id), Some(ControlState::Slider { dragging: false, .. })));
    on_pointer_down(&mut scene, id, NO_HIT);
    assert!(matches!(scene.controls.get(id), Some(ControlState::Slider { dragging: true, .. })));
    on_pointer_up(&mut scene, id);
    assert!(matches!(scene.controls.get(id), Some(ControlState::Slider { dragging: false, .. })));
}

#[test]
fn tests_slider_down_sets_dragging_up_clears() {
    slider_down_sets_dragging_up_clears();
}

#[test]
fn control_slider_down_sets_dragging_up_clears() {
    slider_down_sets_dragging_up_clears();
}

#[test]
fn pointer_move_drives_dragging_slider_or_mouse_text_selection() {
    let mut scene = Scene::default();
    let slider = make_slider(&mut scene, 5.0, 0.0, 10.0);
    assert_eq!(pointer_move_target(&scene, slider, true), MoveTarget::Nothing, "not dragging yet");
    on_pointer_down(&mut scene, slider, NO_HIT);
    assert_eq!(pointer_move_target(&scene, slider, false), MoveTarget::SliderValue);
    let edit = EditState::from_init("abc".to_string(), String::new(), 0, false);
    let field = create_node_from_template(&mut scene, NodeKind::TextField, true, false, Some(ControlState::TextField(edit)));
    assert_eq!(pointer_move_target(&scene, field, true), MoveTarget::TextSelection);
    assert_eq!(pointer_move_target(&scene, field, false), MoveTarget::Nothing, "a touch drag pans");
    let plain = make_control(&mut scene, NodeKind::Container);
    assert_eq!(pointer_move_target(&scene, plain, true), MoveTarget::Nothing);
}

fn slider_up_without_drag_emits_nothing() {
    let mut scene = Scene::default();
    let id = make_slider(&mut scene, 50.0, 0.0, 100.0);
    let events = on_pointer_up(&mut scene, id);
    assert!(
        events.iter().all(|e| !matches!(e.kind, EventKind::ChangeCommitted(_))),
        "no ChangeCommitted without a drag"
    );
}

#[test]
fn tests_slider_up_without_drag_emits_nothing() {
    slider_up_without_drag_emits_nothing();
}

#[test]
fn control_slider_up_without_drag_emits_nothing() {
    slider_up_without_drag_emits_nothing();
}

#[test]
fn slider_up_after_drag_commits_current_value() {
    let mut scene = Scene::default();
    let id = make_slider(&mut scene, 42.5, 0.0, 100.0);
    on_pointer_down(&mut scene, id, NO_HIT);
    let events = on_pointer_up(&mut scene, id);
    assert_eq!(events, vec![ControlEvent { node: id, kind: EventKind::ChangeCommitted(bits(42.5)) }]);
    assert!(on_pointer_up(&mut scene, id).is_empty(), "a second release commits nothing");
}

// ---- control lookup and gesture ownership ----

fn find_control_at_walks_to_ancestor() {
    let mut scene = Scene::default();
    let id = make_slider(&mut scene, 50.0, 0.0, 100.0);
    let thumb = find_child_by_slot(&scene, id, SLOT_THUMB).expect("slider has thumb");
    assert_eq!(find_control_at(&scene, Some(thumb)), Some(id));
    assert_eq!(find_control_at(&scene, Some(id)), Some(id));
    assert_eq!(find_control_at(&scene, None), None);
}

#[test]
fn tests_find_control_at_walks_to_ancestor() {
    find_control_at_walks_to_ancestor();
}

#[test]
fn control_find_control_at_walks_to_ancestor() {
    find_control_at_walks_to_ancestor();
}

fn find_control_at_skips_non_control_chain() {
    let mut scene = Scene::default();
    let id = make_control(&mut scene, NodeKind::Container);
    assert_eq!(find_control_at(&scene, Some(id)), None);
}

#[test]
fn tests_find_control_at_skips_non_control_chain() {
    find_control_at_skips_non_control_chain();
}

#[test]
fn control_find_control_at_skips_non_control_chain() {
    find_control_at_skips_non_control_chain();
}

fn occupies_gesture_only_for_slider() {
    let mut scene = Scene::default();
    let slider = make_slider(&mut scene, 0.0, 0.0, 100.0);
    let toggle = make_toggle(&mut scene, false);
    let radio = make_radio(&mut scene, "g", false);
    let progress = make_progress(&mut scene, 0.0, 100.0);
    assert!(occupies_gesture(&scene, slider, true));
    assert!(!occupies_gesture(&scene, toggle, true));
    assert!(!occupies_gesture(&scene, radio, true));
    assert!(!occupies_gesture(&scene, progress, true));
}

#[test]
fn tests_occupies_gesture_only_for_slider() {
    occupies_gesture_only_for_slider();
}

#[test]
fn control_occupies_gesture_only_for_slider() {
    occupies_gesture_only_for_slider();
}

fn occupies_gesture_false_for_disabled_slider() {
    let mut scene = Scene::default();
    let slider = make_slider(&mut scene, 0.0, 0.0, 100.0);
    assert!(occupies_gesture(&scene, slider, true), "enabled slider occupies the gesture");
    scene.get_mut(slider).unwrap().interaction.flags.insert(NodeFlags::disabled());
    assert!(!occupies_gesture(&scene, slider, true), "disabled slider does not");
}

#[test]
fn tests_occupies_gesture_false_for_disabled_slider() {
    occupies_gesture_false_for_disabled_slider();
}

#[test]
fn control_occupies_gesture_false_for_disabled_slider() {
    occupies_gesture_false_for_disabled_slider();
}

#[test]
fn occupies_gesture_text_mouse_only() {
    let mut scene = Scene::default();
    let edit = EditState::from_init(String::new(), String::new(), 0, false);
    let id = create_node_from_template(&mut scene, NodeKind::TextArea, true, false, Some(ControlState::TextArea(edit)));
    assert!(occupies_gesture(&scene, id, true), "mouse drag selects, occupies");
    assert!(!occupies_gesture(&scene, id, false), "touch drag pans, does not occupy");
    scene.get_mut(id).unwrap().interaction.flags.insert(NodeFlags::disabled());
    assert!(!occupies_gesture(&scene, id, true), "disabled does not intercept");
}

// ---- dropdowns ----

#[test]
fn option_value_and_selected_derive_from_parent_state() {
    let mut scene = Scene::default();
    let sel = make_dropdown_with_options(&mut scene, &["English", "中文", "日本語"], 2);
    if let Some(ControlState::Dropdown { option_values, .. }) = scene.controls.get_mut(sel) {
        *option_values = vec![Some("en".into()), None, Some("ja".into())];
    }
    let opts = listbox_options(&scene, sel);
    assert_eq!(opts.len(), 3);
    assert_eq!(dropdown_selected_value(&scene, sel).as_deref(), Some("ja"));
    assert_eq!(option_value(&scene, opts[0]).as_deref(), Some("en"));
    assert_eq!(option_value(&scene, opts[1]).as_deref(), Some("中文"), "absent value falls back to option text");
    assert_eq!(option_selected(&scene, opts[0]), Some(false));
    assert_eq!(option_selected(&scene, opts[2]), Some(true));
    assert!(dropdown_selected_value(&scene, opts[0]).is_none());
    assert!(option_value(&scene, sel).is_none());
    assert!(option_selected(&scene, sel).is_none());
}

#[test]
fn dropdown_selected_value_falls_back_to_text_without_values() {
    let mut scene = Scene::default();
    let sel = make_dropdown_with_options(&mut scene, &["A", "B"], 1);
    assert_eq!(dropdown_selected_value(&scene, sel).as_deref(), Some("B"));
}

#[test]
fn option_index_counts_options_of_owner() {
    let mut scene = Scene::default();
    let sel = make_dropdown_with_options(&mut scene, &["A", "B", "C"], 0);
    let opts = listbox_options(&scene, sel);
    assert_eq!(option_index(&scene, opts[2]), Some((sel, 2)));
    assert_eq!(option_index(&scene, sel), None);
}

#[test]
fn open_commit_reports_only_net_change() {
    let mut scene = Scene::default();
    let sel = make_dropdown_with_options(&mut scene, &["A", "B", "C"], 0);
    open_dropdown(&mut scene, sel);
    assert!(is_open(&scene, sel));
    let mut out = Vec::new();
    commit_dropdown_selection(&mut scene, sel, 0, &mut out);
    assert!(out.is_empty(), "committing the value it opened with reports nothing");
    assert!(!is_open(&scene, sel));
    open_dropdown(&mut scene, sel);
    commit_dropdown_selection(&mut scene, sel, 2, &mut out);
    assert_eq!(out, vec![ControlEvent { node: sel, kind: EventKind::SelectionChanged(2) }]);
    assert_eq!(selected_of(&scene, sel), Some(2));
    assert!(matches!(scene.controls.get(sel), Some(ControlState::Dropdown { value_lock: true, open_selected_index: None, .. })));
}

#[test]
fn dropdown_keys_seek_skip_disabled_and_escape_rolls_back() {
    let mut scene = Scene::default();
    let sel = make_dropdown_with_options(&mut scene, &["A", "B", "C", "D"], 0);
    let opts = listbox_options(&scene, sel);
    scene.get_mut(opts[1]).unwrap().interaction.flags.insert(NodeFlags::disabled());
    let mut out = Vec::new();
    assert!(!on_dropdown_key(&mut scene, sel, NavKey::Down, &mut out), "closed dropdown does not route");
    open_dropdown(&mut scene, sel);
    assert!(on_dropdown_key(&mut scene, sel, NavKey::Down, &mut out));
    assert_eq!(selected_of(&scene, sel), Some(2), "Down skips the disabled option");
    assert!(on_dropdown_key(&mut scene, sel, NavKey::Down, &mut out));
    assert!(on_dropdown_key(&mut scene, sel, NavKey::Down, &mut out));
    assert_eq!(selected_of(&scene, sel), Some(3), "no wrap past the last option");
    assert!(on_dropdown_key(&mut scene, sel, NavKey::Up, &mut out));
    assert_eq!(selected_of(&scene, sel), Some(2));
    assert!(out.is_empty(), "seeking reports nothing");
    assert!(on_dropdown_key(&mut scene, sel, NavKey::Escape, &mut out));
    assert_eq!(selected_of(&scene, sel), Some(0), "Escape rolls back to the value at opening");
    assert!(!is_open(&scene, sel));
    assert!(out.is_empty());
    open_dropdown(&mut scene, sel);
    on_dropdown_key(&mut scene, sel, NavKey::Down, &mut out);
    assert!(on_dropdown_key(&mut scene, sel, NavKey::Enter, &mut out));
    assert_eq!(out, vec![ControlEvent { node: sel, kind: EventKind::SelectionChanged(2) }]);
    open_dropdown(&mut scene, sel);
    assert!(!on_dropdown_key(&mut scene, sel, NavKey::Left, &mut out), "off-axis keys do not route");
}

#[test]
fn close_dropdown_without_snapshot_keeps_selection() {
    let mut scene = Scene::default();
    let sel = make_dropdown_with_options(&mut scene, &["A", "B"], 1);
    close_dropdown(&mut scene, sel);
    assert_eq!(selected_of(&scene, sel), Some(1));
}

#[test]
fn dropdown_press_opens_commits_and_cancels() {
    let mut scene = Scene::default();
    let sel = make_dropdown_with_options(&mut scene, &["A", "B", "C"], 0);
    assert!(on_pointer_down(&mut scene, sel, NO_HIT).is_empty());
    assert!(is_open(&scene, sel), "a press on a closed dropdown opens it");
    let opts = listbox_options(&scene, sel);
    let popup = listbox_of(&scene, sel);
    let events = on_pointer_down(&mut scene, sel, &[popup, opts[1]]);
    assert_eq!(events, vec![ControlEvent { node: sel, kind: EventKind::SelectionChanged(1) }]);
    assert!(!is_open(&scene, sel));
    on_pointer_down(&mut scene, sel, NO_HIT);
    assert!(on_pointer_down(&mut scene, sel, &[popup]).is_empty());
    assert!(is_open(&scene, sel), "a press on popup background leaves it open");
    on_pointer_down(&mut scene, sel, NO_HIT);
    assert!(!is_open(&scene, sel), "a press outside the popup closes it");
    assert_eq!(selected_of(&scene, sel), Some(1));
}

#[test]
fn removing_a_control_drops_its_state() {
    let mut scene = Scene::default();
    let sel = make_dropdown_with_options(&mut scene, &["A"], 0);
    assert!(scene.controls.get(sel).is_some());
    remove_node(&mut scene, sel);
    assert!(scene.controls.get(sel).is_none());
}

#[test]
fn dropdown_press_on_disabled_option_keeps_popup_open() {
    let mut scene = Scene::default();
    let sel = make_dropdown_with_options(&mut scene, &["A", "B", "C"], 0);
    let opts = listbox_options(&scene, sel);
    let popup = listbox_of(&scene, sel);
    scene.get_mut(opts[1]).unwrap().interaction.flags.insert(NodeFlags::disabled());
    on_pointer_down(&mut scene, sel, NO_HIT);
    assert!(on_pointer_down(&mut scene, sel, &[popup, opts[1]]).is_empty());
    assert!(is_open(&scene, sel), "a disabled option takes no press");
    // Boxes that overlap: the first enabled option hit wins, counted over all options.
    let events = on_pointer_down(&mut scene, sel, &[opts[2], opts[1], popup]);
    assert_eq!(events, vec![ControlEvent { node: sel, kind: EventKind::SelectionChanged(2) }]);
    assert!(!is_open(&scene, sel));
}

// ---- tab lists ----

fn make_tablist(scene: &mut Scene, tabs: usize, selected_index: usize) -> (NodeId, Vec<NodeId>) {
    let tl = create_node_from_template(scene, NodeKind::TabList, true, false, Some(ControlState::TabList { selected_index }));
    let ids = (0..tabs).map(|_| make_role_child(scene, tl, ROLE_TAB)).collect();
    (tl, ids)
}

#[test]
fn tab_selected_derives_from_parent_tablist() {
    let mut scene = Scene::default();
    let (tl, tabs) = make_tablist(&mut scene, 2, 1);
    let (t0, t1) = (tabs[0], tabs[1]);
    assert_eq!(tab_selected(&scene, t0), Some(false));
    assert_eq!(tab_selected(&scene, t1), Some(true));
    if let Some(ControlState::TabList { selected_index }) = scene.controls.get_mut(tl) {
        *selected_index = 0;
    }
    assert_eq!(tab_selected(&scene, t0), Some(true));
    assert_eq!(tab_selected(&scene, t1), Some(false));
    assert!(tab_selected(&scene, tl).is_none());
}

#[test]
fn click_tab_sets_selected_index_and_emits() {
    let mut scene = Scene::default();
    let (tl, tabs) = make_tablist(&mut scene, 2, 0);
    let events = on_pointer_down(&mut scene, tl, &[tl, tabs[1]]);
    assert_eq!(selected_of(&scene, tl), Some(1));
    assert!(events.iter().any(|e| e.node == tl && e.kind == EventKind::SelectionChanged(1)));
}

#[test]
fn click_active_tab_emits_no_event() {
    let mut scene = Scene::default();
    let (tl, tabs) = make_tablist(&mut scene, 2, 0);
    let events = on_pointer_down(&mut scene, tl, &[tl, tabs[0]]);
    assert_eq!(selected_of(&scene, tl), Some(0));
    assert!(!events.iter().any(|e| matches!(e.kind, EventKind::SelectionChanged(_))));
}

#[test]
fn click_tablist_padding_noop() {
    let mut scene = Scene::default();
    let (tl, _tabs) = make_tablist(&mut scene, 2, 0);
    let events = on_pointer_down(&mut scene, tl, &[tl]);
    assert_eq!(selected_of(&scene, tl), Some(0));
    assert!(events.is_empty());
}

#[test]
fn tablist_key_routing_moves_and_reports() {
    let mut scene = Scene::default();
    let (tl, tabs) = make_tablist(&mut scene, 3, 0);
    let mut out = Vec::new();
    assert!(on_tablist_key(&mut scene, tl, FlexAxis::Row, NavKey::Right, &mut out));
    assert_eq!(selected_of(&scene, tl), Some(1));
    assert!(!on_tablist_key(&mut scene, tl, FlexAxis::Row, NavKey::Down, &mut out), "cross-axis key");
    assert!(on_tablist_key(&mut scene, tl, FlexAxis::RowReverse, NavKey::Right, &mut out));
    assert_eq!(selected_of(&scene, tl), Some(0));
    assert!(on_tablist_key(&mut scene, tl, FlexAxis::Column, NavKey::Up, &mut out));
    assert_eq!(selected_of(&scene, tl), Some(0), "clamped at the first tab");
    assert_eq!(
        out,
        vec![
            ControlEvent { node: tl, kind: EventKind::SelectionChanged(1) },
            ControlEvent { node: tl, kind: EventKind::SelectionChanged(0) },
        ]
    );
    assert_eq!(tab_index(&scene, tabs[2]), Some((tl, 2)));
    assert_eq!(find_tablist_ancestor(&scene, Some(tabs[1])), Some(tl));
    assert_eq!(find_tablist_ancestor(&scene, None), None);
    set_tablist_selected_index(&mut scene, tl, 2, &mut out);
    assert_eq!(selected_of(&scene, tl), Some(2));
}

#[test]
fn tab_panels_follow_selected_tab() {
    let mut scene = Scene::default();
    let host = make_control(&mut scene, NodeKind::Container);
    scene.get_mut(host).unwrap().interaction.flags.insert(NodeFlags::lookup_scope());
    let (tl, tabs) = make_tablist(&mut scene, 3, 1);
    append_child(&mut scene, host, tl).expect("tab list has no parent yet");
    let mut panels = Vec::new();
    for (i, name) in ["p0", "p1"].iter().enumerate() {
        let panel = make_control(&mut scene, NodeKind::Container);
        append_child(&mut scene, host, panel).expect("fresh panel has no parent");
        scene.get_mut(panel).unwrap().id_attr = Some(name.to_string());
        scene.roles.get_mut(tabs[i]).unwrap().aria_controls = Some(name.to_string());
        panels.push(panel);
    }
    // The third tab names a panel that does not exist: it contributes nothing.
    scene.roles.get_mut(tabs[2]).unwrap().aria_controls = Some("missing".to_string());
    assert_eq!(tab_panel_visibility(&scene, tl), vec![(panels[0], false), (panels[1], true)]);
    let mut out = Vec::new();
    set_tablist_selected_index(&mut scene, tl, 0, &mut out);
    assert_eq!(tab_panel_visibility(&scene, tl), vec![(panels[0], true), (panels[1], false)]);
    assert!(tab_panel_visibility(&scene, panels[0]).is_empty(), "not a tab list");
}

// ---- line-wise navigation and clipboard text ----

use ikat_core::edit::{
    copy_selection, cut_selection, finish_vertical_move, insert_text, line_home_end,
    vertical_move_line, TextNavCtx,
};

fn edit_with(value: &str, cursor: usize, anchor: usize) -> EditState {
    let mut e = EditState::from_init(value.to_string(), String::new(), 0, false);
    e.cursor = cursor;
    e.anchor = anchor;
    e
}

#[test]
fn line_home_end_moves_within_visual_line() {
    // "hello\nworld" laid out on two lines; the line feed is the last glyph of line 0.
    let ctx = TextNavCtx { line_glyphs: vec![6, 5], display: "hello\nworld".to_string() };
    let mut e = edit_with("hello\nworld", 2, 2);
    line_home_end(&mut e, &ctx, false, false);
    assert_eq!((e.cursor, e.anchor), (5, 5), "End stops before the line feed");
    let mut e = edit_with("hello\nworld", 8, 8);
    line_home_end(&mut e, &ctx, true, true);
    assert_eq!((e.cursor, e.anchor), (6, 8), "Home of line 1 keeps the anchor when selecting");
    assert!(!e.ideal_cursor_valid && e.cursor_visible && e.cursor_timer_ms == 0);
    let mut e = edit_with("hello\nworld", 8, 8);
    line_home_end(&mut e, &ctx, false, false);
    assert_eq!(e.cursor, 11, "End of the last line is the end of the text");
}

#[test]
fn line_home_end_maps_through_masked_display() {
    // Two-byte characters shown as one-byte bullets: offsets map by character position.
    let ctx = TextNavCtx { line_glyphs: vec![3], display: "***".to_string() };
    let mut e = edit_with("äöü", 2, 2);
    line_home_end(&mut e, &ctx, false, false);
    assert_eq!(e.cursor, 6);
    line_home_end(&mut e, &ctx, true, false);
    assert_eq!(e.cursor, 0);
}

#[test]
fn copy_selection_returns_selected_text_only() {
    let e = edit_with("hello world", 6, 11);
    assert_eq!(copy_selection(&e), "world");
    let e = edit_with("hello", 2, 2);
    assert_eq!(copy_selection(&e), "");
}

#[test]
fn cut_selection_deletes_unless_readonly() {
    let mut e = edit_with("hello world", 5, 11);
    assert_eq!(cut_selection(&mut e, NodeKind::TextField), (" world".to_string(), true));
    assert_eq!(e.value, "hello");
    assert_eq!((e.cursor, e.anchor), (5, 5));
    let mut e = edit_with("hello world", 0, 5);
    e.readonly = true;
    assert_eq!(cut_selection(&mut e, NodeKind::TextField), ("hello".to_string(), false));
    assert_eq!(e.value, "hello world");
}

#[test]
fn cancel_after_seeking_restores_selection() {
    let mut scene = Scene::default();
    let sel = make_dropdown_with_options(&mut scene, &["A", "B", "C"], 1);
    let before = scene.controls.get(sel).cloned();
    open_dropdown(&mut scene, sel);
    let mut out = Vec::new();
    on_dropdown_key(&mut scene, sel, NavKey::Down, &mut out);
    close_dropdown(&mut scene, sel);
    assert_eq!(scene.controls.get(sel).cloned(), before);
}

// ---- caret blink ----

use ikat_core::pointer::advance_cursor_blink;

fn make_scene_with_textfield(text: &str) -> (Scene, NodeId) {
    let mut scene = Scene::default();
    let edit = EditState::from_init(text.to_string(), String::new(), 0, false);
    let id = create_node_from_template(&mut scene, NodeKind::TextField, true, false, Some(ControlState::TextField(edit)));
    (scene, id)
}

fn get_cursor_visible(scene: &Scene, id: NodeId) -> bool {
    match scene.controls.get(id) {
        Some(ControlState::TextField(e)) => e.cursor_visible,
        _ => panic!("not TextField"),
    }
}

fn advance_cursor_blink_flips_visibility() {
    let (mut scene, id) = make_scene_with_textfield("hi");
    scene.focused_node = Some(id);
    assert!(get_cursor_visible(&scene, id));
    advance_cursor_blink(&mut scene, 300);
    assert!(get_cursor_visible(&scene, id));
    advance_cursor_blink(&mut scene, 500);
    assert!(!get_cursor_visible(&scene, id));
    advance_cursor_blink(&mut scene, 700);
    assert!(get_cursor_visible(&scene, id));
}

#[test]
fn tests_advance_cursor_blink_flips_visibility() {
    advance_cursor_blink_flips_visibility();
}

#[test]
fn control_advance_cursor_blink_flips_visibility() {
    advance_cursor_blink_flips_visibility();
}

fn advance_cursor_blink_hides_when_not_focused() {
    let (mut scene, id) = make_scene_with_textfield("hi");
    scene.focused_node = None;
    advance_cursor_blink(&mut scene, 1000);
    assert!(!get_cursor_visible(&scene, id));
}

#[test]
fn tests_advance_cursor_blink_hides_when_not_focused() {
    advance_cursor_blink_hides_when_not_focused();
}

#[test]
fn control_advance_cursor_blink_hides_when_not_focused() {
    advance_cursor_blink_hides_when_not_focused();
}

// ---- control state values ----

#[test]
fn control_state_dropdown_variant() {
    let s = ControlState::Dropdown {
        selected_index: 2,
        open: false,
        value_lock: false,
        open_selected_index: None,
        option_values: Vec::new(),
    };
    assert!(matches!(s, ControlState::Dropdown { selected_index: 2, open: false, .. }));
}

#[test]
fn control_state_number_field_variant() {
    let edit = EditState::from_init("3.14".into(), String::new(), 0, false);
    let s = ControlState::NumberField {
        edit,
        min_bits: 0.0f32.to_bits(),
        max_bits: 100.0f32.to_bits(),
        step_bits: 1.0f32.to_bits(),
    };
    match s {
        ControlState::NumberField { min_bits, max_bits, step_bits, .. } => {
            assert_eq!(f32::from_bits(min_bits), 0.0);
            assert_eq!(f32::from_bits(max_bits), 100.0);
            assert_eq!(f32::from_bits(step_bits), 1.0);
        }
        _ => panic!("expected NumberField"),
    }
}

// ---- caret placement from a text hit ----

use ikat_core::pointer::{on_text_pointer_down, on_text_pointer_drag};

fn edit_of(scene: &Scene, id: NodeId) -> EditState {
    match scene.controls.get(id) {
        Some(ControlState::TextField(e)) => e.clone(),
        _ => panic!("not TextField"),
    }
}

#[test]
fn text_press_maps_masked_hit_back_to_value() {
    let (mut scene, id) = make_scene_with_textfield("ab");
    // Masked as two 3-byte bullets: display byte 3 is the boundary after the first one.
    on_text_pointer_down(&mut scene, id, Some('•'), 3);
    let e = edit_of(&scene, id);
    assert_eq!((e.cursor, e.anchor), (1, 1));
    assert!(e.cursor_visible && e.cursor_timer_ms == 0 && !e.ideal_cursor_valid);
    // A hit inside a bullet falls back to the boundary before it.
    on_text_pointer_down(&mut scene, id, Some('•'), 5);
    assert_eq!(edit_of(&scene, id).cursor, 1);
}

#[test]
fn text_drag_extends_selection_from_press() {
    let (mut scene, id) = make_scene_with_textfield("hello");
    on_text_pointer_down(&mut scene, id, None, 1);
    on_text_pointer_drag(&mut scene, id, None, 4);
    let e = edit_of(&scene, id);
    assert_eq!((e.anchor, e.cursor), (1, 4));
    on_text_pointer_drag(&mut scene, id, None, 99);
    assert_eq!(edit_of(&scene, id).cursor, 5, "past the end lands on the end");
}

#[test]
fn text_press_ignores_non_text_controls() {
    let mut scene = Scene::default();
    let id = make_toggle(&mut scene, false);
    on_text_pointer_down(&mut scene, id, None, 0);
    assert!(matches!(scene.controls.get(id), Some(ControlState::Toggle { checked: false })));
}

// ---- dropdown value text ----

use ikat_core::dropdown::sync_dropdown_value;
use ikat_core::roles::SLOT_VALUE;

fn make_dropdown_with_value(scene: &mut Scene, option_texts: &[&str], selected: usize) -> NodeId {
    let id = create_node_from_template(scene, NodeKind::Dropdown, true, false, Some(dropdown_state(selected)));
    let value = make_slot_child(scene, id, SLOT_VALUE);
    let value_text_node = create_node_from_template(scene, NodeKind::TextNode, true, false, None);
    append_child(scene, value, value_text_node).expect("value text append");
    let listbox = make_role_child(scene, id, ROLE_LISTBOX);
    for &t in option_texts {
        let opt = create_node_from_template(scene, NodeKind::OptionItem, true, false, None);
        scene.text_contents.insert(opt.0, t.to_string());
        append_child(scene, listbox, opt).expect("option append");
    }
    reparent_options_into_popup(scene, id);
    id
}

fn value_text(scene: &Scene, select: NodeId) -> String {
    let value = find_child_by_slot(scene, select, SLOT_VALUE).expect("value slot present");
    let text_node = scene
        .get(value)
        .unwrap()
        .children
        .iter()
        .find(|&&c| scene.get(c).is_some_and(|n| n.kind == NodeKind::TextNode))
        .copied()
        .expect("value slot has a TextNode child");
    scene.text_contents.get(&text_node.0).cloned().unwrap_or_default()
}

fn sync_dropdown_shows_selected_option_text_in_value() {
    let mut scene = Scene::default();
    let sel = make_dropdown_with_value(&mut scene, &["A", "B", "C"], 1);
    sync_dropdown_value(&mut scene, sel);
    assert_eq!(value_text(&scene, sel), "B", "value shows selected option text");
}

#[test]
fn tests_sync_dropdown_shows_selected_option_text_in_value() {
    sync_dropdown_shows_selected_option_text_in_value();
}

#[test]
fn control_sync_dropdown_shows_selected_option_text_in_value() {
    sync_dropdown_shows_selected_option_text_in_value();
}

fn sync_dropdown_value_text_tracks_selected_index_change() {
    let mut scene = Scene::default();
    let sel = make_dropdown_with_value(&mut scene, &["A", "B", "C"], 0);
    sync_dropdown_value(&mut scene, sel);
    assert_eq!(value_text(&scene, sel), "A");
    if let Some(ControlState::Dropdown { selected_index, .. }) = scene.controls.get_mut(sel) {
        *selected_index = 2;
    }
    sync_dropdown_value(&mut scene, sel);
    assert_eq!(value_text(&scene, sel), "C", "re-sync after index change");
}

#[test]
fn tests_sync_dropdown_value_text_tracks_selected_index_change() {
    sync_dropdown_value_text_tracks_selected_index_change();
}

#[test]
fn control_sync_dropdown_value_text_tracks_selected_index_change() {
    sync_dropdown_value_text_tracks_selected_index_change();
}

fn sync_dropdown_selected_index_out_of_range_yields_empty() {
    let mut scene = Scene::default();
    let sel = make_dropdown_with_value(&mut scene, &["A", "B"], 0);
    if let Some(ControlState::Dropdown { selected_index, .. }) = scene.controls.get_mut(sel) {
        *selected_index = 99;
    }
    sync_dropdown_value(&mut scene, sel);
    assert_eq!(value_text(&scene, sel), "", "out-of-range index gives empty value text");
}

#[test]
fn tests_sync_dropdown_selected_index_out_of_range_yields_empty() {
    sync_dropdown_selected_index_out_of_range_yields_empty();
}

#[test]
fn control_sync_dropdown_selected_index_out_of_range_yields_empty() {
    sync_dropdown_selected_index_out_of_range_yields_empty();
}

fn sync_dropdown_option_text_from_child_text_node() {
    let mut scene = Scene::default();
    let id = create_node_from_template(&mut scene, NodeKind::Dropdown, true, false, Some(dropdown_state(0)));
    let value = make_slot_child(&mut scene, id, SLOT_VALUE);
    let value_text_node = create_node_from_template(&mut scene, NodeKind::TextNode, true, false, None);
    append_child(&mut scene, value, value_text_node).expect("value text append");
    let listbox = make_role_child(&mut scene, id, ROLE_LISTBOX);
    let opt = create_node_from_template(&mut scene, NodeKind::OptionItem, true, false, None);
    let txt = create_node_from_template(&mut scene, NodeKind::TextNode, true, false, None);
    scene.text_contents.insert(txt.0, "Deep".into());
    append_child(&mut scene, opt, txt).expect("text append");
    append_child(&mut scene, listbox, opt).expect("option append");
    sync_dropdown_value(&mut scene, id);
    assert_eq!(value_text(&scene, id), "Deep", "collects text from option subtree");
}

#[test]
fn tests_sync_dropdown_option_text_from_child_text_node() {
    sync_dropdown_option_text_from_child_text_node();
}

#[test]
fn control_sync_dropdown_option_text_from_child_text_node() {
    sync_dropdown_option_text_from_child_text_node();
}

#[test]
fn sync_dropdown_value_marks_text_for_measure_and_ignores_non_dropdowns() {
    let mut scene = Scene::default();
    let sel = make_dropdown_with_value(&mut scene, &["A"], 0);
    let value = find_child_by_slot(&scene, sel, SLOT_VALUE).unwrap();
    let tn = scene.get(value).unwrap().children[0];
    scene.get_mut(tn).unwrap().dirty_text = false;
    sync_dropdown_value(&mut scene, sel);
    assert!(scene.get(tn).unwrap().dirty_text);
    let toggle = make_toggle(&mut scene, false);
    sync_dropdown_value(&mut scene, toggle);
    assert!(matches!(scene.controls.get(toggle), Some(ControlState::Toggle { checked: false })));
}

#[test]
fn vertical_moves_go_line_by_line_and_stop_at_the_ends() {
    // "aaaaa\nbe\naaa" on three visual lines; each line feed ends its line.
    let text = "aaaaa\nbe\naaa";
    let ctx = TextNavCtx { line_glyphs: vec![6, 3, 3], display: text.to_string() };
    let mut e = edit_with(text, 5, 5);
    assert_eq!(vertical_move_line(&e, &ctx, true), Some(1));
    // The host's hit test at the remembered column lands at the end of "be".
    finish_vertical_move(&mut e, &ctx, Some(8), false);
    assert_eq!((e.cursor, e.anchor), (8, 8));
    assert!(e.ideal_cursor_valid && e.cursor_visible && e.cursor_timer_ms == 0);
    assert_eq!(vertical_move_line(&e, &ctx, true), Some(2));
    finish_vertical_move(&mut e, &ctx, Some(12), true);
    assert_eq!((e.cursor, e.anchor), (12, 8), "a selecting move keeps the anchor");
    assert_eq!(vertical_move_line(&e, &ctx, true), None, "no line below the last");
    finish_vertical_move(&mut e, &ctx, None, false);
    assert_eq!((e.cursor, e.anchor), (12, 8), "a move with nowhere to go leaves the caret");
    let e0 = edit_with(text, 2, 2);
    assert_eq!(vertical_move_line(&e0, &ctx, false), None, "no line above the first");
    assert_eq!(vertical_move_line(&e0, &ctx, true), Some(1));
    let e1 = edit_with(text, 7, 7);
    assert_eq!(vertical_move_line(&e1, &ctx, false), Some(0));
}

fn text_field_with(scene: &mut Scene, value: &str) -> NodeId {
    let edit = EditState::from_init(value.to_string(), String::new(), 0, false);
    create_node_from_template(scene, NodeKind::TextField, true, false, Some(ControlState::TextField(edit)))
}

fn caret_of(scene: &Scene, id: NodeId) -> (usize, usize) {
    match scene.controls.get(id) {
        Some(ControlState::TextField(e)) => (e.cursor, e.anchor),
        _ => panic!("not TextField"),
    }
}

#[test]
fn on_pointer_move_text_drag_gated_by_disabled() {
    let mut scene = Scene::default();
    let id = text_field_with(&mut scene, "hello world");
    scene.get_mut(id).unwrap().interaction.flags.insert(NodeFlags::disabled());
    if let Some(ControlState::TextField(e)) = scene.controls.get_mut(id) {
        e.cursor = 0;
        e.anchor = 0;
    }
    assert_eq!(pointer_move_target(&scene, id, true), MoveTarget::Nothing, "a disabled text input takes no drag");
    assert_eq!(caret_of(&scene, id), (0, 0));
}

#[test]
fn on_pointer_move_text_drag_gated_by_mouse() {
    let mut scene = Scene::default();
    let id = text_field_with(&mut scene, "hello world");
    on_text_pointer_down(&mut scene, id, None, 0);
    assert_eq!(pointer_move_target(&scene, id, false), MoveTarget::Nothing, "a touch drag pans");
    assert_eq!(pointer_move_target(&scene, id, true), MoveTarget::TextSelection);
    on_text_pointer_drag(&mut scene, id, None, "hello world".len());
    assert_eq!(caret_of(&scene, id), ("hello world".len(), 0));
}

// ---- clipboard commands (the host clipboard itself is outside the library: copy and cut
// return what goes onto it, paste inserts what came from it) ----

fn edit_from(value: &str, readonly: bool) -> EditState {
    EditState::from_init(value.to_string(), String::new(), 0, readonly)
}

#[test]
fn copy_selection_fills_clipboard() {
    let mut e = edit_from("hello", false);
    e.anchor = 0;
    e.cursor = 3;
    assert_eq!(copy_selection(&e), "hel");
    assert_eq!(e.value, "hello", "copy does not mutate value");
}

#[test]
fn cut_selection_copies_and_deletes() {
    let mut e = edit_from("hello", false);
    e.anchor = 1;
    e.cursor = 4;
    let (clip, changed) = cut_selection(&mut e, NodeKind::TextField);
    assert!(changed);
    assert_eq!(e.value, "ho", "selection removed");
    assert_eq!(clip, "ell", "clipboard filled with cut text");
    assert_eq!(e.cursor, 1, "cursor at selection start after cut");
}

#[test]
fn cut_selection_noop_without_selection() {
    let mut e = edit_from("abc", false);
    let (_, changed) = cut_selection(&mut e, NodeKind::TextField);
    assert!(!changed);
    assert_eq!(e.value, "abc");
}

#[test]
fn cut_selection_readonly_copies_but_does_not_delete() {
    let mut e = edit_from("hello", true);
    e.anchor = 1;
    e.cursor = 4;
    let (clip, changed) = cut_selection(&mut e, NodeKind::TextField);
    assert!(!changed, "readonly cut returns false (no mutation)");
    assert_eq!(e.value, "hello", "readonly value untouched");
    assert_eq!(e.anchor, 1, "selection anchor intact");
    assert_eq!(e.cursor, 4, "selection cursor intact");
    assert_eq!(clip, "ell", "copy still happened");
}

#[test]
fn paste_inserts_clipboard_at_cursor() {
    let mut e = edit_from("XY", false);
    assert!(insert_text(&mut e, NodeKind::TextField, "hi"));
    assert_eq!(e.value, "XYhi");
}

#[test]
fn paste_replaces_selection() {
    let mut e = edit_from("hello", false);
    e.anchor = 1;
    e.cursor = 4;
    assert!(insert_text(&mut e, NodeKind::TextField, "QQ"));
    assert_eq!(e.value, "hQQo", "selection replaced with clipboard");
}

#[test]
fn cut_then_paste_roundtrip() {
    let mut e = edit_from("hello", false);
    e.anchor = 1;
    e.cursor = 4;
    let (clip, changed) = cut_selection(&mut e, NodeKind::TextField);
    assert!(changed);
    assert_eq!(e.value, "ho");
    assert!(insert_text(&mut e, NodeKind::TextField, &clip));
    assert_eq!(e.value, "hello", "paste at the cut gap reinserts text in place");
    assert_eq!(e.cursor, 4, "cursor advanced past pasted text");
}

// ---- multi-line navigation and pointer placement (the host supplies glyph counts per
// visual line and the byte its hit test found) ----

#[test]
fn textarea_home_end_line_level() {
    let text = "aaaaa\nbe\naaa";
    let ctx = TextNavCtx { line_glyphs: vec![6, 3, 3], display: text.to_string() };
    let mut e = edit_from(text, false);
    e.cursor = 7;
    line_home_end(&mut e, &ctx, true, false);
    assert_eq!((e.cursor, e.anchor), (6, 6), "start of line 1");
    line_home_end(&mut e, &ctx, false, false);
    assert_eq!(e.cursor, 8, "end of line 1 stops before the line feed");
    e.cursor = 7;
    e.anchor = 7;
    line_home_end(&mut e, &ctx, true, true);
    assert_eq!((e.anchor, e.cursor), (7, 6));
}

#[test]
fn textarea_nav_maps_cursor_through_masked_display() {
    // Value "ab\ncd" shown masked as "●●\n●●": offsets map by character position.
    let ctx = TextNavCtx { line_glyphs: vec![3, 2], display: "●●\n●●".to_string() };
    let mut e = edit_from("ab\ncd", false);
    e.cursor = 4;
    line_home_end(&mut e, &ctx, true, false);
    assert_eq!(e.cursor, 3, "masked Home lands on the start of line 1");
    let mut e2 = edit_from("ab\ncd", false);
    e2.cursor = 4;
    assert_eq!(vertical_move_line(&e2, &ctx, true), None, "Down on the last line goes nowhere");
    finish_vertical_move(&mut e2, &ctx, None, false);
    assert_eq!(e2.cursor, 4);
}

#[test]
fn text_drag_extends_selection_anchor_kept() {
    let mut scene = Scene::default();
    let id = text_field_with(&mut scene, "hello world");
    on_text_pointer_down(&mut scene, id, None, 0);
    let (c0, a0) = caret_of(&scene, id);
    assert_eq!(a0, c0, "a press collapses the selection");
    on_text_pointer_drag(&mut scene, id, None, "hello world".len());
    let (c1, a1) = caret_of(&scene, id);
    assert_eq!(a1, a0, "a drag keeps the anchor");
    assert_eq!(c1, "hello world".len(), "the caret follows to the end");
}

#[test]
fn on_text_pointer_down_clamps_cursor_to_value_len_when_layout_exceeds_value() {
    // A layout measured from a placeholder can report bytes past the empty value.
    let mut scene = Scene::default();
    let id = text_field_with(&mut scene, "");
    on_text_pointer_down(&mut scene, id, None, 3);
    assert_eq!(caret_of(&scene, id), (0, 0));
}

// ---- tab panels (panels are tied to tabs by aria-controls and id, anywhere in the tree) ----

fn make_tab_with_panel_id(scene: &mut Scene, tablist: NodeId, panel_id: &str) -> NodeId {
    let tab = create_node_from_template(scene, NodeKind::Container, true, false, None);
    append_child(scene, tablist, tab).expect("fresh tab has no parent");
    scene.roles.insert(
        tab,
        RoleInfo { role: Some(ROLE_TAB.to_string()), slots: Vec::new(), aria_controls: Some(panel_id.to_string()) },
    );
    tab
}

fn make_panel(scene: &mut Scene, id_attr: &str) -> NodeId {
    let panel = create_node_from_template(scene, NodeKind::Container, true, false, None);
    scene.get_mut(panel).unwrap().id_attr = Some(id_attr.to_string());
    panel
}

#[test]
fn tablist_panel_display_follows_selected_index() {
    let mut scene = Scene::default();
    let tl = create_node_from_template(&mut scene, NodeKind::TabList, true, false, Some(ControlState::TabList { selected_index: 0 }));
    make_tab_with_panel_id(&mut scene, tl, "pa");
    make_tab_with_panel_id(&mut scene, tl, "pb");
    let pa = make_panel(&mut scene, "pa");
    let pb = make_panel(&mut scene, "pb");
    assert_eq!(tab_panel_visibility(&scene, tl), vec![(pa, true), (pb, false)]);
    if let Some(ControlState::TabList { selected_index }) = scene.controls.get_mut(tl) {
        *selected_index = 1;
    }
    assert_eq!(tab_panel_visibility(&scene, tl), vec![(pa, false), (pb, true)]);
}

#[test]
fn tablist_r1_missing_aria_controls_and_missing_panel_skip_cleanly() {
    let mut scene = Scene::default();
    let tl = create_node_from_template(&mut scene, NodeKind::TabList, true, false, Some(ControlState::TabList { selected_index: 0 }));
    make_role_child(&mut scene, tl, ROLE_TAB);
    make_tab_with_panel_id(&mut scene, tl, "ghost");
    make_tab_with_panel_id(&mut scene, tl, "ok");
    let ok = make_panel(&mut scene, "ok");
    assert_eq!(tab_panel_visibility(&scene, tl), vec![(ok, false)], "the valid inactive panel is still hidden");
}

#[test]
fn sync_dropdown_open_toggles_popup_display() {
    let mut scene = Scene::default();
    let sel = make_dropdown_with_options(&mut scene, &["A"], 0);
    let popup = listbox_of(&scene, sel);
    assert_eq!(dropdown_popup_shown(&scene, sel), Some((popup, false)), "closed: the popup is hidden");
    if let Some(ControlState::Dropdown { open, .. }) = scene.controls.get_mut(sel) {
        *open = true;
    }
    assert_eq!(dropdown_popup_shown(&scene, sel), Some((popup, true)), "open: the popup shows");
    assert_eq!(dropdown_popup_shown(&scene, popup), None, "not a dropdown");
}

#[test]
fn sync_control_visuals_noop_for_non_control_node() {
    let mut scene = Scene::default();
    let id = make_control(&mut scene, NodeKind::Container);
    sync_dropdown_value(&mut scene, id);
    assert!(scene.get(id).unwrap().children.is_empty());
    assert!(scene.text_contents.is_empty());
    assert_eq!(dropdown_popup_shown(&scene, id), None);
}

use ikat_core::dropdown::sync_dropdown_popup;
use ikat_core::scene::DisplayOverride;
use ikat_core::tablist::sync_tab_panels;

#[test]
fn sync_dropdown_popup_shows_while_open() {
    let mut scene = Scene::default();
    let sel = make_dropdown_with_options(&mut scene, &["A"], 0);
    let popup = listbox_of(&scene, sel);
    sync_dropdown_popup(&mut scene, sel);
    assert_eq!(scene.get(popup).unwrap().display_override, Some(DisplayOverride::Hidden), "closed -> hidden");
    assert!(scene.get(popup).unwrap().dirty_mesh);
    if let Some(ControlState::Dropdown { open, .. }) = scene.controls.get_mut(sel) {
        *open = true;
    }
    sync_dropdown_popup(&mut scene, sel);
    assert_eq!(scene.get(popup).unwrap().display_override, Some(DisplayOverride::Block), "open -> block");
    let plain = make_control(&mut scene, NodeKind::Container);
    sync_dropdown_popup(&mut scene, plain);
    assert_eq!(scene.get(plain).unwrap().display_override, None);
}

#[test]
fn sync_tab_panels_hides_inactive_and_releases_active() {
    let mut scene = Scene::default();
    let tl = create_node_from_template(&mut scene, NodeKind::TabList, true, false, Some(ControlState::TabList { selected_index: 0 }));
    make_tab_with_panel_id(&mut scene, tl, "pa");
    make_tab_with_panel_id(&mut scene, tl, "pb");
    let pa = make_panel(&mut scene, "pa");
    let pb = make_panel(&mut scene, "pb");
    sync_tab_panels(&mut scene, tl);
    assert_eq!(scene.get(pa).unwrap().display_override, None, "active panel: display from its style");
    assert_eq!(scene.get(pb).unwrap().display_override, Some(DisplayOverride::Hidden));
    if let Some(ControlState::TabList { selected_index }) = scene.controls.get_mut(tl) {
        *selected_index = 1;
    }
    sync_tab_panels(&mut scene, tl);
    assert_eq!(scene.get(pa).unwrap().display_override, Some(DisplayOverride::Hidden));
    assert_eq!(scene.get(pb).unwrap().display_override, None);
}
