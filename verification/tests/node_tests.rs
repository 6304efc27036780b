use ikat_core::node::{NodeFlags, NodeId, NodeKind, RoleInfo, RoleTable};

#[test]
fn kind_as_u8_is_discriminant() {
    assert_eq!(NodeKind::Container as u8, 0);
    assert_eq!(NodeKind::TextNode as u8, 1);
    assert_eq!(NodeKind::Button as u8, 3);
    assert_eq!(NodeKind::Image as u8, 4);
    assert_eq!(NodeKind::Template as u8, 18);
    assert_eq!(NodeKind::TabList as u8, 19);
    assert_eq!(NodeKind::Tab as u8, 20);
}

#[test]
fn from_u8_roundtrip_all_variants() {
    let all = [
        NodeKind::Container,
        NodeKind::TextNode,
        NodeKind::TextElement,
        NodeKind::Button,
        NodeKind::Image,
        NodeKind::TextField,
        NodeKind::NumberField,
        NodeKind::Slider,
        NodeKind::Toggle,
        NodeKind::RadioButton,
        NodeKind::TextArea,
        NodeKind::Dropdown,
        NodeKind::OptionItem,
        NodeKind::ProgressBar,
        NodeKind::ListView,
        NodeKind::ListItem,
        NodeKind::Slot,
        NodeKind::CustomElement,
        NodeKind::Template,
        NodeKind::TabList,
        NodeKind::Tab,
    ];
    for &k in &all {
        assert_eq!(NodeKind::from_u8(k as u8), Some(k));
        assert_eq!(k.to_u8(), k as u8);
    }
    assert_eq!(NodeKind::from_u8(21), None);
    assert_eq!(NodeKind::from_u8(255), None);
}

#[test]
fn tablist_tab_kind_roundtrip_and_container() {
    assert_eq!(NodeKind::TabList as u8, 19);
    assert_eq!(NodeKind::Tab as u8, 20);
    assert_eq!(NodeKind::from_u8(19), Some(NodeKind::TabList));
    assert_eq!(NodeKind::from_u8(20), Some(NodeKind::Tab));
    assert!(NodeKind::TabList.is_container());
    assert!(NodeKind::Tab.is_container());
    assert!(!NodeKind::TabList.is_leaf());
    assert!(!NodeKind::Tab.is_leaf());
}

#[test]
fn lookup_scope_flag_exists_distinct_from_scope_root() {
    assert!(NodeFlags::lookup_scope().contains(NodeFlags::lookup_scope()));
    assert!(!NodeFlags::lookup_scope().contains(NodeFlags::scope_root()));
    let both = NodeFlags::scope_root() | NodeFlags::lookup_scope();
    assert!(both.contains(NodeFlags::scope_root()));
    assert!(both.contains(NodeFlags::lookup_scope()));
}

#[test]
fn node_id_index_and_gen_decode() {
    let id = NodeId((7u64 << 32) | 5);
    assert_eq!(id.index(), 5, "index = bits[31:0]");
    assert_eq!(id.gen(), 7, "gen = bits[55:32]");
}

#[test]
fn node_id_invalid_sentinel() {
    assert!(!NodeId::invalid().is_valid(), "u64::MAX is the invalid handle");
    assert!(NodeId(0).is_valid(), "0 is valid");
}

#[test]
fn node_id_index_capacity_32bit() {
    let max_idx = u32::MAX as u64;
    let id = NodeId(max_idx);
    assert_eq!(id.index(), max_idx as usize);
}

#[test]
fn role_table_get_insert_remove() {
    let mut t = RoleTable::default();
    let id = NodeId(7);
    assert!(t.get(id).is_none());
    assert_eq!(t.role_of(id), None);
    let info = RoleInfo {
        role: Some("slider".into()),
        slots: [("thumb".into(), "".into())].into_iter().collect(),
        aria_controls: None,
    };
    t.insert(id, info.clone());
    assert_eq!(t.role_of(id), Some("slider"));
    assert_eq!(t.slot_of(id, "thumb"), Some(""));
    t.insert(NodeId(8), RoleInfo::default());
    assert!(t.get(NodeId(8)).is_none());
    t.remove(id);
    assert!(t.get(id).is_none());
}

#[test]
fn node_id_gen_masks_tag_byte() {
    // The tag byte (bits 56..63) is not part of the generation.
    let id = NodeId((0xABu64 << 56) | (0x12_3456u64 << 32) | 9);
    assert_eq!(id.gen(), 0x12_3456);
    assert_eq!(id.index(), 9);
}

#[test]
fn node_flags_insert_remove() {
    let mut f = NodeFlags::empty();
    f.insert(NodeFlags::disabled() | NodeFlags::hovered());
    assert!(f.contains(NodeFlags::disabled()));
    assert!(f.contains(NodeFlags::hovered()));
    f.remove(NodeFlags::hovered());
    assert!(!f.contains(NodeFlags::hovered()));
    assert_eq!(f.bits(), 8);
}

#[test]
fn role_table_get_mut_and_last_slot_wins() {
    let mut t = RoleTable::new();
    let id = NodeId(3);
    t.insert(
        id,
        RoleInfo {
            role: None,
            slots: vec![("fill".into(), "a".into()), ("fill".into(), "b".into())],
            aria_controls: None,
        },
    );
    assert_eq!(t.slot_of(id, "fill"), Some("b"));
    assert_eq!(t.slot_of(id, "thumb"), None);
    t.get_mut(id).unwrap().role = Some("tab".into());
    assert_eq!(t.role_of(id), Some("tab"));
    t.clear();
    assert!(t.get(id).is_none());
}
