//! Node handles, node kinds, interaction flags and the role/data-slot side table.

use vstd::prelude::*;
use std::collections::HashMap;
use crate::edit::EditState;

verus! {

/// Mask of the low 32 bits of a node handle (the slot index).
pub const INDEX_MASK: u64 = 0xFFFF_FFFF;

/// Raw value of the invalid node handle.
pub const INVALID_RAW: u64 = 0xFFFF_FFFF_FFFF_FFFF;

/// Mask of the 24 generation bits once shifted down by 32.
pub const GEN_MASK: u64 = 0xFF_FFFF;

/// Opaque node handle. Layout: bits[31:0] = slot index, bits[55:32] = generation,
/// bits[63:56] = tag (0 for live handles). `u64::MAX` is the invalid sentinel.
#[derive(Debug, Clone, Copy, PartialEq, Eq, Hash, Structural)]
pub struct NodeId(pub u64);

/// Slot index encoded in a raw handle value.
pub open spec fn handle_index(raw: u64) -> int {
    raw as int % 0x1_0000_0000
}

/// Generation encoded in a raw handle value.
pub open spec fn handle_gen(raw: u64) -> int {
    (raw as int / 0x1_0000_0000) % 0x100_0000
}

impl NodeId {
    /// Invalid handle sentinel (tag 0xFF, all index and generation bits set).
    pub fn invalid() -> (r: NodeId)
        ensures
            r.0 == INVALID_RAW,
    {
        NodeId(INVALID_RAW)
    }

    /// Whether this handle is not the invalid sentinel.
    pub fn is_valid(self) -> (r: bool)
        ensures
            r == (self.0 != u64::MAX),
    {
        self.0 != INVALID_RAW
    }

    /// Slot index (bits[31:0]); side arrays are indexed by it.
    pub fn index(self) -> (r: usize)
        ensures
            r as int == handle_index(self.0),
    {
        let raw: u64 = self.0;
        let v: u64 = raw & INDEX_MASK;
        assert(v == raw % 0x1_0000_0000) by (bit_vector)
            requires
                v == raw & 0xFFFF_FFFF,
        ;
        v as usize
    }

    /// Generation (bits[55:32]).
    pub fn gen(self) -> (r: u32)
        ensures
            r as int == handle_gen(self.0),
    {
        let raw: u64 = self.0;
        let v: u64 = (raw >> 32u64) & GEN_MASK;
        assert(v == (raw / 0x1_0000_0000) % 0x100_0000) by (bit_vector)
            requires
                v == (raw >> 32u64) & 0xFF_FFFF,
        ;
        v as u32
    }
}


/// Node kind. Discriminants follow declaration order and are stable (variants are only
/// ever appended): they are the `kind_tag` byte of serialized packages.
#[derive(Debug, Clone, Copy, PartialEq, Eq, Hash, Structural)]
pub enum NodeKind {
    Container,
    TextNode,
    TextElement,
    Button,
    Image,
    TextField,
    NumberField,
    Slider,
    Toggle,
    RadioButton,
    TextArea,
    Dropdown,
    OptionItem,
    ProgressBar,
    ListView,
    ListItem,
    Slot,
    CustomElement,
    /// `<template>`: list-item blueprint, never laid out, rendered or hit-tested.
    Template,
    /// WAI-ARIA `role="tablist"`.
    TabList,
    /// WAI-ARIA `role="tab"`.
    Tab,
}

/// Number of node kinds; valid kind bytes are `0..KIND_COUNT`.
pub const KIND_COUNT: u8 = 21;

/// The stable byte code of a kind (its declaration position).
pub open spec fn kind_code(k: NodeKind) -> u8 {
    match k {
        NodeKind::Container => 0,
        NodeKind::TextNode => 1,
        NodeKind::TextElement => 2,
        NodeKind::Button => 3,
        NodeKind::Image => 4,
        NodeKind::TextField => 5,
        NodeKind::NumberField => 6,
        NodeKind::Slider => 7,
        NodeKind::Toggle => 8,
        NodeKind::RadioButton => 9,
        NodeKind::TextArea => 10,
        NodeKind::Dropdown => 11,
        NodeKind::OptionItem => 12,
        NodeKind::ProgressBar => 13,
        NodeKind::ListView => 14,
        NodeKind::ListItem => 15,
        NodeKind::Slot => 16,
        NodeKind::CustomElement => 17,
        NodeKind::Template => 18,
        NodeKind::TabList => 19,
        NodeKind::Tab => 20,
    }
}

/// Kinds whose content model holds user-arrangeable children.
pub open spec fn container_kind(k: NodeKind) -> bool {
    match k {
        NodeKind::Container | NodeKind::TextElement | NodeKind::Button | NodeKind::ListView
        | NodeKind::ListItem | NodeKind::Slot | NodeKind::CustomElement | NodeKind::TabList
        | NodeKind::Tab => true,
        _ => false,
    }
}

impl Default for NodeKind {
    fn default() -> (r: NodeKind)
        ensures
            r == NodeKind::Container,
    {
        NodeKind::Container
    }
}

impl NodeKind {
    /// The stable byte code of this kind.
    pub fn to_u8(self) -> (r: u8)
        ensures
            r == kind_code(self),
    {
        match self {
            NodeKind::Container => 0,
            NodeKind::TextNode => 1,
            NodeKind::TextElement => 2,
            NodeKind::Button => 3,
            NodeKind::Image => 4,
            NodeKind::TextField => 5,
            NodeKind::NumberField => 6,
            NodeKind::Slider => 7,
            NodeKind::Toggle => 8,
            NodeKind::RadioButton => 9,
            NodeKind::TextArea => 10,
            NodeKind::Dropdown => 11,
            NodeKind::OptionItem => 12,
            NodeKind::ProgressBar => 13,
            NodeKind::ListView => 14,
            NodeKind::ListItem => 15,
            NodeKind::Slot => 16,
            NodeKind::CustomElement => 17,
            NodeKind::Template => 18,
            NodeKind::TabList => 19,
            NodeKind::Tab => 20,
        }
    }

    /// Byte code -> kind; codes past the last variant give `None`.
    pub fn from_u8(b: u8) -> (r: Option<NodeKind>)
        ensures
            r is None <==> b >= KIND_COUNT,
            r matches Some(k) ==> kind_code(k) == b,
    {
        match b {
            0 => Some(NodeKind::Container),
            1 => Some(NodeKind::TextNode),
            2 => Some(NodeKind::TextElement),
            3 => Some(NodeKind::Button),
            4 => Some(NodeKind::Image),
            5 => Some(NodeKind::TextField),
            6 => Some(NodeKind::NumberField),
            7 => Some(NodeKind::Slider),
            8 => Some(NodeKind::Toggle),
            9 => Some(NodeKind::RadioButton),
            10 => Some(NodeKind::TextArea),
            11 => Some(NodeKind::Dropdown),
            12 => Some(NodeKind::OptionItem),
            13 => Some(NodeKind::ProgressBar),
            14 => Some(NodeKind::ListView),
            15 => Some(NodeKind::ListItem),
            16 => Some(NodeKind::Slot),
            17 => Some(NodeKind::CustomElement),
            18 => Some(NodeKind::Template),
            19 => Some(NodeKind::TabList),
            20 => Some(NodeKind::Tab),
            _ => None,
        }
    }

    /// Container content model: user-arrangeable children.
    pub fn is_container(self) -> (r: bool)
        ensures
            r == container_kind(self),
    {
        match self {
            NodeKind::Container | NodeKind::TextElement | NodeKind::Button | NodeKind::ListView
            | NodeKind::ListItem | NodeKind::Slot | NodeKind::CustomElement | NodeKind::TabList
            | NodeKind::Tab => true,
            _ => false,
        }
    }

    /// Leaf: private internal structure, no user-arrangeable children.
    pub fn is_leaf(self) -> (r: bool)
        ensures
            r == !container_kind(self),
    {
        !self.is_container()
    }

    /// Alias of `is_container`: the kind has children in its content model.
    pub fn has_children(self) -> (r: bool)
        ensures
            r == container_kind(self),
    {
        self.is_container()
    }
}

/// Decoding the code of any kind gives that kind back.
pub proof fn lemma_kind_code_roundtrip(k: NodeKind)
    ensures
        kind_code(k) < KIND_COUNT,
        forall|j: NodeKind| kind_code(j) == kind_code(k) ==> j == k,
{
}

/// Pseudo-class and scoping flags of a node, packed in one byte.
#[derive(Debug, Clone, Copy, PartialEq, Eq, Hash, Structural)]
pub struct NodeFlags(pub u8);

pub const FLAG_HOVERED: u8 = 1;
pub const FLAG_ACTIVE: u8 = 2;
pub const FLAG_FOCUSED: u8 = 4;
pub const FLAG_DISABLED: u8 = 8;
pub const FLAG_CASCALED: u8 = 16;
/// CSS scoped-rule isolation root (template instance roots, document roots).
pub const FLAG_SCOPE_ROOT: u8 = 32;
/// `Get<T>` lookup boundary (instance roots, document roots, list slot roots).
pub const FLAG_LOOKUP_SCOPE: u8 = 64;
/// Expanded component host that belongs to the enclosing CSS scope itself.
pub const FLAG_HOST_IN_PARENT_SCOPE: u8 = 128;

impl NodeFlags {
    /// No flag set.
    pub fn empty() -> (r: NodeFlags)
        ensures
            r.0 == 0,
    {
        NodeFlags(0)
    }

    pub fn hovered() -> (r: NodeFlags)
        ensures
            r.0 == FLAG_HOVERED,
    {
        NodeFlags(FLAG_HOVERED)
    }

    pub fn active() -> (r: NodeFlags)
        ensures
            r.0 == FLAG_ACTIVE,
    {
        NodeFlags(FLAG_ACTIVE)
    }

    pub fn focused() -> (r: NodeFlags)
        ensures
            r.0 == FLAG_FOCUSED,
    {
        NodeFlags(FLAG_FOCUSED)
    }

    pub fn disabled() -> (r: NodeFlags)
        ensures
            r.0 == FLAG_DISABLED,
    {
        NodeFlags(FLAG_DISABLED)
    }

    pub fn cascaled() -> (r: NodeFlags)
        ensures
            r.0 == FLAG_CASCALED,
    {
        NodeFlags(FLAG_CASCALED)
    }

    pub fn scope_root() -> (r: NodeFlags)
        ensures
            r.0 == FLAG_SCOPE_ROOT,
    {
        NodeFlags(FLAG_SCOPE_ROOT)
    }

    pub fn lookup_scope() -> (r: NodeFlags)
        ensures
            r.0 == FLAG_LOOKUP_SCOPE,
    {
        NodeFlags(FLAG_LOOKUP_SCOPE)
    }

    pub fn host_in_parent_scope() -> (r: NodeFlags)
        ensures
            r.0 == FLAG_HOST_IN_PARENT_SCOPE,
    {
        NodeFlags(FLAG_HOST_IN_PARENT_SCOPE)
    }

    /// The raw flag byte.
    pub fn bits(self) -> (r: u8)
        ensures
            r == self.0,
    {
        self.0
    }

    /// Whether every flag of `other` is set in `self`.
    pub fn contains(self, other: NodeFlags) -> (r: bool)
        ensures
            r == (self.0 & other.0 == other.0),
    {
        self.0 & other.0 == other.0
    }

    /// Union of both flag sets.
    pub fn union(self, other: NodeFlags) -> (r: NodeFlags)
        ensures
            r.0 == self.0 | other.0,
    {
        NodeFlags(self.0 | other.0)
    }

    /// Set every flag of `other`.
    pub fn insert(&mut self, other: NodeFlags)
        ensures
            final(self).0 == old(self).0 | other.0,
    {
        self.0 = self.0 | other.0;
    }

    /// Clear every flag of `other`.
    pub fn remove(&mut self, other: NodeFlags)
        ensures
            final(self).0 == old(self).0 & !other.0,
    {
        self.0 = self.0 & !other.0;
    }
}


impl core::ops::BitOr for NodeFlags {
    type Output = NodeFlags;

    fn bitor(self, rhs: NodeFlags) -> (r: NodeFlags) {
        NodeFlags(self.0 | rhs.0)
    }
}

impl vstd::std_specs::ops::BitOrSpecImpl for NodeFlags {
    open spec fn obeys_bitor_spec() -> bool {
        true
    }

    open spec fn bitor_req(self, rhs: NodeFlags) -> bool {
        true
    }

    open spec fn bitor_spec(self, rhs: NodeFlags) -> NodeFlags {
        NodeFlags(self.0 | rhs.0)
    }
}


/// Interaction state of a node (read and written by the input and rematch passes).
#[derive(Debug, Clone)]
pub struct NodeInteraction {
    pub flags: NodeFlags,
    pub touchable: bool,
    pub draggable: bool,
    pub tabindex: Option<i32>,
}

impl Default for NodeInteraction {
    fn default() -> (r: NodeInteraction)
        ensures
            r.flags.0 == 0,
            !r.touchable,
            !r.draggable,
            r.tabindex is None,
    {
        NodeInteraction { flags: NodeFlags(0), touchable: false, draggable: false, tabindex: None }
    }
}

/// IME pre-edit text spliced into the displayed value at byte offset `pos` of the value.
#[derive(Debug, Clone, PartialEq)]
pub struct Composition {
    pub text: String,
    pub pos: usize,
}

/// Role / data-slot / aria-controls of a node (read-only lookup data).
#[derive(Debug, Clone, Default, PartialEq)]
pub struct RoleInfo {
    /// WAI-ARIA role (`"combobox"`, `"slider"`, ...). `None` = plain element.
    pub role: Option<String>,
    /// `data-slot` entries (name, value); a later entry of the same name wins.
    pub slots: Vec<(String, String)>,
    /// WAI-ARIA `aria-controls` (tab -> panel id).
    pub aria_controls: Option<String>,
}

/// Whether a role info carries nothing (no role, no slot, no aria-controls).
pub open spec fn role_info_empty(info: RoleInfo) -> bool {
    info.role is None && info.slots@.len() == 0 && info.aria_controls is None
}

impl RoleInfo {
    /// No role, no slot and no aria-controls (such infos are not stored).
    pub fn is_empty(&self) -> (r: bool)
        ensures
            r == role_info_empty(*self),
    {
        self.role.is_none() && self.slots.len() == 0 && self.aria_controls.is_none()
    }

    /// Value of the slot entry named `name` (the last one when several share it).
    pub fn slot(&self, name: &str) -> (r: Option<&str>)
        ensures
            match r {
                Some(v) => exists|i: int|
                    0 <= i < self.slots@.len() && (#[trigger] self.slots@[i]).0@ == name@
                        && v@ == self.slots@[i].1@ && forall|j: int|
                        i < j < self.slots@.len() ==> (#[trigger] self.slots@[j]).0@ != name@,
                None => forall|i: int|
                    0 <= i < self.slots@.len() ==> (#[trigger] self.slots@[i]).0@ != name@,
            },
    {
        let mut i: usize = self.slots.len();
        while i > 0
            invariant
                i <= self.slots@.len(),
                forall|j: int| i <= j < self.slots@.len() ==> (#[trigger] self.slots@[j]).0@ != name@,
            decreases i,
        {
            i = i - 1;
            if crate::strs::str_eq(self.slots[i].0.as_str(), name) {
                return Some(self.slots[i].1.as_str());
            }
        }
        None
    }
}

/// Sparse per-node role table keyed by the raw node handle.
#[derive(Debug, Clone, Default)]
pub struct RoleTable(HashMap<u64, RoleInfo>);

impl View for RoleTable {
    type V = Map<u64, RoleInfo>;

    closed spec fn view(&self) -> Map<u64, RoleInfo> {
        self.0@
    }
}

impl RoleTable {
    /// An empty table.
    pub fn new() -> (r: RoleTable)
        ensures
            r@ == Map::<u64, RoleInfo>::empty(),
    {
        RoleTable(HashMap::new())
    }

    /// Role info stored for `id`.
    pub fn get(&self, id: NodeId) -> (r: Option<&RoleInfo>)
        ensures
            match r {
                Some(v) => self@.contains_key(id.0) && *v == self@[id.0],
                None => !self@.contains_key(id.0),
            },
    {
        self.0.get(&id.0)
    }

    /// Mutable access to the role info stored for `id`.
    pub fn get_mut(&mut self, id: NodeId) -> (r: Option<&mut RoleInfo>)
        ensures
            match r {
                Some(v) => old(self)@.contains_key(id.0) && *v == old(self)@[id.0]
                    && final(self)@ == old(self)@.insert(id.0, *final(v)),
                None => !old(self)@.contains_key(id.0) && final(self)@ == old(self)@,
            },
    {
        map_get_mut(&mut self.0, id.0)
    }

    /// Store `info` for `id`; an empty info is not stored (the table stays sparse).
    pub fn insert(&mut self, id: NodeId, info: RoleInfo)
        ensures
            role_info_empty(info) ==> final(self)@ == old(self)@,
            !role_info_empty(info) ==> final(self)@ == old(self)@.insert(id.0, info),
    {
        if !info.is_empty() {
            self.0.insert(id.0, info);
        }
    }

    /// Drop the entry of `id`.
    pub fn remove(&mut self, id: NodeId)
        ensures
            final(self)@ == old(self)@.remove(id.0),
    {
        self.0.remove(&id.0);
    }

    /// Role string of `id`.
    pub fn role_of(&self, id: NodeId) -> (r: Option<&str>)
        ensures
            match r {
                Some(v) => self@.contains_key(id.0) && self@[id.0].role is Some && v@ == self@[id.0].role->0@,
                None => !self@.contains_key(id.0) || self@[id.0].role is None,
            },
    {
        match self.0.get(&id.0) {
            Some(info) => match &info.role {
                Some(s) => Some(s.as_str()),
                None => None,
            },
            None => None,
        }
    }

    /// Value of data-slot `slot` of `id`.
    pub fn slot_of(&self, id: NodeId, slot: &str) -> (r: Option<&str>)
        ensures
            !self@.contains_key(id.0) ==> r is None,
            self@.contains_key(id.0) ==> match r {
                Some(v) => exists|i: int|
                    0 <= i < self@[id.0].slots@.len() && (#[trigger] self@[id.0].slots@[i]).0@
                        == slot@ && v@ == self@[id.0].slots@[i].1@ && forall|j: int|
                        i < j < self@[id.0].slots@.len() ==> (#[trigger] self@[id.0].slots@[j]).0@
                            != slot@,
                None => forall|i: int|
                    0 <= i < self@[id.0].slots@.len() ==> (#[trigger] self@[id.0].slots@[i]).0@
                        != slot@,
            },
    {
        match self.0.get(&id.0) {
            Some(info) => info.slot(slot),
            None => None,
        }
    }

    /// Drop every entry.
    pub fn clear(&mut self)
        ensures
            final(self)@ == Map::<u64, RoleInfo>::empty(),
    {
        self.0.clear();
    }
}

/// `HashMap::get_mut`: a mutable reference to the value stored under `k`, if any;
/// writes through it land in the map under `k`, nothing else changes.
#[verifier::external_body]
pub(crate) fn map_get_mut<V>(m: &mut HashMap<u64, V>, k: u64) -> (r: Option<&mut V>)
    ensures
        match r {
            Some(v) => old(m)@.contains_key(k) && *v == old(m)@[k] && final(m)@ == old(m)@.insert(
                k,
                *final(v),
            ),
            None => !old(m)@.contains_key(k) && final(m)@ == old(m)@,
        },
{
    m.get_mut(&k)
}

/// Setting flags makes them contained, clearing them makes them absent, and neither touches
/// the other flags.
pub proof fn law_flags_insert_remove(f: u8, g: u8, h: u8)
    ensures
        (f | g) & g == g,
        (f & !g) & g == 0,
        (g & h) == 0 ==> ((f | g) & h) == (f & h),
        (g & h) == 0 ==> ((f & !g) & h) == (f & h),
{
    assert((f | g) & g == g) by (bit_vector);
    assert((f & !g) & g == 0) by (bit_vector);
    assert((g & h) == 0 ==> ((f | g) & h) == (f & h)) by (bit_vector);
    assert((g & h) == 0 ==> ((f & !g) & h) == (f & h)) by (bit_vector);
}

/// After storing a non-empty info for a handle, the table gives that info for it and leaves
/// every other handle's entry as it was; after removing it, the handle has no entry.
pub proof fn law_role_table_read_after_write(t: Map<u64, RoleInfo>, id: NodeId, info: RoleInfo, k: u64)
    requires
        !role_info_empty(info),
    ensures
        t.insert(id.0, info)[id.0] == info,
        k != id.0 ==> t.insert(id.0, info).contains_key(k) == t.contains_key(k) && t.insert(
            id.0,
            info,
        ).get(k) == t.get(k),
        !t.remove(id.0).contains_key(id.0),
{
}

/// Runtime state of one control. Numeric attributes that the host computes with in floating
/// point (progress and slider values, number-field bounds) are carried as IEEE-754
/// single-precision bit patterns: the library stores and hands them back, it never computes
/// on them.
#[derive(Debug, Clone, PartialEq)]
pub enum ControlState {
    Progress { value_bits: u32, max_bits: u32, indeterminate: bool },
    Toggle { checked: bool },
    Radio { checked: bool, name: String },
    Slider { value_bits: u32, min_bits: u32, max_bits: u32, step_bits: u32, dragging: bool },
    /// Single-line text input.
    TextField(EditState),
    /// Multi-line text input.
    TextArea(EditState),
    /// A `<select>`: `selected_index` is the current (highlighted) item, `open` whether the
    /// popup shows, `value_lock` guards against feedback, `open_selected_index` the selection
    /// when the popup opened (the rollback point of a cancel), `option_values` each option's
    /// `value` attribute (`None` falls back to its text).
    Dropdown {
        selected_index: usize,
        open: bool,
        value_lock: bool,
        open_selected_index: Option<usize>,
        option_values: Vec<Option<String>>,
    },
    /// `<input type="number">`: the text it edits and its bounds.
    NumberField { edit: EditState, min_bits: u32, max_bits: u32, step_bits: u32 },
    /// `role="tablist"`: index of the active tab.
    TabList { selected_index: usize },
}

/// Control state per node, keyed by raw handle.
#[derive(Debug, Clone, Default)]
pub struct ControlTable(HashMap<u64, ControlState>);

impl View for ControlTable {
    type V = Map<u64, ControlState>;

    closed spec fn view(&self) -> Map<u64, ControlState> {
        self.0@
    }
}

impl ControlTable {
    /// An empty table.
    pub fn new() -> (r: ControlTable)
        ensures
            r@ == Map::<u64, ControlState>::empty(),
    {
        ControlTable(HashMap::new())
    }

    /// State stored for `id`.
    pub fn get(&self, id: NodeId) -> (r: Option<&ControlState>)
        ensures
            match r {
                Some(v) => self@.contains_key(id.0) && *v == self@[id.0],
                None => !self@.contains_key(id.0),
            },
    {
        self.0.get(&id.0)
    }

    /// Mutable access to the state stored for `id`.
    pub fn get_mut(&mut self, id: NodeId) -> (r: Option<&mut ControlState>)
        ensures
            match r {
                Some(v) => old(self)@.contains_key(id.0) && *v == old(self)@[id.0]
                    && final(self)@ == old(self)@.insert(id.0, *final(v)),
                None => !old(self)@.contains_key(id.0) && final(self)@ == old(self)@,
            },
    {
        map_get_mut(&mut self.0, id.0)
    }

    /// Store (or overwrite) the state of `id`.
    pub fn ensure(&mut self, id: NodeId, state: ControlState)
        ensures
            final(self)@ == old(self)@.insert(id.0, state),
    {
        self.0.insert(id.0, state);
    }

    /// Every entry, each once, in no particular order.
    pub fn iter(&self) -> (r: Vec<(NodeId, &ControlState)>)
        ensures
            r@.len() == self@.dom().len(),
            forall|i: int|
                0 <= i < r@.len() ==> self@.contains_key((#[trigger] r@[i]).0.0) && *r@[i].1
                    == self@[r@[i].0.0],
            forall|k: u64|
                #[trigger] self@.contains_key(k) ==> exists|i: int|
                    0 <= i < r@.len() && (#[trigger] r@[i]).0.0 == k,
            forall|i: int, j: int| 0 <= i < j < r@.len() ==> (#[trigger] r@[i]).0 != (#[trigger] r@[j]).0,
    {
        let mut out: Vec<(NodeId, &ControlState)> = Vec::new();
        let ghost m = self.0@;
        for kv in it: self.0.iter()
            invariant
                m == self.0@,
                it.seq().no_duplicates(),
                it.seq().len() == m.dom().len(),
                forall|i: int|
                    #![trigger it.seq()[i]]
                    0 <= i < it.seq().len() ==> m.contains_key(*it.seq()[i].0) && m[*it.seq()[i].0]
                        == *it.seq()[i].1,
                forall|k: u64| #[trigger] m.contains_key(k) ==> it.seq().contains((&k, &m[k])),
                out@.len() == it.index(),
                forall|i: int|
                    0 <= i < it.index() ==> (#[trigger] out@[i]).0.0 == *it.seq()[i].0 && out@[i].1
                        == it.seq()[i].1,
                forall|i: int|
                    0 <= i < out@.len() ==> m.contains_key((#[trigger] out@[i]).0.0) && *out@[i].1
                        == m[out@[i].0.0],
                forall|i: int, j: int|
                    0 <= i < j < out@.len() ==> (#[trigger] out@[i]).0 != (#[trigger] out@[j]).0,
                forall|k: u64|
                    #[trigger] m.contains_key(k) ==> (exists|i: int|
                        0 <= i < out@.len() && (#[trigger] out@[i]).0.0 == k) || (exists|j: int|
                        it.index() <= j < it.seq().len() && *(#[trigger] it.seq()[j]).0 == k),
        {
            let (k, v) = kv;
            proof {
                let n = it.index();
                assert(it.seq()[n] == (k, v));
                assert forall|i: int| 0 <= i < out@.len() implies (#[trigger] out@[i]).0.0 != *k by {
                    if out@[i].0.0 == *k {
                        assert(it.seq()[i].0 == it.seq()[n].0);
                        assert(it.seq()[i].1 == it.seq()[n].1);
                        assert(it.seq()[i] == it.seq()[n]);
                    }
                }
            }
            let ghost before = out@;
            out.push((NodeId(*k), v));
            proof {
                let n = it.index();
                assert forall|kk: u64| #[trigger] m.contains_key(kk) implies (exists|i: int|
                    0 <= i < out@.len() && (#[trigger] out@[i]).0.0 == kk) || (exists|j: int|
                    n + 1 <= j < it.seq().len() && *(#[trigger] it.seq()[j]).0 == kk) by {
                    if exists|j: int| n <= j < it.seq().len() && *(#[trigger] it.seq()[j]).0 == kk {
                        let j = choose|j: int| n <= j < it.seq().len() && *(#[trigger] it.seq()[j]).0 == kk;
                        if j == n {
                            assert(out@[n].0.0 == kk);
                        } else {
                            assert(*it.seq()[j].0 == kk);
                        }
                    } else {
                        let i = choose|i: int| 0 <= i < before.len() && (#[trigger] before[i]).0.0 == kk;
                        assert(out@[i] == before[i]);
                    }
                }
            }
        }
        out
    }

    /// Drop the entry of `id`.
    pub fn remove(&mut self, id: NodeId)
        ensures
            final(self)@ == old(self)@.remove(id.0),
    {
        self.0.remove(&id.0);
    }

    /// Drop every entry.
    pub fn clear(&mut self)
        ensures
            final(self)@ == Map::<u64, ControlState>::empty(),
    {
        self.0.clear();
    }
}

} // verus!
