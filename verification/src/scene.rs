//! The persistent node tree: nodes live in a slot map keyed by their handle; parent and
//! children links, roots, the focused node and the per-node text/image/role side tables.

use vstd::prelude::*;
use std::collections::{HashMap, HashSet};
use slotmap::{DefaultKey, Key, KeyData, SlotMap};
use crate::node::{
    handle_index, ControlState, ControlTable, NodeFlags, NodeId, NodeInteraction, NodeKind, RoleTable, FLAG_LOOKUP_SCOPE,
    INVALID_RAW,
};

verus! {

/// Slot-map storage of the nodes. Verus cannot declare `SlotMap` itself (its key bound is an
/// outside trait), so the map is held opaquely here and reached only through the wrappers below.
#[verifier::external_body]
pub struct NodeStore {
    slots: SlotMap<DefaultKey, Node>,
}

/// The occupied slots of the store: key (as its 64-bit FFI value: version in the high half,
/// slot index in the low half) to node.
pub uninterp spec fn node_slots(m: NodeStore) -> Map<u64, Node>;

/// Number of slots the store has allocated (occupied or free, sentinel included).
pub uninterp spec fn slot_span(m: NodeStore) -> nat;

/// The key a raw handle denotes in the slot map: versions of occupied slots are odd, so the
/// lowest version bit is forced on.
pub open spec fn norm_key(raw: u64) -> u64 {
    raw | 0x1_0000_0000
}

/// Every occupied slot has its own index in `1..slot_span`, so there are fewer occupied slots
/// than allocated ones; none is free exactly when the count is one short of the span.
pub open spec fn store_sane(m: NodeStore) -> bool {
    &&& node_slots(m).dom().finite()
    &&& node_slots(m).len() + 1 <= slot_span(m)
}

/// `SlotMap::new`: an empty map holding only the sentinel slot.
#[verifier::external_body]
pub(crate) fn slots_new() -> (fresh: NodeStore)
    ensures
        node_slots(fresh).dom() == Set::<u64>::empty(),
        slot_span(fresh) == 1,
        store_sane(fresh),
{
    NodeStore { slots: SlotMap::new() }
}

/// `SlotMap::insert`: stores the node under a fresh key (a reused free slot with a bumped odd
/// version, or a new slot) and returns that key's FFI value. When no slot is free the key is a
/// new slot at the end, index `slot_span`, version 1. Panics when the map already has
/// `u32::MAX` slots, which `requires` leaves out.
#[verifier::external_body]
pub(crate) fn slots_insert(m: &mut NodeStore, n: Node) -> (k: u64)
    requires
        slot_span(*old(m)) < u32::MAX,
        store_sane(*old(m)),
    ensures
        store_sane(*final(m)),
        node_slots(*old(m)).len() + 1 == slot_span(*old(m)) ==> k == 0x1_0000_0000 + slot_span(
            *old(m),
        ) && slot_span(*final(m)) == slot_span(*old(m)) + 1,
        !node_slots(*old(m)).contains_key(k),
        node_slots(*final(m)) == node_slots(*old(m)).insert(k, n),
        norm_key(k) == k,
        1 <= k as int % 0x1_0000_0000 < slot_span(*final(m)),
        slot_span(*final(m)) <= slot_span(*old(m)) + 1,
{
    m.slots.insert(n).data().as_ffi()
}

/// `SlotMap::get` with the key rebuilt from its FFI value (`KeyData::from_ffi` forces the
/// version odd): the node stored under that key, if its slot is occupied at that version.
#[verifier::external_body]
pub(crate) fn slots_get(m: &NodeStore, k: u64) -> (r: Option<&Node>)
    ensures
        match r {
            Some(n) => node_slots(*m).contains_key(norm_key(k)) && *n == node_slots(*m)[norm_key(k)],
            None => !node_slots(*m).contains_key(norm_key(k)),
        },
{
    m.slots.get(DefaultKey::from(KeyData::from_ffi(k)))
}

/// `SlotMap::get_mut`: like `slots_get`, and writes through the reference land in that slot.
#[verifier::external_body]
pub(crate) fn slots_get_mut(m: &mut NodeStore, k: u64) -> (r: Option<&mut Node>)
    requires
        store_sane(*old(m)),
    ensures
        store_sane(*final(m)),
        match r {
            Some(n) => node_slots(*old(m)).contains_key(norm_key(k)) && *n == node_slots(
                *old(m),
            )[norm_key(k)] && node_slots(*final(m)) == node_slots(*old(m)).insert(
                norm_key(k),
                *final(n),
            ),
            None => !node_slots(*old(m)).contains_key(norm_key(k)) && node_slots(*final(m))
                == node_slots(*old(m)),
        },
        slot_span(*final(m)) == slot_span(*old(m)),
{
    m.slots.get_mut(DefaultKey::from(KeyData::from_ffi(k)))
}

/// `SlotMap::remove`: frees the slot of the key (bumping its version) and returns the node.
#[verifier::external_body]
pub(crate) fn slots_remove(m: &mut NodeStore, k: u64) -> (r: Option<Node>)
    requires
        store_sane(*old(m)),
    ensures
        store_sane(*final(m)),
        node_slots(*final(m)) == node_slots(*old(m)).remove(norm_key(k)),
        match r {
            Some(n) => node_slots(*old(m)).contains_key(norm_key(k)) && n == node_slots(*old(m))[norm_key(k)],
            None => !node_slots(*old(m)).contains_key(norm_key(k)),
        },
        slot_span(*final(m)) == slot_span(*old(m)),
{
    m.slots.remove(DefaultKey::from(KeyData::from_ffi(k)))
}

/// `SlotMap::capacity`: the slot vector's capacity less the sentinel slot. A vector's
/// capacity is at least its length, so this bounds the slot count from above; how much more
/// it is depends on the allocator and is not stated.
#[verifier::external_body]
pub(crate) fn slots_capacity(m: &NodeStore) -> (r: usize)
    ensures
        slot_span(*m) <= r + 1,
{
    m.slots.capacity()
}

/// `SlotMap::len`: the number of occupied slots.
#[verifier::external_body]
pub(crate) fn slots_len(m: &NodeStore) -> (r: usize)
    ensures
        r == node_slots(*m).len(),
{
    m.slots.len()
}

/// Keys of `SlotMap::iter`, in iteration order: the occupied slots by ascending slot index
/// (each slot index appears at most once).
#[verifier::external_body]
pub(crate) fn slots_keys(m: &NodeStore) -> (r: Vec<u64>)
    ensures
        forall|i: int| 0 <= i < r@.len() ==> node_slots(*m).contains_key(#[trigger] r@[i]),
        forall|k: u64| node_slots(*m).contains_key(k) ==> r@.contains(k),
        forall|i: int, j: int|
            0 <= i < j < r@.len() ==> (#[trigger] r@[i]) as int % 0x1_0000_0000 < (
            #[trigger] r@[j]) as int % 0x1_0000_0000,
{
    m.slots.iter().map(|(k, _)| k.data().as_ffi()).collect()
}

/// Abstract node: the node's fields by their views.
pub ghost struct NodeView {
    pub id: NodeId,
    pub parent: Option<NodeId>,
    pub kind: NodeKind,
    pub children: Seq<NodeId>,
    pub clipped: bool,
    pub dirty_mesh: bool,
    pub dirty_text: bool,
    pub classes: Seq<Seq<char>>,
    pub id_attr: Option<Seq<char>>,
    pub custom_tag: Option<Seq<char>>,
    pub flags: u8,
    pub touchable: bool,
    pub draggable: bool,
    pub tabindex: Option<i32>,
    pub reuse_key: u32,
    pub rich_text_block: bool,
    pub display_override: Option<DisplayOverride>,
}

/// A display the runtime forces on a node over its style: shown as a block, or hidden (with
/// its subtree) from layout and paint.
#[derive(Debug, Clone, Copy, PartialEq, Eq, Structural)]
pub enum DisplayOverride {
    Block,
    Hidden,
}

/// One node of the tree (structure, classes, id, interaction flags).
#[derive(Debug, Clone)]
pub struct Node {
    pub id: NodeId,
    pub parent: Option<NodeId>,
    pub kind: NodeKind,
    pub children: Vec<NodeId>,
    /// Whether the node clips its content (overflow other than visible on some axis).
    pub clipped: bool,
    pub dirty_mesh: bool,
    pub dirty_text: bool,
    /// Runtime class list (matched by class selectors).
    pub classes: Vec<String>,
    /// Runtime `id` attribute.
    pub id_attr: Option<String>,
    /// Original hyphenated tag of a custom element.
    pub custom_tag: Option<String>,
    pub interaction: NodeInteraction,
    /// Render reuse key (virtual list slots).
    pub reuse_key: u32,
    /// Root of a rich-text block (inline children are flowed as runs).
    pub rich_text_block: bool,
    /// Display forced by the runtime (popups, tab panels), if any; otherwise the style's.
    pub display_override: Option<DisplayOverride>,
}

pub open spec fn opt_str_view(o: Option<String>) -> Option<Seq<char>> {
    match o {
        Some(s) => Some(s@),
        None => None,
    }
}

impl View for Node {
    type V = NodeView;

    open spec fn view(&self) -> NodeView {
        NodeView {
            id: self.id,
            parent: self.parent,
            kind: self.kind,
            children: self.children@,
            clipped: self.clipped,
            dirty_mesh: self.dirty_mesh,
            dirty_text: self.dirty_text,
            classes: self.classes@.map_values(|s: String| s@),
            id_attr: opt_str_view(self.id_attr),
            custom_tag: opt_str_view(self.custom_tag),
            flags: self.interaction.flags.0,
            touchable: self.interaction.touchable,
            draggable: self.interaction.draggable,
            tabindex: self.interaction.tabindex,
            reuse_key: self.reuse_key,
            rich_text_block: self.rich_text_block,
            display_override: self.display_override,
        }
    }
}

impl Default for Node {
    /// A detached, touchable container with handle 0 and a pending mesh rebuild.
    fn default() -> (r: Node)
        ensures
            r@ == (NodeView {
                id: NodeId(0),
                parent: None,
                kind: NodeKind::Container,
                children: Seq::empty(),
                clipped: false,
                dirty_mesh: true,
                dirty_text: false,
                classes: Seq::empty(),
                id_attr: None,
                custom_tag: None,
                flags: 0,
                touchable: true,
                draggable: false,
                tabindex: None,
                reuse_key: 0,
                rich_text_block: false,
                display_override: None,
            }),
    {
        let r = Node {
            id: NodeId(0),
            parent: None,
            kind: NodeKind::Container,
            children: Vec::new(),
            clipped: false,
            dirty_mesh: true,
            dirty_text: false,
            classes: Vec::new(),
            id_attr: None,
            custom_tag: None,
            interaction: NodeInteraction {
                flags: NodeFlags(0),
                touchable: true,
                draggable: false,
                tabindex: None,
            },
            reuse_key: 0,
            rich_text_block: false,
            display_override: None,
        };
        proof {
            assert(r.classes@.map_values(|s: String| s@) =~= Seq::<Seq<char>>::empty());
        }
        r
    }
}

/// A fresh, detached node of `kind` as every creation path makes it: handle not yet assigned,
/// no parent or children, pending mesh rebuild, text re-measure for text nodes, no classes,
/// id or flags.
pub open spec fn fresh_node(kind: NodeKind, touchable: bool, clipped: bool) -> NodeView {
    NodeView {
        id: NodeId(INVALID_RAW),
        parent: None,
        kind: kind,
        children: Seq::empty(),
        clipped: clipped,
        dirty_mesh: true,
        dirty_text: kind == NodeKind::TextNode,
        classes: Seq::empty(),
        id_attr: None,
        custom_tag: None,
        flags: 0,
        touchable: touchable,
        draggable: false,
        tabindex: None,
        reuse_key: 0,
        rich_text_block: false,
        display_override: None,
    }
}

/// Builds the node of `fresh_node`.
pub(crate) fn make_node(kind: NodeKind, touchable: bool, clipped: bool) -> (r: Node)
    ensures
        r@ == fresh_node(kind, touchable, clipped),
{
    let r = Node {
        id: NodeId::invalid(),
        parent: None,
        kind,
        children: Vec::new(),
        clipped,
        dirty_mesh: true,
        dirty_text: kind == NodeKind::TextNode,
        classes: Vec::new(),
        id_attr: None,
        custom_tag: None,
        interaction: NodeInteraction {
            flags: NodeFlags::empty(),
            touchable,
            draggable: false,
            tabindex: None,
        },
        reuse_key: 0,
        rich_text_block: false,
        display_override: None,
    };
    proof {
        assert(r.classes@.map_values(|s: String| s@) =~= Seq::<Seq<char>>::empty());
    }
    r
}

/// The scene: node storage and the per-node side tables.
pub struct Scene {
    pub roots: Vec<NodeId>,
    pub nodes: NodeStore,
    /// The single focused node, if any.
    pub focused_node: Option<NodeId>,
    /// Role / data-slot lookup table.
    pub roles: RoleTable,
    /// Control state of the control nodes.
    pub controls: ControlTable,
    /// Content of text nodes, keyed by raw handle.
    pub text_contents: HashMap<u64, String>,
    /// Source paths of image nodes, keyed by raw handle.
    pub image_srcs: HashMap<u64, String>,
}

impl Scene {
    /// The stored nodes by key.
    pub open spec fn slots(&self) -> Map<u64, Node> {
        node_slots(self.nodes)
    }

    /// Abstract node map: key to node view.
    pub open spec fn view_nodes(&self) -> Map<u64, NodeView> {
        node_slots(self.nodes).map_values(|n: Node| n@)
    }

    /// Whether the handle denotes a live node.
    pub open spec fn live(&self, id: NodeId) -> bool {
        self.view_nodes().contains_key(norm_key(id.0))
    }

    /// View of the node a live handle denotes.
    pub open spec fn node(&self, id: NodeId) -> NodeView {
        self.view_nodes()[norm_key(id.0)]
    }

    /// Well-formed scene: a sane store whose links are consistent (`links_ok`).
    pub open spec fn wf(&self) -> bool {
        &&& store_sane(self.nodes)
        &&& self.links_ok()
    }

    /// Every live node records its own (normalized) handle; each child listed by a node is
    /// live and names that node as its parent; each node's parent is live and lists it among
    /// its children.
    #[verifier::opaque]
    pub open spec fn links_ok(&self) -> bool {
        &&& forall|k: u64| #[trigger] self.slots().contains_key(k) ==> norm_key(k) == k
            && self.slots()[k].id.0 == k
        &&& forall|k: u64, i: int|
            self.slots().contains_key(k) && 0 <= i < self.slots()[k].children@.len() ==> {
                let c = #[trigger] self.slots()[k].children@[i];
                &&& self.slots().contains_key(c.0)
                &&& self.slots()[c.0].parent == Some(NodeId(k))
            }
        &&& forall|k: u64| #[trigger] self.slots().contains_key(k) ==> match self.slots()[k].parent {
            Some(p) => self.slots().contains_key(p.0) && self.slots()[p.0].children@.contains(
                NodeId(k),
            ),
            None => true,
        }
    }

    /// Room for another node (the slot map caps its slot count at `u32::MAX`).
    pub open spec fn has_room(&self) -> bool {
        slot_span(self.nodes) < u32::MAX
    }

    /// An empty scene.
    pub fn new() -> (r: Scene)
        ensures
            r.wf(),
            r.view_nodes().dom() == Set::<u64>::empty(),
            r.roots@ == Seq::<NodeId>::empty(),
            r.focused_node is None,
            r.roles@ == Map::<u64, crate::node::RoleInfo>::empty(),
            r.controls@ == Map::<u64, ControlState>::empty(),
            r.text_contents@ == Map::<u64, String>::empty(),
            r.image_srcs@ == Map::<u64, String>::empty(),
            slot_span(r.nodes) == 1,
    {
        reveal(Scene::links_ok);
        let r = Scene {
            roots: Vec::new(),
            nodes: slots_new(),
            focused_node: None,
            roles: RoleTable::new(),
            controls: ControlTable::new(),
            text_contents: HashMap::new(),
            image_srcs: HashMap::new(),
        };
        assert(r.slots() =~= Map::empty());
        r
    }

    /// The node a handle denotes (`None` when the handle is dead or was never issued).
    pub fn get(&self, id: NodeId) -> (r: Option<&Node>)
        ensures
            match r {
                Some(n) => self.live(id) && *n == self.slots()[norm_key(id.0)],
                None => !self.live(id),
            },
    {
        slots_get(&self.nodes, id.0)
    }

    /// Mutable access to the node a handle denotes; writes land in that node.
    pub fn get_mut(&mut self, id: NodeId) -> (r: Option<&mut Node>)
        requires
            store_sane(old(self).nodes),
        ensures
            store_sane(final(self).nodes),
            match r {
                Some(n) => old(self).live(id) && *n == old(self).slots()[norm_key(id.0)]
                    && final(self).slots() == old(self).slots().insert(norm_key(id.0), *final(n)),
                None => !old(self).live(id) && final(self).slots() == old(self).slots(),
            },
            slot_span(final(self).nodes) == slot_span(old(self).nodes),
            final(self).roots == old(self).roots,
            final(self).focused_node == old(self).focused_node,
            final(self).roles == old(self).roles,
            final(self).controls == old(self).controls,
            final(self).text_contents == old(self).text_contents,
            final(self).image_srcs == old(self).image_srcs,
    {
        slots_get_mut(&mut self.nodes, id.0)
    }
}

impl Scene {
    /// The node a live handle denotes. `site` names the calling site; a dead handle is a
    /// caller error.
    pub fn get_live(&self, id: NodeId, site: &str) -> (r: &Node)
        requires
            self.live(id),
        ensures
            *r == self.slots()[norm_key(id.0)],
    {
        slots_get(&self.nodes, id.0).unwrap()
    }

    /// Mutable access to the node a live handle denotes; writes land in that node. `site`
    /// names the calling site; a dead handle is a caller error.
    pub fn get_live_mut(&mut self, id: NodeId, site: &str) -> (r: &mut Node)
        requires
            store_sane(old(self).nodes),
            old(self).live(id),
        ensures
            store_sane(final(self).nodes),
            *r == old(self).slots()[norm_key(id.0)],
            final(self).slots() == old(self).slots().insert(norm_key(id.0), *final(r)),
            slot_span(final(self).nodes) == slot_span(old(self).nodes),
            final(self).roots == old(self).roots,
            final(self).focused_node == old(self).focused_node,
            final(self).roles == old(self).roles,
            final(self).controls == old(self).controls,
            final(self).text_contents == old(self).text_contents,
            final(self).image_srcs == old(self).image_srcs,
    {
        slots_get_mut(&mut self.nodes, id.0).unwrap()
    }
}

impl Scene {
    /// Number of live nodes.
    /// An upper bound, less one, on the number of slots the node store has allocated
    /// (occupied, free and the sentinel): the store's capacity.
    pub fn slot_bound(&self) -> (r: usize)
        ensures
            slot_span(self.nodes) <= r + 1,
    {
        slots_capacity(&self.nodes)
    }

    pub fn node_count(&self) -> (r: usize)
        ensures
            r == self.slots().len(),
    {
        slots_len(&self.nodes)
    }
}

impl Default for Scene {
    /// An empty scene.
    fn default() -> (r: Scene)
        ensures
            r.wf(),
            r.view_nodes().dom() == Set::<u64>::empty(),
            r.roots@ == Seq::<NodeId>::empty(),
            r.focused_node is None,
            r.roles@ == Map::<u64, crate::node::RoleInfo>::empty(),
            r.controls@ == Map::<u64, ControlState>::empty(),
            r.text_contents@ == Map::<u64, String>::empty(),
            r.image_srcs@ == Map::<u64, String>::empty(),
    {
        Scene::new()
    }
}

/// Handle the `i`-th node inserted into a fresh store receives: slot `i + 1`, version 1.
pub open spec fn fresh_handle(i: int) -> u64 {
    (0x1_0000_0001 + i) as u64
}

/// One node of a flat, pre-order node list to build a scene from.
pub struct NodeEntry {
    /// Position of the parent entry (`None` = a root).
    pub parent: Option<usize>,
    pub kind: NodeKind,
    /// Whether the resolved style lets the node receive pointer input.
    pub touchable: bool,
    /// Whether the resolved style clips (overflow other than visible on some axis).
    pub clipped: bool,
    pub classes: Vec<String>,
    pub id_attr: Option<String>,
    pub draggable: bool,
    pub tabindex: Option<i32>,
    /// Text content (text nodes).
    pub content: Option<String>,
    /// Image source (image nodes).
    pub src: Option<String>,
}

/// Handle of the parent of entry `i`.
pub open spec fn entry_parent(entries: Seq<NodeEntry>, i: int) -> Option<NodeId> {
    match entries[i].parent {
        Some(p) => Some(NodeId(fresh_handle(p as int))),
        None => None,
    }
}

/// Whether the entry's parent is entry `i`.
pub open spec fn parent_is(e: NodeEntry, i: int) -> bool {
    e.parent matches Some(p) && p == i
}

/// Handles of the entries among the first `n` whose parent is entry `i`, in entry order.
pub open spec fn entry_children(entries: Seq<NodeEntry>, i: int, n: int) -> Seq<NodeId>
    decreases n,
{
    if n <= 0 {
        Seq::empty()
    } else {
        let rest = entry_children(entries, i, n - 1);
        if parent_is(entries[n - 1], i) {
            rest.push(NodeId(fresh_handle(n - 1)))
        } else {
            rest
        }
    }
}

/// Handles of the parentless entries among the first `n`, in entry order.
pub open spec fn entry_roots(entries: Seq<NodeEntry>, n: int) -> Seq<NodeId>
    decreases n,
{
    if n <= 0 {
        Seq::empty()
    } else {
        let rest = entry_roots(entries, n - 1);
        if entries[n - 1].parent is None {
            rest.push(NodeId(fresh_handle(n - 1)))
        } else {
            rest
        }
    }
}

/// The node built from entry `i` once the links of the first `n` entries are in place.
pub open spec fn entry_node(entries: Seq<NodeEntry>, i: int, n: int) -> NodeView {
    let e = entries[i];
    NodeView {
        id: NodeId(fresh_handle(i)),
        parent: if i < n {
            entry_parent(entries, i)
        } else {
            None
        },
        kind: e.kind,
        children: entry_children(entries, i, n),
        clipped: e.clipped,
        dirty_mesh: true,
        dirty_text: e.kind == NodeKind::TextNode,
        classes: e.classes@.map_values(|s: String| s@),
        id_attr: opt_str_view(e.id_attr),
        custom_tag: None,
        flags: 0,
        touchable: e.touchable,
        draggable: e.draggable,
        tabindex: e.tabindex,
        reuse_key: 0,
        rich_text_block: false,
        display_override: None,
    }
}

/// Text content recorded for a built entry: its content, else empty for a text node.
pub open spec fn entry_text(e: NodeEntry) -> Option<Seq<char>> {
    match e.content {
        Some(c) => Some(c@),
        None => if e.kind == NodeKind::TextNode {
            Some(Seq::empty())
        } else {
            None
        },
    }
}

/// Image source recorded for a built entry: its source, else empty for an image node.
pub open spec fn entry_src(e: NodeEntry) -> Option<Seq<char>> {
    match e.src {
        Some(c) => Some(c@),
        None => if e.kind == NodeKind::Image {
            Some(Seq::empty())
        } else {
            None
        },
    }
}

/// A string table entry as an optional text.
pub open spec fn table_text(m: Map<u64, String>, k: u64) -> Option<Seq<char>> {
    if m.contains_key(k) {
        Some(m[k]@)
    } else {
        None
    }
}

/// Entry lists whose parent positions are in range.
pub open spec fn entries_linked(entries: Seq<NodeEntry>) -> bool {
    forall|i: int|
        0 <= i < entries.len() ==> (#[trigger] entries[i].parent matches Some(p) ==> p
            < entries.len())
}

proof fn lemma_fresh_handle(i: int)
    requires
        0 <= i < 0xFFFF_FFFF,
    ensures
        norm_key(fresh_handle(i)) == fresh_handle(i),
        fresh_handle(i) as int == 0x1_0000_0001 + i,
{
    let x: u64 = (0x1_0000_0001 + i) as u64;
    assert(x == 0x1_0000_0001 + i);
    assert(x | 0x1_0000_0000 == x) by (bit_vector)
        requires
            0x1_0000_0001 <= x < 0x2_0000_0000,
    ;
}

proof fn lemma_entry_child_at(entries: Seq<NodeEntry>, i: int, n: int, j: int) -> (m: int)
    requires
        0 <= n <= entries.len(),
        0 <= j < entry_children(entries, i, n).len(),
    ensures
        0 <= m < n,
        parent_is(entries[m], i),
        entry_children(entries, i, n)[j] == NodeId(fresh_handle(m)),
    decreases n,
{
    let rest = entry_children(entries, i, n - 1);
    if j < rest.len() {
        let m = lemma_entry_child_at(entries, i, n - 1, j);
        if parent_is(entries[n - 1], i) {
            assert(entry_children(entries, i, n) == rest.push(NodeId(fresh_handle(n - 1))));
        }
        m
    } else {
        n - 1
    }
}

proof fn lemma_entry_children_has(entries: Seq<NodeEntry>, i: int, n: int, m: int)
    requires
        0 <= m < n <= entries.len(),
        parent_is(entries[m], i),
    ensures
        entry_children(entries, i, n).contains(NodeId(fresh_handle(m))),
    decreases n,
{
    let rest = entry_children(entries, i, n - 1);
    let cur = entry_children(entries, i, n);
    if m < n - 1 {
        lemma_entry_children_has(entries, i, n - 1, m);
        let j = choose|j: int| 0 <= j < rest.len() && rest[j] == NodeId(fresh_handle(m));
        if parent_is(entries[n - 1], i) {
            assert(cur == rest.push(NodeId(fresh_handle(n - 1))));
            assert(cur[j] == rest[j]);
        }
        assert(cur[j] == NodeId(fresh_handle(m)));
    } else {
        assert(cur[cur.len() - 1] == NodeId(fresh_handle(m)));
    }
}

/// Copy of a list of strings.
pub(crate) fn copy_strings(v: &Vec<String>) -> (r: Vec<String>)
    ensures
        r@ == v@,
{
    let mut r: Vec<String> = Vec::new();
    let mut i: usize = 0;
    while i < v.len()
        invariant
            i <= v@.len(),
            r@ == v@.subrange(0, i as int),
        decreases v@.len() - i,
    {
        r.push(v[i].clone());
        i = i + 1;
    }
    assert(v@.subrange(0, v@.len() as int) =~= v@);
    r
}

/// Copy of an optional string.
pub(crate) fn copy_opt(o: &Option<String>) -> (r: Option<String>)
    ensures
        r == *o,
{
    match o {
        Some(s) => Some(s.clone()),
        None => None,
    }
}

impl Scene {
    /// Builds a scene from a flat entry list: the `i`-th entry becomes the node with handle
    /// `fresh_handle(i)`; entries with a parent are linked under it (children in entry order),
    /// the others become the roots in entry order. Text and image nodes get their content /
    /// source (empty when the entry has none).
    pub fn build(entries: &Vec<NodeEntry>) -> (r: Scene)
        requires
            entries@.len() + 2 < u32::MAX,
            entries_linked(entries@),
        ensures
            r.wf(),
            forall|k: u64|
                r.view_nodes().contains_key(k) <==> 0x1_0000_0001 <= k < 0x1_0000_0001
                    + entries@.len(),
            forall|i: int|
                0 <= i < entries@.len() ==> r.view_nodes()[fresh_handle(i)] == entry_node(
                    entries@,
                    i,
                    entries@.len() as int,
                ),
            r.roots@ == entry_roots(entries@, entries@.len() as int),
            r.focused_node is None,
            r.roles@ == Map::<u64, crate::node::RoleInfo>::empty(),
            r.controls@ == Map::<u64, ControlState>::empty(),
            forall|k: u64| #[trigger]
                r.text_contents@.contains_key(k) ==> r.view_nodes().contains_key(k),
            forall|k: u64| #[trigger]
                r.image_srcs@.contains_key(k) ==> r.view_nodes().contains_key(k),
            forall|i: int|
                0 <= i < entries@.len() ==> table_text(r.text_contents@, #[trigger] fresh_handle(i))
                    == entry_text(entries@[i]) && table_text(r.image_srcs@, fresh_handle(i))
                    == entry_src(entries@[i]),
    {
        let n = entries.len();
        let mut scene = Scene::new();
        let mut ids: Vec<NodeId> = Vec::new();
        let mut i: usize = 0;
        while i < n
            invariant
                n == entries@.len(),
                n + 2 < u32::MAX,
                i <= n,
                store_sane(scene.nodes),
                slot_span(scene.nodes) == i + 1,
                scene.slots().len() == i,
                ids@.len() == i,
                forall|j: int| 0 <= j < i ==> #[trigger] ids@[j] == NodeId(fresh_handle(j)),
                forall|k: u64|
                    scene.slots().contains_key(k) <==> 0x1_0000_0001 <= k < 0x1_0000_0001 + i,
                forall|j: int|
                    0 <= j < i ==> (#[trigger] scene.slots()[fresh_handle(j)])@ == entry_node(
                        entries@,
                        j,
                        0,
                    ),
                scene.roots@ == Seq::<NodeId>::empty(),
                scene.focused_node is None,
                scene.roles@ == Map::<u64, crate::node::RoleInfo>::empty(),
                scene.controls@ == Map::<u64, ControlState>::empty(),
                forall|k: u64| #[trigger]
                    scene.text_contents@.contains_key(k) ==> scene.slots().contains_key(k),
                forall|k: u64| #[trigger]
                    scene.image_srcs@.contains_key(k) ==> scene.slots().contains_key(k),
                forall|j: int|
                    0 <= j < i ==> table_text(scene.text_contents@, #[trigger] fresh_handle(j))
                        == entry_text(entries@[j]) && table_text(scene.image_srcs@, fresh_handle(j))
                        == entry_src(entries@[j]),
            decreases n - i,
        {
            let e = &entries[i];
            let mut node = make_node(e.kind, e.touchable, e.clipped);
            node.classes = copy_strings(&e.classes);
            node.id_attr = copy_opt(&e.id_attr);
            node.interaction.draggable = e.draggable;
            node.interaction.tabindex = e.tabindex;
            let ghost before = scene.slots();
            let k = slots_insert(&mut scene.nodes, node);
            proof {
                lemma_fresh_handle(i as int);
            }
            assert(k == fresh_handle(i as int));
            let id = NodeId(k);
            match slots_get_mut(&mut scene.nodes, k) {
                Some(n) => {
                    n.id = id;
                },
                None => {},
            }
            if e.kind == NodeKind::TextNode {
                scene.text_contents.insert(k, String::new());
            } else if e.kind == NodeKind::Image {
                scene.image_srcs.insert(k, String::new());
            }
            match &e.content {
                Some(c) => {
                    scene.text_contents.insert(k, c.clone());
                },
                None => {},
            }
            match &e.src {
                Some(c) => {
                    scene.image_srcs.insert(k, c.clone());
                },
                None => {},
            }
            ids.push(id);
            proof {
                assert forall|j: int| 0 <= j < i + 1 implies (#[trigger] scene.slots()[fresh_handle(
                    j,
                )])@ == entry_node(entries@, j, 0) by {
                    lemma_fresh_handle(j);
                    if j < i {
                        assert(fresh_handle(j) != k);
                    } else {
                        assert(scene.slots()[k].classes@.map_values(|s: String| s@)
                            =~= entries@[j].classes@.map_values(|s: String| s@));
                    }
                }
                assert forall|k2: u64|
                    scene.slots().contains_key(k2) <==> 0x1_0000_0001 <= k2 < 0x1_0000_0001 + i
                        + 1 by {
                    if k2 == k {
                    } else {
                        assert(scene.slots().contains_key(k2) == before.contains_key(k2));
                    }
                }
                assert forall|j: int| 0 <= j < i + 1 implies table_text(
                    scene.text_contents@,
                    #[trigger] fresh_handle(j),
                ) == entry_text(entries@[j]) && table_text(scene.image_srcs@, fresh_handle(j))
                    == entry_src(entries@[j]) by {
                    lemma_fresh_handle(j);
                }
            }
            i = i + 1;
        }
        let mut i: usize = 0;
        while i < n
            invariant
                n == entries@.len(),
                n + 2 < u32::MAX,
                entries_linked(entries@),
                i <= n,
                store_sane(scene.nodes),
                ids@.len() == n,
                forall|j: int| 0 <= j < n ==> #[trigger] ids@[j] == NodeId(fresh_handle(j)),
                forall|k: u64|
                    scene.slots().contains_key(k) <==> 0x1_0000_0001 <= k < 0x1_0000_0001 + n,
                forall|j: int|
                    0 <= j < n ==> (#[trigger] scene.slots()[fresh_handle(j)])@ == entry_node(
                        entries@,
                        j,
                        i as int,
                    ),
                scene.roots@ == entry_roots(entries@, i as int),
                scene.focused_node is None,
                scene.roles@ == Map::<u64, crate::node::RoleInfo>::empty(),
                scene.controls@ == Map::<u64, ControlState>::empty(),
                forall|k: u64| #[trigger]
                    scene.text_contents@.contains_key(k) ==> scene.slots().contains_key(k),
                forall|k: u64| #[trigger]
                    scene.image_srcs@.contains_key(k) ==> scene.slots().contains_key(k),
                forall|j: int|
                    0 <= j < n ==> table_text(scene.text_contents@, #[trigger] fresh_handle(j))
                        == entry_text(entries@[j]) && table_text(scene.image_srcs@, fresh_handle(j))
                        == entry_src(entries@[j]),
            decreases n - i,
        {
            let ghost before = scene.slots();
            match entries[i].parent {
                Some(p) => {
                    assert(p < n);
                    let child = ids[i];
                    let parent = ids[p];
                    proof {
                        lemma_fresh_handle(i as int);
                        lemma_fresh_handle(p as int);
                    }
                    match slots_get_mut(&mut scene.nodes, child.0) {
                        Some(c) => {
                            c.parent = Some(parent);
                        },
                        None => {},
                    }
                    match slots_get_mut(&mut scene.nodes, parent.0) {
                        Some(pn) => {
                            pn.children.push(child);
                        },
                        None => {},
                    }
                    proof {
                        assert forall|j: int| 0 <= j < n implies (#[trigger] scene.slots()[fresh_handle(
                            j,
                        )])@ == entry_node(entries@, j, i + 1) by {
                            lemma_fresh_handle(j);
                            assert(entry_children(entries@, j, i + 1) == (if j == p {
                                entry_children(entries@, j, i as int).push(NodeId(fresh_handle(i as int)))
                            } else {
                                entry_children(entries@, j, i as int)
                            }));
                        }
                    }
                },
                None => {
                    scene.roots.push(ids[i]);
                    proof {
                        assert forall|j: int| 0 <= j < n implies (#[trigger] scene.slots()[fresh_handle(
                            j,
                        )])@ == entry_node(entries@, j, i + 1) by {
                            lemma_fresh_handle(j);
                            assert(entry_children(entries@, j, i + 1) == entry_children(
                                entries@,
                                j,
                                i as int,
                            ));
                        }
                    }
                },
            }
            assert forall|k: u64| scene.slots().contains_key(k) <==> 0x1_0000_0001 <= k
                < 0x1_0000_0001 + n by {
                assert(scene.slots().contains_key(k) == before.contains_key(k));
            }
            i = i + 1;
        }
        proof {
            Scene::lemma_built_wf(scene, entries@);
        }
        assert forall|i: int| 0 <= i < n implies scene.view_nodes()[fresh_handle(i)] == entry_node(
            entries@,
            i,
            n as int,
        ) by {
            lemma_fresh_handle(i);
        }
        scene
    }

    proof fn lemma_built_wf(scene: Scene, entries: Seq<NodeEntry>)
        requires
            entries.len() + 2 < u32::MAX,
            entries_linked(entries),
            store_sane(scene.nodes),
            forall|k: u64|
                scene.slots().contains_key(k) <==> 0x1_0000_0001 <= k < 0x1_0000_0001
                    + entries.len(),
            forall|j: int|
                0 <= j < entries.len() ==> (#[trigger] scene.slots()[fresh_handle(j)])@
                    == entry_node(entries, j, entries.len() as int),
        ensures
            scene.wf(),
    {
        reveal(Scene::links_ok);
        let n = entries.len() as int;
        let m = scene.slots();
        assert forall|k: u64| #[trigger] m.contains_key(k) implies norm_key(k) == k && m[k].id.0
            == k by {
            let j = k - 0x1_0000_0001;
            lemma_fresh_handle(j);
            assert(fresh_handle(j) == k);
        }
        assert forall|k: u64, i: int|
            m.contains_key(k) && 0 <= i < m[k].children@.len() implies {
            let c = #[trigger] m[k].children@[i];
            &&& m.contains_key(c.0)
            &&& m[c.0].parent == Some(NodeId(k))
        } by {
            let j = k - 0x1_0000_0001;
            lemma_fresh_handle(j);
            assert(fresh_handle(j) == k);
            let c = m[k].children@[i];
            assert(c == entry_children(entries, j, n)[i]);
            let mm = lemma_entry_child_at(entries, j, n, i);
            lemma_fresh_handle(mm);
            assert(m[fresh_handle(mm)]@ == entry_node(entries, mm, n));
        }
        assert forall|k: u64| #[trigger] m.contains_key(k) implies match m[k].parent {
            Some(p) => m.contains_key(p.0) && m[p.0].children@.contains(NodeId(k)),
            None => true,
        } by {
            let j = k - 0x1_0000_0001;
            lemma_fresh_handle(j);
            assert(fresh_handle(j) == k);
            assert(m[k]@ == entry_node(entries, j, n));
            match entries[j].parent {
                Some(p) => {
                    lemma_fresh_handle(p as int);
                    lemma_entry_children_has(entries, p as int, n, j);
                    assert(m[fresh_handle(p as int)]@ == entry_node(entries, p as int, n));
                },
                None => {},
            }
        }
    }
}

/// The handles of `s` other than `x` (compared as raw values), in order.
pub open spec fn without(s: Seq<NodeId>, x: NodeId) -> Seq<NodeId> {
    s.filter(differs_from(x))
}

/// The test "is another handle than `x`".
pub open spec fn differs_from(x: NodeId) -> spec_fn(NodeId) -> bool {
    |c: NodeId| c != x
}

/// A node view with its child list replaced.
pub open spec fn with_children(v: NodeView, children: Seq<NodeId>) -> NodeView {
    NodeView { children: children, ..v }
}

/// Copy of `v` without the handles equal to `x`.
pub(crate) fn retain_ne(v: &Vec<NodeId>, x: NodeId) -> (r: Vec<NodeId>)
    ensures
        r@ == without(v@, x),
{
    let mut r: Vec<NodeId> = Vec::new();
    let mut i: usize = 0;
    while i < v.len()
        invariant
            i <= v@.len(),
            r@ == without(v@.subrange(0, i as int), x),
        decreases v@.len() - i,
    {
        let c = v[i];
        let ghost pre = v@.subrange(0, i + 1);
        proof {
            assert(pre.drop_last() =~= v@.subrange(0, i as int));
            assert(pre.last() == c);
            assert((c != x) == (c.0 != x.0));
            reveal(Seq::filter);
        }
        if c.0 != x.0 {
            r.push(c);
        }
        i = i + 1;
        proof {
            reveal(Seq::filter);
        }
        assert(r@ == without(pre, x));
    }
    assert(v@.subrange(0, v@.len() as int) =~= v@);
    proof {
        reveal(Seq::filter);
    }
    r
}

/// Link facts that hold while a subtree is being taken apart: live nodes record their own
/// normalized handle, listed children carry normalized handles, and a listed child that is
/// still live names the lister as its parent.
pub open spec fn teardown_ok(s: Scene) -> bool {
    &&& store_sane(s.nodes)
    &&& forall|k: u64| #[trigger] s.slots().contains_key(k) ==> norm_key(k) == k && s.slots()[k].id.0
        == k
    &&& forall|k: u64, i: int|
        s.slots().contains_key(k) && 0 <= i < s.slots()[k].children@.len() ==> {
            let c = #[trigger] s.slots()[k].children@[i];
            &&& norm_key(c.0) == c.0
            &&& s.slots().contains_key(c.0) ==> s.slots()[c.0].parent == Some(NodeId(k))
        }
}

/// Keys whose side-table entries a teardown drops: the removed keys, with the starting node
/// under the handle it was named by.
pub open spec fn erased(r: Set<u64>, id: NodeId) -> Set<u64> {
    r.remove(norm_key(id.0)).insert(id.0)
}

/// The focus after the nodes named by `e` are gone.
pub open spec fn cleared_focus(f: Option<NodeId>, e: Set<u64>) -> Option<NodeId> {
    match f {
        Some(x) => if e.contains(x.0) {
            None
        } else {
            f
        },
        None => None,
    }
}

/// `after` is `before` with the subtree under `id` torn down. With `r` the removed keys:
/// `id`'s node is among them, nothing was added, every other removed node lay below `id`,
/// every child listed by a removed node is gone, every removed node other than `id`'s has a
/// removed parent, the text/image/control entries of the removed nodes are dropped and the focus is
/// cleared if it was on one of them.
pub open spec fn subtree_removed(before: Scene, after: Scene, id: NodeId) -> bool {
    let r = before.slots().dom().difference(after.slots().dom());
    &&& after.slots().dom().subset_of(before.slots().dom())
    &&& r.contains(norm_key(id.0))
    &&& forall|k: u64|
        #[trigger] r.contains(k) ==> k == norm_key(id.0) || below(before, id, NodeId(k), descend_all())
    &&& forall|k: u64, i: int|
        r.contains(k) && 0 <= i < before.slots()[k].children@.len() ==> !after.slots().contains_key(
            norm_key((#[trigger] before.slots()[k].children@[i]).0),
        )
    &&& forall|k: u64|
        #[trigger] r.contains(k) && k != norm_key(id.0) ==> (before.slots()[k].parent matches Some(
            p,
        ) && r.contains(p.0))
    &&& after.text_contents@ == before.text_contents@.remove_keys(erased(r, id))
    &&& after.image_srcs@ == before.image_srcs@.remove_keys(erased(r, id))
    &&& after.controls@ == before.controls@.remove_keys(erased(r, id))
    &&& after.focused_node == cleared_focus(before.focused_node, erased(r, id))
}

pub proof fn lemma_wf_teardown(s: Scene)
    requires
        s.wf(),
    ensures
        teardown_ok(s),
{
    reveal(Scene::links_ok);
    assert forall|k: u64, i: int|
        s.slots().contains_key(k) && 0 <= i < s.slots()[k].children@.len() implies {
        let c = #[trigger] s.slots()[k].children@[i];
        &&& norm_key(c.0) == c.0
        &&& s.slots().contains_key(c.0) ==> s.slots()[c.0].parent == Some(NodeId(k))
    } by {
        let c = s.slots()[k].children@[i];
        assert(s.slots().contains_key(c.0));
    }
}

/// Keys live in `before` and gone in `after`.
pub open spec fn removed(before: Scene, after: Scene) -> Set<u64> {
    before.slots().dom().difference(after.slots().dom())
}

/// A store whose live keys are a subset of another's, missing one of them, holds fewer nodes.
pub proof fn lemma_fewer_nodes(a: Scene, b: Scene, key: u64)
    requires
        store_sane(a.nodes),
        b.slots().dom().subset_of(a.slots().dom()),
        a.slots().contains_key(key),
        !b.slots().contains_key(key),
    ensures
        b.slots().len() < a.slots().len(),
{
    vstd::set_lib::lemma_len_subset(b.slots().dom(), a.slots().dom().remove(key));
}

/// The view of node `k` once the subtree of `id` is gone: `id`'s parent no longer lists it.
pub open spec fn detached_view(before: Scene, id: NodeId, k: u64) -> NodeView {
    if before.node(id).parent == Some(NodeId(k)) {
        with_children(before.view_nodes()[k], without(before.view_nodes()[k].children, id))
    } else {
        before.view_nodes()[k]
    }
}

/// Facts shared by the two halves of `lemma_detached_wf`.
pub open spec fn detached_from(s0: Scene, s3: Scene, id: NodeId) -> bool {
    &&& s0.wf()
    &&& s0.live(id)
    &&& norm_key(id.0) == id.0
    &&& subtree_removed(s0, s3, id)
    &&& store_sane(s3.nodes)
    &&& forall|k: u64| #[trigger]
        s3.slots().contains_key(k) ==> s3.slots()[k].id == s0.slots()[k].id && s3.slots()[k].parent
            == s0.slots()[k].parent && s3.slots()[k].children@ == detached_view(s0, id, k).children
}

proof fn lemma_detached_children(s0: Scene, s3: Scene, id: NodeId)
    requires
        detached_from(s0, s3, id),
    ensures
        forall|k: u64, i: int|
            s3.slots().contains_key(k) && 0 <= i < s3.slots()[k].children@.len() ==> {
                let c = #[trigger] s3.slots()[k].children@[i];
                &&& s3.slots().contains_key(c.0)
                &&& s3.slots()[c.0].parent == Some(NodeId(k))
            },
{
    reveal(Scene::links_ok);
    let r = removed(s0, s3);
    let m0 = s0.slots();
    let m3 = s3.slots();
    assert forall|k: u64, i: int| m3.contains_key(k) && 0 <= i < m3[k].children@.len() implies {
        let c = #[trigger] m3[k].children@[i];
        &&& m3.contains_key(c.0)
        &&& m3[c.0].parent == Some(NodeId(k))
    } by {
        assert(m0.contains_key(k));
        let c = m3[k].children@[i];
        let kids = m0[k].children@;
        if m0[id.0].parent == Some(NodeId(k)) {
            assert(m3[k].children@ == without(kids, id));
            kids.lemma_filter_pred(differs_from(id), i);
            assert(c != id);
            assert(without(kids, id).contains(c));
            kids.lemma_filter_contains_rev(differs_from(id), c);
        } else {
            assert(m3[k].children@ == kids);
            assert(kids.contains(c));
        }
        let j = choose|j: int| 0 <= j < kids.len() && kids[j] == c;
        assert(m0.contains_key(c.0));
        assert(m0[c.0].parent == Some(NodeId(k)));
        if r.contains(c.0) {
            if c.0 == id.0 {
                assert(c == id);
            } else {
                assert(r.contains(k));
            }
        }
        assert(m3.contains_key(c.0));
    }
}

proof fn lemma_detached_parents(s0: Scene, s3: Scene, id: NodeId)
    requires
        detached_from(s0, s3, id),
    ensures
        forall|k: u64| #[trigger] s3.slots().contains_key(k) ==> match s3.slots()[k].parent {
            Some(p) => s3.slots().contains_key(p.0) && s3.slots()[p.0].children@.contains(
                NodeId(k),
            ),
            None => true,
        },
{
    reveal(Scene::links_ok);
    let r = removed(s0, s3);
    let m0 = s0.slots();
    let m3 = s3.slots();
    assert forall|k: u64| #[trigger] m3.contains_key(k) implies match m3[k].parent {
        Some(p) => m3.contains_key(p.0) && m3[p.0].children@.contains(NodeId(k)),
        None => true,
    } by {
        assert(m0.contains_key(k));
        match m0[k].parent {
            Some(p) => {
                let kids = m0[p.0].children@;
                assert(m0.contains_key(p.0));
                assert(kids.contains(NodeId(k)));
                let j = choose|j: int| 0 <= j < kids.len() && kids[j] == NodeId(k);
                if r.contains(p.0) {
                    assert(!m3.contains_key(norm_key(kids[j].0)));
                }
                assert(m3.contains_key(p.0));
                if m0[id.0].parent == Some(NodeId(p.0)) {
                    assert(NodeId(k) != id);
                    kids.lemma_filter_contains(differs_from(id), j);
                    assert(without(kids, id).contains(NodeId(k)));
                }
            },
            None => {},
        }
    }
}

/// After a well-formed scene loses the subtree of a normalized handle and the parent's link to
/// it, the scene is well-formed again.
pub proof fn lemma_detached_wf(s0: Scene, s3: Scene, id: NodeId)
    requires
        detached_from(s0, s3, id),
    ensures
        s3.wf(),
{
    reveal(Scene::links_ok);
    assert forall|k: u64| #[trigger] s3.slots().contains_key(k) implies norm_key(k) == k
        && s3.slots()[k].id.0 == k by {
        assert(s0.slots().contains_key(k));
    }
    lemma_detached_children(s0, s3, id);
    lemma_detached_parents(s0, s3, id);
}

/// The node views are the views of the stored nodes, key for key.
pub proof fn lemma_view_nodes(s: Scene)
    ensures
        forall|k: u64| #[trigger] s.view_nodes().contains_key(k) == s.slots().contains_key(k),
        forall|k: u64| #[trigger] s.slots().contains_key(k) ==> s.view_nodes()[k] == s.slots()[k]@,
{
}

/// A scene whose nodes keep their handles and links while other fields change stays
/// well-formed.
pub proof fn lemma_same_links(s0: Scene, s1: Scene)
    requires
        s0.wf(),
        store_sane(s1.nodes),
        s1.slots().dom() == s0.slots().dom(),
        forall|k: u64| #[trigger]
            s1.slots().contains_key(k) ==> s1.slots()[k].id == s0.slots()[k].id
                && s1.slots()[k].parent == s0.slots()[k].parent && s1.slots()[k].children@
                == s0.slots()[k].children@,
    ensures
        s1.wf(),
{
    reveal(Scene::links_ok);
    let m0 = s0.slots();
    let m1 = s1.slots();
    assert forall|k: u64| #[trigger] m1.contains_key(k) implies norm_key(k) == k && m1[k].id.0
        == k by {
        assert(m0.contains_key(k));
    }
    assert forall|k: u64, i: int| m1.contains_key(k) && 0 <= i < m1[k].children@.len() implies {
        let c = #[trigger] m1[k].children@[i];
        &&& m1.contains_key(c.0)
        &&& m1[c.0].parent == Some(NodeId(k))
    } by {
        assert(m0.contains_key(k));
        let c = m1[k].children@[i];
        assert(c == m0[k].children@[i]);
        assert(m0.contains_key(c.0));
    }
    assert forall|k: u64| #[trigger] m1.contains_key(k) implies match m1[k].parent {
        Some(p) => m1.contains_key(p.0) && m1[p.0].children@.contains(NodeId(k)),
        None => true,
    } by {
        assert(m0.contains_key(k));
        match m0[k].parent {
            Some(p) => {
                assert(m0.contains_key(p.0));
                assert(m1[p.0].children@ == m0[p.0].children@);
            },
            None => {},
        }
    }
}

/// In a well-formed scene the parent of a live node is live.
pub proof fn lemma_parent_live(s: Scene, id: NodeId)
    requires
        s.wf(),
        s.live(id),
    ensures
        s.node(id).parent matches Some(p) ==> s.live(p) && norm_key(p.0) == p.0,
{
    reveal(Scene::links_ok);
    let k = norm_key(id.0);
    match s.slots()[k].parent {
        Some(p) => {
            assert(s.slots().contains_key(p.0));
        },
        None => {},
    }
}

/// Whether node `k` is live with id attribute `id`.
pub open spec fn id_matches(s: Scene, k: u64, id: Seq<char>) -> bool {
    s.slots().contains_key(k) && opt_str_view(s.slots()[k].id_attr) == Some(id)
}

/// Whether the optional string holds `s`.
fn opt_is(o: &Option<String>, s: &str) -> (r: bool)
    ensures
        r == (opt_str_view(*o) == Some(s@)),
{
    match o {
        Some(v) => crate::strs::str_eq(v.as_str(), s),
        None => false,
    }
}

impl Scene {
    /// The live node whose id attribute is `id`, the one in the lowest slot when several are
    /// (`None` when there is none).
    #[verifier::rlimit(40)]
    pub fn find_by_id_attr(&self, id: &str) -> (r: Option<NodeId>)
        requires
            self.wf(),
        ensures
            match r {
                Some(n) => id_matches(*self, n.0, id@) && forall|k: u64|
                    #[trigger] id_matches(*self, k, id@) ==> handle_index(n.0) <= handle_index(k),
                None => forall|k: u64| !#[trigger] id_matches(*self, k, id@),
            },
    {
        proof {
            reveal(Scene::links_ok);
        }
        let keys = slots_keys(&self.nodes);
        let mut i: usize = 0;
        while i < keys.len()
            invariant
                self.wf(),
                i <= keys@.len(),
                forall|j: int| 0 <= j < keys@.len() ==> self.slots().contains_key(#[trigger] keys@[j]),
                forall|k: u64| self.slots().contains_key(k) ==> keys@.contains(k),
                forall|a: int, b: int|
                    0 <= a < b < keys@.len() ==> (#[trigger] keys@[a]) as int % 0x1_0000_0000 < (
                    #[trigger] keys@[b]) as int % 0x1_0000_0000,
                forall|j: int| 0 <= j < i ==> !id_matches(*self, #[trigger] keys@[j], id@),
            decreases keys@.len() - i,
        {
            let k = keys[i];
            match slots_get(&self.nodes, k) {
                Some(n) => {
                    if opt_is(&n.id_attr, id) {
                        proof {
                            reveal(Scene::links_ok);
                            assert(norm_key(k) == k);
                            assert(id_matches(*self, k, id@));
                            assert forall|kk: u64| #[trigger] id_matches(*self, kk, id@) implies handle_index(
                                n.id.0,
                            ) <= handle_index(kk) by {
                                assert(keys@.contains(kk));
                                let b = choose|b: int| 0 <= b < keys@.len() && keys@[b] == kk;
                                if b < i {
                                } else if b > i {
                                    assert(keys@[i as int] as int % 0x1_0000_0000 < keys@[b] as int
                                        % 0x1_0000_0000);
                                }
                            }
                        }
                        return Some(n.id);
                    }
                },
                None => {},
            }
            proof {
                reveal(Scene::links_ok);
                assert(norm_key(k) == k);
            }
            i = i + 1;
        }
        proof {
            assert forall|k: u64| !#[trigger] id_matches(*self, k, id@) by {
                if id_matches(*self, k, id@) {
                    assert(keys@.contains(k));
                }
            }
        }
        None
    }
}

/// `p` is a downward path from `root`: `p[0]` is a child of `root`, and each further step
/// goes from a live node that `through` lets a search descend into to one of its children.
pub open spec fn is_path(s: Scene, root: NodeId, p: Seq<NodeId>, through: spec_fn(NodeId) -> bool) -> bool {
    &&& p.len() > 0
    &&& s.live(root)
    &&& s.node(root).children.contains(p[0])
    &&& forall|i: int|
        0 <= i < p.len() - 1 ==> s.live(#[trigger] p[i]) && through(p[i]) && s.node(
            p[i],
        ).children.contains(p[i + 1])
}

/// `x` lies below `root` along a path that only descends through nodes `through` accepts
/// (`root` itself is not below itself unless a path leads back to it).
pub open spec fn below(s: Scene, root: NodeId, x: NodeId, through: spec_fn(NodeId) -> bool) -> bool {
    exists|p: Seq<NodeId>| #[trigger] is_path(s, root, p, through) && p.last() == x
}

/// Descending into every node.
pub open spec fn descend_all() -> spec_fn(NodeId) -> bool {
    |y: NodeId| true
}

/// A path in a scene stays a path in a larger scene holding the same nodes.
pub proof fn lemma_below_mono(
    small: Scene,
    big: Scene,
    root: NodeId,
    x: NodeId,
    through: spec_fn(NodeId) -> bool,
)
    requires
        forall|k: u64| #[trigger]
            small.slots().contains_key(k) ==> big.slots().contains_key(k) && big.slots()[k]
                == small.slots()[k],
        below(small, root, x, through),
    ensures
        below(big, root, x, through),
{
    let p = choose|p: Seq<NodeId>| #[trigger] is_path(small, root, p, through) && p.last() == x;
    assert forall|i: int| 0 <= i < p.len() - 1 implies big.live(#[trigger] p[i]) && through(p[i])
        && big.node(p[i]).children.contains(p[i + 1]) by {
        assert(small.live(p[i]));
        let k = norm_key(p[i].0);
        assert(small.slots().contains_key(k));
        assert(big.slots()[k] == small.slots()[k]);
    }
    let kr = norm_key(root.0);
    assert(small.slots().contains_key(kr));
    assert(big.slots()[kr] == small.slots()[kr]);
    assert(is_path(big, root, p, through));
}

/// What lies below a child `c` of `a` (that the search descends into) lies below `a`.
pub proof fn lemma_below_trans(
    s: Scene,
    a: NodeId,
    c: NodeId,
    x: NodeId,
    through: spec_fn(NodeId) -> bool,
)
    requires
        s.live(a),
        s.node(a).children.contains(c),
        through(c),
        below(s, c, x, through),
    ensures
        below(s, a, x, through),
{
    let p = choose|p: Seq<NodeId>| #[trigger] is_path(s, c, p, through) && p.last() == x;
    let q = seq![c] + p;
    assert forall|i: int| 0 <= i < q.len() - 1 implies s.live(#[trigger] q[i]) && through(q[i])
        && s.node(q[i]).children.contains(q[i + 1]) by {
        if i == 0 {
            assert(q[0] == c);
            assert(q[1] == p[0]);
        } else {
            assert(q[i] == p[i - 1]);
            assert(q[i + 1] == p[i]);
        }
    }
    assert(q[0] == c);
    assert(q.last() == x);
    assert(is_path(s, a, q, through));
}

/// Every child listed by `root` is below it.
pub proof fn lemma_below_child(s: Scene, root: NodeId, x: NodeId, through: spec_fn(NodeId) -> bool)
    requires
        s.live(root),
        s.node(root).children.contains(x),
    ensures
        below(s, root, x, through),
{
    let p = seq![x];
    assert(is_path(s, root, p, through));
}

/// A child of a live node below `root` that the search descends into is below `root`.
pub proof fn lemma_below_step(
    s: Scene,
    root: NodeId,
    y: NodeId,
    x: NodeId,
    through: spec_fn(NodeId) -> bool,
)
    requires
        below(s, root, y, through),
        s.live(y),
        through(y),
        s.node(y).children.contains(x),
    ensures
        below(s, root, x, through),
{
    let p = choose|p: Seq<NodeId>| #[trigger] is_path(s, root, p, through) && p.last() == y;
    let q = p.push(x);
    assert forall|i: int| 0 <= i < q.len() - 1 implies s.live(#[trigger] q[i]) && through(q[i])
        && s.node(q[i]).children.contains(q[i + 1]) by {
        if i < p.len() - 1 {
            assert(q[i] == p[i]);
            assert(q[i + 1] == p[i + 1]);
        } else {
            assert(q[i] == y);
            assert(q[i + 1] == x);
        }
    }
    assert(is_path(s, root, q, through));
}

/// A set of handles holding every child of `root`, and every child of each of its live
/// members the search descends into, holds everything below `root`.
pub proof fn lemma_closed_covers(
    s: Scene,
    root: NodeId,
    through: spec_fn(NodeId) -> bool,
    v: Set<u64>,
    x: NodeId,
)
    requires
        s.live(root),
        forall|j: int|
            0 <= j < s.node(root).children.len() ==> v.contains((#[trigger] s.node(root).children[j]).0),
        forall|y: NodeId, j: int|
            v.contains(y.0) && s.live(y) && through(y) && 0 <= j < s.node(y).children.len()
                ==> v.contains((#[trigger] s.node(y).children[j]).0),
        below(s, root, x, through),
    ensures
        v.contains(x.0),
{
    let p = choose|p: Seq<NodeId>| #[trigger] is_path(s, root, p, through) && p.last() == x;
    lemma_path_covered(s, root, through, v, p, p.len() - 1);
}

proof fn lemma_path_covered(
    s: Scene,
    root: NodeId,
    through: spec_fn(NodeId) -> bool,
    v: Set<u64>,
    p: Seq<NodeId>,
    i: int,
)
    requires
        s.live(root),
        forall|j: int|
            0 <= j < s.node(root).children.len() ==> v.contains((#[trigger] s.node(root).children[j]).0),
        forall|y: NodeId, j: int|
            v.contains(y.0) && s.live(y) && through(y) && 0 <= j < s.node(y).children.len()
                ==> v.contains((#[trigger] s.node(y).children[j]).0),
        is_path(s, root, p, through),
        0 <= i < p.len(),
    ensures
        v.contains(p[i].0),
    decreases i,
{
    if i == 0 {
        let j = choose|j: int| 0 <= j < s.node(root).children.len() && s.node(root).children[j] == p[0];
    } else {
        lemma_path_covered(s, root, through, v, p, i - 1);
        let y = p[i - 1];
        assert(s.live(y) && through(y) && s.node(y).children.contains(p[i]));
        let j = choose|j: int| 0 <= j < s.node(y).children.len() && s.node(y).children[j] == p[i];
    }
}

/// Marking one more live key as visited leaves fewer unvisited live keys.
pub proof fn lemma_unvisited_shrinks(s: Scene, visited: Set<u64>, k: u64)
    requires
        s.slots().dom().finite(),
        s.slots().contains_key(k),
        !visited.contains(k),
    ensures
        s.slots().dom().difference(visited.insert(k)).len() < s.slots().dom().difference(
            visited,
        ).len(),
{
    let d = s.slots().dom().difference(visited);
    vstd::set_lib::lemma_len_subset(d, s.slots().dom());
    assert(s.slots().dom().difference(visited.insert(k)) =~= d.remove(k));
}

/// Pushes the children of a node onto the stack, last child first (so the first child is
/// popped first).
pub(crate) fn push_children_reversed(stack: &mut Vec<NodeId>, kids: &Vec<NodeId>)
    ensures
        final(stack)@.len() == old(stack)@.len() + kids@.len(),
        final(stack)@.subrange(0, old(stack)@.len() as int) == old(stack)@,
        forall|m: int| 0 <= m < kids@.len() ==> final(stack)@.contains(#[trigger] kids@[m]),
        forall|i: int|
            old(stack)@.len() <= i < final(stack)@.len() ==> kids@.contains(#[trigger] final(stack)@[i]),
        final(stack)@ == old(stack)@ + kids@.reverse(),
{
    let ghost base = stack@;
    let mut j: usize = kids.len();
    while j > 0
        invariant
            j <= kids@.len(),
            stack@.len() == base.len() + (kids@.len() - j),
            stack@.subrange(0, base.len() as int) == base,
            forall|m: int| j <= m < kids@.len() ==> stack@.contains(#[trigger] kids@[m]),
            forall|i: int| base.len() <= i < stack@.len() ==> kids@.contains(#[trigger] stack@[i]),
            forall|i: int|
                base.len() <= i < stack@.len() ==> #[trigger] stack@[i] == kids@[kids@.len() - 1 - (i
                    - base.len())],
        decreases j,
    {
        j = j - 1;
        let ghost before = stack@;
        stack.push(kids[j]);
        proof {
            assert(stack@.subrange(0, base.len() as int) =~= before.subrange(0, base.len() as int));
            assert(stack@[stack@.len() - 1] == kids@[j as int]);
            assert forall|i: int| base.len() <= i < stack@.len() implies #[trigger] stack@[i]
                == kids@[kids@.len() - 1 - (i - base.len())] by {
                if i < before.len() {
                    assert(stack@[i] == before[i]);
                }
            }
            assert forall|m: int| j <= m < kids@.len() implies stack@.contains(#[trigger] kids@[m]) by {
                if m == j {
                    assert(stack@[stack@.len() - 1] == kids@[m]);
                } else {
                    let i = choose|i: int| 0 <= i < before.len() && before[i] == kids@[m];
                    assert(stack@[i] == kids@[m]);
                }
            }
            assert forall|i: int| base.len() <= i < stack@.len() implies kids@.contains(
                #[trigger] stack@[i],
            ) by {
                if i < before.len() {
                    assert(stack@[i] == before[i]);
                } else {
                    assert(stack@[i] == kids@[j as int]);
                }
            }
        }
    }
    proof {
        let rk = kids@.reverse();
        assert(rk.len() == kids@.len());
        assert forall|i: int| 0 <= i < stack@.len() implies #[trigger] stack@[i] == (base + rk)[i] by {
            if i < base.len() {
                assert(stack@[i] == stack@.subrange(0, base.len() as int)[i]);
            } else {
                assert(rk[i - base.len()] == kids@[kids@.len() - 1 - (i - base.len())]);
            }
        }
        assert(stack@ =~= base + rk);
    }
}

/// Facts kept by a depth-first search below `root`: visited handles are live, normalized and
/// rejected by `found`; every child of `root`, and every child of a visited node the search
/// descends into, is visited or still on the stack; everything on the stack lies below `root`.
pub open spec fn search_state(
    s: Scene,
    root: NodeId,
    through: spec_fn(NodeId) -> bool,
    found: spec_fn(NodeId) -> bool,
    visited: Set<u64>,
    stack: Seq<NodeId>,
) -> bool {
    &&& s.wf()
    &&& s.live(root)
    &&& forall|v: u64| #[trigger]
        visited.contains(v) ==> s.slots().contains_key(v) && norm_key(v) == v && !found(NodeId(v))
    &&& forall|j: int|
        0 <= j < s.node(root).children.len() ==> visited.contains(
            (#[trigger] s.node(root).children[j]).0,
        ) || stack.contains(s.node(root).children[j])
    &&& forall|y: NodeId, j: int|
        visited.contains(y.0) && s.live(y) && through(y) && 0 <= j < s.node(y).children.len()
            ==> visited.contains((#[trigger] s.node(y).children[j]).0) || stack.contains(
            s.node(y).children[j],
        )
    &&& forall|i: int| 0 <= i < stack.len() ==> below(s, root, #[trigger] stack[i], through)
}

/// The first node `found` accepts in a depth-first pre-order walk that takes handles from the
/// end of `stack`: a handle already in `visited`, or of no live node, is passed over; a
/// rejected node is marked visited and, when `through` accepts it, its children are walked
/// next, first child first.
pub open spec fn dfs_first(
    s: Scene,
    stack: Seq<NodeId>,
    visited: Set<u64>,
    through: spec_fn(NodeId) -> bool,
    found: spec_fn(NodeId) -> bool,
) -> Option<NodeId>
    decreases s.slots().dom().difference(visited).len(), stack.len(),
    when s.slots().dom().finite()
{
    if stack.len() == 0 {
        None
    } else {
        let x = stack.last();
        if visited.contains(x.0) || !s.slots().contains_key(x.0) {
            dfs_first(s, stack.drop_last(), visited, through, found)
        } else if found(x) {
            Some(x)
        } else {
            proof {
                lemma_unvisited_shrinks(s, visited, x.0);
            }
            dfs_first(
                s,
                if through(x) {
                    stack.drop_last() + s.node(x).children.reverse()
                } else {
                    stack.drop_last()
                },
                visited.insert(x.0),
                through,
                found,
            )
        }
    }
}

/// The first node `found` accepts in depth-first pre-order below `root` (`root` excluded),
/// descending only through nodes `through` accepts and looking at each node once; `None`
/// for a dead `root`.
pub open spec fn first_below(
    s: Scene,
    root: NodeId,
    through: spec_fn(NodeId) -> bool,
    found: spec_fn(NodeId) -> bool,
) -> Option<NodeId> {
    if s.live(root) {
        dfs_first(s, s.node(root).children.reverse(), Set::empty(), through, found)
    } else {
        None
    }
}

/// A handle below `root` in a well-formed scene is the key of a live node.
#[verifier::rlimit(40)]
pub proof fn lemma_below_live(s: Scene, root: NodeId, x: NodeId, through: spec_fn(NodeId) -> bool)
    requires
        s.wf(),
        below(s, root, x, through),
    ensures
        s.slots().contains_key(x.0),
        norm_key(x.0) == x.0,
{
    reveal(Scene::links_ok);
    let p = choose|p: Seq<NodeId>| #[trigger] is_path(s, root, p, through) && p.last() == x;
    let parent = if p.len() == 1 {
        root
    } else {
        p[p.len() - 2]
    };
    assert(s.live(parent) && s.node(parent).children.contains(x));
    let k = norm_key(parent.0);
    let j = choose|j: int| 0 <= j < s.slots()[k].children@.len() && s.slots()[k].children@[j] == x;
    assert(s.slots().contains_key(s.slots()[k].children@[j].0));
}

/// Popping the top of the stack keeps what the rest of the search needs when the popped
/// handle is already visited.
pub proof fn lemma_pop_visited(
    s: Scene,
    root: NodeId,
    through: spec_fn(NodeId) -> bool,
    found: spec_fn(NodeId) -> bool,
    visited: Set<u64>,
    stack: Seq<NodeId>,
)
    requires
        search_state(s, root, through, found, visited, stack),
        stack.len() > 0,
        visited.contains(stack.last().0),
    ensures
        search_state(s, root, through, found, visited, stack.drop_last()),
{
    let x = stack.last();
    let rest = stack.drop_last();
    assert forall|c: NodeId| stack.contains(c) implies visited.contains(c.0) || rest.contains(c) by {
        let i = choose|i: int| 0 <= i < stack.len() && stack[i] == c;
        if i < stack.len() - 1 {
            assert(rest[i] == c);
        }
    }
}

/// Visiting the popped handle `x` (live, rejected by `found`) and pushing its children keeps
/// the search state.
pub proof fn lemma_pop_expand(
    s: Scene,
    root: NodeId,
    through: spec_fn(NodeId) -> bool,
    found: spec_fn(NodeId) -> bool,
    visited: Set<u64>,
    stack: Seq<NodeId>,
    next: Seq<NodeId>,
)
    requires
        search_state(s, root, through, found, visited, stack),
        stack.len() > 0,
        !visited.contains(stack.last().0),
        !found(stack.last()),
        s.live(stack.last()),
        through(stack.last()) ==> {
            &&& next.subrange(0, stack.len() - 1) == stack.drop_last()
            &&& forall|m: int|
                0 <= m < s.node(stack.last()).children.len() ==> next.contains(
                    #[trigger] s.node(stack.last()).children[m],
                )
            &&& forall|i: int|
                stack.len() - 1 <= i < next.len() ==> s.node(stack.last()).children.contains(
                    #[trigger] next[i],
                )
            &&& next.len() >= stack.len() - 1
        },
        !through(stack.last()) ==> next == stack.drop_last(),
    ensures
        search_state(s, root, through, found, visited.insert(stack.last().0), next),
{
    let x = stack.last();
    let rest = stack.drop_last();
    let v2 = visited.insert(x.0);
    lemma_below_live(s, root, x, through);
    assert(below(s, root, x, through));
    assert forall|c: NodeId| stack.contains(c) implies v2.contains(c.0) || next.contains(c) by {
        let i = choose|i: int| 0 <= i < stack.len() && stack[i] == c;
        if i < stack.len() - 1 {
            assert(rest[i] == c);
            assert(next[i] == c);
        }
    }
    assert forall|v: u64| #[trigger] v2.contains(v) implies s.slots().contains_key(v) && norm_key(v)
        == v && !found(NodeId(v)) by {
        if v == x.0 {
            assert(NodeId(v) == x);
        }
    }
    assert forall|y: NodeId, j: int|
        v2.contains(y.0) && s.live(y) && through(y) && 0 <= j < s.node(y).children.len() implies v2.contains(
        (#[trigger] s.node(y).children[j]).0,
    ) || next.contains(s.node(y).children[j]) by {
        if y.0 == x.0 {
            assert(y == x);
            assert(next.contains(s.node(x).children[j]));
        } else {
            assert(visited.contains(y.0));
            let c = s.node(y).children[j];
            assert(visited.contains(c.0) || stack.contains(c));
        }
    }
    assert forall|i: int| 0 <= i < next.len() implies below(s, root, #[trigger] next[i], through) by {
        if i < stack.len() - 1 {
            assert(next[i] == rest[i]);
            assert(rest[i] == stack[i]);
        } else {
            assert(through(x));
            lemma_below_step(s, root, x, next[i], through);
        }
    }
}

/// Descending past nodes that are not id-lookup scope roots (a scope root is checked itself
/// but its subtree belongs to its own scope).
pub open spec fn outside_lookup_scopes(s: Scene) -> spec_fn(NodeId) -> bool {
    |y: NodeId| s.node(y).flags & FLAG_LOOKUP_SCOPE == 0
}

/// Whether a node carries id attribute `id`.
pub open spec fn has_id(s: Scene, id: Seq<char>) -> spec_fn(NodeId) -> bool {
    |x: NodeId| id_matches(s, x.0, id)
}

/// What `find_node_by_id_in_subtree` answers: the first node in depth-first pre-order below
/// `root` (not descending into nested lookup scopes) with id attribute `id`, so a node below
/// `root` with that id, or `None` when there is none.
pub open spec fn subtree_answer(s: Scene, root: NodeId, id: Seq<char>, r: Option<NodeId>) -> bool {
    &&& r == first_below(s, root, outside_lookup_scopes(s), has_id(s, id))
    &&& match r {
        Some(x) => below(s, root, x, outside_lookup_scopes(s)) && id_matches(s, x.0, id),
        None => !s.live(root) || forall|x: NodeId|
            #[trigger] below(s, root, x, outside_lookup_scopes(s)) ==> !id_matches(s, x.0, id),
    }
}

/// What `find_by_id_attr` answers: the live node with id attribute `id` in the lowest slot,
/// or `None` when there is none.
pub open spec fn global_answer(s: Scene, id: Seq<char>, r: Option<NodeId>) -> bool {
    match r {
        Some(n) => id_matches(s, n.0, id) && forall|k: u64|
            #[trigger] id_matches(s, k, id) ==> handle_index(n.0) <= handle_index(k),
        None => forall|k: u64| !#[trigger] id_matches(s, k, id),
    }
}

/// Walking up from `cur` (inclusive) through live nodes: the first node satisfying `pred`,
/// looking at `fuel + 1` nodes at most. `None` when the walk meets a dead handle, passes the
/// top, or runs out of fuel first.
pub open spec fn nearest_up(s: Scene, cur: Option<NodeId>, pred: spec_fn(NodeId) -> bool, fuel: nat) -> Option<NodeId>
    decreases fuel,
{
    match cur {
        None => None,
        Some(x) => if !s.live(x) {
            None
        } else if pred(x) {
            Some(x)
        } else if fuel == 0 {
            None
        } else {
            nearest_up(s, s.node(x).parent, pred, (fuel - 1) as nat)
        },
    }
}

/// Walking up from `cur` (inclusive): the first handle satisfying `pred`, tested before its
/// liveness; the walk stops at a dead handle or past the top, and looks at `fuel + 1`
/// handles at most.
pub open spec fn control_up(s: Scene, cur: Option<NodeId>, pred: spec_fn(NodeId) -> bool, fuel: nat) -> Option<NodeId>
    decreases fuel,
{
    match cur {
        None => None,
        Some(x) => if pred(x) {
            Some(x)
        } else if !s.live(x) || fuel == 0 {
            None
        } else {
            control_up(s, s.node(x).parent, pred, (fuel - 1) as nat)
        },
    }
}

/// What `nearest_up` finds is live and satisfies the predicate.
pub proof fn lemma_nearest_up(s: Scene, cur: Option<NodeId>, pred: spec_fn(NodeId) -> bool, fuel: nat)
    ensures
        nearest_up(s, cur, pred, fuel) matches Some(x) ==> s.live(x) && pred(x),
    decreases fuel,
{
    if let Some(x) = cur {
        if s.live(x) && !pred(x) && fuel > 0 {
            lemma_nearest_up(s, s.node(x).parent, pred, (fuel - 1) as nat);
        }
    }
}

/// The lookup scope a walk up the parent chain from `cur` reaches within `fuel` steps:
/// `Some(Some(x))` when it reaches a scope root `x`, `Some(None)` when the chain ends without
/// one, `None` when it hits a dead handle or runs out of steps.
pub open spec fn scope_anchor(s: Scene, cur: Option<NodeId>, fuel: nat) -> Option<Option<NodeId>>
    decreases fuel,
{
    match cur {
        None => Some(None),
        Some(x) => if !s.live(x) {
            None
        } else if s.node(x).flags & FLAG_LOOKUP_SCOPE == FLAG_LOOKUP_SCOPE {
            Some(Some(x))
        } else if fuel == 0 {
            None
        } else {
            scope_anchor(s, s.node(x).parent, (fuel - 1) as nat)
        },
    }
}

impl Scene {
    /// Depth-first search below `root` (excluding `root`) for a node with id attribute `id`;
    /// nested lookup scope roots are checked but not descended into.
    pub fn find_node_by_id_in_subtree(&self, root: NodeId, id: &str) -> (r: Option<NodeId>)
        requires
            self.wf(),
        ensures
            subtree_answer(*self, root, id@, r),
    {
        let kids = match self.get(root) {
            Some(n) => &n.children,
            None => {
                return None;
            },
        };
        let ghost through = outside_lookup_scopes(*self);
        let ghost found = has_id(*self, id@);
        let mut stack: Vec<NodeId> = Vec::new();
        push_children_reversed(&mut stack, kids);
        let mut visited: HashSet<u64> = HashSet::new();
        proof {
            assert(kids@ == self.node(root).children);
            assert(stack@ =~= self.node(root).children.reverse());
            assert(visited@ =~= Set::<u64>::empty());
            assert forall|i: int| 0 <= i < stack@.len() implies below(
                *self,
                root,
                #[trigger] stack@[i],
                through,
            ) by {
                lemma_below_child(*self, root, stack@[i], through);
            }
            assert(search_state(*self, root, through, found, visited@, stack@));
        }
        while stack.len() > 0
            invariant
                search_state(*self, root, through, found, visited@, stack@),
                through == outside_lookup_scopes(*self),
                found == has_id(*self, id@),
                dfs_first(*self, stack@, visited@, through, found) == first_below(
                    *self,
                    root,
                    through,
                    found,
                ),
            decreases self.slots().dom().difference(visited@).len(), stack@.len(),
        {
            let ghost before = stack@;
            let x = match stack.pop() {
                Some(x) => x,
                None => {
                    return None;
                },
            };
            proof {
                assert(before.last() == x);
                assert(stack@ == before.drop_last());
            }
            if visited.contains(&x.0) {
                proof {
                    lemma_pop_visited(*self, root, through, found, visited@, before);
                }
                continue;
            }
            proof {
                lemma_below_live(*self, root, x, through);
            }
            let n = match slots_get(&self.nodes, x.0) {
                Some(n) => n,
                None => {
                    proof {
                        assert(false);
                    }
                    return None;
                },
            };
            if opt_is(&n.id_attr, id) {
                return Some(x);
            }
            let ghost v0 = visited@;
            visited.insert(x.0);
            proof {
                let f = n.interaction.flags.0;
                assert(((f & 64u8) == 64u8) == !((f & 64u8) == 0u8)) by (bit_vector);
                assert(self.node(x).flags == f);
            }
            if !n.interaction.flags.contains(NodeFlags::lookup_scope()) {
                push_children_reversed(&mut stack, &n.children);
            }
            proof {
                lemma_pop_expand(*self, root, through, found, v0, before, stack@);
                lemma_unvisited_shrinks(*self, v0, x.0);
            }
        }
        proof {
            assert forall|x: NodeId| #[trigger] below(*self, root, x, through) implies !id_matches(
                *self,
                x.0,
                id@,
            ) by {
                lemma_closed_covers(*self, root, through, visited@, x);
                lemma_below_live(*self, root, x, through);
                assert(NodeId(x.0) == x);
            }
        }
        None
    }

    /// Resolves `id` in the lookup scope of `node`: walks up from `node` (itself included) to
    /// the nearest lookup scope root and searches below it; without such an ancestor it falls
    /// back to the global first match. A dead handle on the way gives `None`; so does a
    /// parent chain longer than the number of live nodes (which only a cycle can make).
    pub fn find_node_by_id_in_own_scope(&self, node: NodeId, id: &str) -> (r: Option<NodeId>)
        requires
            self.wf(),
        ensures
            match scope_anchor(*self, Some(node), self.slots().len()) {
                None => r is None,
                Some(None) => global_answer(*self, id@, r),
                Some(Some(a)) => subtree_answer(*self, a, id@, r),
            },
    {
        let budget = slots_len(&self.nodes);
        let mut fuel: usize = budget;
        let mut cur: Option<NodeId> = Some(node);
        loop
            invariant
                self.wf(),
                fuel <= budget,
                budget == self.slots().len(),
                scope_anchor(*self, cur, fuel as nat) == scope_anchor(
                    *self,
                    Some(node),
                    self.slots().len(),
                ),
            decreases fuel,
        {
            let nid = match cur {
                Some(nid) => nid,
                None => {
                    return self.find_by_id_attr(id);
                },
            };
            let n = match self.get(nid) {
                Some(n) => n,
                None => {
                    return None;
                },
            };
            if n.interaction.flags.contains(NodeFlags::lookup_scope()) {
                return self.find_node_by_id_in_subtree(nid, id);
            }
            if fuel == 0 {
                return None;
            }
            fuel = fuel - 1;
            cur = n.parent;
        }
    }
}

/// Parent recorded for node `i` after the first `m` edges `(parent, child)` were applied: the
/// last of them naming `i` as child, else the node's own parent field.
pub open spec fn edge_parent(nodes: Seq<Node>, edges: Seq<(usize, usize)>, i: int, m: int) -> Option<
    NodeId,
>
    decreases m,
{
    if m <= 0 {
        nodes[i].parent
    } else if edges[m - 1].1 == i {
        Some(NodeId(fresh_handle(edges[m - 1].0 as int)))
    } else {
        edge_parent(nodes, edges, i, m - 1)
    }
}

/// Children added to node `i` by the first `m` edges, in edge order.
pub open spec fn edge_children(edges: Seq<(usize, usize)>, i: int, m: int) -> Seq<NodeId>
    decreases m,
{
    if m <= 0 {
        Seq::empty()
    } else {
        let rest = edge_children(edges, i, m - 1);
        if edges[m - 1].0 == i {
            rest.push(NodeId(fresh_handle(edges[m - 1].1 as int)))
        } else {
            rest
        }
    }
}

/// View of node `i` of a `from_nodes` scene once the first `m` edges are applied.
pub open spec fn edge_node(nodes: Seq<Node>, edges: Seq<(usize, usize)>, i: int, m: int) -> NodeView {
    NodeView {
        id: NodeId(fresh_handle(i)),
        parent: edge_parent(nodes, edges, i, m),
        children: nodes[i].children@ + edge_children(edges, i, m),
        ..nodes[i]@
    }
}

/// Handles of the first `n` nodes left without a parent once all edges are applied, in order.
pub open spec fn parentless(nodes: Seq<Node>, edges: Seq<(usize, usize)>, n: int) -> Seq<NodeId>
    decreases n,
{
    if n <= 0 {
        Seq::empty()
    } else {
        let rest = parentless(nodes, edges, n - 1);
        if edge_parent(nodes, edges, n - 1, edges.len() as int) is None {
            rest.push(NodeId(fresh_handle(n - 1)))
        } else {
            rest
        }
    }
}

impl Scene {
    /// Builds a scene from a node list and `(parent, child)` index edges: node `i` gets the
    /// handle `fresh_handle(i)`; each edge makes the child's parent the parent and appends the
    /// child to the parent's children (in edge order); the roots are the nodes left without a
    /// parent, in list order. Text and image nodes get an empty content / source entry.
    pub fn from_nodes(nodes: Vec<Node>, edges: Vec<(usize, usize)>) -> (r: Scene)
        requires
            nodes@.len() + 2 < u32::MAX,
            forall|e: int|
                0 <= e < edges@.len() ==> (#[trigger] edges@[e]).0 < nodes@.len() && edges@[e].1
                    < nodes@.len(),
        ensures
            forall|k: u64|
                r.view_nodes().contains_key(k) <==> 0x1_0000_0001 <= k < 0x1_0000_0001
                    + nodes@.len(),
            forall|i: int|
                0 <= i < nodes@.len() ==> r.view_nodes()[fresh_handle(i)] == edge_node(
                    nodes@,
                    edges@,
                    i,
                    edges@.len() as int,
                ),
            r.roots@ == parentless(nodes@, edges@, nodes@.len() as int),
            r.focused_node is None,
            plain_forest(nodes@, edges@) ==> r.wf(),
            forall|i: int|
                0 <= i < nodes@.len() ==> table_text(r.text_contents@, #[trigger] fresh_handle(i))
                    == (if nodes@[i].kind == NodeKind::TextNode {
                    Some(Seq::<char>::empty())
                } else {
                    None
                }) && table_text(r.image_srcs@, fresh_handle(i)) == (if nodes@[i].kind
                    == NodeKind::Image {
                    Some(Seq::<char>::empty())
                } else {
                    None
                }),
    {
        let n = nodes.len();
        let ghost orig = nodes@;
        let mut src = nodes;
        let mut rev: Vec<Node> = Vec::new();
        while src.len() > 0
            invariant
                n == orig.len(),
                src@.len() <= n,
                src@ == orig.subrange(0, src@.len() as int),
                rev@ == orig.subrange(src@.len() as int, n as int).reverse(),
            decreases src@.len(),
        {
            let ghost before = src@;
            match src.pop() {
                Some(x) => {
                    rev.push(x);
                    proof {
                        assert(src@ =~= orig.subrange(0, src@.len() as int));
                        assert(rev@ =~= orig.subrange(src@.len() as int, n as int).reverse());
                    }
                },
                None => {},
            }
        }
        let mut scene = Scene::new();
        let mut ids: Vec<NodeId> = Vec::new();
        let mut i: usize = 0;
        while rev.len() > 0
            invariant
                n == orig.len(),
                n + 2 < u32::MAX,
                i + rev@.len() == n,
                rev@ == orig.subrange(i as int, n as int).reverse(),
                store_sane(scene.nodes),
                slot_span(scene.nodes) == i + 1,
                scene.slots().len() == i,
                ids@.len() == i,
                forall|j: int| 0 <= j < i ==> #[trigger] ids@[j] == NodeId(fresh_handle(j)),
                forall|k: u64|
                    scene.slots().contains_key(k) <==> 0x1_0000_0001 <= k < 0x1_0000_0001 + i,
                forall|j: int|
                    0 <= j < i ==> (#[trigger] scene.slots()[fresh_handle(j)])@ == edge_node(
                        orig,
                        edges@,
                        j,
                        0,
                    ),
                scene.roots@ == Seq::<NodeId>::empty(),
                scene.focused_node is None,
                forall|j: int|
                    0 <= j < i ==> table_text(scene.text_contents@, #[trigger] fresh_handle(j)) == (
                    if orig[j].kind == NodeKind::TextNode {
                        Some(Seq::<char>::empty())
                    } else {
                        None
                    }) && table_text(scene.image_srcs@, fresh_handle(j)) == (if orig[j].kind
                        == NodeKind::Image {
                        Some(Seq::<char>::empty())
                    } else {
                        None
                    }),
                forall|k: u64| #[trigger]
                    scene.text_contents@.contains_key(k) ==> scene.slots().contains_key(k),
                forall|k: u64| #[trigger]
                    scene.image_srcs@.contains_key(k) ==> scene.slots().contains_key(k),
            decreases rev@.len(),
        {
            let ghost before_rev = rev@;
            let nd = match rev.pop() {
                Some(x) => x,
                None => {
                    proof {
                        assert(false);
                    }
                    return scene;
                },
            };
            proof {
                assert(nd == orig[i as int]) by {
                    assert(before_rev.last() == orig.subrange(i as int, n as int).reverse().last());
                }
                assert(rev@ =~= orig.subrange(i + 1, n as int).reverse());
            }
            let kind = nd.kind;
            let ghost before = scene.slots();
            let k = slots_insert(&mut scene.nodes, nd);
            proof {
                lemma_fresh_handle(i as int);
            }
            let id = NodeId(k);
            match slots_get_mut(&mut scene.nodes, k) {
                Some(m) => {
                    m.id = id;
                },
                None => {},
            }
            if kind == NodeKind::TextNode {
                scene.text_contents.insert(k, String::new());
            } else if kind == NodeKind::Image {
                scene.image_srcs.insert(k, String::new());
            }
            ids.push(id);
            proof {
                assert forall|j: int| 0 <= j < i + 1 implies (#[trigger] scene.slots()[fresh_handle(
                    j,
                )])@ == edge_node(orig, edges@, j, 0) by {
                    lemma_fresh_handle(j);
                    if j < i {
                        assert(fresh_handle(j) != k);
                    } else {
                        assert(orig[j].children@ + Seq::<NodeId>::empty() =~= orig[j].children@);
                    }
                }
                assert forall|k2: u64|
                    scene.slots().contains_key(k2) <==> 0x1_0000_0001 <= k2 < 0x1_0000_0001 + i
                        + 1 by {
                    if k2 != k {
                        assert(scene.slots().contains_key(k2) == before.contains_key(k2));
                    }
                }
                assert forall|j: int| 0 <= j < i + 1 implies table_text(
                    scene.text_contents@,
                    #[trigger] fresh_handle(j),
                ) == (if orig[j].kind == NodeKind::TextNode {
                    Some(Seq::<char>::empty())
                } else {
                    None
                }) && table_text(scene.image_srcs@, fresh_handle(j)) == (if orig[j].kind
                    == NodeKind::Image {
                    Some(Seq::<char>::empty())
                } else {
                    None
                }) by {
                    lemma_fresh_handle(j);
                }
            }
            i = i + 1;
        }
        let mut e: usize = 0;
        while e < edges.len()
            invariant
                n == orig.len(),
                n + 2 < u32::MAX,
                e <= edges@.len(),
                forall|x: int|
                    0 <= x < edges@.len() ==> (#[trigger] edges@[x]).0 < n && edges@[x].1 < n,
                store_sane(scene.nodes),
                ids@.len() == n,
                forall|j: int| 0 <= j < n ==> #[trigger] ids@[j] == NodeId(fresh_handle(j)),
                forall|k: u64|
                    scene.slots().contains_key(k) <==> 0x1_0000_0001 <= k < 0x1_0000_0001 + n,
                forall|j: int|
                    0 <= j < n ==> (#[trigger] scene.slots()[fresh_handle(j)])@ == edge_node(
                        orig,
                        edges@,
                        j,
                        e as int,
                    ),
                scene.roots@ == Seq::<NodeId>::empty(),
                scene.focused_node is None,
                forall|j: int|
                    0 <= j < n ==> table_text(scene.text_contents@, #[trigger] fresh_handle(j)) == (
                    if orig[j].kind == NodeKind::TextNode {
                        Some(Seq::<char>::empty())
                    } else {
                        None
                    }) && table_text(scene.image_srcs@, fresh_handle(j)) == (if orig[j].kind
                        == NodeKind::Image {
                        Some(Seq::<char>::empty())
                    } else {
                        None
                    }),
            decreases edges@.len() - e,
        {
            let (p, c) = edges[e];
            let pid = ids[p];
            let cid = ids[c];
            let ghost before = scene.slots();
            proof {
                lemma_fresh_handle(p as int);
                lemma_fresh_handle(c as int);
            }
            match slots_get_mut(&mut scene.nodes, cid.0) {
                Some(m) => {
                    m.parent = Some(pid);
                },
                None => {},
            }
            match slots_get_mut(&mut scene.nodes, pid.0) {
                Some(m) => {
                    m.children.push(cid);
                },
                None => {},
            }
            proof {
                assert forall|j: int| 0 <= j < n implies (#[trigger] scene.slots()[fresh_handle(
                    j,
                )])@ == edge_node(orig, edges@, j, e + 1) by {
                    lemma_fresh_handle(j);
                    assert(edge_children(edges@, j, e + 1) == (if j == p {
                        edge_children(edges@, j, e as int).push(NodeId(fresh_handle(c as int)))
                    } else {
                        edge_children(edges@, j, e as int)
                    }));
                    if j == p {
                        assert(orig[j].children@ + edge_children(edges@, j, e + 1) =~= (
                        orig[j].children@ + edge_children(edges@, j, e as int)).push(
                            NodeId(fresh_handle(c as int)),
                        ));
                    }
                }
                assert forall|k: u64| scene.slots().contains_key(k) <==> 0x1_0000_0001 <= k
                    < 0x1_0000_0001 + n by {
                    assert(scene.slots().contains_key(k) == before.contains_key(k));
                }
            }
            e = e + 1;
        }
        let mut j: usize = 0;
        while j < n
            invariant
                n == orig.len(),
                n + 2 < u32::MAX,
                j <= n,
                store_sane(scene.nodes),
                ids@.len() == n,
                forall|x: int| 0 <= x < n ==> #[trigger] ids@[x] == NodeId(fresh_handle(x)),
                forall|k: u64|
                    scene.slots().contains_key(k) <==> 0x1_0000_0001 <= k < 0x1_0000_0001 + n,
                forall|x: int|
                    0 <= x < n ==> (#[trigger] scene.slots()[fresh_handle(x)])@ == edge_node(
                        orig,
                        edges@,
                        x,
                        edges@.len() as int,
                    ),
                scene.roots@ == parentless(orig, edges@, j as int),
                scene.focused_node is None,
                forall|x: int|
                    0 <= x < n ==> table_text(scene.text_contents@, #[trigger] fresh_handle(x)) == (
                    if orig[x].kind == NodeKind::TextNode {
                        Some(Seq::<char>::empty())
                    } else {
                        None
                    }) && table_text(scene.image_srcs@, fresh_handle(x)) == (if orig[x].kind
                        == NodeKind::Image {
                        Some(Seq::<char>::empty())
                    } else {
                        None
                    }),
            decreases n - j,
        {
            let id = ids[j];
            proof {
                lemma_fresh_handle(j as int);
            }
            let no_parent = match slots_get(&scene.nodes, id.0) {
                Some(m) => m.parent.is_none(),
                None => false,
            };
            let ghost before = scene.slots();
            if no_parent {
                scene.roots.push(id);
            }
            assert(scene.slots() == before);
            proof {
                let h = fresh_handle(j as int);
                assert(scene.slots().contains_key(h));
                assert(no_parent == (edge_parent(orig, edges@, j as int, edges@.len() as int) is None));
            }
            j = j + 1;
        }
        proof {
            lemma_view_nodes(scene);
            if plain_forest(orig, edges@) {
                lemma_from_nodes_wf(scene, orig, edges@);
            }
        }
        assert forall|x: int| 0 <= x < n implies scene.view_nodes()[fresh_handle(x)] == edge_node(
            orig,
            edges@,
            x,
            edges@.len() as int,
        ) by {
            lemma_fresh_handle(x);
            assert(scene.slots().contains_key(fresh_handle(x)));
        }
        scene
    }
}

/// Node lists that `from_nodes` links into a well-formed scene: detached, childless nodes and
/// edges naming each child at most once.
pub open spec fn plain_forest(nodes: Seq<Node>, edges: Seq<(usize, usize)>) -> bool {
    &&& forall|i: int| 0 <= i < nodes.len() ==> (#[trigger] nodes[i]).parent is None
        && nodes[i].children@.len() == 0
    &&& forall|a: int, b: int|
        0 <= a < b < edges.len() ==> (#[trigger] edges[a]).1 != (#[trigger] edges[b]).1
}

proof fn lemma_edge_child_at(edges: Seq<(usize, usize)>, i: int, m: int, j: int) -> (e: int)
    requires
        0 <= m <= edges.len(),
        0 <= j < edge_children(edges, i, m).len(),
    ensures
        0 <= e < m,
        edges[e].0 == i,
        edge_children(edges, i, m)[j] == NodeId(fresh_handle(edges[e].1 as int)),
    decreases m,
{
    let rest = edge_children(edges, i, m - 1);
    if j < rest.len() {
        let e = lemma_edge_child_at(edges, i, m - 1, j);
        if edges[m - 1].0 == i {
            assert(edge_children(edges, i, m) == rest.push(NodeId(fresh_handle(edges[m - 1].1 as int))));
        }
        e
    } else {
        m - 1
    }
}

proof fn lemma_edge_children_has(edges: Seq<(usize, usize)>, i: int, m: int, e: int)
    requires
        0 <= e < m <= edges.len(),
        edges[e].0 == i,
    ensures
        edge_children(edges, i, m).contains(NodeId(fresh_handle(edges[e].1 as int))),
    decreases m,
{
    let rest = edge_children(edges, i, m - 1);
    let cur = edge_children(edges, i, m);
    let x = NodeId(fresh_handle(edges[e].1 as int));
    if e < m - 1 {
        lemma_edge_children_has(edges, i, m - 1, e);
        let j = choose|j: int| 0 <= j < rest.len() && rest[j] == x;
        if edges[m - 1].0 == i {
            assert(cur == rest.push(NodeId(fresh_handle(edges[m - 1].1 as int))));
            assert(cur[j] == rest[j]);
        }
        assert(cur[j] == x);
    } else {
        assert(cur[cur.len() - 1] == x);
    }
}

proof fn lemma_edge_parent_is(nodes: Seq<Node>, edges: Seq<(usize, usize)>, m: int, e: int)
    requires
        0 <= e < m <= edges.len(),
        plain_forest(nodes, edges),
    ensures
        edge_parent(nodes, edges, edges[e].1 as int, m) == Some(NodeId(fresh_handle(edges[e].0 as int))),
    decreases m,
{
    if e < m - 1 {
        assert(edges[m - 1].1 != edges[e].1);
        lemma_edge_parent_is(nodes, edges, m - 1, e);
    }
}

proof fn lemma_edge_parent_from(nodes: Seq<Node>, edges: Seq<(usize, usize)>, c: int, m: int) -> (e: int)
    requires
        0 <= c < nodes.len(),
        0 <= m <= edges.len(),
        plain_forest(nodes, edges),
        edge_parent(nodes, edges, c, m) is Some,
    ensures
        0 <= e < m,
        edges[e].1 == c,
        edge_parent(nodes, edges, c, m) == Some(NodeId(fresh_handle(edges[e].0 as int))),
    decreases m,
{
    if m == 0 {
        assert(nodes[c].parent is None);
        0
    } else if edges[m - 1].1 == c {
        m - 1
    } else {
        lemma_edge_parent_from(nodes, edges, c, m - 1)
    }
}

/// A `from_nodes` scene over a plain forest is well-formed.
pub proof fn lemma_from_nodes_wf(scene: Scene, nodes: Seq<Node>, edges: Seq<(usize, usize)>)
    requires
        nodes.len() + 2 < u32::MAX,
        forall|e: int|
            0 <= e < edges.len() ==> (#[trigger] edges[e]).0 < nodes.len() && edges[e].1 < nodes.len(),
        plain_forest(nodes, edges),
        store_sane(scene.nodes),
        forall|k: u64|
            scene.slots().contains_key(k) <==> 0x1_0000_0001 <= k < 0x1_0000_0001 + nodes.len(),
        forall|j: int|
            0 <= j < nodes.len() ==> (#[trigger] scene.slots()[fresh_handle(j)])@ == edge_node(
                nodes,
                edges,
                j,
                edges.len() as int,
            ),
    ensures
        scene.wf(),
{
    reveal(Scene::links_ok);
    let n = nodes.len() as int;
    let ne = edges.len() as int;
    let m = scene.slots();
    assert forall|k: u64| #[trigger] m.contains_key(k) implies norm_key(k) == k && m[k].id.0
        == k by {
        let j = k - 0x1_0000_0001;
        lemma_fresh_handle(j);
        assert(fresh_handle(j) == k);
    }
    assert forall|k: u64, i: int| m.contains_key(k) && 0 <= i < m[k].children@.len() implies {
        let c = #[trigger] m[k].children@[i];
        &&& m.contains_key(c.0)
        &&& m[c.0].parent == Some(NodeId(k))
    } by {
        let j = k - 0x1_0000_0001;
        lemma_fresh_handle(j);
        assert(fresh_handle(j) == k);
        assert(nodes[j].children@.len() == 0);
        let c = m[k].children@[i];
        assert(nodes[j].children@ + edge_children(edges, j, ne) =~= edge_children(edges, j, ne));
        assert(c == edge_children(edges, j, ne)[i]);
        let e = lemma_edge_child_at(edges, j, ne, i);
        lemma_fresh_handle(edges[e].1 as int);
        lemma_edge_parent_is(nodes, edges, ne, e);
        assert(m[fresh_handle(edges[e].1 as int)]@ == edge_node(nodes, edges, edges[e].1 as int, ne));
    }
    assert forall|k: u64| #[trigger] m.contains_key(k) implies match m[k].parent {
        Some(p) => m.contains_key(p.0) && m[p.0].children@.contains(NodeId(k)),
        None => true,
    } by {
        let j = k - 0x1_0000_0001;
        lemma_fresh_handle(j);
        assert(fresh_handle(j) == k);
        assert(m[k]@ == edge_node(nodes, edges, j, ne));
        if m[k].parent is Some {
            let e = lemma_edge_parent_from(nodes, edges, j, ne);
            let p = edges[e].0 as int;
            lemma_fresh_handle(p);
            lemma_edge_children_has(edges, p, ne, e);
            assert(m[fresh_handle(p)]@ == edge_node(nodes, edges, p, ne));
            assert(nodes[p].children@ + edge_children(edges, p, ne) =~= edge_children(edges, p, ne));
        }
    }
}

/// The `i`-th node built into a fresh scene has slot index `i + 1` and generation 1.
pub proof fn law_fresh_handle_decode(i: int)
    requires
        0 <= i < 0xFFFF_FFFF,
    ensures
        crate::node::handle_index(fresh_handle(i)) == i + 1,
        crate::node::handle_gen(fresh_handle(i)) == 1,
{
    lemma_fresh_handle(i);
}

/// Whether `id` is a text node whose content is non-empty and all whitespace (the line
/// breaks and indentation between tags in markup), which layout and rendering skip.
pub fn is_whitespace_only_text(scene: &Scene, id: NodeId) -> (r: bool)
    ensures
        r == (scene.live(id) && scene.node(id).kind == NodeKind::TextNode
            && scene.text_contents@.contains_key(id.0) && scene.text_contents@[id.0]@.len() > 0
            && forall|i: int|
            0 <= i < scene.text_contents@[id.0]@.len() ==> crate::strs::whitespace(
                #[trigger] scene.text_contents@[id.0]@[i],
            )),
{
    let node = match slots_get(&scene.nodes, id.0) {
        Some(n) => n,
        None => {
            return false;
        },
    };
    if node.kind != NodeKind::TextNode {
        return false;
    }
    let c = match scene.text_contents.get(&id.0) {
        Some(c) => c,
        None => {
            return false;
        },
    };
    let n = c.as_str().unicode_len();
    if n == 0 {
        return false;
    }
    let mut i: usize = 0;
    while i < n
        invariant
            n == c@.len(),
            i <= n,
            scene.text_contents@.contains_key(id.0),
            *c == scene.text_contents@[id.0],
            forall|j: int| 0 <= j < i ==> crate::strs::whitespace(#[trigger] c@[j]),
        decreases n - i,
    {
        if !crate::strs::is_whitespace(c.as_str().get_char(i)) {
            assert(!crate::strs::whitespace(scene.text_contents@[id.0]@[i as int]));
            return false;
        }
        i = i + 1;
    }
    true
}

/// In a well-formed scene the children a live node lists carry canonical handles of live nodes.
pub proof fn lemma_children_canonical(s: Scene, x: NodeId)
    requires
        s.wf(),
        s.live(x),
    ensures
        forall|j: int|
            0 <= j < s.node(x).children.len() ==> norm_key((#[trigger] s.node(x).children[j]).0)
                == s.node(x).children[j].0 && s.live(s.node(x).children[j]),
{
    reveal(Scene::links_ok);
    let k = norm_key(x.0);
    assert forall|j: int| 0 <= j < s.node(x).children.len() implies norm_key(
        (#[trigger] s.node(x).children[j]).0,
    ) == s.node(x).children[j].0 && s.live(s.node(x).children[j]) by {
        assert(s.slots()[k].children@[j] == s.node(x).children[j]);
        assert(s.slots().contains_key(s.slots()[k].children@[j].0));
    }
}

/// Whether child `a` paints before child `b` (indices into a child list with z-indices `z`):
/// a lower z-index first, document order among equal ones.
pub open spec fn paints_before(z: Seq<i32>, a: int, b: int) -> bool {
    z[a] < z[b] || (z[a] == z[b] && a < b)
}

/// `order` is the paint order of a child list with z-indices `z`: every child index once,
/// ordered by `paints_before` (a stable sort by z-index).
pub open spec fn paint_order_of(z: Seq<i32>, order: Seq<usize>) -> bool {
    &&& order.len() == z.len()
    &&& forall|i: int| 0 <= i < order.len() ==> #[trigger] order[i] < z.len()
    &&& forall|i: int, j: int|
        0 <= i < j < order.len() ==> paints_before(z, #[trigger] order[i] as int, #[trigger] order[j] as int)
}

/// The paint order of a child list with z-indices `z` (`paint_order_of`).
fn paint_order_indices(z: &[i32]) -> (r: Vec<usize>)
    ensures
        paint_order_of(z@, r@),
{
    let mut out: Vec<usize> = Vec::new();
    let n = z.len();
    let mut i: usize = 0;
    while i < n
        invariant
            n == z@.len(),
            i <= n,
            out@.len() == i,
            forall|a: int| 0 <= a < out@.len() ==> #[trigger] out@[a] < i,
            forall|a: int, b: int|
                0 <= a < b < out@.len() ==> paints_before(z@, #[trigger] out@[a] as int, #[trigger] out@[b] as int),
        decreases n - i,
    {
        let mut pos: usize = 0;
        while pos < out.len() && z[out[pos]] <= z[i]
            invariant
                n == z@.len(),
                i < n,
                pos <= out@.len(),
                forall|a: int| 0 <= a < out@.len() ==> #[trigger] out@[a] < i,
                forall|a: int| 0 <= a < pos ==> z@[#[trigger] out@[a] as int] <= z@[i as int],
            decreases out@.len() - pos,
        {
            pos = pos + 1;
        }
        let ghost before = out@;
        proof {
            assert forall|a: int| pos <= a < before.len() implies z@[i as int] < z@[#[trigger] before[a] as int] by {
                if z@[before[a] as int] <= z@[i as int] {
                    // the scan stopped at pos, so the element there has a larger z; sortedness
                    // carries it to every later element
                    assert(pos < before.len());
                    assert(z@[before[pos as int] as int] > z@[i as int]);
                    if a > pos {
                        assert(paints_before(z@, before[pos as int] as int, before[a] as int));
                    }
                }
            }
        }
        out.insert(pos, i);
        proof {
            assert(out@ == before.insert(pos as int, i));
            assert forall|a: int, b: int|
                0 <= a < b < out@.len() implies paints_before(z@, #[trigger] out@[a] as int, #[trigger] out@[b] as int) by {
                if b < pos {
                    assert(out@[a] == before[a] && out@[b] == before[b]);
                } else if b == pos {
                    assert(out@[a] == before[a]);
                    assert(before[a] < i);
                } else if a < pos {
                    assert(out@[a] == before[a] && out@[b] == before[b - 1]);
                    if a + 1 <= b - 1 {
                    }
                } else if a == pos {
                    assert(out@[b] == before[b - 1]);
                } else {
                    assert(out@[a] == before[a - 1] && out@[b] == before[b - 1]);
                }
            }
        }
        i = i + 1;
    }
    out
}

/// The children of `parent` in paint order, given the z-index of each child (`z[i]` for
/// child `i`): a stable sort by z-index, so equal z-indices keep document order. A dead
/// parent has none.
pub fn paint_order_children(scene: &Scene, parent: NodeId, z: &[i32]) -> (r: Vec<NodeId>)
    requires
        scene.live(parent) ==> z@.len() == scene.node(parent).children.len(),
    ensures
        !scene.live(parent) ==> r@.len() == 0,
        scene.live(parent) ==> exists|order: Seq<usize>|
            #[trigger] paint_order_of(z@, order) && r@ == order.map_values(
                |k: usize| scene.node(parent).children[k as int],
            ),
{
    let kids = match scene.get(parent) {
        Some(n) => &n.children,
        None => {
            return Vec::new();
        },
    };
    let order = paint_order_indices(z);
    let mut out: Vec<NodeId> = Vec::new();
    let mut i: usize = 0;
    while i < order.len()
        invariant
            i <= order@.len(),
            order@.len() == z@.len(),
            z@.len() == kids@.len(),
            forall|a: int| 0 <= a < order@.len() ==> #[trigger] order@[a] < z@.len(),
            out@ == order@.take(i as int).map_values(|k: usize| kids@[k as int]),
        decreases order@.len() - i,
    {
        out.push(kids[order[i]]);
        i = i + 1;
        assert(out@ =~= order@.take(i as int).map_values(|k: usize| kids@[k as int]));
    }
    assert(order@.take(order@.len() as int) =~= order@);
    assert(paint_order_of(z@, order@));
    out
}

/// Whether `o` holds index `v`.
pub open spec fn lists_index(o: Seq<usize>, v: int) -> bool {
    exists|i: int| 0 <= i < o.len() && #[trigger] o[i] as int == v
}

/// A paint order lists every child index.
proof fn lemma_paint_order_covers(z: Seq<i32>, o: Seq<usize>)
    requires
        paint_order_of(z, o),
    ensures
        forall|v: int| 0 <= v < z.len() ==> #[trigger] lists_index(o, v),
{
    let oi = o.map_values(|v: usize| v as int);
    assert(oi.no_duplicates()) by {
        assert forall|i: int, j: int| 0 <= i < oi.len() && 0 <= j < oi.len() && i != j implies oi[i] != oi[j] by {
            if i < j {
                assert(paints_before(z, o[i] as int, o[j] as int));
            } else {
                assert(paints_before(z, o[j] as int, o[i] as int));
            }
        }
    }
    oi.unique_seq_to_set();
    let r = vstd::set_lib::set_int_range(0, z.len() as int);
    vstd::set_lib::lemma_int_range(0, z.len() as int);
    let st = oi.to_set();
    assert(st.subset_of(r)) by {
        assert forall|v: int| st.contains(v) implies r.contains(v) by {
            let i = choose|i: int| 0 <= i < oi.len() && oi[i] == v;
            assert(o[i] < z.len());
        }
    }
    vstd::set_lib::lemma_subset_equality(st, r);
    assert forall|v: int| 0 <= v < z.len() implies #[trigger] lists_index(o, v) by {
        assert(r.contains(v));
        assert(st.contains(v));
        let i = choose|i: int| 0 <= i < oi.len() && oi[i] == v;
        assert(o[i] as int == v);
    }
}

/// Two paint orders agree on their first `k` positions.
proof fn lemma_paint_prefix(z: Seq<i32>, o1: Seq<usize>, o2: Seq<usize>, k: int)
    requires
        paint_order_of(z, o1),
        paint_order_of(z, o2),
        0 <= k <= z.len(),
        forall|v: int| 0 <= v < z.len() ==> #[trigger] lists_index(o1, v),
        forall|v: int| 0 <= v < z.len() ==> #[trigger] lists_index(o2, v),
    ensures
        forall|i: int| 0 <= i < k ==> o1[i] == o2[i],
    decreases k,
{
    if k > 0 {
        lemma_paint_prefix(z, o1, o2, k - 1);
        let m = k - 1;
        let a = o1[m] as int;
        let b = o2[m] as int;
        if a != b {
            if paints_before(z, a, b) {
                assert(lists_index(o2, a));
                let j = choose|j: int| 0 <= j < o2.len() && #[trigger] o2[j] as int == a;
                if j < m {
                    assert(o1[j] == o2[j]);
                    assert(paints_before(z, o1[j] as int, o1[m] as int));
                } else {
                    assert(j != m);
                    assert(paints_before(z, o2[m] as int, o2[j] as int));
                }
            } else {
                assert(paints_before(z, b, a));
                assert(lists_index(o1, b));
                let j = choose|j: int| 0 <= j < o1.len() && #[trigger] o1[j] as int == b;
                if j < m {
                    assert(o1[j] == o2[j]);
                    assert(paints_before(z, o2[j] as int, o2[m] as int));
                } else {
                    assert(j != m);
                    assert(paints_before(z, o1[m] as int, o1[j] as int));
                }
            }
        }
    }
}

/// There is only one paint order of a child list: the stable sort by z-index is unique.
pub proof fn law_paint_order_unique(z: Seq<i32>, o1: Seq<usize>, o2: Seq<usize>)
    requires
        paint_order_of(z, o1),
        paint_order_of(z, o2),
    ensures
        o1 == o2,
{
    lemma_paint_order_covers(z, o1);
    lemma_paint_order_covers(z, o2);
    lemma_paint_prefix(z, o1, o2, z.len() as int);
    assert(o1 =~= o2);
}

} // verus!
