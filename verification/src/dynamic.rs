//! Runtime tree building: tag names of dynamically created nodes and inline CSS
//! declaration lists.

use vstd::prelude::*;
use crate::node::{ControlState, NodeFlags, NodeId, NodeKind, FLAG_LOOKUP_SCOPE, FLAG_SCOPE_ROOT};
use crate::scene::{
    below, cleared_focus, descend_all, detached_view, erased, fresh_node, lemma_below_child,
    lemma_below_mono, lemma_below_trans, lemma_detached_wf, lemma_fewer_nodes,
    lemma_children_canonical, lemma_parent_live, lemma_same_links, lemma_view_nodes, lemma_wf_teardown, make_node, norm_key, removed, retain_ne, slot_span, slots_get,
    slots_get_mut, slots_insert, slots_remove, store_sane, subtree_removed, table_text,
    teardown_ok, with_children, without, DisplayOverride, NodeView, Scene,
};
use crate::strs::str_eq;
use crate::text::concat;

verus! {

/// Kind of a dynamically created element, by tag: `div` -> Container, `button` -> Button,
/// `img` -> Image, `span` -> TextNode; other tags have none.
pub open spec fn tag_kind(tag: Seq<char>) -> Option<NodeKind> {
    if tag == "div"@ {
        Some(NodeKind::Container)
    } else if tag == "button"@ {
        Some(NodeKind::Button)
    } else if tag == "img"@ {
        Some(NodeKind::Image)
    } else if tag == "span"@ {
        Some(NodeKind::TextNode)
    } else {
        None
    }
}

/// Error text for a tag outside the accepted set.
pub open spec fn unknown_tag_message(tag: Seq<char>) -> Seq<char> {
    "unknown kind tag: "@ + tag + "（围栏白名单：div/button/img/span）"@
}

/// Tag -> node kind for runtime-created nodes; unknown tags are an error naming the tag.
pub fn kind_from_tag(tag: &str) -> (r: Result<NodeKind, String>)
    ensures
        match tag_kind(tag@) {
            Some(k) => r == Ok::<NodeKind, String>(k),
            None => r matches Err(msg) && msg@ == unknown_tag_message(tag@),
        },
{
    if str_eq(tag, "div") {
        Ok(NodeKind::Container)
    } else if str_eq(tag, "button") {
        Ok(NodeKind::Button)
    } else if str_eq(tag, "img") {
        Ok(NodeKind::Image)
    } else if str_eq(tag, "span") {
        Ok(NodeKind::TextNode)
    } else {
        let head = concat("unknown kind tag: ", tag);
        Err(concat(head.as_str(), "（围栏白名单：div/button/img/span）"))
    }
}

/// Tears down the subtree under the live node `id`: its slot is freed first, then every child
/// it lists that is still live is torn down the same way. The text/image/control entries
/// of each removed node are dropped and the focus is cleared if it was on one of them.
fn remove_subtree(scene: &mut Scene, id: NodeId)
    requires
        teardown_ok(*old(scene)),
        old(scene).live(id),
    ensures
        teardown_ok(*final(scene)),
        subtree_removed(*old(scene), *final(scene), id),
        forall|k: u64| #[trigger]
            final(scene).slots().contains_key(k) ==> final(scene).slots()[k] == old(
                scene,
            ).slots()[k],
        final(scene).roots == old(scene).roots,
        final(scene).roles == old(scene).roles,
    decreases old(scene).slots().len(),
{
    let ghost s0 = *scene;
    let ghost key = norm_key(id.0);
    let node = match slots_remove(&mut scene.nodes, id.0) {
        Some(n) => n,
        None => {
            proof {
                assert(false);
            }
            return ;
        },
    };
    scene.text_contents.remove(&id.0);
    scene.image_srcs.remove(&id.0);
    scene.controls.remove(id);
    match scene.focused_node {
        Some(f) => {
            if f.0 == id.0 {
                scene.focused_node = None;
            }
        },
        None => {},
    }
    proof {
        assert(removed(s0, *scene) =~= set![key]);
        assert(erased(removed(s0, *scene), id) =~= set![id.0]);
        assert(scene.text_contents@ =~= s0.text_contents@.remove_keys(set![id.0]));
        assert(scene.image_srcs@ =~= s0.image_srcs@.remove_keys(set![id.0]));
        assert(scene.controls@ =~= s0.controls@.remove_keys(set![id.0]));
    }
    let children = node.children;
    let mut i: usize = 0;
    while i < children.len()
        invariant
            *old(scene) == s0,
            teardown_ok(s0),
            s0.slots().contains_key(key),
            key == norm_key(id.0),
            i <= children@.len(),
            children@ == s0.slots()[key].children@,
            store_sane(scene.nodes),
            scene.slots().dom().subset_of(s0.slots().dom()),
            !scene.slots().contains_key(key),
            forall|k: u64| #[trigger]
                scene.slots().contains_key(k) ==> scene.slots()[k] == s0.slots()[k],
            forall|k: u64, j: int|
                removed(s0, *scene).contains(k) && k != key && 0 <= j
                    < s0.slots()[k].children@.len() ==> !scene.slots().contains_key(
                    norm_key((#[trigger] s0.slots()[k].children@[j]).0),
                ),
            forall|j: int|
                0 <= j < i ==> !scene.slots().contains_key(norm_key((#[trigger] children@[j]).0)),
            forall|k: u64|
                #[trigger] removed(s0, *scene).contains(k) && k != key ==> (s0.slots()[k].parent matches Some(
                    p,
                ) && removed(s0, *scene).contains(p.0)),
            scene.text_contents@ == s0.text_contents@.remove_keys(erased(removed(s0, *scene), id)),
            scene.image_srcs@ == s0.image_srcs@.remove_keys(erased(removed(s0, *scene), id)),
            scene.controls@ == s0.controls@.remove_keys(erased(removed(s0, *scene), id)),
            scene.focused_node == cleared_focus(s0.focused_node, erased(removed(s0, *scene), id)),
            scene.roots == s0.roots,
            scene.roles == s0.roles,
            forall|k: u64|
                #[trigger] removed(s0, *scene).contains(k) ==> k == key || below(
                    s0,
                    id,
                    NodeId(k),
                    descend_all(),
                ),
        decreases children@.len() - i,
    {
        let c = children[i];
        let present = match slots_get(&scene.nodes, c.0) {
            Some(_) => true,
            None => false,
        };
        if present {
            let ghost s1 = *scene;
            proof {
                lemma_fewer_nodes(s0, s1, key);
                assert(teardown_ok(s1)) by {
                    assert forall|k: u64, j: int|
                        s1.slots().contains_key(k) && 0 <= j < s1.slots()[k].children@.len() implies {
                        let cc = #[trigger] s1.slots()[k].children@[j];
                        &&& norm_key(cc.0) == cc.0
                        &&& s1.slots().contains_key(cc.0) ==> s1.slots()[cc.0].parent == Some(NodeId(k))
                    } by {
                        assert(s1.slots()[k] == s0.slots()[k]);
                        let cc = s0.slots()[k].children@[j];
                        if s1.slots().contains_key(cc.0) {
                            assert(s1.slots()[cc.0] == s0.slots()[cc.0]);
                        }
                    }
                }
            }
            remove_subtree(scene, c);
            proof {
                let r1 = removed(s0, s1);
                let rc = removed(s1, *scene);
                let r2 = removed(s0, *scene);
                assert(norm_key(c.0) == c.0);
                assert(r2 =~= r1.union(rc));
                assert(erased(rc, c) =~= rc);
                assert(!rc.contains(key));
                assert(erased(r2, id) =~= erased(r1, id).union(rc));
                assert(scene.text_contents@ =~= s0.text_contents@.remove_keys(erased(r2, id)));
                assert(scene.image_srcs@ =~= s0.image_srcs@.remove_keys(erased(r2, id)));
                assert(scene.controls@ =~= s0.controls@.remove_keys(erased(r2, id)));
                assert forall|k: u64| #[trigger] r2.contains(k) && k != key implies (
                s0.slots()[k].parent matches Some(p) && r2.contains(p.0)) by {
                    if rc.contains(k) {
                        if k != norm_key(c.0) {
                            assert(s1.slots()[k] == s0.slots()[k]);
                        } else {
                            assert(s0.slots()[key].children@[i as int] == c);
                            assert(s0.slots()[c.0].parent == Some(NodeId(key)));
                        }
                    }
                }
                assert forall|k: u64| #[trigger] r2.contains(k) implies k == key || below(
                    s0,
                    id,
                    NodeId(k),
                    descend_all(),
                ) by {
                    if rc.contains(k) {
                        assert(s0.slots()[key].children@[i as int] == c);
                        assert(s0.live(id));
                        assert(s0.node(id).children.contains(c));
                        if k == c.0 {
                            assert(NodeId(k) == c);
                            lemma_below_child(s0, id, c, descend_all());
                        } else {
                            lemma_below_mono(s1, s0, c, NodeId(k), descend_all());
                            lemma_below_trans(s0, id, c, NodeId(k), descend_all());
                        }
                    }
                }
                assert forall|k: u64, j: int|
                    r2.contains(k) && k != key && 0 <= j < s0.slots()[k].children@.len() implies !scene.slots().contains_key(
                    norm_key((#[trigger] s0.slots()[k].children@[j]).0),
                ) by {
                    if rc.contains(k) {
                        assert(s1.slots()[k] == s0.slots()[k]);
                    }
                }
                assert forall|j: int| 0 <= j < i + 1 implies !scene.slots().contains_key(
                    norm_key((#[trigger] children@[j]).0),
                ) by {
                    if j == i {
                        assert(children@[j] == c);
                    }
                }
            }
        }
        i = i + 1;
    }
}

/// `after` is `before` with the live node `id` and its subtree removed, `id` taken out of its
/// parent's child list (or out of the roots when it has no parent); roles are kept.
pub open spec fn node_removed(before: Scene, after: Scene, id: NodeId) -> bool {
    &&& subtree_removed(before, after, id)
    &&& forall|k: u64| #[trigger]
        after.view_nodes().contains_key(k) ==> after.view_nodes()[k] == detached_view(before, id, k)
    &&& after.roots@ == if before.node(id).parent is None {
        without(before.roots@, id)
    } else {
        before.roots@
    }
    &&& after.roles == before.roles
}

/// Removes a node with its whole subtree: every removed node's slot is freed (its handle goes
/// dead), its text/image entries are dropped and the focus is cleared if it was on it; the
/// node is taken out of its parent's child list, or out of the roots when it has no parent.
/// A dead handle is a no-op.
pub fn remove_node(scene: &mut Scene, id: NodeId)
    requires
        old(scene).wf(),
    ensures
        !old(scene).live(id) ==> *final(scene) == *old(scene),
        old(scene).live(id) ==> node_removed(*old(scene), *final(scene), id),
        norm_key(id.0) == id.0 ==> final(scene).wf(),
{
    let parent = match scene.get(id) {
        Some(n) => n.parent,
        None => {
            return ;
        },
    };
    let ghost s0 = *scene;
    proof {
        lemma_wf_teardown(*scene);
    }
    remove_subtree(scene, id);
    let ghost s1 = *scene;
    match parent {
        Some(pid) => {
            match scene.get_mut(pid) {
                Some(p) => {
                    let kept = retain_ne(&p.children, id);
                    p.children = kept;
                },
                None => {},
            }
        },
        None => {
            let kept = retain_ne(&scene.roots, id);
            scene.roots = kept;
        },
    }
    proof {
        let key = norm_key(id.0);
        lemma_parent_live(s0, id);
        assert(s0.slots()[key].parent == parent);
        match parent {
            Some(pid) => {
                if s0.slots().contains_key(norm_key(pid.0)) {
                    assert(norm_key(pid.0) == pid.0);
                }
            },
            None => {},
        }
        assert(removed(s0, *scene) == removed(s0, s1));
        assert forall|k: u64| #[trigger] scene.slots().contains_key(k) implies scene.slots()[k]@
            == detached_view(s0, id, k) && scene.slots()[k].id == s0.slots()[k].id
            && scene.slots()[k].parent == s0.slots()[k].parent && scene.slots()[k].children@
            == detached_view(s0, id, k).children by {
            assert(s1.slots()[k] == s0.slots()[k]);
            if s0.node(id).parent == Some(NodeId(k)) {
                assert(scene.slots()[k]@ =~= with_children(s0.slots()[k]@, without(s0.slots()[k].children@, id)));
            }
        }
        assert forall|k: u64| #[trigger] scene.view_nodes().contains_key(k) implies scene.view_nodes()[k]
            == detached_view(s0, id, k) by {
            assert(scene.slots().contains_key(k));
        }
        if norm_key(id.0) == id.0 {
            lemma_detached_wf(s0, *scene, id);
        }
    }
}

/// Whether a handle is in the form the scene hands out (its version bit set), so that it
/// equals the key of the node it denotes.
pub open spec fn canonical(id: NodeId) -> bool {
    norm_key(id.0) == id.0
}

/// The node `id` after creation: a fresh node recording its own handle.
pub open spec fn created_view(id: NodeId, kind: NodeKind, touchable: bool, clipped: bool) -> NodeView {
    NodeView { id: id, ..fresh_node(kind, touchable, clipped) }
}

/// `id` is a handle the slot map handed out for a new node: canonical, of no node `before`
/// had, with a slot index in `1..slot_span` of `after` (so never the invalid handle); the slot
/// map grew by one slot at most, and the live handles of `after` are those of `before` (their
/// nodes unchanged) and `id`.
pub open spec fn fresh_handle(before: Scene, after: Scene, id: NodeId) -> bool {
    &&& canonical(id)
    &&& !before.view_nodes().contains_key(id.0)
    &&& 1 <= id.0 as int % 0x1_0000_0000 < slot_span(after.nodes)
    &&& id.0 != u64::MAX
    &&& slot_span(after.nodes) <= slot_span(before.nodes) + 1
    &&& forall|x: NodeId| #[trigger] after.live(x) == (before.live(x) || norm_key(x.0) == id.0)
    &&& forall|x: NodeId| before.live(x) ==> #[trigger] after.node(x) == before.node(x)
}

/// The side tables after creating node `id` of `kind`: a text node gets an empty content
/// entry and an image node an empty source entry; focus, roles and controls are as before.
pub open spec fn created_tables(before: Scene, after: Scene, id: NodeId, kind: NodeKind) -> bool {
    &&& forall|k: u64|
        #![trigger table_text(after.text_contents@, k)]
        table_text(after.text_contents@, k) == if k == id.0 && kind == NodeKind::TextNode {
            Some(Seq::<char>::empty())
        } else {
            table_text(before.text_contents@, k)
        }
    &&& forall|k: u64|
        #![trigger table_text(after.image_srcs@, k)]
        table_text(after.image_srcs@, k) == if k == id.0 && kind == NodeKind::Image {
            Some(Seq::<char>::empty())
        } else {
            table_text(before.image_srcs@, k)
        }
    &&& after.focused_node == before.focused_node
    &&& after.roles == before.roles
    &&& after.controls == before.controls
}

/// `after` is `before` plus the new detached node `id` of `kind` (`fresh_handle`,
/// `created_tables`); the roots are as before.
pub open spec fn created(
    before: Scene,
    after: Scene,
    id: NodeId,
    kind: NodeKind,
    touchable: bool,
    clipped: bool,
) -> bool {
    &&& fresh_handle(before, after, id)
    &&& after.view_nodes() == before.view_nodes().insert(
        id.0,
        created_view(id, kind, touchable, clipped),
    )
    &&& created_tables(before, after, id, kind)
    &&& after.roots == before.roots
}

/// Stores a fresh node and records its handle in it; a text node gets an empty content entry
/// and an image node an empty source entry.
fn alloc_node(scene: &mut Scene, kind: NodeKind, touchable: bool, clipped: bool) -> (id: NodeId)
    requires
        old(scene).wf(),
        old(scene).has_room(),
    ensures
        final(scene).wf(),
        created(*old(scene), *final(scene), id, kind, touchable, clipped),
{
    let ghost s0 = *scene;
    let node = make_node(kind, touchable, clipped);
    let k = slots_insert(&mut scene.nodes, node);
    let id = NodeId(k);
    match slots_get_mut(&mut scene.nodes, k) {
        Some(n) => {
            n.id = id;
        },
        None => {},
    }
    if kind == NodeKind::TextNode {
        scene.text_contents.insert(k, String::new());
    } else if kind == NodeKind::Image {
        scene.image_srcs.insert(k, String::new());
    }
    proof {
        assert(u64::MAX as int % 0x1_0000_0000 == 0xFFFF_FFFF);
        reveal(Scene::links_ok);
        assert(scene.view_nodes() =~= s0.view_nodes().insert(
            id.0,
            created_view(id, kind, touchable, clipped),
        ));
        assert forall|kk: u64| #[trigger] scene.slots().contains_key(kk) implies norm_key(kk) == kk
            && scene.slots()[kk].id.0 == kk by {
            if kk != k {
                assert(s0.slots().contains_key(kk));
            }
        }
        assert forall|kk: u64, i: int|
            scene.slots().contains_key(kk) && 0 <= i < scene.slots()[kk].children@.len() implies {
            let c = #[trigger] scene.slots()[kk].children@[i];
            &&& scene.slots().contains_key(c.0)
            &&& scene.slots()[c.0].parent == Some(NodeId(kk))
        } by {
            let c = scene.slots()[kk].children@[i];
            assert(kk != k);
            assert(s0.slots().contains_key(c.0));
            assert(c.0 != k);
        }
        assert forall|kk: u64| #[trigger] scene.slots().contains_key(kk) implies match scene.slots()[kk].parent {
            Some(p) => scene.slots().contains_key(p.0) && scene.slots()[p.0].children@.contains(
                NodeId(kk),
            ),
            None => true,
        } by {
            if kk != k {
                match s0.slots()[kk].parent {
                    Some(p) => {
                        assert(s0.slots().contains_key(p.0));
                        assert(p.0 != k);
                    },
                    None => {},
                }
            }
        }
    }
    id
}

/// Creates a detached node of the kind named by `tag` (see `kind_from_tag`), touchable and
/// clipping as its resolved style says. An unknown tag is an error and changes nothing.
pub fn create_node(scene: &mut Scene, tag: &str, touchable: bool, clipped: bool) -> (r: Result<
    NodeId,
    String,
>)
    requires
        old(scene).wf(),
        old(scene).has_room(),
    ensures
        final(scene).wf(),
        match tag_kind(tag@) {
            Some(k) => r matches Ok(id) && created(
                *old(scene),
                *final(scene),
                id,
                k,
                touchable,
                clipped,
            ),
            None => r matches Err(msg) && msg@ == unknown_tag_message(tag@) && *final(scene) == *old(
                scene,
            ),
        },
{
    let kind = match kind_from_tag(tag) {
        Ok(k) => k,
        Err(e) => {
            return Err(e);
        },
    };
    Ok(alloc_node(scene, kind, touchable, clipped))
}

/// Creates a detached node of a kind already resolved (template instantiation), touchable and
/// clipping as its baked style says; a control node gets its initial control state.
pub fn create_node_from_template(
    scene: &mut Scene,
    kind: NodeKind,
    touchable: bool,
    clipped: bool,
    control: Option<ControlState>,
) -> (id: NodeId)
    requires
        old(scene).wf(),
        old(scene).has_room(),
    ensures
        final(scene).wf(),
        created(
            *old(scene),
            Scene { controls: old(scene).controls, ..*final(scene) },
            id,
            kind,
            touchable,
            clipped,
        ),
        final(scene).controls@ == match control {
            Some(st) => old(scene).controls@.insert(id.0, st),
            None => old(scene).controls@,
        },
        control is None ==> final(scene).controls == old(scene).controls,
{
    let id = alloc_node(scene, kind, touchable, clipped);
    proof {
        reveal(Scene::links_ok);
    }
    match control {
        Some(st) => {
            scene.controls.ensure(id, st);
        },
        None => {},
    }
    id
}

/// Creates a root: a node as `create_node` makes it, appended to the roots and marked as both
/// a style scope root and an id-lookup scope.
pub fn create_root(scene: &mut Scene, tag: &str, touchable: bool, clipped: bool) -> (r: Result<
    NodeId,
    String,
>)
    requires
        old(scene).wf(),
        old(scene).has_room(),
    ensures
        final(scene).wf(),
        match tag_kind(tag@) {
            Some(k) => r matches Ok(id) && fresh_handle(*old(scene), *final(scene), id)
                && final(scene).view_nodes() == old(scene).view_nodes().insert(
                id.0,
                NodeView {
                    flags: FLAG_SCOPE_ROOT | FLAG_LOOKUP_SCOPE,
                    ..created_view(id, k, touchable, clipped)
                },
            ) && created_tables(*old(scene), *final(scene), id, k) && final(scene).roots@ == old(
                scene,
            ).roots@.push(id),
            None => r matches Err(msg) && msg@ == unknown_tag_message(tag@) && *final(scene) == *old(
                scene,
            ),
        },
{
    let id = match create_node(scene, tag, touchable, clipped) {
        Ok(id) => id,
        Err(e) => {
            return Err(e);
        },
    };
    let ghost s1 = *scene;
    proof {
        assert(tag_kind(tag@) is Some);
        assert(created(*old(scene), s1, id, tag_kind(tag@)->0, touchable, clipped));
    }
    scene.roots.push(id);
    match scene.get_mut(id) {
        Some(n) => {
            n.interaction.flags.insert(NodeFlags::scope_root().union(NodeFlags::lookup_scope()));
        },
        None => {},
    }
    proof {
        assert((0u8 | (32u8 | 64u8)) == (32u8 | 64u8)) by (bit_vector);
        lemma_view_nodes(s1);
        assert(s1.view_nodes().contains_key(id.0));
        assert(s1.slots().contains_key(id.0));
        assert(s1.view_nodes()[id.0].flags == 0);
        assert(s1.slots()[id.0].interaction.flags.0 == 0);
        assert(scene.slots()[id.0].interaction.flags.0 == FLAG_SCOPE_ROOT | FLAG_LOOKUP_SCOPE);
        assert(scene.view_nodes() =~= s1.view_nodes().insert(
            id.0,
            NodeView {
                flags: FLAG_SCOPE_ROOT | FLAG_LOOKUP_SCOPE,
                ..s1.view_nodes()[id.0]
            },
        ));
        assert(scene.slots().dom() =~= s1.slots().dom());
        lemma_same_links(s1, *scene);
        lemma_view_nodes(*scene);
        assert forall|x: NodeId| #[trigger] scene.live(x) == (s1.live(x)) by {
            assert(scene.slots().contains_key(norm_key(x.0)) == s1.slots().contains_key(norm_key(x.0)));
        }
        assert forall|x: NodeId| s1.live(x) && norm_key(x.0) != id.0 implies #[trigger] scene.node(x)
            == s1.node(x) by {
            assert(scene.view_nodes()[norm_key(x.0)] == s1.view_nodes()[norm_key(x.0)]);
        }
    }
    Ok(id)
}

/// The node views after `parent`'s child list becomes `kids` and `child` records `parent`
/// as its parent (in that order).
pub open spec fn linked(v: Map<u64, NodeView>, parent: NodeId, child: NodeId, kids: Seq<NodeId>) -> Map<
    u64,
    NodeView,
> {
    let pk = norm_key(parent.0);
    let ck = norm_key(child.0);
    let m1 = v.insert(pk, with_children(v[pk], kids));
    m1.insert(ck, NodeView { parent: Some(parent), ..m1[ck] })
}

/// The node views after `child` is appended under `parent`.
pub open spec fn appended(v: Map<u64, NodeView>, parent: NodeId, child: NodeId) -> Map<u64, NodeView> {
    linked(v, parent, child, v[norm_key(parent.0)].children.push(child))
}

/// What `append_child` does: a dead parent is an error; a pair already linked is left as it
/// is; a child that already has a parent is an error; otherwise the child is appended. Errors
/// change nothing.
pub open spec fn append_outcome(
    before: Scene,
    after: Scene,
    parent: NodeId,
    child: NodeId,
    r: Result<(), String>,
) -> bool {
    &&& !before.live(parent) ==> (r matches Err(m) && m@ == "parent not live"@ && after == before)
    &&& before.live(parent) && before.node(parent).children.contains(child) ==> r is Ok && after
        == before
    &&& before.live(parent) && !before.node(parent).children.contains(child) && before.node(
        child,
    ).parent is Some ==> (r matches Err(m) && m@
        == "child already has parent（先 remove_child 摘除当前父）"@ && after == before)
    &&& before.live(parent) && !before.node(parent).children.contains(child) && before.node(
        child,
    ).parent is None ==> r is Ok && after.view_nodes() == appended(
        before.view_nodes(),
        parent,
        child,
    ) && same_tables(before, after)
}

/// Only the node views changed (roots, focus, roles, controls and the text/image tables are as before).
pub open spec fn same_tables(before: Scene, after: Scene) -> bool {
    &&& after.roots == before.roots
    &&& after.focused_node == before.focused_node
    &&& after.roles == before.roles
    &&& after.controls == before.controls
    &&& after.text_contents == before.text_contents
    &&& after.image_srcs == before.image_srcs
    &&& slot_span(after.nodes) == slot_span(before.nodes)
}

/// Appends `child` to the children of `parent` and makes `parent` its parent. A dead parent
/// is an error; a pair already linked is left as it is; a child that already has a parent is
/// an error (detach it with `remove_child` first). Errors change nothing.
pub fn append_child(scene: &mut Scene, parent: NodeId, child: NodeId) -> (r: Result<(), String>)
    requires
        old(scene).wf(),
        old(scene).live(parent) && !old(scene).node(parent).children.contains(child) ==> old(
            scene,
        ).live(child),
    ensures
        append_outcome(*old(scene), *final(scene), parent, child, r),
        canonical(parent) && canonical(child) ==> final(scene).wf(),
        store_sane(final(scene).nodes),
        final(scene).slots().dom() == old(scene).slots().dom(),
{
    let ghost s0 = *scene;
    proof {
        lemma_view_nodes(s0);
    }
    match scene.get(parent) {
        None => {
            return Err(String::from_str("parent not live"));
        },
        Some(p) => {
            if contains_id(&p.children, child) {
                return Ok(());
            }
        },
    }
    match scene.get(child) {
        Some(c) => {
            if c.parent.is_some() {
                return Err(
                    String::from_str("child already has parent（先 remove_child 摘除当前父）"),
                );
            }
        },
        None => {},
    }
    let len = match scene.get(parent) {
        Some(p) => p.children.len(),
        None => 0,
    };
    link_at(scene, parent, child, len);
    proof {
        let kids0 = s0.node(parent).children;
        assert(kids0.push(child) =~= kids0.insert(kids0.len() as int, child));
    }
    Ok(())
}

/// Puts `child` at position `pos` of `parent`'s children and makes `parent` its parent.
fn link_at(scene: &mut Scene, parent: NodeId, child: NodeId, pos: usize)
    requires
        old(scene).wf(),
        old(scene).live(parent),
        old(scene).live(child),
        old(scene).node(child).parent is None,
        pos <= old(scene).node(parent).children.len(),
    ensures
        final(scene).view_nodes() == linked(
            old(scene).view_nodes(),
            parent,
            child,
            old(scene).node(parent).children.insert(pos as int, child),
        ),
        same_tables(*old(scene), *final(scene)),
        canonical(parent) && canonical(child) ==> final(scene).wf(),
        final(scene).slots().dom() == old(scene).slots().dom(),
{
    let ghost s0 = *scene;
    match scene.get_mut(parent) {
        Some(p) => {
            p.children.insert(pos, child);
        },
        None => {},
    }
    let ghost s1 = *scene;
    match scene.get_mut(child) {
        Some(c) => {
            c.parent = Some(parent);
        },
        None => {},
    }
    proof {
        lemma_view_nodes(s0);
        lemma_view_nodes(s1);
        lemma_view_nodes(*scene);
        assert(scene.view_nodes() =~= linked(
            s0.view_nodes(),
            parent,
            child,
            s0.node(parent).children.insert(pos as int, child),
        ));
        if canonical(parent) && canonical(child) {
            lemma_linked_wf(s0, *scene, parent, child, pos as int);
        }
        assert(scene.slots().dom() =~= s0.slots().dom());
    }
}

/// Whether `v` holds the handle `x` (compared as raw values).
pub fn contains_id(v: &Vec<NodeId>, x: NodeId) -> (r: bool)
    ensures
        r == v@.contains(x),
{
    let mut i: usize = 0;
    while i < v.len()
        invariant
            i <= v@.len(),
            forall|j: int| 0 <= j < i ==> v@[j] != x,
        decreases v@.len() - i,
    {
        if v[i].0 == x.0 {
            assert(v@[i as int] == x);
            return true;
        }
        i = i + 1;
    }
    false
}

proof fn lemma_linked_wf(s0: Scene, s1: Scene, parent: NodeId, child: NodeId, pos: int)
    requires
        s0.wf(),
        canonical(parent),
        canonical(child),
        s0.live(parent),
        s0.live(child),
        s0.node(child).parent is None,
        0 <= pos <= s0.node(parent).children.len(),
        store_sane(s1.nodes),
        s1.view_nodes() == linked(
            s0.view_nodes(),
            parent,
            child,
            s0.node(parent).children.insert(pos, child),
        ),
    ensures
        s1.wf(),
{
    reveal(Scene::links_ok);
    lemma_view_nodes(s0);
    lemma_view_nodes(s1);
    let m0 = s0.slots();
    let m1 = s1.slots();
    let kids = s0.node(parent).children.insert(pos, child);
    assert forall|k: u64| #[trigger] m1.contains_key(k) implies norm_key(k) == k && m1[k].id.0
        == k by {
        assert(s1.view_nodes().contains_key(k));
        assert(m0.contains_key(k));
        assert(s1.view_nodes()[k].id == s0.view_nodes()[k].id);
    }
    assert forall|k: u64, i: int| m1.contains_key(k) && 0 <= i < m1[k].children@.len() implies {
        let c = #[trigger] m1[k].children@[i];
        &&& m1.contains_key(c.0)
        &&& m1[c.0].parent == Some(NodeId(k))
    } by {
        assert(s1.view_nodes().contains_key(k));
        assert(m0.contains_key(k));
        let c = m1[k].children@[i];
        assert(s1.view_nodes()[k].children[i] == c);
        if k == parent.0 && i == pos {
            assert(c == child);
            assert(s1.view_nodes().contains_key(child.0));
        } else {
            let j = if k == parent.0 && i > pos {
                i - 1
            } else {
                i
            };
            assert(c == m0[k].children@[j]);
            assert(m0.contains_key(c.0));
            assert(m0[c.0].parent == Some(NodeId(k)));
            assert(c.0 != child.0);
            assert(s1.view_nodes().contains_key(c.0));
            assert(s1.view_nodes()[c.0].parent == Some(NodeId(k)));
        }
    }
    assert forall|k: u64| #[trigger] m1.contains_key(k) implies match m1[k].parent {
        Some(p) => m1.contains_key(p.0) && m1[p.0].children@.contains(NodeId(k)),
        None => true,
    } by {
        assert(s1.view_nodes().contains_key(k));
        assert(m0.contains_key(k));
        if k == child.0 {
            assert(m1[k].parent == Some(parent));
            assert(s1.view_nodes().contains_key(parent.0));
            assert(m1[parent.0].children@ == kids);
            assert(kids[pos] == child);
        } else {
            match m0[k].parent {
                Some(p) => {
                    assert(m0.contains_key(p.0));
                    assert(m0[p.0].children@.contains(NodeId(k)));
                    let j = choose|j: int|
                        0 <= j < m0[p.0].children@.len() && m0[p.0].children@[j] == NodeId(k);
                    assert(s1.view_nodes().contains_key(p.0));
                    if p.0 == parent.0 {
                        let jj = if j < pos {
                            j
                        } else {
                            j + 1
                        };
                        assert(m1[p.0].children@[jj] == NodeId(k));
                    } else {
                        assert(m1[p.0].children@[j] == NodeId(k));
                    }
                },
                None => {},
            }
        }
    }
}

/// Position of the first occurrence of `x` in `s`.
pub open spec fn first_pos(s: Seq<NodeId>, x: NodeId) -> int {
    choose|i: int| 0 <= i < s.len() && s[i] == x && forall|j: int| 0 <= j < i ==> s[j] != x
}

/// Inserts `child` into the children of `parent` just before `ref_id` (its first occurrence)
/// and makes `parent` its parent. The invalid handle as `ref_id` appends (as `append_child`).
/// Errors, which change nothing: a child that already has a parent, a dead parent, a
/// `ref_id` that is not among the parent's children.
pub fn insert_before(scene: &mut Scene, parent: NodeId, child: NodeId, ref_id: NodeId) -> (r:
    Result<(), String>)
    requires
        old(scene).wf(),
        ref_id.0 == u64::MAX && old(scene).live(parent) && !old(scene).node(
            parent,
        ).children.contains(child) ==> old(scene).live(child),
        ref_id.0 != u64::MAX && old(scene).live(parent) && old(scene).node(
            parent,
        ).children.contains(ref_id) ==> old(scene).live(child),
    ensures
        ref_id.0 == u64::MAX ==> append_outcome(*old(scene), *final(scene), parent, child, r),
        ref_id.0 != u64::MAX ==> {
            &&& old(scene).live(child) && old(scene).node(child).parent is Some ==> (r matches Err(m)
                && m@ == "child already has parent（先 remove_child 摘除当前父）"@
                && *final(scene) == *old(scene))
            &&& !(old(scene).live(child) && old(scene).node(child).parent is Some) && !old(
                scene,
            ).live(parent) ==> (r matches Err(m) && m@ == "parent not live"@ && *final(scene)
                == *old(scene))
            &&& !(old(scene).live(child) && old(scene).node(child).parent is Some) && old(
                scene,
            ).live(parent) && !old(scene).node(parent).children.contains(ref_id) ==> (r matches Err(m)
                && m@ == "ref_id not in parent.children"@ && *final(scene) == *old(scene))
            &&& !(old(scene).live(child) && old(scene).node(child).parent is Some) && old(
                scene,
            ).live(parent) && old(scene).node(parent).children.contains(ref_id) ==> r is Ok
                && final(scene).view_nodes() == linked(
                old(scene).view_nodes(),
                parent,
                child,
                old(scene).node(parent).children.insert(
                    first_pos(old(scene).node(parent).children, ref_id),
                    child,
                ),
            ) && same_tables(*old(scene), *final(scene))
        },
        canonical(parent) && canonical(child) ==> final(scene).wf(),
        store_sane(final(scene).nodes),
{
    if !ref_id.is_valid() {
        return append_child(scene, parent, child);
    }
    let ghost s0 = *scene;
    proof {
        lemma_view_nodes(s0);
    }
    match scene.get(child) {
        Some(c) => {
            if c.parent.is_some() {
                return Err(
                    String::from_str("child already has parent（先 remove_child 摘除当前父）"),
                );
            }
        },
        None => {},
    }
    let pos = match scene.get(parent) {
        None => {
            return Err(String::from_str("parent not live"));
        },
        Some(p) => match position_of(&p.children, ref_id) {
            None => {
                return Err(String::from_str("ref_id not in parent.children"));
            },
            Some(i) => i,
        },
    };
    link_at(scene, parent, child, pos);
    proof {
        assert(first_pos(s0.node(parent).children, ref_id) == pos as int);
    }
    Ok(())
}

/// Position of the first occurrence of `x` in `v` (compared as raw values), if any.
pub fn position_of(v: &Vec<NodeId>, x: NodeId) -> (r: Option<usize>)
    ensures
        match r {
            Some(i) => i < v@.len() && v@[i as int] == x && forall|j: int| 0 <= j < i ==> v@[j] != x,
            None => !v@.contains(x),
        },
{
    let mut i: usize = 0;
    while i < v.len()
        invariant
            i <= v@.len(),
            forall|j: int| 0 <= j < i ==> v@[j] != x,
        decreases v@.len() - i,
    {
        if v[i].0 == x.0 {
            assert(v@[i as int] == x);
            return Some(i);
        }
        i = i + 1;
    }
    None
}

/// The node views after `child` is detached from `parent`: the parent's child list loses it,
/// then the child has no parent.
pub open spec fn unlinked(v: Map<u64, NodeView>, parent: NodeId, child: NodeId) -> Map<u64, NodeView> {
    let pk = norm_key(parent.0);
    let ck = norm_key(child.0);
    let m1 = v.insert(pk, with_children(v[pk], without(v[pk].children, child)));
    m1.insert(ck, NodeView { parent: None, ..m1[ck] })
}

/// Detaches `child` from `parent` without deleting it (it stays live and can be attached
/// elsewhere). It is an error, changing nothing, unless `child` is live with `parent` as its
/// parent.
pub fn remove_child(scene: &mut Scene, parent: NodeId, child: NodeId) -> (r: Result<(), String>)
    requires
        store_sane(old(scene).nodes),
    ensures
        !(old(scene).live(child) && old(scene).node(child).parent == Some(parent)) ==> (r matches Err(m)
            && m@ == "remove_child: child is not a direct child of parent"@ && *final(scene) == *old(
            scene)),
        old(scene).live(child) && old(scene).node(child).parent == Some(parent) && !old(scene).live(
            parent,
        ) ==> (r matches Err(m) && m@ == "parent not live"@ && *final(scene) == *old(scene)),
        old(scene).live(child) && old(scene).node(child).parent == Some(parent) && old(scene).live(
            parent,
        ) ==> r is Ok && final(scene).view_nodes() == unlinked(old(scene).view_nodes(), parent, child)
            && same_tables(*old(scene), *final(scene)),
        old(scene).wf() && old(scene).live(child) && old(scene).node(child).parent == Some(parent)
            ==> old(scene).live(parent),
        old(scene).wf() && canonical(child) ==> final(scene).wf(),
        store_sane(final(scene).nodes),
        final(scene).slots().dom() == old(scene).slots().dom(),
{
    let ghost s0 = *scene;
    proof {
        lemma_view_nodes(s0);
        if s0.wf() && s0.live(child) {
            lemma_parent_live(s0, child);
        }
    }
    let actual = match scene.get(child) {
        Some(c) => c.parent,
        None => None,
    };
    let direct = match actual {
        Some(a) => a.0 == parent.0,
        None => false,
    };
    if !direct {
        return Err(String::from_str("remove_child: child is not a direct child of parent"));
    }
    if scene.get(parent).is_none() {
        return Err(String::from_str("parent not live"));
    }
    match scene.get_mut(parent) {
        Some(p) => {
            let kept = retain_ne(&p.children, child);
            p.children = kept;
        },
        None => {},
    }
    let ghost s1 = *scene;
    match scene.get_mut(child) {
        Some(c) => {
            c.parent = None;
        },
        None => {},
    }
    proof {
        lemma_view_nodes(s1);
        lemma_view_nodes(*scene);
        assert(scene.view_nodes() =~= unlinked(s0.view_nodes(), parent, child));
        if s0.wf() && canonical(child) {
            lemma_unlinked_wf(s0, *scene, parent, child);
        }
        assert(scene.slots().dom() =~= s0.slots().dom());
    }
    Ok(())
}

#[verifier::rlimit(40)]
proof fn lemma_unlinked_wf(s0: Scene, s1: Scene, parent: NodeId, child: NodeId)
    requires
        s0.wf(),
        canonical(child),
        s0.live(child),
        s0.node(child).parent == Some(parent),
        store_sane(s1.nodes),
        s1.view_nodes() == unlinked(s0.view_nodes(), parent, child),
    ensures
        s1.wf(),
{
    reveal(Scene::links_ok);
    lemma_view_nodes(s0);
    lemma_view_nodes(s1);
    let m0 = s0.slots();
    let m1 = s1.slots();
    assert(m0.contains_key(parent.0));
    assert(canonical(parent));
    assert forall|k: u64| #[trigger] m1.contains_key(k) implies norm_key(k) == k && m1[k].id.0
        == k by {
        assert(s1.view_nodes().contains_key(k));
        assert(m0.contains_key(k));
        assert(s1.view_nodes()[k].id == s0.view_nodes()[k].id);
    }
    assert forall|k: u64, i: int| m1.contains_key(k) && 0 <= i < m1[k].children@.len() implies {
        let c = #[trigger] m1[k].children@[i];
        &&& m1.contains_key(c.0)
        &&& m1[c.0].parent == Some(NodeId(k))
    } by {
        assert(s1.view_nodes().contains_key(k));
        assert(m0.contains_key(k));
        let c = m1[k].children@[i];
        assert(s1.view_nodes()[k].children[i] == c);
        let kids = m0[k].children@;
        if k == parent.0 {
            assert(m1[k].children@ == without(kids, child));
            kids.lemma_filter_pred(crate::scene::differs_from(child), i);
            assert(c != child);
            assert(without(kids, child).contains(c));
            kids.lemma_filter_contains_rev(crate::scene::differs_from(child), c);
        } else {
            assert(m1[k].children@ == kids);
            assert(kids.contains(c));
        }
        let j = choose|j: int| 0 <= j < kids.len() && kids[j] == c;
        assert(m0.contains_key(c.0));
        assert(m0[c.0].parent == Some(NodeId(k)));
        assert(c.0 != child.0);
        assert(s1.view_nodes().contains_key(c.0));
        assert(s1.view_nodes()[c.0].parent == Some(NodeId(k)));
    }
    assert forall|k: u64| #[trigger] m1.contains_key(k) implies match m1[k].parent {
        Some(p) => m1.contains_key(p.0) && m1[p.0].children@.contains(NodeId(k)),
        None => true,
    } by {
        assert(s1.view_nodes().contains_key(k));
        assert(m0.contains_key(k));
        if k != child.0 {
            match m0[k].parent {
                Some(p) => {
                    assert(m0.contains_key(p.0));
                    let kids = m0[p.0].children@;
                    assert(kids.contains(NodeId(k)));
                    let j = choose|j: int| 0 <= j < kids.len() && kids[j] == NodeId(k);
                    assert(s1.view_nodes().contains_key(p.0));
                    if p.0 == parent.0 {
                        assert(NodeId(k) != child);
                        kids.lemma_filter_contains(crate::scene::differs_from(child), j);
                        assert(m1[p.0].children@ == without(kids, child));
                    } else {
                        assert(m1[p.0].children@[j] == NodeId(k));
                    }
                },
                None => {},
            }
        }
    }
}

/// The node views after node `k`'s view becomes `v`.
pub open spec fn with_node(s: Scene, k: u64, v: NodeView) -> Map<u64, NodeView> {
    s.view_nodes().insert(k, v)
}

/// Sets the content of a text node and marks its text for re-measuring. A dead handle or a
/// node of another kind is an error and changes nothing.
pub fn set_text(scene: &mut Scene, node: NodeId, text: &str) -> (r: Result<(), String>)
    requires
        old(scene).wf(),
    ensures
        final(scene).wf(),
        !old(scene).live(node) ==> (r matches Err(m) && m@ == "set_text: node not live"@ && *final(
            scene) == *old(scene)),
        old(scene).live(node) && old(scene).node(node).kind != NodeKind::TextNode ==> (r matches Err(m)
            && m@ == "set_text 只对 Text 节点生效"@ && *final(scene) == *old(scene)),
        old(scene).live(node) && old(scene).node(node).kind == NodeKind::TextNode ==> {
            &&& r is Ok
            &&& final(scene).view_nodes() == with_node(
                *old(scene),
                norm_key(node.0),
                NodeView { dirty_text: true, ..old(scene).node(node) },
            )
            &&& forall|k: u64|
                #![trigger table_text(final(scene).text_contents@, k)]
                table_text(final(scene).text_contents@, k) == if k == node.0 {
                    Some(text@)
                } else {
                    table_text(old(scene).text_contents@, k)
                }
            &&& final(scene).image_srcs == old(scene).image_srcs
            &&& final(scene).roots == old(scene).roots
            &&& final(scene).focused_node == old(scene).focused_node
            &&& final(scene).roles == old(scene).roles
            &&& final(scene).controls == old(scene).controls
        },
{
    let ghost s0 = *scene;
    match scene.get(node) {
        None => {
            return Err(String::from_str("set_text: node not live"));
        },
        Some(n) => {
            if n.kind != NodeKind::TextNode {
                return Err(String::from_str("set_text 只对 Text 节点生效"));
            }
        },
    }
    scene.text_contents.insert(node.0, String::from_str(text));
    match scene.get_mut(node) {
        Some(n) => {
            n.dirty_text = true;
        },
        None => {},
    }
    proof {
        lemma_view_nodes(s0);
        lemma_view_nodes(*scene);
        assert(scene.view_nodes() =~= with_node(
            s0,
            norm_key(node.0),
            NodeView { dirty_text: true, ..s0.node(node) },
        ));
        assert(scene.slots().dom() =~= s0.slots().dom());
        lemma_same_links(s0, *scene);
    }
    Ok(())
}

/// Sets the source of an image node and marks its mesh for rebuilding. A dead handle or a
/// node of another kind is an error and changes nothing.
pub fn set_src(scene: &mut Scene, node: NodeId, src: &str) -> (r: Result<(), String>)
    requires
        old(scene).wf(),
    ensures
        final(scene).wf(),
        !old(scene).live(node) ==> (r matches Err(m) && m@ == "set_src: node not live"@ && *final(
            scene) == *old(scene)),
        old(scene).live(node) && old(scene).node(node).kind != NodeKind::Image ==> (r matches Err(m)
            && m@ == "set_src 只对 Image 节点生效"@ && *final(scene) == *old(scene)),
        old(scene).live(node) && old(scene).node(node).kind == NodeKind::Image ==> {
            &&& r is Ok
            &&& final(scene).view_nodes() == with_node(
                *old(scene),
                norm_key(node.0),
                NodeView { dirty_mesh: true, ..old(scene).node(node) },
            )
            &&& forall|k: u64|
                #![trigger table_text(final(scene).image_srcs@, k)]
                table_text(final(scene).image_srcs@, k) == if k == node.0 {
                    Some(src@)
                } else {
                    table_text(old(scene).image_srcs@, k)
                }
            &&& final(scene).text_contents == old(scene).text_contents
            &&& final(scene).roots == old(scene).roots
            &&& final(scene).focused_node == old(scene).focused_node
            &&& final(scene).roles == old(scene).roles
            &&& final(scene).controls == old(scene).controls
        },
{
    let ghost s0 = *scene;
    match scene.get(node) {
        None => {
            return Err(String::from_str("set_src: node not live"));
        },
        Some(n) => {
            if n.kind != NodeKind::Image {
                return Err(String::from_str("set_src 只对 Image 节点生效"));
            }
        },
    }
    scene.image_srcs.insert(node.0, String::from_str(src));
    match scene.get_mut(node) {
        Some(n) => {
            n.dirty_mesh = true;
        },
        None => {},
    }
    proof {
        lemma_view_nodes(s0);
        lemma_view_nodes(*scene);
        assert(scene.view_nodes() =~= with_node(
            s0,
            norm_key(node.0),
            NodeView { dirty_mesh: true, ..s0.node(node) },
        ));
        assert(scene.slots().dom() =~= s0.slots().dom());
        lemma_same_links(s0, *scene);
    }
    Ok(())
}

/// Number of children of a node (`None` for a dead handle).
pub fn get_child_count(scene: &Scene, node: NodeId) -> (r: Option<usize>)
    ensures
        match r {
            Some(n) => scene.live(node) && n == scene.node(node).children.len(),
            None => !scene.live(node),
        },
{
    match scene.get(node) {
        Some(n) => Some(n.children.len()),
        None => None,
    }
}

/// The children of a node, in order (`None` for a dead handle; a leaf gives an empty list).
pub fn get_children(scene: &Scene, node: NodeId) -> (r: Option<Vec<NodeId>>)
    ensures
        match r {
            Some(v) => scene.live(node) && v@ == scene.node(node).children,
            None => !scene.live(node),
        },
{
    match scene.get(node) {
        Some(n) => Some(n.children.clone()),
        None => None,
    }
}

/// Whether a list of strings holds `name`.
fn has_string(v: &Vec<String>, name: &str) -> (r: bool)
    ensures
        r == v@.map_values(|s: String| s@).contains(name@),
{
    let ghost views = v@.map_values(|s: String| s@);
    let mut i: usize = 0;
    while i < v.len()
        invariant
            i <= v@.len(),
            views == v@.map_values(|s: String| s@),
            forall|j: int| 0 <= j < i ==> views[j] != name@,
        decreases v@.len() - i,
    {
        if str_eq(v[i].as_str(), name) {
            assert(views[i as int] == name@);
            return true;
        }
        i = i + 1;
    }
    false
}

/// Adds a class (not twice) and marks the node's mesh for rebuilding (class changes restyle).
/// A dead handle is an error and changes nothing.
pub fn add_class(scene: &mut Scene, node: NodeId, name: &str) -> (r: Result<(), String>)
    requires
        old(scene).wf(),
    ensures
        final(scene).wf(),
        !old(scene).live(node) ==> (r matches Err(m) && m@ == "node not live"@ && *final(scene)
            == *old(scene)),
        old(scene).live(node) ==> r is Ok && final(scene).view_nodes() == with_node(
            *old(scene),
            norm_key(node.0),
            NodeView {
                classes: if old(scene).node(node).classes.contains(name@) {
                    old(scene).node(node).classes
                } else {
                    old(scene).node(node).classes.push(name@)
                },
                dirty_mesh: true,
                ..old(scene).node(node)
            },
        ) && same_tables(*old(scene), *final(scene)),
{
    let ghost s0 = *scene;
    if scene.get(node).is_none() {
        return Err(String::from_str("node not live"));
    }
    match scene.get_mut(node) {
        None => {},
        Some(n) => {
            if !has_string(&n.classes, name) {
                n.classes.push(String::from_str(name));
            }
            n.dirty_mesh = true;
        },
    }
    proof {
        lemma_view_nodes(s0);
        lemma_view_nodes(*scene);
        let k = norm_key(node.0);
        assert(scene.slots()[k].classes@.map_values(|s: String| s@) =~= (if s0.node(
            node,
        ).classes.contains(name@) {
            s0.node(node).classes
        } else {
            s0.node(node).classes.push(name@)
        }));
        assert(scene.view_nodes() =~= with_node(
            s0,
            k,
            NodeView {
                classes: if s0.node(node).classes.contains(name@) {
                    s0.node(node).classes
                } else {
                    s0.node(node).classes.push(name@)
                },
                dirty_mesh: true,
                ..s0.node(node)
            },
        ));
        assert(scene.slots().dom() =~= s0.slots().dom());
        lemma_same_links(s0, *scene);
    }
    Ok(())
}

/// The class names of `s` other than `name`, in order.
pub open spec fn classes_without(s: Seq<Seq<char>>, name: Seq<char>) -> Seq<Seq<char>> {
    s.filter(|c: Seq<char>| c != name)
}

/// Copy of a class list without the entries equal to `name`.
fn strings_without(v: &Vec<String>, name: &str) -> (r: Vec<String>)
    ensures
        r@.map_values(|s: String| s@) == classes_without(v@.map_values(|s: String| s@), name@),
{
    let mut r: Vec<String> = Vec::new();
    let mut i: usize = 0;
    while i < v.len()
        invariant
            i <= v@.len(),
            r@.map_values(|s: String| s@) == classes_without(
                v@.subrange(0, i as int).map_values(|s: String| s@),
                name@,
            ),
        decreases v@.len() - i,
    {
        let ghost pre = v@.subrange(0, i + 1).map_values(|s: String| s@);
        proof {
            assert(pre.drop_last() =~= v@.subrange(0, i as int).map_values(|s: String| s@));
            assert(pre.last() == v@[i as int]@);
            reveal(Seq::filter);
        }
        let keep = !str_eq(v[i].as_str(), name);
        if keep {
            r.push(v[i].clone());
        }
        i = i + 1;
        proof {
            reveal(Seq::filter);
            if keep {
                assert(r@.map_values(|s: String| s@) =~= classes_without(
                    v@.subrange(0, i - 1).map_values(|s: String| s@),
                    name@,
                ).push(v@[i - 1]@));
            } else {
                assert(r@.map_values(|s: String| s@) =~= classes_without(
                    v@.subrange(0, i - 1).map_values(|s: String| s@),
                    name@,
                ));
            }
        }
    }
    assert(v@.subrange(0, v@.len() as int) =~= v@);
    r
}

/// Removes every class equal to `name` and marks the node's mesh for rebuilding. A dead
/// handle is an error and changes nothing.
pub fn remove_class(scene: &mut Scene, node: NodeId, name: &str) -> (r: Result<(), String>)
    requires
        old(scene).wf(),
    ensures
        final(scene).wf(),
        !old(scene).live(node) ==> (r matches Err(m) && m@ == "node not live"@ && *final(scene)
            == *old(scene)),
        old(scene).live(node) ==> r is Ok && final(scene).view_nodes() == with_node(
            *old(scene),
            norm_key(node.0),
            NodeView {
                classes: classes_without(old(scene).node(node).classes, name@),
                dirty_mesh: true,
                ..old(scene).node(node)
            },
        ) && same_tables(*old(scene), *final(scene)),
{
    let ghost s0 = *scene;
    if scene.get(node).is_none() {
        return Err(String::from_str("node not live"));
    }
    match scene.get_mut(node) {
        None => {},
        Some(n) => {
            let kept = strings_without(&n.classes, name);
            n.classes = kept;
            n.dirty_mesh = true;
        },
    }
    proof {
        lemma_view_nodes(s0);
        lemma_view_nodes(*scene);
        assert(scene.view_nodes() =~= with_node(
            s0,
            norm_key(node.0),
            NodeView {
                classes: classes_without(s0.node(node).classes, name@),
                dirty_mesh: true,
                ..s0.node(node)
            },
        ));
        assert(scene.slots().dom() =~= s0.slots().dom());
        lemma_same_links(s0, *scene);
    }
    Ok(())
}

/// Whether a node has the class `name` (`None` for a dead handle).
pub fn has_class(scene: &Scene, node: NodeId, name: &str) -> (r: Option<bool>)
    ensures
        match r {
            Some(b) => scene.live(node) && b == scene.node(node).classes.contains(name@),
            None => !scene.live(node),
        },
{
    match scene.get(node) {
        Some(n) => Some(has_string(&n.classes, name)),
        None => None,
    }
}

/// Sets the render reuse key of a node (virtual list slots); a dead handle is ignored.
pub fn set_reuse_key(scene: &mut Scene, node: NodeId, key: u32)
    requires
        old(scene).wf(),
    ensures
        final(scene).wf(),
        !old(scene).live(node) ==> *final(scene) == *old(scene),
        old(scene).live(node) ==> final(scene).view_nodes() == with_node(
            *old(scene),
            norm_key(node.0),
            NodeView { reuse_key: key, ..old(scene).node(node) },
        ) && same_tables(*old(scene), *final(scene)),
{
    let ghost s0 = *scene;
    match scene.get(node) {
        None => {
            return ;
        },
        Some(_) => {},
    }
    match scene.get_mut(node) {
        Some(n) => {
            n.reuse_key = key;
        },
        None => {},
    }
    proof {
        lemma_view_nodes(s0);
        lemma_view_nodes(*scene);
        assert(scene.view_nodes() =~= with_node(
            s0,
            norm_key(node.0),
            NodeView { reuse_key: key, ..s0.node(node) },
        ));
        assert(scene.slots().dom() =~= s0.slots().dom());
        lemma_same_links(s0, *scene);
    }
}

/// The node views after the node `node` denotes gets the display override `d` and a pending
/// mesh rebuild.
pub open spec fn with_display(v: Map<u64, NodeView>, node: NodeId, d: Option<DisplayOverride>) -> Map<
    u64,
    NodeView,
> {
    let k = norm_key(node.0);
    v.insert(k, NodeView { display_override: d, dirty_mesh: true, ..v[k] })
}

/// Forces the display of a node (`Some`) or hands it back to the node's style (`None`): the
/// display part of an inline style override. The node's mesh is marked for rebuilding. A dead
/// handle is an error and changes nothing.
pub fn set_display_override(scene: &mut Scene, node: NodeId, d: Option<DisplayOverride>) -> (r: Result<
    (),
    String,
>)
    requires
        old(scene).wf(),
    ensures
        final(scene).wf(),
        !old(scene).live(node) ==> (r matches Err(m) && m@ == "node not live"@ && *final(scene)
            == *old(scene)),
        old(scene).live(node) ==> r is Ok && final(scene).view_nodes() == with_display(
            old(scene).view_nodes(),
            node,
            d,
        ) && same_tables(*old(scene), *final(scene)),
{
    let ghost s0 = *scene;
    if scene.get(node).is_none() {
        return Err(String::from_str("node not live"));
    }
    match scene.get_mut(node) {
        Some(n) => {
            n.display_override = d;
            n.dirty_mesh = true;
        },
        None => {},
    }
    proof {
        lemma_view_nodes(s0);
        lemma_view_nodes(*scene);
        assert(scene.view_nodes() =~= with_display(s0.view_nodes(), node, d));
        assert(scene.slots().dom() =~= s0.slots().dom());
        lemma_same_links(s0, *scene);
    }
    Ok(())
}

/// Dropping a handle that does not occur changes nothing.
proof fn lemma_without_absent(s: Seq<NodeId>, x: NodeId)
    requires
        !s.contains(x),
    ensures
        without(s, x) == s,
    decreases s.len(),
{
    reveal(Seq::filter);
    if s.len() > 0 {
        assert(!s.drop_last().contains(x)) by {
            if s.drop_last().contains(x) {
                let j = choose|j: int| 0 <= j < s.drop_last().len() && s.drop_last()[j] == x;
                assert(s[j] == x);
            }
        }
        lemma_without_absent(s.drop_last(), x);
        assert(s.last() != x) by {
            assert(s[s.len() - 1] == s.last());
        }
        assert(s.drop_last().push(s.last()) =~= s);
    }
}

/// Dropping `x` from a list that ends with `x` drops that last entry too.
proof fn lemma_without_push(s: Seq<NodeId>, x: NodeId)
    ensures
        without(s.push(x), x) == without(s, x),
{
    reveal(Seq::filter);
    assert(s.push(x).drop_last() =~= s);
}

/// Appending a parentless child that its parent does not list yet and then detaching it again
/// restores every node as it was.
#[verifier::rlimit(40)]
pub proof fn law_append_then_remove_child(v: Map<u64, NodeView>, parent: NodeId, child: NodeId)
    requires
        v.contains_key(norm_key(parent.0)),
        v.contains_key(norm_key(child.0)),
        v[norm_key(child.0)].parent is None,
        !v[norm_key(parent.0)].children.contains(child),
    ensures
        unlinked(appended(v, parent, child), parent, child) == v,
{
    let kids = v[norm_key(parent.0)].children;
    lemma_without_push(kids, child);
    lemma_without_absent(kids, child);
    let r = unlinked(appended(v, parent, child), parent, child);
    assert(r =~= v);
}

/// In a well-formed scene, appending a live parentless child that the live parent does not
/// list yet and detaching it again, as `append_child` and then `remove_child` do it (with any
/// handles of the two nodes), gives back every node as it was, and the scene is well formed
/// again.
pub proof fn law_append_remove_round_trip(s0: Scene, s1: Scene, s2: Scene, parent: NodeId, child: NodeId)
    requires
        s0.wf(),
        s0.live(parent),
        s0.live(child),
        s0.node(child).parent is None,
        !s0.node(parent).children.contains(child),
        s1.view_nodes() == appended(s0.view_nodes(), parent, child),
        s2.view_nodes() == unlinked(s1.view_nodes(), parent, child),
        store_sane(s2.nodes),
    ensures
        s2.view_nodes() == s0.view_nodes(),
        s2.wf(),
{
    law_append_then_remove_child(s0.view_nodes(), parent, child);
    lemma_view_nodes(s0);
    lemma_view_nodes(s2);
    assert(s2.slots().dom() =~= s0.slots().dom());
    assert forall|k: u64| #[trigger] s2.slots().contains_key(k) implies s2.slots()[k].id == s0.slots()[k].id
        && s2.slots()[k].parent == s0.slots()[k].parent && s2.slots()[k].children@ == s0.slots()[k].children@ by {
        assert(s2.view_nodes()[k] == s0.view_nodes()[k]);
    }
    lemma_same_links(s0, s2);
}

/// Detaching a child that is its parent's last child (listed once) and appending it again
/// restores every node as it was.
pub proof fn law_remove_then_append_child(
    v: Map<u64, NodeView>,
    parent: NodeId,
    child: NodeId,
    rest: Seq<NodeId>,
)
    requires
        v.contains_key(norm_key(parent.0)),
        v.contains_key(norm_key(child.0)),
        v[norm_key(child.0)].parent == Some(parent),
        v[norm_key(parent.0)].children == rest.push(child),
        !rest.contains(child),
    ensures
        appended(unlinked(v, parent, child), parent, child) == v,
{
    let pk = norm_key(parent.0);
    let ck = norm_key(child.0);
    lemma_without_push(rest, child);
    lemma_without_absent(rest, child);
    let u = unlinked(v, parent, child);
    assert(u.dom() == v.dom());
    let r = appended(u, parent, child);
    assert forall|k: u64| #[trigger] r.contains_key(k) implies r[k] == v[k] by {
        if k == pk || k == ck {
            assert(r[k] =~= v[k]);
        }
    }
    assert(r =~= v);
}

/// Creating a node and removing it again leaves every node as it was; the text and image
/// tables lose only what they held under the new handle, the roots lose that handle, and a
/// focus on it is cleared.
pub proof fn law_create_then_remove(
    s0: Scene,
    s1: Scene,
    s2: Scene,
    id: NodeId,
    kind: NodeKind,
    touchable: bool,
    clipped: bool,
)
    requires
        s0.wf(),
        created(s0, s1, id, kind, touchable, clipped),
        node_removed(s1, s2, id),
    ensures
        s2.view_nodes() == s0.view_nodes(),
        forall|k: u64|
            #![trigger table_text(s2.text_contents@, k)]
            table_text(s2.text_contents@, k) == if k == id.0 {
                None
            } else {
                table_text(s0.text_contents@, k)
            },
        forall|k: u64|
            #![trigger table_text(s2.image_srcs@, k)]
            table_text(s2.image_srcs@, k) == if k == id.0 {
                None
            } else {
                table_text(s0.image_srcs@, k)
            },
        s2.roots@ == without(s0.roots@, id),
        s2.focused_node == cleared_focus(s0.focused_node, set![id.0]),
{
    lemma_view_nodes(s0);
    lemma_view_nodes(s1);
    lemma_view_nodes(s2);
    let r = removed(s1, s2);
    assert(s1.view_nodes().contains_key(id.0));
    assert(s1.node(id) == created_view(id, kind, touchable, clipped));
    assert forall|k: u64| r.contains(k) implies k == id.0 by {
        if k != id.0 {
            assert(below(s1, id, NodeId(k), descend_all()));
            let p = choose|p: Seq<NodeId>|
                #[trigger] crate::scene::is_path(s1, id, p, descend_all()) && p.last() == NodeId(k);
            assert(s1.node(id).children.contains(p[0]));
        }
    }
    assert(r =~= set![id.0]);
    assert(erased(r, id) =~= set![id.0]);
    assert(s2.view_nodes() =~= s0.view_nodes()) by {
        assert forall|k: u64| #[trigger] s2.view_nodes().contains_key(k) == s0.view_nodes().contains_key(k) by {
            if k != id.0 {
                assert(s1.view_nodes().contains_key(k) == s0.view_nodes().contains_key(k));
                assert(s1.slots().contains_key(k) == s2.slots().contains_key(k)) by {
                    if s1.slots().contains_key(k) && !s2.slots().contains_key(k) {
                        assert(r.contains(k));
                    }
                }
            }
        }
        assert forall|k: u64| #[trigger] s2.view_nodes().contains_key(k) implies s2.view_nodes()[k]
            == s0.view_nodes()[k] by {
            assert(detached_view(s1, id, k) == s1.view_nodes()[k]);
        }
    }
    assert forall|k: u64| true implies #[trigger] table_text(s2.text_contents@, k) == if k == id.0 {
        None
    } else {
        table_text(s0.text_contents@, k)
    } by {
        assert(table_text(s1.text_contents@, k) == table_text(s1.text_contents@, k));
    }
    assert forall|k: u64| true implies #[trigger] table_text(s2.image_srcs@, k) == if k == id.0 {
        None
    } else {
        table_text(s0.image_srcs@, k)
    } by {
        assert(table_text(s1.image_srcs@, k) == table_text(s1.image_srcs@, k));
    }
}

/// The text (or image) entry the copy of node `x` gets: the source's entry when it has one,
/// else the empty entry a fresh node of that kind starts with (`fresh` says whether it has
/// one), else what the table already held under the copy's handle (`prev`).
pub open spec fn copied_entry(m: Map<u64, String>, x: NodeId, fresh: bool, prev: Option<Seq<char>>) -> Option<
    Seq<char>,
> {
    if m.contains_key(x.0) {
        Some(m[x.0]@)
    } else if fresh {
        Some(Seq::<char>::empty())
    } else {
        prev
    }
}

/// Under every handle that `a` has no node under, `a` holds the text and image entries of
/// `b`.
pub open spec fn entries_kept_outside(b: Scene, a: Scene) -> bool {
    forall|k: u64|
        #![trigger table_text(a.text_contents@, k)]
        #![trigger table_text(a.image_srcs@, k)]
        !a.view_nodes().contains_key(k) ==> table_text(a.text_contents@, k) == table_text(
            b.text_contents@,
            k,
        ) && table_text(a.image_srcs@, k) == table_text(b.image_srcs@, k)
}

/// In `a`, `c` holds a copy of the subtree of `x` in `src`, looking `fuel` levels down, all
/// of its nodes among `keys`: a fresh node of `x`'s kind, touchability and clipping with
/// `x`'s classes and id attribute, text and image entries as `copied_entry` gives them, and
/// (with fuel left) children that are copies of `x`'s children, in order, each with `c` as
/// parent; without fuel no children.
pub open spec fn copy_at(src: Scene, a: Scene, x: NodeId, c: NodeId, fuel: nat, keys: Set<u64>) -> bool
    decreases fuel,
{
    let sn = src.node(x);
    let cn = a.view_nodes()[c.0];
    &&& src.live(x)
    &&& canonical(c)
    &&& keys.contains(c.0)
    &&& a.view_nodes().contains_key(c.0)
    &&& cn == NodeView {
        parent: cn.parent,
        children: cn.children,
        classes: sn.classes,
        id_attr: sn.id_attr,
        ..created_view(c, sn.kind, sn.touchable, sn.clipped)
    }
    &&& table_text(a.text_contents@, c.0) == copied_entry(
        src.text_contents@,
        x,
        sn.kind == NodeKind::TextNode,
        table_text(src.text_contents@, c.0),
    )
    &&& table_text(a.image_srcs@, c.0) == copied_entry(
        src.image_srcs@,
        x,
        sn.kind == NodeKind::Image,
        table_text(src.image_srcs@, c.0),
    )
    &&& if fuel == 0 {
        cn.children.len() == 0
    } else {
        &&& cn.children.len() == sn.children.len()
        &&& forall|i: int|
            #![trigger cn.children[i]]
            0 <= i < cn.children.len() ==> a.view_nodes().contains_key(cn.children[i].0) && a.view_nodes()[cn.children[i].0].parent
                == Some(c) && copy_at(src, a, sn.children[i], cn.children[i], (fuel - 1) as nat, keys.remove(c.0))
    }
}

/// `a2` agrees with `a1` on the keys `keys`: same node views and text/image entries where
/// `a1` has a node.
pub open spec fn agree_on(a1: Scene, a2: Scene, keys: Set<u64>) -> bool {
    forall|k: u64|
        #![trigger keys.contains(k)]
        keys.contains(k) && a1.view_nodes().contains_key(k) ==> a2.view_nodes().contains_key(k)
            && a2.view_nodes()[k] == a1.view_nodes()[k] && table_text(a2.text_contents@, k)
            == table_text(a1.text_contents@, k) && table_text(a2.image_srcs@, k) == table_text(
            a1.image_srcs@,
            k,
        )
}

/// A copy survives any change that leaves its keys alone, except that its root may get
/// another parent, and stays a copy within any larger key set.
proof fn lemma_copy_frame(src: Scene, a1: Scene, a2: Scene, x: NodeId, c: NodeId, fuel: nat, keys: Set<u64>, wider: Set<u64>)
    requires
        copy_at(src, a1, x, c, fuel, keys),
        agree_on(a1, a2, keys.remove(c.0)),
        a2.view_nodes().contains_key(c.0),
        a2.view_nodes()[c.0] == (NodeView { parent: a2.view_nodes()[c.0].parent, ..a1.view_nodes()[c.0] }),
        table_text(a2.text_contents@, c.0) == table_text(a1.text_contents@, c.0),
        table_text(a2.image_srcs@, c.0) == table_text(a1.image_srcs@, c.0),
        keys.subset_of(wider),
    ensures
        copy_at(src, a2, x, c, fuel, wider),
    decreases fuel,
{
    if fuel > 0 {
        let cn = a1.view_nodes()[c.0];
        let sn = src.node(x);
        assert(a2.view_nodes()[c.0].children == cn.children);
        assert forall|i: int|
            #![trigger cn.children[i]]
            0 <= i < cn.children.len() implies a2.view_nodes().contains_key(cn.children[i].0)
                && a2.view_nodes()[cn.children[i].0].parent == Some(c) && copy_at(
                src,
                a2,
                sn.children[i],
                cn.children[i],
                (fuel - 1) as nat,
                wider.remove(c.0),
            ) by {
            let k = cn.children[i];
            let ks = keys.remove(c.0);
            assert(copy_at(src, a1, sn.children[i], k, (fuel - 1) as nat, ks));
            assert(ks.contains(k.0)) by {
                reveal_with_fuel(copy_at, 2);
            }
            assert(agree_on(a1, a2, ks.remove(k.0))) by {
                assert forall|kk: u64| #![trigger ks.remove(k.0).contains(kk)] ks.remove(k.0).contains(kk) && a1.view_nodes().contains_key(kk)
                    implies a2.view_nodes().contains_key(kk) && a2.view_nodes()[kk] == a1.view_nodes()[kk]
                    && table_text(a2.text_contents@, kk) == table_text(a1.text_contents@, kk)
                    && table_text(a2.image_srcs@, kk) == table_text(a1.image_srcs@, kk) by {
                    assert(ks.contains(kk));
                }
            }
            lemma_copy_frame(src, a1, a2, sn.children[i], k, (fuel - 1) as nat, ks, wider.remove(c.0));
        }
    }
}

/// How many nodes copying the subtree of `x` (`fuel` levels down) creates.
pub open spec fn clone_size(s: Scene, x: NodeId, fuel: nat) -> nat
    decreases fuel, 0nat,
{
    1 + if fuel > 0 && s.live(x) {
        clone_sizes(s, s.node(x).children, (fuel - 1) as nat)
    } else {
        0
    }
}

/// How many nodes copying the subtrees of `kids` creates.
pub open spec fn clone_sizes(s: Scene, kids: Seq<NodeId>, fuel: nat) -> nat
    decreases fuel, kids.len(),
{
    if kids.len() == 0 {
        0
    } else {
        clone_sizes(s, kids.drop_last(), fuel) + clone_size(s, kids.last(), fuel)
    }
}

/// The sizes of a prefix of `kids` add up to at most the sizes of all of them.
proof fn lemma_clone_sizes_prefix(s: Scene, kids: Seq<NodeId>, fuel: nat, i: int)
    requires
        0 <= i <= kids.len(),
    ensures
        clone_sizes(s, kids.take(i), fuel) <= clone_sizes(s, kids, fuel),
    decreases kids.len() - i,
{
    if i < kids.len() {
        lemma_clone_sizes_prefix(s, kids, fuel, i + 1);
        assert(kids.take(i + 1).drop_last() =~= kids.take(i));
    } else {
        assert(kids.take(i) =~= kids);
    }
}

/// A copy of a list of strings.
fn copy_strings(v: &Vec<String>) -> (r: Vec<String>)
    ensures
        r@.map_values(|t: String| t@) == v@.map_values(|t: String| t@),
{
    let mut out: Vec<String> = Vec::new();
    let mut i: usize = 0;
    while i < v.len()
        invariant
            i <= v@.len(),
            out@.len() == i,
            forall|j: int| 0 <= j < i ==> (#[trigger] out@[j])@ == v@[j]@,
        decreases v@.len() - i,
    {
        out.push(v[i].clone());
        i = i + 1;
    }
    assert(out@.map_values(|t: String| t@) =~= v@.map_values(|t: String| t@));
    out
}

/// A copy of a list of handles.
fn copy_ids(v: &Vec<NodeId>) -> (r: Vec<NodeId>)
    ensures
        r@ == v@,
{
    let mut out: Vec<NodeId> = Vec::new();
    let mut i: usize = 0;
    while i < v.len()
        invariant
            i <= v@.len(),
            out@ == v@.take(i as int),
        decreases v@.len() - i,
    {
        out.push(v[i]);
        i = i + 1;
        assert(out@ =~= v@.take(i as int));
    }
    assert(v@.take(v@.len() as int) =~= v@);
    out
}

/// The view of the copy `c` of a node viewed as `sn`: a fresh detached node of its kind,
/// touchability and clipping, with its classes and id attribute.
pub open spec fn copy_view(c: NodeId, sn: NodeView) -> NodeView {
    NodeView {
        parent: None,
        children: Seq::empty(),
        classes: sn.classes,
        id_attr: sn.id_attr,
        ..created_view(c, sn.kind, sn.touchable, sn.clipped)
    }
}

/// Stores a fresh detached copy of the live node `x` of `src` (no children) and returns its
/// handle: `copy_view` of `x`'s view, with text and image entries as `copied_entry` gives
/// them.
fn copy_node(scene: &mut Scene, x: NodeId, Ghost(src): Ghost<Scene>) -> (c: NodeId)
    requires
        old(scene).wf(),
        old(scene).has_room(),
        src.wf(),
        src.live(x),
        canonical(x),
        entries_kept_outside(src, *old(scene)),
        agree_on(src, *old(scene), src.view_nodes().dom()),
    ensures
        final(scene).wf(),
        entries_kept_outside(src, *final(scene)),
        canonical(c),
        !old(scene).view_nodes().contains_key(c.0),
        final(scene).view_nodes() == old(scene).view_nodes().insert(c.0, copy_view(c, src.node(x))),
        forall|k: u64|
            #![trigger table_text(final(scene).text_contents@, k)]
            #![trigger table_text(final(scene).image_srcs@, k)]
            k != c.0 ==> table_text(final(scene).text_contents@, k) == table_text(old(scene).text_contents@, k)
                && table_text(final(scene).image_srcs@, k) == table_text(old(scene).image_srcs@, k),
        table_text(final(scene).text_contents@, c.0) == copied_entry(
            src.text_contents@,
            x,
            src.node(x).kind == NodeKind::TextNode,
            table_text(src.text_contents@, c.0),
        ),
        table_text(final(scene).image_srcs@, c.0) == copied_entry(
            src.image_srcs@,
            x,
            src.node(x).kind == NodeKind::Image,
            table_text(src.image_srcs@, c.0),
        ),
        agree_on(*old(scene), *final(scene), old(scene).view_nodes().dom()),
        agree_on(src, *final(scene), src.view_nodes().dom()),
        final(scene).roots == old(scene).roots,
        final(scene).focused_node == old(scene).focused_node,
        final(scene).roles == old(scene).roles,
        final(scene).controls == old(scene).controls,
        slot_span(final(scene).nodes) <= slot_span(old(scene).nodes) + 1,
{
    let ghost s0 = *scene;
    proof {
        lemma_view_nodes(s0);
        lemma_view_nodes(src);
        assert(src.view_nodes().contains_key(norm_key(x.0)));
    }
    let n = scene.get(x).unwrap();
    let kind = n.kind;
    let touchable = n.interaction.touchable;
    let clipped = n.clipped;
    let classes = copy_strings(&n.classes);
    let id_attr = match &n.id_attr {
        Some(t) => Some(t.clone()),
        None => None,
    };
    let ghost sn = src.node(x);
    assert(n@ == sn);
    let content: Option<String> = match scene.text_contents.get(&x.0) {
        Some(t) => Some(t.clone()),
        None => None,
    };
    let image: Option<String> = match scene.image_srcs.get(&x.0) {
        Some(t) => Some(t.clone()),
        None => None,
    };
    proof {
        assert(src.view_nodes().dom().contains(x.0));
        assert(table_text(s0.text_contents@, x.0) == table_text(src.text_contents@, x.0));
        assert(table_text(s0.image_srcs@, x.0) == table_text(src.image_srcs@, x.0));
    }
    let ghost cls_view = classes@.map_values(|t: String| t@);
    let ghost ida_view = crate::scene::opt_str_view(id_attr);
    assert(cls_view == sn.classes);
    assert(ida_view == sn.id_attr);
    let c = alloc_node(scene, kind, touchable, clipped);
    let ghost s1 = *scene;
    let ghost cv0 = copy_view(c, sn);
    proof {
        lemma_view_nodes(s1);
        assert(created(s0, s1, c, kind, touchable, clipped));
        assert(s1.view_nodes() == s0.view_nodes().insert(c.0, created_view(c, kind, touchable, clipped)));
        assert(s1.view_nodes().contains_key(c.0));
        assert(s1.view_nodes()[c.0] == created_view(c, kind, touchable, clipped));
        assert(s1.slots().contains_key(c.0));
        assert(s1.slots()[c.0]@ == created_view(c, kind, touchable, clipped));
    }
    match scene.get_mut(c) {
        Some(m) => {
            m.classes = classes;
            m.id_attr = id_attr;
            assert(m@ == cv0);
        },
        None => {},
    }
    proof {
        lemma_view_nodes(*scene);
        assert(scene.slots().dom() =~= s1.slots().dom());
        lemma_same_links(s1, *scene);
        assert(scene.view_nodes() =~= s0.view_nodes().insert(c.0, cv0));
    }
    let ghost s2 = *scene;
    match content {
        Some(t) => {
            scene.text_contents.insert(c.0, t);
        },
        None => {},
    }
    match image {
        Some(t) => {
            scene.image_srcs.insert(c.0, t);
        },
        None => {},
    }
    proof {
        reveal(Scene::links_ok);
        lemma_view_nodes(*scene);
        assert(scene.view_nodes() == s2.view_nodes());
        assert(table_text(s0.text_contents@, c.0) == table_text(src.text_contents@, c.0));
        assert(table_text(s0.image_srcs@, c.0) == table_text(src.image_srcs@, c.0));
        assert forall|k: u64| #![trigger src.view_nodes().dom().contains(k)] src.view_nodes().dom().contains(k) implies s0.view_nodes().contains_key(k) by {
            assert(src.view_nodes().dom().contains(k));
        }
        assert forall|k: u64| k != c.0 implies #[trigger] table_text(scene.text_contents@, k) == table_text(s0.text_contents@, k)
            && table_text(scene.image_srcs@, k) == table_text(s0.image_srcs@, k) by {
            assert(table_text(s1.text_contents@, k) == table_text(s0.text_contents@, k));
            assert(table_text(s1.image_srcs@, k) == table_text(s0.image_srcs@, k));
        }
        assert(table_text(s1.text_contents@, c.0) == if kind == NodeKind::TextNode { Some(Seq::<char>::empty()) } else { table_text(s0.text_contents@, c.0) });
        assert(table_text(s1.image_srcs@, c.0) == if kind == NodeKind::Image { Some(Seq::<char>::empty()) } else { table_text(s0.image_srcs@, c.0) });
        assert(agree_on(s0, *scene, s0.view_nodes().dom()));
        assert(agree_on(src, *scene, src.view_nodes().dom())) by {
            assert forall|k: u64| #![trigger src.view_nodes().dom().contains(k)] src.view_nodes().dom().contains(k) && src.view_nodes().contains_key(k)
                implies scene.view_nodes().contains_key(k) && scene.view_nodes()[k] == src.view_nodes()[k]
                && table_text(scene.text_contents@, k) == table_text(src.text_contents@, k)
                && table_text(scene.image_srcs@, k) == table_text(src.image_srcs@, k) by {
                assert(s0.view_nodes().dom().contains(k));
                assert(k != c.0);
                assert(table_text(scene.text_contents@, k) == table_text(s0.text_contents@, k));
            }
        }
        assert forall|k: u64| !scene.view_nodes().contains_key(k) implies #[trigger] table_text(
            scene.text_contents@,
            k,
        ) == table_text(src.text_contents@, k) && table_text(scene.image_srcs@, k) == table_text(
            src.image_srcs@,
            k,
        ) by {
            assert(k != c.0);
            assert(table_text(scene.text_contents@, k) == table_text(s0.text_contents@, k));
            assert(!s0.view_nodes().contains_key(k));
        }
    }
    c
}

/// Copies the subtree of the live node `x` of `src` (`fuel` levels down) into `scene` as a
/// fresh detached tree and returns its root (`copy_at`). Nodes `scene` already had keep their
/// views and entries; the roots, focus, role and control tables are untouched.
fn clone_subtree(scene: &mut Scene, x: NodeId, fuel: usize, Ghost(src): Ghost<Scene>) -> (c: NodeId)
    requires
        old(scene).wf(),
        src.wf(),
        src.live(x),
        canonical(x),
        entries_kept_outside(src, *old(scene)),
        agree_on(src, *old(scene), src.view_nodes().dom()),
        slot_span(old(scene).nodes) + clone_size(src, x, fuel as nat) <= u32::MAX,
    ensures
        final(scene).wf(),
        entries_kept_outside(src, *final(scene)),
        old(scene).view_nodes().dom().subset_of(final(scene).view_nodes().dom()),
        agree_on(*old(scene), *final(scene), old(scene).view_nodes().dom()),
        copy_at(
            src,
            *final(scene),
            x,
            c,
            fuel as nat,
            final(scene).view_nodes().dom().difference(old(scene).view_nodes().dom()),
        ),
        final(scene).view_nodes()[c.0].parent is None,
        forall|k: u64|
            #![trigger table_text(final(scene).text_contents@, k)]
            #![trigger table_text(final(scene).image_srcs@, k)]
            !final(scene).view_nodes().dom().difference(old(scene).view_nodes().dom()).contains(k)
                ==> table_text(final(scene).text_contents@, k) == table_text(old(scene).text_contents@, k)
                && table_text(final(scene).image_srcs@, k) == table_text(old(scene).image_srcs@, k),
        final(scene).roots == old(scene).roots,
        final(scene).focused_node == old(scene).focused_node,
        final(scene).roles == old(scene).roles,
        final(scene).controls == old(scene).controls,
        slot_span(final(scene).nodes) <= slot_span(old(scene).nodes) + clone_size(src, x, fuel as nat),
    decreases fuel,
{
    let ghost s0 = *scene;
    proof {
        lemma_view_nodes(s0);
        lemma_view_nodes(src);
    }
    let c = copy_node(scene, x, Ghost(src));
    let ghost sn = src.node(x);
    let ghost cv0 = copy_view(c, sn);
    proof {
        lemma_view_nodes(*scene);
        assert(src.view_nodes().dom().contains(x.0));
    }
    let kids = copy_ids(&scene.get(x).unwrap().children);
    if fuel == 0 {
        return c;
    }
    proof {
        lemma_children_canonical(src, x);
        assert forall|k: u64| src.view_nodes().dom().contains(k) implies #[trigger] s0.view_nodes().dom().contains(k) by {
            assert(src.view_nodes().dom().contains(k));
        }
    }
    let mut i: usize = 0;
    while i < kids.len()
        invariant
            fuel > 0,
            scene.wf(),
            src.wf(),
            src.live(x),
            sn == src.node(x),
            kids@ == sn.children,
            i <= kids@.len(),
            canonical(c),
            entries_kept_outside(src, *scene),
            forall|j: int| 0 <= j < kids@.len() ==> src.live(#[trigger] kids@[j]) && canonical(kids@[j]),
            s0.view_nodes().dom().subset_of(scene.view_nodes().dom()),
            !s0.view_nodes().contains_key(c.0),
            scene.view_nodes().contains_key(c.0),
            agree_on(s0, *scene, s0.view_nodes().dom()),
            agree_on(src, *scene, src.view_nodes().dom()),
            src.view_nodes().dom().subset_of(s0.view_nodes().dom()),
            scene.view_nodes()[c.0] == (NodeView { children: scene.view_nodes()[c.0].children, ..cv0 }),
            cv0 == (NodeView {
                parent: None,
                children: Seq::empty(),
                classes: sn.classes,
                id_attr: sn.id_attr,
                ..created_view(c, sn.kind, sn.touchable, sn.clipped)
            }),
            scene.view_nodes()[c.0].children.len() == i,
            table_text(scene.text_contents@, c.0) == copied_entry(
                src.text_contents@,
                x,
                sn.kind == NodeKind::TextNode,
                table_text(src.text_contents@, c.0),
            ),
            table_text(scene.image_srcs@, c.0) == copied_entry(
                src.image_srcs@,
                x,
                sn.kind == NodeKind::Image,
                table_text(src.image_srcs@, c.0),
            ),
            forall|j: int|
                #![trigger scene.view_nodes()[c.0].children[j]]
                0 <= j < i ==> scene.view_nodes().contains_key(scene.view_nodes()[c.0].children[j].0)
                    && scene.view_nodes()[scene.view_nodes()[c.0].children[j].0].parent == Some(c)
                    && copy_at(
                    src,
                    *scene,
                    kids@[j],
                    scene.view_nodes()[c.0].children[j],
                    (fuel - 1) as nat,
                    scene.view_nodes().dom().difference(s0.view_nodes().dom()).remove(c.0),
                ),
            forall|k: u64|
                #![trigger table_text(scene.text_contents@, k)]
                #![trigger table_text(scene.image_srcs@, k)]
                !scene.view_nodes().dom().difference(s0.view_nodes().dom()).contains(k)
                    ==> table_text(scene.text_contents@, k) == table_text(s0.text_contents@, k)
                    && table_text(scene.image_srcs@, k) == table_text(s0.image_srcs@, k),
            scene.roots == s0.roots,
            scene.focused_node == s0.focused_node,
            scene.roles == s0.roles,
            scene.controls == s0.controls,
            slot_span(scene.nodes) <= slot_span(s0.nodes) + 1 + clone_sizes(src, kids@.take(i as int), (fuel - 1) as nat),
            slot_span(s0.nodes) + 1 + clone_sizes(src, kids@, (fuel - 1) as nat) <= u32::MAX,
        decreases kids@.len() - i,
    {
        let ghost s2 = *scene;
        let kid = kids[i];
        proof {
            lemma_clone_sizes_prefix(src, kids@, (fuel - 1) as nat, i + 1);
            assert(kids@.take(i + 1).drop_last() =~= kids@.take(i as int));
            assert(kids@.take(i + 1).last() == kid);
        }
        let nc = clone_subtree(scene, kid, fuel - 1, Ghost(src));
        let ghost s3 = *scene;
        proof {
            lemma_view_nodes(s2);
            lemma_view_nodes(s3);
            assert(copy_at(src, s3, kid, nc, (fuel - 1) as nat, s3.view_nodes().dom().difference(s2.view_nodes().dom())));
            assert(s3.view_nodes().dom().difference(s2.view_nodes().dom()).contains(nc.0));
            assert(!s2.view_nodes().dom().contains(nc.0));
            assert(s3.view_nodes()[c.0] == s2.view_nodes()[c.0]);
            assert forall|j: int| 0 <= j < s3.view_nodes()[c.0].children.len() implies s3.view_nodes()[c.0].children[j] != nc by {
                assert(s2.view_nodes().contains_key(s2.view_nodes()[c.0].children[j].0));
            }
            assert(!s3.view_nodes()[c.0].children.contains(nc));
        }
        let _ = append_child(scene, c, nc);
        proof {
            let s4 = *scene;
            lemma_view_nodes(s4);
            assert(s4.view_nodes() == appended(s3.view_nodes(), c, nc));
            assert(same_tables(s3, s4));
            let k2 = s2.view_nodes().dom().difference(s0.view_nodes().dom()).remove(c.0);
            let k3n = s3.view_nodes().dom().difference(s2.view_nodes().dom());
            let k4 = s4.view_nodes().dom().difference(s0.view_nodes().dom()).remove(c.0);
            assert(s4.view_nodes().dom() =~= s3.view_nodes().dom());
            // every key other than c and nc keeps its view and entries
            assert forall|k: u64| k != c.0 && k != nc.0 && s3.view_nodes().contains_key(k) implies
                s4.view_nodes().contains_key(k) && #[trigger] s4.view_nodes()[k] == s3.view_nodes()[k] by {
            }
            assert forall|k: u64| #![trigger s2.view_nodes().dom().contains(k)] s2.view_nodes().dom().contains(k) && k != c.0 implies
                s4.view_nodes().contains_key(k) && s4.view_nodes()[k] == s2.view_nodes()[k]
                && table_text(s4.text_contents@, k) == table_text(s2.text_contents@, k)
                && table_text(s4.image_srcs@, k) == table_text(s2.image_srcs@, k) by {
                assert(s2.view_nodes().dom().contains(k));
                assert(k != nc.0);
            }
            assert(agree_on(s0, s4, s0.view_nodes().dom())) by {
                assert forall|k: u64| #![trigger s0.view_nodes().dom().contains(k)] s0.view_nodes().dom().contains(k) && s0.view_nodes().contains_key(k) implies
                    s4.view_nodes().contains_key(k) && s4.view_nodes()[k] == s0.view_nodes()[k]
                    && table_text(s4.text_contents@, k) == table_text(s0.text_contents@, k)
                    && table_text(s4.image_srcs@, k) == table_text(s0.image_srcs@, k) by {
                    assert(s2.view_nodes().dom().contains(k));
                }
            }
            assert(agree_on(src, s4, src.view_nodes().dom())) by {
                assert forall|k: u64| #![trigger src.view_nodes().dom().contains(k)] src.view_nodes().dom().contains(k) && src.view_nodes().contains_key(k) implies
                    s4.view_nodes().contains_key(k) && s4.view_nodes()[k] == src.view_nodes()[k]
                    && table_text(s4.text_contents@, k) == table_text(src.text_contents@, k)
                    && table_text(s4.image_srcs@, k) == table_text(src.image_srcs@, k) by {
                    assert(src.view_nodes().dom().contains(k));
                    assert(s0.view_nodes().dom().contains(k));
                    assert(s2.view_nodes().dom().contains(k));
                    assert(k != c.0);
                }
            }
            let cv4 = s4.view_nodes()[c.0];
            assert(cv4.children == s2.view_nodes()[c.0].children.push(nc));
            assert forall|j: int|
                #![trigger cv4.children[j]]
                0 <= j < i + 1 implies s4.view_nodes().contains_key(cv4.children[j].0)
                    && s4.view_nodes()[cv4.children[j].0].parent == Some(c)
                    && copy_at(src, s4, kids@[j], cv4.children[j], (fuel - 1) as nat, k4) by {
                if j < i {
                    let ch = cv4.children[j];
                    assert(ch == s2.view_nodes()[c.0].children[j]);
                    assert(copy_at(src, s2, kids@[j], ch, (fuel - 1) as nat, k2));
                    assert(k2.contains(ch.0)) by {
                        reveal_with_fuel(copy_at, 1);
                    }
                    assert(agree_on(s2, s4, k2.remove(ch.0))) by {
                        assert forall|k: u64| #![trigger k2.remove(ch.0).contains(k)] k2.remove(ch.0).contains(k) && s2.view_nodes().contains_key(k) implies
                            s4.view_nodes().contains_key(k) && s4.view_nodes()[k] == s2.view_nodes()[k]
                            && table_text(s4.text_contents@, k) == table_text(s2.text_contents@, k)
                            && table_text(s4.image_srcs@, k) == table_text(s2.image_srcs@, k) by {
                            assert(s2.view_nodes().dom().contains(k));
                        }
                    }
                    assert(s2.view_nodes().dom().contains(ch.0));
                    assert(k2.subset_of(k4));
                    lemma_copy_frame(src, s2, s4, kids@[j], ch, (fuel - 1) as nat, k2, k4);
                } else {
                    assert(cv4.children[j] == nc);
                    assert(agree_on(s3, s4, k3n.remove(nc.0))) by {
                        assert forall|k: u64| #![trigger k3n.remove(nc.0).contains(k)] k3n.remove(nc.0).contains(k) && s3.view_nodes().contains_key(k) implies
                            s4.view_nodes().contains_key(k) && s4.view_nodes()[k] == s3.view_nodes()[k]
                            && table_text(s4.text_contents@, k) == table_text(s3.text_contents@, k)
                            && table_text(s4.image_srcs@, k) == table_text(s3.image_srcs@, k) by {
                            assert(k3n.contains(k));
                            assert(s2.view_nodes().dom().contains(c.0));
                            assert(k != c.0);
                        }
                    }
                    assert(k3n.subset_of(k4));
                    lemma_copy_frame(src, s3, s4, kid, nc, (fuel - 1) as nat, k3n, k4);
                }
            }
            assert forall|k: u64|
                #![trigger table_text(s4.text_contents@, k)]
                #![trigger table_text(s4.image_srcs@, k)]
                !s4.view_nodes().dom().difference(s0.view_nodes().dom()).contains(k)
                    implies table_text(s4.text_contents@, k) == table_text(s0.text_contents@, k)
                    && table_text(s4.image_srcs@, k) == table_text(s0.image_srcs@, k) by {
                assert(!k3n.contains(k));
                assert(table_text(s3.text_contents@, k) == table_text(s2.text_contents@, k));
                assert(table_text(s3.image_srcs@, k) == table_text(s2.image_srcs@, k));
                assert(!s2.view_nodes().dom().difference(s0.view_nodes().dom()).contains(k));
                assert(table_text(s2.text_contents@, k) == table_text(s0.text_contents@, k));
            }
            assert(entries_kept_outside(src, s4)) by {
                assert forall|k: u64| !s4.view_nodes().contains_key(k) implies #[trigger] table_text(
                    s4.text_contents@,
                    k,
                ) == table_text(src.text_contents@, k) && table_text(s4.image_srcs@, k) == table_text(
                    src.image_srcs@,
                    k,
                ) by {
                    assert(!s3.view_nodes().contains_key(k));
                    assert(table_text(s3.text_contents@, k) == table_text(src.text_contents@, k));
                    assert(table_text(s3.image_srcs@, k) == table_text(src.image_srcs@, k));
                }
            }
        }
        i = i + 1;
    }
    proof {
        let sf = *scene;
        assert(kids@.take(kids@.len() as int) =~= kids@);
        let keys = sf.view_nodes().dom().difference(s0.view_nodes().dom());
        assert(keys.remove(c.0) =~= sf.view_nodes().dom().difference(s0.view_nodes().dom()).remove(c.0));
        assert(copy_at(src, sf, x, c, fuel as nat, keys));
    }
    c
}

/// `after` is `before` with the subtree of `src` copied as a fresh detached tree rooted at
/// `r` (`copy_at`, from the node `src` denotes, as many levels down as `before` has live
/// nodes): nodes `before` had keep their views and entries, the other handles keep their
/// entries, and roots, focus, roles and controls are as before.
pub open spec fn cloned(before: Scene, after: Scene, src: NodeId, r: NodeId) -> bool {
    &&& after.wf()
    &&& before.view_nodes().dom().subset_of(after.view_nodes().dom())
    &&& agree_on(before, after, before.view_nodes().dom())
    &&& copy_at(
        before,
        after,
        NodeId(norm_key(src.0)),
        r,
        before.slots().len(),
        after.view_nodes().dom().difference(before.view_nodes().dom()),
    )
    &&& after.view_nodes()[r.0].parent is None
    &&& forall|k: u64|
        #![trigger table_text(after.text_contents@, k)]
        #![trigger table_text(after.image_srcs@, k)]
        !after.view_nodes().dom().difference(before.view_nodes().dom()).contains(k)
            ==> table_text(after.text_contents@, k) == table_text(before.text_contents@, k)
            && table_text(after.image_srcs@, k) == table_text(before.image_srcs@, k)
    &&& after.roots == before.roots
    &&& after.focused_node == before.focused_node
    &&& after.roles == before.roles
    &&& after.controls == before.controls
}

/// Clones the subtree of the live node `src` as a fresh detached tree (attached nowhere; the
/// caller appends it) and returns its root (`copy_at`, from the node `src` denotes): every
/// node becomes a fresh node of the same kind, touchability and clipping with the same
/// classes, id attribute and text / image entries (a text node or image without an entry gets
/// the empty one a fresh node of its kind starts with; `copied_entry`), its children copied in
/// order. Runtime state (controls, roles, focus) is not copied and nodes already in the scene
/// keep their views and entries. The copy follows the tree as many levels down as the scene
/// has live nodes.
pub fn clone_node_recursive(scene: &mut Scene, src: NodeId) -> (r: NodeId)
    requires
        old(scene).wf(),
        old(scene).live(src),
        slot_span(old(scene).nodes) + clone_size(*old(scene), NodeId(norm_key(src.0)), old(scene).slots().len())
            <= u32::MAX,
    ensures
        cloned(*old(scene), *final(scene), src, r),
{
    let ghost s0 = *scene;
    let x = scene.get(src).unwrap().id;
    proof {
        reveal(Scene::links_ok);
        lemma_view_nodes(s0);
        assert(x == NodeId(norm_key(src.0)));
        assert(s0.live(x));
        assert(agree_on(s0, s0, s0.view_nodes().dom()));
    }
    let budget = scene.node_count();
    clone_subtree(scene, x, budget, Ghost(s0))
}


/// `clone_size` of `x` in `scene` (`fuel` levels down), or `cap + 1` when it is larger.
fn count_clone(scene: &Scene, x: NodeId, fuel: usize, cap: u64) -> (r: u64)
    requires
        cap <= u32::MAX,
    ensures
        r == if clone_size(*scene, x, fuel as nat) <= cap {
            clone_size(*scene, x, fuel as nat) as u64
        } else {
            (cap + 1) as u64
        },
    decreases fuel,
{
    if fuel == 0 || cap == 0 {
        return 1;
    }
    let kids = match scene.get(x) {
        Some(n) => &n.children,
        None => {
            return 1;
        },
    };
    let ghost ks = scene.node(x).children;
    proof {
        assert(kids@ == ks);
    }
    let mut total: u64 = 1;
    let mut i: usize = 0;
    while i < kids.len()
        invariant
            cap <= u32::MAX,
            fuel > 0,
            scene.live(x),
            kids@ == ks,
            ks == scene.node(x).children,
            i <= kids@.len(),
            1 + clone_sizes(*scene, ks.take(i as int), (fuel - 1) as nat) <= cap,
            total == 1 + clone_sizes(*scene, ks.take(i as int), (fuel - 1) as nat),
        decreases kids@.len() - i,
    {
        let c = count_clone(scene, kids[i], fuel - 1, cap);
        proof {
            assert(ks.take(i + 1).drop_last() =~= ks.take(i as int));
            assert(ks.take(i + 1).last() == ks[i as int]);
            lemma_clone_sizes_prefix(*scene, ks, (fuel - 1) as nat, i + 1);
        }
        if total + c > cap {
            return cap + 1;
        }
        total = total + c;
        i = i + 1;
    }
    proof {
        assert(ks.take(ks.len() as int) =~= ks);
    }
    total
}

/// `clone_node_recursive` when the copy fits: with room in the slot map for every node of the
/// copy, as far as the store's capacity shows it, the subtree of `src` is copied (`cloned`)
/// and its root returned; otherwise (or for a dead `src`) `None` and nothing changes.
pub fn try_clone_node_recursive(scene: &mut Scene, src: NodeId) -> (r: Option<NodeId>)
    requires
        old(scene).wf(),
    ensures
        match r {
            Some(c) => cloned(*old(scene), *final(scene), src, c),
            None => *final(scene) == *old(scene),
        },
        !old(scene).live(src) ==> r is None,
{
    let x = match scene.get(src) {
        Some(n) => n.id,
        None => {
            return None;
        },
    };
    proof {
        reveal(Scene::links_ok);
        crate::scene::lemma_view_nodes(*scene);
        assert(x == NodeId(norm_key(src.0)));
    }
    let bound = scene.slot_bound();
    if bound >= 0xFFFF_FFFFusize {
        return None;
    }
    let room: u64 = 0xFFFF_FFFFu64 - 1 - bound as u64;
    let size = count_clone(scene, x, scene.node_count(), room);
    if size > room {
        return None;
    }
    Some(clone_node_recursive(scene, src))
}

} // verus!
